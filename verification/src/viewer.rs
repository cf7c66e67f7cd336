//! The viewer's settings, and what keys and frames do to them.

use crate::float::{fl_add, fl_sub, single_exponent, single_fraction, single_value, Single};
use crate::frame::FramePair;
use crate::palette::{Lut, Palette};
use crate::render::{whole_single, LutParams};
use crate::rounding::{lemma_pow2_below, lemma_rounded_lower, lemma_rounded_upper};
use crate::usb::Command;
use vstd::arithmetic::power2::{lemma2_to64, lemma_pow2_adds, lemma_pow2_pos, pow2};
use vstd::prelude::*;

verus! {

/// The bits of the binary32 value nearest to one tenth: the step of the contrast, and its least.
pub const TENTH: u32 = 0x3DCC_CCCD;

/// The bits of the binary32 value one.
pub const ONE: u32 = 0x3F80_0000;

/// The largest contrast.
pub const MAX_CONTRAST: u64 = 5;

/// How the picture is shown.
pub struct ViewerState {
    pub palette_idx: usize,
    pub use_palette: bool,
    pub histeq: bool,
    pub fullscreen: bool,
    pub show_y16: bool,
    /// The bits of a binary32 value.
    pub contrast: u32,
    pub low_noise: bool,
    pub vsync: bool,
}

/// The viewer: its settings, and what is still to be done with the next frame.
pub struct Viewer {
    pub state: ViewerState,
    /// How many palettes there are.
    pub palettes: usize,
    /// Whether the color bar is to be drawn anew.
    pub bar_dirty: bool,
    /// Whether a screenshot is to be taken.
    pub want_screenshot: bool,
    /// The number of the last frame shown.
    pub last_seq: u64,
}

/// The keys that mean something.
pub enum Key {
    Escape,
    Q,
    C,
    P,
    H,
    T,
    F,
    V,
    S,
    R,
    Space,
    N,
    G,
    Plus,
    Equals,
    KpPlus,
    Minus,
    Underscore,
    KpMinus,
    /// Any other, by how far its code lies behind that of the key `1`.
    Other(i32),
}

/// What is to be done outside the viewer.
pub enum Effect {
    Nothing,
    Quit,
    /// Go to fullscreen, or leave it.
    Fullscreen(bool),
    /// Switch the wait for the display's refresh on or off.
    Vsync(bool),
    /// Start recording, or stop it.
    Record,
    /// Send a command to the camera.
    Send(Command),
    /// Run the extended correction.
    ExtendedNuc,
}

/// The least contrast, and its step.
pub open spec fn tenth() -> int {
    single_value(TENTH)
}

/// A contrast one step up.
pub open spec fn contrast_up(c: int) -> int {
    let v = fl_add(24, c, tenth());
    if v < whole_single(MAX_CONTRAST as int) {
        v
    } else {
        whole_single(MAX_CONTRAST as int)
    }
}

/// A contrast one step down.
pub open spec fn contrast_down(c: int) -> int {
    let v = fl_sub(24, c, tenth());
    if v > tenth() {
        v
    } else {
        tenth()
    }
}

/// Whether bits are those of a contrast: a value between 0.1 and 5.
#[verifier::opaque]
pub open spec fn is_contrast(bits: u32) -> bool {
    &&& single_exponent(bits) < 0xff
    &&& tenth() <= single_value(bits) <= whole_single(MAX_CONTRAST as int)
}

impl ViewerState {
    /// The contrast is within its bounds.
    pub open spec fn wf(&self) -> bool {
        is_contrast(self.contrast)
    }
}

/// The palette after the selected one, the first after the last.
pub open spec fn next_palette(i: usize, palettes: usize) -> usize {
    if i + 1 == palettes {
        0
    } else {
        (i + 1) as usize
    }
}

/// The settings after a key that does not change the contrast.
pub open spec fn state_after(s: ViewerState, palettes: usize, key: Key) -> ViewerState {
    match key {
        Key::C => ViewerState { palette_idx: next_palette(s.palette_idx, palettes), ..s },
        Key::P => ViewerState { use_palette: !s.use_palette, ..s },
        Key::H => ViewerState { histeq: !s.histeq, ..s },
        Key::T => ViewerState { show_y16: !s.show_y16, ..s },
        Key::F => ViewerState { fullscreen: !s.fullscreen, ..s },
        Key::V => ViewerState { vsync: !s.vsync, ..s },
        Key::G => ViewerState { low_noise: !s.low_noise, ..s },
        Key::Other(n) => if 0 <= n < palettes {
            ViewerState { palette_idx: n as usize, ..s }
        } else {
            s
        },
        _ => s,
    }
}

/// What is to be done outside the viewer after a key.
pub open spec fn effect_of(s: ViewerState, key: Key) -> Effect {
    match key {
        Key::Escape => Effect::Quit,
        Key::Q => Effect::Quit,
        Key::F => Effect::Fullscreen(!s.fullscreen),
        Key::V => Effect::Vsync(!s.vsync),
        Key::R => Effect::Record,
        Key::Space => Effect::Send(Command::QuickNuc),
        Key::N => Effect::ExtendedNuc,
        Key::G => Effect::Send(Command::LowNoise { on: !s.low_noise }),
        _ => Effect::Nothing,
    }
}

/// Whether a key can change the colors of the color bar.
pub open spec fn recolors(key: Key, palettes: usize) -> bool {
    match key {
        Key::C => true,
        Key::P => true,
        Key::Other(n) => 0 <= n < palettes,
        _ => false,
    }
}

/// Whether a key steps the contrast up.
pub open spec fn raises(key: Key) -> bool {
    key is Plus || key is Equals || key is KpPlus
}

/// Whether a key steps the contrast down.
pub open spec fn lowers(key: Key) -> bool {
    key is Minus || key is Underscore || key is KpMinus
}

/// The step of the contrast is the binary32 value nearest to one tenth, and the contrast at the
/// start is one.
pub proof fn lemma_tenth()
    ensures
        single_exponent(TENTH) < 0xff,
        tenth() == 0xCC_CCCD * pow2(122),
        0 < tenth() < whole_single(1),
        single_exponent(ONE) < 0xff,
        single_value(ONE) == whole_single(1),
{
    lemma2_to64();
    lemma_pow2_pos(122);
    lemma_pow2_pos(149);
    lemma_pow2_adds(27, 122);
    lemma_pow2_adds(23, 126);
    assert(single_exponent(TENTH) == 123);
    assert(single_fraction(TENTH) == 0x4C_CCCD);
    assert(single_exponent(ONE) == 127);
    assert(single_fraction(ONE) == 0);
    assert(0x80_0000 * pow2(126) == pow2(149));
    assert(0xCC_CCCD * pow2(122) < 0x800_0000 * pow2(122)) by (nonlinear_arith)
        requires
            pow2(122) > 0,
    ;
}

/// A contrast within its bounds is a small number.
proof fn lemma_contrast_small(c: int)
    requires
        0 <= c <= whole_single(MAX_CONTRAST as int),
    ensures
        2 * c < pow2(277),
        pow2(277) <= pow2(2097),
{
    lemma2_to64();
    lemma_pow2_pos(149);
    lemma_pow2_adds(4, 149);
    lemma_pow2_below(277, 2097);
    vstd::arithmetic::power2::lemma_pow2_strictly_increases(153, 277);
}

impl ViewerState {
    /// The settings at the start.
    pub fn new() -> (s: Self)
        ensures
            s.wf(),
            s == (ViewerState {
                palette_idx: 0,
                use_palette: true,
                histeq: false,
                fullscreen: false,
                show_y16: false,
                contrast: ONE,
                low_noise: false,
                vsync: false,
            }),
    {
        proof {
            reveal(is_contrast);
            lemma_tenth();
            lemma_pow2_pos(149);
            assert(1 * pow2(149) <= 5 * pow2(149));
        }
        ViewerState {
            palette_idx: 0,
            use_palette: true,
            histeq: false,
            fullscreen: false,
            show_y16: false,
            contrast: ONE,
            low_noise: false,
            vsync: false,
        }
    }

    /// Steps the contrast up.
    fn raise_contrast(&mut self)
        requires
            old(self).wf(),
        ensures
            final(self).wf(),
            single_value(final(self).contrast) == contrast_up(single_value(old(self).contrast)),
            *final(self) == (ViewerState { contrast: final(self).contrast, ..*old(self) }),
    {
        let ghost c = single_value(self.contrast);
        let ghost five = whole_single(MAX_CONTRAST as int);
        proof {
            reveal(is_contrast);
            lemma_tenth();
            lemma_contrast_small(c);
            lemma_contrast_small(five);
            lemma2_to64();
            lemma_pow2_pos(149);
            lemma_rounded_lower(24, (c + tenth()) as nat, 1, 0xCC_CCCD, 122);
        }
        if let (Some(now), Some(step)) = (Single::from_bits(self.contrast), Single::from_bits(TENTH)) {
            let up = now.plus(&step);
            let most = Single::from_int(MAX_CONTRAST);
            if up.lt(&most) {
                self.contrast = up.to_bits();
            } else {
                self.contrast = most.to_bits();
            }
        }
    }

    /// Steps the contrast down.
    fn lower_contrast(&mut self)
        requires
            old(self).wf(),
        ensures
            final(self).wf(),
            single_value(final(self).contrast) == contrast_down(single_value(old(self).contrast)),
            *final(self) == (ViewerState { contrast: final(self).contrast, ..*old(self) }),
    {
        let ghost c = single_value(self.contrast);
        let ghost five = whole_single(MAX_CONTRAST as int);
        proof {
            reveal(is_contrast);
            lemma_tenth();
            lemma_contrast_small(c);
            lemma_contrast_small(five);
            lemma2_to64();
            lemma_pow2_pos(149);
            lemma_rounded_upper(24, (c - tenth()) as nat, 1, 5, 149);
        }
        if let (Some(now), Some(step)) = (Single::from_bits(self.contrast), Single::from_bits(TENTH)) {
            let down = now.minus(&step);
            if step.lt(&down) {
                self.contrast = down.to_bits();
            } else {
                self.contrast = step.to_bits();
            }
        }
    }

    /// What the shown levels depend on: only the raw source is stretched.
    pub fn lut_params(&self) -> (p: LutParams)
        ensures
            p == (LutParams {
                autoscale: self.show_y16,
                contrast: self.contrast,
                histeq: self.histeq,
            }),
    {
        LutParams { autoscale: self.show_y16, contrast: self.contrast, histeq: self.histeq }
    }

    /// The name of the source shown.
    pub fn source_name(&self) -> (name: &'static str)
        ensures
            name@ == if self.show_y16 {
                "Y16"@
            } else {
                "UYVY"@
            },
    {
        if self.show_y16 {
            "Y16"
        } else {
            "UYVY"
        }
    }

    /// The plane shown: that of the source.
    pub fn plane<'a>(&self, frame: &'a FramePair) -> (plane: &'a Vec<u8>)
        ensures
            *plane == if self.show_y16 {
                frame.y16
            } else {
                frame.uyvy
            },
    {
        if self.show_y16 {
            &frame.y16
        } else {
            &frame.uyvy
        }
    }

    /// The colors shown: those of the selected palette, or gray while palettes are off.
    pub fn colors<'a>(&self, palettes: &'a Vec<Palette>, grayscale: &'a Lut) -> (lut: &'a Lut)
        requires
            self.palette_idx < palettes@.len(),
        ensures
            *lut == if self.use_palette {
                palettes@[self.palette_idx as int].lut
            } else {
                *grayscale
            },
    {
        if self.use_palette {
            &palettes[self.palette_idx].lut
        } else {
            grayscale
        }
    }
}

impl Viewer {
    /// The settings are possible, and the selected palette exists.
    pub open spec fn wf(&self) -> bool {
        &&& self.state.wf()
        &&& self.state.palette_idx < self.palettes
    }

    /// The viewer at the start.
    pub fn new(palettes: usize) -> (v: Self)
        requires
            palettes > 0,
        ensures
            v.wf(),
            v.palettes == palettes,
            v.state.palette_idx == 0,
            v.state.use_palette,
            !v.state.histeq,
            !v.state.fullscreen,
            !v.state.show_y16,
            v.state.contrast == ONE,
            !v.state.low_noise,
            !v.state.vsync,
            v.bar_dirty,
            !v.want_screenshot,
            v.last_seq == 0,
    {
        Viewer {
            state: ViewerState::new(),
            palettes,
            bar_dirty: true,
            want_screenshot: false,
            last_seq: 0,
        }
    }

    /// Takes a key, and says what is to be done.
    pub fn on_key(&mut self, key: Key) -> (effect: Effect)
        requires
            old(self).wf(),
        ensures
            final(self).wf(),
            raises(key) ==> single_value(final(self).state.contrast) == contrast_up(
                single_value(old(self).state.contrast),
            ),
            lowers(key) ==> single_value(final(self).state.contrast) == contrast_down(
                single_value(old(self).state.contrast),
            ),
            raises(key) || lowers(key) ==> final(self).state == (ViewerState {
                contrast: final(self).state.contrast,
                ..old(self).state
            }),
            !raises(key) && !lowers(key) ==> final(self).state == state_after(
                old(self).state,
                old(self).palettes,
                key,
            ),
            final(self).palettes == old(self).palettes,
            final(self).bar_dirty == (old(self).bar_dirty || recolors(key, old(self).palettes)),
            final(self).want_screenshot == (old(self).want_screenshot || key is S),
            final(self).last_seq == old(self).last_seq,
            effect == effect_of(old(self).state, key),
    {
        match key {
            Key::Escape => Effect::Quit,
            Key::Q => Effect::Quit,
            Key::C => {
                self.state.palette_idx = if self.state.palette_idx + 1 == self.palettes {
                    0
                } else {
                    self.state.palette_idx + 1
                };
                self.bar_dirty = true;
                Effect::Nothing
            },
            Key::P => {
                self.state.use_palette = !self.state.use_palette;
                self.bar_dirty = true;
                Effect::Nothing
            },
            Key::H => {
                self.state.histeq = !self.state.histeq;
                Effect::Nothing
            },
            Key::T => {
                self.state.show_y16 = !self.state.show_y16;
                Effect::Nothing
            },
            Key::F => {
                self.state.fullscreen = !self.state.fullscreen;
                Effect::Fullscreen(self.state.fullscreen)
            },
            Key::V => {
                self.state.vsync = !self.state.vsync;
                Effect::Vsync(self.state.vsync)
            },
            Key::S => {
                self.want_screenshot = true;
                Effect::Nothing
            },
            Key::R => Effect::Record,
            Key::Space => Effect::Send(Command::QuickNuc),
            Key::N => Effect::ExtendedNuc,
            Key::G => {
                self.state.low_noise = !self.state.low_noise;
                Effect::Send(Command::LowNoise { on: self.state.low_noise })
            },
            Key::Plus | Key::Equals | Key::KpPlus => {
                self.state.raise_contrast();
                Effect::Nothing
            },
            Key::Minus | Key::Underscore | Key::KpMinus => {
                self.state.lower_contrast();
                Effect::Nothing
            },
            Key::Other(n) => {
                if n >= 0 && (n as u64) < self.palettes as u64 {
                    self.state.palette_idx = n as usize;
                    self.bar_dirty = true;
                }
                Effect::Nothing
            },
        }
    }

    /// Takes back the last switch of the wait for the display's refresh, which was refused.
    pub fn vsync_refused(&mut self)
        requires
            old(self).wf(),
        ensures
            final(self).wf(),
            *final(self) == (Viewer {
                state: ViewerState { vsync: !old(self).state.vsync, ..old(self).state },
                ..*old(self)
            }),
    {
        self.state.vsync = !self.state.vsync;
    }

    /// Whether a frame is to be shown: each only once.
    pub fn is_new(&mut self, seq: u64) -> (fresh: bool)
        ensures
            fresh == (seq != old(self).last_seq),
            *final(self) == (Viewer { last_seq: seq, ..*old(self) }),
    {
        let fresh = seq != self.last_seq;
        self.last_seq = seq;
        fresh
    }

    /// Whether the color bar is to be drawn now.
    pub fn take_bar_dirty(&mut self) -> (dirty: bool)
        ensures
            dirty == old(self).bar_dirty,
            *final(self) == (Viewer { bar_dirty: false, ..*old(self) }),
    {
        let dirty = self.bar_dirty;
        self.bar_dirty = false;
        dirty
    }

    /// Whether a screenshot is to be taken now.
    pub fn take_screenshot(&mut self) -> (wanted: bool)
        ensures
            wanted == old(self).want_screenshot,
            *final(self) == (Viewer { want_screenshot: false, ..*old(self) }),
    {
        let wanted = self.want_screenshot;
        self.want_screenshot = false;
        wanted
    }
}

/// Whether a key is a switch.
pub open spec fn switches(key: Key) -> bool {
    key is P || key is H || key is T || key is F || key is V || key is G
}

/// A switch pressed twice leaves the settings as they were.
pub proof fn lemma_switch_twice(s: ViewerState, palettes: usize, key: Key)
    requires
        switches(key),
    ensures
        state_after(state_after(s, palettes, key), palettes, key) == s,
{
}

/// The selected palette after `n` times the key that goes on to the next one.
pub open spec fn cycled(i: usize, palettes: usize, n: nat) -> usize
    decreases n,
{
    if n == 0 {
        i
    } else {
        next_palette(cycled(i, palettes, (n - 1) as nat), palettes)
    }
}

/// Cycling through the palettes goes by turns: after `n` times, `n` further on.
pub proof fn lemma_cycled(i: usize, palettes: usize, n: nat)
    requires
        i < palettes,
    ensures
        cycled(i, palettes, n) == (i + n) % palettes as int,
    decreases n,
{
    let m = palettes as int;
    if n == 0 {
        vstd::arithmetic::div_mod::lemma_small_mod(i as nat, palettes as nat);
    } else {
        lemma_cycled(i, palettes, (n - 1) as nat);
        let a = i + n - 1;
        vstd::arithmetic::div_mod::lemma_fundamental_div_mod(a, m);
        vstd::arithmetic::div_mod::lemma_mod_bound(a, m);
        let (q, r) = (a / m, a % m);
        if r + 1 == m {
            assert(a + 1 == (q + 1) * m + 0) by (nonlinear_arith)
                requires
                    a == m * q + r,
                    r + 1 == m,
            ;
            vstd::arithmetic::div_mod::lemma_fundamental_div_mod_converse(a + 1, m, q + 1, 0);
        } else {
            assert(a + 1 == q * m + (r + 1)) by (nonlinear_arith)
                requires
                    a == m * q + r,
            ;
            vstd::arithmetic::div_mod::lemma_fundamental_div_mod_converse(a + 1, m, q, r + 1);
        }
    }
}

/// Cycling once through all palettes comes back to the first.
pub proof fn lemma_full_cycle(i: usize, palettes: usize)
    requires
        i < palettes,
    ensures
        cycled(i, palettes, palettes as nat) == i,
{
    lemma_cycled(i, palettes, palettes as nat);
    vstd::arithmetic::div_mod::lemma_fundamental_div_mod_converse(
        i + palettes,
        palettes as int,
        1,
        i as int,
    );
}

/// A step of the contrast is the sum or the difference with one tenth, but goes no further than 5
/// and 0.1.
pub proof fn lemma_contrast_steps(c: int)
    ensures
        ({
            let step = 0xCC_CCCD * pow2(122);
            let most = 5 * pow2(149);
            let up = fl_add(24, c, step as int);
            let down = fl_sub(24, c, step as int);
            &&& contrast_up(c) == (if up <= most {
                up
            } else {
                most as int
            })
            &&& contrast_down(c) == (if down >= step {
                down
            } else {
                step as int
            })
        }),
{
    lemma_tenth();
}

/// What the switches do: each turns its own setting and leaves all others alone.
pub proof fn lemma_switches(s: ViewerState, palettes: usize)
    ensures
        state_after(s, palettes, Key::P) == (ViewerState { use_palette: !s.use_palette, ..s }),
        state_after(s, palettes, Key::H) == (ViewerState { histeq: !s.histeq, ..s }),
        state_after(s, palettes, Key::T) == (ViewerState { show_y16: !s.show_y16, ..s }),
        state_after(s, palettes, Key::F) == (ViewerState { fullscreen: !s.fullscreen, ..s }),
        state_after(s, palettes, Key::V) == (ViewerState { vsync: !s.vsync, ..s }),
        state_after(s, palettes, Key::G) == (ViewerState { low_noise: !s.low_noise, ..s }),
{
}

/// What chooses a palette: the next key goes on by one and around, and a digit goes to the palette of
/// its number, if there is one. No other setting changes.
pub proof fn lemma_palette_keys(s: ViewerState, palettes: usize, n: i32)
    requires
        s.palette_idx < palettes,
    ensures
        state_after(s, palettes, Key::C) == (ViewerState {
            palette_idx: ((s.palette_idx + 1) % palettes as int) as usize,
            ..s
        }),
        0 <= n < palettes ==> state_after(s, palettes, Key::Other(n)) == (ViewerState { palette_idx: n as usize, ..s }),
        !(0 <= n < palettes) ==> state_after(s, palettes, Key::Other(n)) == s,
{
    lemma_cycled(s.palette_idx, palettes, 1);
    assert(cycled(s.palette_idx, palettes, 0) == s.palette_idx);
    assert(cycled(s.palette_idx, palettes, 1) == next_palette(cycled(s.palette_idx, palettes, 0), palettes));
}

/// The keys that leave the settings alone.
pub proof fn lemma_other_keys(s: ViewerState, palettes: usize, key: Key)
    requires
        key is Escape || key is Q || key is S || key is R || key is Space || key is N,
    ensures
        state_after(s, palettes, key) == s,
        !raises(key) && !lowers(key),
{
}

/// What the keys ask for: two end the program, one records, three speak to the camera and two switch
/// the window's fullscreen and its wait for the display to what the setting becomes. All others ask
/// for nothing.
pub proof fn lemma_effects(s: ViewerState, key: Key)
    ensures
        effect_of(s, Key::Escape) is Quit,
        effect_of(s, Key::Q) is Quit,
        effect_of(s, Key::R) is Record,
        effect_of(s, Key::N) is ExtendedNuc,
        effect_of(s, Key::Space) == Effect::Send(Command::QuickNuc),
        effect_of(s, Key::G) == Effect::Send(Command::LowNoise { on: !s.low_noise }),
        effect_of(s, Key::F) == Effect::Fullscreen(!s.fullscreen),
        effect_of(s, Key::V) == Effect::Vsync(!s.vsync),
        key is C || key is P || key is H || key is T || key is S || key is Plus || key is Equals || key is KpPlus
            || key is Minus || key is Underscore || key is KpMinus || key is Other ==> effect_of(s, key) is Nothing,
{
}

/// The color bar is drawn anew after the keys that can change its colors, and after no other; plus
/// and equals raise the contrast, minus and underscore lower it.
pub proof fn lemma_key_groups(key: Key, palettes: usize)
    ensures
        recolors(key, palettes) <==> {
            ||| key is C
            ||| key is P
            ||| key matches Key::Other(n) && 0 <= n < palettes
        },
        raises(key) <==> key is Plus || key is Equals || key is KpPlus,
        lowers(key) <==> key is Minus || key is Underscore || key is KpMinus,
{
}

/// A contrast is a value from 0.1 to 5.
pub proof fn lemma_contrast_range(bits: u32)
    ensures
        is_contrast(bits) <==> {
            &&& bits as int / 0x80_0000 % 0x100 < 0xff
            &&& 0xCC_CCCD * pow2(122) <= single_value(bits) <= 5 * pow2(149)
        },
{
    reveal(is_contrast);
    lemma_tenth();
}

} // verus!
