//! Overlay drawing into an ARGB8888 buffer: bitmap-font text with a drop shadow
//! and cross markers.

use crate::lettering::lemma_letter_dots;
use crate::pixels::{
    blank, dot, lemma_blank, lemma_over, lemma_painted_bytes, lemma_same_ink, over, painted, pixel,
    put_pixel, Ink, Window,
};
use vstd::prelude::*;

verus! {

/// A bitmap font for the printable ASCII characters: eight rows of eight bits
/// for each, the leftmost column in the lowest bit.
pub type Font = [[u8; 8]; 95];

pub const GREEN: u32 = 0xFF00_FF00;

pub const RED: u32 = 0xFFFF_0000;

pub const BLUE: u32 = 0xFF00_00FF;

pub const GRAY: u32 = 0xFFC8_C8C8;

pub const BLACK: u32 = 0xFF00_0000;

/// A buffer to draw on: rows of `pitch` bytes, of which `w` by `h` pixels show.
pub struct Overlay<'a> {
    pub px: &'a mut [u8],
    pub pitch: usize,
    pub w: usize,
    pub h: usize,
}

/// Whether the font has a dot for a character at a column and a row. Characters
/// that are not printable ASCII have none.
pub open spec fn glyph_bit(font: Font, ch: char, col: int, row: int) -> bool {
    &&& 32 <= ch as int
    &&& (ch as int) < 127
    &&& font@[ch as int - 32]@[row] & (1u8 << (col as u8)) != 0
}

/// Whether the letters of a text at `(x, y)`, each dot a square of `scale`
/// pixels, cover the pixel `(u, v)`.
pub open spec fn covers(font: Font, s: Seq<char>, x: int, y: int, scale: int, u: int, v: int) -> bool {
    &&& scale > 0
    &&& u >= x
    &&& v >= y
    &&& (v - y) / scale < 8
    &&& (u - x) / scale < 8 * s.len()
    &&& glyph_bit(font, s[(u - x) / scale / 8], (u - x) / scale % 8, (v - y) / scale)
}

/// The letters of a text without a shadow.
pub open spec fn letters(font: Font, s: Seq<char>, x: int, y: int, color: u32) -> Ink {
    |u: int, v: int|
        if covers(font, s, x, y, 1, u, v) {
            Some(color)
        } else {
            None::<u32>
        }
}

/// A text over its black shadow, which falls one pixel to the right and below.
pub open spec fn shadowed(font: Font, s: Seq<char>, x: int, y: int, color: u32, scale: int) -> Ink {
    |u: int, v: int|
        if covers(font, s, x, y, scale, u, v) {
            Some(color)
        } else if covers(font, s, x, y, scale, u - 1, v - 1) {
            Some(BLACK)
        } else {
            None::<u32>
        }
}

/// How far the arms of a cross of the given size reach.
pub open spec fn arm(size: int) -> int {
    if size >= 0 {
        size / 2
    } else {
        -((-size) / 2)
    }
}

/// A cross marker.
pub open spec fn cross_ink(cx: int, cy: int, size: int, color: u32) -> Ink {
    |u: int, v: int|
        if (v == cy && -arm(size) <= u - cx <= arm(size)) || (u == cx && -arm(size) <= v - cy <= arm(size)) {
            Some(color)
        } else {
            None::<u32>
        }
}

/// A cross marker as far as it is drawn: its arms up to the distance `d`.
spec fn cross_so_far(cx: int, cy: int, half: int, color: u32, d: int) -> Ink {
    |u: int, v: int|
        if (v == cy && -half <= u - cx < d) || (u == cx && -half <= v - cy < d) {
            Some(color)
        } else {
            None::<u32>
        }
}

/// Dots are drawn letter by letter, and within a letter row by row: whether the
/// dot in column `c` of the text and row `r` comes before the dot `(gx, gy)` of
/// letter `j`.
spec fn earlier(c: int, r: int, j: int, gy: int, gx: int) -> bool {
    c / 8 < j || (c / 8 == j && (r < gy || (r == gy && c % 8 < gx)))
}

/// The letters without a shadow as far as they are drawn.
spec fn letters_so_far(font: Font, s: Seq<char>, x: int, y: int, color: u32, j: int, gy: int, gx: int) -> Ink {
    |u: int, v: int|
        if covers(font, s, x, y, 1, u, v) && earlier(u - x, v - y, j, gy, gx) {
            Some(color)
        } else {
            None::<u32>
        }
}

/// The code of a character fits in 32 bits.
proof fn lemma_char_code(ch: char)
    ensures
        0 <= ch as int <= 0x10_ffff,
{
}

/// The letters of a text stand between its two ends.
proof fn lemma_column_range(x: int, w: int, j: int, n: int)
    requires
        i32::MIN <= x <= i32::MAX,
        i32::MIN <= x + w * n <= i32::MAX,
        0 <= j < n,
    ensures
        i32::MIN <= x + w * j <= i32::MAX,
        i32::MIN <= x + w * j + w <= i32::MAX,
        w * (j + 1) == w * j + w,
{
    assert(w * (j + 1) == w * j + w) by (nonlinear_arith);
    if w >= 0 {
        assert(0 <= w * j && w * (j + 1) <= w * n) by (nonlinear_arith)
            requires
                w >= 0,
                0 <= j < n,
        ;
    } else {
        assert(w * j <= 0 && w * n <= w * (j + 1)) by (nonlinear_arith)
            requires
                w < 0,
                0 <= j < n,
        ;
    }
}

/// A square of `n` pixels over its shadow.
spec fn square(x: int, y: int, n: int, color: u32) -> Ink {
    |u: int, v: int|
        if x <= u < x + n && y <= v < y + n {
            Some(color)
        } else if x <= u - 1 < x + n && y <= v - 1 < y + n {
            Some(BLACK)
        } else {
            None::<u32>
        }
}

/// A square over its shadow as far as it is drawn: the rows above `dy`, and in
/// row `dy` the pixels left of `dx`.
spec fn square_so_far(x: int, y: int, n: int, color: u32, dy: int, dx: int) -> Ink {
    |u: int, v: int|
        if x <= u < x + n && y <= v < y + n && (v - y < dy || (v - y == dy && u - x < dx)) {
            Some(color)
        } else if x <= u - 1 < x + n && y <= v - 1 < y + n && (v - 1 - y < dy || (v - 1 - y == dy && u - 1 - x < dx)) {
            Some(BLACK)
        } else {
            None::<u32>
        }
}

/// Whether the dot that covers a pixel is drawn already.
spec fn covered_so_far(
    font: Font,
    s: Seq<char>,
    x: int,
    y: int,
    scale: int,
    u: int,
    v: int,
    j: int,
    gy: int,
    gx: int,
) -> bool {
    covers(font, s, x, y, scale, u, v) && earlier((u - x) / scale, (v - y) / scale, j, gy, gx)
}

/// A text over its shadow as far as it is drawn.
spec fn shadowed_so_far(
    font: Font,
    s: Seq<char>,
    x: int,
    y: int,
    color: u32,
    scale: int,
    j: int,
    gy: int,
    gx: int,
) -> Ink {
    |u: int, v: int|
        if covered_so_far(font, s, x, y, scale, u, v, j, gy, gx) {
            Some(color)
        } else if covered_so_far(font, s, x, y, scale, u - 1, v - 1, j, gy, gx) {
            Some(BLACK)
        } else {
            None::<u32>
        }
}

/// The pixels of a dot are those whose distance to the text lies within it.
proof fn lemma_dot_pixels(t: int, scale: int, c: int)
    requires
        scale > 0,
        t >= 0,
    ensures
        t / scale >= 0,
        (t / scale == c) == (c * scale <= t < c * scale + scale),
{
    vstd::arithmetic::div_mod::lemma_fundamental_div_mod(t, scale);
    let q = t / scale;
    assert(q >= 0) by (nonlinear_arith)
        requires
            t == scale * q + t % scale,
            0 <= t % scale < scale,
            t >= 0,
    ;
    assert((q == c) == (c * scale <= t < c * scale + scale)) by (nonlinear_arith)
        requires
            t == scale * q + t % scale,
            0 <= t % scale < scale,
    ;
}

/// Going one pixel back goes at most one dot back.
proof fn lemma_dot_back(t: int, scale: int)
    requires
        scale > 0,
        t >= 1,
    ensures
        t / scale == (t - 1) / scale || t / scale == (t - 1) / scale + 1,
        (t - 1) / scale >= 0,
{
    let c = (t - 1) / scale;
    lemma_dot_pixels(t - 1, scale, c);
    lemma_dot_pixels(t, scale, c);
    lemma_dot_pixels(t, scale, c + 1);
    assert((c + 1) * scale == c * scale + scale) by (nonlinear_arith);
}

/// Drawing the next dot, a square over its shadow, onto the text so far gives
/// the text with that dot: no pixel of a dot drawn before is shadowed.
proof fn lemma_next_dot(
    font: Font,
    s: Seq<char>,
    x: int,
    y: int,
    color: u32,
    scale: int,
    j: int,
    gy: int,
    gx: int,
    u: int,
    v: int,
)
    requires
        scale > 0,
        0 <= j < s.len(),
        0 <= gy < 8,
        0 <= gx < 8,
    ensures
        ({
            let so_far = shadowed_so_far(font, s, x, y, color, scale, j, gy, gx);
            let next = shadowed_so_far(font, s, x, y, color, scale, j, gy, gx + 1);
            let d = square(x + (8 * j + gx) * scale, y + gy * scale, scale, color);
            if glyph_bit(font, s[j], gx, gy) {
                over(so_far, d)(u, v) == next(u, v)
            } else {
                so_far(u, v) == next(u, v)
            }
        }),
{
    let c0 = 8 * j + gx;
    assert(c0 / 8 == j && c0 % 8 == gx);
    lemma_dot_of_pixel(font, s, x, y, scale, j, gy, gx, u, v);
    lemma_dot_of_pixel(font, s, x, y, scale, j, gy, gx, u - 1, v - 1);
    let bit = glyph_bit(font, s[j], gx, gy);
    let here = x + c0 * scale <= u < x + c0 * scale + scale && y + gy * scale <= v < y + gy * scale + scale;
    let behind = x + c0 * scale <= u - 1 < x + c0 * scale + scale && y + gy * scale <= v - 1 < y + gy * scale + scale;
    if bit && behind && !here {
        // The pixel's own dot is to the right of, or below, the one drawn.
        lemma_dot_back(u - x, scale);
        lemma_dot_back(v - y, scale);
        lemma_dot_pixels(u - 1 - x, scale, c0);
        lemma_dot_pixels(v - 1 - y, scale, gy);
        lemma_dot_pixels(u - x, scale, c0);
        lemma_dot_pixels(v - y, scale, gy);
        assert(!earlier((u - x) / scale, (v - y) / scale, j, gy, gx));
    }
}

/// A pixel is covered by the dots up to the next one if it was covered before
/// or if the next dot covers it.
proof fn lemma_dot_of_pixel(
    font: Font,
    s: Seq<char>,
    x: int,
    y: int,
    scale: int,
    j: int,
    gy: int,
    gx: int,
    u: int,
    v: int,
)
    requires
        scale > 0,
        0 <= j < s.len(),
        0 <= gy < 8,
        0 <= gx < 8,
    ensures
        covered_so_far(font, s, x, y, scale, u, v, j, gy, gx + 1) == (covered_so_far(
            font,
            s,
            x,
            y,
            scale,
            u,
            v,
            j,
            gy,
            gx,
        ) || (glyph_bit(font, s[j], gx, gy) && x + (8 * j + gx) * scale <= u < x + (8 * j + gx) * scale + scale
            && y + gy * scale <= v < y + gy * scale + scale)),
{
    let c0 = 8 * j + gx;
    assert(0 <= c0 * scale && 0 <= gy * scale) by (nonlinear_arith)
        requires
            c0 >= 0,
            gy >= 0,
            scale > 0,
    ;
    if u >= x && v >= y {
        let c = (u - x) / scale;
        let r = (v - y) / scale;
        lemma_dot_pixels(u - x, scale, c0);
        lemma_dot_pixels(v - y, scale, gy);
        assert(c / 8 == j && c % 8 == gx ==> c == c0);
        assert(c0 / 8 == j && c0 % 8 == gx);
    }
}

impl<'a> Overlay<'a> {
    /// The pixels that show.
    pub open spec fn window(&self) -> Window {
        Window { pitch: self.pitch as int, w: self.w as int, h: self.h as int }
    }

    /// Whether the buffer holds the pixels that show.
    pub open spec fn wf(&self) -> bool {
        &&& self.w <= i32::MAX
        &&& self.h <= i32::MAX
        &&& self.window().fits(self.px@.len() as int)
    }

    /// Draws one pixel, unless it does not show.
    pub fn put(&mut self, x: i32, y: i32, color: u32)
        requires
            old(self).wf(),
        ensures
            final(self).wf(),
            final(self).window() == old(self).window(),
            painted(old(self).window(), old(self).px@, final(self).px@, dot(x as int, y as int, color)),
            0 <= x < old(self).w && 0 <= y < old(self).h ==> {
                let o = y * old(self).pitch + 4 * x;
                &&& final(self).px@[o] as int == color as int % 0x100
                &&& final(self).px@[o + 1] as int == color as int / 0x100 % 0x100
                &&& final(self).px@[o + 2] as int == color as int / 0x1_0000 % 0x100
                &&& final(self).px@[o + 3] as int == color as int / 0x100_0000
            },
            !(0 <= x < old(self).w && 0 <= y < old(self).h) ==> final(self).px@ == old(self).px@,
            final(final(self).px)@ == final(old(self).px)@,
    {
        if x < 0 || y < 0 || x >= self.w as i32 || y >= self.h as i32 {
            proof {
                lemma_blank(self.window(), self.px@);
                lemma_same_ink(self.window(), self.px@, self.px@, blank(), dot(x as int, y as int, color));
            }
            return;
        }
        let ghost win = self.window();
        let ghost before = self.px@;
        put_pixel(self.px, self.pitch, x as usize, y as usize, color, Ghost(win));
        proof {
            lemma_painted_bytes(win, before, self.px@, dot(x as int, y as int, color), x as int, y as int);
        }
    }

    /// Draws the letters of a text in one color.
    pub fn draw_glyphs(&mut self, font: &Font, x: i32, y: i32, s: &str, color: u32)
        requires
            old(self).wf(),
            x + 8 * s@.len() <= i32::MAX,
            y + 7 <= i32::MAX,
        ensures
            final(self).wf(),
            final(self).window() == old(self).window(),
            painted(old(self).window(), old(self).px@, final(self).px@, letters(*font, s@, x as int, y as int, color)),
            final(final(self).px)@ == final(old(self).px)@,
    {
        let ghost win = self.window();
        let ghost before = self.px@;
        let ghost t = s@;
        let mut cx: i32 = x;
        proof {
            lemma_blank(win, before);
            lemma_same_ink(win, before, before, blank(), letters_so_far(*font, t, x as int, y as int, color, 0, 0, 0));
        }
        for ch in it: s.chars()
            invariant
                t == s@,
                it.seq() == t,
                x + 8 * t.len() <= i32::MAX,
                y + 7 <= i32::MAX,
                cx == x + 8 * it.index(),
                self.wf(),
                self.window() == win,
                win == old(self).window(),
                before == old(self).px@,
                painted(win, before, self.px@, letters_so_far(*font, t, x as int, y as int, color, it.index(), 0, 0)),
                final(self.px)@ == final(old(self).px)@,
        {
            let ghost j = it.index();
            assert(ch == t[j]);
            proof {
                lemma_char_code(ch);
            }
            let code: u32 = ch as u32;
            if 32 <= code && code < 127 {
                let mut gy: usize = 0;
                while gy < 8
                    invariant
                        gy <= 8,
                        32 <= code < 127,
                        code == ch as int,
                        0 <= j < t.len(),
                        ch == t[j],
                        x + 8 * t.len() <= i32::MAX,
                        y + 7 <= i32::MAX,
                        cx == x + 8 * j,
                        self.wf(),
                        self.window() == win,
                        painted(win, before, self.px@, letters_so_far(*font, t, x as int, y as int, color, j, gy as int, 0)),
                        final(self.px)@ == final(old(self).px)@,
                    decreases 8 - gy,
                {
                    let bits: u8 = font[(code - 32) as usize][gy];
                    let mut gx: u8 = 0;
                    while gx < 8
                        invariant
                            gx <= 8,
                            gy < 8,
                            32 <= code < 127,
                            code == ch as int,
                            0 <= j < t.len(),
                            ch == t[j],
                            bits == font@[ch as int - 32]@[gy as int],
                            x + 8 * t.len() <= i32::MAX,
                            y + 7 <= i32::MAX,
                            cx == x + 8 * j,
                            self.wf(),
                            self.window() == win,
                            painted(win, before, self.px@, letters_so_far(*font, t, x as int, y as int, color, j, gy as int, gx as int)),
                            final(self.px)@ == final(old(self).px)@,
                        decreases 8 - gx,
                    {
                        let ghost ink = letters_so_far(*font, t, x as int, y as int, color, j, gy as int, gx as int);
                        let ghost next = letters_so_far(*font, t, x as int, y as int, color, j, gy as int, gx + 1);
                        let ghost mid = self.px@;
                        if bits & (1u8 << gx) != 0 {
                            self.put(cx + gx as i32, y + gy as i32, color);
                            proof {
                                let d = dot(cx + gx, y + gy, color);
                                lemma_over(win, before, mid, self.px@, ink, d);
                                lemma_same_ink(win, before, self.px@, over(ink, d), next);
                            }
                        } else {
                            proof {
                                lemma_same_ink(win, before, self.px@, ink, next);
                            }
                        }
                        gx = gx + 1;
                    }
                    proof {
                        lemma_same_ink(
                            win,
                            before,
                            self.px@,
                            letters_so_far(*font, t, x as int, y as int, color, j, gy as int, gx as int),
                            letters_so_far(*font, t, x as int, y as int, color, j, gy + 1, 0),
                        );
                    }
                    gy = gy + 1;
                }
                proof {
                    lemma_same_ink(
                        win,
                        before,
                        self.px@,
                        letters_so_far(*font, t, x as int, y as int, color, j, gy as int, 0),
                        letters_so_far(*font, t, x as int, y as int, color, j + 1, 0, 0),
                    );
                }
            } else {
                proof {
                    lemma_same_ink(
                        win,
                        before,
                        self.px@,
                        letters_so_far(*font, t, x as int, y as int, color, j, 0, 0),
                        letters_so_far(*font, t, x as int, y as int, color, j + 1, 0, 0),
                    );
                }
            }
            cx = cx + 8;
        }
        proof {
            lemma_same_ink(
                win,
                before,
                self.px@,
                letters_so_far(*font, t, x as int, y as int, color, t.len() as int, 0, 0),
                letters(*font, t, x as int, y as int, color),
            );
        }
    }

    /// Draws a text with a black shadow for readability on live video.
    pub fn text(&mut self, font: &Font, x: i32, y: i32, s: &str, color: u32)
        requires
            old(self).wf(),
            x + 1 + 8 * s@.len() <= i32::MAX,
            y + 8 <= i32::MAX,
        ensures
            final(self).wf(),
            final(self).window() == old(self).window(),
            painted(old(self).window(), old(self).px@, final(self).px@, shadowed(*font, s@, x as int, y as int, color, 1)),
            forall|n: int, gx: int, gy: int|
                {
                    &&& 0 <= n < s@.len()
                    &&& 0 <= gx < 8
                    &&& 0 <= gy < 8
                    &&& 32 <= s@[n] as int
                    &&& (s@[n] as int) < 127
                    &&& #[trigger] (font@[s@[n] as int - 32]@[gy] & (1u8 << (gx as u8))) != 0
                    &&& 0 <= x + 8 * n + gx < old(self).w
                    &&& 0 <= y + gy < old(self).h
                } ==> pixel(final(self).px@, old(self).pitch as int, x + 8 * n + gx, y + gy) == color,
            final(final(self).px)@ == final(old(self).px)@,
    {
        let ghost win = self.window();
        let ghost before = self.px@;
        self.draw_glyphs(font, x + 1, y + 1, s, BLACK);
        let ghost mid = self.px@;
        self.draw_glyphs(font, x, y, s, color);
        proof {
            let shadow = letters(*font, s@, x + 1, y + 1, BLACK);
            let top = letters(*font, s@, x as int, y as int, color);
            let ink = shadowed(*font, s@, x as int, y as int, color, 1);
            lemma_over(win, before, mid, self.px@, shadow, top);
            assert forall|u: int, v: int| win.has(u, v) implies #[trigger] over(shadow, top)(u, v) == ink(u, v) by {
                assert(u - (x + 1) == u - 1 - x && v - (y + 1) == v - 1 - y);
            }
            lemma_same_ink(win, before, self.px@, over(shadow, top), ink);
            assert forall|n: int, gx: int, gy: int|
                {
                    &&& 0 <= n < s@.len()
                    &&& 0 <= gx < 8
                    &&& 0 <= gy < 8
                    &&& 32 <= s@[n] as int
                    &&& (s@[n] as int) < 127
                    &&& #[trigger] (font@[s@[n] as int - 32]@[gy] & (1u8 << (gx as u8))) != 0
                    &&& 0 <= x + 8 * n + gx < win.w
                    &&& 0 <= y + gy < win.h
                } implies pixel(self.px@, win.pitch, x + 8 * n + gx, y + gy) == color by {
                lemma_letter_dots(*font, s@, x as int, y as int, 1, n, gx, gy, 0, 0);
                assert(x + (8 * n + gx) * 1 + 0 == x + 8 * n + gx && y + gy * 1 + 0 == y + gy);
                assert(win.has(x + 8 * n + gx, y + gy));
                assert(ink(x + 8 * n + gx, y + gy) == Some(color));
            }
        }
    }

    /// Draws one dot of a scaled text over its shadow.
    fn draw_square(&mut self, x: i32, y: i32, n: i32, color: u32)
        requires
            old(self).wf(),
            n >= 0,
            x + n <= i32::MAX,
            y + n <= i32::MAX,
        ensures
            final(self).wf(),
            final(self).window() == old(self).window(),
            painted(old(self).window(), old(self).px@, final(self).px@, square(x as int, y as int, n as int, color)),
            final(final(self).px)@ == final(old(self).px)@,
    {
        let ghost win = self.window();
        let ghost before = self.px@;
        let ghost (gx, gy, gn) = (x as int, y as int, n as int);
        proof {
            lemma_blank(win, before);
            lemma_same_ink(win, before, before, blank(), square_so_far(gx, gy, gn, color, 0, 0));
        }
        let mut dy: i32 = 0;
        while dy < n
            invariant
                0 <= dy <= n,
                x + n <= i32::MAX,
                y + n <= i32::MAX,
                gx == x,
                gy == y,
                gn == n,
                self.wf(),
                self.window() == win,
                painted(win, before, self.px@, square_so_far(gx, gy, gn, color, dy as int, 0)),
                final(self.px)@ == final(old(self).px)@,
            decreases n - dy,
        {
            let mut dx: i32 = 0;
            while dx < n
                invariant
                    0 <= dx <= n,
                    0 <= dy < n,
                    x + n <= i32::MAX,
                    y + n <= i32::MAX,
                    gx == x,
                    gy == y,
                    gn == n,
                    self.wf(),
                    self.window() == win,
                    painted(win, before, self.px@, square_so_far(gx, gy, gn, color, dy as int, dx as int)),
                    final(self.px)@ == final(old(self).px)@,
                decreases n - dx,
            {
                let ghost ink = square_so_far(gx, gy, gn, color, dy as int, dx as int);
                let ghost mid = self.px@;
                self.put(x + dx + 1, y + dy + 1, BLACK);
                let ghost late = self.px@;
                self.put(x + dx, y + dy, color);
                proof {
                    let shadow = dot(x + dx + 1, y + dy + 1, BLACK);
                    let top = dot(x + dx, y + dy, color);
                    lemma_over(win, before, mid, late, ink, shadow);
                    lemma_over(win, before, late, self.px@, over(ink, shadow), top);
                    lemma_same_ink(
                        win,
                        before,
                        self.px@,
                        over(over(ink, shadow), top),
                        square_so_far(gx, gy, gn, color, dy as int, dx + 1),
                    );
                }
                dx = dx + 1;
            }
            proof {
                lemma_same_ink(
                    win,
                    before,
                    self.px@,
                    square_so_far(gx, gy, gn, color, dy as int, dx as int),
                    square_so_far(gx, gy, gn, color, dy + 1, 0),
                );
            }
            dy = dy + 1;
        }
        proof {
            lemma_same_ink(win, before, self.px@, square_so_far(gx, gy, gn, color, dy as int, 0), square(gx, gy, gn, color));
        }
    }

    /// Draws a text with each dot a square of `scale` pixels, for banner
    /// messages. Nothing is drawn with a scale that is not positive.
    pub fn text_scaled(&mut self, font: &Font, x: i32, y: i32, s: &str, color: u32, scale: i32)
        requires
            old(self).wf(),
            i32::MIN <= 8 * scale <= i32::MAX,
            i32::MIN <= x + (8 * scale) * s@.len() <= i32::MAX,
            y + 8 * scale <= i32::MAX,
        ensures
            final(self).wf(),
            final(self).window() == old(self).window(),
            painted(
                old(self).window(),
                old(self).px@,
                final(self).px@,
                shadowed(*font, s@, x as int, y as int, color, scale as int),
            ),
            forall|n: int, gx: int, gy: int, u: int, v: int|
                #![trigger font@[s@[n] as int - 32]@[gy] & (1u8 << (gx as u8)), pixel(
                    final(self).px@,
                    old(self).pitch as int,
                    u,
                    v,
                )]
                {
                    &&& 0 <= n < s@.len()
                    &&& 0 <= gx < 8
                    &&& 0 <= gy < 8
                    &&& 32 <= s@[n] as int
                    &&& (s@[n] as int) < 127
                    &&& font@[s@[n] as int - 32]@[gy] & (1u8 << (gx as u8)) != 0
                    &&& x + (8 * n + gx) * scale <= u < x + (8 * n + gx) * scale + scale
                    &&& y + gy * scale <= v < y + gy * scale + scale
                    &&& 0 <= u < old(self).w
                    &&& 0 <= v < old(self).h
                } ==> pixel(final(self).px@, old(self).pitch as int, u, v) == color,
            final(final(self).px)@ == final(old(self).px)@,
    {
        let ghost win = self.window();
        let ghost before = self.px@;
        let ghost t = s@;
        let ghost (gx0, gy0, k) = (x as int, y as int, scale as int);
        let ghost w = 8 * scale;
        let mut cx: i32 = x;
        proof {
            lemma_blank(win, before);
            lemma_same_ink(win, before, before, blank(), shadowed_so_far(*font, t, gx0, gy0, color, k, 0, 0, 0));
        }
        for ch in it: s.chars()
            invariant
                t == s@,
                it.seq() == t,
                gx0 == x,
                gy0 == y,
                k == scale,
                w == 8 * scale,
                i32::MIN <= w <= i32::MAX,
                i32::MIN <= x + w * t.len() <= i32::MAX,
                y + w <= i32::MAX,
                cx == x + w * it.index(),
                self.wf(),
                self.window() == win,
                win == old(self).window(),
                before == old(self).px@,
                painted(win, before, self.px@, shadowed_so_far(*font, t, gx0, gy0, color, k, it.index(), 0, 0)),
                final(self.px)@ == final(old(self).px)@,
        {
            let ghost j = it.index();
            assert(ch == t[j]);
            proof {
                lemma_char_code(ch);
                lemma_column_range(x as int, w, j, t.len() as int);
            }
            let code: u32 = ch as u32;
            if 32 <= code && code < 127 && scale > 0 {
                let mut gy: usize = 0;
                while gy < 8
                    invariant
                        gy <= 8,
                        32 <= code < 127,
                        code == ch as int,
                        scale > 0,
                        0 <= j < t.len(),
                        ch == t[j],
                        gx0 == x,
                        gy0 == y,
                        k == scale,
                        w == 8 * scale,
                        w <= i32::MAX,
                        y + w <= i32::MAX,
                        cx == x + w * j,
                        cx + w <= i32::MAX,
                        self.wf(),
                        self.window() == win,
                        painted(win, before, self.px@, shadowed_so_far(*font, t, gx0, gy0, color, k, j, gy as int, 0)),
                        final(self.px)@ == final(old(self).px)@,
                    decreases 8 - gy,
                {
                    let bits: u8 = font[(code - 32) as usize][gy];
                    let mut gx: u8 = 0;
                    while gx < 8
                        invariant
                            gx <= 8,
                            gy < 8,
                            32 <= code < 127,
                            code == ch as int,
                            scale > 0,
                            0 <= j < t.len(),
                            ch == t[j],
                            bits == font@[ch as int - 32]@[gy as int],
                            gx0 == x,
                            gy0 == y,
                            k == scale,
                            w == 8 * scale,
                            w <= i32::MAX,
                            y + w <= i32::MAX,
                            cx == x + w * j,
                            cx + w <= i32::MAX,
                            self.wf(),
                            self.window() == win,
                            painted(
                                win,
                                before,
                                self.px@,
                                shadowed_so_far(*font, t, gx0, gy0, color, k, j, gy as int, gx as int),
                            ),
                            final(self.px)@ == final(old(self).px)@,
                        decreases 8 - gx,
                    {
                        let ghost ink = shadowed_so_far(*font, t, gx0, gy0, color, k, j, gy as int, gx as int);
                        let ghost next = shadowed_so_far(*font, t, gx0, gy0, color, k, j, gy as int, gx + 1);
                        let ghost d = square(gx0 + (8 * j + gx) * k, gy0 + gy * k, k, color);
                        let ghost mid = self.px@;
                        proof {
                            assert forall|u: int, v: int| {
                                if glyph_bit(*font, t[j], gx as int, gy as int) {
                                    #[trigger] over(ink, d)(u, v) == next(u, v)
                                } else {
                                    ink(u, v) == next(u, v)
                                }
                            } by {
                                lemma_next_dot(*font, t, gx0, gy0, color, k, j, gy as int, gx as int, u, v);
                            }
                            assert(0 <= gx * scale && gx * scale + scale <= w) by (nonlinear_arith)
                                requires
                                    0 <= gx <= 7,
                                    scale > 0,
                                    w == 8 * scale,
                            ;
                            assert(0 <= gy * scale && gy * scale + scale <= w) by (nonlinear_arith)
                                requires
                                    0 <= gy <= 7,
                                    scale > 0,
                                    w == 8 * scale,
                            ;
                            assert(x + (8 * j + gx) * k == cx + gx * scale) by (nonlinear_arith)
                                requires
                                    cx == x + w * j,
                                    w == 8 * scale,
                                    k == scale,
                            ;
                        }
                        if bits & (1u8 << gx) != 0 {
                            self.draw_square(cx + gx as i32 * scale, y + gy as i32 * scale, scale, color);
                            proof {
                                lemma_over(win, before, mid, self.px@, ink, d);
                                lemma_same_ink(win, before, self.px@, over(ink, d), next);
                            }
                        } else {
                            proof {
                                assert forall|u: int, v: int| win.has(u, v) implies #[trigger] ink(u, v) == next(u, v) by {
                                    lemma_next_dot(*font, t, gx0, gy0, color, k, j, gy as int, gx as int, u, v);
                                }
                                lemma_same_ink(win, before, self.px@, ink, next);
                            }
                        }
                        gx = gx + 1;
                    }
                    proof {
                        lemma_same_ink(
                            win,
                            before,
                            self.px@,
                            shadowed_so_far(*font, t, gx0, gy0, color, k, j, gy as int, gx as int),
                            shadowed_so_far(*font, t, gx0, gy0, color, k, j, gy + 1, 0),
                        );
                    }
                    gy = gy + 1;
                }
                proof {
                    lemma_same_ink(
                        win,
                        before,
                        self.px@,
                        shadowed_so_far(*font, t, gx0, gy0, color, k, j, gy as int, 0),
                        shadowed_so_far(*font, t, gx0, gy0, color, k, j + 1, 0, 0),
                    );
                }
            } else {
                proof {
                    lemma_same_ink(
                        win,
                        before,
                        self.px@,
                        shadowed_so_far(*font, t, gx0, gy0, color, k, j, 0, 0),
                        shadowed_so_far(*font, t, gx0, gy0, color, k, j + 1, 0, 0),
                    );
                }
            }
            cx = cx + 8 * scale;
        }
        proof {
            lemma_same_ink(
                win,
                before,
                self.px@,
                shadowed_so_far(*font, t, gx0, gy0, color, k, t.len() as int, 0, 0),
                shadowed(*font, t, gx0, gy0, color, k),
            );
            assert forall|n: int, gx: int, gy: int, u: int, v: int|
                #![trigger font@[s@[n] as int - 32]@[gy] & (1u8 << (gx as u8)), pixel(self.px@, win.pitch, u, v)]
                {
                    &&& 0 <= n < s@.len()
                    &&& 0 <= gx < 8
                    &&& 0 <= gy < 8
                    &&& 32 <= s@[n] as int
                    &&& (s@[n] as int) < 127
                    &&& font@[s@[n] as int - 32]@[gy] & (1u8 << (gx as u8)) != 0
                    &&& x + (8 * n + gx) * scale <= u < x + (8 * n + gx) * scale + scale
                    &&& y + gy * scale <= v < y + gy * scale + scale
                    &&& 0 <= u < win.w
                    &&& 0 <= v < win.h
                } implies pixel(self.px@, win.pitch, u, v) == color by {
                let dx = u - (x + (8 * n + gx) * scale);
                let dy = v - (y + gy * scale);
                lemma_letter_dots(*font, s@, gx0, gy0, k, n, gx, gy, dx, dy);
                assert(win.has(u, v));
                assert(shadowed(*font, t, gx0, gy0, color, k)(u, v) == Some(color));
            }
        }
    }

    /// Draws a cross marker with the given full extent.
    pub fn cross(&mut self, cx: i32, cy: i32, size: i32, color: u32)
        requires
            old(self).wf(),
            i32::MIN <= cx - arm(size as int) <= cx + arm(size as int) <= i32::MAX || arm(size as int) < 0,
            i32::MIN <= cy - arm(size as int) <= cy + arm(size as int) <= i32::MAX || arm(size as int) < 0,
        ensures
            final(self).wf(),
            final(self).window() == old(self).window(),
            painted(
                old(self).window(),
                old(self).px@,
                final(self).px@,
                cross_ink(cx as int, cy as int, size as int, color),
            ),
            final(final(self).px)@ == final(old(self).px)@,
    {
        let ghost win = self.window();
        let ghost before = self.px@;
        proof {
            lemma_blank(win, before);
        }
        if size < -1 {
            proof {
                lemma_same_ink(win, before, before, blank(), cross_ink(cx as int, cy as int, size as int, color));
            }
            return;
        }
        let half: i32 = if size < 0 { 0 } else { size / 2 };
        let mut d: i32 = -half;
        proof {
            lemma_same_ink(win, before, before, blank(), cross_so_far(cx as int, cy as int, half as int, color, d as int));
        }
        while d <= half
            invariant
                -half <= d <= half + 1,
                0 <= half < i32::MAX,
                half == arm(size as int),
                i32::MIN <= cx - half,
                cx + half <= i32::MAX,
                i32::MIN <= cy - half,
                cy + half <= i32::MAX,
                self.wf(),
                self.window() == win,
                painted(win, before, self.px@, cross_so_far(cx as int, cy as int, half as int, color, d as int)),
                final(self.px)@ == final(old(self).px)@,
            decreases half + 1 - d,
        {
            let ghost ink = cross_so_far(cx as int, cy as int, half as int, color, d as int);
            let ghost mid = self.px@;
            self.put(cx + d, cy, color);
            let ghost late = self.px@;
            self.put(cx, cy + d, color);
            proof {
                let a = dot(cx + d, cy as int, color);
                let b = dot(cx as int, cy + d, color);
                lemma_over(win, before, mid, late, ink, a);
                lemma_over(win, before, late, self.px@, over(ink, a), b);
                lemma_same_ink(
                    win,
                    before,
                    self.px@,
                    over(over(ink, a), b),
                    cross_so_far(cx as int, cy as int, half as int, color, d + 1),
                );
            }
            d = d + 1;
        }
        proof {
            lemma_same_ink(
                win,
                before,
                self.px@,
                cross_so_far(cx as int, cy as int, half as int, color, d as int),
                cross_ink(cx as int, cy as int, size as int, color),
            );
        }
    }
}

} // verus!
