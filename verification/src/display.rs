//! The displayed picture: the video with its markers and captions, and the color bar beside it.

use crate::frame::{HEIGHT, WIDTH};
use crate::osd::{cross_ink, shadowed, BLUE, Font, GRAY, GREEN, Overlay, RED};
use crate::palette::{Lut, Palette};
use crate::pixels::{
    lemma_over, lemma_painted_unique, lemma_pixel_apart, lemma_same_ink, over, painted, pixel,
    pixel_offset, Ink, Window,
};
use crate::render::{bar_ink, blit, fill_color_bar_at, plane_ink, Stats};
use crate::text::{append_decimal, decimal};
use crate::viewer::ViewerState;
use vstd::prelude::*;

verus! {

/// The width of the color bar.
pub const BAR_W: usize = 20;

/// The width of the displayed picture.
pub const FULL_W: usize = WIDTH + BAR_W;

/// The extent of the markers on the hottest and the coldest pixel.
pub const MARKER: i32 = 15;

/// A location in brackets.
pub open spec fn location_text(loc: (usize, usize)) -> Seq<char> {
    "("@ + decimal(loc.0 as nat) + ","@ + decimal(loc.1 as nat) + ")"@
}

/// The first caption: the frame rate, the source and the palette, and whether the histogram is
/// equalized.
pub open spec fn info_line(fps: Seq<char>, src: Seq<char>, name: Seq<char>, histeq: bool) -> Seq<
    char,
> {
    let line = fps + "fps "@ + src + " "@ + name;
    if histeq {
        line + " HEQ"@
    } else {
        line
    }
}

/// The second caption: the hottest and the coldest pixel.
pub open spec fn extremes_line(stats: Stats) -> Seq<char> {
    "H:"@ + decimal(stats.max as nat) + location_text(stats.max_loc) + " C:"@ + decimal(
        stats.min as nat,
    ) + location_text(stats.min_loc)
}

/// What is said on the picture.
pub struct Captions {
    pub info: Seq<char>,
    pub extremes: Seq<char>,
    pub recording: bool,
}

/// The captions for the viewer's settings.
pub open spec fn captions(
    stats: Stats,
    state: ViewerState,
    name: Seq<char>,
    fps: Seq<char>,
    src: Seq<char>,
    recording: bool,
) -> Captions {
    Captions {
        info: info_line(fps, src, name, state.histeq),
        extremes: extremes_line(stats),
        recording,
    }
}

/// A caption at its place.
pub open spec fn caption(font: Font, s: Seq<char>, x: int, y: int, color: u32) -> Ink {
    shadowed(font, s, x, y, color, 1)
}

/// The markers on the hottest and the coldest pixel.
pub open spec fn markers(stats: Stats) -> Ink {
    over(
        cross_ink(stats.max_loc.0 as int, stats.max_loc.1 as int, MARKER as int, RED),
        cross_ink(stats.min_loc.0 as int, stats.min_loc.1 as int, MARKER as int, BLUE),
    )
}

/// The first line of the key legend.
pub open spec fn legend_keys() -> Seq<char> {
    "Q:Quit C:Palette P:Raw H:HEQ F:Full T:Y16/UYVY +/-:Contrast"@
}

/// The second line of the key legend.
pub open spec fn legend_more() -> Seq<char> {
    "S:Screenshot R:Record SPACE:NUC N:ExtNUC G:LowNoise V:VSync 1-9:Palette"@
}

/// The captions above, with the sign that a recording runs.
pub open spec fn header_ink(font: Font, stats: Stats, c: Captions) -> Ink {
    let lines = over(
        over(markers(stats), caption(font, c.info, 4, 6, GREEN)),
        caption(font, c.extremes, 4, 18, GREEN),
    );
    if c.recording {
        over(lines, caption(font, "REC"@, WIDTH - 40, 6, RED))
    } else {
        lines
    }
}

/// All that is drawn on the video.
pub open spec fn overlay_ink(font: Font, stats: Stats, c: Captions) -> Ink {
    over(
        over(
            header_ink(font, stats, c),
            caption(font, legend_keys(), 4, HEIGHT - 22, GRAY),
        ),
        caption(font, legend_more(), 4, HEIGHT - 11, GRAY),
    )
}

/// The whole rows of a plane.
pub open spec fn rows(plane: Seq<u8>) -> int {
    plane.len() as int / WIDTH as int
}

/// The colors of a plane's pixels, as far down as it has rows.
pub open spec fn picture(plane: Seq<u8>, lut: Seq<u32>) -> Ink {
    |x: int, y: int|
        if y < rows(plane) {
            plane_ink(plane, lut, WIDTH as int)(x, y)
        } else {
            None::<u32>
        }
}

/// The video with all that is drawn on it.
pub open spec fn video_ink(
    plane: Seq<u8>,
    lut: Seq<u32>,
    font: Font,
    stats: Stats,
    c: Captions,
) -> Ink {
    over(picture(plane, lut), overlay_ink(font, stats, c))
}

/// The video on the left, the color bar on the right.
pub open spec fn beside(left: Ink, right: Ink) -> Ink {
    |x: int, y: int|
        if x < WIDTH {
            left(x, y)
        } else {
            right(x, y)
        }
}

/// The window of the video in a buffer with the given pitch.
pub open spec fn video_window(pitch: int) -> Window {
    Window { pitch, w: WIDTH as int, h: HEIGHT as int }
}

/// The window of the displayed picture, tightly packed.
pub open spec fn full_window() -> Window {
    Window { pitch: FULL_W * 4, w: FULL_W as int, h: HEIGHT as int }
}

/// Whether the markers lie where they can be drawn.
pub open spec fn markable(stats: Stats) -> bool {
    &&& stats.max_loc.0 + MARKER as int / 2 <= i32::MAX
    &&& stats.max_loc.1 + MARKER as int / 2 <= i32::MAX
    &&& stats.min_loc.0 + MARKER as int / 2 <= i32::MAX
    &&& stats.min_loc.1 + MARKER as int / 2 <= i32::MAX
}

/// Whether a caption is short enough to be drawn.
pub open spec fn drawable(s: Seq<char>) -> bool {
    5 + 8 * s.len() <= i32::MAX
}

/// Appends a location in brackets.
fn append_location(s: &mut String, loc: (usize, usize))
    ensures
        final(s)@ == old(s)@ + location_text(loc),
{
    s.append("(");
    append_decimal(s, loc.0 as u64);
    s.append(",");
    append_decimal(s, loc.1 as u64);
    s.append(")");
    proof {
        assert(s@ =~= old(s)@ + location_text(loc));
    }
}

/// The first caption.
pub fn info_text(fps: &str, src: &str, name: &str, histeq: bool) -> (s: String)
    ensures
        s@ == info_line(fps@, src@, name@, histeq),
        histeq ==> s@ == fps@ + "fps "@ + src@ + " "@ + name@ + " HEQ"@,
        !histeq ==> s@ == fps@ + "fps "@ + src@ + " "@ + name@,
{
    let mut s = String::from_str(fps);
    s.append("fps ");
    s.append(src);
    s.append(" ");
    s.append(name);
    if histeq {
        s.append(" HEQ");
    }
    s
}

/// The second caption.
pub fn extremes_text(stats: &Stats) -> (s: String)
    ensures
        s@ == extremes_line(*stats),
        s@ == "H:"@ + decimal(stats.max as nat) + "("@ + decimal(stats.max_loc.0 as nat) + ","@ + decimal(
            stats.max_loc.1 as nat,
        ) + ")"@ + " C:"@ + decimal(stats.min as nat) + "("@ + decimal(stats.min_loc.0 as nat) + ","@ + decimal(
            stats.min_loc.1 as nat,
        ) + ")"@,
{
    let mut s = String::from_str("H:");
    append_decimal(&mut s, stats.max as u64);
    append_location(&mut s, stats.max_loc);
    s.append(" C:");
    append_decimal(&mut s, stats.min as u64);
    append_location(&mut s, stats.min_loc);
    s
}

/// A power of ten.
spec fn ten_to(k: nat) -> nat
    decreases k,
{
    if k == 0 {
        1
    } else {
        10 * ten_to((k - 1) as nat)
    }
}

/// A number below a power of ten has no more digits than that has zeros.
proof fn lemma_decimal_digits(n: nat, k: nat)
    requires
        k >= 1,
        n < ten_to(k),
    ensures
        decimal(n).len() <= k,
    decreases k,
{
    reveal_with_fuel(ten_to, 2);
    if n >= 10 {
        lemma_decimal_digits(n / 10, (k - 1) as nat);
    }
}

/// The second caption and the fixed texts are short enough to be drawn.
proof fn lemma_fixed_drawable(stats: Stats)
    requires
        markable(stats),
    ensures
        extremes_line(stats).len() <= 100,
        "REC"@.len() <= 100,
        legend_keys().len() <= 100,
        legend_more().len() <= 100,
{
    reveal_strlit("REC");
    reveal_strlit("Q:Quit C:Palette P:Raw H:HEQ F:Full T:Y16/UYVY +/-:Contrast");
    reveal_strlit("S:Screenshot R:Record SPACE:NUC N:ExtNUC G:LowNoise V:VSync 1-9:Palette");
    reveal_strlit("H:");
    reveal_strlit(" C:");
    reveal_strlit("(");
    reveal_strlit(",");
    reveal_strlit(")");
    reveal_with_fuel(ten_to, 11);
    assert(ten_to(10) == 10_000_000_000);
    lemma_decimal_digits(stats.max as nat, 10);
    lemma_decimal_digits(stats.min as nat, 10);
    lemma_decimal_digits(stats.max_loc.0 as nat, 10);
    lemma_decimal_digits(stats.max_loc.1 as nat, 10);
    lemma_decimal_digits(stats.min_loc.0 as nat, 10);
    lemma_decimal_digits(stats.min_loc.1 as nat, 10);
}

/// Draws the markers and captions.
pub fn draw_overlays(
    ov: &mut Overlay,
    font: &Font,
    stats: &Stats,
    state: &ViewerState,
    palettes: &Vec<Palette>,
    fps: &str,
    src_name: &str,
    recording: bool,
)
    requires
        old(ov).wf(),
        state.palette_idx < palettes@.len(),
        markable(*stats),
        drawable(
            info_line(
                fps@,
                src_name@,
                palettes@[state.palette_idx as int].name@,
                state.histeq,
            ),
        ),
    ensures
        final(ov).wf(),
        final(ov).window() == old(ov).window(),
        painted(
            old(ov).window(),
            old(ov).px@,
            final(ov).px@,
            overlay_ink(
                *font,
                *stats,
                captions(
                    *stats,
                    *state,
                    palettes@[state.palette_idx as int].name@,
                    fps@,
                    src_name@,
                    recording,
                ),
            ),
        ),
        final(final(ov).px)@ == final(old(ov).px)@,
{
    let ghost win = ov.window();
    let ghost p0 = ov.px@;
    proof {
        lemma_fixed_drawable(*stats);
    }
    ov.cross(stats.max_loc.0 as i32, stats.max_loc.1 as i32, MARKER, RED);
    let ghost p1 = ov.px@;
    ov.cross(stats.min_loc.0 as i32, stats.min_loc.1 as i32, MARKER, BLUE);
    let ghost p2 = ov.px@;
    let ghost red = cross_ink(stats.max_loc.0 as int, stats.max_loc.1 as int, MARKER as int, RED);
    let ghost blue = cross_ink(stats.min_loc.0 as int, stats.min_loc.1 as int, MARKER as int, BLUE);
    proof {
        lemma_over(win, p0, p1, p2, red, blue);
    }

    let name = palettes[state.palette_idx].name;
    let info = info_text(fps, src_name, name, state.histeq);
    let extremes = extremes_text(stats);
    ov.text(font, 4, 6, info.as_str(), GREEN);
    let ghost p3 = ov.px@;
    let ghost ink2 = markers(*stats);
    let ghost ink3 = over(ink2, caption(*font, info@, 4, 6, GREEN));
    proof {
        lemma_over(win, p0, p2, p3, ink2, caption(*font, info@, 4, 6, GREEN));
    }
    ov.text(font, 4, 18, extremes.as_str(), GREEN);
    let ghost p4 = ov.px@;
    let ghost ink4 = over(ink3, caption(*font, extremes@, 4, 18, GREEN));
    proof {
        lemma_over(win, p0, p3, p4, ink3, caption(*font, extremes@, 4, 18, GREEN));
    }
    if recording {
        ov.text(font, (WIDTH - 40) as i32, 6, "REC", RED);
        proof {
            lemma_over(win, p0, p4, ov.px@, ink4, caption(*font, "REC"@, WIDTH - 40, 6, RED));
        }
    }
    let ghost p5 = ov.px@;
    let ghost ink5 = if recording {
        over(ink4, caption(*font, "REC"@, WIDTH - 40, 6, RED))
    } else {
        ink4
    };

    ov.text(
        font,
        4,
        (HEIGHT - 22) as i32,
        "Q:Quit C:Palette P:Raw H:HEQ F:Full T:Y16/UYVY +/-:Contrast",
        GRAY,
    );
    let ghost p6 = ov.px@;
    let ghost ink6 = over(ink5, caption(*font, legend_keys(), 4, HEIGHT - 22, GRAY));
    proof {
        lemma_over(win, p0, p5, p6, ink5, caption(*font, legend_keys(), 4, HEIGHT - 22, GRAY));
    }
    ov.text(
        font,
        4,
        (HEIGHT - 11) as i32,
        "S:Screenshot R:Record SPACE:NUC N:ExtNUC G:LowNoise V:VSync 1-9:Palette",
        GRAY,
    );
    proof {
        lemma_over(win, p0, p6, ov.px@, ink6, caption(*font, legend_more(), 4, HEIGHT - 11, GRAY));
    }
}

/// Draws the video with its markers and captions.
pub fn draw_video(
    px: &mut [u8],
    pitch: usize,
    plane: &[u8],
    lut: &[u32; 256],
    font: &Font,
    stats: &Stats,
    state: &ViewerState,
    palettes: &Vec<Palette>,
    fps: &str,
    src_name: &str,
    recording: bool,
)
    requires
        rows(plane@) <= HEIGHT,
        video_window(pitch as int).fits(old(px)@.len() as int),
        state.palette_idx < palettes@.len(),
        markable(*stats),
        drawable(
            info_line(
                fps@,
                src_name@,
                palettes@[state.palette_idx as int].name@,
                state.histeq,
            ),
        ),
    ensures
        painted(
            video_window(pitch as int),
            old(px)@,
            final(px)@,
            video_ink(
                plane@,
                lut@,
                *font,
                *stats,
                captions(
                    *stats,
                    *state,
                    palettes@[state.palette_idx as int].name@,
                    fps@,
                    src_name@,
                    recording,
                ),
            ),
        ),
{
    let ghost win = video_window(pitch as int);
    let ghost before = px@;
    let ghost c = captions(
        *stats,
        *state,
        palettes@[state.palette_idx as int].name@,
        fps@,
        src_name@,
        recording,
    );
    let ghost part = Window { pitch: pitch as int, w: WIDTH as int, h: rows(plane@) };
    proof {
        assert((part.h - 1) * part.pitch <= (win.h - 1) * win.pitch) by (nonlinear_arith)
            requires
                part.h <= win.h,
                part.pitch == win.pitch,
                win.pitch >= 0,
        ;
    }
    blit(plane, lut, px, pitch, WIDTH);
    let ghost mid = px@;
    proof {
        let ink = plane_ink(plane@, lut@, WIDTH as int);
        lemma_widen(part, win, before, mid, ink);
        lemma_same_ink(win, before, mid, clipped(part, ink), picture(plane@, lut@));
    }
    let mut ov = Overlay { px, pitch, w: WIDTH, h: HEIGHT };
    draw_overlays(&mut ov, font, stats, state, palettes, fps, src_name, recording);
    proof {
        lemma_over(
            win,
            before,
            mid,
            ov.px@,
            picture(plane@, lut@),
            overlay_ink(*font, *stats, c),
        );
    }
}

/// The ink within a window.
pub open spec fn clipped(win: Window, ink: Ink) -> Ink {
    |x: int, y: int|
        if win.has(x, y) {
            ink(x, y)
        } else {
            None::<u32>
        }
}

/// Drawing within a part of a window is drawing the clipped ink within the whole.
proof fn lemma_widen(part: Window, whole: Window, a: Seq<u8>, b: Seq<u8>, ink: Ink)
    requires
        painted(part, a, b, ink),
        part.pitch == whole.pitch,
        part.w <= whole.w,
        part.h <= whole.h,
        whole.fits(a.len() as int),
    ensures
        painted(whole, a, b, clipped(part, ink)),
{
    let c = clipped(part, ink);
    assert forall|x: int, y: int| whole.has(x, y) implies #[trigger] pixel(b, whole.pitch, x, y) == (
    match c(x, y) {
        Some(v) => v as int,
        None => pixel(a, whole.pitch, x, y),
    }) by {
        if !part.has(x, y) {
            let o = pixel_offset(whole.pitch, x, y);
            lemma_pixel_apart(whole, a.len() as int, x, y, x, y);
            assert forall|p: int| o <= p < o + 4 implies !part.has_byte(p) by {
                if part.has_byte(p) {
                    let (u, v) = choose|u: int, v: int|
                        part.has(u, v) && 0 <= p - #[trigger] pixel_offset(part.pitch, u, v) < 4;
                    lemma_pixel_apart(whole, a.len() as int, x, y, u, v);
                }
            }
            assert(b[o] == a[o] && b[o + 1] == a[o + 1] && b[o + 2] == a[o + 2] && b[o + 3] == a[o
                + 3]);
        }
    }
    assert forall|p: int| 0 <= p < a.len() && !whole.has_byte(p) implies b[p] == a[p] by {
        if part.has_byte(p) {
            let (u, v) = choose|u: int, v: int|
                part.has(u, v) && 0 <= p - #[trigger] pixel_offset(part.pitch, u, v) < 4;
            assert(whole.has(u, v) && 0 <= p - pixel_offset(whole.pitch, u, v) < 4);
        }
    }
}

/// The displayed picture, tightly packed: the source of screenshots and recordings.
pub fn compose_display_frame(
    plane: &[u8],
    lut: &[u32; 256],
    font: &Font,
    stats: &Stats,
    state: &ViewerState,
    palettes: &Vec<Palette>,
    pal: &Lut,
    fps: &str,
    src_name: &str,
    recording: bool,
) -> (frame: Vec<u8>)
    requires
        rows(plane@) <= HEIGHT,
        state.palette_idx < palettes@.len(),
        markable(*stats),
        drawable(
            info_line(
                fps@,
                src_name@,
                palettes@[state.palette_idx as int].name@,
                state.histeq,
            ),
        ),
    ensures
        painted(
            full_window(),
            Seq::new((FULL_W * HEIGHT * 4) as nat, |i: int| 0u8),
            frame@,
            beside(
                video_ink(
                    plane@,
                    lut@,
                    *font,
                    *stats,
                    captions(
                        *stats,
                        *state,
                        palettes@[state.palette_idx as int].name@,
                        fps@,
                        src_name@,
                        recording,
                    ),
                ),
                bar_ink(*pal, WIDTH as int, HEIGHT as int),
            ),
        ),
{
    let ghost c = captions(
        *stats,
        *state,
        palettes@[state.palette_idx as int].name@,
        fps@,
        src_name@,
        recording,
    );
    let ghost video = video_ink(plane@, lut@, *font, *stats, c);
    let ghost bar = bar_ink(*pal, WIDTH as int, HEIGHT as int);
    let ghost wide = full_window();
    let mut frame: Vec<u8> = vec![0u8; FULL_W * HEIGHT * 4];
    let ghost p0 = frame@;
    assert(p0 =~= Seq::new((FULL_W * HEIGHT * 4) as nat, |i: int| 0u8));
    proof {
        assert(FULL_W == 660 && FULL_W * HEIGHT * 4 == 1351680);
        assert((wide.h - 1) * wide.pitch + 4 * wide.w <= 1351680) by (nonlinear_arith)
            requires
                wide.h == 512,
                wide.pitch == 2640,
                wide.w == 660,
        ;
    }
    draw_video(
        frame.as_mut_slice(),
        FULL_W * 4,
        plane,
        lut,
        font,
        stats,
        state,
        palettes,
        fps,
        src_name,
        recording,
    );
    let ghost p1 = frame@;
    fill_color_bar_at(pal, frame.as_mut_slice(), FULL_W * 4, WIDTH, BAR_W, HEIGHT);
    proof {
        let left = clipped(video_window(FULL_W * 4), video);
        lemma_widen(video_window(FULL_W * 4), wide, p0, p1, video);
        lemma_over(wide, p0, p1, frame@, left, bar);
        assert forall|x: int, y: int| wide.has(x, y) implies #[trigger] over(left, bar)(x, y)
            == beside(video, bar)(x, y) by {}
        lemma_same_ink(wide, p0, frame@, over(left, bar), beside(video, bar));
    }
    frame
}

/// Draws a message on black, in letters of double size.
fn draw_message(px: &mut [u8], pitch: usize, font: &Font, x: i32, y: i32, s: &str, color: u32)
    requires
        video_window(pitch as int).fits(old(px)@.len() as int),
        i32::MIN <= x + 16 * s@.len() <= i32::MAX,
        y + 16 <= i32::MAX,
    ensures
        painted(
            video_window(pitch as int),
            Seq::new(old(px)@.len(), |i: int| 0u8),
            final(px)@,
            shadowed(*font, s@, x as int, y as int, color, 2),
        ),
{
    let n: usize = px.len();
    let mut i: usize = 0;
    while i < n
        invariant
            i <= n == px@.len() == old(px)@.len(),
            forall|j: int| 0 <= j < i ==> px@[j] == 0,
        decreases n - i,
    {
        px[i] = 0;
        i = i + 1;
    }
    assert(px@ =~= Seq::new(old(px)@.len(), |i: int| 0u8));
    let mut ov = Overlay { px, pitch, w: WIDTH, h: HEIGHT };
    ov.text_scaled(font, x, y, s, color, 2);
}

/// Draws what is shown until the stream is aligned.
pub fn draw_syncing(px: &mut [u8], pitch: usize, font: &Font)
    requires
        video_window(pitch as int).fits(old(px)@.len() as int),
    ensures
        painted(
            video_window(pitch as int),
            Seq::new(old(px)@.len(), |i: int| 0u8),
            final(px)@,
            shadowed(*font, "Syncing..."@, 250, 250, GREEN, 2),
        ),
{
    proof {
        reveal_strlit("Syncing...");
    }
    draw_message(px, pitch, font, 250, 250, "Syncing...", GREEN);
}

/// Draws what is shown once the camera is gone.
pub fn draw_disconnected(px: &mut [u8], pitch: usize, font: &Font)
    requires
        video_window(pitch as int).fits(old(px)@.len() as int),
    ensures
        painted(
            video_window(pitch as int),
            Seq::new(old(px)@.len(), |i: int| 0u8),
            final(px)@,
            shadowed(*font, "Camera disconnected"@, 160, 250, RED, 2),
        ),
{
    proof {
        reveal_strlit("Camera disconnected");
    }
    draw_message(px, pitch, font, 160, 250, "Camera disconnected", RED);
}

/// The sign that a recording runs is all that a recording adds to the picture: drawing it on a
/// picture without gives the picture with it.
pub proof fn lemma_recording_adds_sign(
    win: Window,
    font: Font,
    stats: Stats,
    on: Captions,
    off: Captions,
    before: Seq<u8>,
    with: Seq<u8>,
    without: Seq<u8>,
    signed: Seq<u8>,
)
    requires
        on.recording,
        !off.recording,
        on.info == off.info,
        on.extremes == off.extremes,
        painted(win, before, with, overlay_ink(font, stats, on)),
        painted(win, before, without, overlay_ink(font, stats, off)),
        painted(win, without, signed, caption(font, "REC"@, WIDTH - 40, 6, RED)),
    ensures
        with == signed,
{
    let sign = caption(font, "REC"@, WIDTH - 40, 6, RED);
    let keys = caption(font, legend_keys(), 4, HEIGHT - 22, GRAY);
    let more = caption(font, legend_more(), 4, HEIGHT - 11, GRAY);
    let late = over(overlay_ink(font, stats, off), sign);
    lemma_over(win, before, without, signed, overlay_ink(font, stats, off), sign);
    assert forall|x: int, y: int| win.has(x, y) implies #[trigger] late(x, y) == overlay_ink(
        font,
        stats,
        on,
    )(x, y) by {
        // the legend lies far below the sign
        if y < HEIGHT - 22 {
            assert(keys(x, y) is None && more(x, y) is None);
        } else {
            assert(sign(x, y) is None);
        }
    }
    lemma_same_ink(win, before, signed, late, overlay_ink(font, stats, on));
    lemma_painted_unique(win, before, with, signed, overlay_ink(font, stats, on));
}

/// What shows on a pixel of the video: the legend in gray on the two last lines, above it the sign
/// in red while a recording runs, the captions in green, and under them the markers, blue on the
/// coldest pixel and red on the hottest.
pub proof fn lemma_overlay_order(font: Font, stats: Stats, c: Captions, u: int, v: int)
    ensures
        ({
            let keys = shadowed(
                font,
                "Q:Quit C:Palette P:Raw H:HEQ F:Full T:Y16/UYVY +/-:Contrast"@,
                4,
                490,
                0xFFC8_C8C8,
                1,
            )(u, v);
            let more = shadowed(
                font,
                "S:Screenshot R:Record SPACE:NUC N:ExtNUC G:LowNoise V:VSync 1-9:Palette"@,
                4,
                501,
                0xFFC8_C8C8,
                1,
            )(u, v);
            let sign = shadowed(font, "REC"@, 600, 6, 0xFFFF_0000, 1)(u, v);
            let extremes = shadowed(font, c.extremes, 4, 18, 0xFF00_FF00, 1)(u, v);
            let info = shadowed(font, c.info, 4, 6, 0xFF00_FF00, 1)(u, v);
            let cold = cross_ink(stats.min_loc.0 as int, stats.min_loc.1 as int, 15, 0xFF00_00FF)(u, v);
            let hot = cross_ink(stats.max_loc.0 as int, stats.max_loc.1 as int, 15, 0xFFFF_0000)(u, v);
            overlay_ink(font, stats, c)(u, v) == (if more is Some {
                more
            } else if keys is Some {
                keys
            } else if c.recording && sign is Some {
                sign
            } else if extremes is Some {
                extremes
            } else if info is Some {
                info
            } else if cold is Some {
                cold
            } else {
                hot
            })
        }),
{
}

/// What the captions say.
pub proof fn lemma_captions(
    stats: Stats,
    state: ViewerState,
    name: Seq<char>,
    fps: Seq<char>,
    src: Seq<char>,
    recording: bool,
)
    ensures
        ({
            let c = captions(stats, state, name, fps, src, recording);
            &&& state.histeq ==> c.info == fps + "fps "@ + src + " "@ + name + " HEQ"@
            &&& !state.histeq ==> c.info == fps + "fps "@ + src + " "@ + name
            &&& c.extremes == "H:"@ + decimal(stats.max as nat) + "("@ + decimal(stats.max_loc.0 as nat) + ","@
                + decimal(stats.max_loc.1 as nat) + ")"@ + " C:"@ + decimal(stats.min as nat) + "("@ + decimal(
                stats.min_loc.0 as nat,
            ) + ","@ + decimal(stats.min_loc.1 as nat) + ")"@
            &&& c.recording == recording
        }),
{
    let c = captions(stats, state, name, fps, src, recording);
    assert(c.extremes =~= "H:"@ + decimal(stats.max as nat) + "("@ + decimal(stats.max_loc.0 as nat) + ","@ + decimal(
        stats.max_loc.1 as nat,
    ) + ")"@ + " C:"@ + decimal(stats.min as nat) + "("@ + decimal(stats.min_loc.0 as nat) + ","@ + decimal(
        stats.min_loc.1 as nat,
    ) + ")"@);
}

/// What shows on a pixel of the displayed picture: on the left the video under its captions and
/// markers, as far down as the plane has rows, and on the right the color bar.
pub proof fn lemma_displayed_pixel(
    plane: Seq<u8>,
    lut: Seq<u32>,
    font: Font,
    stats: Stats,
    c: Captions,
    pal: Lut,
    u: int,
    v: int,
)
    requires
        0 <= u,
        0 <= v,
    ensures
        ({
            let shown = beside(video_ink(plane, lut, font, stats, c), bar_ink(pal, 640, 512))(u, v);
            let drawn = overlay_ink(font, stats, c)(u, v);
            &&& u >= 640 ==> shown == bar_ink(pal, 640, 512)(u, v)
            &&& u < 640 && drawn is Some ==> shown == drawn
            &&& u < 640 && drawn is None && (v + 1) * 640 <= plane.len() ==> shown == Some(
                lut[plane[v * 640 + u] as int],
            )
            &&& u < 640 && drawn is None && (v + 1) * 640 > plane.len() ==> shown is None
        }),
{
    vstd::arithmetic::div_mod::lemma_fundamental_div_mod(plane.len() as int, 640);
}

/// The video is 640 by 512 pixels, and the displayed picture 660 by 512, without gaps.
pub proof fn lemma_windows(pitch: int)
    ensures
        video_window(pitch) == (Window { pitch, w: 640, h: 512 }),
        full_window() == (Window { pitch: 2640, w: 660, h: 512 }),
{
}

} // verus!
