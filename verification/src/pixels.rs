//! ARGB8888 pixels in a byte buffer, and what it means to have drawn on it.

use vstd::prelude::*;

verus! {

/// The offset of the pixel at column `x` and row `y`.
pub open spec fn pixel_offset(pitch: int, x: int, y: int) -> int {
    y * pitch + x * 4
}

/// The pixel at column `x` and row `y`: its four bytes, the lowest first.
pub open spec fn pixel(px: Seq<u8>, pitch: int, x: int, y: int) -> int {
    let o = pixel_offset(pitch, x, y);
    px[o] + px[o + 1] * 0x100 + px[o + 2] * 0x1_0000 + px[o + 3] * 0x100_0000
}

/// A rectangle of `w` by `h` pixels at the start of rows of `pitch` bytes.
pub struct Window {
    pub pitch: int,
    pub w: int,
    pub h: int,
}

impl Window {
    /// Whether the pixel belongs to the window.
    pub open spec fn has(self, x: int, y: int) -> bool {
        0 <= x < self.w && 0 <= y < self.h
    }

    /// Whether byte `p` belongs to some pixel of the window.
    pub open spec fn has_byte(self, p: int) -> bool {
        exists|x: int, y: int|
            self.has(x, y) && 0 <= p - #[trigger] pixel_offset(self.pitch, x, y) < 4
    }

    /// Whether a buffer of `len` bytes holds the window, its rows apart.
    pub open spec fn fits(self, len: int) -> bool {
        &&& self.w >= 0
        &&& self.h >= 0
        &&& self.pitch >= 4 * self.w
        &&& self.h > 0 ==> (self.h - 1) * self.pitch + 4 * self.w <= len
    }
}

/// What is drawn on each pixel: a color, or nothing.
pub type Ink = spec_fn(int, int) -> Option<u32>;

/// Whether `new` is `old` with the ink on it, clipped to the window.
pub open spec fn painted(win: Window, old: Seq<u8>, new: Seq<u8>, ink: Ink) -> bool {
    &&& new.len() == old.len()
    &&& forall|x: int, y: int|
        win.has(x, y) ==> #[trigger] pixel(new, win.pitch, x, y) == (match ink(x, y) {
            Some(c) => c as int,
            None => pixel(old, win.pitch, x, y),
        })
    &&& forall|p: int| 0 <= p < old.len() && !win.has_byte(p) ==> new[p] == old[p]
}

/// The ink of `top` where there is some, else that of `bottom`.
pub open spec fn over(bottom: Ink, top: Ink) -> Ink {
    |x: int, y: int|
        match top(x, y) {
            Some(c) => Some(c),
            None => bottom(x, y),
        }
}

/// No ink at all.
pub open spec fn blank() -> Ink {
    |x: int, y: int| None::<u32>
}

/// One pixel.
pub open spec fn dot(cx: int, cy: int, color: u32) -> Ink {
    |x: int, y: int|
        if x == cx && y == cy {
            Some(color)
        } else {
            None::<u32>
        }
}

/// Drawing nothing changes nothing.
pub proof fn lemma_blank(win: Window, px: Seq<u8>)
    ensures
        painted(win, px, px, blank()),
{
}

/// Drawing twice is drawing the second ink over the first.
pub proof fn lemma_over(win: Window, a: Seq<u8>, b: Seq<u8>, c: Seq<u8>, first: Ink, second: Ink)
    requires
        painted(win, a, b, first),
        painted(win, b, c, second),
    ensures
        painted(win, a, c, over(first, second)),
{
    assert forall|x: int, y: int| win.has(x, y) implies #[trigger] pixel(c, win.pitch, x, y) == (match over(
        first,
        second,
    )(x, y) {
        Some(v) => v as int,
        None => pixel(a, win.pitch, x, y),
    }) by {
        assert(pixel(b, win.pitch, x, y) == (match first(x, y) {
            Some(v) => v as int,
            None => pixel(a, win.pitch, x, y),
        }));
    }
}

/// Only the ink within the window matters.
pub proof fn lemma_same_ink(win: Window, a: Seq<u8>, b: Seq<u8>, first: Ink, second: Ink)
    requires
        painted(win, a, b, first),
        forall|x: int, y: int| win.has(x, y) ==> #[trigger] first(x, y) == second(x, y),
    ensures
        painted(win, a, b, second),
{
    assert forall|x: int, y: int| win.has(x, y) implies #[trigger] pixel(b, win.pitch, x, y) == (match second(
        x,
        y,
    ) {
        Some(v) => v as int,
        None => pixel(a, win.pitch, x, y),
    }) by {
        assert(first(x, y) == second(x, y));
    }
}

/// A pixel's bytes are determined by the pixel.
proof fn lemma_same_bytes(a: Seq<u8>, b: Seq<u8>, pitch: int, x: int, y: int)
    requires
        pixel(a, pitch, x, y) == pixel(b, pitch, x, y),
    ensures
        forall|k: int|
            0 <= k < 4 ==> #[trigger] a[pixel_offset(pitch, x, y) + k] == b[pixel_offset(pitch, x, y)
                + k],
{
    let o = pixel_offset(pitch, x, y);
    let (a0, a1, a2, a3) = (a[o], a[o + 1], a[o + 2], a[o + 3]);
    let (b0, b1, b2, b3) = (b[o], b[o + 1], b[o + 2], b[o + 3]);
    assert(a3 == b3);
    assert(a2 == b2);
    assert(a1 == b1);
    assert(a0 == b0);
    assert forall|k: int| 0 <= k < 4 implies #[trigger] a[o + k] == b[o + k] by {
        assert(k == 0 || k == 1 || k == 2 || k == 3);
    }
}

/// What is drawn determines every byte.
pub proof fn lemma_painted_unique(win: Window, old: Seq<u8>, a: Seq<u8>, b: Seq<u8>, ink: Ink)
    requires
        painted(win, old, a, ink),
        painted(win, old, b, ink),
    ensures
        a == b,
{
    assert forall|p: int| 0 <= p < old.len() implies a[p] == b[p] by {
        if win.has_byte(p) {
            let (x, y) = choose|x: int, y: int|
                win.has(x, y) && 0 <= p - #[trigger] pixel_offset(win.pitch, x, y) < 4;
            let o = pixel_offset(win.pitch, x, y);
            assert(pixel(a, win.pitch, x, y) == pixel(b, win.pitch, x, y));
            lemma_same_bytes(a, b, win.pitch, x, y);
            assert(a[o + (p - o)] == b[o + (p - o)]);
        }
    }
    assert(a =~= b);
}

/// A pixel of the window that was drawn on holds its color's four bytes, blue first and the
/// opacity last, and any other pixel of the window the bytes it had.
pub proof fn lemma_painted_bytes(win: Window, old: Seq<u8>, new: Seq<u8>, ink: Ink, x: int, y: int)
    requires
        painted(win, old, new, ink),
        0 <= x < win.w,
        0 <= y < win.h,
    ensures
        ({
            let o = y * win.pitch + 4 * x;
            match ink(x, y) {
                Some(c) => {
                    &&& new[o] as int == c as int % 0x100
                    &&& new[o + 1] as int == c as int / 0x100 % 0x100
                    &&& new[o + 2] as int == c as int / 0x1_0000 % 0x100
                    &&& new[o + 3] as int == c as int / 0x100_0000
                },
                None => {
                    &&& new[o] == old[o]
                    &&& new[o + 1] == old[o + 1]
                    &&& new[o + 2] == old[o + 2]
                    &&& new[o + 3] == old[o + 3]
                },
            }
        }),
{
    let o = pixel_offset(win.pitch, x, y);
    assert(win.has(x, y));
    assert(o == y * win.pitch + 4 * x);
    assert(pixel(new, win.pitch, x, y) == new[o] + new[o + 1] * 0x100 + new[o + 2] * 0x1_0000 + new[o + 3]
        * 0x100_0000);
    if ink(x, y) is None {
        lemma_same_bytes(new, old, win.pitch, x, y);
        assert(new[o + 0] == old[o + 0]);
    }
}

/// Bytes that belong to no pixel of the window, those right of it and those below, are kept.
pub proof fn lemma_painted_elsewhere(win: Window, old: Seq<u8>, new: Seq<u8>, ink: Ink, row: int, p: int)
    requires
        win.fits(old.len() as int),
        painted(win, old, new, ink),
        row >= 0,
        0 <= row * win.pitch + p < old.len(),
        0 <= p,
        p < win.pitch || row >= win.h,
        p >= 4 * win.w || row >= win.h,
    ensures
        new.len() == old.len(),
        new[row * win.pitch + p] == old[row * win.pitch + p],
{
    let at = row * win.pitch + p;
    let pitch = win.pitch;
    if win.has_byte(at) {
        let (x, y) = choose|x: int, y: int|
            win.has(x, y) && 0 <= at - #[trigger] pixel_offset(win.pitch, x, y) < 4;
        if y < row {
            assert(y * pitch + pitch <= row * pitch) by (nonlinear_arith)
                requires
                    y + 1 <= row,
                    pitch >= 0,
            ;
        } else if row < y {
            assert(row * pitch + pitch <= y * pitch) by (nonlinear_arith)
                requires
                    row + 1 <= y,
                    pitch >= 0,
            ;
        }
        assert(false);
    }
}

/// Of two layers the upper one shows where it has ink, and the lower one elsewhere. A dot is on its
/// own pixel alone.
pub proof fn lemma_layers(bottom: Ink, top: Ink, x: int, y: int, cx: int, cy: int, color: u32)
    ensures
        top(x, y) is Some ==> over(bottom, top)(x, y) == top(x, y),
        top(x, y) is None ==> over(bottom, top)(x, y) == bottom(x, y),
        blank()(x, y) is None,
        dot(cx, cy, color)(cx, cy) == Some(color),
        x != cx || y != cy ==> dot(cx, cy, color)(x, y) is None,
{
}

/// The pixels of a window lie in the buffer, each apart from the others.
pub proof fn lemma_pixel_apart(win: Window, len: int, x: int, y: int, u: int, v: int)
    requires
        win.fits(len),
        win.has(x, y),
        win.has(u, v),
    ensures
        0 <= pixel_offset(win.pitch, x, y) <= len - 4,
        (x, y) != (u, v) ==> {
            ||| pixel_offset(win.pitch, x, y) + 4 <= pixel_offset(win.pitch, u, v)
            ||| pixel_offset(win.pitch, u, v) + 4 <= pixel_offset(win.pitch, x, y)
        },
{
    let p = win.pitch;
    assert(0 <= y * p <= (win.h - 1) * p) by (nonlinear_arith)
        requires
            0 <= y <= win.h - 1,
            p >= 0,
    ;
    if y < v {
        assert(y * p + p <= v * p) by (nonlinear_arith)
            requires
                y + 1 <= v,
                p >= 0,
        ;
    } else if v < y {
        assert(v * p + p <= y * p) by (nonlinear_arith)
            requires
                v + 1 <= y,
                p >= 0,
        ;
    }
}

/// The bytes of a color, the lowest first.
pub fn color_bytes(color: u32) -> (r: (u8, u8, u8, u8))
    ensures
        r.0 + r.1 * 0x100 + r.2 * 0x1_0000 + r.3 * 0x100_0000 == color,
{
    (
        (color % 0x100) as u8,
        (color / 0x100 % 0x100) as u8,
        (color / 0x1_0000 % 0x100) as u8,
        (color / 0x100_0000) as u8,
    )
}

/// Draws one pixel of a window.
pub(crate) fn put_pixel(px: &mut [u8], pitch: usize, x: usize, y: usize, color: u32, win: Ghost<Window>)
    requires
        win@.pitch == pitch,
        win@.fits(old(px)@.len() as int),
        win@.has(x as int, y as int),
    ensures
        painted(win@, old(px)@, final(px)@, dot(x as int, y as int, color)),
{
    let ghost before = px@;
    let len: usize = px.len();
    proof {
        lemma_pixel_apart(win@, before.len() as int, x as int, y as int, x as int, y as int);
    }
    let o: usize = y * pitch + x * 4;
    let (b0, b1, b2, b3) = color_bytes(color);
    px[o] = b0;
    px[o + 1] = b1;
    px[o + 2] = b2;
    px[o + 3] = b3;
    proof {
        let ink = dot(x as int, y as int, color);
        assert forall|u: int, v: int| win@.has(u, v) implies #[trigger] pixel(px@, win@.pitch, u, v) == (match ink(
            u,
            v,
        ) {
            Some(c) => c as int,
            None => pixel(before, win@.pitch, u, v),
        }) by {
            lemma_pixel_apart(win@, before.len() as int, u, v, x as int, y as int);
        }
        assert forall|p: int| 0 <= p < before.len() && !win@.has_byte(p) implies px@[p] == before[p] by {
            assert(win@.has(x as int, y as int));
            assert(!(0 <= p - pixel_offset(win@.pitch, x as int, y as int) < 4));
        }
    }
}

} // verus!
