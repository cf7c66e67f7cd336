//! What the drawn texts and markers look like, dot by dot.

use crate::osd::{cross_ink, covers, letters, shadowed, Font};
use crate::pixels::{lemma_painted_bytes, painted, Window};
use vstd::arithmetic::div_mod::{lemma_fundamental_div_mod, lemma_fundamental_div_mod_converse};
use vstd::prelude::*;

verus! {

/// Letters stand upright, side by side from left to right: bit `gx` of byte `gy` of the glyph of
/// character `n` is the square of `scale` by `scale` pixels in column `8 * n + gx` and row `gy` of
/// the text, and characters that are not printable ASCII leave their place free.
pub proof fn lemma_letter_dots(
    font: Font,
    s: Seq<char>,
    x: int,
    y: int,
    scale: int,
    n: int,
    gx: int,
    gy: int,
    dx: int,
    dy: int,
)
    requires
        scale > 0,
        0 <= n < s.len(),
        0 <= gx < 8,
        0 <= gy < 8,
        0 <= dx < scale,
        0 <= dy < scale,
    ensures
        covers(font, s, x, y, scale, x + (8 * n + gx) * scale + dx, y + gy * scale + dy) <==> {
            &&& 32 <= s[n] as int
            &&& (s[n] as int) < 127
            &&& font@[s[n] as int - 32]@[gy] & (1u8 << (gx as u8)) != 0
        },
{
    let col = 8 * n + gx;
    let a = col * scale + dx;
    let b = gy * scale + dy;
    assert(a >= 0 && b >= 0) by (nonlinear_arith)
        requires
            col >= 0,
            gy >= 0,
            scale > 0,
            dx >= 0,
            dy >= 0,
            a == col * scale + dx,
            b == gy * scale + dy,
    ;
    lemma_fundamental_div_mod_converse(a, scale, col, dx);
    lemma_fundamental_div_mod_converse(b, scale, gy, dy);
    assert(col / 8 == n && col % 8 == gx);
    assert((x + (8 * n + gx) * scale + dx) - x == a);
    assert((y + gy * scale + dy) - y == b);
}

/// No dot of a text lies outside its box, which has eight rows, and eight columns for each of its
/// characters.
pub proof fn lemma_letters_within(font: Font, s: Seq<char>, x: int, y: int, scale: int, u: int, v: int)
    requires
        covers(font, s, x, y, scale, u, v),
    ensures
        scale > 0,
        x <= u < x + 8 * s.len() * scale,
        y <= v < y + 8 * scale,
{
    let (a, b) = ((u - x) / scale, (v - y) / scale);
    let w = 8 * s.len() as int;
    assert(u - x < w * scale) by (nonlinear_arith)
        requires
            a == (u - x) / scale,
            a < w,
            scale > 0,
    ;
    assert(v - y < 8 * scale) by (nonlinear_arith)
        requires
            b == (v - y) / scale,
            b < 8,
            scale > 0,
    ;
}

/// The letters of a text have its color, the pixels to the right and below a dot that are no letter
/// themselves are black, and the rest is left alone. Without a shadow there is the letters' color
/// alone.
pub proof fn lemma_text_colors(font: Font, s: Seq<char>, x: int, y: int, color: u32, scale: int, u: int, v: int)
    ensures
        covers(font, s, x, y, scale, u, v) ==> shadowed(font, s, x, y, color, scale)(u, v) == Some(color),
        !covers(font, s, x, y, scale, u, v) && covers(font, s, x, y, scale, u - 1, v - 1) ==> shadowed(
            font,
            s,
            x,
            y,
            color,
            scale,
        )(u, v) == Some(0xFF00_0000u32),
        !covers(font, s, x, y, scale, u, v) && !covers(font, s, x, y, scale, u - 1, v - 1) ==> shadowed(
            font,
            s,
            x,
            y,
            color,
            scale,
        )(u, v) is None,
        covers(font, s, x, y, 1, u, v) ==> letters(font, s, x, y, color)(u, v) == Some(color),
        !covers(font, s, x, y, 1, u, v) ==> letters(font, s, x, y, color)(u, v) is None,
{
}

/// After a text was drawn, a pixel of the window at column `8 * n + gx` and row `gy` of the text
/// holds the bytes of the text's color if bit `gx` of byte `gy` of the glyph of character `n` is
/// set.
pub proof fn lemma_text_shows(
    win: Window,
    old: Seq<u8>,
    new: Seq<u8>,
    font: Font,
    s: Seq<char>,
    x: int,
    y: int,
    color: u32,
    n: int,
    gx: int,
    gy: int,
)
    requires
        win.fits(old.len() as int),
        painted(win, old, new, shadowed(font, s, x, y, color, 1)),
        0 <= n < s.len(),
        0 <= gx < 8,
        0 <= gy < 8,
        0 <= x + 8 * n + gx < win.w,
        0 <= y + gy < win.h,
        32 <= s[n] as int,
        (s[n] as int) < 127,
        font@[s[n] as int - 32]@[gy] & (1u8 << (gx as u8)) != 0,
    ensures
        ({
            let o = (y + gy) * win.pitch + 4 * (x + 8 * n + gx);
            &&& new[o] as int == color as int % 0x100
            &&& new[o + 1] as int == color as int / 0x100 % 0x100
            &&& new[o + 2] as int == color as int / 0x1_0000 % 0x100
            &&& new[o + 3] as int == color as int / 0x100_0000
        }),
{
    let (u, v) = (x + 8 * n + gx, y + gy);
    lemma_letter_dots(font, s, x, y, 1, n, gx, gy, 0, 0);
    assert(x + (8 * n + gx) * 1 + 0 == u && y + gy * 1 + 0 == v);
    lemma_text_colors(font, s, x, y, color, 1, u, v);
    lemma_painted_bytes(win, old, new, shadowed(font, s, x, y, color, 1), u, v);
}

/// A pixel has a text's color exactly when it lies in the text's box and, for the character whose
/// eight columns it lies in, that is printable and the bit of its column is set in the byte of its
/// row.
pub proof fn lemma_text_exact(font: Font, s: Seq<char>, x: int, y: int, color: u32, u: int, v: int)
    requires
        color != 0xFF00_0000u32,
    ensures
        shadowed(font, s, x, y, color, 1)(u, v) == Some(color) <==> {
            let n = (u - x) / 8;
            &&& x <= u < x + 8 * s.len()
            &&& y <= v < y + 8
            &&& 32 <= s[n] as int
            &&& (s[n] as int) < 127
            &&& font@[s[n] as int - 32]@[v - y] & (1u8 << (((u - x) % 8) as u8)) != 0
        },
{
    if x <= u < x + 8 * s.len() && y <= v < y + 8 {
        let (n, gx) = ((u - x) / 8, (u - x) % 8);
        lemma_letter_dots(font, s, x, y, 1, n, gx, v - y, 0, 0);
        assert(x + (8 * n + gx) * 1 + 0 == u && y + (v - y) * 1 + 0 == v);
    } else if covers(font, s, x, y, 1, u, v) {
        lemma_letters_within(font, s, x, y, 1, u, v);
    }
    lemma_text_colors(font, s, x, y, color, 1, u, v);
}

/// A glyph with a single dot, in column `gx` and row `gy`, shows as one square there, with its
/// shadow to the right and below, and nothing else is drawn.
pub proof fn lemma_single_dot(
    font: Font,
    ch: char,
    x: int,
    y: int,
    color: u32,
    scale: int,
    gx: int,
    gy: int,
    u: int,
    v: int,
)
    requires
        scale > 0,
        32 <= ch as int,
        (ch as int) < 127,
        0 <= gx < 8,
        0 <= gy < 8,
        forall|c: int, r: int|
            0 <= c < 8 && 0 <= r < 8 ==> ((#[trigger] (font@[ch as int - 32]@[r] & (1u8 << (c as u8))) != 0) <==> (c
                == gx && r == gy)),
    ensures
        ({
            let left = x + gx * scale;
            let top = y + gy * scale;
            let ink = shadowed(font, seq![ch], x, y, color, scale)(u, v);
            let lit = left <= u < left + scale && top <= v < top + scale;
            let shade = left < u <= left + scale && top < v <= top + scale;
            ink == (if lit {
                Some(color)
            } else if shade {
                Some(0xFF00_0000u32)
            } else {
                None::<u32>
            })
        }),
{
    lemma_single_dot_covers(font, ch, x, y, scale, gx, gy, u, v);
    lemma_single_dot_covers(font, ch, x, y, scale, gx, gy, u - 1, v - 1);
}

/// A glyph with a single dot covers the square of that dot.
proof fn lemma_single_dot_covers(font: Font, ch: char, x: int, y: int, scale: int, gx: int, gy: int, u: int, v: int)
    requires
        scale > 0,
        32 <= ch as int,
        (ch as int) < 127,
        0 <= gx < 8,
        0 <= gy < 8,
        forall|c: int, r: int|
            0 <= c < 8 && 0 <= r < 8 ==> ((#[trigger] (font@[ch as int - 32]@[r] & (1u8 << (c as u8))) != 0) <==> (c
                == gx && r == gy)),
    ensures
        covers(font, seq![ch], x, y, scale, u, v) <==> {
            &&& x + gx * scale <= u < x + gx * scale + scale
            &&& y + gy * scale <= v < y + gy * scale + scale
        },
{
    let s = seq![ch];
    let (a, b) = ((u - x) / scale, (v - y) / scale);
    let (dx, dy) = ((u - x) % scale, (v - y) % scale);
    lemma_fundamental_div_mod(u - x, scale);
    lemma_fundamental_div_mod(v - y, scale);
    assert(scale * a == a * scale && scale * b == b * scale) by (nonlinear_arith);
    if covers(font, s, x, y, scale, u, v) {
        assert(a >= 0 && b >= 0) by (nonlinear_arith)
            requires
                a == (u - x) / scale,
                b == (v - y) / scale,
                u >= x,
                v >= y,
                scale > 0,
        ;
        assert((8 * 0 + a) * scale == a * scale);
        lemma_letter_dots(font, s, x, y, scale, 0, a, b, dx, dy);
        assert(font@[ch as int - 32]@[b] & (1u8 << (a as u8)) != 0);
        assert(a == gx && b == gy);
    }
    if x + gx * scale <= u < x + gx * scale + scale && y + gy * scale <= v < y + gy * scale + scale {
        assert((8 * 0 + gx) * scale == gx * scale);
        lemma_letter_dots(font, s, x, y, scale, 0, gx, gy, u - x - gx * scale, v - y - gy * scale);
        assert(font@[ch as int - 32]@[gy] & (1u8 << (gx as u8)) != 0);
    }
}

/// A cross has a horizontal and a vertical arm through its center, and neither is longer than the
/// cross is large. One of size -1 is a dot, and one of a smaller size is not there.
pub proof fn lemma_cross_arms(cx: int, cy: int, size: int, color: u32, u: int, v: int)
    ensures
        ({
            let ink = cross_ink(cx, cy, size, color)(u, v);
            let on_row = v == cy && -size <= 2 * (u - cx) <= size;
            let on_column = u == cx && -size <= 2 * (v - cy) <= size;
            let center = size == -1 && u == cx && v == cy;
            ink == (if on_row || on_column || center {
                Some(color)
            } else {
                None::<u32>
            })
        }),
{
}

} // verus!
