//! The camera's frame format and its two image planes.
//!
//! The stream is made of line-pairs: one line of Y16 samples followed by one
//! line of UYVY samples.

use vstd::prelude::*;

verus! {

/// Pixels per line.
pub const WIDTH: usize = 640;

/// Active line-pairs per frame.
pub const HEIGHT: usize = 512;

/// Bytes per line.
pub const LINE: usize = WIDTH * 2;

/// Bytes per line-pair of one Y16 and one UYVY line.
pub const PAIR: usize = LINE * 2;

/// Pixels per frame.
pub const PIXELS: usize = WIDTH * HEIGHT;

/// `std::time::Instant`, carried through without a look inside.
#[verifier::external_type_specification]
#[verifier::external_body]
pub struct ExInstant(std::time::Instant);

/// One de-interleaved frame: the Y16 plane and the luma of the
/// camera-processed UYVY lines.
#[derive(Clone)]
pub struct FramePair {
    pub y16: Vec<u8>,
    pub uyvy: Vec<u8>,
    pub seq: u64,
    pub t_read_done: Option<std::time::Instant>,
}

impl Default for FramePair {
    /// Two black planes.
    fn default() -> (r: Self)
        ensures
            r.y16@ == Seq::new(PIXELS as nat, |i: int| 0u8),
            r.uyvy@ == Seq::new(PIXELS as nat, |i: int| 0u8),
            r.seq == 0,
            r.t_read_done is None,
    {
        FramePair { y16: vec![0u8; PIXELS], uyvy: vec![0u8; PIXELS], seq: 0, t_read_done: None }
    }
}

/// The Y16 plane of a raw frame: the even bytes of the first line of each
/// active line-pair.
pub open spec fn y16_plane(raw: Seq<u8>) -> Seq<u8> {
    Seq::new(PIXELS as nat, |i: int| raw[(i / WIDTH as int) * PAIR + 2 * (i % WIDTH as int)])
}

/// The luma plane of a raw frame: the odd bytes of the second line of each
/// active line-pair.
pub open spec fn uyvy_plane(raw: Seq<u8>) -> Seq<u8> {
    Seq::new(
        PIXELS as nat,
        |i: int| raw[(i / WIDTH as int) * PAIR + LINE + 2 * (i % WIDTH as int) + 1],
    )
}

/// Splits the active line-pairs of a raw frame into the two planes.
pub fn deinterleave(raw: &[u8], out: &mut FramePair)
    requires
        raw@.len() >= HEIGHT * PAIR,
        old(out).y16@.len() >= PIXELS,
        old(out).uyvy@.len() >= PIXELS,
    ensures
        final(out).y16@ == y16_plane(raw@) + old(out).y16@.skip(PIXELS as int),
        final(out).uyvy@ == uyvy_plane(raw@) + old(out).uyvy@.skip(PIXELS as int),
        forall|row: int, x: int|
            0 <= row < 512 && 0 <= x < 640 ==> #[trigger] final(out).y16@[row * 640 + x] == raw@[row * 2560
                + 2 * x],
        forall|row: int, x: int|
            0 <= row < 512 && 0 <= x < 640 ==> #[trigger] final(out).uyvy@[row * 640 + x] == raw@[row
                * 2560 + 1280 + 2 * x + 1],
        final(out).seq == old(out).seq,
        final(out).t_read_done == old(out).t_read_done,
{
    let mut row: usize = 0;
    while row < HEIGHT
        invariant
            row <= HEIGHT,
            raw@.len() >= HEIGHT * PAIR,
            out.y16@.len() == old(out).y16@.len() >= PIXELS,
            out.uyvy@.len() == old(out).uyvy@.len() >= PIXELS,
            out.seq == old(out).seq,
            out.t_read_done == old(out).t_read_done,
            forall|i: int| 0 <= i < row * WIDTH ==> out.y16@[i] == y16_plane(raw@)[i],
            forall|i: int| 0 <= i < row * WIDTH ==> out.uyvy@[i] == uyvy_plane(raw@)[i],
            forall|i: int| PIXELS <= i < out.y16@.len() ==> out.y16@[i] == old(out).y16@[i],
            forall|i: int| PIXELS <= i < out.uyvy@.len() ==> out.uyvy@[i] == old(out).uyvy@[i],
        decreases HEIGHT - row,
    {
        let mut x: usize = 0;
        while x < WIDTH
            invariant
                row < HEIGHT,
                x <= WIDTH,
                raw@.len() >= HEIGHT * PAIR,
                out.y16@.len() == old(out).y16@.len() >= PIXELS,
                out.uyvy@.len() == old(out).uyvy@.len() >= PIXELS,
                out.seq == old(out).seq,
                out.t_read_done == old(out).t_read_done,
                forall|i: int| 0 <= i < row * WIDTH + x ==> out.y16@[i] == y16_plane(raw@)[i],
                forall|i: int| 0 <= i < row * WIDTH + x ==> out.uyvy@[i] == uyvy_plane(raw@)[i],
                forall|i: int| PIXELS <= i < out.y16@.len() ==> out.y16@[i] == old(out).y16@[i],
                forall|i: int| PIXELS <= i < out.uyvy@.len() ==> out.uyvy@[i] == old(out).uyvy@[i],
            decreases WIDTH - x,
        {
            let at: usize = row * WIDTH + x;
            assert(at as int / 640 == row && at as int % 640 == x);
            out.y16[at] = raw[row * PAIR + 2 * x];
            out.uyvy[at] = raw[row * PAIR + LINE + 2 * x + 1];
            x = x + 1;
        }
        row = row + 1;
    }
    assert(out.y16@ =~= y16_plane(raw@) + old(out).y16@.skip(PIXELS as int));
    assert(out.uyvy@ =~= uyvy_plane(raw@) + old(out).uyvy@.skip(PIXELS as int));
    proof {
        assert forall|row: int, x: int| 0 <= row < 512 && 0 <= x < 640 implies #[trigger] out.y16@[row * 640
            + x] == raw@[row * 2560 + 2 * x] by {
            lemma_plane_pixels(raw@, row, x);
        }
        assert forall|row: int, x: int| 0 <= row < 512 && 0 <= x < 640 implies #[trigger] out.uyvy@[row * 640
            + x] == raw@[row * 2560 + 1280 + 2 * x + 1] by {
            lemma_plane_pixels(raw@, row, x);
        }
    }
}

/// Each pixel of a plane is a sample of the line-pair of its own row, at its own column: the Y16
/// plane has the even bytes of the first line, the luma plane the odd bytes of the second.
pub proof fn lemma_plane_pixels(raw: Seq<u8>, row: int, x: int)
    requires
        0 <= row < 512,
        0 <= x < 640,
    ensures
        y16_plane(raw).len() == 512 * 640,
        uyvy_plane(raw).len() == 512 * 640,
        y16_plane(raw)[row * 640 + x] == raw[row * 2560 + 2 * x],
        uyvy_plane(raw)[row * 640 + x] == raw[row * 2560 + 1280 + 2 * x + 1],
{
    let i = row * 640 + x;
    assert(i / 640 == row && i % 640 == x);
}

/// A line-pair shows in its own row alone: two frames that differ in line-pair `r` only have planes
/// that agree in every other row.
pub proof fn lemma_rows_apart(a: Seq<u8>, b: Seq<u8>, r: int, row: int, x: int)
    requires
        a.len() == b.len() >= 512 * 2560,
        forall|p: int| 0 <= p < a.len() && !(r * 2560 <= p < (r + 1) * 2560) ==> a[p] == b[p],
        0 <= row < 512,
        0 <= x < 640,
        row != r,
    ensures
        y16_plane(a)[row * 640 + x] == y16_plane(b)[row * 640 + x],
        uyvy_plane(a)[row * 640 + x] == uyvy_plane(b)[row * 640 + x],
{
    lemma_plane_pixels(a, row, x);
    lemma_plane_pixels(b, row, x);
}

/// Line-pairs that change places change the places of their rows: a frame whose line-pair `r` holds
/// what line-pair `q` of another frame holds shows in row `r` what the other shows in row `q`.
pub proof fn lemma_rows_move(a: Seq<u8>, b: Seq<u8>, r: int, q: int, x: int)
    requires
        0 <= r < 512,
        0 <= q < 512,
        a.len() >= 512 * 2560,
        b.len() >= 512 * 2560,
        a.subrange(r * 2560, (r + 1) * 2560) == b.subrange(q * 2560, (q + 1) * 2560),
        0 <= x < 640,
    ensures
        y16_plane(a)[r * 640 + x] == y16_plane(b)[q * 640 + x],
        uyvy_plane(a)[r * 640 + x] == uyvy_plane(b)[q * 640 + x],
{
    lemma_plane_pixels(a, r, x);
    lemma_plane_pixels(b, q, x);
    let s = a.subrange(r * 2560, (r + 1) * 2560);
    let t = b.subrange(q * 2560, (q + 1) * 2560);
    assert(s[2 * x] == a[r * 2560 + 2 * x] && t[2 * x] == b[q * 2560 + 2 * x]);
    assert(s[1280 + 2 * x + 1] == a[r * 2560 + 1280 + 2 * x + 1]);
    assert(t[1280 + 2 * x + 1] == b[q * 2560 + 1280 + 2 * x + 1]);
}

/// Bytes beyond the active line-pairs have no influence on the planes.
pub proof fn lemma_planes_ignore_tail(raw: Seq<u8>, n: int)
    requires
        HEIGHT * PAIR <= n <= raw.len(),
    ensures
        y16_plane(raw.take(n)) == y16_plane(raw),
        uyvy_plane(raw.take(n)) == uyvy_plane(raw),
{
    assert(y16_plane(raw.take(n)) =~= y16_plane(raw));
    assert(uyvy_plane(raw.take(n)) =~= uyvy_plane(raw));
}

} // verus!
