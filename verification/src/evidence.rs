//! What the alignment of the stream goes by, byte by byte.

use crate::alignment::{lemma_clean_window_is_found, lemma_pair_offset_bounds};
use crate::boundary::{
    frame_height, frame_row, is_best_height, is_last_peak, last_peak, lemma_last_peak, profile,
    prominence, row_count, row_total, running_sum,
};
use crate::double::{double_add, double_div};
use crate::sync::{
    chroma_hits, chroma_score, clean_shift, coarse_sync, first_clean_shift, frames_available,
    frames_checked, line_changes, line_pair, luma_distance, pair_offset, refined_start, row_clean,
    signature, window_clean, wrapped_row,
};
use vstd::arithmetic::div_mod::{
    lemma_fundamental_div_mod, lemma_fundamental_div_mod_converse, lemma_mod_bound, lemma_small_mod,
};
use vstd::arithmetic::power2::pow2;
use vstd::prelude::*;

verus! {

/// Neutral chroma is counted over every other byte.
pub proof fn lemma_chroma_bytes(data: Seq<u8>, start: int, n: nat)
    ensures
        chroma_hits(data, start, n) == Seq::new(n, |k: int| data[start + 2 * k]).filter(|b: u8| b == 0x80).len(),
    decreases n,
{
    reveal(Seq::filter);
    let s = Seq::new(n, |k: int| data[start + 2 * k]);
    if n > 0 {
        lemma_chroma_bytes(data, start, (n - 1) as nat);
        assert(s.drop_last() =~= Seq::new((n - 1) as nat, |k: int| data[start + 2 * k]));
    }
}

/// A frame shows the signature of a UYVY line if it has the first 256 bytes of its second line, and
/// at least 60 percent of the 128 chroma bytes among them are neutral.
pub proof fn lemma_signature_bytes(frame: Seq<u8>)
    ensures
        signature(frame) <==> {
            &&& frame.len() >= 1536
            &&& 5 * Seq::new(128, |k: int| frame[1280 + 2 * k]).filter(|b: u8| b == 0x80).len() >= 3 * 128
        },
{
    lemma_chroma_bytes(frame, 1280, 128);
}

/// The score of an offset is the number of neutral bytes at the chroma places of up to four lines:
/// the second line of the line-pair there, and the lines 512, 1024 and 1536 line-pairs further on,
/// as far as the stream holds them.
pub proof fn lemma_score_bytes(data: Seq<u8>, off: int)
    ensures
        ({
            let line = |f: int|
                if off + 1280 + f * 1310720 + 1280 <= data.len() {
                    Seq::new(640, |k: int| data[off + 1280 + f * 1310720 + 2 * k]).filter(|b: u8| b == 0x80).len()
                } else {
                    0
                };
            chroma_score(data, off) == line(0) + line(1) + line(2) + line(3)
        }),
{
    lemma_chroma_bytes(data, off + 1280 + 0 * 1310720, 640);
    lemma_chroma_bytes(data, off + 1280 + 1 * 1310720, 640);
    lemma_chroma_bytes(data, off + 1280 + 2 * 1310720, 640);
    lemma_chroma_bytes(data, off + 1280 + 3 * 1310720, 640);
}

/// Line-pairs start at the even offset with the highest score, and at the first of several.
pub proof fn lemma_best_score(data: Seq<u8>, q: int)
    requires
        0 <= q < 2560,
        q % 2 == 0,
    ensures
        0 <= pair_offset(data) < 2560,
        pair_offset(data) % 2 == 0,
        chroma_score(data, q) <= chroma_score(data, pair_offset(data)),
        q < pair_offset(data) ==> chroma_score(data, q) < chroma_score(data, pair_offset(data)),
{
    lemma_pair_offset_bounds(data);
}

/// The distance of a line-pair to the next one is the sum, over the luma bytes of their second
/// lines, of how far they are apart.
pub proof fn lemma_luma_bytes(data: Seq<u8>, off: int, i: int, n: nat)
    ensures
        luma_distance(data, off, i, n) == Seq::new(
            n,
            |x: int|
                {
                    let d = data[off + i * 2560 + 1281 + 2 * x] - data[off + (i + 1) * 2560 + 1281 + 2 * x];
                    if d < 0 {
                        -d
                    } else {
                        d
                    }
                },
        ).fold_left(0int, |sum: int, d: int| sum + d),
    decreases n,
{
    let f = |x: int|
        {
            let d = data[off + i * 2560 + 1281 + 2 * x] - data[off + (i + 1) * 2560 + 1281 + 2 * x];
            if d < 0 {
                -d
            } else {
                d
            }
        };
    if n > 0 {
        lemma_luma_bytes(data, off, i, (n - 1) as nat);
        assert(Seq::new(n, f).drop_last() =~= Seq::new((n - 1) as nat, f));
    }
}

/// The changes of a stream are those between each whole line-pair and the next, each the mean over
/// the 640 luma bytes.
pub proof fn lemma_changes_of_stream(data: Seq<u8>, off: int, i: int)
    requires
        0 <= off,
        off + 2560 <= data.len(),
    ensures
        ({
            let n = line_changes(data, off).len();
            &&& off + (n + 1) * 2560 <= data.len() < off + (n + 2) * 2560
            &&& 0 <= i < n ==> line_changes(data, off)[i] == double_div(
                (luma_distance(data, off, i, 640) * pow2(1074)) as int,
                (640 * pow2(1074)) as int,
            )
        }),
{
    lemma_fundamental_div_mod(data.len() - off, 2560);
}

/// The changes of one row of a frame of `h` rows are every `h`-th one, added up in order.
pub proof fn lemma_row_changes(c: Seq<int>, h: int, k: int, n: nat)
    requires
        0 <= k < h,
    ensures
        ({
            let m = row_count(h, k, n);
            &&& k + m * h >= n
            &&& m > 0 ==> k + (m - 1) * h < n
            &&& row_total(c, h, k, n) == Seq::new(m, |j: int| c[k + j * h]).fold_left(
                0int,
                |sum: int, x: int| double_add(sum, x),
            )
        }),
    decreases n,
{
    let m = row_count(h, k, n);
    let f = |j: int| c[k + j * h];
    if n == 0 {
        assert(Seq::new(m, f).len() == 0);
        assert(0 * h == 0);
    } else {
        lemma_row_changes(c, h, k, (n - 1) as nat);
        let p = row_count(h, k, (n - 1) as nat) as int;
        lemma_fundamental_div_mod(n - 1, h);
        if (n - 1) % h == k {
            let t = (n - 1) / h;
            assert(t == p) by (nonlinear_arith)
                requires
                    n - 1 == h * t + k,
                    k + p * h >= n - 1,
                    p > 0 ==> k + (p - 1) * h < n - 1,
                    p >= 0,
                    n >= 1,
                    0 <= k < h,
            ;
            assert(h * t == t * h) by (nonlinear_arith);
            assert((p + 1) * h == p * h + h) by (nonlinear_arith);
            assert(Seq::new(m, f).drop_last() =~= Seq::new(p as nat, f));
            assert(Seq::new(m, f).last() == c[n - 1]);
        } else if k + p * h == n - 1 {
            lemma_fundamental_div_mod_converse(n - 1, h, p, k);
            assert(false);
        }
    }
}

/// A running sum adds from the first to the last.
pub proof fn lemma_sum_in_order(s: Seq<int>)
    ensures
        running_sum(s) == s.fold_left(0int, |sum: int, x: int| double_add(sum, x)),
    decreases s.len(),
{
    if s.len() > 0 {
        lemma_sum_in_order(s.drop_last());
    }
}

/// The profile of a frame height has the mean change of each row, and its prominence is the quotient
/// of its peak and the mean of all rows.
pub proof fn lemma_profile_of_height(c: Seq<int>, h: int, k: int)
    requires
        0 <= k < h,
    ensures
        profile(c, h).len() == h,
        profile(c, h)[k] == double_div(
            row_total(c, h, k, c.len()),
            (row_count(h, k, c.len()) * pow2(1074)) as int,
        ),
        ({
            let mean = double_div(running_sum(profile(c, h)), h * pow2(1074));
            prominence(c, h) == (if mean > 0 {
                double_div(profile(c, h)[last_peak(profile(c, h))], mean)
            } else {
                0
            })
        }),
{
}

/// The last peak of a sequence is no lower than any element, and higher than those behind it.
pub proof fn lemma_peak_is_highest(s: Seq<int>, j: int)
    requires
        0 <= j < s.len(),
    ensures
        0 <= last_peak(s) < s.len(),
        s[j] <= s[last_peak(s)],
        j > last_peak(s) ==> s[j] < s[last_peak(s)],
{
    let i = lemma_some_peak(s, s.len());
    assert(is_last_peak(s, i));
    lemma_last_peak(s, i);
}

/// Among the first `n` elements there is a last peak.
proof fn lemma_some_peak(s: Seq<int>, n: nat) -> (i: int)
    requires
        0 < n <= s.len(),
    ensures
        0 <= i < n,
        forall|j: int| 0 <= j < n ==> s[j] <= s[i],
        forall|j: int| i < j < n ==> s[j] < s[i],
    decreases n,
{
    if n == 1 {
        0
    } else {
        let i = lemma_some_peak(s, (n - 1) as nat);
        if s[n - 1] >= s[i] {
            n - 1
        } else {
            i
        }
    }
}

/// The detected height is a candidate from 508 to 520 that stands out most, and the smallest of
/// several; the frame starts in the row behind the last peak of its profile. Where no candidate
/// stands out the height is 512 and the frame starts in the first row.
pub proof fn lemma_best_candidate(c: Seq<int>, g: int)
    requires
        508 <= g <= 520,
    ensures
        508 <= frame_height(c) <= 520,
        prominence(c, g) > 0 ==> {
            &&& prominence(c, frame_height(c)) > 0
            &&& prominence(c, g) <= prominence(c, frame_height(c))
            &&& g < frame_height(c) ==> prominence(c, g) < prominence(c, frame_height(c))
            &&& frame_row(c) == (last_peak(profile(c, frame_height(c))) + 1) % frame_height(c)
        },
        (forall|k: int| 508 <= k <= 520 ==> #[trigger] prominence(c, k) <= 0) ==> frame_height(c) == 512 && frame_row(c)
            == 0,
{
    if prominence(c, g) > 0 {
        let h = lemma_some_best(c, 520, g);
        assert(is_best_height(c, h));
    }
    if exists|h: int| is_best_height(c, h) {
        assert(is_best_height(c, frame_height(c)));
    }
}

/// Among the candidates up to `top` there is a smallest one that stands out most.
proof fn lemma_some_best(c: Seq<int>, top: int, g: int) -> (h: int)
    requires
        508 <= g <= top <= 520,
        prominence(c, g) > 0,
    ensures
        508 <= h <= top,
        prominence(c, h) > 0,
        forall|k: int| 508 <= k <= top ==> #[trigger] prominence(c, k) <= prominence(c, h),
        forall|k: int| 508 <= k < h ==> #[trigger] prominence(c, k) < prominence(c, h),
    decreases top,
{
    if exists|q: int| 508 <= q < top && #[trigger] prominence(c, q) > 0 {
        let q = choose|q: int| 508 <= q < top && #[trigger] prominence(c, q) > 0;
        let h = lemma_some_best(c, top - 1, q);
        if prominence(c, top) > prominence(c, h) {
            top
        } else {
            h
        }
    } else {
        assert(g == top);
        top
    }
}

/// Coarse alignment starts at the detected row of the line-pairs with the best score. With fewer
/// than 530 whole line-pairs it keeps to their first byte and the usual height.
pub proof fn lemma_coarse_start(data: Seq<u8>)
    ensures
        ({
            let off = pair_offset(data);
            let c = line_changes(data, off);
            &&& data.len() - off < 530 * 2560 ==> coarse_sync(data) == (off, 512int)
            &&& data.len() - off >= 530 * 2560 ==> coarse_sync(data) == (off + frame_row(c) * 2560, frame_height(c))
        }),
{
    let off = pair_offset(data);
    lemma_fundamental_div_mod(data.len() - off, 2560);
    lemma_mod_bound(data.len() - off, 2560);
}

/// The rows that refinement looks at: line-pair `r` of frame `f` is the 2560 bytes behind `f` whole
/// frames and `r` line-pairs.
pub proof fn lemma_line_pair_bytes(data: Seq<u8>, offset: int, h: int, f: int, r: int, j: int)
    requires
        0 <= offset + (f * h + r) * 2560,
        offset + (f * h + r) * 2560 + 2560 <= data.len(),
        0 <= j < 2560,
    ensures
        line_pair(data, offset, h, f, r).len() == 2560,
        line_pair(data, offset, h, f, r)[j] == data[offset + (f * h + r) * 2560 + j],
{
    assert(f * (2560 * h) + r * 2560 == (f * h + r) * 2560) by (nonlinear_arith);
}

/// Refinement moves the start to the first row such that the 512 rows from it on, counted around,
/// show the signature in each of the first frames: two or three, as far as they are there. With
/// fewer than two frames, or no such row, the start stays.
pub proof fn lemma_first_clean_row(data: Seq<u8>, offset: int, h: int, n: int, s: int)
    requires
        0 <= offset,
        h > 0,
        0 <= s < h,
        n == 2 || n == 3,
        offset + n * (2560 * h) <= data.len(),
        n == 2 ==> data.len() < offset + 3 * (2560 * h),
        forall|f: int, r: int|
            0 <= f < n && 0 <= r < h && (r - s) % h < 512 ==> signature(#[trigger] line_pair(data, offset, h, f, r)),
    ensures
        ({
            let start = refined_start(data, offset, h);
            let t = (start - offset) / 2560;
            &&& start == offset + t * 2560
            &&& 0 <= t <= s
            &&& forall|f: int, r: int|
                0 <= f < n && 0 <= r < h && (r - t) % h < 512 ==> signature(
                    #[trigger] line_pair(data, offset, h, f, r),
                )
        }),
{
    lemma_frames_there(data, offset, h, n);
    assert(window_clean(data, offset, h, n, s)) by {
        assert forall|k: int| 0 <= k < 512 implies row_clean(data, offset, h, n, #[trigger] wrapped_row(s, k, h)) by {
            let r = wrapped_row(s, k, h);
            lemma_mod_bound(s + k, h);
            lemma_fundamental_div_mod(s + k, h);
            let q = (s + k) / h;
            assert(r - s == h * (-q) + k) by (nonlinear_arith)
                requires
                    s + k == h * q + r,
            ;
            lemma_around(r - s, h, -q, k);
            assert((r - s) % h < 512);
            assert forall|f: int| 0 <= f < n implies signature(#[trigger] line_pair(data, offset, h, f, r)) by {}
        }
    }
    lemma_clean_window_is_found(data, offset, h, n, s);
    let t = clean_shift(data, offset, h, n);
    assert((t * 2560) / 2560 == t);
    assert forall|f: int, r: int| 0 <= f < n && 0 <= r < h && (r - t) % h < 512 implies signature(
        #[trigger] line_pair(data, offset, h, f, r),
    ) by {
        lemma_row_of_window(data, offset, h, n, t, r);
    }
}

/// Whole turns do not count.
proof fn lemma_around(x: int, h: int, q: int, k: int)
    requires
        h > 0,
        k >= 0,
        x == h * q + k,
    ensures
        x % h == k % h,
        k % h <= k,
{
    vstd::arithmetic::div_mod::lemma_mod_multiples_vanish(q, k, h);
    lemma_fundamental_div_mod(k, h);
    assert(k / h >= 0 && h * (k / h) >= 0) by (nonlinear_arith)
        requires
            k >= 0,
            h > 0,
    ;
}

/// How many frames there are.
proof fn lemma_frames_there(data: Seq<u8>, offset: int, h: int, n: int)
    requires
        0 <= offset,
        h > 0,
        n == 2 || n == 3,
        offset + n * (2560 * h) <= data.len(),
        n == 2 ==> data.len() < offset + 3 * (2560 * h),
    ensures
        frames_available(data.len() as int, offset, h) >= 2,
        frames_checked(data.len() as int, offset, h) == n,
{
    let fb = 2560 * h;
    let m = data.len() - offset;
    let a = m / fb;
    assert(fb > 0 && n * fb > 0) by (nonlinear_arith)
        requires
            fb == 2560 * h,
            h > 0,
            n >= 2,
    ;
    lemma_fundamental_div_mod(m, fb);
    lemma_mod_bound(m, fb);
    assert(a >= n && (n == 2 ==> a < 3)) by (nonlinear_arith)
        requires
            m == fb * a + m % fb,
            0 <= m % fb < fb,
            n * fb <= m,
            n == 2 ==> m < 3 * fb,
            fb > 0,
    ;
}

/// Without two whole frames the start stays, and otherwise it moves only to a row with 512 clean rows
/// from it on.
pub proof fn lemma_start_stays(data: Seq<u8>, offset: int, h: int, n: int)
    requires
        0 <= offset,
        h > 0,
    ensures
        data.len() < offset + 2 * (2560 * h) ==> refined_start(data, offset, h) == offset,
        ({
            &&& n == 2 || n == 3
            &&& offset + n * (2560 * h) <= data.len()
            &&& n == 2 ==> data.len() < offset + 3 * (2560 * h)
            &&& refined_start(data, offset, h) != offset
        }) ==> {
            let t = (refined_start(data, offset, h) - offset) / 2560;
            &&& refined_start(data, offset, h) == offset + t * 2560
            &&& 0 < t < h
            &&& forall|f: int, r: int|
                0 <= f < n && 0 <= r < h && (r - t) % h < 512 ==> signature(
                    #[trigger] line_pair(data, offset, h, f, r),
                )
        },
{
    let fb = 2560 * h;
    let m = data.len() - offset;
    if m < 2 * fb {
        assert(fb > 0) by (nonlinear_arith)
            requires
                fb == 2560 * h,
                h > 0,
        ;
        if m > 0 {
            lemma_fundamental_div_mod(m, fb);
            lemma_mod_bound(m, fb);
            let a = m / fb;
            assert(a < 2) by (nonlinear_arith)
                requires
                    m == fb * a + m % fb,
                    0 <= m % fb,
                    m < 2 * fb,
                    fb > 0,
            ;
        }
    } else if (n == 2 || n == 3) && offset + n * (2560 * h) <= data.len() && (n == 2 ==> data.len() < offset + 3 * (2560
        * h)) && refined_start(data, offset, h) != offset {
        lemma_frames_there(data, offset, h, n);
        let t = clean_shift(data, offset, h, n);
        assert(first_clean_shift(data, offset, h, n, t));
        assert((t * 2560) / 2560 == t);
        assert forall|f: int, r: int| 0 <= f < n && 0 <= r < h && (r - t) % h < 512 implies signature(
            #[trigger] line_pair(data, offset, h, f, r),
        ) by {
            lemma_row_of_window(data, offset, h, n, t, r);
        }
    }
}

/// A row of a clean window is clean.
proof fn lemma_row_of_window(data: Seq<u8>, offset: int, h: int, n: int, t: int, r: int)
    requires
        h > 0,
        0 <= r < h,
        window_clean(data, offset, h, n, t),
        (r - t) % h < 512,
    ensures
        row_clean(data, offset, h, n, r),
{
    let k = (r - t) % h;
    lemma_mod_bound(r - t, h);
    lemma_fundamental_div_mod(r - t, h);
    let q = (r - t) / h;
    assert(t + k == h * (-q) + r) by (nonlinear_arith)
        requires
            r - t == h * q + k,
    ;
    lemma_around(t + k, h, -q, r);
    lemma_small_mod(r as nat, h as nat);
    assert(wrapped_row(t, k, h) == r);
}

} // verus!
