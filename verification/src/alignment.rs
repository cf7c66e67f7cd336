//! What the alignment of the stream guarantees.

use crate::boundary::{frame_height, frame_row, is_best_height, MAX_HEIGHT, MIN_HEIGHT};
use crate::frame::{HEIGHT, LINE, PAIR, WIDTH};
use crate::sync::{
    chroma_score, clean_shift, coarse_sync, first_clean_shift, frames_available, frames_checked,
    is_pair_offset, lemma_chroma_hits_bound, lemma_chroma_hits_local, lemma_pair_offset,
    line_changes, line_pair, pair_offset, pairs_from, refined_start, row_clean, sample, sample_hits,
    signature, window_clean, wrapped_row, MIN_PAIRS, ROUGH_FRAME,
};
use vstd::arithmetic::div_mod::{
    lemma_fundamental_div_mod, lemma_fundamental_div_mod_converse, lemma_mod_bound,
};
use vstd::prelude::*;

verus! {

/// The best of the first `n` even offsets.
proof fn lemma_best_offset(data: Seq<u8>, n: nat) -> (off: int)
    requires
        n > 0,
    ensures
        0 <= off < 2 * n,
        off % 2 == 0,
        forall|q: int|
            0 <= q < 2 * n && q % 2 == 0 ==> #[trigger] chroma_score(data, q) <= chroma_score(
                data,
                off,
            ),
        forall|q: int|
            0 <= q < off && q % 2 == 0 ==> #[trigger] chroma_score(data, q) < chroma_score(
                data,
                off,
            ),
    decreases n,
{
    if n == 1 {
        0
    } else {
        let off = lemma_best_offset(data, (n - 1) as nat);
        let last = 2 * (n - 1);
        if chroma_score(data, last) > chroma_score(data, off) {
            last
        } else {
            off
        }
    }
}

/// The line-pair offset is an even offset within a line-pair, and within the data.
pub proof fn lemma_pair_offset_bounds(data: Seq<u8>)
    ensures
        is_pair_offset(data, pair_offset(data)),
        0 <= pair_offset(data) < PAIR,
        pair_offset(data) % 2 == 0,
        pair_offset(data) <= data.len(),
        data.len() > 0 ==> pair_offset(data) < data.len(),
{
    let off = lemma_best_offset(data, 1280);
    assert(is_pair_offset(data, off));
    lemma_pair_offset(data, off);
    if off > 0 {
        assert(chroma_score(data, 0) < chroma_score(data, off));
        assert(sample_hits(data, off, 0) > 0 || sample_hits(data, off, 1) > 0 || sample_hits(
            data,
            off,
            2,
        ) > 0 || sample_hits(data, off, 3) > 0);
    }
}

/// The detected height is one of the candidates, and the detected row lies within the frame.
pub proof fn lemma_frame_bounds(c: Seq<int>)
    ensures
        MIN_HEIGHT <= frame_height(c) <= MAX_HEIGHT,
        0 <= frame_row(c) < frame_height(c),
{
    if exists|h: int| is_best_height(c, h) {
        assert(is_best_height(c, frame_height(c)));
    }
}

/// Coarse alignment finds a height between 508 and 520 line-pairs, and an even offset that lies
/// within the data, less than 520 line-pairs from its start.
pub proof fn lemma_coarse_sync_bounds(data: Seq<u8>)
    ensures
        MIN_HEIGHT <= coarse_sync(data).1 <= MAX_HEIGHT,
        0 <= coarse_sync(data).0 < PAIR * MAX_HEIGHT,
        coarse_sync(data).0 % 2 == 0,
        coarse_sync(data).0 <= data.len(),
        data.len() > 0 ==> coarse_sync(data).0 < data.len(),
{
    lemma_pair_offset_bounds(data);
    let off = pair_offset(data);
    if pairs_from(data, off) >= MIN_PAIRS {
        let c = line_changes(data, off);
        lemma_frame_bounds(c);
        let r = frame_row(c);
        assert(r * PAIR <= 519 * PAIR && (r * PAIR) % 2 == 0) by {
            assert(r * PAIR == 2 * (r * 1280)) by (nonlinear_arith)
                requires
                    PAIR == 2560,
            ;
        }
        lemma_fundamental_div_mod(data.len() - off, PAIR as int);
        lemma_mod_bound(data.len() - off, PAIR as int);
        assert(data.len() - off >= 530 * PAIR);
    }
}

/// An offset whose sampled chroma bytes are all neutral is found, if none before it is like that.
pub proof fn lemma_neutral_chroma_is_found(data: Seq<u8>, off: int)
    requires
        0 <= off < PAIR,
        off % 2 == 0,
        chroma_score(data, off) == 4 * WIDTH,
        forall|q: int|
            0 <= q < off && q % 2 == 0 ==> #[trigger] chroma_score(data, q) < 4 * WIDTH,
    ensures
        pair_offset(data) == off,
{
    assert forall|q: int| 0 <= q < PAIR && q % 2 == 0 implies #[trigger] chroma_score(data, q)
        <= chroma_score(data, off) by {
        assert forall|f: int| #[trigger] sample_hits(data, q, f) <= WIDTH by {
            lemma_chroma_hits_bound(data, q + LINE + f * ROUGH_FRAME, WIDTH as nat);
        }
    }
    assert(is_pair_offset(data, off));
    lemma_pair_offset(data, off);
}

/// The signature looks at the first line-pair only.
pub proof fn lemma_signature_of_first_pair(frame: Seq<u8>, n: int)
    requires
        PAIR <= n <= frame.len(),
    ensures
        signature(frame.take(n)) == signature(frame),
{
    assert forall|k: int| 0 <= k < 128 implies #[trigger] sample(frame.take(n), LINE as int, k)
        == sample(frame, LINE as int, k) by {}
    lemma_chroma_hits_local(frame.take(n), frame, LINE as int, LINE as int, 128);
}

/// The least shift among `s` and those before it at which a clean window starts.
proof fn lemma_least_clean_shift(data: Seq<u8>, offset: int, h: int, n: int, s: int) -> (t: int)
    requires
        0 <= s < h,
        window_clean(data, offset, h, n, s),
    ensures
        t <= s,
        first_clean_shift(data, offset, h, n, t),
    decreases s,
{
    if exists|t: int| 0 <= t < s && #[trigger] window_clean(data, offset, h, n, t) {
        let t = choose|t: int| 0 <= t < s && #[trigger] window_clean(data, offset, h, n, t);
        lemma_least_clean_shift(data, offset, h, n, t)
    } else {
        s
    }
}

/// Where a clean window starts at some shift, one starts at the shift that is found, which is the
/// first such.
pub proof fn lemma_clean_window_is_found(data: Seq<u8>, offset: int, h: int, n: int, s: int)
    requires
        0 <= s < h,
        window_clean(data, offset, h, n, s),
    ensures
        0 <= clean_shift(data, offset, h, n) <= s,
        window_clean(data, offset, h, n, clean_shift(data, offset, h, n)),
{
    let t = lemma_least_clean_shift(data, offset, h, n, s);
    let u = clean_shift(data, offset, h, n);
    assert(first_clean_shift(data, offset, h, n, u));
    if u > s {
        assert(window_clean(data, offset, h, n, s));
    }
}

/// The shift lies within a frame, and is none where no clean window starts.
pub proof fn lemma_clean_shift_bounds(data: Seq<u8>, offset: int, h: int, n: int)
    requires
        h > 0,
    ensures
        0 <= clean_shift(data, offset, h, n) < h,
        (forall|s: int| 0 <= s < h ==> !#[trigger] window_clean(data, offset, h, n, s))
            ==> clean_shift(data, offset, h, n) == 0,
{
    if exists|s: int| first_clean_shift(data, offset, h, n, s) {
        assert(first_clean_shift(data, offset, h, n, clean_shift(data, offset, h, n)));
    }
}

/// Refinement moves the start on by whole line-pairs, less than a frame, and stays within the data.
pub proof fn lemma_refined_start_bounds(data: Seq<u8>, offset: int, h: int)
    requires
        0 <= offset <= data.len(),
        h > 0,
    ensures
        offset <= refined_start(data, offset, h) <= offset + PAIR * (h - 1),
        refined_start(data, offset, h) <= data.len(),
        (refined_start(data, offset, h) - offset) % (PAIR as int) == 0,
{
    let n = frames_checked(data.len() as int, offset, h);
    let s = clean_shift(data, offset, h, n);
    lemma_clean_shift_bounds(data, offset, h, n);
    assert(PAIR * (h - 1) >= 0) by (nonlinear_arith)
        requires
            h > 0,
    ;
    if frames_available(data.len() as int, offset, h) >= 2 {
        let fb = PAIR * h;
        assert(fb > 0) by (nonlinear_arith)
            requires
                fb == PAIR * h,
                h > 0,
                PAIR == 2560,
        ;
        lemma_fundamental_div_mod(data.len() - offset, fb);
        lemma_mod_bound(data.len() - offset, fb);
        assert(data.len() - offset >= 2 * fb) by (nonlinear_arith)
            requires
                data.len() - offset == fb * ((data.len() - offset) / fb) + (data.len() - offset)
                    % fb,
                (data.len() - offset) % fb >= 0,
                (data.len() - offset) / fb >= 2,
                fb > 0,
        ;
        assert(0 <= s * PAIR <= PAIR * (h - 1) && PAIR * (h - 1) <= fb) by (nonlinear_arith)
            requires
                0 <= s <= h - 1,
                fb == PAIR * h,
        ;
        lemma_fundamental_div_mod_converse(s * PAIR, PAIR as int, s, 0);
    }
}

/// From the refined start on, every active row of every frame that lies within the frames looked
/// at is clean.
pub proof fn lemma_refined_rows_clean(
    data: Seq<u8>,
    offset: int,
    h: int,
    s: int,
    f: int,
    k: int,
)
    requires
        h > 0,
        frames_available(data.len() as int, offset, h) >= 2,
        0 <= s < h,
        window_clean(data, offset, h, frames_checked(data.len() as int, offset, h), s),
        0 <= f,
        0 <= k < HEIGHT,
        f * h + clean_shift(data, offset, h, frames_checked(data.len() as int, offset, h)) + k
            < frames_checked(data.len() as int, offset, h) * h,
    ensures
        signature(line_pair(data, refined_start(data, offset, h), h, f, k)),
{
    let n = frames_checked(data.len() as int, offset, h);
    lemma_clean_window_is_found(data, offset, h, n, s);
    let shift = clean_shift(data, offset, h, n);
    let row = f * h + shift + k;
    assert(row >= 0) by (nonlinear_arith)
        requires
            row == f * h + shift + k,
            f >= 0,
            h > 0,
            shift >= 0,
            k >= 0,
    ;
    lemma_fundamental_div_mod(row, h);
    lemma_mod_bound(row, h);
    let g = row / h;
    assert(0 <= g < n) by (nonlinear_arith)
        requires
            row == h * g + row % h,
            0 <= row % h < h,
            0 <= row < n * h,
    ;
    assert(row % h == wrapped_row(shift, k, h)) by {
        lemma_fundamental_div_mod(shift + k, h);
        let q = (shift + k) / h;
        let r = (shift + k) % h;
        lemma_mod_bound(shift + k, h);
        assert(row == (f + q) * h + r) by (nonlinear_arith)
            requires
                row == f * h + shift + k,
                shift + k == h * q + r,
        ;
        lemma_fundamental_div_mod_converse(row, h, f + q, r);
    }
    assert(row_clean(data, offset, h, n, wrapped_row(shift, k, h)));
    assert(signature(line_pair(data, offset, h, g, row % h)));
    let start = refined_start(data, offset, h);
    assert(start + f * (PAIR * h) + k * PAIR == offset + g * (PAIR * h) + (row % h) * PAIR)
        by (nonlinear_arith)
        requires
            start == offset + shift * PAIR,
            row == f * h + shift + k,
            row == h * g + row % h,
    ;
}

/// Where three frames could be looked at and a clean window exists, all active rows of the first
/// two frames from the refined start on are clean.
pub proof fn lemma_first_two_frames_clean(data: Seq<u8>, offset: int, h: int, s: int)
    requires
        HEIGHT <= h,
        frames_available(data.len() as int, offset, h) >= 3,
        0 <= s < h,
        window_clean(data, offset, h, 3, s),
    ensures
        forall|f: int, k: int|
            0 <= f < 2 && 0 <= k < HEIGHT ==> signature(
                #[trigger] line_pair(data, refined_start(data, offset, h), h, f, k),
            ),
{
    lemma_clean_window_is_found(data, offset, h, 3, s);
    assert forall|f: int, k: int| 0 <= f < 2 && 0 <= k < HEIGHT implies signature(
        #[trigger] line_pair(data, refined_start(data, offset, h), h, f, k),
    ) by {
        assert(f * h <= h) by (nonlinear_arith)
            requires
                0 <= f <= 1,
                h > 0,
        ;
        lemma_refined_rows_clean(data, offset, h, s, f, k);
    }
}

/// A row that is not clean is none of the active rows from the refined start on: it lies in the
/// blanking tail.
pub proof fn lemma_unclean_rows_in_tail(
    data: Seq<u8>,
    offset: int,
    h: int,
    n: int,
    s: int,
    r: int,
)
    requires
        HEIGHT <= h,
        0 <= s < h,
        window_clean(data, offset, h, n, s),
        0 <= r < h,
        !row_clean(data, offset, h, n, r),
    ensures
        (r - clean_shift(data, offset, h, n)) % h >= HEIGHT,
{
    lemma_clean_window_is_found(data, offset, h, n, s);
    let shift = clean_shift(data, offset, h, n);
    let k = (r - shift) % h;
    lemma_mod_bound(r - shift, h);
    if k < HEIGHT {
        lemma_fundamental_div_mod(r - shift, h);
        let q = (r - shift) / h;
        assert(shift + k == (-q) * h + r) by (nonlinear_arith)
            requires
                r - shift == h * q + k,
        ;
        lemma_fundamental_div_mod_converse(shift + k, h, -q, r);
        assert(wrapped_row(shift, k, h) == r);
    }
}

/// Whether data repeats itself every `fb` bytes from `offset` on.
pub open spec fn repeats(data: Seq<u8>, offset: int, fb: int) -> bool {
    forall|i: int, j: int|
        offset <= i < j < data.len() && j == i + fb ==> #[trigger] data[i] == #[trigger] data[j]
}

/// In data that repeats itself, a row is the same in each frame.
proof fn lemma_same_row(data: Seq<u8>, offset: int, h: int, f: int, r: int)
    requires
        0 <= offset,
        h > 0,
        repeats(data, offset, PAIR * h),
        0 <= f,
        0 <= r < h,
        offset + f * (PAIR * h) + r * PAIR + PAIR <= data.len(),
    ensures
        line_pair(data, offset, h, f, r) == line_pair(data, offset, h, 0, r),
    decreases f,
{
    let fb = PAIR * h;
    assert(fb > 0 && r * PAIR >= 0 && 0 * fb == 0) by (nonlinear_arith)
        requires
            fb == 2560 * h,
            h > 0,
            r >= 0,
    ;
    if f > 0 {
        assert(f * fb == (f - 1) * fb + fb && (f - 1) * fb >= 0) by (nonlinear_arith)
            requires
                f >= 1,
                fb > 0,
        ;
        lemma_same_row(data, offset, h, f - 1, r);
        let at = offset + (f - 1) * fb + r * PAIR;
        let (a, b) = (line_pair(data, offset, h, f, r), line_pair(data, offset, h, f - 1, r));
        assert(a.len() == PAIR && b.len() == PAIR);
        assert forall|k: int| 0 <= k < PAIR implies a[k] == b[k] by {
            assert(data[at + k] == data[at + fb + k]);
        }
        assert(a =~= b);
    }
}

/// In data that repeats itself frame by frame, refining a refined start changes nothing.
pub proof fn lemma_refine_twice(data: Seq<u8>, offset: int, h: int)
    requires
        0 <= offset,
        h > 0,
        repeats(data, offset, PAIR * h),
    ensures
        refined_start(data, refined_start(data, offset, h), h) == refined_start(data, offset, h),
{
    let fb = PAIR * h;
    let len = data.len() as int;
    let n = frames_checked(len, offset, h);
    let s = clean_shift(data, offset, h, n);
    let start = refined_start(data, offset, h);
    let m = frames_checked(len, start, h);
    if frames_available(len, offset, h) >= 2 && frames_available(len, start, h) >= 2 && exists|t: int|
        first_clean_shift(data, offset, h, n, t) {
        assert(first_clean_shift(data, offset, h, n, s));
        assert(fb > 0) by (nonlinear_arith)
            requires
                fb == 2560 * h,
                h > 0,
        ;
        lemma_fundamental_div_mod(len - start, fb);
        lemma_mod_bound(len - start, fb);
        assert(m * fb <= len - start) by (nonlinear_arith)
            requires
                len - start == fb * ((len - start) / fb) + (len - start) % fb,
                (len - start) % fb >= 0,
                m <= (len - start) / fb,
                fb > 0,
        ;
        assert forall|k: int| 0 <= k < HEIGHT implies row_clean(
            data,
            start,
            h,
            m,
            #[trigger] wrapped_row(0, k, h),
        ) by {
            let r = wrapped_row(0, k, h);
            let w = wrapped_row(s, k, h);
            assert(row_clean(data, offset, h, n, w));
            assert(signature(line_pair(data, offset, h, 0, w)));
            lemma_fundamental_div_mod(k, h);
            lemma_mod_bound(k, h);
            assert forall|f: int| 0 <= f < m implies signature(
                #[trigger] line_pair(data, start, h, f, r),
            ) by {
                let row = f * h + s + r;
                lemma_fundamental_div_mod(row, h);
                lemma_mod_bound(row, h);
                let g = row / h;
                assert(row % h == w) by {
                    let q = k / h;
                    lemma_fundamental_div_mod(s + k, h);
                    lemma_mod_bound(s + k, h);
                    let z = (s + k) / h;
                    assert(row == (f + z - q) * h + w) by (nonlinear_arith)
                        requires
                            row == f * h + s + r,
                            k == h * q + r,
                            s + k == h * z + w,
                    ;
                    lemma_fundamental_div_mod_converse(row, h, f + z - q, w);
                }
                assert(row >= 0 && g >= 0) by (nonlinear_arith)
                    requires
                        row == f * h + s + r,
                        row == h * g + row % h,
                        row % h < h,
                        f >= 0,
                        h > 0,
                        s >= 0,
                        r >= 0,
                ;
                let at = start + f * fb + r * PAIR;
                assert(at == offset + g * fb + w * PAIR) by (nonlinear_arith)
                    requires
                        at == start + f * fb + r * PAIR,
                        start == offset + s * PAIR,
                        row == f * h + s + r,
                        row == h * g + w,
                        fb == PAIR * h,
                ;
                assert(at + PAIR <= len) by (nonlinear_arith)
                    requires
                        at == start + f * fb + r * PAIR,
                        r + 1 <= h,
                        f + 1 <= m,
                        m * fb <= len - start,
                        fb == PAIR * h,
                        fb > 0,
                ;
                lemma_same_row(data, offset, h, g, w);
            }
        }
        assert(window_clean(data, start, h, m, 0));
        lemma_clean_window_is_found(data, start, h, m, 0);
    }
}

} // verus!
