//! Alignment of the marker-less stream of line-pairs.
//!
//! UYVY lines are told apart by their chroma bytes, and the frame boundary is
//! where the picture changes most from one line to the next.

use crate::boundary::{detect, frame_height, frame_row, moderate, values, DEFAULT_HEIGHT};
use crate::double::{double_div, whole_double};
use crate::float::Double;
use crate::frame::{HEIGHT, LINE, PAIR, WIDTH};
use crate::rounding::{
    lemma_pow2_below, lemma_rounded_lower, lemma_rounded_upper, lemma_rounded_zero,
};
use vstd::arithmetic::power2::{
    lemma2_to64, lemma2_to64_rest, lemma_pow2_adds, lemma_pow2_pos, pow2,
};
use vstd::prelude::*;

verus! {

/// The byte that a chroma sample without color holds.
pub const NEUTRAL: u8 = 0x80;

/// Every other byte from `start` on.
pub open spec fn sample(data: Seq<u8>, start: int, k: int) -> u8 {
    data[start + 2 * k]
}

/// How many of the `n` bytes at `start`, `start + 2`, and so on are neutral
/// chroma.
pub open spec fn chroma_hits(data: Seq<u8>, start: int, n: nat) -> nat
    decreases n,
{
    if n == 0 {
        0
    } else {
        chroma_hits(data, start, (n - 1) as nat) + (if sample(data, start, n - 1) == NEUTRAL {
            1nat
        } else {
            0nat
        })
    }
}

/// There are at most as many hits as samples.
pub proof fn lemma_chroma_hits_bound(data: Seq<u8>, start: int, n: nat)
    ensures
        chroma_hits(data, start, n) <= n,
    decreases n,
{
    if n > 0 {
        lemma_chroma_hits_bound(data, start, (n - 1) as nat);
    }
}

/// Hits depend on the sampled bytes only.
pub proof fn lemma_chroma_hits_local(a: Seq<u8>, b: Seq<u8>, i: int, j: int, n: nat)
    requires
        forall|k: int| 0 <= k < n ==> #[trigger] sample(a, i, k) == sample(b, j, k),
    ensures
        chroma_hits(a, i, n) == chroma_hits(b, j, n),
    decreases n,
{
    if n > 0 {
        assert(sample(a, i, n - 1) == sample(b, j, n - 1));
        lemma_chroma_hits_local(a, b, i, j, (n - 1) as nat);
    }
}

/// Counts the neutral chroma bytes among `n` samples.
fn count_chroma(data: &[u8], start: usize, n: usize) -> (hits: usize)
    requires
        start + 2 * n <= data@.len(),
    ensures
        hits == chroma_hits(data@, start as int, n as nat),
        hits <= n,
{
    let len: usize = data.len();
    let mut hits: usize = 0;
    let mut k: usize = 0;
    while k < n
        invariant
            k <= n,
            start + 2 * n <= len == data@.len(),
            hits == chroma_hits(data@, start as int, k as nat),
            hits <= k,
        decreases n - k,
    {
        if data[start + 2 * k] == NEUTRAL {
            hits = hits + 1;
        }
        k = k + 1;
    }
    hits
}

/// Whether the first UYVY line of a frame looks like one: at least 60 percent
/// of its first 128 chroma samples are neutral.
pub open spec fn signature(frame: Seq<u8>) -> bool {
    &&& frame.len() >= LINE + 256
    &&& chroma_hits(frame, LINE as int, 128) * 100 >= 128 * 60
}

/// Cheap lock check on the first UYVY line of a frame.
pub fn uyvy_signature_ok(frame: &[u8]) -> (ok: bool)
    ensures
        ok == signature(frame@),
{
    if frame.len() < LINE + 256 {
        return false;
    }
    let hits: usize = count_chroma(frame, LINE, 128);
    hits * 100 >= 128 * 60
}

/// Bytes from one sample line of the horizontal alignment to the next: a
/// frame of 512 line-pairs, near enough for a sample.
pub const ROUGH_FRAME: usize = PAIR * 512;

/// Fewest line-pairs that the frame height can be told from.
pub const MIN_PAIRS: usize = 530;

/// The hits in the sample line `f` if the UYVY lines start at `off + LINE`, or
/// none where the stream ends before.
pub open spec fn sample_hits(data: Seq<u8>, off: int, f: int) -> nat {
    let start = off + LINE + f * ROUGH_FRAME;
    if start + LINE > data.len() {
        0
    } else {
        chroma_hits(data, start, WIDTH as nat)
    }
}

/// How much the stream looks like UYVY lines at `off + LINE`: the hits in four
/// sample lines.
pub open spec fn chroma_score(data: Seq<u8>, off: int) -> nat {
    sample_hits(data, off, 0) + sample_hits(data, off, 1) + sample_hits(data, off, 2)
        + sample_hits(data, off, 3)
}

/// Whether `off` is the first even offset within a line-pair that looks most
/// like the start of one.
pub open spec fn is_pair_offset(data: Seq<u8>, off: int) -> bool {
    &&& 0 <= off < PAIR
    &&& off % 2 == 0
    &&& forall|q: int| 0 <= q < PAIR && q % 2 == 0 ==> #[trigger] chroma_score(data, q) <= chroma_score(data, off)
    &&& forall|q: int| 0 <= q < off && q % 2 == 0 ==> #[trigger] chroma_score(data, q) < chroma_score(data, off)
}

/// The offset of the first line-pair.
pub open spec fn pair_offset(data: Seq<u8>) -> int {
    choose|off: int| is_pair_offset(data, off)
}

/// The luma sample `x` of line-pair `i`.
pub open spec fn luma(data: Seq<u8>, off: int, i: int, x: int) -> int {
    data[off + i * PAIR + LINE + 1 + 2 * x] as int
}

/// The distance of two samples.
pub open spec fn distance(a: int, b: int) -> nat {
    if a < b {
        (b - a) as nat
    } else {
        (a - b) as nat
    }
}

/// The sum of the distances between the first `n` luma samples of line-pair
/// `i` and of the next one.
pub open spec fn luma_distance(data: Seq<u8>, off: int, i: int, n: nat) -> nat
    decreases n,
{
    if n == 0 {
        0
    } else {
        luma_distance(data, off, i, (n - 1) as nat) + distance(
            luma(data, off, i, n - 1),
            luma(data, off, i + 1, n - 1),
        )
    }
}

/// The mean distance between the luma samples of line-pair `i` and of the next
/// one, as a binary64 value.
pub open spec fn line_change(data: Seq<u8>, off: int, i: int) -> int {
    double_div(
        whole_double(luma_distance(data, off, i, WIDTH as nat) as int),
        whole_double(WIDTH as int),
    )
}

/// The whole line-pairs from `off` on.
pub open spec fn pairs_from(data: Seq<u8>, off: int) -> int {
    (data.len() - off) / (PAIR as int)
}

/// The changes between the line-pairs from `off` on.
pub open spec fn line_changes(data: Seq<u8>, off: int) -> Seq<int> {
    Seq::new((pairs_from(data, off) - 1) as nat, |i: int| line_change(data, off, i))
}

/// The frame origin and height that the stream suggests: the offset of the
/// first line-pair alone where there are too few of them to tell the height.
pub open spec fn coarse_sync(data: Seq<u8>) -> (int, int) {
    let off = pair_offset(data);
    if pairs_from(data, off) < MIN_PAIRS {
        (off, DEFAULT_HEIGHT as int)
    } else {
        let c = line_changes(data, off);
        (off + frame_row(c) * PAIR, frame_height(c))
    }
}

/// A first best offset is the line-pair offset.
pub proof fn lemma_pair_offset(data: Seq<u8>, off: int)
    requires
        is_pair_offset(data, off),
    ensures
        pair_offset(data) == off,
{
    let q = pair_offset(data);
    assert(is_pair_offset(data, q));
    if q < off {
        assert(chroma_score(data, q) < chroma_score(data, off));
    } else if off < q {
        assert(chroma_score(data, off) < chroma_score(data, q));
    }
}

/// Finds the offset of the first line-pair.
fn find_pair_offset(data: &[u8]) -> (off: usize)
    ensures
        off == pair_offset(data@),
        is_pair_offset(data@, off as int),
        off <= data@.len(),
        off < data@.len() || data@.len() == 0,
{
    let len: usize = data.len();
    let mut best_score: usize = 0;
    let mut best_offset: usize = 0;
    let mut off: usize = 0;
    while off < PAIR
        invariant
            off <= PAIR,
            off % 2 == 0,
            len == data@.len(),
            best_offset % 2 == 0,
            best_offset < off || (best_offset == 0 && best_score == 0),
            best_offset < PAIR,
            best_offset < off ==> best_score == chroma_score(data@, best_offset as int),
            best_offset < len || (best_offset == 0 && len == 0),
            forall|q: int| 0 <= q < off && q % 2 == 0 ==> #[trigger] chroma_score(data@, q) <= best_score,
            forall|q: int| 0 <= q < best_offset && q % 2 == 0 ==> #[trigger] chroma_score(data@, q) < best_score,
        decreases PAIR - off,
    {
        let mut score: usize = 0;
        let mut frame_no: usize = 0;
        while frame_no < 4 && off + LINE + frame_no * ROUGH_FRAME + LINE <= len
            invariant
                frame_no <= 4,
                off < PAIR,
                len == data@.len(),
                score <= frame_no * 640,
                frame_no >= 1 ==> off + 2 * LINE <= len,
                score == (if frame_no >= 1 { sample_hits(data@, off as int, 0) } else { 0 })
                    + (if frame_no >= 2 { sample_hits(data@, off as int, 1) } else { 0 })
                    + (if frame_no >= 3 { sample_hits(data@, off as int, 2) } else { 0 })
                    + (if frame_no >= 4 { sample_hits(data@, off as int, 3) } else { 0 }),
            decreases 4 - frame_no,
        {
            let start: usize = off + LINE + frame_no * ROUGH_FRAME;
            score = score + count_chroma(data, start, WIDTH);
            frame_no = frame_no + 1;
        }
        assert(score == chroma_score(data@, off as int));
        if score > best_score {
            best_score = score;
            best_offset = off;
        }
        off = off + 2;
    }
    proof {
        lemma_pair_offset(data@, best_offset as int);
    }
    best_offset
}

/// Samples are at most 255 apart.
proof fn lemma_luma_distance_bound(data: Seq<u8>, off: int, i: int, n: nat)
    ensures
        luma_distance(data, off, i, n) <= 255 * n,
    decreases n,
{
    if n > 0 {
        lemma_luma_distance_bound(data, off, i, (n - 1) as nat);
    }
}

/// A line change is zero, or neither very small nor very large.
pub proof fn lemma_line_change_moderate(data: Seq<u8>, off: int, i: int)
    ensures
        line_change(data, off, i) == 0 || pow2(1064) <= line_change(data, off, i) <= pow2(1082),
        ({
            let sum = whole_double(luma_distance(data, off, i, WIDTH as nat) as int);
            let width = whole_double(WIDTH as int);
            &&& width > 0
            &&& -(pow2(2097) * width) <= sum * pow2(1074) <= pow2(2097) * width
        }),
{
    let n = luma_distance(data, off, i, WIDTH as nat);
    let u = pow2(1074);
    let sum = whole_double(n as int);
    let width = whole_double(WIDTH as int);
    lemma_luma_distance_bound(data, off, i, WIDTH as nat);
    lemma2_to64();
    lemma2_to64_rest();
    lemma_pow2_pos(1074);
    lemma_pow2_pos(1064);
    lemma_pow2_pos(2097);
    lemma_pow2_adds(8, 1074);
    lemma_pow2_adds(10, 1064);
    lemma_pow2_below(1082, 2097);
    assert(width > 0) by (nonlinear_arith)
        requires
            width == 640 * u,
            u > 0,
    ;
    let top = (sum * u) as nat;
    assert(sum * u >= 0 && sum * u <= width * (1 * pow2(1082))) by (nonlinear_arith)
        requires
            sum == n * u,
            width == 640 * u,
            0 <= n <= 255 * 640,
            pow2(1082) == 256 * u,
            u > 0,
    ;
    assert(-(pow2(2097) * width) <= sum * u <= pow2(2097) * width) by (nonlinear_arith)
        requires
            0 <= sum * u <= width * (1 * pow2(1082)),
            pow2(1082) <= pow2(2097),
            width > 0,
            pow2(2097) > 0,
    ;
    assert(1 * pow2(1082) == pow2(1082) && 1 * pow2(1064) == pow2(1064));
    lemma_rounded_upper(53, top, width as nat, 1, 1082);
    if n == 0 {
        assert(0 * u == 0);
        lemma_rounded_zero(53, width as nat);
    } else {
        assert(sum * u >= width * (1 * pow2(1064))) by (nonlinear_arith)
            requires
                sum == n * u,
                width == 640 * u,
                n >= 1,
                u == 1024 * pow2(1064),
                pow2(1064) > 0,
        ;
        lemma_rounded_lower(53, top, width as nat, 1, 1064);
    }
}

/// Adds up the distances between the luma samples of line-pair `i` and of the
/// next one.
fn sum_luma_distance(data: &[u8], off: usize, i: usize) -> (sum: u32)
    requires
        off + (i + 2) * PAIR <= data@.len(),
    ensures
        sum == luma_distance(data@, off as int, i as int, WIDTH as nat),
{
    let len: usize = data.len();
    let mut sum: u32 = 0;
    let mut x: usize = 0;
    assert((i + 2) * PAIR == i * PAIR + 5120) by (nonlinear_arith)
        requires
            PAIR == 2560,
    ;
    let here: usize = off + i * PAIR + LINE + 1;
    while x < WIDTH
        invariant
            x <= WIDTH,
            len == data@.len(),
            off + i * PAIR + 5120 <= len,
            here == off + i * PAIR + LINE + 1,
            sum == luma_distance(data@, off as int, i as int, x as nat),
            sum <= 255 * x,
        decreases WIDTH - x,
    {
        assert((i + 1) * PAIR == i * PAIR + PAIR) by (nonlinear_arith);
        let a: u8 = data[here + 2 * x];
        let b: u8 = data[here + PAIR + 2 * x];
        let d: u8 = if a < b { b - a } else { a - b };
        sum = sum + d as u32;
        x = x + 1;
    }
    sum
}

/// Measures the changes between the `n` line-pairs from `off` on.
fn measure_changes(data: &[u8], off: usize, n: usize) -> (changes: Vec<Double>)
    requires
        n >= 1,
        off + n * PAIR <= data@.len(),
        n == pairs_from(data@, off as int),
    ensures
        values(changes@) == line_changes(data@, off as int),
        moderate(values(changes@)),
{
    let len: usize = data.len();
    let mut changes: Vec<Double> = Vec::new();
    let mut i: usize = 0;
    let width = Double::from_int(WIDTH as u64);
    proof {
        lemma2_to64();
        lemma2_to64_rest();
    }
    while i < n - 1
        invariant
            i <= n - 1,
            len == data@.len(),
            off + n * PAIR <= len,
            pow2(53) == 0x20_0000_0000_0000,
            width@ == whole_double(WIDTH as int),
            changes@.len() == i,
            forall|j: int| 0 <= j < i ==> #[trigger] changes@[j]@ == line_change(data@, off as int, j),
        decreases n - 1 - i,
    {
        proof {
            lemma_line_change_moderate(data@, off as int, i as int);
            assert((i + 2) * PAIR <= n * PAIR) by (nonlinear_arith)
                requires
                    i + 2 <= n,
            ;
        }
        let sum: u32 = sum_luma_distance(data, off, i);
        let total = Double::from_int(sum as u64);
        changes.push(total.over(&width));
        i = i + 1;
    }
    proof {
        let c = values(changes@);
        assert(n <= 0x20_0000_0000_0000) by (nonlinear_arith)
            requires
                n * PAIR <= usize::MAX,
                PAIR == 2560,
                usize::MAX <= 0xffff_ffff_ffff_ffff,
        ;
        assert(c =~= line_changes(data@, off as int));
        assert forall|j: int| 0 <= j < c.len() implies c[j] == 0 || pow2(1064) <= #[trigger] c[j] <= pow2(1082) by {
            lemma_line_change_moderate(data@, off as int, j);
        }
    }
    changes
}

/// Finds the byte offset of a frame and the frame height in line-pairs.
///
/// The horizontal alignment comes from the chroma bytes of four sample lines,
/// the height and the vertical alignment from the strongest change between
/// consecutive lines.
pub fn find_sync(data: &[u8]) -> (r: (usize, usize))
    ensures
        (r.0 as int, r.1 as int) == coarse_sync(data@),
{
    let off: usize = find_pair_offset(data);
    let n_pairs: usize = (data.len() - off) / PAIR;
    if n_pairs < MIN_PAIRS {
        return (off, DEFAULT_HEIGHT);
    }
    proof {
        vstd::arithmetic::div_mod::lemma_fundamental_div_mod((data@.len() - off) as int, PAIR as int);
        vstd::arithmetic::mul::lemma_mul_is_commutative(n_pairs as int, PAIR as int);
    }
    let changes = measure_changes(data, off, n_pairs);
    let (h, row) = detect(&changes);
    assert(row * PAIR <= n_pairs * PAIR) by (nonlinear_arith)
        requires
            row <= n_pairs,
    ;
    (off + row * PAIR, h)
}

/// Line-pair `r` of frame `f`, for frames of `h` line-pairs from `offset` on.
pub open spec fn line_pair(data: Seq<u8>, offset: int, h: int, f: int, r: int) -> Seq<u8> {
    let at = offset + f * (PAIR * h) + r * PAIR;
    data.subrange(at, at + PAIR)
}

/// Whether row `r` shows a clean UYVY line in each of the first `n` frames of
/// `h` line-pairs from `offset` on.
pub open spec fn row_clean(data: Seq<u8>, offset: int, h: int, n: int, r: int) -> bool {
    forall|f: int| 0 <= f < n ==> signature(#[trigger] line_pair(data, offset, h, f, r))
}

/// Whether the active rows of a frame that starts at row `shift` are clean;
/// rows are periodic with the frame, so that the window may wrap.
pub open spec fn window_clean(data: Seq<u8>, offset: int, h: int, n: int, shift: int) -> bool {
    forall|k: int|
        0 <= k < HEIGHT ==> row_clean(data, offset, h, n, #[trigger] wrapped_row(shift, k, h))
}

/// The row `k` rows below `shift`, counted around.
pub open spec fn wrapped_row(shift: int, k: int, h: int) -> int {
    (shift + k) % h
}

/// How many whole frames of `h` line-pairs follow `offset`.
pub open spec fn frames_available(len: int, offset: int, h: int) -> int {
    if offset >= len {
        0
    } else {
        (len - offset) / (PAIR * h)
    }
}

/// How many frames the refinement looks at.
pub open spec fn frames_checked(len: int, offset: int, h: int) -> int {
    if frames_available(len, offset, h) < 3 {
        frames_available(len, offset, h)
    } else {
        3
    }
}

/// Whether `s` is the first shift whose window is clean.
pub open spec fn first_clean_shift(data: Seq<u8>, offset: int, h: int, n: int, s: int) -> bool {
    &&& 0 <= s < h
    &&& window_clean(data, offset, h, n, s)
    &&& forall|t: int| 0 <= t < s ==> !#[trigger] window_clean(data, offset, h, n, t)
}

/// The first shift whose window is clean, or no shift if there is none.
pub open spec fn clean_shift(data: Seq<u8>, offset: int, h: int, n: int) -> int {
    if exists|s: int| first_clean_shift(data, offset, h, n, s) {
        choose|s: int| first_clean_shift(data, offset, h, n, s)
    } else {
        0
    }
}

/// The refined frame origin.
pub open spec fn refined_start(data: Seq<u8>, offset: int, h: int) -> int {
    if frames_available(data.len() as int, offset, h) < 2 {
        offset
    } else {
        offset + clean_shift(data, offset, h, frames_checked(data.len() as int, offset, h)) * PAIR
    }
}

/// Tests one row in the first `n` frames.
fn is_row_clean(data: &[u8], offset: usize, h: usize, n: usize, r: usize) -> (clean: bool)
    requires
        r < h,
        offset + n * (PAIR * h) <= data@.len(),
    ensures
        clean == row_clean(data@, offset as int, h as int, n as int, r as int),
{
    let len: usize = data.len();
    let mut f: usize = 0;
    let fb: usize = if n > 0 {
        assert(PAIR * h <= data@.len()) by (nonlinear_arith)
            requires
                offset + n * (PAIR * h) <= data@.len(),
                n >= 1,
                offset >= 0,
                h >= 0,
        ;
        PAIR * h
    } else {
        0
    };
    while f < n
        invariant
            f <= n,
            r < h,
            n > 0 ==> fb == PAIR * h,
            offset + n * (PAIR * h) <= len == data@.len(),
            forall|g: int|
                0 <= g < f ==> signature(
                    #[trigger] line_pair(data@, offset as int, h as int, g, r as int),
                ),
        decreases n - f,
    {
        assert(f * fb + fb <= n * (PAIR * h)) by (nonlinear_arith)
            requires
                f + 1 <= n,
                fb == PAIR * h,
        ;
        assert(f * fb == f * (PAIR * h)) by (nonlinear_arith)
            requires
                fb == PAIR * h,
        ;
        assert(r * PAIR + PAIR <= fb) by (nonlinear_arith)
            requires
                r + 1 <= h,
                fb == PAIR * h,
        ;
        let s: usize = offset + f * fb + r * PAIR;
        let pair = vstd::slice::slice_subrange(data, s, s + PAIR);
        assert(pair@ == line_pair(data@, offset as int, h as int, f as int, r as int));
        if !uyvy_signature_ok(pair) {
            return false;
        }
        f = f + 1;
    }
    true
}

/// Moves the frame origin to the first row from which on all active rows are
/// clean UYVY, so that the telemetry line-pair stays behind them. The origin
/// stays where it is if the data holds fewer than two frames, or if there is
/// no such row.
pub fn refine_start(data: &[u8], offset: usize, h: usize) -> (start: usize)
    requires
        h > 0,
        PAIR * h <= usize::MAX,
    ensures
        start == refined_start(data@, offset as int, h as int),
{
    let fb: usize = PAIR * h;
    assert(fb > 0) by (nonlinear_arith)
        requires
            fb == 2560 * h,
            h > 0,
    ;
    let len: usize = data.len();
    let frames_avail: usize = if offset >= len { 0 } else { (len - offset) / fb };
    if frames_avail < 2 {
        return offset;
    }
    let n_check: usize = if frames_avail < 3 { frames_avail } else { 3 };
    let ghost n = n_check as int;
    proof {
        vstd::arithmetic::div_mod::lemma_fundamental_div_mod((data@.len() - offset) as int, fb as int);
        assert(offset + n_check * (PAIR * h) <= data@.len()) by (nonlinear_arith)
            requires
                data@.len() - offset >= fb * frames_avail,
                n_check <= frames_avail,
                fb == PAIR * h,
        ;
    }
    let mut clean: Vec<bool> = Vec::new();
    let mut r: usize = 0;
    while r < h
        invariant
            r <= h,
            n == n_check,
            offset + n_check * (PAIR * h) <= data@.len(),
            clean@.len() == r,
            forall|q: int| 0 <= q < r ==> clean@[q] == row_clean(data@, offset as int, h as int, n, q),
        decreases h - r,
    {
        let c = is_row_clean(data, offset, h, n_check, r);
        clean.push(c);
        r = r + 1;
    }
    let mut shift: usize = 0;
    while shift < h
        invariant
            h > 0,
            shift <= h,
            n == n_check >= 2,
            fb == PAIR * h <= usize::MAX,
            n == frames_checked(data@.len() as int, offset as int, h as int),
            frames_available(data@.len() as int, offset as int, h as int) >= 2,
            offset + n_check * (PAIR * h) <= len == data@.len(),
            clean@.len() == h,
            forall|q: int| 0 <= q < h ==> clean@[q] == row_clean(data@, offset as int, h as int, n, q),
            forall|t: int| 0 <= t < shift ==> !#[trigger] window_clean(data@, offset as int, h as int, n, t),
        decreases h - shift,
    {
        let mut k: usize = 0;
        let mut good = true;
        let mut at: usize = shift;
        proof {
            vstd::arithmetic::div_mod::lemma_small_mod(shift as nat, h as nat);
        }
        while k < HEIGHT && good
            invariant
                h > 0,
                shift < h,
                k <= HEIGHT,
                at == wrapped_row(shift as int, k as int, h as int),
                clean@.len() == h,
                forall|q: int| 0 <= q < h ==> clean@[q] == row_clean(data@, offset as int, h as int, n, q),
                good ==> forall|j: int|
                    0 <= j < k ==> row_clean(
                        data@,
                        offset as int,
                        h as int,
                        n,
                        #[trigger] wrapped_row(shift as int, j, h as int),
                    ),
                !good ==> !window_clean(data@, offset as int, h as int, n, shift as int),
            decreases HEIGHT - k + (if good { 1int } else { 0 }),
        {
            if clean[at] {
                proof {
                    lemma_step_mod((shift + k) as int, h as int);
                }
                at = if at + 1 == h { 0 } else { at + 1 };
                k = k + 1;
            } else {
                good = false;
            }
        }
        if good {
            assert(window_clean(data@, offset as int, h as int, n, shift as int));
            assert(first_clean_shift(data@, offset as int, h as int, n, shift as int));
            assert(shift * PAIR <= PAIR * h && PAIR * h <= n_check * (PAIR * h)) by (nonlinear_arith)
                requires
                    shift < h,
                    n_check >= 1,
            ;
            return offset + shift * PAIR;
        }
        shift = shift + 1;
    }
    assert(forall|s: int| !#[trigger] first_clean_shift(data@, offset as int, h as int, n, s));
    offset
}

/// Counting up modulo `h`.
proof fn lemma_step_mod(a: int, h: int)
    requires
        h > 0,
        a >= 0,
    ensures
        (a + 1) % h == (if a % h + 1 == h {
            0
        } else {
            a % h + 1
        }),
{
    vstd::arithmetic::div_mod::lemma_fundamental_div_mod(a, h);
    let q = a / h;
    let r = a % h;
    if r + 1 == h {
        assert(a + 1 == (q + 1) * h + 0) by (nonlinear_arith)
            requires
                a == h * q + r,
                r + 1 == h,
        ;
        vstd::arithmetic::div_mod::lemma_fundamental_div_mod_converse(a + 1, h, q + 1, 0);
    } else {
        assert(a + 1 == q * h + (r + 1)) by (nonlinear_arith)
            requires
                a == h * q + r,
        ;
        vstd::arithmetic::div_mod::lemma_fundamental_div_mod_converse(a + 1, h, q, r + 1);
    }
}

} // verus!
