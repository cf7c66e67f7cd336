//! Per-frame processing: statistics of the source plane, the display transform
//! as one table of 256 colors, and the passes that write pixels.

use crate::double::{double_div, double_mul, whole_double};
use crate::float::{
    fl_div, fl_mul, nearest_whole, single_exponent, single_fraction, single_magnitude,
    single_negative, single_value, whole, Double, Single,
};
use crate::palette::Lut;
use crate::pixels::{
    blank, dot, lemma_blank, lemma_over, lemma_same_ink, over, painted, put_pixel, Ink, Window,
};
use crate::rounding::{lemma_pow2_below, lemma_rounded_upper, rounded};
use vstd::arithmetic::div_mod::lemma_fundamental_div_mod;
use vstd::arithmetic::power2::{
    lemma2_to64, lemma2_to64_rest, lemma_pow2_adds, lemma_pow2_pos, pow2,
};
use vstd::prelude::*;

verus! {

/// What a single pass over a plane tells.
pub struct Stats {
    pub min: u8,
    pub max: u8,
    pub min_loc: (usize, usize),
    pub max_loc: (usize, usize),
    pub hist: [u32; 256],
}

/// How the levels of a plane are mapped for display.
pub struct LutParams {
    /// Stretch the levels between the smallest and the largest one over the
    /// whole scale.
    pub autoscale: bool,
    /// The bits of the binary32 factor that the levels are multiplied by.
    pub contrast: u32,
    /// Equalize the histogram of the mapped levels.
    pub histeq: bool,
}

/// How often the level `v` occurs in a plane.
pub open spec fn occurrences(plane: Seq<u8>, v: int) -> nat
    decreases plane.len(),
{
    if plane.len() == 0 {
        0
    } else {
        occurrences(plane.drop_last(), v) + (if plane.last() == v {
            1nat
        } else {
            0nat
        })
    }
}

/// Whether `i` is the first place of the smallest level.
pub open spec fn is_first_min(plane: Seq<u8>, i: int) -> bool {
    &&& 0 <= i < plane.len()
    &&& forall|j: int| 0 <= j < plane.len() ==> plane[i] <= #[trigger] plane[j]
    &&& forall|j: int| 0 <= j < i ==> plane[i] < #[trigger] plane[j]
}

/// Whether `i` is the first place of the largest level.
pub open spec fn is_first_max(plane: Seq<u8>, i: int) -> bool {
    &&& 0 <= i < plane.len()
    &&& forall|j: int| 0 <= j < plane.len() ==> plane[i] >= #[trigger] plane[j]
    &&& forall|j: int| 0 <= j < i ==> plane[i] > #[trigger] plane[j]
}

/// Where place `i` of a plane is: its column and its row.
pub open spec fn location(i: int, width: int) -> (int, int) {
    (i % width, i / width)
}

/// Whether the statistics are those of a plane. The smallest level of an empty
/// plane is the highest there is, and its largest level is zero.
pub open spec fn describes(stats: Stats, plane: Seq<u8>, width: int) -> bool {
    &&& forall|v: int| 0 <= v < 256 ==> #[trigger] stats.hist@[v] == occurrences(plane, v)
    &&& plane.len() == 0 ==> {
        &&& stats.min == 255
        &&& stats.max == 0
        &&& stats.min_loc == (0usize, 0usize)
        &&& stats.max_loc == (0usize, 0usize)
    }
    &&& plane.len() > 0 ==> {
        &&& exists|i: int|
            {
                &&& #[trigger] is_first_min(plane, i)
                &&& stats.min == plane[i]
                &&& (stats.min_loc.0 as int, stats.min_loc.1 as int) == location(i, width)
            }
        &&& exists|i: int|
            {
                &&& #[trigger] is_first_max(plane, i)
                &&& stats.max == plane[i]
                &&& (stats.max_loc.0 as int, stats.max_loc.1 as int) == location(i, width)
            }
    }
}

/// A level occurs no more often in a part of a plane.
proof fn lemma_occurrences_grow(plane: Seq<u8>, v: int, n: int)
    requires
        0 <= n <= plane.len(),
    ensures
        occurrences(plane.take(n), v) <= occurrences(plane, v),
    decreases plane.len(),
{
    if n == plane.len() {
        assert(plane.take(n) =~= plane);
    } else {
        lemma_occurrences_grow(plane.drop_last(), v, n);
        assert(plane.drop_last().take(n) =~= plane.take(n));
    }
}

/// A level occurs at most as often as there are pixels.
proof fn lemma_occurrences_bound(plane: Seq<u8>, v: int)
    ensures
        occurrences(plane, v) <= plane.len(),
    decreases plane.len(),
{
    if plane.len() > 0 {
        lemma_occurrences_bound(plane.drop_last(), v);
    }
}

/// Whether a histogram of the plane can be counted in 32 bits.
pub open spec fn countable(plane: Seq<u8>) -> bool {
    ||| plane.len() <= u32::MAX
    ||| forall|v: int| 0 <= v < 256 ==> #[trigger] occurrences(plane, v) <= u32::MAX
}

/// Takes the histogram of a plane and finds its first smallest and its first
/// largest level, row by row.
pub fn compute_stats(plane: &[u8], width: usize) -> (stats: Stats)
    requires
        width > 0,
        countable(plane@),
    ensures
        describes(stats, plane@, width as int),
{
    let mut hist: [u32; 256] = [0u32; 256];
    let mut min: u8 = 255;
    let mut max: u8 = 0;
    let mut min_i: usize = 0;
    let mut max_i: usize = 0;
    let mut i: usize = 0;
    let ghost p = plane@;
    let n: usize = plane.len();
    assert forall|v: int| 0 <= v < 256 implies #[trigger] occurrences(p, v) <= u32::MAX by {
        lemma_occurrences_bound(p, v);
    }
    while i < n
        invariant
            i <= n == p.len(),
            p == plane@,
            forall|v: int| 0 <= v < 256 ==> #[trigger] occurrences(p, v) <= u32::MAX,
            forall|v: int| 0 <= v < 256 ==> #[trigger] hist@[v] == occurrences(p.take(i as int), v),
            i == 0 ==> min == 255 && max == 0 && min_i == 0 && max_i == 0,
            i > 0 ==> min_i < i && max_i < i && min == p[min_i as int] && max == p[max_i as int],
            forall|j: int| 0 <= j < i ==> min <= #[trigger] p[j] <= max,
            forall|j: int| 0 <= j < min_i ==> min < #[trigger] p[j],
            forall|j: int| 0 <= j < max_i ==> max > #[trigger] p[j],
        decreases n - i,
    {
        let v: u8 = plane[i];
        proof {
            let t = p.take(i + 1);
            assert(t.drop_last() =~= p.take(i as int));
            assert(t.last() == v);
            lemma_occurrences_grow(p, v as int, i + 1);
            assert(hist@[v as int] == occurrences(p.take(i as int), v as int));
            assert(occurrences(p, v as int) <= u32::MAX);
            assert forall|w: int| 0 <= w < 256 && w != v implies occurrences(t, w) == occurrences(p.take(i as int), w) by {}
        }
        hist[v as usize] = hist[v as usize] + 1;
        if v < min {
            min = v;
            min_i = i;
        }
        if v > max {
            max = v;
            max_i = i;
        }
        i = i + 1;
    }
    proof {
        assert(p.take(i as int) =~= p);
        if n > 0 {
            assert(is_first_min(p, min_i as int));
            assert(is_first_max(p, max_i as int));
        }
    }
    Stats {
        min,
        max,
        min_loc: (min_i % width, min_i / width),
        max_loc: (max_i % width, max_i / width),
        hist,
    }
}

/// The integer `n` as a binary32 value.
pub open spec fn whole_single(n: int) -> int {
    n * pow2(149)
}

/// Level `i` on the stretched scale, as a binary32 value.
pub open spec fn stretched(i: int, min: int, max: int, autoscale: bool) -> int {
    if autoscale && max > min {
        fl_div(24, 149, whole_single((i - min) * 255), whole_single(max - min))
    } else {
        whole_single(i)
    }
}

/// A binary32 value clamped to the scale and cut to an integer.
pub open spec fn clamped(v: int) -> int {
    if v < 0 {
        0
    } else if v >= whole_single(255) {
        255
    } else {
        whole(149, v)
    }
}

/// A value multiplied by the contrast factor and clamped: no number counts as
/// zero.
pub open spec fn contrasted(v: int, bits: u32) -> int {
    if single_exponent(bits) < 0xff {
        clamped(fl_mul(24, 149, v, single_value(bits)))
    } else if single_fraction(bits) != 0 || v == 0 {
        0
    } else if (v < 0) == single_negative(bits) {
        255
    } else {
        0
    }
}

/// Level `i` after stretching and contrast.
pub open spec fn mapped_level(stats: Stats, params: LutParams, i: int) -> int {
    contrasted(stretched(i, stats.min as int, stats.max as int, params.autoscale), params.contrast)
}

/// All levels after stretching and contrast.
pub open spec fn mapped_levels(stats: Stats, params: LutParams) -> Seq<u8> {
    Seq::new(256, |i: int| mapped_level(stats, params, i) as u8)
}

/// How many pixels of the first `n` levels are mapped to level `m`.
pub open spec fn mapped_to(hist: Seq<u32>, map: Seq<u8>, m: int, n: nat) -> nat
    decreases n,
{
    if n == 0 {
        0
    } else {
        mapped_to(hist, map, m, (n - 1) as nat) + (if map[n - 1] == m {
            hist[n - 1] as nat
        } else {
            0nat
        })
    }
}

/// How many pixels of the first `n` levels are mapped to level `m` or below.
pub open spec fn mapped_up_to(hist: Seq<u32>, map: Seq<u8>, m: int, n: nat) -> nat
    decreases n,
{
    if n == 0 {
        0
    } else {
        mapped_up_to(hist, map, m, (n - 1) as nat) + (if map[n - 1] <= m {
            hist[n - 1] as nat
        } else {
            0nat
        })
    }
}

/// How many pixels are mapped to level `m` or below.
pub open spec fn cumulative(hist: Seq<u32>, map: Seq<u8>, m: int) -> nat {
    mapped_up_to(hist, map, m, 256)
}

/// How many pixels are mapped to the lowest level from `m` on that has any
/// below or at it.
pub open spec fn lowest_from(hist: Seq<u32>, map: Seq<u8>, m: int) -> nat
    decreases 256 - m,
{
    if m >= 256 {
        0
    } else if cumulative(hist, map, m) > 0 {
        cumulative(hist, map, m)
    } else {
        lowest_from(hist, map, m + 1)
    }
}

/// How many pixels share the lowest mapped level.
pub open spec fn lowest_count(hist: Seq<u32>, map: Seq<u8>) -> nat {
    lowest_from(hist, map, 0)
}

/// How many pixels lie above the lowest mapped level.
pub open spec fn spread(hist: Seq<u32>, map: Seq<u8>) -> int {
    cumulative(hist, map, 255) - lowest_count(hist, map)
}

/// The equalized level of a mapped level with `c` pixels at or below it, where
/// `low` pixels share the lowest level and `n` lie above it: `c`'s share of
/// those, computed with binary64 values and rounded to a level.
pub open spec fn equalized(c: nat, low: nat, n: int) -> int {
    let above = if c > low {
        c - low
    } else {
        0
    };
    let share = double_div(whole_double(above), whole_double(n));
    nearest_whole(1074, double_mul(share, whole_double(255)))
}

/// The level that is looked up in the palette for source level `i`.
pub open spec fn display_level(stats: Stats, params: LutParams, i: int) -> int {
    let map = mapped_levels(stats, params);
    let hist = stats.hist@;
    if params.histeq && spread(hist, map) > 0 {
        equalized(cumulative(hist, map, map[i] as int), lowest_count(hist, map), spread(hist, map))
    } else {
        map[i] as int
    }
}

/// An opaque color from its red, green and blue parts.
pub open spec fn argb(rgb: Seq<u8>) -> u32 {
    (0xFF00_0000 + rgb[0] * 0x1_0000 + rgb[1] * 0x100 + rgb[2]) as u32
}

/// Whether a table holds the color of the displayed level for each source level.
pub open spec fn is_composed(lut: Seq<u32>, stats: Stats, params: LutParams, palette: Lut) -> bool {
    forall|i: int|
        0 <= i < 256 ==> {
            &&& 0 <= #[trigger] display_level(stats, params, i) <= 255
            &&& lut[i] == argb(palette@[display_level(stats, params, i)]@)
        }
}

/// Packs an opaque color.
pub fn pack_argb(rgb: [u8; 3]) -> (c: u32)
    ensures
        c == argb(rgb@),
        c == 0xFF00_0000 + rgb[0] * 0x1_0000 + rgb[1] * 0x100 + rgb[2],
{
    0xFF00_0000 + rgb[0] as u32 * 0x1_0000 + rgb[1] as u32 * 0x100 + rgb[2] as u32
}

/// The stretched level is of moderate size.
proof fn lemma_stretched_bound(i: int, min: int, max: int, autoscale: bool)
    requires
        0 <= i <= 255,
        0 <= min <= 255,
        0 <= max <= 255,
    ensures
        -(pow2(165) as int) <= stretched(i, min, max, autoscale) <= pow2(165),
        max > min ==> {
            let n = whole_single((i - min) * 255);
            let d = whole_single(max - min);
            &&& d > 0
            &&& -(pow2(2097) * d) <= n * pow2(149) <= pow2(2097) * d
        },
{
    let u = pow2(149);
    lemma2_to64();
    lemma_pow2_pos(149);
    lemma_pow2_pos(24);
    lemma_pow2_adds(16, 149);
    lemma_pow2_below(165, 2097);
    if max > min {
        let k = (i - min) * 255;
        let n = whole_single(k);
        let d = whole_single(max - min);
        assert(d >= u) by (nonlinear_arith)
            requires
                d == (max - min) * u,
                max - min >= 1,
        ;
        assert(-(d * pow2(165)) <= n * u <= d * pow2(165)) by (nonlinear_arith)
            requires
                n == k * u,
                -65536 <= k <= 65536,
                pow2(165) == 65536 * u,
                d >= u,
                u > 0,
        ;
        assert(-(pow2(2097) * d) <= n * u <= pow2(2097) * d) by (nonlinear_arith)
            requires
                -(d * pow2(165)) <= n * u <= d * pow2(165),
                pow2(165) <= pow2(2097),
                d > 0,
        ;
        assert(1 * pow2(165) == pow2(165));
        let m = if n * u < 0 {
            (-(n * u)) as nat
        } else {
            (n * u) as nat
        };
        lemma_rounded_upper(24, m, d as nat, 1, 165);
    }
    assert(0 <= whole_single(i) <= pow2(165)) by (nonlinear_arith)
        requires
            whole_single(i) == i * u,
            0 <= i <= 255,
            pow2(165) == 65536 * u,
    ;
}

/// Stretches level `i`.
fn stretch(i: u8, min: u8, max: u8, autoscale: bool) -> (v: Single)
    ensures
        v@ == stretched(i as int, min as int, max as int, autoscale),
{
    proof {
        lemma_stretched_bound(i as int, min as int, max as int, autoscale);
        lemma2_to64();
    }
    if autoscale && max > min {
        let ghost k = (i - min) * 255;
        let n = if i >= min {
            Single::from_int((i - min) as u64 * 255)
        } else {
            let m = Single::from_int((min - i) as u64 * 255);
            assert(-(((min - i) * 255) * pow2(149)) == k * pow2(149)) by (nonlinear_arith)
                requires
                    k == (i - min) * 255,
            ;
            m.negated()
        };
        let d = Single::from_int((max - min) as u64);
        n.over(&d)
    } else {
        Single::from_int(i as u64)
    }
}

/// Clamps a value to the scale.
fn clamp(v: &Single) -> (r: u8)
    ensures
        r == clamped(v@),
{
    proof {
        lemma2_to64();
        lemma2_to64_rest();
        lemma_pow2_pos(149);
        assert(0 * pow2(149) == 0);
    }
    let zero = Single::from_int(0);
    let top = Single::from_int(255);
    if v.lt(&zero) {
        0
    } else if !v.lt(&top) {
        255
    } else {
        proof {
            let u = pow2(149);
            assert(255 * u <= pow2(63) * u) by (nonlinear_arith)
                requires
                    pow2(63) >= 255,
            ;
            assert(v@ / (u as int) < 255) by (nonlinear_arith)
                requires
                    0 <= v@ < 255 * u,
                    u > 0,
            ;
        }
        v.floor() as u8
    }
}

/// A binary32 magnitude is below the overflow threshold.
pub proof fn lemma_single_magnitude_bound(bits: u32)
    requires
        single_exponent(bits) < 0xff,
    ensures
        single_magnitude(bits) < pow2(277),
{
    lemma2_to64();
    let e = single_exponent(bits);
    let f = single_fraction(bits);
    if e == 0 {
        lemma_pow2_below(24, 277);
    } else {
        let k = (e - 1) as nat;
        lemma_pow2_adds(24, k);
        lemma_pow2_below(24 + k, 277);
        lemma_pow2_pos(k);
        assert((0x80_0000 + f) * pow2(k) < pow2(24) * pow2(k)) by (nonlinear_arith)
            requires
                0x80_0000 + f < pow2(24),
                pow2(k) > 0,
        ;
    }
}

/// Multiplies by the contrast factor and clamps.
fn apply_contrast(v: &Single, contrast: u32) -> (r: u8)
    requires
        -(pow2(165) as int) <= v@ <= pow2(165),
    ensures
        r == contrasted(v@, contrast),
{
    match Single::from_bits(contrast) {
        Some(factor) => {
            proof {
                lemma_single_magnitude_bound(contrast);
                lemma_pow2_adds(165, 277);
                lemma_pow2_adds(2097, 149);
                lemma_pow2_below(442, 2246);
                lemma_pow2_pos(165);
                lemma_pow2_pos(277);
                assert(-(pow2(165) * pow2(277)) <= v@ * factor@ <= pow2(165) * pow2(277)) by (nonlinear_arith)
                    requires
                        -(pow2(165) as int) <= v@ <= pow2(165),
                        -(pow2(277) as int) <= factor@ <= pow2(277),
                ;
            }
            let w = v.times(&factor);
            clamp(&w)
        },
        None => {
            let zero = Single::from_int(0);
            assert(0 * pow2(149) == 0);
            let fraction: u32 = contrast % 0x80_0000;
            let below = v.lt(&zero);
            let above = zero.lt(v);
            if fraction != 0 || (!below && !above) {
                0
            } else if below == (contrast >= 0x8000_0000) {
                255
            } else {
                0
            }
        },
    }
}

/// The levels up to `m` are those below `m` and `m` itself.
proof fn lemma_mapped_step(hist: Seq<u32>, map: Seq<u8>, m: int, n: nat)
    ensures
        mapped_up_to(hist, map, m, n) == mapped_up_to(hist, map, m - 1, n) + mapped_to(hist, map, m, n),
    decreases n,
{
    if n > 0 {
        lemma_mapped_step(hist, map, m, (n - 1) as nat);
    }
}

/// Nothing is mapped below the scale.
proof fn lemma_mapped_none(hist: Seq<u32>, map: Seq<u8>, n: nat)
    ensures
        mapped_up_to(hist, map, -1, n) == 0,
    decreases n,
{
    if n > 0 {
        lemma_mapped_none(hist, map, (n - 1) as nat);
    }
}

/// The counts grow with the level and stay within what 32 bits per level give.
pub proof fn lemma_mapped_bounds(hist: Seq<u32>, map: Seq<u8>, m: int, k: int, n: nat)
    requires
        m <= k,
    ensures
        mapped_to(hist, map, m, n) <= mapped_up_to(hist, map, m, n) <= mapped_up_to(hist, map, k, n) <= n * 0xffff_ffff,
    decreases n,
{
    if n > 0 {
        lemma_mapped_bounds(hist, map, m, k, (n - 1) as nat);
    }
}

/// The lowest count is that of some level.
pub proof fn lemma_lowest_bound(hist: Seq<u32>, map: Seq<u8>, m: int)
    requires
        m >= 0,
    ensures
        lowest_from(hist, map, m) <= cumulative(hist, map, 255),
    decreases 256 - m,
{
    if m < 256 {
        if cumulative(hist, map, m) > 0 {
            lemma_mapped_bounds(hist, map, m, 255, 256);
        } else {
            lemma_lowest_bound(hist, map, m + 1);
        }
    }
}

/// An equalized level is a level.
proof fn lemma_equalized_bound(c: nat, low: nat, n: int)
    requires
        0 < n <= pow2(41),
        c <= low + n,
    ensures
        0 <= equalized(c, low, n) <= 255,
        ({
            let above = if c > low {
                c - low
            } else {
                0
            };
            let x = whole_double(above);
            let y = whole_double(n);
            let share = double_div(x, y);
            let level = double_mul(share, whole_double(255));
            &&& y > 0
            &&& -(pow2(2097) * y) <= x * pow2(1074) <= pow2(2097) * y
            &&& -(pow2(2097) * pow2(1074)) <= share * whole_double(255) <= pow2(2097) * pow2(1074)
            &&& 0 <= level <= whole_double(255)
        }),
{
    let above = if c > low {
        c - low
    } else {
        0
    };
    let u = pow2(1074);
    let x = whole_double(above);
    let y = whole_double(n);
    let top = whole_double(255);
    lemma2_to64();
    lemma2_to64_rest();
    lemma_pow2_pos(1074);
    lemma_pow2_below(1082, 2097);
    lemma_pow2_adds(8, 1074);
    assert(y > 0 && 0 <= x * u <= y * u) by (nonlinear_arith)
        requires
            x == above * u,
            y == n * u,
            0 <= above <= n,
            n > 0,
            u > 0,
    ;
    assert(-(pow2(2097) * y) <= x * u <= pow2(2097) * y) by (nonlinear_arith)
        requires
            0 <= x * u <= y * u,
            u <= pow2(2097),
            y > 0,
    ;
    assert(1 * pow2(1074) == u);
    lemma_rounded_upper(53, (x * u) as nat, y as nat, 1, 1074);
    let share = double_div(x, y);
    assert(0 <= share <= u);
    assert(0 <= share * top <= u * top) by (nonlinear_arith)
        requires
            0 <= share <= u,
            top == 255 * u,
            u > 0,
    ;
    assert(u * top <= pow2(2097) * u) by (nonlinear_arith)
        requires
            top == 255 * u,
            255 * u <= pow2(2097),
            u > 0,
    ;
    assert(-(pow2(2097) * u) <= 0) by (nonlinear_arith)
        requires
            u > 0,
    ;
    lemma_rounded_upper(53, (share * top) as nat, u, 255, 1074);
    let level = double_mul(share, top);
    assert(0 <= (2 * level + u) / (2 * u as int) <= 255) by (nonlinear_arith)
        requires
            0 <= level <= 255 * u,
            u > 0,
    ;
}

/// The equalized level of a mapped level.
fn equalize(c: u64, low: u64, n: u64) -> (r: u8)
    requires
        0 < n <= pow2(41),
        c <= low + n,
        c <= pow2(41),
    ensures
        r == equalized(c as nat, low as nat, n as int),
{
    proof {
        lemma_equalized_bound(c as nat, low as nat, n as int);
        lemma2_to64();
        lemma2_to64_rest();
        lemma_pow2_pos(1074);
        assert(255 * pow2(1074) < pow2(62) * pow2(1074)) by (nonlinear_arith)
            requires
                pow2(62) > 255,
                pow2(1074) > 0,
        ;
    }
    let above: u64 = if c > low { c - low } else { 0 };
    let x = Double::from_int(above);
    let y = Double::from_int(n);
    let share = x.over(&y);
    let top = Double::from_int(255);
    let level = share.times(&top);
    level.round() as u8
}

/// Maps all levels by stretching and contrast.
fn map_levels(stats: &Stats, params: &LutParams) -> (map: [u8; 256])
    ensures
        map@ == mapped_levels(*stats, *params),
        forall|i: int| 0 <= i < 256 ==> 0 <= #[trigger] mapped_level(*stats, *params, i) <= 255,
{
    let mut map: [u8; 256] = [0u8; 256];
    let mut i: usize = 0;
    while i < 256
        invariant
            i <= 256,
            forall|j: int| 0 <= j < i ==> #[trigger] map@[j] == mapped_level(*stats, *params, j),
            forall|j: int| 0 <= j < i ==> 0 <= #[trigger] mapped_level(*stats, *params, j) <= 255,
        decreases 256 - i,
    {
        proof {
            lemma_stretched_bound(i as int, stats.min as int, stats.max as int, params.autoscale);
        }
        let v = stretch(i as u8, stats.min, stats.max, params.autoscale);
        map[i] = apply_contrast(&v, params.contrast);
        i = i + 1;
    }
    assert(map@ =~= mapped_levels(*stats, *params));
    map
}

/// Counts the pixels at or below each mapped level.
fn accumulate(hist: &[u32; 256], map: &[u8; 256]) -> (cdf: [u64; 256])
    ensures
        forall|m: int| 0 <= m < 256 ==> #[trigger] cdf@[m] == cumulative(hist@, map@, m),
{
    let mut bins: [u64; 256] = [0u64; 256];
    let mut i: usize = 0;
    while i < 256
        invariant
            i <= 256,
            forall|m: int| 0 <= m < 256 ==> #[trigger] bins@[m] == mapped_to(hist@, map@, m, i as nat),
        decreases 256 - i,
    {
        let at: usize = map[i] as usize;
        proof {
            lemma_mapped_bounds(hist@, map@, at as int, at as int, i as nat);
            assert(bins@[at as int] == mapped_to(hist@, map@, at as int, i as nat));
        }
        bins[at] = bins[at] + hist[i] as u64;
        i = i + 1;
    }
    let mut cdf: [u64; 256] = [0u64; 256];
    let mut acc: u64 = 0;
    let mut m: usize = 0;
    proof {
        lemma_mapped_none(hist@, map@, 256);
    }
    while m < 256
        invariant
            m <= 256,
            acc == cumulative(hist@, map@, m - 1),
            forall|k: int| 0 <= k < 256 ==> #[trigger] bins@[k] == mapped_to(hist@, map@, k, 256),
            forall|k: int| 0 <= k < m ==> #[trigger] cdf@[k] == cumulative(hist@, map@, k),
        decreases 256 - m,
    {
        proof {
            lemma_mapped_step(hist@, map@, m as int, 256);
            lemma_mapped_bounds(hist@, map@, m as int, m as int, 256);
            assert(bins@[m as int] == mapped_to(hist@, map@, m as int, 256));
        }
        acc = acc + bins[m];
        cdf[m] = acc;
        m = m + 1;
    }
    cdf
}

/// Composes the display transform into one table of ARGB8888 colors.
pub fn compose_lut(stats: &Stats, params: &LutParams, palette: &Lut) -> (lut: [u32; 256])
    ensures
        is_composed(lut@, *stats, *params, *palette),
{
    let mut map = map_levels(stats, params);
    let ghost levels = map@;
    let ghost hist = stats.hist@;
    if params.histeq {
        let cdf = accumulate(&stats.hist, &map);
        let mut first: usize = 0;
        while first < 256 && cdf[first] == 0
            invariant
                first <= 256,
                forall|m: int| 0 <= m < 256 ==> #[trigger] cdf@[m] == cumulative(hist, levels, m),
                lowest_count(hist, levels) == lowest_from(hist, levels, first as int),
            decreases 256 - first,
        {
            assert(cdf@[first as int] == cumulative(hist, levels, first as int));
            first = first + 1;
        }
        let low: u64 = if first < 256 { cdf[first] } else { 0 };
        assert(low == lowest_count(hist, levels)) by {
            if first < 256 {
                assert(cdf@[first as int] == cumulative(hist, levels, first as int));
            }
        }
        proof {
            lemma_lowest_bound(hist, levels, 0);
            assert(cdf@[255] == cumulative(hist, levels, 255));
        }
        let n: u64 = cdf[255] - low;
        if n > 0 {
            let mut i: usize = 0;
            while i < 256
                invariant
                    i <= 256,
                    0 < n == spread(hist, levels),
                    low == lowest_count(hist, levels),
                    forall|m: int| 0 <= m < 256 ==> #[trigger] cdf@[m] == cumulative(hist, levels, m),
                    levels.len() == 256,
                    forall|j: int| i <= j < 256 ==> map@[j] == levels[j],
                    forall|j: int|
                        0 <= j < i ==> #[trigger] map@[j] == equalized(
                            cumulative(hist, levels, levels[j] as int),
                            lowest_count(hist, levels),
                            spread(hist, levels),
                        ),
                decreases 256 - i,
            {
                let at: usize = map[i] as usize;
                proof {
                    assert(map@[i as int] == levels[i as int]);
                    assert(cdf@[at as int] == cumulative(hist, levels, at as int));
                    lemma_mapped_bounds(hist, levels, at as int, 255, 256);
                    lemma2_to64_rest();
                }
                map[i] = equalize(cdf[at], low, n);
                i = i + 1;
            }
        }
    }
    assert(forall|j: int| 0 <= j < 256 ==> #[trigger] map@[j] == display_level(*stats, *params, j));
    let mut lut: [u32; 256] = [0u32; 256];
    let mut i: usize = 0;
    while i < 256
        invariant
            i <= 256,
            forall|j: int| 0 <= j < 256 ==> #[trigger] map@[j] == display_level(*stats, *params, j),
            forall|j: int| 0 <= j < i ==> #[trigger] lut@[j] == argb(palette@[map@[j] as int]@),
        decreases 256 - i,
    {
        lut[i] = pack_argb(palette[map[i] as usize]);
        i = i + 1;
    }
    assert forall|j: int| 0 <= j < 256 implies {
        &&& 0 <= #[trigger] display_level(*stats, *params, j) <= 255
        &&& lut@[j] == argb(palette@[display_level(*stats, *params, j)]@)
    } by {
        assert(map@[j] == display_level(*stats, *params, j));
        assert(lut@[j] == argb(palette@[map@[j] as int]@));
    }
    lut
}

/// A plane of `width` columns, each pixel with the color of its level.
pub open spec fn plane_ink(plane: Seq<u8>, lut: Seq<u32>, width: int) -> Ink {
    |x: int, y: int| Some(lut[plane[y * width + x] as int])
}

/// The part of an ink in the rows above `row`, and in `row` itself left of
/// column `col`.
spec fn ink_before(ink: Ink, col: int, row: int) -> Ink {
    |x: int, y: int|
        if y < row || (y == row && x < col) {
            ink(x, y)
        } else {
            None::<u32>
        }
}

/// Draws a plane through a table of colors. A last row that is not complete is
/// left out.
pub fn blit(plane: &[u8], lut: &[u32; 256], px: &mut [u8], pitch: usize, width: usize)
    requires
        width > 0,
        ({
            let win = (Window { pitch: pitch as int, w: width as int, h: plane@.len() as int / width as int });
            win.fits(old(px)@.len() as int)
        }),
    ensures
        painted(
            (Window { pitch: pitch as int, w: width as int, h: plane@.len() as int / width as int }),
            old(px)@,
            final(px)@,
            plane_ink(plane@, lut@, width as int),
        ),
{
    let rows: usize = plane.len() / width;
    let ghost win = Window { pitch: pitch as int, w: width as int, h: rows as int };
    let ghost before = px@;
    let ghost ink = plane_ink(plane@, lut@, width as int);
    proof {
        lemma_blank(win, before);
        lemma_same_ink(win, before, before, blank(), ink_before(ink, 0, 0));
        lemma_fundamental_div_mod(plane@.len() as int, width as int);
    }
    let mut y: usize = 0;
    while y < rows
        invariant
            y <= rows,
            width > 0,
            win == (Window { pitch: pitch as int, w: width as int, h: rows as int }),
            width * rows <= plane@.len() <= usize::MAX,
            win.fits(before.len() as int),
            px@.len() == before.len(),
            ink == plane_ink(plane@, lut@, width as int),
            painted(win, before, px@, ink_before(ink, 0, y as int)),
        decreases rows - y,
    {
        let mut x: usize = 0;
        while x < width
            invariant
                x <= width,
                y < rows,
                win == (Window { pitch: pitch as int, w: width as int, h: rows as int }),
                width * rows <= plane@.len() <= usize::MAX,
                win.fits(before.len() as int),
                px@.len() == before.len(),
                ink == plane_ink(plane@, lut@, width as int),
                painted(win, before, px@, ink_before(ink, x as int, y as int)),
            decreases width - x,
        {
            assert(0 <= y * width && y * width + width <= width * rows) by (nonlinear_arith)
                requires
                    y + 1 <= rows,
                    width > 0,
            ;
            let color: u32 = lut[plane[y * width + x] as usize];
            let ghost mid = px@;
            put_pixel(px, pitch, x, y, color, Ghost(win));
            proof {
                lemma_over(win, before, mid, px@, ink_before(ink, x as int, y as int), dot(x as int, y as int, color));
                lemma_same_ink(
                    win,
                    before,
                    px@,
                    over(ink_before(ink, x as int, y as int), dot(x as int, y as int, color)),
                    ink_before(ink, x + 1, y as int),
                );
            }
            x = x + 1;
        }
        proof {
            lemma_same_ink(win, before, px@, ink_before(ink, x as int, y as int), ink_before(ink, 0, y + 1));
        }
        y = y + 1;
    }
    proof {
        lemma_same_ink(win, before, px@, ink_before(ink, 0, y as int), ink);
    }
}

/// The level of row `y` of a color bar of `height` rows: the highest at the
/// top, zero at the bottom.
pub open spec fn bar_level(y: int, height: int) -> int {
    255 - (y * 255) / (height - 1)
}

/// A color bar of `height` rows from column `x_off` on.
pub open spec fn bar_ink(palette: Lut, x_off: int, height: int) -> Ink {
    |x: int, y: int|
        if x >= x_off {
            Some(argb(palette@[bar_level(y, height)]@))
        } else {
            None::<u32>
        }
}

/// The levels of a color bar are levels.
proof fn lemma_bar_level(y: int, height: int)
    requires
        0 <= y < height,
        height > 1,
    ensures
        0 <= bar_level(y, height) <= 255,
        0 <= (y * 255) / (height - 1) <= 255,
{
    assert(0 <= (y * 255) / (height - 1) <= 255) by (nonlinear_arith)
        requires
            0 <= y <= height - 1,
            height - 1 > 0,
    ;
}

/// Fills a texture with a vertical color bar.
pub fn fill_color_bar(palette: &Lut, px: &mut [u8], pitch: usize, width: usize, height: usize)
    requires
        height != 1,
        (height - 1) * 255 <= usize::MAX,
        (Window { pitch: pitch as int, w: width as int, h: height as int }).fits(old(px)@.len() as int),
    ensures
        painted(
            (Window { pitch: pitch as int, w: width as int, h: height as int }),
            old(px)@,
            final(px)@,
            bar_ink(*palette, 0, height as int),
        ),
{
    fill_color_bar_at(palette, px, pitch, 0, width, height);
}

/// Draws a vertical color bar at a column of a wider buffer: the palette alone,
/// without contrast and equalization.
pub fn fill_color_bar_at(
    palette: &Lut,
    px: &mut [u8],
    pitch: usize,
    x_off: usize,
    width: usize,
    height: usize,
)
    requires
        height != 1,
        (height - 1) * 255 <= usize::MAX,
        (Window { pitch: pitch as int, w: x_off + width, h: height as int }).fits(old(px)@.len() as int),
    ensures
        painted(
            (Window { pitch: pitch as int, w: x_off + width, h: height as int }),
            old(px)@,
            final(px)@,
            bar_ink(*palette, x_off as int, height as int),
        ),
{
    let ghost win = Window { pitch: pitch as int, w: x_off + width, h: height as int };
    let ghost before = px@;
    let ghost ink = bar_ink(*palette, x_off as int, height as int);
    proof {
        lemma_blank(win, before);
        lemma_same_ink(win, before, before, blank(), ink_before(ink, 0, 0));
    }
    let mut y: usize = 0;
    while y < height
        invariant
            y <= height,
            height != 1,
            (height - 1) * 255 <= usize::MAX,
            win == (Window { pitch: pitch as int, w: x_off + width, h: height as int }),
            win.fits(before.len() as int),
            px@.len() == before.len(),
            ink == bar_ink(*palette, x_off as int, height as int),
            painted(win, before, px@, ink_before(ink, 0, y as int)),
        decreases height - y,
    {
        proof {
            lemma_bar_level(y as int, height as int);
        }
        let v: usize = 255 - (y * 255 / (height - 1));
        let color: u32 = pack_argb(palette[v]);
        let mut x: usize = 0;
        proof {
            lemma_same_ink(win, before, px@, ink_before(ink, 0, y as int), ink_before(ink, x_off as int, y as int));
        }
        while x < width
            invariant
                x <= width,
                y < height,
                x_off + width <= usize::MAX,
                win == (Window { pitch: pitch as int, w: x_off + width, h: height as int }),
                win.fits(before.len() as int),
                px@.len() == before.len(),
                ink == bar_ink(*palette, x_off as int, height as int),
                color == argb(palette@[bar_level(y as int, height as int)]@),
                painted(win, before, px@, ink_before(ink, x_off + x, y as int)),
            decreases width - x,
        {
            let ghost mid = px@;
            put_pixel(px, pitch, x_off + x, y, color, Ghost(win));
            proof {
                lemma_over(win, before, mid, px@, ink_before(ink, x_off + x, y as int), dot(x_off + x, y as int, color));
                lemma_same_ink(
                    win,
                    before,
                    px@,
                    over(ink_before(ink, x_off + x, y as int), dot(x_off + x, y as int, color)),
                    ink_before(ink, x_off + x + 1, y as int),
                );
            }
            x = x + 1;
        }
        proof {
            lemma_same_ink(win, before, px@, ink_before(ink, x_off + x, y as int), ink_before(ink, 0, y + 1));
        }
        y = y + 1;
    }
    proof {
        lemma_same_ink(win, before, px@, ink_before(ink, 0, y as int), ink);
    }
}

} // verus!
