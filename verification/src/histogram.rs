//! What the statistics of a plane say, and the pixel counts that equalization goes by.

use crate::float::{single_exponent, single_value};
use crate::levels::{lemma_contrast_one, lemma_equalized_formula};
use crate::palette::Lut;
use crate::render::{
    cumulative, describes, display_level, is_composed, is_first_max, is_first_min, location,
    lowest_count, lowest_from, mapped_level, mapped_levels, mapped_to, mapped_up_to, occurrences,
    spread, whole_single, LutParams, Stats,
};
use vstd::arithmetic::div_mod::lemma_fundamental_div_mod;
use vstd::prelude::*;

verus! {

/// How often a level occurs is the number of pixels that have it.
pub proof fn lemma_occurrences_count(plane: Seq<u8>, v: u8)
    ensures
        occurrences(plane, v as int) == plane.filter(|p: u8| p == v).len(),
    decreases plane.len(),
{
    reveal(Seq::filter);
    if plane.len() > 0 {
        lemma_occurrences_count(plane.drop_last(), v);
    }
}

/// The histogram of a plane counts the pixels of each level; no pixel is below the smallest level
/// or above the largest, and each of the two is where its location says, at no earlier place.
pub proof fn lemma_stats_of_plane(stats: Stats, plane: Seq<u8>, width: int, v: u8, j: int)
    requires
        describes(stats, plane, width),
        width > 0,
        0 <= j < plane.len(),
    ensures
        stats.hist@[v as int] == plane.filter(|p: u8| p == v).len(),
        stats.min <= plane[j] <= stats.max,
        ({
            let at = stats.min_loc.1 * width + stats.min_loc.0;
            &&& stats.min_loc.0 < width
            &&& 0 <= at < plane.len()
            &&& plane[at] == stats.min
            &&& j < at ==> plane[j] > stats.min
        }),
        ({
            let at = stats.max_loc.1 * width + stats.max_loc.0;
            &&& stats.max_loc.0 < width
            &&& 0 <= at < plane.len()
            &&& plane[at] == stats.max
            &&& j < at ==> plane[j] < stats.max
        }),
{
    lemma_occurrences_count(plane, v);
    assert(stats.hist@[v as int] == occurrences(plane, v as int));
    let a = choose|i: int|
        {
            &&& #[trigger] is_first_min(plane, i)
            &&& stats.min == plane[i]
            &&& (stats.min_loc.0 as int, stats.min_loc.1 as int) == location(i, width)
        };
    let b = choose|i: int|
        {
            &&& #[trigger] is_first_max(plane, i)
            &&& stats.max == plane[i]
            &&& (stats.max_loc.0 as int, stats.max_loc.1 as int) == location(i, width)
        };
    lemma_fundamental_div_mod(a, width);
    lemma_fundamental_div_mod(b, width);
    assert(width * (a / width) == (a / width) * width) by (nonlinear_arith);
    assert(width * (b / width) == (b / width) * width) by (nonlinear_arith);
}

/// Without pixels all counts are zero.
pub proof fn lemma_counts_empty(hist: Seq<u32>, map: Seq<u8>, m: int, n: nat)
    requires
        forall|i: int| 0 <= i < n ==> hist[i] == 0,
    ensures
        mapped_up_to(hist, map, m, n) == 0,
        mapped_to(hist, map, m, n) == 0,
        n == 256 ==> cumulative(hist, map, m) == 0,
    decreases n,
{
    if n > 0 {
        lemma_counts_empty(hist, map, m, (n - 1) as nat);
    }
}

/// More pixels of one source level leave the counts over other source levels alone.
proof fn lemma_counts_step(hist: Seq<u32>, map: Seq<u8>, i: int, by: u32, m: int, n: nat)
    requires
        0 <= i < hist.len(),
        n <= hist.len(),
        hist[i] + by <= u32::MAX,
    ensures
        mapped_up_to(hist.update(i, (hist[i] + by) as u32), map, m, n) == mapped_up_to(hist, map, m, n) + (if i < n
            && map[i] <= m {
            by as int
        } else {
            0
        }),
        mapped_to(hist.update(i, (hist[i] + by) as u32), map, m, n) == mapped_to(hist, map, m, n) + (if i < n
            && map[i] == m {
            by as int
        } else {
            0
        }),
    decreases n,
{
    if n > 0 {
        lemma_counts_step(hist, map, i, by, m, (n - 1) as nat);
    }
}

/// More pixels of a source level add to the counts of the level it is mapped to and of every level
/// above, and to no other count.
pub proof fn lemma_more_pixels(hist: Seq<u32>, map: Seq<u8>, i: int, by: u32, m: int)
    requires
        hist.len() == 256,
        0 <= i < 256,
        hist[i] + by <= u32::MAX,
    ensures
        cumulative(hist.update(i, (hist[i] + by) as u32), map, m) == cumulative(hist, map, m) + (if map[i] <= m {
            by as int
        } else {
            0
        }),
{
    lemma_counts_step(hist, map, i, by, m, 256);
}

/// The count that equalization uses for a mapped level is the number of the plane's pixels that are
/// mapped to it or below.
pub proof fn lemma_count_of_pixels(hist: Seq<u32>, plane: Seq<u8>, map: Seq<u8>, m: int)
    requires
        hist.len() == 256,
        forall|v: int| 0 <= v < 256 ==> #[trigger] hist[v] == occurrences(plane, v),
    ensures
        cumulative(hist, map, m) == plane.filter(|p: u8| map[p as int] <= m).len(),
    decreases plane.len(),
{
    reveal(Seq::filter);
    if plane.len() == 0 {
        assert forall|i: int| 0 <= i < 256 implies hist[i] == 0 by {
            assert(hist[i] == occurrences(plane, i));
        }
        lemma_counts_empty(hist, map, m, 256);
    } else {
        let last = plane.last();
        let rest = plane.drop_last();
        assert(hist[last as int] == occurrences(plane, last as int));
        let fewer = hist.update(last as int, (hist[last as int] - 1) as u32);
        assert forall|v: int| 0 <= v < 256 implies #[trigger] fewer[v] == occurrences(rest, v) by {
            assert(hist[v] == occurrences(plane, v));
        }
        lemma_count_of_pixels(fewer, rest, map, m);
        lemma_more_pixels(fewer, map, last as int, 1, m);
        assert(fewer.update(last as int, (fewer[last as int] + 1) as u32) =~= hist);
    }
}

/// The count at the top of the scale is the number of pixels, and two neighboring levels differ in
/// their counts by the pixels that are mapped to the upper one.
pub proof fn lemma_counts_of_levels(hist: Seq<u32>, plane: Seq<u8>, map: Seq<u8>, m: int)
    requires
        hist.len() == 256,
        forall|v: int| 0 <= v < 256 ==> #[trigger] hist[v] == occurrences(plane, v),
    ensures
        cumulative(hist, map, 255) == plane.len(),
        cumulative(hist, map, -1) == 0,
        cumulative(hist, map, m) - cumulative(hist, map, m - 1) == plane.filter(|p: u8| map[p as int] == m).len(),
{
    lemma_count_of_pixels(hist, plane, map, 255);
    lemma_count_of_pixels(hist, plane, map, -1);
    lemma_count_of_pixels(hist, plane, map, m);
    lemma_count_of_pixels(hist, plane, map, m - 1);
    lemma_filters_all(plane, map);
    lemma_filters_split(plane, map, m);
}

/// Every pixel is mapped to some level of the scale.
proof fn lemma_filters_all(plane: Seq<u8>, map: Seq<u8>)
    ensures
        plane.filter(|p: u8| map[p as int] <= 255).len() == plane.len(),
        plane.filter(|p: u8| map[p as int] <= -1).len() == 0,
    decreases plane.len(),
{
    reveal(Seq::filter);
    if plane.len() > 0 {
        lemma_filters_all(plane.drop_last(), map);
    }
}

/// The pixels up to a level are those below it and those on it.
proof fn lemma_filters_split(plane: Seq<u8>, map: Seq<u8>, m: int)
    ensures
        plane.filter(|p: u8| map[p as int] <= m).len() == plane.filter(|p: u8| map[p as int] <= m - 1).len()
            + plane.filter(|p: u8| map[p as int] == m).len(),
    decreases plane.len(),
{
    reveal(Seq::filter);
    if plane.len() > 0 {
        lemma_filters_split(plane.drop_last(), map, m);
    }
}

/// No pixel is below the lowest level that occurs.
proof fn lemma_filters_none(plane: Seq<u8>, map: Seq<u8>, m: int)
    requires
        forall|j: int| 0 <= j < plane.len() ==> m < map[#[trigger] plane[j] as int],
    ensures
        plane.filter(|p: u8| map[p as int] <= m).len() == 0,
    decreases plane.len(),
{
    reveal(Seq::filter);
    if plane.len() > 0 {
        let rest = plane.drop_last();
        assert forall|j: int| 0 <= j < rest.len() implies m < map[#[trigger] rest[j] as int] by {
            assert(rest[j] == plane[j]);
        }
        lemma_filters_none(rest, map, m);
        assert(plane.last() == plane[plane.len() - 1]);
    }
}

/// Where a pixel is, its level is counted.
proof fn lemma_filters_some(plane: Seq<u8>, map: Seq<u8>, q: int)
    requires
        0 <= q < plane.len(),
    ensures
        plane.filter(|p: u8| map[p as int] == map[plane[q] as int]).len() > 0,
    decreases plane.len(),
{
    reveal(Seq::filter);
    if q < plane.len() - 1 {
        lemma_filters_some(plane.drop_last(), map, q);
        assert(plane.drop_last()[q] == plane[q]);
    }
}

/// The search for the lowest level that occurs ends at that level.
proof fn lemma_lowest_from(hist: Seq<u32>, map: Seq<u8>, m: int, low: int)
    requires
        0 <= m <= low <= 255,
        forall|k: int| 0 <= k < low ==> #[trigger] cumulative(hist, map, k) == 0,
        cumulative(hist, map, low) > 0,
    ensures
        lowest_from(hist, map, m) == cumulative(hist, map, low),
    decreases low - m,
{
    if m < low {
        assert(cumulative(hist, map, m) == 0);
        lemma_lowest_from(hist, map, m + 1, low);
    }
}

/// The lowest count is the number of pixels that are mapped to the lowest level that any pixel is
/// mapped to, and the spread is the number of all the others.
pub proof fn lemma_lowest_pixels(hist: Seq<u32>, plane: Seq<u8>, map: Seq<u8>, q: int)
    requires
        hist.len() == 256,
        forall|v: int| 0 <= v < 256 ==> #[trigger] hist[v] == occurrences(plane, v),
        0 <= q < plane.len(),
        forall|j: int| 0 <= j < plane.len() ==> map[plane[q] as int] <= map[#[trigger] plane[j] as int],
    ensures
        lowest_count(hist, map) == plane.filter(|p: u8| map[p as int] == map[plane[q] as int]).len(),
        spread(hist, map) == plane.len() - plane.filter(|p: u8| map[p as int] == map[plane[q] as int]).len(),
{
    let low = map[plane[q] as int] as int;
    assert(plane.filter(|p: u8| map[p as int] == low) =~= plane.filter(|p: u8| map[p as int] == map[plane[q] as int]))
        by {
        lemma_same_filter(plane, |p: u8| map[p as int] == low, |p: u8| map[p as int] == map[plane[q] as int]);
    }
    assert forall|k: int| 0 <= k < low implies #[trigger] cumulative(hist, map, k) == 0 by {
        lemma_count_of_pixels(hist, plane, map, k);
        lemma_filters_none(plane, map, k);
    }
    lemma_count_of_pixels(hist, plane, map, low);
    lemma_filters_split(plane, map, low);
    lemma_filters_none(plane, map, low - 1);
    lemma_filters_some(plane, map, q);
    lemma_lowest_from(hist, map, 0, low);
    lemma_counts_of_levels(hist, plane, map, 0);
}

/// Filters that agree give the same pixels.
proof fn lemma_same_filter(plane: Seq<u8>, a: spec_fn(u8) -> bool, b: spec_fn(u8) -> bool)
    requires
        forall|p: u8| #[trigger] a(p) == b(p),
    ensures
        plane.filter(a) == plane.filter(b),
    decreases plane.len(),
{
    reveal(Seq::filter);
    if plane.len() > 0 {
        lemma_same_filter(plane.drop_last(), a, b);
    }
}

/// Equalization by pixels: of the plane's pixels above the lowest mapped level that occurs, the
/// ones at or below the mapped level of `i` give its share of the 255 levels, to the nearest level
/// and a half rounded up. Where all pixels are mapped to one level there is nothing to spread, and
/// the mapped level is shown.
pub proof fn lemma_equalized_pixels(
    stats: Stats,
    params: LutParams,
    plane: Seq<u8>,
    width: int,
    map: Seq<u8>,
    q: int,
    i: int,
)
    requires
        describes(stats, plane, width),
        params.histeq,
        map == mapped_levels(stats, params),
        0 <= q < plane.len(),
        forall|j: int| 0 <= j < plane.len() ==> map[plane[q] as int] <= map[#[trigger] plane[j] as int],
        0 <= i <= 255,
    ensures
        ({
            let low = plane.filter(|p: u8| map[p as int] == map[plane[q] as int]).len();
            let c = plane.filter(|p: u8| map[p as int] <= map[i] as int).len();
            let above = if c > low {
                c - low
            } else {
                0
            };
            let n = plane.len() - low;
            let level = display_level(stats, params, i);
            &&& n > 0 ==> 2 * n * level <= 510 * above + n < 2 * n * (level + 1)
            &&& n == 0 ==> level == map[i]
        }),
{
    let hist = stats.hist@;
    lemma_lowest_pixels(hist, plane, map, q);
    lemma_count_of_pixels(hist, plane, map, map[i] as int);
    let low = plane.filter(|p: u8| map[p as int] == map[plane[q] as int]).len();
    let c = plane.filter(|p: u8| map[p as int] <= map[i] as int).len();
    let above = if c > low {
        c - low
    } else {
        0
    };
    let n = plane.len() - low;
    let level = display_level(stats, params, i);
    if n > 0 {
        lemma_equalized_formula(stats, params, i);
        let w = 510 * above + n;
        assert(level == w / (2 * n));
        lemma_fundamental_div_mod(w, 2 * n);
        assert(2 * n * (level + 1) == 2 * n * level + 2 * n) by (nonlinear_arith);
    }
}

/// Equalization of the levels as they are, without stretching and contrast: level `i` is shown by
/// the number of pixels up to `i`, less those of the smallest level.
pub proof fn lemma_equalized_plain(stats: Stats, params: LutParams, plane: Seq<u8>, width: int, i: u8)
    requires
        describes(stats, plane, width),
        params.histeq,
        !params.autoscale,
        single_exponent(params.contrast) < 0xff,
        single_value(params.contrast) == whole_single(1),
        plane.len() > 0,
        i >= stats.min,
    ensures
        ({
            let low = plane.filter(|p: u8| p == stats.min).len();
            let c = plane.filter(|p: u8| p <= i).len();
            let n = plane.len() - low;
            let level = display_level(stats, params, i as int);
            &&& n > 0 ==> 2 * n * level <= 510 * (c - low) + n < 2 * n * (level + 1)
            &&& n == 0 ==> level == i
        }),
{
    let map = mapped_levels(stats, params);
    assert forall|v: u8| #[trigger] map[v as int] == v by {
        lemma_contrast_one(v as int, params.contrast);
        assert(mapped_level(stats, params, v as int) == v);
    }
    let q = choose|q: int| #[trigger] is_first_min(plane, q) && stats.min == plane[q];
    assert forall|j: int| 0 <= j < plane.len() implies map[plane[q] as int] <= map[#[trigger] plane[j] as int] by {
        assert(map[plane[q] as int] == plane[q] && map[plane[j] as int] == plane[j]);
        assert(plane[q] <= plane[j]);
    }
    lemma_equalized_pixels(stats, params, plane, width, map, q, i as int);
    lemma_same_filter(plane, |p: u8| p == stats.min, |p: u8| map[p as int] == map[plane[q] as int]);
    lemma_same_filter(plane, |p: u8| p <= i, |p: u8| map[p as int] <= map[i as int] as int);
    lemma_filter_up_to(plane, stats.min, i);
}

/// At least the pixels of a level are counted up to any level that is not lower.
proof fn lemma_filter_up_to(plane: Seq<u8>, v: u8, i: u8)
    requires
        v <= i,
    ensures
        plane.filter(|p: u8| p == v).len() <= plane.filter(|p: u8| p <= i).len(),
    decreases plane.len(),
{
    reveal(Seq::filter);
    if plane.len() > 0 {
        lemma_filter_up_to(plane.drop_last(), v, i);
    }
}

/// Each entry of the composed table is the opaque palette color of the displayed level.
pub proof fn lemma_composed_colors(lut: Seq<u32>, stats: Stats, params: LutParams, palette: Lut, i: int)
    requires
        is_composed(lut, stats, params, palette),
        0 <= i <= 255,
    ensures
        0 <= display_level(stats, params, i) <= 255,
        ({
            let rgb = palette@[display_level(stats, params, i)];
            lut[i] as int == 255 * 0x100_0000 + rgb@[0] * 0x1_0000 + rgb@[1] * 0x100 + rgb@[2]
        }),
{
    assert(0 <= display_level(stats, params, i) <= 255);
}

/// A plane without pixels has no counts, the highest level as its smallest and zero as its largest.
pub proof fn lemma_stats_of_nothing(stats: Stats, width: int, v: u8)
    requires
        describes(stats, Seq::empty(), width),
    ensures
        stats.hist@[v as int] == 0,
        stats.min == 255,
        stats.max == 0,
        stats.min_loc == (0usize, 0usize),
        stats.max_loc == (0usize, 0usize),
{
    assert(stats.hist@[v as int] == occurrences(Seq::empty(), v as int));
}

} // verus!
