//! What the display transform guarantees.

use crate::double::{double_div, double_mul, whole_double};
use crate::float::{fl_div, fl_mul, single_exponent, single_value};
use crate::palette::Lut;
use crate::pixels::{lemma_painted_bytes, painted, Window};
use crate::render::{
    argb, bar_ink, bar_level, clamped, contrasted, cumulative, display_level, equalized, is_composed,
    lemma_lowest_bound, lemma_mapped_bounds, lowest_count, mapped_level, mapped_levels, plane_ink,
    spread, stretched, whole_single, LutParams, Stats,
};
use crate::rounding::{
    lemma_pow2_below, lemma_rounded_exact, lemma_rounded_int_monotone, lemma_rounded_lower,
    lemma_rounded_near, lemma_rounded_same_quotient, lemma_rounded_scaled, lemma_rounded_twice,
    lemma_rounded_upper, lemma_rounded_wide, lemma_rounded_zero, nearest_even, rounded, rounded_int,
};
use vstd::arithmetic::div_mod::{
    lemma_fundamental_div_mod, lemma_fundamental_div_mod_converse, lemma_mod_bound,
};
use vstd::arithmetic::power2::{
    lemma2_to64, lemma2_to64_rest, lemma_pow2_adds, lemma_pow2_pos, pow2,
};
use vstd::prelude::*;

verus! {

/// An integer over a unit, given in that unit, is exact.
proof fn lemma_exact_quotient(p: nat, b: nat, n: nat, d: nat)
    requires
        p >= 1,
        n <= pow2(p),
        d > 0,
    ensures
        rounded_int(p, (d * (n * pow2(b))) as int, d) == n * pow2(b),
{
    lemma_pow2_pos(b);
    lemma_rounded_scaled(p, n * pow2(b), 1, d);
    lemma_rounded_exact(p, n, b);
    assert(d * 1 == d);
    assert(d * (n * pow2(b)) >= 0) by (nonlinear_arith)
        requires
            n * pow2(b) >= 0,
    ;
}

/// The contrast one changes no level.
pub proof fn lemma_contrast_one(i: int, bits: u32)
    requires
        0 <= i <= 255,
        single_exponent(bits) < 0xff,
        single_value(bits) == whole_single(1),
    ensures
        contrasted(whole_single(i), bits) == i,
{
    let u = pow2(149);
    lemma2_to64();
    lemma_pow2_pos(149);
    assert(1 * u == u);
    lemma_exact_quotient(24, 149, i as nat, u);
    assert(whole_single(i) * u == u * (i * u)) by (nonlinear_arith)
        requires
            whole_single(i) == i * u,
    ;
    assert(0 <= i * u && (i < 255 ==> i * u < 255 * u)) by (nonlinear_arith)
        requires
            0 <= i,
            u > 0,
    ;
    lemma_fundamental_div_mod_converse(i * u, u as int, i, 0);
}

/// Without stretching, equalization or contrast each level is shown as it is.
pub proof fn lemma_plain_levels(stats: Stats, params: LutParams, i: int)
    requires
        0 <= i <= 255,
        !params.autoscale,
        !params.histeq,
        single_exponent(params.contrast) < 0xff,
        single_value(params.contrast) == whole_single(1),
    ensures
        display_level(stats, params, i) == i,
{
    lemma_contrast_one(i, params.contrast);
}

/// Stretching shows the smallest level as 0 and the largest as 255.
pub proof fn lemma_stretched_ends(stats: Stats, params: LutParams)
    requires
        params.autoscale,
        !params.histeq,
        stats.min < stats.max,
        single_exponent(params.contrast) < 0xff,
        single_value(params.contrast) == whole_single(1),
    ensures
        display_level(stats, params, stats.min as int) == 0,
        display_level(stats, params, stats.max as int) == 255,
{
    let u = pow2(149);
    let (min, max) = (stats.min as int, stats.max as int);
    let n = max - min;
    lemma2_to64();
    lemma_pow2_pos(149);
    let d = whole_single(n);
    assert(d > 0) by (nonlinear_arith)
        requires
            d == n * u,
            n > 0,
            u > 0,
    ;
    assert(stretched(min, min, max, true) == whole_single(0)) by {
        assert((min - min) * 255 == 0);
        assert(0 * u == 0);
        lemma_rounded_zero(24, d as nat);
    }
    assert(stretched(max, min, max, true) == whole_single(255)) by {
        lemma_exact_quotient(24, 149, 255, d as nat);
        assert(whole_single(n * 255) * u == d * (255 * u)) by (nonlinear_arith)
            requires
                whole_single(n * 255) == (n * 255) * u,
                d == n * u,
        ;
    }
    lemma_contrast_one(0, params.contrast);
    lemma_contrast_one(255, params.contrast);
}

/// Equalization shows the lowest level that occurs as 0, and the highest as 255.
pub proof fn lemma_equalized_ends(stats: Stats, params: LutParams, i: int)
    requires
        0 <= i <= 255,
        params.histeq,
        ({
            let map = mapped_levels(stats, params);
            spread(stats.hist@, map) > 0
        }),
    ensures
        ({
            let map = mapped_levels(stats, params);
            let c = cumulative(stats.hist@, map, map[i] as int);
            &&& c == lowest_count(stats.hist@, map) ==> display_level(stats, params, i) == 0
            &&& c == cumulative(stats.hist@, map, 255) ==> display_level(stats, params, i) == 255
        }),
{
    let u = pow2(1074);
    let map = mapped_levels(stats, params);
    let low = lowest_count(stats.hist@, map);
    let total = cumulative(stats.hist@, map, 255);
    let n = spread(stats.hist@, map);
    let d = whole_double(n);
    lemma2_to64();
    lemma2_to64_rest();
    lemma_pow2_pos(1074);
    assert(d > 0) by (nonlinear_arith)
        requires
            d == n * u,
            n > 0,
            u > 0,
    ;
    assert(equalized(low, low, n) == 0) by {
        assert(0 * u == 0);
        lemma_rounded_zero(53, d as nat);
        assert(0 * (255 * u) == 0);
        lemma_rounded_zero(53, u);
        lemma_fundamental_div_mod_converse(u as int, 2 * u as int, 0, u as int);
    }
    assert(equalized(total, low, n) == 255) by {
        assert(1 * u == u);
        lemma_exact_quotient(53, 1074, 1, d as nat);
        assert(double_div(d, d) == u);
        lemma_exact_quotient(53, 1074, 255, u);
        assert(double_mul(u as int, whole_double(255)) == 255 * u);
        assert(2 * (255 * u) + u == 255 * (2 * u) + u);
        lemma_fundamental_div_mod_converse((2 * (255 * u) + u) as int, 2 * u as int, 255, u as int);
    }
}

/// One look into the table gives each pixel the color of its displayed level.
pub proof fn lemma_one_pass(
    plane: Seq<u8>,
    lut: Seq<u32>,
    stats: Stats,
    params: LutParams,
    palette: Lut,
    width: int,
    x: int,
    y: int,
)
    requires
        is_composed(lut, stats, params, palette),
    ensures
        plane_ink(plane, lut, width)(x, y) == Some(
            argb(palette@[display_level(stats, params, plane[y * width + x] as int)]@),
        ),
{
    let i = plane[y * width + x] as int;
    assert(0 <= display_level(stats, params, i) <= 255);
}

/// The color bar shows the palette's last color at the top and its first at the bottom, and never
/// goes up again.
pub proof fn lemma_bar_levels(height: int, y: int)
    requires
        height >= 2,
        0 <= y < height - 1,
    ensures
        bar_level(0, height) == 255,
        bar_level(height - 1, height) == 0,
        0 <= bar_level(y + 1, height) <= bar_level(y, height) <= 255,
{
    let n = height - 1;
    lemma_fundamental_div_mod_converse(0, n, 0, 0);
    assert(n * 255 == 255 * n + 0);
    lemma_fundamental_div_mod_converse(n * 255, n, 255, 0);
    vstd::arithmetic::div_mod::lemma_div_is_ordered(y * 255, (y + 1) * 255, n);
    vstd::arithmetic::div_mod::lemma_div_is_ordered((y + 1) * 255, n * 255, n);
    vstd::arithmetic::div_mod::lemma_div_is_ordered(0, y * 255, n);
}

/// Clamping keeps the order.
proof fn lemma_clamped_monotone(v: int, w: int)
    requires
        v <= w,
    ensures
        0 <= clamped(v) <= clamped(w) <= 255,
{
    let u = pow2(149) as int;
    lemma_pow2_pos(149);
    if 0 <= v && v < 255 * u {
        lemma_fundamental_div_mod(v, u);
        lemma_mod_bound(v, u);
        assert(0 <= v / u < 255) by (nonlinear_arith)
            requires
                v == u * (v / u) + v % u,
                0 <= v % u < u,
                0 <= v < 255 * u,
        ;
    }
    if 0 <= w && w < 255 * u {
        lemma_fundamental_div_mod(w, u);
        lemma_mod_bound(w, u);
        assert(0 <= w / u < 255) by (nonlinear_arith)
            requires
                w == u * (w / u) + w % u,
                0 <= w % u < u,
                0 <= w < 255 * u,
        ;
        if v >= 0 {
            vstd::arithmetic::div_mod::lemma_div_is_ordered(v, w, u);
        }
    }
}

/// Stretching keeps the order.
proof fn lemma_stretched_monotone(i: int, j: int, min: int, max: int, autoscale: bool)
    requires
        i <= j,
    ensures
        stretched(i, min, max, autoscale) <= stretched(j, min, max, autoscale),
{
    let u = pow2(149);
    lemma_pow2_pos(149);
    assert(i * u <= j * u) by (nonlinear_arith)
        requires
            i <= j,
            u > 0,
    ;
    if autoscale && max > min {
        let d = whole_single(max - min);
        assert(d > 0 && (i - min) * 255 * u * u <= (j - min) * 255 * u * u) by (nonlinear_arith)
            requires
                d == (max - min) * u,
                max > min,
                i <= j,
                u > 0,
        ;
        lemma_rounded_int_monotone(
            24,
            (i - min) * 255 * u * u,
            (j - min) * 255 * u * u,
            d as nat,
        );
    }
}

/// A contrast that is not negative keeps the order.
proof fn lemma_contrasted_monotone(v: int, w: int, bits: u32)
    requires
        v <= w,
        single_exponent(bits) < 0xff,
        single_value(bits) >= 0,
    ensures
        0 <= contrasted(v, bits) <= contrasted(w, bits) <= 255,
{
    let c = single_value(bits);
    lemma_pow2_pos(149);
    assert(v * c <= w * c) by (nonlinear_arith)
        requires
            v <= w,
            c >= 0,
    ;
    lemma_rounded_int_monotone(24, v * c, w * c, pow2(149));
    lemma_clamped_monotone(fl_mul(24, 149, v, c), fl_mul(24, 149, w, c));
}

/// Equalization keeps the order.
proof fn lemma_equalized_monotone(c: nat, e: nat, low: nat, n: int)
    requires
        c <= e,
        n > 0,
    ensures
        equalized(c, low, n) <= equalized(e, low, n),
{
    let u = pow2(1074);
    let a = if c > low {
        c - low
    } else {
        0
    };
    let b = if e > low {
        e - low
    } else {
        0
    };
    let d = whole_double(n);
    lemma_pow2_pos(1074);
    assert(d > 0 && a * u * u <= b * u * u) by (nonlinear_arith)
        requires
            d == n * u,
            n > 0,
            a <= b,
            u > 0,
    ;
    lemma_rounded_int_monotone(53, a * u * u, b * u * u, d as nat);
    let (s, t) = (double_div(whole_double(a), d), double_div(whole_double(b), d));
    assert(s * (255 * u) <= t * (255 * u)) by (nonlinear_arith)
        requires
            s <= t,
            u > 0,
    ;
    lemma_rounded_int_monotone(53, s * (255 * u), t * (255 * u), u);
    let (x, y) = (double_mul(s, whole_double(255)), double_mul(t, whole_double(255)));
    vstd::arithmetic::div_mod::lemma_div_is_ordered(2 * x + u, 2 * y + u, 2 * u as int);
}

/// With a finite contrast that is not negative, a higher level is never shown lower.
pub proof fn lemma_levels_keep_order(stats: Stats, params: LutParams, i: int, j: int)
    requires
        0 <= i <= j <= 255,
        single_exponent(params.contrast) < 0xff,
        single_value(params.contrast) >= 0,
    ensures
        display_level(stats, params, i) <= display_level(stats, params, j),
{
    let (min, max) = (stats.min as int, stats.max as int);
    let map = mapped_levels(stats, params);
    let hist = stats.hist@;
    lemma_stretched_monotone(i, j, min, max, params.autoscale);
    lemma_contrasted_monotone(
        stretched(i, min, max, params.autoscale),
        stretched(j, min, max, params.autoscale),
        params.contrast,
    );
    assert(map[i] == mapped_level(stats, params, i) && map[j] == mapped_level(stats, params, j));
    lemma_mapped_bounds(hist, map, map[i] as int, map[j] as int, 256);
    if params.histeq && spread(hist, map) > 0 {
        lemma_equalized_monotone(
            cumulative(hist, map, map[i] as int),
            cumulative(hist, map, map[j] as int),
            lowest_count(hist, map),
            spread(hist, map),
        );
    }
}

/// Stretching shows the levels at or below the smallest one as 0, with any finite contrast that is
/// not negative, and those at or above the largest one as 255, with a contrast of one or more.
pub proof fn lemma_stretched_outside(stats: Stats, params: LutParams, i: int)
    requires
        0 <= i <= 255,
        params.autoscale,
        !params.histeq,
        stats.min < stats.max,
        single_exponent(params.contrast) < 0xff,
        single_value(params.contrast) >= 0,
    ensures
        i <= stats.min ==> display_level(stats, params, i) == 0,
        i >= stats.max && single_value(params.contrast) >= whole_single(1) ==> display_level(
            stats,
            params,
            i,
        ) == 255,
{
    let u = pow2(149);
    let (min, max) = (stats.min as int, stats.max as int);
    let c = single_value(params.contrast);
    let n = max - min;
    let d = whole_single(n);
    lemma2_to64();
    lemma_pow2_pos(149);
    assert(d > 0) by (nonlinear_arith)
        requires
            d == n * u,
            n > 0,
            u > 0,
    ;
    assert(0 * u == 0 && 0 * c == 0);
    if i <= min {
        lemma_stretched_monotone(i, min, min, max, true);
        assert(stretched(min, min, max, true) == 0) by {
            assert((min - min) * 255 == 0);
            lemma_rounded_zero(24, d as nat);
        }
        lemma_contrasted_monotone(stretched(i, min, max, true), 0, params.contrast);
        lemma_rounded_zero(24, u);
        lemma_fundamental_div_mod_converse(0, u as int, 0, 0);
        assert(contrasted(0, params.contrast) == 0);
    }
    if i >= max && c >= whole_single(1) {
        let v = stretched(i, min, max, true);
        lemma_stretched_monotone(max, i, min, max, true);
        assert(stretched(max, min, max, true) == 255 * u) by {
            lemma_exact_quotient(24, 149, 255, d as nat);
            assert(whole_single(n * 255) * u == d * (255 * u)) by (nonlinear_arith)
                requires
                    whole_single(n * 255) == (n * 255) * u,
                    d == n * u,
            ;
        }
        assert(v * c >= u * (255 * u)) by (nonlinear_arith)
            requires
                v >= 255 * u,
                c >= u,
                u > 0,
        ;
        lemma_exact_quotient(24, 149, 255, u);
        lemma_rounded_int_monotone(24, (u * (255 * u)) as int, v * c, u);
    }
}

/// A product of a rounded share that lies at most half a place below a value is rounded to it, or
/// above.
proof fn lemma_rounds_up_to(y: int, b: nat, n: int)
    requires
        1 <= b <= 8,
        pow2(b) < y < pow2((b + 1) as nat),
        n >= 0,
        2 * n >= y * pow2(1074) - 255 * pow2((b + 1013) as nat),
    ensures
        2 * rounded(53, n as nat, 1) >= y * pow2(1074),
{
    let j = (b + 1021) as nat;
    let w = pow2(j);
    let v = y * pow2(1073);
    lemma2_to64();
    lemma2_to64_rest();
    lemma_pow2_pos(j);
    lemma_pow2_pos(1073);
    lemma_pow2_pos((b + 1013) as nat);
    lemma_pow2_adds(1, 1073);
    lemma_pow2_adds(8, (b + 1013) as nat);
    lemma_pow2_below((b + 1) as nat, 53);
    assert(2 * v == y * pow2(1074)) by (nonlinear_arith)
        requires
            v == y * pow2(1073),
            pow2(1074) == 2 * pow2(1073),
    ;
    if n >= v {
        lemma_rounded_lower(53, n as nat, 1, y as nat, 1073);
    } else {
        let m = pow2((52 - b) as nat);
        let z = y * m;
        lemma_pow2_pos((52 - b) as nat);
        lemma_pow2_adds((52 - b) as nat, j);
        lemma_pow2_adds((52 - b) as nat, b);
        lemma_pow2_adds((52 - b) as nat, (b + 1) as nat);
        lemma_pow2_adds(52, j);
        lemma_pow2_adds(53, j);
        assert(v == z * w) by (nonlinear_arith)
            requires
                v == y * pow2(1073),
                z == y * m,
                pow2(1073) == m * w,
        ;
        // between half a place below the value and the value
        assert(pow2(52) + 1 <= z < pow2(53)) by (nonlinear_arith)
            requires
                z == y * m,
                pow2(52) == m * pow2(b),
                pow2(53) == m * pow2((b + 1) as nat),
                pow2(b) < y < pow2((b + 1) as nat),
                m >= 1,
        ;
        assert(2 * n > 2 * v - w);
        assert(pow2(52) * w <= n < pow2(53) * w) by (nonlinear_arith)
            requires
                2 * n > 2 * v - w,
                n < v,
                v == z * w,
                pow2(52) + 1 <= z < pow2(53),
                w > 0,
        ;
        assert(1 * w == w && pow2((53 + j - 1) as nat) == pow2(52) * w);
        lemma_rounded_wide(53, n as nat, 1, j);
        let r = n - (z - 1) * w;
        assert(0 <= r < w && 2 * r > w && n == (z - 1) * w + r) by (nonlinear_arith)
            requires
                r == n - (z - 1) * w,
                2 * n > 2 * v - w,
                n < v,
                v == z * w,
                w > 0,
        ;
        lemma_fundamental_div_mod_converse(n, w as int, z - 1, r);
        assert(n < w * pow2(53)) by (nonlinear_arith)
            requires
                n < pow2(53) * w,
        ;
        assert(rounded(53, n as nat, w) == z);
        assert(w * z == v) by (nonlinear_arith)
            requires
                v == z * w,
        ;
    }
}

/// The share `y / 510`, where `y` has `b + 1` bits, times 255 is `y / 2` or above.
proof fn lemma_tie_of_width(y: int, b: nat)
    requires
        1 <= b <= 8,
        pow2(b) < y,
        256 * y < 255 * pow2((b + 1) as nat),
    ensures
        2 * rounded(53, 255 * rounded(53, (y * pow2(1074)) as nat, 510), 1) >= y * pow2(1074),
{
    let u = pow2(1074);
    let k = (b + 1013) as nat;
    let w = pow2(k);
    let n = y * u;
    let d = (510 * w) as int;
    lemma2_to64();
    lemma2_to64_rest();
    lemma_pow2_pos(k);
    lemma_pow2_pos(b);
    lemma_pow2_pos(1074);
    lemma_pow2_adds(52, k);
    lemma_pow2_adds(53, k);
    lemma_pow2_adds(9, (b + 1065) as nat);
    lemma_pow2_adds(b, 1074);
    lemma_pow2_adds((b + 1) as nat, 1066);
    lemma_pow2_adds(8, 1066);
    lemma_pow2_adds(1, (b + 1066) as nat);
    lemma_pow2_pos(1066);
    lemma_pow2_pos((b + 1) as nat);
    assert(n >= 510 * pow2((53 + k - 1) as nat)) by (nonlinear_arith)
        requires
            n == y * u,
            y >= pow2(b),
            pow2(b) * u == 512 * pow2((53 + k - 1) as nat),
            u > 0,
    ;
    lemma_rounded_wide(53, n as nat, 510, k);
    assert(n < d * pow2(53)) by (nonlinear_arith)
        requires
            n == y * u,
            d == 510 * w,
            u == 256 * pow2(1066),
            256 * y < 255 * pow2((b + 1) as nat),
            pow2((b + 1) as nat) * pow2(1066) == 2 * (pow2(53) * w),
            pow2(1066) > 0,
    ;
    let x = nearest_even(n as nat, d as nat);
    let (q, r) = (n / d, n % d);
    lemma_fundamental_div_mod(n, d);
    lemma_mod_bound(n, d);
    assert(-d <= 2 * (x * d - n) <= d) by (nonlinear_arith)
        requires
            n == d * q + r,
            0 <= r < d,
            (x == q && 2 * r <= d) || (x == q + 1 && 2 * r >= d),
    ;
    let s = rounded(53, n as nat, 510);
    assert(s == w * x);
    assert(510 * s == x * d) by (nonlinear_arith)
        requires
            s == w * x,
            d == 510 * w,
    ;
    assert(pow2((b + 1) as nat) > y);
    lemma_rounds_up_to(y, b, 255 * s as int);
}

/// The share `1 / 510` times 255 is one half or above.
proof fn lemma_tie_of_one()
    ensures
        2 * rounded(53, 255 * rounded(53, pow2(1074), 510), 1) >= pow2(1074),
{
    let u = pow2(1074);
    let w = pow2(1013);
    let q: nat = 4521260802379792;
    lemma2_to64();
    lemma2_to64_rest();
    lemma_pow2_pos(1013);
    lemma_pow2_pos(1020);
    lemma_pow2_pos(1065);
    lemma_pow2_adds(9, 1065);
    lemma_pow2_adds(61, 1013);
    lemma_pow2_adds(7, 1013);
    lemma_pow2_adds(53, 1020);
    lemma_pow2_adds(1, 1073);
    lemma_pow2_adds(59, 1013);
    lemma_rounded_wide(53, u, 510, 1013);
    lemma_rounded_scaled(53, 0x2000_0000_0000_0000, 510, w);
    assert(w * 0x2000_0000_0000_0000 == u && w * 510 == 510 * w) by (nonlinear_arith)
        requires
            u == 0x2000_0000_0000_0000 * w,
    ;
    assert(rounded(53, 0x2000_0000_0000_0000, 510) == q);
    let s = rounded(53, u, 510);
    assert(s == w * q);
    let n = 255 * s;
    assert(n == w * (255 * q)) by (nonlinear_arith)
        requires
            n == 255 * s,
            s == w * q,
    ;
    assert(n >= 1 * pow2(1072)) by (nonlinear_arith)
        requires
            n == w * 1152921504606846960,
            pow2(1072) == 0x800_0000_0000_0000 * w,
    ;
    lemma_rounded_wide(53, n, 1, 1020);
    lemma_rounded_scaled(53, 1152921504606846960, 128, w);
    assert(w * 128 == 1 * pow2(1020));
    assert(rounded(53, 1152921504606846960, 128) == 0x20_0000_0000_0000);
    assert(pow2(1020) * 0x20_0000_0000_0000 == pow2(1073)) by (nonlinear_arith)
        requires
            pow2(1073) == 0x20_0000_0000_0000 * pow2(1020),
    ;
}

/// The share `y / 510` of an odd `y` times 255 is `y / 2` or above.
proof fn lemma_tie(y: int)
    requires
        1 <= y <= 509,
        y % 2 == 1,
    ensures
        2 * rounded(53, 255 * rounded(53, (y * pow2(1074)) as nat, 510), 1) >= y * pow2(1074),
{
    let u = pow2(1074);
    lemma2_to64();
    lemma2_to64_rest();
    if y == 1 {
        assert(1 * u == u);
        lemma_tie_of_one();
    } else if y == 255 {
        let h = pow2(1073);
        lemma_pow2_adds(1, 1073);
        assert(1 * h == h);
        lemma_rounded_same_quotient(53, 255 * u, 510, h, 1);
        lemma_rounded_exact(53, 1, 1073);
        lemma_rounded_exact(53, 255, 1073);
    } else if y < 4 {
        lemma_tie_of_width(y, 1);
    } else if y < 8 {
        lemma_tie_of_width(y, 2);
    } else if y < 16 {
        lemma_tie_of_width(y, 3);
    } else if y < 32 {
        lemma_tie_of_width(y, 4);
    } else if y < 64 {
        lemma_tie_of_width(y, 5);
    } else if y < 128 {
        lemma_tie_of_width(y, 6);
    } else if y < 256 {
        lemma_tie_of_width(y, 7);
    } else {
        lemma_tie_of_width(y, 8);
    }
}

/// The quotient `255 * a / n`, rounded to the nearest integer, a half rounded up.
pub open spec fn share_of_scale(a: int, n: int) -> int {
    (510 * a + n) / (2 * n)
}

/// Two roundings of a share do not take it across a half.
proof fn lemma_share_exact(a: int, n: int, s: int, p: int)
    requires
        0 < a <= n <= pow2(40),
        s == rounded(53, (a * pow2(1074)) as nat, n as nat),
        p == rounded(53, (255 * s) as nat, 1),
    ensures
        (2 * p + pow2(1074)) / (2 * pow2(1074) as int) == share_of_scale(a, n),
{
    let u = pow2(1074) as int;
    let b = pow2(53) as int;
    lemma2_to64();
    lemma2_to64_rest();
    lemma_pow2_pos(1074);
    lemma_pow2_adds(40, 52);
    lemma_pow2_adds(92, 982);
    lemma_pow2_below(1, 982);
    lemma_pow2_pos(92);
    assert(a * u >= n * pow2(52) && u >= 2 * pow2(92)) by (nonlinear_arith)
        requires
            u == pow2(92) * pow2(982),
            pow2(92) == pow2(40) * pow2(52),
            pow2(982) >= 2,
            1 <= a,
            0 < n <= pow2(40),
            pow2(52) > 0,
    ;
    lemma_rounded_near(53, (a * u) as nat, n as nat, 52);
    let e = s * n - a * u;
    assert(a * u / 2 <= s * n <= 2 * (a * u)) by (nonlinear_arith)
        requires
            -(a * u) <= b * e <= a * u,
            e == s * n - a * u,
            b >= 2,
            a * u >= 0,
    ;
    assert(s >= pow2(52)) by (nonlinear_arith)
        requires
            s * n >= a * u / 2,
            a >= 1,
            u >= 2 * pow2(92),
            pow2(92) == pow2(40) * pow2(52),
            pow2(40) >= n,
            n > 0,
            pow2(52) > 0,
    ;
    lemma_rounded_near(53, (255 * s) as nat, 1, 52);
    let f = p - 255 * s;
    assert(p * 1 == p);
    // together the two roundings are off by less than half a level over `n`
    let off = p * n - 255 * (a * u);
    assert(off == f * n + 255 * e) by (nonlinear_arith)
        requires
            off == p * n - 255 * (a * u),
            f == p - 255 * s,
            e == s * n - a * u,
    ;
    assert(-(765 * (a * u)) <= b * off <= 765 * (a * u)) by (nonlinear_arith)
        requires
            off == f * n + 255 * e,
            -(a * u) <= b * e <= a * u,
            -(255 * s) <= b * f <= 255 * s,
            s * n <= 2 * (a * u),
            n > 0,
    ;
    assert(-u < 2 * off < u) by (nonlinear_arith)
        requires
            -(765 * (a * u)) <= b * off <= 765 * (a * u),
            b == 0x20_0000_0000_0000,
            0 < a <= 0x100_0000_0000,
            u > 0,
    ;
    let t = share_of_scale(a, n);
    lemma_fundamental_div_mod(510 * a + n, 2 * n);
    lemma_mod_bound(510 * a + n, 2 * n);
    let r = (510 * a + n) % (2 * n);
    assert((2 * t - 1) * n + r == 510 * a && (2 * t + 1) * n == (2 * t - 1) * n + 2 * n)
        by (nonlinear_arith)
        requires
            510 * a + n == (2 * n) * t + r,
            0 <= r < 2 * n,
    ;
    assert(0 <= t <= 255) by (nonlinear_arith)
        requires
            (2 * t - 1) * n + r == 510 * a,
            0 <= r < 2 * n,
            0 < a <= n,
    ;
    assert(2 * p < (2 * t + 1) * u) by (nonlinear_arith)
        requires
            2 * (p * n - 255 * (a * u)) < u,
            510 * a <= (2 * t + 1) * n - 1,
            n > 0,
            u > 0,
    ;
    assert(2 * p >= (2 * t - 1) * u) by {
        if r == 0 {
            let y = 2 * t - 1;
            assert(y >= 1) by (nonlinear_arith)
                requires
                    y * n == 510 * a,
                    a > 0,
                    n > 0,
            ;
            assert((a * u) * 510 == (y * u) * n) by (nonlinear_arith)
                requires
                    y * n == 510 * a,
            ;
            assert(y * u >= 0) by (nonlinear_arith)
                requires
                    y >= 1,
                    u > 0,
            ;
            lemma_rounded_same_quotient(
                53,
                (a * u) as nat,
                n as nat,
                (y * u) as nat,
                510,
            );
            lemma_tie(y);
        } else {
            assert(2 * p >= (2 * t - 1) * u) by (nonlinear_arith)
                requires
                    2 * (p * n - 255 * (a * u)) > -u,
                    510 * a >= (2 * t - 1) * n + 1,
                    n > 0,
                    u > 0,
            ;
        }
    }
    let w = 2 * p + u;
    assert(w == t * (2 * u) + (w - t * (2 * u)) && 0 <= w - t * (2 * u) < 2 * u) by (nonlinear_arith)
        requires
            w == 2 * p + u,
            2 * p < (2 * t + 1) * u,
            2 * p >= (2 * t - 1) * u,
    ;
    lemma_fundamental_div_mod_converse(w, 2 * u, t, w - t * (2 * u));
}

/// An equalized level is its exact share of the scale, rounded half up.
proof fn lemma_equalized_exact(c: nat, low: nat, n: int)
    requires
        0 < n <= pow2(40),
        c <= low + n,
    ensures
        equalized(c, low, n) == share_of_scale(
            if c > low {
                c - low
            } else {
                0
            },
            n,
        ),
{
    let u = pow2(1074);
    let a = if c > low {
        c - low
    } else {
        0
    };
    lemma_pow2_pos(1074);
    lemma_rounded_scaled(53, (a * u) as nat, n as nat, u);
    assert(u * (a * u) == a * u * u && u * n == n * u && a * u >= 0) by (nonlinear_arith)
        requires
            a >= 0,
    ;
    let s = double_div(whole_double(a), whole_double(n));
    assert(a * u * u >= 0) by (nonlinear_arith)
        requires
            a >= 0,
    ;
    assert(s == rounded(53, (a * u) as nat, n as nat));
    let p = double_mul(s, whole_double(255));
    lemma_rounded_scaled(53, (255 * s) as nat, 1, u);
    assert(u * (255 * s) == s * (255 * u) && u * 1 == u) by (nonlinear_arith);
    assert(s * (255 * u) >= 0) by (nonlinear_arith)
        requires
            s >= 0,
    ;
    assert(p == rounded(53, (255 * s) as nat, 1));
    if a == 0 {
        assert(0 * u == 0);
        lemma_rounded_zero(53, n as nat);
        lemma_rounded_zero(53, 1);
        lemma_fundamental_div_mod_converse(u as int, 2 * u as int, 0, u as int);
        lemma_fundamental_div_mod_converse(n, 2 * n, 0, n);
    } else {
        lemma_share_exact(a, n, s, p);
    }
}

/// Equalization gives a level its share of the scale: of the pixels above the lowest level that
/// occurs, those at or below it, out of 255, rounded to the nearest level, a half rounded up.
pub proof fn lemma_equalized_formula(stats: Stats, params: LutParams, i: int)
    requires
        0 <= i <= 255,
        params.histeq,
        spread(stats.hist@, mapped_levels(stats, params)) > 0,
    ensures
        ({
            let map = mapped_levels(stats, params);
            let c = cumulative(stats.hist@, map, map[i] as int);
            let low = lowest_count(stats.hist@, map);
            display_level(stats, params, i) == share_of_scale(
                if c > low {
                    c - low
                } else {
                    0
                },
                spread(stats.hist@, map),
            )
        }),
{
    let map = mapped_levels(stats, params);
    let hist = stats.hist@;
    lemma2_to64_rest();
    lemma_mapped_bounds(hist, map, map[i] as int, 255, 256);
    lemma_lowest_bound(hist, map, 0);
    lemma_equalized_exact(
        cumulative(hist, map, map[i] as int),
        lowest_count(hist, map),
        spread(hist, map),
    );
}

/// A value of the format times the contrast one is that value.
proof fn lemma_times_one(v: nat, bits: u32)
    requires
        rounded(24, v, 1) == v,
        single_value(bits) == whole_single(1),
    ensures
        fl_mul(24, 149, v as int, single_value(bits)) == v,
{
    let u = pow2(149);
    lemma_pow2_pos(149);
    assert(1 * u == u && u * 1 == u);
    lemma_rounded_scaled(24, v, 1, u);
    assert(u * v == v * u && v * u >= 0) by (nonlinear_arith);
}

/// Stretching is linear: a level between the smallest and the largest one is shown at the same part
/// of the whole scale, cut to an integer.
pub proof fn lemma_stretched_linear(stats: Stats, params: LutParams, i: int)
    requires
        params.autoscale,
        !params.histeq,
        stats.min < stats.max,
        stats.min <= i <= stats.max,
        single_exponent(params.contrast) < 0xff,
        single_value(params.contrast) == whole_single(1),
    ensures
        ({
            let n = stats.max - stats.min;
            let level = display_level(stats, params, i);
            level * n <= 255 * (i - stats.min) < (level + 1) * n
        }),
{
    let u = pow2(149);
    let n = stats.max - stats.min;
    let a = i - stats.min;
    lemma2_to64();
    lemma_pow2_pos(149);
    let x = a * 255;
    let t = x / n;
    lemma_fundamental_div_mod(x, n);
    assert(n * t == t * n && (t + 1) * n == t * n + n) by (nonlinear_arith);
    assert(0 <= t <= 255) by (nonlinear_arith)
        requires
            t * n <= x < t * n + n,
            0 <= x <= 255 * n,
            n > 0,
    ;
    let v = stretched(i, stats.min as int, stats.max as int, true);
    assert(x * u >= 0 && (x * u) * u >= 0 && n * u > 0) by (nonlinear_arith)
        requires
            x >= 0,
            n > 0,
            u > 0,
    ;
    assert(u * (x * u) == (x * u) * u && u * n == n * u) by (nonlinear_arith);
    lemma_rounded_scaled(24, (x * u) as nat, n as nat, u);
    assert(v == rounded(24, (x * u) as nat, n as nat));
    lemma_rounded_twice(24, (x * u) as nat, n as nat);
    lemma_times_one(v as nat, params.contrast);
    assert(n * (t * u) <= x * u) by (nonlinear_arith)
        requires
            t * n <= x,
            u > 0,
    ;
    lemma_rounded_lower(24, (x * u) as nat, n as nat, t as nat, 149);
    assert(v >= t * u);
    if t < 255 {
        assert(v < (t + 1) * u) by {
            if a == 0 {
                assert(0 * u == 0);
                lemma_rounded_zero(24, n as nat);
                assert((t + 1) * u > 0) by (nonlinear_arith)
                    requires
                        t >= 0,
                        u > 0,
                ;
            } else {
                lemma_pow2_below(23, 149);
                assert(pow2(23) == 0x80_0000);
                assert(pow2(24) == 0x100_0000);
                assert(x * u >= n * pow2(23)) by (nonlinear_arith)
                    requires
                        x >= 255,
                        n <= 255,
                        u >= pow2(23),
                ;
                lemma_rounded_near(24, (x * u) as nat, n as nat, 23);
                assert(v * n < x * u + u) by (nonlinear_arith)
                    requires
                        0x100_0000 * (v * n - x * u) <= x * u,
                        x < 0x100_0000,
                        u > 0,
                ;
                assert(v < (t + 1) * u) by (nonlinear_arith)
                    requires
                        v * n < x * u + u,
                        x + 1 <= (t + 1) * n,
                        n > 0,
                        u > 0,
                ;
            }
        }
        assert((t + 1) * u == t * u + u) by (nonlinear_arith);
        lemma_fundamental_div_mod_converse(v, u as int, t, v - t * u);
        assert((t + 1) * u <= 255 * u && t * u >= 0) by (nonlinear_arith)
            requires
                0 <= t < 255,
                u > 0,
        ;
    } else {
        assert(v >= whole_single(255));
    }
}

/// A finite contrast multiplies: where the product is on the scale its integer part is shown, a
/// product below the scale shows as 0 and one beyond it as 255. An infinite contrast shows every
/// value of its sign as 255 and the others as 0, and a contrast that is no number shows 0.
pub proof fn lemma_contrast_multiplies(v: int, bits: u32)
    ensures
        ({
            let exponent = bits as int / 0x80_0000 % 0x100;
            let fraction = bits as int % 0x80_0000;
            let level = contrasted(v, bits);
            let product = fl_mul(24, 149, v, single_value(bits));
            &&& 0 <= level <= 255
            &&& exponent < 0xff && product < 0 ==> level == 0
            &&& exponent < 0xff && product >= 255 * pow2(149) ==> level == 255
            &&& exponent < 0xff && 0 <= product < 255 * pow2(149) ==> level * pow2(149) <= product < (level + 1)
                * pow2(149)
            &&& exponent == 0xff && fraction != 0 ==> level == 0
            &&& exponent == 0xff && fraction == 0 && bits < 0x8000_0000 ==> level == (if v > 0 {
                255int
            } else {
                0
            })
            &&& exponent == 0xff && fraction == 0 && bits >= 0x8000_0000 ==> level == (if v < 0 {
                255int
            } else {
                0
            })
        }),
{
    let product = fl_mul(24, 149, v, single_value(bits));
    let u = pow2(149) as int;
    lemma_pow2_pos(149);
    lemma_clamped_monotone(product, product);
    if product >= 0 {
        let q = product / u;
        lemma_fundamental_div_mod(product, u);
        assert(u * q == q * u && (q + 1) * u == q * u + u) by (nonlinear_arith);
    }
}

/// A contrast scales the levels: without stretching and equalization, a level that is not cut off
/// at the top of the scale is the integer part of its product with the contrast, up to the last
/// place of that product.
pub proof fn lemma_contrast_scales(stats: Stats, params: LutParams, i: int)
    requires
        0 <= i <= 255,
        !params.autoscale,
        !params.histeq,
        single_exponent(params.contrast) < 0xff,
        single_value(params.contrast) >= 0,
    ensures
        ({
            let level = display_level(stats, params, i);
            let product = i * single_value(params.contrast);
            &&& 0x100_0000 * (level * pow2(149)) <= 0x100_0001 * product
            &&& level < 255 ==> 0xff_ffff * product < 0x100_0000 * ((level + 1) * pow2(149))
        }),
{
    let u = pow2(149);
    let c = single_value(params.contrast);
    let x = i * c;
    lemma2_to64();
    lemma_pow2_pos(149);
    lemma_pow2_below(24, 149);
    assert(x >= 0 && x * u >= 0) by (nonlinear_arith)
        requires
            i >= 0,
            c >= 0,
            x == i * c,
    ;
    assert((i * u) * c == u * x && u * 1 == u) by (nonlinear_arith)
        requires
            x == i * c,
    ;
    lemma_rounded_scaled(24, x as nat, 1, u);
    let v = rounded(24, x as nat, 1);
    assert(fl_mul(24, 149, whole_single(i), c) == v);
    lemma_contrast_multiplies(whole_single(i), params.contrast);
    let level = contrasted(whole_single(i), params.contrast);
    assert(display_level(stats, params, i) == level);
    assert(v * 1 == v);
    if x >= pow2(23) {
        assert(1 * pow2(23) == pow2(23));
        lemma_rounded_near(24, x as nat, 1, 23);
        assert(pow2(24) == 0x100_0000);
        assert(-x <= 0x100_0000 * (v - x) <= x);
        assert(level * u <= v) by {
            if v >= 255 * u {
                assert(level == 255);
            }
        }
    } else {
        assert(1 * pow2(23) == pow2(23));
        lemma_rounded_upper(24, x as nat, 1, 1, 23);
        assert(v < 255 * u && level == 0) by (nonlinear_arith)
            requires
                v <= 0x80_0000,
                u >= 0x100_0000,
                v < 255 * u ==> level * u <= v < (level + 1) * u,
                0 <= level,
        ;
        assert(0 * u == 0 && 1 * u == u);
        assert(0xff_ffff * x < 0x100_0000 * u) by (nonlinear_arith)
            requires
                0 <= x < 0x80_0000,
                u >= 0x100_0000,
        ;
    }
}

/// The stages of the transform: a level is stretched to its part of the scale between the smallest
/// and the largest level, as far as that is asked for and they differ, then multiplied by the
/// contrast, and then equalized, as far as that is asked for.
pub proof fn lemma_transform_stages(stats: Stats, params: LutParams, i: int)
    requires
        0 <= i <= 255,
    ensures
        params.autoscale && stats.min < stats.max ==> stretched(i, stats.min as int, stats.max as int, params.autoscale)
            == fl_div(24, 149, ((i - stats.min) * 255) * pow2(149), (stats.max - stats.min) * pow2(149)),
        !(params.autoscale && stats.min < stats.max) ==> stretched(
            i,
            stats.min as int,
            stats.max as int,
            params.autoscale,
        ) == i * pow2(149),
        mapped_levels(stats, params).len() == 256,
        mapped_levels(stats, params)[i] == contrasted(
            stretched(i, stats.min as int, stats.max as int, params.autoscale),
            params.contrast,
        ),
        !params.histeq ==> display_level(stats, params, i) == mapped_levels(stats, params)[i],
{
    lemma_contrast_multiplies(
        stretched(i, stats.min as int, stats.max as int, params.autoscale),
        params.contrast,
    );
}

/// Each pixel of a plane is drawn at its own column and row, with the bytes of its level's color.
pub proof fn lemma_blit_bytes(
    plane: Seq<u8>,
    lut: Seq<u32>,
    pitch: int,
    width: int,
    old: Seq<u8>,
    new: Seq<u8>,
    x: int,
    y: int,
)
    requires
        painted(
            (Window { pitch, w: width, h: plane.len() as int / width }),
            old,
            new,
            plane_ink(plane, lut, width),
        ),
        width > 0,
        0 <= x < width,
        0 <= y,
        y * width + width <= plane.len(),
    ensures
        ({
            let o = y * pitch + 4 * x;
            let c = lut[plane[y * width + x] as int] as int;
            &&& new[o] as int == c % 0x100
            &&& new[o + 1] as int == c / 0x100 % 0x100
            &&& new[o + 2] as int == c / 0x1_0000 % 0x100
            &&& new[o + 3] as int == c / 0x100_0000
        }),
{
    let win = Window { pitch, w: width, h: plane.len() as int / width };
    lemma_fundamental_div_mod(plane.len() as int, width);
    let h = win.h;
    assert(y < h) by (nonlinear_arith)
        requires
            y * width + width <= plane.len(),
            plane.len() == width * h + plane.len() as int % width,
            plane.len() as int % width < width,
            width > 0,
    ;
    lemma_painted_bytes(win, old, new, plane_ink(plane, lut, width), x, y);
}

/// The rows of a color bar go down the palette evenly from its last color, each row in one opaque
/// color, and columns before the bar are left alone.
pub proof fn lemma_bar_rows(palette: Lut, x_off: int, height: int, x: int, y: int)
    requires
        height >= 2,
        0 <= y < height,
    ensures
        ({
            let level = bar_level(y, height);
            let n = height - 1;
            let rgb = palette@[level];
            let ink = bar_ink(palette, x_off, height)(x, y);
            &&& 0 <= level <= 255
            &&& (255 - level) * n <= 255 * y < (256 - level) * n
            &&& x < x_off ==> ink is None
            &&& x >= x_off ==> ink is Some && ink.unwrap() as int == 255 * 0x100_0000 + rgb@[0] * 0x1_0000 + rgb@[1]
                * 0x100 + rgb@[2]
        }),
{
    let n = height - 1;
    let q = (y * 255) / n;
    lemma_fundamental_div_mod(y * 255, n);
    assert(n * q == q * n && (q + 1) * n == q * n + n) by (nonlinear_arith);
    assert(0 <= q <= 255) by (nonlinear_arith)
        requires
            q * n <= y * 255 < q * n + n,
            0 <= y <= n,
            n > 0,
    ;
}

} // verus!
