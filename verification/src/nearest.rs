//! What the arithmetic of the floating point formats guarantees: each operation returns the value of
//! the format that is nearest to the exact result.

use crate::double::{
    byte_of, double_add, double_div, double_mul, double_sub, fraction, nearest_byte, whole_double,
};
use crate::float::{
    fl_add, fl_div, fl_mul, fl_sub, nearest_whole, single_exponent, single_value, whole,
};
use crate::rounding::{
    lemma_halving_decreases, lemma_rounded_form, lemma_rounded_wide, lemma_rounded_zero, nearest_even,
    rounded, rounded_int,
};
use vstd::arithmetic::div_mod::{lemma_fundamental_div_mod, lemma_fundamental_div_mod_converse};
use vstd::arithmetic::power2::{lemma2_to64, lemma_pow2_adds, lemma_pow2_pos, lemma_pow2_unfold, pow2};
use vstd::prelude::*;

verus! {

/// No value of the format is nearer to a quotient than the rounded one.
pub proof fn lemma_rounded_nearest(p: nat, n: nat, d: nat, m: nat, k: nat)
    requires
        p >= 1,
        d > 0,
        m <= pow2(p),
    ensures
        ({
            let e = rounded(p, n, d) * d - n;
            let f = (m * pow2(k)) * d - n;
            &&& e <= f || e <= -f
            &&& -e <= f || -e <= -f
        }),
    decreases n / d,
{
    let v = rounded(p, n, d);
    let y = m * pow2(k);
    lemma_pow2_pos(p);
    lemma_pow2_pos(k);
    if n < d * pow2(p) {
        let q = n / d;
        let r = n % d;
        lemma_fundamental_div_mod(n as int, d as int);
        assert(({
            let e = v * d - n;
            let f = y * d - n;
            &&& e <= f || e <= -f
            &&& -e <= f || -e <= -f
        })) by (nonlinear_arith)
            requires
                n == d * q + r,
                0 <= r < d,
                (v == q && 2 * r <= d) || (v == q + 1 && 2 * r >= d),
        ;
    } else {
        lemma_halving_decreases(p, n, d);
        let w = rounded(p, n, 2 * d);
        assert(v == 2 * w);
        assert((2 * w) * d == w * (2 * d)) by (nonlinear_arith);
        if k > 0 {
            lemma_rounded_nearest(p, n, 2 * d, m, (k - 1) as nat);
            lemma_pow2_unfold(k);
            assert((m * pow2((k - 1) as nat)) * (2 * d) == (m * pow2(k)) * d) by (nonlinear_arith)
                requires
                    pow2(k) == 2 * pow2((k - 1) as nat),
            ;
        } else {
            let h = pow2((p - 1) as nat);
            lemma2_to64();
            lemma_pow2_unfold(p);
            lemma_rounded_nearest(p, n, 2 * d, h, 0);
            assert((h * pow2(0)) * (2 * d) == pow2(p) * d) by (nonlinear_arith)
                requires
                    pow2(0) == 1,
                    pow2(p) == 2 * h,
            ;
            assert((m * pow2(0)) * d <= pow2(p) * d) by (nonlinear_arith)
                requires
                    m <= pow2(p),
                    pow2(0) == 1,
            ;
            assert(pow2(p) * d == d * pow2(p)) by (nonlinear_arith);
        }
    }
}

/// A quotient halfway between two neighbors goes to the one with the even significand.
pub proof fn lemma_rounded_ties(p: nat, n: nat, d: nat, q: nat, k: nat)
    requires
        p >= 1,
        d > 0,
        q < pow2(p),
        k > 0 ==> q >= pow2((p - 1) as nat),
        2 * n == ((2 * q + 1) * pow2(k)) * d,
    ensures
        q % 2 == 0 ==> rounded(p, n, d) == q * pow2(k),
        q % 2 == 1 ==> rounded(p, n, d) == (q + 1) * pow2(k),
{
    lemma_pow2_pos(k);
    lemma_pow2_pos(p);
    let w = pow2(k);
    let c = d * w;
    assert(c > 0 && 2 * n == 2 * (q * c) + c) by (nonlinear_arith)
        requires
            d > 0,
            w > 0,
            c == d * w,
            2 * n == ((2 * q + 1) * w) * d,
    ;
    if k > 0 {
        lemma_pow2_adds((p - 1) as nat, k);
        let h = pow2((p - 1) as nat);
        assert(2 * n >= 2 * (d * (h * w))) by (nonlinear_arith)
            requires
                2 * n == 2 * (q * c) + c,
                c == d * w,
                c > 0,
                q >= h,
        ;
        lemma_rounded_wide(p, n, d, k);
    } else {
        lemma2_to64();
        assert(c == d);
        assert(w * rounded(p, n, c) == rounded(p, n, c));
    }
    lemma_fundamental_div_mod_converse(n as int, c as int, q as int, n - q * c);
    assert(n < c * pow2(p)) by (nonlinear_arith)
        requires
            2 * n == 2 * (q * c) + c,
            q + 1 <= pow2(p),
            c > 0,
    ;
    assert(rounded(p, n, c) == nearest_even(n, c));
    assert(w * q == q * w && w * (q + 1) == (q + 1) * w) by (nonlinear_arith);
}

/// A rounded quotient has the sign of the quotient, and its size does not depend on the sign.
pub proof fn lemma_rounded_sign(p: nat, n: nat, d: nat)
    requires
        d > 0,
    ensures
        rounded_int(p, n as int, d) == rounded(p, n, d),
        rounded_int(p, -(n as int), d) == -(rounded(p, n, d) as int),
{
    if n == 0 {
        lemma_rounded_zero(p, d);
    }
}

/// A sum is the value of the format nearest to the exact sum.
pub proof fn lemma_add_nearest(p: nat, x: int, y: int, m: nat, k: nat)
    requires
        p >= 1,
        m <= pow2(p),
        x + y >= 0,
    ensures
        ({
            let e = fl_add(p, x, y) - (x + y);
            let f = m * pow2(k) - (x + y);
            &&& e <= f || e <= -f
            &&& -e <= f || -e <= -f
        }),
        fl_add(p, -x, -y) == -fl_add(p, x, y),
        fl_sub(p, x, -y) == fl_add(p, x, y),
        fl_sub(p, -x, y) == -fl_add(p, x, y),
{
    lemma_rounded_nearest(p, (x + y) as nat, 1, m, k);
    lemma_rounded_sign(p, (x + y) as nat, 1);
    assert(-x + -y == -(x + y) && x - (-y) == x + y && -x - y == -(x + y));
    assert(rounded(p, (x + y) as nat, 1) * 1 == rounded(p, (x + y) as nat, 1));
    assert((m * pow2(k)) * 1 == m * pow2(k));
}

/// A product is the value of the format nearest to the exact product.
pub proof fn lemma_mul_nearest(p: nat, b: nat, x: nat, y: nat, m: nat, k: nat)
    requires
        p >= 1,
        m <= pow2(p),
    ensures
        ({
            let u = pow2(b);
            let e = fl_mul(p, b, x as int, y as int) * u - x * y;
            let f = (m * pow2(k)) * u - x * y;
            &&& e <= f || e <= -f
            &&& -e <= f || -e <= -f
        }),
        fl_mul(p, b, -(x as int), y as int) == -fl_mul(p, b, x as int, y as int),
        fl_mul(p, b, x as int, -(y as int)) == -fl_mul(p, b, x as int, y as int),
        fl_mul(p, b, -(x as int), -(y as int)) == fl_mul(p, b, x as int, y as int),
{
    lemma_pow2_pos(b);
    assert(x * y >= 0) by (nonlinear_arith);
    assert(-(x as int) * y == -(x * y) && x * -(y as int) == -(x * y) && (-(x as int)) * (-(y as int)) == x * y)
        by (nonlinear_arith);
    lemma_rounded_nearest(p, (x * y) as nat, pow2(b), m, k);
    lemma_rounded_sign(p, (x * y) as nat, pow2(b));
}

/// A quotient is the value of the format nearest to the exact quotient.
pub proof fn lemma_div_nearest(p: nat, b: nat, x: nat, y: nat, m: nat, k: nat)
    requires
        p >= 1,
        m <= pow2(p),
        y > 0,
    ensures
        ({
            let e = fl_div(p, b, x as int, y as int) * y - x * pow2(b);
            let f = (m * pow2(k)) * y - x * pow2(b);
            &&& e <= f || e <= -f
            &&& -e <= f || -e <= -f
        }),
        fl_div(p, b, -(x as int), y as int) == -fl_div(p, b, x as int, y as int),
{
    assert(x * pow2(b) >= 0) by (nonlinear_arith);
    assert(-(x as int) * pow2(b) == -(x * pow2(b))) by (nonlinear_arith);
    lemma_rounded_nearest(p, x * pow2(b), y, m, k);
    lemma_rounded_sign(p, x * pow2(b), y);
}

/// What an operation returns is a value of the format: a significand of at most `p` bits, or the
/// next power of two, times a power of two.
pub proof fn lemma_format_values(p: nat, b: nat, x: nat, y: nat) -> (r: ((nat, nat), (nat, nat), (nat, nat)))
    requires
        p >= 1,
    ensures
        r.0.0 <= pow2(p),
        r.1.0 <= pow2(p),
        r.2.0 <= pow2(p),
        fl_add(p, x as int, y as int) == r.0.0 * pow2(r.0.1),
        fl_mul(p, b, x as int, y as int) == r.1.0 * pow2(r.1.1),
        y > 0 ==> fl_div(p, b, x as int, y as int) == r.2.0 * pow2(r.2.1),
{
    lemma_pow2_pos(b);
    assert(x * y >= 0 && x * pow2(b) >= 0) by (nonlinear_arith);
    let s = lemma_rounded_form(p, x + y, 1);
    let t = lemma_rounded_form(p, (x * y) as nat, pow2(b));
    let q = if y > 0 {
        lemma_rounded_form(p, x * pow2(b), y)
    } else {
        (0nat, 0nat)
    };
    (s, t, q)
}

/// Binary64 values have significands of 53 bits and count in units of `2^-1074`.
pub proof fn lemma_double_format(x: int, y: int, n: int)
    ensures
        whole_double(n) == n * pow2(1074),
        double_add(x, y) == fl_add(53, x, y),
        double_sub(x, y) == fl_sub(53, x, y),
        double_mul(x, y) == fl_mul(53, 1074, x, y),
        double_div(x, y) == fl_div(53, 1074, x, y),
        fraction(x, y) == fl_div(53, 1074, x * pow2(1074), y * pow2(1074)),
{
}

/// The integer part of a value is the integer at or below it that is less than one away, and the
/// nearest integer is at most a half away, below only if it is less than a half.
pub proof fn lemma_integers_of(b: nat, x: int)
    requires
        x >= 0,
    ensures
        whole(b, x) * pow2(b) <= x < (whole(b, x) + 1) * pow2(b),
        2 * (nearest_whole(b, x) * pow2(b) - x) <= pow2(b),
        2 * (x - nearest_whole(b, x) * pow2(b)) < pow2(b),
{
    let u = pow2(b) as int;
    lemma_pow2_pos(b);
    lemma_fundamental_div_mod(x, u);
    lemma_fundamental_div_mod(2 * x + u, 2 * u);
    let (q, r) = (whole(b, x), nearest_whole(b, x));
    assert(u * q == q * u && (q + 1) * u == q * u + u && (2 * u) * r == 2 * (r * u)) by (nonlinear_arith);
}

/// A value as a byte is its integer part, or the nearest integer, as far as that is a byte: values
/// below zero give 0 and values beyond 255 give 255.
pub proof fn lemma_bytes_of(v: int)
    ensures
        0 <= byte_of(v) <= 255,
        0 <= nearest_byte(v) <= 255,
        v < 0 ==> byte_of(v) == 0 && nearest_byte(v) == 0,
        v >= 255 * pow2(1074) ==> byte_of(v) == 255 && nearest_byte(v) == 255,
        0 <= v < 255 * pow2(1074) ==> {
            &&& byte_of(v) * pow2(1074) <= v < (byte_of(v) + 1) * pow2(1074)
            &&& 2 * (nearest_byte(v) * pow2(1074) - v) <= pow2(1074)
            &&& 2 * (v - nearest_byte(v) * pow2(1074)) < pow2(1074)
        },
{
    let u = pow2(1074) as int;
    lemma_pow2_pos(1074);
    if v >= 0 {
        lemma_integers_of(1074, v);
        let (q, r) = (whole(1074, v), nearest_whole(1074, v));
        assert(v < 255 * u ==> 0 <= q < 255) by (nonlinear_arith)
            requires
                q * u <= v < (q + 1) * u,
                v >= 0,
                u > 0,
        ;
        assert(r >= 0 && (v < 255 * u ==> r <= 255) && (v >= 255 * u ==> r >= 255)) by (nonlinear_arith)
            requires
                2 * (r * u - v) <= u,
                2 * (v - r * u) < u,
                v >= 0,
                u > 0,
        ;
    }
}

/// Binary32 bits count upwards from zero: each step is one unit of the last place, which doubles
/// with the exponent, and the sign bit turns a value into its opposite.
pub proof fn lemma_single_steps(bits: u32)
    requires
        bits < 0x7f7f_ffff,
    ensures
        single_value(0) == 0,
        ({
            let exponent = bits as int / 0x80_0000;
            single_value((bits + 1) as u32) - single_value(bits) == pow2(
                (if exponent > 0 {
                    exponent - 1
                } else {
                    0
                }) as nat,
            )
        }),
        single_value((bits + 0x8000_0000) as u32) == -single_value(bits),
        single_exponent(bits) < 0xff,
        single_exponent((bits + 0x8000_0000) as u32) < 0xff,
{
    let e = bits as int / 0x80_0000;
    let f = bits as int % 0x80_0000;
    let next = (bits + 1) as u32;
    lemma2_to64();
    assert(e < 0xff);
    assert(single_exponent(bits) == e);
    assert((bits as int + 0x8000_0000) / 0x80_0000 % 0x100 == e);
    assert((bits as int + 0x8000_0000) % 0x80_0000 == f);
    if f < 0x7f_ffff {
        assert(next as int / 0x80_0000 == e && next as int % 0x80_0000 == f + 1);
        if e > 0 {
            let w = pow2((e - 1) as nat);
            assert((0x80_0000 + f + 1) * w - (0x80_0000 + f) * w == w) by (nonlinear_arith);
        }
    } else {
        assert(next as int / 0x80_0000 == e + 1 && next as int % 0x80_0000 == 0);
        if e > 0 {
            let w = pow2((e - 1) as nat);
            lemma_pow2_unfold(e as nat);
            assert(0x80_0000 * (2 * w) - (0x80_0000 + 0x7f_ffff) * w == w) by (nonlinear_arith);
        } else {
            assert(0x80_0000 * 1 == 0x80_0000);
        }
    }
}

} // verus!
