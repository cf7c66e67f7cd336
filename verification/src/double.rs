//! Binary64 arithmetic on values of everyday size.

use crate::float::{fl_add, fl_div, fl_mul, fl_sub, nearest_whole, whole, Double};
use crate::rounding::{lemma_pow2_below, lemma_rounded_lower, lemma_rounded_upper, rounded_int};
use vstd::arithmetic::power2::{
    lemma2_to64, lemma2_to64_rest, lemma_pow2_adds, lemma_pow2_pos, lemma_pow2_unfold, pow2,
};
use vstd::prelude::*;

verus! {

/// The integer `n` as a binary64 value.
pub open spec fn whole_double(n: int) -> int {
    n * pow2(1074)
}

/// The sum of two binary64 values.
pub open spec fn double_add(x: int, y: int) -> int {
    fl_add(53, x, y)
}

/// The difference of two binary64 values.
pub open spec fn double_sub(x: int, y: int) -> int {
    fl_sub(53, x, y)
}

/// The product of two binary64 values.
pub open spec fn double_mul(x: int, y: int) -> int {
    fl_mul(53, 1074, x, y)
}

/// The quotient of two binary64 values.
pub open spec fn double_div(x: int, y: int) -> int {
    fl_div(53, 1074, x, y)
}

/// The binary64 value nearest to `n / d`.
pub open spec fn fraction(n: int, d: int) -> int {
    double_div(whole_double(n), whole_double(d))
}

/// A binary64 value cast to a byte: cut to an integer, and clamped.
pub open spec fn byte_of(v: int) -> int {
    if v < 0 {
        0
    } else if v >= whole_double(255) {
        255
    } else {
        whole(1074, v)
    }
}

/// A binary64 value rounded to the nearest byte.
pub open spec fn nearest_byte(v: int) -> int {
    if v < 0 {
        0
    } else if nearest_whole(1074, v) > 255 {
        255
    } else {
        nearest_whole(1074, v)
    }
}

/// Whether a value is within a power of two.
pub open spec fn within(v: int, k: nat) -> bool {
    -(pow2(k) as int) <= v <= pow2(k)
}

/// Rounding stays within a power of two.
proof fn lemma_rounded_within(n: int, d: nat, k: nat)
    requires
        d > 0,
        -(d * pow2(k)) <= n <= d * pow2(k),
    ensures
        within(rounded_int(53, n, d), k),
{
    lemma_pow2_pos(53);
    assert(1 * pow2(k) == pow2(k));
    if n < 0 {
        lemma_rounded_upper(53, (-n) as nat, d, 1, k);
    } else {
        lemma_rounded_upper(53, n as nat, d, 1, k);
    }
}

/// Whole numbers are within a power of two that their unit and size give.
pub proof fn lemma_whole_within(n: int, k: nat)
    requires
        -(pow2(k) as int) <= n <= pow2(k),
    ensures
        within(whole_double(n), k + 1074),
{
    lemma_pow2_adds(k, 1074);
    assert(-(pow2(k) * pow2(1074)) <= n * pow2(1074) <= pow2(k) * pow2(1074)) by (nonlinear_arith)
        requires
            -(pow2(k) as int) <= n <= pow2(k),
    ;
}

/// Adds two values of everyday size.
pub(crate) fn plus(x: &Double, y: &Double, k: Ghost<nat>) -> (r: Double)
    requires
        k@ <= 2000,
        within(x@, k@),
        within(y@, k@),
    ensures
        r@ == double_add(x@, y@),
        within(r@, k@ + 1),
{
    proof {
        lemma_pow2_unfold(k@ + 1);
        lemma_pow2_below(k@ + 1, 2097);
        lemma_rounded_within(x@ + y@, 1, k@ + 1);
    }
    x.plus(y)
}

/// Subtracts two values of everyday size.
pub(crate) fn minus(x: &Double, y: &Double, k: Ghost<nat>) -> (r: Double)
    requires
        k@ <= 2000,
        within(x@, k@),
        within(y@, k@),
    ensures
        r@ == double_sub(x@, y@),
        within(r@, k@ + 1),
{
    proof {
        lemma_pow2_unfold(k@ + 1);
        lemma_pow2_below(k@ + 1, 2097);
        lemma_rounded_within(x@ - y@, 1, k@ + 1);
    }
    x.minus(y)
}

/// Multiplies two values of everyday size.
pub(crate) fn times(x: &Double, y: &Double, j: Ghost<nat>, k: Ghost<nat>) -> (r: Double)
    requires
        1074 <= j@ + k@ <= 3000,
        within(x@, j@),
        within(y@, k@),
    ensures
        r@ == double_mul(x@, y@),
        within(r@, (j@ + k@ - 1074) as nat),
{
    proof {
        let m = (j@ + k@ - 1074) as nat;
        lemma_pow2_adds(j@, k@);
        lemma_pow2_adds(m, 1074);
        lemma_pow2_pos(1074);
        lemma_pow2_below(m, 2097);
        assert(-(pow2(j@) * pow2(k@)) <= x@ * y@ <= pow2(j@) * pow2(k@)) by (nonlinear_arith)
            requires
                -(pow2(j@) as int) <= x@ <= pow2(j@),
                -(pow2(k@) as int) <= y@ <= pow2(k@),
        ;
        assert(pow2(m) * pow2(1074) <= pow2(2097) * pow2(1074)) by (nonlinear_arith)
            requires
                pow2(m) <= pow2(2097),
        ;
        assert(pow2(1074) * pow2(m) == pow2(m) * pow2(1074)) by (nonlinear_arith);
        lemma_rounded_within(x@ * y@, pow2(1074), m);
    }
    x.times(y)
}

/// Divides by a value that is not too small.
pub(crate) fn over(x: &Double, y: &Double, j: Ghost<nat>, k: Ghost<nat>) -> (r: Double)
    requires
        k@ <= j@ + 1074 <= k@ + 2000,
        within(x@, j@),
        y@ >= pow2(k@),
    ensures
        r@ == double_div(x@, y@),
        within(r@, (j@ + 1074 - k@) as nat),
{
    proof {
        let m = (j@ + 1074 - k@) as nat;
        let u = pow2(1074);
        lemma_pow2_adds(j@, 1074);
        lemma_pow2_adds(m, k@);
        lemma_pow2_pos(k@);
        lemma_pow2_pos(1074);
        lemma_pow2_pos(m);
        lemma_pow2_below(m, 2097);
        assert(-(y@ * pow2(m)) <= x@ * u <= y@ * pow2(m)) by (nonlinear_arith)
            requires
                -(pow2(j@) as int) <= x@ <= pow2(j@),
                pow2(j@) * u == pow2(m) * pow2(k@),
                y@ >= pow2(k@),
                u > 0,
                pow2(m) > 0,
        ;
        assert(-(pow2(2097) * y@) <= x@ * u <= pow2(2097) * y@) by (nonlinear_arith)
            requires
                -(y@ * pow2(m)) <= x@ * u <= y@ * pow2(m),
                pow2(m) <= pow2(2097),
                y@ > 0,
        ;
        lemma_rounded_within(x@ * u, y@ as nat, m);
    }
    x.over(y)
}

/// The integer `n`.
pub fn integer(n: u32) -> (r: Double)
    ensures
        r@ == whole_double(n as int),
        within(r@, 1106),
        n > 0 ==> r@ >= pow2(1074),
{
    proof {
        lemma2_to64();
        lemma2_to64_rest();
        lemma_whole_within(n as int, 32);
        lemma_pow2_pos(1074);
        if n > 0 {
            assert(n * pow2(1074) >= pow2(1074)) by (nonlinear_arith)
                requires
                    n >= 1,
            ;
        }
    }
    Double::from_int(n as u64)
}

/// The value nearest to `n / d`.
pub fn ratio(n: u32, d: u32) -> (r: Double)
    requires
        d > 0,
    ensures
        r@ == fraction(n as int, d as int),
        within(r@, 1106),
        n > 0 ==> r@ >= pow2(1042),
{
    let x = integer(n);
    let y = integer(d);
    proof {
        if n > 0 {
            let u = pow2(1074);
            lemma2_to64();
            lemma2_to64_rest();
            lemma_pow2_pos(53);
            lemma_pow2_pos(1042);
            lemma_pow2_pos(1074);
            lemma_pow2_adds(32, 1042);
            assert(1 * pow2(1042) == pow2(1042));
            assert(n * u * u >= d * u * pow2(1042)) by (nonlinear_arith)
                requires
                    n >= 1,
                    d <= pow2(32),
                    u == pow2(32) * pow2(1042),
                    u > 0,
                    pow2(1042) > 0,
            ;
            assert(y@ > 0) by (nonlinear_arith)
                requires
                    y@ == d * u,
                    d > 0,
                    u > 0,
            ;
            lemma_rounded_lower(53, (x@ * u) as nat, y@ as nat, 1, 1042);
        }
    }
    over(&x, &y, Ghost(1106), Ghost(1074))
}

/// Casts a value to a byte.
pub fn to_byte(v: &Double) -> (r: u8)
    ensures
        r == byte_of(v@),
{
    let zero = integer(0);
    let top = integer(255);
    proof {
        lemma2_to64_rest();
        lemma_pow2_pos(1074);
        assert(0 * pow2(1074) == 0);
    }
    if v.lt(&zero) {
        0
    } else if !v.lt(&top) {
        255
    } else {
        proof {
            let u = pow2(1074);
            assert(255 * u <= pow2(63) * u) by (nonlinear_arith)
                requires
                    pow2(63) >= 255,
            ;
            assert(v@ / (u as int) < 255) by (nonlinear_arith)
                requires
                    0 <= v@ < 255 * u,
                    u > 0,
            ;
        }
        v.floor() as u8
    }
}

/// Rounds a value to the nearest byte.
pub fn to_nearest_byte(v: &Double) -> (r: u8)
    requires
        within(v@, 1130),
    ensures
        r == nearest_byte(v@),
{
    let zero = integer(0);
    proof {
        lemma2_to64();
        lemma2_to64_rest();
        lemma_pow2_pos(1074);
        lemma_pow2_adds(62, 1074);
        lemma_pow2_below(1130, 1136);
        assert(0 * pow2(1074) == 0);
    }
    if v.lt(&zero) {
        0
    } else {
        let n: u64 = v.round();
        if n > 255 {
            255
        } else {
            n as u8
        }
    }
}

} // verus!
