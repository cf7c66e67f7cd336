//! Round-to-nearest-even as a function on natural numbers.
//!
//! A binary floating point format with `p` significand bits and smallest
//! positive value `u` holds, as its non-negative values, multiples of `u`.
//! Counted in units of `u`, every value of the format is a natural number,
//! and an operation of the format returns its exact result rounded by
//! [`rounded`]. Results beyond the largest finite value are outside this model.

use vstd::arithmetic::div_mod::{
    lemma_div_denominator, lemma_fundamental_div_mod, lemma_fundamental_div_mod_converse,
};
use vstd::arithmetic::mul::lemma_mul_is_commutative;
use vstd::arithmetic::power2::{
    lemma_pow2_adds, lemma_pow2_pos, lemma_pow2_strictly_increases, lemma_pow2_unfold, pow2,
};
use vstd::prelude::*;

verus! {

/// The integer nearest to `n / d`; of two equally near ones, the even one.
pub open spec fn nearest_even(n: nat, d: nat) -> nat {
    let q = n / d;
    let r = n % d;
    if 2 * r < d || (2 * r == d && q % 2 == 0) {
        q
    } else {
        q + 1
    }
}

/// `n / d` rounded to `p` significant bits, ties to even, and never to
/// anything finer than an integer.
pub open spec fn rounded(p: nat, n: nat, d: nat) -> nat
    decreases n / d,
{
    if d == 0 || n < d * pow2(p) {
        nearest_even(n, d)
    } else {
        proof {
            lemma_halving_decreases(p, n, d);
        }
        2 * rounded(p, n, 2 * d)
    }
}

/// [`rounded`] for a numerator of either sign: symmetric about zero.
pub open spec fn rounded_int(p: nat, n: int, d: nat) -> int {
    if n < 0 {
        -(rounded(p, (-n) as nat, d) as int)
    } else {
        rounded(p, n as nat, d) as int
    }
}

/// Doubling the denominator of a quotient of at least one makes it smaller.
pub proof fn lemma_halving_decreases(p: nat, n: nat, d: nat)
    requires
        d > 0,
        n >= d * pow2(p),
    ensures
        n / (2 * d) < n / d,
{
    lemma_pow2_pos(p);
    assert(n >= d) by (nonlinear_arith)
        requires
            n >= d * pow2(p),
            pow2(p) >= 1,
    ;
    lemma_div_denominator(n as int, d as int, 2);
    assert(d * 2 == 2 * d);
    assert(n / d >= 1) by (nonlinear_arith)
        requires
            n >= d,
            d > 0,
    ;
}

/// Doubling numerator and denominator changes nothing.
pub proof fn lemma_nearest_scaled(n: nat, d: nat, c: nat)
    requires
        d > 0,
        c > 0,
    ensures
        c * d > 0,
        nearest_even(c * n, c * d) == nearest_even(n, d),
{
    let q = n / d;
    let r = n % d;
    lemma_fundamental_div_mod(n as int, d as int);
    assert(c * d > 0) by (nonlinear_arith)
        requires
            c > 0,
            d > 0,
    ;
    assert(c * n == (c * d) * q + c * r) by (nonlinear_arith)
        requires
            n == d * q + r,
    ;
    assert(0 <= c * r < c * d) by (nonlinear_arith)
        requires
            0 <= r < d,
            c > 0,
    ;
    assert((c * d) * q == q * (c * d)) by (nonlinear_arith);
    lemma_fundamental_div_mod_converse((c * n) as int, (c * d) as int, q as int, (c * r) as int);
    assert((2 * (c * r) < c * d) == (2 * r < d)) by (nonlinear_arith)
        requires
            c > 0,
    ;
    assert((2 * (c * r) == c * d) == (2 * r == d)) by (nonlinear_arith)
        requires
            c > 0,
    ;
}

/// The rounding depends on the quotient alone.
pub proof fn lemma_rounded_scaled(p: nat, n: nat, d: nat, c: nat)
    requires
        d > 0,
        c > 0,
    ensures
        c * d > 0,
        rounded(p, c * n, c * d) == rounded(p, n, d),
    decreases n / d,
{
    lemma_nearest_scaled(n, d, c);
    assert((c * n < (c * d) * pow2(p)) == (n < d * pow2(p))) by (nonlinear_arith)
        requires
            c > 0,
    ;
    if n >= d * pow2(p) {
        lemma_halving_decreases(p, n, d);
        lemma_rounded_scaled(p, n, 2 * d, c);
        assert(c * (2 * d) == 2 * (c * d)) by (nonlinear_arith);
    }
}

/// A quotient of full width may be scaled by a power of two after rounding.
pub proof fn lemma_rounded_shift(p: nat, n: nat, d: nat, k: nat)
    requires
        p >= 1,
        d > 0,
        n >= d * pow2((p - 1) as nat),
    ensures
        rounded(p, n * pow2(k), d) == pow2(k) * rounded(p, n, d),
    decreases k,
{
    if k == 0 {
        assert(pow2(0) == 1) by {
            vstd::arithmetic::power2::lemma2_to64();
        }
        assert(n * 1 == n);
    } else {
        let j = (k - 1) as nat;
        lemma_rounded_shift(p, n, d, j);
        lemma_pow2_unfold(k);
        lemma_pow2_unfold(p);
        lemma_pow2_pos(j);
        let m = n * pow2(j);
        assert(n * pow2(k) == 2 * m) by (nonlinear_arith)
            requires
                m == n * pow2(j),
                pow2(k) == 2 * pow2(j),
        ;
        assert(m >= n) by (nonlinear_arith)
            requires
                m == n * pow2(j),
                pow2(j) >= 1,
        ;
        assert(2 * m >= d * pow2(p)) by (nonlinear_arith)
            requires
                m >= n,
                n >= d * pow2((p - 1) as nat),
                pow2(p) == 2 * pow2((p - 1) as nat),
        ;
        lemma_rounded_scaled(p, m, d, 2);
        assert(rounded(p, 2 * m, d) == 2 * rounded(p, 2 * m, 2 * d));
        assert(2 * (pow2(j) * rounded(p, n, d)) == pow2(k) * rounded(p, n, d)) by (nonlinear_arith)
            requires
                pow2(k) == 2 * pow2(j),
        ;
    }
}

/// A wide numerator is rounded by dividing out the excess bits first.
pub proof fn lemma_rounded_wide(p: nat, n: nat, d: nat, k: nat)
    requires
        p >= 1,
        d > 0,
        n >= d * pow2((p + k - 1) as nat),
    ensures
        d * pow2(k) > 0,
        rounded(p, n, d) == pow2(k) * rounded(p, n, d * pow2(k)),
    decreases k,
{
    lemma_pow2_pos(k);
    assert(d * pow2(k) > 0) by (nonlinear_arith)
        requires
            d > 0,
            pow2(k) > 0,
    ;
    if k == 0 {
        assert(pow2(0) == 1) by {
            vstd::arithmetic::power2::lemma2_to64();
        }
        assert(d * 1 == d);
    } else {
        let j = (k - 1) as nat;
        lemma_pow2_unfold(k);
        lemma_pow2_unfold((p + k - 1) as nat);
        lemma_pow2_adds(p, j);
        assert(p + j == p + k - 1);
        lemma_pow2_pos(j);
        assert(n >= d * pow2(p)) by (nonlinear_arith)
            requires
                n >= d * (pow2(p) * pow2(j)),
                pow2(j) >= 1,
        ;
        assert(n >= (2 * d) * pow2((p + j - 1) as nat)) by (nonlinear_arith)
            requires
                n >= d * pow2((p + k - 1) as nat),
                pow2((p + k - 1) as nat) == 2 * pow2((p + j - 1) as nat),
        ;
        lemma_rounded_wide(p, n, 2 * d, j);
        assert((2 * d) * pow2(j) == d * pow2(k)) by (nonlinear_arith)
            requires
                pow2(k) == 2 * pow2(j),
        ;
        let x = rounded(p, n, d * pow2(k));
        assert(2 * (pow2(j) * x) == pow2(k) * x) by (nonlinear_arith)
            requires
                pow2(k) == 2 * pow2(j),
        ;
    }
}

/// A value of at most `p` bits, shifted, is returned as it is.
pub proof fn lemma_rounded_exact(p: nat, m: nat, k: nat)
    requires
        p >= 1,
        m <= pow2(p),
    ensures
        rounded(p, m * pow2(k), 1) == m * pow2(k),
{
    lemma_rounded_upper(p, m * pow2(k), 1, m, k);
    lemma_rounded_lower(p, m * pow2(k), 1, m, k);
}

/// Rounding never passes a value of the format from below.
pub proof fn lemma_rounded_upper(p: nat, n: nat, d: nat, m: nat, k: nat)
    requires
        p >= 1,
        d > 0,
        m <= pow2(p),
        n <= d * (m * pow2(k)),
    ensures
        rounded(p, n, d) <= m * pow2(k),
    decreases n / d,
{
    let y = m * pow2(k);
    lemma_pow2_pos(p);
    lemma_pow2_pos(k);
    let q = n / d;
    let r = n % d;
    lemma_fundamental_div_mod(n as int, d as int);
    if n < d * pow2(p) {
        assert(q < y || (q == y && r == 0)) by (nonlinear_arith)
            requires
                n == d * q + r,
                0 <= r < d,
                n <= d * y,
        ;
    } else {
        lemma_halving_decreases(p, n, d);
        if k == 0 {
            assert(pow2(0) == 1) by {
                vstd::arithmetic::power2::lemma2_to64();
            }
            assert(m * 1 == m);
            assert(m == pow2(p)) by (nonlinear_arith)
                requires
                    n >= d * pow2(p),
                    n <= d * m,
                    m <= pow2(p),
                    d > 0,
            ;
            let h = pow2((p - 1) as nat);
            lemma_pow2_unfold(p);
            assert(n <= (2 * d) * (h * 1)) by (nonlinear_arith)
                requires
                    n <= d * m,
                    m == 2 * h,
            ;
            lemma_rounded_upper(p, n, 2 * d, h, 0);
            assert(h * 1 == h);
        } else {
            let j = (k - 1) as nat;
            lemma_pow2_unfold(k);
            assert(n <= (2 * d) * (m * pow2(j))) by (nonlinear_arith)
                requires
                    n <= d * (m * pow2(k)),
                    pow2(k) == 2 * pow2(j),
            ;
            lemma_rounded_upper(p, n, 2 * d, m, j);
            assert(2 * (m * pow2(j)) == m * pow2(k)) by (nonlinear_arith)
                requires
                    pow2(k) == 2 * pow2(j),
            ;
        }
    }
}

/// Rounding never passes a value of the format from above.
pub proof fn lemma_rounded_lower(p: nat, n: nat, d: nat, m: nat, k: nat)
    requires
        p >= 1,
        d > 0,
        m <= pow2(p),
        n >= d * (m * pow2(k)),
    ensures
        rounded(p, n, d) >= m * pow2(k),
    decreases n / d,
{
    let y = m * pow2(k);
    lemma_pow2_pos(p);
    lemma_pow2_pos(k);
    let q = n / d;
    let r = n % d;
    lemma_fundamental_div_mod(n as int, d as int);
    if n < d * pow2(p) {
        assert(q >= y) by (nonlinear_arith)
            requires
                n == d * q + r,
                0 <= r < d,
                n >= d * y,
        ;
    } else {
        lemma_halving_decreases(p, n, d);
        if k == 0 {
            assert(pow2(0) == 1) by {
                vstd::arithmetic::power2::lemma2_to64();
            }
            assert(m * 1 == m);
            // Half the format's largest significand is a value below `n / 2d`.
            let h = pow2((p - 1) as nat);
            lemma_pow2_unfold(p);
            assert(n >= (2 * d) * (h * 1)) by (nonlinear_arith)
                requires
                    n >= d * pow2(p),
                    pow2(p) == 2 * h,
            ;
            lemma_rounded_lower(p, n, 2 * d, h, 0);
            assert(h * 1 == h);
        } else {
            let j = (k - 1) as nat;
            lemma_pow2_unfold(k);
            assert(n >= (2 * d) * (m * pow2(j))) by (nonlinear_arith)
                requires
                    n >= d * (m * pow2(k)),
                    pow2(k) == 2 * pow2(j),
            ;
            lemma_rounded_lower(p, n, 2 * d, m, j);
            assert(2 * (m * pow2(j)) == m * pow2(k)) by (nonlinear_arith)
                requires
                    pow2(k) == 2 * pow2(j),
            ;
        }
    }
}

/// Equal quotients round alike.
pub proof fn lemma_rounded_same_quotient(p: nat, n: nat, d: nat, m: nat, c: nat)
    requires
        d > 0,
        c > 0,
        n * c == m * d,
    ensures
        rounded(p, n, d) == rounded(p, m, c),
{
    lemma_rounded_scaled(p, n, d, c);
    lemma_rounded_scaled(p, m, c, d);
    lemma_mul_is_commutative(n as int, c as int);
    lemma_mul_is_commutative(m as int, d as int);
    lemma_mul_is_commutative(c as int, d as int);
}

/// Zero is a value of every format.
pub proof fn lemma_rounded_zero(p: nat, d: nat)
    requires
        d > 0,
    ensures
        rounded(p, 0, d) == 0,
{
    lemma_pow2_pos(p);
    assert(0 < d * pow2(p)) by (nonlinear_arith)
        requires
            d > 0,
            pow2(p) > 0,
    ;
    assert(0nat / d == 0 && 0nat % d == 0) by (nonlinear_arith)
        requires
            d > 0,
    ;
}

/// Less than half of the smallest value rounds to zero.
pub proof fn lemma_rounded_tiny(p: nat, n: nat, d: nat)
    requires
        2 * n < d,
    ensures
        rounded(p, n, d) == 0,
{
    lemma_pow2_pos(p);
    assert(n < d * pow2(p)) by (nonlinear_arith)
        requires
            2 * n < d,
            pow2(p) >= 1,
    ;
    assert(n / d == 0 && n % d == n) by (nonlinear_arith)
        requires
            2 * n < d,
    ;
}

/// Adding less than a quarter of the last place of a full-width value is lost.
pub proof fn lemma_rounded_add_far(p: nat, m: nat, g: nat, n: nat)
    requires
        p >= 1,
        pow2((p - 1) as nat) <= m < pow2(p),
        g >= p + 2,
        n < pow2(p),
    ensures
        rounded(p, m * pow2(g) + n, 1) == m * pow2(g),
{
    let x = m * pow2(g) + n;
    lemma_pow2_adds((p - 1) as nat, g);
    lemma_pow2_adds(2, p);
    lemma_pow2_below((p + 2) as nat, g);
    vstd::arithmetic::power2::lemma2_to64();
    assert(x >= 1 * pow2((p + g - 1) as nat)) by (nonlinear_arith)
        requires
            x >= m * pow2(g),
            m >= pow2((p - 1) as nat),
            pow2((p + g - 1) as nat) == pow2((p - 1) as nat) * pow2(g),
    ;
    lemma_rounded_wide(p, x, 1, g);
    let d = pow2(g);
    assert(1 * d == d);
    lemma_fundamental_div_mod_converse(x as int, d as int, m as int, n as int);
    assert(x < d * pow2(p)) by (nonlinear_arith)
        requires
            x == m * d + n,
            n < d,
            m + 1 <= pow2(p),
    ;
    assert(nearest_even(x, d) == m);
    lemma_mul_is_commutative(d as int, m as int);
}

/// Subtracting less than a quarter of the last place of a full-width value is
/// lost.
pub proof fn lemma_rounded_sub_far(p: nat, m: nat, g: nat, n: nat)
    requires
        p >= 1,
        pow2((p - 1) as nat) <= m < pow2(p),
        g >= p + 3,
        n < pow2(p),
    ensures
        m * pow2(g) >= n,
        rounded(p, (m * pow2(g) - n) as nat, 1) == m * pow2(g),
{
    let h = pow2((p - 1) as nat);
    let w = pow2(g);
    let v = pow2((g - 1) as nat);
    lemma_pow2_adds((p - 1) as nat, g);
    lemma_pow2_adds(3, p);
    lemma_pow2_below((p + 3) as nat, g);
    lemma_pow2_unfold(g);
    lemma_pow2_unfold(p);
    lemma_pow2_unfold((p + g - 1) as nat);
    lemma_pow2_pos((p - 1) as nat);
    vstd::arithmetic::power2::lemma2_to64();
    assert(m * w >= w) by (nonlinear_arith)
        requires
            m >= 1,
    ;
    let x = (m * w - n) as nat;
    if n == 0 {
        lemma_rounded_exact(p, m, g);
    } else if m > h {
        assert(x >= 1 * pow2((p + g - 1) as nat)) by (nonlinear_arith)
            requires
                x == m * w - n,
                m >= h + 1,
                n <= w,
                pow2((p + g - 1) as nat) == h * w,
        ;
        lemma_rounded_wide(p, x, 1, g);
        assert(1 * w == w);
        assert(x == (m - 1) * w + (w - n)) by (nonlinear_arith)
            requires
                x == m * w - n,
        ;
        lemma_fundamental_div_mod_converse(x as int, w as int, m - 1, w - n);
        assert(x < w * pow2(p)) by (nonlinear_arith)
            requires
                x <= m * w,
                m < pow2(p),
                w >= 1,
        ;
        assert(nearest_even(x, w) == m);
        lemma_mul_is_commutative(w as int, m as int);
    } else {
        assert(h * w == 2 * (h * v)) by (nonlinear_arith)
            requires
                w == 2 * v,
        ;
        lemma_pow2_adds((p - 1) as nat, (g - 1) as nat);
        assert(h * v >= v) by (nonlinear_arith)
            requires
                h >= 1,
        ;
        assert(x >= 1 * pow2((p + (g - 1) - 1) as nat));
        lemma_rounded_wide(p, x, 1, (g - 1) as nat);
        assert(1 * v == v);
        assert(x == (2 * h - 1) * v + (v - n)) by (nonlinear_arith)
            requires
                x == m * w - n,
                m == h,
                w == 2 * v,
        ;
        lemma_fundamental_div_mod_converse(x as int, v as int, 2 * h - 1, v - n);
        assert(x < v * pow2(p)) by (nonlinear_arith)
            requires
                x == (2 * h - 1) * v + (v - n),
                pow2(p) == 2 * h,
                n >= 1,
        ;
        assert(nearest_even(x, v) == 2 * h);
        assert(v * (2 * h) == m * w) by (nonlinear_arith)
            requires
                m == h,
                w == 2 * v,
        ;
    }
}

/// Powers of two grow with their exponents.
pub proof fn lemma_pow2_below(a: nat, b: nat)
    ensures
        a <= b ==> pow2(a) <= pow2(b),
        a < b ==> pow2(a) < pow2(b),
{
    if a < b {
        lemma_pow2_strictly_increases(a, b);
    }
}

/// A rounded value is a significand times a power of two.
pub proof fn lemma_rounded_form(p: nat, n: nat, d: nat) -> (r: (nat, nat))
    requires
        d > 0,
    ensures
        r.0 <= pow2(p),
        rounded(p, n, d) == r.0 * pow2(r.1),
    decreases n / d,
{
    if n < d * pow2(p) {
        let q = n / d;
        lemma_fundamental_div_mod(n as int, d as int);
        assert(q < pow2(p)) by (nonlinear_arith)
            requires
                n == d * q + n % d,
                n % d >= 0,
                n < d * pow2(p),
        ;
        vstd::arithmetic::power2::lemma2_to64();
        let m = nearest_even(n, d);
        assert(m * 1 == m);
        (m, 0nat)
    } else {
        lemma_halving_decreases(p, n, d);
        let (m, k) = lemma_rounded_form(p, n, 2 * d);
        lemma_pow2_unfold((k + 1) as nat);
        assert(2 * (m * pow2(k)) == m * pow2((k + 1) as nat)) by (nonlinear_arith)
            requires
                pow2((k + 1) as nat) == 2 * pow2(k),
        ;
        (m, (k + 1) as nat)
    }
}

/// Rounding a rounded value changes nothing.
pub proof fn lemma_rounded_twice(p: nat, n: nat, d: nat)
    requires
        p >= 1,
        d > 0,
    ensures
        rounded(p, rounded(p, n, d), 1) == rounded(p, n, d),
{
    let (m, k) = lemma_rounded_form(p, n, d);
    lemma_rounded_exact(p, m, k);
}

/// A quotient that is not small is rounded to a millionth of it.
pub proof fn lemma_rounded_close(p: nat, n: nat, d: nat)
    requires
        p >= 21,
        d > 0,
        n >= d * 0x10_0000,
    ensures
        0xF_FFFF * n <= 0x10_0000 * (rounded(p, n, d) * d) <= 0x10_0001 * n,
    decreases n / d,
{
    let v = rounded(p, n, d);
    if n < d * pow2(p) {
        let q = n / d;
        let r = n % d;
        lemma_fundamental_div_mod(n as int, d as int);
        assert(-(d as int) <= 2 * (v * d - n) <= d) by (nonlinear_arith)
            requires
                n == d * q + r,
                0 <= r < d,
                (v == q && 2 * r <= d) || (v == q + 1 && 2 * r >= d),
        ;
    } else {
        lemma_halving_decreases(p, n, d);
        vstd::arithmetic::power2::lemma2_to64();
        lemma_pow2_below(21, p);
        assert(n >= (2 * d) * 0x10_0000) by (nonlinear_arith)
            requires
                n >= d * pow2(p),
                pow2(p) >= 0x20_0000,
        ;
        lemma_rounded_close(p, n, 2 * d);
        let w = rounded(p, n, 2 * d);
        assert(w * (2 * d) == v * d) by (nonlinear_arith)
            requires
                v == 2 * w,
        ;
    }
}

/// Rounding keeps the order.
pub proof fn lemma_rounded_monotone(p: nat, n: nat, m: nat, d: nat)
    requires
        p >= 1,
        d > 0,
        n <= m,
    ensures
        rounded(p, n, d) <= rounded(p, m, d),
    decreases m / d,
{
    if m < d * pow2(p) {
        let (q, r) = (n / d, n % d);
        let (s, t) = (m / d, m % d);
        lemma_fundamental_div_mod(n as int, d as int);
        lemma_fundamental_div_mod(m as int, d as int);
        assert(q < s || (q == s && r <= t)) by (nonlinear_arith)
            requires
                n == d * q + r,
                m == d * s + t,
                0 <= r < d,
                0 <= t < d,
                n <= m,
        ;
    } else if n < d * pow2(p) {
        let q = n / d;
        lemma_fundamental_div_mod(n as int, d as int);
        assert(q < pow2(p)) by (nonlinear_arith)
            requires
                n == d * q + n % d,
                n % d >= 0,
                n < d * pow2(p),
        ;
        vstd::arithmetic::power2::lemma2_to64();
        assert(pow2(p) * 1 == pow2(p));
        lemma_rounded_lower(p, m, d, pow2(p), 0);
    } else {
        lemma_halving_decreases(p, m, d);
        lemma_rounded_monotone(p, n, m, 2 * d);
    }
}

/// [`lemma_rounded_monotone`] for numerators of either sign.
pub proof fn lemma_rounded_int_monotone(p: nat, n: int, m: int, d: nat)
    requires
        p >= 1,
        d > 0,
        n <= m,
    ensures
        rounded_int(p, n, d) <= rounded_int(p, m, d),
{
    if m < 0 {
        lemma_rounded_monotone(p, (-m) as nat, (-n) as nat, d);
    } else if n >= 0 {
        lemma_rounded_monotone(p, n as nat, m as nat, d);
    }
}

/// A quotient of `j + 1` bits or more is rounded to half of its bit `j`.
pub proof fn lemma_rounded_near(p: nat, n: nat, d: nat, j: nat)
    requires
        p >= j + 1,
        d > 0,
        n >= d * pow2(j),
    ensures
        -(n as int) <= pow2((j + 1) as nat) * (rounded(p, n, d) * d - n) <= n,
    decreases n / d,
{
    let v = rounded(p, n, d);
    let w = pow2(j);
    let w2 = pow2((j + 1) as nat);
    lemma_pow2_unfold((j + 1) as nat);
    lemma_pow2_pos(j);
    if n < d * pow2(p) {
        let q = n / d;
        let r = n % d;
        lemma_fundamental_div_mod(n as int, d as int);
        let e = v * d - n;
        assert(-(d as int) <= 2 * e <= d) by (nonlinear_arith)
            requires
                e == v * d - n,
                n == d * q + r,
                0 <= r < d,
                (v == q && 2 * r <= d) || (v == q + 1 && 2 * r >= d),
        ;
        assert(-(n as int) <= w2 * e <= n) by (nonlinear_arith)
            requires
                -(d as int) <= 2 * e <= d,
                n >= d * w,
                w2 == 2 * w,
                w > 0,
        ;
    } else {
        lemma_halving_decreases(p, n, d);
        lemma_pow2_below((j + 1) as nat, p);
        assert(n >= (2 * d) * w) by (nonlinear_arith)
            requires
                n >= d * pow2(p),
                pow2(p) >= w2,
                w2 == 2 * w,
        ;
        lemma_rounded_near(p, n, 2 * d, j);
        let x = rounded(p, n, 2 * d);
        assert(x * (2 * d) == v * d) by (nonlinear_arith)
            requires
                v == 2 * x,
        ;
    }
}

} // verus!
