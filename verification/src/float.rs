//! Binary floating point arithmetic on integers.
//!
//! [`Float`] holds the finite values of a binary format exactly, and its
//! operations return the correctly rounded result, so that [`Double`] and
//! [`Single`] compute what the IEEE 754 formats binary64 and binary32 compute
//! as long as no result overflows. The sign of a zero is not kept.

use crate::rounding::{
    lemma_nearest_scaled, lemma_pow2_below, lemma_rounded_add_far, lemma_rounded_exact,
    lemma_rounded_same_quotient, lemma_rounded_shift, lemma_rounded_sub_far, lemma_rounded_tiny,
    lemma_rounded_upper, lemma_rounded_zero, nearest_even, rounded, rounded_int,
};
use vstd::arithmetic::div_mod::{lemma_fundamental_div_mod, lemma_fundamental_div_mod_converse};
use vstd::arithmetic::power2::{
    lemma2_to64, lemma2_to64_rest, lemma_pow2_adds, lemma_pow2_pos, lemma_pow2_strictly_increases,
    lemma_pow2_unfold, pow2,
};
use vstd::prelude::*;

verus! {

/// A finite value of the binary format with `P` significand bits whose
/// smallest positive value is 2 to the power of minus `B`.
#[derive(Clone, Copy)]
pub struct Float<const P: u32, const B: u32> {
    neg: bool,
    man: u64,
    exp: u32,
}

/// A finite value of the format binary64.
pub type Double = Float<53, 1074>;

/// A finite value of the format binary32.
pub type Single = Float<24, 149>;

/// Magnitudes that the formats are used for, in units of the smallest value.
pub open spec fn in_range(x: int) -> bool {
    -(pow2(2097) as int) <= x <= pow2(2097)
}

/// The significand and exponent of a magnitude: the significand has full
/// width unless the exponent is the smallest one.
pub open spec fn normal(p: nat, man: nat, exp: nat) -> bool {
    &&& man < pow2(p)
    &&& exp == 0 || man >= pow2((p - 1) as nat)
}

impl<const P: u32, const B: u32> View for Float<P, B> {
    type V = int;

    /// The value, counted in units of the smallest positive value.
    closed spec fn view(&self) -> int {
        if self.neg {
            -(self.man * pow2(self.exp as nat))
        } else {
            self.man * pow2(self.exp as nat)
        }
    }
}

/// The sum of two values of a format with `p` significand bits.
pub open spec fn fl_add(p: nat, x: int, y: int) -> int {
    rounded_int(p, x + y, 1)
}

/// The difference of two values of a format with `p` significand bits.
pub open spec fn fl_sub(p: nat, x: int, y: int) -> int {
    rounded_int(p, x - y, 1)
}

/// The product of two values of a format with `p` significand bits and the
/// unit `2^-b`.
pub open spec fn fl_mul(p: nat, b: nat, x: int, y: int) -> int {
    rounded_int(p, x * y, pow2(b))
}

/// The quotient of a value and a positive value of a format with `p`
/// significand bits and the unit `2^-b`.
pub open spec fn fl_div(p: nat, b: nat, x: int, y: int) -> int {
    rounded_int(p, x * pow2(b), y as nat)
}

/// The integer part of a non-negative value with the unit `2^-b`.
pub open spec fn whole(b: nat, x: int) -> int {
    x / (pow2(b) as int)
}

/// The integer nearest to a non-negative value with the unit `2^-b`, a half
/// rounded up.
pub open spec fn nearest_whole(b: nat, x: int) -> int {
    (2 * x + pow2(b)) / (2 * pow2(b) as int)
}

/// The power of two `1 << k`.
fn power(k: u32) -> (r: u64)
    requires
        k < 64,
    ensures
        r == pow2(k as nat),
{
    let mut r: u64 = 1;
    let mut i: u32 = 0;
    proof {
        lemma2_to64();
    }
    while i < k
        invariant
            i <= k,
            k < 64,
            r == pow2(i as nat),
        decreases k - i,
    {
        proof {
            lemma_pow2_unfold((i + 1) as nat);
            lemma_pow2_below((i + 1) as nat, 63);
            lemma2_to64_rest();
        }
        r = r * 2;
        i = i + 1;
    }
    r
}

/// Powers of two that stand as literals in the code.
proof fn lemma_pow2_literals()
    ensures
        pow2(60) == 0x1000_0000_0000_0000,
        pow2(116) == 0x10_0000_0000_0000_0000_0000_0000_0000,
        pow2(118) == 0x40_0000_0000_0000_0000_0000_0000_0000,
        pow2(120) == 0x1_0000_0000_0000_0000_0000_0000_0000_00,
{
    lemma2_to64_rest();
    lemma_pow2_adds(60, 60);
    lemma_pow2_adds(56, 60);
    lemma_pow2_adds(58, 60);
    assert(pow2(60) == 0x1000_0000_0000_0000);
    assert(0x1000_0000_0000_0000int * 0x1000_0000_0000_0000int == 0x1_0000_0000_0000_0000_0000_0000_0000_00int)
        by (nonlinear_arith);
    assert(0x100_0000_0000_0000int * 0x1000_0000_0000_0000int == 0x10_0000_0000_0000_0000_0000_0000_0000int)
        by (nonlinear_arith);
    assert(0x400_0000_0000_0000int * 0x1000_0000_0000_0000int == 0x40_0000_0000_0000_0000_0000_0000_0000int)
        by (nonlinear_arith);
}

/// Rounds `n * 2^s / d` to `p` significant bits.
fn round_shifted(p: u32, n0: u128, d0: u128, s0: u32) -> (r: (u64, u32))
    requires
        2 <= p <= 53,
        0 < d0 <= pow2(118),
        s0 == 0 || d0 <= pow2(60),
        n0 < pow2(120),
        s0 <= 10000,
    ensures
        r.0 * pow2(r.1 as nat) == rounded(p as nat, (n0 * pow2(s0 as nat)) as nat, d0 as nat),
        normal(p as nat, r.0 as nat, r.1 as nat),
        r.1 <= 10200,
{
    let ghost pn = p as nat;
    let ghost target = rounded(pn, (n0 * pow2(s0 as nat)) as nat, d0 as nat);
    let mut n: u128 = n0;
    let mut d: u128 = d0;
    let mut s: u32 = s0;
    proof {
        lemma_pow2_literals();
        lemma_pow2_below((p - 1) as nat, 52);
        lemma_pow2_unfold(pn);
        lemma_pow2_pos((p - 1) as nat);
        lemma2_to64();
        lemma2_to64_rest();
    }
    let half: u128 = power(p - 1) as u128;
    while s > 0 && n / d < half
        invariant
            0 < d == d0 <= pow2(118),
            s == 0 || d <= pow2(60),
            n < pow2(120),
            s <= s0 <= 10000,
            half == pow2((p - 1) as nat) <= 0x10_0000_0000_0000,
            pow2(60) == 0x1000_0000_0000_0000,
            pow2(120) == 0x1_0000_0000_0000_0000_0000_0000_0000_00,
            n * pow2(s as nat) == n0 * pow2(s0 as nat),
        decreases s,
    {
        proof {
            lemma_fundamental_div_mod(n as int, d as int);
            assert(n < 0x10_0000_0000_0000int * 0x1000_0000_0000_0000int) by (nonlinear_arith)
                requires
                    n == d * (n / d) + n % d,
                    0 <= n % d < d,
                    n / d < half,
                    half <= 0x10_0000_0000_0000,
                    d <= 0x1000_0000_0000_0000,
            ;
            lemma_pow2_unfold(s as nat);
            assert((n * 2) * pow2((s - 1) as nat) == n * pow2(s as nat)) by (nonlinear_arith)
                requires
                    pow2(s as nat) == 2 * pow2((s - 1) as nat),
            ;
        }
        n = n * 2;
        s = s - 1;
    }
    proof {
        lemma_fundamental_div_mod(n as int, d as int);
        if s > 0 {
            assert(n >= d * half) by (nonlinear_arith)
                requires
                    n == d * (n / d) + n % d,
                    0 <= n % d,
                    n / d >= half,
            ;
            lemma_rounded_shift(pn, n as nat, d as nat, s as nat);
        } else {
            assert(n * 1 == n);
        }
    }
    let ghost s1 = s;
    assert(pow2(118) <= pow2(120));
    while n / d >= 2 * half
        invariant
            0 < d <= pow2(120),
            n < pow2(120),
            s1 <= s <= s1 + 120,
            s1 <= 10000,
            pn == p,
            p >= 2,
            half == pow2((p - 1) as nat) <= 0x10_0000_0000_0000,
            pow2(pn) == 2 * half,
            half >= 1,
            pow2(60) == 0x1000_0000_0000_0000,
            pow2(120) == 0x1_0000_0000_0000_0000_0000_0000_0000_00,
            pow2((s - s1) as nat) <= d,
            s == 0 || n >= d * half,
            pow2(s as nat) * rounded(pn, n as nat, d as nat) == target,
        decreases n - d,
    {
        proof {
            lemma_fundamental_div_mod(n as int, d as int);
            assert(n >= d * (2 * half)) by (nonlinear_arith)
                requires
                    n == d * (n / d) + n % d,
                    0 <= n % d,
                    n / d >= 2 * half,
            ;
            assert(n >= (2 * d) * half) by (nonlinear_arith)
                requires
                    n >= d * (2 * half),
            ;
            assert(n >= 2 * d) by (nonlinear_arith)
                requires
                    n >= (2 * d) * half,
                    half >= 1,
            ;
            lemma_pow2_unfold((s + 1 - s1) as nat);
            lemma_pow2_unfold((s + 1) as nat);
            lemma_pow2_below(120, (s + 1 - s1) as nat);
            let x = rounded(pn, n as nat, (2 * d) as nat);
            assert(pow2(s as nat) * (2 * x) == pow2((s + 1) as nat) * x) by (nonlinear_arith)
                requires
                    pow2((s + 1) as nat) == 2 * pow2(s as nat),
            ;
        }
        d = d * 2;
        s = s + 1;
    }
    let q: u128 = n / d;
    let r: u128 = n % d;
    proof {
        lemma_fundamental_div_mod(n as int, d as int);
        assert(n < d * pow2(pn)) by (nonlinear_arith)
            requires
                n == d * q + r,
                r < d,
                q < pow2(pn),
        ;
        if s > 0 {
            assert(q >= half) by (nonlinear_arith)
                requires
                    n == d * q + r,
                    r < d,
                    n >= d * half,
            ;
        }
    }
    let up = !(2 * r < d || (2 * r == d && q % 2 == 0));
    let man: u128 = if up { q + 1 } else { q };
    assert(man == nearest_even(n as nat, d as nat));
    assert(pow2(s as nat) * man == man * pow2(s as nat)) by (nonlinear_arith);
    if man == 2 * half {
        proof {
            lemma_pow2_unfold((s + 1) as nat);
            assert(half * pow2((s + 1) as nat) == man * pow2(s as nat)) by (nonlinear_arith)
                requires
                    man == 2 * half,
                    pow2((s + 1) as nat) == 2 * pow2(s as nat),
            ;
        }
        (half as u64, s + 1)
    } else {
        (man as u64, s)
    }
}

/// Rounds `n / (d * 2^t)` to `p` significant bits.
fn round_divided(p: u32, n: u128, d0: u128, t0: u32) -> (r: (u64, u32))
    requires
        2 <= p <= 53,
        0 < d0 <= pow2(60),
        n < pow2(116),
    ensures
        r.0 * pow2(r.1 as nat) == rounded(p as nat, n as nat, (d0 * pow2(t0 as nat)) as nat),
        normal(p as nat, r.0 as nat, r.1 as nat),
        r.1 <= 10200,
{
    let mut d: u128 = d0;
    let mut t: u32 = t0;
    proof {
        lemma_pow2_literals();
        lemma2_to64();
        lemma_pow2_pos(p as nat);
    }
    while t > 0
        invariant
            2 <= p <= 53,
            0 < d <= pow2(118),
            n < pow2(116),
            pow2(0) == 1,
            pow2(p as nat) > 0,
            pow2(116) == 0x10_0000_0000_0000_0000_0000_0000_0000,
            pow2(118) == 0x40_0000_0000_0000_0000_0000_0000_0000,
            d * pow2(t as nat) == d0 * pow2(t0 as nat),
        decreases t,
    {
        if 2 * n < d {
            proof {
                lemma_pow2_pos(t as nat);
                assert(d * pow2(t as nat) >= d) by (nonlinear_arith)
                    requires
                        pow2(t as nat) >= 1,
                ;
                lemma_rounded_tiny(p as nat, n as nat, (d * pow2(t as nat)) as nat);
            }
            return (0, 0);
        }
        proof {
            lemma_pow2_unfold(t as nat);
            assert((d * 2) * pow2((t - 1) as nat) == d * pow2(t as nat)) by (nonlinear_arith)
                requires
                    pow2(t as nat) == 2 * pow2((t - 1) as nat),
            ;
        }
        d = d * 2;
        t = t - 1;
    }
    assert(d * 1 == d && n * 1 == n);
    round_shifted(p, n, d, 0)
}

/// With a larger exponent the full-width significand decides.
proof fn lemma_normal_order(p: nat, m: nat, e: nat, n: nat, f: nat)
    requires
        p >= 1,
        normal(p, m, e),
        normal(p, n, f),
        e > f,
    ensures
        m * pow2(e) > n * pow2(f),
        m > 0,
{
    lemma_pow2_unfold(p);
    lemma_pow2_adds((e - f) as nat, f);
    lemma_pow2_unfold((e - f) as nat);
    lemma_pow2_pos((e - f - 1) as nat);
    lemma_pow2_pos(f);
    lemma_pow2_pos((p - 1) as nat);
    let h = pow2((p - 1) as nat);
    let u = pow2((e - f - 1) as nat);
    assert(m * pow2(e) > n * pow2(f)) by (nonlinear_arith)
        requires
            m >= h,
            n < 2 * h,
            pow2(e) == (2 * u) * pow2(f),
            u >= 1,
            pow2(f) > 0,
            h >= 1,
    ;
}

/// A magnitude within a power of two has an exponent within it.
proof fn lemma_exponent_bound(m: nat, e: nat, k: nat)
    requires
        m > 0,
        m * pow2(e) <= pow2(k),
    ensures
        e <= k,
{
    if e > k {
        lemma_pow2_strictly_increases(k, e);
        assert(m * pow2(e) >= pow2(e)) by (nonlinear_arith)
            requires
                m >= 1,
        ;
    }
}

/// A result that is in range as an exact number is in range when rounded.
proof fn lemma_rounded_in_range(p: nat, n: nat, d: nat)
    requires
        p >= 1,
        d > 0,
        n <= d * pow2(2097),
    ensures
        rounded(p, n, d) <= pow2(2097),
{
    lemma_pow2_pos(p);
    assert(1 * pow2(2097) == pow2(2097));
    lemma_rounded_upper(p, n, d, 1, 2097);
}

/// Adds two magnitudes, the one with the larger exponent first.
fn add_magnitudes(p: u32, m: u64, e: u32, n: u64, f: u32) -> (r: (u64, u32))
    requires
        2 <= p <= 53,
        normal(p as nat, m as nat, e as nat),
        normal(p as nat, n as nat, f as nat),
        f <= e <= 2097,
    ensures
        r.0 * pow2(r.1 as nat) == rounded(
            p as nat,
            (m * pow2(e as nat) + n * pow2(f as nat)) as nat,
            1,
        ),
        normal(p as nat, r.0 as nat, r.1 as nat),
{
    let g: u32 = e - f;
    proof {
        lemma_pow2_literals();
        lemma2_to64();
        lemma2_to64_rest();
        lemma_pow2_below(p as nat, 53);
        lemma_pow2_adds(g as nat, f as nat);
        lemma_pow2_pos(f as nat);
        let a = m * pow2(g as nat) + n;
        assert(m * pow2(e as nat) + n * pow2(f as nat) == a * pow2(f as nat)) by (nonlinear_arith)
            requires
                a == m * pow2(g as nat) + n,
                pow2(e as nat) == pow2(g as nat) * pow2(f as nat),
        ;
    }
    if g < 60 {
        let w: u64 = power(g);
        proof {
            lemma_pow2_below(g as nat, 60);
            assert(m * w <= 0x20_0000_0000_0000int * 0x1000_0000_0000_0000int) by (nonlinear_arith)
                requires
                    m <= 0x20_0000_0000_0000,
                    w <= 0x1000_0000_0000_0000,
            ;
        }
        let a: u128 = m as u128 * w as u128 + n as u128;
        round_shifted(p, a, 1, f)
    } else {
        proof {
            let x = (m * pow2(g as nat)) as nat;
            lemma_rounded_add_far(p as nat, m as nat, g as nat, n as nat);
            lemma_pow2_pos(g as nat);
            assert(x >= pow2((p - 1) as nat)) by (nonlinear_arith)
                requires
                    x == m * pow2(g as nat),
                    m >= pow2((p - 1) as nat),
                    pow2(g as nat) >= 1,
            ;
            lemma_rounded_shift(p as nat, x + n as nat, 1, f as nat);
            assert(m * pow2(e as nat) == pow2(f as nat) * x) by (nonlinear_arith)
                requires
                    x == m * pow2(g as nat),
                    pow2(e as nat) == pow2(g as nat) * pow2(f as nat),
            ;
        }
        (m, e)
    }
}

/// Subtracts the smaller of two magnitudes from the larger one.
fn sub_magnitudes(p: u32, m: u64, e: u32, n: u64, f: u32) -> (r: (u64, u32))
    requires
        2 <= p <= 53,
        normal(p as nat, m as nat, e as nat),
        normal(p as nat, n as nat, f as nat),
        f <= e <= 2097,
        m * pow2(e as nat) >= n * pow2(f as nat),
    ensures
        r.0 * pow2(r.1 as nat) == rounded(
            p as nat,
            (m * pow2(e as nat) - n * pow2(f as nat)) as nat,
            1,
        ),
        normal(p as nat, r.0 as nat, r.1 as nat),
{
    let g: u32 = e - f;
    proof {
        lemma_pow2_literals();
        lemma2_to64();
        lemma2_to64_rest();
        lemma_pow2_below(p as nat, 53);
        lemma_pow2_adds(g as nat, f as nat);
        lemma_pow2_pos(f as nat);
        let a = m * pow2(g as nat) - n;
        assert(m * pow2(e as nat) - n * pow2(f as nat) == a * pow2(f as nat)) by (nonlinear_arith)
            requires
                a == m * pow2(g as nat) - n,
                pow2(e as nat) == pow2(g as nat) * pow2(f as nat),
        ;
        assert(a >= 0) by (nonlinear_arith)
            requires
                a * pow2(f as nat) >= 0,
                pow2(f as nat) > 0,
        ;
    }
    if g < 60 {
        let w: u64 = power(g);
        proof {
            lemma_pow2_below(g as nat, 60);
            assert(m * w <= 0x20_0000_0000_0000int * 0x1000_0000_0000_0000int) by (nonlinear_arith)
                requires
                    m <= 0x20_0000_0000_0000,
                    w <= 0x1000_0000_0000_0000,
            ;
        }
        let a: u128 = m as u128 * w as u128 - n as u128;
        round_shifted(p, a, 1, f)
    } else {
        proof {
            let x = (m * pow2(g as nat)) as nat;
            lemma_rounded_sub_far(p as nat, m as nat, g as nat, n as nat);
            lemma_pow2_adds(3, p as nat);
            lemma_pow2_below((p + 3) as nat, g as nat);
            lemma_pow2_pos((p - 1) as nat);
            lemma_pow2_unfold(p as nat);
            assert(x >= pow2(g as nat)) by (nonlinear_arith)
                requires
                    x == m * pow2(g as nat),
                    m >= 1,
            ;
            lemma_rounded_shift(p as nat, (x - n) as nat, 1, f as nat);
            assert(m * pow2(e as nat) == pow2(f as nat) * x) by (nonlinear_arith)
                requires
                    x == m * pow2(g as nat),
                    pow2(e as nat) == pow2(g as nat) * pow2(f as nat),
            ;
        }
        (m, e)
    }
}

impl<const P: u32, const B: u32> Float<P, B> {
    /// The formats that are covered.
    pub open spec fn supported() -> bool {
        &&& 2 <= P <= 53
        &&& 64 <= B <= 1074
    }

    #[verifier::type_invariant]
    spec fn wf(self) -> bool {
        &&& Self::supported()
        &&& normal(P as nat, self.man as nat, self.exp as nat)
        &&& self.exp <= 2097
        &&& self.man == 0 ==> !self.neg
    }

    /// The value with the sign `neg` and the magnitude `r.0 * 2^r.1`.
    fn build(neg: bool, r: (u64, u32)) -> (v: Self)
        requires
            Self::supported(),
            normal(P as nat, r.0 as nat, r.1 as nat),
            r.0 * pow2(r.1 as nat) <= pow2(2097),
        ensures
            v@ == (if neg { -(r.0 * pow2(r.1 as nat)) } else { r.0 * pow2(r.1 as nat) }),
    {
        proof {
            lemma_pow2_pos((P - 1) as nat);
            if r.0 > 0 {
                lemma_exponent_bound(r.0 as nat, r.1 as nat, 2097);
            }
            assert(0 * pow2(r.1 as nat) == 0);
        }
        Float { neg: neg && r.0 > 0, man: r.0, exp: r.1 }
    }

    /// The integer `n`, rounded to the format.
    pub fn from_int(n: u64) -> (v: Self)
        requires
            Self::supported(),
        ensures
            v@ == rounded(P as nat, n as nat * pow2(B as nat), 1),
            n <= pow2(P as nat) ==> v@ == n * pow2(B as nat),
    {
        proof {
            lemma_pow2_literals();
            lemma2_to64();
            lemma_pow2_pos(B as nat);
            let x = n as nat * pow2(B as nat);
            lemma_pow2_adds(64, B as nat);
            assert(x <= 1 * pow2(64) * pow2(B as nat)) by (nonlinear_arith)
                requires
                    x == n * pow2(B as nat),
                    n <= pow2(64),
            ;
            lemma_pow2_pos(P as nat);
            lemma_rounded_upper(P as nat, x, 1, 1, (64 + B) as nat);
            lemma_pow2_below((64 + B) as nat, 2097);
            if n <= pow2(P as nat) {
                lemma_rounded_exact(P as nat, n as nat, B as nat);
            }
        }
        let r = round_shifted(P, n as u128, 1, B);
        Self::build(false, r)
    }

    /// Whether the value is below `rhs`.
    pub fn lt(&self, rhs: &Self) -> (r: bool)
        ensures
            r == (self@ < rhs@),
    {
        proof {
            use_type_invariant(&*self);
            use_type_invariant(&*rhs);
            let (m, e, n, f) = (self.man as nat, self.exp as nat, rhs.man as nat, rhs.exp as nat);
            if e > f {
                lemma_normal_order(P as nat, m, e, n, f);
            } else if f > e {
                lemma_normal_order(P as nat, n, f, m, e);
            } else {
                lemma_pow2_pos(e);
                assert((m * pow2(e) < n * pow2(e)) == (m < n)) by (nonlinear_arith)
                    requires
                        pow2(e) > 0,
                ;
                assert((n * pow2(e) < m * pow2(e)) == (n < m)) by (nonlinear_arith)
                    requires
                        pow2(e) > 0,
                ;
            }
            lemma_pow2_pos(e);
            lemma_pow2_pos(f);
            assert(m * pow2(e) >= 0 && n * pow2(f) >= 0) by (nonlinear_arith);
            assert((m > 0) == (m * pow2(e) > 0)) by (nonlinear_arith)
                requires
                    pow2(e) > 0,
            ;
            assert((n > 0) == (n * pow2(f) > 0)) by (nonlinear_arith)
                requires
                    pow2(f) > 0,
            ;
        }
        let below = if self.exp != rhs.exp { self.exp < rhs.exp } else { self.man < rhs.man };
        let above = if self.exp != rhs.exp { self.exp > rhs.exp } else { self.man > rhs.man };
        if self.neg {
            !rhs.neg || above
        } else {
            !rhs.neg && below
        }
    }

    /// The value with the opposite sign.
    pub fn negated(&self) -> (v: Self)
        ensures
            v@ == -self@,
    {
        proof {
            use_type_invariant(&*self);
            assert(0 * pow2(self.exp as nat) == 0);
        }
        Float { neg: !self.neg && self.man > 0, man: self.man, exp: self.exp }
    }

    /// The sum.
    pub fn plus(&self, rhs: &Self) -> (v: Self)
        requires
            in_range(self@ + rhs@),
        ensures
            v@ == fl_add(P as nat, self@, rhs@),
    {
        let ghost x = (self.man * pow2(self.exp as nat)) as nat;
        let ghost y = (rhs.man * pow2(rhs.exp as nat)) as nat;
        proof {
            use_type_invariant(&*self);
            use_type_invariant(&*rhs);
            let (m, e, n, f) = (self.man as nat, self.exp as nat, rhs.man as nat, rhs.exp as nat);
            lemma_pow2_pos(e);
            lemma_pow2_pos(f);
            if e > f {
                lemma_normal_order(P as nat, m, e, n, f);
            } else if f > e {
                lemma_normal_order(P as nat, n, f, m, e);
            } else {
                assert((m * pow2(e) < n * pow2(e)) == (m < n)) by (nonlinear_arith)
                    requires
                        pow2(e) > 0,
                ;
            }
        }
        let ordered = if self.exp != rhs.exp { self.exp > rhs.exp } else { self.man >= rhs.man };
        assert(ordered == (x >= y));
        let big = if ordered { self } else { rhs };
        let small = if ordered { rhs } else { self };
        if self.neg == rhs.neg {
            proof {
                lemma_rounded_in_range(P as nat, x + y, 1);
                lemma_rounded_zero(P as nat, 1);
            }
            let r = add_magnitudes(P, big.man, big.exp, small.man, small.exp);
            Self::build(self.neg, r)
        } else {
            let ghost diff = if x >= y { x - y } else { y - x };
            proof {
                lemma_rounded_in_range(P as nat, diff as nat, 1);
                lemma_rounded_zero(P as nat, 1);
            }
            let r = sub_magnitudes(P, big.man, big.exp, small.man, small.exp);
            Self::build(big.neg, r)
        }
    }

    /// The difference.
    pub fn minus(&self, rhs: &Self) -> (v: Self)
        requires
            in_range(self@ - rhs@),
        ensures
            v@ == fl_sub(P as nat, self@, rhs@),
    {
        let other = rhs.negated();
        self.plus(&other)
    }

    /// The product.
    pub fn times(&self, rhs: &Self) -> (v: Self)
        requires
            -(pow2(2097) * pow2(B as nat)) <= self@ * rhs@ <= pow2(2097) * pow2(B as nat),
        ensures
            v@ == fl_mul(P as nat, B as nat, self@, rhs@),
    {
        let ghost x = (self.man * pow2(self.exp as nat)) as nat;
        let ghost y = (rhs.man * pow2(rhs.exp as nat)) as nat;
        let ghost unit = pow2(B as nat);
        proof {
            use_type_invariant(&*self);
            use_type_invariant(&*rhs);
            lemma_pow2_literals();
            lemma2_to64();
            lemma2_to64_rest();
            lemma_pow2_below(P as nat, 53);
            lemma_pow2_pos(B as nat);
            assert(self.man * rhs.man < 0x20_0000_0000_0000int * 0x20_0000_0000_0000int) by (nonlinear_arith)
                requires
                    0 <= self.man < 0x20_0000_0000_0000,
                    0 <= rhs.man < 0x20_0000_0000_0000,
            ;
            assert((-(x as int)) * y == -(x * y) && x * (-(y as int)) == -(x * y)
                && (-(x as int)) * (-(y as int)) == x * y) by (nonlinear_arith);
            assert(x * y >= 0) by (nonlinear_arith);
            lemma_rounded_zero(P as nat, unit);
            assert(unit * pow2(2097) == pow2(2097) * unit) by (nonlinear_arith);
            lemma_rounded_in_range(P as nat, x * y, unit);
        }
        let n: u128 = self.man as u128 * rhs.man as u128;
        let e: u32 = self.exp + rhs.exp;
        proof {
            lemma_pow2_adds(self.exp as nat, rhs.exp as nat);
            assert(x * y == n * pow2(e as nat)) by (nonlinear_arith)
                requires
                    x == self.man * pow2(self.exp as nat),
                    y == rhs.man * pow2(rhs.exp as nat),
                    n == self.man * rhs.man,
                    pow2(e as nat) == pow2(self.exp as nat) * pow2(rhs.exp as nat),
            ;
        }
        let r = if e >= B {
            proof {
                let k = (e - B) as nat;
                lemma_pow2_adds(k, B as nat);
                let a = (n * pow2(k)) as nat;
                assert((x * y) * 1 == a * unit) by (nonlinear_arith)
                    requires
                        x * y == n * pow2(e as nat),
                        a == n * pow2(k),
                        pow2(e as nat) == pow2(k) * unit,
                ;
                lemma_rounded_same_quotient(P as nat, x * y, unit, a, 1);
            }
            round_shifted(P, n, 1, e - B)
        } else {
            proof {
                let k = (B - e) as nat;
                lemma_pow2_adds(k, e as nat);
                lemma_pow2_pos(k);
                assert((x * y) * pow2(k) == n as nat * unit) by (nonlinear_arith)
                    requires
                        x * y == n * pow2(e as nat),
                        unit == pow2(k) * pow2(e as nat),
                ;
                lemma_rounded_same_quotient(P as nat, x * y, unit, n as nat, pow2(k));
                assert(1 * pow2(k) == pow2(k));
            }
            round_divided(P, n, 1, B - e)
        };
        Self::build(self.neg != rhs.neg, r)
    }

    /// The quotient by a positive value.
    pub fn over(&self, rhs: &Self) -> (v: Self)
        requires
            rhs@ > 0,
            -(pow2(2097) * rhs@) <= self@ * pow2(B as nat) <= pow2(2097) * rhs@,
        ensures
            v@ == fl_div(P as nat, B as nat, self@, rhs@),
    {
        let ghost x = (self.man * pow2(self.exp as nat)) as nat;
        let ghost y = (rhs.man * pow2(rhs.exp as nat)) as nat;
        let ghost unit = pow2(B as nat);
        proof {
            use_type_invariant(&*self);
            use_type_invariant(&*rhs);
            lemma_pow2_literals();
            lemma2_to64();
            lemma2_to64_rest();
            lemma_pow2_below(P as nat, 53);
            lemma_pow2_pos(B as nat);
            lemma_pow2_pos(rhs.exp as nat);
            lemma_pow2_pos(self.exp as nat);
            assert(rhs.man > 0 && !rhs.neg && y > 0) by {
                assert(0 * pow2(rhs.exp as nat) == 0);
                assert(y >= 0) by (nonlinear_arith)
                    requires
                        y == rhs.man * pow2(rhs.exp as nat),
                ;
            }
            assert(self.man * 0x1000_0000_0000_0000 < 0x20_0000_0000_0000int * 0x1000_0000_0000_0000int)
                by (nonlinear_arith)
                requires
                    0 <= self.man < 0x20_0000_0000_0000,
            ;
            assert((-(x as int)) * unit == -(x * unit)) by (nonlinear_arith);
            assert(x * unit >= 0) by (nonlinear_arith);
            lemma_rounded_zero(P as nat, y);
            assert(y * pow2(2097) == pow2(2097) * y) by (nonlinear_arith);
            lemma_rounded_in_range(P as nat, x * unit, y);
        }
        let n: u128 = self.man as u128 * 0x1000_0000_0000_0000;
        let d: u128 = rhs.man as u128;
        let up: u32 = self.exp + B;
        let down: u32 = rhs.exp + 60;
        proof {
            lemma_pow2_adds(self.exp as nat, B as nat);
            lemma_pow2_adds(rhs.exp as nat, 60);
            lemma_pow2_pos(60);
            // x * unit / y == n * 2^up / (d * 2^down)
            assert((x * unit) * (d * pow2(down as nat)) == (n * pow2(up as nat)) * y) by (nonlinear_arith)
                requires
                    x == self.man * pow2(self.exp as nat),
                    y == d * pow2(rhs.exp as nat),
                    n == self.man * pow2(60),
                    pow2(up as nat) == pow2(self.exp as nat) * unit,
                    pow2(down as nat) == pow2(rhs.exp as nat) * pow2(60),
            ;
            lemma_pow2_pos(down as nat);
        }
        let r = if up >= down {
            proof {
                let k = (up - down) as nat;
                lemma_pow2_adds(k, down as nat);
                let a = (n * pow2(k)) as nat;
                let w = pow2(down as nat);
                assert((x * unit) * d == a * y) by (nonlinear_arith)
                    requires
                        (x * unit) * (d * w) == (n * pow2(up as nat)) * y,
                        a == n * pow2(k),
                        pow2(up as nat) == pow2(k) * w,
                        w > 0,
                ;
                lemma_rounded_same_quotient(P as nat, x * unit, y, a, d as nat);
            }
            round_shifted(P, n, d, up - down)
        } else {
            proof {
                let k = (down - up) as nat;
                lemma_pow2_adds(k, up as nat);
                lemma_pow2_pos(k);
                lemma_pow2_pos(up as nat);
                let c = (d * pow2(k)) as nat;
                let w = pow2(up as nat);
                assert((x * unit) * c == n as nat * y) by (nonlinear_arith)
                    requires
                        (x * unit) * (d * pow2(down as nat)) == (n * w) * y,
                        c == d * pow2(k),
                        pow2(down as nat) == pow2(k) * w,
                        w > 0,
                ;
                assert(c > 0) by (nonlinear_arith)
                    requires
                        c == d * pow2(k),
                        d > 0,
                        pow2(k) > 0,
                ;
                lemma_rounded_same_quotient(P as nat, x * unit, y, n as nat, c);
            }
            round_divided(P, n, d, down - up)
        };
        Self::build(self.neg, r)
    }

    /// The integer part of a non-negative value.
    pub fn floor(&self) -> (r: u64)
        requires
            0 <= self@ < pow2(63) * pow2(B as nat),
        ensures
            r == whole(B as nat, self@),
    {
        let ghost unit = pow2(B as nat);
        let mut m: u64 = self.man;
        let mut e: u32 = self.exp;
        proof {
            use_type_invariant(&*self);
            lemma2_to64();
            lemma2_to64_rest();
            lemma_pow2_pos(B as nat);
            lemma_pow2_pos(e as nat);
            assert(m * pow2(e as nat) >= 0) by (nonlinear_arith);
            assert(self@ == m * pow2(e as nat)) by {
                if self.neg {
                    assert(m * pow2(e as nat) > 0) by (nonlinear_arith)
                        requires
                            m > 0,
                            pow2(e as nat) > 0,
                    ;
                }
            }
        }
        while e < B
            invariant
                e <= 2097,
                B <= 1074,
                unit == pow2(B as nat) > 0,
                self@ < pow2(63) * unit,
                (m * pow2(e as nat)) / unit as int == self@ / unit as int,
                m * pow2(e as nat) <= self@,
            decreases B - e,
        {
            proof {
                let k = (B - e) as nat;
                lemma_pow2_adds(k, e as nat);
                lemma_pow2_unfold(k);
                lemma_pow2_unfold((e + 1) as nat);
                lemma_pow2_pos(e as nat);
                lemma_pow2_pos((k - 1) as nat);
                lemma_halved_floor(m as nat, e as nat, B as nat);
                assert((m / 2) * pow2((e + 1) as nat) <= m * pow2(e as nat)) by (nonlinear_arith)
                    requires
                        pow2((e + 1) as nat) == 2 * pow2(e as nat),
                        2 * (m / 2) <= m,
                ;
            }
            m = m / 2;
            e = e + 1;
        }
        let mut r: u64 = m;
        let ghost e0 = e;
        proof {
            let k = (e - B) as nat;
            lemma_pow2_adds(k, B as nat);
            let a = (m * pow2(k)) as nat;
            assert(m * pow2(e as nat) == a * unit + 0) by (nonlinear_arith)
                requires
                    a == m * pow2(k),
                    pow2(e as nat) == pow2(k) * unit,
            ;
            lemma_fundamental_div_mod_converse((m * pow2(e as nat)) as int, unit as int, a as int, 0);
            assert(a < pow2(63)) by (nonlinear_arith)
                requires
                    a * unit < pow2(63) * unit,
                    unit > 0,
            ;
        }
        while e > B
            invariant
                B <= e <= 2097,
                pow2(63) == 0x8000_0000_0000_0000,
                r * pow2((e - B) as nat) == self@ / unit as int,
                self@ / (unit as int) < pow2(63),
                pow2(0) == 1,
            decreases e,
        {
            proof {
                let k = (e - B) as nat;
                lemma_pow2_unfold(k);
                lemma_pow2_pos((k - 1) as nat);
                assert((r * 2) * pow2((k - 1) as nat) == r * pow2(k)) by (nonlinear_arith)
                    requires
                        pow2(k) == 2 * pow2((k - 1) as nat),
                ;
                assert(r * 2 <= r * pow2(k)) by (nonlinear_arith)
                    requires
                        pow2(k) >= 2,
                ;
            }
            r = r * 2;
            e = e - 1;
        }
        assert(r * 1 == r);
        r
    }

    /// The remainder of a non-negative value by an integer, which is exact.
    pub fn modulo(&self, n: u32) -> (v: Self)
        requires
            n > 0,
            0 <= self@ < pow2((P - 1) as nat) * pow2(B as nat),
        ensures
            v@ == self@ % (n * pow2(B as nat)),
    {
        let ghost unit = pow2(B as nat);
        let ghost w = pow2(self.exp as nat);
        proof {
            use_type_invariant(&*self);
            lemma_pow2_literals();
            lemma2_to64();
            lemma2_to64_rest();
            lemma_pow2_below(P as nat, 53);
            lemma_pow2_pos(B as nat);
            lemma_pow2_pos(self.exp as nat);
            lemma_pow2_pos((P - 1) as nat);
            assert(self.man * w >= 0) by (nonlinear_arith);
            assert(self@ == self.man * w) by {
                if self.neg {
                    assert(self.man * w > 0) by (nonlinear_arith)
                        requires
                            self.man > 0,
                            w > 0,
                    ;
                }
            }
            if self.exp > B {
                lemma_pow2_below(B as nat, self.exp as nat);
                assert(self.man * w >= pow2((P - 1) as nat) * unit) by (nonlinear_arith)
                    requires
                        self.man >= pow2((P - 1) as nat),
                        w >= unit,
                ;
            }
            assert(n * unit > 0) by (nonlinear_arith)
                requires
                    n > 0,
                    unit > 0,
            ;
        }
        let k: u32 = B - self.exp;
        proof {
            lemma_pow2_adds(k as nat, self.exp as nat);
        }
        if k >= 60 {
            proof {
                lemma_pow2_below(60, k as nat);
                assert(self.man * w < n * unit) by (nonlinear_arith)
                    requires
                        self.man < pow2(60),
                        pow2(60) <= pow2(k as nat),
                        unit == pow2(k as nat) * w,
                        n >= 1,
                        w > 0,
                ;
                vstd::arithmetic::div_mod::lemma_small_mod(self@ as nat, (n * unit) as nat);
            }
            return *self;
        }
        let size: u64 = power(k);
        proof {
            lemma_pow2_below(k as nat, 60);
            assert(n * size < 0x1_0000_0000int * 0x1000_0000_0000_0000int) by (nonlinear_arith)
                requires
                    n < 0x1_0000_0000,
                    0 < size <= 0x1000_0000_0000_0000,
            {
                assert(n * size <= n * 0x1000_0000_0000_0000);
            }
            lemma_pow2_pos(k as nat);
            assert(n * size > 0) by (nonlinear_arith)
                requires
                    n > 0,
                    size > 0,
            ;
        }
        let m: u128 = n as u128 * size as u128;
        let rest: u128 = self.man as u128 % m;
        proof {
            let q = self.man as int / m as int;
            lemma_fundamental_div_mod(self.man as int, m as int);
            assert(self.man * w == q * (n * unit) + rest * w) by (nonlinear_arith)
                requires
                    self.man == m * q + rest,
                    m == n * pow2(k as nat),
                    unit == pow2(k as nat) * w,
            ;
            assert(0 <= rest * w < n * unit) by (nonlinear_arith)
                requires
                    0 <= rest < m,
                    m == n * pow2(k as nat),
                    unit == pow2(k as nat) * w,
                    w > 0,
            ;
            lemma_fundamental_div_mod_converse(self.man * w, n * unit, q, rest * w);
            vstd::arithmetic::div_mod::lemma_mod_decreases(self.man as nat, m as nat);
            lemma_rounded_exact(P as nat, rest as nat, self.exp as nat);
            lemma_pow2_adds((P - 1) as nat, B as nat);
            lemma_pow2_below((P - 1 + B) as nat, 2097);
            assert(rest * w <= self.man * w) by (nonlinear_arith)
                requires
                    rest <= self.man,
            ;
        }
        let r = round_shifted(P, rest, 1, self.exp);
        Self::build(false, r)
    }

    /// The integer nearest to a non-negative value, a half rounded up.
    pub fn round(&self) -> (r: u64)
        requires
            0 <= self@ < pow2(62) * pow2(B as nat),
        ensures
            r == nearest_whole(B as nat, self@),
    {
        let ghost unit = pow2(B as nat);
        let ghost x = self@;
        proof {
            use_type_invariant(&*self);
            lemma2_to64();
            lemma2_to64_rest();
            lemma_pow2_pos(B as nat);
            lemma_pow2_pos(self.exp as nat);
            assert(self.man * pow2(self.exp as nat) >= 0) by (nonlinear_arith);
        }
        if self.exp == 0 {
            proof {
                lemma_pow2_below(P as nat, 53);
                lemma_pow2_unfold(B as nat);
                lemma_pow2_below(54, B as nat);
                assert(self.man * 1 == self.man);
                assert((2 * x + unit) / (2 * unit as int) == 0) by (nonlinear_arith)
                    requires
                        0 <= 2 * x < unit,
                ;
            }
            return 0;
        }
        proof {
            lemma_pow2_unfold((self.exp + 1) as nat);
            lemma_pow2_pos((P - 1) as nat);
            let w = pow2(self.exp as nat);
            assert(self.man * w > 0) by (nonlinear_arith)
                requires
                    self.man > 0,
                    w > 0,
            ;
            assert(self.man * pow2((self.exp + 1) as nat) == 2 * (self.man * w)) by (nonlinear_arith)
                requires
                    pow2((self.exp + 1) as nat) == 2 * w,
            ;
            assert(pow2(63) * unit == 2 * (pow2(62) * unit)) by (nonlinear_arith)
                requires
                    pow2(63) == 2 * pow2(62),
            ;
            lemma_pow2_adds(63, B as nat);
            lemma_pow2_below((63 + B) as nat, 2097);
            lemma_exponent_bound(self.man as nat, (self.exp + 1) as nat, 2097);
        }
        let twice = Self { neg: false, man: self.man, exp: self.exp + 1 };
        let t: u64 = twice.floor();
        proof {
            lemma_fundamental_div_mod(2 * x, unit as int);
            let r = (2 * x) % (unit as int);
            let h = (t + 1) / 2;
            let o = (t + 1) % 2;
            assert(2 * x + unit == h * (2 * unit) + (o * unit + r)) by (nonlinear_arith)
                requires
                    2 * x == unit * t + r,
                    t + 1 == 2 * h + o,
            ;
            assert(0 <= o * unit + r < 2 * unit) by (nonlinear_arith)
                requires
                    0 <= o < 2,
                    0 <= r < unit,
            ;
            lemma_fundamental_div_mod_converse(2 * x + unit, 2 * unit as int, h as int, o * unit + r);
            assert(t < pow2(63)) by (nonlinear_arith)
                requires
                    2 * x == unit * t + r,
                    r >= 0,
                    2 * x < pow2(63) * unit,
                    unit > 0,
            ;
        }
        (t + 1) / 2
    }

    /// The integer nearest to `k` times a non-negative value, a tie rounded to even.
    pub fn nearest_multiple(&self, k: u32) -> (r: u64)
        requires
            0 <= self@,
            self@ * k < pow2(62) * pow2(B as nat),
        ensures
            r == nearest_even((self@ * k) as nat, pow2(B as nat)),
    {
        let ghost unit = pow2(B as nat);
        let ghost w = pow2(self.exp as nat);
        proof {
            use_type_invariant(&*self);
            lemma2_to64();
            lemma2_to64_rest();
            lemma_pow2_below(P as nat, 53);
            lemma_pow2_pos(B as nat);
            lemma_pow2_pos(self.exp as nat);
            assert(self.man * w >= 0) by (nonlinear_arith);
            assert(self@ == self.man * w) by {
                if self.neg {
                    assert(self.man * w > 0) by (nonlinear_arith)
                        requires
                            self.man > 0,
                            w > 0,
                    ;
                }
            }
            assert(self.man * k <= 0x20_0000_0000_0000 * 0xFFFF_FFFF) by (nonlinear_arith)
                requires
                    self.man <= 0x20_0000_0000_0000,
                    k <= 0xFFFF_FFFF,
            ;
        }
        let m: u128 = self.man as u128 * k as u128;
        proof {
            assert(self@ * k == m * w && m * w >= 0) by (nonlinear_arith)
                requires
                    self@ == self.man * w,
                    m == self.man * k,
                    w > 0,
            ;
        }
        if self.exp >= B {
            let ghost n = (self.exp - B) as nat;
            let ghost a = (m * pow2(n)) as nat;
            proof {
                lemma_pow2_adds(n, B as nat);
                lemma_pow2_pos(n);
                assert(m * w == a * unit + 0) by (nonlinear_arith)
                    requires
                        a == m * pow2(n),
                        w == pow2(n) * unit,
                ;
                lemma_fundamental_div_mod_converse((m * w) as int, unit as int, a as int, 0);
                assert(a < pow2(62)) by (nonlinear_arith)
                    requires
                        a * unit < pow2(62) * unit,
                        unit > 0,
                ;
                assert(m <= a) by (nonlinear_arith)
                    requires
                        a == m * pow2(n),
                        pow2(n) >= 1,
                ;
            }
            let mut r: u64 = m as u64;
            let mut e: u32 = self.exp;
            while e > B
                invariant
                    B <= e <= 2097,
                    pow2(62) == 0x4000_0000_0000_0000,
                    r * pow2((e - B) as nat) == a,
                    a < pow2(62),
                decreases e,
            {
                proof {
                    let j = (e - B) as nat;
                    lemma_pow2_unfold(j);
                    lemma_pow2_pos((j - 1) as nat);
                    assert((r * 2) * pow2((j - 1) as nat) == r * pow2(j)) by (nonlinear_arith)
                        requires
                            pow2(j) == 2 * pow2((j - 1) as nat),
                    ;
                    assert(r * 2 <= r * pow2(j)) by (nonlinear_arith)
                        requires
                            pow2(j) >= 2,
                    ;
                }
                r = r * 2;
                e = e - 1;
            }
            assert(r * 1 == r);
            return r;
        }
        let s: u32 = B - self.exp;
        proof {
            lemma_pow2_adds(s as nat, self.exp as nat);
            lemma_pow2_pos(s as nat);
            lemma_nearest_scaled(m as nat, pow2(s as nat), w);
            assert(w * m == m * w && w * pow2(s as nat) == unit) by (nonlinear_arith)
                requires
                    unit == pow2(s as nat) * w,
            ;
        }
        if s > 100 {
            proof {
                lemma_pow2_below(100, s as nat);
                lemma_pow2_adds(53, 47);
                assert(2 * m < pow2(100)) by (nonlinear_arith)
                    requires
                        m <= 0x20_0000_0000_0000 * 0xFFFF_FFFF,
                        pow2(100) == 0x20_0000_0000_0000 * 0x8000_0000_0000,
                ;
                lemma_fundamental_div_mod_converse(m as int, pow2(s as nat) as int, 0, m as int);
            }
            return 0;
        }
        let mut d: u128 = 1;
        let mut i: u32 = 0;
        while i < s
            invariant
                i <= s <= 100,
                d == pow2(i as nat),
            decreases s - i,
        {
            proof {
                lemma_pow2_unfold((i + 1) as nat);
                lemma_pow2_below(i as nat, 100);
                lemma_pow2_adds(53, 47);
                lemma2_to64_rest();
            }
            d = d * 2;
            i = i + 1;
        }
        let q: u128 = m / d;
        let r: u128 = m % d;
        proof {
            lemma_fundamental_div_mod(m as int, d as int);
            assert(q < pow2(62)) by (nonlinear_arith)
                requires
                    m == d * q + r,
                    r >= 0,
                    d > 0,
                    w > 0,
                    unit == d * w,
                    m * w < pow2(62) * unit,
            ;
            lemma_pow2_below(s as nat, 100);
            lemma_pow2_adds(53, 47);
        }
        if 2 * r < d || (2 * r == d && q % 2 == 0) {
            q as u64
        } else {
            (q + 1) as u64
        }
    }
}

/// The exponent field of binary32 bits.
pub open spec fn single_exponent(bits: u32) -> nat {
    (bits as nat / 0x80_0000) % 0x100
}

/// The fraction field of binary32 bits.
pub open spec fn single_fraction(bits: u32) -> nat {
    bits as nat % 0x80_0000
}

/// Whether the sign bit of binary32 bits is set.
pub open spec fn single_negative(bits: u32) -> bool {
    bits >= 0x8000_0000
}

/// The magnitude of a finite binary32 value, in units of its smallest one.
pub open spec fn single_magnitude(bits: u32) -> nat {
    if single_exponent(bits) == 0 {
        single_fraction(bits)
    } else {
        (0x80_0000 + single_fraction(bits)) as nat * pow2((single_exponent(bits) - 1) as nat)
    }
}

/// A finite binary32 value, in units of its smallest positive one.
pub open spec fn single_value(bits: u32) -> int {
    if single_negative(bits) {
        -(single_magnitude(bits) as int)
    } else {
        single_magnitude(bits) as int
    }
}

impl Float<24, 149> {
    /// The value with the given bits, unless they encode an infinity or no
    /// number.
    pub fn from_bits(bits: u32) -> (v: Option<Self>)
        ensures
            v is None <==> single_exponent(bits) == 0xff,
            v matches Some(f) ==> f@ == single_value(bits),
    {
        let exponent: u32 = bits / 0x80_0000 % 0x100;
        let fraction: u32 = bits % 0x80_0000;
        let neg = bits >= 0x8000_0000;
        if exponent == 0xff {
            return None;
        }
        proof {
            lemma2_to64();
        }
        let (man, exp): (u64, u32) = if exponent == 0 {
            (fraction as u64, 0)
        } else {
            (0x80_0000 + fraction as u64, exponent - 1)
        };
        proof {
            lemma_pow2_adds(24, exp as nat);
            lemma_pow2_below((24 + exp) as nat, 2097);
            lemma_pow2_pos(exp as nat);
            assert(man * pow2(exp as nat) <= pow2(24) * pow2(exp as nat)) by (nonlinear_arith)
                requires
                    man <= pow2(24),
            ;
            assert(fraction * 1 == fraction);
        }
        Some(Self::build(neg, (man, exp)))
    }

    /// The bits of a value below the format's overflow threshold.
    pub fn to_bits(&self) -> (bits: u32)
        requires
            -(pow2(277) as int) < self@ < pow2(277),
        ensures
            single_value(bits) == self@,
            single_exponent(bits) < 0xff,
            single_negative(bits) == (self@ < 0),
    {
        proof {
            use_type_invariant(&*self);
            lemma2_to64();
            let (m, e) = (self.man as nat, self.exp as nat);
            lemma_pow2_pos(e);
            assert(m * pow2(e) >= 0) by (nonlinear_arith);
            assert(m > 0 ==> m * pow2(e) > 0) by (nonlinear_arith)
                requires
                    pow2(e) > 0,
            ;
            if e > 253 {
                lemma_pow2_adds(23, e);
                lemma_pow2_below(277, 23 + e);
                assert(m * pow2(e) >= pow2(23) * pow2(e)) by (nonlinear_arith)
                    requires
                        m >= pow2(23),
                ;
            }
            assert(m * 1 == m);
        }
        let low: u32 = self.exp * 0x80_0000 + self.man as u32;
        let bits: u32 = if self.neg { 0x8000_0000 + low } else { low };
        bits
    }
}

/// Dropping the last bit below the unit keeps the integer part.
proof fn lemma_halved_floor(m: nat, e: nat, b: nat)
    requires
        e < b,
    ensures
        pow2(b) > 0,
        ((m / 2) * pow2(e + 1)) / pow2(b) == (m * pow2(e)) / pow2(b),
{
    let k = (b - e) as nat;
    let u = pow2((k - 1) as nat);
    let w = pow2(e);
    lemma_pow2_adds(k, e);
    lemma_pow2_adds((k - 1) as nat, e + 1);
    lemma_pow2_unfold(k);
    lemma_pow2_unfold(e + 1);
    lemma_pow2_pos(e);
    lemma_pow2_pos(b);
    lemma_pow2_pos((k - 1) as nat);
    let q = (m / 2) / u;
    let r = (m / 2) % u;
    lemma_fundamental_div_mod((m / 2) as int, u as int);
    let d = pow2(b);
    assert(d == u * (2 * w)) by (nonlinear_arith)
        requires
            d == pow2(k) * w,
            pow2(k) == 2 * u,
    ;
    assert((m / 2) * pow2(e + 1) == q * d + r * (2 * w)) by (nonlinear_arith)
        requires
            m / 2 == u * q + r,
            pow2(e + 1) == 2 * w,
            d == u * (2 * w),
    ;
    assert(0 <= r * (2 * w) < d) by (nonlinear_arith)
        requires
            0 <= r < u,
            w > 0,
            d == u * (2 * w),
    ;
    lemma_fundamental_div_mod_converse(((m / 2) * pow2(e + 1)) as int, d as int, q as int, (r * (2 * w)) as int);
    let t = m % 2;
    assert(m * w == q * d + (2 * r + t) * w) by (nonlinear_arith)
        requires
            m == 2 * (u * q + r) + t,
            d == u * (2 * w),
    ;
    assert(0 <= (2 * r + t) * w < d) by (nonlinear_arith)
        requires
            0 <= r < u,
            0 <= t < 2,
            w > 0,
            d == u * (2 * w),
    ;
    lemma_fundamental_div_mod_converse((m * w) as int, d as int, q as int, ((2 * r + t) * w) as int);
}

} // verus!
