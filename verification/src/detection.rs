//! What the detection of the frame height guarantees: in a stream whose lines change only from one
//! frame to the next, it finds the frames.

use crate::boundary::{
    frame_height, frame_row, is_best_height, is_last_peak, lemma_last_peak, profile, prominence,
    row_count, row_total, running_sum, MAX_HEIGHT, MIN_HEIGHT,
};
use crate::double::{double_div, whole_double};
use crate::frame::{LINE, PAIR, WIDTH};
use crate::rounding::{
    lemma_pow2_below, lemma_rounded_close, lemma_rounded_lower, lemma_rounded_twice,
    lemma_rounded_zero, rounded,
};
use crate::sync::{
    chroma_hits, chroma_score, coarse_sync, distance, is_pair_offset, lemma_chroma_hits_bound,
    lemma_line_change_moderate, lemma_pair_offset, line_change, line_changes, luma, luma_distance,
    pair_offset, pairs_from, sample, sample_hits, MIN_PAIRS, NEUTRAL, ROUGH_FRAME,
};
use vstd::arithmetic::div_mod::{
    lemma_fundamental_div_mod, lemma_fundamental_div_mod_converse, lemma_mod_bound,
};
use vstd::arithmetic::power2::{lemma2_to64, lemma_pow2_adds, lemma_pow2_pos, pow2};
use vstd::prelude::*;

verus! {

/// The fewest changes that a height is told from.
pub const MIN_CHANGES: usize = MIN_PAIRS - 1;

/// The most changes that the law speaks of.
pub const MAX_CHANGES: usize = 20000;

/// Whether the lines change by `d` at each line `r` of a frame of `h` line-pairs, and nowhere else.
pub open spec fn changes_at(c: Seq<int>, h: int, r: int, d: int) -> bool {
    forall|i: int| 0 <= i < c.len() ==> #[trigger] c[i] == (if i % h == r {
        d
    } else {
        0
    })
}

/// Whether a change is one that lines of bytes can have: a binary64 value of everyday size.
pub open spec fn is_change(d: int) -> bool {
    &&& pow2(1064) <= d <= pow2(1082)
    &&& rounded(53, d as nat, 1) == d
}

/// Whether a height is one of those that are tried.
pub open spec fn candidate_height(h: int) -> bool {
    MIN_HEIGHT <= h <= MAX_HEIGHT
}

/// Each row of a frame comes as often as there are whole frames, or once more.
proof fn lemma_row_count_range(g: int, k: int, n: nat)
    requires
        0 <= k < g,
    ensures
        row_count(g, k, n) == n as int / g + (if k < n as int % g {
            1int
        } else {
            0int
        }),
    decreases n,
{
    if n == 0 {
        lemma_fundamental_div_mod_converse(0, g, 0, 0);
    } else {
        let m = (n - 1) as nat;
        lemma_row_count_range(g, k, m);
        lemma_fundamental_div_mod(m as int, g);
        lemma_mod_bound(m as int, g);
        let (q, r) = (m as int / g, m as int % g);
        if r + 1 == g {
            assert(n == (q + 1) * g + 0) by (nonlinear_arith)
                requires
                    m == g * q + r,
                    r + 1 == g,
                    n == m + 1,
            ;
            lemma_fundamental_div_mod_converse(n as int, g, q + 1, 0);
        } else {
            assert(n == q * g + (r + 1)) by (nonlinear_arith)
                requires
                    m == g * q + r,
                    n == m + 1,
            ;
            lemma_fundamental_div_mod_converse(n as int, g, q, r + 1);
        }
    }
}

/// Two lines that are the same row of frames of either height are the same line.
proof fn lemma_lines_apart(i: int, j: int, g: int, h: int)
    requires
        candidate_height(g),
        candidate_height(h),
        g != h,
        0 <= i < j < MAX_CHANGES,
        i % g == j % g,
    ensures
        i % h != j % h,
{
    if i % h == j % h {
        lemma_fundamental_div_mod(i, g);
        lemma_fundamental_div_mod(j, g);
        lemma_fundamental_div_mod(i, h);
        lemma_fundamental_div_mod(j, h);
        let a = j / g - i / g;
        let b = j / h - i / h;
        assert(j - i == a * g && j - i == b * h) by (nonlinear_arith)
            requires
                i == g * (i / g) + i % g,
                j == g * (j / g) + j % g,
                i % g == j % g,
                i == h * (i / h) + i % h,
                j == h * (j / h) + j % h,
                i % h == j % h,
                a == j / g - i / g,
                b == j / h - i / h,
        ;
        assert(0 < a <= 39 && 0 < b <= 39) by (nonlinear_arith)
            requires
                0 < j - i < 20000,
                j - i == a * g,
                j - i == b * h,
                508 <= g,
                508 <= h,
        ;
        assert(a == b) by (nonlinear_arith)
            requires
                a * g == b * h,
                0 < a <= 39,
                0 < b <= 39,
                508 <= g <= 520,
                508 <= h <= 520,
        ;
        assert(false) by (nonlinear_arith)
            requires
                a * g == a * h,
                a > 0,
                g != h,
        ;
    }
}

/// Whether one of the first `n` lines is row `k` of frames of height `g` and row `r` of frames of
/// height `h`.
spec fn meets(h: int, r: int, g: int, k: int, n: int) -> bool {
    exists|i: int| 0 <= i < n && #[trigger] (i % g) == k && i % h == r
}

/// For another height than the true one, no row takes more than one of the changes.
proof fn lemma_total_of_other(c: Seq<int>, h: int, r: int, d: int, g: int, k: int, n: nat)
    requires
        changes_at(c, h, r, d),
        is_change(d),
        candidate_height(g),
        candidate_height(h),
        g != h,
        n <= c.len() <= MAX_CHANGES,
    ensures
        row_total(c, g, k, n) == (if meets(h, r, g, k, n as int) {
            d
        } else {
            0
        }),
    decreases n,
{
    lemma_pow2_pos(1064);
    lemma_rounded_zero(53, 1);
    if n > 0 {
        let m = (n - 1) as nat;
        lemma_total_of_other(c, h, r, d, g, k, m);
        assert(c[m as int] == (if m as int % h == r {
            d
        } else {
            0
        }));
        if m as int % g == k {
            if m as int % h == r {
                if meets(h, r, g, k, m as int) {
                    let i = choose|i: int| 0 <= i < m && #[trigger] (i % g) == k && i % h == r;
                    lemma_lines_apart(i, m as int, g, h);
                }
                assert(meets(h, r, g, k, n as int));
            }
        }
        if meets(h, r, g, k, m as int) {
            let i = choose|i: int| 0 <= i < m && #[trigger] (i % g) == k && i % h == r;
            assert(0 <= i < n && i % g == k && i % h == r);
        } else if meets(h, r, g, k, n as int) {
            let i = choose|i: int| 0 <= i < n && #[trigger] (i % g) == k && i % h == r;
            assert(i == m);
        }
    }
}

/// For the true height, only row `r` takes changes.
proof fn lemma_total_of_true(c: Seq<int>, h: int, r: int, d: int, k: int, n: nat)
    requires
        changes_at(c, h, r, d),
        is_change(d),
        n <= c.len(),
        0 <= r < h,
    ensures
        k != r ==> row_total(c, h, k, n) == 0,
        k == r && n > r ==> row_total(c, h, k, n) >= pow2(1064),
        row_total(c, h, k, n) >= 0,
    decreases n,
{
    lemma_pow2_pos(1064);
    lemma_rounded_zero(53, 1);
    if n > 0 {
        let m = (n - 1) as nat;
        lemma_total_of_true(c, h, r, d, k, m);
        let t = row_total(c, h, k, m);
        assert(c[m as int] == (if m as int % h == r {
            d
        } else {
            0
        }));
        if m as int % h == k && k == r {
            lemma2_to64();
            lemma_pow2_pos(53);
            assert(1 * pow2(1064) == pow2(1064));
            lemma_rounded_lower(53, (t + d) as nat, 1, 1, 1064);
        }
        if m == r {
            vstd::arithmetic::div_mod::lemma_small_mod(r as nat, h as nat);
        }
    }
}

/// The exact sum of a sequence.
spec fn exact_sum(s: Seq<int>) -> int
    decreases s.len(),
{
    if s.len() == 0 {
        0
    } else {
        exact_sum(s.drop_last()) + s.last()
    }
}

/// Taking an element out of a sum.
proof fn lemma_sum_without(s: Seq<int>, a: int)
    requires
        0 <= a < s.len(),
    ensures
        exact_sum(s) == s[a] + exact_sum(s.update(a, 0)),
    decreases s.len(),
{
    let t = s.update(a, 0);
    if a == s.len() - 1 {
        assert(t.drop_last() =~= s.drop_last());
    } else {
        lemma_sum_without(s.drop_last(), a);
        assert(t.drop_last() =~= s.drop_last().update(a, 0));
    }
}

/// A sum of elements that are not negative is not negative.
proof fn lemma_sum_not_negative(s: Seq<int>)
    requires
        forall|i: int| 0 <= i < s.len() ==> s[i] >= 0,
    ensures
        exact_sum(s) >= 0,
    decreases s.len(),
{
    if s.len() > 0 {
        lemma_sum_not_negative(s.drop_last());
    }
}

/// Two of the elements are no more than all of them.
proof fn lemma_sum_of_two(s: Seq<int>, a: int, b: int)
    requires
        forall|i: int| 0 <= i < s.len() ==> s[i] >= 0,
        0 <= a < s.len(),
        0 <= b < s.len(),
        a != b,
    ensures
        exact_sum(s) >= s[a] + s[b],
{
    let s1 = s.update(a, 0);
    let s2 = s1.update(b, 0);
    lemma_sum_without(s, a);
    lemma_sum_without(s1, b);
    lemma_sum_not_negative(s2);
}

/// A sum of binary64 values that are zero or not small is near the exact sum.
proof fn lemma_running_sum_close(s: Seq<int>)
    requires
        forall|i: int| 0 <= i < s.len() ==> #[trigger] s[i] == 0 || s[i] >= pow2(1040),
        s.len() <= MAX_HEIGHT,
    ensures
        running_sum(s) == 0 || running_sum(s) >= pow2(1040),
        0x10_0000 * running_sum(s) >= (0x10_0000 - s.len()) * exact_sum(s),
        0x10_0000 * running_sum(s) <= (0x10_0000 + 2 * s.len()) * exact_sum(s),
        exact_sum(s) >= 0,
    decreases s.len(),
{
    lemma2_to64();
    lemma_pow2_pos(53);
    lemma_pow2_pos(1040);
    lemma_pow2_below(20, 1040);
    lemma_rounded_zero(53, 1);
    if s.len() == 0 {
        assert((0x10_0000 - 0) * 0 == 0);
        assert((0x10_0000 + 2 * 0) * 0 == 0);
    } else {
        let t = s.drop_last();
        assert forall|i: int| 0 <= i < t.len() implies #[trigger] t[i] == 0 || t[i] >= pow2(
            1040,
        ) by {
            assert(t[i] == s[i]);
        }
        lemma_running_sum_close(t);
        let (x, y) = (running_sum(t), s.last());
        let j = t.len() as int;
        let e = exact_sum(t);
        assert(s[s.len() - 1] == 0 || s[s.len() - 1] >= pow2(1040));
        if x + y == 0 {
            assert(e == 0) by (nonlinear_arith)
                requires
                    0x10_0000 * 0 >= (0x10_0000 - j) * e,
                    e >= 0,
                    j <= 520,
            ;
            assert((0x10_0000 - (j + 1)) * 0 == 0);
            assert((0x10_0000 + 2 * (j + 1)) * 0 == 0);
        } else {
            let v = running_sum(s);
            assert(1 * pow2(1040) == pow2(1040));
            lemma_rounded_lower(53, (x + y) as nat, 1, 1, 1040);
            lemma_rounded_close(53, (x + y) as nat, 1);
            assert(v * 1 == v);
            assert(0x10_0000 * v >= (0x10_0000 - (j + 1)) * (e + y)) by (nonlinear_arith)
                requires
                    0x10_0000 * v >= 0xF_FFFF * (x + y),
                    0x10_0000 * x >= (0x10_0000 - j) * e,
                    0 <= j <= 520,
                    e >= 0,
                    y >= 0,
            ;
            assert(0x10_0000 * v <= (0x10_0000 + 2 * (j + 1)) * (e + y)) by (nonlinear_arith)
                requires
                    0x10_0000 * v <= 0x10_0001 * (x + y),
                    0x10_0000 * x <= (0x10_0000 + 2 * j) * e,
                    0 <= j <= 520,
                    e >= 0,
                    y >= 0,
            ;
        }
    }
}

/// A sum of elements that are at most `v`.
proof fn lemma_sum_below(s: Seq<int>, v: int)
    requires
        forall|i: int| 0 <= i < s.len() ==> s[i] <= v,
    ensures
        exact_sum(s) <= s.len() * v,
    decreases s.len(),
{
    if s.len() > 0 {
        lemma_sum_below(s.drop_last(), v);
        assert(s.len() * v == (s.len() - 1) * v + v) by (nonlinear_arith);
    } else {
        assert(0 * v == 0);
    }
}

/// A value that is not small, over a small integer.
proof fn lemma_share(x: int, m: int, j: nat)
    requires
        j >= 40,
        x >= pow2(j),
        1 <= m <= 1024,
    ensures
        15 * x <= 16 * (double_div(x, whole_double(m)) * m) <= 17 * x,
        double_div(x, whole_double(m)) >= pow2((j - 10) as nat),
        rounded(53, double_div(x, whole_double(m)) as nat, 1) == double_div(x, whole_double(m)),
{
    let u = pow2(1074);
    let v = double_div(x, whole_double(m));
    let (n, e) = (x * u, m * u);
    let low = pow2((j - 10) as nat);
    lemma2_to64();
    lemma_pow2_pos(1074);
    lemma_pow2_pos(53);
    lemma_pow2_pos((j - 10) as nat);
    lemma_pow2_adds(10, (j - 10) as nat);
    lemma_pow2_below(40, j);
    lemma_pow2_adds(20, 20);
    assert(e > 0 && n >= e * 0x10_0000 && n >= e * low) by (nonlinear_arith)
        requires
            n == x * u,
            e == m * u,
            1 <= m <= 1024,
            u > 0,
            x >= 0x10_0000 * 0x10_0000,
            x >= 1024 * low,
    ;
    assert(1 * low == low);
    lemma_rounded_lower(53, n as nat, e as nat, 1, (j - 10) as nat);
    lemma_rounded_close(53, n as nat, e as nat);
    lemma_rounded_twice(53, n as nat, e as nat);
    assert(0xF_FFFF * x <= 0x10_0000 * (v * m) <= 0x10_0001 * x) by (nonlinear_arith)
        requires
            0xF_FFFF * n <= 0x10_0000 * (v * e) <= 0x10_0001 * n,
            n == x * u,
            e == m * u,
            u > 0,
    ;
}

/// A value over another that is not much larger.
proof fn lemma_quotient(x: int, y: int)
    requires
        0 < y <= 2 * x,
    ensures
        15 * (x * pow2(1074)) <= 16 * (double_div(x, y) * y) <= 17 * (x * pow2(1074)),
{
    let u = pow2(1074);
    lemma2_to64();
    lemma_pow2_below(21, 1074);
    assert(x * u >= y * 0x10_0000) by (nonlinear_arith)
        requires
            0 < y <= 2 * x,
            u >= 0x20_0000,
    ;
    lemma_rounded_close(53, (x * u) as nat, y as nat);
}

/// A sequence that is not empty has a last peak.
proof fn lemma_has_last_peak(s: Seq<int>) -> (i: int)
    requires
        s.len() > 0,
    ensures
        is_last_peak(s, i),
    decreases s.len(),
{
    let n = s.len() - 1;
    if n == 0 {
        0
    } else {
        let t = s.drop_last();
        let i = lemma_has_last_peak(t);
        assert forall|j: int| 0 <= j < n implies s[j] <= s[i] by {
            assert(t[j] <= t[i]);
        }
        assert forall|j: int| i < j < n implies s[j] < s[i] by {
            assert(t[j] < t[i]);
        }
        if s[n] >= s[i] {
            n
        } else {
            i
        }
    }
}

/// The sum of a sequence with one element.
proof fn lemma_running_sum_of_one(s: Seq<int>, r: int, v: int)
    requires
        0 <= r,
        v >= 0,
        rounded(53, v as nat, 1) == v,
        forall|i: int| 0 <= i < s.len() ==> #[trigger] s[i] == (if i == r {
            v
        } else {
            0
        }),
    ensures
        running_sum(s) == (if r < s.len() {
            v
        } else {
            0
        }),
    decreases s.len(),
{
    lemma_rounded_zero(53, 1);
    if s.len() > 0 {
        let t = s.drop_last();
        assert forall|i: int| 0 <= i < t.len() implies #[trigger] t[i] == (if i == r {
            v
        } else {
            0
        }) by {
            assert(t[i] == s[i]);
        }
        lemma_running_sum_of_one(t, r, v);
        assert(s[s.len() - 1] == s.last());
    }
}

/// The true height stands out by about its number of rows, and the changes are found.
proof fn lemma_true_height(c: Seq<int>, h: int, r: int, d: int)
    requires
        changes_at(c, h, r, d),
        is_change(d),
        candidate_height(h),
        0 <= r < h,
        MIN_CHANGES <= c.len() <= MAX_CHANGES,
    ensures
        17 * prominence(c, h) >= 15 * (h * pow2(1074)),
        is_last_peak(profile(c, h), r),
{
    let u = pow2(1074);
    let s = profile(c, h);
    let n = c.len();
    let t = row_total(c, h, r, n);
    let m = row_count(h, r, n) as int;
    lemma_pow2_pos(1074);
    lemma_total_of_true(c, h, r, d, r, n);
    lemma_row_count_range(h, r, n);
    lemma_fundamental_div_mod(n as int, h);
    lemma_mod_bound(n as int, h);
    assert(1 <= n as int / h <= 39) by (nonlinear_arith)
        requires
            n == h * (n as int / h) + n as int % h,
            0 <= n as int % h < h,
            529 <= n <= 20000,
            508 <= h <= 520,
    ;
    lemma_share(t, m, 1064);
    let v = s[r];
    lemma_pow2_pos(1054);
    assert forall|i: int| 0 <= i < s.len() implies #[trigger] s[i] == (if i == r {
        v
    } else {
        0
    }) by {
        if i != r {
            lemma_total_of_true(c, h, r, d, i, n);
            lemma_row_count_range(h, i, n);
            let e = whole_double(row_count(h, i, n) as int);
            assert(e > 0) by (nonlinear_arith)
                requires
                    e == row_count(h, i, n) * u,
                    row_count(h, i, n) >= 1,
                    u > 0,
            ;
            assert(0 * u == 0);
            lemma_rounded_zero(53, e as nat);
        }
    }
    lemma_running_sum_of_one(s, r, v);
    lemma_share(v, h, 1054);
    let mean = double_div(v, whole_double(h));
    lemma_pow2_pos(1044);
    assert(mean <= mean * h) by (nonlinear_arith)
        requires
            mean >= 0,
            h >= 1,
    ;
    lemma_quotient(v, mean);
    assert(is_last_peak(s, r));
    lemma_last_peak(s, r);
    let p = prominence(c, h);
    assert(p == double_div(v, mean));
    assert(17 * p >= 15 * (h * u)) by (nonlinear_arith)
        requires
            15 * (v * u) <= 16 * (p * mean),
            16 * (mean * h) <= 17 * v,
            mean > 0,
            u > 0,
    ;
}

/// Any other height stands out by less than its number of rows.
proof fn lemma_other_height(c: Seq<int>, h: int, r: int, d: int, g: int)
    requires
        changes_at(c, h, r, d),
        is_change(d),
        candidate_height(h),
        candidate_height(g),
        g != h,
        0 <= r < h,
        r + h < c.len(),
        MIN_CHANGES <= c.len() <= MAX_CHANGES,
    ensures
        11025 * prominence(c, g) <= 9248 * (g * pow2(1074)),
{
    let u = pow2(1074);
    let s = profile(c, g);
    let n = c.len();
    let q = n as int / g;
    lemma_pow2_pos(1074);
    lemma_pow2_pos(1054);
    lemma_fundamental_div_mod(n as int, g);
    lemma_mod_bound(n as int, g);
    assert(1 <= q <= 39) by (nonlinear_arith)
        requires
            n == g * q + n as int % g,
            0 <= n as int % g < g,
            529 <= n <= 20000,
            508 <= g <= 520,
    ;
    lemma_pow2_below(1040, 1054);
    // each row: nothing, or the change shared by the lines of the row
    assert forall|k: int| 0 <= k < g implies {
        &&& #[trigger] s[k] == 0 || s[k] >= pow2(1054)
        &&& 16 * (s[k] * q) <= 17 * d
        &&& meets(h, r, g, k, n as int) ==> 16 * (s[k] * (q + 1)) >= 15 * d
    } by {
        let m = row_count(g, k, n) as int;
        lemma_row_count_range(g, k, n);
        lemma_total_of_other(c, h, r, d, g, k, n);
        if meets(h, r, g, k, n as int) {
            lemma_share(d, m, 1064);
            let v = s[k];
            assert(v * q <= v * m && v * m <= v * (q + 1)) by (nonlinear_arith)
                requires
                    v >= 0,
                    q <= m <= q + 1,
            ;
        } else {
            let e = whole_double(m);
            assert(e > 0) by (nonlinear_arith)
                requires
                    e == m * u,
                    m >= 1,
                    u > 0,
            ;
            assert(0 * u == 0);
            lemma_rounded_zero(53, e as nat);
            assert(0 * q == 0);
            lemma_pow2_pos(1064);
        }
    }
    // two of the changes
    let (i0, i1) = (r, r + h);
    lemma_fundamental_div_mod_converse(i0, h, 0, r);
    lemma_fundamental_div_mod_converse(i1, h, 1, r);
    let (k0, k1) = (i0 % g, i1 % g);
    lemma_mod_bound(i0, g);
    lemma_mod_bound(i1, g);
    if k0 == k1 {
        lemma_lines_apart(i0, i1, g, h);
    }
    assert(meets(h, r, g, k0, n as int));
    assert(meets(h, r, g, k1, n as int));
    lemma_pow2_pos(1040);
    lemma_pow2_pos(1064);
    assert forall|i: int| 0 <= i < s.len() implies s[i] >= 0 by {
        assert(s[i] == 0 || s[i] >= pow2(1054));
    }
    let top = lemma_has_last_peak(s);
    lemma_last_peak(s, top);
    let peak = s[top];
    // the peak, and a change in another row
    let k = if top == k0 {
        k1
    } else {
        k0
    };
    let a = s[k];
    lemma_sum_of_two(s, top, k);
    lemma_running_sum_close(s);
    let e = exact_sum(s);
    let sum = running_sum(s);
    assert(16 * sum >= 15 * e) by (nonlinear_arith)
        requires
            0x10_0000 * sum >= (0x10_0000 - g) * e,
            g <= 520,
            e >= 0,
    ;
    assert(a > 0) by (nonlinear_arith)
        requires
            16 * (a * (q + 1)) >= 15 * d,
            d > 0,
            q >= 0,
    ;
    assert(a <= peak);
    assert(34 * a >= 15 * peak) by (nonlinear_arith)
        requires
            16 * (a * (q + 1)) >= 15 * d,
            16 * (peak * q) <= 17 * d,
            q >= 1,
            a > 0,
            peak >= 0,
    ;
    lemma_share(sum, g, 1040);
    let mean = double_div(sum, whole_double(g));
    lemma_pow2_pos(1030);
    let p = prominence(c, g);
    lemma_sum_below(s, peak);
    assert(mean <= 2 * peak) by (nonlinear_arith)
        requires
            16 * (mean * g) <= 17 * sum,
            0x10_0000 * sum <= (0x10_0000 + 2 * g) * e,
            e <= g * peak,
            e >= 0,
            508 <= g <= 520,
            peak >= 0,
    ;
    lemma_quotient(peak, mean);
    assert(p == double_div(peak, mean));
    assert(8704 * (mean * g) >= 11025 * peak) by {
        assert(34 * e >= 49 * peak);
    }
    assert(p >= 0) by (nonlinear_arith)
        requires
            15 * (peak * u) <= 16 * (p * mean),
            peak >= 0,
            u > 0,
            mean > 0,
    ;
    assert(11025 * (p * peak) <= 9248 * (g * u) * peak) by (nonlinear_arith)
        requires
            8704 * (mean * g) >= 11025 * peak,
            16 * (p * mean) <= 17 * (peak * u),
            p >= 0,
            g >= 0,
    ;
    assert(11025 * p <= 9248 * (g * u)) by (nonlinear_arith)
        requires
            11025 * (p * peak) <= 9248 * (g * u) * peak,
            peak > 0,
    ;
}

/// In a stream whose lines change only from one frame to the next, with two such changes or more,
/// the height of the frames is found, and a frame starts behind the change.
pub proof fn lemma_frames_are_found(c: Seq<int>, h: int, r: int, d: int)
    requires
        candidate_height(h),
        0 <= r < h,
        changes_at(c, h, r, d),
        is_change(d),
        r + h < c.len(),
        MIN_CHANGES <= c.len() <= MAX_CHANGES,
    ensures
        frame_height(c) == h,
        frame_row(c) == (r + 1) % h,
{
    let u = pow2(1074);
    lemma_pow2_pos(1074);
    lemma_true_height(c, h, r, d);
    let p = prominence(c, h);
    assert(17 * p >= 7620 * u) by (nonlinear_arith)
        requires
            17 * p >= 15 * (h * u),
            h >= 508,
            u > 0,
    ;
    assert forall|g: int| MIN_HEIGHT <= g <= MAX_HEIGHT && g != h implies #[trigger] prominence(c, g)
        < p by {
        lemma_other_height(c, h, r, d, g);
        assert(g * u <= 520 * u) by (nonlinear_arith)
            requires
                g <= 520,
                u > 0,
        ;
    }
    assert(is_best_height(c, h));
    let b = frame_height(c);
    assert(is_best_height(c, b));
    if b < h {
        assert(prominence(c, b) < p);
    } else if b > h {
        assert(prominence(c, b) < p);
    }
    lemma_last_peak(profile(c, h), r);
}

/// Whether the luma of the line-pairs from `off` on changes by `sum` in all behind each line `r` of
/// a frame of `h` line-pairs, and nowhere else.
pub open spec fn luma_changes_at(data: Seq<u8>, off: int, h: int, r: int, sum: nat) -> bool {
    forall|i: int|
        0 <= i < pairs_from(data, off) - 1 ==> #[trigger] luma_distance(data, off, i, WIDTH as nat)
            == (if i % h == r {
            sum
        } else {
            0
        })
}

/// A stream whose picture changes only from one frame to the next, and does so twice or more, is
/// aligned: its frame height is found, and a start behind the change.
pub proof fn lemma_still_stream_is_aligned(data: Seq<u8>, h: int, r: int, sum: nat)
    requires
        candidate_height(h),
        0 <= r < h,
        1 <= sum,
        r + h < pairs_from(data, pair_offset(data)) - 1,
        MIN_PAIRS <= pairs_from(data, pair_offset(data)) <= MAX_CHANGES,
        luma_changes_at(data, pair_offset(data), h, r, sum),
    ensures
        coarse_sync(data) == (pair_offset(data) + (r + 1) % h * PAIR, h),
{
    let off = pair_offset(data);
    let c = line_changes(data, off);
    let d = line_change(data, off, r);
    let u = pow2(1074);
    let (n, e) = (sum * u * u, 640 * u);
    lemma2_to64();
    lemma_pow2_pos(53);
    lemma_pow2_pos(1064);
    lemma_pow2_pos(1074);
    lemma_pow2_adds(10, 1064);
    vstd::arithmetic::div_mod::lemma_small_mod(r as nat, h as nat);
    assert(luma_distance(data, off, r, WIDTH as nat) == sum);
    assert(n >= e * (1 * pow2(1064)) && e > 0) by (nonlinear_arith)
        requires
            n == sum * u * u,
            e == 640 * u,
            u == 1024 * pow2(1064),
            sum >= 1,
            pow2(1064) > 0,
    ;
    lemma_rounded_lower(53, n as nat, e as nat, 1, 1064);
    lemma_rounded_twice(53, n as nat, e as nat);
    lemma_line_change_moderate(data, off, r);
    assert forall|i: int| 0 <= i < c.len() implies #[trigger] c[i] == (if i % h == r {
        d
    } else {
        0
    }) by {
        assert(luma_distance(data, off, i, WIDTH as nat) == (if i % h == r {
            sum
        } else {
            0
        }));
        if i % h != r {
            assert(0 * u == 0);
            lemma_rounded_zero(53, e as nat);
        }
    }
    lemma_frames_are_found(c, h, r, d);
}

/// Whether a stream is clean: `n` line-pairs behind `off` bytes. Neither those bytes nor the Y16
/// lines hold a neutral byte, all chroma is neutral, and the luma of line-pair `p` is `y(p)`
/// throughout.
pub open spec fn clean_stream(data: Seq<u8>, off: int, n: int, y: spec_fn(int) -> u8) -> bool {
    &&& data.len() == off + n * PAIR
    &&& forall|i: int| 0 <= i < off ==> #[trigger] data[i] != NEUTRAL
    &&& forall|p: int, j: int|
        0 <= p < n && 0 <= j < LINE ==> #[trigger] byte_of_pair(data, off, p, j) != NEUTRAL
    &&& forall|p: int, x: int|
        0 <= p < n && 0 <= x < WIDTH ==> #[trigger] byte_of_pair(data, off, p, LINE + 2 * x)
            == NEUTRAL
    &&& forall|p: int, x: int|
        0 <= p < n && 0 <= x < WIDTH ==> #[trigger] luma(data, off, p, x) == y(p)
}

/// Byte `j` of line-pair `p`.
pub open spec fn byte_of_pair(data: Seq<u8>, off: int, p: int, j: int) -> u8 {
    data[off + p * PAIR + j]
}

/// Fewer than all samples hit where one misses.
proof fn lemma_missed(data: Seq<u8>, start: int, n: nat, k: int)
    requires
        0 <= k < n,
        sample(data, start, k) != NEUTRAL,
    ensures
        chroma_hits(data, start, n) < n,
    decreases n,
{
    if k == n - 1 {
        lemma_chroma_hits_bound(data, start, (n - 1) as nat);
    } else {
        lemma_missed(data, start, (n - 1) as nat, k);
    }
}

/// All samples hit where each does.
proof fn lemma_all_hit(data: Seq<u8>, start: int, n: nat)
    requires
        forall|k: int| 0 <= k < n ==> #[trigger] sample(data, start, k) == NEUTRAL,
    ensures
        chroma_hits(data, start, n) == n,
    decreases n,
{
    if n > 0 {
        lemma_all_hit(data, start, (n - 1) as nat);
        assert(sample(data, start, n - 1) == NEUTRAL);
    }
}

/// At the true offset of a clean stream every sample line within the data hits throughout.
proof fn lemma_true_offset_hits(data: Seq<u8>, off: int, n: int, y: spec_fn(int) -> u8, f: int)
    requires
        clean_stream(data, off, n, y),
        0 <= f < 4,
    ensures
        sample_hits(data, off, f) == (if 512 * f < n {
            WIDTH as nat
        } else {
            0
        }),
{
    let start = off + LINE + f * ROUGH_FRAME;
    assert(f * ROUGH_FRAME == (512 * f) * PAIR && (512 * f + 1) * PAIR == (512 * f) * PAIR + PAIR)
        by (nonlinear_arith)
        requires
            ROUGH_FRAME == PAIR * 512,
    ;
    assert(start + LINE == off + (512 * f + 1) * PAIR);
    if 512 * f < n {
        assert((512 * f + 1) * PAIR <= n * PAIR) by (nonlinear_arith)
            requires
                512 * f + 1 <= n,
        ;
        assert forall|k: int| 0 <= k < WIDTH implies #[trigger] sample(data, start, k)
            == NEUTRAL by {
            assert(byte_of_pair(data, off, 512 * f, LINE + 2 * k) == NEUTRAL);
        }
        lemma_all_hit(data, start, WIDTH as nat);
    } else {
        assert((512 * f + 1) * PAIR > n * PAIR) by (nonlinear_arith)
            requires
                512 * f + 1 > n,
                PAIR == 2560,
        ;
    }
}

/// At another offset fewer lie within the data, if any, and none hits more.
proof fn lemma_other_offset_hits(
    data: Seq<u8>,
    off: int,
    n: int,
    y: spec_fn(int) -> u8,
    q: int,
    f: int,
)
    requires
        clean_stream(data, off, n, y),
        0 <= off < PAIR,
        0 <= q < PAIR,
        0 <= f < 4,
    ensures
        sample_hits(data, q, f) <= sample_hits(data, off, f),
{
    lemma_true_offset_hits(data, off, n, y, f);
    lemma_chroma_hits_bound(data, q + LINE + f * ROUGH_FRAME, WIDTH as nat);
    assert(f * ROUGH_FRAME == (512 * f) * PAIR) by (nonlinear_arith)
        requires
            ROUGH_FRAME == PAIR * 512,
    ;
    if 512 * f >= n {
        assert((512 * f) * PAIR >= n * PAIR) by (nonlinear_arith)
            requires
                512 * f >= n,
        ;
    }
}

/// At another offset the first sample line misses once at least.
proof fn lemma_other_offset_misses(
    data: Seq<u8>,
    off: int,
    n: int,
    y: spec_fn(int) -> u8,
    q: int,
)
    requires
        clean_stream(data, off, n, y),
        n >= 2,
        0 <= off < PAIR,
        0 <= q < PAIR,
        q % 2 == off % 2,
        q != off,
    ensures
        sample_hits(data, q, 0) < WIDTH,
{
    let start = q + LINE;
    assert(n * PAIR >= 2 * PAIR) by (nonlinear_arith)
        requires
            n >= 2,
    ;
    assert(0 * PAIR == 0 && 1 * PAIR == PAIR);
    if start + LINE <= data.len() {
        let k = if q < off {
            if start >= off {
                assert(byte_of_pair(data, off, 0, start - off) != NEUTRAL);
            }
            0
        } else if q - off - 2 < LINE {
            assert(byte_of_pair(data, off, 1, q - off - 2) != NEUTRAL);
            WIDTH - 1
        } else {
            assert(byte_of_pair(data, off, 1, q - off - LINE) != NEUTRAL);
            0
        };
        assert(sample(data, start, k) != NEUTRAL);
        lemma_missed(data, start, WIDTH as nat, k);
    }
}

/// The offset of a clean stream is found.
pub proof fn lemma_clean_offset_is_found(data: Seq<u8>, off: int, n: int, y: spec_fn(int) -> u8)
    requires
        clean_stream(data, off, n, y),
        n >= 2,
        0 <= off < PAIR,
        off % 2 == 0,
    ensures
        pair_offset(data) == off,
{
    assert forall|q: int| 0 <= q < PAIR && q % 2 == 0 && q != off implies #[trigger] chroma_score(
        data,
        q,
    ) < chroma_score(data, off) by {
        lemma_true_offset_hits(data, off, n, y, 0);
        lemma_other_offset_misses(data, off, n, y, q);
        lemma_other_offset_hits(data, off, n, y, q, 1);
        lemma_other_offset_hits(data, off, n, y, q, 2);
        lemma_other_offset_hits(data, off, n, y, q, 3);
    }
    assert(is_pair_offset(data, off));
    lemma_pair_offset(data, off);
}

/// The distance of two lines that are plain.
proof fn lemma_plain_distance(data: Seq<u8>, off: int, i: int, k: nat, a: int, b: int)
    requires
        k <= WIDTH,
        forall|x: int| 0 <= x < WIDTH ==> #[trigger] luma(data, off, i, x) == a,
        forall|x: int| 0 <= x < WIDTH ==> #[trigger] luma(data, off, i + 1, x) == b,
    ensures
        luma_distance(data, off, i, k) == k * distance(a, b),
    decreases k,
{
    let e = distance(a, b);
    if k == 0 {
        assert(0 * e == 0);
    } else {
        lemma_plain_distance(data, off, i, (k - 1) as nat, a, b);
        assert(luma(data, off, i, k - 1) == a && luma(data, off, i + 1, k - 1) == b);
        assert((k - 1) * e + e == k * e) by (nonlinear_arith);
    }
}

/// A clean stream whose luma goes back and forth between two values, exactly at the line-pairs `v`
/// of frames of `h` line-pairs, and does so twice or more, is aligned: its offset, its frame height
/// and its frame start are found.
pub proof fn lemma_clean_stream_is_aligned(
    data: Seq<u8>,
    off: int,
    n: int,
    y: spec_fn(int) -> u8,
    h: int,
    v: int,
    a: u8,
    b: u8,
)
    requires
        clean_stream(data, off, n, y),
        0 <= off < PAIR,
        off % 2 == 0,
        MIN_PAIRS <= n <= MAX_CHANGES,
        candidate_height(h),
        0 <= v < h,
        a != b,
        forall|p: int| 0 <= p < n ==> #[trigger] y(p) == a || y(p) == b,
        forall|p: int| 0 < p < n ==> (#[trigger] y(p) != y(p - 1) <==> p % h == v),
        // the second change: line-pair `v` of a frame comes twice, the first line-pair aside
        (if v == 0 {
            2 * h
        } else {
            v + h
        }) < n,
    ensures
        coarse_sync(data) == (off + v * PAIR, h),
{
    lemma_clean_offset_is_found(data, off, n, y);
    assert(pairs_from(data, off) == n) by {
        lemma_fundamental_div_mod_converse(data.len() - off, PAIR as int, n, 0);
    }
    let r = if v == 0 {
        h - 1
    } else {
        v - 1
    };
    let e = distance(a as int, b as int);
    let sum = WIDTH as nat * e;
    assert(sum >= 1) by (nonlinear_arith)
        requires
            sum == 640 * e,
            e >= 1,
    ;
    assert forall|i: int| 0 <= i < n - 1 implies #[trigger] luma_distance(
        data,
        off,
        i,
        WIDTH as nat,
    ) == (if i % h == r {
        sum
    } else {
        0
    }) by {
        let (l, m) = (y(i), y(i + 1));
        assert(y(i + 1 - 1) == l);
        assert forall|x: int| 0 <= x < WIDTH implies #[trigger] luma(data, off, i, x) == l by {}
        assert forall|x: int| 0 <= x < WIDTH implies #[trigger] luma(data, off, i + 1, x) == m by {}
        lemma_plain_distance(data, off, i, WIDTH as nat, l as int, m as int);
        assert(WIDTH as nat * 0 == 0);
        lemma_next_row(i, h);
    }
    lemma_still_stream_is_aligned(data, h, r, sum);
    if v == 0 {
        vstd::arithmetic::div_mod::lemma_mod_self_0(h);
    } else {
        vstd::arithmetic::div_mod::lemma_small_mod(v as nat, h as nat);
    }
}

/// The row of the next line.
proof fn lemma_next_row(i: int, h: int)
    requires
        h > 0,
        i >= 0,
    ensures
        (i + 1) % h == (if i % h == h - 1 {
            0
        } else {
            i % h + 1
        }),
{
    lemma_fundamental_div_mod(i, h);
    lemma_mod_bound(i, h);
    let (q, r) = (i / h, i % h);
    if r == h - 1 {
        assert(i + 1 == (q + 1) * h + 0) by (nonlinear_arith)
            requires
                i == h * q + r,
                r == h - 1,
        ;
        lemma_fundamental_div_mod_converse(i + 1, h, q + 1, 0);
    } else {
        assert(i + 1 == q * h + (r + 1)) by (nonlinear_arith)
            requires
                i == h * q + r,
        ;
        lemma_fundamental_div_mod_converse(i + 1, h, q, r + 1);
    }
}

} // verus!
