//! The frame height and boundary that a sequence of line changes suggests.
//!
//! A wrong height smears the frame boundary over many rows, the right one
//! collects it in one. So for each candidate height the changes are averaged
//! by row, and the height whose highest average stands out most wins. The
//! averages are binary64 values, added up in the order of the lines.

use crate::double::{double_add, double_div, whole_double};
use crate::float::{in_range, Double};
use crate::rounding::{
    lemma_pow2_below, lemma_rounded_lower, lemma_rounded_upper, lemma_rounded_zero,
};
use vstd::arithmetic::power2::{
    lemma2_to64, lemma2_to64_rest, lemma_pow2_adds, lemma_pow2_pos, pow2,
};
use vstd::prelude::*;

verus! {

/// The lowest frame height that is tried, in line-pairs.
pub const MIN_HEIGHT: usize = 508;

/// The highest frame height that is tried, in line-pairs.
pub const MAX_HEIGHT: usize = 520;

/// The frame height where nothing stands out.
pub const DEFAULT_HEIGHT: usize = 512;

/// The values of a sequence of doubles.
pub open spec fn values(s: Seq<Double>) -> Seq<int> {
    Seq::new(s.len(), |i: int| s[i]@)
}

/// The sum of the first `n` changes whose line is row `k` of a frame of `h`
/// rows.
pub open spec fn row_total(c: Seq<int>, h: int, k: int, n: nat) -> int
    decreases n,
{
    if n == 0 {
        0
    } else if (n - 1) % h == k {
        double_add(row_total(c, h, k, (n - 1) as nat), c[n - 1])
    } else {
        row_total(c, h, k, (n - 1) as nat)
    }
}

/// How many of the first `n` lines are row `k` of a frame of `h` rows.
pub open spec fn row_count(h: int, k: int, n: nat) -> nat
    decreases n,
{
    if n == 0 {
        0
    } else {
        row_count(h, k, (n - 1) as nat) + (if (n - 1) % h == k {
            1nat
        } else {
            0nat
        })
    }
}

/// The average change at each row of a frame of `h` rows.
pub open spec fn profile(c: Seq<int>, h: int) -> Seq<int> {
    Seq::new(
        h as nat,
        |k: int|
            double_div(
                row_total(c, h, k, c.len()),
                whole_double(row_count(h, k, c.len()) as int),
            ),
    )
}

/// The sum of a sequence of values, from the first to the last.
pub open spec fn running_sum(s: Seq<int>) -> int
    decreases s.len(),
{
    if s.len() == 0 {
        0
    } else {
        double_add(running_sum(s.drop_last()), s.last())
    }
}

/// Whether `i` is the last place of the largest element.
pub open spec fn is_last_peak(s: Seq<int>, i: int) -> bool {
    &&& 0 <= i < s.len()
    &&& forall|j: int| 0 <= j < s.len() ==> s[j] <= s[i]
    &&& forall|j: int| i < j < s.len() ==> s[j] < s[i]
}

/// The last place of the largest element.
pub open spec fn last_peak(s: Seq<int>) -> int {
    choose|i: int| is_last_peak(s, i)
}

/// How far the largest average stands out of the mean: their quotient, or
/// nothing where there is no change at all.
pub open spec fn prominence(c: Seq<int>, h: int) -> int {
    let s = profile(c, h);
    let mean = double_div(running_sum(s), whole_double(h));
    if mean > 0 {
        double_div(s[last_peak(s)], mean)
    } else {
        0
    }
}

/// Whether `h` is the first candidate with the largest prominence.
pub open spec fn is_best_height(c: Seq<int>, h: int) -> bool {
    &&& MIN_HEIGHT <= h <= MAX_HEIGHT
    &&& prominence(c, h) > 0
    &&& forall|g: int| MIN_HEIGHT <= g <= MAX_HEIGHT ==> #[trigger] prominence(c, g) <= prominence(c, h)
    &&& forall|g: int| MIN_HEIGHT <= g < h ==> #[trigger] prominence(c, g) < prominence(c, h)
}

/// The detected frame height.
pub open spec fn frame_height(c: Seq<int>) -> int {
    if exists|h: int| is_best_height(c, h) {
        choose|h: int| is_best_height(c, h)
    } else {
        DEFAULT_HEIGHT as int
    }
}

/// The detected first row of a frame, counted from the first line: the one
/// behind the largest change.
pub open spec fn frame_row(c: Seq<int>) -> int {
    if exists|h: int| is_best_height(c, h) {
        (last_peak(profile(c, frame_height(c))) + 1) % frame_height(c)
    } else {
        0
    }
}

/// Changes that arise between two lines of bytes: zero, or between two powers
/// of two.
pub open spec fn moderate(c: Seq<int>) -> bool {
    &&& c.len() <= pow2(53)
    &&& forall|i: int| 0 <= i < c.len() ==> c[i] == 0 || pow2(1064) <= #[trigger] c[i] <= pow2(1082)
}

/// The sum of non-negative values keeps a bound that is a value of the format.
proof fn lemma_add_bounds(x: int, y: int, m: nat, k: nat, lo: nat)
    requires
        x >= 0,
        y >= 0,
        x + y <= m * pow2(k),
        m <= pow2(53),
    ensures
        0 <= double_add(x, y) <= m * pow2(k),
        x + y == 0 ==> double_add(x, y) == 0,
        x + y >= pow2(lo) ==> double_add(x, y) >= pow2(lo),
{
    lemma_rounded_upper(53, (x + y) as nat, 1, m, k);
    lemma_rounded_zero(53, 1);
    if x + y >= pow2(lo) {
        assert(1 * pow2(lo) == pow2(lo));
        lemma_pow2_pos(53);
        lemma_rounded_lower(53, (x + y) as nat, 1, 1, lo);
    }
}

/// Bounds of a quotient, as powers of two.
proof fn lemma_div_bounds(x: int, y: int, hi: nat, lo: nat)
    requires
        x >= 0,
        y > 0,
        x * pow2(1074) <= y * pow2(hi),
    ensures
        0 <= double_div(x, y) <= pow2(hi),
        x == 0 ==> double_div(x, y) == 0,
        x * pow2(1074) >= y * pow2(lo) ==> double_div(x, y) >= pow2(lo),
{
    lemma_pow2_pos(53);
    lemma_pow2_pos(1074);
    assert(x * pow2(1074) >= 0) by (nonlinear_arith)
        requires
            x >= 0,
    ;
    let n = (x * pow2(1074)) as nat;
    assert(1 * pow2(hi) == pow2(hi) && 1 * pow2(lo) == pow2(lo));
    lemma_rounded_upper(53, n, y as nat, 1, hi);
    lemma_rounded_zero(53, y as nat);
    assert(0 * pow2(1074) == 0);
    if n >= y * pow2(lo) {
        lemma_rounded_lower(53, n, y as nat, 1, lo);
    }
}

/// A row's sum is zero, or of everyday size.
proof fn lemma_row_total_bounds(c: Seq<int>, h: int, k: int, n: nat)
    requires
        h > 0,
        n <= c.len(),
        moderate(c),
    ensures
        0 <= row_total(c, h, k, n) <= n * pow2(1082),
        row_total(c, h, k, n) == 0 || row_total(c, h, k, n) >= pow2(1064),
    decreases n,
{
    lemma_pow2_pos(1082);
    if n > 0 {
        let m = (n - 1) as nat;
        lemma_row_total_bounds(c, h, k, m);
        assert(m * pow2(1082) + pow2(1082) == n * pow2(1082)) by (nonlinear_arith)
            requires
                m + 1 == n,
        ;
        if (n - 1) % h == k {
            assert(c[n - 1] == 0 || pow2(1064) <= c[n - 1] <= pow2(1082));
            lemma_pow2_pos(1064);
            lemma_add_bounds(row_total(c, h, k, m), c[n - 1], n, 1082, 1064);
        }
    }
}

/// A row that some line belongs to is counted.
proof fn lemma_row_count(h: int, k: int, n: nat)
    requires
        0 <= k < h,
    ensures
        row_count(h, k, n) <= n,
        n > k ==> row_count(h, k, n) > 0,
    decreases n,
{
    if n > 0 {
        lemma_row_count(h, k, (n - 1) as nat);
        if n - 1 == k {
            vstd::arithmetic::div_mod::lemma_small_mod(k as nat, h as nat);
        }
    }
}

/// A row's average is zero, or of everyday size.
proof fn lemma_profile_bounds(c: Seq<int>, h: int, k: int)
    requires
        0 <= k < h <= c.len(),
        moderate(c),
    ensures
        ({
            let a = profile(c, h)[k];
            &&& 0 <= a <= pow2(1135)
            &&& a == 0 || a >= pow2(1011)
        }),
        ({
            let t = row_total(c, h, k, c.len());
            let n = row_count(h, k, c.len());
            &&& 0 < n <= pow2(53)
            &&& whole_double(n as int) > 0
            &&& 0 <= t * pow2(1074) <= pow2(2097) * whole_double(n as int)
        }),
{
    let t = row_total(c, h, k, c.len());
    let n = row_count(h, k, c.len());
    let u = pow2(1074);
    lemma_row_total_bounds(c, h, k, c.len());
    lemma_row_count(h, k, c.len());
    lemma_pow2_pos(1074);
    lemma_pow2_pos(1082);
    lemma_pow2_adds(53, 1082);
    lemma_pow2_adds(53, 1011);
    lemma_pow2_below(1135, 2097);
    assert(t <= pow2(1135)) by (nonlinear_arith)
        requires
            t <= c.len() * pow2(1082),
            c.len() <= pow2(53),
            pow2(1135) == pow2(53) * pow2(1082),
    ;
    let y = whole_double(n as int);
    assert(y >= u) by (nonlinear_arith)
        requires
            y == n * u,
            n >= 1,
    ;
    assert(t * u <= y * pow2(1135)) by (nonlinear_arith)
        requires
            t <= pow2(1135),
            y >= u,
            t >= 0,
    ;
    assert(0 <= t * u <= pow2(2097) * y) by (nonlinear_arith)
        requires
            0 <= t <= pow2(1135),
            pow2(1135) <= pow2(2097),
            y >= u,
            u > 0,
    ;
    if t > 0 {
        assert(t * u >= y * pow2(1011)) by (nonlinear_arith)
            requires
                t >= pow2(1064),
                pow2(1064) == pow2(53) * pow2(1011),
                y == n * u,
                n <= pow2(53),
        ;
    }
    lemma_div_bounds(t, y, 1135, 1011);
}

/// A sum of averages is zero, or of everyday size.
proof fn lemma_running_sum_bounds(s: Seq<int>)
    requires
        s.len() <= 1024,
        forall|i: int| 0 <= i < s.len() ==> s[i] == 0 || pow2(1011) <= #[trigger] s[i] <= pow2(1135),
    ensures
        0 <= running_sum(s) <= s.len() * pow2(1135),
        running_sum(s) == 0 || running_sum(s) >= pow2(1011),
    decreases s.len(),
{
    lemma_pow2_pos(1011);
    lemma_pow2_pos(1135);
    if s.len() > 0 {
        let d = s.drop_last();
        assert forall|i: int| 0 <= i < d.len() implies d[i] == 0 || pow2(1011) <= #[trigger] d[i] <= pow2(1135) by {
            assert(d[i] == s[i]);
        }
        lemma_running_sum_bounds(d);
        assert(s[s.len() - 1] == s.last());
        assert(d.len() * pow2(1135) + pow2(1135) == s.len() * pow2(1135)) by (nonlinear_arith)
            requires
                d.len() + 1 == s.len(),
        ;
        lemma2_to64();
        lemma2_to64_rest();
        lemma_add_bounds(running_sum(d), s.last(), s.len(), 1135, 1011);
    }
}

/// The average change at each row of a frame of `h` rows.
fn row_averages(changes: &Vec<Double>, h: usize) -> (r: Vec<Double>)
    requires
        0 < h <= MAX_HEIGHT,
        h <= changes@.len(),
        moderate(values(changes@)),
    ensures
        values(r@) == profile(values(changes@), h as int),
{
    let ghost c = values(changes@);
    let mut total: Vec<Double> = Vec::new();
    let mut count: Vec<usize> = Vec::new();
    let mut k: usize = 0;
    while k < h
        invariant
            k <= h,
            total@.len() == k,
            count@.len() == k,
            forall|j: int| 0 <= j < k ==> #[trigger] total@[j]@ == row_total(c, h as int, j, 0),
            forall|j: int| 0 <= j < k ==> #[trigger] count@[j] == row_count(h as int, j, 0),
        decreases h - k,
    {
        total.push(Double::from_int(0));
        count.push(0);
        k = k + 1;
    }
    let mut i: usize = 0;
    while i < changes.len()
        invariant
            0 < h,
            i <= changes@.len(),
            c == values(changes@),
            moderate(c),
            total@.len() == h,
            count@.len() == h,
            forall|j: int| 0 <= j < h ==> #[trigger] total@[j]@ == row_total(c, h as int, j, i as nat),
            forall|j: int| 0 <= j < h ==> #[trigger] count@[j] == row_count(h as int, j, i as nat),
        decreases changes@.len() - i,
    {
        let at: usize = i % h;
        proof {
            let t = row_total(c, h as int, at as int, i as nat);
            lemma_row_total_bounds(c, h as int, at as int, i as nat);
            lemma_row_total_bounds(c, h as int, at as int, (i + 1) as nat);
            lemma_row_count(h as int, at as int, i as nat);
            lemma_sum_in_range(t, c[i as int], i as int);
            assert(total@[at as int]@ == t);
            assert(count@[at as int] == row_count(h as int, at as int, i as nat));
        }
        total[at] = total[at].plus(&changes[i]);
        count[at] = count[at] + 1;
        i = i + 1;
    }
    let mut r: Vec<Double> = Vec::new();
    let mut j: usize = 0;
    while j < h
        invariant
            j <= h <= changes@.len(),
            i == changes@.len() == c.len(),
            c == values(changes@),
            moderate(c),
            total@.len() == h,
            count@.len() == h,
            forall|q: int| 0 <= q < h ==> #[trigger] total@[q]@ == row_total(c, h as int, q, i as nat),
            forall|q: int| 0 <= q < h ==> #[trigger] count@[q] == row_count(h as int, q, i as nat),
            r@.len() == j,
            forall|q: int| 0 <= q < j ==> #[trigger] r@[q]@ == profile(c, h as int)[q],
        decreases h - j,
    {
        proof {
            lemma_profile_bounds(c, h as int, j as int);
            assert(total@[j as int]@ == row_total(c, h as int, j as int, i as nat));
            assert(count@[j as int] == row_count(h as int, j as int, i as nat));
            let y = whole_double(count@[j as int] as int);
            lemma_pow2_pos(2097);
            assert(-(pow2(2097) * y) <= 0) by (nonlinear_arith)
                requires
                    y > 0,
            ;
        }
        let n = Double::from_int(count[j] as u64);
        let a = total[j].over(&n);
        r.push(a);
        j = j + 1;
    }
    assert(values(r@) =~= profile(c, h as int));
    r
}

/// The sum of a bounded value and another stays within the format.
proof fn lemma_sum_in_range(x: int, y: int, n: int)
    requires
        0 <= n <= pow2(53),
        0 <= x <= n * pow2(1082),
        0 <= y <= pow2(1082),
    ensures
        in_range(x + y),
{
    lemma_pow2_adds(53, 1082);
    lemma_pow2_below(1082, 1135);
    lemma_pow2_below(1136, 2097);
    vstd::arithmetic::power2::lemma_pow2_unfold(1136);
    assert(x <= pow2(1135)) by (nonlinear_arith)
        requires
            x <= n * pow2(1082),
            n <= pow2(53),
            pow2(1135) == pow2(53) * pow2(1082),
    ;
}

/// A last peak is the last peak.
pub proof fn lemma_last_peak(s: Seq<int>, i: int)
    requires
        is_last_peak(s, i),
    ensures
        last_peak(s) == i,
{
    let j = last_peak(s);
    assert(is_last_peak(s, j));
    if j < i {
        assert(s[i] < s[j]);
    } else if i < j {
        assert(s[j] < s[i]);
    }
}

/// Finds the last place of the largest element.
fn find_last_peak(s: &Vec<Double>) -> (at: usize)
    requires
        s@.len() > 0,
    ensures
        is_last_peak(values(s@), at as int),
        at == last_peak(values(s@)),
{
    let ghost v = values(s@);
    let mut at: usize = 0;
    let mut i: usize = 1;
    while i < s.len()
        invariant
            v == values(s@),
            at < i <= s@.len(),
            forall|j: int| 0 <= j < i ==> v[j] <= v[at as int],
            forall|j: int| at < j < i ==> v[j] < v[at as int],
        decreases s@.len() - i,
    {
        assert(v[i as int] == s@[i as int]@ && v[at as int] == s@[at as int]@);
        if !s[i].lt(&s[at]) {
            at = i;
        }
        i = i + 1;
    }
    assert(is_last_peak(v, at as int));
    proof {
        lemma_last_peak(v, at as int);
    }
    at
}

/// Adds up values from the first to the last.
fn add_up(s: &Vec<Double>) -> (sum: Double)
    requires
        s@.len() <= 1024,
        forall|i: int|
            0 <= i < s@.len() ==> values(s@)[i] == 0 || pow2(1011) <= #[trigger] values(s@)[i] <= pow2(1135),
    ensures
        sum@ == running_sum(values(s@)),
{
    let ghost v = values(s@);
    let mut sum = Double::from_int(0);
    let mut i: usize = 0;
    assert(v.take(0) =~= Seq::empty());
    while i < s.len()
        invariant
            v == values(s@),
            i <= s@.len() <= 1024,
            forall|j: int| 0 <= j < s@.len() ==> v[j] == 0 || pow2(1011) <= #[trigger] v[j] <= pow2(1135),
            sum@ == running_sum(v.take(i as int)),
        decreases s@.len() - i,
    {
        proof {
            let t = v.take(i as int);
            assert forall|j: int| 0 <= j < t.len() implies t[j] == 0 || pow2(1011) <= #[trigger] t[j] <= pow2(1135) by {
                assert(t[j] == v[j]);
            }
            lemma_running_sum_bounds(t);
            assert(v.take(i + 1).drop_last() =~= t);
            assert(v.take(i + 1).last() == v[i as int]);
            assert(v[i as int] == s@[i as int]@);
            lemma_pow2_pos(1135);
            lemma_pow2_adds(11, 1135);
            lemma_pow2_below(1146, 2097);
            lemma2_to64();
            assert(i * pow2(1135) + pow2(1135) <= pow2(11) * pow2(1135)) by (nonlinear_arith)
                requires
                    i <= 1024,
                    pow2(11) == 2048,
            ;
        }
        sum = sum.plus(&s[i]);
        i = i + 1;
    }
    assert(v.take(i as int) =~= v);
    sum
}

/// The prominence of a candidate height, and the row of its largest average.
fn candidate(changes: &Vec<Double>, h: usize) -> (r: (Double, usize))
    requires
        0 < h <= MAX_HEIGHT,
        h <= changes@.len(),
        moderate(values(changes@)),
    ensures
        r.0@ == prominence(values(changes@), h as int),
        r.1 == last_peak(profile(values(changes@), h as int)),
        r.1 < h,
{
    let ghost c = values(changes@);
    let avg = row_averages(changes, h);
    let ghost s = profile(c, h as int);
    proof {
        assert forall|i: int| 0 <= i < s.len() implies s[i] == 0 || pow2(1011) <= #[trigger] s[i] <= pow2(1135) by {
            lemma_profile_bounds(c, h as int, i);
        }
        lemma_running_sum_bounds(s);
    }
    let at = find_last_peak(&avg);
    let sum = add_up(&avg);
    let ghost total = running_sum(s);
    let ghost rows = whole_double(h as int);
    proof {
        lemma2_to64();
        lemma2_to64_rest();
        let u = pow2(1074);
        lemma_pow2_pos(1074);
        lemma_pow2_pos(1135);
        lemma_pow2_pos(1001);
        lemma_pow2_pos(2097);
        lemma_pow2_adds(10, 1135);
        lemma_pow2_adds(10, 1001);
        lemma_pow2_below(1145, 2097);
        assert(rows >= u) by (nonlinear_arith)
            requires
                rows == h * u,
                h >= 1,
        ;
        assert(total <= pow2(1145)) by (nonlinear_arith)
            requires
                total <= h * pow2(1135),
                h <= 1024,
                pow2(1145) == 1024 * pow2(1135),
        ;
        assert(total * u <= rows * pow2(1145)) by (nonlinear_arith)
            requires
                0 <= total <= pow2(1145),
                rows >= u,
        ;
        assert(-(pow2(2097) * rows) <= total * u <= pow2(2097) * rows) by (nonlinear_arith)
            requires
                0 <= total <= pow2(1145),
                pow2(1145) <= pow2(2097),
                rows >= u,
                u > 0,
        ;
        if total > 0 {
            assert(total * u >= rows * pow2(1001)) by (nonlinear_arith)
                requires
                    total >= pow2(1011),
                    pow2(1011) == 1024 * pow2(1001),
                    rows == h * u,
                    h <= 1024,
            ;
        }
        lemma_div_bounds(total, rows, 1145, 1001);
    }
    let n = Double::from_int(h as u64);
    let mean = sum.over(&n);
    let zero = Double::from_int(0);
    assert(0 * pow2(1074) == 0);
    if zero.lt(&mean) {
        proof {
            let peak = avg@[at as int]@;
            assert(peak == s[at as int]);
            let u = pow2(1074);
            lemma_pow2_adds(1135, 1074);
            lemma_pow2_adds(2097, 1001);
            lemma_pow2_below(2209, 3098);
            assert(-(pow2(2097) * mean@) <= peak * u <= pow2(2097) * mean@) by (nonlinear_arith)
                requires
                    0 <= peak <= pow2(1135),
                    mean@ >= pow2(1001),
                    u > 0,
                    pow2(2097) > 0,
                    pow2(1135) * u <= pow2(2097) * pow2(1001),
            ;
        }
        (avg[at].over(&mean), at)
    } else {
        (zero, at)
    }
}

/// Detects the frame height and the first row of a frame.
pub(crate) fn detect(changes: &Vec<Double>) -> (r: (usize, usize))
    requires
        MAX_HEIGHT <= changes@.len(),
        moderate(values(changes@)),
    ensures
        r.0 == frame_height(values(changes@)),
        r.1 == frame_row(values(changes@)),
        MIN_HEIGHT <= r.0 <= MAX_HEIGHT,
        r.1 < r.0,
{
    let ghost c = values(changes@);
    let mut best_ratio = Double::from_int(0);
    let mut best_h: usize = DEFAULT_HEIGHT;
    let mut best_row: usize = 0;
    let mut h: usize = MIN_HEIGHT;
    assert(0 * pow2(1074) == 0);
    while h <= MAX_HEIGHT
        invariant
            MIN_HEIGHT <= h <= MAX_HEIGHT + 1,
            MAX_HEIGHT <= changes@.len(),
            c == values(changes@),
            moderate(c),
            forall|g: int| MIN_HEIGHT <= g < h ==> #[trigger] prominence(c, g) <= best_ratio@,
            best_ratio@ >= 0,
            MIN_HEIGHT <= best_h <= MAX_HEIGHT,
            best_row < best_h,
            best_ratio@ == 0 ==> best_h == DEFAULT_HEIGHT && best_row == 0,
            best_ratio@ > 0 ==> {
                &&& best_h < h
                &&& best_ratio@ == prominence(c, best_h as int)
                &&& best_row == (last_peak(profile(c, best_h as int)) + 1) % best_h as int
                &&& forall|g: int| MIN_HEIGHT <= g < best_h ==> #[trigger] prominence(c, g) < best_ratio@
            },
        decreases MAX_HEIGHT + 1 - h,
    {
        let (ratio, at) = candidate(changes, h);
        if best_ratio.lt(&ratio) {
            best_ratio = ratio;
            best_h = h;
            best_row = (at + 1) % h;
        }
        h = h + 1;
    }
    proof {
        if best_ratio@ > 0 {
            let b = best_h as int;
            assert(is_best_height(c, b));
            let g = frame_height(c);
            assert(is_best_height(c, g));
            assert(prominence(c, g) <= prominence(c, b) && prominence(c, b) <= prominence(c, g));
            assert(g == b);
        } else {
            assert forall|g: int| !is_best_height(c, g) by {
                if MIN_HEIGHT <= g <= MAX_HEIGHT {
                    assert(prominence(c, g) <= best_ratio@);
                }
            }
        }
    }
    (best_h, best_row)
}

/// The values of a sequence of doubles are those of each one in order.
pub proof fn lemma_values(s: Seq<Double>, i: int)
    requires
        0 <= i < s.len(),
    ensures
        values(s).len() == s.len(),
        values(s)[i] == s[i]@,
{
}

} // verus!
