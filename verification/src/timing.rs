//! The frame rate, and the time from read to display.
//!
//! Times are nanoseconds since some fixed moment.

use crate::double::{
    double_add, double_div, double_mul, fraction, integer, lemma_whole_within, over, plus, ratio,
    times, whole_double, within,
};
use crate::float::{nearest_whole, Double};
use crate::nearest::lemma_integers_of;
use crate::rounding::{
    lemma_pow2_below, lemma_rounded_lower, lemma_rounded_near, lemma_rounded_scaled, lemma_rounded_zero,
    nearest_even, rounded,
};
use crate::text::{append_decimal, append_hundredths, decimal, hundredths};
use std::collections::VecDeque;
use vstd::arithmetic::power2::{
    lemma2_to64, lemma2_to64_rest, lemma_pow2_adds, lemma_pow2_pos, pow2,
};
use vstd::prelude::*;

verus! {

/// Nanoseconds in a second.
pub const SECOND: u64 = 1_000_000_000;

/// How many frames the frame rate is taken over.
pub const WINDOW: usize = 30;

/// The frame rate of a recording where none was measured.
pub const DEFAULT_FPS: u32 = 30;

/// The highest frame rate of a recording.
pub const MAX_FPS: u32 = 120;

/// A number of nanoseconds in seconds, as a binary64 value.
pub open spec fn seconds(ns: int) -> int {
    double_add(whole_double(ns / SECOND as int), fraction(ns % SECOND as int, SECOND as int))
}

/// The time between the first and the last frame.
pub open spec fn span(t: Seq<u64>) -> int {
    if t.last() >= t.first() {
        t.last() - t.first()
    } else {
        0
    }
}

/// Whether a frame rate can be told from the frames.
pub open spec fn measured(t: Seq<u64>) -> bool {
    t.len() > 1 && span(t) > 0
}

/// Frames per second, as a binary64 value.
pub open spec fn rate(t: Seq<u64>) -> int {
    double_div(whole_double(t.len() - 1), seconds(span(t)))
}

/// The frame rate as shown: a whole number.
pub open spec fn rate_shown(t: Seq<u64>) -> Seq<char> {
    if t.len() <= 1 {
        decimal(0)
    } else if span(t) == 0 {
        "inf"@
    } else {
        decimal(nearest_even(rate(t) as nat, pow2(1074)))
    }
}

/// The frame rate that a recording is given.
pub open spec fn recording_rate(t: Seq<u64>) -> int {
    if !measured(t) {
        DEFAULT_FPS as int
    } else if nearest_whole(1074, rate(t)) < 1 {
        1
    } else if nearest_whole(1074, rate(t)) > MAX_FPS {
        MAX_FPS as int
    } else {
        nearest_whole(1074, rate(t))
    }
}

/// The times after one more frame: the last few only.
pub open spec fn advanced(t: Seq<u64>, now: u64) -> Seq<u64> {
    if t.len() == WINDOW {
        t.skip(1).push(now)
    } else {
        t.push(now)
    }
}

/// Nanoseconds in seconds.
fn to_seconds(ns: u64) -> (v: Double)
    ensures
        v@ == seconds(ns as int),
        within(v@, 1111),
        ns > 0 ==> v@ >= pow2(1042),
        ns == 0 ==> v@ == 0,
{
    let s: u64 = ns / SECOND;
    let n: u32 = (ns % SECOND) as u32;
    proof {
        lemma2_to64();
        lemma2_to64_rest();
        lemma_pow2_pos(1074);
        lemma_whole_within(s as int, 36);
        lemma_pow2_below(1106, 1110);
        assert(s * pow2(1074) >= 0) by (nonlinear_arith);
    }
    let whole = Double::from_int(s);
    let part = ratio(n, 1_000_000_000);
    let v = plus(&whole, &part, Ghost(1110));
    proof {
        let u = pow2(1074);
        assert(1 * pow2(1042) == pow2(1042));
        lemma_pow2_pos(53);
        lemma_pow2_pos(1042);
        assert(part@ >= 0 && (n == 0 ==> part@ == 0)) by {
            assert(n * u * u >= 0) by (nonlinear_arith);
            assert(1_000_000_000 * u > 0) by (nonlinear_arith)
                requires
                    u > 0,
            ;
            if n == 0 {
                assert(0 * u == 0);
                lemma_rounded_zero(53, (1_000_000_000 * u) as nat);
            }
        }
        if ns > 0 {
            if s > 0 {
                lemma_pow2_below(1042, 1074);
                assert(s * u >= u) by (nonlinear_arith)
                    requires
                        s >= 1,
                ;
            }
            lemma_rounded_lower(53, (whole@ + part@) as nat, 1, 1, 1042);
        } else {
            assert(0 * u == 0);
            lemma_rounded_zero(53, 1);
        }
    }
    v
}

/// The times of the last few frames.
pub struct FpsWindow {
    times: VecDeque<u64>,
}

impl View for FpsWindow {
    type V = Seq<u64>;

    closed spec fn view(&self) -> Seq<u64> {
        self.times@
    }
}

impl FpsWindow {
    /// Whether there are no more times than the frame rate is taken over.
    pub open spec fn wf(&self) -> bool {
        self@.len() <= WINDOW
    }

    /// No frame yet.
    pub fn new() -> (w: Self)
        ensures
            w.wf(),
            w@ == Seq::<u64>::empty(),
    {
        FpsWindow { times: VecDeque::new() }
    }

    /// Takes the time of a frame.
    pub fn push(&mut self, now: u64)
        requires
            old(self).wf(),
        ensures
            final(self).wf(),
            final(self)@ == advanced(old(self)@, now),
    {
        if self.times.len() == WINDOW {
            let _ = self.times.pop_front();
            assert(self.times@ =~= old(self)@.skip(1));
        }
        self.times.push_back(now);
    }

    /// The time between the first and the last frame.
    fn span(&self) -> (ns: u64)
        requires
            self@.len() > 0,
        ensures
            ns == span(self@),
    {
        let first: u64 = self.times[0];
        let last: u64 = self.times[self.times.len() - 1];
        if last >= first {
            last - first
        } else {
            0
        }
    }

    /// Frames per second.
    fn rate(&self) -> (v: Double)
        requires
            self.wf(),
            measured(self@),
        ensures
            v@ == rate(self@),
            0 <= v@ < pow2(62) * pow2(1074),
    {
        let n: usize = self.times.len() - 1;
        let s = to_seconds(self.span());
        proof {
            lemma2_to64();
            lemma2_to64_rest();
            lemma_pow2_pos(1074);
            lemma_whole_within(n as int, 5);
            lemma_pow2_adds(62, 1074);
            lemma_pow2_below(1112, 1136);
            vstd::arithmetic::power2::lemma_pow2_strictly_increases(1111, 1112);
            assert(n * pow2(1074) * pow2(1074) >= 0) by (nonlinear_arith);
        }
        let r = over(&integer(n as u32), &s, Ghost(1079), Ghost(1042));
        r
    }

    /// The frame rate as shown.
    pub fn rate_text(&self) -> (s: String)
        requires
            self.wf(),
        ensures
            s@ == rate_shown(self@),
    {
        let mut s = String::new();
        if self.times.len() <= 1 {
            append_decimal(&mut s, 0);
        } else if self.span() == 0 {
            s.append("inf");
        } else {
            let v = self.rate();
            assert(v@ * 1 == v@);
            append_decimal(&mut s, v.nearest_multiple(1));
        }
        proof {
            assert(s@ =~= rate_shown(self@));
        }
        s
    }

    /// The frame rate to record with.
    pub fn recording_rate(&self) -> (fps: u32)
        requires
            self.wf(),
        ensures
            fps == recording_rate(self@),
            1 <= fps <= MAX_FPS,
    {
        if self.times.len() <= 1 || self.span() == 0 {
            return DEFAULT_FPS;
        }
        let n: u64 = self.rate().round();
        if n < 1 {
            1
        } else if n > MAX_FPS as u64 {
            MAX_FPS
        } else {
            n as u32
        }
    }
}

/// A number of nanoseconds in milliseconds, as a binary64 value.
pub open spec fn milliseconds(ns: int) -> int {
    double_mul(seconds(ns), whole_double(1000))
}

/// A binary64 value with two digits behind the point.
pub open spec fn two_digits(v: int) -> Seq<char> {
    hundredths(nearest_even((v * 100) as nat, pow2(1074)))
}

/// Nanoseconds in milliseconds.
fn to_milliseconds(ns: u64) -> (v: Double)
    ensures
        v@ == milliseconds(ns as int),
        0 <= v@,
        within(v@, 1121),
{
    let s = to_seconds(ns);
    proof {
        let u = pow2(1074);
        lemma2_to64();
        lemma_pow2_pos(1042);
        lemma_pow2_pos(1074);
        lemma_whole_within(1000, 10);
        assert(s@ * (1000 * u) >= 0) by (nonlinear_arith)
            requires
                s@ >= 0,
        ;
    }
    times(&s, &integer(1000), Ghost(1111), Ghost(1084))
}

/// Appends a value with two digits behind the point.
fn append_two_digits(s: &mut String, v: &Double)
    requires
        0 <= v@,
        within(v@, 1121),
    ensures
        final(s)@ == old(s)@ + two_digits(v@),
{
    proof {
        lemma2_to64();
        lemma2_to64_rest();
        lemma_pow2_adds(62, 1074);
        lemma_pow2_adds(7, 1121);
        lemma_pow2_pos(1121);
        vstd::arithmetic::power2::lemma_pow2_strictly_increases(1128, 1136);
        assert(v@ * 100 <= 128 * pow2(1121));
    }
    append_hundredths(s, v.nearest_multiple(100));
}

/// The longest of some times.
pub open spec fn longest(t: Seq<u64>) -> int
    decreases t.len(),
{
    if t.len() == 0 {
        0
    } else if t.last() > longest(t.drop_last()) {
        t.last() as int
    } else {
        longest(t.drop_last())
    }
}

/// All times together.
pub open spec fn total(t: Seq<u64>) -> int
    decreases t.len(),
{
    if t.len() == 0 {
        0
    } else {
        total(t.drop_last()) + t.last()
    }
}

/// The report on some latencies.
pub open spec fn latency_line(t: Seq<u64>) -> Seq<char> {
    "latency read->present: avg "@ + two_digits(
        double_div(milliseconds(total(t)), whole_double(t.len() as int)),
    ) + " ms, max "@ + two_digits(milliseconds(longest(t))) + " ms, n="@ + decimal(t.len())
}

/// The latencies since the last report: how many, how long in all, and the longest.
pub struct Latencies {
    n: u32,
    total: u64,
    longest: u64,
    samples: Ghost<Seq<u64>>,
}

impl View for Latencies {
    type V = Seq<u64>;

    closed spec fn view(&self) -> Seq<u64> {
        self.samples@
    }
}

impl Latencies {
    /// Whether the figures are those of the latencies.
    pub closed spec fn wf(&self) -> bool {
        &&& self.n == self.samples@.len()
        &&& self.total == total(self.samples@)
        &&& self.longest == longest(self.samples@)
    }

    /// None yet.
    pub fn new() -> (l: Self)
        ensures
            l.wf(),
            l@ == Seq::<u64>::empty(),
    {
        Latencies { n: 0, total: 0, longest: 0, samples: Ghost(Seq::empty()) }
    }

    /// Takes one more, unless all together would be too long to count: then nothing changes.
    pub fn push(&mut self, ns: u64) -> (taken: bool)
        requires
            old(self).wf(),
        ensures
            final(self).wf(),
            taken == (total(old(self)@) + ns <= u64::MAX && old(self)@.len() < u32::MAX),
            taken ==> final(self)@ == old(self)@.push(ns),
            !taken ==> *final(self) == *old(self),
    {
        if self.n == u32::MAX || self.total > u64::MAX - ns {
            return false;
        }
        proof {
            assert(self.samples@.push(ns).drop_last() =~= self.samples@);
        }
        self.n = self.n + 1;
        self.total = self.total + ns;
        if ns > self.longest {
            self.longest = ns;
        }
        self.samples = Ghost(self.samples@.push(ns));
        true
    }

    /// Whether to report, so long after the last report.
    pub fn due(&self, since: u64) -> (due: bool)
        requires
            self.wf(),
        ensures
            due == (since > SECOND && self@.len() > 0),
    {
        since > SECOND && self.n > 0
    }

    /// The report.
    pub fn line(&self) -> (s: String)
        requires
            self.wf(),
            self@.len() > 0,
        ensures
            s@ == latency_line(self@),
    {
        let avg_ms = to_milliseconds(self.total);
        let max_ms = to_milliseconds(self.longest);
        let count = integer(self.n);
        let avg = over(&avg_ms, &count, Ghost(1121), Ghost(1074));
        proof {
            let u = pow2(1074);
            lemma_pow2_pos(1074);
            assert(avg_ms@ * u >= 0) by (nonlinear_arith)
                requires
                    avg_ms@ >= 0,
            ;
        }
        let mut s = String::from_str("latency read->present: avg ");
        append_two_digits(&mut s, &avg);
        s.append(" ms, max ");
        append_two_digits(&mut s, &max_ms);
        s.append(" ms, n=");
        append_decimal(&mut s, self.n as u64);
        s
    }
}

/// The window keeps the times of the last 30 frames, in order.
pub proof fn lemma_window_keeps_last(times: Seq<u64>)
    ensures
        times.fold_left(Seq::<u64>::empty(), |w: Seq<u64>, t: u64| advanced(w, t)) == (if times.len() <= 30 {
            times
        } else {
            times.skip(times.len() - 30)
        }),
    decreases times.len(),
{
    let f = |w: Seq<u64>, t: u64| advanced(w, t);
    let w = times.fold_left(Seq::<u64>::empty(), f);
    if times.len() == 0 {
        assert(w =~= times);
    } else {
        let rest = times.drop_last();
        lemma_window_keeps_last(rest);
        let v = rest.fold_left(Seq::<u64>::empty(), f);
        assert(w == advanced(v, times.last()));
        if times.len() <= 30 {
            assert(w =~= times);
        } else if times.len() == 31 {
            assert(w =~= times.skip(1));
        } else {
            assert(w =~= times.skip(times.len() - 30));
        }
    }
}

/// The time over which the frame rate is measured is that from the first to the last frame, and none
/// if the clock went back.
pub proof fn lemma_span(t: Seq<u64>)
    requires
        t.len() > 0,
    ensures
        t[t.len() - 1] >= t[0] ==> span(t) == t[t.len() - 1] - t[0],
        t[t.len() - 1] < t[0] ==> span(t) == 0,
        measured(t) <==> t.len() > 1 && t[t.len() - 1] > t[0],
{
}

/// A number of nanoseconds in seconds, and in a sum of times, is exact to the last few bits.
pub proof fn lemma_seconds_close(ns: int)
    requires
        0 < ns <= u64::MAX,
    ensures
        ({
            let e = seconds(ns) * 1_000_000_000 - ns * pow2(1074);
            let limit = ns * pow2(1074);
            &&& -limit <= 0x4_0000_0000_0000 * e <= limit
            &&& seconds(0) == 0
            &&& seconds(ns) > 0
        }),
{
    let u = pow2(1074);
    let g: int = 1_000_000_000;
    let s = ns / g;
    let r = ns % g;
    lemma2_to64();
    lemma2_to64_rest();
    lemma_pow2_pos(1074);
    lemma_pow2_below(53, 1074);
    vstd::arithmetic::div_mod::lemma_fundamental_div_mod(ns, g);
    let part = fraction(r, g);
    lemma_fraction_close(r, g);
    let x = s * u + part;
    assert(s * u >= 0) by (nonlinear_arith)
        requires
            s >= 0,
    ;
    assert(x >= pow2(52)) by {
        if s > 0 {
            assert(s * u >= u) by (nonlinear_arith)
                requires
                    s >= 1,
            ;
        } else {
            lemma_pow2_adds(53, 1021);
            lemma_pow2_below(52, 1021);
            lemma_pow2_pos(1021);
            assert(r >= 1);
            assert(part >= pow2(1021)) by (nonlinear_arith)
                requires
                    0x20_0000_0000_0000 * (part * g - r * u) >= -(r * u),
                    r >= 1,
                    g == 1_000_000_000,
                    u == 0x20_0000_0000_0000 * pow2(1021),
                    pow2(1021) > 0,
            ;
        }
    }
    assert(1 * pow2(52) == pow2(52));
    lemma_rounded_near(53, x as nat, 1, 52);
    let v = rounded(53, x as nat, 1);
    assert(seconds(ns) == v);
    assert(v * 1 == v);
    assert(-x <= 0x20_0000_0000_0000 * (v - x) <= x);
    let t = ns * u;
    let w = r * u;
    assert(t == g * (s * u) + w && 0 <= w <= t) by (nonlinear_arith)
        requires
            t == ns * u,
            w == r * u,
            ns == g * s + r,
            0 <= r <= ns,
            u > 0,
    ;
    assert(x * g == g * (s * u) + part * g) by (nonlinear_arith)
        requires
            x == s * u + part,
    ;
    assert(-(x * g) <= 0x20_0000_0000_0000 * (v * g - x * g) <= x * g) by (nonlinear_arith)
        requires
            -x <= 0x20_0000_0000_0000 * (v - x) <= x,
            g > 0,
    ;
    assert(v > 0);
    assert(seconds(0) == 0) by {
        assert(0 * u == 0);
        assert(g * u > 0) by (nonlinear_arith)
            requires
                g > 0,
                u > 0,
        ;
        lemma_rounded_zero(53, (g * u) as nat);
        lemma_rounded_zero(53, 1);
    }
}

/// A quotient of small integers is exact to its last bit.
proof fn lemma_fraction_close(r: int, g: int)
    requires
        0 <= r,
        0 < g < 0x1_0000_0000,
    ensures
        fraction(r, g) >= 0,
        -(r * pow2(1074)) <= 0x20_0000_0000_0000 * (fraction(r, g) * g - r * pow2(1074)) <= r * pow2(1074),
{
    let u = pow2(1074);
    lemma2_to64();
    lemma2_to64_rest();
    lemma_pow2_pos(1074);
    lemma_pow2_pos(990);
    lemma_pow2_adds(32, 52);
    lemma_pow2_adds(84, 990);
    let n = r * u;
    assert(n >= 0 && n * u >= 0 && g * u > 0 && u * n == n * u && u * g == g * u) by (nonlinear_arith)
        requires
            n == r * u,
            r >= 0,
            g > 0,
            u > 0,
    ;
    lemma_rounded_scaled(53, n as nat, g as nat, u);
    let v = rounded(53, n as nat, g as nat);
    assert(fraction(r, g) == v);
    if r == 0 {
        assert(0 * u == 0);
        lemma_rounded_zero(53, g as nat);
        assert(0 * g == 0);
    } else {
        assert(n >= g * pow2(52)) by (nonlinear_arith)
            requires
                n == r * u,
                r >= 1,
                u == pow2(84) * pow2(990),
                pow2(84) == 0x1_0000_0000 * pow2(52),
                pow2(990) >= 1,
                pow2(52) > 0,
                g < 0x1_0000_0000,
        ;
        lemma_rounded_near(53, n as nat, g as nat, 52);
    }
}

/// The frame rate is the number of frames after the first, over the time between the first and the
/// last, exact to the last few bits.
pub proof fn lemma_rate_close(t: Seq<u64>)
    requires
        1 < t.len() <= 30,
        t[t.len() - 1] > t[0],
    ensures
        ({
            let x = ((t.len() - 1) * 1_000_000_000) * pow2(1074);
            let e = rate(t) * (t[t.len() - 1] - t[0]) - x;
            &&& rate(t) > 0
            &&& -x <= 0x1_0000_0000_0000 * e <= x
        }),
{
    let u = pow2(1074);
    let g: int = 1_000_000_000;
    let ns = span(t);
    let n = t.len() - 1;
    let s = seconds(ns);
    lemma2_to64();
    lemma2_to64_rest();
    lemma_pow2_pos(1074);
    lemma_span(t);
    lemma_seconds_close(ns);
    let a = n * u;
    assert(a > 0 && a * u > 0) by (nonlinear_arith)
        requires
            a == n * u,
            n >= 1,
            u > 0,
    ;
    lemma_pow2_adds(64, 1010);
    lemma_pow2_below(128, 1010);
    lemma_pow2_adds(64, 64);
    assert(a * u >= s * pow2(52)) by (nonlinear_arith)
        requires
            a == n * u,
            n >= 1,
            0x4_0000_0000_0000 * (s * g - ns * u) <= ns * u,
            g == 1_000_000_000,
            0 < ns <= 0xffff_ffff_ffff_ffff,
            u == 0x1_0000_0000_0000_0000 * pow2(1010),
            pow2(1010) >= pow2(128),
            pow2(128) == 0x1_0000_0000_0000_0000 * 0x1_0000_0000_0000_0000,
            pow2(52) == 0x10_0000_0000_0000,
            u > 0,
            s > 0,
    ;
    lemma_rounded_near(53, (a * u) as nat, s as nat, 52);
    let v = rounded(53, (a * u) as nat, s as nat);
    assert(rate(t) == v);
    assert(v > 0) by (nonlinear_arith)
        requires
            -(a * u) <= 0x20_0000_0000_0000 * (v * s - a * u),
            a * u > 0,
            s > 0,
            v >= 0,
    ;
    lemma_rate_error(v as int, s, ns, n, u as int);
}

/// The error of a quotient whose divisor has an error.
proof fn lemma_rate_error(v: int, s: int, ns: int, n: int, u: int)
    requires
        v > 0,
        s > 0,
        ns > 0,
        n > 0,
        u > 0,
        -(ns * u) <= 0x4_0000_0000_0000 * (s * 1_000_000_000 - ns * u) <= ns * u,
        -(n * u * u) <= 0x20_0000_0000_0000 * (v * s - n * u * u) <= n * u * u,
    ensures
        ({
            let x = (n * 1_000_000_000) * u;
            -x <= 0x1_0000_0000_0000 * (v * ns - x) <= x
        }),
{
    let g: int = 1_000_000_000;
    let k: int = 0x4_0000_0000_0000;
    let a = n * u;
    let p = v * s;
    let y = a * u;
    let q = v * ns;
    let x = (n * g) * u;
    assert(n * u * u == y && x == a * g && x * u == y * g) by (nonlinear_arith)
        requires
            a == n * u,
            y == a * u,
            x == (n * g) * u,
    ;
    // v * (ns * u) is near v * s * g, and that is near n * u * u * g
    assert((k - 1) * (q * u) <= k * (p * g) <= (k + 1) * (q * u)) by (nonlinear_arith)
        requires
            p == v * s,
            q == v * ns,
            v > 0,
            (k - 1) * (ns * u) <= k * (s * g) <= (k + 1) * (ns * u),
    ;
    let big: int = 0x20_0000_0000_0000;
    assert((big - 1) * (y * g) <= big * (p * g) <= (big + 1) * (y * g)) by (nonlinear_arith)
        requires
            (big - 1) * y <= big * p <= (big + 1) * y,
            g > 0,
    ;
    let w = q * u;
    let z = p * g;
    let t = x * u;
    assert(y > 0 && t > 0 && w > 0) by (nonlinear_arith)
        requires
            a == n * u,
            y == a * u,
            n > 0,
            u > 0,
            t == y * g,
            g > 0,
            w == q * u,
            q == v * ns,
            v > 0,
            ns > 0,
    ;
    assert(-t <= 0x1_0000_0000_0000 * (w - t) <= t);
    assert(-x <= 0x1_0000_0000_0000 * (q - x) <= x) by (nonlinear_arith)
        requires
            w == q * u,
            t == x * u,
            -t <= 0x1_0000_0000_0000 * (w - t) <= t,
            u > 0,
    ;
}

/// A recording has the measured frame rate to the nearest whole number, but at least 1 and at most
/// 120, and 30 where none was measured.
pub proof fn lemma_recording_rate(t: Seq<u64>)
    ensures
        t.len() <= 1 || t[t.len() - 1] <= t[0] ==> recording_rate(t) == 30,
        1 <= recording_rate(t) <= 120,
        t.len() > 1 && t[t.len() - 1] > t[0] && rate(t) >= 0 ==> {
            let fps = recording_rate(t);
            &&& fps > 1 ==> 2 * (fps * pow2(1074) - rate(t)) <= pow2(1074)
            &&& fps < 120 ==> 2 * (rate(t) - fps * pow2(1074)) < pow2(1074)
        },
{
    let u = pow2(1074) as int;
    lemma_pow2_pos(1074);
    if t.len() > 1 && t[t.len() - 1] > t[0] && rate(t) >= 0 {
        lemma_integers_of(1074, rate(t));
        let n = nearest_whole(1074, rate(t));
        if n < 1 {
            assert(n * u <= 1 * u) by (nonlinear_arith)
                requires
                    n < 1,
                    u > 0,
            ;
        } else if n > 120 {
            assert(n * u >= 120 * u) by (nonlinear_arith)
                requires
                    n > 120,
                    u > 0,
            ;
        }
    }
}

/// The frame rate shown is the measured one to the nearest whole number.
pub proof fn lemma_rate_shown(t: Seq<u64>, n: nat)
    requires
        n == nearest_even(rate(t) as nat, pow2(1074)),
    ensures
        t.len() <= 1 ==> rate_shown(t) == decimal(0),
        t.len() > 1 && t[t.len() - 1] <= t[0] ==> rate_shown(t) == "inf"@,
        t.len() > 1 && t[t.len() - 1] > t[0] ==> rate_shown(t) == decimal(n),
{
}

/// The longest time is one of the times, and none is longer; the total is their sum in order.
pub proof fn lemma_latency_figures(t: Seq<u64>, i: int)
    requires
        0 <= i < t.len(),
    ensures
        t[i] <= longest(t),
        t.contains(longest(t) as u64),
        0 <= longest(t) <= u64::MAX,
        total(t) == t.fold_left(0int, |sum: int, x: u64| sum + x),
    decreases t.len(),
{
    let rest = t.drop_last();
    let f = |sum: int, x: u64| sum + x;
    assert(t.last() == t[t.len() - 1]);
    if rest.len() > 0 {
        lemma_latency_figures(rest, if i < rest.len() {
            i
        } else {
            0
        });
        if t.last() <= longest(rest) {
            let k = choose|k: int| 0 <= k < rest.len() && rest[k] == longest(rest) as u64;
            assert(t[k] == longest(t) as u64);
        }
    } else {
        assert(rest.fold_left(0int, f) == 0);
        assert(longest(rest) == 0 && total(rest) == 0);
        assert(t.fold_left(0int, f) == f(rest.fold_left(0int, f), t.last()));
        assert(t[0] == longest(t) as u64);
    }
}

/// The report gives the mean and the longest time in milliseconds with two digits behind the point,
/// and the number of times.
pub proof fn lemma_latency_line(t: Seq<u64>)
    ensures
        latency_line(t) == "latency read->present: avg "@ + two_digits(
            double_div(
                double_mul(seconds(total(t)), (1000 * pow2(1074)) as int),
                (t.len() * pow2(1074)) as int,
            ),
        ) + " ms, max "@ + two_digits(double_mul(seconds(longest(t)), (1000 * pow2(1074)) as int)) + " ms, n="@ + decimal(
            t.len(),
        ),
{
}

/// Two digits behind the point show a value to the nearest hundredth, and of two that are equally
/// near the even one.
pub proof fn lemma_two_digits(v: int, n: nat)
    requires
        v >= 0,
        -(pow2(1074) as int) <= 2 * (n * pow2(1074) - v * 100) <= pow2(1074),
        n % 2 == 0 || -(pow2(1074) as int) < 2 * (n * pow2(1074) - v * 100) < pow2(1074),
    ensures
        two_digits(v) == hundredths(n),
{
    lemma_pow2_pos(1074);
    lemma_nearest_even((v * 100) as nat, pow2(1074), n);
}

/// The integer nearest to a quotient, and of two that are equally near the even one.
proof fn lemma_nearest_even(a: nat, d: nat, n: nat)
    requires
        d > 0,
        -(d as int) <= 2 * (n * d - a) <= d,
        n % 2 == 0 || -(d as int) < 2 * (n * d - a) < d,
    ensures
        nearest_even(a, d) == n,
{
    vstd::arithmetic::div_mod::lemma_fundamental_div_mod(a as int, d as int);
    let q = a / d;
    let r = a % d;
    let strict = -(d as int) < 2 * (n * d - a) < d;
    assert((n == q && 2 * r <= d && (strict ==> 2 * r < d)) || (n == q + 1 && 2 * r >= d && (strict ==> 2 * r > d)))
        by (nonlinear_arith)
        requires
            strict == (-(d as int) < 2 * (n * d - a) < d),
            a == d * q + r,
            0 <= r < d,
            -(d as int) <= 2 * (n * d - a) <= d,
            d > 0,
            n >= 0,
            q >= 0,
    ;
}

/// Seconds are taken from the whole seconds and the nanoseconds of the rest, and the rate from the
/// number of frames after the first.
pub proof fn lemma_seconds_parts(ns: int, t: Seq<u64>)
    ensures
        ({
            let u = pow2(1074) as int;
            let rest = double_div((ns % 1_000_000_000) * u, 1_000_000_000 * u);
            &&& seconds(ns) == double_add((ns / 1_000_000_000) * u, rest)
            &&& rate(t) == double_div((t.len() - 1) * u, seconds(span(t)))
        }),
{
}

} // verus!
