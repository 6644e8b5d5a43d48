//! Linear interpolation.
//!
//! Progress along a segment is an exact fraction `num / den` rather than a
//! float, so each result is the true interpolated value rounded to the
//! nearest integer, halves going away from zero.
use vstd::prelude::*;
use vstd::arithmetic::div_mod::{
    lemma_div_pos_is_pos, lemma_fundamental_div_mod, lemma_fundamental_div_mod_converse,
    lemma_mod_bound,
};

use crate::math::Point;

verus! {

/// How far along a segment an interpolation goes, as the fraction
/// `num / den`: 0 is the start, 1 the end, and values below 0 or above 1
/// extrapolate past the start or the end.
#[derive(Clone, Copy, Debug, PartialEq, Eq, Structural)]
pub struct Progress {
    pub num: i32,
    pub den: u32,
}

impl Progress {
    /// A usable progress has a positive denominator.
    pub open spec fn wf(self) -> bool {
        self.den > 0
    }

    pub fn new(num: i32, den: u32) -> (r: Progress)
        requires
            den > 0,
        ensures
            r.num == num,
            r.den == den,
            r.wf(),
    {
        Progress { num, den }
    }
}

/// Interpolation between common values and the basic laws it obeys.
pub trait Lerp: Sized {
    /// The value `percent` of the way from `self` to `end`.
    spec fn lerp_spec(self, end: Self, percent: Progress) -> Self;

    /// Interpolates from `self` to `end`; progress is not clamped.
    fn lerp(self, end: Self, percent: Progress) -> (r: Self)
        requires
            percent.wf(),
        ensures
            r == Self::lerp_spec(self, end, percent),
    ;

    /// Progress 0 gives the start and progress 1 gives the end.
    proof fn lemma_lerp_endpoints(start: Self, end: Self, percent: Progress)
        requires
            percent.wf(),
        ensures
            percent.num == 0 ==> Self::lerp_spec(start, end, percent) == start,
            percent.num == percent.den ==> Self::lerp_spec(start, end, percent) == end,
    ;

    /// A segment whose ends are equal is a single value at every progress.
    proof fn lemma_lerp_fixed_point(v: Self, percent: Progress)
        requires
            percent.wf(),
        ensures
            Self::lerp_spec(v, v, percent) == v,
    ;

    /// Going `p` of the way from `start` to `end` reaches the same value as
    /// going `1 - p` of the way back from `end` to `start`.
    proof fn lemma_lerp_symmetric(start: Self, end: Self, p: Progress, q: Progress)
        requires
            p.wf(),
            q.wf(),
            q.num * p.den == (p.den - p.num) * q.den,
        ensures
            Self::lerp_spec(end, start, q) == Self::lerp_spec(start, end, p),
    ;
}

/// The exact interpolated value from `a` to `b` at `percent`, rounded to the
/// nearest integer with halves going away from zero.
pub open spec fn interpolated(a: int, b: int, percent: Progress) -> int {
    round_half_away(a * percent.den + (b - a) * percent.num, percent.den as int)
}

/// Nearest integer to `n / d` for `d > 0`; a value exactly halfway between
/// two integers goes to the one further from zero.
pub open spec fn round_half_away(n: int, d: int) -> int
    recommends
        d > 0,
{
    if n >= 0 {
        (2 * n + d) / (2 * d)
    } else {
        -((d - 2 * n) / (2 * d))
    }
}

/// `v` limited to the closed range `[lo, hi]`.
pub open spec fn clamp(v: int, lo: int, hi: int) -> int {
    if v < lo {
        lo
    } else if v > hi {
        hi
    } else {
        v
    }
}

/// `round_half_away(n, d)` is the integer nearest to `n / d`: it lies within
/// one half of it, and where `n / d` is exactly halfway between two integers
/// it is the one further from zero.
pub proof fn lemma_round_half_away_nearest(n: int, d: int)
    requires
        d > 0,
    ensures
        n >= 0 ==> -d <= 2 * (n - round_half_away(n, d) * d) < d,
        n < 0 ==> -d < 2 * (n - round_half_away(n, d) * d) <= d,
{
    let r = round_half_away(n, d);
    if n >= 0 {
        let m = 2 * n + d;
        lemma_fundamental_div_mod(m, 2 * d);
        lemma_mod_bound(m, 2 * d);
        assert(-d <= 2 * (n - r * d) < d) by (nonlinear_arith)
            requires
                m == 2 * n + d,
                r == m / (2 * d),
                m == (2 * d) * (m / (2 * d)) + m % (2 * d),
                0 <= m % (2 * d) < 2 * d,
        ;
    } else {
        let m = d - 2 * n;
        lemma_fundamental_div_mod(m, 2 * d);
        lemma_mod_bound(m, 2 * d);
        assert(-d < 2 * (n - r * d) <= d) by (nonlinear_arith)
            requires
                m == d - 2 * n,
                r == -(m / (2 * d)),
                m == (2 * d) * (m / (2 * d)) + m % (2 * d),
                0 <= m % (2 * d) < 2 * d,
        ;
    }
}

/// Floor division is monotone in the value of the fraction.
proof fn lemma_div_monotone(n1: int, d1: int, n2: int, d2: int)
    requires
        d1 > 0,
        d2 > 0,
        n1 * d2 <= n2 * d1,
    ensures
        n1 / d1 <= n2 / d2,
{
    let q1 = n1 / d1;
    let q2 = n2 / d2;
    lemma_fundamental_div_mod(n1, d1);
    lemma_fundamental_div_mod(n2, d2);
    lemma_mod_bound(n1, d1);
    lemma_mod_bound(n2, d2);
    assert(q1 * d1 <= n1 && n2 < (q2 + 1) * d2) by (nonlinear_arith)
        requires
            n1 == d1 * q1 + n1 % d1,
            n2 == d2 * q2 + n2 % d2,
            0 <= n1 % d1,
            n2 % d2 < d2,
    ;
    if q1 > q2 {
        assert(n2 * d1 < n1 * d2) by (nonlinear_arith)
            requires
                d1 > 0,
                d2 > 0,
                q1 >= q2 + 1,
                q1 * d1 <= n1,
                n2 < (q2 + 1) * d2,
        {
            assert(n2 * d1 < (q2 + 1) * d2 * d1);
            assert((q2 + 1) * d2 * d1 <= q1 * d2 * d1);
            assert(q1 * d1 * d2 <= n1 * d2);
        }
    }
}

/// Rounding is monotone in the value of the fraction.
proof fn lemma_round_monotone(n1: int, d1: int, n2: int, d2: int)
    requires
        d1 > 0,
        d2 > 0,
        n1 * d2 <= n2 * d1,
    ensures
        round_half_away(n1, d1) <= round_half_away(n2, d2),
{
    if n1 >= 0 {
        assert(n2 >= 0) by (nonlinear_arith)
            requires
                d1 > 0,
                d2 > 0,
                n1 >= 0,
                n1 * d2 <= n2 * d1,
        ;
        assert((2 * n1 + d1) * (2 * d2) <= (2 * n2 + d2) * (2 * d1)) by (nonlinear_arith)
            requires
                n1 * d2 <= n2 * d1,
        ;
        lemma_div_monotone(2 * n1 + d1, 2 * d1, 2 * n2 + d2, 2 * d2);
    } else if n2 >= 0 {
        lemma_div_pos_is_pos(d1 - 2 * n1, 2 * d1);
        lemma_div_pos_is_pos(2 * n2 + d2, 2 * d2);
    } else {
        assert((d2 - 2 * n2) * (2 * d1) <= (d1 - 2 * n1) * (2 * d2)) by (nonlinear_arith)
            requires
                n1 * d2 <= n2 * d1,
        ;
        lemma_div_monotone(d2 - 2 * n2, 2 * d2, d1 - 2 * n1, 2 * d1);
    }
}

/// Rounding depends only on the value of the fraction.
proof fn lemma_round_same_value(n1: int, d1: int, n2: int, d2: int)
    requires
        d1 > 0,
        d2 > 0,
        n1 * d2 == n2 * d1,
    ensures
        round_half_away(n1, d1) == round_half_away(n2, d2),
{
    lemma_round_monotone(n1, d1, n2, d2);
    lemma_round_monotone(n2, d2, n1, d1);
}

/// An integer multiple of the denominator rounds to its exact quotient.
proof fn lemma_round_exact(v: int, d: int)
    requires
        d > 0,
    ensures
        round_half_away(v * d, d) == v,
{
    if v >= 0 {
        assert(v * d >= 0) by (nonlinear_arith)
            requires
                v >= 0,
                d > 0,
        ;
        assert(2 * (v * d) + d == v * (2 * d) + d) by (nonlinear_arith);
        lemma_fundamental_div_mod_converse(
            2 * (v * d) + d,
            2 * d,
            v,
            d,
        );
    } else {
        assert(v * d < 0) by (nonlinear_arith)
            requires
                v < 0,
                d > 0,
        ;
        assert(d - 2 * (v * d) == (-v) * (2 * d) + d) by (nonlinear_arith);
        lemma_fundamental_div_mod_converse(
            d - 2 * (v * d),
            2 * d,
            -v,
            d,
        );
    }
}


proof fn lemma_interpolated_endpoints(a: int, b: int, percent: Progress)
    requires
        percent.wf(),
    ensures
        percent.num == 0 ==> interpolated(a, b, percent) == a,
        percent.num == percent.den ==> interpolated(a, b, percent) == b,
{
    let d = percent.den as int;
    let n = percent.num as int;
    if n == 0 {
        assert(a * d + (b - a) * n == a * d) by (nonlinear_arith)
            requires
                n == 0,
        ;
        lemma_round_exact(a, d);
    }
    if n == d {
        assert(a * d + (b - a) * n == b * d) by (nonlinear_arith)
            requires
                n == d,
        ;
        lemma_round_exact(b, d);
    }
}

proof fn lemma_interpolated_fixed_point(v: int, percent: Progress)
    requires
        percent.wf(),
    ensures
        interpolated(v, v, percent) == v,
{
    let d = percent.den as int;
    assert(v * d + (v - v) * percent.num == v * d) by (nonlinear_arith);
    lemma_round_exact(v, d);
}

proof fn lemma_interpolated_symmetric(a: int, b: int, p: Progress, q: Progress)
    requires
        p.wf(),
        q.wf(),
        q.num * p.den == (p.den - p.num) * q.den,
    ensures
        interpolated(b, a, q) == interpolated(a, b, p),
{
    let pn = p.num as int;
    let pd = p.den as int;
    let qn = q.num as int;
    let qd = q.den as int;
    let k = qn * pd;
    assert((b * qd + (a - b) * qn) * pd == b * qd * pd + (a - b) * k) by (nonlinear_arith)
        requires
            k == qn * pd,
    ;
    let x = pd * qd;
    let y = pn * qd;
    assert((pd - pn) * qd == x - y) by (nonlinear_arith)
        requires
            x == pd * qd,
            y == pn * qd,
    ;
    assert(b * qd * pd == b * x) by (nonlinear_arith)
        requires
            x == pd * qd,
    ;
    assert((a * pd + (b - a) * pn) * qd == a * x + (b - a) * y) by (nonlinear_arith)
        requires
            x == pd * qd,
            y == pn * qd,
    ;
    assert(b * x + (a - b) * (x - y) == a * x + (b - a) * y) by (nonlinear_arith);
    lemma_round_same_value(b * qd + (a - b) * qn, qd, a * pd + (b - a) * pn, pd);
}

proof fn lemma_interpolated_monotone(a: int, b: int, p1: Progress, p2: Progress)
    requires
        p1.wf(),
        p2.wf(),
        a <= b,
        p1.num * p2.den <= p2.num * p1.den,
    ensures
        interpolated(a, b, p1) <= interpolated(a, b, p2),
{
    let n1 = p1.num as int;
    let d1 = p1.den as int;
    let n2 = p2.num as int;
    let d2 = p2.den as int;
    assert((a * d1 + (b - a) * n1) * d2 <= (a * d2 + (b - a) * n2) * d1) by (nonlinear_arith)
        requires
            a <= b,
            n1 * d2 <= n2 * d1,
    {
        assert((b - a) * (n1 * d2) <= (b - a) * (n2 * d1));
    }
    lemma_round_monotone(a * d1 + (b - a) * n1, d1, a * d2 + (b - a) * n2, d2);
}

/// `round_half_away(n, d)` computed on machine integers.
fn round_div(n: i128, d: i128) -> (r: i128)
    requires
        0 < d <= 0xffff_ffff,
        -0x1_0000_0000_0000_0000_0000_0000_0000 <= n <= 0x1_0000_0000_0000_0000_0000_0000_0000,
    ensures
        r == round_half_away(n as int, d as int),
{
    if n >= 0 {
        (2 * n + d) / (2 * d)
    } else {
        -((d - 2 * n) / (2 * d))
    }
}

/// `interpolated(a, b, percent)` computed on machine integers.
fn interpolate(a: i128, b: i128, percent: Progress) -> (r: i128)
    requires
        percent.wf(),
        -0x1_0000_0000_0000_0000 <= a <= 0x1_0000_0000_0000_0000,
        -0x1_0000_0000_0000_0000 <= b <= 0x1_0000_0000_0000_0000,
    ensures
        r == interpolated(a as int, b as int, percent),
{
    let den = percent.den as i128;
    let num = percent.num as i128;
    proof {
        let lim: int = 0x1_0000_0000_0000_0000;
        assert(-lim * 0x1_0000_0000 <= a * den <= lim * 0x1_0000_0000) by (nonlinear_arith)
            requires
                -lim <= a <= lim,
                0 < den <= 0x1_0000_0000,
        ;
        assert(-2 * lim * 0x1_0000_0000 <= (b - a) * num <= 2 * lim * 0x1_0000_0000)
            by (nonlinear_arith)
            requires
                -2 * lim <= b - a <= 2 * lim,
                -0x1_0000_0000 <= num <= 0x1_0000_0000,
        ;
    }
    let t = a * den + (b - a) * num;
    round_div(t, den)
}


/// Signed values: the exact result, saturated at the ends of `isize`.
impl Lerp for isize {
    open spec fn lerp_spec(self, end: isize, percent: Progress) -> isize {
        clamp(interpolated(self as int, end as int, percent), isize::MIN as int, isize::MAX as int) as isize
    }

    fn lerp(self, end: isize, percent: Progress) -> (r: isize) {
        let v = interpolate(self as i128, end as i128, percent);
        if v < isize::MIN as i128 {
            isize::MIN
        } else if v > isize::MAX as i128 {
            isize::MAX
        } else {
            v as isize
        }
    }

    proof fn lemma_lerp_endpoints(start: isize, end: isize, percent: Progress) {
        lemma_interpolated_endpoints(start as int, end as int, percent);
    }

    proof fn lemma_lerp_fixed_point(v: isize, percent: Progress) {
        lemma_interpolated_fixed_point(v as int, percent);
    }

    proof fn lemma_lerp_symmetric(start: isize, end: isize, p: Progress, q: Progress) {
        lemma_interpolated_symmetric(start as int, end as int, p, q);
    }
}

/// Unsigned values: the exact result, saturated at the ends of `usize`, so
/// a result that would fall below zero is zero.
impl Lerp for usize {
    open spec fn lerp_spec(self, end: usize, percent: Progress) -> usize {
        clamp(interpolated(self as int, end as int, percent), 0, usize::MAX as int) as usize
    }

    fn lerp(self, end: usize, percent: Progress) -> (r: usize) {
        let v = interpolate(self as i128, end as i128, percent);
        if v < 0 {
            0
        } else if v > usize::MAX as i128 {
            usize::MAX
        } else {
            v as usize
        }
    }

    proof fn lemma_lerp_endpoints(start: usize, end: usize, percent: Progress) {
        lemma_interpolated_endpoints(start as int, end as int, percent);
    }

    proof fn lemma_lerp_fixed_point(v: usize, percent: Progress) {
        lemma_interpolated_fixed_point(v as int, percent);
    }

    proof fn lemma_lerp_symmetric(start: usize, end: usize, p: Progress, q: Progress) {
        lemma_interpolated_symmetric(start as int, end as int, p, q);
    }
}

/// Points: each axis is interpolated on its own, as a signed value.
impl Lerp for Point {
    open spec fn lerp_spec(self, end: Point, percent: Progress) -> Point {
        Point {
            x: self.x.lerp_spec(end.x, percent),
            y: self.y.lerp_spec(end.y, percent),
        }
    }

    fn lerp(self, end: Point, percent: Progress) -> (r: Point) {
        Point::new(self.x.lerp(end.x, percent), self.y.lerp(end.y, percent))
    }

    proof fn lemma_lerp_endpoints(start: Point, end: Point, percent: Progress) {
        isize::lemma_lerp_endpoints(start.x, end.x, percent);
        isize::lemma_lerp_endpoints(start.y, end.y, percent);
    }

    proof fn lemma_lerp_fixed_point(v: Point, percent: Progress) {
        isize::lemma_lerp_fixed_point(v.x, percent);
        isize::lemma_lerp_fixed_point(v.y, percent);
    }

    proof fn lemma_lerp_symmetric(start: Point, end: Point, p: Progress, q: Progress) {
        isize::lemma_lerp_symmetric(start.x, end.x, p, q);
        isize::lemma_lerp_symmetric(start.y, end.y, p, q);
    }
}

/// Moving further along a rising segment never gives a smaller signed value.
pub proof fn lemma_isize_lerp_monotone(start: isize, end: isize, p1: Progress, p2: Progress)
    requires
        p1.wf(),
        p2.wf(),
        start <= end,
        p1.num * p2.den <= p2.num * p1.den,
    ensures
        start.lerp_spec(end, p1) <= start.lerp_spec(end, p2),
{
    lemma_interpolated_monotone(start as int, end as int, p1, p2);
}

/// Moving further along a rising segment never gives a smaller unsigned value.
pub proof fn lemma_usize_lerp_monotone(start: usize, end: usize, p1: Progress, p2: Progress)
    requires
        p1.wf(),
        p2.wf(),
        start <= end,
        p1.num * p2.den <= p2.num * p1.den,
    ensures
        start.lerp_spec(end, p1) <= start.lerp_spec(end, p2),
{
    lemma_interpolated_monotone(start as int, end as int, p1, p2);
}

} // verus!
