//! What the outcomes of requests say about the services on their paths.
//!
//! Two observables and no more: which services a request touched, and whether
//! it failed. The correlation of the two weighs the steps of a walk. Scoring
//! every service as the single fault explains all front ends at once: a
//! severity is fitted for each candidate, and because a severity is a
//! probability it is clamped, which is what separates the candidates. A service
//! that is on too few requests would need a severity above one.

use crate::double;
use crate::double::Double;
use crate::math;
use crate::ops::ranking;
use crate::ops::ranking::{Scored, Shortfall};
use crate::ops::services;
use crate::ops::services::{Topology, Trace, Workload};
use crate::rng;
use vstd::arithmetic::power2::lemma_pow2_adds;
use vstd::prelude::*;

verus! {

/// A rate of one.
pub const GRAIN: u64 = 0x10_0000_0000_0000;

/// The most front ends whose rates can be fitted in 128 bits.
pub const MAX_FRONTENDS: usize = 0x80_0000;

/// A correlation, from minus one to one.
#[derive(Clone, Copy, Debug, PartialEq, Eq)]
pub struct Correlation {
    pub negative: bool,
    pub size: Double,
}

impl Correlation {
    pub open spec fn value(&self) -> int {
        if self.negative {
            -self.size.value()
        } else {
            self.size.value()
        }
    }

    pub open spec fn well_formed(&self) -> bool {
        self.size.normal() && self.size.e <= 0x1_0000 && self.size.value() <= double::one()
    }
}

/// The spread of two yes-or-no values that are so with probability `a` and `b`.
pub open spec fn spread(a: int, b: int) -> int {
    let (no_a, no_b) = (
        double::difference(double::one(), a),
        double::difference(double::one(), b),
    );
    double::square_root(
        double::product(double::product(double::product(a, no_a), b), no_b),
    )
}

/// `x / y`, and at most one.
pub open spec fn at_most_one(x: int, y: int) -> int {
    let c = double::quotient(x, y);
    if c > double::one() {
        double::one()
    } else {
        c
    }
}

/// How much more often requests that touch a service fail than chance would
/// have it, from minus one to one: the correlation of two yes-or-no values in
/// double precision, and 0 where there is nothing to compare. Of `n` requests
/// `a` touch the service, `b` fail, and `x` do both.
pub open spec fn correlation(n: int, a: int, b: int, x: int) -> int {
    let all = double::of(n);
    let fa = double::quotient(double::of(a), all);
    let fb = double::quotient(double::of(b), all);
    if fa <= 0 || fa >= double::one() || fb <= 0 || fb >= double::one() {
        0
    } else {
        let both = double::quotient(double::of(x), all);
        let chance = double::product(fa, fb);
        let most = spread(fa, fb);
        if most <= 0 {
            0
        } else if both >= chance {
            at_most_one(double::difference(both, chance), most)
        } else {
            -at_most_one(double::difference(chance, both), most)
        }
    }
}

/// One, as a double.
fn unit() -> (d: Double)
    ensures
        d.value() == double::one(),
        d.normal(),
        d.e == 1022,
{
    proof {
        vstd::arithmetic::power2::lemma2_to64();
        vstd::arithmetic::power2::lemma2_to64_rest();
        lemma_pow2_adds(52, 1022);
    }
    Double { m: 0x10_0000_0000_0000, e: 1022 }
}

fn spread_of(a: Double, b: Double) -> (d: Double)
    requires
        a.normal(),
        b.normal(),
        a.e <= 0x1000,
        b.e <= 0x1000,
        a.value() <= double::one(),
        b.value() <= double::one(),
    ensures
        d.normal(),
        d.e <= 0x8000,
        d.value() == spread(a.value(), b.value()),
{
    let (no_a, no_b) = (unit().minus(a), unit().minus(b));
    a.times(no_a).times(b).times(no_b).sqrt()
}

fn ratio(x: Double, y: Double) -> (d: Double)
    requires
        x.normal(),
        y.normal(),
        x.e <= 0x8000,
        y.e <= 0x8000,
        y.m > 0,
    ensures
        d.normal(),
        d.e <= 0x1_0000,
        d.value() == at_most_one(x.value(), y.value()),
        d.value() <= double::one(),
{
    let c = x.over(y);
    if unit().at_least(c) {
        c
    } else {
        unit()
    }
}

fn nothing() -> (c: Correlation)
    ensures
        c.value() == 0,
        c.well_formed(),
{
    proof {
        double::lemma_one();
    }
    Correlation { negative: false, size: double::zero() }
}

fn correlate(n: u64, a: u64, b: u64, x: u64) -> (c: Correlation)
    requires
        n > 0,
    ensures
        c.value() == correlation(n as int, a as int, b as int, x as int),
        c.well_formed(),
{
    let all = Double::from_u64(n);
    proof {
        double::lemma_of_positive(n as int);
        all.lemma_sign();
    }
    let fa = Double::from_u64(a).over(all);
    let fb = Double::from_u64(b).over(all);
    proof {
        fa.lemma_sign();
        fb.lemma_sign();
    }
    if fa.m == 0 || fb.m == 0 || fa.at_least(unit()) || fb.at_least(unit()) {
        return nothing();
    }
    let both = Double::from_u64(x).over(all);
    let chance = fa.times(fb);
    let most = spread_of(fa, fb);
    proof {
        most.lemma_sign();
    }
    if most.m == 0 {
        nothing()
    } else if both.at_least(chance) {
        Correlation { negative: false, size: ratio(both.minus(chance), most) }
    } else {
        Correlation { negative: true, size: ratio(chance.minus(both), most) }
    }
}

/// For every service, how being on the path of a request goes with its failure.
pub fn failure_correlation(t: &Topology, w: &Workload) -> (r: Vec<Correlation>)
    requires
        t.n_services <= u32::MAX,
        services::paths_within(w.traces@, t.n_services as int),
        w.traces@.len() > 0,
    ensures
        r@.len() == t.n_services,
        forall|s: int|
            0 <= s < t.n_services ==> (#[trigger] r@[s]).well_formed() && r@[s].value()
                == correlation(
                w.traces@.len() as int,
                math::count(w.traces@.len(), services::touching(w.traces@, s)) as int,
                math::count(w.traces@.len(), services::has_failed(w.traces@)) as int,
                math::count(w.traces@.len(), services::touching_failed(w.traces@, s)) as int,
            ),
{
    let (touched, both, failed) = services::failure_counts(t.n_services, &w.traces);
    let n = w.traces.len() as u64;
    let mut r: Vec<Correlation> = Vec::new();
    for s in 0..t.n_services
        invariant
            n == w.traces@.len(),
            n > 0,
            touched@.len() == t.n_services,
            both@.len() == t.n_services,
            forall|s: int|
                0 <= s < t.n_services ==> #[trigger] touched@[s] == math::count(
                    w.traces@.len(),
                    services::touching(w.traces@, s),
                ),
            forall|s: int|
                0 <= s < t.n_services ==> #[trigger] both@[s] == math::count(
                    w.traces@.len(),
                    services::touching_failed(w.traces@, s),
                ),
            failed == math::count(w.traces@.len(), services::has_failed(w.traces@)),
            r@.len() == s,
            forall|s1: int|
                0 <= s1 < s ==> (#[trigger] r@[s1]).well_formed() && r@[s1].value() == correlation(
                    w.traces@.len() as int,
                    math::count(w.traces@.len(), services::touching(w.traces@, s1)) as int,
                    math::count(w.traces@.len(), services::has_failed(w.traces@)) as int,
                    math::count(w.traces@.len(), services::touching_failed(w.traces@, s1)) as int,
                ),
    {
        r.push(correlate(n, touched[s], failed, both[s]));
    }
    r
}

/// Trace `i` entered at service `f` and failed.
pub open spec fn entering_failed(traces: Seq<Trace>, f: u32) -> spec_fn(int) -> bool {
    |i: int| traces[i].path@.len() > 0 && traces[i].path@[0] == f && traces[i].failed
}

/// The failure rate of front end `f` in units of `1 / GRAIN`, rounded down.
pub open spec fn observed(traces: Seq<Trace>, f: u32) -> int {
    let n = math::count(traces.len(), services::entering(traces, f));
    if n == 0 {
        0
    } else {
        math::count(traces.len(), entering_failed(traces, f)) * GRAIN / (n as int)
    }
}

/// The failure rate that front end `f` would have if `c` failed every request
/// that touches it, and every failure came through with probability
/// `propagation`, on the same scale.
pub open spec fn predicted(traces: Seq<Trace>, propagation: u64, f: u32, c: int) -> int {
    let n = math::count(traces.len(), services::entering(traces, f));
    if n == 0 {
        0
    } else {
        math::count(traces.len(), services::entering_touching(traces, f, c)) * propagation / (n
            * 2) as int
    }
}

/// The sum of the products of the first `k` entries.
pub open spec fn dot(x: Seq<int>, y: Seq<int>, k: nat) -> int
    decreases k,
{
    if k == 0 {
        0
    } else {
        dot(x, y, (k - 1) as nat) + x[k - 1] * y[k - 1]
    }
}

/// How far predictions, scaled by the best severity in `[0, 1]`, stay from what
/// was observed: the sum of squares, rounded down.
pub open spec fn misfit(x: Seq<int>, y: Seq<int>) -> int {
    let xx = dot(x, x, x.len());
    let xy = dot(x, y, x.len());
    let yy = dot(y, y, x.len());
    if xy >= xx {
        xx - 2 * xy + yy
    } else {
        (yy * xx - xy * xy) / xx
    }
}

pub open spec fn observations(t: &Topology, traces: Seq<Trace>) -> Seq<int> {
    Seq::new(t.frontends@.len(), |i: int| observed(traces, t.frontends@[i]))
}

pub open spec fn predictions(t: &Topology, traces: Seq<Trace>, propagation: u64, c: int) -> Seq<
    int,
> {
    Seq::new(t.frontends@.len(), |i: int| predicted(traces, propagation, t.frontends@[i], c))
}

/// The candidates' scores: the smaller the misfit, the higher.
pub open spec fn fault_scores(t: &Topology, traces: Seq<Trace>, propagation: u64) -> Seq<int> {
    Seq::new(
        t.n_services as nat,
        |c: int|
            -misfit(predictions(t, traces, propagation, c), observations(t, traces)),
    )
}

/// Rates are between none and all.
pub open spec fn are_rates(x: Seq<int>) -> bool {
    forall|i: int| 0 <= i < x.len() ==> 0 <= #[trigger] x[i] <= GRAIN
}

/// The sum of products of small numbers is small.
pub proof fn lemma_dot_bound(x: Seq<int>, y: Seq<int>, k: nat)
    requires
        k <= x.len() == y.len(),
        are_rates(x),
        are_rates(y),
    ensures
        0 <= dot(x, y, k) <= k * 0x100_0000_0000_0000_0000_0000_0000,
    decreases k,
{
    if k > 0 {
        lemma_dot_bound(x, y, (k - 1) as nat);
        let (a, b) = (x[k - 1], y[k - 1]);
        assert(0 <= a * b <= 0x10_0000_0000_0000 * 0x10_0000_0000_0000) by (nonlinear_arith)
            requires
                0 <= a <= 0x10_0000_0000_0000,
                0 <= b <= 0x10_0000_0000_0000,
        ;
    }
}

/// The inequality of Cauchy and Schwarz, for numbers that are not negative.
proof fn lemma_cauchy(x: Seq<int>, y: Seq<int>, k: nat)
    requires
        k <= x.len() == y.len(),
        are_rates(x),
        are_rates(y),
    ensures
        dot(x, y, k) * dot(x, y, k) <= dot(y, y, k) * dot(x, x, k),
        2 * dot(x, y, k) <= dot(x, x, k) + dot(y, y, k),
    decreases k,
{
    if k > 0 {
        lemma_cauchy(x, y, (k - 1) as nat);
        lemma_dot_bound(x, x, (k - 1) as nat);
        lemma_dot_bound(x, y, (k - 1) as nat);
        lemma_dot_bound(y, y, (k - 1) as nat);
        let (a, b, c) = (
            dot(x, x, (k - 1) as nat),
            dot(x, y, (k - 1) as nat),
            dot(y, y, (k - 1) as nat),
        );
        let (p, q) = (x[k - 1], y[k - 1]);
        lemma_cross(a, b, c, p, q);
        assert(2 * (p * q) <= p * p + q * q) by (nonlinear_arith);
        assert((b + p * q) * (b + p * q) <= (c + q * q) * (a + p * p)) by {
            assert((b + p * q) * (b + p * q) == b * b + 2 * (b * (p * q)) + (p * q) * (p * q))
                by (nonlinear_arith);
            assert((c + q * q) * (a + p * p) == c * a + c * (p * p) + a * (q * q) + (q * q) * (p
                * p)) by (nonlinear_arith);
            assert((p * q) * (p * q) == (q * q) * (p * p)) by (nonlinear_arith);
        }
    } else {
        assert(0int * 0 == 0);
    }
}

/// The mixed term of the inequality.
proof fn lemma_cross(a: int, b: int, c: int, p: int, q: int)
    requires
        a >= 0,
        b >= 0,
        c >= 0,
        p >= 0,
        q >= 0,
        b * b <= c * a,
    ensures
        2 * (b * (p * q)) <= c * (p * p) + a * (q * q),
{
    let u = c * (p * p);
    let v = a * (q * q);
    let w = b * (p * q);
    assert(u >= 0 && v >= 0 && w >= 0) by (nonlinear_arith)
        requires
            a >= 0,
            b >= 0,
            c >= 0,
            p >= 0,
            q >= 0,
            u == c * (p * p),
            v == a * (q * q),
            w == b * (p * q),
    ;
    let m = (p * q) * (p * q);
    assert(m >= 0) by (nonlinear_arith)
        requires
            m == (p * q) * (p * q),
    ;
    assert(u * v == (c * a) * m) by (nonlinear_arith)
        requires
            u == c * (p * p),
            v == a * (q * q),
            m == (p * q) * (p * q),
    ;
    assert(w * w == (b * b) * m) by (nonlinear_arith)
        requires
            w == b * (p * q),
            m == (p * q) * (p * q),
    ;
    assert((b * b) * m <= (c * a) * m) by (nonlinear_arith)
        requires
            b * b <= c * a,
            m >= 0,
    ;
    assert(w * w <= u * v);
    assert(2 * w <= u + v) by (nonlinear_arith)
        requires
            w * w <= u * v,
            u >= 0,
            v >= 0,
            w >= 0,
    {
        assert((u + v) * (u + v) == (u - v) * (u - v) + 4 * (u * v));
        assert((u - v) * (u - v) >= 0);
        if 2 * w > u + v {
            assert((2 * w) * (2 * w) > (u + v) * (u + v));
            assert((2 * w) * (2 * w) == 4 * (w * w));
        }
    }
}

/// The squares of a misfit with severity `p / q`, over all front ends, times
/// `q` squared.
pub open spec fn squares(x: Seq<int>, y: Seq<int>, p: int, q: int) -> int {
    p * p * dot(x, x, x.len()) - 2 * (p * q) * dot(x, y, x.len()) + q * q * dot(y, y, x.len())
}

proof fn lemma_clamped(a: int, b: int, c: int, p: int, q: int)
    ensures
        (p * p * a - 2 * (p * q) * b + q * q * c) - q * q * (a - 2 * b + c) == (q - p) * (2 * q * b
            - (p + q) * a),
{
    let (pp, pq, qq) = (p * p, p * q, q * q);
    assert(qq * (a - 2 * b + c) == qq * a - 2 * (qq * b) + qq * c) by (nonlinear_arith);
    assert((q - p) * (2 * q * b - (p + q) * a) == q * (2 * q * b) - q * ((p + q) * a) - p * (2 * q
        * b) + p * ((p + q) * a)) by (nonlinear_arith);
    assert(q * (2 * q * b) == 2 * (qq * b)) by (nonlinear_arith)
        requires
            qq == q * q,
    ;
    assert(p * (2 * q * b) == 2 * (pq * b)) by (nonlinear_arith)
        requires
            pq == p * q,
    ;
    assert(q * ((p + q) * a) == pq * a + qq * a) by (nonlinear_arith)
        requires
            pq == p * q,
            qq == q * q,
    ;
    assert(p * ((p + q) * a) == pp * a + pq * a) by (nonlinear_arith)
        requires
            pp == p * p,
            pq == p * q,
    ;
    assert(2 * (p * q) * b == 2 * (pq * b)) by (nonlinear_arith)
        requires
            pq == p * q,
    ;
}

proof fn lemma_free(a: int, b: int, c: int, p: int, q: int)
    ensures
        (p * p * a - 2 * (p * q) * b + q * q * c) * a == (p * a - q * b) * (p * a - q * b) + (q * q)
            * (c * a - b * b),
{
    let (pp, pq, qq) = (p * p, p * q, q * q);
    let (u, v) = (p * a, q * b);
    assert((u - v) * (u - v) == u * u - 2 * (u * v) + v * v) by (nonlinear_arith);
    assert(u * u == (pp * a) * a) by (nonlinear_arith)
        requires
            u == p * a,
            pp == p * p,
    ;
    assert(u * v == (pq * b) * a) by (nonlinear_arith)
        requires
            u == p * a,
            v == q * b,
            pq == p * q,
    ;
    assert(v * v == qq * (b * b)) by (nonlinear_arith)
        requires
            v == q * b,
            qq == q * q,
    ;
    assert(qq * (c * a - b * b) == (qq * c) * a - qq * (b * b)) by (nonlinear_arith);
    assert((pp * a - 2 * (p * q) * b + qq * c) * a == (pp * a) * a - 2 * ((pq * b) * a) + (qq * c)
        * a) by (nonlinear_arith)
        requires
            pq == p * q,
    ;
}

/// The fit is the best there is: no severity in `[0, 1]` brings the predictions
/// closer to the observations.
pub proof fn lemma_fit_is_best(x: Seq<int>, y: Seq<int>, p: int, q: int)
    requires
        x.len() == y.len(),
        are_rates(x),
        are_rates(y),
        0 <= p <= q,
        0 < q,
    ensures
        q * q * misfit(x, y) <= squares(x, y, p, q),
{
    let a = dot(x, x, x.len());
    let b = dot(x, y, x.len());
    let c = dot(y, y, x.len());
    let m = misfit(x, y);
    let s = squares(x, y, p, q);
    lemma_dot_bound(x, x, x.len());
    lemma_dot_bound(x, y, x.len());
    if b >= a {
        let d = q - p;
        let e = 2 * q * b - (p + q) * a;
        lemma_clamped(a, b, c, p, q);
        assert(e >= 0) by (nonlinear_arith)
            requires
                e == 2 * q * b - (p + q) * a,
                b >= a,
                a >= 0,
                0 <= p <= q,
        ;
        assert(d * e >= 0) by (nonlinear_arith)
            requires
                d >= 0,
                e >= 0,
        ;
    } else {
        let g = c * a - b * b;
        vstd::arithmetic::div_mod::lemma_fundamental_div_mod(g, a);
        vstd::arithmetic::div_mod::lemma_mod_bound(g, a);
        assert(a * m <= g);
        let h = p * a - q * b;
        lemma_free(a, b, c, p, q);
        assert(h * h >= 0) by (nonlinear_arith);
        assert((q * q) * (a * m) <= (q * q) * g) by (nonlinear_arith)
            requires
                a * m <= g,
        ;
        assert((q * q) * (a * m) == (q * q * m) * a) by (nonlinear_arith);
        assert(q * q * m <= s) by (nonlinear_arith)
            requires
                (q * q * m) * a <= s * a,
                a > 0,
        ;
    }
}

pub open spec fn ints(s: Seq<u64>) -> Seq<int> {
    Seq::new(s.len(), |i: int| s[i] as int)
}

fn dot_of(x: &Vec<u64>, y: &Vec<u64>) -> (d: u128)
    requires
        x@.len() == y@.len() <= MAX_FRONTENDS,
        are_rates(ints(x@)),
        are_rates(ints(y@)),
    ensures
        d == dot(ints(x@), ints(y@), x@.len()),
        d <= 0x8000_0000_0000_0000_0000_0000_0000_0000,
{
    let ghost a = ints(x@);
    let ghost b = ints(y@);
    let mut d: u128 = 0;
    for i in 0..x.len()
        invariant
            x@.len() == y@.len() <= MAX_FRONTENDS,
            a == ints(x@),
            b == ints(y@),
            are_rates(a),
            are_rates(b),
            d == dot(a, b, i as nat),
            d <= i * 0x100_0000_0000_0000_0000_0000_0000,
    {
        proof {
            assert(0 <= a[i as int] <= GRAIN && 0 <= b[i as int] <= GRAIN);
            lemma_dot_bound(a, b, (i + 1) as nat);
        }
        let (p, q) = (x[i] as u128, y[i] as u128);
        assert(0 <= p * q <= 0x10_0000_0000_0000 * 0x10_0000_0000_0000) by (nonlinear_arith)
            requires
                0 <= p <= 0x10_0000_0000_0000,
                0 <= q <= 0x10_0000_0000_0000,
        ;
        d = d + p * q;
    }
    d
}

fn misfit_of(x: &Vec<u64>, y: &Vec<u64>) -> (m: u128)
    requires
        x@.len() == y@.len() <= MAX_FRONTENDS,
        are_rates(ints(x@)),
        are_rates(ints(y@)),
    ensures
        m == misfit(ints(x@), ints(y@)),
{
    let (xx, xy, yy) = (dot_of(x, x), dot_of(x, y), dot_of(y, y));
    proof {
        lemma_cauchy(ints(x@), ints(y@), x@.len());
    }
    if xy >= xx {
        // The observations are at least as far above as the predictions fall below.
        (yy - xy) - (xy - xx)
    } else {
        let (q, r) = math::mul_div(xy, xy, xx);
        proof {
            let (a, b, c, qi, ri) = (xx as int, xy as int, yy as int, q as int, r as int);
            let up: int = if ri > 0 {
                1
            } else {
                0
            };
            let g = c * a - b * b;
            assert(g == (c - qi - up) * a + (a * up - ri)) by (nonlinear_arith)
                requires
                    g == c * a - b * b,
                    b * b == a * qi + ri,
            ;
            assert(a * up == if up == 1 {
                a
            } else {
                0
            }) by (nonlinear_arith)
                requires
                    up == 0 || up == 1,
            ;
            vstd::arithmetic::div_mod::lemma_fundamental_div_mod_converse(
                g,
                a,
                c - qi - up,
                a * up - ri,
            );
            vstd::arithmetic::div_mod::lemma_div_pos_is_pos(g, a);
        }
        if r > 0 {
            yy - q - 1
        } else {
            yy - q
        }
    }
}

/// How many requests that entered at `f` failed.
fn count_failed(traces: &[Trace], f: u32) -> (n: u64)
    ensures
        n == math::count(traces@.len(), entering_failed(traces@, f)),
{
    let mut n: u64 = 0;
    for i in 0..traces.len()
        invariant
            n <= i,
            n == math::count(i as nat, entering_failed(traces@, f)),
    {
        let tr = &traces[i];
        if tr.path.len() > 0 && tr.path[0] == f && tr.failed {
            n += 1;
        }
    }
    n
}

/// `k * scale / (n * by)`, and 0 of nothing.
fn part(k: u64, scale: u64, n: u64, by: u64) -> (r: u64)
    requires
        k <= n,
        by > 0,
        scale <= by * GRAIN,
    ensures
        r == if n == 0 {
            0
        } else {
            k * scale / (n * by)
        },
        r <= GRAIN,
{
    if n == 0 {
        return 0;
    }
    proof {
        let (k, s, n, b, g) = (k as int, scale as int, n as int, by as int, GRAIN as int);
        assert(0 <= k * s <= 0xffff_ffff_ffff_ffff * 0xffff_ffff_ffff_ffff && 0 < n * b
            <= 0xffff_ffff_ffff_ffff * 0xffff_ffff_ffff_ffff) by (nonlinear_arith)
            requires
                0 <= k <= 0xffff_ffff_ffff_ffff,
                0 <= s <= 0xffff_ffff_ffff_ffff,
                0 < n <= 0xffff_ffff_ffff_ffff,
                0 < b <= 0xffff_ffff_ffff_ffff,
        ;
        assert(k * s <= (n * b) * g) by (nonlinear_arith)
            requires
                0 <= k <= n,
                0 <= s <= b * g,
                0 < b,
        {
            assert(k * s <= n * (b * g));
            assert(n * (b * g) == (n * b) * g);
        }
        vstd::arithmetic::div_mod::lemma_div_is_ordered(k * s, (n * b) * g, n * b);
        vstd::arithmetic::div_mod::lemma_div_multiples_vanish(g, n * b);
    }
    (k as u128 * scale as u128 / (n as u128 * by as u128)) as u64
}

proof fn lemma_counts_below(traces: Seq<Trace>, f: u32, c: int)
    ensures
        math::count(traces.len(), services::entering_touching(traces, f, c)) <= math::count(
            traces.len(),
            services::entering(traces, f),
        ),
        math::count(traces.len(), entering_failed(traces, f)) <= math::count(
            traces.len(),
            services::entering(traces, f),
        ),
{
    let all = services::entering(traces, f);
    math::lemma_count_monotone(
        traces.len(),
        services::entering_touching(traces, f, c),
        all,
    );
    math::lemma_count_monotone(traces.len(), entering_failed(traces, f), all);
}

/// Ranks the services as the single fault behind what the front ends show, the
/// best explanation first.
pub fn sherlock_single_fault(t: &Topology, w: &Workload, propagation: u64) -> (r: Vec<u32>)
    requires
        t.n_services <= u32::MAX,
        services::paths_within(w.traces@, t.n_services as int),
        t.frontends@.len() <= MAX_FRONTENDS,
        propagation <= rng::UNIT,
    ensures
        ranking::is_ranking(
            fault_scores(t, w.traces@, propagation),
            r@,
            t.n_services as int,
        ),
{
    let parts = services::participation(t, w);
    let mut y: Vec<u64> = Vec::new();
    for i in 0..t.frontends.len()
        invariant
            parts@.len() == t.frontends@.len(),
            forall|i: int|
                0 <= i < parts@.len() ==> (#[trigger] parts@[i]).1 == math::count(
                    w.traces@.len(),
                    services::entering(w.traces@, t.frontends@[i]),
                ),
            y@.len() == i,
            forall|j: int|
                0 <= j < i ==> #[trigger] y@[j] == observed(w.traces@, t.frontends@[j]) && y@[j]
                    <= GRAIN,
    {
        let f = t.frontends[i];
        let failed = count_failed(&w.traces, f);
        proof {
            lemma_counts_below(w.traces@, f, 0);
            assert(parts@[i as int].1 == math::count(
                w.traces@.len(),
                services::entering(w.traces@, f),
            ));
        }
        y.push(part(failed, GRAIN, parts[i].1, 1));
    }
    proof {
        assert(ints(y@) =~= observations(t, w.traces@));
    }
    let mut scores: Vec<Shortfall> = Vec::new();
    for c in 0..t.n_services
        invariant
            t.n_services <= u32::MAX,
            t.frontends@.len() <= MAX_FRONTENDS,
            propagation <= rng::UNIT,
            parts@.len() == t.frontends@.len(),
            forall|i: int|
                0 <= i < parts@.len() ==> (#[trigger] parts@[i]).0@.len() == t.n_services
                    && parts@[i].1 == math::count(
                    w.traces@.len(),
                    services::entering(w.traces@, t.frontends@[i]),
                ),
            forall|i: int, s: int|
                0 <= i < parts@.len() && 0 <= s < t.n_services ==> #[trigger] parts@[i].0@[s]
                    == math::count(
                    w.traces@.len(),
                    services::entering_touching(w.traces@, t.frontends@[i], s),
                ),
            y@.len() == t.frontends@.len(),
            ints(y@) == observations(t, w.traces@),
            are_rates(ints(y@)),
            scores@.len() == c,
            forall|d: int|
                0 <= d < c ==> (#[trigger] scores@[d]).score() == fault_scores(
                    t,
                    w.traces@,
                    propagation,
                )[d],
    {
        let mut x: Vec<u64> = Vec::new();
        for i in 0..parts.len()
            invariant
                c < t.n_services,
                t.n_services <= u32::MAX,
                propagation <= rng::UNIT,
                parts@.len() == t.frontends@.len(),
                forall|i: int|
                    0 <= i < parts@.len() ==> (#[trigger] parts@[i]).0@.len() == t.n_services
                        && parts@[i].1 == math::count(
                        w.traces@.len(),
                        services::entering(w.traces@, t.frontends@[i]),
                    ),
                forall|i: int, s: int|
                    0 <= i < parts@.len() && 0 <= s < t.n_services ==> #[trigger] parts@[i].0@[s]
                        == math::count(
                        w.traces@.len(),
                        services::entering_touching(w.traces@, t.frontends@[i], s),
                    ),
                x@.len() == i,
                forall|j: int|
                    0 <= j < i ==> #[trigger] x@[j] == predicted(
                        w.traces@,
                        propagation,
                        t.frontends@[j],
                        c as int,
                    ) && x@[j] <= GRAIN,
        {
            proof {
                lemma_counts_below(w.traces@, t.frontends@[i as int], c as int);
                assert(parts@[i as int].0@.len() == t.n_services);
                assert(parts@[i as int].0@[c as int] == math::count(
                    w.traces@.len(),
                    services::entering_touching(w.traces@, t.frontends@[i as int], c as int),
                ));
            }
            let touched = parts[i].0[c];
            x.push(part(touched, propagation, parts[i].1, 2));
        }
        assert(ints(x@) =~= predictions(t, w.traces@, propagation, c as int));
        let m = misfit_of(&x, &y);
        scores.push(Shortfall(m));
    }
    assert(ranking::scores_of(scores@) =~= fault_scores(t, w.traces@, propagation));
    ranking::rank(&scores)
}

} // verus!
