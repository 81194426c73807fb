//! What a correlation and a fit say of the requests behind them.

use crate::double;
use crate::math;
use crate::ops::inference;
use crate::ops::services;
use crate::ops::services::Trace;
use vstd::prelude::*;

verus! {

/// How far the first `k` predictions, scaled by `p / q`, are from the observations:
/// the squares of the differences, times `q` squared.
pub open spec fn gap(x: Seq<int>, y: Seq<int>, p: int, q: int, k: nat) -> int
    decreases k,
{
    if k == 0 {
        0
    } else {
        gap(x, y, p, q, (k - 1) as nat) + (q * y[k - 1] - p * x[k - 1]) * (q * y[k - 1] - p * x[k
            - 1])
    }
}

proof fn lemma_gap(x: Seq<int>, y: Seq<int>, p: int, q: int, k: nat)
    ensures
        gap(x, y, p, q, k) == p * p * inference::dot(x, x, k) - 2 * (p * q) * inference::dot(
            x,
            y,
            k,
        ) + q * q * inference::dot(y, y, k),
        gap(x, y, p, q, k) >= 0,
    decreases k,
{
    if k == 0 {
        assert(p * p * 0 - 2 * (p * q) * 0 + q * q * 0 == 0) by (nonlinear_arith);
    } else {
        lemma_gap(x, y, p, q, (k - 1) as nat);
        let (s, t) = (x[k - 1], y[k - 1]);
        let d = q * t - p * s;
        let (a, b, c) = (
            inference::dot(x, x, (k - 1) as nat),
            inference::dot(x, y, (k - 1) as nat),
            inference::dot(y, y, (k - 1) as nat),
        );
        assert(d * d >= 0) by (nonlinear_arith);
        let (v, w) = (q * t, p * s);
        assert(d * d == v * v - 2 * (v * w) + w * w) by (nonlinear_arith)
            requires
                d == v - w,
        ;
        assert((q * t) * (q * t) == q * q * (t * t)) by (nonlinear_arith);
        assert((p * s) * (p * s) == p * p * (s * s)) by (nonlinear_arith);
        assert(2 * ((q * t) * (p * s)) == 2 * (p * q) * (s * t)) by (nonlinear_arith);
        assert(p * p * (a + s * s) == p * p * a + p * p * (s * s)) by (nonlinear_arith);
        assert(2 * (p * q) * (b + s * t) == 2 * (p * q) * b + 2 * (p * q) * (s * t))
            by (nonlinear_arith);
        assert(q * q * (c + t * t) == q * q * c + q * q * (t * t)) by (nonlinear_arith);
    }
}

/// The misfit of a candidate is the least squared distance that some severity from 0 to
/// 1 leaves, rounded down: no severity comes closer, and one comes as close.
pub proof fn lemma_misfit_is_the_least(x: Seq<int>, y: Seq<int>, p: int, q: int) -> (best: (
    int,
    int,
))
    requires
        x.len() == y.len(),
        inference::are_rates(x),
        inference::are_rates(y),
        0 <= p <= q,
        0 < q,
    ensures
        q * q * inference::misfit(x, y) <= gap(x, y, p, q, x.len()),
        0 <= best.0 <= best.1,
        0 < best.1,
        gap(x, y, best.0, best.1, x.len()) < best.1 * best.1 * (inference::misfit(x, y) + 1),
{
    inference::lemma_fit_is_best(x, y, p, q);
    lemma_gap(x, y, p, q, x.len());
    let n = x.len();
    let (a, b, c) = (inference::dot(x, x, n), inference::dot(x, y, n), inference::dot(y, y, n));
    let m = inference::misfit(x, y);
    inference::lemma_dot_bound(x, x, n);
    inference::lemma_dot_bound(x, y, n);
    if b >= a {
        lemma_gap(x, y, 1, 1, n);
        assert(1 * 1 * a - 2 * (1 * 1) * b + 1 * 1 * c == a - 2 * b + c) by (nonlinear_arith);
        assert(1 * 1 * (m + 1) == m + 1) by (nonlinear_arith);
        (1, 1)
    } else {
        lemma_gap(x, y, b, a, n);
        let g = c * a - b * b;
        vstd::arithmetic::div_mod::lemma_fundamental_div_mod(g, a);
        vstd::arithmetic::div_mod::lemma_mod_bound(g, a);
        assert(b * b * a - 2 * (b * a) * b + a * a * c == a * g) by (nonlinear_arith)
            requires
                g == c * a - b * b,
        ;
        assert(a * g < a * a * (m + 1)) by (nonlinear_arith)
            requires
                g < a * m + a,
                a > 0,
        ;
        (b, a)
    }
}

/// A candidate that no request of a front end touched predicts nothing there, and one
/// that all touched predicts what propagation lets through.
pub proof fn lemma_predictions(traces: Seq<Trace>, propagation: u64, f: u32, c: int)
    requires
        0 <= c <= u32::MAX,
    ensures
        (forall|i: int|
            0 <= i < traces.len() && (#[trigger] traces[i]).path@.len() > 0 && traces[i].path@[0]
                == f ==> !traces[i].path@.contains(c as u32)) ==> inference::predicted(
            traces,
            propagation,
            f,
            c,
        ) == 0,
        (forall|i: int|
            0 <= i < traces.len() && (#[trigger] traces[i]).path@.len() > 0 && traces[i].path@[0]
                == f ==> traces[i].path@.contains(c as u32)) && (exists|i: int|
            0 <= i < traces.len() && (#[trigger] traces[i]).path@.len() > 0 && traces[i].path@[0]
                == f) ==> inference::predicted(traces, propagation, f, c) == propagation as int / 2,
{
    let n = traces.len();
    let (e, t) = (services::entering(traces, f), services::entering_touching(traces, f, c));
    let all = math::count(n, e);
    if forall|i: int|
        0 <= i < traces.len() && (#[trigger] traces[i]).path@.len() > 0 && traces[i].path@[0] == f
            ==> !traces[i].path@.contains(c as u32) {
        assert forall|i: int| 0 <= i < n implies !#[trigger] t(i) by {
            let tr = traces[i];
        }
        lemma_none(n, t);
        assert(0 * propagation == 0) by (nonlinear_arith);
        if all > 0 {
            vstd::arithmetic::div_mod::lemma_div_of0((all * 2) as int);
        }
    }
    if (forall|i: int|
        0 <= i < traces.len() && (#[trigger] traces[i]).path@.len() > 0 && traces[i].path@[0] == f
            ==> traces[i].path@.contains(c as u32)) && (exists|i: int|
        0 <= i < traces.len() && (#[trigger] traces[i]).path@.len() > 0 && traces[i].path@[0] == f) {
        assert forall|i: int| 0 <= i < n implies e(i) == #[trigger] t(i) by {
            let tr = traces[i];
        }
        math::lemma_count_same(n, e, t);
        let i = choose|i: int|
            0 <= i < traces.len() && (#[trigger] traces[i]).path@.len() > 0 && traces[i].path@[0]
                == f;
        assert(e(i));
        math::lemma_count_positive(n, e, i);
        let k = all as int;
        let p = propagation as int;
        assert(k * p == p * k && (k * 2) as int == 2 * k) by (nonlinear_arith);
        vstd::arithmetic::div_mod::lemma_div_denominator(k * p, k, 2);
        vstd::arithmetic::div_mod::lemma_div_multiples_vanish(p, k);
    }
}

proof fn lemma_none(n: nat, p: spec_fn(int) -> bool)
    requires
        forall|i: int| 0 <= i < n ==> !#[trigger] p(i),
    ensures
        math::count(n, p) == 0,
    decreases n,
{
    if n > 0 {
        lemma_none((n - 1) as nat, p);
        assert(!p(n - 1));
    }
}

/// A correlation is between minus one and one, and nothing where all or no requests
/// touch the service or fail. Of one service, the more of the requests that touch it
/// fail, the higher it is; where none of them does it is not above zero.
pub proof fn lemma_correlation(n: int, a: int, b: int, x: int, y: int)
    requires
        0 < n <= 0x20_0000_0000_0000,
        0 <= a <= n,
        0 <= b <= n,
        0 <= x <= y <= n,
    ensures
        -double::one() <= inference::correlation(n, a, b, x) <= double::one(),
        inference::correlation(n, a, b, x) <= inference::correlation(n, a, b, y),
        inference::correlation(n, a, b, 0) <= 0,
        a == 0 || a == n || b == 0 || b == n ==> inference::correlation(n, a, b, x) == 0,
{
    let u = double::one();
    let all = double::of(n);
    double::lemma_one();
    double::lemma_of_positive(n);
    lemma_rate(n, a, n);
    lemma_rate(n, b, n);
    lemma_rate(n, x, y);
    lemma_rate(n, 0, x);
    lemma_rate_ends(n);
    let (fa, fb) = (
        double::quotient(double::of(a), all),
        double::quotient(double::of(b), all),
    );
    let chance = double::product(fa, fb);
    let most = inference::spread(fa, fb);
    if !(fa <= 0 || fa >= u || fb <= 0 || fb >= u) && most > 0 {
        let (p, q, z) = (
            double::quotient(double::of(x), all),
            double::quotient(double::of(y), all),
            double::quotient(double::of(0), all),
        );
        assert(fa * fb >= 0) by (nonlinear_arith)
            requires
                fa > 0,
                fb > 0,
        ;
        double::lemma_rounded_monotone(fa * fb, u, fa * fb, u);
        lemma_signed(p, q, chance, most);
        lemma_signed(z, p, chance, most);
        if z >= chance {
            assert(chance == 0 && z == 0);
            double::lemma_rounded_exact(0, 0, 1);
            assert(0 * u == 0) by (nonlinear_arith);
            double::lemma_rounded_exact(0, 0, most);
            assert(0 * most == 0) by (nonlinear_arith);
        }
    }
}

/// The correlation of a rate against chance.
spec fn signed(both: int, chance: int, most: int) -> int {
    if both >= chance {
        inference::at_most_one(double::difference(both, chance), most)
    } else {
        -inference::at_most_one(double::difference(chance, both), most)
    }
}

proof fn lemma_signed(p: int, q: int, chance: int, most: int)
    requires
        0 <= p <= q,
        0 <= chance,
        most > 0,
    ensures
        -double::one() <= signed(p, chance, most) <= signed(q, chance, most) <= double::one(),
        p < chance ==> signed(p, chance, most) <= 0,
{
    double::lemma_one();
    if p >= chance {
        lemma_ratio(p - chance, q - chance, most);
    } else if q >= chance {
        lemma_ratio(q - chance, q - chance, most);
        lemma_ratio(chance - p, chance - p, most);
    } else {
        lemma_ratio(chance - q, chance - p, most);
    }
}

proof fn lemma_ratio(s: int, t: int, most: int)
    requires
        0 <= s <= t,
        most > 0,
    ensures
        0 <= inference::at_most_one(double::rounded(s, 1), most) <= inference::at_most_one(
            double::rounded(t, 1),
            most,
        ) <= double::one(),
{
    let u = double::one();
    double::lemma_one();
    double::lemma_rounded_monotone(s, 1, t, 1);
    let (x, y) = (double::rounded(s, 1), double::rounded(t, 1));
    assert(0 <= x * u && (x * u) * most <= (y * u) * most) by (nonlinear_arith)
        requires
            0 <= x <= y,
            u > 0,
            most > 0,
    ;
    double::lemma_rounded_monotone(x * u, most, y * u, most);
}

proof fn lemma_rate(n: int, x: int, y: int)
    requires
        0 < n,
        0 <= x <= y,
    ensures
        0 <= double::quotient(double::of(x), double::of(n)) <= double::quotient(
            double::of(y),
            double::of(n),
        ),
{
    let u = double::one();
    double::lemma_one();
    double::lemma_of_positive(n);
    double::lemma_of_monotone(x, y);
    let (s, t, all) = (double::of(x), double::of(y), double::of(n));
    assert(0 <= s * u && (s * u) * all <= (t * u) * all) by (nonlinear_arith)
        requires
            0 <= s <= t,
            u > 0,
            all > 0,
    ;
    double::lemma_rounded_monotone(s * u, all, t * u, all);
}

proof fn lemma_rate_ends(n: int)
    requires
        0 < n,
    ensures
        double::quotient(double::of(0), double::of(n)) == 0,
        double::quotient(double::of(n), double::of(n)) == double::one(),
{
    let (u, all) = (double::one(), double::of(n));
    double::lemma_one();
    double::lemma_of_positive(n);
    double::lemma_of_exact(0);
    assert(0 * u == 0 && 0 * all == 0) by (nonlinear_arith);
    double::lemma_rounded_exact(0, 0, all);
    double::lemma_rounded_exact(1, 1074, all);
    assert(all * u == (1 * u) * all) by (nonlinear_arith);
}

/// The failure rate of a front end is nothing where none of its requests failed, and
/// everything where all did.
pub proof fn lemma_observations(traces: Seq<Trace>, f: u32)
    ensures
        (forall|i: int|
            0 <= i < traces.len() && (#[trigger] traces[i]).path@.len() > 0 && traces[i].path@[0]
                == f ==> !traces[i].failed) ==> inference::observed(traces, f) == 0,
        (forall|i: int|
            0 <= i < traces.len() && (#[trigger] traces[i]).path@.len() > 0 && traces[i].path@[0]
                == f ==> traces[i].failed) && (exists|i: int|
            0 <= i < traces.len() && (#[trigger] traces[i]).path@.len() > 0 && traces[i].path@[0]
                == f) ==> inference::observed(traces, f) == inference::GRAIN,
{
    let n = traces.len();
    let (e, t) = (services::entering(traces, f), inference::entering_failed(traces, f));
    let (all, g) = (math::count(n, e) as int, inference::GRAIN as int);
    if forall|i: int|
        0 <= i < traces.len() && (#[trigger] traces[i]).path@.len() > 0 && traces[i].path@[0] == f
            ==> !traces[i].failed {
        assert forall|i: int| 0 <= i < n implies !#[trigger] t(i) by {
            let tr = traces[i];
        }
        lemma_none(n, t);
        if all > 0 {
            vstd::arithmetic::div_mod::lemma_div_of0(all);
        }
    }
    if (forall|i: int|
        0 <= i < traces.len() && (#[trigger] traces[i]).path@.len() > 0 && traces[i].path@[0] == f
            ==> traces[i].failed) && (exists|i: int|
        0 <= i < traces.len() && (#[trigger] traces[i]).path@.len() > 0 && traces[i].path@[0] == f) {
        assert forall|i: int| 0 <= i < n implies e(i) == #[trigger] t(i) by {
            let tr = traces[i];
        }
        math::lemma_count_same(n, e, t);
        let i = choose|i: int|
            0 <= i < traces.len() && (#[trigger] traces[i]).path@.len() > 0 && traces[i].path@[0]
                == f;
        assert(e(i));
        math::lemma_count_positive(n, e, i);
        vstd::arithmetic::div_mod::lemma_div_multiples_vanish(g, all);
        assert(all * g == g * all) by (nonlinear_arith);
    }
}

} // verus!
