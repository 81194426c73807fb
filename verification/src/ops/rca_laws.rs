//! Where a walk can go, and how likely.

use crate::double;
use crate::graph;
use crate::ops::inference::Correlation;
use crate::ops::rca;
use crate::ops::rca::Walk;
use crate::ops::services;
use crate::ops::services::Topology;
use vstd::arithmetic::power2::{lemma_pow2_adds, pow2};
use vstd::prelude::*;

verus! {

/// One service calls another.
pub open spec fn calls(t: &Topology) -> graph::Edges {
    |a: usize, b: usize|
        a < t.n_services && exists|i: int|
            0 <= i < t.deps@[a as int]@.len() && #[trigger] t.deps@[a as int]@[i] == b
}

/// A front end's requests can come by service `v`.
pub open spec fn serves_a_front_end(t: &Topology, v: usize) -> bool {
    exists|i: int|
        0 <= i < t.frontends@.len() && graph::reach(
            calls(t),
            #[trigger] t.frontends@[i] as usize,
            v,
        )
}

/// Service `s` calls one that goes with failures.
pub open spec fn calls_a_suspect(t: &Topology, weight: Seq<u64>, s: u32) -> bool {
    exists|i: int|
        0 <= i < t.deps@[s as int]@.len() && weight[(#[trigger] t.deps@[s as int]@[i]) as int] > 0
}

/// The ways of a backward-only walk are the calls: each callee with its own weight,
/// and no other service.
pub proof fn lemma_backward_ways_are_calls(t: &Topology, weight: Seq<u64>, s: u32, i: int)
    requires
        t.well_formed(),
        s < t.n_services,
    ensures
        0 <= i < rca::ways(t, weight, s, true).len() ==> calls(t)(
            s as usize,
            rca::ways(t, weight, s, true)[i].0 as usize,
        ) && rca::ways(t, weight, s, true)[i].1 == weight[rca::ways(t, weight, s, true)[i].0 as int],
        0 <= i < t.deps@[s as int]@.len() ==> rca::ways(t, weight, s, true).contains(
            (t.deps@[s as int]@[i], weight[t.deps@[s as int]@[i] as int]),
        ),
{
    let out = rca::ways(t, weight, s, true);
    if 0 <= i < out.len() {
        assert(t.deps@[s as int]@[i] == out[i].0);
    }
    if 0 <= i < t.deps@[s as int]@.len() {
        assert(out[i] == (t.deps@[s as int]@[i], weight[t.deps@[s as int]@[i] as int]));
    }
}

/// A walk that may turn back has the calls as well, at the same weights, the
/// callers at a quarter of theirs, and the service itself.
pub proof fn lemma_all_ways(t: &Topology, weight: Seq<u64>, s: u32, i: int)
    requires
        t.well_formed(),
        s < t.n_services,
        weight.len() == t.n_services,
    ensures
        ({
            let out = rca::ways(t, weight, s, false);
            let (down, up) = (t.deps@[s as int]@, t.rdeps@[s as int]@);
            &&& out.len() == down.len() + up.len() + 1
            &&& 0 <= i < down.len() ==> out.contains((down[i], weight[down[i] as int]))
            &&& 0 <= i < up.len() ==> out.contains(
                (up[i], (weight[up[i] as int] / 4) as u64),
            )
            &&& out.contains((s, weight[s as int]))
        }),
{
    let out = rca::ways(t, weight, s, false);
    let (down, up) = (t.deps@[s as int]@, t.rdeps@[s as int]@);
    if 0 <= i < down.len() {
        assert(out[i] == (down[i], weight[down[i] as int]));
    }
    if 0 <= i < up.len() {
        assert(out[down.len() + i] == (up[i], (weight[up[i] as int] / 4) as u64));
    }
    assert(out[(down.len() + up.len()) as int] == (s, weight[s as int]));
}

/// Who calls whom, read the other way round.
pub proof fn lemma_callers_call(t: &Topology, a: u32, b: u32)
    requires
        t.well_formed(),
        a < t.n_services,
        b < t.n_services,
    ensures
        t.rdeps@[b as int]@.contains(a) <==> t.deps@[a as int]@.contains(b),
{
    let deps = services::list_values(t.deps@);
    assert(t.rdeps@[b as int]@ == services::callers(deps, b as int, t.n_services as nat));
    lemma_callers_upto(deps, a, b, t.n_services as nat);
    assert(deps[a as int] == t.deps@[a as int]@);
}

proof fn lemma_callers_upto(deps: Seq<Seq<u32>>, a: u32, b: u32, n: nat)
    requires
        n <= u32::MAX,
    ensures
        services::callers(deps, b as int, n).contains(a) <==> a < n && deps[a as int].contains(b),
    decreases n,
{
    if n > 0 {
        lemma_callers_upto(deps, a, b, (n - 1) as nat);
        let before = services::callers(deps, b as int, (n - 1) as nat);
        let now = services::callers(deps, b as int, n);
        if before.contains(a) {
            let i = choose|i: int| 0 <= i < before.len() && before[i] == a;
            assert(now[i] == a);
        }
        if now.contains(a) {
            let i = choose|i: int| 0 <= i < now.len() && now[i] == a;
            if i < before.len() {
                assert(before[i] == a);
            }
        }
        if a == n - 1 && deps[a as int].contains(b) {
            assert(now[before.len() as int] == a);
        }
    }
}

proof fn lemma_total_parts(w: Seq<(u32, u64)>, k: nat)
    requires
        k <= w.len(),
    ensures
        rca::way_total(w, k) > 0 <==> exists|i: int| 0 <= i < k && (#[trigger] w[i]).1 > 0,
    decreases k,
{
    if k > 0 {
        lemma_total_parts(w, (k - 1) as nat);
        if exists|i: int| 0 <= i < k && (#[trigger] w[i]).1 > 0 {
            let i = choose|i: int| 0 <= i < k && (#[trigger] w[i]).1 > 0;
            if i < k - 1 {
                assert(w[i].1 > 0);
            }
        }
        if w[k - 1].1 > 0 {
            assert(exists|i: int| 0 <= i < k && (#[trigger] w[i]).1 > 0);
        }
    }
}

/// What lies before way `i`, added up.
pub open spec fn weight_before(w: Seq<(u32, u64)>, i: int) -> int
    decreases i,
{
    if i <= 0 {
        0
    } else {
        weight_before(w, i - 1) + w[i - 1].1
    }
}

proof fn lemma_weight_before(w: Seq<(u32, u64)>, k: nat)
    ensures
        weight_before(w, k as int) == rca::way_total(w, k),
    decreases k,
{
    if k > 0 {
        lemma_weight_before(w, (k - 1) as nat);
    }
}

proof fn lemma_falls_somewhere(w: Seq<(u32, u64)>, x: int, k: nat) -> (i: int)
    requires
        k <= w.len(),
        0 <= x < rca::way_total(w, k),
    ensures
        rca::falls_on(w, x, i),
        w[i].1 > 0,
    decreases k,
{
    if x < rca::way_total(w, (k - 1) as nat) {
        lemma_falls_somewhere(w, x, (k - 1) as nat)
    } else {
        assert(rca::falls_on(w, x, k - 1));
        k - 1
    }
}

/// Each way is taken for its share of the draws: way `i` for those draws, out of
/// 2^53, whose part of the whole weight lies behind the ways before it and not
/// behind it.
pub proof fn lemma_ways_get_their_share(w: Seq<(u32, u64)>, draw: u64, i: int)
    requires
        0 <= i < w.len(),
        weight_before(w, i) * 0x20_0000_0000_0000 <= weight_before(w, w.len() as int) * (draw as int
            / 2048) < weight_before(w, i + 1) * 0x20_0000_0000_0000,
    ensures
        rca::chosen(w, rca::place(weight_before(w, w.len() as int), draw)) == w[i].0,
{
    let total = weight_before(w, w.len() as int);
    let (a, b) = (weight_before(w, i), weight_before(w, i + 1));
    let m = 0x20_0000_0000_0000int;
    let p = total * (draw as int / 2048);
    let x = p / m;
    lemma_weight_before(w, i as nat);
    lemma_weight_before(w, (i + 1) as nat);
    vstd::arithmetic::div_mod::lemma_fundamental_div_mod(p, m);
    vstd::arithmetic::div_mod::lemma_mod_bound(p, m);
    assert(a <= x < b) by (nonlinear_arith)
        requires
            a * m <= p < b * m,
            m * x <= p < m * x + m,
            m > 0,
    ;
    assert(rca::falls_on(w, x, i));
    rca::lemma_one_way(w, x, i);
}

/// A step visits exactly one service where there is a way, and that service is a
/// way with a weight; where there is none it visits nobody.
pub proof fn lemma_step_visits_a_way(
    t: &Topology,
    weight: Seq<u64>,
    alpha: u64,
    backward_only: bool,
    w: Walk,
)
    ensures
        ({
            let out = rca::ways(t, weight, w.at, backward_only);
            let next = rca::stepped(t, weight, alpha, backward_only, w);
            if exists|i: int| 0 <= i < out.len() && (#[trigger] out[i]).1 > 0 {
                exists|i: int|
                    0 <= i < out.len() && (#[trigger] out[i]).1 > 0 && next.visits
                        == w.visits.update(
                        out[i].0 as int,
                        w.visits[out[i].0 as int] + 1,
                    ) && (alpha == 0 ==> next.at == out[i].0)
            } else {
                next.visits == w.visits
            }
        }),
{
    let out = rca::ways(t, weight, w.at, backward_only);
    let total = rca::way_total(out, out.len());
    lemma_total_parts(out, out.len());
    if total > 0 {
        let draw = crate::rng::first_u64(w.rest) as u64;
        let d = draw as int / 2048;
        let x = rca::place(total as int, draw);
        let m = 0x20_0000_0000_0000int;
        let p = total * d;
        vstd::arithmetic::div_mod::lemma_fundamental_div_mod(p, m);
        vstd::arithmetic::div_mod::lemma_mod_bound(p, m);
        assert(0 <= p) by (nonlinear_arith)
            requires
                p == total * d,
                d >= 0,
        ;
        vstd::arithmetic::div_mod::lemma_div_pos_is_pos(p, m);
        assert(x < total) by (nonlinear_arith)
            requires
                m * x <= p,
                p == total * d,
                0 <= d < m,
                total > 0,
                m > 0,
        ;
        let i = lemma_falls_somewhere(out, x, out.len());
        rca::lemma_one_way(out, x, i);
        assert(out[i].1 > 0);
    }
}

/// A backward step from a service that calls a suspect always visits a suspect
/// that it calls.
pub proof fn lemma_backward_step_visits_a_callee(
    t: &Topology,
    weight: Seq<u64>,
    alpha: u64,
    w: Walk,
) -> (v: u32)
    requires
        t.well_formed(),
        w.at < t.n_services,
        calls_a_suspect(t, weight, w.at),
    ensures
        t.deps@[w.at as int]@.contains(v),
        weight[v as int] > 0,
        rca::stepped(t, weight, alpha, true, w).visits == w.visits.update(
            v as int,
            w.visits[v as int] + 1,
        ),
{
    let out = rca::ways(t, weight, w.at, true);
    let next = rca::stepped(t, weight, alpha, true, w);
    let j = choose|j: int|
        0 <= j < t.deps@[w.at as int]@.len() && weight[(
        #[trigger] t.deps@[w.at as int]@[j]) as int] > 0;
    lemma_backward_ways_are_calls(t, weight, w.at, j);
    let z = choose|z: int|
        0 <= z < out.len() && out[z] == (
            t.deps@[w.at as int]@[j],
            weight[t.deps@[w.at as int]@[j] as int],
        );
    assert(out[z].1 > 0);
    lemma_step_visits_a_way(t, weight, alpha, true, w);
    let i = choose|i: int|
        0 <= i < out.len() && (#[trigger] out[i]).1 > 0 && next.visits == w.visits.update(
            out[i].0 as int,
            w.visits[out[i].0 as int] + 1,
        ) && (alpha == 0 ==> next.at == out[i].0);
    lemma_backward_ways_are_calls(t, weight, w.at, i);
    let list = t.deps@[w.at as int]@;
    let x = choose|x: int|
        0 <= x < t.deps@[w.at as int]@.len() && #[trigger] t.deps@[w.at as int]@[x] == out[i].0 as usize;
    assert(list[x] == out[i].0);
    out[i].0
}

/// A backward step from a service that calls no suspect visits nobody.
pub proof fn lemma_backward_step_stops(t: &Topology, weight: Seq<u64>, alpha: u64, w: Walk)
    requires
        t.well_formed(),
        w.at < t.n_services,
        !calls_a_suspect(t, weight, w.at),
    ensures
        rca::stepped(t, weight, alpha, true, w).visits == w.visits,
{
    let out = rca::ways(t, weight, w.at, true);
    lemma_step_visits_a_way(t, weight, alpha, true, w);
    if exists|i: int| 0 <= i < out.len() && (#[trigger] out[i]).1 > 0 {
        let i = choose|i: int| 0 <= i < out.len() && (#[trigger] out[i]).1 > 0;
        lemma_backward_ways_are_calls(t, weight, w.at, i);
        let x = choose|x: int|
            0 <= x < t.deps@[w.at as int]@.len() && #[trigger] t.deps@[w.at as int]@[x]
                == out[i].0 as usize;
        assert(weight[t.deps@[w.at as int]@[x] as int] > 0);
    }
}

/// The weight of a service is its correlation in units of 2^-53, rounded down; one
/// that goes against failures, or not with them, weighs nothing.
pub proof fn lemma_weight_is_the_correlation(c: Correlation)
    requires
        c.well_formed(),
    ensures
        c.value() <= 0 ==> rca::weight_of(c) == 0,
        c.value() > 0 ==> rca::weight_of(c) * double::one() <= c.value() * 0x20_0000_0000_0000 < (
        rca::weight_of(c) + 1) * double::one(),
{
    let (m, u) = (0x20_0000_0000_0000int, double::one());
    let (a, e) = (c.size.m as int, c.size.e as nat);
    double::lemma_one();
    double::lemma_of_exact(m);
    c.size.lemma_sign();
    vstd::arithmetic::power2::lemma2_to64_rest();
    lemma_pow2_adds(e, 53);
    let h = pow2(e) as int;
    let x = a * pow2(e + 53);
    assert(x == (a * h) * m) by (nonlinear_arith)
        requires
            x == a * (h * m),
    ;
    assert((a * h) * (m * u) == x * u) by (nonlinear_arith)
        requires
            x == (a * h) * m,
    ;
    double::lemma_rounded_exact(a, e + 53, u);
    assert(double::product(c.size.value(), double::of(m)) == x);
    rca::lemma_weight(c);
    vstd::arithmetic::div_mod::lemma_fundamental_div_mod(x, u);
    vstd::arithmetic::div_mod::lemma_mod_bound(x, u);
    let q = x / u;
    assert(u * q == q * u && (q + 1) * u == q * u + u) by (nonlinear_arith);
    assert(0 <= x) by (nonlinear_arith)
        requires
            x == (a * h) * m,
            a * h >= 0,
            m > 0,
    ;
    vstd::arithmetic::div_mod::lemma_div_pos_is_pos(x, u);
    assert(q <= m) by (nonlinear_arith)
        requires
            q * u <= x,
            x == (a * h) * m,
            a * h <= u,
            u > 0,
            m > 0,
    ;
    if c.size.value() == 0 {
        assert(x == 0) by (nonlinear_arith)
            requires
                x == (a * h) * m,
                a * h == 0,
        ;
        vstd::arithmetic::div_mod::lemma_div_basics(u);
    }
}

/// Where everything that was visited can be reached by the calls of a front end, a
/// backward step keeps it so.
pub proof fn lemma_backward_walk_follows_calls(
    t: &Topology,
    weight: Seq<u64>,
    alpha: u64,
    w: Walk,
)
    requires
        t.well_formed(),
        weight.len() == t.n_services,
        w.visits.len() == t.n_services,
        w.at < t.n_services,
        serves_a_front_end(t, w.at as usize),
        forall|v: int|
            0 <= v < t.n_services && #[trigger] w.visits[v] > 0 ==> serves_a_front_end(
                t,
                v as usize,
            ),
    ensures
        ({
            let next = rca::stepped(t, weight, alpha, true, w);
            forall|v: int|
                0 <= v < t.n_services && #[trigger] next.visits[v] > 0 ==> serves_a_front_end(
                    t,
                    v as usize,
                )
        }),
{
    let next = rca::stepped(t, weight, alpha, true, w);
    if calls_a_suspect(t, weight, w.at) {
        let c = lemma_backward_step_visits_a_callee(t, weight, alpha, w);
        lemma_callee_serves(t, w.at, c);
        assert forall|v: int| 0 <= v < t.n_services && #[trigger] next.visits[v] > 0
            implies serves_a_front_end(t, v as usize) by {
            if v != c {
                assert(w.visits[v] > 0);
            }
        }
    } else {
        lemma_backward_step_stops(t, weight, alpha, w);
    }
}

/// Whoever is called by one that serves a front end serves it too.
pub proof fn lemma_callee_serves(t: &Topology, s: u32, c: u32)
    requires
        s < t.n_services,
        serves_a_front_end(t, s as usize),
        t.deps@[s as int]@.contains(c),
    ensures
        serves_a_front_end(t, c as usize),
{
    let e = calls(t);
    let i = choose|i: int|
        0 <= i < t.frontends@.len() && graph::reach(e, #[trigger] t.frontends@[i] as usize, s as usize);
    let list = t.deps@[s as int]@;
    let j = choose|j: int| 0 <= j < list.len() && list[j] == c;
    assert(t.deps@[s as int]@[j] == c);
    assert(e(s as usize, c as usize));
    graph::lemma_reach_edge(e, s as usize, c as usize);
    graph::lemma_reach_trans(e, t.frontends@[i] as usize, s as usize, c as usize);
}

/// A walk that always goes back is at a drawn front end after every step, and so is any
/// walk from where there is no way.
pub proof fn lemma_restarts(
    t: &Topology,
    weight: Seq<u64>,
    alpha: u64,
    backward_only: bool,
    w: Walk,
)
    ensures
        ({
            let out = rca::ways(t, weight, w.at, backward_only);
            let next = rca::stepped(t, weight, alpha, backward_only, w);
            let stuck = forall|i: int| 0 <= i < out.len() ==> (#[trigger] out[i]).1 == 0;
            &&& stuck ==> next.at == rca::entry(t, w.rest).0
            &&& alpha >= 9_007_199_254_740_992 && !stuck ==> next.at == rca::entry(
                t,
                crate::rng::skip_words(crate::rng::skip_words(w.rest, 2), 2),
            ).0
        }),
{
    let out = rca::ways(t, weight, w.at, backward_only);
    lemma_total_parts(out, out.len());
    let mid = crate::rng::skip_words(w.rest, 2);
    assert(mid[0] <= 0xffff_ffff && mid[1] <= 0xffff_ffff);
}

} // verus!
