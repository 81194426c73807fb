//! Root-cause localization: turning an alert storm into a ranked list.
//!
//! A random walk goes backwards from the symptom: from a front end toward the
//! things that it called, preferring services whose presence goes with failed
//! requests. Services that are visited often are candidates. It uses the shape
//! of the graph, where a score per node only uses the values on the nodes.
//!
//! ```text
//!   backward  caller -> callee   did the thing that I called break?
//!   forward   callee -> caller   a way out of a dead end, damped
//!   self      s -> s             stay where no neighbour goes better with it
//! ```

pub use crate::ops::ranking::top_k_hit;

use crate::double;
use crate::double::Double;
use crate::graph;
use crate::math;
use crate::ops::inference::Correlation;
use crate::ops::ranking;
use crate::ops::rca_laws;
use crate::ops::services;
use crate::ops::services::Topology;
use crate::rng;
use rand_chacha::ChaCha8Rng;
use vstd::prelude::*;

verus! {

/// What a way back up weighs less than the service it leads to.
pub const FORWARD_DAMPING: u64 = 4;

/// The weight of a correlation of one.
pub const MAX_WEIGHT: u64 = 0x20_0000_0000_0000;

/// What the weights of all ways from a service add up to at most.
const MOST: u128 = 0x40_0000_0000_0000_0000_0000;

/// The first `k` entries of a list with their weights, divided by `by`.
pub open spec fn weighed(list: Seq<u32>, weight: Seq<u64>, by: u64, k: nat) -> Seq<(u32, u64)> {
    Seq::new(k, |i: int| (list[i], weight[list[i] as int] / by))
}

/// Where the walk can go from a service, and how much each way weighs.
pub open spec fn ways(t: &Topology, weight: Seq<u64>, s: u32, backward_only: bool) -> Seq<
    (u32, u64),
> {
    let down = weighed(t.deps@[s as int]@, weight, 1, t.deps@[s as int]@.len());
    if backward_only {
        down
    } else {
        down + weighed(
            t.rdeps@[s as int]@,
            weight,
            FORWARD_DAMPING,
            t.rdeps@[s as int]@.len(),
        ) + seq![(s, weight[s as int])]
    }
}

/// The weight of the first `k` ways.
pub open spec fn way_total(w: Seq<(u32, u64)>, k: nat) -> nat
    decreases k,
{
    if k == 0 {
        0
    } else {
        way_total(w, (k - 1) as nat) + w[k - 1].1 as nat
    }
}

/// Way `i` is the one that a draw falls on.
pub open spec fn falls_on(w: Seq<(u32, u64)>, x: int, i: int) -> bool {
    &&& 0 <= i < w.len()
    &&& way_total(w, i as nat) <= x < way_total(w, (i + 1) as nat)
}

/// The service that a draw leads to.
pub open spec fn chosen(w: Seq<(u32, u64)>, x: int) -> u32 {
    w[choose|i: int| falls_on(w, x, i)].0
}

/// The part of a total that a draw of 53 bits stands for.
pub open spec fn place(total: int, draw: u64) -> int {
    total * (draw as int / 2048) / 0x20_0000_0000_0000
}

/// Where the walk is, and how often it was where.
#[verifier::ext_equal]
pub ghost struct Walk {
    pub at: u32,
    pub visits: Seq<nat>,
    pub rest: Map<nat, u32>,
}

/// A random front end, and the stream that is left.
pub open spec fn entry(t: &Topology, stream: Map<nat, u32>) -> (u32, Map<nat, u32>) {
    let (x, used) = rng::range_draw(stream, 0, t.frontends@.len() as u64);
    (t.frontends@[x as int], rng::skip_words(stream, used))
}

/// One step: to a neighbour in proportion to the weights, then back to a front
/// end by chance. Where no way weighs anything, back at once.
pub open spec fn stepped(
    t: &Topology,
    weight: Seq<u64>,
    alpha: u64,
    backward_only: bool,
    w: Walk,
) -> Walk {
    let out = ways(t, weight, w.at, backward_only);
    let total = way_total(out, out.len());
    if total == 0 {
        let (f, rest) = entry(t, w.rest);
        Walk { at: f, rest, ..w }
    } else {
        let next = chosen(out, place(total as int, rng::first_u64(w.rest) as u64));
        let visits = w.visits.update(next as int, w.visits[next as int] + 1);
        let mid = rng::skip_words(w.rest, 2);
        let after = rng::skip_words(mid, 2);
        if services::heads(mid, alpha) {
            let (f, rest) = entry(t, after);
            Walk { at: f, visits, rest }
        } else {
            Walk { at: next, visits, rest: after }
        }
    }
}

/// The walk after `n` steps.
pub open spec fn walked(
    t: &Topology,
    weight: Seq<u64>,
    alpha: u64,
    backward_only: bool,
    stream: Map<nat, u32>,
    n: nat,
) -> Walk
    decreases n,
{
    if n == 0 {
        let (f, rest) = entry(t, stream);
        Walk { at: f, visits: Seq::new(t.n_services as nat, |s: int| 0nat), rest }
    } else {
        stepped(
            t,
            weight,
            alpha,
            backward_only,
            walked(t, weight, alpha, backward_only, stream, (n - 1) as nat),
        )
    }
}

/// Visits as scores.
pub open spec fn visit_scores(visits: Seq<nat>) -> Seq<int> {
    Seq::new(visits.len(), |s: int| visits[s] as int)
}

proof fn lemma_total_bound(w: Seq<(u32, u64)>, k: nat)
    requires
        k <= w.len(),
        forall|i: int| 0 <= i < w.len() ==> (#[trigger] w[i]).1 <= MAX_WEIGHT,
    ensures
        way_total(w, k) <= k * MAX_WEIGHT,
    decreases k,
{
    if k > 0 {
        lemma_total_bound(w, (k - 1) as nat);
        assert(k * MAX_WEIGHT == (k - 1) * MAX_WEIGHT + MAX_WEIGHT) by (nonlinear_arith);
    } else {
        assert(k * MAX_WEIGHT == 0) by (nonlinear_arith)
            requires
                k == 0,
        ;
    }
}

proof fn lemma_total_monotone(w: Seq<(u32, u64)>, k: nat, n: nat)
    requires
        k <= n,
    ensures
        way_total(w, k) <= way_total(w, n),
    decreases n,
{
    if k < n {
        lemma_total_monotone(w, k, (n - 1) as nat);
    }
}

/// A draw falls on one way.
pub proof fn lemma_one_way(w: Seq<(u32, u64)>, x: int, i: int)
    requires
        falls_on(w, x, i),
    ensures
        chosen(w, x) == w[i].0,
{
    let j = choose|j: int| falls_on(w, x, j);
    assert(falls_on(w, x, j));
    if j < i {
        lemma_total_monotone(w, (j + 1) as nat, i as nat);
    } else if i < j {
        lemma_total_monotone(w, (i + 1) as nat, j as nat);
    }
}

/// There are at most as many callers as services.
proof fn lemma_callers_len(deps: Seq<Seq<u32>>, v: int, n: nat)
    requires
        n <= u32::MAX,
    ensures
        services::callers(deps, v, n).len() <= n,
        forall|i: int|
            0 <= i < services::callers(deps, v, n).len() ==> #[trigger] services::callers(
                deps,
                v,
                n,
            )[i] < n,
    decreases n,
{
    if n > 0 {
        lemma_callers_len(deps, v, (n - 1) as nat);
        let before = services::callers(deps, v, (n - 1) as nat);
        let now = services::callers(deps, v, n);
        assert forall|i: int| 0 <= i < now.len() implies #[trigger] now[i] < n by {
            if i < before.len() {
                assert(before[i] < n - 1);
            }
        }
    }
}

/// A service weighs what it goes with failures, in units of 2^-53 and rounded
/// down, and nothing where it goes against them.
pub open spec fn weight_of(c: Correlation) -> u64 {
    if c.negative {
        0
    } else {
        double::saturated(double::floor(double::product(c.size.value(), double::of(MAX_WEIGHT as int))))
    }
}

pub open spec fn weights(corr: Seq<Correlation>) -> Seq<u64> {
    Seq::new(corr.len(), |s: int| weight_of(corr[s]))
}

/// There is a correlation for every service.
pub open spec fn correlations_fit(t: &Topology, corr: Seq<Correlation>) -> bool {
    &&& corr.len() == t.n_services
    &&& forall|s: int| 0 <= s < corr.len() ==> (#[trigger] corr[s]).well_formed()
}

/// No service weighs more than one that goes with failures always.
pub proof fn lemma_weight(c: Correlation)
    requires
        c.well_formed(),
    ensures
        weight_of(c) <= MAX_WEIGHT,
{
    let (v, m, u) = (c.size.value(), MAX_WEIGHT as int, double::one());
    double::lemma_one();
    double::lemma_of_exact(m);
    c.size.lemma_sign();
    assert(0 <= v * (m * u) && (v * (m * u)) * 1 <= (m * u) * u) by (nonlinear_arith)
        requires
            0 <= v <= u,
            m > 0,
            u > 0,
    ;
    assert(m * u > 0) by (nonlinear_arith)
        requires
            m > 0,
            u > 0,
    ;
    double::lemma_rounded_monotone(v * (m * u), u, m * u, 1);
    let p = double::product(v, m * u);
    vstd::arithmetic::div_mod::lemma_div_is_ordered(p, m * u, u);
    assert(m * u == u * m) by (nonlinear_arith);
    vstd::arithmetic::div_mod::lemma_div_multiples_vanish(m, u);
    vstd::arithmetic::div_mod::lemma_div_pos_is_pos(p, u);
}

spec fn weights_fit(t: &Topology, weight: Seq<u64>) -> bool {
    &&& weight.len() == t.n_services
    &&& forall|s: int| 0 <= s < weight.len() ==> #[trigger] weight[s] <= MAX_WEIGHT
}

fn weights_of(corr: &Vec<Correlation>) -> (weight: Vec<u64>)
    requires
        forall|s: int| 0 <= s < corr@.len() ==> (#[trigger] corr@[s]).well_formed(),
    ensures
        weight@ == weights(corr@),
{
    let mut weight: Vec<u64> = Vec::new();
    for s in 0..corr.len()
        invariant
            forall|s: int| 0 <= s < corr@.len() ==> (#[trigger] corr@[s]).well_formed(),
            weight@.len() == s,
            forall|i: int| 0 <= i < s ==> #[trigger] weight@[i] == weights(corr@)[i],
    {
        let c = corr[s];
        assert(corr@[s as int].well_formed());
        weight.push(
            if c.negative {
                0
            } else {
                c.size.times(Double::from_u64(MAX_WEIGHT)).to_floor()
            },
        );
    }
    assert(weight@ =~= weights(corr@));
    weight
}

fn push_ways(out: &mut Vec<(u32, u64)>, list: &Vec<u32>, weight: &Vec<u64>, by: u64)
    requires
        by > 0,
        forall|i: int| 0 <= i < list@.len() ==> #[trigger] list@[i] < weight@.len(),
    ensures
        final(out)@ == old(out)@ + weighed(list@, weight@, by, list@.len()),
{
    let ghost before = out@;
    assert(out@ =~= before + weighed(list@, weight@, by, 0));
    for i in 0..list.len()
        invariant
            by > 0,
            forall|i: int| 0 <= i < list@.len() ==> #[trigger] list@[i] < weight@.len(),
            before == old(out)@,
            out@ == before + weighed(list@, weight@, by, i as nat),
    {
        let c = list[i];
        assert(list@[i as int] < weight@.len());
        out.push((c, weight[c as usize] / by));
        assert(out@ =~= before + weighed(list@, weight@, by, (i + 1) as nat));
    }
}

fn list_ways(t: &Topology, weight: &Vec<u64>, s: u32, backward_only: bool) -> (out: Vec<(u32, u64)>)
    requires
        t.well_formed(),
        weights_fit(t, weight@),
        s < t.n_services,
    ensures
        out@ == ways(t, weight@, s, backward_only),
        way_total(out@, out@.len()) <= MOST,
        forall|i: int| 0 <= i < out@.len() ==> (#[trigger] out@[i]).0 < t.n_services,
{
    let mut out: Vec<(u32, u64)> = Vec::new();
    let ghost down = t.deps@[s as int]@;
    let ghost up = t.rdeps@[s as int]@;
    proof {
        assert forall|i: int| 0 <= i < down.len() implies #[trigger] down[i] < weight@.len() by {
            assert(t.deps@[s as int]@[i] < t.n_services);
        }
        assert(down.no_duplicates());
        math::lemma_distinct_numbers(down, t.n_services as nat);
        lemma_callers_len(services::list_values(t.deps@), s as int, t.n_services as nat);
    }
    push_ways(&mut out, &t.deps[s as usize], weight, 1);
    if !backward_only {
        push_ways(&mut out, &t.rdeps[s as usize], weight, FORWARD_DAMPING);
        out.push((s, weight[s as usize]));
    }
    proof {
        assert(out@ =~= ways(t, weight@, s, backward_only));
        assert forall|i: int| 0 <= i < out@.len()
            implies (#[trigger] out@[i]).1 <= MAX_WEIGHT && out@[i].0 < t.n_services by {
            if i < down.len() {
                assert(down[i] < weight@.len());
                assert(weight@[down[i] as int] <= MAX_WEIGHT);
            } else if i < down.len() + up.len() {
                let x = up[i - down.len()];
                assert(x < t.n_services);
                assert(weight@[x as int] <= MAX_WEIGHT);
            } else {
                assert(weight@[s as int] <= MAX_WEIGHT);
            }
        }
        lemma_total_bound(out@, out@.len());
        let n = out@.len();
        let m = MAX_WEIGHT as int;
        assert(n * m <= 0x2_0000_0000 * 0x20_0000_0000_0000) by (nonlinear_arith)
            requires
                n <= 0x2_0000_0000,
                m == 0x20_0000_0000_0000,
        ;
    }
    out
}

/// The way that a draw falls on.
fn pick(out: &Vec<(u32, u64)>, x: u128) -> (c: u32)
    requires
        x < way_total(out@, out@.len()) <= MOST,
    ensures
        c == chosen(out@, x as int),
        exists|i: int| 0 <= i < out@.len() && #[trigger] out@[i].0 == c,
{
    let mut i: usize = 0;
    let mut seen: u128 = 0;
    let n = out.len();
    proof {
        if n == 0 {
            assert(way_total(out@, 0) == 0);
        }
        lemma_total_monotone(out@, 1, n as nat);
    }
    while x - seen >= out[i].1 as u128
        invariant
            n == out@.len(),
            i < n,
            x < way_total(out@, n as nat) <= MOST,
            seen == way_total(out@, i as nat),
            seen <= x,
        decreases n - i,
    {
        proof {
            assert(way_total(out@, (i + 1) as nat) == seen + out@[i as int].1);
            if i + 1 == n {
                assert(false);
            }
        }
        seen = seen + out[i].1 as u128;
        i += 1;
    }
    proof {
        assert(falls_on(out@, x as int, i as int));
        lemma_one_way(out@, x as int, i as int);
    }
    out[i].0
}

fn draw_entry(rng: &mut ChaCha8Rng, t: &Topology) -> (f: u32)
    requires
        t.well_formed(),
        t.frontends@.len() > 0,
    ensures
        (f, rng::words(*final(rng))) == entry(t, rng::words(*old(rng))),
        f < t.n_services,
        t.frontends@.contains(f),
        rca_laws::serves_a_front_end(t, f as usize),
{
    let x = rng::draw_index(rng, 0, t.frontends.len());
    proof {
        assert(t.frontends@[x as int] < t.n_services);
        graph::lemma_reach_self(rca_laws::calls(t), t.frontends@[x as int] as usize);
    }
    t.frontends[x]
}

/// Walks the dependency graph and ranks the services by visits. Probabilities
/// are in units of 2^-53; `corr` says how well a service goes with failed
/// requests.
pub fn random_walk_rca(
    rng: &mut ChaCha8Rng,
    t: &Topology,
    corr: &Vec<Correlation>,
    steps: usize,
    alpha: u64,
    backward_only: bool,
) -> (r: Vec<u32>)
    requires
        t.well_formed(),
        t.frontends@.len() > 0,
        correlations_fit(t, corr@),
    ensures
        ({
            let w = walked(
                t,
                weights(corr@),
                alpha,
                backward_only,
                rng::words(*old(rng)),
                steps as nat,
            );
            &&& ranking::is_ranking(visit_scores(w.visits), r@, t.n_services as int)
            &&& rng::words(*final(rng)) == w.rest
            &&& backward_only ==> forall|v: int|
                0 <= v < t.n_services && #[trigger] w.visits[v] > 0
                    ==> rca_laws::serves_a_front_end(t, v as usize)
            &&& backward_only && steps > 0 && (forall|i: int|
                0 <= i < t.frontends@.len() ==> rca_laws::calls_a_suspect(
                    t,
                    weights(corr@),
                    #[trigger] t.frontends@[i],
                )) ==> exists|v: int| 0 <= v < t.n_services && #[trigger] w.visits[v] > 0
        }),
{
    let ghost stream = rng::words(*rng);
    let weight = weights_of(corr);
    assert forall|s: int| 0 <= s < weight@.len() implies #[trigger] weight@[s] <= MAX_WEIGHT by {
        lemma_weight(corr@[s]);
    }
    let mut visits: Vec<u64> = Vec::new();
    for s in 0..t.n_services
        invariant
            visits@.len() == s,
            forall|i: int| 0 <= i < s ==> #[trigger] visits@[i] == 0,
    {
        visits.push(0);
    }
    let mut at = draw_entry(rng, t);
    let ghost mut w = walked(t, weight@, alpha, backward_only, stream, 0);
    assert(ranking::scores_of(visits@) =~= visit_scores(w.visits));
    for k in 0..steps
        invariant
            t.well_formed(),
            t.frontends@.len() > 0,
            weights_fit(t, weight@),
            stream == rng::words(*old(rng)),
            at < t.n_services,
            w == walked(t, weight@, alpha, backward_only, stream, k as nat),
            at == w.at,
            rng::words(*rng) == w.rest,
            w.visits.len() == t.n_services,
            forall|s: int| 0 <= s < t.n_services ==> #[trigger] w.visits[s] <= k,
            weight@ == weights(corr@),
            backward_only ==> rca_laws::serves_a_front_end(t, at as usize),
            backward_only ==> forall|v: int|
                0 <= v < t.n_services && #[trigger] w.visits[v] > 0
                    ==> rca_laws::serves_a_front_end(t, v as usize),
            k == 0 ==> t.frontends@.contains(at),
            backward_only && k > 0 && (forall|i: int|
                0 <= i < t.frontends@.len() ==> rca_laws::calls_a_suspect(
                    t,
                    weight@,
                    #[trigger] t.frontends@[i],
                )) ==> exists|v: int| 0 <= v < t.n_services && #[trigger] w.visits[v] > 0,
            ranking::scores_of(visits@) == visit_scores(w.visits),
            visits@.len() == t.n_services,
    {
        let ghost before = w;
        let ghost v0 = visits@;
        proof {
            w = stepped(t, weight@, alpha, backward_only, before);
        }
        proof {
            if backward_only {
                rca_laws::lemma_backward_walk_follows_calls(t, weight@, alpha, before);
                if rca_laws::calls_a_suspect(t, weight@, at) {
                    let v = rca_laws::lemma_backward_step_visits_a_callee(t, weight@, alpha, before);
                    rca_laws::lemma_callee_serves(t, at, v);
                    assert(w.visits[v as int] == before.visits[v as int] + 1);
                    assert(t.deps@[at as int]@.contains(v));
                    let list = t.deps@[at as int]@;
                    let j = choose|j: int| 0 <= j < list.len() && list[j] == v;
                    assert(t.deps@[at as int]@[j] < t.n_services);
                    assert(w.visits[v as int] > 0);
                } else {
                    rca_laws::lemma_backward_step_stops(t, weight@, alpha, before);
                    if k == 0 {
                        let i = choose|i: int| 0 <= i < t.frontends@.len() && t.frontends@[i] == at;
                        assert(!rca_laws::calls_a_suspect(t, weight@, t.frontends@[i]));
                    } else if exists|v: int| 0 <= v < t.n_services && #[trigger] before.visits[v] > 0 {
                        let v = choose|v: int|
                            0 <= v < t.n_services && #[trigger] before.visits[v] > 0;
                        assert(w.visits[v] > 0);
                    }
                }
            }
        }
        let out = list_ways(t, &weight, at, backward_only);
        let total = sum_ways(&out);
        if total == 0 {
            at = draw_entry(rng, t);
        } else {
            let draw = rng::next_u64(rng);
            let x = part_of(total, draw);
            let next = pick(&out, x);
            proof {
                let i = choose|i: int| 0 <= i < out@.len() && #[trigger] out@[i].0 == next;
                assert(out@[i].0 < t.n_services);
                assert(before.visits[next as int] <= k);
                assert(ranking::scores_of(visits@)[next as int] == visit_scores(before.visits)[next as int]);
            }
            let n = visits[next as usize] + 1;
            visits.set(next as usize, n);
            at = next;
            assert(backward_only ==> rca_laws::serves_a_front_end(t, next as usize)) by {
                assert(w.visits[next as int] == before.visits[next as int] + 1);
                assert(w.visits[next as int] > 0);
            }
            if rng::coin(rng, alpha) {
                at = draw_entry(rng, t);
            }
            assert(ranking::scores_of(visits@) =~= visit_scores(w.visits)) by {
                assert forall|s: int| 0 <= s < t.n_services implies ranking::scores_of(visits@)[s]
                    == visit_scores(w.visits)[s] by {
                    assert(ranking::scores_of(v0)[s] == visit_scores(before.visits)[s]);
                }
            }
        }
    }
    ranking::rank(&visits)
}

/// Computes `place`.
fn part_of(total: u128, draw: u64) -> (x: u128)
    requires
        0 < total <= MOST,
    ensures
        x == place(total as int, draw),
        x < total,
{
    let part = (draw / 2048) as u128;
    let (high, low) = (total / 0x20_0000_0000_0000, total % 0x20_0000_0000_0000);
    proof {
        let (t, h, l, p, m) = (
            total as int,
            high as int,
            low as int,
            part as int,
            0x20_0000_0000_0000int,
        );
        assert(0 <= h * p <= 0x8_0000_0000 * m && 0 <= l * p <= m * m) by (nonlinear_arith)
            requires
                0 <= h <= 0x8_0000_0000,
                0 <= l <= m,
                0 <= p <= m,
        ;
        let (q, r) = ((l * p) / m, (l * p) % m);
        vstd::arithmetic::div_mod::lemma_fundamental_div_mod(l * p, m);
        vstd::arithmetic::div_mod::lemma_mod_bound(l * p, m);
        assert(t * p == (h * p + q) * m + r) by (nonlinear_arith)
            requires
                t == h * m + l,
                l * p == m * q + r,
        ;
        vstd::arithmetic::div_mod::lemma_fundamental_div_mod_converse(t * p, m, h * p + q, r);
        let x = h * p + q;
        assert(x < t) by (nonlinear_arith)
            requires
                x * m <= t * p,
                p < m,
                t > 0,
                m > 0,
        ;
    }
    high * part + low * part / 0x20_0000_0000_0000
}

fn sum_ways(out: &Vec<(u32, u64)>) -> (total: u128)
    requires
        way_total(out@, out@.len()) <= MOST,
    ensures
        total == way_total(out@, out@.len()),
{
    let mut total: u128 = 0;
    for i in 0..out.len()
        invariant
            way_total(out@, out@.len()) <= MOST,
            total == way_total(out@, i as nat),
    {
        proof {
            lemma_total_monotone(out@, (i + 1) as nat, out@.len());
        }
        total = total + out[i].1 as u128;
    }
    total
}

} // verus!
