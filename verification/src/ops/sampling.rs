//! What sampling traces keeps, and what it costs.
//!
//! A trace is kept whole or not at all. Aggregate questions survive: every
//! dependency edge is exercised all the time, so a small sample finds nearly
//! all. Rare paths do not: what occurs once in ten thousand requests is gone at
//! one in a thousand.

use crate::double;
use crate::double::Double;
use crate::egraph::egraph;
use crate::egraph::nodes;
use crate::math;
use crate::ops::services::Trace;
use crate::rng;
use crate::sorting;
use rand_chacha::ChaCha8Rng;
use std::collections::{HashMap, HashSet};
use vstd::arithmetic::power2::pow2;
use vstd::prelude::*;

verus! {

broadcast use vstd::std_specs::hash::group_hash_axioms;

impl View for Trace {
    type V = (Seq<u32>, Seq<(u32, u32)>, bool, u64);

    open spec fn view(&self) -> (Seq<u32>, Seq<(u32, u32)>, bool, u64) {
        (self.path@, self.edges@, self.failed, self.latency_us)
    }
}

/// Those of the first `n` traces whose coin came up, whole and in order.
pub open spec fn kept(traces: Seq<Trace>, coins: Seq<bool>, n: nat) -> Seq<
    (Seq<u32>, Seq<(u32, u32)>, bool, u64),
>
    decreases n,
{
    if n == 0 {
        Seq::empty()
    } else {
        let before = kept(traces, coins, (n - 1) as nat);
        if coins[n - 1] {
            before.push(traces[n - 1]@)
        } else {
            before
        }
    }
}

/// The traces as values.
pub open spec fn trace_values(traces: Seq<Trace>) -> Seq<
    (Seq<u32>, Seq<(u32, u32)>, bool, u64),
> {
    traces.map_values(|t: Trace| t@)
}

fn copy_trace(t: &Trace) -> (c: Trace)
    ensures
        c@ == t@,
{
    let path = egraph::copy_ids(&t.path);
    let mut edges: Vec<(u32, u32)> = Vec::new();
    for i in 0..t.edges.len()
        invariant
            edges@.len() == i,
            forall|j: int| 0 <= j < i ==> #[trigger] edges@[j] == t.edges@[j],
    {
        edges.push(t.edges[i]);
    }
    assert(edges@ =~= t.edges@);
    Trace { path, edges, failed: t.failed, latency_us: t.latency_us }
}

/// Keeps each whole trace with probability `rate / 2^53`.
pub fn sample(rng: &mut ChaCha8Rng, traces: &[Trace], rate: u64) -> (r: Vec<Trace>)
    ensures
        trace_values(r@) == kept(
            traces@,
            rng::coin_draws(rng::words(*old(rng)), rate, traces@.len()).0,
            traces@.len(),
        ),
        rng::words(*final(rng)) == rng::coin_draws(
            rng::words(*old(rng)),
            rate,
            traces@.len(),
        ).1,
{
    let coins = rng::draw_coins(rng, rate, traces.len());
    let mut r: Vec<Trace> = Vec::new();
    assert(trace_values(r@) =~= kept(traces@, coins@, 0));
    for i in 0..traces.len()
        invariant
            coins@.len() == traces@.len(),
            trace_values(r@) == kept(traces@, coins@, i as nat),
    {
        if coins[i] {
            let c = copy_trace(&traces[i]);
            let ghost before = r@;
            let ghost value = c@;
            r.push(c);
            assert(trace_values(r@) =~= trace_values(before).push(value));
        }
    }
    r
}

/// Some trace exercises the edge.
pub open spec fn is_seen(traces: Seq<Trace>, e: (u32, u32)) -> bool {
    exists|i: int| 0 <= i < traces.len() && (#[trigger] traces[i]).edges@.contains(e)
}

pub open spec fn seen_at(traces: Seq<Trace>, truth: Seq<(u32, u32)>) -> spec_fn(int) -> bool {
    |i: int| is_seen(traces, truth[i])
}

spec fn edge_number(e: (u32, u32)) -> u64 {
    (e.0 * 0x1_0000_0000 + e.1) as u64
}

/// The edges that the traces exercise, to be looked up.
fn edge_table(traces: &[Trace]) -> (seen: HashSet<u64>)
    ensures
        forall|e: (u32, u32)|
            seen@.contains(#[trigger] edge_number(e)) <==> is_seen(traces@, e),
{
    let mut seen: HashSet<u64> = HashSet::new();
    for i in 0..traces.len()
        invariant
            forall|e: (u32, u32)|
                seen@.contains(#[trigger] edge_number(e)) <==> exists|j: int|
                    0 <= j < i && (#[trigger] traces@[j]).edges@.contains(e),
    {
        let edges = &traces[i].edges;
        let ghost before = seen@;
        for k in 0..edges.len()
            invariant
                i < traces@.len(),
                *edges == traces@[i as int].edges,
                forall|e: (u32, u32)|
                    seen@.contains(#[trigger] edge_number(e)) <==> before.contains(edge_number(e))
                        || exists|j: int| 0 <= j < k && #[trigger] edges@[j] == e,
        {
            let (a, b) = edges[k];
            let x = a as u64 * 0x1_0000_0000 + b as u64;
            let ghost was = seen@;
            seen.insert(x);
            proof {
                assert(x == edge_number((a, b)));
                assert forall|e: (u32, u32)|
                    seen@.contains(#[trigger] edge_number(e)) <==> before.contains(edge_number(e))
                        || exists|j: int| 0 <= j < k + 1 && #[trigger] edges@[j] == e by {
                    assert(was.contains(edge_number(e)) <==> before.contains(edge_number(e))
                        || exists|j: int| 0 <= j < k && #[trigger] edges@[j] == e);
                    assert(edge_number(e) == x ==> e == (a, b));
                    if exists|j: int| 0 <= j < k + 1 && #[trigger] edges@[j] == e {
                        let j = choose|j: int| 0 <= j < k + 1 && #[trigger] edges@[j] == e;
                        if j < k {
                            assert(edges@[j] == e);
                        }
                    }
                    if exists|j: int| 0 <= j < k && #[trigger] edges@[j] == e {
                        let j = choose|j: int| 0 <= j < k && #[trigger] edges@[j] == e;
                        assert(edges@[j] == e);
                    }
                    if e == (a, b) {
                        assert(edges@[k as int] == e);
                    }
                }
            }
        }
        proof {
            assert forall|e: (u32, u32)|
                seen@.contains(#[trigger] edge_number(e)) <==> exists|j: int|
                    0 <= j < i + 1 && (#[trigger] traces@[j]).edges@.contains(e) by {
                assert(before.contains(edge_number(e)) <==> exists|j: int|
                    0 <= j < i && (#[trigger] traces@[j]).edges@.contains(e));
                if exists|j: int| 0 <= j < i && (#[trigger] traces@[j]).edges@.contains(e) {
                    let j = choose|j: int| 0 <= j < i && (#[trigger] traces@[j]).edges@.contains(e);
                    assert(traces@[j].edges@.contains(e));
                }
                if exists|j: int| 0 <= j < edges@.len() && #[trigger] edges@[j] == e {
                    let j = choose|j: int| 0 <= j < edges@.len() && #[trigger] edges@[j] == e;
                    assert(traces@[i as int].edges@.contains(e));
                }
                if exists|j: int| 0 <= j < i + 1 && (#[trigger] traces@[j]).edges@.contains(e) {
                    let j = choose|j: int|
                        0 <= j < i + 1 && (#[trigger] traces@[j]).edges@.contains(e);
                    if j < i {
                        assert(traces@[j].edges@.contains(e));
                    } else {
                        let x = choose|x: int| 0 <= x < edges@.len() && edges@[x] == e;
                        assert(edges@[x] == e);
                    }
                }
            }
        }
    }
    seen
}

/// How many of the true dependency edges the traces show, and how many there
/// are.
pub fn edge_recall(sampled: &[Trace], truth: &[(u32, u32)]) -> (r: (usize, usize))
    ensures
        r.0 == math::count(truth@.len(), seen_at(sampled@, truth@)),
        r.1 == truth@.len(),
{
    let seen = edge_table(sampled);
    let mut hits: usize = 0;
    for i in 0..truth.len()
        invariant
            forall|e: (u32, u32)|
                seen@.contains(#[trigger] edge_number(e)) <==> is_seen(sampled@, e),
            hits <= i,
            hits == math::count(i as nat, seen_at(sampled@, truth@)),
    {
        let (a, b) = truth[i];
        let x = a as u64 * 0x1_0000_0000 + b as u64;
        assert(x == edge_number(truth@[i as int]));
        if seen.contains(&x) {
            hits += 1;
        }
    }
    (hits, truth.len())
}

pub open spec fn has_path(traces: Seq<Trace>, p: Seq<u32>) -> spec_fn(int) -> bool {
    |i: int| traces[i].path@ == p
}

/// The list holds each distinct path of the first `n` traces once, with how
/// often it occurs.
pub open spec fn lists_paths(list: Seq<(Vec<u32>, usize)>, traces: Seq<Trace>, n: nat) -> bool {
    &&& forall|k: int|
        0 <= k < list.len() ==> (#[trigger] list[k]).1 == math::count(
            n,
            has_path(traces, list[k].0@),
        )
    &&& forall|j: int, k: int|
        0 <= j < k < list.len() ==> (#[trigger] list[j]).0@ != (#[trigger] list[k]).0@
    &&& forall|i: int|
        0 <= i < n ==> exists|k: int| 0 <= k < list.len() && list[k].0@ == (#[trigger] traces[i]).path@
    &&& forall|k: int| 0 <= k < list.len() ==> (#[trigger] list[k]).1 > 0
}

/// The table knows where each path of the list is, by a number made of it.
spec fn filed(table: Map<u64, Vec<usize>>, list: Seq<(Vec<u32>, usize)>) -> bool {
    &&& forall|h: u64, i: int|
        table.contains_key(h) && 0 <= i < table[h]@.len() ==> #[trigger] table[h]@[i] < list.len()
    &&& forall|k: int|
        0 <= k < list.len() ==> {
            let h = nodes::mixed(0, (#[trigger] list[k]).0@) as u64;
            table.contains_key(h) && table[h]@.contains(k as usize)
        }
}

/// The place of a path in the list.
fn find(
    table: &HashMap<u64, Vec<usize>>,
    list: &Vec<(Vec<u32>, usize)>,
    path: &Vec<u32>,
) -> (r: Option<usize>)
    requires
        filed(table@, list@),
    ensures
        r matches Some(at) ==> at < list@.len() && list@[at as int].0@ == path@,
        r is None ==> forall|k: int| 0 <= k < list@.len() ==> (#[trigger] list@[k]).0@ != path@,
{
    let h = nodes::mix(0, path);
    match table.get(&h) {
        Some(places) => {
            for i in 0..places.len()
                invariant
                    filed(table@, list@),
                    table@.contains_key(h),
                    *places == table@[h],
                    forall|j: int| 0 <= j < i ==> list@[#[trigger] places@[j] as int].0@ != path@,
            {
                let at = places[i];
                assert(table@[h]@[i as int] < list@.len());
                if nodes::same_ids(&list[at].0, path) {
                    return Some(at);
                }
            }
            assert forall|k: int| 0 <= k < list@.len() implies (#[trigger] list@[k]).0@ != path@ by {
                if list@[k].0@ == path@ {
                    assert(places@.contains(k as usize));
                    let j = choose|j: int| 0 <= j < places@.len() && places@[j] == k as usize;
                    assert(list.len() == list@.len());
                    assert(list@[places@[j] as int].0@ != path@);
                }
            }
            None
        },
        None => None,
    }
}

/// Files the last entry of the list.
fn file(table: &mut HashMap<u64, Vec<usize>>, list: &Vec<(Vec<u32>, usize)>)
    requires
        list@.len() > 0,
        filed(old(table)@, list@.drop_last()),
    ensures
        filed(final(table)@, list@),
{
    let at = list.len() - 1;
    let h = nodes::mix(0, &list[at].0);
    let ghost t0 = table@;
    let ghost before = list@.drop_last();
    let mut places = match table.remove(&h) {
        Some(places) => places,
        None => Vec::new(),
    };
    let ghost l0 = places@;
    places.push(at);
    let ghost l1 = places@;
    table.insert(h, places);
    proof {
        let t = table@;
        assert(t =~= t0.insert(h, t[h]));
        assert(l1[l0.len() as int] == at);
        assert forall|g: u64, i: int| t.contains_key(g) && 0 <= i < t[g]@.len()
            implies #[trigger] t[g]@[i] < list@.len() by {
            if g != h {
                assert(t0[g]@[i] < before.len());
            } else if i < l0.len() {
                assert(t0[h]@[i] < before.len());
            }
        }
        assert forall|k: int| 0 <= k < list@.len() implies ({
            let g = nodes::mixed(0, (#[trigger] list@[k]).0@) as u64;
            t.contains_key(g) && t[g]@.contains(k as usize)
        }) by {
            let g = nodes::mixed(0, list@[k].0@) as u64;
            if k < at {
                assert(before[k] == list@[k]);
                assert(t0.contains_key(g) && t0[g]@.contains(k as usize));
                if g == h {
                    let m = choose|m: int| 0 <= m < l0.len() && l0[m] == k as usize;
                    assert(l1[m] == k as usize);
                }
            } else {
                assert(l1.contains(at));
            }
        }
    }
}

/// The distinct paths, and a table to find them by.
fn index_paths(traces: &[Trace]) -> (r: (Vec<(Vec<u32>, usize)>, HashMap<u64, Vec<usize>>))
    ensures
        lists_paths(r.0@, traces@, traces@.len()),
        r.0@.len() <= traces@.len(),
        filed(r.1@, r.0@),
{
    let mut table: HashMap<u64, Vec<usize>> = HashMap::new();
    let mut list: Vec<(Vec<u32>, usize)> = Vec::new();
    for i in 0..traces.len()
        invariant
            filed(table@, list@),
            list@.len() <= i,
            lists_paths(list@, traces@, i as nat),
    {
        let ghost p = traces@[i as int].path@;
        let ghost before = list@;
        match find(&table, &list, &traces[i].path) {
            Some(at) => {
                proof {
                    math::lemma_count_le(i as nat, has_path(traces@, p));
                    assert(before[at as int].0@ == p);
                }
                let (path, n) = list.remove(at);
                list.insert(at, (path, n + 1));
                proof {
                    assert(list@ =~= before.update(at as int, list@[at as int]));
                    assert forall|k: int| 0 <= k < list@.len()
                        implies (#[trigger] list@[k]).0@ == before[k].0@ by {}
                    assert forall|k: int| 0 <= k < list@.len()
                        implies (#[trigger] list@[k]).1 == math::count(
                        (i + 1) as nat,
                        has_path(traces@, list@[k].0@),
                    ) by {
                        assert(before[k].1 == math::count(i as nat, has_path(traces@, before[k].0@)));
                        if k != at {
                            if k < at {
                                assert(before[k].0@ != before[at as int].0@);
                            } else {
                                assert(before[at as int].0@ != before[k].0@);
                            }
                        }
                    }
                    assert forall|j: int, k: int| 0 <= j < k < list@.len()
                        implies (#[trigger] list@[j]).0@ != (
                    #[trigger] list@[k]).0@ by {
                        assert(before[j].0@ != before[k].0@);
                    }
                    assert forall|j: int| 0 <= j < i + 1 implies exists|k: int|
                        0 <= k < list@.len() && list@[k].0@ == (#[trigger] traces@[j]).path@ by {
                        if j < i {
                            let k = choose|k: int|
                                0 <= k < before.len() && before[k].0@ == traces@[j].path@;
                            assert(list@[k].0@ == traces@[j].path@);
                        } else {
                            assert(list@[at as int].0@ == traces@[j].path@);
                        }
                    }
                    assert(filed(table@, list@)) by {
                        assert forall|k: int| 0 <= k < list@.len() implies ({
                            let g = nodes::mixed(0, (#[trigger] list@[k]).0@) as u64;
                            table@.contains_key(g) && table@[g]@.contains(k as usize)
                        }) by {
                            assert(list@[k].0@ == before[k].0@);
                        }
                    }
                }
            },
            None => {
                let at = list.len();
                list.push((egraph::copy_ids(&traces[i].path), 1));
                assert(list@.drop_last() =~= before);
                file(&mut table, &list);
                proof {
                    lemma_no_such_path(before, traces@, i as nat, p);
                    assert forall|k: int| 0 <= k < list@.len()
                        implies (#[trigger] list@[k]).1 == math::count(
                        (i + 1) as nat,
                        has_path(traces@, list@[k].0@),
                    ) by {
                        if k < at {
                            assert(list@[k] == before[k]);
                            assert(before[k].0@ != p);
                        }
                    }
                    assert forall|j: int, k: int| 0 <= j < k < list@.len()
                        implies (#[trigger] list@[j]).0@ != (
                    #[trigger] list@[k]).0@ by {
                        assert(list@[j] == before[j]);
                        if k < at {
                            assert(before[j].0@ != before[k].0@);
                        } else {
                            assert(before[j].0@ != p);
                        }
                    }
                    assert forall|j: int| 0 <= j < i + 1 implies exists|k: int|
                        0 <= k < list@.len() && list@[k].0@ == (#[trigger] traces@[j]).path@ by {
                        if j < i {
                            let k = choose|k: int|
                                0 <= k < before.len() && before[k].0@ == traces@[j].path@;
                            assert(list@[k].0@ == traces@[j].path@);
                        } else {
                            assert(list@[at as int].0@ == traces@[j].path@);
                        }
                    }
                }
            },
        }
    }
    (list, table)
}

/// The distinct call paths, in the order in which they first occur, with how
/// often they do.
pub fn distinct_paths(traces: &[Trace]) -> (list: Vec<(Vec<u32>, usize)>)
    ensures
        lists_paths(list@, traces@, traces@.len()),
        list@.len() <= traces@.len(),
{
    index_paths(traces).0
}

/// A path that is not listed has not occurred.
proof fn lemma_no_such_path(
    list: Seq<(Vec<u32>, usize)>,
    traces: Seq<Trace>,
    n: nat,
    p: Seq<u32>,
)
    requires
        lists_paths(list, traces, n),
        forall|k: int| 0 <= k < list.len() ==> (#[trigger] list[k]).0@ != p,
    ensures
        math::count(n, has_path(traces, p)) == 0,
{
    let q = has_path(traces, p);
    assert forall|i: int| 0 <= i < n implies !#[trigger] q(i) by {
        if q(i) {
            let k = choose|k: int| 0 <= k < list.len() && list[k].0@ == traces[i].path@;
            assert(list[k].0@ != p);
        }
    }
    math::lemma_count_single(n, q, 0, false);
}

pub open spec fn is_rare(list: Seq<(Vec<u32>, usize)>, most: usize) -> spec_fn(int) -> bool {
    |k: int| list[k].1 <= most
}

/// Entry `k` is rare and occurs in the sample.
pub open spec fn is_rare_survivor(
    list: Seq<(Vec<u32>, usize)>,
    most: usize,
    sampled: Seq<Trace>,
) -> spec_fn(int) -> bool {
    |k: int|
        list[k].1 <= most && exists|i: int|
            0 <= i < sampled.len() && (#[trigger] sampled[i]).path@ == list[k].0@
}

/// Of the distinct paths that occur at most `max_occurrences` times: how many
/// occur in the sample, and how many there are.
pub fn rare_path_recall(full: &[Trace], sampled: &[Trace], max_occurrences: usize) -> (r: (
    usize,
    usize,
))
    ensures
        exists|list: Seq<(Vec<u32>, usize)>|
            {
                &&& #[trigger] lists_paths(list, full@, full@.len())
                &&& r.0 == math::count(
                    list.len(),
                    is_rare_survivor(list, max_occurrences, sampled@),
                )
                &&& r.1 == math::count(list.len(), is_rare(list, max_occurrences))
            },
{
    let (list, _) = index_paths(full);
    let (kept, table) = index_paths(sampled);
    let (mut survived, mut rare): (usize, usize) = (0, 0);
    for k in 0..list.len()
        invariant
            lists_paths(kept@, sampled@, sampled@.len()),
            filed(table@, kept@),
            survived <= k,
            rare <= k,
            survived == math::count(
                k as nat,
                is_rare_survivor(list@, max_occurrences, sampled@),
            ),
            rare == math::count(k as nat, is_rare(list@, max_occurrences)),
    {
        if list[k].1 <= max_occurrences {
            rare += 1;
            proof {
                lemma_occurs(kept@, sampled@, list@[k as int].0@);
            }
            if find(&table, &kept, &list[k].0).is_some() {
                survived += 1;
            }
        }
    }
    assert(lists_paths(list@, full@, full@.len()));
    (survived, rare)
}

/// A path is listed just where it occurs.
proof fn lemma_occurs(list: Seq<(Vec<u32>, usize)>, traces: Seq<Trace>, p: Seq<u32>)
    requires
        lists_paths(list, traces, traces.len()),
    ensures
        (exists|k: int| 0 <= k < list.len() && (#[trigger] list[k]).0@ == p) <==> exists|i: int|
            0 <= i < traces.len() && (#[trigger] traces[i]).path@ == p,
{
    if exists|k: int| 0 <= k < list.len() && (#[trigger] list[k]).0@ == p {
        let k = choose|k: int| 0 <= k < list.len() && (#[trigger] list[k]).0@ == p;
        assert(list[k].1 == math::count(traces.len(), has_path(traces, p)));
        if forall|i: int| 0 <= i < traces.len() ==> (#[trigger] traces[i]).path@ != p {
            let q = has_path(traces, p);
            assert forall|i: int| 0 <= i < traces.len() implies !#[trigger] q(i) by {
                assert(traces[i].path@ != p);
            }
            math::lemma_count_single(traces.len(), q, 0, false);
        }
    }
    if exists|i: int| 0 <= i < traces.len() && (#[trigger] traces[i]).path@ == p {
        let i = choose|i: int| 0 <= i < traces.len() && (#[trigger] traces[i]).path@ == p;
        let k = choose|k: int| 0 <= k < list.len() && list[k].0@ == traces[i].path@;
        assert(list[k].0@ == p);
    }
}

pub open spec fn latency_at(traces: Seq<Trace>) -> spec_fn(int) -> int {
    |i: int| traces[i].latency_us as int
}

/// The latencies added up, and how many there are; their mean is the first by
/// the second.
pub fn mean_latency_us(traces: &[Trace]) -> (r: (u128, usize))
    ensures
        r.0 == math::sum(traces@.len(), latency_at(traces@)),
        r.1 == traces@.len(),
{
    let mut total: u128 = 0;
    for i in 0..traces.len()
        invariant
            total == math::sum(i as nat, latency_at(traces@)),
            total <= i * u64::MAX,
    {
        proof {
            assert(i * u64::MAX + u64::MAX == (i + 1) * u64::MAX) by (nonlinear_arith);
            assert((i + 1) * u64::MAX <= 0x1_0000_0000_0000_0000 * 0xffff_ffff_ffff_ffff)
                by (nonlinear_arith)
                requires
                    i < 0xffff_ffff_ffff_ffff,
                    u64::MAX == 0xffff_ffff_ffff_ffff,
            ;
        }
        total = total + traces[i].latency_us as u128;
    }
    (total, traces.len())
}

/// The latencies of the traces.
pub open spec fn latencies(traces: Seq<Trace>) -> Seq<u64> {
    traces.map_values(|t: Trace| t.latency_us)
}

/// 0.99 in double precision.
pub open spec fn most() -> int {
    0x1f_ae14_7ae1_47aeint * pow2(1021)
}

/// The place of the 99th percentile among `n` entries, computed in double
/// precision.
pub open spec fn p99_place(n: nat) -> int {
    double::saturated(double::floor(double::product(double::of(n as int), most()))) as int
        % n as int
}

/// The entry at 0.99 of the sorted latencies; 0 where there is none.
pub fn p99_latency_us(traces: &[Trace]) -> (r: u64)
    ensures
        traces@.len() == 0 ==> r == 0,
        traces@.len() > 0 ==> exists|s: Seq<u64>|
            {
                &&& #[trigger] sorting::is_sorted(s)
                &&& s.to_multiset() == latencies(traces@).to_multiset()
                &&& s.len() == traces@.len()
                &&& r == s[p99_place(traces@.len())]
            },
{
    if traces.len() == 0 {
        return 0;
    }
    let mut v: Vec<u64> = Vec::new();
    for i in 0..traces.len()
        invariant
            v@.len() == i,
            forall|j: int| 0 <= j < i ==> #[trigger] v@[j] == traces@[j].latency_us,
    {
        v.push(traces[i].latency_us);
    }
    assert(v@ =~= latencies(traces@));
    let s = sorting::sorted(&v);
    let part = Double { m: 0x1f_ae14_7ae1_47ae, e: 1021 };
    let at = (Double::from_u64(s.len() as u64).times(part).to_floor() % s.len() as u64) as usize;
    assert(sorting::is_sorted(s@));
    s[at]
}

/// The same coins, tossed for a higher rate, come up at least as often: a rate of all
/// keeps every trace and a rate of nothing none.
pub proof fn lemma_higher_rates_keep_more(
    traces: Seq<Trace>,
    stream: Map<nat, u32>,
    low: u64,
    high: u64,
    n: nat,
)
    requires
        low <= high,
        n <= traces.len(),
    ensures
        ({
            let (a, b) = (rng::coin_draws(stream, low, n), rng::coin_draws(stream, high, n));
            &&& a.1 == b.1
            &&& a.0.len() == n && b.0.len() == n
            &&& forall|i: int| 0 <= i < n && #[trigger] a.0[i] ==> b.0[i]
            &&& kept(traces, a.0, n).len() <= kept(traces, b.0, n).len() <= n
            &&& low == 0 ==> kept(traces, a.0, n).len() == 0
            &&& high >= 9_007_199_254_740_992 ==> kept(traces, b.0, n) == trace_values(
                traces.take(n as int),
            )
        }),
    decreases n,
{
    if n == 0 {
        assert(trace_values(traces.take(0)) =~= Seq::empty());
    } else {
        let m = (n - 1) as nat;
        lemma_higher_rates_keep_more(traces, stream, low, high, m);
        let (a, b) = (rng::coin_draws(stream, low, n).0, rng::coin_draws(stream, high, n).0);
        let (a0, b0) = (rng::coin_draws(stream, low, m).0, rng::coin_draws(stream, high, m).0);
        let rest = rng::coin_draws(stream, low, m).1;
        assert(rest[0] <= 0xffff_ffff && rest[1] <= 0xffff_ffff);
        lemma_kept_prefix(traces, a0, a, m);
        lemma_kept_prefix(traces, b0, b, m);
        assert forall|i: int| 0 <= i < n && #[trigger] a[i] implies b[i] by {
            if i < m {
                assert(a[i] == a0[i] && b[i] == b0[i]);
            }
        }
        assert(trace_values(traces.take(n as int)) =~= trace_values(traces.take(m as int)).push(
            traces[n - 1]@,
        ));
    }
}

proof fn lemma_kept_prefix(traces: Seq<Trace>, a: Seq<bool>, b: Seq<bool>, n: nat)
    requires
        n <= a.len(),
        n <= b.len(),
        forall|i: int| 0 <= i < n ==> a[i] == b[i],
    ensures
        kept(traces, a, n) == kept(traces, b, n),
    decreases n,
{
    if n > 0 {
        lemma_kept_prefix(traces, a, b, (n - 1) as nat);
        assert(a[n - 1] == b[n - 1]);
    }
}

} // verus!
