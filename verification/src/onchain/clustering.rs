//! Address clustering: collapsing pseudonyms back into entities.
//!
//! Co-spending: addresses that are inputs to one transaction belong together,
//! because whoever signed it held all their keys. This is safe.
//!
//! Change: a transaction's one fresh output address is taken for the sender's
//! change. This keys on a habit and can be wrong, and being wrong once welds
//! two entities together for good.

use crate::graph;
use crate::math;
use crate::onchain::chain::Chain;
use crate::onchain::union_find;
use crate::onchain::union_find::UnionFind;
use std::collections::{HashMap, HashSet};
use vstd::prelude::*;

verus! {

broadcast use vstd::std_specs::hash::group_hash_axioms;

/// The address that the `k`-th input of transaction `t` spends from.
pub open spec fn input_address(c: &Chain, t: int, k: int) -> u32 {
    c.outputs@[c.txs@[t].inputs@[k] as int].address
}

/// The address that the `k`-th output of transaction `t` pays to.
pub open spec fn output_address(c: &Chain, t: int, k: int) -> u32 {
    c.outputs@[c.txs@[t].outputs@[k] as int].address
}

/// Address `a` is among the inputs of transaction `t`.
pub open spec fn spends_from(c: &Chain, t: int, a: usize) -> bool {
    exists|k: int| 0 <= k < c.txs@[t].inputs@.len() && #[trigger] input_address(c, t, k) == a
}

/// Two addresses are inputs to one of the first `n` transactions.
pub open spec fn co_spent_until(c: &Chain, n: int) -> graph::Edges {
    |a: usize, b: usize|
        exists|t: int| 0 <= t < n && #[trigger] spends_from(c, t, a) && spends_from(c, t, b)
}

pub open spec fn co_spent(c: &Chain) -> graph::Edges {
    co_spent_until(c, c.txs@.len() as int)
}

/// Addresses that appeared as an output of one of the first `n` transactions.
pub open spec fn paid_until(c: &Chain, n: int) -> Set<u32> {
    Set::new(
        |a: u32|
            exists|t: int, k: int|
                0 <= t < n && 0 <= k < c.txs@[t].outputs@.len() && #[trigger] output_address(
                    c,
                    t,
                    k,
                ) == a,
    )
}

/// The `k`-th output of `t` pays to an address that was not seen before.
pub open spec fn is_fresh(c: &Chain, t: int, seen: Set<u32>, k: int) -> bool {
    !seen.contains(output_address(c, t, k))
}

/// Some output of `t` pays back to an address that it spends from.
pub open spec fn self_change(c: &Chain, t: int) -> bool {
    exists|k: int|
        0 <= k < c.txs@[t].outputs@.len() && spends_from(
            c,
            t,
            #[trigger] output_address(c, t, k) as usize,
        )
}

/// The `k`-th output of `t` is its one-time change: it is fresh, `t` is no
/// coinbase and pays no input address, and no other output is fresh.
pub open spec fn is_change(c: &Chain, t: int, seen: Set<u32>, k: int) -> bool {
    &&& 0 <= k < c.txs@[t].outputs@.len()
    &&& is_fresh(c, t, seen, k)
    &&& c.txs@[t].inputs@.len() > 0
    &&& !self_change(c, t)
    &&& forall|j: int|
        0 <= j < c.txs@[t].outputs@.len() && #[trigger] is_fresh(c, t, seen, j) ==> j == k
}

/// Whether address `a` is among the inputs of transaction `t`.
fn spends(chain: &Chain, t: usize, a: u32) -> (b: bool)
    requires
        chain.in_range(),
        t < chain.txs@.len(),
    ensures
        b == spends_from(chain, t as int, a as usize),
{
    let ins = &chain.txs[t].inputs;
    for k in 0..ins.len()
        invariant
            chain.in_range(),
            t < chain.txs@.len(),
            ins@ == chain.txs@[t as int].inputs@,
            forall|j: int| 0 <= j < k ==> #[trigger] input_address(chain, t as int, j) != a,
    {
        assert(chain.txs@[t as int].inputs@[k as int] < chain.len());
        if chain.outputs[ins[k]].address == a {
            assert(input_address(chain, t as int, k as int) == a as usize);
            return true;
        }
    }
    false
}

/// The sender's one-time change output of a transaction, if it has one. `seen`
/// holds the addresses that appeared as outputs of earlier transactions.
pub fn change_output(chain: &Chain, tx_id: usize, seen_as_output: &HashSet<u32>) -> (r: Option<
    usize,
>)
    requires
        chain.in_range(),
        tx_id < chain.txs@.len(),
    ensures
        r is Some <==> exists|k: int| #[trigger] is_change(chain, tx_id as int, seen_as_output@, k),
        forall|k: int| #[trigger]
            is_change(chain, tx_id as int, seen_as_output@, k) ==> r == Some(
                chain.txs@[tx_id as int].outputs@[k],
            ),
        (exists|i: int, j: int|
            0 <= i < chain.txs@[tx_id as int].inputs@.len() && 0 <= j
                < chain.txs@[tx_id as int].outputs@.len() && chain.outputs@[(
            #[trigger] chain.txs@[tx_id as int].inputs@[i]) as int].address == chain.outputs@[(
            #[trigger] chain.txs@[tx_id as int].outputs@[j]) as int].address) ==> r is None,
        r matches Some(o) ==> !seen_as_output@.contains(chain.outputs@[o as int].address),
{
    proof {
        assert forall|i: int, j: int|
            0 <= i < chain.txs@[tx_id as int].inputs@.len() && 0 <= j
                < chain.txs@[tx_id as int].outputs@.len() && chain.outputs@[(
            #[trigger] chain.txs@[tx_id as int].inputs@[i]) as int].address == chain.outputs@[(
            #[trigger] chain.txs@[tx_id as int].outputs@[j]) as int].address implies self_change(
            chain,
            tx_id as int,
        ) by {
            assert(input_address(chain, tx_id as int, i) == output_address(chain, tx_id as int, j)
                as usize);
            assert(spends_from(
                chain,
                tx_id as int,
                output_address(chain, tx_id as int, j) as usize,
            ));
        }
    }
    let ghost t = tx_id as int;
    let ghost seen = seen_as_output@;
    if chain.txs[tx_id].inputs.len() == 0 {
        return None;
    }
    let outs = &chain.txs[tx_id].outputs;
    let mut found: Option<usize> = None;
    for k in 0..outs.len()
        invariant
            chain.in_range(),
            t == tx_id,
            tx_id < chain.txs@.len(),
            seen == seen_as_output@,
            outs@ == chain.txs@[t].outputs@,
            forall|j: int|
                0 <= j < k ==> !spends_from(
                    chain,
                    t,
                    #[trigger] output_address(chain, t, j) as usize,
                ),
            found is None ==> forall|j: int|
                0 <= j < k ==> !#[trigger] is_fresh(chain, t, seen, j),
            found matches Some(f) ==> f < k && is_fresh(chain, t, seen, f as int) && forall|j: int|
                0 <= j < k && #[trigger] is_fresh(chain, t, seen, j) ==> j == f,
    {
        assert(chain.txs@[t].outputs@[k as int] < chain.len());
        let a = chain.outputs[outs[k]].address;
        assert(a == output_address(chain, t, k as int));
        if spends(chain, tx_id, a) {
            assert(self_change(chain, t));
            return None;
        }
        if !seen_as_output.contains(&a) {
            assert(is_fresh(chain, t, seen, k as int));
            if found.is_some() {
                proof {
                    let f = found->0;
                    assert(is_fresh(chain, t, seen, f as int));
                }
                return None;
            }
            found = Some(k);
        }
    }
    match found {
        Some(f) => {
            assert(is_change(chain, t, seen, f as int));
            Some(outs[f])
        },
        None => None,
    }
}

/// The addresses fit in the union-find.
pub open spec fn addresses_fit(c: &Chain) -> bool {
    c.address_entity@.len() <= u32::MAX
}

/// What a union-find over the addresses holds once it has merged the pairs.
pub open spec fn merged(uf: &UnionFind, pairs: Seq<(u32, u32)>, n: nat) -> bool {
    &&& uf.well_formed()
    &&& uf.len() == n
    &&& forall|x: u32, y: u32|
        x < n && y < n ==> #[trigger] uf.same(x, y) == graph::reach(
            union_find::pair_rel(pairs),
            x as usize,
            y as usize,
        )
}

pub(crate) fn merge(uf: &mut UnionFind, a: u32, b: u32, pairs: Ghost<Seq<(u32, u32)>>, n: Ghost<nat>)
    requires
        merged(old(uf), pairs@, n@),
        a < n@,
        b < n@,
    ensures
        merged(final(uf), pairs@.push((a, b)), n@),
{
    uf.union(a, b);
    proof {
        let e = union_find::pair_rel(pairs@);
        assert forall|x: u32, y: u32| x < n@ && y < n@ implies #[trigger] uf.same(x, y) == graph::reach(
            union_find::pair_rel(pairs@.push((a, b))),
            x as usize,
            y as usize,
        ) by {
            union_find::lemma_one_more_pair(pairs@, a, b, x as usize, y as usize);
            assert(old(uf).same(x, y) == graph::reach(e, x as usize, y as usize));
            assert(old(uf).same(x, a) == graph::reach(e, x as usize, a as usize));
            assert(old(uf).same(b, y) == graph::reach(e, b as usize, y as usize));
            assert(old(uf).same(x, b) == graph::reach(e, x as usize, b as usize));
            assert(old(uf).same(a, y) == graph::reach(e, a as usize, y as usize));
        }
    }
}

/// Merges the addresses of the inputs of transaction `t`, each with the first.
fn merge_inputs(
    chain: &Chain,
    uf: &mut UnionFind,
    t: usize,
    pairs: Ghost<Seq<(u32, u32)>>,
    n: Ghost<nat>,
) -> (more: Ghost<Seq<(u32, u32)>>)
    requires
        chain.in_range(),
        n@ == chain.address_entity@.len(),
        t < chain.txs@.len(),
        merged(old(uf), pairs@, n@),
    ensures
        merged(final(uf), pairs@ + more@, n@),
        forall|i: int|
            0 <= i < more@.len() ==> spends_from(chain, t as int, (#[trigger] more@[i]).0 as usize)
                && spends_from(chain, t as int, more@[i].1 as usize),
        forall|k: int|
            1 <= k < chain.txs@[t as int].inputs@.len() ==> more@.contains(
                (input_address(chain, t as int, 0), #[trigger] input_address(chain, t as int, k)),
            ),
{
    let ins = &chain.txs[t].inputs;
    let ghost mut more: Seq<(u32, u32)> = Seq::empty();
    assert(pairs@ + more =~= pairs@);
    if ins.len() > 0 {
        assert(chain.txs@[t as int].inputs@[0] < chain.len());
        let first = chain.outputs[ins[0]].address;
        assert(input_address(chain, t as int, 0) == first as usize);
        for k in 1..ins.len()
            invariant
                chain.in_range(),
                n@ == chain.address_entity@.len(),
                t < chain.txs@.len(),
                ins@ == chain.txs@[t as int].inputs@,
                ins@.len() > 0,
                first == input_address(chain, t as int, 0),
                first < n@,
                spends_from(chain, t as int, first as usize),
                merged(uf, pairs@ + more, n@),
                forall|i: int|
                    0 <= i < more.len() ==> spends_from(
                        chain,
                        t as int,
                        (#[trigger] more[i]).0 as usize,
                    ) && spends_from(chain, t as int, more[i].1 as usize),
                forall|j: int|
                    1 <= j < k ==> more.contains((first, #[trigger] input_address(chain, t as int, j))),
        {
            assert(chain.txs@[t as int].inputs@[k as int] < chain.len());
            let a = chain.outputs[ins[k]].address;
            assert(input_address(chain, t as int, k as int) == a as usize);
            merge(uf, first, a, Ghost(pairs@ + more), n);
            proof {
                let m0 = more;
                more = more.push((first, a));
                assert(pairs@ + more =~= (pairs@ + m0).push((first, a)));
                assert forall|j: int| 1 <= j < k + 1
                    implies more.contains((first, #[trigger] input_address(chain, t as int, j))) by {
                    if j < k {
                        let y = (first, input_address(chain, t as int, j));
                        assert(m0.contains(y));
                        let i = choose|i: int| 0 <= i < m0.len() && m0[i] == y;
                        assert(more[i] == y);
                    } else {
                        assert(more[m0.len() as int] == (first, a));
                    }
                }
            }
        }
    }
    Ghost(more)
}

/// The merged pairs link what the relation links.
spec fn spans(pairs: Seq<(u32, u32)>, e: graph::Edges) -> bool {
    &&& forall|a: usize, b: usize| #[trigger] union_find::pair_rel(pairs)(a, b) ==> e(a, b)
    &&& forall|a: usize, b: usize| #[trigger]
        e(a, b) ==> graph::reach(union_find::pair_rel(pairs), a, b)
}

proof fn lemma_spans_reach(pairs: Seq<(u32, u32)>, e: graph::Edges, x: usize, y: usize)
    requires
        spans(pairs, e),
    ensures
        graph::reach(union_find::pair_rel(pairs), x, y) == graph::reach(e, x, y),
{
    let f = union_find::pair_rel(pairs);
    if graph::reach(f, x, y) {
        graph::lemma_reach_more(f, e, x, y);
    }
    if graph::reach(e, x, y) {
        let p = choose|p: Seq<usize>| #[trigger] graph::walks(e, p, x, y);
        let inside = |v: usize| graph::reach(f, x, v);
        graph::lemma_reach_self(f, x);
        assert forall|a: usize, b: usize| inside(a) && #[trigger] e(a, b) implies inside(b) by {
            graph::lemma_reach_trans(f, x, a, b);
        }
        graph::lemma_closed_under_walks(e, inside, p, x, y);
    }
}

proof fn lemma_pairs_more(p: Seq<(u32, u32)>, q: Seq<(u32, u32)>)
    ensures
        forall|a: usize, b: usize| #[trigger]
            union_find::pair_rel(p + q)(a, b) <==> union_find::pair_rel(p)(a, b)
                || union_find::pair_rel(q)(a, b),
{
    let r = p + q;
    assert forall|a: usize, b: usize| #[trigger]
        union_find::pair_rel(r)(a, b) <==> union_find::pair_rel(p)(a, b) || union_find::pair_rel(
            q,
        )(a, b) by {
        if union_find::pair_rel(r)(a, b) {
            let i = choose|i: int|
                0 <= i < r.len() && ((#[trigger] r[i]).0 == a && r[i].1 == b || r[i].0 == b
                    && r[i].1 == a);
            if i < p.len() {
                assert(p[i] == r[i]);
            } else {
                assert(q[i - p.len()] == r[i]);
            }
        }
        if union_find::pair_rel(p)(a, b) {
            let i = choose|i: int|
                0 <= i < p.len() && ((#[trigger] p[i]).0 == a && p[i].1 == b || p[i].0 == b
                    && p[i].1 == a);
            assert(r[i] == p[i]);
        }
        if union_find::pair_rel(q)(a, b) {
            let i = choose|i: int|
                0 <= i < q.len() && ((#[trigger] q[i]).0 == a && q[i].1 == b || q[i].0 == b
                    && q[i].1 == a);
            assert(r[i + p.len()] == q[i]);
        }
    }
}

/// The addresses that transaction `t` ties together are linked by its pairs.
proof fn lemma_tied(c: &Chain, t: int, more: Seq<(u32, u32)>, hub: u32, x: usize, y: usize)
    requires
        0 <= t < c.txs@.len(),
        x == hub || more.contains((hub, x as u32)),
        y == hub || more.contains((hub, y as u32)),
        x <= u32::MAX,
        y <= u32::MAX,
    ensures
        graph::reach(union_find::pair_rel(more), x, y),
{
    let f = union_find::pair_rel(more);
    let h = hub as usize;
    assert(graph::reach(f, x, h)) by {
        if x == h {
            graph::lemma_reach_self(f, h);
        } else {
            let i = choose|i: int| 0 <= i < more.len() && more[i] == (hub, x as u32);
            assert(more[i].0 == h && more[i].1 == x);
            assert(f(x, h));
            graph::lemma_reach_edge(f, x, h);
        }
    }
    assert(graph::reach(f, h, y)) by {
        if y == h {
            graph::lemma_reach_self(f, h);
        } else {
            let i = choose|i: int| 0 <= i < more.len() && more[i] == (hub, y as u32);
            assert(more[i].0 == h && more[i].1 == y);
            assert(f(h, y));
            graph::lemma_reach_edge(f, h, y);
        }
    }
    graph::lemma_reach_trans(f, x, h, y);
}

proof fn lemma_tied_inputs(c: &Chain, t: int, more: Seq<(u32, u32)>, x: usize)
    requires
        0 <= t < c.txs@.len(),
        spends_from(c, t, x),
        forall|k: int|
            1 <= k < c.txs@[t].inputs@.len() ==> more.contains(
                (input_address(c, t, 0), #[trigger] input_address(c, t, k)),
            ),
    ensures
        x == input_address(c, t, 0) || more.contains((input_address(c, t, 0), x as u32)),
        x <= u32::MAX,
{
    let k = choose|k: int| 0 <= k < c.txs@[t].inputs@.len() && #[trigger] input_address(c, t, k) == x;
    if k > 0 {
        assert(more.contains((input_address(c, t, 0), input_address(c, t, k))));
    }
}

/// Co-spend clustering: each address's cluster, numbered in order of first
/// appearance. Two addresses share a cluster exactly when a chain of co-spends
/// leads from one to the other.
pub fn multi_input_clusters(chain: &Chain) -> (labels: Vec<u32>)
    requires
        chain.in_range(),
        addresses_fit(chain),
    ensures
        labels@.len() == chain.address_entity@.len(),
        forall|a: usize, b: usize|
            a < labels@.len() && b < labels@.len() ==> (labels@[a as int] == labels@[b as int]
                <==> #[trigger] graph::reach(co_spent(chain), a, b)),
        union_find::first_seen_order(labels@),
{
    let n = chain.address_entity.len();
    let mut uf = UnionFind::new(n);
    let ghost mut pairs: Seq<(u32, u32)> = Seq::empty();
    proof {
        lemma_no_pairs(&uf, n as nat);
    }
    for t in 0..chain.txs.len()
        invariant
            chain.in_range(),
            n == chain.address_entity@.len(),
            merged(&uf, pairs, n as nat),
            spans(pairs, co_spent_until(chain, t as int)),
    {
        let Ghost(more) = merge_inputs(chain, &mut uf, t, Ghost(pairs), Ghost(n as nat));
        proof {
            let f = union_find::pair_rel(pairs + more);
            lemma_pairs_more(pairs, more);
            let e = co_spent_until(chain, t + 1);
            let e0 = co_spent_until(chain, t as int);
            assert forall|a: usize, b: usize| #[trigger] f(a, b) implies e(a, b) by {
                if union_find::pair_rel(pairs)(a, b) {
                    assert(e0(a, b));
                    let s = choose|s: int|
                        0 <= s < t && #[trigger] spends_from(chain, s, a) && spends_from(chain, s, b);
                    assert(spends_from(chain, s, a));
                } else {
                    let i = choose|i: int|
                        0 <= i < more.len() && ((#[trigger] more[i]).0 == a && more[i].1 == b
                            || more[i].0 == b && more[i].1 == a);
                    assert(spends_from(chain, t as int, a));
                }
            }
            assert forall|a: usize, b: usize| #[trigger] e(a, b) implies graph::reach(f, a, b) by {
                let s = choose|s: int|
                    0 <= s < t + 1 && #[trigger] spends_from(chain, s, a) && spends_from(chain, s, b);
                if s < t {
                    assert(e0(a, b));
                    graph::lemma_reach_more(union_find::pair_rel(pairs), f, a, b);
                } else {
                    lemma_tied_inputs(chain, t as int, more, a);
                    lemma_tied_inputs(chain, t as int, more, b);
                    lemma_tied(chain, t as int, more, input_address(chain, t as int, 0), a, b);
                    graph::lemma_reach_more(union_find::pair_rel(more), f, a, b);
                }
            }
            pairs = pairs + more;
        }
    }
    let ghost settled = uf;
    let labels = uf.labels();
    proof {
        assert forall|a: usize, b: usize| a < labels@.len() && b < labels@.len()
            implies (labels@[a as int] == labels@[b as int]
                <==> #[trigger] graph::reach(co_spent(chain), a, b)) by {
            assert(settled.same(a as u32, b as u32) == graph::reach(union_find::pair_rel(pairs), a, b));
            lemma_spans_reach(pairs, co_spent(chain), a, b);
        }
    }
    labels
}

pub proof fn lemma_no_pairs(uf: &UnionFind, n: nat)
    requires
        uf.well_formed(),
        uf.len() == n,
        forall|x: u32| x < n ==> #[trigger] uf.rep(x) == x,
    ensures
        merged(uf, Seq::empty(), n),
{
    let none = Seq::<(u32, u32)>::empty();
    let f = union_find::pair_rel(none);
    assert forall|x: u32, y: u32| x < n && y < n implies #[trigger] uf.same(x, y) == graph::reach(
        f,
        x as usize,
        y as usize,
    ) by {
        if x == y {
            graph::lemma_reach_self(f, x as usize);
        }
        if graph::reach(f, x as usize, y as usize) {
            let p = choose|p: Seq<usize>| #[trigger] graph::walks(f, p, x as usize, y as usize);
            if p.len() > 1 {
                assert(f(p[0], p[1]));
            }
        }
    }
}

/// Transaction `t` ties address `a` to its sender: an input, or the change.
pub open spec fn sender_side(c: &Chain, t: int, a: usize) -> bool {
    ||| spends_from(c, t, a)
    ||| exists|k: int| #[trigger]
        is_change(c, t, paid_until(c, t), k) && output_address(c, t, k) == a
}

/// Two addresses are tied to the sender of one of the first `n` transactions.
pub open spec fn same_sender_until(c: &Chain, n: int) -> graph::Edges {
    |a: usize, b: usize|
        exists|t: int| 0 <= t < n && #[trigger] sender_side(c, t, a) && sender_side(c, t, b)
}

pub open spec fn same_sender(c: &Chain) -> graph::Edges {
    same_sender_until(c, c.txs@.len() as int)
}

/// Co-spend and change clustering together.
#[verifier::rlimit(30)]
pub fn full_clusters(chain: &Chain) -> (labels: Vec<u32>)
    requires
        chain.in_range(),
        addresses_fit(chain),
    ensures
        labels@.len() == chain.address_entity@.len(),
        forall|a: usize, b: usize|
            a < labels@.len() && b < labels@.len() ==> (labels@[a as int] == labels@[b as int]
                <==> #[trigger] graph::reach(same_sender(chain), a, b)),
        union_find::first_seen_order(labels@),
{
    let n = chain.address_entity.len();
    let mut uf = UnionFind::new(n);
    let mut seen: HashSet<u32> = HashSet::new();
    let ghost mut pairs: Seq<(u32, u32)> = Seq::empty();
    proof {
        lemma_no_pairs(&uf, n as nat);
        assert(seen@ =~= paid_until(chain, 0));
    }
    for t in 0..chain.txs.len()
        invariant
            chain.in_range(),
            n == chain.address_entity@.len(),
            merged(&uf, pairs, n as nat),
            seen@ == paid_until(chain, t as int),
            spans(pairs, same_sender_until(chain, t as int)),
    {
        let Ghost(mut more) = merge_inputs(chain, &mut uf, t, Ghost(pairs), Ghost(n as nat));
        let ghost hub = input_address(chain, t as int, 0);
        let ghost base = more;
        if let Some(o) = change_output(chain, t, &seen) {
            let ghost k = choose|k: int| #[trigger] is_change(chain, t as int, seen@, k);
            assert(chain.txs@[t as int].outputs@[k] == o);
            assert(chain.txs@[t as int].outputs@[k] < chain.len());
            let i0 = chain.txs[t].inputs[0];
            assert(chain.txs@[t as int].inputs@[0] < chain.len());
            let first = chain.outputs[i0].address;
            let a = chain.outputs[o].address;
            merge(&mut uf, first, a, Ghost(pairs + more), Ghost(n as nat));
            proof {
                more = more.push((hub, a));
                assert(pairs + more =~= (pairs + base).push((hub, a)));
                assert(output_address(chain, t as int, k) == a as usize);
                assert(sender_side(chain, t as int, a as usize));
                assert(input_address(chain, t as int, 0) == hub as usize);
                assert(spends_from(chain, t as int, hub as usize));
            }
        }
        proof {
            lemma_sender_side(chain, t as int, base, more, hub);
            lemma_spans_step(chain, t as int, pairs, more, hub);
            pairs = pairs + more;
        }
        remember_outputs(chain, t, &mut seen);
    }
    let ghost settled = uf;
    let labels = uf.labels();
    proof {
        assert forall|a: usize, b: usize| a < labels@.len() && b < labels@.len()
            implies (labels@[a as int] == labels@[b as int]
                <==> #[trigger] graph::reach(same_sender(chain), a, b)) by {
            assert(settled.same(a as u32, b as u32) == graph::reach(union_find::pair_rel(pairs), a, b));
            lemma_spans_reach(pairs, same_sender(chain), a, b);
        }
    }
    labels
}

/// Every pair of the transaction ties its sender's addresses, and every such
/// address is tied to the hub.
spec fn ties(c: &Chain, t: int, more: Seq<(u32, u32)>, hub: u32) -> bool {
    &&& forall|i: int|
        0 <= i < more.len() ==> sender_side(c, t, (#[trigger] more[i]).0 as usize) && sender_side(
            c,
            t,
            more[i].1 as usize,
        )
    &&& forall|a: usize| #[trigger]
        sender_side(c, t, a) ==> a <= u32::MAX && (a == hub || more.contains((hub, a as u32)))
}

proof fn lemma_sender_side(
    c: &Chain,
    t: int,
    base: Seq<(u32, u32)>,
    more: Seq<(u32, u32)>,
    hub: u32,
)
    requires
        0 <= t < c.txs@.len(),
        hub == input_address(c, t, 0),
        forall|i: int|
            0 <= i < base.len() ==> spends_from(c, t, (#[trigger] base[i]).0 as usize)
                && spends_from(c, t, base[i].1 as usize),
        forall|k: int|
            1 <= k < c.txs@[t].inputs@.len() ==> base.contains((hub, #[trigger] input_address(c, t, k))),
        more == base && (forall|k: int| !#[trigger] is_change(c, t, paid_until(c, t), k)) || exists|
            k: int,
        |
            #[trigger] is_change(c, t, paid_until(c, t), k) && more == base.push(
                (hub, output_address(c, t, k)),
            ) && spends_from(c, t, hub as usize),
    ensures
        ties(c, t, more, hub),
{
    let seen = paid_until(c, t);
    assert forall|i: int| 0 <= i < more.len()
        implies sender_side(c, t, (#[trigger] more[i]).0 as usize) && sender_side(
            c,
            t,
            more[i].1 as usize,
        ) by {
        if i < base.len() {
            assert(more[i] == base[i]);
        } else {
            let k = choose|k: int|
                #[trigger] is_change(c, t, seen, k) && more == base.push(
                    (hub, output_address(c, t, k)),
                ) && spends_from(c, t, hub as usize);
            assert(is_change(c, t, seen, k) && output_address(c, t, k) == more[i].1 as usize);
        }
    }
    assert forall|a: usize| #[trigger] sender_side(c, t, a)
        implies a <= u32::MAX && (a == hub || more.contains((hub, a as u32))) by {
        if spends_from(c, t, a) {
            lemma_tied_inputs(c, t, base, a);
            if a != hub {
                let i = choose|i: int| 0 <= i < base.len() && base[i] == (hub, a as u32);
                assert(more[i] == (hub, a as u32));
            }
        } else {
            let k = choose|k: int| #[trigger] is_change(c, t, seen, k) && output_address(c, t, k) == a;
            let k2 = choose|k: int|
                #[trigger] is_change(c, t, seen, k) && more == base.push(
                    (hub, output_address(c, t, k)),
                ) && spends_from(c, t, hub as usize);
            assert(is_fresh(c, t, seen, k) && is_fresh(c, t, seen, k2));
            assert(k == k2);
            assert(more[base.len() as int] == (hub, a as u32));
        }
    }
}

proof fn lemma_spans_step(
    c: &Chain,
    t: int,
    pairs: Seq<(u32, u32)>,
    more: Seq<(u32, u32)>,
    hub: u32,
)
    requires
        0 <= t < c.txs@.len(),
        spans(pairs, same_sender_until(c, t)),
        ties(c, t, more, hub),
    ensures
        spans(pairs + more, same_sender_until(c, t + 1)),
{
    let f = union_find::pair_rel(pairs + more);
    lemma_pairs_more(pairs, more);
    let e = same_sender_until(c, t + 1);
    let e0 = same_sender_until(c, t);
    assert forall|a: usize, b: usize| #[trigger] f(a, b) implies e(a, b) by {
        if union_find::pair_rel(pairs)(a, b) {
            assert(e0(a, b));
            let s = choose|s: int|
                0 <= s < t && #[trigger] sender_side(c, s, a) && sender_side(c, s, b);
            assert(sender_side(c, s, a));
        } else {
            let i = choose|i: int|
                0 <= i < more.len() && ((#[trigger] more[i]).0 == a && more[i].1 == b || more[i].0 == b
                    && more[i].1 == a);
            assert(sender_side(c, t, a));
        }
    }
    assert forall|a: usize, b: usize| #[trigger] e(a, b) implies graph::reach(f, a, b) by {
        let s = choose|s: int|
            0 <= s < t + 1 && #[trigger] sender_side(c, s, a) && sender_side(c, s, b);
        if s < t {
            assert(e0(a, b));
            graph::lemma_reach_more(union_find::pair_rel(pairs), f, a, b);
        } else {
            lemma_tied(c, t, more, hub, a, b);
            graph::lemma_reach_more(union_find::pair_rel(more), f, a, b);
        }
    }
}

/// Adds the output addresses of transaction `t` to those that were seen.
fn remember_outputs(chain: &Chain, t: usize, seen: &mut HashSet<u32>)
    requires
        chain.in_range(),
        t < chain.txs@.len(),
        old(seen)@ == paid_until(chain, t as int),
    ensures
        final(seen)@ == paid_until(chain, t + 1),
{
    let outs = &chain.txs[t].outputs;
    for k in 0..outs.len()
        invariant
            chain.in_range(),
            t < chain.txs@.len(),
            outs@ == chain.txs@[t as int].outputs@,
            forall|a: u32| #[trigger]
                seen@.contains(a) <==> paid_until(chain, t as int).contains(a) || exists|j: int|
                    0 <= j < k && #[trigger] output_address(chain, t as int, j) == a,
    {
        assert(chain.txs@[t as int].outputs@[k as int] < chain.len());
        let ghost s0 = seen@;
        let x = chain.outputs[outs[k]].address;
        seen.insert(x);
        proof {
            assert(output_address(chain, t as int, k as int) == x);
            assert forall|a: u32| #[trigger] seen@.contains(a) <==> paid_until(chain, t as int).contains(a) || exists|j: int|
                    0 <= j < k + 1 && #[trigger] output_address(chain, t as int, j) == a by {
                assert(seen@.contains(a) <==> s0.contains(a) || a == x);
                if exists|j: int|
                    0 <= j < k + 1 && #[trigger] output_address(chain, t as int, j) == a {
                    let j = choose|j: int|
                        0 <= j < k + 1 && #[trigger] output_address(chain, t as int, j) == a;
                    if j < k {
                        assert(output_address(chain, t as int, j) == a);
                        assert(s0.contains(a));
                    }
                }
            }
        }
    }
    proof {
        assert(seen@ =~= paid_until(chain, t + 1)) by {
            assert forall|a: u32| seen@.contains(a) <==> paid_until(chain, t + 1).contains(a) by {
                if seen@.contains(a) {
                    if paid_until(chain, t as int).contains(a) {
                        let (s, k) = choose|s: int, k: int|
                            0 <= s < t && 0 <= k < chain.txs@[s].outputs@.len() && #[trigger] output_address(
                                chain,
                                s,
                                k,
                            ) == a;
                        assert(output_address(chain, s, k) == a);
                    } else {
                        let j = choose|j: int|
                            0 <= j < outs@.len() && #[trigger] output_address(chain, t as int, j) == a;
                        assert(output_address(chain, t as int, j) == a);
                    }
                }
                if paid_until(chain, t + 1).contains(a) {
                    let (s, k) = choose|s: int, k: int|
                        0 <= s < t + 1 && 0 <= k < chain.txs@[s].outputs@.len() && #[trigger] output_address(
                            chain,
                            s,
                            k,
                        ) == a;
                    if s < t {
                        assert(paid_until(chain, t as int).contains(a));
                    } else {
                        assert(output_address(chain, t as int, k) == a);
                    }
                }
            }
        }
    }
}

/// Every transaction was signed by one entity.
pub open spec fn honest(c: &Chain) -> bool {
    forall|t: int, a: usize, b: usize|
        0 <= t < c.txs@.len() && #[trigger] spends_from(c, t, a) && #[trigger] spends_from(c, t, b)
            ==> c.address_entity@[a as int] == c.address_entity@[b as int]
}

/// Co-spending never lies: where every transaction was signed by one entity,
/// addresses in one co-spend cluster belong to one entity.
pub proof fn lemma_co_spending_never_lies(c: &Chain, a: usize, b: usize)
    requires
        honest(c),
        graph::reach(co_spent(c), a, b),
    ensures
        c.address_entity@[a as int] == c.address_entity@[b as int],
{
    let e = co_spent(c);
    let inside = |v: usize| c.address_entity@[v as int] == c.address_entity@[a as int];
    assert forall|x: usize, y: usize| inside(x) && #[trigger] e(x, y) implies inside(y) by {
        let t = choose|t: int|
            0 <= t < c.txs@.len() && #[trigger] spends_from(c, t, x) && spends_from(c, t, y);
        assert(spends_from(c, t, x) && spends_from(c, t, y));
    }
    let p = choose|p: Seq<usize>| #[trigger] graph::walks(e, p, a, b);
    graph::lemma_closed_under_walks(e, inside, p, a, b);
}

/// The change heuristic only merges further: what co-spending puts together
/// stays together.
pub proof fn lemma_change_coarsens(c: &Chain, a: usize, b: usize)
    requires
        graph::reach(co_spent(c), a, b),
    ensures
        graph::reach(same_sender(c), a, b),
{
    assert forall|x: usize, y: usize| #[trigger] co_spent(c)(x, y) implies same_sender(c)(x, y) by {
        let t = choose|t: int|
            0 <= t < c.txs@.len() && #[trigger] spends_from(c, t, x) && spends_from(c, t, y);
        assert(sender_side(c, t, x) && sender_side(c, t, y));
    }
    graph::lemma_reach_more(co_spent(c), same_sender(c), a, b);
}

/// A clustering scored on pairs of addresses against the ground truth.
#[derive(Debug, Clone, Copy)]
pub struct ClusterQuality {
    pub n_clusters: usize,
    pub largest: usize,
    /// Pairs in one cluster and of one entity.
    pub true_pairs: u64,
    /// Pairs in one cluster. Precision is `true_pairs` over this, 1 where it
    /// is 0.
    pub predicted_pairs: u64,
    /// Pairs of one entity. Recall is `true_pairs` over this, 1 where it is 0.
    pub actual_pairs: u64,
}

/// Places before `b` with the same key as `b`.
pub open spec fn twins(keys: spec_fn(int) -> int, b: int) -> spec_fn(int) -> bool {
    |a: int| keys(a) == keys(b)
}

/// How many pairs of the first `n` places have equal keys.
pub open spec fn equal_pairs(keys: spec_fn(int) -> int, n: nat) -> nat
    decreases n,
{
    if n == 0 {
        0
    } else {
        equal_pairs(keys, (n - 1) as nat) + math::count((n - 1) as nat, twins(keys, n - 1))
    }
}

/// Place `b` is the first with its key.
pub open spec fn is_first(keys: spec_fn(int) -> int, b: int) -> bool {
    forall|a: int| 0 <= a < b ==> #[trigger] keys(a) != keys(b)
}

pub open spec fn firsts(keys: spec_fn(int) -> int) -> spec_fn(int) -> bool {
    |b: int| is_first(keys, b)
}

pub open spec fn label_key(labels: Seq<u32>) -> spec_fn(int) -> int {
    |a: int| labels[a] as int
}

pub open spec fn entity_key(c: &Chain) -> spec_fn(int) -> int {
    |a: int| c.address_entity@[a] as int
}

/// A key for label and entity together.
pub open spec fn joint_key(c: &Chain, labels: Seq<u32>) -> spec_fn(int) -> int {
    |a: int| labels[a] * 0x1_0000_0000 + c.address_entity@[a]
}

/// How often each key occurs among the first `n` places.
pub open spec fn tallies(m: Map<u128, u64>, keys: spec_fn(int) -> int, n: nat) -> bool {
    &&& forall|k: u128| #[trigger]
        m.contains_key(k) <==> exists|a: int| 0 <= a < n && #[trigger] keys(a) == k
    &&& forall|k: u128| #[trigger]
        m.contains_key(k) ==> m[k] == math::count(n, has_key(keys, k as int))
}

pub open spec fn has_key(keys: spec_fn(int) -> int, k: int) -> spec_fn(int) -> bool {
    |a: int| keys(a) == k
}

/// Counts one more occurrence of the key of place `n`; returns how often it
/// occurred before.
pub(crate) fn tally(
    m: &mut HashMap<u128, u64>,
    k: u128,
    keys: Ghost<spec_fn(int) -> int>,
    n: usize,
) -> (c: u64)
    requires
        n < u32::MAX,
        tallies(old(m)@, keys@, n as nat),
        keys@(n as int) == k,
    ensures
        tallies(final(m)@, keys@, (n + 1) as nat),
        c == math::count(n as nat, twins(keys@, n as int)),
        c <= n,
        c == 0 <==> is_first(keys@, n as int),
{
    let ghost m0 = m@;
    let ghost keys = keys@;
    let c = match m.get(&k) {
        Some(c) => *c,
        None => 0,
    };
    proof {
        let p = has_key(keys, k as int);
        let q = twins(keys, n as int);
        assert forall|a: int| 0 <= a < n implies #[trigger] p(a) == q(a) by {}
        math::lemma_count_same(n as nat, p, q);
        math::lemma_count_le(n as nat, q);
        if !m0.contains_key(k) {
            assert forall|a: int| 0 <= a < n implies (#[trigger] q(a) <==> false && a == 0) by {}
            math::lemma_count_single(n as nat, q, 0, false);
            assert(is_first(keys, n as int));
        } else {
            let a = choose|a: int| 0 <= a < n && #[trigger] keys(a) == k;
            math::lemma_count_positive(n as nat, q, a);
        }
    }
    m.insert(k, c + 1);
    proof {
        assert forall|j: u128| #[trigger] m@.contains_key(j) <==> exists|a: int|
            0 <= a < n + 1 && #[trigger] keys(a) == j by {
            if m@.contains_key(j) {
                if j == k {
                    assert(keys(n as int) == j);
                } else {
                    assert(m0.contains_key(j));
                    let a = choose|a: int| 0 <= a < n && #[trigger] keys(a) == j;
                    assert(keys(a) == j);
                }
            }
            if exists|a: int| 0 <= a < n + 1 && #[trigger] keys(a) == j {
                let a = choose|a: int| 0 <= a < n + 1 && #[trigger] keys(a) == j;
                if a < n {
                    assert(m0.contains_key(j));
                }
            }
        }
        assert forall|j: u128| #[trigger] m@.contains_key(j) implies m@[j] == math::count(
            (n + 1) as nat,
            has_key(keys, j as int),
        ) by {
            if j != k {
                assert(m0.contains_key(j));
            }
        }
    }
    c
}

/// Exact pair counts, in one pass over the addresses.
#[verifier::rlimit(30)]
pub fn quality(chain: &Chain, labels: &[u32]) -> (q: ClusterQuality)
    requires
        labels@.len() <= chain.address_entity@.len(),
        labels@.len() <= u32::MAX,
    ensures
        q.n_clusters == math::count(labels@.len(), firsts(label_key(labels@))),
        forall|k: int|
            math::count(labels@.len(), #[trigger] has_label(labels@, k)) <= q.largest,
        q.largest == 0 || exists|k: int|
            math::count(labels@.len(), #[trigger] has_label(labels@, k)) == q.largest,
        q.true_pairs == equal_pairs(joint_key(chain, labels@), labels@.len()),
        q.predicted_pairs == equal_pairs(label_key(labels@), labels@.len()),
        q.actual_pairs == equal_pairs(entity_key(chain), labels@.len()),
{
    let mut by_label: HashMap<u128, u64> = HashMap::new();
    let mut by_entity: HashMap<u128, u64> = HashMap::new();
    let mut by_both: HashMap<u128, u64> = HashMap::new();
    let mut n_clusters: usize = 0;
    let mut largest: u64 = 0;
    let mut true_pairs: u64 = 0;
    let mut predicted_pairs: u64 = 0;
    let mut actual_pairs: u64 = 0;
    let ghost lk = label_key(labels@);
    let ghost ek = entity_key(chain);
    let ghost jk = joint_key(chain, labels@);
    for a in 0..labels.len()
        invariant
            labels@.len() <= chain.address_entity@.len(),
            labels@.len() <= u32::MAX,
            lk == label_key(labels@),
            ek == entity_key(chain),
            jk == joint_key(chain, labels@),
            tallies(by_label@, lk, a as nat),
            tallies(by_entity@, ek, a as nat),
            tallies(by_both@, jk, a as nat),
            n_clusters <= a,
            n_clusters == math::count(a as nat, firsts(lk)),
            largest <= a,
            forall|k: int| math::count(a as nat, #[trigger] has_label(labels@, k)) <= largest,
            largest == 0 || exists|k: int|
                math::count(a as nat, #[trigger] has_label(labels@, k)) == largest,
            true_pairs == equal_pairs(jk, a as nat),
            predicted_pairs == equal_pairs(lk, a as nat),
            actual_pairs == equal_pairs(ek, a as nat),
            true_pairs <= a * a,
            predicted_pairs <= a * a,
            actual_pairs <= a * a,
    {
        let c = labels[a] as u128;
        let e = chain.address_entity[a] as u128;
        proof {
            assert(a * a + 2 * a + 1 == (a + 1) * (a + 1)) by (nonlinear_arith);
            assert((a + 1) * (a + 1) <= 0xffff_ffff * 0xffff_ffff) by (nonlinear_arith)
                requires
                    a + 1 <= 0xffff_ffff,
                    a >= 0,
            ;
        }
        let x = tally(&mut by_label, c, Ghost(lk), a);
        let y = tally(&mut by_entity, e, Ghost(ek), a);
        let z = tally(&mut by_both, c * 0x1_0000_0000 + e, Ghost(jk), a);
        if x == 0 {
            n_clusters += 1;
        }
        let ghost l0 = largest;
        if x + 1 > largest {
            largest = x + 1;
        }
        true_pairs += z;
        predicted_pairs += x;
        actual_pairs += y;
        proof {
            let here = has_label(labels@, c as int);
            let tw = twins(lk, a as int);
            assert forall|i: int| 0 <= i < a implies #[trigger] here(i) == tw(i) by {}
            math::lemma_count_same(a as nat, here, tw);
            assert(math::count((a + 1) as nat, here) == x + 1);
            assert forall|k: int| math::count((a + 1) as nat, #[trigger] has_label(labels@, k)) <= largest by {
                let p = has_label(labels@, k);
                assert(math::count(a as nat, p) <= l0);
                if p(a as int) {
                    assert(k == c);
                }
            }
            if largest == l0 && l0 > 0 {
                let k = choose|k: int|
                    math::count(a as nat, #[trigger] has_label(labels@, k)) == l0;
                let p = has_label(labels@, k);
                assert(math::count((a + 1) as nat, p) <= largest);
                assert(math::count((a + 1) as nat, p) >= math::count(a as nat, p));
                assert(math::count((a + 1) as nat, has_label(labels@, k)) == largest);
            } else {
                assert(math::count((a + 1) as nat, has_label(labels@, c as int)) == largest);
            }
        }
    }
    ClusterQuality {
        n_clusters,
        largest: largest as usize,
        true_pairs,
        predicted_pairs,
        actual_pairs,
    }
}

pub open spec fn has_label(labels: Seq<u32>, k: int) -> spec_fn(int) -> bool {
    |a: int| labels[a] == k
}

/// A pair has equal joint keys exactly when it has one label and one entity.
pub proof fn lemma_joint_key(c: &Chain, labels: Seq<u32>, a: int, b: int)
    ensures
        joint_key(c, labels)(a) == joint_key(c, labels)(b) <==> labels[a] == labels[b]
            && c.address_entity@[a] == c.address_entity@[b],
{
}

} // verus!
