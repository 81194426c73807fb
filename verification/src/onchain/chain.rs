//! The ledger. Transactions spend outputs of earlier transactions and create
//! new ones; without fees, what goes in comes out.
//!
//! ```text
//!   Tx { inputs: [output ids],  outputs: [output ids] }
//!   Output { value, address, creating_tx }
//! ```

use crate::graph;
use crate::math;
use std::collections::HashSet;
use vstd::prelude::*;

verus! {

broadcast use vstd::std_specs::hash::group_hash_axioms;

#[derive(Clone, Debug)]
pub struct Output {
    pub value: u64,
    pub address: u32,
    pub creating_tx: usize,
}

#[derive(Clone, Debug)]
pub struct Tx {
    /// Output ids being spent. Empty for a coinbase.
    pub inputs: Vec<usize>,
    /// Output ids created.
    pub outputs: Vec<usize>,
}

impl Default for Tx {
    fn default() -> (tx: Tx)
        ensures
            tx.inputs@.len() == 0,
            tx.outputs@.len() == 0,
    {
        Tx { inputs: Vec::new(), outputs: Vec::new() }
    }
}

impl Tx {
    pub fn is_coinbase(&self) -> (b: bool)
        ensures
            b == (self.inputs@.len() == 0),
    {
        self.inputs.len() == 0
    }
}

pub struct Chain {
    pub outputs: Vec<Output>,
    pub txs: Vec<Tx>,
    /// Output id to the transaction that spent it, if any.
    pub spent_by: Vec<Option<usize>>,
    /// Ground truth: address to controlling entity. Not observable.
    pub address_entity: Vec<u32>,
    pub n_entities: usize,
    /// The planted theft: this output is the crime proceeds.
    pub stolen_output: usize,
    pub stolen_value: u64,
}

impl Chain {
    pub open spec fn len(&self) -> nat {
        self.outputs@.len()
    }

    /// The value of an output.
    pub open spec fn value(&self) -> spec_fn(int) -> int {
        |o: int| self.outputs@[o].value as int
    }

    /// Every id is in range.
    pub open spec fn in_range(&self) -> bool {
        &&& self.spent_by@.len() == self.len()
        &&& forall|o: int|
            0 <= o < self.len() ==> (#[trigger] self.outputs@[o]).creating_tx < self.txs@.len()
                && self.outputs@[o].address < self.address_entity@.len()
        &&& forall|t: int, k: int|
            0 <= t < self.txs@.len() && 0 <= k < self.txs@[t].outputs@.len()
                ==> #[trigger] self.txs@[t].outputs@[k] < self.len()
        &&& forall|t: int, k: int|
            0 <= t < self.txs@.len() && 0 <= k < self.txs@[t].inputs@.len()
                ==> #[trigger] self.txs@[t].inputs@[k] < self.len()
        &&& forall|o: int|
            0 <= o < self.len() ==> (#[trigger] self.spent_by@[o] matches Some(t) ==> t
                < self.txs@.len())
    }

    /// A ledger: every output is created by one transaction and spent by at
    /// most one, which comes later.
    pub open spec fn linked(&self) -> bool {
        &&& self.in_range()
        &&& forall|o: int|
            0 <= o < self.len() ==> self.txs@[(
            #[trigger] self.outputs@[o]).creating_tx as int].outputs@.contains(o as usize)
        &&& forall|t: int, k: int|
            0 <= t < self.txs@.len() && 0 <= k < self.txs@[t].outputs@.len()
                ==> self.outputs@[#[trigger] self.txs@[t].outputs@[k] as int].creating_tx == t
        &&& forall|t: int|
            0 <= t < self.txs@.len() ==> (#[trigger] self.txs@[t]).outputs@.no_duplicates()
                && self.txs@[t].inputs@.no_duplicates()
        &&& forall|t: int, k: int|
            0 <= t < self.txs@.len() && 0 <= k < self.txs@[t].inputs@.len() ==> {
                let o = #[trigger] self.txs@[t].inputs@[k];
                self.outputs@[o as int].creating_tx < t && self.spent_by@[o as int] == Some(
                    t as usize,
                )
            }
        &&& forall|o: int|
            0 <= o < self.len() ==> (#[trigger] self.spent_by@[o] matches Some(t)
                ==> self.txs@[t as int].inputs@.contains(o as usize))
    }

    /// The value that goes into transaction `t`.
    pub open spec fn value_in(&self, t: int) -> int {
        math::sum_over(self.txs@[t].inputs@, self.value())
    }

    pub open spec fn value_out(&self, t: int) -> int {
        math::sum_over(self.txs@[t].outputs@, self.value())
    }

    /// No fees: but for coinbases, what goes in comes out.
    pub open spec fn conserving(&self) -> bool {
        forall|t: int|
            0 <= t < self.txs@.len() && (#[trigger] self.txs@[t]).inputs@.len() > 0
                ==> self.value_in(t) == self.value_out(t)
    }

    /// The value that the coinbases created.
    pub open spec fn minted(&self) -> int {
        math::sum(
            self.len(),
            |o: int|
                if self.txs@[self.outputs@[o].creating_tx as int].inputs@.len() == 0 {
                    self.outputs@[o].value as int
                } else {
                    0
                },
        )
    }

    /// Output `o` is created but not yet spent after the first `k`
    /// transactions.
    pub open spec fn live(&self, k: int, o: int) -> bool {
        &&& self.outputs@[o].creating_tx < k
        &&& match self.spent_by@[o] {
            Some(t) => t >= k,
            None => true,
        }
    }

    /// The sum of `f` over what is live after the first `k` transactions.
    pub open spec fn live_sum(&self, k: int, f: spec_fn(int) -> int) -> int {
        math::sum(
            self.len(),
            |o: int|
                if self.live(k, o) {
                    f(o)
                } else {
                    0
                },
        )
    }

    /// The value of the outputs that were never spent.
    pub open spec fn unspent_sum(&self, f: spec_fn(int) -> int) -> int {
        math::sum(
            self.len(),
            |o: int|
                if self.spent_by@[o] is None {
                    f(o)
                } else {
                    0
                },
        )
    }

    pub fn n_addresses(&self) -> (n: usize)
        ensures
            n == self.address_entity@.len(),
    {
        self.address_entity.len()
    }

    pub fn n_outputs(&self) -> (n: usize)
        ensures
            n == self.len(),
    {
        self.outputs.len()
    }

    /// Outputs never spent, in order: where the money is now.
    pub fn utxo_set(&self) -> (r: Vec<usize>)
        requires
            self.spent_by@.len() == self.len(),
        ensures
            forall|i: int, j: int| 0 <= i < j < r@.len() ==> #[trigger] r@[i] < #[trigger] r@[j],
            forall|o: usize| #[trigger]
                r@.contains(o) <==> o < self.len() && self.spent_by@[o as int] is None,
    {
        let mut r: Vec<usize> = Vec::new();
        for o in 0..self.outputs.len()
            invariant
                self.spent_by@.len() == self.len(),
                forall|i: int, j: int|
                    0 <= i < j < r@.len() ==> #[trigger] r@[i] < #[trigger] r@[j],
                forall|i: int| 0 <= i < r@.len() ==> #[trigger] r@[i] < o,
                forall|x: usize| #[trigger]
                    r@.contains(x) <==> x < o && self.spent_by@[x as int] is None,
        {
            let ghost r0 = r@;
            if self.spent_by[o].is_none() {
                r.push(o);
            }
            proof {
                assert forall|x: usize| #[trigger] r@.contains(x) <==> x < o + 1
                    && self.spent_by@[x as int] is None by {
                    graph::lemma_push_contains(r0, o, x);
                    assert(r0.contains(x) <==> x < o && self.spent_by@[x as int] is None);
                }
            }
        }
        r
    }

    /// The value in the unspent outputs.
    pub fn total_value(&self) -> (v: u64)
        requires
            self.spent_by@.len() == self.len(),
            self.unspent_sum(self.value()) <= u64::MAX,
        ensures
            v == self.unspent_sum(self.value()),
    {
        let ghost f = |o: int|
            if self.spent_by@[o] is None {
                self.value()(o)
            } else {
                0
            };
        let mut v: u64 = 0;
        for o in 0..self.outputs.len()
            invariant
                self.spent_by@.len() == self.len(),
                math::sum(self.len(), f) <= u64::MAX,
                f == (|o: int|
                    if self.spent_by@[o] is None {
                        self.value()(o)
                    } else {
                        0
                    }),
                v == math::sum(o as nat, f),
        {
            proof {
                assert forall|i: int| 0 <= i < self.len() implies 0 <= #[trigger] f(i) by {}
                math::lemma_sum_prefix((o + 1) as nat, self.len(), f);
            }
            if self.spent_by[o].is_none() {
                v += self.outputs[o].value;
            }
        }
        v
    }

    /// Money flows from a spent output to the outputs of the transaction that
    /// spent it.
    pub open spec fn flow(&self) -> graph::Edges {
        |a: usize, b: usize|
            a < self.len() && (self.spent_by@[a as int] matches Some(t) && self.txs@[t as int].outputs@.contains(b))
    }
}

/// One transaction later: its inputs are no longer live, its outputs are.
pub proof fn lemma_live_step(
    c: &Chain,
    k: int,
    f: spec_fn(int) -> int,
    g: spec_fn(int) -> int,
)
    requires
        c.linked(),
        c.len() <= usize::MAX,
        c.txs@.len() <= usize::MAX,
        0 <= k < c.txs@.len(),
        forall|o: int|
            0 <= o < c.len() && !c.txs@[k].outputs@.contains(o as usize) ==> #[trigger] g(o) == f(o),
    ensures
        c.live_sum(k + 1, g) == c.live_sum(k, f) - math::sum_over(c.txs@[k].inputs@, f)
            + math::sum_over(c.txs@[k].outputs@, g),
{
    let n = c.len();
    let ins = c.txs@[k].inputs@;
    let outs = c.txs@[k].outputs@;
    let before = |o: int|
        if c.live(k, o) {
            f(o)
        } else {
            0
        };
    let after = |o: int|
        if c.live(k + 1, o) {
            g(o)
        } else {
            0
        };
    let spent = |o: int|
        if ins.contains(o as usize) {
            f(o)
        } else {
            0
        };
    let made = |o: int|
        if outs.contains(o as usize) {
            g(o)
        } else {
            0
        };
    let left = |o: int| after(o) + spent(o);
    let right = |o: int| before(o) + made(o);
    assert forall|o: int| 0 <= o < n implies #[trigger] left(o) == right(o) by {
        assert(c.txs@[c.outputs@[o].creating_tx as int].outputs@.contains(o as usize));
        if outs.contains(o as usize) {
            let i = choose|i: int| 0 <= i < outs.len() && outs[i] == o as usize;
            assert(c.outputs@[c.txs@[k].outputs@[i] as int].creating_tx == k);
            if ins.contains(o as usize) {
                let j = choose|j: int| 0 <= j < ins.len() && ins[j] == o as usize;
                assert(c.outputs@[c.txs@[k].inputs@[j] as int].creating_tx < k);
            }
            match c.spent_by@[o] {
                Some(t) => {
                    assert(c.txs@[t as int].inputs@.contains(o as usize));
                    let js = c.txs@[t as int].inputs@;
                    let j = choose|j: int| 0 <= j < js.len() && js[j] == o as usize;
                    assert(c.outputs@[c.txs@[t as int].inputs@[j] as int].creating_tx < t);
                },
                None => {},
            }
        } else if ins.contains(o as usize) {
            let j = choose|j: int| 0 <= j < ins.len() && ins[j] == o as usize;
            assert(c.spent_by@[c.txs@[k].inputs@[j] as int] == Some(k as usize));
            assert(c.outputs@[c.txs@[k].inputs@[j] as int].creating_tx < k);
        } else {
            match c.spent_by@[o] {
                Some(t) => {
                    assert(c.txs@[t as int].inputs@.contains(o as usize));
                },
                None => {},
            }
        }
    }
    assert forall|i: int| 0 <= i < ins.len() implies #[trigger] ins[i] < n by {
        assert(c.txs@[k].inputs@[i] < c.len());
    }
    assert forall|i: int| 0 <= i < outs.len() implies #[trigger] outs[i] < n by {
        assert(c.txs@[k].outputs@[i] < c.len());
    }
    assert(c.txs@[k].outputs@.no_duplicates());
    math::lemma_sum_members(ins, n, f);
    math::lemma_sum_members(outs, n, g);
    math::lemma_sum_add(n, after, spent, left);
    math::lemma_sum_add(n, before, made, right);
    math::lemma_sum_same(n, left, right);
}

/// After all transactions, what is live is what is unspent.
pub proof fn lemma_live_end(c: &Chain, f: spec_fn(int) -> int)
    requires
        c.linked(),
    ensures
        c.live_sum(c.txs@.len() as int, f) == c.unspent_sum(f),
        c.live_sum(0, f) == 0,
{
    let a = |o: int|
        if c.live(c.txs@.len() as int, o) {
            f(o)
        } else {
            0
        };
    let b = |o: int|
        if c.spent_by@[o] is None {
            f(o)
        } else {
            0
        };
    assert forall|o: int| 0 <= o < c.len() implies #[trigger] a(o) == b(o) by {
        assert(c.outputs@[o].creating_tx < c.txs@.len());
        assert(c.spent_by@[o] matches Some(t) ==> t < c.txs@.len());
    }
    math::lemma_sum_same(c.len(), a, b);
    let z = |o: int|
        if c.live(0, o) {
            f(o)
        } else {
            0
        };
    math::lemma_sum_single(c.len(), z, 0, 0);
}

/// The value created by the coinbases among the first `k` transactions.
pub open spec fn minted_until(c: &Chain, k: int) -> int {
    math::sum(
        c.len(),
        |o: int|
            if c.outputs@[o].creating_tx < k
                && c.txs@[c.outputs@[o].creating_tx as int].inputs@.len() == 0 {
                c.outputs@[o].value as int
            } else {
                0
            },
    )
}

/// The ledger conserves value: after any number of transactions the live
/// outputs hold exactly what was mined so far.
pub proof fn lemma_value_conserved_until(c: &Chain, k: int)
    requires
        c.linked(),
        c.conserving(),
        c.len() <= usize::MAX,
        c.txs@.len() <= usize::MAX,
        0 <= k <= c.txs@.len(),
    ensures
        c.live_sum(k, c.value()) == minted_until(c, k),
    decreases k,
{
    let n = c.len();
    let now = |o: int|
        if c.outputs@[o].creating_tx < k
            && c.txs@[c.outputs@[o].creating_tx as int].inputs@.len() == 0 {
            c.outputs@[o].value as int
        } else {
            0
        };
    if k == 0 {
        lemma_live_end(c, c.value());
        math::lemma_sum_single(n, now, 0, 0);
    } else {
        let t = k - 1;
        lemma_value_conserved_until(c, t);
        lemma_live_step(c, t, c.value(), c.value());
        let before = |o: int|
            if c.outputs@[o].creating_tx < t
                && c.txs@[c.outputs@[o].creating_tx as int].inputs@.len() == 0 {
                c.outputs@[o].value as int
            } else {
                0
            };
        let outs = c.txs@[t].outputs@;
        let made = |o: int|
            if outs.contains(o as usize) {
                c.value()(o)
            } else {
                0
            };
        assert forall|i: int| 0 <= i < outs.len() implies #[trigger] outs[i] < n by {
            assert(c.txs@[t].outputs@[i] < c.len());
        }
        assert(c.txs@[t].outputs@.no_duplicates());
        assert forall|o: int| 0 <= o < n implies (outs.contains(o as usize) <==> (
        #[trigger] c.outputs@[o]).creating_tx == t) by {
            assert(c.txs@[c.outputs@[o].creating_tx as int].outputs@.contains(o as usize));
            if outs.contains(o as usize) {
                let i = choose|i: int| 0 <= i < outs.len() && outs[i] == o as usize;
                assert(c.outputs@[c.txs@[t].outputs@[i] as int].creating_tx == t);
            }
        }
        if c.txs@[t].inputs@.len() == 0 {
            math::lemma_sum_members(outs, n, c.value());
            assert forall|o: int| 0 <= o < n implies #[trigger] now(o) == before(o) + made(o) by {
                assert(outs.contains(o as usize) <==> c.outputs@[o].creating_tx == t);
            }
            math::lemma_sum_add(n, before, made, now);
        } else {
            assert(c.value_in(t) == c.value_out(t));
            assert forall|o: int| 0 <= o < n implies #[trigger] now(o) == before(o) by {}
            math::lemma_sum_same(n, now, before);
        }
    }
}

/// The unspent outputs hold exactly what was mined.
pub proof fn lemma_value_conserved(c: &Chain)
    requires
        c.linked(),
        c.conserving(),
        c.len() <= usize::MAX,
        c.txs@.len() <= usize::MAX,
    ensures
        c.unspent_sum(c.value()) == c.minted(),
{
    let k = c.txs@.len() as int;
    lemma_value_conserved_until(c, k);
    lemma_live_end(c, c.value());
    let now = |o: int|
        if c.outputs@[o].creating_tx < k
            && c.txs@[c.outputs@[o].creating_tx as int].inputs@.len() == 0 {
            c.outputs@[o].value as int
        } else {
            0
        };
    let all = |o: int|
        if c.txs@[c.outputs@[o].creating_tx as int].inputs@.len() == 0 {
            c.outputs@[o].value as int
        } else {
            0
        };
    assert forall|o: int| 0 <= o < c.len() implies #[trigger] now(o) == all(o) by {
        assert(c.outputs@[o].creating_tx < c.txs@.len());
    }
    math::lemma_sum_same(c.len(), now, all);
}

/// Every output that the money of `origin` can have reached, `origin` itself
/// included.
pub fn descendants(chain: &Chain, origin: usize) -> (seen: HashSet<usize>)
    requires
        chain.in_range(),
        origin < chain.len(),
    ensures
        forall|o: usize| #[trigger]
            seen@.contains(o) <==> graph::reach(chain.flow(), origin, o),
{
    let n = chain.outputs.len();
    let mut next: Vec<Vec<usize>> = Vec::new();
    for o in 0..n
        invariant
            n == chain.len(),
            chain.in_range(),
            next@.len() == o,
            forall|a: int|
                0 <= a < o ==> (#[trigger] next@[a])@ == match chain.spent_by@[a] {
                    Some(t) => chain.txs@[t as int].outputs@,
                    None => Seq::<usize>::empty(),
                },
    {
        assert(chain.spent_by@[o as int] matches Some(t) ==> t < chain.txs@.len());
        match chain.spent_by[o] {
            Some(t) => {
                next.push(chain.txs[t].outputs.clone());
            },
            None => {
                next.push(Vec::new());
            },
        }
    }
    proof {
        assert forall|a: int, k: int| 0 <= a < next@.len() && 0 <= k < next@[a]@.len()
            implies #[trigger] next@[a]@[k]
            < next@.len() by {
            assert(chain.spent_by@[a] matches Some(t) ==> t < chain.txs@.len());
            match chain.spent_by@[a] {
                Some(t) => {
                    assert(chain.txs@[t as int].outputs@[k] < chain.len());
                },
                None => {},
            }
        }
        assert forall|a: usize, b: usize| #[trigger]
            graph::listed(next@)(a, b) == chain.flow()(a, b) by {}
    }
    let mut seeds: Vec<usize> = Vec::new();
    seeds.push(origin);
    let dist = graph::bfs(&next, &seeds);
    let mut seen: HashSet<usize> = HashSet::new();
    for o in 0..n
        invariant
            n == chain.len(),
            dist@.len() == n,
            seeds@ =~= seq![origin],
            forall|v: int|
                0 <= v < dist@.len() ==> graph::is_distance(
                    graph::listed(next@),
                    seeds@,
                    v as usize,
                    #[trigger] dist@[v],
                ),
            forall|a: usize, b: usize| #[trigger]
                graph::listed(next@)(a, b) == chain.flow()(a, b),
            forall|x: usize| #[trigger]
                seen@.contains(x) <==> x < o && graph::reach(chain.flow(), origin, x),
    {
        proof {
            assert(graph::is_distance(graph::listed(next@), seeds@, o, dist@[o as int]));
            graph::lemma_single_seed(graph::listed(next@), origin, o, dist@[o as int]);
            graph::lemma_reach_same(graph::listed(next@), chain.flow(), origin, o);
        }
        if dist[o] != usize::MAX {
            seen.insert(o);
        }
    }
    proof {
        assert forall|o: usize| #[trigger] seen@.contains(o) <==> graph::reach(chain.flow(), origin, o) by {
            if graph::reach(chain.flow(), origin, o) {
                lemma_flow_in_range(chain, origin, o);
            }
        }
    }
    seen
}

pub proof fn lemma_flow_in_range(chain: &Chain, a: usize, b: usize)
    requires
        chain.in_range(),
        a < chain.len(),
        graph::reach(chain.flow(), a, b),
    ensures
        b < chain.len(),
{
    let e = chain.flow();
    let inside = |v: usize| v < chain.len();
    assert forall|x: usize, y: usize| inside(x) && #[trigger] e(x, y) implies inside(y) by {
        assert(chain.spent_by@[x as int] matches Some(t) ==> t < chain.txs@.len());
        let t = chain.spent_by@[x as int]->0;
        let outs = chain.txs@[t as int].outputs@;
        let k = choose|k: int| 0 <= k < outs.len() && outs[k] == y;
        assert(chain.txs@[t as int].outputs@[k] < chain.len());
    }
    let p = choose|p: Seq<usize>| #[trigger] graph::walks(e, p, a, b);
    graph::lemma_closed_under_walks(e, inside, p, a, b);
}

/// Distinct addresses touched by some outputs.
pub fn addresses_of(chain: &Chain, outs: &[usize]) -> (r: HashSet<u32>)
    requires
        forall|i: int| 0 <= i < outs@.len() ==> #[trigger] outs@[i] < chain.len(),
    ensures
        forall|a: u32| #[trigger]
            r@.contains(a) <==> exists|i: int|
                0 <= i < outs@.len() && chain.outputs@[#[trigger] outs@[i] as int].address == a,
{
    let mut r: HashSet<u32> = HashSet::new();
    for k in 0..outs.len()
        invariant
            forall|i: int| 0 <= i < outs@.len() ==> #[trigger] outs@[i] < chain.len(),
            forall|a: u32| #[trigger]
                r@.contains(a) <==> exists|i: int|
                    0 <= i < k && chain.outputs@[#[trigger] outs@[i] as int].address == a,
    {
        let ghost r0 = r@;
        let o = outs[k];
        let addr = chain.outputs[o].address;
        r.insert(addr);
        proof {
            assert forall|a: u32| #[trigger] r@.contains(a) <==> exists|i: int|
                0 <= i < k + 1 && chain.outputs@[#[trigger] outs@[i] as int].address == a by {
                if r@.contains(a) && a != addr {
                    assert(r0.contains(a));
                    let i = choose|i: int|
                        0 <= i < k && chain.outputs@[#[trigger] outs@[i] as int].address == a;
                    assert(chain.outputs@[outs@[i] as int].address == a);
                }
                if a == addr {
                    assert(chain.outputs@[outs@[k as int] as int].address == a);
                }
                if exists|i: int|
                    0 <= i < k + 1 && chain.outputs@[#[trigger] outs@[i] as int].address == a {
                    let i = choose|i: int|
                        0 <= i < k + 1 && chain.outputs@[#[trigger] outs@[i] as int].address == a;
                    if i < k {
                        assert(r0.contains(a));
                    }
                }
            }
        }
    }
    r
}

} // verus!
