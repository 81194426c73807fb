//! E-nodes, and the hashcons table that finds an e-node's class.

use std::collections::HashMap;
use vstd::prelude::*;

verus! {

broadcast use vstd::std_specs::hash::group_hash_axioms;

/// An e-class id. Not necessarily canonical.
pub type Id = u32;

/// An interned function symbol.
pub type Sym = u32;

/// A function symbol with the ids of its children, as a value of its own.
pub type Key = (Sym, Seq<Id>);

/// `(f, [child ids])`.
#[derive(Clone, PartialEq, Eq, Hash, PartialOrd, Ord, Debug)]
pub struct ENode {
    pub op: Sym,
    pub children: Vec<Id>,
}

impl View for ENode {
    type V = Key;

    open spec fn view(&self) -> Key {
        (self.op, self.children@)
    }
}

/// The e-nodes of a list, as values.
pub open spec fn keys(nodes: Seq<ENode>) -> Seq<Key> {
    nodes.map_values(|n: ENode| n@)
}

/// Whether two id lists are equal.
pub fn same_ids(a: &[Id], b: &[Id]) -> (same: bool)
    ensures
        same == (a@ == b@),
{
    if a.len() != b.len() {
        return false;
    }
    for i in 0..a.len()
        invariant
            a@.len() == b@.len(),
            forall|j: int| 0 <= j < i ==> #[trigger] a@[j] == b@[j],
    {
        if a[i] != b[i] {
            assert(a@[i as int] != b@[i as int]);
            return false;
        }
    }
    assert(a@ =~= b@);
    true
}

/// Where the table files an e-node: by its symbol and its
/// children.
spec fn slot(k: Key) -> u64 {
    mixed(k.0, k.1) as u64
}

/// A number below 2^56 that every part of an e-node or a row goes into.
pub open spec fn mixed(op: Sym, children: Seq<Id>) -> nat
    decreases children.len(),
{
    if children.len() == 0 {
        op as nat
    } else {
        (mixed(op, children.drop_last()) * 31 + children.last()) as nat % 0x100_0000_0000_0000
    }
}

pub(crate) fn mix(op: Sym, children: &[Id]) -> (s: u64)
    ensures
        s == mixed(op, children@),
{
    let mut s: u64 = op as u64;
    for i in 0..children.len()
        invariant
            s < 0x100_0000_0000_0000,
            s == mixed(op, children@.take(i as int)),
    {
        assert(children@.take(i + 1).drop_last() =~= children@.take(i as int));
        s = (s * 31 + children[i] as u64) % 0x100_0000_0000_0000;
    }
    assert(children@.take(children@.len() as int) =~= children@);
    s
}

fn slot_of(n: &ENode) -> (s: u64)
    ensures
        s == slot(n@),
{
    mix(n.op, &n.children)
}

/// The hashcons table: each e-node with the id of its class.
pub struct NodeMap {
    nodes: Vec<ENode>,
    ids: Vec<Id>,
    index: HashMap<u64, Vec<usize>>,
}

impl View for NodeMap {
    type V = Map<Key, Id>;

    closed spec fn view(&self) -> Map<Key, Id> {
        Map::new(|k: Key| self.place(k) is Some, |k: Key| self.ids@[self.place(k)->0])
    }
}

impl NodeMap {
    /// Where the table holds `k`.
    spec fn place(&self, k: Key) -> Option<int> {
        if exists|i: int| 0 <= i < self.nodes@.len() && (#[trigger] self.nodes@[i])@ == k {
            Some(choose|i: int| 0 <= i < self.nodes@.len() && (#[trigger] self.nodes@[i])@ == k)
        } else {
            None
        }
    }

    pub closed spec fn well_formed(&self) -> bool {
        &&& self.ids@.len() == self.nodes@.len()
        &&& forall|i: int, j: int|
            0 <= i < j < self.nodes@.len() ==> (#[trigger] self.nodes@[i])@ != (
            #[trigger] self.nodes@[j])@
        &&& forall|i: int|
            0 <= i < self.nodes@.len() ==> self.index@.contains_key(
                slot((#[trigger] self.nodes@[i])@),
            ) && self.index@[slot(self.nodes@[i]@)]@.contains(i as usize)
        &&& forall|s: u64, j: int|
            self.index@.contains_key(s) && 0 <= j < self.index@[s]@.len()
                ==> #[trigger] self.index@[s]@[j] < self.nodes@.len()
        &&& self.nodes@.len() <= usize::MAX
    }

    pub fn new() -> (m: NodeMap)
        ensures
            m.well_formed(),
            m@ == Map::<Key, Id>::empty(),
    {
        let m = NodeMap { nodes: Vec::new(), ids: Vec::new(), index: HashMap::new() };
        assert(m@ =~= Map::<Key, Id>::empty());
        m
    }

    pub fn get(&self, n: &ENode) -> (r: Option<Id>)
        requires
            self.well_formed(),
        ensures
            r is Some <==> self@.contains_key(n@),
            r matches Some(id) ==> id == self@[n@],
    {
        let s = slot_of(n);
        match self.index.get(&s) {
            None => {
                proof {
                    assert(!self@.contains_key(n@)) by {
                        if self.place(n@) is Some {
                            let i = self.place(n@)->0;
                            assert(self.nodes@[i]@ == n@);
                        }
                    }
                }
                None
            },
            Some(bucket) => {
                for j in 0..bucket.len()
                    invariant
                        self.well_formed(),
                        s == slot(n@),
                        self.index@.contains_key(s),
                        bucket@ == self.index@[s]@,
                        forall|i: int|
                            0 <= i < j ==> self.nodes@[#[trigger] bucket@[i] as int]@ != n@,
                {
                    let i = bucket[j];
                    assert(self.index@[s]@[j as int] < self.nodes@.len());
                    if self.nodes[i].op == n.op && same_ids(
                        &self.nodes[i].children,
                        &n.children,
                    ) {
                        proof {
                            assert(self.nodes@[i as int]@ == n@);
                            let p = self.place(n@)->0;
                            assert(self.nodes@[p]@ == n@);
                            if p < i {
                                assert(self.nodes@[p]@ != self.nodes@[i as int]@);
                            } else if i < p {
                                assert(self.nodes@[i as int]@ != self.nodes@[p]@);
                            }
                        }
                        return Some(self.ids[i]);
                    }
                }
                proof {
                    assert(!self@.contains_key(n@)) by {
                        if self.place(n@) is Some {
                            let i = self.place(n@)->0;
                            assert(self.nodes@[i]@ == n@);
                            assert(bucket@.contains(i as usize));
                            let j = choose|j: int| 0 <= j < bucket@.len() && bucket@[j] == i as usize;
                            assert(self.nodes@[bucket@[j] as int]@ != n@);
                        }
                    }
                }
                None
            },
        }
    }

    pub fn insert(&mut self, n: ENode, id: Id)
        requires
            old(self).well_formed(),
            !old(self)@.contains_key(n@),
        ensures
            final(self).well_formed(),
            final(self)@ == old(self)@.insert(n@, id),
    {
        let s = slot_of(&n);
        let ghost before = *self;
        let at = self.nodes.len();
        let ghost k = n@;
        let mut bucket: Vec<usize> = match self.index.get(&s) {
            Some(b) => b.clone(),
            None => Vec::new(),
        };
        let ghost b0 = bucket@;
        bucket.push(at);
        let ghost b1 = bucket@;
        self.index.insert(s, bucket);
        self.nodes.push(n);
        self.ids.push(id);
        let len = self.nodes.len();
        proof {
            assert(b1 =~= b0.push(at));
            assert forall|i: int| 0 <= i < before.nodes@.len()
                implies (#[trigger] before.nodes@[i])@ != k by {
                if before.nodes@[i]@ == k {
                    assert(before.place(k) is Some);
                }
            }
            assert forall|i: int, j: int| 0 <= i < j < self.nodes@.len()
                implies (#[trigger] self.nodes@[i])@ != (
            #[trigger] self.nodes@[j])@ by {
                if j < at {
                    assert(before.nodes@[i]@ != before.nodes@[j]@);
                } else {
                    assert(before.nodes@[i]@ != k);
                }
            }
            assert forall|i: int| 0 <= i < self.nodes@.len() implies self.index@.contains_key(
                slot((#[trigger] self.nodes@[i])@),
            ) && self.index@[slot(self.nodes@[i]@)]@.contains(i as usize) by {
                if i < at {
                    assert(self.nodes@[i] == before.nodes@[i]);
                    let t = slot(before.nodes@[i]@);
                    assert(before.index@[t]@.contains(i as usize));
                    if t == s {
                        let j = choose|j: int| 0 <= j < b0.len() && b0[j] == i as usize;
                        assert(b1[j] == i as usize);
                    }
                } else {
                    assert(b1[b0.len() as int] == at);
                }
            }
            assert forall|t: u64, j: int| self.index@.contains_key(t) && 0 <= j < self.index@[t]@.len() implies
                #[trigger] self.index@[t]@[j] < self.nodes@.len() by {
                if t == s {
                    if j < b0.len() {
                        assert(before.index@.contains_key(s));
                        assert(before.index@[s]@[j] < before.nodes@.len());
                    }
                } else {
                    assert(before.index@[t]@[j] < before.nodes@.len());
                }
            }
            assert forall|q: Key| self.place(q) is Some <==> (before.place(q) is Some || q == k) by {
                if before.place(q) is Some {
                    let i = before.place(q)->0;
                    assert(self.nodes@[i]@ == q);
                }
                if q == k {
                    assert(self.nodes@[at as int]@ == q);
                }
                if self.place(q) is Some {
                    let i = self.place(q)->0;
                    assert(self.nodes@[i]@ == q);
                    if i < at {
                        assert(before.nodes@[i]@ == q);
                    }
                }
            }
            assert forall|q: Key| #[trigger] self.place(q) is Some
                implies self.ids@[self.place(q)->0] == (if q
                == k {
                id
            } else {
                before.ids@[before.place(q)->0]
            }) by {
                let i = self.place(q)->0;
                assert(self.nodes@[i]@ == q);
                if q == k {
                    if i < at {
                        assert(before.nodes@[i]@ != k);
                    }
                } else {
                    assert(before.nodes@[i]@ == q);
                    let j = before.place(q)->0;
                    assert(before.nodes@[j]@ == q);
                    if i < j {
                        assert(before.nodes@[i]@ != before.nodes@[j]@);
                    } else if j < i {
                        assert(before.nodes@[j]@ != before.nodes@[i]@);
                    }
                }
            }
            assert(self@ =~= before@.insert(k, id));
        }
    }
}

} // verus!
