//! A minimal e-graph: union-find, hashcons, e-class map, deferred rebuild.

use crate::egraph::nodes;
use crate::egraph::nodes::{ENode, Id, NodeMap, Sym};
use crate::math;
use vstd::prelude::*;

verus! {

/// The e-graph. Each id has a representative; the e-nodes are listed with the
/// representative of their class.
pub struct EGraph {
    parents: Vec<Id>,
    classes: Vec<Vec<ENode>>,
    memo: NodeMap,
    names: Vec<String>,
    reps: Ghost<Seq<Id>>,
    rank: Ghost<Seq<nat>>,
    bound: Ghost<nat>,
}

impl Default for EGraph {
    fn default() -> (g: EGraph)
        ensures
            g.well_formed(),
            g.rebuilt(),
            g.len() == 0,
            g.names() == Seq::<Seq<char>>::empty(),
    {
        EGraph::new()
    }
}

/// The children of an e-node under a labelling of the ids.
pub open spec fn relabel(k: nodes::Key, label: Seq<Id>) -> nodes::Key {
    (k.0, Seq::new(k.1.len(), |i: int| label[k.1[i] as int]))
}

/// Ids that `a` labels alike, `b` labels alike.
pub open spec fn refines(a: Seq<Id>, b: Seq<Id>) -> bool {
    forall|x: int, y: int|
        0 <= x < a.len() && 0 <= y < a.len() && #[trigger] a[x] == #[trigger] a[y] ==> b[x] == b[y]
}

impl EGraph {
    /// How many ids there are.
    pub closed spec fn len(&self) -> nat {
        self.parents@.len()
    }

    /// The representative of each id.
    pub closed spec fn reps(&self) -> Seq<Id> {
        self.reps@
    }

    pub open spec fn rep(&self, id: Id) -> Id {
        self.reps()[id as int]
    }

    /// The e-nodes listed with `c`.
    pub closed spec fn listed(&self, c: int) -> Seq<nodes::Key> {
        nodes::keys(self.classes@[c]@)
    }

    /// E-node `k` is listed with `c`.
    pub open spec fn holds(&self, c: int, k: nodes::Key) -> bool {
        0 <= c < self.len() && self.listed(c).contains(k)
    }

    /// The hashcons table.
    pub closed spec fn memo(&self) -> Map<nodes::Key, Id> {
        self.memo@
    }

    /// The names of the symbols.
    pub closed spec fn names(&self) -> Seq<Seq<char>> {
        self.names@.map_values(|s: String| s@)
    }

    /// The node's children under the current representatives.
    pub open spec fn canonical(&self, k: nodes::Key) -> nodes::Key {
        relabel(k, self.reps())
    }

    pub open spec fn in_range(&self, k: nodes::Key) -> bool {
        forall|i: int| 0 <= i < k.1.len() ==> (#[trigger] k.1[i]) < self.len()
    }

    /// The union-find part: representatives name themselves, and pointers lead
    /// to them.
    spec fn forest(&self) -> bool {
        let n = self.parents@.len();
        let r = self.reps@;
        &&& n <= u32::MAX
        &&& r.len() == n
        &&& self.rank@.len() == n
        &&& forall|x: int| 0 <= x < n ==> #[trigger] self.parents@[x] < n
        &&& forall|x: int| 0 <= x < n ==> #[trigger] r[x] < n
        &&& forall|x: int| 0 <= x < n ==> r[#[trigger] self.parents@[x] as int] == r[x]
        &&& forall|x: int| 0 <= x < n ==> (#[trigger] self.parents@[x] == x <==> r[x] == x)
        &&& forall|x: int| 0 <= x < n ==> r[(#[trigger] r[x]) as int] == r[x]
        &&& forall|x: int|
            0 <= x < n && #[trigger] self.parents@[x] != x ==> self.rank@[x]
                < self.rank@[self.parents@[x] as int]
        &&& forall|x: int| 0 <= x < n ==> #[trigger] self.rank@[x] < self.bound@
    }

    /// The e-node part: only representatives list e-nodes, and children are
    /// ids.
    spec fn stocked(&self) -> bool {
        &&& self.classes@.len() == self.parents@.len()
        &&& forall|c: int, i: int|
            0 <= c < self.classes@.len() && 0 <= i < self.classes@[c]@.len() ==> self.in_range(
                (#[trigger] self.classes@[c]@[i])@,
            ) && self.reps@[c] == c
        &&& self.memo.well_formed()
        &&& forall|k: nodes::Key| #[trigger]
            self.memo@.contains_key(k) ==> self.in_range(k) && self.memo@[k] < self.parents@.len()
    }

    spec fn named(&self) -> bool {
        &&& self.names@.len() <= u32::MAX
        &&& forall|i: int, j: int|
            0 <= i < j < self.names@.len() ==> (#[trigger] self.names@[i])@ != (
            #[trigger] self.names@[j])@
    }

    pub closed spec fn well_formed(&self) -> bool {
        &&& self.forest()
        &&& self.stocked()
        &&& self.named()
    }

    /// Representatives are ids that name themselves, and e-nodes are listed
    /// with representatives.
    pub proof fn lemma_well_formed(&self)
        requires
            self.well_formed(),
        ensures
            self.reps().len() == self.len(),
            self.len() <= u32::MAX,
            forall|x: int| 0 <= x < self.len() ==> #[trigger] self.reps()[x] < self.len(),
            forall|x: int|
                0 <= x < self.len() ==> self.reps()[(#[trigger] self.reps()[x]) as int]
                    == self.reps()[x],
            forall|c: int, k: nodes::Key| #[trigger]
                self.holds(c, k) ==> self.in_range(k) && self.reps()[c] == c,
    {
        assert forall|c: int, k: nodes::Key| #[trigger] self.holds(c, k) implies self.in_range(k)
            && self.reps()[c] == c by {
            let l = self.listed(c);
            let i = choose|i: int| 0 <= i < l.len() && l[i] == k;
            assert(self.in_range(self.classes@[c]@[i]@));
        }
    }

    /// Both invariants that a rebuild restores: every child is canonical, and
    /// no e-node is listed twice, in one class or in two. The table then knows
    /// exactly the listed e-nodes.
    pub open spec fn rebuilt(&self) -> bool {
        &&& forall|c: int, k: nodes::Key| #[trigger] self.holds(c, k) ==> self.canonical(k) == k
        &&& forall|c: int, d: int, k: nodes::Key| #[trigger]
            self.holds(c, k) && #[trigger] self.holds(d, k) ==> c == d
        &&& forall|c: int| 0 <= c < self.len() ==> (#[trigger] self.listed(c)).no_duplicates()
        &&& forall|k: nodes::Key| #[trigger]
            self.memo().contains_key(k) ==> self.holds(self.memo()[k] as int, k)
        &&& forall|c: int, k: nodes::Key| #[trigger]
            self.holds(c, k) ==> self.memo().contains_key(k) && self.memo()[k] == c
    }

    pub fn new() -> (g: EGraph)
        ensures
            g.well_formed(),
            g.rebuilt(),
            g.len() == 0,
            g.names() == Seq::<Seq<char>>::empty(),
    {
        let g = EGraph {
            parents: Vec::new(),
            classes: Vec::new(),
            memo: NodeMap::new(),
            names: Vec::new(),
            reps: Ghost(Seq::empty()),
            rank: Ghost(Seq::empty()),
            bound: Ghost(0),
        };
        assert(g.names() =~= Seq::<Seq<char>>::empty());
        g
    }

    /// Interns a function symbol: equal names give equal symbols, numbered in
    /// order of first use.
    pub fn sym(&mut self, name: &str) -> (s: Sym)
        requires
            old(self).well_formed(),
            old(self).names().len() < u32::MAX,
        ensures
            final(self).well_formed(),
            s < final(self).names().len(),
            final(self).names()[s as int] == name@,
            old(self).names().contains(name@) ==> final(self).names() == old(self).names(),
            !old(self).names().contains(name@) ==> final(self).names() == old(self).names().push(
                name@,
            ),
            final(self).same_graph(old(self)),
    {
        let ghost before = *self;
        proof {
            assert(self.names().len() == self.names@.len());
        }
        if let Some(s) = self.lookup_sym(name) {
            return s;
        }
        let s = self.names.len() as Sym;
        self.names.push(name.to_owned());
        proof {
            assert(self.names() =~= before.names().push(name@));
            assert forall|i: int, j: int| 0 <= i < j < self.names@.len()
                implies (#[trigger] self.names@[i])@ != (
            #[trigger] self.names@[j])@ by {
                if j == before.names@.len() {
                    assert(before.names()[i] == before.names@[i]@);
                    assert(before.names().contains(before.names()[i]));
                } else {
                    assert(before.names@[i]@ != before.names@[j]@);
                }
            }
            assert(self.same_graph(&before));
        }
        s
    }

    /// Equal but for the names.
    pub open spec fn same_graph(&self, other: &EGraph) -> bool {
        &&& self.len() == other.len()
        &&& self.reps() == other.reps()
        &&& self.memo() == other.memo()
        &&& forall|c: int| 0 <= c < self.len() ==> #[trigger] self.listed(c) == other.listed(c)
    }

    pub fn sym_name(&self, s: Sym) -> (name: &str)
        requires
            s < self.names().len(),
        ensures
            name@ == self.names()[s as int],
    {
        self.names[s as usize].as_str()
    }

    pub fn lookup_sym(&self, name: &str) -> (r: Option<Sym>)
        requires
            self.well_formed(),
        ensures
            r is Some <==> self.names().contains(name@),
            r matches Some(s) ==> s < self.names().len() && self.names()[s as int] == name@,
    {
        let wanted = name.to_owned();
        for i in 0..self.names.len()
            invariant
                self.well_formed(),
                wanted@ == name@,
                forall|j: int| 0 <= j < i ==> (#[trigger] self.names@[j])@ != name@,
        {
            if self.names[i] == wanted {
                proof {
                    assert(self.names()[i as int] == name@);
                    assert(self.names().contains(self.names()[i as int]));
                }
                return Some(i as Sym);
            }
        }
        proof {
            if self.names().contains(name@) {
                let j = choose|j: int| 0 <= j < self.names().len() && self.names()[j] == name@;
                assert(self.names@[j]@ == name@);
            }
        }
        None
    }

    /// The canonical id.
    pub fn find(&self, id: Id) -> (r: Id)
        requires
            self.well_formed(),
            id < self.len(),
        ensures
            r == self.rep(id),
            r < self.len(),
    {
        let mut x = id;
        while self.parents[x as usize] != x
            invariant
                self.well_formed(),
                x < self.len(),
                id < self.len(),
                self.reps@[x as int] == self.reps@[id as int],
            decreases self.bound@ - self.rank@[x as int],
        {
            assert(self.reps@[self.parents@[x as int] as int] == self.reps@[x as int]);
            assert(self.rank@[x as int] < self.rank@[self.parents@[x as int] as int]);
            assert(self.rank@[self.parents@[x as int] as int] < self.bound@);
            x = self.parents[x as usize];
        }
        x
    }

    fn canon(&self, op: Sym, children: &[Id]) -> (n: ENode)
        requires
            self.well_formed(),
            self.in_range((op, children@)),
        ensures
            n@ == self.canonical((op, children@)),
            self.in_range(n@),
    {
        let mut out: Vec<Id> = Vec::new();
        for i in 0..children.len()
            invariant
                self.well_formed(),
                self.in_range((op, children@)),
                out@.len() == i,
                forall|j: int|
                    0 <= j < i ==> #[trigger] out@[j] == self.rep(children@[j]) && out@[j]
                        < self.len(),
        {
            assert(((op, children@).1[i as int]) < self.len());
            out.push(self.find(children[i]));
        }
        let n = ENode { op, children: out };
        assert(n@.1 =~= self.canonical((op, children@)).1);
        n
    }

    /// `after` is the graph with e-node `n`, which is in class `id`: the one in
    /// the table, or a class of its own.
    pub open spec fn adds(&self, n: nodes::Key, id: Id, after: &EGraph) -> bool {
        let k = self.canonical(n);
        if self.memo().contains_key(k) {
            &&& id == self.rep(self.memo()[k])
            &&& after.same_graph(self)
        } else {
            &&& id == self.len()
            &&& after.len() == self.len() + 1
            &&& after.reps() == self.reps().push(id)
            &&& after.memo() == self.memo().insert(k, id)
            &&& after.listed(id as int) == seq![k]
            &&& forall|c: int|
                0 <= c < self.len() ==> #[trigger] after.listed(c) == self.listed(c)
        }
    }

    /// Hashcons: an e-node with the same symbol and canonical children as one
    /// in the table is that e-node; any other gets a class of its own.
    pub fn add(&mut self, op: Sym, children: &[Id]) -> (id: Id)
        requires
            old(self).well_formed(),
            old(self).len() < u32::MAX,
            old(self).in_range((op, children@)),
        ensures
            final(self).well_formed(),
            final(self).names() == old(self).names(),
            id < final(self).len(),
            old(self).adds((op, children@), id, final(self)),
            final(self).rep(id) == id,
    {
        let ghost before = *self;
        let node = self.canon(op, children);
        let ghost k = node@;
        if let Some(id) = self.memo.get(&node) {
            assert(self.memo@.contains_key(k));
            return self.find(id);
        }
        let id = self.parents.len() as Id;
        let copy = ENode { op: node.op, children: copy_ids(&node.children) };
        assert(copy@ == k);
        let mut list: Vec<ENode> = Vec::new();
        list.push(copy);
        let ghost l = list@;
        self.parents.push(id);
        self.classes.push(list);
        self.memo.insert(node, id);
        proof {
            self.reps@ = self.reps@.push(id);
            self.rank@ = self.rank@.push(0);
            self.bound@ = self.bound@ + 1;
            assert forall|q: nodes::Key| before.in_range(q) implies #[trigger] self.in_range(q) by {
                assert forall|i: int| 0 <= i < q.1.len() implies (#[trigger] q.1[i]) < self.len() by {
                    assert(q.1[i] < before.len());
                }
            }
            assert forall|c: int, i: int| 0 <= c < self.classes@.len() && 0 <= i < self.classes@[c]@.len()
                implies self.in_range(
                (#[trigger] self.classes@[c]@[i])@,
            ) && self.reps@[c] == c by {
                if c < before.classes@.len() {
                    assert(before.in_range(before.classes@[c]@[i]@));
                } else {
                    assert(before.in_range(k));
                }
            }
            assert forall|q: nodes::Key| #[trigger] self.memo@.contains_key(q) implies self.in_range(q)
                && self.memo@[q] < self.parents@.len() by {
                if q != k {
                    assert(before.memo@.contains_key(q));
                    assert(before.in_range(q));
                } else {
                    assert(before.in_range(k));
                }
            }
            assert forall|x: int| 0 <= x < self.parents@.len()
                implies self.reps@[#[trigger] self.parents@[x] as int] == self.reps@[x] by {
                if x < before.parents@.len() {
                    assert(before.reps@[before.parents@[x] as int] == before.reps@[x]);
                }
            }
            assert forall|x: int| 0 <= x < self.parents@.len()
                implies self.reps@[(#[trigger] self.reps@[x]) as int] == self.reps@[x] by {
                if x < before.parents@.len() {
                    assert(before.reps@[(before.reps@[x]) as int] == before.reps@[x]);
                }
            }
            assert forall|x: int| 0 <= x < self.parents@.len() && #[trigger] self.parents@[x] != x
                implies self.rank@[x]
                < self.rank@[self.parents@[x] as int] by {
                assert(before.parents@[x] != x);
            }
            assert forall|x: int| 0 <= x < self.parents@.len()
                implies #[trigger] self.rank@[x] < self.bound@ by {
                if x < before.parents@.len() {
                    assert(before.rank@[x] < before.bound@);
                }
            }
            assert(self.forest());
            assert(self.stocked());
            assert(self.named());
            assert(self.listed(id as int) =~= seq![k]);
        }
        id
    }

    /// Merges two e-classes; false where they were one already. Congruence is
    /// left broken until `rebuild`.
    pub fn union(&mut self, a: Id, b: Id) -> (merged: bool)
        requires
            old(self).well_formed(),
            a < old(self).len(),
            b < old(self).len(),
        ensures
            final(self).well_formed(),
            final(self).names() == old(self).names(),
            final(self).len() == old(self).len(),
            final(self).memo() == old(self).memo(),
            merged == (old(self).rep(a) != old(self).rep(b)),
            !merged ==> final(self).same_graph(old(self)),
            forall|x: int|
                0 <= x < old(self).len() ==> #[trigger] final(self).reps()[x] == (if old(self).reps()[x] == old(self).rep(b) {
                    old(self).rep(a)
                } else {
                    old(self).reps()[x]
                }),
            merged ==> forall|c: int|
                0 <= c < old(self).len() ==> #[trigger] final(self).listed(c) == (if c == old(self).rep(a) {
                    old(self).listed(c) + old(self).listed(old(self).rep(b) as int)
                } else if c == old(self).rep(b) {
                    Seq::empty()
                } else {
                    old(self).listed(c)
                }),
    {
        let ra = self.find(a);
        let rb = self.find(b);
        if ra == rb {
            return false;
        }
        let ghost before = *self;
        let ghost n = self.parents@.len();
        self.parents.set(rb as usize, ra);
        let mut moved = take_list(&mut self.classes, rb as usize);
        let ghost la = self.classes@[ra as int]@;
        self.classes[ra as usize].append(&mut moved);
        proof {
            let r = before.reps@;
            let r2 = Seq::new(
                n,
                |x: int|
                    if r[x] == rb {
                        ra
                    } else {
                        r[x]
                    },
            );
            let top = before.rank@[rb as int] + 1;
            self.reps@ = r2;
            if before.rank@[ra as int] < top {
                self.rank@ = before.rank@.update(ra as int, top as nat);
            }
            self.bound@ = before.bound@ + 1;
            assert(r[ra as int] == ra && r[rb as int] == rb) by {
                assert(r[r[a as int] as int] == r[a as int]);
                assert(r[r[b as int] as int] == r[b as int]);
            }
            assert(before.parents@[ra as int] == ra);
            assert forall|x: int| 0 <= x < n
                implies r2[#[trigger] self.parents@[x] as int] == r2[x] by {
                if x != rb {
                    assert(r[before.parents@[x] as int] == r[x]);
                }
            }
            assert forall|x: int| 0 <= x < n
                implies (#[trigger] self.parents@[x] == x <==> r2[x] == x) by {
                assert(before.parents@[x] == x <==> r[x] == x);
            }
            assert forall|x: int| 0 <= x < n implies r2[(#[trigger] r2[x]) as int] == r2[x] by {
                assert(r[(r[x]) as int] == r[x]);
            }
            assert forall|x: int| 0 <= x < n && #[trigger] self.parents@[x] != x implies self.rank@[x]
                < self.rank@[self.parents@[x] as int] by {
                if x != rb {
                    assert(before.parents@[x] != x);
                    assert(before.rank@[x] < before.rank@[before.parents@[x] as int]);
                }
            }
            assert forall|c: int, i: int| 0 <= c < self.classes@.len() && 0 <= i < self.classes@[c]@.len()
                implies self.in_range(
                (#[trigger] self.classes@[c]@[i])@,
            ) && self.reps@[c] == c by {
                if c == ra {
                    if i < la.len() {
                        assert(before.in_range(before.classes@[ra as int]@[i]@));
                    } else {
                        assert(before.in_range(before.classes@[rb as int]@[i - la.len()]@));
                    }
                } else {
                    assert(c != rb);
                    assert(before.in_range(before.classes@[c]@[i]@));
                }
            }
            assert forall|k: nodes::Key| #[trigger] self.memo@.contains_key(k) implies self.in_range(k)
                && self.memo@[k] < self.parents@.len() by {
                assert(before.memo@.contains_key(k));
                assert(before.in_range(k));
            }
            assert forall|c: int| 0 <= c < n implies #[trigger] self.listed(c) == (if c == ra {
                before.listed(c) + before.listed(rb as int)
            } else if c == rb {
                Seq::empty()
            } else {
                before.listed(c)
            }) by {
                if c == ra {
                    assert(self.listed(c) =~= before.listed(c) + before.listed(rb as int));
                } else if c == rb {
                    assert(self.listed(c) =~= Seq::<nodes::Key>::empty());
                }
            }
        }
        true
    }
}

/// Takes a list out of its place.
fn take_list(lists: &mut Vec<Vec<ENode>>, i: usize) -> (list: Vec<ENode>)
    requires
        i < old(lists)@.len(),
    ensures
        list@ == old(lists)@[i as int]@,
        final(lists)@.len() == old(lists)@.len(),
        final(lists)@[i as int]@ == Seq::<ENode>::empty(),
        forall|j: int|
            0 <= j < old(lists)@.len() && j != i ==> #[trigger] final(lists)@[j] == old(lists)@[j],
{
    lists.push(Vec::new());
    let list = lists.swap_remove(i);
    list
}

pub fn copy_ids(v: &[Id]) -> (r: Vec<Id>)
    ensures
        r@ == v@,
{
    let mut r: Vec<Id> = Vec::new();
    for i in 0..v.len()
        invariant
            r@ == v@.take(i as int),
    {
        r.push(v[i]);
        assert(r@ =~= v@.take(i + 1));
    }
    assert(v@.take(v@.len() as int) =~= v@);
    r
}

/// Equal e-nodes under the labelling are in classes that it labels alike.
pub open spec fn congruent(g: &EGraph, label: Seq<Id>) -> bool {
    forall|c: int, k: nodes::Key, d: int, q: nodes::Key| #[trigger]
        g.holds(c, k) && #[trigger] g.holds(d, q) && relabel(k, label) == relabel(q, label)
            ==> label[c] == label[d]
}

/// A labelling that respects what is known to be equal in `g`.
pub open spec fn respects(g: &EGraph, label: Seq<Id>) -> bool {
    &&& label.len() == g.len()
    &&& refines(g.reps(), label)
    &&& congruent(g, label)
}

/// `c0` lists, in `g`, an e-node that is `k` under the labelling.
pub open spec fn lists_as(g: &EGraph, label: Seq<Id>, c0: int, k: nodes::Key) -> bool {
    exists|q: nodes::Key| #[trigger] g.holds(c0, q) && relabel(q, label) == k
}

pub open spec fn is_root(reps: Seq<Id>) -> spec_fn(int) -> bool {
    |x: int| reps[x] == x
}

/// How many classes there are.
pub open spec fn class_count(g: &EGraph) -> nat {
    math::count(g.len(), is_root(g.reps()))
}

/// What one pass over the e-nodes leaves: canonical e-nodes, each once, and
/// the pairs of classes that were found to share one.
spec fn passed(g: &EGraph, h: &EGraph, merges: Seq<(Id, Id)>) -> bool {
    &&& h.well_formed()
    &&& h.len() == g.len()
    &&& h.reps() == g.reps()
    &&& h.names() == g.names()
    &&& forall|c: int| 0 <= c < h.len() ==> (#[trigger] h.listed(c)).no_duplicates()
    &&& forall|c: int| 0 <= c < h.len() ==> (#[trigger] h.listed(c)).len() <= g.listed(c).len()
    &&& g.rebuilt() ==> forall|c: int|
        0 <= c < h.len() ==> #[trigger] h.listed(c) == g.listed(c)
    &&& forall|c: int, k: nodes::Key| #[trigger]
        h.holds(c, k) <==> h.memo().contains_key(k) && h.memo()[k] == c
    &&& forall|c: int, k: nodes::Key| #[trigger] h.holds(c, k) ==> lists_as(g, g.reps(), c, k)
    &&& forall|c: int, k: nodes::Key| #[trigger]
        g.holds(c, k) ==> h.memo().contains_key(g.canonical(k)) && (h.memo()[g.canonical(k)] == c
            || merges.contains((h.memo()[g.canonical(k)], c as Id)))
    &&& forall|i: int|
        0 <= i < merges.len() ==> is_clash(g, (#[trigger] merges[i]).0, merges[i].1)
}

/// Classes `p` and `c` list e-nodes that are one under the representatives.
spec fn is_clash(g: &EGraph, p: Id, c: Id) -> bool {
    &&& p != c
    &&& p < g.len()
    &&& c < g.len()
    &&& g.reps()[p as int] == p
    &&& g.reps()[c as int] == c
    &&& exists|k: nodes::Key| #[trigger]
        lists_as(g, g.reps(), p as int, k) && lists_as(g, g.reps(), c as int, k)
}

/// How many e-nodes of class `c` a pass has seen.
spec fn seen_of(g: &EGraph, done: int, part: int, c: int) -> int {
    if c < done {
        g.listed(c).len() as int
    } else if c == done {
        part
    } else {
        0
    }
}

/// The progress of a pass: the first `done` classes, and of the next one the
/// first `part` e-nodes.
spec fn midway(
    g: &EGraph,
    fresh: Seq<Vec<ENode>>,
    memo: Map<nodes::Key, Id>,
    merges: Seq<(Id, Id)>,
    done: int,
    part: int,
) -> bool {
    &&& fresh.len() == g.len()
    &&& forall|c: int| 0 <= c < fresh.len() ==> nodes::keys((#[trigger] fresh[c])@).no_duplicates()
    &&& forall|c: int|
        0 <= c < fresh.len() ==> (#[trigger] fresh[c])@.len() <= seen_of(g, done, part, c)
    &&& g.rebuilt() ==> forall|c: int|
        0 <= c < fresh.len() ==> nodes::keys((#[trigger] fresh[c])@) == g.listed(c).take(
            seen_of(g, done, part, c),
        )
    &&& forall|c: int, k: nodes::Key|
        0 <= c < fresh.len() ==> (#[trigger] nodes::keys(fresh[c]@).contains(k)
            <==> memo.contains_key(k) && memo[k] == c)
    &&& forall|k: nodes::Key| #[trigger]
        memo.contains_key(k) ==> memo[k] < g.len() && g.reps()[memo[k] as int] == memo[k]
            && g.in_range(k) && lists_as(g, g.reps(), memo[k] as int, k)
    &&& forall|c: int, i: int|
        0 <= c < g.len() && 0 <= i < g.classes@[c]@.len() && (c < done || c == done && i < part) ==> {
            let k = g.canonical((#[trigger] g.classes@[c]@[i])@);
            memo.contains_key(k) && (memo[k] == c || merges.contains((memo[k], c as Id)))
        }
    &&& forall|i: int|
        0 <= i < merges.len() ==> is_clash(g, (#[trigger] merges[i]).0, merges[i].1)
}

proof fn lemma_midway_step(
    g: &EGraph,
    fresh: Seq<Vec<ENode>>,
    memo: Map<nodes::Key, Id>,
    merges: Seq<(Id, Id)>,
    done: int,
    part: int,
    fresh2: Seq<Vec<ENode>>,
    memo2: Map<nodes::Key, Id>,
    merges2: Seq<(Id, Id)>,
)
    requires
        g.well_formed(),
        midway(g, fresh, memo, merges, done, part),
        0 <= done < g.len(),
        0 <= part < g.classes@[done]@.len(),
        ({
            let k = g.canonical(g.classes@[done]@[part]@);
            if memo.contains_key(k) {
                &&& fresh2 == fresh
                &&& memo2 == memo
                &&& merges2 == (if memo[k] == done {
                    merges
                } else {
                    merges.push((memo[k], done as Id))
                })
            } else {
                &&& memo2 == memo.insert(k, done as Id)
                &&& merges2 == merges
                &&& fresh2.len() == fresh.len()
                &&& forall|c: int| 0 <= c < fresh.len() && c != done ==> #[trigger] fresh2[c] == fresh[c]
                &&& nodes::keys(fresh2[done]@) == nodes::keys(fresh[done]@).push(k)
            }
        }),
    ensures
        midway(g, fresh2, memo2, merges2, done, part + 1),
{
    g.lemma_well_formed();
    let q = g.classes@[done]@[part]@;
    let k = g.canonical(q);
    assert(g.in_range(q) && g.reps@[done] == done);
    assert(g.holds(done, q)) by {
        assert(g.listed(done)[part] == q);
    }
    assert(lists_as(g, g.reps(), done, k));
    if g.rebuilt() {
        let l = g.listed(done);
        assert(g.canonical(q) == q);
        if memo.contains_key(k) {
            assert(lists_as(g, g.reps(), memo[k] as int, k));
            let w = choose|w: nodes::Key| #[trigger]
                g.holds(memo[k] as int, w) && relabel(w, g.reps()) == k;
            assert(g.canonical(w) == w);
            assert(g.holds(memo[k] as int, k) && g.holds(done, k));
            assert(nodes::keys(fresh[done]@).contains(k));
            let i = choose|i: int| 0 <= i < l.take(part).len() && l.take(part)[i] == k;
            assert(l[i] == l[part]);
            assert(l.no_duplicates());
        }
        assert(l.take(part + 1) =~= l.take(part).push(k));
        assert forall|c: int| 0 <= c < fresh2.len()
            implies nodes::keys((#[trigger] fresh2[c])@) == g.listed(c).take(
            seen_of(g, done, part + 1, c),
        ) by {
            assert(nodes::keys(fresh[c]@) == g.listed(c).take(seen_of(g, done, part, c)));
        }
    }
    assert forall|c: int| 0 <= c < fresh2.len()
        implies (#[trigger] fresh2[c])@.len() <= seen_of(g, done, part + 1, c) by {
        assert(fresh[c]@.len() <= seen_of(g, done, part, c));
        assert(nodes::keys(fresh2[done]@).len() == fresh2[done]@.len());
        assert(nodes::keys(fresh[done]@).len() == fresh[done]@.len());
    }
    assert(g.in_range(k)) by {
        assert forall|i: int| 0 <= i < k.1.len() implies (#[trigger] k.1[i]) < g.len() by {
            assert(q.1[i] < g.len());
        }
    }
    if memo.contains_key(k) {
        if memo[k] != done {
            assert(is_clash(g, memo[k], done as Id));
        }
        assert forall|x: (Id, Id)| merges.contains(x) implies merges2.contains(x) by {
            let i = choose|i: int| 0 <= i < merges.len() && merges[i] == x;
            assert(merges2[i] == x);
        }
        assert forall|c: int, i: int| 0 <= c < g.len() && 0 <= i < g.classes@[c]@.len() && (c < done || c == done && i < part + 1)
            implies ({
            let k = g.canonical((#[trigger] g.classes@[c]@[i])@);
            memo2.contains_key(k) && (memo2[k] == c || merges2.contains((memo2[k], c as Id)))
        }) by {
            if c == done && i == part {
                if memo[k] != done {
                    assert(merges2[merges.len() as int] == (memo[k], done as Id));
                }
            } else {
                let k2 = g.canonical(g.classes@[c]@[i]@);
                assert(memo.contains_key(k2));
            }
        }
    } else {
        let l = nodes::keys(fresh[done]@);
        let l2 = nodes::keys(fresh2[done]@);
        assert(!l.contains(k));
        assert forall|c: int| 0 <= c < fresh2.len()
            implies nodes::keys((#[trigger] fresh2[c])@).no_duplicates() by {
            if c == done {
                assert forall|i: int, j: int| 0 <= i < l2.len() && 0 <= j < l2.len() && i != j
                    implies l2[i] != l2[j] by {
                    if i < l.len() {
                        assert(l.contains(l[i]));
                    }
                    if j < l.len() {
                        assert(l.contains(l[j]));
                    }
                    assert(nodes::keys(fresh[done]@).no_duplicates());
                }
            } else {
                assert(nodes::keys(fresh[c]@).no_duplicates());
            }
        }
        assert forall|c: int, x: nodes::Key| 0 <= c < fresh2.len()
            implies (#[trigger] nodes::keys(fresh2[c]@).contains(x)
            <==> memo2.contains_key(x) && memo2[x] == c) by {
            assert(nodes::keys(fresh[c]@).contains(x) <==> memo.contains_key(x) && memo[x] == c);
            if c == done {
                if l2.contains(x) {
                    let i = choose|i: int| 0 <= i < l2.len() && l2[i] == x;
                    if i < l.len() {
                        assert(l[i] == x);
                    }
                }
                if l.contains(x) {
                    let i = choose|i: int| 0 <= i < l.len() && l[i] == x;
                    assert(l2[i] == x);
                }
                if x == k {
                    assert(l2[l.len() as int] == x);
                }
            }
        }
        assert forall|c: int, i: int| 0 <= c < g.len() && 0 <= i < g.classes@[c]@.len() && (c < done || c == done && i < part + 1)
            implies ({
            let k = g.canonical((#[trigger] g.classes@[c]@[i])@);
            memo2.contains_key(k) && (memo2[k] == c || merges2.contains((memo2[k], c as Id)))
        }) by {
            if !(c == done && i == part) {
                let k2 = g.canonical(g.classes@[c]@[i]@);
                assert(memo.contains_key(k2));
                assert(k2 != k);
            }
        }
    }
}

/// After the last e-node of a class comes the first of the next.
proof fn lemma_midway_next(
    g: &EGraph,
    fresh: Seq<Vec<ENode>>,
    memo: Map<nodes::Key, Id>,
    merges: Seq<(Id, Id)>,
    done: int,
)
    requires
        0 <= done < g.len(),
        midway(g, fresh, memo, merges, done, g.classes@[done]@.len() as int),
    ensures
        midway(g, fresh, memo, merges, done + 1, 0),
{
    let part = g.classes@[done]@.len() as int;
    assert(g.listed(done).len() == part);
    assert forall|c: int| 0 <= c < fresh.len()
        implies #[trigger] seen_of(g, done + 1, 0, c) == seen_of(g, done, part, c) by {}
    assert forall|c: int| 0 <= c < fresh.len()
        implies (#[trigger] fresh[c])@.len() <= seen_of(g, done + 1, 0, c) by {
        assert(seen_of(g, done + 1, 0, c) == seen_of(g, done, part, c));
    }
    if g.rebuilt() {
        assert forall|c: int| 0 <= c < fresh.len()
            implies nodes::keys((#[trigger] fresh[c])@) == g.listed(c).take(
            seen_of(g, done + 1, 0, c),
        ) by {
            assert(seen_of(g, done + 1, 0, c) == seen_of(g, done, part, c));
        }
    }
}

impl EGraph {
    /// One pass: every e-node made canonical and kept once.
    #[verifier::rlimit(40)]
    fn pass(&mut self) -> (merges: Vec<(Id, Id)>)
        requires
            old(self).well_formed(),
        ensures
            passed(old(self), final(self), merges@),
    {
        let ghost g = *self;
        let n = self.parents.len();
        let mut fresh: Vec<Vec<ENode>> = math::empty_lists(n);
        let mut memo = NodeMap::new();
        let mut merges: Vec<(Id, Id)> = Vec::new();
        proof {
            assert forall|c: int| 0 <= c < fresh@.len()
                implies nodes::keys((#[trigger] fresh@[c])@) == Seq::<nodes::Key>::empty() by {
                assert(nodes::keys(fresh@[c]@) =~= Seq::<nodes::Key>::empty());
            }
            assert forall|c: int| 0 <= c < fresh@.len()
                implies nodes::keys((#[trigger] fresh@[c])@) == g.listed(c).take(
                seen_of(&g, 0, 0, c),
            ) by {
                assert(nodes::keys(fresh@[c]@) =~= g.listed(c).take(seen_of(&g, 0, 0, c)));
            }
            assert(midway(&g, fresh@, memo@, merges@, 0, 0));
        }
        for c in 0..n
            invariant
                g == *self,
                g.well_formed(),
                n == g.len(),
                memo.well_formed(),
                midway(&g, fresh@, memo@, merges@, c as int, 0),
        {
            let list = &self.classes[c];
            for i in 0..list.len()
                invariant
                    g == *self,
                    g.well_formed(),
                    n == g.len(),
                    c < n,
                    list@ == g.classes@[c as int]@,
                    memo.well_formed(),
                    midway(&g, fresh@, memo@, merges@, c as int, i as int),
            {
                let ghost f0 = fresh@;
                let ghost m0 = memo@;
                let ghost s0 = merges@;
                assert(g.in_range(g.classes@[c as int]@[i as int]@));
                let node = self.canon(list[i].op, &list[i].children);
                let ghost k = node@;
                match memo.get(&node) {
                    Some(p) => {
                        if p != c as Id {
                            merges.push((p, c as Id));
                        }
                    },
                    None => {
                        let copy = ENode { op: node.op, children: copy_ids(&node.children) };
                        assert(copy@ == k);
                        memo.insert(node, c as Id);
                        let ghost l0 = fresh@[c as int]@;
                        fresh[c].push(copy);
                        assert(nodes::keys(fresh@[c as int]@) =~= nodes::keys(l0).push(k));
                    },
                }
                proof {
                    lemma_midway_step(&g, f0, m0, s0, c as int, i as int, fresh@, memo@, merges@);
                }
            }
            proof {
                lemma_midway_next(&g, fresh@, memo@, merges@, c as int);
            }
        }
        let ghost fr = fresh@;
        let ghost mm = memo@;
        self.classes = fresh;
        self.memo = memo;
        proof {
            assert(self.forest());
            assert forall|c: int, i: int| 0 <= c < self.classes@.len() && 0 <= i < self.classes@[c]@.len()
                implies self.in_range(
                (#[trigger] self.classes@[c]@[i])@,
            ) && self.reps@[c] == c by {
                let l = nodes::keys(fr[c]@);
                assert(l[i] == self.classes@[c]@[i]@);
                assert(l.contains(l[i]));
                assert(mm.contains_key(l[i]));
                assert(g.in_range(l[i]));
            }
            assert forall|k: nodes::Key| #[trigger] self.memo@.contains_key(k) implies self.in_range(k)
                && self.memo@[k] < self.parents@.len() by {
                assert(mm.contains_key(k));
                assert(g.in_range(k));
            }
            assert(self.well_formed());
            assert forall|c: int, k: nodes::Key| #[trigger] self.holds(c, k) <==> self.memo().contains_key(k)
                && self.memo()[k] == c by {
                if 0 <= c < n {
                    assert(nodes::keys(fr[c]@).contains(k) <==> mm.contains_key(k) && mm[k] == c);
                } else if mm.contains_key(k) {
                    assert(mm[k] < g.len());
                }
            }
            assert forall|c: int, k: nodes::Key| #[trigger] self.holds(c, k)
                implies lists_as(&g, g.reps(), c, k) by {
                assert(mm.contains_key(k));
            }
            assert forall|c: int, k: nodes::Key| #[trigger] g.holds(c, k)
                implies self.memo().contains_key(g.canonical(k))
                && (self.memo()[g.canonical(k)] == c || merges@.contains((self.memo()[g.canonical(k)], c as Id))) by {
                let l = g.listed(c);
                let i = choose|i: int| 0 <= i < l.len() && l[i] == k;
                assert(g.classes@[c]@[i]@ == k);
            }
            assert forall|c: int| 0 <= c < self.len()
                implies (#[trigger] self.listed(c)).no_duplicates() by {
                assert(nodes::keys(fr[c]@).no_duplicates());
            }
            assert forall|c: int| 0 <= c < self.len()
                implies (#[trigger] self.listed(c)).len() <= g.listed(c).len() && (g.rebuilt()
                ==> self.listed(c) == g.listed(c)) by {
                assert(fr[c]@.len() <= seen_of(&g, n as int, 0, c));
                assert(g.listed(c).take(g.listed(c).len() as int) =~= g.listed(c));
            }
        }
        merges
    }
}

/// E-node `k` of class `c` stems from `g0`.
spec fn stems(g0: &EGraph, g: &EGraph, c: int, k: nodes::Key) -> bool {
    exists|c0: int, k0: nodes::Key| #[trigger]
        g0.holds(c0, k0) && g.reps()[c0] == c && g.canonical(k0) == g.canonical(k)
}

/// Every labelling that respects `g0` sees as equal whatever `reps` does.
spec fn forced(g0: &EGraph, reps: Seq<Id>) -> bool {
    forall|label: Seq<Id>| #[trigger] respects(g0, label) ==> refines(reps, label)
}

/// What a rebuild of `g0` keeps true of the graph `g` that it works on.
spec fn on_the_way(g0: &EGraph, g: &EGraph) -> bool {
    &&& g.well_formed()
    &&& g.len() == g0.len()
    &&& g.names() == g0.names()
    &&& refines(g0.reps(), g.reps())
    &&& class_count(g) <= class_count(g0)
    &&& g.node_count(g.len()) <= g0.node_count(g0.len())
    &&& forced(g0, g.reps())
    &&& forall|c: int, k: nodes::Key| #[trigger] g.holds(c, k) ==> stems(g0, g, c, k)
    &&& forall|c: int, k: nodes::Key| #[trigger]
        g0.holds(c, k) ==> lists_as(g, g.reps(), g.reps()[c] as int, g.canonical(k))
}

proof fn lemma_clash_forced(g0: &EGraph, g: &EGraph, p: Id, c: Id, label: Seq<Id>)
    requires
        g0.well_formed(),
        on_the_way(g0, g),
        is_clash(g, p, c),
        respects(g0, label),
    ensures
        label[p as int] == label[c as int],
{
    g.lemma_well_formed();
    g0.lemma_well_formed();
    let reps = g.reps();
    assert(refines(reps, label));
    let k = choose|k: nodes::Key| #[trigger]
        lists_as(g, reps, p as int, k) && lists_as(g, reps, c as int, k);
    let q1 = choose|q: nodes::Key| #[trigger] g.holds(p as int, q) && relabel(q, reps) == k;
    let q2 = choose|q: nodes::Key| #[trigger] g.holds(c as int, q) && relabel(q, reps) == k;
    let (c1, k1) = choose|c0: int, k0: nodes::Key| #[trigger]
        g0.holds(c0, k0) && reps[c0] == p && g.canonical(k0) == g.canonical(q1);
    let (c2, k2) = choose|c0: int, k0: nodes::Key| #[trigger]
        g0.holds(c0, k0) && reps[c0] == c && g.canonical(k0) == g.canonical(q2);
    assert(stems(g0, g, p as int, q1) && stems(g0, g, c as int, q2));
    assert(relabel(k1, reps) == relabel(k2, reps));
    assert(relabel(k1, label) == relabel(k2, label)) by {
        let a = relabel(k1, reps);
        let b = relabel(k2, reps);
        assert(a.1.len() == k1.1.len() && b.1.len() == k2.1.len());
        assert forall|i: int| 0 <= i < k1.1.len()
            implies label[k1.1[i] as int] == label[k2.1[i] as int] by {
            assert(a.1[i] == b.1[i]);
            assert(k1.1[i] < g0.len() && k2.1[i] < g0.len());
            assert(reps[k1.1[i] as int] == reps[k2.1[i] as int]);
        }
        assert(relabel(k1, label).1 =~= relabel(k2, label).1);
    }
    assert(label[c1] == label[c2]);
    assert(reps[c1] == reps[p as int]);
    assert(reps[c2] == reps[c as int]);
}

spec fn list_len(g: &EGraph) -> spec_fn(int) -> int {
    |c: int| g.listed(c).len() as int
}

/// The e-nodes are counted class by class.
proof fn lemma_count_is_sum(g: &EGraph, n: nat)
    ensures
        g.node_count(n) == math::sum(n, list_len(g)),
    decreases n,
{
    if n > 0 {
        lemma_count_is_sum(g, (n - 1) as nat);
    }
}

/// Classes that list no more hold no more in all.
proof fn lemma_count_le(g: &EGraph, h: &EGraph, n: nat)
    requires
        forall|c: int| 0 <= c < n ==> (#[trigger] h.listed(c)).len() <= g.listed(c).len(),
    ensures
        h.node_count(n) <= g.node_count(n),
    decreases n,
{
    if n > 0 {
        lemma_count_le(g, h, (n - 1) as nat);
        assert(h.listed(n - 1).len() <= g.listed(n - 1).len());
    }
}

/// A union moves e-nodes and loses none.
proof fn lemma_union_count(u: &EGraph, v: &EGraph, a: Id, b: Id)
    requires
        u.well_formed(),
        v.len() == u.len(),
        a < u.len(),
        b < u.len(),
        u.rep(a) == u.rep(b) ==> v.same_graph(u),
        u.rep(a) != u.rep(b) ==> forall|c: int|
            0 <= c < u.len() ==> #[trigger] v.listed(c) == (if c == u.rep(a) {
                u.listed(c) + u.listed(u.rep(b) as int)
            } else if c == u.rep(b) {
                Seq::empty()
            } else {
                u.listed(c)
            }),
    ensures
        v.node_count(v.len()) == u.node_count(u.len()),
{
    u.lemma_well_formed();
    let n = u.len();
    if u.rep(a) == u.rep(b) {
        assert forall|c: int| 0 <= c < n
            implies (#[trigger] v.listed(c)).len() <= u.listed(c).len() by {}
        assert forall|c: int| 0 <= c < n
            implies (#[trigger] u.listed(c)).len() <= v.listed(c).len() by {
            assert(v.listed(c) == u.listed(c));
        }
        lemma_count_le(u, v, n);
        lemma_count_le(v, u, n);
    } else {
        let (ra, rb) = (u.rep(a) as int, u.rep(b) as int);
        let m = u.listed(rb).len() as int;
        let at_a = |c: int|
            if c == ra {
                m
            } else {
                0
            };
        let at_b = |c: int|
            if c == rb {
                m
            } else {
                0
            };
        let f = list_len(u);
        let h = list_len(v);
        let both = |c: int| f(c) + at_a(c);
        assert forall|c: int| 0 <= c < n implies #[trigger] both(c) == h(c) + at_b(c) by {
            assert(v.listed(c).len() == h(c));
        }
        math::lemma_sum_add(n, f, at_a, both);
        math::lemma_sum_add(n, h, at_b, both);
        math::lemma_sum_single(n, at_a, ra, m);
        math::lemma_sum_single(n, at_b, rb, m);
        lemma_count_is_sum(u, n);
        lemma_count_is_sum(v, n);
    }
}

/// What one union does, relative to a labelling of the ids.
proof fn lemma_union_effect(u: &EGraph, v: &EGraph, a: Id, b: Id)
    requires
        u.well_formed(),
        v.well_formed(),
        v.len() == u.len(),
        a < u.len(),
        b < u.len(),
        forall|x: int|
            0 <= x < u.len() ==> #[trigger] v.reps()[x] == (if u.reps()[x] == u.rep(b) {
                u.rep(a)
            } else {
                u.reps()[x]
            }),
        u.rep(a) == u.rep(b) ==> v.same_graph(u),
        u.rep(a) != u.rep(b) ==> forall|c: int|
            0 <= c < u.len() ==> #[trigger] v.listed(c) == (if c == u.rep(a) {
                u.listed(c) + u.listed(u.rep(b) as int)
            } else if c == u.rep(b) {
                Seq::empty()
            } else {
                u.listed(c)
            }),
    ensures
        refines(u.reps(), v.reps()),
        v.reps()[a as int] == v.reps()[b as int],
        forall|c1: int, k: nodes::Key| #[trigger]
            u.holds(c1, k) ==> v.holds(v.reps()[c1] as int, k),
        forall|c: int, k: nodes::Key| #[trigger]
            v.holds(c, k) ==> exists|c1: int| #[trigger] u.holds(c1, k) && v.reps()[c1] == c,
        forall|label: Seq<Id>|
            label.len() == u.len() && #[trigger] refines(u.reps(), label) && label[a as int]
                == label[b as int] ==> refines(v.reps(), label),
        class_count(v) <= class_count(u),
        u.rep(a) != u.rep(b) ==> class_count(v) < class_count(u),
        v.node_count(v.len()) == u.node_count(u.len()),
{
    lemma_union_count(u, v, a, b);
    u.lemma_well_formed();
    v.lemma_well_formed();
    let n = u.len();
    let r = u.reps();
    let r2 = v.reps();
    let ra = u.rep(a);
    let rb = u.rep(b);
    assert(r[ra as int] == ra && r[rb as int] == rb);
    if ra == rb {
        assert(r2 =~= r);
    }
    assert forall|c1: int, k: nodes::Key| #[trigger] u.holds(c1, k)
        implies v.holds(r2[c1] as int, k) by {
        let l = u.listed(c1);
        let i = choose|i: int| 0 <= i < l.len() && l[i] == k;
        assert(r[c1] == c1);
        if ra != rb {
            let l2 = v.listed(r2[c1] as int);
            if c1 == rb {
                assert(l2 == u.listed(ra as int) + u.listed(rb as int));
                assert(l2[u.listed(ra as int).len() + i] == k);
            } else {
                assert(l2[i] == k);
            }
        } else {
            assert(v.listed(c1) == u.listed(c1));
        }
    }
    assert forall|c: int, k: nodes::Key| #[trigger] v.holds(c, k)
        implies exists|c1: int| #[trigger] u.holds(c1, k)
        && r2[c1] == c by {
        let l2 = v.listed(c);
        let i = choose|i: int| 0 <= i < l2.len() && l2[i] == k;
        if ra != rb {
            if c == ra {
                let m = u.listed(ra as int).len();
                if i < m {
                    assert(u.listed(ra as int)[i] == k);
                    assert(u.holds(ra as int, k));
                } else {
                    assert(u.listed(rb as int)[i - m] == k);
                    assert(u.holds(rb as int, k));
                }
            } else {
                assert(c != rb);
                assert(u.listed(c)[i] == k);
                assert(u.holds(c, k));
            }
        } else {
            assert(v.listed(c) == u.listed(c));
            assert(u.holds(c, k));
        }
    }
    assert forall|label: Seq<Id>| label.len() == n && #[trigger] refines(r, label) && label[a as int] == label[b as int]
        implies refines(r2, label) by {
        assert forall|x: int, y: int| 0 <= x < r2.len() && 0 <= y < r2.len() && #[trigger] r2[x] == #[trigger] r2[y]
            implies label[x] == label[y] by {
            assert(r[a as int] == ra && r[b as int] == rb);
            if r[x] != r[y] {
                if r[x] == rb {
                    assert(r[y] == ra);
                    assert(label[x] == label[b as int]);
                    assert(label[y] == label[a as int]);
                } else {
                    assert(r[y] == rb && r[x] == ra);
                    assert(label[y] == label[b as int]);
                    assert(label[x] == label[a as int]);
                }
            }
        }
    }
    let p = is_root(r);
    let q = is_root(r2);
    if ra != rb {
        let o = |x: int| x == rb;
        assert forall|x: int| 0 <= x < n
            implies #[trigger] p(x) == (q(x) || o(x)) && !(q(x) && o(x)) by {}
        math::lemma_count_split(n, p, q, o);
        math::lemma_count_single(n, o, rb as int, true);
    }
}

/// What the unions after a pass keep true: `h` is the graph after the pass,
/// `u` the graph after the first `done` unions.
spec fn joining(g0: &EGraph, h: &EGraph, u: &EGraph, merges: Seq<(Id, Id)>, done: int) -> bool {
    &&& u.well_formed()
    &&& u.len() == h.len()
    &&& u.names() == h.names()
    &&& refines(h.reps(), u.reps())
    &&& forced(g0, u.reps())
    &&& forall|c: int, k: nodes::Key| #[trigger]
        h.holds(c, k) ==> u.holds(u.reps()[c] as int, k)
    &&& forall|c: int, k: nodes::Key| #[trigger]
        u.holds(c, k) ==> exists|c1: int| #[trigger] h.holds(c1, k) && u.reps()[c1] == c
    &&& forall|i: int|
        0 <= i < done ==> u.reps()[(#[trigger] merges[i]).0 as int]
            == u.reps()[merges[i].1 as int]
    &&& u.node_count(u.len()) == h.node_count(h.len())
    &&& class_count(u) <= class_count(h)
    &&& done > 0 ==> class_count(u) < class_count(h)
}

#[verifier::rlimit(40)]
proof fn lemma_joining_step(
    g0: &EGraph,
    g: &EGraph,
    h: &EGraph,
    u: &EGraph,
    v: &EGraph,
    merges: Seq<(Id, Id)>,
    done: int,
)
    requires
        g0.well_formed(),
        on_the_way(g0, g),
        passed(g, h, merges),
        joining(g0, h, u, merges, done),
        0 <= done < merges.len(),
        v.well_formed(),
        v.len() == u.len(),
        v.names() == u.names(),
        refines(u.reps(), v.reps()),
        v.reps()[merges[done].0 as int] == v.reps()[merges[done].1 as int],
        forall|c1: int, k: nodes::Key| #[trigger]
            u.holds(c1, k) ==> v.holds(v.reps()[c1] as int, k),
        forall|c: int, k: nodes::Key| #[trigger]
            v.holds(c, k) ==> exists|c1: int| #[trigger] u.holds(c1, k) && v.reps()[c1] == c,
        forall|label: Seq<Id>|
            label.len() == u.len() && #[trigger] refines(u.reps(), label)
                && label[merges[done].0 as int] == label[merges[done].1 as int] ==> refines(
                v.reps(),
                label,
            ),
        v.node_count(v.len()) == u.node_count(u.len()),
        class_count(v) <= class_count(u),
        u.rep(merges[done].0) != u.rep(merges[done].1) ==> class_count(v) < class_count(u),
        done == 0 ==> u == h,
    ensures
        joining(g0, h, v, merges, done + 1),
{
    g.lemma_well_formed();
    h.lemma_well_formed();
    u.lemma_well_formed();
    v.lemma_well_formed();
    let (p, c) = merges[done];
    assert(is_clash(g, merges[done].0, merges[done].1));
    assert forall|label: Seq<Id>| #[trigger] respects(g0, label) implies refines(v.reps(), label) by {
        lemma_clash_forced(g0, g, p, c, label);
        assert(refines(u.reps(), label));
    }
    assert forall|x: int, y: int| 0 <= x < h.reps().len() && 0 <= y < h.reps().len() && #[trigger] h.reps()[x]
        == #[trigger] h.reps()[y] implies v.reps()[x] == v.reps()[y] by {
        assert(u.reps()[x] == u.reps()[y]);
    }
    assert forall|a: int, k: nodes::Key| #[trigger] h.holds(a, k)
        implies v.holds(v.reps()[a] as int, k) by {
        assert(u.holds(u.reps()[a] as int, k));
        let ua = u.reps()[a] as int;
        assert(u.reps()[ua] == u.reps()[a]);
        assert(v.reps()[ua] == v.reps()[a]);
    }
    assert forall|a: int, k: nodes::Key| #[trigger] v.holds(a, k)
        implies exists|c1: int| #[trigger] h.holds(c1, k)
        && v.reps()[c1] == a by {
        let c1 = choose|c1: int| #[trigger] u.holds(c1, k) && v.reps()[c1] == a;
        let c2 = choose|c2: int| #[trigger] h.holds(c2, k) && u.reps()[c2] == c1;
        assert(u.reps()[c1] == c1);
        assert(u.reps()[c2] == u.reps()[c1]);
        assert(v.reps()[c2] == v.reps()[c1]);
    }
    assert forall|i: int| 0 <= i < done + 1 implies v.reps()[(#[trigger] merges[i]).0 as int]
        == v.reps()[merges[i].1 as int] by {
        assert(is_clash(g, merges[i].0, merges[i].1));
        if i < done {
            assert(u.reps()[merges[i].0 as int] == u.reps()[merges[i].1 as int]);
        }
    }
}

/// After the unions the graph is on the way again.
#[verifier::rlimit(40)]
proof fn lemma_round(
    g0: &EGraph,
    g: &EGraph,
    h: &EGraph,
    u: &EGraph,
    merges: Seq<(Id, Id)>,
)
    requires
        g0.well_formed(),
        on_the_way(g0, g),
        passed(g, h, merges),
        joining(g0, h, u, merges, merges.len() as int),
    ensures
        on_the_way(g0, u),
{
    g0.lemma_well_formed();
    g.lemma_well_formed();
    h.lemma_well_formed();
    u.lemma_well_formed();
    let r = g.reps();
    let r2 = u.reps();
    assert(h.reps() == r);
    assert(class_count(h) == class_count(g));
    lemma_count_le(g, h, g.len());
    assert forall|x: int| 0 <= x < r.len() implies r2[(#[trigger] r[x]) as int] == r2[x] by {
        assert(r[r[x] as int] == r[x]);
    }
    assert forall|x: int, y: int| 0 <= x < g0.reps().len() && 0 <= y < g0.reps().len() && #[trigger] g0.reps()[x]
        == #[trigger] g0.reps()[y] implies r2[x] == r2[y] by {
        assert(r[x] == r[y]);
    }
    assert forall|c: int, k: nodes::Key| #[trigger] u.holds(c, k) implies stems(g0, u, c, k) by {
        let c1 = choose|c1: int| #[trigger] h.holds(c1, k) && r2[c1] == c;
        assert(lists_as(g, r, c1, k));
        let q = choose|q: nodes::Key| #[trigger] g.holds(c1, q) && relabel(q, r) == k;
        assert(stems(g0, g, c1, q));
        let (c0, k0) = choose|c0: int, k0: nodes::Key| #[trigger]
            g0.holds(c0, k0) && r[c0] == c1 && g.canonical(k0) == g.canonical(q);
        assert(r2[r[c0] as int] == r2[c0]);
        lemma_relabel_twice(k0, r, r2, g0.len());
        assert(relabel(k0, r) == k);
        assert(u.canonical(k0) == u.canonical(k));
    }
    assert forall|c: int, k: nodes::Key| #[trigger] g0.holds(c, k)
        implies lists_as(u, r2, r2[c] as int, u.canonical(k)) by {
        let z = g.canonical(k);
        assert(lists_as(g, r, r[c] as int, z));
        let q = choose|q: nodes::Key| #[trigger] g.holds(r[c] as int, q) && relabel(q, r) == z;
        assert(h.memo().contains_key(z));
        let p = h.memo()[z];
        assert(h.holds(p as int, z));
        assert(u.holds(r2[p as int] as int, z));
        if p != r[c] {
            let m = (p, r[c]);
            assert(merges.contains(m));
            let i = choose|i: int| 0 <= i < merges.len() && merges[i] == m;
            assert(r2[merges[i].0 as int] == r2[merges[i].1 as int]);
        }
        assert(r2[r[c] as int] == r2[c]);
        lemma_relabel_twice(k, r, r2, g0.len());
        assert(relabel(z, r2) == u.canonical(k));
    }
}

/// Relabelling by `r` first changes nothing where `s` already sees `r`'s label
/// as equal.
proof fn lemma_relabel_twice(k: nodes::Key, r: Seq<Id>, s: Seq<Id>, n: nat)
    requires
        forall|i: int| 0 <= i < k.1.len() ==> (#[trigger] k.1[i]) < n,
        r.len() == n,
        forall|x: int| 0 <= x < r.len() ==> s[(#[trigger] r[x]) as int] == s[x],
    ensures
        relabel(relabel(k, r), s) == relabel(k, s),
{
    let a = relabel(relabel(k, r), s);
    let b = relabel(k, s);
    assert forall|i: int| 0 <= i < k.1.len() implies a.1[i] == b.1[i] by {
        assert(s[r[k.1[i] as int] as int] == s[k.1[i] as int]);
    }
    assert(a.1 =~= b.1);
}

proof fn lemma_settled(g0: &EGraph, g: &EGraph, h: &EGraph)
    requires
        g0.well_formed(),
        on_the_way(g0, g),
        passed(g, h, Seq::empty()),
    ensures
        h.rebuilt(),
        congruent(g0, h.reps()),
        forall|c: int, k: nodes::Key| #[trigger]
            h.holds(c, k) ==> exists|c0: int, k0: nodes::Key| #[trigger]
                g0.holds(c0, k0) && h.reps()[c0] == c && h.canonical(k0) == k,
        forall|c: int, k: nodes::Key| #[trigger]
            g0.holds(c, k) ==> h.holds(h.reps()[c] as int, h.canonical(k)),
{
    g0.lemma_well_formed();
    g.lemma_well_formed();
    h.lemma_well_formed();
    let r = g.reps();
    assert forall|x: int| 0 <= x < r.len() implies r[(#[trigger] r[x]) as int] == r[x] by {}
    assert forall|c: int, k: nodes::Key| #[trigger] h.holds(c, k)
        implies h.canonical(k) == k && exists|c0: int, k0: nodes::Key|
        #[trigger] g0.holds(c0, k0) && r[c0] == c && h.canonical(k0) == k by {
        let q = choose|q: nodes::Key| #[trigger] g.holds(c, q) && relabel(q, r) == k;
        lemma_relabel_twice(q, r, r, g.len());
        assert(stems(g0, g, c, q));
        let (c0, k0) = choose|c0: int, k0: nodes::Key| #[trigger]
            g0.holds(c0, k0) && r[c0] == c && g.canonical(k0) == g.canonical(q);
        assert(g0.holds(c0, k0) && r[c0] == c && h.canonical(k0) == k);
    }
    assert forall|c: int, k: nodes::Key| #[trigger] g0.holds(c, k)
        implies h.memo().contains_key(h.canonical(k))
        && h.memo()[h.canonical(k)] == r[c] && h.holds(r[c] as int, h.canonical(k)) by {
        let z = g.canonical(k);
        assert(lists_as(g, r, r[c] as int, z));
        let q = choose|q: nodes::Key| #[trigger] g.holds(r[c] as int, q) && relabel(q, r) == z;
        assert(!Seq::<(Id, Id)>::empty().contains((h.memo()[z], r[c])));
        assert(h.memo()[g.canonical(q)] == r[c]);
        assert(h.holds(r[c] as int, z));
    }
    assert forall|c: int, k: nodes::Key, d: int, q: nodes::Key| #[trigger] g0.holds(c, k) && #[trigger] g0.holds(d, q)
        && relabel(k, r) == relabel(q, r) implies r[c] == r[d] by {
        assert(h.memo()[h.canonical(k)] == r[c]);
        assert(h.memo()[h.canonical(q)] == r[d]);
    }
}

/// Where both invariants hold, equal e-nodes have one class.
proof fn lemma_rebuilt_congruent(g: &EGraph)
    requires
        g.well_formed(),
        g.rebuilt(),
    ensures
        congruent(g, g.reps()),
{
    g.lemma_well_formed();
    assert forall|c: int, k: nodes::Key, d: int, q: nodes::Key| #[trigger] g.holds(c, k) && #[trigger] g.holds(d, q)
        && relabel(k, g.reps()) == relabel(q, g.reps()) implies g.reps()[c] == g.reps()[d] by {
        assert(g.canonical(k) == k && g.canonical(q) == q);
        assert(g.holds(d, k));
    }
}

/// Rebuilt graphs with the same lists have the same table.
proof fn lemma_same_table(g: &EGraph, h: &EGraph)
    requires
        g.rebuilt(),
        h.rebuilt(),
        h.len() == g.len(),
        forall|c: int| 0 <= c < h.len() ==> #[trigger] h.listed(c) == g.listed(c),
    ensures
        h.memo() == g.memo(),
{
    assert forall|c: int, k: nodes::Key| #[trigger] h.holds(c, k) <==> g.holds(c, k) by {
        if 0 <= c < h.len() {
            assert(h.listed(c) == g.listed(c));
        }
    }
    assert forall|k: nodes::Key| #[trigger] h.memo().contains_key(k) == g.memo().contains_key(k)
        && (g.memo().contains_key(k) ==> h.memo()[k] == g.memo()[k]) by {
        if h.memo().contains_key(k) {
            assert(h.holds(h.memo()[k] as int, k));
            assert(g.holds(h.memo()[k] as int, k));
        }
        if g.memo().contains_key(k) {
            assert(g.holds(g.memo()[k] as int, k));
            assert(h.holds(g.memo()[k] as int, k));
        }
    }
    assert(h.memo() =~= g.memo());
}

impl EGraph {
    /// Restores both invariants. The classes are merged as far as congruence
    /// forces it and no further: `reps` then is the finest labelling that
    /// respects what was equal before and gives equal e-nodes one class.
    pub fn rebuild(&mut self)
        requires
            old(self).well_formed(),
        ensures
            final(self).well_formed(),
            final(self).rebuilt(),
            final(self).len() == old(self).len(),
            final(self).names() == old(self).names(),
            respects(old(self), final(self).reps()),
            forall|label: Seq<Id>| #[trigger]
                respects(old(self), label) ==> refines(final(self).reps(), label),
            forall|c: int, k: nodes::Key| #[trigger]
                final(self).holds(c, k) ==> exists|c0: int, k0: nodes::Key| #[trigger]
                    old(self).holds(c0, k0) && final(self).reps()[c0] == c && final(self).canonical(k0) == k,
            forall|c: int, k: nodes::Key| #[trigger]
                old(self).holds(c, k) ==> final(self).holds(
                    final(self).reps()[c] as int,
                    final(self).canonical(k),
                ),
            congruent(old(self), old(self).reps()) ==> final(self).reps() == old(self).reps(),
            class_count(final(self)) <= class_count(old(self)),
            final(self).node_count(final(self).len()) <= old(self).node_count(old(self).len()),
            old(self).rebuilt() ==> final(self).same_graph(old(self)),
    {
        let ghost g0 = *self;
        let ghost closed = congruent(&g0, g0.reps());
        proof {
            g0.lemma_well_formed();
            assert forall|c: int, k: nodes::Key| #[trigger] g0.holds(c, k) implies stems(&g0, &g0, c, k)
                && lists_as(&g0, g0.reps(), g0.reps()[c] as int, g0.canonical(k)) by {}
            assert(on_the_way(&g0, &g0));
        }
        loop
            invariant
                g0 == *old(self),
                g0.well_formed(),
                on_the_way(&g0, self),
                closed == congruent(&g0, g0.reps()),
                closed ==> *self == g0,
            decreases class_count(self),
        {
            let ghost g = *self;
            let merges = self.pass();
            let ghost h = *self;
            proof {
                g.lemma_well_formed();
                h.lemma_well_formed();
            }
            if merges.len() == 0 {
                proof {
                    assert(merges@ =~= Seq::<(Id, Id)>::empty());
                    lemma_settled(&g0, &g, &h);
                    assert(respects(&g0, h.reps()));
                    assert(class_count(&h) == class_count(&g));
                    lemma_count_le(&g, &h, g.len());
                    if g0.rebuilt() {
                        lemma_rebuilt_congruent(&g0);
                        lemma_same_table(&g0, &h);
                    }
                }
                return;
            }
            proof {
                if closed {
                    let (p, c) = merges@[0];
                    assert(is_clash(&g, merges@[0].0, merges@[0].1));
                    let k = choose|k: nodes::Key| #[trigger]
                        lists_as(&g, g.reps(), p as int, k) && lists_as(&g, g.reps(), c as int, k);
                    let a = choose|a: nodes::Key| #[trigger]
                        g.holds(p as int, a) && relabel(a, g.reps()) == k;
                    let b = choose|b: nodes::Key| #[trigger]
                        g.holds(c as int, b) && relabel(b, g.reps()) == k;
                    assert(g.holds(p as int, a) && g.holds(c as int, b));
                    assert(false);
                }
            }
            assert(joining(&g0, &h, self, merges@, 0)) by {
                assert forall|c: int, k: nodes::Key| #[trigger] h.holds(c, k)
                    implies h.holds(h.reps()[c] as int, k) by {}
            }
            for i in 0..merges.len()
                invariant
                    g0.well_formed(),
                    on_the_way(&g0, &g),
                    passed(&g, &h, merges@),
                    joining(&g0, &h, self, merges@, i as int),
                    i == 0 ==> *self == h,
                    h.len() == g.len(),
            {
                let (a, b) = merges[i];
                let ghost u = *self;
                proof {
                    assert(is_clash(&g, merges@[i as int].0, merges@[i as int].1));
                }
                self.union(a, b);
                proof {
                    lemma_union_effect(&u, self, a, b);
                    lemma_joining_step(&g0, &g, &h, &u, self, merges@, i as int);
                }
            }
            proof {
                lemma_round(&g0, &g, &h, self, merges@);
                assert(class_count(&h) == class_count(&g));
            }
        }
    }

    /// The canonical ids, ascending.
    pub fn class_ids(&self) -> (ids: Vec<Id>)
        requires
            self.well_formed(),
        ensures
            forall|i: int, j: int|
                0 <= i < j < ids@.len() ==> #[trigger] ids@[i] < #[trigger] ids@[j],
            forall|c: Id| #[trigger] ids@.contains(c) <==> c < self.len() && self.rep(c) == c,
    {
        let mut ids: Vec<Id> = Vec::new();
        for c in 0..self.parents.len()
            invariant
                self.well_formed(),
                forall|i: int, j: int|
                    0 <= i < j < ids@.len() ==> #[trigger] ids@[i] < #[trigger] ids@[j],
                forall|i: int| 0 <= i < ids@.len() ==> #[trigger] ids@[i] < c,
                forall|x: Id| #[trigger] ids@.contains(x) <==> x < c && self.rep(x) == x,
        {
            let ghost l0 = ids@;
            assert(self.parents@[c as int] == c <==> self.reps@[c as int] == c);
            if self.parents[c] == c as Id {
                ids.push(c as Id);
            }
            proof {
                assert forall|x: Id| #[trigger] ids@.contains(x) <==> x < c + 1 && self.rep(x) == x by {
                    assert(l0.contains(x) <==> x < c && self.rep(x) == x);
                    if ids@.contains(x) {
                        let i = choose|i: int| 0 <= i < ids@.len() && ids@[i] == x;
                        if i < l0.len() {
                            assert(l0[i] == x);
                        }
                    }
                    if l0.contains(x) {
                        let i = choose|i: int| 0 <= i < l0.len() && l0[i] == x;
                        assert(ids@[i] == x);
                    }
                    if x == c && self.rep(x) == x {
                        assert(ids@[l0.len() as int] == x);
                    }
                }
            }
        }
        ids
    }

    /// The e-nodes of a class.
    pub fn nodes(&self, class: Id) -> (r: &[ENode])
        requires
            self.well_formed(),
            class < self.len(),
        ensures
            nodes::keys(r@) == self.listed(self.rep(class) as int),
    {
        let c = self.find(class);
        self.classes[c as usize].as_slice()
    }

    /// How many ids were ever made.
    pub fn id_count(&self) -> (n: usize)
        ensures
            n == self.len(),
    {
        self.parents.len()
    }

    /// The e-nodes that are listed with an id itself.
    pub fn own_nodes(&self, c: Id) -> (r: &[ENode])
        requires
            self.well_formed(),
            c < self.len(),
        ensures
            nodes::keys(r@) == self.listed(c as int),
    {
        self.classes[c as usize].as_slice()
    }

    /// How many e-nodes the first `n` ids list.
    pub open spec fn node_count(&self, n: nat) -> nat
        decreases n,
    {
        if n == 0 {
            0
        } else {
            self.node_count((n - 1) as nat) + self.listed(n - 1).len()
        }
    }

    pub fn total_nodes(&self) -> (n: usize)
        requires
            self.well_formed(),
            self.node_count(self.len()) <= usize::MAX,
        ensures
            n == self.node_count(self.len()),
    {
        let mut n: usize = 0;
        for c in 0..self.classes.len()
            invariant
                self.well_formed(),
                self.node_count(self.len()) <= usize::MAX,
                n == self.node_count(c as nat),
        {
            proof {
                self.lemma_node_count((c + 1) as nat, self.len());
            }
            n += self.classes[c].len();
        }
        n
    }

    proof fn lemma_node_count(&self, k: nat, n: nat)
        requires
            k <= n,
        ensures
            self.node_count(k) <= self.node_count(n),
        decreases n,
    {
        if k < n {
            self.lemma_node_count(k, (n - 1) as nat);
        }
    }

    pub fn n_classes(&self) -> (n: usize)
        requires
            self.well_formed(),
        ensures
            n == class_count(self),
    {
        let mut n: usize = 0;
        for c in 0..self.parents.len()
            invariant
                self.well_formed(),
                n <= c,
                n == math::count(c as nat, is_root(self.reps@)),
        {
            assert(self.parents@[c as int] == c <==> self.reps@[c as int] == c);
            if self.parents[c] == c as Id {
                n += 1;
            }
        }
        n
    }

    /// Class `c` lists an e-node with symbol `op`.
    pub open spec fn has_op(&self, c: int, op: Sym) -> bool {
        exists|i: int| 0 <= i < self.listed(c).len() && (#[trigger] self.listed(c)[i]).0 == op
    }

    /// The classes that hold at least one `op` e-node, ascending.
    pub fn classes_with_op(&self, op: Sym) -> (ids: Vec<Id>)
        requires
            self.well_formed(),
        ensures
            forall|i: int, j: int|
                0 <= i < j < ids@.len() ==> #[trigger] ids@[i] < #[trigger] ids@[j],
            forall|c: Id| #[trigger]
                ids@.contains(c) <==> c < self.len() && self.has_op(c as int, op),
    {
        let mut ids: Vec<Id> = Vec::new();
        for c in 0..self.classes.len()
            invariant
                self.well_formed(),
                forall|i: int, j: int|
                    0 <= i < j < ids@.len() ==> #[trigger] ids@[i] < #[trigger] ids@[j],
                forall|i: int| 0 <= i < ids@.len() ==> #[trigger] ids@[i] < c,
                forall|x: Id| #[trigger]
                    ids@.contains(x) <==> x < c && self.has_op(x as int, op),
        {
            let list = &self.classes[c];
            let mut found = false;
            for i in 0..list.len()
                invariant
                    self.well_formed(),
                    c < self.len(),
                    list@ == self.classes@[c as int]@,
                    found ==> self.has_op(c as int, op),
                    !found ==> forall|j: int|
                        0 <= j < i ==> (#[trigger] self.listed(c as int)[j]).0 != op,
            {
                assert(self.listed(c as int)[i as int] == list@[i as int]@);
                if list[i].op == op {
                    found = true;
                }
            }
            let ghost l0 = ids@;
            if found {
                ids.push(c as Id);
            }
            proof {
                assert forall|x: Id| #[trigger] ids@.contains(x) <==> x < c + 1 && self.has_op(x as int, op) by {
                    assert(l0.contains(x) <==> x < c && self.has_op(x as int, op));
                    if ids@.contains(x) {
                        let i = choose|i: int| 0 <= i < ids@.len() && ids@[i] == x;
                        if i < l0.len() {
                            assert(l0[i] == x);
                        }
                    }
                    if l0.contains(x) {
                        let i = choose|i: int| 0 <= i < l0.len() && l0[i] == x;
                        assert(ids@[i] == x);
                    }
                    if x == c && found {
                        assert(ids@[l0.len() as int] == x);
                    }
                }
            }
        }
        ids
    }
}

/// Adding an e-node changes neither count, where it is in the table, or raises
/// both by one; every id keeps its class.
pub proof fn lemma_add_counts(g: &EGraph, n: nodes::Key, id: Id, h: &EGraph)
    requires
        g.well_formed(),
        g.adds(n, id, h),
    ensures
        ({
            let one: nat = if g.memo().contains_key(g.canonical(n)) {
                0
            } else {
                1
            };
            &&& class_count(h) == class_count(g) + one
            &&& h.node_count(h.len()) == g.node_count(g.len()) + one
        }),
        forall|x: Id| x < g.len() ==> #[trigger] h.rep(x) == g.rep(x),
{
    g.lemma_well_formed();
    assert forall|c: int| 0 <= c < g.len() implies (#[trigger] h.listed(c)).len() <= g.listed(
        c,
    ).len() by {}
    assert forall|c: int| 0 <= c < g.len() implies (#[trigger] g.listed(c)).len() <= h.listed(
        c,
    ).len() by {
        assert(h.listed(c) == g.listed(c));
    }
    lemma_count_le(g, h, g.len());
    lemma_count_le(h, g, g.len());
    if !g.memo().contains_key(g.canonical(n)) {
        let p = is_root(g.reps());
        let q = is_root(h.reps());
        assert forall|x: int| 0 <= x < g.len() implies #[trigger] p(x) == q(x) by {}
        math::lemma_count_same(g.len(), p, q);
        assert(q(g.len() as int));
    }
}

/// Equal children make equal e-nodes: added after one another, the second is
/// the first, and changes nothing.
pub proof fn lemma_equal_children(
    g: &EGraph,
    op: Sym,
    cs: Seq<Id>,
    ds: Seq<Id>,
    id: Id,
    h: &EGraph,
    again: Id,
    after: &EGraph,
)
    requires
        g.well_formed(),
        h.well_formed(),
        cs.len() == ds.len(),
        g.in_range((op, cs)),
        g.in_range((op, ds)),
        forall|i: int| 0 <= i < cs.len() ==> g.rep(#[trigger] cs[i]) == g.rep(ds[i]),
        g.adds((op, cs), id, h),
        h.adds((op, ds), again, after),
    ensures
        again == id,
        after.same_graph(h),
        class_count(after) == class_count(h),
        after.node_count(after.len()) == h.node_count(h.len()),
{
    g.lemma_well_formed();
    let k = g.canonical((op, cs));
    let q = h.canonical((op, ds));
    assert(q.1 =~= k.1) by {
        assert forall|i: int| 0 <= i < ds.len() implies #[trigger] q.1[i] == k.1[i] by {
            assert((op, ds).1[i] < g.len() && (op, cs).1[i] < g.len());
            assert(g.rep(cs[i]) == g.rep(ds[i]));
        }
    }
    assert(h.memo().contains_key(q));
    lemma_add_counts(h, (op, ds), again, after);
}

/// A rebuild of a graph that is rebuilt gives the same graph, so it stays
/// rebuilt and counts the same.
pub proof fn lemma_rebuild_again(g: &EGraph, h: &EGraph)
    requires
        g.rebuilt(),
        h.same_graph(g),
    ensures
        class_count(h) == class_count(g),
        h.node_count(h.len()) == g.node_count(g.len()),
        h.rebuilt(),
{
    assert forall|c: int| 0 <= c < g.len() implies (#[trigger] h.listed(c)).len() <= g.listed(
        c,
    ).len() by {}
    assert forall|c: int| 0 <= c < g.len() implies (#[trigger] g.listed(c)).len() <= h.listed(
        c,
    ).len() by {
        assert(h.listed(c) == g.listed(c));
    }
    lemma_count_le(g, h, g.len());
    lemma_count_le(h, g, g.len());
    assert forall|c: int, k: nodes::Key| #[trigger] h.holds(c, k) <==> g.holds(c, k) by {
        if 0 <= c < h.len() {
            assert(h.listed(c) == g.listed(c));
        }
    }
    assert forall|c: int| 0 <= c < h.len() implies (#[trigger] h.listed(c)).no_duplicates() by {
        assert(h.listed(c) == g.listed(c));
        assert(g.listed(c).no_duplicates());
    }
    assert forall|c: int, k: nodes::Key| #[trigger] h.holds(c, k) implies h.canonical(k) == k by {
        assert(g.canonical(k) == k);
    }
    assert forall|k: nodes::Key| #[trigger] h.memo().contains_key(k)
        implies h.holds(h.memo()[k] as int, k) by {
        assert(g.memo().contains_key(k));
    }
}

} // verus!
