//! The e-graph read as a relational database, and indexes over it.
//!
//! Every e-node with symbol `f` is one tuple of a relation `R_f`: the id of
//! its class, then its children, all canonical.

use crate::egraph::egraph::EGraph;
use crate::egraph::nodes;
use crate::egraph::nodes::{Id, Sym};
use crate::egraph::pattern;
use crate::egraph::pattern::{Atom, Query, VarId};
use crate::sorting;
use vstd::prelude::*;

verus! {

#[derive(Clone, Debug)]
pub struct Relation {
    pub arity: usize,
    pub tuples: Vec<Vec<Id>>,
}

impl Default for Relation {
    fn default() -> (r: Relation)
        ensures
            r.arity == 0,
            r.tuples@.len() == 0,
    {
        Relation { arity: 0, tuples: Vec::new() }
    }
}

/// Entry `s` is the relation of symbol `s`; a symbol past the end has no
/// tuples.
pub type Database = Vec<Relation>;

/// The tuples of a relation, as values.
pub open spec fn tuple_values(r: Relation) -> Seq<Seq<Id>> {
    r.tuples@.map_values(|t: Vec<Id>| t@)
}

/// The tuples of symbol `s`.
pub open spec fn tuples_of(db: Seq<Relation>, s: Sym) -> Seq<Seq<Id>> {
    if s < db.len() {
        tuple_values(db[s as int])
    } else {
        Seq::empty()
    }
}

/// The tuple of an e-node of class `c`.
pub open spec fn tuple_for(g: &EGraph, c: int, k: nodes::Key) -> Seq<Id> {
    seq![c as Id] + g.canonical(k).1
}

/// The tuples of symbol `s` among the first `m` e-nodes of class `c`.
pub open spec fn class_tuples(g: &EGraph, s: Sym, c: int, m: nat) -> Seq<Seq<Id>>
    decreases m,
{
    if m == 0 {
        Seq::empty()
    } else {
        let before = class_tuples(g, s, c, (m - 1) as nat);
        let k = g.listed(c)[m - 1];
        if k.0 == s {
            before.push(tuple_for(g, c, k))
        } else {
            before
        }
    }
}

/// The tuples of symbol `s` among the first `n` classes.
pub open spec fn graph_tuples(g: &EGraph, s: Sym, n: nat) -> Seq<Seq<Id>>
    decreases n,
{
    if n == 0 {
        Seq::empty()
    } else {
        graph_tuples(g, s, (n - 1) as nat) + class_tuples(g, s, n - 1, g.listed(n - 1).len())
    }
}

/// `db` is the database of the e-graph: one tuple per e-node, by class.
pub open spec fn is_database(g: &EGraph, db: Seq<Relation>) -> bool {
    &&& forall|s: Sym| #[trigger] tuples_of(db, s) == graph_tuples(g, s, g.len())
    &&& forall|s: int|
        0 <= s < db.len() ==> (#[trigger] db[s]).arity == (if db[s].tuples@.len() > 0 {
            db[s].tuples@[0]@.len()
        } else {
            0
        })
}

/// A database on the way: the first `c` classes, and the first `m` e-nodes of
/// the next one.
spec fn part_database(g: &EGraph, db: Seq<Relation>, c: int, m: nat) -> bool {
    &&& forall|s: Sym| #[trigger]
        tuples_of(db, s) == graph_tuples(g, s, c as nat) + class_tuples(g, s, c, m)
    &&& forall|s: int|
        0 <= s < db.len() ==> (#[trigger] db[s]).arity == (if db[s].tuples@.len() > 0 {
            db[s].tuples@[0]@.len()
        } else {
            0
        })
}

/// Adds one tuple to the relation of a symbol.
fn add_tuple(db: &mut Database, s: Sym, t: Vec<Id>)
    requires
        forall|s: int|
            0 <= s < old(db)@.len() ==> (#[trigger] old(db)@[s]).arity == (if old(
                db,
            )@[s].tuples@.len() > 0 {
                old(db)@[s].tuples@[0]@.len()
            } else {
                0
            }),
    ensures
        forall|s: int|
            0 <= s < final(db)@.len() ==> (#[trigger] final(db)@[s]).arity == (if final(
                db
            )@[s].tuples@.len() > 0 {
                final(db)@[s].tuples@[0]@.len()
            } else {
                0
            }),
        forall|x: Sym| #[trigger]
            tuples_of(final(db)@, x) == (if x == s {
                tuples_of(old(db)@, x).push(t@)
            } else {
                tuples_of(old(db)@, x)
            }),
{
    let ghost db0 = db@;
    while db.len() <= s as usize
        invariant
            forall|s: int|
                0 <= s < db@.len() ==> (#[trigger] db@[s]).arity == (if db@[s].tuples@.len() > 0 {
                    db@[s].tuples@[0]@.len()
                } else {
                    0
                }),
            forall|x: Sym| #[trigger] tuples_of(db@, x) == tuples_of(db0, x),
        decreases s as int + 1 - db@.len(),
    {
        let ghost d0 = db@;
        db.push(Relation { arity: 0, tuples: Vec::new() });
        proof {
            assert forall|x: Sym| #[trigger] tuples_of(db@, x) == tuples_of(db0, x) by {
                assert(tuples_of(d0, x) == tuples_of(db0, x));
                assert(tuples_of(db@, x) =~= tuples_of(d0, x));
            }
        }
    }
    let ghost d1 = db@;
    let ghost tv = t@;
    db.push(Relation { arity: 0, tuples: Vec::new() });
    let mut rel = db.swap_remove(s as usize);
    if rel.tuples.len() == 0 {
        rel.arity = t.len();
    }
    rel.tuples.push(t);
    db.set(s as usize, rel);
    proof {
        assert forall|x: Sym| #[trigger] tuples_of(db@, x) == (if x == s {
            tuples_of(db0, x).push(tv)
        } else {
            tuples_of(db0, x)
        }) by {
            assert(tuples_of(d1, x) == tuples_of(db0, x));
            if x == s {
                assert(tuples_of(db@, x) =~= tuples_of(d1, x).push(tv));
            }
        }
    }
}

/// One pass over the e-graph, one tuple per e-node.
pub fn to_database(g: &EGraph) -> (db: Database)
    requires
        g.well_formed(),
    ensures
        is_database(g, db@),
{
    let mut db: Database = Vec::new();
    let n = g.id_count();
    proof {
        g.lemma_well_formed();
        assert forall|s: Sym| #[trigger] tuples_of(db@, s) == graph_tuples(g, s, 0) + class_tuples(g, s, 0, 0) by {
            assert(tuples_of(db@, s) =~= graph_tuples(g, s, 0) + class_tuples(g, s, 0, 0));
        }
    }
    for c in 0..n
        invariant
            g.well_formed(),
            n == g.len(),
            n <= u32::MAX,
            part_database(g, db@, c as int, 0),
    {
        let list = g.own_nodes(c as Id);
        for i in 0..list.len()
            invariant
                g.well_formed(),
                n == g.len(),
                c < n,
                n <= u32::MAX,
                nodes::keys(list@) == g.listed(c as int),
                part_database(g, db@, c as int, i as nat),
        {
            let node = &list[i];
            let ghost k = g.listed(c as int)[i as int];
            proof {
                assert(nodes::keys(list@)[i as int] == node@);
                g.lemma_well_formed();
                assert(g.listed(c as int).contains(k));
                assert(g.holds(c as int, k));
            }
            let mut t: Vec<Id> = Vec::new();
            t.push(c as Id);
            for j in 0..node.children.len()
                invariant
                    g.well_formed(),
                    g.in_range(k),
                    k == node@,
                    t@.len() == j + 1,
                    t@[0] == c as Id,
                    forall|x: int| 0 <= x < j ==> #[trigger] t@[x + 1] == g.rep(k.1[x]),
            {
                assert(k.1[j as int] < g.len());
                t.push(g.find(node.children[j]));
            }
            assert(t@ =~= tuple_for(g, c as int, k)) by {
                assert forall|x: int| 0 <= x < t@.len()
                    implies t@[x] == tuple_for(g, c as int, k)[x] by {
                    if x > 0 {
                        assert(t@[(x - 1) + 1] == g.rep(k.1[x - 1]));
                    }
                }
            }
            let ghost d0 = db@;
            add_tuple(&mut db, node.op, t);
            proof {
                assert forall|s: Sym| #[trigger] tuples_of(db@, s) == graph_tuples(g, s, c as nat) + class_tuples(
                    g,
                    s,
                    c as int,
                    (i + 1) as nat,
                ) by {
                    assert(tuples_of(d0, s) == graph_tuples(g, s, c as nat) + class_tuples(
                        g,
                        s,
                        c as int,
                        i as nat,
                    ));
                    assert(tuples_of(db@, s) =~= graph_tuples(g, s, c as nat) + class_tuples(
                        g,
                        s,
                        c as int,
                        (i + 1) as nat,
                    ));
                }
            }
        }
        proof {
            assert(nodes::keys(list@).len() == list@.len());
            assert forall|s: Sym| #[trigger] tuples_of(db@, s) == graph_tuples(g, s, (c + 1) as nat) + class_tuples(
                g,
                s,
                c + 1,
                0,
            ) by {
                assert(tuples_of(db@, s) == graph_tuples(g, s, c as nat) + class_tuples(
                    g,
                    s,
                    c as int,
                    g.listed(c as int).len(),
                ));
                assert(tuples_of(db@, s) =~= graph_tuples(g, s, (c + 1) as nat) + class_tuples(
                    g,
                    s,
                    c + 1,
                    0,
                ));
            }
        }
    }
    proof {
        assert forall|s: Sym| #[trigger] tuples_of(db@, s) == graph_tuples(g, s, g.len()) by {
            assert(tuples_of(db@, s) =~= graph_tuples(g, s, n as nat) + class_tuples(g, s, n as int, 0));
        }
    }
    db
}

/// A tuple of the database is an e-node of the e-graph, and the other way
/// round.
pub proof fn lemma_database_tuples(g: &EGraph, s: Sym, t: Seq<Id>)
    requires
        g.well_formed(),
    ensures
        graph_tuples(g, s, g.len()).contains(t) <==> exists|c: int, k: nodes::Key| #[trigger]
            g.holds(c, k) && k.0 == s && t == tuple_for(g, c, k),
{
    lemma_graph_tuples(g, s, t, g.len());
    if graph_tuples(g, s, g.len()).contains(t) {
        let (c, m) = choose|c: int, m: int|
            0 <= c < g.len() && 0 <= m < g.listed(c).len() && (#[trigger] g.listed(c)[m]).0 == s && t
                == tuple_for(g, c, g.listed(c)[m]);
        assert(g.holds(c, g.listed(c)[m]));
    }
    if exists|c: int, k: nodes::Key| #[trigger]
        g.holds(c, k) && k.0 == s && t == tuple_for(g, c, k) {
        let (c, k) = choose|c: int, k: nodes::Key| #[trigger]
            g.holds(c, k) && k.0 == s && t == tuple_for(g, c, k);
        let m = choose|m: int| 0 <= m < g.listed(c).len() && g.listed(c)[m] == k;
        assert(g.listed(c)[m].0 == s);
    }
}

proof fn lemma_class_tuples(g: &EGraph, s: Sym, c: int, t: Seq<Id>, m: nat)
    ensures
        class_tuples(g, s, c, m).contains(t) <==> exists|i: int|
            0 <= i < m && (#[trigger] g.listed(c)[i]).0 == s && t == tuple_for(g, c, g.listed(c)[i]),
    decreases m,
{
    if m > 0 {
        let before = class_tuples(g, s, c, (m - 1) as nat);
        let now = class_tuples(g, s, c, m);
        lemma_class_tuples(g, s, c, t, (m - 1) as nat);
        if now.contains(t) {
            let j = choose|j: int| 0 <= j < now.len() && now[j] == t;
            if j < before.len() {
                assert(before[j] == t);
                let i = choose|i: int|
                    0 <= i < m - 1 && (#[trigger] g.listed(c)[i]).0 == s && t == tuple_for(
                        g,
                        c,
                        g.listed(c)[i],
                    );
                assert(g.listed(c)[i].0 == s);
            } else {
                assert(g.listed(c)[m - 1].0 == s);
            }
        }
        if exists|i: int|
            0 <= i < m && (#[trigger] g.listed(c)[i]).0 == s && t == tuple_for(g, c, g.listed(c)[i]) {
            let i = choose|i: int|
                0 <= i < m && (#[trigger] g.listed(c)[i]).0 == s && t == tuple_for(
                    g,
                    c,
                    g.listed(c)[i],
                );
            if i < m - 1 {
                assert(before.contains(t));
                let j = choose|j: int| 0 <= j < before.len() && before[j] == t;
                assert(now[j] == t);
            } else {
                assert(now[before.len() as int] == t);
            }
        }
    }
}

proof fn lemma_graph_tuples(g: &EGraph, s: Sym, t: Seq<Id>, n: nat)
    ensures
        graph_tuples(g, s, n).contains(t) <==> exists|c: int, m: int|
            0 <= c < n && 0 <= m < g.listed(c).len() && (#[trigger] g.listed(c)[m]).0 == s && t
                == tuple_for(g, c, g.listed(c)[m]),
    decreases n,
{
    if n > 0 {
        let before = graph_tuples(g, s, (n - 1) as nat);
        let more = class_tuples(g, s, n - 1, g.listed(n - 1).len());
        let now = graph_tuples(g, s, n);
        lemma_graph_tuples(g, s, t, (n - 1) as nat);
        lemma_class_tuples(g, s, n - 1, t, g.listed(n - 1).len());
        if now.contains(t) {
            let j = choose|j: int| 0 <= j < now.len() && now[j] == t;
            if j < before.len() {
                assert(before[j] == t);
                let (c, m) = choose|c: int, m: int|
                    0 <= c < n - 1 && 0 <= m < g.listed(c).len() && (#[trigger] g.listed(c)[m]).0 == s
                        && t == tuple_for(g, c, g.listed(c)[m]);
                assert(g.listed(c)[m].0 == s);
            } else {
                assert(more[j - before.len()] == t);
                let i = choose|i: int|
                    0 <= i < g.listed(n - 1).len() && (#[trigger] g.listed(n - 1)[i]).0 == s && t
                        == tuple_for(g, n - 1, g.listed(n - 1)[i]);
                assert(g.listed(n - 1)[i].0 == s);
            }
        }
        if exists|c: int, m: int|
            0 <= c < n && 0 <= m < g.listed(c).len() && (#[trigger] g.listed(c)[m]).0 == s && t
                == tuple_for(g, c, g.listed(c)[m]) {
            let (c, m) = choose|c: int, m: int|
                0 <= c < n && 0 <= m < g.listed(c).len() && (#[trigger] g.listed(c)[m]).0 == s && t
                    == tuple_for(g, c, g.listed(c)[m]);
            if c < n - 1 {
                assert(before.contains(t));
                let j = choose|j: int| 0 <= j < before.len() && before[j] == t;
                assert(now[j] == t);
            } else {
                assert(more.contains(t));
                let j = choose|j: int| 0 <= j < more.len() && more[j] == t;
                assert(now[before.len() + j] == t);
            }
        }
    }
}

/// How many tuples the first `n` relations hold.
pub open spec fn tuple_count(db: Seq<Relation>, n: nat) -> nat
    decreases n,
{
    if n == 0 {
        0
    } else {
        tuple_count(db, (n - 1) as nat) + db[n - 1].tuples@.len()
    }
}

proof fn lemma_tuple_count(db: Seq<Relation>, k: nat, n: nat)
    requires
        k <= n,
    ensures
        tuple_count(db, k) <= tuple_count(db, n),
    decreases n,
{
    if k < n {
        lemma_tuple_count(db, k, (n - 1) as nat);
    }
}

pub fn db_tuples(db: &Database) -> (n: usize)
    requires
        tuple_count(db@, db@.len()) <= usize::MAX,
    ensures
        n == tuple_count(db@, db@.len()),
{
    let mut n: usize = 0;
    for s in 0..db.len()
        invariant
            tuple_count(db@, db@.len()) <= usize::MAX,
            n == tuple_count(db@, s as nat),
    {
        proof {
            lemma_tuple_count(db@, (s + 1) as nat, db@.len());
        }
        n += db[s].tuples.len();
    }
    n
}

/// Row `a` comes before row `b` of the same length.
pub open spec fn row_less(a: Seq<Id>, b: Seq<Id>) -> bool {
    exists|i: int|
        0 <= i < a.len() && i < b.len() && #[trigger] a[i] < b[i] && forall|j: int|
            0 <= j < i ==> #[trigger] a[j] == b[j]
}

/// Rows of one width, each once, in lexicographic order.
pub open spec fn is_trie(rows: Seq<Vec<Id>>, width: nat) -> bool {
    &&& forall|i: int| 0 <= i < rows.len() ==> (#[trigger] rows[i])@.len() == width
    &&& forall|i: int, j: int|
        0 <= i < j < rows.len() ==> row_less((#[trigger] rows[i])@, (#[trigger] rows[j])@)
}

/// A trie laid out flat: its paths in order, so that a node of the trie is a
/// run of rows with a common prefix.
#[derive(Debug)]
pub struct Trie {
    pub rows: Vec<Vec<Id>>,
}

impl Default for Trie {
    fn default() -> (t: Trie)
        ensures
            t.rows@.len() == 0,
    {
        Trie { rows: Vec::new() }
    }
}

/// Compares two rows of one length: less, equal or greater as -1, 0 or 1.
fn compare_rows(a: &Vec<Id>, b: &Vec<Id>) -> (r: i8)
    requires
        a@.len() == b@.len(),
    ensures
        r < 0 ==> row_less(a@, b@),
        r == 0 ==> a@ == b@,
        r > 0 ==> row_less(b@, a@),
{
    for i in 0..a.len()
        invariant
            a@.len() == b@.len(),
            forall|j: int| 0 <= j < i ==> #[trigger] a@[j] == b@[j],
    {
        if a[i] < b[i] {
            assert(a@[i as int] < b@[i as int]);
            return -1;
        }
        if a[i] > b[i] {
            assert(b@[i as int] < a@[i as int]);
            return 1;
        }
    }
    assert(a@ =~= b@);
    0
}

proof fn lemma_row_less_trans(a: Seq<Id>, b: Seq<Id>, c: Seq<Id>)
    requires
        a.len() == b.len() == c.len(),
        row_less(a, b),
        row_less(b, c),
    ensures
        row_less(a, c),
{
    let i = choose|i: int|
        0 <= i < a.len() && i < b.len() && #[trigger] a[i] < b[i] && forall|j: int|
            0 <= j < i ==> #[trigger] a[j] == b[j];
    let k = choose|k: int|
        0 <= k < b.len() && k < c.len() && #[trigger] b[k] < c[k] && forall|j: int|
            0 <= j < k ==> #[trigger] b[j] == c[j];
    let m = if i <= k {
        i
    } else {
        k
    };
    assert(a[m] < c[m]);
}

impl Trie {
    /// Adds a path; one that is there already is not added again.
    fn insert(&mut self, path: Vec<Id>, width: Ghost<nat>)
        requires
            is_trie(old(self).rows@, width@),
            path@.len() == width@,
        ensures
            is_trie(final(self).rows@, width@),
            forall|p: Seq<Id>| #[trigger]
                has_row(final(self).rows@, p) <==> has_row(old(self).rows@, p) || p == path@,
    {
        let ghost w = width@;
        let ghost rows0 = self.rows@;
        let ghost pv = path@;
        let mut lo: usize = 0;
        let mut hi = self.rows.len();
        while lo < hi
            invariant
                self.rows@ == rows0,
                rows0 == old(self).rows@,
                w == width@,
                is_trie(rows0, w),
                path@ == pv,
                pv.len() == w,
                lo <= hi <= rows0.len(),
                forall|i: int| 0 <= i < lo ==> row_less((#[trigger] rows0[i])@, pv),
                forall|i: int| hi <= i < rows0.len() ==> row_less(pv, (#[trigger] rows0[i])@),
            decreases hi - lo,
        {
            let mid = lo + (hi - lo) / 2;
            assert(rows0[mid as int]@.len() == w);
            let r = compare_rows(&self.rows[mid], &path);
            if r == 0 {
                assert(has_row(rows0, pv));
                return;
            }
            if r < 0 {
                proof {
                    assert forall|i: int| 0 <= i < mid + 1
                        implies row_less((#[trigger] rows0[i])@, pv) by {
                        if i < mid {
                            assert(row_less(rows0[i]@, rows0[mid as int]@));
                            lemma_row_less_trans(rows0[i]@, rows0[mid as int]@, pv);
                        }
                    }
                }
                lo = mid + 1;
            } else {
                proof {
                    assert forall|i: int| mid <= i < rows0.len()
                        implies row_less(pv, (#[trigger] rows0[i])@) by {
                        if i > mid {
                            assert(row_less(rows0[mid as int]@, rows0[i]@));
                            lemma_row_less_trans(pv, rows0[mid as int]@, rows0[i]@);
                        }
                    }
                }
                hi = mid;
            }
        }
        self.rows.insert(lo, path);
        proof {
            let rows = self.rows@;
            assert forall|i: int, j: int| 0 <= i < j < rows.len()
                implies row_less((#[trigger] rows[i])@, (#[trigger] rows[j])@) by {
                if j < lo {
                    assert(rows[i] == rows0[i] && rows[j] == rows0[j]);
                } else if j == lo {
                    assert(rows[i] == rows0[i]);
                } else if i < lo {
                    assert(rows[i] == rows0[i] && rows[j] == rows0[j - 1]);
                } else if i == lo {
                    assert(rows[j] == rows0[j - 1]);
                } else {
                    assert(rows[i] == rows0[i - 1] && rows[j] == rows0[j - 1]);
                }
            }
            assert forall|i: int| 0 <= i < rows.len() implies (#[trigger] rows[i])@.len() == w by {
                if i < lo {
                    assert(rows[i] == rows0[i]);
                } else if i > lo {
                    assert(rows[i] == rows0[i - 1]);
                }
            }
            assert forall|p: Seq<Id>| #[trigger] has_row(rows, p) <==> has_row(rows0, p) || p == pv by {
                if has_row(rows, p) {
                    let i = choose|i: int| 0 <= i < rows.len() && (#[trigger] rows[i])@ == p;
                    if i < lo {
                        assert(rows0[i]@ == p);
                    } else if i > lo {
                        assert(rows0[i - 1]@ == p);
                    }
                }
                if has_row(rows0, p) {
                    let i = choose|i: int| 0 <= i < rows0.len() && (#[trigger] rows0[i])@ == p;
                    if i < lo {
                        assert(rows[i]@ == p);
                    } else {
                        assert(rows[i + 1]@ == p);
                    }
                }
                if p == pv {
                    assert(rows[lo as int]@ == p);
                }
            }
        }
    }
}

/// Some row is `p`.
pub open spec fn has_row(rows: Seq<Vec<Id>>, p: Seq<Id>) -> bool {
    exists|i: int| 0 <= i < rows.len() && (#[trigger] rows[i])@ == p
}

/// Where a variable stands in the ordering.
pub open spec fn place(order: Seq<VarId>, v: VarId) -> int {
    choose|i: int| 0 <= i < order.len() && order[i] == v
}

/// An atom indexed for one variable ordering.
#[derive(Debug)]
pub struct AtomIndex {
    /// The atom's distinct variables, in the global ordering.
    pub vars: Vec<VarId>,
    pub trie: Trie,
    pub tuples_indexed: usize,
}

/// The tuple fits the variables: it gives each of them one value.
pub open spec fn consistent(vars: Seq<VarId>, t: Seq<Id>) -> bool {
    forall|i: int, j: int|
        0 <= i < vars.len() && 0 <= j < vars.len() && #[trigger] vars[i] == #[trigger] vars[j]
            ==> t[i] == t[j]
}

/// The assignment gives the tuple, column by column.
pub open spec fn spells(vars: Seq<VarId>, t: Seq<Id>, s: Seq<Id>) -> bool {
    forall|i: int| 0 <= i < vars.len() ==> t[i] == s[#[trigger] vars[i] as int]
}

/// The atom holds under the assignment: some tuple of its relation is what the
/// variables spell.
pub open spec fn atom_holds(tuples: Seq<Seq<Id>>, vars: Seq<VarId>, s: Seq<Id>) -> bool {
    exists|t: Seq<Id>| #[trigger] tuples.contains(t) && spells(vars, t, s)
}

/// The variables are distinct and in the order of the ordering.
pub open spec fn in_order(vars: Seq<VarId>, order: Seq<VarId>) -> bool {
    &&& forall|i: int| 0 <= i < vars.len() ==> order.contains(#[trigger] vars[i])
    &&& forall|i: int, j: int|
        0 <= i < j < vars.len() ==> place(order, #[trigger] vars[i]) < place(
            order,
            #[trigger] vars[j],
        )
}

/// `ix` indexes the atom over its variables and tuples.
pub open spec fn indexes(
    ix: &AtomIndex,
    vars: Seq<VarId>,
    tuples: Seq<Seq<Id>>,
    order: Seq<VarId>,
) -> bool {
    &&& in_order(ix.vars@, order)
    &&& is_trie(ix.trie.rows@, ix.vars@.len())
    &&& vars.len() > 0 ==> ix.vars@.len() > 0
    &&& forall|v: VarId| #[trigger] ix.vars@.contains(v) <==> vars.contains(v)
    &&& forall|s: Seq<Id>|
        #![trigger atom_holds(tuples, vars, s)]
        #![trigger row_holds(ix, s)]
        atom_holds(tuples, vars, s) <==> row_holds(ix, s)
}

/// Some row of the index is what its variables spell.
pub open spec fn row_holds(ix: &AtomIndex, s: Seq<Id>) -> bool {
    exists|r: int|
        0 <= r < ix.trie.rows@.len() && spells(ix.vars@, (#[trigger] ix.trie.rows@[r])@, s)
}

/// The ordering lists distinct variables.
pub open spec fn is_ordering(order: Seq<VarId>) -> bool {
    order.no_duplicates()
}

fn position(order: &[VarId], v: VarId) -> (p: usize)
    requires
        order@.contains(v),
        is_ordering(order@),
    ensures
        p < order@.len(),
        order@[p as int] == v,
        p == place(order@, v),
{
    let ghost at = choose|i: int| 0 <= i < order@.len() && order@[i] == v;
    let len = order.len();
    let mut p: usize = 0;
    while order[p] != v
        invariant
            len == order@.len(),
            0 <= at < len,
            order@[at] == v,
            p <= at,
        decreases at - p,
    {
        p += 1;
    }
    p
}

/// How many of the first `n` tuples give each variable one value.
pub open spec fn consistent_count(vars: Seq<VarId>, tuples: Seq<Vec<Id>>, n: nat) -> nat
    decreases n,
{
    if n == 0 {
        0
    } else {
        consistent_count(vars, tuples, (n - 1) as nat) + (if consistent(vars, tuples[n - 1]@) {
            1nat
        } else {
            0
        })
    }
}

/// Whether a tuple gives each variable one value.
fn is_consistent(vars: &Vec<VarId>, t: &Vec<Id>) -> (b: bool)
    requires
        t@.len() >= vars@.len(),
    ensures
        b == consistent(vars@, t@),
{
    for i in 0..vars.len()
        invariant
            t@.len() >= vars@.len(),
            forall|a: int, b: int|
                0 <= a < i && 0 <= b < vars@.len() && #[trigger] vars@[a] == #[trigger] vars@[b]
                    ==> t@[a] == t@[b],
    {
        for j in 0..vars.len()
            invariant
                t@.len() >= vars@.len(),
                i < vars@.len(),
                forall|b: int|
                    0 <= b < j && vars@[i as int] == #[trigger] vars@[b] ==> t@[i as int] == t@[b],
        {
            if vars[i] == vars[j] && t[i] != t[j] {
                assert(vars@[i as int] == vars@[j as int]);
                return false;
            }
        }
    }
    true
}

/// Some of the columns holds `v`.
spec fn in_columns(vars: Seq<VarId>, cols: Seq<usize>, v: VarId) -> bool {
    exists|k: int| 0 <= k < cols.len() && vars[#[trigger] cols[k] as int] == v
}

spec fn in_keyed(vars: Seq<VarId>, keyed: Seq<(usize, usize)>, v: VarId) -> bool {
    exists|k: int| 0 <= k < keyed.len() && vars[(#[trigger] keyed[k]).1 as int] == v
}

/// The columns of the first occurrences, in the order of the ordering.
fn first_columns(vars: &Vec<VarId>, order: &[VarId]) -> (cols: Vec<usize>)
    requires
        is_ordering(order@),
        forall|i: int| 0 <= i < vars@.len() ==> order@.contains(#[trigger] vars@[i]),
    ensures
        forall|k: int| 0 <= k < cols@.len() ==> #[trigger] cols@[k] < vars@.len(),
        forall|i: int, j: int|
            0 <= i < j < cols@.len() ==> place(order@, vars@[#[trigger] cols@[i] as int]) < place(
                order@,
                vars@[#[trigger] cols@[j] as int],
            ),
        forall|i: int| 0 <= i < vars@.len() ==> in_columns(vars@, cols@, #[trigger] vars@[i]),
{
    let mut keyed: Vec<(usize, usize)> = Vec::new();
    for c in 0..vars.len()
        invariant
            is_ordering(order@),
            forall|i: int| 0 <= i < vars@.len() ==> order@.contains(#[trigger] vars@[i]),
            forall|k: int|
                0 <= k < keyed@.len() ==> (#[trigger] keyed@[k]).1 < c && keyed@[k].0 == place(
                    order@,
                    vars@[keyed@[k].1 as int],
                ) && keyed@[k].0 < order@.len() && order@[keyed@[k].0 as int]
                    == vars@[keyed@[k].1 as int],
            forall|i: int, j: int|
                0 <= i < j < keyed@.len() ==> (#[trigger] keyed@[i]).0 != (#[trigger] keyed@[j]).0,
            forall|i: int| 0 <= i < c ==> in_keyed(vars@, keyed@, #[trigger] vars@[i]),
    {
        let v = vars[c];
        let p = position(order, v);
        let mut known = false;
        for k in 0..keyed.len()
            invariant
                is_ordering(order@),
                order@.contains(v),
                p == place(order@, v),
                p < order@.len(),
                order@[p as int] == v,
                c < vars@.len(),
                v == vars@[c as int],
                forall|k: int|
                    0 <= k < keyed@.len() ==> (#[trigger] keyed@[k]).1 < c && keyed@[k].0 == place(
                        order@,
                        vars@[keyed@[k].1 as int],
                    ) && keyed@[k].0 < order@.len() && order@[keyed@[k].0 as int]
                        == vars@[keyed@[k].1 as int],
                known ==> in_keyed(vars@, keyed@, v),
                !known ==> forall|j: int| 0 <= j < k ==> (#[trigger] keyed@[j]).0 != p,
        {
            if keyed[k].0 == p {
                assert(vars@[keyed@[k as int].1 as int] == v);
                known = true;
            }
        }
        let ghost k0 = keyed@;
        if !known {
            keyed.push((p, c));
        }
        proof {
            assert forall|i: int| 0 <= i < c + 1
                implies in_keyed(vars@, keyed@, #[trigger] vars@[i]) by {
                if i < c {
                    let k = choose|k: int|
                        0 <= k < k0.len() && vars@[(#[trigger] k0[k]).1 as int] == vars@[i];
                    assert(keyed@[k] == k0[k]);
                } else if !known {
                    assert(vars@[keyed@[k0.len() as int].1 as int] == vars@[i]);
                }
            }
        }
    }
    let s = sorting::sorted(&keyed);
    let mut cols: Vec<usize> = Vec::new();
    for k in 0..s.len()
        invariant
            cols@.len() == k,
            forall|i: int| 0 <= i < k ==> #[trigger] cols@[i] == s@[i].1,
    {
        cols.push(s[k].1);
    }
    proof {
        lemma_distinct_sorted(keyed@, s@);
        assert forall|k: int| 0 <= k < cols@.len()
            implies #[trigger] cols@[k] < vars@.len() && s@[k].0 == place(
            order@,
            vars@[cols@[k] as int],
        ) by {
            assert(s@.contains(s@[k]));
            let i = choose|i: int| 0 <= i < keyed@.len() && keyed@[i] == s@[k];
            assert(keyed@[i].1 < vars@.len());
        }
        assert forall|i: int, j: int| 0 <= i < j < cols@.len()
            implies place(order@, vars@[#[trigger] cols@[i] as int]) < place(
            order@,
            vars@[#[trigger] cols@[j] as int],
        ) by {
            assert(s@[i].0 < s@[j].0);
            assert(cols@[i] < vars@.len() && cols@[j] < vars@.len());
        }
        assert forall|i: int| 0 <= i < vars@.len()
            implies in_columns(vars@, cols@, #[trigger] vars@[i]) by {
            assert(in_keyed(vars@, keyed@, vars@[i]));
            let k = choose|k: int|
                0 <= k < keyed@.len() && vars@[(#[trigger] keyed@[k]).1 as int] == vars@[i];
            assert(keyed@.contains(keyed@[k]));
            assert(s@.contains(keyed@[k]));
            let m = choose|m: int| 0 <= m < s@.len() && s@[m] == keyed@[k];
            assert(cols@[m] == keyed@[k].1);
        }
    }
    cols
}

/// Pairs with distinct first components stay so when sorted, and their first
/// components then ascend.
proof fn lemma_distinct_sorted(a: Seq<(usize, usize)>, b: Seq<(usize, usize)>)
    requires
        forall|i: int, j: int|
            0 <= i < j < a.len() ==> (#[trigger] a[i]).0 != (#[trigger] a[j]).0,
        sorting::is_sorted(b),
        a.to_multiset() == b.to_multiset(),
        forall|x: (usize, usize)| #[trigger] b.contains(x) <==> a.contains(x),
    ensures
        forall|i: int, j: int|
            0 <= i < j < b.len() ==> (#[trigger] b[i]).0 < (#[trigger] b[j]).0,
{
    assert(a.no_duplicates());
    a.lemma_multiset_has_no_duplicates();
    b.lemma_multiset_has_no_duplicates_conv();
    assert forall|i: int, j: int| 0 <= i < j < b.len()
        implies (#[trigger] b[i]).0 < (#[trigger] b[j]).0 by {
        assert(sorting::Keyed::key(&b[i]) <= sorting::Keyed::key(&b[j]));
        if b[i].0 == b[j].0 {
            assert(b.contains(b[i]) && b.contains(b[j]));
            assert(a.contains(b[i]) && a.contains(b[j]));
            let x = choose|x: int| 0 <= x < a.len() && a[x] == b[i];
            let y = choose|y: int| 0 <= y < a.len() && a[y] == b[j];
            if x < y {
                assert(a[x].0 != a[y].0);
            } else if y < x {
                assert(a[y].0 != a[x].0);
            }
            assert(b[i] == b[j]);
        }
    }
}

/// The path of a tuple along the columns.
spec fn path(t: Seq<Id>, cols: Seq<usize>) -> Seq<Id> {
    Seq::new(cols.len(), |k: int| t[cols[k] as int])
}

/// One of the first `n` tuples is consistent and has path `p`.
spec fn has_path(vars: Seq<VarId>, tuples: Seq<Vec<Id>>, cols: Seq<usize>, n: int, p: Seq<Id>) -> bool {
    exists|j: int|
        0 <= j < n && consistent(vars, (#[trigger] tuples[j])@) && p == path(tuples[j]@, cols)
}

/// Builds the index of one atom. A variable that occurs twice in it indexes on
/// its first column and filters on the others.
pub fn index_atom(rel: &Relation, atom: &Atom, order: &[VarId]) -> (ix: AtomIndex)
    requires
        is_ordering(order@),
        forall|i: int| 0 <= i < atom.vars@.len() ==> order@.contains(#[trigger] atom.vars@[i]),
        forall|j: int|
            0 <= j < rel.tuples@.len() ==> (#[trigger] rel.tuples@[j])@.len() >= atom.vars@.len(),
    ensures
        indexes(&ix, atom.vars@, tuple_values(*rel), order@),
        ix.tuples_indexed == consistent_count(atom.vars@, rel.tuples@, rel.tuples@.len()),
{
    let cols = first_columns(&atom.vars, order);
    let mut vars: Vec<VarId> = Vec::new();
    for k in 0..cols.len()
        invariant
            forall|k: int| 0 <= k < cols@.len() ==> #[trigger] cols@[k] < atom.vars@.len(),
            vars@.len() == k,
            forall|i: int| 0 <= i < k ==> #[trigger] vars@[i] == atom.vars@[cols@[i] as int],
    {
        vars.push(atom.vars[cols[k]]);
    }
    let mut trie = Trie::default();
    let mut indexed: usize = 0;
    let ghost w = cols@.len();
    for j in 0..rel.tuples.len()
        invariant
            w == cols@.len(),
            forall|k: int| 0 <= k < cols@.len() ==> #[trigger] cols@[k] < atom.vars@.len(),
            forall|j: int|
                0 <= j < rel.tuples@.len() ==> (#[trigger] rel.tuples@[j])@.len()
                    >= atom.vars@.len(),
            indexed <= j,
            indexed == consistent_count(atom.vars@, rel.tuples@, j as nat),
            is_trie(trie.rows@, w),
            forall|p: Seq<Id>| #[trigger]
                has_row(trie.rows@, p) <==> has_path(atom.vars@, rel.tuples@, cols@, j as int, p),
    {
        let t = &rel.tuples[j];
        assert(rel.tuples@[j as int]@.len() >= atom.vars@.len());
        let ghost rows0 = trie.rows@;
        let good = is_consistent(&atom.vars, t);
        if good {
            let mut row: Vec<Id> = Vec::new();
            for k in 0..cols.len()
                invariant
                    forall|k: int| 0 <= k < cols@.len() ==> #[trigger] cols@[k] < t@.len(),
                    row@.len() == k,
                    forall|i: int| 0 <= i < k ==> #[trigger] row@[i] == t@[cols@[i] as int],
            {
                row.push(t[cols[k]]);
            }
            assert(row@ =~= path(t@, cols@));
            trie.insert(row, Ghost(w));
            indexed += 1;
        }
        proof {
            assert forall|p: Seq<Id>| #[trigger] has_row(trie.rows@, p) <==> has_path(atom.vars@, rel.tuples@, cols@, j + 1, p) by {
                assert(has_row(rows0, p) <==> has_path(atom.vars@, rel.tuples@, cols@, j as int, p));
                if has_path(atom.vars@, rel.tuples@, cols@, j as int, p) {
                    let i = choose|i: int|
                        0 <= i < j && consistent(atom.vars@, (#[trigger] rel.tuples@[i])@) && p == path(
                            rel.tuples@[i]@,
                            cols@,
                        );
                    assert(consistent(atom.vars@, rel.tuples@[i]@));
                }
                if good && p == path(t@, cols@) {
                    assert(consistent(atom.vars@, rel.tuples@[j as int]@));
                }
                if has_path(atom.vars@, rel.tuples@, cols@, j + 1, p) {
                    let i = choose|i: int|
                        0 <= i < j + 1 && consistent(atom.vars@, (#[trigger] rel.tuples@[i])@) && p
                            == path(rel.tuples@[i]@, cols@);
                    if i < j {
                        assert(has_path(atom.vars@, rel.tuples@, cols@, j as int, p));
                    }
                }
            }
        }
    }
    let ix = AtomIndex { vars, trie, tuples_indexed: indexed };
    proof {
        let tuples = tuple_values(*rel);
        let av = atom.vars@;
        assert forall|v: VarId| #[trigger] ix.vars@.contains(v) <==> av.contains(v) by {
            if ix.vars@.contains(v) {
                let k = choose|k: int| 0 <= k < ix.vars@.len() && ix.vars@[k] == v;
                assert(av[cols@[k] as int] == v);
            }
            if av.contains(v) {
                let i = choose|i: int| 0 <= i < av.len() && av[i] == v;
                assert(in_columns(av, cols@, av[i]));
                let k = choose|k: int| 0 <= k < cols@.len() && av[#[trigger] cols@[k] as int] == av[i];
                assert(ix.vars@[k] == v);
            }
        }
        if av.len() > 0 {
            assert(av.contains(av[0]));
            assert(ix.vars@.contains(av[0]));
        }
        assert forall|i: int| 0 <= i < ix.vars@.len()
            implies order@.contains(#[trigger] ix.vars@[i]) by {
            assert(ix.vars@[i] == av[cols@[i] as int]);
        }
        assert forall|i: int, j: int| 0 <= i < j < ix.vars@.len()
            implies place(order@, #[trigger] ix.vars@[i]) < place(
            order@,
            #[trigger] ix.vars@[j],
        ) by {
            assert(ix.vars@[i] == av[cols@[i] as int] && ix.vars@[j] == av[cols@[j] as int]);
        }
        assert forall|s: Seq<Id>| #![trigger atom_holds(tuples, av, s)] #![trigger row_holds(&ix, s)]
            atom_holds(tuples, av, s) <==> row_holds(&ix, s) by {
            if atom_holds(tuples, av, s) {
                let t = choose|t: Seq<Id>| #[trigger] tuples.contains(t) && spells(av, t, s);
                let j = choose|j: int| 0 <= j < tuples.len() && tuples[j] == t;
                assert(rel.tuples@[j]@ == t);
                assert(consistent(av, t));
                assert(has_path(av, rel.tuples@, cols@, rel.tuples@.len() as int, path(t, cols@)));
                assert(has_row(ix.trie.rows@, path(t, cols@)));
                let r = choose|r: int|
                    0 <= r < ix.trie.rows@.len() && (#[trigger] ix.trie.rows@[r])@ == path(t, cols@);
                assert(spells(ix.vars@, ix.trie.rows@[r]@, s)) by {
                    assert forall|i: int| 0 <= i < ix.vars@.len()
                        implies path(t, cols@)[i] == s[#[trigger] ix.vars@[i] as int] by {
                        assert(ix.vars@[i] == av[cols@[i] as int]);
                    }
                }
            }
            if row_holds(&ix, s) {
                let r = choose|r: int|
                    0 <= r < ix.trie.rows@.len() && spells(ix.vars@, (#[trigger] ix.trie.rows@[r])@, s);
                let p = ix.trie.rows@[r]@;
                assert(has_row(ix.trie.rows@, p));
                let j = choose|j: int|
                    0 <= j < rel.tuples@.len() && consistent(av, (#[trigger] rel.tuples@[j])@) && p == path(
                        rel.tuples@[j]@,
                        cols@,
                    );
                let t = rel.tuples@[j]@;
                assert(tuples[j] == t);
                assert(tuples.contains(t));
                assert(spells(av, t, s)) by {
                    assert forall|i: int| 0 <= i < av.len()
                        implies t[i] == s[#[trigger] av[i] as int] by {
                        assert(in_columns(av, cols@, av[i]));
                        let k = choose|k: int|
                            0 <= k < cols@.len() && av[#[trigger] cols@[k] as int] == av[i];
                        assert(p[k] == t[cols@[k] as int]);
                        assert(p[k] == s[ix.vars@[k] as int]);
                        assert(ix.vars@[k] == av[cols@[k] as int]);
                        assert(av[cols@[k] as int] == av[i]);
                    }
                }
            }
        }
    }
    ix
}

/// The size of a relation for planning: without tuples there is none.
pub open spec fn relation_size(db: Seq<Relation>, s: Sym) -> usize {
    if tuples_of(db, s).len() == 0 {
        usize::MAX
    } else {
        tuples_of(db, s).len() as usize
    }
}

/// How many of the first `n` atoms `v` occurs in.
pub open spec fn occurrences(q: &Query, v: VarId, n: nat) -> nat
    decreases n,
{
    if n == 0 {
        0
    } else {
        occurrences(q, v, (n - 1) as nat) + (if q.atoms@[n - 1].vars@.contains(v) {
            1nat
        } else {
            0
        })
    }
}

/// The smallest relation among those of the first `n` atoms that `v` is in.
pub open spec fn smallest_size(q: &Query, db: Seq<Relation>, v: VarId, n: nat) -> usize
    decreases n,
{
    if n == 0 {
        usize::MAX
    } else {
        let before = smallest_size(q, db, v, (n - 1) as nat);
        let here = relation_size(db, q.atoms@[n - 1].rel);
        if q.atoms@[n - 1].vars@.contains(v) && here < before {
            here
        } else {
            before
        }
    }
}

/// What the plan orders by: most atoms first, then the smallest relation, then
/// the variable.
pub open spec fn plan_key(q: &Query, db: Seq<Relation>, v: VarId) -> (usize, usize, usize) {
    (
        (usize::MAX - occurrences(q, v, q.atoms@.len())) as usize,
        smallest_size(q, db, v, q.atoms@.len()),
        v,
    )
}

/// Variable ordering: most constrained first.
pub fn plan(q: &Query, db: &Database) -> (order: Vec<VarId>)
    ensures
        is_ordering(order@),
        forall|v: VarId| #[trigger] order@.contains(v) <==> v < q.n_vars,
        forall|i: int, j: int|
            0 <= i < j < order@.len() ==> sorting::Keyed::key(
                &plan_key(q, db@, #[trigger] order@[i]),
            ) < sorting::Keyed::key(&plan_key(q, db@, #[trigger] order@[j])),
{
    let mut keyed: Vec<(usize, usize, usize)> = Vec::new();
    for v in 0..q.n_vars
        invariant
            keyed@.len() == v,
            forall|i: int| 0 <= i < v ==> #[trigger] keyed@[i] == plan_key(q, db@, i as VarId),
    {
        let mut many: usize = 0;
        let mut smallest: usize = usize::MAX;
        for i in 0..q.atoms.len()
            invariant
                many <= i,
                many == occurrences(q, v, i as nat),
                smallest == smallest_size(q, db@, v, i as nat),
        {
            if pattern::holds_var(&q.atoms[i].vars, v) {
                many += 1;
                let s = q.atoms[i].rel as usize;
                let size = if s < db.len() && db[s].tuples.len() > 0 {
                    db[s].tuples.len()
                } else {
                    usize::MAX
                };
                assert(size == relation_size(db@, q.atoms@[i as int].rel));
                if size < smallest {
                    smallest = size;
                }
            }
        }
        keyed.push((usize::MAX - many, smallest, v));
    }
    let s = sorting::sorted_distinct(&keyed);
    let mut order: Vec<VarId> = Vec::new();
    for i in 0..s.len()
        invariant
            order@.len() == i,
            forall|j: int| 0 <= j < i ==> #[trigger] order@[j] == s@[j].2,
    {
        order.push(s[i].2);
    }
    proof {
        assert forall|i: int| 0 <= i < s@.len()
            implies #[trigger] s@[i] == plan_key(q, db@, order@[i]) && order@[i]
            < q.n_vars by {
            assert(s@.contains(s@[i]));
            assert(keyed@.contains(s@[i]));
            let k = choose|k: int| 0 <= k < keyed@.len() && keyed@[k] == s@[i];
            assert(keyed@[k] == plan_key(q, db@, k as VarId));
            assert(order@[i] == s@[i].2);
        }
        assert forall|i: int, j: int| 0 <= i < order@.len() && 0 <= j < order@.len() && i != j
            implies order@[i] != order@[j] by {
            assert(s@[i] == plan_key(q, db@, order@[i]));
            assert(s@[j] == plan_key(q, db@, order@[j]));
            if i < j {
                assert(sorting::Keyed::key(&s@[i]) < sorting::Keyed::key(&s@[j]));
            } else {
                assert(sorting::Keyed::key(&s@[j]) < sorting::Keyed::key(&s@[i]));
            }
        }
        assert forall|v: VarId| #[trigger] order@.contains(v) <==> v < q.n_vars by {
            if order@.contains(v) {
                let i = choose|i: int| 0 <= i < order@.len() && order@[i] == v;
                assert(s@[i] == plan_key(q, db@, order@[i]));
            }
            if v < q.n_vars {
                let k = plan_key(q, db@, v);
                assert(keyed@[v as int] == k);
                assert(keyed@.contains(k));
                assert(s@.contains(k));
                let i = choose|i: int| 0 <= i < s@.len() && s@[i] == k;
                assert(order@[i] == v);
            }
        }
        assert forall|i: int, j: int| 0 <= i < j < order@.len() implies sorting::Keyed::key(
            &plan_key(q, db@, #[trigger] order@[i]),
        ) < sorting::Keyed::key(&plan_key(q, db@, #[trigger] order@[j])) by {
            assert(s@[i] == plan_key(q, db@, order@[i]));
            assert(s@[j] == plan_key(q, db@, order@[j]));
        }
    }
    order
}

/// The relations are wide enough for the query's atoms.
pub open spec fn wide_enough(q: &Query, db: Seq<Relation>) -> bool {
    forall|i: int, t: Seq<Id>|
        0 <= i < q.atoms@.len() && #[trigger] tuples_of(db, q.atoms@[i].rel).contains(t) ==> t.len()
            >= q.atoms@[i].vars@.len()
}

/// The ordering holds every variable of the query's atoms.
pub open spec fn covers(q: &Query, order: Seq<VarId>) -> bool {
    forall|i: int, k: int|
        0 <= i < q.atoms@.len() && 0 <= k < q.atoms@[i].vars@.len() ==> order.contains(
            #[trigger] q.atoms@[i].vars@[k],
        )
}

/// `idx` indexes the query's atoms, one by one.
pub open spec fn indexes_query(
    idx: Seq<AtomIndex>,
    q: &Query,
    db: Seq<Relation>,
    order: Seq<VarId>,
) -> bool {
    &&& idx.len() == q.atoms@.len()
    &&& forall|i: int|
        0 <= i < idx.len() ==> indexes(
            &(#[trigger] idx[i]),
            q.atoms@[i].vars@,
            tuples_of(db, q.atoms@[i].rel),
            order,
        )
}

pub fn index_query(q: &Query, db: &Database, order: &[VarId]) -> (idx: Vec<AtomIndex>)
    requires
        is_ordering(order@),
        covers(q, order@),
        wide_enough(q, db@),
    ensures
        indexes_query(idx@, q, db@, order@),
{
    let mut idx: Vec<AtomIndex> = Vec::new();
    for i in 0..q.atoms.len()
        invariant
            is_ordering(order@),
            covers(q, order@),
            wide_enough(q, db@),
            idx@.len() == i,
            forall|j: int|
                0 <= j < i ==> indexes(
                    &(#[trigger] idx@[j]),
                    q.atoms@[j].vars@,
                    tuples_of(db@, q.atoms@[j].rel),
                    order@,
                ),
    {
        let a = &q.atoms[i];
        let s = a.rel as usize;
        proof {
            assert forall|k: int| 0 <= k < a.vars@.len()
                implies order@.contains(#[trigger] a.vars@[k]) by {
                assert(order@.contains(q.atoms@[i as int].vars@[k]));
            }
        }
        if s < db.len() {
            proof {
                assert forall|j: int| 0 <= j < db@[s as int].tuples@.len()
                    implies (#[trigger] db@[s as int].tuples@[j])@.len()
                    >= a.vars@.len() by {
                    let ts = tuples_of(db@, q.atoms@[i as int].rel);
                    assert(ts[j] == db@[s as int].tuples@[j]@);
                    assert(ts.contains(ts[j]));
                }
            }
            let ix = index_atom(&db[s], a, order);
            idx.push(ix);
        } else {
            let none = Relation { arity: a.vars.len(), tuples: Vec::new() };
            let ix = index_atom(&none, a, order);
            assert(tuple_values(none) =~= tuples_of(db@, a.rel));
            idx.push(ix);
        }
    }
    idx
}

/// The assignment satisfies every atom of the query.
pub open spec fn satisfies(q: &Query, db: Seq<Relation>, s: Seq<Id>) -> bool {
    forall|i: int|
        0 <= i < q.atoms@.len() ==> atom_holds(
            tuples_of(db, (#[trigger] q.atoms@[i]).rel),
            q.atoms@[i].vars@,
            s,
        )
}

} // verus!
