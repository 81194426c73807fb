//! E-graph generators, seeded where they draw.

use crate::egraph::egraph;
use crate::egraph::egraph::EGraph;
use crate::egraph::join;
use crate::egraph::nodes;
use crate::egraph::nodes::{ENode, Id, NodeMap, Sym};
use crate::egraph::relational;
use crate::egraph::relational::{Database, Relation};
use crate::math;
use crate::rng;
use crate::text;
use vstd::prelude::*;
use vstd::string::*;

verus! {

/// Every key of the table is an e-node of some class.
pub open spec fn table_listed(g: &EGraph) -> bool {
    forall|k: nodes::Key| #[trigger] g.memo().contains_key(k) ==> exists|c: int| g.holds(c, k)
}

/// Classes that list as many e-nodes count alike.
proof fn lemma_counts_same(g: &EGraph, h: &EGraph, n: nat)
    requires
        forall|c: int|
            0 <= c < n ==> #[trigger] g.listed(c).len() == h.listed(c).len(),
    ensures
        g.node_count(n) == h.node_count(n),
    decreases n,
{
    if n > 0 {
        lemma_counts_same(g, h, (n - 1) as nat);
        assert(g.listed(n - 1).len() == h.listed(n - 1).len());
    }
}

/// One e-node more in one class is one more in all.
proof fn lemma_counts_one_more(g: &EGraph, h: &EGraph, at: int, n: nat)
    requires
        0 <= at < n,
        h.listed(at).len() == g.listed(at).len() + 1,
        forall|c: int|
            0 <= c < n && c != at ==> #[trigger] g.listed(c).len() == h.listed(c).len(),
    ensures
        h.node_count(n) == g.node_count(n) + 1,
    decreases n,
{
    if at == n - 1 {
        lemma_counts_same(g, h, (n - 1) as nat);
    } else {
        lemma_counts_one_more(g, h, at, (n - 1) as nat);
        assert(g.listed(n - 1).len() == h.listed(n - 1).len());
    }
}

/// `h` is `g` with e-node `k` put into class `class`: a new class where
/// `fresh`, else one that there is.
spec fn hung(g: &EGraph, h: &EGraph, class: Id, fresh: bool, k: nodes::Key) -> bool {
    &&& h.well_formed()
    &&& h.names() == g.names()
    &&& h.len() == g.len() + 1
    &&& fresh ==> class == g.len()
    &&& forall|x: int| 0 <= x < g.len() ==> #[trigger] h.reps()[x] == g.reps()[x]
    &&& h.reps()[g.len() as int] == class
    &&& forall|c: int, q: nodes::Key| #[trigger]
        h.holds(c, q) <==> g.holds(c, q) || (c == class && q == k)
    &&& forall|c: int| 0 <= c < h.len() ==> (#[trigger] h.listed(c)).no_duplicates()
    &&& table_listed(h)
    &&& h.node_count(h.len()) == g.node_count(g.len()) + 1
    &&& egraph::class_count(h) == egraph::class_count(g) + (if fresh {
        1nat
    } else {
        0
    })
}

/// The e-node is in no class yet, and its children name themselves.
spec fn can_hang(g: &EGraph, k: nodes::Key) -> bool {
    &&& g.well_formed()
    &&& forall|c: int| 0 <= c < g.len() ==> (#[trigger] g.listed(c)).no_duplicates()
    &&& table_listed(g)
    &&& g.in_range(k)
    &&& g.canonical(k) == k
    &&& forall|c: int| !#[trigger] g.holds(c, k)
}

/// Adds an e-node that is not there yet, and merges its class into `class`
/// unless that is yet to be made.
fn hang(g: &mut EGraph, class: Id, fresh: bool, op: Sym, children: &[Id]) -> (r: Id)
    requires
        can_hang(old(g), (op, children@)),
        old(g).len() < u32::MAX,
        !fresh ==> class < old(g).len() && old(g).rep(class) == class,
    ensures
        hung(old(g), final(g), r, fresh, (op, children@)),
        !fresh ==> r == class,
{
    let ghost g0 = *g;
    let ghost k = (op, children@);
    let x = g.add(op, children);
    let ghost g1 = *g;
    proof {
        g0.lemma_well_formed();
        g1.lemma_well_formed();
        if g0.memo().contains_key(k) {
            let c = choose|c: int| g0.holds(c, k);
            assert(g0.holds(c, k));
        }
        assert(g1.listed(x as int) == seq![k]);
        assert forall|c: int, q: nodes::Key| #[trigger] g1.holds(c, q) <==> g0.holds(c, q) || (c == x && q == k) by {
            if c == x {
                assert(seq![k][0] == k);
            } else if 0 <= c < g0.len() {
                assert(g1.listed(c) == g0.listed(c));
            }
        }
        assert forall|c: int| 0 <= c < g1.len() implies (#[trigger] g1.listed(c)).no_duplicates() by {
            if c < g0.len() {
                assert(g1.listed(c) == g0.listed(c));
            }
        }
        assert forall|c: int| 0 <= c < g0.len()
            implies #[trigger] g0.listed(c).len() == g1.listed(c).len() by {
            assert(g1.listed(c) == g0.listed(c));
        }
        lemma_counts_same(&g0, &g1, g0.len());
        let p0 = egraph::is_root(g0.reps());
        let p1 = egraph::is_root(g1.reps());
        assert forall|u: int| 0 <= u < g0.len() implies #[trigger] p0(u) == p1(u) by {
            assert(g1.reps()[u] == g0.reps()[u]);
        }
        math::lemma_count_same(g0.len(), p0, p1);
        assert(p1(x as int));
        assert(table_listed(&g1)) by {
            assert forall|q: nodes::Key| #[trigger] g1.memo().contains_key(q)
                implies exists|c: int| g1.holds(c, q) by {
                if q == k {
                    assert(g1.holds(x as int, k));
                } else {
                    assert(g0.memo().contains_key(q));
                    let c = choose|c: int| g0.holds(c, q);
                    assert(g1.holds(c, q));
                }
            }
        }
    }
    if fresh {
        return x;
    }
    g.union(class, x);
    proof {
        let h = *g;
        h.lemma_well_formed();
        assert(g1.rep(class) == class && g1.rep(x) == x);
        assert(g0.reps().len() == g0.len());
        assert forall|u: int| 0 <= u < g0.len() implies #[trigger] h.reps()[u] == g0.reps()[u] by {
            assert(g1.reps()[u] == g0.reps()[u]);
            assert(g0.reps()[u] < g0.len());
        }
        assert(h.listed(class as int) =~= g1.listed(class as int).push(k));
        assert(h.listed(x as int) =~= Seq::empty());
        assert forall|c: int, q: nodes::Key| #[trigger] h.holds(c, q) <==> g0.holds(c, q) || (c == class && q == k) by {
            if c == class {
                let l1 = g1.listed(c);
                let l = h.listed(c);
                if l1.contains(q) {
                    let i = choose|i: int| 0 <= i < l1.len() && l1[i] == q;
                    assert(l[i] == q);
                }
                if l.contains(q) {
                    let i = choose|i: int| 0 <= i < l.len() && l[i] == q;
                    if i < l1.len() {
                        assert(l1[i] == q);
                    }
                }
                assert(l[l1.len() as int] == k);
                assert(g1.holds(c, q) <==> l1.contains(q));
            } else if 0 <= c < h.len() && c != x {
                assert(h.listed(c) == g1.listed(c));
                assert(g1.holds(c, q) <==> g0.holds(c, q));
            } else if c == x {
                assert(!h.listed(c).contains(q));
                assert(!g0.holds(c, q));
            }
        }
        assert forall|c: int| 0 <= c < h.len() implies (#[trigger] h.listed(c)).no_duplicates() by {
            if c == class {
                let l1 = g1.listed(c);
                assert(!l1.contains(k)) by {
                    assert(g1.holds(c, k) <==> g0.holds(c, k));
                    assert(!g0.holds(c, k));
                }
                assert(l1.no_duplicates());
                assert forall|i: int, j: int| 0 <= i < h.listed(c).len() && 0 <= j < h.listed(c).len() && i != j
                    implies h.listed(c)[i] != h.listed(c)[j] by {
                    if i == l1.len() {
                        assert(l1.contains(l1[j]));
                    } else if j == l1.len() {
                        assert(l1.contains(l1[i]));
                    }
                }
            } else if c != x {
                assert(h.listed(c) == g1.listed(c));
            }
        }
        assert forall|c: int| 0 <= c < g0.len() && c != class
            implies #[trigger] g0.listed(c).len() == h.listed(c).len() by {
            assert(h.listed(c) == g1.listed(c));
            assert(g1.listed(c) == g0.listed(c));
        }
        assert(g1.listed(class as int) == g0.listed(class as int));
        lemma_counts_one_more(&g0, &h, class as int, g0.len());
        assert(table_listed(&h)) by {
            assert forall|q: nodes::Key| #[trigger] h.memo().contains_key(q)
                implies exists|c: int| h.holds(c, q) by {
                let c = choose|c: int| g1.holds(c, q);
                assert(g1.holds(c, q));
                if c == x {
                    assert(h.holds(class as int, q));
                } else {
                    assert(g0.holds(c, q));
                    assert(h.holds(c, q));
                }
            }
        }
        let p0 = egraph::is_root(g0.reps());
        let p = egraph::is_root(h.reps());
        assert forall|u: int| 0 <= u < g0.len() implies #[trigger] p0(u) == p(u) by {
            assert(h.reps()[u] == g0.reps()[u]);
        }
        math::lemma_count_same(g0.len(), p0, p);
        assert(h.reps()[x as int] == class);
        assert(!p(x as int));
    }
    class
}

/// The key of constant number `i`.
pub open spec fn leaf_key(i: int) -> nodes::Key {
    ((i + 2) as Sym, Seq::empty())
}

pub open spec fn g_key(leaf: Id) -> nodes::Key {
    (1, seq![leaf])
}

pub open spec fn f_key(leaf: Id, ig: Id) -> nodes::Key {
    (0, seq![leaf, ig])
}

/// `f`, `g`, then the constants.
pub open spec fn figure_names(n: nat) -> Seq<Seq<char>> {
    Seq::new(
        n + 2,
        |i: int|
            if i == 0 {
                seq!['f']
            } else if i == 1 {
                seq!['g']
            } else {
                text::label('c', (i - 2) as nat)
            },
    )
}

pub open spec fn is_leaf(leaves: Seq<Id>, c: int, k: nodes::Key) -> bool {
    exists|i: int| 0 <= i < leaves.len() && #[trigger] leaves[i] == c && k == leaf_key(i)
}

pub open spec fn is_g(leaves: Seq<Id>, ng: int, k: nodes::Key) -> bool {
    exists|i: int| 0 <= i < ng && k == g_key(#[trigger] leaves[i])
}

pub open spec fn is_f(leaves: Seq<Id>, nf: int, ig: Id, k: nodes::Key) -> bool {
    exists|i: int| 0 <= i < nf && k == f_key(#[trigger] leaves[i], ig)
}

/// Class `c` lists `k` in the figure: the constants in classes of their own,
/// `g` of the first `ng` of them in class `ig`, `f` of the first `nf` of them
/// and `ig` in class `iff`.
pub open spec fn in_figure(
    leaves: Seq<Id>,
    ig: Id,
    ng: int,
    iff: Id,
    nf: int,
    c: int,
    k: nodes::Key,
) -> bool {
    ||| is_leaf(leaves, c, k)
    ||| (c == ig && is_g(leaves, ng, k))
    ||| (c == iff && is_f(leaves, nf, ig, k))
}

/// The e-graph holds the figure as far as it is drawn, and nothing else.
pub open spec fn sketch(g: &EGraph, leaves: Seq<Id>, ig: Id, ng: int, iff: Id, nf: int) -> bool {
    &&& g.well_formed()
    &&& 0 <= nf <= ng <= leaves.len()
    &&& g.len() == leaves.len() + ng + nf
    &&& forall|c: int, k: nodes::Key| #[trigger]
        g.holds(c, k) <==> in_figure(leaves, ig, ng, iff, nf, c, k)
    &&& forall|c: int| 0 <= c < g.len() ==> (#[trigger] g.listed(c)).no_duplicates()
    &&& table_listed(g)
    &&& leaves.no_duplicates()
    &&& forall|i: int|
        0 <= i < leaves.len() ==> (#[trigger] leaves[i]) < g.len() && g.rep(leaves[i]) == leaves[i]
    &&& ng > 0 ==> ig < g.len() && g.rep(ig) == ig && !leaves.contains(ig)
    &&& nf > 0 ==> iff < g.len() && g.rep(iff) == iff && !leaves.contains(iff) && iff != ig
    &&& g.node_count(g.len()) == leaves.len() + ng + nf
    &&& egraph::class_count(g) == leaves.len() + (if ng > 0 {
        1nat
    } else {
        0
    }) + (if nf > 0 {
        1nat
    } else {
        0
    })
}

/// Children in the figure name themselves, and a key has one class.
proof fn lemma_figure(g: &EGraph, leaves: Seq<Id>, ig: Id, ng: int, iff: Id, nf: int)
    requires
        sketch(g, leaves, ig, ng, iff, nf),
        leaves.len() + 2 <= u32::MAX,
    ensures
        forall|c: int, k: nodes::Key| #[trigger] g.holds(c, k) ==> g.canonical(k) == k,
        forall|c: int, d: int, k: nodes::Key| #[trigger]
            g.holds(c, k) && #[trigger] g.holds(d, k) ==> c == d,
{
    assert forall|c: int, k: nodes::Key| #[trigger] g.holds(c, k) implies g.canonical(k) == k by {
        assert(in_figure(leaves, ig, ng, iff, nf, c, k));
        assert(g.canonical(k).1 =~= k.1) by {
            assert forall|j: int| 0 <= j < k.1.len()
                implies #[trigger] g.canonical(k).1[j] == k.1[j] by {
                if c == ig && is_g(leaves, ng, k) {
                    let i = choose|i: int| 0 <= i < ng && k == g_key(#[trigger] leaves[i]);
                    assert(k.1[j] == leaves[i]);
                } else if c == iff && is_f(leaves, nf, ig, k) {
                    let i = choose|i: int| 0 <= i < nf && k == f_key(#[trigger] leaves[i], ig);
                    assert(k.1[j] == leaves[i] || k.1[j] == ig);
                } else {
                    let i = choose|i: int|
                        0 <= i < leaves.len() && #[trigger] leaves[i] == c && k == leaf_key(i);
                    assert(k.1.len() == 0);
                }
            }
        }
    }
    assert forall|c: int, d: int, k: nodes::Key| #[trigger] g.holds(c, k) && #[trigger] g.holds(d, k)
        implies c == d by {
        assert(in_figure(leaves, ig, ng, iff, nf, c, k));
        assert(in_figure(leaves, ig, ng, iff, nf, d, k));
        if is_leaf(leaves, c, k) {
            let i = choose|i: int|
                0 <= i < leaves.len() && #[trigger] leaves[i] == c && k == leaf_key(i);
            assert(k.0 >= 2);
            let j = choose|j: int|
                0 <= j < leaves.len() && #[trigger] leaves[j] == d && k == leaf_key(j);
            assert(k == leaf_key(i) && k == leaf_key(j));
        } else if is_g(leaves, ng, k) {
            assert(k.0 == 1);
            if is_leaf(leaves, d, k) {
                let j = choose|j: int|
                    0 <= j < leaves.len() && #[trigger] leaves[j] == d && k == leaf_key(j);
                assert(k == leaf_key(j));
            }
        } else {
            assert(k.0 == 0);
            if is_leaf(leaves, d, k) {
                let j = choose|j: int|
                    0 <= j < leaves.len() && #[trigger] leaves[j] == d && k == leaf_key(j);
                assert(k == leaf_key(j));
            }
        }
    }
}

/// Lists of the same things, each once, are of one length.
proof fn lemma_same_len(a: Seq<nodes::Key>, b: Seq<nodes::Key>)
    requires
        a.no_duplicates(),
        b.no_duplicates(),
        forall|k: nodes::Key| #[trigger] a.contains(k) <==> b.contains(k),
    ensures
        a.len() == b.len(),
{
    a.unique_seq_to_set();
    b.unique_seq_to_set();
    assert(a.to_set() =~= b.to_set());
}

/// What `rebuild` promises of the classes and their e-nodes.
spec fn rebuilt_from(g: &EGraph, h: &EGraph) -> bool {
    &&& h.well_formed()
    &&& h.rebuilt()
    &&& h.len() == g.len()
    &&& egraph::congruent(g, g.reps()) ==> h.reps() == g.reps()
    &&& forall|c: int, k: nodes::Key| #[trigger]
        h.holds(c, k) ==> exists|c0: int, k0: nodes::Key| #[trigger]
            g.holds(c0, k0) && h.reps()[c0] == c && h.canonical(k0) == k
    &&& forall|c: int, k: nodes::Key| #[trigger]
        g.holds(c, k) ==> h.holds(h.reps()[c] as int, h.canonical(k))
}

/// Where every e-node is canonical and in one class, rebuilding changes
/// nothing but the table.
proof fn lemma_rebuild_settled(g: &EGraph, h: &EGraph)
    requires
        g.well_formed(),
        forall|c: int, k: nodes::Key| #[trigger] g.holds(c, k) ==> g.canonical(k) == k,
        forall|c: int, d: int, k: nodes::Key| #[trigger]
            g.holds(c, k) && #[trigger] g.holds(d, k) ==> c == d,
        forall|c: int| 0 <= c < g.len() ==> (#[trigger] g.listed(c)).no_duplicates(),
        rebuilt_from(g, h),
    ensures
        h.reps() == g.reps(),
        forall|c: int, k: nodes::Key| #[trigger] h.holds(c, k) <==> g.holds(c, k),
        h.node_count(h.len()) == g.node_count(g.len()),
        table_listed(h),
{
    g.lemma_well_formed();
    assert(egraph::congruent(g, g.reps())) by {
        assert forall|c: int, k: nodes::Key, d: int, q: nodes::Key| #[trigger] g.holds(c, k) && #[trigger] g.holds(d, q)
            && egraph::relabel(k, g.reps()) == egraph::relabel(q, g.reps())
                implies g.reps()[c] == g.reps()[d] by {
            assert(g.canonical(k) == k && g.canonical(q) == q);
            assert(g.holds(d, k));
        }
    }
    assert forall|c: int, k: nodes::Key| #[trigger] h.holds(c, k) <==> g.holds(c, k) by {
        if h.holds(c, k) {
            let (c0, k0) = choose|c0: int, k0: nodes::Key| #[trigger]
                g.holds(c0, k0) && h.reps()[c0] == c && h.canonical(k0) == k;
            assert(g.canonical(k0) == k0);
            assert(g.reps()[c0] == c0);
        }
        if g.holds(c, k) {
            assert(g.canonical(k) == k);
            assert(g.reps()[c] == c);
        }
    }
    assert forall|c: int| 0 <= c < g.len()
        implies #[trigger] g.listed(c).len() == h.listed(c).len() by {
        assert forall|k: nodes::Key| #[trigger] g.listed(c).contains(k) <==> h.listed(c).contains(k) by {
            assert(g.holds(c, k) <==> h.holds(c, k));
        }
        assert(h.listed(c).no_duplicates());
        lemma_same_len(g.listed(c), h.listed(c));
    }
    lemma_counts_same(g, h, g.len());
    assert(table_listed(h)) by {
        assert forall|k: nodes::Key| #[trigger] h.memo().contains_key(k)
            implies exists|c: int| h.holds(c, k) by {
            assert(h.holds(h.memo()[k] as int, k));
        }
    }
}

/// One constant more.
proof fn lemma_leaf_step(
    g: &EGraph,
    h: &EGraph,
    leaves: Seq<Id>,
    ig: Id,
    ng: int,
    iff: Id,
    nf: int,
    x: Id,
)
    requires
        sketch(g, leaves, ig, ng, iff, nf),
        leaves.len() + 2 < u32::MAX,
        hung(g, h, x, true, leaf_key(leaves.len() as int)),
    ensures
        sketch(h, leaves.push(x), ig, ng, iff, nf),
{
    let more = leaves.push(x);
    let n = leaves.len() as int;
    assert forall|c: int, k: nodes::Key| #[trigger] h.holds(c, k) <==> in_figure(more, ig, ng, iff, nf, c, k) by {
        assert(h.holds(c, k) <==> in_figure(leaves, ig, ng, iff, nf, c, k) || (c == x && k
            == leaf_key(n)));
        lemma_leaf_more(leaves, x, ig, ng, iff, nf, c, k);
    }
    assert forall|i: int| 0 <= i < more.len()
        implies (#[trigger] more[i]) < h.len() && h.rep(more[i]) == more[i] by {
        if i < n {
            assert(more[i] == leaves[i]);
            assert(h.reps()[leaves[i] as int] == g.reps()[leaves[i] as int]);
        }
    }
    assert(forall|y: Id| #[trigger] more.contains(y) ==> leaves.contains(y) || y == x) by {
        assert forall|y: Id| #[trigger] more.contains(y) implies leaves.contains(y) || y == x by {
            let i = choose|i: int| 0 <= i < more.len() && more[i] == y;
            if i < n {
                assert(leaves[i] == y);
            }
        }
    }
    assert(more.no_duplicates());
    assert(ng > 0 ==> h.reps()[ig as int] == g.reps()[ig as int]);
    assert(nf > 0 ==> h.reps()[iff as int] == g.reps()[iff as int]);
}

proof fn lemma_leaf_more(
    leaves: Seq<Id>,
    x: Id,
    ig: Id,
    ng: int,
    iff: Id,
    nf: int,
    c: int,
    k: nodes::Key,
)
    requires
        0 <= nf <= ng <= leaves.len(),
    ensures
        in_figure(leaves.push(x), ig, ng, iff, nf, c, k) <==> in_figure(
            leaves,
            ig,
            ng,
            iff,
            nf,
            c,
            k,
        ) || (c == x && k == leaf_key(leaves.len() as int)),
{
    let more = leaves.push(x);
    let n = leaves.len() as int;
    if is_leaf(more, c, k) {
        let i = choose|i: int| 0 <= i < more.len() && #[trigger] more[i] == c && k == leaf_key(i);
        if i < n {
            assert(leaves[i] == c);
        }
    }
    if is_leaf(leaves, c, k) {
        let i = choose|i: int| 0 <= i < n && #[trigger] leaves[i] == c && k == leaf_key(i);
        assert(more[i] == c);
    }
    assert(more[n] == x);
    if is_g(more, ng, k) {
        let i = choose|i: int| 0 <= i < ng && k == g_key(#[trigger] more[i]);
        assert(leaves[i] == more[i]);
    }
    if is_g(leaves, ng, k) {
        let i = choose|i: int| 0 <= i < ng && k == g_key(#[trigger] leaves[i]);
        assert(leaves[i] == more[i]);
    }
    if is_f(more, nf, ig, k) {
        let i = choose|i: int| 0 <= i < nf && k == f_key(#[trigger] more[i], ig);
        assert(leaves[i] == more[i]);
    }
    if is_f(leaves, nf, ig, k) {
        let i = choose|i: int| 0 <= i < nf && k == f_key(#[trigger] leaves[i], ig);
        assert(leaves[i] == more[i]);
    }
}

/// A key that the figure does not hold can be hung into it.
proof fn lemma_can_hang(
    g: &EGraph,
    leaves: Seq<Id>,
    ig: Id,
    ng: int,
    iff: Id,
    nf: int,
    k: nodes::Key,
)
    requires
        sketch(g, leaves, ig, ng, iff, nf),
        leaves.len() + 2 < u32::MAX,
        ({
            ||| k == leaf_key(leaves.len() as int)
            ||| (ng < leaves.len() && k == g_key(leaves[ng]))
            ||| (nf < ng && k == f_key(leaves[nf], ig))
        }),
    ensures
        can_hang(g, k),
{
    assert(g.canonical(k).1 =~= k.1);
    assert forall|c: int| !#[trigger] g.holds(c, k) by {
        if g.holds(c, k) {
            assert(in_figure(leaves, ig, ng, iff, nf, c, k));
            if is_leaf(leaves, c, k) {
                let i = choose|i: int|
                    0 <= i < leaves.len() && #[trigger] leaves[i] == c && k == leaf_key(i);
                assert(k == leaf_key(i));
            } else if is_g(leaves, ng, k) {
                let i = choose|i: int| 0 <= i < ng && k == g_key(#[trigger] leaves[i]);
                assert(k.1[0] == leaves[i]);
            } else {
                let i = choose|i: int| 0 <= i < nf && k == f_key(#[trigger] leaves[i], ig);
                assert(k.1[0] == leaves[i]);
            }
        }
    }
}

/// One `g` more.
proof fn lemma_g_step(
    g: &EGraph,
    h: &EGraph,
    leaves: Seq<Id>,
    ig: Id,
    ng: int,
    iff: Id,
    nf: int,
    x: Id,
)
    requires
        sketch(g, leaves, ig, ng, iff, nf),
        ng < leaves.len(),
        leaves.len() + 2 < u32::MAX,
        nf > 0 ==> ng > 0,
        hung(g, h, x, ng == 0, g_key(leaves[ng])),
        ng > 0 ==> x == ig,
    ensures
        sketch(h, leaves, x, ng + 1, iff, nf),
{
    assert forall|c: int, k: nodes::Key| #[trigger] h.holds(c, k) <==> in_figure(leaves, x, ng + 1, iff, nf, c, k) by {
        assert(h.holds(c, k) <==> in_figure(leaves, ig, ng, iff, nf, c, k) || (c == x && k == g_key(leaves[ng])));
        if is_g(leaves, ng + 1, k) {
            let i = choose|i: int| 0 <= i < ng + 1 && k == g_key(#[trigger] leaves[i]);
            if i < ng {
                assert(is_g(leaves, ng, k));
            }
        }
        if is_g(leaves, ng, k) {
            let i = choose|i: int| 0 <= i < ng && k == g_key(#[trigger] leaves[i]);
            assert(is_g(leaves, ng + 1, k));
        }
        if k == g_key(leaves[ng]) {
            assert(is_g(leaves, ng + 1, k));
        }
    }
    assert forall|i: int| 0 <= i < leaves.len()
        implies (#[trigger] leaves[i]) < h.len() && h.rep(leaves[i]) == leaves[i] by {
        assert(h.reps()[leaves[i] as int] == g.reps()[leaves[i] as int]);
    }
    assert(!leaves.contains(x)) by {
        if ng == 0 && leaves.contains(x) {
            let i = choose|i: int| 0 <= i < leaves.len() && leaves[i] == x;
            assert(leaves[i] < g.len());
        }
    }
    assert(ng > 0 ==> h.reps()[ig as int] == g.reps()[ig as int]);
    assert(nf > 0 ==> h.reps()[iff as int] == g.reps()[iff as int]);
}

/// One `f` more.
proof fn lemma_f_step(
    g: &EGraph,
    h: &EGraph,
    leaves: Seq<Id>,
    ig: Id,
    ng: int,
    iff: Id,
    nf: int,
    x: Id,
)
    requires
        sketch(g, leaves, ig, ng, iff, nf),
        nf < ng,
        leaves.len() + 2 < u32::MAX,
        hung(g, h, x, nf == 0, f_key(leaves[nf], ig)),
        nf > 0 ==> x == iff,
    ensures
        sketch(h, leaves, ig, ng, x, nf + 1),
{
    assert forall|c: int, k: nodes::Key| #[trigger] h.holds(c, k) <==> in_figure(leaves, ig, ng, x, nf + 1, c, k) by {
        assert(h.holds(c, k) <==> in_figure(leaves, ig, ng, iff, nf, c, k) || (c == x && k == f_key(leaves[nf], ig)));
        if is_f(leaves, nf + 1, ig, k) {
            let i = choose|i: int| 0 <= i < nf + 1 && k == f_key(#[trigger] leaves[i], ig);
            if i < nf {
                assert(is_f(leaves, nf, ig, k));
            }
        }
        if is_f(leaves, nf, ig, k) {
            let i = choose|i: int| 0 <= i < nf && k == f_key(#[trigger] leaves[i], ig);
            assert(is_f(leaves, nf + 1, ig, k));
        }
        if k == f_key(leaves[nf], ig) {
            assert(is_f(leaves, nf + 1, ig, k));
        }
    }
    assert forall|i: int| 0 <= i < leaves.len()
        implies (#[trigger] leaves[i]) < h.len() && h.rep(leaves[i]) == leaves[i] by {
        assert(h.reps()[leaves[i] as int] == g.reps()[leaves[i] as int]);
    }
    assert(!leaves.contains(x)) by {
        if nf == 0 && leaves.contains(x) {
            let i = choose|i: int| 0 <= i < leaves.len() && leaves[i] == x;
            assert(leaves[i] < g.len());
        }
    }
    assert(h.reps()[ig as int] == g.reps()[ig as int]);
    assert(nf > 0 ==> h.reps()[iff as int] == g.reps()[iff as int]);
}

/// `n` constants, one class that holds `g(1)..g(n)`, one class that holds
/// `f(1, ig)..f(n, ig)`: `3n` e-nodes in `n + 2` e-classes.
///
/// The e-graph is linear in `n` and the set of terms that it stands for is
/// quadratic, so a matcher that enumerates terms has already lost.
pub struct Fig2 {
    pub g: EGraph,
    pub f: Sym,
    pub gs: Sym,
    pub ig: Id,
    pub iff: Id,
    pub n: usize,
}

/// Every id of `g` is there in `h`, in the class that it was in.
pub open spec fn keeps_ids(g: &EGraph, h: &EGraph) -> bool {
    &&& g.len() <= h.len()
    &&& forall|x: Id| x < g.len() ==> #[trigger] h.rep(x) == g.rep(x)
}

proof fn lemma_keeps(g: &EGraph, h: &EGraph, after: &EGraph)
    requires
        keeps_ids(g, h),
        h.len() <= after.len(),
        forall|x: int| 0 <= x < h.len() ==> #[trigger] after.reps()[x] == h.reps()[x],
    ensures
        keeps_ids(g, after),
{
    assert forall|x: Id| x < g.len() implies #[trigger] after.rep(x) == g.rep(x) by {
        assert(h.rep(x) == g.rep(x));
        assert(after.reps()[x as int] == h.reps()[x as int]);
    }
}

/// The classes are numbered from 0 on.
spec fn numbered(leaves: Seq<Id>) -> bool {
    forall|i: int| 0 <= i < leaves.len() ==> #[trigger] leaves[i] == i
}

impl Fig2 {
    /// The classes of the constants.
    pub open spec fn leaves(&self) -> Seq<Id> {
        Seq::new(self.n as nat, |i: int| self.g.memo()[leaf_key(i)])
    }

    pub open spec fn well_formed(&self) -> bool {
        &&& self.n > 0
        &&& self.f == 0
        &&& self.gs == 1
        &&& self.g.names() == figure_names(self.n as nat)
        &&& self.g.rebuilt()
        &&& sketch(&self.g, self.leaves(), self.ig, self.n as int, self.iff, self.n as int)
    }

    pub fn new(n: usize) -> (fig: Fig2)
        requires
            0 < n,
            3 * n + 3 <= u32::MAX,
        ensures
            fig.well_formed(),
            fig.n == n,
            forall|i: int| 0 <= i < n ==> #[trigger] fig.leaves()[i] == i,
            fig.ig == n,
            fig.iff == 2 * n,
    {
        let mut g = EGraph::new();
        let f = g.sym("f");
        let gs = g.sym("g");
        proof {
            reveal_strlit("f");
            reveal_strlit("g");
            assert("f"@ =~= seq!['f']);
            assert("g"@ =~= seq!['g']);
            assert(seq!['f'][0] != seq!['g'][0]);
            let one = Seq::<Seq<char>>::empty().push(seq!['f']);
            if one.contains(seq!['g']) {
                let i = choose|i: int| 0 <= i < one.len() && one[i] == seq!['g'];
                assert(one[i] == seq!['f']);
            }
            assert(g.names() =~= figure_names(0));
            assert(g.names()[0] == seq!['f'] && g.names()[1] == seq!['g']);
        }
        let mut fig = Fig2 { g, f, gs, ig: 0, iff: 0, n: 0 };
        proof {
            let none = Seq::<Id>::empty();
            let h = fig.g;
            h.lemma_well_formed();
            assert(table_listed(&h)) by {
                assert forall|k: nodes::Key| #[trigger] h.memo().contains_key(k)
                    implies exists|c: int| h.holds(c, k) by {
                    assert(false);
                }
            }
            assert forall|c: int, k: nodes::Key| #[trigger] h.holds(c, k) <==> in_figure(none, 0, 0, 0, 0, c, k) by {}
        }
        fig.extend(n, true);
        fig
    }

    /// Adds `k` more constants, with their `g` and `f` e-nodes, into the same
    /// two e-classes. Every id stays what it was.
    pub fn grow(&mut self, k: usize)
        requires
            old(self).well_formed(),
            3 * (old(self).n + k) + 3 <= u32::MAX,
        ensures
            final(self).well_formed(),
            final(self).n == old(self).n + k,
            final(self).leaves().take(old(self).n as int) == old(self).leaves(),
            final(self).ig == old(self).ig,
            final(self).iff == old(self).iff,
            keeps_ids(&old(self).g, &final(self).g),
    {
        self.extend(k, false);
    }

    fn extend(&mut self, k: usize, first: bool)
        requires
            3 * (old(self).n + k) + 3 <= u32::MAX,
            old(self).f == 0,
            old(self).gs == 1,
            old(self).g.names() == figure_names(old(self).n as nat),
            first ==> old(self).n == 0 && k > 0,
            !first ==> old(self).n > 0,
            sketch(
                &old(self).g,
                old(self).leaves(),
                old(self).ig,
                old(self).n as int,
                old(self).iff,
                old(self).n as int,
            ),
        ensures
            final(self).well_formed(),
            final(self).n == old(self).n + k,
            final(self).leaves().take(old(self).n as int) == old(self).leaves(),
            !first ==> final(self).ig == old(self).ig && final(self).iff == old(self).iff,
            keeps_ids(&old(self).g, &final(self).g),
            first ==> numbered(final(self).leaves()) && final(self).ig == k && final(self).iff == 2
                * k,
    {
        let (f, gs) = (self.f, self.gs);
        let base = self.n;
        let n = base + k;
        let ghost before = self.leaves();
        let ghost mut all = before;
        let mut leaves: Vec<Id> = Vec::new();
        for i in base..n
            invariant
                n == base + k,
                3 * n + 3 <= u32::MAX,
                f == 0,
                gs == 1,
                self.f == f,
                self.gs == gs,
                self.n == base,
                self.ig == old(self).ig,
                self.iff == old(self).iff,
                before.len() == base,
                all == before + leaves@,
                all.len() == i,
                self.g.names() == figure_names(i as nat),
                sketch(&self.g, all, self.ig, base as int, self.iff, base as int),
                keeps_ids(&old(self).g, &self.g),
                first ==> base == 0 && numbered(all),
        {
            let mut name = "c".to_owned();
            let digits = text::decimal_of(i);
            name.append(digits.as_str());
            proof {
                reveal_strlit("c");
                assert(name@ =~= text::label('c', i as nat));
                text::lemma_label_len('c', i as nat);
                let names = figure_names(i as nat);
                if names.contains(name@) {
                    let j = choose|j: int| 0 <= j < names.len() && names[j] == name@;
                    if j >= 2 {
                        text::lemma_label_injective('c', (j - 2) as nat, i as nat);
                    } else {
                        assert(names[j].len() == 1);
                    }
                }
            }
            let ghost g0 = self.g;
            let s = self.g.sym(name.as_str());
            let ghost g1 = self.g;
            proof {
                assert(g1.names() =~= figure_names((i + 1) as nat));
                assert(s == i + 2) by {
                    if s < i + 2 {
                        assert(g1.names()[s as int] == g0.names()[s as int]);
                        assert(g0.names().contains(g0.names()[s as int]));
                    }
                }
                lemma_same_sketch(&g0, &g1, all, self.ig, base as int, self.iff, base as int);
                lemma_can_hang(
                    &g1,
                    all,
                    self.ig,
                    base as int,
                    self.iff,
                    base as int,
                    leaf_key(i as int),
                );
            }
            let none: Vec<Id> = Vec::new();
            assert(none@ =~= Seq::<Id>::empty());
            let x = hang(&mut self.g, 0, true, s, &none);
            proof {
                lemma_keeps(&old(self).g, &g0, &g1);
                lemma_keeps(&old(self).g, &g1, &self.g);
                lemma_leaf_step(
                    &g1,
                    &self.g,
                    all,
                    self.ig,
                    base as int,
                    self.iff,
                    base as int,
                    x,
                );
                all = all.push(x);
            }
            leaves.push(x);
            assert(all =~= before + leaves@);
        }
        for j in 0..leaves.len()
            invariant
                n == base + k,
                leaves@.len() == k,
                3 * n + 3 <= u32::MAX,
                f == 0,
                gs == 1,
                self.f == f,
                self.gs == gs,
                self.n == base,
                base == old(self).n,
                base > 0 || j > 0 || first,
                first == (base == 0),
                !first ==> self.ig == old(self).ig,
                self.iff == old(self).iff,
                before.len() == base,
                all == before + leaves@,
                self.g.names() == figure_names(n as nat),
                sketch(&self.g, all, self.ig, base + j, self.iff, base as int),
                keeps_ids(&old(self).g, &self.g),
                first ==> numbered(all),
                first && j > 0 ==> self.ig == n,
        {
            let mut children: Vec<Id> = Vec::new();
            children.push(leaves[j]);
            let ghost g0 = self.g;
            proof {
                assert(all[base + j] == leaves@[j as int]);
                assert(children@ =~= seq![all[base + j]]);
                lemma_can_hang(
                    &g0,
                    all,
                    self.ig,
                    base + j,
                    self.iff,
                    base as int,
                    g_key(all[base + j]),
                );
            }
            let ghost ig0 = self.ig;
            self.ig = hang(&mut self.g, self.ig, first && j == 0, gs, &children);
            proof {
                lemma_keeps(&old(self).g, &g0, &self.g);
                lemma_g_step(
                    &g0,
                    &self.g,
                    all,
                    ig0,
                    base + j,
                    self.iff,
                    base as int,
                    self.ig,
                );
            }
        }
        let ghost g2 = self.g;
        self.settle(Ghost(all), Ghost(n as int), Ghost(base as int));
        proof {
            lemma_keeps(&old(self).g, &g2, &self.g);
        }
        self.ig = self.g.find(self.ig);
        for j in 0..leaves.len()
            invariant
                n == base + k,
                leaves@.len() == k,
                3 * n + 3 <= u32::MAX,
                f == 0,
                gs == 1,
                self.f == f,
                self.gs == gs,
                self.n == base,
                base == old(self).n,
                first == (base == 0),
                !first ==> self.ig == old(self).ig && self.iff == old(self).iff,
                before.len() == base,
                all == before + leaves@,
                self.g.names() == figure_names(n as nat),
                sketch(&self.g, all, self.ig, n as int, self.iff, base + j),
                keeps_ids(&old(self).g, &self.g),
                first ==> numbered(all) && self.ig == n,
                first && j > 0 ==> self.iff == 2 * n,
        {
            let mut children: Vec<Id> = Vec::new();
            children.push(leaves[j]);
            children.push(self.ig);
            let ghost g0 = self.g;
            proof {
                assert(all[base + j] == leaves@[j as int]);
                assert(children@ =~= seq![all[base + j], self.ig]);
                lemma_can_hang(
                    &g0,
                    all,
                    self.ig,
                    n as int,
                    self.iff,
                    base + j,
                    f_key(all[base + j], self.ig),
                );
            }
            let ghost iff0 = self.iff;
            self.iff = hang(&mut self.g, self.iff, first && j == 0, f, &children);
            proof {
                lemma_keeps(&old(self).g, &g0, &self.g);
                lemma_f_step(&g0, &self.g, all, self.ig, n as int, iff0, base + j, self.iff);
            }
        }
        let ghost g3 = self.g;
        self.settle(Ghost(all), Ghost(n as int), Ghost(n as int));
        proof {
            lemma_keeps(&old(self).g, &g3, &self.g);
        }
        self.iff = self.g.find(self.iff);
        self.n = n;
        proof {
            assert(self.leaves() =~= all) by {
                assert forall|i: int| 0 <= i < n implies #[trigger] self.leaves()[i] == all[i] by {
                    assert(is_leaf(all, all[i] as int, leaf_key(i)));
                    assert(in_figure(
                        all,
                        self.ig,
                        n as int,
                        self.iff,
                        n as int,
                        all[i] as int,
                        leaf_key(i),
                    ));
                    assert(self.g.holds(all[i] as int, leaf_key(i)));
                }
            }
            assert(all.take(base as int) =~= before);
        }
    }

    fn settle(&mut self, all: Ghost<Seq<Id>>, ng: Ghost<int>, nf: Ghost<int>)
        requires
            sketch(&old(self).g, all@, old(self).ig, ng@, old(self).iff, nf@),
            all@.len() + 2 <= u32::MAX,
        ensures
            sketch(&final(self).g, all@, final(self).ig, ng@, final(self).iff, nf@),
            final(self).g.rebuilt(),
            final(self).g.len() == old(self).g.len(),
            final(self).g.reps() == old(self).g.reps(),
            final(self).g.names() == old(self).g.names(),
            final(self).f == old(self).f,
            final(self).gs == old(self).gs,
            final(self).ig == old(self).ig,
            final(self).iff == old(self).iff,
            final(self).n == old(self).n,
    {
        let ghost g = self.g;
        self.g.rebuild();
        proof {
            lemma_figure(&g, all@, self.ig, ng@, self.iff, nf@);
            lemma_rebuild_settled(&g, &self.g);
        }
    }
}

/// Growing the figure keeps every tuple of its database.
pub proof fn lemma_grown_keeps_tuples(
    fig: &Fig2,
    db: Seq<Relation>,
    grown: &Fig2,
    grown_db: Seq<Relation>,
    s: Sym,
    t: Seq<Id>,
)
    requires
        fig.well_formed(),
        grown.well_formed(),
        fig.n <= grown.n,
        3 * grown.n + 3 <= u32::MAX,
        grown.leaves().take(fig.n as int) == fig.leaves(),
        grown.ig == fig.ig,
        grown.iff == fig.iff,
        relational::is_database(&fig.g, db),
        relational::is_database(&grown.g, grown_db),
        relational::tuples_of(db, s).contains(t),
    ensures
        relational::tuples_of(grown_db, s).contains(t),
{
    let (g, h) = (&fig.g, &grown.g);
    assert(relational::tuples_of(db, s) == relational::graph_tuples(g, s, g.len()));
    assert(relational::tuples_of(grown_db, s) == relational::graph_tuples(h, s, h.len()));
    relational::lemma_database_tuples(g, s, t);
    relational::lemma_database_tuples(h, s, t);
    let (c, k) = choose|c: int, k: nodes::Key| #[trigger]
        g.holds(c, k) && k.0 == s && t == relational::tuple_for(g, c, k);
    let (a, b) = (fig.leaves(), grown.leaves());
    let (n, m) = (fig.n as int, grown.n as int);
    assert forall|i: int| 0 <= i < n implies #[trigger] a[i] == b[i] by {
        assert(b.take(n)[i] == b[i]);
    }
    assert(in_figure(a, fig.ig, n, fig.iff, n, c, k));
    assert(in_figure(b, grown.ig, m, grown.iff, m, c, k)) by {
        if is_leaf(a, c, k) {
            let i = choose|i: int| 0 <= i < a.len() && #[trigger] a[i] == c && k == leaf_key(i);
            assert(b[i] == c);
        } else if is_g(a, n, k) {
            let i = choose|i: int| 0 <= i < n && k == g_key(#[trigger] a[i]);
            assert(k == g_key(b[i]));
        } else {
            let i = choose|i: int| 0 <= i < n && k == f_key(#[trigger] a[i], fig.ig);
            assert(k == f_key(b[i], grown.ig));
        }
    }
    assert(h.holds(c, k));
    assert(g.canonical(k) == k && h.canonical(k) == k);
    assert(t == relational::tuple_for(h, c, k));
}

/// A sketch does not depend on the names.
proof fn lemma_same_sketch(
    g: &EGraph,
    h: &EGraph,
    leaves: Seq<Id>,
    ig: Id,
    ng: int,
    iff: Id,
    nf: int,
)
    requires
        sketch(g, leaves, ig, ng, iff, nf),
        h.same_graph(g),
        h.well_formed(),
    ensures
        sketch(h, leaves, ig, ng, iff, nf),
{
    assert forall|c: int, k: nodes::Key| #[trigger] h.holds(c, k) <==> g.holds(c, k) by {
        if 0 <= c < h.len() {
            assert(h.listed(c) == g.listed(c));
        }
    }
    assert forall|c: int| 0 <= c < h.len() implies (#[trigger] h.listed(c)).no_duplicates() by {
        assert(h.listed(c) == g.listed(c));
    }
    assert forall|c: int| 0 <= c < g.len()
        implies #[trigger] g.listed(c).len() == h.listed(c).len() by {
        assert(h.listed(c) == g.listed(c));
    }
    lemma_counts_same(g, h, g.len());
    assert(table_listed(h)) by {
        assert forall|k: nodes::Key| #[trigger] h.memo().contains_key(k)
            implies exists|c: int| h.holds(c, k) by {
            assert(g.memo().contains_key(k));
            let c = choose|c: int| g.holds(c, k);
            assert(h.holds(c, k));
        }
    }
}

/// The pairs that are kept: no loops, and each pair when it first comes.
pub open spec fn kept(pairs: Seq<(usize, usize)>) -> Seq<(usize, usize)>
    decreases pairs.len(),
{
    if pairs.len() == 0 {
        Seq::empty()
    } else {
        let before = kept(pairs.drop_last());
        let p = pairs.last();
        if p.0 == p.1 || before.contains(p) {
            before
        } else {
            before.push(p)
        }
    }
}

/// The e-node of an edge.
pub open spec fn edge_key(p: (usize, usize)) -> nodes::Key {
    (0, seq![p.0 as Id, p.1 as Id])
}

pub open spec fn vertex_key(v: int) -> nodes::Key {
    ((v + 1) as Sym, Seq::empty())
}

pub open spec fn edge_names(n: nat) -> Seq<Seq<char>> {
    Seq::new(
        n + 1,
        |i: int|
            if i == 0 {
                seq!['e']
            } else {
                text::label('v', (i - 1) as nat)
            },
    )
}

/// Id `c` lists `k`: a vertex below `n`, an edge from there on.
pub open spec fn in_edges(n: int, edges: Seq<(usize, usize)>, c: int, k: nodes::Key) -> bool {
    if c < n {
        0 <= c && k == vertex_key(c)
    } else {
        c < n + edges.len() && k == edge_key(edges[c - n])
    }
}

/// The e-graph of a directed graph: id `v` for vertex `v`, then one id for
/// each edge in order, and every id a class of its own.
pub open spec fn is_edge_graph(g: &EGraph, n: int, edges: Seq<(usize, usize)>) -> bool {
    &&& g.well_formed()
    &&& g.len() == n + edges.len()
    &&& forall|x: int| 0 <= x < g.len() ==> #[trigger] g.reps()[x] == x
    &&& forall|c: int, k: nodes::Key| #[trigger] g.holds(c, k) <==> in_edges(n, edges, c, k)
    &&& forall|c: int| 0 <= c < g.len() ==> (#[trigger] g.listed(c)).no_duplicates()
    &&& table_listed(g)
}

/// The edges are distinct pairs of distinct vertices.
pub open spec fn simple_edges(n: int, edges: Seq<(usize, usize)>) -> bool {
    &&& edges.no_duplicates()
    &&& forall|i: int|
        0 <= i < edges.len() ==> (#[trigger] edges[i]).0 < n && edges[i].1 < n && edges[i].0
            != edges[i].1
}

proof fn lemma_edges_settled(g: &EGraph, n: int, edges: Seq<(usize, usize)>)
    requires
        is_edge_graph(g, n, edges),
        simple_edges(n, edges),
        0 <= n,
        g.len() < u32::MAX,
    ensures
        forall|c: int, k: nodes::Key| #[trigger] g.holds(c, k) ==> g.canonical(k) == k,
        forall|c: int, d: int, k: nodes::Key| #[trigger]
            g.holds(c, k) && #[trigger] g.holds(d, k) ==> c == d,
{
    assert forall|c: int, k: nodes::Key| #[trigger] g.holds(c, k) implies g.canonical(k) == k by {
        assert(in_edges(n, edges, c, k));
        if c >= n {
            assert(edges[c - n].0 < n && edges[c - n].1 < n);
        }
        assert(g.canonical(k).1 =~= k.1);
    }
    assert forall|c: int, d: int, k: nodes::Key| #[trigger] g.holds(c, k) && #[trigger] g.holds(d, k)
        implies c == d by {
        assert(in_edges(n, edges, c, k));
        assert(in_edges(n, edges, d, k));
        if c >= n && d >= n {
            let a = edges[c - n];
            let b = edges[d - n];
            assert(k.1[0] == a.0 as Id && k.1[1] == a.1 as Id);
            assert(k.1[0] == b.0 as Id && k.1[1] == b.1 as Id);
            assert(a == b);
        }
    }
}

/// One id more: a vertex, or an edge.
proof fn lemma_edge_step(
    g: &EGraph,
    h: &EGraph,
    n: int,
    edges: Seq<(usize, usize)>,
    n2: int,
    edges2: Seq<(usize, usize)>,
    x: Id,
    k: nodes::Key,
)
    requires
        is_edge_graph(g, n, edges),
        0 <= n,
        hung(g, h, x, true, k),
        ({
            ||| (edges.len() == 0 && edges2 == edges && n2 == n + 1 && k == vertex_key(n))
            ||| (n2 == n && edges2.len() == edges.len() + 1 && edges2.drop_last() == edges && k
                == edge_key(edges2.last()))
        }),
    ensures
        is_edge_graph(h, n2, edges2),
{
    assert forall|c: int, q: nodes::Key| #[trigger] h.holds(c, q) <==> in_edges(n2, edges2, c, q) by {
        assert(h.holds(c, q) <==> g.holds(c, q) || (c == x && q == k));
        assert(g.holds(c, q) <==> in_edges(n, edges, c, q));
        if n2 == n && n <= c < n + edges.len() {
            assert(edges2.drop_last()[c - n] == edges2[c - n]);
        }
    }
    assert forall|u: int| 0 <= u < h.len() implies #[trigger] h.reps()[u] == u by {
        if u < g.len() {
            assert(h.reps()[u] == g.reps()[u]);
        }
    }
}

proof fn lemma_can_hang_edge(g: &EGraph, n: int, edges: Seq<(usize, usize)>, k: nodes::Key)
    requires
        is_edge_graph(g, n, edges),
        simple_edges(n, edges),
        0 <= n,
        g.len() < u32::MAX,
        ({
            ||| (edges.len() == 0 && k == vertex_key(n))
            ||| exists|p: (usize, usize)|
                k == #[trigger] edge_key(p) && p.0 < n && p.1 < n && !edges.contains(p)
        }),
    ensures
        can_hang(g, k),
{
    assert(g.canonical(k).1 =~= k.1);
    assert forall|c: int| !#[trigger] g.holds(c, k) by {
        if g.holds(c, k) {
            assert(in_edges(n, edges, c, k));
            if c >= n {
                let b = edges[c - n];
                if edges.len() == 0 && k == vertex_key(n) {
                } else {
                    let p = choose|p: (usize, usize)|
                        k == #[trigger] edge_key(p) && p.0 < n && p.1 < n && !edges.contains(p);
                    assert(k.1[0] == b.0 as Id && k.1[1] == b.1 as Id);
                    assert(k.1[0] == p.0 as Id && k.1[1] == p.1 as Id);
                    assert(b == p);
                    assert(edges.contains(edges[c - n]));
                }
            }
        }
    }
}

/// The edges that drawing `m` pairs of `n` vertices leaves.
pub open spec fn drawn_edges(seed: u64, n: usize, m: nat) -> Seq<(usize, usize)> {
    kept(rng::pair_draws(rng::seeded_words(seed), (0, n), (0, n), m).0)
}

/// A seeded directed graph as an e-graph: one nullary e-node per vertex, one
/// binary `e(x, y)` e-node per edge, no unions. Pairs are drawn until there
/// are enough; after `u64::MAX` draws the graph stays as it is.
pub fn edge_graph(vertices: usize, edges: usize, seed: u64) -> (r: (EGraph, Sym))
    requires
        vertices + edges + 1 < u32::MAX,
        edges <= vertices * (vertices - 1),
    ensures
        r.1 == 0,
        r.0.rebuilt(),
        r.0.names() == edge_names(vertices as nat),
        exists|m: nat|
            {
                &&& is_edge_graph(&r.0, vertices as int, #[trigger] drawn_edges(seed, vertices, m))
                &&& simple_edges(vertices as int, drawn_edges(seed, vertices, m))
                &&& drawn_edges(seed, vertices, m).len() <= edges
                &&& drawn_edges(seed, vertices, m).len() == edges || m == u64::MAX
                &&& m > 0 ==> drawn_edges(seed, vertices, (m - 1) as nat).len() < edges
            },
{
    let mut g = EGraph::new();
    let e = g.sym("e");
    let ghost none = Seq::<(usize, usize)>::empty();
    proof {
        reveal_strlit("e");
        assert("e"@ =~= seq!['e']);
        assert(g.names() =~= edge_names(0));
        g.lemma_well_formed();
        assert(is_edge_graph(&g, 0, none));
    }
    for i in 0..vertices
        invariant
            vertices + edges + 1 < u32::MAX,
            none.len() == 0,
            is_edge_graph(&g, i as int, none),
            g.names() == edge_names(i as nat),
    {
        let mut name = "v".to_owned();
        let digits = text::decimal_of(i);
        name.append(digits.as_str());
        proof {
            reveal_strlit("v");
            assert(name@ =~= text::label('v', i as nat));
            text::lemma_label_len('v', i as nat);
            let names = edge_names(i as nat);
            if names.contains(name@) {
                let j = choose|j: int| 0 <= j < names.len() && names[j] == name@;
                if j >= 1 {
                    text::lemma_label_injective('v', (j - 1) as nat, i as nat);
                }
            }
        }
        let ghost g0 = g;
        let s = g.sym(name.as_str());
        let ghost g1 = g;
        proof {
            assert(g1.names() =~= edge_names((i + 1) as nat));
            assert(s == i + 1) by {
                if s < i + 1 {
                    assert(g1.names()[s as int] == g0.names()[s as int]);
                    assert(g0.names().contains(g0.names()[s as int]));
                }
            }
            assert(is_edge_graph(&g1, i as int, none)) by {
                assert forall|c: int, k: nodes::Key| #[trigger] g1.holds(c, k) <==> g0.holds(c, k) by {
                    if 0 <= c < g1.len() {
                        assert(g1.listed(c) == g0.listed(c));
                    }
                }
                assert forall|c: int| 0 <= c < g1.len()
                    implies (#[trigger] g1.listed(c)).no_duplicates() by {
                    assert(g1.listed(c) == g0.listed(c));
                }
                assert forall|k: nodes::Key| #[trigger] g1.memo().contains_key(k)
                    implies exists|c: int| g1.holds(c, k) by {
                    assert(g0.memo().contains_key(k));
                    let c = choose|c: int| g0.holds(c, k);
                    assert(g1.holds(c, k));
                }
            }
            lemma_can_hang_edge(&g1, i as int, none, vertex_key(i as int));
        }
        let empty: Vec<Id> = Vec::new();
        assert(empty@ =~= Seq::<Id>::empty());
        let x = hang(&mut g, 0, true, s, &empty);
        proof {
            lemma_edge_step(&g1, &g, i as int, none, i + 1, none, x, vertex_key(i as int));
        }
    }
    let mut draw = rng::seeded_rng(seed);
    let mut seen = NodeMap::new();
    let mut made: usize = 0;
    let mut drawn: u64 = 0;
    let ghost start = rng::words(draw);
    let ghost mut list = none;
    assert(drawn_edges(seed, vertices, 0) =~= none);
    while made < edges && drawn < u64::MAX
        invariant
            vertices + edges + 1 < u32::MAX,
            edges <= vertices * (vertices - 1),
            e == 0,
            made <= edges,
            g.names() == edge_names(vertices as nat),
            is_edge_graph(&g, vertices as int, list),
            simple_edges(vertices as int, list),
            list == drawn_edges(seed, vertices, drawn as nat),
            list.len() == made,
            start == rng::seeded_words(seed),
            rng::words(draw) == rng::pair_draws(
                start,
                (0, vertices),
                (0, vertices),
                drawn as nat,
            ).1,
            seen.well_formed(),
            forall|p: (usize, usize)|
                p.0 < vertices && p.1 < vertices ==> (seen@.contains_key(#[trigger] edge_key(p))
                    <==> list.contains(p)),
            drawn > 0 ==> drawn_edges(seed, vertices, (drawn - 1) as nat).len() < edges,
        decreases u64::MAX - drawn,
    {
        proof {
            assert(vertices > 0) by (nonlinear_arith)
                requires
                    0 < edges <= vertices * (vertices - 1),
                    0 <= vertices,
            ;
        }
        let a = rng::draw_index(&mut draw, 0, vertices);
        let b = rng::draw_index(&mut draw, 0, vertices);
        let ghost pairs = rng::pair_draws(start, (0, vertices), (0, vertices), drawn as nat).0;
        let ghost pairs2 = rng::pair_draws(
            start,
            (0, vertices),
            (0, vertices),
            (drawn + 1) as nat,
        ).0;
        proof {
            assert(pairs2.drop_last() =~= pairs);
            assert(pairs2.last() == (a, b));
        }
        drawn = drawn + 1;
        let mut children: Vec<Id> = Vec::new();
        children.push(a as Id);
        children.push(b as Id);
        assert(children@ =~= seq![a as Id, b as Id]);
        let node = ENode { op: e, children };
        assert(node@ == edge_key((a, b)));
        if a == b || seen.get(&node).is_some() {
            continue ;
        }
        let ghost g0 = g;
        proof {
            lemma_can_hang_edge(&g0, vertices as int, list, edge_key((a, b)));
        }
        let x = hang(&mut g, 0, true, e, &node.children);
        proof {
            let more = list.push((a, b));
            assert(more.drop_last() =~= list);
            lemma_edge_step(
                &g0,
                &g,
                vertices as int,
                list,
                vertices as int,
                more,
                x,
                edge_key((a, b)),
            );
        }
        let ghost seen0 = seen@;
        seen.insert(node, x);
        made += 1;
        proof {
            let before = list;
            list = list.push((a, b));
            assert forall|p: (usize, usize)| p.0 < vertices && p.1 < vertices
                implies (seen@.contains_key(
                #[trigger] edge_key(p),
            ) <==> list.contains(p)) by {
                if edge_key(p) == edge_key((a, b)) {
                    assert(edge_key(p).1[0] == edge_key((a, b)).1[0]);
                    assert(edge_key(p).1[1] == edge_key((a, b)).1[1]);
                    assert(p == (a, b));
                    assert(list[before.len() as int] == p);
                } else {
                    assert(seen0.contains_key(edge_key(p)) <==> before.contains(p));
                    if before.contains(p) {
                        let i = choose|i: int| 0 <= i < before.len() && before[i] == p;
                        assert(list[i] == p);
                    }
                    if list.contains(p) {
                        let i = choose|i: int| 0 <= i < list.len() && list[i] == p;
                        assert(before[i] == p);
                    }
                }
            }
        }
    }
    let ghost g0 = g;
    g.rebuild();
    proof {
        lemma_edges_settled(&g0, vertices as int, list);
        lemma_rebuild_settled(&g0, &g);
        assert(is_edge_graph(&g, vertices as int, drawn_edges(seed, vertices, drawn as nat)));
    }
    (g, e)
}

/// The tuples that are not among the old ones, in order.
pub open spec fn fresh_tuples(tuples: Seq<Seq<Id>>, old_tuples: Seq<Seq<Id>>) -> Seq<Seq<Id>>
    decreases tuples.len(),
{
    if tuples.len() == 0 {
        Seq::empty()
    } else {
        let before = fresh_tuples(tuples.drop_last(), old_tuples);
        if old_tuples.contains(tuples.last()) {
            before
        } else {
            before.push(tuples.last())
        }
    }
}

/// The key under which a row is looked up.
pub open spec fn row_key(t: Seq<Id>) -> nodes::Key {
    (0, t)
}

/// The table knows just the rows.
pub open spec fn knows_rows(m: &NodeMap, rows: Seq<Seq<Id>>) -> bool {
    &&& m.well_formed()
    &&& forall|t: Seq<Id>| m@.contains_key(#[trigger] row_key(t)) <==> rows.contains(t)
}

/// The rows of a relation, to be looked up.
fn row_table(rows: &Vec<Vec<Id>>) -> (m: NodeMap)
    ensures
        knows_rows(&m, join::values(rows@)),
{
    let mut m = NodeMap::new();
    let ghost all = join::values(rows@);
    for i in 0..rows.len()
        invariant
            all == join::values(rows@),
            knows_rows(&m, all.take(i as int)),
    {
        let node = ENode { op: 0, children: egraph::copy_ids(&rows[i]) };
        let ghost m0 = m@;
        let ghost row = rows@[i as int]@;
        assert(node@ == row_key(row));
        if m.get(&node).is_none() {
            m.insert(node, 0);
        }
        proof {
            let before = all.take(i as int);
            let now = all.take(i + 1);
            assert(now =~= before.push(row));
            assert forall|t: Seq<Id>| m@.contains_key(#[trigger] row_key(t)) <==> now.contains(t) by {
                assert(m0.contains_key(row_key(t)) <==> before.contains(t));
                if before.contains(t) {
                    let j = choose|j: int| 0 <= j < before.len() && before[j] == t;
                    assert(now[j] == t);
                }
                if now.contains(t) {
                    let j = choose|j: int| 0 <= j < now.len() && now[j] == t;
                    if j < i {
                        assert(before[j] == t);
                    }
                }
                assert(now[i as int] == row);
            }
        }
    }
    assert(all.take(rows@.len() as int) =~= all);
    m
}

/// `d` holds, of each relation of `new`, the tuples that `before` lacks.
pub open spec fn is_delta(d: Seq<Relation>, new: Seq<Relation>, before: Seq<Relation>) -> bool {
    &&& d.len() == new.len()
    &&& forall|s: Sym| #[trigger]
        relational::tuples_of(d, s) == fresh_tuples(
            relational::tuples_of(new, s),
            relational::tuples_of(before, s),
        )
    &&& forall|s: int|
        0 <= s < d.len() ==> (#[trigger] d[s]).arity == (if d[s].tuples@.len() > 0 {
            new[s].arity
        } else {
            0
        })
}

/// Tuples that are in `new` and not in `before`: what a semi-naive iteration
/// may look at.
pub fn db_delta(new: &Database, before: &Database) -> (d: Database)
    requires
        new@.len() <= u32::MAX,
    ensures
        is_delta(d@, new@, before@),
{
    let mut d: Database = Vec::new();
    for s in 0..new.len()
        invariant
            new@.len() <= u32::MAX,
            d@.len() == s,
            forall|r: int|
                0 <= r < s ==> relational::tuple_values(#[trigger] d@[r]) == fresh_tuples(
                    relational::tuples_of(new@, r as Sym),
                    relational::tuples_of(before@, r as Sym),
                ),
            forall|r: int|
                0 <= r < s ==> (#[trigger] d@[r]).arity == (if d@[r].tuples@.len() > 0 {
                    new@[r].arity
                } else {
                    0
                }),
    {
        let nothing: Vec<Vec<Id>> = Vec::new();
        let known = if s < before.len() {
            row_table(&before[s].tuples)
        } else {
            row_table(&nothing)
        };
        let ghost was = relational::tuples_of(before@, s as Sym);
        let ghost now = relational::tuples_of(new@, s as Sym);
        proof {
            if s >= before@.len() {
                assert(join::values(nothing@) =~= was);
            } else {
                assert(join::values(before@[s as int].tuples@) =~= was);
            }
        }
        let mut tuples: Vec<Vec<Id>> = Vec::new();
        let rows = &new[s].tuples;
        for i in 0..rows.len()
            invariant
                s < new@.len(),
                *rows == new@[s as int].tuples,
                now == relational::tuple_values(new@[s as int]),
                knows_rows(&known, was),
                join::values(tuples@) == fresh_tuples(now.take(i as int), was),
        {
            let node = ENode { op: 0, children: egraph::copy_ids(&rows[i]) };
            assert(now.take(i + 1).drop_last() =~= now.take(i as int));
            assert(node@ == row_key(rows@[i as int]@));
            if known.get(&node).is_none() {
                let ghost before_push = tuples@;
                tuples.push(node.children);
                assert(join::values(tuples@) =~= join::values(before_push).push(
                    rows@[i as int]@,
                ));
            }
        }
        assert(now.take(now.len() as int) =~= now);
        let arity = if tuples.len() > 0 {
            new[s].arity
        } else {
            0
        };
        let ghost listed = tuples@;
        d.push(Relation { arity, tuples });
        assert(relational::tuple_values(d@[s as int]) =~= join::values(listed));
    }
    proof {
        assert forall|s: Sym| #[trigger] relational::tuples_of(d@, s) == fresh_tuples(
            relational::tuples_of(new@, s),
            relational::tuples_of(before@, s),
        ) by {
            if s < d@.len() {
                assert(relational::tuple_values(d@[s as int]) == relational::tuples_of(d@, s));
            }
        }
    }
    d
}

} // verus!
