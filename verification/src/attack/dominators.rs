//! Dominators of a rooted graph whose nodes are numbered `0..m` with the root
//! first and, for every other node, some predecessor with a smaller number.
//!
//! A forest of parent pointers to smaller numbers is improved until nothing
//! changes: each node's pointer moves up to the nearest common ancestor of
//! itself and of the node's predecessors. The pointers of the last forest are
//! the immediate dominators.

use crate::graph;
use vstd::prelude::*;

verus! {

/// `d` lies on every walk from the root to `v`.
pub open spec fn dominates(e: graph::Edges, d: usize, v: usize) -> bool {
    forall|p: Seq<usize>| #[trigger] graph::walks(e, p, 0, v) ==> p.contains(d)
}

/// Every pointer but the root's goes to a smaller number.
pub open spec fn is_forest(up: Seq<usize>) -> bool {
    forall|v: int| 0 < v < up.len() ==> #[trigger] up[v] < v
}

/// `c` is `v` or an ancestor of it.
pub open spec fn above(up: Seq<usize>, c: usize, v: usize) -> bool
    decreases v,
{
    c == v || (0 < v < up.len() && up[v as int] < v && above(up, c, up[v as int]))
}

/// The predecessor lists as a relation.
pub open spec fn pred_rel(preds: Seq<Vec<usize>>) -> graph::Edges {
    |a: usize, b: usize| b < preds.len() && preds[b as int]@.contains(a)
}

proof fn lemma_above_bound(up: Seq<usize>, c: usize, v: usize)
    requires
        above(up, c, v),
    ensures
        c <= v,
    decreases v,
{
    if c != v {
        lemma_above_bound(up, c, up[v as int]);
    }
}

proof fn lemma_above_trans(up: Seq<usize>, a: usize, b: usize, v: usize)
    requires
        above(up, a, b),
        above(up, b, v),
    ensures
        above(up, a, v),
    decreases v,
{
    if b != v {
        lemma_above_trans(up, a, b, up[v as int]);
    }
}

/// Chains of smaller nodes do not see a changed pointer.
proof fn lemma_above_update(up: Seq<usize>, j: usize, x: usize, c: usize, v: usize)
    requires
        v < j < up.len(),
    ensures
        above(up.update(j as int, x), c, v) == above(up, c, v),
    decreases v,
{
    if 0 < v && up[v as int] < v {
        lemma_above_update(up, j, x, c, up[v as int]);
    }
}

/// A walk from `c` to `v` that stays above `c` after its start.
spec fn descends(e: graph::Edges, c: usize, v: usize) -> bool {
    exists|p: Seq<usize>| #[trigger]
        graph::walks(e, p, c, v) && forall|i: int| 1 <= i < p.len() ==> c < #[trigger] p[i]
}

proof fn lemma_descends_join(e: graph::Edges, a: usize, b: usize, c: usize)
    requires
        descends(e, a, b),
        descends(e, b, c),
        a <= b,
    ensures
        descends(e, a, c),
{
    let p = choose|p: Seq<usize>| #[trigger]
        graph::walks(e, p, a, b) && forall|i: int| 1 <= i < p.len() ==> a < #[trigger] p[i];
    let q = choose|q: Seq<usize>| #[trigger]
        graph::walks(e, q, b, c) && forall|i: int| 1 <= i < q.len() ==> b < #[trigger] q[i];
    let r = p + q.skip(1);
    assert(graph::walks(e, r, a, c)) by {
        graph::lemma_walk_join(e, p, q, a, b, c);
    }
    assert forall|i: int| 1 <= i < r.len() implies a < #[trigger] r[i] by {
        if i < p.len() {
            assert(r[i] == p[i]);
        } else {
            assert(r[i] == q[i - p.len() + 1]);
        }
    }
}

/// Each pointer is a walk that stays above its start.
spec fn grounded(e: graph::Edges, up: Seq<usize>) -> bool {
    forall|v: int| 0 < v < up.len() ==> descends(e, #[trigger] up[v], v as usize)
}

proof fn lemma_chain_descends(e: graph::Edges, up: Seq<usize>, c: usize, v: usize)
    requires
        is_forest(up),
        grounded(e, up),
        above(up, c, v),
        v < up.len(),
    ensures
        descends(e, c, v),
    decreases v,
{
    if c == v {
        assert(graph::walks(e, seq![v], v, v));
    } else {
        lemma_chain_descends(e, up, c, up[v as int]);
        lemma_above_bound(up, c, up[v as int]);
        assert(descends(e, up[v as int], v));
        lemma_descends_join(e, c, up[v as int], v);
    }
}

/// A dominator of `v` that is smaller than a node from which a walk descends
/// to `v` dominates that node too.
proof fn lemma_dominates_up(e: graph::Edges, d: usize, u: usize, v: usize)
    requires
        dominates(e, d, v),
        descends(e, u, v),
        d < u,
    ensures
        dominates(e, d, u),
{
    let q = choose|q: Seq<usize>| #[trigger]
        graph::walks(e, q, u, v) && forall|i: int| 1 <= i < q.len() ==> u < #[trigger] q[i];
    assert forall|p: Seq<usize>| #[trigger] graph::walks(e, p, 0, u) implies p.contains(d) by {
        graph::lemma_walk_join(e, p, q, 0, u, v);
        let r = p + q.skip(1);
        assert(r.contains(d));
        let i = choose|i: int| 0 <= i < r.len() && r[i] == d;
        if i >= p.len() {
            assert(r[i] == q[i - p.len() + 1]);
        }
        assert(p[i] == d);
    }
}

/// The chain of every node holds all its dominators.
spec fn covers(e: graph::Edges, up: Seq<usize>) -> bool {
    forall|d: usize, v: usize|
        v < up.len() && dominates(e, d, v) ==> #[trigger] above(up, d, v)
}

/// Moving the pointer of `j` up to a common ancestor of it and of a
/// predecessor `p` keeps all dominators on the chains.
proof fn lemma_covers_update(
    e: graph::Edges,
    up: Seq<usize>,
    j: usize,
    p: usize,
    c: usize,
    d: usize,
    v: usize,
)
    requires
        is_forest(up),
        grounded(e, up),
        0 < j < up.len(),
        p < up.len(),
        e(p, j),
        above(up, c, up[j as int]),
        above(up, c, p),
        forall|x: usize| above(up, x, up[j as int]) && above(up, x, p) ==> #[trigger] above(up, x, c),
        covers(e, up),
        v < up.len(),
        dominates(e, d, v),
    ensures
        above(up.update(j as int, c), d, v),
    decreases v,
{
    let up2 = up.update(j as int, c);
    lemma_above_bound(up, c, up[j as int]);
    if d != v {
        assert(above(up, d, v));
        if v == j {
            assert(dominates(e, d, p)) by {
                assert forall|w: Seq<usize>| #[trigger] graph::walks(e, w, 0, p)
                    implies w.contains(d) by {
                    graph::lemma_walk_push(e, w, 0, p, j);
                    assert(w.push(j).contains(d));
                    let i = choose|i: int| 0 <= i < w.push(j).len() && w.push(j)[i] == d;
                    assert(w[i] == d);
                }
            }
            assert(above(up, d, p));
            assert(above(up, d, c));
            lemma_above_update(up, j, c, d, c);
            assert(up2[j as int] == c);
        } else {
            let u = up[v as int];
            lemma_above_bound(up, d, u);
            if d != u {
                assert(descends(e, u, v));
                lemma_dominates_up(e, d, u, v);
            } else {
                assert forall|w: Seq<usize>| #[trigger] graph::walks(e, w, 0, u)
                    implies w.contains(d) by {
                    assert(w[w.len() - 1] == u);
                }
            }
            lemma_covers_update(e, up, j, p, c, d, u);
            assert(up2[v as int] == u);
        }
    }
}

/// Where no pointer can move, the chains hold dominators only.
proof fn lemma_chain_dominates(
    e: graph::Edges,
    up: Seq<usize>,
    c: usize,
    v: usize,
    w: Seq<usize>,
)
    requires
        is_forest(up),
        forall|a: usize, b: usize| #[trigger] e(a, b) ==> a < up.len() && b < up.len(),
        forall|a: usize, b: usize| #[trigger] e(a, b) && b > 0 ==> above(up, up[b as int], a),
        above(up, c, v),
        v < up.len(),
        graph::walks(e, w, 0, v),
    ensures
        w.contains(c),
    decreases w.len(),
{
    if c == v {
        assert(w[w.len() - 1] == c);
    } else if w.len() == 1 {
        assert(w[0] == 0 && v == 0);
        assert(false);
    } else {
        let w1 = w.drop_last();
        let a = w1.last();
        assert(e(w[w.len() - 2], w[w.len() - 1]));
        assert(graph::walks(e, w1, 0, a));
        if v == 0 {
            assert(false);
        }
        lemma_above_trans(up, c, up[v as int], a);
        lemma_chain_dominates(e, up, c, a, w1);
        let i = choose|i: int| 0 <= i < w1.len() && w1[i] == c;
        assert(w[i] == c);
    }
}

/// The nearest common ancestor: walks both nodes up until they meet.
fn intersect(up: &Vec<usize>, a: usize, b: usize) -> (c: usize)
    requires
        is_forest(up@),
        a < up@.len(),
        b < up@.len(),
    ensures
        above(up@, c, a),
        above(up@, c, b),
        forall|x: usize| above(up@, x, a) && above(up@, x, b) ==> #[trigger] above(up@, x, c),
{
    let mut x = a;
    let mut y = b;
    while x != y
        invariant
            is_forest(up@),
            x < up@.len(),
            y < up@.len(),
            above(up@, x, a),
            above(up@, y, b),
            forall|z: usize|
                above(up@, z, a) && above(up@, z, b) ==> #[trigger] above(up@, z, x) && above(
                    up@,
                    z,
                    y,
                ),
        decreases x + y,
    {
        if x > y {
            proof {
                assert(above(up@, up@[x as int], x)) by {
                    assert(above(up@, up@[x as int], up@[x as int]));
                }
                lemma_above_trans(up@, up@[x as int], x, a);
                assert forall|z: usize| above(up@, z, a) && above(up@, z, b)
                    implies #[trigger] above(up@, z, up@[x as int]) && above(up@, z, y) by {
                    assert(above(up@, z, x));
                    lemma_above_bound(up@, z, y);
                }
            }
            x = up[x];
        } else {
            proof {
                assert(above(up@, up@[y as int], y)) by {
                    assert(above(up@, up@[y as int], up@[y as int]));
                }
                lemma_above_trans(up@, up@[y as int], y, b);
                assert forall|z: usize| above(up@, z, a) && above(up@, z, b)
                    implies #[trigger] above(up@, z, x) && above(up@, z, up@[y as int]) by {
                    assert(above(up@, z, x));
                    lemma_above_bound(up@, z, x);
                }
            }
            y = up[y];
        }
    }
    x
}

/// The sum of the pointers, which every move lowers.
spec fn weight(up: Seq<usize>) -> nat
    decreases up.len(),
{
    if up.len() == 0 {
        0
    } else {
        weight(up.drop_last()) + up.last() as nat
    }
}

proof fn lemma_weight_update(up: Seq<usize>, j: int, c: usize)
    requires
        0 <= j < up.len(),
    ensures
        weight(up.update(j, c)) + up[j] == weight(up) + c,
    decreases up.len(),
{
    let u2 = up.update(j, c);
    if j == up.len() - 1 {
        assert(u2.drop_last() =~= up.drop_last());
    } else {
        assert(u2.drop_last() =~= up.drop_last().update(j, c));
        lemma_weight_update(up.drop_last(), j, c);
    }
}

/// What the pointers satisfy throughout.
spec fn sound(e: graph::Edges, up: Seq<usize>) -> bool {
    &&& is_forest(up)
    &&& grounded(e, up)
    &&& covers(e, up)
}

/// Moves the pointer of `j` up past predecessor `p`.
fn lift(preds: &Vec<Vec<usize>>, up: &mut Vec<usize>, j: usize, p: usize) -> (moved: bool)
    requires
        sound(pred_rel(preds@), old(up)@),
        preds@.len() == old(up)@.len(),
        0 < j < preds@.len(),
        p < preds@.len(),
        preds@[j as int]@.contains(p),
    ensures
        sound(pred_rel(preds@), final(up)@),
        final(up)@.len() == old(up)@.len(),
        !moved ==> final(up)@ == old(up)@ && above(old(up)@, old(up)@[j as int], p),
        moved ==> weight(final(up)@) < weight(old(up)@),
{
    let ghost e = pred_rel(preds@);
    let ghost u0 = up@;
    let c = intersect(up, up[j], p);
    proof {
        lemma_above_bound(u0, c, u0[j as int]);
    }
    if c != up[j] {
        proof {
            let u2 = u0.update(j as int, c);
            lemma_weight_update(u0, j as int, c);
            assert forall|v: int| 0 < v < u2.len()
                implies descends(e, #[trigger] u2[v], v as usize) by {
                if v == j {
                    lemma_chain_descends(e, u0, c, p);
                    lemma_above_bound(u0, c, p);
                    let q = choose|q: Seq<usize>| #[trigger]
                        graph::walks(e, q, c, p) && forall|i: int| 1 <= i < q.len() ==> c < #[trigger] q[i];
                    graph::lemma_walk_push(e, q, c, p, j);
                    let r = q.push(j);
                    assert forall|i: int| 1 <= i < r.len() implies c < #[trigger] r[i] by {
                        if i < q.len() {
                            assert(r[i] == q[i]);
                        }
                    }
                    assert(graph::walks(e, r, c, j));
                } else {
                    assert(descends(e, u0[v], v as usize));
                }
            }
            assert forall|d: usize, v: usize| v < u2.len() && dominates(e, d, v)
                implies #[trigger] above(u2, d, v) by {
                lemma_covers_update(e, u0, j, p, c, d, v);
            }
        }
        up.set(j, c);
        true
    } else {
        false
    }
}

/// The immediate dominators, given the predecessors of each node and a
/// spanning tree of smaller-numbered parents. The root's entry stays 0.
pub fn dominator_tree(preds: &Vec<Vec<usize>>, parent: Vec<usize>) -> (up: Vec<usize>)
    requires
        preds@.len() == parent@.len(),
        parent@.len() > 0,
        graph::closed_lists(preds@),
        is_forest(parent@),
        forall|v: int| 0 < v < parent@.len() ==> preds@[v]@.contains(#[trigger] parent@[v]),
    ensures
        up@.len() == parent@.len(),
        is_forest(up@),
        forall|c: usize, v: usize|
            v < up@.len() ==> (#[trigger] above(up@, c, v) == dominates(pred_rel(preds@), c, v)),
{
    let m = parent.len();
    let ghost e = pred_rel(preds@);
    let mut up = parent;
    proof {
        assert forall|v: int| 0 < v < up@.len() implies descends(e, #[trigger] up@[v], v as usize) by {
            let p = seq![up@[v], v as usize];
            assert(graph::walks(e, p, up@[v], v as usize)) by {
                assert(e(p[0], p[1]));
            }
            assert forall|i: int| 1 <= i < p.len() implies up@[v] < #[trigger] p[i] by {
                assert(i == 1);
            }
        }
        assert forall|d: usize, v: usize| v < up@.len() && dominates(e, d, v)
            implies #[trigger] above(up@, d, v) by {
            lemma_tree_covers(e, up@, d, v);
        }
    }
    let mut changed = true;
    while changed
        invariant
            m == up@.len(),
            preds@.len() == m,
            m > 0,
            graph::closed_lists(preds@),
            e == pred_rel(preds@),
            sound(e, up@),
            !changed ==> forall|j: int, k: int|
                0 < j < m && 0 <= k < preds@[j]@.len() ==> above(up@, up@[j], #[trigger] preds@[j]@[k]),
        decreases weight(up@), (if changed { 1int } else { 0int }),
    {
        changed = false;
        let ghost w0 = weight(up@);
        for j in 1..m
            invariant
                m == up@.len(),
                preds@.len() == m,
                m > 0,
                graph::closed_lists(preds@),
                e == pred_rel(preds@),
                sound(e, up@),
                weight(up@) <= w0,
                changed ==> weight(up@) < w0,
                !changed ==> forall|j2: int, k: int|
                    0 < j2 < j && 0 <= k < preds@[j2]@.len() ==> above(up@, up@[j2], #[trigger] preds@[j2]@[k]),
        {
            let list = &preds[j];
            for k in 0..list.len()
                invariant
                    m == up@.len(),
                    preds@.len() == m,
                    0 < j < m,
                    list@ == preds@[j as int]@,
                    graph::closed_lists(preds@),
                    e == pred_rel(preds@),
                    sound(e, up@),
                    weight(up@) <= w0,
                    changed ==> weight(up@) < w0,
                    !changed ==> forall|j2: int, k: int|
                        0 < j2 < j && 0 <= k < preds@[j2]@.len() ==> above(up@, up@[j2], #[trigger] preds@[j2]@[k]),
                    !changed ==> forall|k2: int|
                        0 <= k2 < k ==> above(up@, up@[j as int], #[trigger] list@[k2]),
            {
                assert(preds@[j as int]@[k as int] < preds@.len());
                if lift(preds, &mut up, j, list[k]) {
                    changed = true;
                }
            }
        }
    }
    proof {
        assert forall|a: usize, b: usize| #[trigger] e(a, b) implies a < up@.len() && b < up@.len() by {
            let k = choose|k: int| 0 <= k < preds@[b as int]@.len() && preds@[b as int]@[k] == a;
            assert(preds@[b as int]@[k] < preds@.len());
        }
        assert forall|a: usize, b: usize| #[trigger] e(a, b) && b > 0
            implies above(up@, up@[b as int], a) by {
            let k = choose|k: int| 0 <= k < preds@[b as int]@.len() && preds@[b as int]@[k] == a;
            assert(above(up@, up@[b as int], preds@[b as int]@[k]));
        }
        assert forall|c: usize, v: usize| v < up@.len()
            implies (#[trigger] above(up@, c, v) == dominates(e, c, v)) by {
            if above(up@, c, v) {
                assert forall|w: Seq<usize>| #[trigger] graph::walks(e, w, 0, v)
                    implies w.contains(c) by {
                    lemma_chain_dominates(e, up@, c, v, w);
                }
            }
        }
    }
    up
}

/// The tree path to a node is a walk, so it holds the node's dominators.
proof fn lemma_tree_covers(e: graph::Edges, up: Seq<usize>, d: usize, v: usize)
    requires
        is_forest(up),
        forall|v: int| 0 < v < up.len() ==> e(#[trigger] up[v], v as usize),
        v < up.len(),
        dominates(e, d, v),
    ensures
        above(up, d, v),
{
    let w = tree_path(up, v);
    lemma_tree_path(e, up, v);
    assert(w.contains(d));
}

spec fn tree_path(up: Seq<usize>, v: usize) -> Seq<usize>
    decreases v,
{
    if 0 < v < up.len() && up[v as int] < v {
        tree_path(up, up[v as int]).push(v)
    } else {
        seq![v]
    }
}

proof fn lemma_tree_path(e: graph::Edges, up: Seq<usize>, v: usize)
    requires
        is_forest(up),
        forall|v: int| 0 < v < up.len() ==> e(#[trigger] up[v], v as usize),
        v < up.len(),
    ensures
        graph::walks(e, tree_path(up, v), 0, v),
        forall|d: usize| #[trigger] tree_path(up, v).contains(d) ==> above(up, d, v),
    decreases v,
{
    if v > 0 {
        let u = up[v as int];
        let q = tree_path(up, u);
        lemma_tree_path(e, up, u);
        assert(e(up[v as int], v));
        graph::lemma_walk_push(e, q, 0, u, v);
        assert forall|d: usize| #[trigger] tree_path(up, v).contains(d) implies above(up, d, v) by {
            let i = choose|i: int| 0 <= i < q.push(v).len() && q.push(v)[i] == d;
            if i < q.len() {
                assert(q[i] == d);
                assert(q.contains(d));
                assert(above(up, d, u));
            }
        }
    } else {
        assert(graph::walks(e, seq![v], 0, v));
        assert forall|d: usize| #[trigger] tree_path(up, v).contains(d) implies above(up, d, v) by {
            assert(seq![v][0] == v);
        }
    }
}

} // verus!
