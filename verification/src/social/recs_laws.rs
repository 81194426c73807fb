//! What the scores of recommendation lists say.

use crate::math;
use crate::social::bipartite;
use crate::social::bipartite::Bipartite;
use crate::social::recs;
use vstd::prelude::*;

verus! {

/// The engagement was held out.
pub open spec fn was_held(g: &Bipartite, u: u32, i: u32) -> bool {
    exists|k: int| 0 <= k < g.holdout@.len() && #[trigger] g.holdout@[k] == (u, i)
}

/// What is held out of a user's engagements, item by item.
pub proof fn lemma_held_items(holdout: Seq<(u32, u32)>, u: u32, n: nat, i: u32)
    requires
        n <= holdout.len(),
    ensures
        bipartite::held_items(holdout, u, n).contains(i) <==> exists|k: int|
            0 <= k < n && #[trigger] holdout[k] == (u, i),
    decreases n,
{
    let now = bipartite::held_items(holdout, u, n);
    if n > 0 {
        let before = bipartite::held_items(holdout, u, (n - 1) as nat);
        lemma_held_items(holdout, u, (n - 1) as nat, i);
        if before.contains(i) {
            let j = choose|j: int| 0 <= j < before.len() && before[j] == i;
            assert(now[j] == i);
        }
        if holdout[n - 1] == (u, i) {
            assert(now[now.len() - 1] == i);
        }
        if now.contains(i) {
            let j = choose|j: int| 0 <= j < now.len() && now[j] == i;
            if j < before.len() {
                assert(before[j] == i);
            } else {
                assert(holdout[n - 1] == (u, i));
            }
        }
    }
}

/// Two lists share something where an entry of one is in the other, and all of a list
/// is shared where all of its entries are.
pub proof fn lemma_sharing(a: Seq<u32>, b: Seq<u32>, n: nat)
    requires
        n <= a.len(),
    ensures
        recs::shared(a, b, n) <= n,
        recs::shared(a, b, n) > 0 <==> exists|i: int| 0 <= i < n && b.contains(#[trigger] a[i]),
        recs::shared(a, b, n) == n <==> forall|i: int| 0 <= i < n ==> b.contains(#[trigger] a[i]),
    decreases n,
{
    if n > 0 {
        lemma_sharing(a, b, (n - 1) as nat);
        if recs::shared(a, b, (n - 1) as nat) > 0 {
            let i = choose|i: int| 0 <= i < n - 1 && b.contains(#[trigger] a[i]);
            assert(b.contains(a[i]));
        }
        if exists|i: int| 0 <= i < n && b.contains(#[trigger] a[i]) {
            let i = choose|i: int| 0 <= i < n && b.contains(#[trigger] a[i]);
            if i < n - 1 {
                assert(b.contains(a[i]));
            }
        }
        if forall|i: int| 0 <= i < n ==> b.contains(#[trigger] a[i]) {
            assert(b.contains(a[n - 1]));
            assert forall|i: int| 0 <= i < n - 1 implies b.contains(#[trigger] a[i]) by {}
        }
    }
}

/// A user is judged where something was held out, and hit where that is on the list.
pub proof fn lemma_hits(g: &Bipartite, rec: (u32, Vec<u32>))
    ensures
        recs::is_judged(g, rec) <==> exists|i: u32| #[trigger] was_held(g, rec.0, i),
        recs::is_hit(g, rec) <==> exists|j: int|
            0 <= j < rec.1@.len() && was_held(g, rec.0, #[trigger] rec.1@[j]),
{
    let n = g.holdout@.len();
    let held = bipartite::held_items(g.holdout@, rec.0, n);
    assert forall|i: u32| held.contains(i) <==> #[trigger] was_held(g, rec.0, i) by {
        lemma_held_items(g.holdout@, rec.0, n, i);
    }
    if held.len() > 0 {
        assert(held.contains(held[0]));
        assert(was_held(g, rec.0, held[0]));
    }
    lemma_sharing(rec.1@, held, rec.1@.len());
    if recs::is_hit(g, rec) {
        let j = choose|j: int| 0 <= j < rec.1@.len() && held.contains(#[trigger] rec.1@[j]);
        assert(was_held(g, rec.0, rec.1@[j]));
    }
    if exists|j: int| 0 <= j < rec.1@.len() && was_held(g, rec.0, #[trigger] rec.1@[j]) {
        let j = choose|j: int| 0 <= j < rec.1@.len() && was_held(g, rec.0, #[trigger] rec.1@[j]);
        assert(held.contains(rec.1@[j]));
    }
}

/// The hit rate counts users: those with something held out, and of these the ones
/// that have some of it on their list.
pub proof fn lemma_hit_rate(g: &Bipartite, list: Seq<(u32, Vec<u32>)>, n: nat)
    requires
        n <= list.len(),
    ensures
        recs::hit_counts(g, list, n).1 == math::count(
            n,
            |i: int| exists|x: u32| #[trigger] was_held(g, list[i].0, x),
        ),
        recs::hit_counts(g, list, n).0 == math::count(
            n,
            |i: int|
                exists|j: int|
                    0 <= j < list[i].1@.len() && was_held(
                        g,
                        list[i].0,
                        #[trigger] list[i].1@[j],
                    ),
        ),
    decreases n,
{
    if n > 0 {
        lemma_hit_rate(g, list, (n - 1) as nat);
        lemma_hits(g, list[n - 1]);
        let rec = list[n - 1];
        if recs::is_hit(g, rec) {
            let j = choose|j: int|
                0 <= j < rec.1@.len() && was_held(g, rec.0, #[trigger] rec.1@[j]);
            assert(was_held(g, rec.0, rec.1@[j]));
        }
    }
}

/// How alike two lists are does not depend on their order, and a list is all alike
/// itself.
pub proof fn lemma_likeness(a: Seq<u32>, b: Seq<u32>)
    ensures
        recs::likeness(a, b) == recs::likeness(b, a),
        recs::likeness(a, a).0 == recs::likeness(a, a).1,
        recs::likeness(a, b).0 == 0 <==> forall|x: u32|
            !(#[trigger] a.contains(x) && b.contains(x)),
        recs::likeness(a, b).1 == 0 <==> a.len() == 0 && b.len() == 0,
{
    let (x, y) = (a.to_set(), b.to_set());
    vstd::seq_lib::seq_to_set_is_finite(a);
    vstd::seq_lib::seq_to_set_is_finite(b);
    assert(x.intersect(y) =~= y.intersect(x));
    assert(x.union(y) =~= y.union(x));
    assert(x.intersect(x) =~= x);
    assert(x.union(x) =~= x);
    if recs::likeness(a, b).0 == 0 {
        assert forall|v: u32| !(#[trigger] a.contains(v) && b.contains(v)) by {
            if a.contains(v) && b.contains(v) {
                assert(x.intersect(y).contains(v));
                assert(x.intersect(y) =~= Set::empty());
            }
        }
    }
    if forall|v: u32| !(#[trigger] a.contains(v) && b.contains(v)) {
        assert forall|v: u32| !x.intersect(y).contains(v) by {
            if x.intersect(y).contains(v) {
                assert(a.contains(v) && b.contains(v));
            }
        }
        assert(x.intersect(y) =~= Set::empty());
    }
    if recs::likeness(a, b).1 == 0 {
        assert(x.union(y) =~= Set::empty());
        if a.len() > 0 {
            assert(a.contains(a[0]));
            assert(x.union(y).contains(a[0]));
        }
        if b.len() > 0 {
            assert(b.contains(b[0]));
            assert(x.union(y).contains(b[0]));
        }
    }
    if a.len() == 0 && b.len() == 0 {
        assert(x.union(y) =~= Set::empty());
    }
}

/// Every two of the first `m` lists are compared once, unless both are empty.
pub proof fn lemma_all_pairs_compared(list: Seq<(u32, Vec<u32>)>, n: nat, m: int, i: int, j: int)
    requires
        0 <= i < n,
        i < j < m,
        list[i].1@.len() > 0 || list[j].1@.len() > 0,
    ensures
        recs::likenesses(list, n, m).contains(recs::likeness(list[i].1@, list[j].1@)),
        2 * recs::likenesses(list, n, m).len() <= n * (2 * m - n - 1) || m < n,
    decreases n,
{
    let p = recs::likeness(list[i].1@, list[j].1@);
    lemma_likeness(list[i].1@, list[j].1@);
    let before = recs::likenesses(list, (n - 1) as nat, m);
    let more = recs::likenesses_from(list, n - 1, m);
    let now = recs::likenesses(list, n, m);
    if i < n - 1 {
        lemma_all_pairs_compared(list, (n - 1) as nat, m, i, j);
        let k = choose|k: int| 0 <= k < before.len() && before[k] == p;
        assert(now[k] == p);
    } else {
        lemma_row_compared(list, i, m, j);
        let k = choose|k: int| 0 <= k < more.len() && more[k] == p;
        assert(now[before.len() + k] == p);
    }
    lemma_pair_total(list, n, m);
}

proof fn lemma_row_compared(list: Seq<(u32, Vec<u32>)>, i: int, m: int, j: int)
    requires
        i < j < m,
        recs::likeness(list[i].1@, list[j].1@).1 > 0,
    ensures
        recs::likenesses_from(list, i, m).contains(recs::likeness(list[i].1@, list[j].1@)),
    decreases m - i,
{
    let p = recs::likeness(list[i].1@, list[j].1@);
    let before = recs::likenesses_from(list, i, m - 1);
    let now = recs::likenesses_from(list, i, m);
    if j < m - 1 {
        lemma_row_compared(list, i, m - 1, j);
        let k = choose|k: int| 0 <= k < before.len() && before[k] == p;
        assert(now[k] == p);
    } else {
        assert(now[now.len() - 1] == p);
    }
}

proof fn lemma_row_total(list: Seq<(u32, Vec<u32>)>, i: int, m: int)
    ensures
        m > i ==> recs::likenesses_from(list, i, m).len() <= m - i - 1,
    decreases m - i,
{
    if m > i + 1 {
        lemma_row_total(list, i, m - 1);
    }
}

proof fn lemma_pair_total(list: Seq<(u32, Vec<u32>)>, n: nat, m: int)
    ensures
        n <= m ==> 2 * recs::likenesses(list, n, m).len() <= n * (2 * m - n - 1),
    decreases n,
{
    if n > 0 {
        lemma_pair_total(list, (n - 1) as nat, m);
        lemma_row_total(list, n - 1, m);
        assert((n - 1) * (2 * m - (n - 1) - 1) + 2 * (m - (n - 1) - 1) == n * (2 * m - n - 1))
            by (nonlinear_arith);
    } else {
        assert(0 * (2 * m - 0 - 1) == 0) by (nonlinear_arith);
    }
}

} // verus!
