//! Generic join: variable at a time instead of relation at a time. Pick a
//! variable, intersect the values that every atom allows for it, recurse on
//! each survivor.

use crate::egraph::nodes::Id;
use crate::egraph::pattern::{Query, VarId};
use crate::egraph::relational;
use crate::egraph::relational::{AtomIndex, Database};
use crate::math;
use vstd::prelude::*;

verus! {

/// A key of a trie node, with the run of rows below it.
pub type Kid = (Id, usize, usize);

/// The keys at column `d` of the run `lo..hi`, each with its rows.
pub open spec fn kids(rows: Seq<Vec<Id>>, d: int, lo: int, hi: int) -> Seq<Kid>
    decreases hi - lo,
{
    if lo >= hi {
        Seq::empty()
    } else {
        let before = kids(rows, d, lo, hi - 1);
        let v = rows[hi - 1]@[d];
        if before.len() > 0 && before.last().0 == v {
            before.drop_last().push((v, before.last().1, hi as usize))
        } else {
            before.push((v, (hi - 1) as usize, hi as usize))
        }
    }
}

/// The rows of the run agree on their first `d` columns.
pub open spec fn common_prefix(rows: Seq<Vec<Id>>, d: int, lo: int, hi: int) -> bool {
    forall|i: int, j: int, k: int|
        lo <= i < hi && lo <= j < hi && 0 <= k < d ==> #[trigger] rows[i]@[k]
            == #[trigger] rows[j]@[k]
}

/// In a run with a common prefix, the next column ascends.
proof fn lemma_column_ascends(rows: Seq<Vec<Id>>, width: nat, d: int, lo: int, hi: int, i: int, j: int)
    requires
        relational::is_trie(rows, width),
        0 <= d < width,
        0 <= lo <= i <= j < hi <= rows.len(),
        common_prefix(rows, d, lo, hi),
    ensures
        rows[i]@[d] <= rows[j]@[d],
{
    if i < j {
        let a = rows[i]@;
        let b = rows[j]@;
        assert(relational::row_less(a, b));
        let m = choose|m: int|
            0 <= m < a.len() && m < b.len() && #[trigger] a[m] < b[m] && forall|k: int|
                0 <= k < m ==> #[trigger] a[k] == b[k];
        if m < d {
            assert(rows[i]@[m] == rows[j]@[m]);
        } else if m > d {
            assert(a[d] == b[d]);
        }
    }
}

/// What the keys of a run are: distinct and ascending, each with exactly the
/// rows that have it.
spec fn kids_ok(rows: Seq<Vec<Id>>, d: int, lo: int, hi: int, ks: Seq<Kid>) -> bool {
    &&& forall|i: int, j: int|
        0 <= i < j < ks.len() ==> (#[trigger] ks[i]).0 < (#[trigger] ks[j]).0
    &&& forall|i: int|
        0 <= i < ks.len() ==> lo <= (#[trigger] ks[i]).1 < ks[i].2 && ks[i].2 <= hi
    &&& forall|i: int, r: int|
        0 <= i < ks.len() && lo <= r < hi ==> (((#[trigger] ks[i]).1 <= r < ks[i].2)
            <==> #[trigger] rows[r]@[d] == ks[i].0)
    &&& forall|r: int| lo <= r < hi ==> has_kid(ks, #[trigger] rows[r]@[d])
    &&& ks.len() > 0 ==> ks.last().2 == hi && ks.last().0 == rows[hi - 1]@[d]
}

pub open spec fn has_kid(ks: Seq<Kid>, v: Id) -> bool {
    exists|i: int| 0 <= i < ks.len() && (#[trigger] ks[i]).0 == v
}

/// The rows below a key.
pub open spec fn kid_of(ks: Seq<Kid>, v: Id) -> (usize, usize) {
    let i = choose|i: int| 0 <= i < ks.len() && (#[trigger] ks[i]).0 == v;
    (ks[i].1, ks[i].2)
}

proof fn lemma_kids(rows: Seq<Vec<Id>>, width: nat, d: int, lo: int, hi: int)
    requires
        relational::is_trie(rows, width),
        0 <= d < width,
        0 <= lo <= hi <= rows.len() <= usize::MAX,
        common_prefix(rows, d, lo, hi),
    ensures
        kids_ok(rows, d, lo, hi, kids(rows, d, lo, hi)),
        kids(rows, d, lo, hi).len() <= hi - lo,
    decreases hi - lo,
{
    if lo < hi {
        let before = kids(rows, d, lo, hi - 1);
        let ks = kids(rows, d, lo, hi);
        let v = rows[hi - 1]@[d];
        lemma_kids(rows, width, d, lo, hi - 1);
        assert forall|r: int| lo <= r < hi - 1 implies #[trigger] rows[r]@[d] <= v by {
            lemma_column_ascends(rows, width, d, lo, hi, r, hi - 1);
        }
        assert forall|i: int| 0 <= i < before.len() implies (#[trigger] before[i]).0 <= v by {
            let r = before[i].1 as int;
            assert(rows[r]@[d] == before[i].0);
        }
        let m = before.len() - 1;
        if before.len() > 0 && before.last().0 == v {
            assert(ks =~= before.update(m, (v, before.last().1, hi as usize)));
            assert forall|i: int, r: int| 0 <= i < ks.len() && lo <= r < hi
                implies (((#[trigger] ks[i]).1 <= r < ks[i].2)
                <==> #[trigger] rows[r]@[d] == ks[i].0) by {
                if r < hi - 1 {
                    assert((before[i].1 <= r < before[i].2) <==> rows[r]@[d] == before[i].0);
                    if i == m {
                        assert(before[m].2 == hi - 1);
                    }
                } else {
                    if i < m {
                        assert(before[i].0 < before[m].0);
                        assert(before[i].2 <= hi - 1);
                    }
                }
            }
            assert forall|r: int| lo <= r < hi implies has_kid(ks, #[trigger] rows[r]@[d]) by {
                if r < hi - 1 {
                    assert(has_kid(before, rows[r]@[d]));
                    let i = choose|i: int| 0 <= i < before.len() && (#[trigger] before[i]).0 == rows[r]@[d];
                    assert(ks[i].0 == rows[r]@[d]);
                } else {
                    assert(ks[m].0 == rows[r]@[d]);
                }
            }
        } else {
            let e = (v, (hi - 1) as usize, hi as usize);
            assert(ks =~= before.push(e));
            assert forall|i: int| 0 <= i < before.len() implies (#[trigger] before[i]).0 < v by {
                if i < m {
                    assert(before[i].0 < before[m].0);
                }
            }
            assert forall|i: int, r: int| 0 <= i < ks.len() && lo <= r < hi
                implies (((#[trigger] ks[i]).1 <= r < ks[i].2)
                <==> #[trigger] rows[r]@[d] == ks[i].0) by {
                if i < before.len() {
                    if r < hi - 1 {
                        assert((before[i].1 <= r < before[i].2) <==> rows[r]@[d] == before[i].0);
                    } else {
                        assert(before[i].2 <= hi - 1);
                    }
                } else if r < hi - 1 {
                    assert(has_kid(before, rows[r]@[d]));
                    let j = choose|j: int| 0 <= j < before.len() && (#[trigger] before[j]).0 == rows[r]@[d];
                    assert(before[j].0 < v);
                }
            }
            assert forall|r: int| lo <= r < hi implies has_kid(ks, #[trigger] rows[r]@[d]) by {
                if r < hi - 1 {
                    assert(has_kid(before, rows[r]@[d]));
                    let i = choose|i: int| 0 <= i < before.len() && (#[trigger] before[i]).0 == rows[r]@[d];
                    assert(ks[i].0 == rows[r]@[d]);
                } else {
                    assert(ks[before.len() as int].0 == rows[r]@[d]);
                }
            }
            assert forall|i: int, j: int| 0 <= i < j < ks.len()
                implies (#[trigger] ks[i]).0 < (#[trigger] ks[j]).0 by {
                if j < before.len() {
                    assert(before[i].0 < before[j].0);
                } else {
                    assert(before[i].0 < v);
                }
            }
        }
    }
}

/// Lists the keys of a run.
fn list_kids(rows: &Vec<Vec<Id>>, d: usize, lo: usize, hi: usize, width: Ghost<nat>) -> (ks: Vec<Kid>)
    requires
        relational::is_trie(rows@, width@),
        d < width@,
        lo <= hi <= rows@.len(),
    ensures
        ks@ == kids(rows@, d as int, lo as int, hi as int),
{
    let mut ks: Vec<Kid> = Vec::new();
    for r in lo..hi
        invariant
            relational::is_trie(rows@, width@),
            d < width@,
            lo <= hi <= rows@.len(),
            ks@ == kids(rows@, d as int, lo as int, r as int),
    {
        assert(rows@[r as int]@.len() == width@);
        let v = rows[r][d];
        let n = ks.len();
        if n > 0 && ks[n - 1].0 == v {
            let start = ks[n - 1].1;
            ks.set(n - 1, (v, start, r + 1));
            assert(ks@ =~= kids(rows@, d as int, lo as int, r + 1));
        } else {
            ks.push((v, r, r + 1));
        }
    }
    ks
}

/// Finds a key among ascending keys.
fn find_kid(ks: &Vec<Kid>, v: Id) -> (r: Option<(usize, usize)>)
    requires
        forall|i: int, j: int|
            0 <= i < j < ks@.len() ==> (#[trigger] ks@[i]).0 < (#[trigger] ks@[j]).0,
    ensures
        r is Some <==> has_kid(ks@, v),
        r matches Some(run) ==> run == kid_of(ks@, v),
{
    let mut lo: usize = 0;
    let mut hi = ks.len();
    while lo < hi
        invariant
            lo <= hi <= ks@.len(),
            forall|i: int, j: int|
                0 <= i < j < ks@.len() ==> (#[trigger] ks@[i]).0 < (#[trigger] ks@[j]).0,
            forall|i: int| 0 <= i < lo ==> (#[trigger] ks@[i]).0 < v,
            forall|i: int| hi <= i < ks@.len() ==> (#[trigger] ks@[i]).0 > v,
        decreases hi - lo,
    {
        let mid = lo + (hi - lo) / 2;
        let k = ks[mid].0;
        if k == v {
            proof {
                assert(has_kid(ks@, v));
                let i = choose|i: int| 0 <= i < ks@.len() && (#[trigger] ks@[i]).0 == v;
                if i < mid {
                    assert(ks@[i].0 < ks@[mid as int].0);
                } else if mid < i {
                    assert(ks@[mid as int].0 < ks@[i].0);
                }
            }
            return Some((ks[mid].1, ks[mid].2));
        }
        if k < v {
            lo = mid + 1;
        } else {
            hi = mid;
        }
    }
    None
}

/// Atom `ix` binds `x` next.
pub open spec fn takes_part(ix: AtomIndex, x: VarId, at: usize) -> bool {
    at < ix.vars@.len() && ix.vars@[at as int] == x
}

/// Where a join stands: for each atom the run of rows that is left and the
/// number of its variables that are bound.
#[verifier::ext_equal]
pub struct Stand {
    pub runs: Seq<(usize, usize)>,
    pub at: Seq<usize>,
}

/// The keys that atom `i` offers next.
pub open spec fn offers(idx: Seq<AtomIndex>, st: Stand, i: int) -> Seq<Kid> {
    kids(idx[i].trie.rows@, st.at[i] as int, st.runs[i].0 as int, st.runs[i].1 as int)
}

/// The atoms among the first `n` that bind `x` next.
pub open spec fn parts(idx: Seq<AtomIndex>, x: VarId, st: Stand, n: nat) -> Seq<usize>
    decreases n,
{
    if n == 0 {
        Seq::empty()
    } else if takes_part(idx[n - 1], x, st.at[n - 1]) {
        parts(idx, x, st, (n - 1) as nat).push((n - 1) as usize)
    } else {
        parts(idx, x, st, (n - 1) as nat)
    }
}

/// The first of the parts with the fewest keys, among the first `n`.
pub open spec fn fewest(idx: Seq<AtomIndex>, st: Stand, ps: Seq<usize>, n: nat) -> int
    decreases n,
{
    if n <= 1 {
        0
    } else {
        let b = fewest(idx, st, ps, (n - 1) as nat);
        if offers(idx, st, ps[n - 1] as int).len() < offers(idx, st, ps[b] as int).len() {
            n - 1
        } else {
            b
        }
    }
}

/// The first `n` parts, but for the lead, all offer `v`.
pub open spec fn all_offer(
    idx: Seq<AtomIndex>,
    st: Stand,
    ps: Seq<usize>,
    lead: int,
    v: Id,
    n: nat,
) -> bool {
    forall|j: int|
        0 <= j < n && j != lead ==> has_kid(offers(idx, st, (#[trigger] ps[j]) as int), v)
}

/// How many of the first `n` parts, but for the lead, are asked for `v`: all
/// up to the first that lacks it.
pub open spec fn asked(
    idx: Seq<AtomIndex>,
    st: Stand,
    ps: Seq<usize>,
    lead: int,
    v: Id,
    n: nat,
) -> nat
    decreases n,
{
    if n == 0 {
        0
    } else {
        let before = asked(idx, st, ps, lead, v, (n - 1) as nat);
        if n - 1 != lead && all_offer(idx, st, ps, lead, v, (n - 1) as nat) {
            before + 1
        } else {
            before
        }
    }
}

/// The stand once `x` is `v`.
pub open spec fn bind(idx: Seq<AtomIndex>, x: VarId, st: Stand, v: Id) -> Stand {
    Stand {
        runs: Seq::new(
            st.runs.len(),
            |i: int|
                if takes_part(idx[i], x, st.at[i]) {
                    kid_of(offers(idx, st, i), v)
                } else {
                    st.runs[i]
                },
        ),
        at: Seq::new(
            st.at.len(),
            |i: int|
                if takes_part(idx[i], x, st.at[i]) {
                    (st.at[i] + 1) as usize
                } else {
                    st.at[i]
                },
        ),
    }
}

/// The keys that a join looks at from a stand on.
pub open spec fn join_cost(idx: Seq<AtomIndex>, order: Seq<VarId>, depth: nat, st: Stand) -> nat
    decreases order.len() - depth, 1nat, 0nat,
{
    if depth >= order.len() {
        0
    } else {
        let x = order[depth as int];
        let ps = parts(idx, x, st, idx.len());
        if ps.len() == 0 {
            join_cost(idx, order, depth + 1, st)
        } else {
            let lead = fewest(idx, st, ps, ps.len());
            keys_cost(
                idx,
                order,
                depth,
                st,
                ps,
                lead,
                offers(idx, st, ps[lead] as int).len(),
            )
        }
    }
}

/// What the first `k` keys of the lead cost: one each, one for every other
/// atom that is asked for it, and the rest of the join where all have it.
pub open spec fn keys_cost(
    idx: Seq<AtomIndex>,
    order: Seq<VarId>,
    depth: nat,
    st: Stand,
    ps: Seq<usize>,
    lead: int,
    k: nat,
) -> nat
    decreases order.len() - depth, 0nat, k,
{
    if k == 0 || depth >= order.len() {
        0
    } else {
        let v = offers(idx, st, ps[lead] as int)[k - 1].0;
        keys_cost(idx, order, depth, st, ps, lead, (k - 1) as nat) + 1 + asked(
            idx,
            st,
            ps,
            lead,
            v,
            ps.len(),
        ) + (if all_offer(idx, st, ps, lead, v, ps.len()) {
            join_cost(idx, order, depth + 1, bind(idx, order[depth as int], st, v))
        } else {
            0
        })
    }
}

/// Row `r` of the index agrees with the assignment on the first `at` variables.
spec fn agrees(ix: AtomIndex, r: int, at: int, s: Seq<Id>) -> bool {
    forall|j: int| 0 <= j < at ==> ix.trie.rows@[r]@[j] == s[#[trigger] ix.vars@[j] as int]
}

/// Some atom speaks of `v`.
pub open spec fn constrained(idx: Seq<AtomIndex>, v: VarId) -> bool {
    exists|i: int| 0 <= i < idx.len() && (#[trigger] idx[i]).vars@.contains(v)
}

/// `v` is still to be bound.
spec fn is_open(idx: Seq<AtomIndex>, order: Seq<VarId>, depth: int, v: VarId) -> bool {
    order.contains(v) && relational::place(order, v) >= depth && constrained(idx, v)
}

/// Every atom has a row that the assignment spells.
pub open spec fn all_hold(idx: Seq<AtomIndex>, s: Seq<Id>) -> bool {
    forall|i: int| 0 <= i < idx.len() ==> relational::row_holds(&(#[trigger] idx[i]), s)
}

/// `s` is an answer that extends `base` beyond depth.
spec fn answers(
    idx: Seq<AtomIndex>,
    order: Seq<VarId>,
    depth: int,
    base: Seq<Id>,
    s: Seq<Id>,
) -> bool {
    &&& s.len() == base.len()
    &&& all_hold(idx, s)
    &&& forall|v: VarId|
        v < base.len() && !#[trigger] is_open(idx, order, depth, v) ==> s[v as int] == base[v as int]
}

/// The indexes fit the ordering, and the ordering the assignment.
pub open spec fn ready(idx: Seq<AtomIndex>, order: Seq<VarId>, n_vars: nat) -> bool {
    &&& relational::is_ordering(order)
    &&& forall|i: int| 0 <= i < order.len() ==> (#[trigger] order[i]) < n_vars
    &&& forall|i: int|
        0 <= i < idx.len() ==> relational::in_order((#[trigger] idx[i]).vars@, order)
            && relational::is_trie(idx[i].trie.rows@, idx[i].vars@.len()) && idx[i].vars@.len() > 0
            && idx[i].trie.rows@.len() <= usize::MAX
}

/// The stand fits the assignment at this depth.
spec fn stands(
    idx: Seq<AtomIndex>,
    order: Seq<VarId>,
    depth: int,
    st: Stand,
    base: Seq<Id>,
) -> bool {
    &&& st.runs.len() == idx.len()
    &&& st.at.len() == idx.len()
    &&& forall|i: int|
        0 <= i < idx.len() ==> stand_ok(idx[i], order, depth, #[trigger] st.runs[i], st.at[i], base)
}

spec fn stand_ok(
    ix: AtomIndex,
    order: Seq<VarId>,
    depth: int,
    run: (usize, usize),
    at: usize,
    base: Seq<Id>,
) -> bool {
    &&& at <= ix.vars@.len()
    &&& forall|j: int|
        0 <= j < at ==> relational::place(order, #[trigger] ix.vars@[j]) < depth
    &&& forall|j: int|
        at <= j < ix.vars@.len() ==> relational::place(order, #[trigger] ix.vars@[j]) >= depth
    &&& run.0 <= run.1 <= ix.trie.rows@.len()
    &&& forall|r: int|
        0 <= r < ix.trie.rows@.len() ==> ((run.0 <= r < run.1) <==> #[trigger] agrees(
            ix,
            r,
            at as int,
            base,
        ))
    &&& at > 0 ==> run.0 < run.1
}

proof fn lemma_place(order: Seq<VarId>, i: int)
    requires
        relational::is_ordering(order),
        0 <= i < order.len(),
    ensures
        relational::place(order, order[i]) == i,
        order.contains(order[i]),
{
}

proof fn lemma_places_differ(order: Seq<VarId>, a: VarId, b: VarId)
    requires
        order.contains(a),
        order.contains(b),
        relational::place(order, a) == relational::place(order, b),
    ensures
        a == b,
{
    let i = relational::place(order, a);
    assert(order[i] == a);
}

/// The run of a stand has a common prefix, and its keys are as they should be.
proof fn lemma_offers(
    ix: AtomIndex,
    order: Seq<VarId>,
    depth: int,
    run: (usize, usize),
    at: usize,
    base: Seq<Id>,
)
    requires
        stand_ok(ix, order, depth, run, at, base),
        relational::is_trie(ix.trie.rows@, ix.vars@.len()),
        ix.trie.rows@.len() <= usize::MAX,
        at < ix.vars@.len(),
    ensures
        kids_ok(
            ix.trie.rows@,
            at as int,
            run.0 as int,
            run.1 as int,
            kids(ix.trie.rows@, at as int, run.0 as int, run.1 as int),
        ),
{
    let rows = ix.trie.rows@;
    assert(common_prefix(rows, at as int, run.0 as int, run.1 as int)) by {
        assert forall|i: int, j: int, k: int| run.0 <= i < run.1 && run.0 <= j < run.1 && 0 <= k < at
            implies #[trigger] rows[i]@[k]
            == #[trigger] rows[j]@[k] by {
            assert(agrees(ix, i, at as int, base));
            assert(agrees(ix, j, at as int, base));
            assert(rows[i]@[k] == base[ix.vars@[k] as int]);
            assert(rows[j]@[k] == base[ix.vars@[k] as int]);
        }
    }
    lemma_kids(rows, ix.vars@.len(), at as int, run.0 as int, run.1 as int);
}

/// Binding a variable that the atom takes part in narrows its run.
proof fn lemma_bind_part(
    ix: AtomIndex,
    order: Seq<VarId>,
    depth: int,
    run: (usize, usize),
    at: usize,
    base: Seq<Id>,
    x: VarId,
    v: Id,
)
    requires
        stand_ok(ix, order, depth, run, at, base),
        relational::is_ordering(order),
        relational::in_order(ix.vars@, order),
        relational::is_trie(ix.trie.rows@, ix.vars@.len()),
        ix.trie.rows@.len() <= usize::MAX,
        takes_part(ix, x, at),
        0 <= depth < order.len(),
        order[depth] == x,
        forall|i: int| 0 <= i < order.len() ==> (#[trigger] order[i]) < base.len(),
        has_kid(kids(ix.trie.rows@, at as int, run.0 as int, run.1 as int), v),
    ensures
        stand_ok(
            ix,
            order,
            depth + 1,
            kid_of(kids(ix.trie.rows@, at as int, run.0 as int, run.1 as int), v),
            (at + 1) as usize,
            base.update(x as int, v),
        ),
{
    let rows = ix.trie.rows@;
    assert(ix.vars.len() == ix.vars@.len());
    let ks = kids(rows, at as int, run.0 as int, run.1 as int);
    lemma_offers(ix, order, depth, run, at, base);
    let k = choose|k: int| 0 <= k < ks.len() && (#[trigger] ks[k]).0 == v;
    let run2 = kid_of(ks, v);
    assert(run2 == (ks[k].1, ks[k].2));
    let b2 = base.update(x as int, v);
    lemma_place(order, depth);
    assert forall|j: int| 0 <= j < at + 1
        implies relational::place(order, #[trigger] ix.vars@[j]) < depth + 1 by {}
    assert forall|j: int| at + 1 <= j < ix.vars@.len()
        implies relational::place(order, #[trigger] ix.vars@[j]) >= depth + 1 by {
        assert(relational::place(order, ix.vars@[at as int]) < relational::place(order, ix.vars@[j]));
    }
    assert forall|j: int| 0 <= j < at
        implies #[trigger] ix.vars@[j] != x && ix.vars@[j] < base.len() by {
        assert(relational::place(order, ix.vars@[j]) < depth);
        assert(order.contains(ix.vars@[j]));
        assert(order[relational::place(order, ix.vars@[j])] == ix.vars@[j]);
    }
    assert forall|r: int| 0 <= r < rows.len() implies ((run2.0 <= r < run2.1) <==> #[trigger] agrees(
        ix,
        r,
        at + 1,
        b2,
    )) by {
        assert((run.0 <= r < run.1) <==> agrees(ix, r, at as int, base));
        if run2.0 <= r < run2.1 {
            assert(agrees(ix, r, at as int, base));
            assert(rows[r]@[at as int] == ks[k].0);
            assert forall|j: int| 0 <= j < at + 1
                implies rows[r]@[j] == b2[#[trigger] ix.vars@[j] as int] by {
                if j < at {
                    assert(rows[r]@[j] == base[ix.vars@[j] as int]);
                    assert(ix.vars@[j] != x);
                }
            }
        }
        if agrees(ix, r, at + 1, b2) {
            assert forall|j: int| 0 <= j < at
                implies rows[r]@[j] == base[#[trigger] ix.vars@[j] as int] by {
                assert(rows[r]@[j] == b2[ix.vars@[j] as int]);
                assert(ix.vars@[j] != x);
            }
            assert(agrees(ix, r, at as int, base));
            assert(rows[r]@[at as int] == b2[ix.vars@[at as int] as int]);
            assert((ks[k].1 <= r < ks[k].2) <==> rows[r]@[at as int] == ks[k].0);
        }
    }
}

/// Binding a variable that the atom does not take part in leaves its run.
proof fn lemma_bind_other(
    ix: AtomIndex,
    order: Seq<VarId>,
    depth: int,
    run: (usize, usize),
    at: usize,
    base: Seq<Id>,
    base2: Seq<Id>,
    x: VarId,
)
    requires
        stand_ok(ix, order, depth, run, at, base),
        relational::is_ordering(order),
        relational::in_order(ix.vars@, order),
        !takes_part(ix, x, at),
        0 <= depth < order.len(),
        order[depth] == x,
        forall|w: int| 0 <= w < base.len() && w != x ==> #[trigger] base2[w] == base[w],
        forall|i: int| 0 <= i < order.len() ==> (#[trigger] order[i]) < base.len(),
    ensures
        stand_ok(ix, order, depth + 1, run, at, base2),
        !ix.vars@.contains(x),
{
    lemma_place(order, depth);
    assert(!ix.vars@.contains(x)) by {
        if ix.vars@.contains(x) {
            let j = choose|j: int| 0 <= j < ix.vars@.len() && ix.vars@[j] == x;
            if j < at {
                assert(relational::place(order, ix.vars@[j]) < depth);
            } else if j > at {
                assert(relational::place(order, ix.vars@[at as int]) < relational::place(
                    order,
                    ix.vars@[j],
                ));
                assert(relational::place(order, ix.vars@[at as int]) >= depth);
            }
        }
    }
    assert forall|j: int| at <= j < ix.vars@.len()
        implies relational::place(order, #[trigger] ix.vars@[j]) >= depth + 1 by {
        if relational::place(order, ix.vars@[j]) == depth {
            assert(order.contains(ix.vars@[j]));
            lemma_places_differ(order, ix.vars@[j], x);
            assert(ix.vars@.contains(ix.vars@[j]));
        }
    }
    assert forall|r: int| 0 <= r < ix.trie.rows@.len()
        implies ((run.0 <= r < run.1) <==> #[trigger] agrees(
        ix,
        r,
        at as int,
        base2,
    )) by {
        assert((run.0 <= r < run.1) <==> agrees(ix, r, at as int, base));
        assert forall|j: int| 0 <= j < at
            implies base2[#[trigger] ix.vars@[j] as int] == base[ix.vars@[j] as int] by {
            assert(ix.vars@.contains(ix.vars@[j]));
            assert(order.contains(ix.vars@[j]));
            let p = relational::place(order, ix.vars@[j]);
            assert(order[p] == ix.vars@[j]);
        }
        if agrees(ix, r, at as int, base) {
            assert forall|j: int| 0 <= j < at
                implies ix.trie.rows@[r]@[j] == base2[#[trigger] ix.vars@[j] as int] by {
                assert(ix.trie.rows@[r]@[j] == base[ix.vars@[j] as int]);
            }
        }
        if agrees(ix, r, at as int, base2) {
            assert forall|j: int| 0 <= j < at
                implies ix.trie.rows@[r]@[j] == base[#[trigger] ix.vars@[j] as int] by {
                assert(ix.trie.rows@[r]@[j] == base2[ix.vars@[j] as int]);
            }
        }
    }
}

/// An answer gives the next variable a key that every atom with it offers.
proof fn lemma_answer_offered(
    idx: Seq<AtomIndex>,
    order: Seq<VarId>,
    depth: int,
    st: Stand,
    base: Seq<Id>,
    s: Seq<Id>,
    i: int,
)
    requires
        ready(idx, order, base.len()),
        stands(idx, order, depth, st, base),
        0 <= depth < order.len(),
        answers(idx, order, depth, base, s),
        0 <= i < idx.len(),
        takes_part(idx[i], order[depth], st.at[i]),
    ensures
        has_kid(offers(idx, st, i), s[order[depth] as int]),
{
    let ix = idx[i];
    let at = st.at[i];
    let run = st.runs[i];
    assert(stand_ok(idx[i], order, depth, st.runs[i], st.at[i], base));
    lemma_offers(ix, order, depth, run, at, base);
    assert(relational::row_holds(&idx[i], s));
    let r = choose|r: int|
        0 <= r < ix.trie.rows@.len() && relational::spells(ix.vars@, (#[trigger] ix.trie.rows@[r])@, s);
    assert(agrees(ix, r, at as int, base)) by {
        assert forall|j: int| 0 <= j < at
            implies ix.trie.rows@[r]@[j] == base[#[trigger] ix.vars@[j] as int] by {
            assert(ix.trie.rows@[r]@[j] == s[ix.vars@[j] as int]);
            let v = ix.vars@[j];
            assert(relational::place(order, ix.vars@[j]) < depth);
            assert(!is_open(idx, order, depth, v));
            assert(order.contains(v));
            assert(order[relational::place(order, v)] == v);
        }
    }
    assert(run.0 <= r < run.1);
    assert(ix.trie.rows@[r]@[at as int] == s[ix.vars@[at as int] as int]);
}

/// Binding a constrained variable splits the answers by its value.
proof fn lemma_answers_split(
    idx: Seq<AtomIndex>,
    order: Seq<VarId>,
    depth: int,
    base: Seq<Id>,
    v: Id,
    s: Seq<Id>,
)
    requires
        relational::is_ordering(order),
        0 <= depth < order.len(),
        order[depth] < base.len(),
        constrained(idx, order[depth]),
    ensures
        answers(idx, order, depth + 1, base.update(order[depth] as int, v), s) <==> answers(
            idx,
            order,
            depth,
            base,
            s,
        ) && s[order[depth] as int] == v,
{
    let x = order[depth];
    let b2 = base.update(x as int, v);
    lemma_place(order, depth);
    assert forall|w: VarId| w < base.len()
        implies #[trigger] is_open(idx, order, depth + 1, w) == (is_open(
        idx,
        order,
        depth,
        w,
    ) && w != x) by {
        if order.contains(w) && relational::place(order, w) == depth {
            lemma_places_differ(order, w, x);
        }
    }
    if answers(idx, order, depth + 1, b2, s) {
        assert(!is_open(idx, order, depth + 1, x));
        assert forall|w: VarId| w < base.len() && !#[trigger] is_open(idx, order, depth, w)
            implies s[w as int]
            == base[w as int] by {
            assert(!is_open(idx, order, depth + 1, w));
            assert(w != x);
        }
    }
    if answers(idx, order, depth, base, s) && s[x as int] == v {
        assert forall|w: VarId| w < b2.len() && !#[trigger] is_open(idx, order, depth + 1, w)
            implies s[w as int]
            == b2[w as int] by {
            if w != x {
                assert(!is_open(idx, order, depth, w));
            }
        }
    }
}

/// The rows of a list, as values.
pub open spec fn values(found: Seq<Vec<Id>>) -> Seq<Seq<Id>> {
    found.map_values(|r: Vec<Id>| r@)
}

/// The list holds exactly the answers, each once.
spec fn lists_answers(
    found: Seq<Vec<Id>>,
    idx: Seq<AtomIndex>,
    order: Seq<VarId>,
    depth: int,
    base: Seq<Id>,
) -> bool {
    &&& values(found).no_duplicates()
    &&& forall|s: Seq<Id>| #[trigger]
        values(found).contains(s) <==> answers(idx, order, depth, base, s)
}

/// The exec stand, as a value.
spec fn stand_of(runs: Seq<(usize, usize)>, at: Seq<usize>) -> Stand {
    Stand { runs, at }
}

/// Lists the atoms that bind `x` next.
fn list_parts(idx: &[AtomIndex], x: VarId, runs: &Vec<(usize, usize)>, at: &Vec<usize>) -> (ps: Vec<
    usize,
>)
    requires
        runs@.len() == idx@.len(),
        at@.len() == idx@.len(),
    ensures
        ps@ == parts(idx@, x, stand_of(runs@, at@), idx@.len()),
{
    let mut ps: Vec<usize> = Vec::new();
    for i in 0..idx.len()
        invariant
            runs@.len() == idx@.len(),
            at@.len() == idx@.len(),
            ps@ == parts(idx@, x, stand_of(runs@, at@), i as nat),
    {
        if at[i] < idx[i].vars.len() && idx[i].vars[at[i]] == x {
            ps.push(i);
        }
    }
    ps
}

proof fn lemma_parts(idx: Seq<AtomIndex>, x: VarId, st: Stand, n: nat)
    requires
        n <= idx.len() <= usize::MAX,
    ensures
        forall|k: int|
            0 <= k < parts(idx, x, st, n).len() ==> (#[trigger] parts(idx, x, st, n)[k]) < n
                && takes_part(
                idx[parts(idx, x, st, n)[k] as int],
                x,
                st.at[parts(idx, x, st, n)[k] as int],
            ),
        forall|i: int|
            0 <= i < n && takes_part(#[trigger] idx[i], x, st.at[i]) ==> parts(idx, x, st, n).contains(
                i as usize,
            ),
    decreases n,
{
    if n > 0 {
        let before = parts(idx, x, st, (n - 1) as nat);
        let ps = parts(idx, x, st, n);
        lemma_parts(idx, x, st, (n - 1) as nat);
        assert forall|k: int| 0 <= k < ps.len() implies (#[trigger] ps[k]) < n && takes_part(
            idx[ps[k] as int],
            x,
            st.at[ps[k] as int],
        ) by {
            if k < before.len() {
                assert(ps[k] == before[k]);
            }
        }
        assert forall|i: int| 0 <= i < n && takes_part(#[trigger] idx[i], x, st.at[i])
            implies ps.contains(
            i as usize,
        ) by {
            if i < n - 1 {
                assert(before.contains(i as usize));
                let k = choose|k: int| 0 <= k < before.len() && before[k] == i as usize;
                assert(ps[k] == i as usize);
            } else {
                assert(ps[before.len() as int] == i as usize);
            }
        }
    }
}

/// The keys that each part offers.
fn list_offers(
    idx: &[AtomIndex],
    runs: &Vec<(usize, usize)>,
    at: &Vec<usize>,
    ps: &Vec<usize>,
) -> (ks: Vec<Vec<Kid>>)
    requires
        runs@.len() == idx@.len(),
        at@.len() == idx@.len(),
        forall|k: int|
            0 <= k < ps@.len() ==> {
                let i = #[trigger] ps@[k] as int;
                &&& i < idx@.len()
                &&& at@[i] < idx@[i].vars@.len()
                &&& relational::is_trie(idx@[i].trie.rows@, idx@[i].vars@.len())
                &&& runs@[i].0 <= runs@[i].1 <= idx@[i].trie.rows@.len()
            },
    ensures
        ks@.len() == ps@.len(),
        forall|k: int|
            0 <= k < ps@.len() ==> (#[trigger] ks@[k])@ == offers(
                idx@,
                stand_of(runs@, at@),
                ps@[k] as int,
            ),
{
    let mut ks: Vec<Vec<Kid>> = Vec::new();
    for k in 0..ps.len()
        invariant
            runs@.len() == idx@.len(),
            at@.len() == idx@.len(),
            forall|k: int|
                0 <= k < ps@.len() ==> {
                    let i = #[trigger] ps@[k] as int;
                    &&& i < idx@.len()
                    &&& at@[i] < idx@[i].vars@.len()
                    &&& relational::is_trie(idx@[i].trie.rows@, idx@[i].vars@.len())
                    &&& runs@[i].0 <= runs@[i].1 <= idx@[i].trie.rows@.len()
                },
            ks@.len() == k,
            forall|j: int|
                0 <= j < k ==> (#[trigger] ks@[j])@ == offers(
                    idx@,
                    stand_of(runs@, at@),
                    ps@[j] as int,
                ),
    {
        let i = ps[k];
        assert(ps@[k as int] < idx@.len());
        let list = list_kids(
            &idx[i].trie.rows,
            at[i],
            runs[i].0,
            runs[i].1,
            Ghost(idx@[i as int].vars@.len()),
        );
        ks.push(list);
    }
    ks
}

/// The part with the fewest keys.
fn pick_lead(ks: &Vec<Vec<Kid>>, idx: Ghost<Seq<AtomIndex>>, st: Ghost<Stand>, ps: &Vec<usize>) -> (lead:
    usize)
    requires
        ks@.len() == ps@.len(),
        ps@.len() > 0,
        forall|k: int|
            0 <= k < ps@.len() ==> (#[trigger] ks@[k])@ == offers(idx@, st@, ps@[k] as int),
    ensures
        lead == fewest(idx@, st@, ps@, ps@.len()),
        lead < ps@.len(),
{
    let mut lead: usize = 0;
    for k in 1..ks.len()
        invariant
            ks@.len() == ps@.len(),
            ps@.len() > 0,
            lead < k,
            forall|k: int|
                0 <= k < ps@.len() ==> (#[trigger] ks@[k])@ == offers(idx@, st@, ps@[k] as int),
            lead == fewest(idx@, st@, ps@, k as nat),
    {
        assert(ks@[k as int]@ == offers(idx@, st@, ps@[k as int] as int));
        assert(ks@[lead as int]@ == offers(idx@, st@, ps@[lead as int] as int));
        if ks[k].len() < ks[lead].len() {
            lead = k;
        }
    }
    lead
}

fn copy_runs(v: &Vec<(usize, usize)>) -> (r: Vec<(usize, usize)>)
    ensures
        r@ == v@,
{
    let mut r: Vec<(usize, usize)> = Vec::new();
    for i in 0..v.len()
        invariant
            r@ == v@.take(i as int),
    {
        r.push(v[i]);
        assert(r@ =~= v@.take(i + 1));
    }
    assert(v@.take(v@.len() as int) =~= v@);
    r
}

/// Asks the other parts for a key; the stand with it bound where all have it.
fn try_key(
    idx: &[AtomIndex],
    x: VarId,
    runs: &Vec<(usize, usize)>,
    at: &Vec<usize>,
    ps: &Vec<usize>,
    ks: &Vec<Vec<Kid>>,
    lead: usize,
    key: Kid,
    probes: &mut u64,
) -> (r: Option<(Vec<(usize, usize)>, Vec<usize>)>)
    requires
        runs@.len() == idx@.len(),
        at@.len() == idx@.len(),
        idx@.len() <= usize::MAX,
        ps@ == parts(idx@, x, stand_of(runs@, at@), idx@.len()),
        ks@.len() == ps@.len(),
        lead < ps@.len(),
        forall|k: int|
            0 <= k < ps@.len() ==> (#[trigger] ks@[k])@ == offers(
                idx@,
                stand_of(runs@, at@),
                ps@[k] as int,
            ),
        forall|k: int, i: int, j: int|
            0 <= k < ps@.len() && 0 <= i < j < ks@[k]@.len() ==> (#[trigger] ks@[k]@[i]).0 < (
            #[trigger] ks@[k]@[j]).0,
        ks@[lead as int]@.contains(key),
    ensures
        r is Some <==> all_offer(
            idx@,
            stand_of(runs@, at@),
            ps@,
            lead as int,
            key.0,
            ps@.len(),
        ),
        r matches Some((runs2, at2)) ==> stand_of(runs2@, at2@) == bind(
            idx@,
            x,
            stand_of(runs@, at@),
            key.0,
        ),
        *final(probes) == math::capped(
            *old(probes) + asked(
                idx@,
                stand_of(runs@, at@),
                ps@,
                lead as int,
                key.0,
                ps@.len(),
            ),
        ),
{
    let ghost st = stand_of(runs@, at@);
    let ghost v = key.0;
    let mut runs2 = copy_runs(runs);
    let mut at2: Vec<usize> = at.clone();
    assert(at2@ =~= at@);
    proof {
        lemma_parts(idx@, x, st, idx@.len());
        lemma_parts_distinct(idx@, x, st, idx@.len());
    }
    for k in 0..ps.len()
        invariant
            runs@.len() == idx@.len(),
            at@.len() == idx@.len(),
            runs2@.len() == idx@.len(),
            at2@.len() == idx@.len(),
            st == stand_of(runs@, at@),
            v == key.0,
            ps@ == parts(idx@, x, st, idx@.len()),
            ks@.len() == ps@.len(),
            lead < ps@.len(),
            forall|i: int, j: int| 0 <= i < j < ps@.len() ==> #[trigger] ps@[i] < #[trigger] ps@[j],
            forall|k: int|
                0 <= k < ps@.len() ==> (#[trigger] ps@[k]) < idx@.len() && takes_part(
                    idx@[ps@[k] as int],
                    x,
                    st.at[ps@[k] as int],
                ),
            forall|k: int|
                0 <= k < ps@.len() ==> (#[trigger] ks@[k])@ == offers(idx@, st, ps@[k] as int),
            forall|k: int, i: int, j: int|
                0 <= k < ps@.len() && 0 <= i < j < ks@[k]@.len() ==> (#[trigger] ks@[k]@[i]).0 < (
                #[trigger] ks@[k]@[j]).0,
            ks@[lead as int]@.contains(key),
            all_offer(idx@, st, ps@, lead as int, v, k as nat),
            forall|j: int|
                0 <= j < k ==> runs2@[#[trigger] ps@[j] as int] == kid_of(
                    offers(idx@, st, ps@[j] as int),
                    v,
                ) && at2@[ps@[j] as int] == st.at[ps@[j] as int] + 1,
            forall|i: int|
                0 <= i < idx@.len() && !ps@.take(k as int).contains(i as usize) ==> #[trigger] runs2@[i]
                    == runs@[i],
            forall|i: int|
                0 <= i < idx@.len() && !ps@.take(k as int).contains(i as usize) ==> #[trigger] at2@[i]
                    == at@[i],
            *probes == math::capped(*old(probes) + asked(idx@, st, ps@, lead as int, v, k as nat)),
    {
        let i = ps[k];
        assert(ps@[k as int] < idx@.len());
        assert(ks@[k as int]@ == offers(idx@, st, ps@[k as int] as int));
        proof {
            assert(ps@.take(k + 1) =~= ps@.take(k as int).push(i));
            assert forall|w: usize| #[trigger] ps@.take(k + 1).contains(w) <==> ps@.take(k as int).contains(w) || w == i by {
                crate::graph::lemma_push_contains(ps@.take(k as int), i, w);
            }
        }
        if k != lead {
            math::tick(probes);
            match find_kid(&ks[k], key.0) {
                Some(run) => {
                    runs2.set(i, run);
                },
                None => {
                    proof {
                        assert(!has_kid(offers(idx@, st, ps@[k as int] as int), v));
                        lemma_asked_stops(idx@, st, ps@, lead as int, v, (k + 1) as nat, ps@.len());
                    }
                    return None;
                },
            }
        } else {
            runs2.set(i, (key.1, key.2));
            proof {
                let ls = ks@[lead as int]@;
                let m = choose|m: int| 0 <= m < ls.len() && ls[m] == key;
                assert(has_kid(ls, v)) by {
                    assert(ls[m].0 == v);
                }
                let c = choose|c: int| 0 <= c < ls.len() && (#[trigger] ls[c]).0 == v;
                if c < m {
                    assert(ks@[lead as int]@[c].0 < ks@[lead as int]@[m].0);
                } else if m < c {
                    assert(ks@[lead as int]@[m].0 < ks@[lead as int]@[c].0);
                }
            }
        }
        assert(takes_part(idx@[ps@[k as int] as int], x, st.at[ps@[k as int] as int]));
        assert(!ps@.take(k as int).contains(i)) by {
            if ps@.take(k as int).contains(i) {
                let j = choose|j: int| 0 <= j < k && ps@.take(k as int)[j] == i;
                assert(ps@[j] < ps@[k as int]);
            }
        }
        assert(idx@[i as int].vars.len() == idx@[i as int].vars@.len());
        at2.set(i, at[i] + 1);
        proof {
            assert forall|j: int| 0 <= j < k + 1 implies runs2@[#[trigger] ps@[j] as int] == kid_of(
                offers(idx@, st, ps@[j] as int),
                v,
            ) && at2@[ps@[j] as int] == st.at[ps@[j] as int] + 1 by {
                if j < k {
                    assert(ps@[j] < ps@[k as int]);
                }
            }
        }
    }
    proof {
        let b = bind(idx@, x, st, v);
        assert forall|i: int| 0 <= i < idx@.len()
            implies runs2@[i] == b.runs[i] && at2@[i] == b.at[i] by {
            assert(ps@.take(ps@.len() as int) =~= ps@);
            if takes_part(idx@[i], x, st.at[i]) {
                assert(ps@.contains(i as usize));
                let j = choose|j: int| 0 <= j < ps@.len() && ps@[j] == i as usize;
                assert(runs2@[ps@[j] as int] == kid_of(offers(idx@, st, ps@[j] as int), v));
            } else {
                if ps@.contains(i as usize) {
                    let j = choose|j: int| 0 <= j < ps@.len() && ps@[j] == i as usize;
                    assert(takes_part(idx@[ps@[j] as int], x, st.at[ps@[j] as int]));
                }
                assert(runs2@[i] == runs@[i]);
                assert(at2@[i] == at@[i]);
            }
        }
        assert(runs2@ =~= b.runs);
        assert(at2@ =~= b.at);
    }
    Some((runs2, at2))
}

proof fn lemma_parts_distinct(idx: Seq<AtomIndex>, x: VarId, st: Stand, n: nat)
    requires
        n <= idx.len() <= usize::MAX,
    ensures
        forall|i: int, j: int|
            0 <= i < j < parts(idx, x, st, n).len() ==> #[trigger] parts(idx, x, st, n)[i]
                < #[trigger] parts(idx, x, st, n)[j],
    decreases n,
{
    if n > 0 {
        lemma_parts_distinct(idx, x, st, (n - 1) as nat);
        lemma_parts(idx, x, st, (n - 1) as nat);
        let before = parts(idx, x, st, (n - 1) as nat);
        let ps = parts(idx, x, st, n);
        assert forall|i: int, j: int| 0 <= i < j < ps.len()
            implies #[trigger] ps[i] < #[trigger] ps[j] by {
            if j < before.len() {
                assert(before[i] < before[j]);
            } else {
                assert(before[i] < n - 1);
            }
        }
    }
}

/// Nobody is asked after the first that lacks the key.
proof fn lemma_asked_stops(
    idx: Seq<AtomIndex>,
    st: Stand,
    ps: Seq<usize>,
    lead: int,
    v: Id,
    k: nat,
    n: nat,
)
    requires
        k <= n,
        !all_offer(idx, st, ps, lead, v, k),
    ensures
        asked(idx, st, ps, lead, v, n) == asked(idx, st, ps, lead, v, k),
    decreases n,
{
    if k < n {
        lemma_asked_stops(idx, st, ps, lead, v, k, (n - 1) as nat);
        assert(!all_offer(idx, st, ps, lead, v, (n - 1) as nat)) by {
            let j = choose|j: int|
                0 <= j < k && j != lead && !has_kid(offers(idx, st, (#[trigger] ps[j]) as int), v);
            assert(!has_kid(offers(idx, st, ps[j] as int), v));
        }
    }
}

/// The answers whose next variable has one of the first `k` keys of the lead.
spec fn lists_keys(
    found: Seq<Vec<Id>>,
    idx: Seq<AtomIndex>,
    order: Seq<VarId>,
    depth: int,
    base: Seq<Id>,
    keys: Seq<Kid>,
    k: int,
) -> bool {
    &&& values(found).no_duplicates()
    &&& forall|s: Seq<Id>| #[trigger]
        values(found).contains(s) <==> answers(idx, order, depth, base, s) && has_kid(
            keys.take(k),
            s[order[depth] as int],
        )
}

/// One more key: the answers with it are appended.
proof fn lemma_lists_key(
    found: Seq<Vec<Id>>,
    more: Seq<Vec<Id>>,
    idx: Seq<AtomIndex>,
    order: Seq<VarId>,
    depth: int,
    base: Seq<Id>,
    keys: Seq<Kid>,
    k: int,
)
    requires
        0 <= k < keys.len(),
        forall|i: int, j: int|
            0 <= i < j < keys.len() ==> (#[trigger] keys[i]).0 < (#[trigger] keys[j]).0,
        lists_keys(found, idx, order, depth, base, keys, k),
        values(more).no_duplicates(),
        forall|s: Seq<Id>| #[trigger]
            values(more).contains(s) <==> answers(idx, order, depth, base, s)
                && s[order[depth] as int] == keys[k].0,
    ensures
        lists_keys(found + more, idx, order, depth, base, keys, k + 1),
{
    let x = order[depth] as int;
    let a = values(found);
    let b = values(more);
    let all = values(found + more);
    assert(all =~= a + b);
    let before = keys.take(k);
    let now = keys.take(k + 1);
    assert forall|v: Id| #[trigger] has_kid(now, v) <==> has_kid(before, v) || v == keys[k].0 by {
        if has_kid(now, v) {
            let i = choose|i: int| 0 <= i < now.len() && (#[trigger] now[i]).0 == v;
            if i < k {
                assert(before[i].0 == v);
            }
        }
        if has_kid(before, v) {
            let i = choose|i: int| 0 <= i < before.len() && (#[trigger] before[i]).0 == v;
            assert(now[i].0 == v);
        }
        if v == keys[k].0 {
            assert(now[k].0 == v);
        }
    }
    assert(!has_kid(before, keys[k].0)) by {
        if has_kid(before, keys[k].0) {
            let i = choose|i: int| 0 <= i < before.len() && (#[trigger] before[i]).0 == keys[k].0;
            assert(keys[i].0 < keys[k].0);
        }
    }
    assert forall|s: Seq<Id>| #[trigger] all.contains(s) <==> answers(idx, order, depth, base, s) && has_kid(
        now,
        s[x],
    ) by {
        assert(all.contains(s) <==> a.contains(s) || b.contains(s)) by {
            if all.contains(s) {
                let i = choose|i: int| 0 <= i < all.len() && all[i] == s;
                if i < a.len() {
                    assert(a[i] == s);
                } else {
                    assert(b[i - a.len()] == s);
                }
            }
            if a.contains(s) {
                let i = choose|i: int| 0 <= i < a.len() && a[i] == s;
                assert(all[i] == s);
            }
            if b.contains(s) {
                let i = choose|i: int| 0 <= i < b.len() && b[i] == s;
                assert(all[i + a.len()] == s);
            }
        }
        assert(has_kid(now, s[x]) <==> has_kid(before, s[x]) || s[x] == keys[k].0);
    }
    assert(all.no_duplicates()) by {
        assert forall|i: int, j: int| 0 <= i < all.len() && 0 <= j < all.len() && i != j
            implies all[i] != all[j] by {
            if i < a.len() && j >= a.len() {
                assert(a.contains(a[i]));
                assert(b.contains(b[j - a.len()]));
            } else if j < a.len() && i >= a.len() {
                assert(a.contains(a[j]));
                assert(b.contains(b[i - a.len()]));
            }
        }
    }
}

/// At the end every atom's run is a row that the assignment spells.
proof fn lemma_last(idx: Seq<AtomIndex>, order: Seq<VarId>, st: Stand, base: Seq<Id>, s: Seq<Id>)
    requires
        ready(idx, order, base.len()),
        stands(idx, order, order.len() as int, st, base),
        base.len() <= usize::MAX,
    ensures
        answers(idx, order, order.len() as int, base, s) <==> s == base,
{
    let depth = order.len() as int;
    assert forall|i: int| 0 <= i < idx.len()
        implies relational::row_holds(&(#[trigger] idx[i]), base) by {
        let ix = idx[i];
        assert(stand_ok(idx[i], order, depth, st.runs[i], st.at[i], base));
        let at = st.at[i] as int;
        assert(at == ix.vars@.len()) by {
            if at < ix.vars@.len() {
                assert(order.contains(ix.vars@[at]));
                assert(relational::place(order, ix.vars@[at]) < order.len());
            }
        }
        let r = st.runs[i].0 as int;
        assert(agrees(ix, r, at, base));
        assert(relational::spells(ix.vars@, ix.trie.rows@[r]@, base)) by {
            assert forall|j: int| 0 <= j < ix.vars@.len()
                implies ix.trie.rows@[r]@[j] == base[#[trigger] ix.vars@[j] as int] by {}
        }
    }
    assert forall|v: VarId| !#[trigger] is_open(idx, order, depth, v) by {
        if order.contains(v) {
            assert(order[relational::place(order, v)] == v);
            assert(relational::place(order, v) < order.len());
        }
    }
    if answers(idx, order, depth, base, s) {
        assert forall|w: int| 0 <= w < base.len() implies s[w] == base[w] by {
            assert(!is_open(idx, order, depth, w as VarId));
        }
        assert(s =~= base);
    }
}

#[verifier::rlimit(60)]
fn gj(
    depth: usize,
    order: &[VarId],
    idx: &[AtomIndex],
    runs: &Vec<(usize, usize)>,
    at: &Vec<usize>,
    subst: &Vec<Id>,
    probes: &mut u64,
) -> (found: Vec<Vec<Id>>)
    requires
        depth <= order@.len(),
        ready(idx@, order@, subst@.len()),
        stands(idx@, order@, depth as int, stand_of(runs@, at@), subst@),
    ensures
        lists_answers(found@, idx@, order@, depth as int, subst@),
        *final(probes) == math::capped(
            *old(probes) + join_cost(idx@, order@, depth as nat, stand_of(runs@, at@)),
        ),
    decreases order@.len() - depth,
{
    let ghost st = stand_of(runs@, at@);
    let ghost base = subst@;
    let n_vars = subst.len();
    let n_idx = idx.len();
    let n_order = order.len();
    if depth == order.len() {
        let mut found: Vec<Vec<Id>> = Vec::new();
        found.push(crate::egraph::egraph::copy_ids(subst));
        proof {
            assert(values(found@) =~= seq![base]);
            assert forall|s: Seq<Id>| #[trigger] values(found@).contains(s) <==> answers(
                idx@,
                order@,
                depth as int,
                base,
                s,
            ) by {
                lemma_last(idx@, order@, st, base, s);
                assert(values(found@)[0] == base);
            }
        }
        return found;
    }
    let x = order[depth];
    proof {
        lemma_place(order@, depth as int);
    }
    let ps = list_parts(idx, x, runs, at);
    proof {
        lemma_parts(idx@, x, st, idx@.len());
    }
    if ps.len() == 0 {
        proof {
            assert forall|i: int| 0 <= i < idx@.len() implies stand_ok(
                idx@[i],
                order@,
                depth + 1,
                #[trigger] st.runs[i],
                st.at[i],
                base,
            ) && !idx@[i].vars@.contains(x) by {
                assert(stand_ok(idx@[i], order@, depth as int, st.runs[i], st.at[i], base));
                assert(!takes_part(idx@[i], x, st.at[i])) by {
                    if takes_part(idx@[i], x, st.at[i]) {
                        assert(ps@.contains(i as usize));
                    }
                }
                lemma_bind_other(
                    idx@[i],
                    order@,
                    depth as int,
                    st.runs[i],
                    st.at[i],
                    base,
                    base,
                    x,
                );
            }
            assert(!constrained(idx@, x)) by {
                if constrained(idx@, x) {
                    let i = choose|i: int| 0 <= i < idx@.len() && (#[trigger] idx@[i]).vars@.contains(x);
                    assert(stand_ok(idx@[i], order@, depth + 1, st.runs[i], st.at[i], base));
                }
            }
            assert forall|v: VarId| #[trigger] is_open(idx@, order@, depth + 1, v) == is_open(
                idx@,
                order@,
                depth as int,
                v,
            ) by {
                if order@.contains(v) && relational::place(order@, v) == depth {
                    lemma_places_differ(order@, v, x);
                }
            }
            assert forall|s: Seq<Id>| #[trigger] answers(idx@, order@, depth + 1, base, s) == answers(
                idx@,
                order@,
                depth as int,
                base,
                s,
            ) by {
                if answers(idx@, order@, depth + 1, base, s) {
                    assert forall|v: VarId| v < base.len() && !#[trigger] is_open(idx@, order@, depth as int, v)
                        implies s[v as int]
                        == base[v as int] by {
                        assert(!is_open(idx@, order@, depth + 1, v));
                    }
                }
                if answers(idx@, order@, depth as int, base, s) {
                    assert forall|v: VarId| v < base.len() && !#[trigger] is_open(idx@, order@, depth + 1, v)
                        implies s[v as int]
                        == base[v as int] by {
                        assert(!is_open(idx@, order@, depth as int, v));
                    }
                }
            }
        }
        let found = gj(depth + 1, order, idx, runs, at, subst, probes);
        proof {
            assert forall|s: Seq<Id>| #[trigger] values(found@).contains(s) <==> answers(
                idx@,
                order@,
                depth as int,
                base,
                s,
            ) by {
                assert(answers(idx@, order@, depth + 1, base, s) == answers(
                    idx@,
                    order@,
                    depth as int,
                    base,
                    s,
                ));
            }
        }
        return found;
    }
    proof {
        assert forall|k: int| 0 <= k < ps@.len() implies ({
            let i = #[trigger] ps@[k] as int;
            &&& i < idx@.len()
            &&& at@[i] < idx@[i].vars@.len()
            &&& relational::is_trie(idx@[i].trie.rows@, idx@[i].vars@.len())
            &&& runs@[i].0 <= runs@[i].1 <= idx@[i].trie.rows@.len()
        }) by {
            let i = ps@[k] as int;
            assert(takes_part(idx@[i], x, st.at[i]));
            assert(stand_ok(idx@[i], order@, depth as int, st.runs[i], st.at[i], base));
        }
    }
    let ks = list_offers(idx, runs, at, &ps);
    let lead = pick_lead(&ks, Ghost(idx@), Ghost(st), &ps);
    let ghost li = ps@[lead as int] as int;
    let ghost keys = ks@[lead as int]@;
    proof {
        assert forall|k: int| 0 <= k < ps@.len() implies kids_ok(
            idx@[ps@[k] as int].trie.rows@,
            st.at[ps@[k] as int] as int,
            st.runs[ps@[k] as int].0 as int,
            st.runs[ps@[k] as int].1 as int,
            (#[trigger] ks@[k])@,
        ) by {
            let i = ps@[k] as int;
            assert(takes_part(idx@[i], x, st.at[i]));
            assert(stand_ok(idx@[i], order@, depth as int, st.runs[i], st.at[i], base));
            assert(idx@[i].vars@.len() > 0);
            lemma_offers(idx@[i], order@, depth as int, st.runs[i], st.at[i], base);
        }
        assert forall|k: int, i: int, j: int| 0 <= k < ps@.len() && 0 <= i < j < ks@[k]@.len() implies (
        #[trigger] ks@[k]@[i]).0 < (#[trigger] ks@[k]@[j]).0 by {
            assert(kids_ok(
                idx@[ps@[k] as int].trie.rows@,
                st.at[ps@[k] as int] as int,
                st.runs[ps@[k] as int].0 as int,
                st.runs[ps@[k] as int].1 as int,
                ks@[k]@,
            ));
        }
        assert(takes_part(idx@[li], x, st.at[li]));
        assert(constrained(idx@, x)) by {
            assert(idx@[li].vars@.contains(x));
        }
        assert(ks@[lead as int]@ == offers(idx@, st, li));
    }
    let mut found: Vec<Vec<Id>> = Vec::new();
    proof {
        assert(values(found@) =~= Seq::<Seq<Id>>::empty());
        assert(lists_keys(found@, idx@, order@, depth as int, base, keys, 0)) by {
            assert(keys.take(0) =~= Seq::<Kid>::empty());
        }
    }
    let lead_keys = &ks[lead];
    for k in 0..lead_keys.len()
        invariant
            depth < order@.len(),
            n_vars == subst@.len(),
            n_idx == idx@.len(),
            n_order == order@.len(),
            ready(idx@, order@, subst@.len()),
            stands(idx@, order@, depth as int, st, base),
            base == subst@,
            st == stand_of(runs@, at@),
            x == order@[depth as int],
            ps@ == parts(idx@, x, st, idx@.len()),
            ps@.len() > 0,
            ks@.len() == ps@.len(),
            lead < ps@.len(),
            lead == fewest(idx@, st, ps@, ps@.len()),
            lead_keys@ == ks@[lead as int]@,
            keys == lead_keys@,
            li == ps@[lead as int],
            keys == offers(idx@, st, li),
            constrained(idx@, x),
            forall|k: int|
                0 <= k < ps@.len() ==> (#[trigger] ps@[k]) < idx@.len() && takes_part(
                    idx@[ps@[k] as int],
                    x,
                    st.at[ps@[k] as int],
                ),
            forall|i: int|
                0 <= i < idx@.len() && takes_part(#[trigger] idx@[i], x, st.at[i]) ==> ps@.contains(
                    i as usize,
                ),
            forall|k: int|
                0 <= k < ps@.len() ==> (#[trigger] ks@[k])@ == offers(idx@, st, ps@[k] as int),
            forall|k: int, i: int, j: int|
                0 <= k < ps@.len() && 0 <= i < j < ks@[k]@.len() ==> (#[trigger] ks@[k]@[i]).0 < (
                #[trigger] ks@[k]@[j]).0,
            lists_keys(found@, idx@, order@, depth as int, base, keys, k as int),
            *probes == math::capped(
                *old(probes) + keys_cost(
                    idx@,
                    order@,
                    depth as nat,
                    st,
                    ps@,
                    lead as int,
                    k as nat,
                ),
            ),
    {
        let key = lead_keys[k];
        let ghost v = key.0;
        proof {
            assert(lead_keys@[k as int] == key);
            assert(ks@[lead as int]@.contains(key));
        }
        math::tick(probes);
        let tried = try_key(idx, x, runs, at, &ps, &ks, lead, key, probes);
        proof {
            assert forall|i: int, j: int| 0 <= i < j < keys.len()
                implies (#[trigger] keys[i]).0 < (#[trigger] keys[j]).0 by {
                assert(ks@[lead as int]@[i].0 < ks@[lead as int]@[j].0);
            }
        }
        match tried {
            Some((runs2, at2)) => {
                let mut next = crate::egraph::egraph::copy_ids(subst);
                next.set(x, key.0);
                let ghost base2 = next@;
                let ghost st2 = stand_of(runs2@, at2@);
                proof {
                    assert(base2 =~= base.update(x as int, v));
                    assert forall|i: int| 0 <= i < idx@.len() implies stand_ok(
                        idx@[i],
                        order@,
                        depth + 1,
                        #[trigger] st2.runs[i],
                        st2.at[i],
                        base2,
                    ) by {
                        assert(stand_ok(idx@[i], order@, depth as int, st.runs[i], st.at[i], base));
                        if takes_part(idx@[i], x, st.at[i]) {
                            assert(ps@.contains(i as usize));
                            let j = choose|j: int| 0 <= j < ps@.len() && ps@[j] == i as usize;
                            assert(has_kid(offers(idx@, st, i), v)) by {
                                if j == lead {
                                    assert(keys[k as int].0 == v);
                                } else {
                                    assert(has_kid(offers(idx@, st, ps@[j] as int), v));
                                }
                            }
                            lemma_bind_part(
                                idx@[i],
                                order@,
                                depth as int,
                                st.runs[i],
                                st.at[i],
                                base,
                                x,
                                v,
                            );
                        } else {
                            lemma_bind_other(
                                idx@[i],
                                order@,
                                depth as int,
                                st.runs[i],
                                st.at[i],
                                base,
                                base2,
                                x,
                            );
                        }
                    }
                    assert(stands(idx@, order@, depth + 1, st2, base2));
                }
                let mut more = gj(depth + 1, order, idx, &runs2, &at2, &next, probes);
                proof {
                    assert forall|s: Seq<Id>| #[trigger] values(more@).contains(s) <==> answers(
                        idx@,
                        order@,
                        depth as int,
                        base,
                        s,
                    ) && s[order@[depth as int] as int] == keys[k as int].0 by {
                        lemma_answers_split(idx@, order@, depth as int, base, v, s);
                    }
                    lemma_lists_key(
                        found@,
                        more@,
                        idx@,
                        order@,
                        depth as int,
                        base,
                        keys,
                        k as int,
                    );
                }
                found.append(&mut more);
            },
            None => {
                proof {
                    let none = Seq::<Vec<Id>>::empty();
                    assert(values(none) =~= Seq::<Seq<Id>>::empty());
                    let j = choose|j: int|
                        0 <= j < ps@.len() && j != lead && !has_kid(
                            offers(idx@, st, (#[trigger] ps@[j]) as int),
                            v,
                        );
                    assert forall|s: Seq<Id>| #[trigger] values(none).contains(s) <==> answers(
                        idx@,
                        order@,
                        depth as int,
                        base,
                        s,
                    ) && s[order@[depth as int] as int] == keys[k as int].0 by {
                        if answers(idx@, order@, depth as int, base, s) && s[x as int] == v {
                            lemma_answer_offered(
                                idx@,
                                order@,
                                depth as int,
                                st,
                                base,
                                s,
                                ps@[j] as int,
                            );
                        }
                    }
                    lemma_lists_key(
                        found@,
                        none,
                        idx@,
                        order@,
                        depth as int,
                        base,
                        keys,
                        k as int,
                    );
                    assert(found@ + none =~= found@);
                }
            },
        }
    }
    proof {
        assert(keys.take(keys.len() as int) =~= keys);
        assert forall|s: Seq<Id>| #[trigger] values(found@).contains(s) <==> answers(
            idx@,
            order@,
            depth as int,
            base,
            s,
        ) by {
            if answers(idx@, order@, depth as int, base, s) {
                lemma_answer_offered(idx@, order@, depth as int, st, base, s, li);
            }
        }
    }
    found
}

/// Generic join: all assignments of `n_vars` variables under which every atom
/// holds, each once; variables that no atom speaks of are 0. `probes` counts
/// the keys looked at.
pub fn generic_join(order: &[VarId], idx: &[AtomIndex], n_vars: usize, probes: &mut u64) -> (found:
    Vec<Vec<Id>>)
    requires
        ready(idx@, order@, n_vars as nat),
    ensures
        values(found@).no_duplicates(),
        forall|s: Seq<Id>| #[trigger]
            values(found@).contains(s) <==> is_answer(idx@, n_vars as nat, s),
        *final(probes) == math::capped(*old(probes) + join_cost(idx@, order@, 0, start(idx@))),
{
    let mut runs: Vec<(usize, usize)> = Vec::new();
    let mut at: Vec<usize> = Vec::new();
    for i in 0..idx.len()
        invariant
            runs@.len() == i,
            at@.len() == i,
            forall|j: int|
                0 <= j < i ==> #[trigger] runs@[j] == (0usize, idx@[j].trie.rows@.len() as usize),
            forall|j: int| 0 <= j < i ==> #[trigger] at@[j] == 0,
    {
        runs.push((0, idx[i].trie.rows.len()));
        at.push(0);
    }
    let subst: Vec<Id> = vec![0; n_vars];
    proof {
        let st = stand_of(runs@, at@);
        assert(st.runs =~= start(idx@).runs);
        assert(st.at =~= start(idx@).at);
        assert forall|i: int| 0 <= i < idx@.len() implies stand_ok(
            idx@[i],
            order@,
            0,
            #[trigger] st.runs[i],
            st.at[i],
            subst@,
        ) by {
            let ix = idx@[i];
            assert(ix.trie.rows.len() == ix.trie.rows@.len());
            assert(relational::in_order(idx@[i].vars@, order@));
            assert forall|j: int| 0 <= j < ix.vars@.len()
                implies relational::place(order@, #[trigger] ix.vars@[j]) >= 0 by {
                assert(order@.contains(ix.vars@[j]));
            }
        }
        assert(stands(idx@, order@, 0, st, subst@));
    }
    let found = gj(0, order, idx, &runs, &at, &subst, probes);
    proof {
        assert forall|s: Seq<Id>| #[trigger] values(found@).contains(s) <==> is_answer(idx@, n_vars as nat, s) by {
            assert forall|v: VarId| v < n_vars
                implies #[trigger] is_open(idx@, order@, 0, v) == constrained(idx@, v) by {
                if constrained(idx@, v) {
                    let i = choose|i: int| 0 <= i < idx@.len() && (#[trigger] idx@[i]).vars@.contains(v);
                    let j = choose|j: int| 0 <= j < idx@[i].vars@.len() && idx@[i].vars@[j] == v;
                    assert(relational::in_order(idx@[i].vars@, order@));
                    assert(order@.contains(idx@[i].vars@[j]));
                }
            }
            if answers(idx@, order@, 0, subst@, s) {
                assert forall|v: VarId| v < n_vars && !#[trigger] constrained(idx@, v)
                    implies s[v as int] == 0 by {
                    assert(!is_open(idx@, order@, 0, v));
                }
            }
            if is_answer(idx@, n_vars as nat, s) {
                assert forall|v: VarId| v < subst@.len() && !#[trigger] is_open(idx@, order@, 0, v)
                    implies s[v as int]
                    == subst@[v as int] by {
                    assert(!constrained(idx@, v));
                }
            }
        }
    }
    found
}

/// The stand before anything is bound.
pub open spec fn start(idx: Seq<AtomIndex>) -> Stand {
    Stand {
        runs: Seq::new(idx.len(), |i: int| (0usize, idx[i].trie.rows@.len() as usize)),
        at: Seq::new(idx.len(), |i: int| 0usize),
    }
}

/// Every atom holds, and variables that no atom speaks of are 0.
pub open spec fn is_answer(idx: Seq<AtomIndex>, n_vars: nat, s: Seq<Id>) -> bool {
    &&& s.len() == n_vars
    &&& all_hold(idx, s)
    &&& forall|v: VarId| v < n_vars && !#[trigger] constrained(idx, v) ==> s[v as int] == 0
}

/// Some atom of the query speaks of `v`.
pub open spec fn mentioned(q: &Query, v: VarId) -> bool {
    exists|i: int| 0 <= i < q.atoms@.len() && (#[trigger] q.atoms@[i]).vars@.contains(v)
}

/// `s` is a match of the query: it satisfies every atom, and variables that no
/// atom speaks of are 0.
pub open spec fn is_match(q: &Query, db: Seq<relational::Relation>, s: Seq<Id>) -> bool {
    &&& s.len() == q.n_vars
    &&& relational::satisfies(q, db, s)
    &&& forall|v: VarId| v < q.n_vars && !#[trigger] mentioned(q, v) ==> s[v as int] == 0
}

/// The values of the head variables.
pub open spec fn project(head: Seq<VarId>, s: Seq<Id>) -> Seq<Id> {
    Seq::new(head.len(), |i: int| s[head[i] as int])
}

/// The rows are the projections of the matches, one for each match.
pub open spec fn reports(
    found: Seq<Seq<Id>>,
    q: &Query,
    db: Seq<relational::Relation>,
    rows: Seq<Seq<Id>>,
) -> bool {
    &&& found.no_duplicates()
    &&& forall|s: Seq<Id>| #[trigger] found.contains(s) <==> is_match(q, db, s)
    &&& rows.len() == found.len()
    &&& forall|i: int| 0 <= i < rows.len() ==> #[trigger] rows[i] == project(q.head@, found[i])
}

/// The query speaks only of variables that it has.
pub open spec fn well_posed(q: &Query) -> bool {
    &&& q.in_range()
    &&& forall|i: int| 0 <= i < q.atoms@.len() ==> (#[trigger] q.atoms@[i]).vars@.len() > 0
}

/// The keys that matching the query looks at, for the ordering and indexes
/// that the plan gives.
pub open spec fn planned(
    q: &Query,
    db: Seq<relational::Relation>,
    order: Seq<VarId>,
    idx: Seq<AtomIndex>,
) -> bool {
    &&& relational::is_ordering(order)
    &&& forall|v: VarId| #[trigger] order.contains(v) <==> v < q.n_vars
    &&& forall|i: int, j: int|
        0 <= i < j < order.len() ==> crate::sorting::Keyed::key(
            &relational::plan_key(q, db, #[trigger] order[i]),
        ) < crate::sorting::Keyed::key(&relational::plan_key(q, db, #[trigger] order[j]))
    &&& relational::indexes_query(idx, q, db, order)
}

/// Substitutions for the head variables, in head order: one row per match.
pub fn matches(q: &Query, db: &Database, probes: &mut u64) -> (rows: Vec<Vec<Id>>)
    requires
        well_posed(q),
        relational::wide_enough(q, db@),
    ensures
        exists|found: Seq<Seq<Id>>| reports(found, q, db@, values(rows@)),
        exists|order: Seq<VarId>, idx: Seq<AtomIndex>| #[trigger]
            planned(q, db@, order, idx) && *final(probes) == math::capped(
                *old(probes) + join_cost(idx, order, 0, start(idx)),
            ),
{
    let order = relational::plan(q, db);
    proof {
        assert forall|i: int, k: int| 0 <= i < q.atoms@.len() && 0 <= k < q.atoms@[i].vars@.len()
            implies order@.contains(
            #[trigger] q.atoms@[i].vars@[k],
        ) by {
            assert(q.atoms@[i].vars@[k] < q.n_vars);
        }
    }
    let idx = relational::index_query(q, db, &order);
    let ghost per = atom_tuples(q, db@);
    proof {
        assert forall|i: int| 0 <= i < idx@.len() implies relational::indexes(
            &(#[trigger] idx@[i]),
            q.atoms@[i].vars@,
            per[i],
            order@,
        ) by {}
        lemma_ready(q, per, order@, idx@);
    }
    let found = generic_join(&order, &idx, q.n_vars, probes);
    let rows = project_all(&found, &q.head, q.n_vars, Ghost(idx@));
    proof {
        lemma_answers_solve(q, per, order@, idx@);
        assert forall|s: Seq<Id>| #[trigger] values(found@).contains(s) <==> is_match(q, db@, s) by {
            assert(is_answer(idx@, q.n_vars as nat, s) <==> is_solution(q, per, s));
            lemma_match_solves(q, db@, s);
        }
        assert(reports(values(found@), q, db@, values(rows@)));
        assert(planned(q, db@, order@, idx@));
    }
    rows
}

/// `s` satisfies every atom over the tuples given for it, and variables that
/// no atom speaks of are 0.
pub open spec fn is_solution(q: &Query, per: Seq<Seq<Seq<Id>>>, s: Seq<Id>) -> bool {
    &&& s.len() == q.n_vars
    &&& forall|i: int|
        0 <= i < q.atoms@.len() ==> relational::atom_holds(
            #[trigger] per[i],
            q.atoms@[i].vars@,
            s,
        )
    &&& forall|v: VarId| v < q.n_vars && !#[trigger] mentioned(q, v) ==> s[v as int] == 0
}

/// The tuples of each atom of the query.
pub open spec fn atom_tuples(q: &Query, db: Seq<relational::Relation>) -> Seq<Seq<Seq<Id>>> {
    Seq::new(q.atoms@.len(), |i: int| relational::tuples_of(db, q.atoms@[i].rel))
}

/// `idx` indexes each atom of the query over the tuples given for it.
pub open spec fn indexes_over(
    idx: Seq<AtomIndex>,
    q: &Query,
    per: Seq<Seq<Seq<Id>>>,
    order: Seq<VarId>,
) -> bool {
    &&& idx.len() == q.atoms@.len()
    &&& per.len() == q.atoms@.len()
    &&& forall|i: int|
        0 <= i < idx.len() ==> relational::indexes(
            &(#[trigger] idx[i]),
            q.atoms@[i].vars@,
            per[i],
            order,
        )
}

/// The answers over the indexes are the solutions of the query.
pub proof fn lemma_answers_solve(
    q: &Query,
    per: Seq<Seq<Seq<Id>>>,
    order: Seq<VarId>,
    idx: Seq<AtomIndex>,
)
    requires
        indexes_over(idx, q, per, order),
    ensures
        forall|s: Seq<Id>|
            #![trigger is_answer(idx, q.n_vars as nat, s)]
            is_answer(idx, q.n_vars as nat, s) <==> is_solution(q, per, s),
{
    assert forall|s: Seq<Id>| #![trigger is_answer(idx, q.n_vars as nat, s)] is_answer(idx, q.n_vars as nat, s) <==> is_solution(q, per, s) by {
        assert forall|i: int| 0 <= i < idx.len() implies relational::row_holds(&(#[trigger] idx[i]), s)
            == relational::atom_holds(per[i], q.atoms@[i].vars@, s) by {
            assert(relational::indexes(&idx[i], q.atoms@[i].vars@, per[i], order));
        }
        let holds = forall|i: int|
            0 <= i < q.atoms@.len() ==> relational::atom_holds(
                #[trigger] per[i],
                q.atoms@[i].vars@,
                s,
            );
        assert(all_hold(idx, s) <==> holds) by {
            if all_hold(idx, s) {
                assert forall|i: int| 0 <= i < q.atoms@.len() implies relational::atom_holds(
                    #[trigger] per[i],
                    q.atoms@[i].vars@,
                    s,
                ) by {
                    assert(relational::row_holds(&idx[i], s));
                }
            }
            if holds {
                assert forall|i: int| 0 <= i < idx.len()
                    implies relational::row_holds(&(#[trigger] idx[i]), s) by {
                    assert(relational::atom_holds(per[i], q.atoms@[i].vars@, s));
                }
            }
        }
        assert forall|v: VarId| #[trigger] constrained(idx, v) == mentioned(q, v) by {
            if constrained(idx, v) {
                let i = choose|i: int| 0 <= i < idx.len() && (#[trigger] idx[i]).vars@.contains(v);
                assert(relational::indexes(&idx[i], q.atoms@[i].vars@, per[i], order));
                assert(q.atoms@[i].vars@.contains(v));
            }
            if mentioned(q, v) {
                let i = choose|i: int| 0 <= i < q.atoms@.len() && (#[trigger] q.atoms@[i]).vars@.contains(v);
                assert(relational::indexes(&idx[i], q.atoms@[i].vars@, per[i], order));
                assert(idx[i].vars@.contains(v));
            }
        }
        if is_answer(idx, q.n_vars as nat, s) {
            assert forall|v: VarId| v < q.n_vars && !#[trigger] mentioned(q, v)
                implies s[v as int] == 0 by {
                assert(!constrained(idx, v));
            }
        }
        if is_solution(q, per, s) {
            assert forall|v: VarId| v < q.n_vars && !#[trigger] constrained(idx, v)
                implies s[v as int] == 0 by {
                assert(!mentioned(q, v));
            }
        }
    }
}

/// A match of the query is a solution over the tuples of its atoms.
pub proof fn lemma_match_solves(q: &Query, db: Seq<relational::Relation>, s: Seq<Id>)
    ensures
        is_match(q, db, s) <==> is_solution(q, atom_tuples(q, db), s),
{
    let per = atom_tuples(q, db);
    assert forall|i: int| 0 <= i < q.atoms@.len()
        implies #[trigger] per[i] == relational::tuples_of(db, q.atoms@[i].rel) by {}
    if is_solution(q, per, s) {
        assert forall|i: int| 0 <= i < q.atoms@.len() implies relational::atom_holds(
            relational::tuples_of(db, (#[trigger] q.atoms@[i]).rel),
            q.atoms@[i].vars@,
            s,
        ) by {
            assert(relational::atom_holds(per[i], q.atoms@[i].vars@, s));
        }
    }
    if is_match(q, db, s) {
        assert forall|i: int| 0 <= i < q.atoms@.len()
            implies relational::atom_holds(#[trigger] per[i], q.atoms@[i].vars@, s) by {
            assert(relational::atom_holds(
                relational::tuples_of(db, q.atoms@[i].rel),
                q.atoms@[i].vars@,
                s,
            ));
        }
    }
}

/// Indexes of a query's atoms, for an ordering of its variables, can be
/// joined.
pub proof fn lemma_ready(
    q: &Query,
    per: Seq<Seq<Seq<Id>>>,
    order: Seq<VarId>,
    idx: Seq<AtomIndex>,
)
    requires
        well_posed(q),
        indexes_over(idx, q, per, order),
        relational::is_ordering(order),
        forall|v: VarId| #[trigger] order.contains(v) <==> v < q.n_vars,
    ensures
        ready(idx, order, q.n_vars as nat),
{
    assert forall|i: int| 0 <= i < order.len() implies (#[trigger] order[i]) < q.n_vars by {
        assert(order.contains(order[i]));
    }
    assert forall|i: int| 0 <= i < idx.len()
        implies relational::in_order((#[trigger] idx[i]).vars@, order)
        && relational::is_trie(idx[i].trie.rows@, idx[i].vars@.len()) && idx[i].vars@.len() > 0
        && idx[i].trie.rows@.len() <= usize::MAX by {
        assert(idx[i].trie.rows.len() == idx[i].trie.rows@.len());
        assert(q.atoms@[i].vars@.len() > 0);
        assert(relational::indexes(&idx[i], q.atoms@[i].vars@, per[i], order));
    }
}

pub(crate) fn project_all(found: &Vec<Vec<Id>>, head: &Vec<VarId>, n_vars: usize, idx: Ghost<Seq<AtomIndex>>) -> (rows:
    Vec<Vec<Id>>)
    requires
        forall|i: int| 0 <= i < head@.len() ==> #[trigger] head@[i] < n_vars,
        forall|s: Seq<Id>| #[trigger]
            values(found@).contains(s) <==> is_answer(idx@, n_vars as nat, s),
    ensures
        rows@.len() == found@.len(),
        forall|i: int|
            0 <= i < rows@.len() ==> (#[trigger] values(rows@)[i]) == project(
                head@,
                values(found@)[i],
            ),
{
    let mut rows: Vec<Vec<Id>> = Vec::new();
    for i in 0..found.len()
        invariant
            forall|i: int| 0 <= i < head@.len() ==> #[trigger] head@[i] < n_vars,
            forall|s: Seq<Id>| #[trigger]
                values(found@).contains(s) <==> is_answer(idx@, n_vars as nat, s),
            rows@.len() == i,
            forall|j: int| 0 <= j < i ==> (#[trigger] rows@[j])@ == project(head@, found@[j]@),
    {
        let s = &found[i];
        proof {
            assert(values(found@)[i as int] == s@);
            assert(values(found@).contains(s@));
        }
        let mut row: Vec<Id> = Vec::new();
        for k in 0..head.len()
            invariant
                forall|i: int| 0 <= i < head@.len() ==> #[trigger] head@[i] < n_vars,
                s@.len() == n_vars,
                row@ == project(head@, s@).take(k as int),
        {
            row.push(s[head[k]]);
            assert(row@ =~= project(head@, s@).take(k + 1));
        }
        assert(row@ =~= project(head@, s@));
        rows.push(row);
    }
    rows
}

} // verus!
