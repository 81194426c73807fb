//! What decides the cost of a search: which variable comes first, which atom leads,
//! and what is stepped over.

use crate::egraph::backtrack;
use crate::egraph::backtrack::Ins;
use crate::egraph::binary_join;
use crate::egraph::egraph::EGraph;
use crate::egraph::join;
use crate::egraph::join::Stand;
use crate::egraph::nodes::{Id, Sym};
use crate::egraph::pattern::{Query, VarId};
use crate::egraph::relational;
use crate::egraph::relational::{AtomIndex, Relation};
use crate::math;
use crate::sorting;
use vstd::prelude::*;

verus! {

/// Atom `i` speaks of the variable.
pub open spec fn speaks_of(q: &Query, v: VarId) -> spec_fn(int) -> bool {
    |i: int| q.atoms@[i].vars@.contains(v)
}

/// In how many atoms the variable occurs.
pub open spec fn atoms_of(q: &Query, v: VarId) -> nat {
    math::count(q.atoms@.len(), speaks_of(q, v))
}

/// Every relation that the variable is in, and that has tuples, has `size` or more.
pub open spec fn is_lower_bound(q: &Query, db: Seq<Relation>, v: VarId, size: usize) -> bool {
    forall|i: int|
        0 <= i < q.atoms@.len() && (#[trigger] q.atoms@[i]).vars@.contains(v)
            && 0 < relational::tuples_of(db, q.atoms@[i].rel).len() <= usize::MAX ==> size
            <= relational::tuples_of(db, q.atoms@[i].rel).len()
}

/// Some relation that the variable is in has that size, unless none has tuples.
pub open spec fn is_size_of_one(q: &Query, db: Seq<Relation>, v: VarId, size: usize) -> bool {
    size == usize::MAX || exists|i: int|
        0 <= i < q.atoms@.len() && (#[trigger] q.atoms@[i]).vars@.contains(v)
            && relational::tuples_of(db, q.atoms@[i].rel).len() as usize == size
}

proof fn lemma_occurrences(q: &Query, v: VarId, n: nat)
    ensures
        relational::occurrences(q, v, n) == math::count(n, speaks_of(q, v)),
    decreases n,
{
    if n > 0 {
        lemma_occurrences(q, v, (n - 1) as nat);
    }
}

proof fn lemma_smallest(q: &Query, db: Seq<Relation>, v: VarId, n: nat)
    requires
        n <= q.atoms@.len(),
    ensures
        ({
            let size = relational::smallest_size(q, db, v, n);
            &&& forall|i: int|
                0 <= i < n && (#[trigger] q.atoms@[i]).vars@.contains(v)
                    && 0 < relational::tuples_of(db, q.atoms@[i].rel).len() <= usize::MAX ==> size
                    <= relational::tuples_of(db, q.atoms@[i].rel).len()
            &&& is_size_of_one(q, db, v, size)
        }),
    decreases n,
{
    if n > 0 {
        lemma_smallest(q, db, v, (n - 1) as nat);
        let a = q.atoms@[n - 1];
        let here = relational::relation_size(db, a.rel);
        let before = relational::smallest_size(q, db, v, (n - 1) as nat);
        if a.vars@.contains(v) && here < before {
            assert(q.atoms@[n - 1].vars@.contains(v));
        }
    }
}

/// A plan binds first what is constrained most: of two variables the one that occurs
/// in more atoms, and of two that occur in as many the one with the smaller relation.
pub proof fn lemma_most_constrained_first(
    q: &Query,
    db: Seq<Relation>,
    a: VarId,
    b: VarId,
) -> (sizes: (usize, usize))
    requires
        q.atoms@.len() <= usize::MAX,
        sorting::Keyed::key(&relational::plan_key(q, db, a)) < sorting::Keyed::key(
            &relational::plan_key(q, db, b),
        ),
    ensures
        is_lower_bound(q, db, a, sizes.0),
        is_size_of_one(q, db, a, sizes.0),
        is_lower_bound(q, db, b, sizes.1),
        is_size_of_one(q, db, b, sizes.1),
        atoms_of(q, a) > atoms_of(q, b) || (atoms_of(q, a) == atoms_of(q, b) && (sizes.0 < sizes.1
            || (sizes.0 == sizes.1 && a < b))),
{
    let n = q.atoms@.len();
    lemma_occurrences(q, a, n);
    lemma_occurrences(q, b, n);
    math::lemma_count_le(n, speaks_of(q, a));
    math::lemma_count_le(n, speaks_of(q, b));
    lemma_smallest(q, db, a, n);
    lemma_smallest(q, db, b, n);
    (relational::smallest_size(q, db, a, n), relational::smallest_size(q, db, b, n))
}

/// The atom with the fewest keys leads a join.
pub proof fn lemma_fewest_keys_lead(
    idx: Seq<AtomIndex>,
    st: Stand,
    ps: Seq<usize>,
    n: nat,
    p: int,
)
    requires
        0 <= p < n,
    ensures
        0 <= join::fewest(idx, st, ps, n) < n,
        join::offers(idx, st, ps[join::fewest(idx, st, ps, n)] as int).len() <= join::offers(
            idx,
            st,
            ps[p] as int,
        ).len(),
    decreases n,
{
    if n > 1 {
        lemma_fewest_keys_lead(idx, st, ps, (n - 1) as nat, if p < n - 1 {
            p
        } else {
            0
        });
    }
}

/// A key of the lead is asked of the other atoms one by one, up to the first that
/// lacks it: of all of them where none does.
pub proof fn lemma_asked(
    idx: Seq<AtomIndex>,
    st: Stand,
    ps: Seq<usize>,
    lead: int,
    v: Id,
    n: nat,
)
    requires
        lead >= 0,
    ensures
        ({
            let asked = join::asked(idx, st, ps, lead, v, n);
            let others = if lead < n {
                n - 1
            } else {
                n as int
            };
            &&& asked <= others
            &&& join::all_offer(idx, st, ps, lead, v, n) ==> asked == others
            &&& others > 0 ==> asked > 0
        }),
    decreases n,
{
    if n > 0 {
        lemma_asked(idx, st, ps, lead, v, (n - 1) as nat);
        if join::all_offer(idx, st, ps, lead, v, n) {
            assert forall|j: int| 0 <= j < n - 1 && j != lead implies join::has_kid(
                join::offers(idx, st, (#[trigger] ps[j]) as int),
                v,
            ) by {}
            assert(join::all_offer(idx, st, ps, lead, v, (n - 1) as nat));
        }
        let m = (n - 1) as nat;
        if (if lead < m {
            m - 1
        } else {
            m as int
        }) <= 0 {
            assert(join::all_offer(idx, st, ps, lead, v, m)) by {
                assert forall|j: int| 0 <= j < m && j != lead implies join::has_kid(
                    join::offers(idx, st, (#[trigger] ps[j]) as int),
                    v,
                ) by {}
            }
        }
    }
}

/// A join looks at every key of the lead at least.
pub proof fn lemma_keys_are_looked_at(
    idx: Seq<AtomIndex>,
    order: Seq<VarId>,
    depth: nat,
    st: Stand,
    ps: Seq<usize>,
    lead: int,
    k: nat,
)
    requires
        depth < order.len(),
    ensures
        join::keys_cost(idx, order, depth, st, ps, lead, k) >= k,
    decreases k,
{
    if k > 0 {
        lemma_keys_are_looked_at(idx, order, depth, st, ps, lead, (k - 1) as nat);
    }
}

/// Class `c` is stepped over by a scan.
pub open spec fn is_stepped_over(g: &EGraph, op: Option<Sym>) -> spec_fn(int) -> bool {
    |c: int|
        match op {
            Some(s) => g.has_op(c, s),
            None => g.rep(c as Id) == c,
        }
}

/// The last scan of a program costs the classes that it steps over: those with the
/// symbol, or all classes.
pub proof fn lemma_scan_visits(
    g: &EGraph,
    ins: Seq<Ins>,
    pos: nat,
    regs: Seq<Id>,
    out: usize,
    op: Option<Sym>,
    n: nat,
)
    requires
        pos + 1 == ins.len(),
        n <= g.len(),
        g.len() <= Id::MAX,
    ensures
        backtrack::scan_cost(g, ins, pos, regs, out, op, n) == math::count(
            n,
            is_stepped_over(g, op),
        ),
    decreases n,
{
    if n > 0 {
        lemma_scan_visits(g, ins, pos, regs, out, op, (n - 1) as nat);
        let next = regs.update(out as int, (n - 1) as Id);
        assert(backtrack::search_cost(g, ins, pos + 1, next) == 0);
        assert(backtrack::candidate(g, op, (n - 1) as Id) == is_stepped_over(g, op)(n - 1));
    }
}

/// The e-node has the symbol and the arity.
pub open spec fn is_bound(nodes: Seq<(Sym, Seq<Id>)>, op: Sym, arity: usize) -> spec_fn(
    int,
) -> bool {
    |j: int| nodes[j].0 == op && nodes[j].1.len() == arity
}

/// The last bind of a program costs the e-nodes of the class with its symbol and arity.
pub proof fn lemma_bind_visits(
    g: &EGraph,
    ins: Seq<Ins>,
    pos: nat,
    regs: Seq<Id>,
    class: usize,
    op: Sym,
    out: usize,
    arity: usize,
    m: nat,
)
    requires
        pos + 1 == ins.len(),
    ensures
        backtrack::bind_cost(g, ins, pos, regs, Ins::Bind { class, op, out, arity }, m)
            == math::count(
            m,
            is_bound(g.listed(g.rep(regs[class as int]) as int), op, arity),
        ),
    decreases m,
{
    if m > 0 {
        lemma_bind_visits(g, ins, pos, regs, class, op, out, arity, (m - 1) as nat);
        let nodes = g.listed(g.rep(regs[class as int]) as int);
        let i = Ins::Bind { class, op, out, arity };
        let next = backtrack::with_children(regs, out as int, nodes[m - 1]);
        assert(backtrack::search_cost(g, ins, pos + 1, next) == 0);
        assert(backtrack::binds(i, nodes[m - 1]) == is_bound(nodes, op, arity)(m - 1));
    }
}

/// The largest relation between two joins is the largest, and one of them.
pub proof fn lemma_largest_between(parts: Seq<Seq<Seq<Id>>>, n: nat, i: int)
    requires
        2 <= i < n,
    ensures
        binary_join::largest_between(parts, n) >= parts[i].len(),
        exists|j: int| 2 <= j < n && (#[trigger] parts[j]).len() == binary_join::largest_between(
            parts,
            n,
        ),
    decreases n,
{
    if n == 3 {
        assert(parts[2].len() == binary_join::largest_between(parts, 3)) by {
            reveal_with_fuel(binary_join::largest_between, 2);
        }
    } else {
        lemma_largest_between(parts, (n - 1) as nat, if i < n - 1 {
            i
        } else {
            2
        });
        let before = binary_join::largest_between(parts, (n - 1) as nat);
        let j = choose|j: int| 2 <= j < n - 1 && (#[trigger] parts[j]).len() == before;
        assert(parts[j].len() == before);
        assert(parts[n - 1].len() >= 0);
    }
}

} // verus!
