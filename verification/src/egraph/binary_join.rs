//! A left-deep plan of binary hash joins.
//!
//! The atoms are joined in the order in which the query lists them: the first
//! two, then the result with the third, and so on. Each join builds a hash
//! table on its smaller side and probes it with the larger. On a cyclic query
//! such a plan has to materialise an intermediate relation that may be far
//! larger than the answer.

use crate::egraph::agreement;
use crate::egraph::egraph::copy_ids;
use crate::egraph::join;
use crate::egraph::nodes;
use crate::egraph::nodes::Id;
use crate::egraph::pattern::{Query, VarId};
use crate::egraph::relational;
use crate::egraph::relational::{AtomIndex, Database, Relation};
use crate::egraph::semi_naive;
use std::collections::HashMap;
use crate::math;
use vstd::prelude::*;

verus! {

broadcast use vstd::std_specs::hash::group_hash_axioms;

#[derive(Debug)]
pub struct BinaryJoinReport {
    pub matches: Vec<Vec<Id>>,
    /// Tuples in the largest intermediate relation that the plan materialised.
    pub max_intermediate: usize,
}

impl Default for BinaryJoinReport {
    fn default() -> (r: BinaryJoinReport)
        ensures
            r.matches@.len() == 0,
            r.max_intermediate == 0,
    {
        BinaryJoinReport { matches: Vec::new(), max_intermediate: 0 }
    }
}

/// The table files the first `n` keys by their number.
spec fn filed(table: Map<u64, Vec<usize>>, keys: Seq<Vec<Id>>, n: int) -> bool {
    &&& forall|h: u64, i: int|
        table.contains_key(h) && 0 <= i < table[h]@.len() ==> {
            &&& #[trigger] table[h]@[i] < n
            &&& nodes::mixed(0, keys[table[h]@[i] as int]@) == h
        }
    &&& forall|h: u64, i: int, j: int|
        table.contains_key(h) && 0 <= i < j < table[h]@.len() ==> #[trigger] table[h]@[i]
            < #[trigger] table[h]@[j]
    &&& forall|e: int|
        0 <= e < n ==> table.contains_key(nodes::mixed(0, (#[trigger] keys[e])@) as u64)
            && table[nodes::mixed(0, keys[e]@) as u64]@.contains(e as usize)
}

proof fn lemma_mixed_small(keys: Seq<Id>)
    ensures
        nodes::mixed(0, keys) < 0x100_0000_0000_0000,
    decreases keys.len(),
{
    if keys.len() > 0 {
        lemma_mixed_small(keys.drop_last());
    }
}

/// Pairs of places with equal keys: a hash table over one list, probed with
/// the other. Every insert and every probe counts.
fn hash_join(build: &Vec<Vec<Id>>, probe: &Vec<Vec<Id>>, counter: &mut u64) -> (pairs: Vec<
    (usize, usize),
>)
    ensures
        pairs@.no_duplicates(),
        forall|b: usize, p: usize| #[trigger]
            pairs@.contains((b, p)) <==> b < build@.len() && p < probe@.len() && build@[b as int]@
                == probe@[p as int]@,
        *final(counter) == math::capped(*old(counter) + build@.len() + probe@.len()),
{
    let mut table: HashMap<u64, Vec<usize>> = HashMap::new();
    for i in 0..build.len()
        invariant
            filed(table@, build@, i as int),
            *counter == math::capped(*old(counter) + i),
    {
        math::tick(counter);
        let h = nodes::mix(0, &build[i]);
        let ghost t0 = table@;
        let mut list = match table.remove(&h) {
            Some(list) => list,
            None => Vec::new(),
        };
        let ghost l0 = list@;
        list.push(i);
        let ghost l1 = list@;
        table.insert(h, list);
        proof {
            let t = table@;
            assert(t =~= t0.insert(h, t[h]));
            assert(t[h]@ == l1);
            assert(l1[l0.len() as int] == i);
            assert forall|e: int| 0 <= e < i + 1 implies t.contains_key(
                nodes::mixed(0, (#[trigger] build@[e])@) as u64,
            ) && t[nodes::mixed(0, build@[e]@) as u64]@.contains(e as usize) by {
                let k = nodes::mixed(0, build@[e]@) as u64;
                if e < i {
                    assert(t0.contains_key(k) && t0[k]@.contains(e as usize));
                    if k == h {
                        let m = choose|m: int| 0 <= m < t0[h]@.len() && t0[h]@[m] == e as usize;
                        assert(l1[m] == e as usize);
                    }
                } else {
                    assert(l1.contains(i));
                }
            }
            assert forall|k: u64, m: int| t.contains_key(k) && 0 <= m < t[k]@.len() implies {
                &&& #[trigger] t[k]@[m] < i + 1
                &&& nodes::mixed(0, build@[t[k]@[m] as int]@) == k
            } by {
                if k != h {
                    assert(t0[k]@[m] < i);
                } else if m < l0.len() {
                    assert(t0[h]@[m] < i);
                }
            }
            assert forall|k: u64, m: int, j: int| t.contains_key(k) && 0 <= m < j < t[k]@.len()
                implies #[trigger] t[k]@[m]
                < #[trigger] t[k]@[j] by {
                if k != h {
                    assert(t0[k]@[m] < t0[k]@[j]);
                } else if j < l0.len() {
                    assert(t0[h]@[m] < t0[h]@[j]);
                } else {
                    assert(t0[h]@[m] < i);
                }
            }
        }
    }
    let mut pairs: Vec<(usize, usize)> = Vec::new();
    for p in 0..probe.len()
        invariant
            filed(table@, build@, build@.len() as int),
            *counter == math::capped(*old(counter) + build@.len() + p),
            pairs@.no_duplicates(),
            forall|b: usize, q: usize| #[trigger]
                pairs@.contains((b, q)) <==> b < build@.len() && q < p && build@[b as int]@
                    == probe@[q as int]@,
    {
        math::tick(counter);
        let h = nodes::mix(0, &probe[p]);
        let ghost start = pairs@;
        proof {
            lemma_mixed_small(probe@[p as int]@);
        }
        match table.get(&h) {
            Some(list) => {
                for m in 0..list.len()
                    invariant
                        p < probe@.len(),
                        filed(table@, build@, build@.len() as int),
                        table@.contains_key(h),
                        *list == table@[h],
                        pairs@.no_duplicates(),
                        forall|b: usize, q: usize| #[trigger]
                            start.contains((b, q)) <==> b < build@.len() && q < p
                                && build@[b as int]@ == probe@[q as int]@,
                        forall|b: usize, q: usize| #[trigger]
                            pairs@.contains((b, q)) <==> start.contains((b, q)) || (q == p
                                && in_first(list@, m as int, b) && build@[b as int]@
                                == probe@[p as int]@),
                {
                    let b = list[m];
                    let ghost before = pairs@;
                    assert(table@[h]@[m as int] < build@.len());
                    if nodes::same_ids(&build[b], &probe[p]) {
                        pairs.push((b, p));
                    }
                    proof {
                        lemma_in_first(list@, m as int);
                        assert(!in_first(list@, m as int, b)) by {
                            if in_first(list@, m as int, b) {
                                let j = choose|j: int| 0 <= j < m && #[trigger] list@[j] == b;
                                assert(table@[h]@[j] < table@[h]@[m as int]);
                            }
                        }
                        assert forall|c: usize, q: usize| #[trigger] pairs@.contains((c, q)) <==> start.contains((c, q))
                            || (q == p && in_first(list@, m + 1, c) && build@[c as int]@
                            == probe@[p as int]@) by {
                            assert(before.contains((c, q)) <==> start.contains((c, q)) || (q == p
                                && in_first(list@, m as int, c) && build@[c as int]@
                                == probe@[p as int]@));
                            assert(in_first(list@, m + 1, c) <==> in_first(list@, m as int, c) || c == b);
                            if pairs@.len() > before.len() {
                                lemma_push_pair(before, (b, p), (c, q));
                            }
                        }
                        if pairs@.len() > before.len() {
                            assert(!before.contains((b, p)));
                            lemma_push_distinct(before, (b, p));
                        }
                    }
                }
                proof {
                    assert forall|b: usize, q: usize| #[trigger] pairs@.contains((b, q)) <==> b < build@.len() && q < p + 1
                        && build@[b as int]@ == probe@[q as int]@ by {
                        if q == p {
                            if b < build@.len() && build@[b as int]@ == probe@[p as int]@ {
                                assert(table@[h]@.contains(b));
                                let j = choose|j: int| 0 <= j < list@.len() && list@[j] == b;
                                assert(in_first(list@, list@.len() as int, b));
                            }
                            if in_first(list@, list@.len() as int, b) {
                                let j = choose|j: int| 0 <= j < list@.len() && #[trigger] list@[j] == b;
                                assert(table@[h]@[j] < build@.len());
                            }
                        }
                    }
                }
            },
            None => {
                proof {
                    assert forall|b: usize, q: usize| #[trigger] pairs@.contains((b, q)) <==> b < build@.len() && q < p + 1
                        && build@[b as int]@ == probe@[q as int]@ by {
                        if q == p && b < build@.len() && build@[b as int]@ == probe@[p as int]@ {
                            assert(table@.contains_key(nodes::mixed(0, build@[b as int]@) as u64));
                        }
                    }
                }
            },
        }
    }
    pairs
}

/// `b` is one of the first `m` entries.
spec fn in_first(list: Seq<usize>, m: int, b: usize) -> bool {
    exists|j: int| 0 <= j < m && #[trigger] list[j] == b
}

proof fn lemma_in_first(list: Seq<usize>, m: int)
    requires
        0 <= m < list.len(),
    ensures
        forall|b: usize| #[trigger]
            in_first(list, m + 1, b) <==> in_first(list, m, b) || b == list[m],
{
    assert forall|b: usize| #[trigger] in_first(list, m + 1, b) <==> in_first(list, m, b) || b == list[m] by {
        if in_first(list, m + 1, b) {
            let j = choose|j: int| 0 <= j < m + 1 && #[trigger] list[j] == b;
            if j < m {
                assert(in_first(list, m, b));
            }
        }
        if in_first(list, m, b) {
            let j = choose|j: int| 0 <= j < m && #[trigger] list[j] == b;
            assert(list[j] == b);
        }
    }
}

proof fn lemma_push_pair(s: Seq<(usize, usize)>, x: (usize, usize), y: (usize, usize))
    ensures
        s.push(x).contains(y) <==> s.contains(y) || y == x,
{
    let t = s.push(x);
    if s.contains(y) {
        let i = choose|i: int| 0 <= i < s.len() && s[i] == y;
        assert(t[i] == y);
    }
    if t.contains(y) {
        let i = choose|i: int| 0 <= i < t.len() && t[i] == y;
        if i < s.len() {
            assert(s[i] == y);
        }
    }
    assert(t[s.len() as int] == x);
}

proof fn lemma_push_distinct(s: Seq<(usize, usize)>, x: (usize, usize))
    requires
        s.no_duplicates(),
        !s.contains(x),
    ensures
        s.push(x).no_duplicates(),
{
    let t = s.push(x);
    assert forall|i: int, j: int| 0 <= i < t.len() && 0 <= j < t.len() && i != j
        implies t[i] != t[j] by {
        if i == s.len() {
            assert(s.contains(s[j]));
        } else if j == s.len() {
            assert(s.contains(s[i]));
        }
    }
}

/// One of the first `k` atoms speaks of `v`.
pub open spec fn bound_by(q: &Query, k: int, v: VarId) -> bool {
    exists|i: int| 0 <= i < k && (#[trigger] q.atoms@[i]).vars@.contains(v)
}

/// The first `k` atoms hold, and variables that none of them speaks of are 0.
pub open spec fn part_match(q: &Query, per: Seq<Seq<Seq<Id>>>, k: int, s: Seq<Id>) -> bool {
    &&& s.len() == q.n_vars
    &&& forall|i: int|
        0 <= i < k ==> relational::atom_holds(#[trigger] per[i], q.atoms@[i].vars@, s)
    &&& forall|v: VarId| v < q.n_vars && !#[trigger] bound_by(q, k, v) ==> s[v as int] == 0
}

/// The list holds exactly the matches of the first `k` atoms, each once.
pub open spec fn lists_parts(
    part: Seq<Seq<Id>>,
    q: &Query,
    per: Seq<Seq<Seq<Id>>>,
    k: int,
) -> bool {
    &&& part.no_duplicates()
    &&& forall|s: Seq<Id>| #[trigger] part.contains(s) <==> part_match(q, per, k, s)
}

/// The assignment with a row's values for the row's variables.
pub open spec fn merged(p: Seq<Id>, vars: Seq<VarId>, row: Seq<Id>) -> Seq<Id> {
    Seq::new(
        p.len(),
        |v: int|
            if vars.contains(v as VarId) {
                row[relational::place(vars, v as VarId)]
            } else {
                p[v]
            },
    )
}

/// The assignment and the row give the bound variables the same values.
spec fn fit(p: Seq<Id>, vars: Seq<VarId>, row: Seq<Id>, q: &Query, k: int) -> bool {
    forall|i: int|
        0 <= i < vars.len() && bound_by(q, k, #[trigger] vars[i]) ==> p[vars[i] as int] == row[i]
}

/// The assignment without the variables that the first `k` atoms leave open.
spec fn cut_down(s: Seq<Id>, q: &Query, k: int) -> Seq<Id> {
    Seq::new(
        s.len(),
        |v: int|
            if bound_by(q, k, v as VarId) {
                s[v]
            } else {
                0
            },
    )
}

spec fn distinct_vars(vars: Seq<VarId>, n: nat) -> bool {
    &&& vars.no_duplicates()
    &&& forall|i: int| 0 <= i < vars.len() ==> (#[trigger] vars[i]) < n
}

proof fn lemma_place(vars: Seq<VarId>, i: int)
    requires
        vars.no_duplicates(),
        0 <= i < vars.len(),
    ensures
        relational::place(vars, vars[i]) == i,
        vars.contains(vars[i]),
{
    assert(vars[i] == vars[i]);
    let j = relational::place(vars, vars[i]);
    assert(0 <= j < vars.len() && vars[j] == vars[i]);
}

/// Whether an atom holds depends on its own variables alone.
proof fn lemma_atom_local(tuples: Seq<Seq<Id>>, vars: Seq<VarId>, s: Seq<Id>, t: Seq<Id>)
    requires
        relational::atom_holds(tuples, vars, s),
        forall|v: VarId| #[trigger] vars.contains(v) ==> s[v as int] == t[v as int],
    ensures
        relational::atom_holds(tuples, vars, t),
{
    let u = choose|u: Seq<Id>| #[trigger] tuples.contains(u) && relational::spells(vars, u, s);
    assert forall|i: int| 0 <= i < vars.len() implies u[i] == t[#[trigger] vars[i] as int] by {
        assert(vars.contains(vars[i]));
    }
    assert(relational::spells(vars, u, t));
}

proof fn lemma_bound_step(q: &Query, k: int)
    requires
        0 <= k < q.atoms@.len(),
    ensures
        forall|v: VarId| #[trigger]
            bound_by(q, k + 1, v) <==> bound_by(q, k, v) || q.atoms@[k].vars@.contains(v),
{
    assert forall|v: VarId| #[trigger] bound_by(q, k + 1, v) <==> bound_by(q, k, v) || q.atoms@[k].vars@.contains(v) by {
        if bound_by(q, k + 1, v) {
            let i = choose|i: int| 0 <= i < k + 1 && (#[trigger] q.atoms@[i]).vars@.contains(v);
            if i < k {
                assert(bound_by(q, k, v));
            }
        }
        if bound_by(q, k, v) {
            let i = choose|i: int| 0 <= i < k && (#[trigger] q.atoms@[i]).vars@.contains(v);
            assert(q.atoms@[i].vars@.contains(v));
        }
        if q.atoms@[k].vars@.contains(v) {
            assert(bound_by(q, k + 1, v));
        }
    }
}

/// What one join does: a match of one atom more is a match of those before it
/// and a row that fits.
proof fn lemma_join_sound(
    q: &Query,
    per: Seq<Seq<Seq<Id>>>,
    k: int,
    ix: &AtomIndex,
    order: Seq<VarId>,
    p: Seq<Id>,
    r: int,
)
    requires
        q.in_range(),
        0 <= k < q.atoms@.len() <= per.len(),
        relational::indexes(ix, q.atoms@[k].vars@, per[k], order),
        distinct_vars(ix.vars@, q.n_vars as nat),
        part_match(q, per, k, p),
        0 <= r < ix.trie.rows@.len(),
        fit(p, ix.vars@, ix.trie.rows@[r]@, q, k),
    ensures
        part_match(q, per, k + 1, merged(p, ix.vars@, ix.trie.rows@[r]@)),
        cut_down(merged(p, ix.vars@, ix.trie.rows@[r]@), q, k) == p,
        forall|i: int|
            0 <= i < ix.vars@.len() ==> merged(p, ix.vars@, ix.trie.rows@[r]@)[(
            #[trigger] ix.vars@[i]) as int] == ix.trie.rows@[r]@[i],
{
    let vars = ix.vars@;
    let row = ix.trie.rows@[r]@;
    let s = merged(p, vars, row);
    lemma_bound_step(q, k);
    assert forall|i: int| 0 <= i < vars.len() implies s[(#[trigger] vars[i]) as int] == row[i] by {
        lemma_place(vars, i);
    }
    assert(cut_down(s, q, k) =~= p) by {
        assert forall|v: int| 0 <= v < p.len() implies #[trigger] cut_down(s, q, k)[v] == p[v] by {
            if bound_by(q, k, v as VarId) {
                if vars.contains(v as VarId) {
                    let i = choose|i: int| 0 <= i < vars.len() && vars[i] == v as VarId;
                    assert(p[vars[i] as int] == row[i]);
                    assert(s[vars[i] as int] == row[i]);
                }
            }
        }
    }
    assert(relational::spells(vars, row, s));
    assert(relational::row_holds(ix, s));
    assert(relational::atom_holds(per[k], q.atoms@[k].vars@, s));
    assert forall|i: int| 0 <= i < k + 1
        implies relational::atom_holds(#[trigger] per[i], q.atoms@[i].vars@, s) by {
        if i < k {
            assert(relational::atom_holds(per[i], q.atoms@[i].vars@, p));
            assert forall|v: VarId| #[trigger] q.atoms@[i].vars@.contains(v)
                implies p[v as int] == s[v as int] by {
                assert(bound_by(q, k, v));
                let j = choose|j: int| 0 <= j < q.atoms@[i].vars@.len() && q.atoms@[i].vars@[j] == v;
                assert(q.atoms@[i].vars@[j] < q.n_vars);
                assert(cut_down(s, q, k)[v as int] == p[v as int]);
            }
            lemma_atom_local(per[i], q.atoms@[i].vars@, p, s);
        }
    }
    assert forall|v: VarId| v < q.n_vars && !#[trigger] bound_by(q, k + 1, v)
        implies s[v as int] == 0 by {
        assert(!bound_by(q, k, v));
        assert(!vars.contains(v));
    }
}

proof fn lemma_join_complete(
    q: &Query,
    per: Seq<Seq<Seq<Id>>>,
    k: int,
    ix: &AtomIndex,
    order: Seq<VarId>,
    s: Seq<Id>,
) -> (r: int)
    requires
        q.in_range(),
        0 <= k < q.atoms@.len() <= per.len(),
        relational::indexes(ix, q.atoms@[k].vars@, per[k], order),
        distinct_vars(ix.vars@, q.n_vars as nat),
        part_match(q, per, k + 1, s),
    ensures
        0 <= r < ix.trie.rows@.len(),
        part_match(q, per, k, cut_down(s, q, k)),
        fit(cut_down(s, q, k), ix.vars@, ix.trie.rows@[r]@, q, k),
        merged(cut_down(s, q, k), ix.vars@, ix.trie.rows@[r]@) == s,
{
    let vars = ix.vars@;
    let p = cut_down(s, q, k);
    lemma_bound_step(q, k);
    assert(relational::atom_holds(per[k], q.atoms@[k].vars@, s));
    assert(relational::row_holds(ix, s));
    let r = choose|r: int|
        0 <= r < ix.trie.rows@.len() && relational::spells(
            vars,
            (#[trigger] ix.trie.rows@[r])@,
            s,
        );
    let row = ix.trie.rows@[r]@;
    assert forall|i: int| 0 <= i < k
        implies relational::atom_holds(#[trigger] per[i], q.atoms@[i].vars@, p) by {
        assert(relational::atom_holds(per[i], q.atoms@[i].vars@, s));
        assert forall|v: VarId| #[trigger] q.atoms@[i].vars@.contains(v)
            implies s[v as int] == p[v as int] by {
            assert(bound_by(q, k, v));
            let j = choose|j: int| 0 <= j < q.atoms@[i].vars@.len() && q.atoms@[i].vars@[j] == v;
            assert(q.atoms@[i].vars@[j] < q.n_vars);
        }
        lemma_atom_local(per[i], q.atoms@[i].vars@, s, p);
    }
    assert(merged(p, vars, row) =~= s) by {
        assert forall|v: int| 0 <= v < s.len() implies #[trigger] merged(p, vars, row)[v] == s[v] by {
            if vars.contains(v as VarId) {
                let i = choose|i: int| 0 <= i < vars.len() && vars[i] == v as VarId;
                lemma_place(vars, i);
                assert(row[i] == s[vars[i] as int]);
            } else {
                assert(!q.atoms@[k].vars@.contains(v as VarId));
                assert(bound_by(q, k + 1, v as VarId) == bound_by(q, k, v as VarId));
            }
        }
    }
    r
}

/// The values of some columns of a row.
spec fn picked(row: Seq<Id>, cols: Seq<usize>) -> Seq<Id> {
    Seq::new(cols.len(), |i: int| row[cols[i] as int])
}

fn pick_all(rows: &Vec<Vec<Id>>, cols: &Vec<usize>, width: usize) -> (keys: Vec<Vec<Id>>)
    requires
        forall|i: int| 0 <= i < rows@.len() ==> (#[trigger] rows@[i])@.len() == width,
        forall|i: int| 0 <= i < cols@.len() ==> #[trigger] cols@[i] < width,
    ensures
        keys@.len() == rows@.len(),
        forall|i: int| 0 <= i < keys@.len() ==> (#[trigger] keys@[i])@ == picked(rows@[i]@, cols@),
{
    let mut keys: Vec<Vec<Id>> = Vec::new();
    for i in 0..rows.len()
        invariant
            forall|i: int| 0 <= i < rows@.len() ==> (#[trigger] rows@[i])@.len() == width,
            forall|i: int| 0 <= i < cols@.len() ==> #[trigger] cols@[i] < width,
            keys@.len() == i,
            forall|j: int| 0 <= j < i ==> (#[trigger] keys@[j])@ == picked(rows@[j]@, cols@),
    {
        let row = &rows[i];
        let mut key: Vec<Id> = Vec::new();
        for c in 0..cols.len()
            invariant
                row@.len() == width,
                forall|i: int| 0 <= i < cols@.len() ==> #[trigger] cols@[i] < width,
                key@.len() == c,
                forall|j: int| 0 <= j < c ==> #[trigger] key@[j] == row@[cols@[j] as int],
        {
            key.push(row[cols[c]]);
        }
        assert(key@ =~= picked(row@, cols@));
        keys.push(key);
    }
    keys
}

fn merge(p: &Vec<Id>, vars: &Vec<VarId>, row: &Vec<Id>) -> (s: Vec<Id>)
    requires
        distinct_vars(vars@, p@.len()),
        row@.len() == vars@.len(),
    ensures
        s@ == merged(p@, vars@, row@),
{
    let mut s = copy_ids(p);
    for i in 0..vars.len()
        invariant
            distinct_vars(vars@, p@.len()),
            row@.len() == vars@.len(),
            s@.len() == p@.len(),
            forall|j: int| 0 <= j < i ==> s@[(#[trigger] vars@[j]) as int] == row@[j],
            forall|v: int|
                0 <= v < s@.len() && (forall|j: int| 0 <= j < i ==> #[trigger] vars@[j] != v)
                    ==> s@[v] == p@[v],
    {
        s.set(vars[i], row[i]);
        proof {
            assert forall|v: int| 0 <= v < s@.len() && (forall|j: int| 0 <= j < i + 1 ==> #[trigger] vars@[j] != v)
                implies s@[v]
                == p@[v] by {
                assert(vars@[i as int] != v);
                assert(forall|j: int| 0 <= j < i ==> #[trigger] vars@[j] != v);
            }
        }
    }
    proof {
        assert(s.len() == s@.len());
        assert forall|v: int| 0 <= v < s@.len()
            implies #[trigger] s@[v] == merged(p@, vars@, row@)[v] by {
            if vars@.contains(v as VarId) {
                let i = choose|i: int| 0 <= i < vars@.len() && vars@[i] == v as VarId;
                lemma_place(vars@, i);
                assert(s@[vars@[i] as int] == row@[i]);
            } else {
                assert forall|j: int| 0 <= j < vars@.len() implies #[trigger] vars@[j] != v by {
                    assert(vars@.contains(vars@[j]));
                }
            }
        }
        assert(s@ =~= merged(p@, vars@, row@));
    }
    s
}

/// The columns of a row whose variables are bound, and those variables.
spec fn shares(
    vars: Seq<VarId>,
    bound: Seq<bool>,
    n: int,
    cols: Seq<usize>,
    shared: Seq<VarId>,
) -> bool {
    &&& cols.len() == shared.len()
    &&& forall|c: int|
        0 <= c < cols.len() ==> #[trigger] cols[c] < n && shared[c] == vars[cols[c] as int]
            && bound[shared[c] as int]
    &&& forall|i: int|
        0 <= i < n && bound[#[trigger] vars[i] as int] ==> exists|c: int|
            0 <= c < cols.len() && #[trigger] cols[c] == i
}

/// Equal keys are values that fit.
proof fn lemma_keys_fit(
    q: &Query,
    k: int,
    vars: Seq<VarId>,
    bound: Seq<bool>,
    cols: Seq<usize>,
    shared: Seq<VarId>,
    p: Seq<Id>,
    row: Seq<Id>,
)
    requires
        shares(vars, bound, vars.len() as int, cols, shared),
        forall|v: VarId| v < bound.len() ==> #[trigger] bound[v as int] == bound_by(q, k, v),
        distinct_vars(vars, bound.len()),
    ensures
        picked(p, shared) == picked(row, cols) <==> fit(p, vars, row, q, k),
{
    let a = picked(p, shared);
    let b = picked(row, cols);
    if a == b {
        assert forall|i: int| 0 <= i < vars.len() && bound_by(q, k, #[trigger] vars[i])
            implies p[vars[i] as int] == row[i] by {
            assert(bound[vars[i] as int]);
            let c = choose|c: int| 0 <= c < cols.len() && #[trigger] cols[c] == i;
            assert(a[c] == b[c]);
            assert(shared[c] == vars[cols[c] as int]);
        }
    }
    if fit(p, vars, row, q, k) {
        assert forall|c: int| 0 <= c < cols.len() implies a[c] == b[c] by {
            assert(cols[c] < vars.len());
            assert(bound_by(q, k, vars[cols[c] as int]));
        }
        assert(a =~= b);
    }
}

/// The pair of places, left one first.
spec fn placed(pair: (usize, usize), left_first: bool) -> (usize, usize) {
    if left_first {
        pair
    } else {
        (pair.1, pair.0)
    }
}

/// Joins the matches of the first `k` atoms with the next atom.
#[verifier::rlimit(40)]
fn join_next(
    q: &Query,
    per: Ghost<Seq<Seq<Seq<Id>>>>,
    k: usize,
    part: &Vec<Vec<Id>>,
    ix: &AtomIndex,
    order: Ghost<Seq<VarId>>,
    bound: &Vec<bool>,
    probes: &mut u64,
) -> (out: Vec<Vec<Id>>)
    requires
        q.in_range(),
        k < q.atoms@.len() <= per@.len(),
        lists_parts(join::values(part@), q, per@, k as int),
        relational::indexes(ix, q.atoms@[k as int].vars@, per@[k as int], order@),
        distinct_vars(ix.vars@, q.n_vars as nat),
        bound@.len() == q.n_vars,
        forall|v: VarId|
            v < q.n_vars ==> #[trigger] bound@[v as int] == bound_by(q, k as int, v),
    ensures
        lists_parts(join::values(out@), q, per@, k + 1),
        *final(probes) == math::capped(
            *old(probes) + part@.len() + ix.trie.rows@.len(),
        ),
{
    let mut cols: Vec<usize> = Vec::new();
    let mut shared: Vec<VarId> = Vec::new();
    for i in 0..ix.vars.len()
        invariant
            bound@.len() == q.n_vars,
            distinct_vars(ix.vars@, q.n_vars as nat),
            shares(ix.vars@, bound@, i as int, cols@, shared@),
    {
        assert(ix.vars@[i as int] < q.n_vars);
        let ghost cols0 = cols@;
        if bound[ix.vars[i]] {
            cols.push(i);
            shared.push(ix.vars[i]);
        }
        proof {
            assert forall|j: int| 0 <= j < i + 1 && bound@[#[trigger] ix.vars@[j] as int]
                implies exists|c: int|
                0 <= c < cols@.len() && #[trigger] cols@[c] == j by {
                if j < i {
                    let c = choose|c: int| 0 <= c < cols0.len() && #[trigger] cols0[c] == j;
                    assert(cols@[c] == j);
                } else {
                    assert(cols@[cols0.len() as int] == i);
                }
            }
        }
    }
    let rows = &ix.trie.rows;
    proof {
        assert forall|i: int| 0 <= i < part@.len() implies (#[trigger] part@[i])@.len() == q.n_vars by {
            assert(join::values(part@)[i] == part@[i]@);
            assert(join::values(part@).contains(part@[i]@));
        }
        assert forall|c: int| 0 <= c < shared@.len() implies #[trigger] shared@[c] < q.n_vars by {
            assert(cols@[c] < ix.vars@.len());
            assert(ix.vars@[cols@[c] as int] < q.n_vars);
        }
    }
    let left = pick_all(part, &shared, q.n_vars);
    let right = pick_all(rows, &cols, ix.vars.len());
    let left_first = left.len() <= right.len();
    let pairs = if left_first {
        hash_join(&left, &right, probes)
    } else {
        hash_join(&right, &left, probes)
    };
    proof {
        assert forall|i: usize, r: usize| i < part@.len() && r < rows@.len()
            implies ((#[trigger] left@[i as int])@ == (
        #[trigger] right@[r as int])@ <==> fit(part@[i as int]@, ix.vars@, rows@[r as int]@, q, k as int)) by {
            lemma_keys_fit(
                q,
                k as int,
                ix.vars@,
                bound@,
                cols@,
                shared@,
                part@[i as int]@,
                rows@[r as int]@,
            );
        }
    }
    let ghost parts = join::values(part@);
    proof {
        assert forall|m: int| 0 <= m < pairs@.len() implies ({
            let (i, r) = placed(#[trigger] pairs@[m], left_first);
            &&& i < part@.len()
            &&& r < rows@.len()
            &&& fit(parts[i as int], ix.vars@, rows@[r as int]@, q, k as int)
            &&& part_match(q, per@, k as int, parts[i as int])
        }) by {
            let (i, r) = placed(pairs@[m], left_first);
            assert(pairs@.contains((pairs@[m].0, pairs@[m].1)));
            assert(left@[i as int]@ == right@[r as int]@);
            assert(parts.contains(parts[i as int]));
        }
    }
    let mut out: Vec<Vec<Id>> = Vec::new();
    for m in 0..pairs.len()
        invariant
            distinct_vars(ix.vars@, q.n_vars as nat),
            *rows == ix.trie.rows,
            forall|i: int| 0 <= i < part@.len() ==> (#[trigger] part@[i])@.len() == q.n_vars,
            relational::is_trie(ix.trie.rows@, ix.vars@.len()),
            forall|m: int|
                0 <= m < pairs@.len() ==> placed(#[trigger] pairs@[m], left_first).0 < part@.len()
                    && placed(pairs@[m], left_first).1 < rows@.len(),
            out@.len() == m,
            forall|j: int|
                0 <= j < m ==> (#[trigger] out@[j])@ == merged(
                    part@[placed(pairs@[j], left_first).0 as int]@,
                    ix.vars@,
                    rows@[placed(pairs@[j], left_first).1 as int]@,
                ),
    {
        let (i, r) = if left_first {
            (pairs[m].0, pairs[m].1)
        } else {
            (pairs[m].1, pairs[m].0)
        };
        assert((i, r) == placed(pairs@[m as int], left_first));
        assert(rows@[r as int]@.len() == ix.vars@.len());
        let s = merge(&part[i], &ix.vars, &rows[r]);
        out.push(s);
    }
    proof {
        let vals = join::values(out@);
        assert forall|s: Seq<Id>| #[trigger] vals.contains(s) implies part_match(q, per@, k + 1, s) by {
            let m = choose|m: int| 0 <= m < vals.len() && vals[m] == s;
            let (i, r) = placed(pairs@[m], left_first);
            assert(out@[m]@ == s);
            lemma_join_sound(q, per@, k as int, ix, order@, parts[i as int], r as int);
        }
        assert forall|s: Seq<Id>| part_match(q, per@, k + 1, s) implies #[trigger] vals.contains(s) by {
            let r = lemma_join_complete(q, per@, k as int, ix, order@, s);
            let p = cut_down(s, q, k as int);
            assert(parts.contains(p));
            let i = choose|i: int| 0 <= i < parts.len() && parts[i] == p;
            assert(rows.len() == rows@.len() && part.len() == part@.len());
            assert(left@[i as usize as int]@ == right@[r as usize as int]@);
            let pair = placed((i as usize, r as usize), left_first);
            assert(pairs@.contains((pair.0, pair.1)));
            let m = choose|m: int| 0 <= m < pairs@.len() && pairs@[m] == pair;
            assert(placed(pairs@[m], left_first) == (i as usize, r as usize));
            assert(out@[m]@ == s);
            assert(vals[m] == s);
        }
        assert forall|a: int, b: int| 0 <= a < vals.len() && 0 <= b < vals.len() && a != b
            implies vals[a] != vals[b] by {
            let (i, r) = placed(pairs@[a], left_first);
            let (j, t) = placed(pairs@[b], left_first);
            assert(out@[a]@ == vals[a] && out@[b]@ == vals[b]);
            lemma_join_sound(q, per@, k as int, ix, order@, parts[i as int], r as int);
            lemma_join_sound(q, per@, k as int, ix, order@, parts[j as int], t as int);
            if vals[a] == vals[b] {
                assert(parts[i as int] == parts[j as int]);
                assert(i == j);
                assert(rows@[r as int]@ =~= rows@[t as int]@) by {
                    assert(rows@[r as int]@.len() == ix.vars@.len());
                    assert(rows@[t as int]@.len() == ix.vars@.len());
                    assert forall|x: int| 0 <= x < ix.vars@.len()
                        implies rows@[r as int]@[x] == rows@[t as int]@[x] by {
                        assert(vals[a][ix.vars@[x] as int] == rows@[r as int]@[x]);
                        assert(vals[b][ix.vars@[x] as int] == rows@[t as int]@[x]);
                    }
                }
                assert(r == t) by {
                    if r < t {
                        assert(relational::row_less(rows@[r as int]@, rows@[t as int]@));
                    } else if t < r {
                        assert(relational::row_less(rows@[t as int]@, rows@[r as int]@));
                    }
                }
                assert(pairs@[a] == pairs@[b]);
            }
        }
    }
    out
}

/// The variables in their own order.
pub open spec fn by_number(n: nat) -> Seq<VarId> {
    Seq::new(n, |i: int| i as VarId)
}

/// What the plan goes through: `parts[k]` are the matches of the first `k`
/// atoms, and `idx` the rows of each atom.
pub open spec fn is_plan(
    q: &Query,
    db: Seq<Relation>,
    parts: Seq<Seq<Seq<Id>>>,
    idx: Seq<AtomIndex>,
) -> bool {
    &&& parts.len() == q.atoms@.len() + 1
    &&& forall|k: int|
        0 <= k < parts.len() ==> lists_parts(
            #[trigger] parts[k],
            q,
            join::atom_tuples(q, db),
            k,
        )
    &&& join::indexes_over(idx, q, join::atom_tuples(q, db), by_number(q.n_vars as nat))
}

/// The inserts and probes of the joins with the atoms below `n`, the first of
/// which is joined with nothing.
pub open spec fn plan_cost(parts: Seq<Seq<Seq<Id>>>, idx: Seq<AtomIndex>, n: nat) -> nat
    decreases n,
{
    if n <= 1 {
        0
    } else {
        plan_cost(parts, idx, (n - 1) as nat) + parts[n - 1].len() + idx[n - 1].trie.rows@.len()
    }
}

/// The largest of the relations between the first join and the last, over the
/// first `n` atoms.
pub open spec fn largest_between(parts: Seq<Seq<Seq<Id>>>, n: nat) -> nat
    decreases n,
{
    if n <= 2 {
        0
    } else {
        let before = largest_between(parts, (n - 1) as nat);
        if parts[n - 1].len() > before {
            parts[n - 1].len()
        } else {
            before
        }
    }
}

proof fn lemma_plan_prefix(
    a: Seq<Seq<Seq<Id>>>,
    b: Seq<Seq<Seq<Id>>>,
    x: Seq<AtomIndex>,
    y: Seq<AtomIndex>,
    n: nat,
)
    requires
        n <= a.len() <= b.len(),
        n <= x.len() <= y.len(),
        forall|i: int| 0 <= i < a.len() ==> #[trigger] a[i] == b[i],
        forall|i: int| 0 <= i < x.len() ==> #[trigger] x[i] == y[i],
    ensures
        plan_cost(a, x, n) == plan_cost(b, y, n),
        largest_between(a, n) == largest_between(b, n),
    decreases n,
{
    if n > 0 {
        lemma_plan_prefix(a, b, x, y, (n - 1) as nat);
        assert(a[n - 1] == b[n - 1]);
        assert(x[n - 1] == y[n - 1]);
    }
}

/// Runs the left-deep plan over the atoms in the order of the query.
pub fn binary_join(q: &Query, db: &Database, probes: &mut u64) -> (report: BinaryJoinReport)
    requires
        join::well_posed(q),
        relational::wide_enough(q, db@),
    ensures
        exists|parts: Seq<Seq<Seq<Id>>>, idx: Seq<AtomIndex>|
            {
                &&& #[trigger] is_plan(q, db@, parts, idx)
                &&& join::reports(parts.last(), q, db@, join::values(report.matches@))
                &&& report.max_intermediate == largest_between(parts, q.atoms@.len())
                &&& *final(probes) == math::capped(
                    *old(probes) + plan_cost(parts, idx, q.atoms@.len()),
                )
            },
{
    let n = q.n_vars;
    let mut order: Vec<VarId> = Vec::new();
    for v in 0..n
        invariant
            order@ == by_number(v as nat),
    {
        order.push(v);
        assert(order@ =~= by_number((v + 1) as nat));
    }
    proof {
        assert forall|i: int, k: int| 0 <= i < q.atoms@.len() && 0 <= k < q.atoms@[i].vars@.len()
            implies order@.contains(
            #[trigger] q.atoms@[i].vars@[k],
        ) by {
            let v = q.atoms@[i].vars@[k];
            assert(v < q.n_vars);
            assert(order@[v as int] == v);
        }
    }
    let ghost per = join::atom_tuples(q, db@);
    let mut bound: Vec<bool> = vec![false; n];
    let zeros: Vec<Id> = vec![0; n];
    let mut part: Vec<Vec<Id>> = Vec::new();
    part.push(zeros);
    let mut largest: usize = 0;
    let ghost mut parts: Seq<Seq<Seq<Id>>> = seq![join::values(part@)];
    let ghost mut idx: Seq<AtomIndex> = Seq::empty();
    proof {
        let vals = join::values(part@);
        assert(vals =~= seq![zeros@]);
        assert forall|s: Seq<Id>| #[trigger] vals.contains(s) <==> part_match(q, per, 0, s) by {
            assert(vals[0] == zeros@);
            if part_match(q, per, 0, s) {
                assert forall|v: int| 0 <= v < s.len() implies s[v] == zeros@[v] by {
                    assert(!bound_by(q, 0, v as VarId));
                }
                assert(s =~= zeros@);
            }
        }
    }
    for k in 0..q.atoms.len()
        invariant
            join::well_posed(q),
            relational::wide_enough(q, db@),
            n == q.n_vars,
            order@ == by_number(n as nat),
            relational::covers(q, order@),
            per == join::atom_tuples(q, db@),
            bound@.len() == n,
            forall|v: VarId|
                v < q.n_vars ==> #[trigger] bound@[v as int] == bound_by(q, k as int, v),
            parts.len() == k + 1,
            parts.last() == join::values(part@),
            forall|j: int|
                0 <= j < parts.len() ==> lists_parts(#[trigger] parts[j], q, per, j),
            idx.len() == k,
            forall|i: int|
                0 <= i < k ==> relational::indexes(
                    &(#[trigger] idx[i]),
                    q.atoms@[i].vars@,
                    per[i],
                    order@,
                ),
            largest == largest_between(parts, k as nat),
            *probes == math::capped(*old(probes) + plan_cost(parts, idx, k as nat)),
    {
        let ix = semi_naive::index_one(q, db, k, &order);
        proof {
            assert(lists_parts(parts[k as int], q, per, k as int));
            assert(relational::indexes(&ix, q.atoms@[k as int].vars@, per[k as int], order@));
            lemma_index_vars(&ix, q, k as int, per[k as int], order@);
        }
        if k >= 2 && part.len() > largest {
            largest = part.len();
        }
        let mut uncounted: u64 = 0;
        let next = if k == 0 {
            join_next(q, Ghost(per), k, &part, &ix, Ghost(order@), &bound, &mut uncounted)
        } else {
            join_next(q, Ghost(per), k, &part, &ix, Ghost(order@), &bound, probes)
        };
        mark(&mut bound, &q.atoms[k].vars);
        proof {
            lemma_bound_step(q, k as int);
            let parts1 = parts.push(join::values(next@));
            let idx1 = idx.push(ix);
            lemma_plan_prefix(parts, parts1, idx, idx1, k as nat);
            assert(parts1[k as int] == parts[k as int]);
            assert(idx1[k as int] == ix);
            assert forall|j: int| 0 <= j < parts1.len()
                implies lists_parts(#[trigger] parts1[j], q, per, j) by {
                if j < parts.len() {
                    assert(parts1[j] == parts[j]);
                }
            }
            parts = parts1;
            idx = idx1;
        }
        part = next;
    }
    let ghost found = join::values(part@);
    proof {
        let m = q.atoms@.len() as int;
        assert(lists_parts(parts[m], q, per, m));
        assert forall|i: int| 0 <= i < part@.len() implies (#[trigger] part@[i])@.len() == n by {
            assert(found[i] == part@[i]@);
            assert(found.contains(found[i]));
            assert(part_match(q, per, m, found[i]));
        }
    }
    let matches = project_parts(&part, &q.head, n, Ghost(found));
    proof {
        let m = q.atoms@.len() as int;
        assert(parts[m] == found);
        assert(lists_parts(parts[m], q, per, m));
        assert forall|s: Seq<Id>| #[trigger] found.contains(s) <==> join::is_match(q, db@, s) by {
            join::lemma_match_solves(q, db@, s);
            assert(part_match(q, per, m, s) <==> join::is_solution(q, per, s)) by {
                assert forall|v: VarId| #[trigger] bound_by(q, m, v) == join::mentioned(q, v) by {
                    if bound_by(q, m, v) {
                        let i = choose|i: int| 0 <= i < m && (#[trigger] q.atoms@[i]).vars@.contains(v);
                        assert(q.atoms@[i].vars@.contains(v));
                    }
                    if join::mentioned(q, v) {
                        let i = choose|i: int| 0 <= i < m && (#[trigger] q.atoms@[i]).vars@.contains(v);
                        assert(q.atoms@[i].vars@.contains(v));
                    }
                }
                if part_match(q, per, m, s) {
                    assert forall|v: VarId| v < q.n_vars && !#[trigger] join::mentioned(q, v)
                        implies s[v as int] == 0 by {
                        assert(!bound_by(q, m, v));
                    }
                }
                if join::is_solution(q, per, s) {
                    assert forall|v: VarId| v < q.n_vars && !#[trigger] bound_by(q, m, v)
                        implies s[v as int] == 0 by {
                        assert(!join::mentioned(q, v));
                    }
                }
            }
        }
        assert(is_plan(q, db@, parts, idx));
    }
    BinaryJoinReport { matches, max_intermediate: largest }
}

/// The variables of an index are distinct variables of the query.
proof fn lemma_index_vars(
    ix: &AtomIndex,
    q: &Query,
    k: int,
    tuples: Seq<Seq<Id>>,
    order: Seq<VarId>,
)
    requires
        order == by_number(q.n_vars as nat),
        relational::indexes(ix, q.atoms@[k].vars@, tuples, order),
    ensures
        distinct_vars(ix.vars@, q.n_vars as nat),
{
    assert forall|i: int| 0 <= i < ix.vars@.len() implies (#[trigger] ix.vars@[i]) < q.n_vars by {
        assert(order.contains(ix.vars@[i]));
    }
    assert forall|i: int, j: int| 0 <= i < ix.vars@.len() && 0 <= j < ix.vars@.len() && i != j
        implies ix.vars@[i]
        != ix.vars@[j] by {
        if i < j {
            assert(relational::place(order, ix.vars@[i]) < relational::place(order, ix.vars@[j]));
        } else {
            assert(relational::place(order, ix.vars@[j]) < relational::place(order, ix.vars@[i]));
        }
    }
}

fn mark(bound: &mut Vec<bool>, vars: &Vec<VarId>)
    requires
        forall|i: int| 0 <= i < vars@.len() ==> #[trigger] vars@[i] < old(bound)@.len(),
    ensures
        final(bound)@.len() == old(bound)@.len(),
        forall|v: VarId|
            v < old(bound)@.len() ==> #[trigger] final(bound)@[v as int] == (old(
                bound,
            )@[v as int] || vars@.contains(v)),
{
    for i in 0..vars.len()
        invariant
            forall|i: int| 0 <= i < vars@.len() ==> #[trigger] vars@[i] < old(bound)@.len(),
            bound@.len() == old(bound)@.len(),
            forall|v: VarId|
                v < bound@.len() ==> #[trigger] bound@[v as int] == (old(bound)@[v as int]
                    || in_first(vars@, i as int, v)),
    {
        bound.set(vars[i], true);
        proof {
            lemma_in_first(vars@, i as int);
        }
    }
    proof {
        assert forall|v: VarId| v < bound@.len()
            implies #[trigger] bound@[v as int] == (old(bound)@[v as int]
            || vars@.contains(v)) by {
            if vars@.contains(v) {
                let i = choose|i: int| 0 <= i < vars@.len() && vars@[i] == v;
                assert(in_first(vars@, vars@.len() as int, v));
            }
        }
    }
}

fn project_parts(
    part: &Vec<Vec<Id>>,
    head: &Vec<VarId>,
    n: usize,
    found: Ghost<Seq<Seq<Id>>>,
) -> (rows: Vec<Vec<Id>>)
    requires
        found@ == join::values(part@),
        forall|i: int| 0 <= i < head@.len() ==> #[trigger] head@[i] < n,
        forall|i: int| 0 <= i < part@.len() ==> (#[trigger] part@[i])@.len() == n,
    ensures
        rows@.len() == part@.len(),
        forall|i: int|
            0 <= i < rows@.len() ==> (#[trigger] join::values(rows@)[i]) == join::project(
                head@,
                found@[i],
            ),
{
    let rows = pick_all(part, head, n);
    assert forall|i: int| 0 <= i < rows@.len()
        implies (#[trigger] join::values(rows@)[i]) == join::project(
        head@,
        found@[i],
    ) by {
        assert(rows@[i]@ =~= join::project(head@, found@[i]));
    }
    rows
}

spec fn projection(head: Seq<VarId>) -> spec_fn(Seq<Id>) -> Seq<Id> {
    |s: Seq<Id>| join::project(head, s)
}

/// Two plans that report the matches of one query over one database report the
/// same rows, each as often: the binary plan agrees with the generic join.
pub proof fn lemma_plans_agree(
    q: &Query,
    db: Seq<Relation>,
    found: Seq<Seq<Id>>,
    rows: Seq<Seq<Id>>,
    found2: Seq<Seq<Id>>,
    rows2: Seq<Seq<Id>>,
)
    requires
        join::reports(found, q, db, rows),
        join::reports(found2, q, db, rows2),
    ensures
        rows.to_multiset() == rows2.to_multiset(),
{
    let f = projection(q.head@);
    assert forall|s: Seq<Id>| #[trigger] found.contains(s) <==> found2.contains(s) by {
        assert(found.contains(s) <==> join::is_match(q, db, s));
        assert(found2.contains(s) <==> join::is_match(q, db, s));
    }
    agreement::lemma_same_readings(found, found2, f);
    assert(found.map_values(f) =~= rows);
    assert(found2.map_values(f) =~= rows2);
}

} // verus!
