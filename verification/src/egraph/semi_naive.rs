//! Semi-naive evaluation: only the matches that use at least one new tuple.
//!
//! A query with `m` atoms expands into `m` delta queries, the j-th of which
//! ranges atom j over the new tuples and every other atom over the whole
//! database. Together they give the derivations that touch something new; one
//! that uses two new tuples comes out twice, so the rows are deduplicated.

use crate::egraph::agreement;
use crate::egraph::egraph::{copy_ids, EGraph};
use crate::egraph::gen;
use crate::egraph::join;
use crate::egraph::nodes;
use crate::egraph::nodes::{ENode, Id, NodeMap, Sym};
use crate::egraph::pattern;
use crate::egraph::pattern::{Draft, Pat, Query, VarId};
use crate::egraph::relational;
use crate::egraph::relational::{AtomIndex, Database, Relation};
use crate::math;
use vstd::prelude::*;

verus! {

/// The tuples of each atom, with the new ones in place of those of atom `j`.
pub open spec fn delta_tuples(
    q: &Query,
    db: Seq<Relation>,
    delta: Seq<Relation>,
    j: int,
) -> Seq<Seq<Seq<Id>>> {
    join::atom_tuples(q, db).update(j, relational::tuples_of(delta, q.atoms@[j].rel))
}

/// `s` satisfies the j-th delta query.
pub open spec fn delta_match(
    q: &Query,
    db: Seq<Relation>,
    delta: Seq<Relation>,
    j: int,
    s: Seq<Id>,
) -> bool {
    join::is_solution(q, delta_tuples(q, db, delta, j), s)
}

/// Some match of one of the first `n` delta queries projects to the row.
pub open spec fn delta_row(
    q: &Query,
    db: Seq<Relation>,
    delta: Seq<Relation>,
    n: int,
    row: Seq<Id>,
) -> bool {
    exists|j: int, s: Seq<Id>|
        0 <= j < n && #[trigger] delta_match(q, db, delta, j, s) && row == join::project(
            q.head@,
            s,
        )
}

/// The keys that the first `n` delta queries look at.
pub open spec fn delta_cost(
    idx: Seq<AtomIndex>,
    news: Seq<AtomIndex>,
    order: Seq<VarId>,
    n: nat,
) -> nat
    decreases n,
{
    if n == 0 {
        0
    } else {
        let mixed = idx.update(n - 1, news[n - 1]);
        delta_cost(idx, news, order, (n - 1) as nat) + join::join_cost(
            mixed,
            order,
            0,
            join::start(mixed),
        )
    }
}

/// The index of atom `i` over its relation in the database.
pub(crate) fn index_one(q: &Query, db: &Database, i: usize, order: &[VarId]) -> (ix: AtomIndex)
    requires
        i < q.atoms@.len(),
        relational::is_ordering(order@),
        relational::covers(q, order@),
        relational::wide_enough(q, db@),
    ensures
        relational::indexes(
            &ix,
            q.atoms@[i as int].vars@,
            relational::tuples_of(db@, q.atoms@[i as int].rel),
            order@,
        ),
{
    let atom = &q.atoms[i];
    let s = atom.rel as usize;
    if s < db.len() {
        proof {
            let rel = db@[s as int];
            assert forall|j: int| 0 <= j < rel.tuples@.len()
                implies (#[trigger] rel.tuples@[j])@.len() >= atom.vars@.len() by {
                let tv = relational::tuples_of(db@, atom.rel);
                assert(tv[j] == rel.tuples@[j]@);
                assert(tv.contains(tv[j]));
            }
        }
        relational::index_atom(&db[s], atom, order)
    } else {
        let none = Relation { arity: 0, tuples: Vec::new() };
        assert(relational::tuple_values(none) =~= Seq::empty());
        relational::index_atom(&none, atom, order)
    }
}

/// The rows of the query that use at least one tuple of `delta`, each once.
pub fn delta_matches(q: &Query, db: &Database, delta: &Database, probes: &mut u64) -> (rows: Vec<
    Vec<Id>,
>)
    requires
        join::well_posed(q),
        relational::wide_enough(q, db@),
        relational::wide_enough(q, delta@),
    ensures
        join::values(rows@).no_duplicates(),
        forall|row: Seq<Id>| #[trigger]
            join::values(rows@).contains(row) <==> delta_row(
                q,
                db@,
                delta@,
                q.atoms@.len() as int,
                row,
            ),
        exists|order: Seq<VarId>, idx: Seq<AtomIndex>, news: Seq<AtomIndex>|
            {
                &&& join::planned(q, db@, order, idx)
                &&& relational::indexes_query(news, q, delta@, order)
                &&& *final(probes) == math::capped(
                    *old(probes) + #[trigger] delta_cost(idx, news, order, q.atoms@.len()),
                )
            },
{
    let order = relational::plan(q, db);
    proof {
        assert forall|i: int, k: int| 0 <= i < q.atoms@.len() && 0 <= k < q.atoms@[i].vars@.len()
            implies order@.contains(
            #[trigger] q.atoms@[i].vars@[k],
        ) by {
            assert(q.atoms@[i].vars@[k] < q.n_vars);
        }
    }
    let mut idx = relational::index_query(q, db, &order);
    let ghost idx0 = idx@;
    let ghost mut news: Seq<AtomIndex> = Seq::empty();
    let ghost per0 = join::atom_tuples(q, db@);
    let mut rows: Vec<Vec<Id>> = Vec::new();
    let mut seen = NodeMap::new();
    for j in 0..q.atoms.len()
        invariant
            join::well_posed(q),
            relational::wide_enough(q, delta@),
            relational::is_ordering(order@),
            relational::covers(q, order@),
            forall|v: VarId| #[trigger] order@.contains(v) <==> v < q.n_vars,
            relational::indexes_query(idx0, q, db@, order@),
            idx@ == idx0,
            per0 == join::atom_tuples(q, db@),
            news.len() == j,
            forall|i: int|
                0 <= i < j ==> relational::indexes(
                    &(#[trigger] news[i]),
                    q.atoms@[i].vars@,
                    relational::tuples_of(delta@, q.atoms@[i].rel),
                    order@,
                ),
            gen::knows_rows(&seen, join::values(rows@)),
            join::values(rows@).no_duplicates(),
            forall|row: Seq<Id>| #[trigger]
                join::values(rows@).contains(row) <==> delta_row(q, db@, delta@, j as int, row),
            *probes == math::capped(
                *old(probes) + delta_cost(idx0, news, order@, j as nat),
            ),
    {
        let fresh = index_one(q, delta, j, &order);
        let ghost new = fresh;
        let whole = idx.remove(j);
        idx.insert(j, fresh);
        let ghost per = delta_tuples(q, db@, delta@, j as int);
        proof {
            assert(idx@ =~= idx0.update(j as int, new));
            assert forall|i: int| 0 <= i < idx@.len() implies relational::indexes(
                &(#[trigger] idx@[i]),
                q.atoms@[i].vars@,
                per[i],
                order@,
            ) by {
                if i != j {
                    assert(relational::indexes(
                        &idx0[i],
                        q.atoms@[i].vars@,
                        relational::tuples_of(db@, q.atoms@[i].rel),
                        order@,
                    ));
                }
            }
            join::lemma_ready(q, per, order@, idx@);
        }
        let found = join::generic_join(&order, &idx, q.n_vars, probes);
        let some = join::project_all(&found, &q.head, q.n_vars, Ghost(idx@));
        proof {
            join::lemma_answers_solve(q, per, order@, idx@);
            assert forall|s: Seq<Id>| #[trigger] join::values(found@).contains(s) <==> delta_match(
                q,
                db@,
                delta@,
                j as int,
                s,
            ) by {
                assert(join::is_answer(idx@, q.n_vars as nat, s) <==> join::is_solution(q, per, s));
            }
            let news1 = news.push(new);
            lemma_cost_prefix(idx0, news, news1, order@, j as nat);
            assert(news1[j as int] == new);
            news = news1;
        }
        idx.remove(j);
        idx.insert(j, whole);
        assert(idx@ =~= idx0);
        let ghost rows0 = join::values(rows@);
        add_new(&mut rows, &mut seen, &some);
        proof {
            assert forall|row: Seq<Id>| #[trigger] join::values(rows@).contains(row) <==> delta_row(
                q,
                db@,
                delta@,
                j + 1,
                row,
            ) by {
                assert(join::values(rows@).contains(row) <==> rows0.contains(row) || join::values(
                    some@,
                ).contains(row));
                assert(rows0.contains(row) <==> delta_row(q, db@, delta@, j as int, row));
                if rows0.contains(row) {
                    let (i, s) = choose|i: int, s: Seq<Id>|
                        0 <= i < j && #[trigger] delta_match(q, db@, delta@, i, s) && row
                            == join::project(q.head@, s);
                    assert(delta_match(q, db@, delta@, i, s));
                }
                if join::values(some@).contains(row) {
                    let i = choose|i: int|
                        0 <= i < some@.len() && #[trigger] join::values(some@)[i] == row;
                    let s = join::values(found@)[i];
                    assert(join::values(found@).contains(s));
                    assert(delta_match(q, db@, delta@, j as int, s));
                }
                if delta_row(q, db@, delta@, j + 1, row) {
                    let (i, s) = choose|i: int, s: Seq<Id>|
                        0 <= i < j + 1 && #[trigger] delta_match(q, db@, delta@, i, s) && row
                            == join::project(q.head@, s);
                    if i < j {
                        assert(delta_row(q, db@, delta@, j as int, row));
                    } else {
                        assert(join::values(found@).contains(s));
                        let m = choose|m: int|
                            0 <= m < found@.len() && join::values(found@)[m] == s;
                        assert(join::values(some@)[m] == row);
                    }
                }
            }
        }
    }
    proof {
        assert(relational::indexes_query(news, q, delta@, order@));
        assert(join::planned(q, db@, order@, idx0));
        assert(*probes == math::capped(
            *old(probes) + delta_cost(idx0, news, order@, q.atoms@.len()),
        ));
    }
    rows
}

proof fn lemma_cost_prefix(
    idx: Seq<AtomIndex>,
    a: Seq<AtomIndex>,
    b: Seq<AtomIndex>,
    order: Seq<VarId>,
    n: nat,
)
    requires
        n <= a.len() <= b.len(),
        forall|i: int| 0 <= i < n ==> #[trigger] a[i] == b[i],
    ensures
        delta_cost(idx, a, order, n) == delta_cost(idx, b, order, n),
    decreases n,
{
    if n > 0 {
        lemma_cost_prefix(idx, a, b, order, (n - 1) as nat);
        assert(a[n - 1] == b[n - 1]);
    }
}

/// Appends the rows that are not there yet.
fn add_new(rows: &mut Vec<Vec<Id>>, seen: &mut NodeMap, some: &Vec<Vec<Id>>)
    requires
        gen::knows_rows(old(seen), join::values(old(rows)@)),
        join::values(old(rows)@).no_duplicates(),
    ensures
        gen::knows_rows(final(seen), join::values(final(rows)@)),
        join::values(final(rows)@).no_duplicates(),
        forall|row: Seq<Id>| #[trigger]
            join::values(final(rows)@).contains(row) <==> join::values(old(rows)@).contains(row)
                || join::values(some@).contains(row),
{
    let ghost rows0 = join::values(rows@);
    let ghost all = join::values(some@);
    for i in 0..some.len()
        invariant
            rows0 == join::values(old(rows)@),
            all == join::values(some@),
            gen::knows_rows(seen, join::values(rows@)),
            join::values(rows@).no_duplicates(),
            forall|row: Seq<Id>| #[trigger]
                join::values(rows@).contains(row) <==> rows0.contains(row) || among(
                    all,
                    i as int,
                    row,
                ),
    {
        let node = ENode { op: 0, children: copy_ids(&some[i]) };
        let ghost row = some@[i as int]@;
        let ghost now = join::values(rows@);
        let ghost seen0 = seen@;
        assert(node@ == gen::row_key(row));
        assert(all[i as int] == row);
        if seen.get(&node).is_none() {
            rows.push(copy_ids(&some[i]));
            seen.insert(node, 0);
            proof {
                let next = join::values(rows@);
                assert(next =~= now.push(row));
                assert forall|t: Seq<Id>| next.contains(t) <==> now.contains(t) || t == row by {
                    if now.contains(t) {
                        let j = choose|j: int| 0 <= j < now.len() && now[j] == t;
                        assert(next[j] == t);
                    }
                    if next.contains(t) {
                        let j = choose|j: int| 0 <= j < next.len() && next[j] == t;
                        if j < now.len() {
                            assert(now[j] == t);
                        }
                    }
                    assert(next[now.len() as int] == row);
                }
                assert(next.no_duplicates()) by {
                    assert forall|a: int, b: int| 0 <= a < next.len() && 0 <= b < next.len() && a != b
                        implies next[a] != next[b] by {
                        if a == now.len() {
                            assert(now.contains(now[b]));
                        } else if b == now.len() {
                            assert(now.contains(now[a]));
                        }
                    }
                }
                assert forall|t: Seq<Id>| seen@.contains_key(#[trigger] gen::row_key(t)) <==> next.contains(t) by {
                    assert(seen0.contains_key(gen::row_key(t)) <==> now.contains(t));
                }
            }
        }
        proof {
            assert forall|t: Seq<Id>| #[trigger] join::values(rows@).contains(t) <==> rows0.contains(t) || among(
                all,
                i + 1,
                t,
            ) by {
                assert(now.contains(t) <==> rows0.contains(t) || among(all, i as int, t));
                if among(all, i as int, t) {
                    let j = choose|j: int| 0 <= j < i && #[trigger] all[j] == t;
                    assert(all[j] == t);
                }
                if among(all, i + 1, t) {
                    let j = choose|j: int| 0 <= j < i + 1 && #[trigger] all[j] == t;
                    if j < i {
                        assert(among(all, i as int, t));
                    }
                }
                if t == row {
                    assert(among(all, i + 1, t));
                    assert(seen0.contains_key(gen::row_key(row)) ==> now.contains(row));
                }
            }
        }
    }
    proof {
        assert forall|row: Seq<Id>| #[trigger] join::values(rows@).contains(row) <==> rows0.contains(row) || all.contains(row) by {
            if all.contains(row) {
                let j = choose|j: int| 0 <= j < all.len() && all[j] == row;
                assert(among(all, all.len() as int, row));
            }
        }
    }
}

/// The row is one of the first `n`.
spec fn among(all: Seq<Seq<Id>>, n: int, row: Seq<Id>) -> bool {
    exists|j: int| 0 <= j < n && #[trigger] all[j] == row
}

/// A tuple is fresh where it is among the new ones and not among the old.
proof fn lemma_fresh(tuples: Seq<Seq<Id>>, was: Seq<Seq<Id>>, t: Seq<Id>)
    ensures
        gen::fresh_tuples(tuples, was).contains(t) <==> tuples.contains(t) && !was.contains(t),
    decreases tuples.len(),
{
    let now = gen::fresh_tuples(tuples, was);
    if tuples.len() > 0 {
        let first = tuples.drop_last();
        let before = gen::fresh_tuples(first, was);
        lemma_fresh(first, was, t);
        if tuples.contains(t) {
            let i = choose|i: int| 0 <= i < tuples.len() && tuples[i] == t;
            if i < first.len() {
                assert(first[i] == t);
            }
        }
        if first.contains(t) {
            let i = choose|i: int| 0 <= i < first.len() && first[i] == t;
            assert(tuples[i] == t);
        }
        assert(tuples.contains(tuples.last()));
        if !was.contains(tuples.last()) {
            assert(now[before.len() as int] == tuples.last());
            if before.contains(t) {
                let i = choose|i: int| 0 <= i < before.len() && before[i] == t;
                assert(now[i] == t);
            }
            if now.contains(t) {
                let i = choose|i: int| 0 <= i < now.len() && now[i] == t;
                if i < before.len() {
                    assert(before[i] == t);
                }
            }
        }
    }
}

/// `after` has grown out of `before`: no tuple is gone.
pub open spec fn only_grew(before: Seq<Relation>, after: Seq<Relation>) -> bool {
    forall|rel: Sym, t: Seq<Id>| #[trigger]
        relational::tuples_of(before, rel).contains(t) ==> relational::tuples_of(
            after,
            rel,
        ).contains(t)
}

/// An assignment names at most one tuple of each atom's relation.
pub open spec fn names_one_tuple(q: &Query, db: Seq<Relation>) -> bool {
    forall|i: int, s: Seq<Id>, t: Seq<Id>, u: Seq<Id>|
        #![trigger q.atoms@[i], relational::spells(q.atoms@[i].vars@, t, s), relational::spells(q.atoms@[i].vars@, u, s)]
        0 <= i < q.atoms@.len() && relational::tuples_of(db, q.atoms@[i].rel).contains(t)
            && relational::tuples_of(db, q.atoms@[i].rel).contains(u) && relational::spells(
            q.atoms@[i].vars@,
            t,
            s,
        ) && relational::spells(q.atoms@[i].vars@, u, s) ==> t == u
}

/// So it is where the tuples are as wide as the atoms.
pub proof fn lemma_exact_names_one(q: &Query, db: Seq<Relation>)
    requires
        agreement::exact_widths(q, db),
    ensures
        names_one_tuple(q, db),
{
    assert forall|i: int, s: Seq<Id>, t: Seq<Id>, u: Seq<Id>|
        #![trigger q.atoms@[i], relational::spells(q.atoms@[i].vars@, t, s), relational::spells(q.atoms@[i].vars@, u, s)]
        0 <= i < q.atoms@.len() && relational::tuples_of(db, q.atoms@[i].rel).contains(t)
            && relational::tuples_of(db, q.atoms@[i].rel).contains(u) && relational::spells(
            q.atoms@[i].vars@,
            t,
            s,
        ) && relational::spells(q.atoms@[i].vars@, u, s) implies t == u by {
        let vars = q.atoms@[i].vars@;
        assert(u.len() == vars.len() && t.len() == vars.len());
        assert(u =~= t) by {
            assert forall|k: int| 0 <= k < vars.len() implies u[k] == t[k] by {
                assert(u[k] == s[vars[k] as int]);
                assert(t[k] == s[vars[k] as int]);
            }
        }
    }
}

/// The delta queries derive exactly the new matches: those of the database as
/// it is that it did not have before.
pub proof fn lemma_delta_matches_are_new(
    q: &Query,
    before: Seq<Relation>,
    after: Seq<Relation>,
    delta: Seq<Relation>,
    s: Seq<Id>,
)
    requires
        only_grew(before, after),
        gen::is_delta(delta, after, before),
        names_one_tuple(q, after),
    ensures
        (exists|j: int| 0 <= j < q.atoms@.len() && #[trigger] delta_match(q, after, delta, j, s))
            <==> join::is_match(q, after, s) && !join::is_match(q, before, s),
{
    let per = join::atom_tuples(q, after);
    join::lemma_match_solves(q, after, s);
    if exists|j: int| 0 <= j < q.atoms@.len() && #[trigger] delta_match(q, after, delta, j, s) {
        let j = choose|j: int| 0 <= j < q.atoms@.len() && #[trigger] delta_match(q, after, delta, j, s);
        let per2 = delta_tuples(q, after, delta, j);
        let rel = q.atoms@[j].rel;
        let vars = q.atoms@[j].vars@;
        assert(relational::atom_holds(per2[j], vars, s));
        let t = choose|t: Seq<Id>| #[trigger] per2[j].contains(t) && relational::spells(vars, t, s);
        assert(per2[j] == relational::tuples_of(delta, rel));
        lemma_fresh(relational::tuples_of(after, rel), relational::tuples_of(before, rel), t);
        assert(relational::tuples_of(after, rel).contains(t));
        assert forall|i: int| 0 <= i < q.atoms@.len()
            implies relational::atom_holds(#[trigger] per[i], q.atoms@[i].vars@, s) by {
            if i != j {
                assert(per2[i] == per[i]);
                assert(relational::atom_holds(per2[i], q.atoms@[i].vars@, s));
            } else {
                assert(per[i].contains(t));
            }
        }
        if join::is_match(q, before, s) {
            let was = relational::tuples_of(before, rel);
            assert(relational::atom_holds(was, vars, s));
            let u = choose|u: Seq<Id>| #[trigger] was.contains(u) && relational::spells(vars, u, s);
            assert(relational::tuples_of(after, rel).contains(u));
            assert(relational::spells(q.atoms@[j].vars@, t, s));
            assert(relational::spells(q.atoms@[j].vars@, u, s));
        }
    }
    if join::is_match(q, after, s) && !join::is_match(q, before, s) {
        let j = choose|j: int|
            0 <= j < q.atoms@.len() && !relational::atom_holds(
                relational::tuples_of(before, (#[trigger] q.atoms@[j]).rel),
                q.atoms@[j].vars@,
                s,
            );
        let rel = q.atoms@[j].rel;
        let vars = q.atoms@[j].vars@;
        let now = relational::tuples_of(after, rel);
        assert(relational::atom_holds(now, vars, s));
        let t = choose|t: Seq<Id>| #[trigger] now.contains(t) && relational::spells(vars, t, s);
        lemma_fresh(now, relational::tuples_of(before, rel), t);
        assert(!relational::tuples_of(before, rel).contains(t));
        assert(relational::tuples_of(delta, rel).contains(t));
        let per2 = delta_tuples(q, after, delta, j);
        assert forall|i: int| 0 <= i < q.atoms@.len()
            implies relational::atom_holds(#[trigger] per2[i], q.atoms@[i].vars@, s) by {
            if i != j {
                assert(per2[i] == per[i]);
                assert(relational::atom_holds(per[i], q.atoms@[i].vars@, s));
            } else {
                assert(per2[i].contains(t));
            }
        }
        assert(delta_match(q, after, delta, j, s));
    }
}

/// Where the pattern's own variables agree, so do its auxiliaries: an e-node
/// is in one class.
proof fn lemma_determined(g: &EGraph, p: Pat, d: Draft, s: Seq<Id>, t: Seq<Id>)
    requires
        g.rebuilt(),
        pattern::draft_ok(d),
        pattern::unnest(p, d).1.names.len() <= usize::MAX,
        agreement::atoms_hold(g, pattern::unnest(p, d).1.atoms, d.atoms.len() as int, s),
        agreement::atoms_hold(g, pattern::unnest(p, d).1.atoms, d.atoms.len() as int, t),
        forall|v: int|
            0 <= v < pattern::unnest(p, d).1.names.len() && #[trigger] pattern::unnest(
                p,
                d,
            ).1.own[v] ==> s[v] == t[v],
    ensures
        s[pattern::unnest(p, d).0 as int] == t[pattern::unnest(p, d).0 as int],
        forall|v: int|
            d.names.len() <= v < pattern::unnest(p, d).1.names.len() ==> #[trigger] s[v] == t[v],
    decreases p, 0nat,
{
    let (v, e) = pattern::unnest(p, d);
    pattern::lemma_unnest(p, d);
    match p {
        Pat::Var(name) => {
            assert(e.own[v as int]);
            if e.names.len() > d.names.len() {
                assert(e.own[d.names.len() as int]);
            }
        },
        Pat::App(op, args) => {
            let n = args@.len();
            let d1 = pattern::with_aux(d, op);
            let (vars, f) = pattern::unnest_args(args, d1, n);
            let slot = d.atoms.len() as int;
            pattern::lemma_args_len(args, d1, n);
            pattern::lemma_with_aux_ok(d, op);
            pattern::lemma_unnest_args(args, d1, n);
            assert forall|i: int| slot + 1 <= i < f.atoms.len() implies agreement::node_atom(
                g,
                (#[trigger] f.atoms[i]).0,
                f.atoms[i].1,
                s,
            ) && agreement::node_atom(g, f.atoms[i].0, f.atoms[i].1, t) by {
                assert(e.atoms[i] == f.atoms[i]);
            }
            assert forall|w: int| 0 <= w < f.names.len() && #[trigger] f.own[w]
                implies s[w] == t[w] by {
                assert(e.own[w]);
            }
            lemma_args_determined(g, args, d1, n, s, t);
            assert(e.atoms[slot] == (op, seq![v] + vars));
            let all = seq![v] + vars;
            assert(agreement::node_atom(g, e.atoms[slot].0, e.atoms[slot].1, s));
            assert(agreement::node_atom(g, e.atoms[slot].0, e.atoms[slot].1, t));
            let a = choose|k: nodes::Key| #[trigger]
                g.holds(s[all[0] as int] as int, k) && k.0 == op && k.1.len() + 1 == all.len()
                    && forall|j: int|
                    0 <= j < k.1.len() ==> #[trigger] k.1[j] == s[all[j + 1] as int];
            let b = choose|k: nodes::Key| #[trigger]
                g.holds(t[all[0] as int] as int, k) && k.0 == op && k.1.len() + 1 == all.len()
                    && forall|j: int|
                    0 <= j < k.1.len() ==> #[trigger] k.1[j] == t[all[j + 1] as int];
            assert(a.1 =~= b.1) by {
                assert forall|j: int| 0 <= j < a.1.len() implies #[trigger] a.1[j] == b.1[j] by {
                    assert(all[j + 1] == vars[j]);
                    assert(a.1[j] == s[all[j + 1] as int]);
                    assert(b.1[j] == t[all[j + 1] as int]);
                }
            }
            assert(a == b);
            assert(all[0] == v);
            assert(g.holds(s[v as int] as int, a) && g.holds(t[v as int] as int, a));
        },
    }
}

proof fn lemma_args_determined(
    g: &EGraph,
    args: Vec<Pat>,
    d: Draft,
    k: nat,
    s: Seq<Id>,
    t: Seq<Id>,
)
    requires
        g.rebuilt(),
        pattern::draft_ok(d),
        k <= args@.len(),
        pattern::unnest_args(args, d, k).1.names.len() <= usize::MAX,
        agreement::atoms_hold(g, pattern::unnest_args(args, d, k).1.atoms, d.atoms.len() as int, s),
        agreement::atoms_hold(g, pattern::unnest_args(args, d, k).1.atoms, d.atoms.len() as int, t),
        forall|v: int|
            0 <= v < pattern::unnest_args(args, d, k).1.names.len()
                && #[trigger] pattern::unnest_args(args, d, k).1.own[v] ==> s[v] == t[v],
    ensures
        forall|j: int|
            0 <= j < k ==> s[(#[trigger] pattern::unnest_args(args, d, k).0[j]) as int]
                == t[pattern::unnest_args(args, d, k).0[j] as int],
        forall|v: int|
            d.names.len() <= v < pattern::unnest_args(args, d, k).1.names.len()
                ==> #[trigger] s[v] == t[v],
    decreases args, k,
{
    if k > 0 {
        let k0 = (k - 1) as nat;
        let (vars0, e0) = pattern::unnest_args(args, d, k0);
        let (vars, e) = pattern::unnest_args(args, d, k);
        let p = args@[k - 1];
        pattern::lemma_pat_len(p, e0);
        pattern::lemma_unnest_args(args, d, k0);
        pattern::lemma_unnest(p, e0);
        let a = d.atoms.len() as int;
        agreement::lemma_atoms_split(g, e0.atoms, e.atoms, a, s);
        agreement::lemma_atoms_split(g, e0.atoms, e.atoms, a, t);
        assert forall|v: int| 0 <= v < e0.names.len() && #[trigger] e0.own[v] implies s[v] == t[v] by {
            assert(e.own[v] == e0.own[v]);
        }
        lemma_args_determined(g, args, d, k0, s, t);
        lemma_determined(g, p, e0, s, t);
        assert forall|j: int| 0 <= j < k
            implies s[(#[trigger] vars[j]) as int] == t[vars[j] as int] by {
            if j < k0 {
                assert(vars[j] == vars0[j]);
            }
        }
    }
}

proof fn lemma_compiled_determined(g: &EGraph, pats: Seq<Pat>, k: nat, s: Seq<Id>, t: Seq<Id>)
    requires
        g.rebuilt(),
        pattern::compiled(pats, k).1.names.len() <= usize::MAX,
        agreement::atoms_hold(g, pattern::compiled(pats, k).1.atoms, 0, s),
        agreement::atoms_hold(g, pattern::compiled(pats, k).1.atoms, 0, t),
        forall|v: int|
            0 <= v < pattern::compiled(pats, k).1.names.len() && #[trigger] pattern::compiled(
                pats,
                k,
            ).1.own[v] ==> s[v] == t[v],
    ensures
        forall|v: int|
            0 <= v < pattern::compiled(pats, k).1.names.len() ==> #[trigger] s[v] == t[v],
    decreases k,
{
    if k > 0 {
        let d = pattern::compiled(pats, (k - 1) as nat).1;
        let e = pattern::compiled(pats, k).1;
        agreement::lemma_compiled_grows(pats, k);
        agreement::lemma_compiled_grows(pats, (k - 1) as nat);
        agreement::lemma_atoms_split(g, d.atoms, e.atoms, 0, s);
        agreement::lemma_atoms_split(g, d.atoms, e.atoms, 0, t);
        assert forall|v: int| 0 <= v < d.names.len() && #[trigger] d.own[v] implies s[v] == t[v] by {
            assert(e.own[v] == d.own[v]);
        }
        lemma_compiled_determined(g, pats, (k - 1) as nat, s, t);
        lemma_determined(g, pats[k - 1], d, s, t);
    }
}

/// Every own variable is in the list of own variables.
proof fn lemma_own_listed(own: Seq<bool>, n: nat, v: int)
    requires
        n <= own.len() <= usize::MAX,
        0 <= v < n,
        own[v],
    ensures
        pattern::own_vars(own, n).contains(v as VarId),
    decreases n,
{
    let now = pattern::own_vars(own, n);
    let before = pattern::own_vars(own, (n - 1) as nat);
    if v == n - 1 {
        assert(now[before.len() as int] == v);
    } else {
        lemma_own_listed(own, (n - 1) as nat, v);
        let i = choose|i: int| 0 <= i < before.len() && before[i] == v as VarId;
        assert(now[i] == v as VarId);
    }
}

/// On the database of a rebuilt e-graph a row has one match: the head names
/// every variable of the patterns, and those fix the rest.
pub proof fn lemma_rows_are_matches(
    g: &EGraph,
    pats: Seq<Pat>,
    q: &Query,
    db: Seq<Relation>,
    s: Seq<Id>,
    t: Seq<Id>,
)
    requires
        g.well_formed(),
        g.rebuilt(),
        pattern::is_query(
            q,
            pattern::compiled(pats, pats.len()).0,
            pattern::compiled(pats, pats.len()).1,
        ),
        relational::is_database(g, db),
        agreement::exact_widths(q, db),
        join::is_match(q, db, s),
        join::is_match(q, db, t),
        join::project(q.head@, s) == join::project(q.head@, t),
    ensures
        s == t,
{
    let (roots, d) = pattern::compiled(pats, pats.len());
    agreement::lemma_compiled_grows(pats, pats.len());
    assert(q.atoms@.len() == d.atoms.len());
    assert forall|i: int| 0 <= i < d.atoms.len() implies agreement::node_atom(
        g,
        (#[trigger] d.atoms[i]).0,
        d.atoms[i].1,
        s,
    ) && agreement::node_atom(g, d.atoms[i].0, d.atoms[i].1, t) by {
        assert(pattern::atom_values(q.atoms@)[i] == q.atoms@[i]@);
        assert(d.atoms[i].1.len() > 0);
        let rel = q.atoms@[i].rel;
        let vars = q.atoms@[i].vars@;
        assert(relational::atom_holds(relational::tuples_of(db, rel), vars, s));
        assert(relational::atom_holds(relational::tuples_of(db, rel), vars, t));
        agreement::lemma_atom_is_node(g, db, rel, vars, s);
        agreement::lemma_atom_is_node(g, db, rel, vars, t);
    }
    assert forall|v: int| 0 <= v < d.names.len() && #[trigger] d.own[v] implies s[v] == t[v] by {
        lemma_own_listed(d.own, d.own.len(), v);
        let own = pattern::own_vars(d.own, d.own.len());
        let i = choose|i: int| 0 <= i < own.len() && own[i] == v as VarId;
        assert(q.head@[roots.len() + i] == v as VarId);
        assert(join::project(q.head@, s)[roots.len() + i] == s[v]);
        assert(join::project(q.head@, t)[roots.len() + i] == t[v]);
    }
    lemma_compiled_determined(g, pats, pats.len(), s, t);
    assert(s =~= t);
}

/// Some match projects to the row.
pub open spec fn match_row(q: &Query, db: Seq<Relation>, row: Seq<Id>) -> bool {
    exists|s: Seq<Id>| #[trigger]
        join::is_match(q, db, s) && row == join::project(q.head@, s)
}

/// A row has one match.
pub open spec fn rows_fix_matches(q: &Query, db: Seq<Relation>) -> bool {
    forall|s: Seq<Id>, t: Seq<Id>| #[trigger]
        join::is_match(q, db, s) && #[trigger] join::is_match(q, db, t) && join::project(q.head@, s)
            == join::project(q.head@, t) ==> s == t
}

/// The rows of the delta queries are the rows of the database as it is without
/// those that it had before, for any databases in which a row has one match,
/// and whatever relations the atoms share.
pub proof fn lemma_semi_naive_is_the_difference(
    q: &Query,
    before: Seq<Relation>,
    after: Seq<Relation>,
    delta: Seq<Relation>,
    row: Seq<Id>,
)
    requires
        rows_fix_matches(q, after),
        names_one_tuple(q, after),
        only_grew(before, after),
        gen::is_delta(delta, after, before),
    ensures
        delta_row(q, after, delta, q.atoms@.len() as int, row) <==> match_row(q, after, row)
            && !match_row(q, before, row),
{
    let n = q.atoms@.len() as int;
    if delta_row(q, after, delta, n, row) {
        let (j, s) = choose|j: int, s: Seq<Id>|
            0 <= j < n && #[trigger] delta_match(q, after, delta, j, s) && row == join::project(
                q.head@,
                s,
            );
        lemma_delta_matches_are_new(q, before, after, delta, s);
        assert(join::is_match(q, after, s));
        if match_row(q, before, row) {
            let t = choose|t: Seq<Id>| #[trigger]
                join::is_match(q, before, t) && row == join::project(q.head@, t);
            lemma_still_matches(q, before, after, t);
        }
    }
    if match_row(q, after, row) && !match_row(q, before, row) {
        let s = choose|s: Seq<Id>| #[trigger]
            join::is_match(q, after, s) && row == join::project(q.head@, s);
        assert(!join::is_match(q, before, s));
        lemma_delta_matches_are_new(q, before, after, delta, s);
        let j = choose|j: int| 0 <= j < n && #[trigger] delta_match(q, after, delta, j, s);
        assert(delta_match(q, after, delta, j, s));
    }
}

/// On the database of a rebuilt e-graph the rows of the delta queries are the
/// new rows of the patterns.
pub proof fn lemma_semi_naive_on_a_graph(
    g: &EGraph,
    pats: Seq<Pat>,
    q: &Query,
    before: Seq<Relation>,
    after: Seq<Relation>,
    delta: Seq<Relation>,
    row: Seq<Id>,
)
    requires
        g.well_formed(),
        g.rebuilt(),
        pattern::is_query(
            q,
            pattern::compiled(pats, pats.len()).0,
            pattern::compiled(pats, pats.len()).1,
        ),
        relational::is_database(g, after),
        agreement::exact_widths(q, after),
        only_grew(before, after),
        gen::is_delta(delta, after, before),
    ensures
        delta_row(q, after, delta, q.atoms@.len() as int, row) <==> match_row(q, after, row)
            && !match_row(q, before, row),
{
    assert forall|s: Seq<Id>, t: Seq<Id>| #[trigger] join::is_match(q, after, s)
        && #[trigger] join::is_match(q, after, t) && join::project(q.head@, s) == join::project(
        q.head@,
        t,
    ) implies s == t by {
        lemma_rows_are_matches(g, pats, q, after, s, t);
    }
    lemma_exact_names_one(q, after);
    lemma_semi_naive_is_the_difference(q, before, after, delta, row);
}

/// A match stays a match when the database grows.
pub proof fn lemma_still_matches(
    q: &Query,
    before: Seq<Relation>,
    after: Seq<Relation>,
    s: Seq<Id>,
)
    requires
        only_grew(before, after),
        join::is_match(q, before, s),
    ensures
        join::is_match(q, after, s),
{
    assert forall|i: int| 0 <= i < q.atoms@.len() implies relational::atom_holds(
        relational::tuples_of(after, (#[trigger] q.atoms@[i]).rel),
        q.atoms@[i].vars@,
        s,
    ) by {
        let was = relational::tuples_of(before, q.atoms@[i].rel);
        let vars = q.atoms@[i].vars@;
        assert(relational::atom_holds(was, vars, s));
        let t = choose|t: Seq<Id>| #[trigger] was.contains(t) && relational::spells(vars, t, s);
        assert(relational::tuples_of(after, q.atoms@[i].rel).contains(t));
    }
}

} // verus!
