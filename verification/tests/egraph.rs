use database_learning_path::egraph::backtrack;
use database_learning_path::egraph::binary_join::{binary_join, BinaryJoinReport};
use database_learning_path::egraph::egraph::EGraph;
use database_learning_path::egraph::gen::{db_delta, edge_graph, Fig2};
use database_learning_path::egraph::join::matches as join_matches;
use database_learning_path::egraph::nodes::{Id, Sym};
use database_learning_path::egraph::pattern::{compile, number, papp, pvar, Pat, PatV, Query};
use database_learning_path::egraph::relational::{
    db_tuples, to_database, Database, Relation, Trie,
};
use database_learning_path::egraph::semi_naive::delta_matches;
use std::collections::HashSet;

#[test]
fn hashcons_returns_the_same_class() {
    let mut g = EGraph::new();
    let f = g.sym("f");
    let a = g.sym("a");
    let x = g.add(a, &[]);
    let n1 = g.add(f, &[x]);
    let n2 = g.add(f, &[x]);
    assert_eq!(n1, n2);
    assert_eq!(g.total_nodes(), 2);
}

#[test]
fn rebuild_closes_congruence() {
    let mut g = EGraph::new();
    let (f, a, b) = (g.sym("f"), g.sym("a"), g.sym("b"));
    let (ia, ib) = (g.add(a, &[]), g.add(b, &[]));
    let (fa, fb) = (g.add(f, &[ia]), g.add(f, &[ib]));
    assert_ne!(g.find(fa), g.find(fb));
    g.union(ia, ib);
    g.rebuild();
    assert_eq!(g.find(fa), g.find(fb), "congruence not restored");
    assert_eq!(g.nodes(fa).len(), 1, "duplicate e-node survived rebuild");
}

#[test]
fn names_are_interned_once() {
    let mut g = EGraph::new();
    let f = g.sym("f");
    assert_eq!(g.sym("f"), f);
    assert_eq!(g.lookup_sym("f"), Some(f));
    assert_eq!(g.lookup_sym("g"), None);
    assert_eq!(g.sym_name(f), "f");
    let x = g.add(f, &[]);
    assert!(!g.union(x, x));
    assert_eq!(g.n_classes(), 1);
    assert_eq!(g.class_ids(), vec![x]);
    assert_eq!(g.classes_with_op(f), vec![x]);
}

#[test]
fn unnesting_matches_figure_8() {
    let mut g = EGraph::new();
    let (f, gg) = (g.sym("f"), g.sym("g"));
    let q = compile(&[papp(f, vec![pvar("a"), papp(gg, vec![pvar("a")])])]);
    assert_eq!(q.atoms.len(), 2, "one atom per non-variable subpattern");
    let rendered = q.render(&|s| g.sym_name(s).to_string());
    assert_eq!(rendered, "Q(?0, a) <- R_f(?0, a, ?1), R_g(?1, a)");
    assert_eq!(q.atoms_with(q.head[1]).len(), 2);
}

/// A walk over the graph and a join must return the same substitutions.
fn agree(g: &EGraph, pats: &[Pat], expect: usize) {
    let q = compile(pats);
    let pv: Vec<_> = pats.iter().map(|p| number(p, &q)).collect();
    let prog = backtrack::compile(&pv, q.n_vars, &q.roots);
    let mut bt = 0u64;
    let walked: HashSet<Vec<Id>> = backtrack::matches(g, &prog, &q.head, &mut bt)
        .into_iter()
        .collect();
    let mut gj = 0u64;
    let joined: HashSet<Vec<Id>> = join_matches(&q, &to_database(g), &mut gj)
        .into_iter()
        .collect();
    assert_eq!(walked.len(), expect, "unexpected match count");
    assert_eq!(walked, joined, "the two matchers disagree");
}

#[test]
fn nonlinear_pattern_agrees() {
    let fig = Fig2::new(60);
    agree(
        &fig.g,
        &[papp(fig.f, vec![pvar("a"), papp(fig.gs, vec![pvar("a")])])],
        60,
    );
}

#[test]
fn linear_pattern_agrees() {
    let fig = Fig2::new(40);
    agree(
        &fig.g,
        &[papp(fig.f, vec![pvar("a"), papp(fig.gs, vec![pvar("b")])])],
        1600,
    );
}

#[test]
fn triangle_multipattern_agrees() {
    let (g, e) = edge_graph(60, 300, 3);
    let pats = vec![
        papp(e, vec![pvar("x"), pvar("y")]),
        papp(e, vec![pvar("y"), pvar("z")]),
        papp(e, vec![pvar("z"), pvar("x")]),
    ];
    let q = compile(&pats);
    let mut gj = 0u64;
    let n = join_matches(&q, &to_database(&g), &mut gj).len();
    assert!(n > 0, "generator produced no triangles");
    agree(&g, &pats, n);
}

#[test]
fn the_figure_has_its_size() {
    let fig = Fig2::new(10);
    assert_eq!(fig.g.total_nodes(), 30);
    assert_eq!(fig.g.n_classes(), 12);
    assert_eq!(db_tuples(&to_database(&fig.g)), 30);
}

fn triangle_query(e: Sym) -> Query {
    compile(&[
        papp(e, vec![pvar("x"), pvar("y")]),
        papp(e, vec![pvar("y"), pvar("z")]),
        papp(e, vec![pvar("z"), pvar("x")]),
    ])
}

#[test]
fn binary_join_agrees_with_generic_join() {
    let (g, e) = edge_graph(120, 900, 7);
    let db = to_database(&g);
    let q = triangle_query(e);
    let mut p = 0u64;
    let want: HashSet<Vec<Id>> = join_matches(&q, &db, &mut p).into_iter().collect();
    assert!(!want.is_empty(), "the generator should produce triangles");
    let got: HashSet<Vec<Id>> = binary_join(&q, &db, &mut p).matches.into_iter().collect();
    assert_eq!(got, want);
}

#[test]
fn the_intermediate_is_the_problem() {
    let (g, e) = edge_graph(400, 4000, 11);
    let db = to_database(&g);
    let q = triangle_query(e);
    let mut p = 0u64;
    let r = binary_join(&q, &db, &mut p);
    assert!(
        r.max_intermediate > 4 * r.matches.len(),
        "intermediate {} vs output {}",
        r.max_intermediate,
        r.matches.len()
    );
}

fn setup(n: usize, k: usize) -> (Query, Database, Database, Database) {
    let mut fig = Fig2::new(n);
    let before = to_database(&fig.g);
    let (f, gs) = (fig.f, fig.gs);
    fig.grow(k);
    let after = to_database(&fig.g);
    let delta = db_delta(&after, &before);
    let q = compile(&[papp(f, vec![pvar("a"), papp(gs, vec![pvar("a")])])]);
    (q, before, after, delta)
}

#[test]
fn semi_naive_derives_exactly_the_new_matches() {
    let (q, before, after, delta) = setup(200, 8);
    let mut p = 0u64;
    let old: HashSet<Vec<Id>> = join_matches(&q, &before, &mut p).into_iter().collect();
    let new: HashSet<Vec<Id>> = join_matches(&q, &after, &mut p).into_iter().collect();
    let expected: HashSet<Vec<Id>> = new.difference(&old).cloned().collect();
    assert_eq!(expected.len(), 8, "the delta should be exactly the 8 new f-terms");

    let got: HashSet<Vec<Id>> = delta_matches(&q, &after, &delta, &mut p).into_iter().collect();
    assert_eq!(got, expected);
}

#[test]
fn semi_naive_is_cheaper_than_re_deriving_everything() {
    let (q, _before, after, delta) = setup(2000, 8);
    let mut full = 0u64;
    let n_full = join_matches(&q, &after, &mut full).len();
    let mut inc = 0u64;
    let n_inc = delta_matches(&q, &after, &delta, &mut inc).len();
    assert_eq!(n_full, 2008);
    assert_eq!(n_inc, 8);
    assert!(
        inc * 10 < full,
        "semi-naive did {} probes against naive's {}",
        inc,
        full
    );
}

#[test]
fn a_root_variable_keeps_its_first_register() {
    let mut g = EGraph::new();
    let f = g.sym("f");
    let pats = [PatV::App(f, vec![PatV::Var(1)]), PatV::Var(1)];
    let prog = backtrack::compile(&pats, 2, &[0, 1]);
    assert_eq!(prog.root_regs, vec![0, 2]);
    assert_eq!(prog.n_regs, 3);
    assert_eq!(prog.var_reg, vec![0, 1]);
    assert!(matches!(
        prog.ins.last(),
        Some(backtrack::Ins::Compare { a: 1, b: 2 })
    ));
}

#[test]
fn a_bare_variable_agrees() {
    let fig = Fig2::new(12);
    agree(&fig.g, &[papp(fig.gs, vec![pvar("x")]), pvar("x")], 12);
    agree(&fig.g, &[pvar("x"), papp(fig.gs, vec![pvar("x")])], 12);
}

#[test]
fn the_figure_matches_its_leaves() {
    let fig = Fig2::new(60);
    assert_eq!((fig.ig, fig.iff), (60, 120));
    let q = compile(&[papp(fig.f, vec![pvar("a"), papp(fig.gs, vec![pvar("a")])])]);
    let mut probes = 0u64;
    let mut rows = join_matches(&q, &to_database(&fig.g), &mut probes);
    rows.sort();
    let want: Vec<Vec<Id>> = (0..60).map(|i| vec![120, i]).collect();
    assert_eq!(rows, want);
    assert_eq!(probes, 300);
}

#[test]
fn growing_keeps_every_tuple() {
    let mut fig = Fig2::new(20);
    let before = to_database(&fig.g);
    fig.grow(5);
    let after = to_database(&fig.g);
    assert_eq!(fig.n, 25);
    for (s, r) in before.iter().enumerate() {
        for t in &r.tuples {
            assert!(after[s].tuples.contains(t));
        }
    }
}

#[test]
fn adding_and_rebuilding_count_nodes() {
    let mut g = EGraph::default();
    let (f, a, b) = (g.sym("f"), g.sym("a"), g.sym("b"));
    let (ia, ib) = (g.add(a, &[]), g.add(b, &[]));
    assert_eq!((g.n_classes(), g.total_nodes()), (2, 2));
    let fa = g.add(f, &[ia]);
    assert_eq!((g.n_classes(), g.total_nodes()), (3, 3));
    assert_eq!(g.find(fa), fa);
    assert_eq!(g.add(f, &[ia]), fa);
    assert_eq!((g.n_classes(), g.total_nodes()), (3, 3));
    g.add(f, &[ib]);
    g.union(ia, ib);
    g.rebuild();
    let counts = (g.n_classes(), g.total_nodes());
    assert_eq!(counts, (2, 3));
    g.rebuild();
    assert_eq!((g.n_classes(), g.total_nodes()), counts);
    assert_eq!(g.add(f, &[ia]), g.add(f, &[ib]));
}

#[test]
fn clones_and_defaults_are_what_they_say() {
    let p = papp(3, vec![pvar("x"), papp(4, vec![pvar("y")])]);
    assert_eq!(format!("{:?}", p.clone()), format!("{:?}", p));
    let q = compile(&[p.clone()]);
    let v = number(&p, &q);
    assert_eq!(format!("{:?}", v.clone()), format!("{:?}", v));
    assert_eq!(format!("{:?}", q.clone()), format!("{:?}", q));
    assert_eq!(Relation::default().arity, 0);
    assert!(Relation::default().clone().tuples.is_empty());
    assert!(Trie::default().rows.is_empty());
    assert!(BinaryJoinReport::default().matches.is_empty());
    assert_eq!(BinaryJoinReport::default().max_intermediate, 0);
}
