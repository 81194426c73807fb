//! The two matchers agree: the rows of the backtracking search are the rows of
//! the join over the database of the same e-graph.
//!
//! Every register of a program stands for one variable of the query, so a
//! match, read through that correspondence, is a run; and a run gives each
//! variable the value of the register in which it was first met.

use crate::egraph::backtrack;
use crate::egraph::backtrack::{Code, Ins, Program};
use crate::egraph::egraph::EGraph;
use crate::egraph::join;
use crate::egraph::nodes;
use crate::egraph::nodes::{Id, Sym};
use crate::egraph::pattern;
use crate::egraph::pattern::{Draft, Pat, PatV, Query, VarId};
use crate::egraph::relational;
use vstd::prelude::*;

verus! {

/// The assignment names an e-node of the e-graph: its class, then its
/// children.
pub open spec fn node_atom(g: &EGraph, rel: Sym, vars: Seq<VarId>, s: Seq<Id>) -> bool {
    exists|k: nodes::Key| #[trigger]
        g.holds(s[vars[0] as int] as int, k) && k.0 == rel && k.1.len() + 1 == vars.len()
            && forall|j: int| 0 <= j < k.1.len() ==> #[trigger] k.1[j] == s[vars[j + 1] as int]
}

pub open spec fn atoms_hold(g: &EGraph, atoms: Seq<(Sym, Seq<VarId>)>, lo: int, s: Seq<Id>) -> bool {
    forall|i: int|
        lo <= i < atoms.len() ==> node_atom(g, (#[trigger] atoms[i]).0, atoms[i].1, s)
}

spec fn ins_hold(g: &EGraph, ins: Seq<Ins>, lo: int, r: Seq<Id>) -> bool {
    forall|i: int| lo <= i < ins.len() ==> backtrack::holds_ins(g, #[trigger] ins[i], r)
}

/// The registers hold ids that name themselves.
spec fn calm(g: &EGraph, r: Seq<Id>, n: int) -> bool {
    forall|i: int| 0 <= i < n ==> (#[trigger] r[i]) < g.len() && g.rep(r[i]) == r[i]
}

/// The registers are the assignment, read through the variables that they
/// stand for.
spec fn fits(g: &EGraph, s: Seq<Id>, r: Seq<Id>, rv: Seq<VarId>) -> bool {
    &&& calm(g, r, rv.len() as int)
    &&& forall|i: int| 0 <= i < rv.len() ==> r[i] == s[#[trigger] rv[i] as int]
}

/// Each variable of the draft has a register in which it was first met, which
/// is the one that the code knows it by, and no later variable has one.
spec fn aligned(d: Draft, c: Code, rv: Seq<VarId>, home: Seq<int>, lo: int) -> bool {
    &&& rv.len() == c.n_regs <= usize::MAX
    &&& home.len() == d.names.len()
    &&& forall|v: int|
        0 <= v < home.len() ==> 0 <= #[trigger] home[v] < c.n_regs && rv[home[v]] == v
    &&& forall|v: int|
        0 <= v < home.len() && d.own[v] ==> #[trigger] c.var_reg[v] == #[trigger] home[v]
    &&& forall|v: int| lo <= v < c.var_reg.len() ==> #[trigger] c.var_reg[v] == usize::MAX
}

/// The later state keeps what the earlier one had.
spec fn extends(c: Code, rv: Seq<VarId>, home: Seq<int>, c2: Code, rv2: Seq<VarId>, home2: Seq<int>) -> bool {
    &&& c.ins.len() <= c2.ins.len()
    &&& forall|i: int| 0 <= i < c.ins.len() ==> #[trigger] c2.ins[i] == c.ins[i]
    &&& rv.len() <= rv2.len()
    &&& forall|i: int| 0 <= i < rv.len() ==> #[trigger] rv2[i] == rv[i]
    &&& home.len() <= home2.len()
    &&& forall|i: int| 0 <= i < home.len() ==> #[trigger] home2[i] == home[i]
    &&& c2.var_reg.len() == c.var_reg.len()
}

/// The added atoms hold just when the added instructions do.
spec fn bridged(
    g: &EGraph,
    atoms: Seq<(Sym, Seq<VarId>)>,
    a: int,
    ins: Seq<Ins>,
    i: int,
    rv: Seq<VarId>,
) -> bool {
    forall|s: Seq<Id>, r: Seq<Id>| #[trigger]
        fits(g, s, r, rv) ==> (atoms_hold(g, atoms, a, s) <==> ins_hold(g, ins, i, r))
}

/// Register `i` holds what the first register of its variable holds.
spec fn at_home(r: Seq<Id>, rv: Seq<VarId>, home: Seq<int>, i: int) -> bool {
    0 <= rv[i] < home.len() && r[i] == r[home[rv[i] as int]]
}

/// In any run of the added instructions, the registers from `lo` to `hi` and
/// from `n` on are at home.
spec fn homed(
    g: &EGraph,
    ins: Seq<Ins>,
    i: int,
    rv: Seq<VarId>,
    home: Seq<int>,
    lo: int,
    hi: int,
    n: int,
) -> bool {
    &&& forall|x: int| lo <= x < hi ==> (#[trigger] rv[x]) < home.len()
    &&& forall|x: int| n <= x < rv.len() ==> (#[trigger] rv[x]) < home.len()
    &&& forall|r: Seq<Id>|
        (#[trigger] calm(g, r, rv.len() as int) && ins_hold(g, ins, i, r)) ==> {
            &&& forall|x: int| lo <= x < hi ==> #[trigger] at_home(r, rv, home, x)
            &&& forall|x: int| n <= x < rv.len() ==> #[trigger] at_home(r, rv, home, x)
        }
}

/// No variable of the pattern has the name of an auxiliary.
pub open spec fn plain(p: Pat) -> bool
    decreases p,
{
    match p {
        Pat::Var(name) => !(name@.len() > 0 && name@[0] == '?'),
        Pat::App(op, args) => forall|i: int| 0 <= i < args@.len() ==> plain(#[trigger] args@[i]),
    }
}

/// The names of a draft are the first of the list.
spec fn starts(names: Seq<Seq<char>>, d: Draft) -> bool {
    &&& d.names.len() <= names.len() <= usize::MAX
    &&& forall|i: int| 0 <= i < d.names.len() ==> #[trigger] names[i] == d.names[i]
}

/// The first place of a plain name is its variable in the draft.
proof fn lemma_own_place(d: Draft, name: Seq<char>, names: Seq<Seq<char>>, v: int)
    requires
        pattern::draft_ok(d),
        !(name.len() > 0 && name[0] == '?'),
        starts(names, pattern::with_own(d, name)),
        pattern::first_place(names, name, v),
    ensures
        v == pattern::var_for(d, name),
        v < d.names.len() ==> d.own[v],
        v <= d.names.len(),
        v == d.names.len() <==> !(exists|w: int| pattern::is_own(d, name, w)),
{
    let e = pattern::with_own(d, name);
    if v < d.names.len() {
        assert(names[v] == e.names[v]);
        assert(d.names[v] == name);
        assert(d.own[v]);
        assert(pattern::is_own(d, name, v));
    }
    if exists|w: int| pattern::is_own(d, name, w) {
        let w = choose|w: int| pattern::is_own(d, name, w);
        assert(names[w] == e.names[w]);
        assert(v <= w);
        if v < w {
            assert(d.names[v] != d.names[w]);
        }
    } else {
        assert(names[d.names.len() as int] == e.names[d.names.len() as int]);
        if v < d.names.len() {
            assert(pattern::is_own(d, name, v));
        }
    }
}

/// One instruction for one atom: the e-node that the assignment names is the
/// e-node that the registers hold.
proof fn lemma_bind_is_atom(
    g: &EGraph,
    s: Seq<Id>,
    r: Seq<Id>,
    rv: Seq<VarId>,
    reg: int,
    base: int,
    op: Sym,
    v: VarId,
    vars: Seq<VarId>,
)
    requires
        g.well_formed(),
        fits(g, s, r, rv),
        0 <= reg < rv.len(),
        rv[reg] == v,
        0 <= base,
        base + vars.len() <= rv.len() <= usize::MAX,
        forall|j: int| 0 <= j < vars.len() ==> rv[base + j] == #[trigger] vars[j],
    ensures
        node_atom(g, op, seq![v] + vars, s) <==> backtrack::holds_ins(
            g,
            Ins::Bind {
                class: reg as usize,
                op,
                out: base as usize,
                arity: vars.len() as usize,
            },
            r,
        ),
{
    let all = seq![v] + vars;
    let i = Ins::Bind {
        class: reg as usize,
        op,
        out: base as usize,
        arity: vars.len() as usize,
    };
    assert(all[0] == v);
    assert(r[reg] == s[rv[reg] as int]);
    assert(g.rep(r[reg]) == r[reg]);
    assert forall|j: int| 0 <= j < vars.len() implies #[trigger] all[j + 1] == vars[j] && r[base + j]
        == s[vars[j] as int] by {
        assert(rv[base + j] == vars[j]);
    }
    if node_atom(g, op, all, s) {
        let k = choose|k: nodes::Key| #[trigger]
            g.holds(s[all[0] as int] as int, k) && k.0 == op && k.1.len() + 1 == all.len()
                && forall|j: int| 0 <= j < k.1.len() ==> #[trigger] k.1[j] == s[all[j + 1] as int];
        assert(g.holds(g.rep(r[reg]) as int, k));
        assert forall|j: int| 0 <= j < k.1.len() implies r[base + j] == #[trigger] k.1[j] by {
            assert(all[j + 1] == vars[j]);
        }
        assert(backtrack::children_at(r, base, k));
        assert(i->Bind_out == base && i->class == reg && i->arity == k.1.len());
        assert(g.holds(g.rep(r[i->class as int]) as int, k));
        assert(backtrack::holds_ins(g, i, r));
    }
    if backtrack::holds_ins(g, i, r) {
        let k = choose|k: nodes::Key| #[trigger]
            g.holds(g.rep(r[reg]) as int, k) && k.0 == op && k.1.len() == vars.len()
                && backtrack::children_at(r, base, k);
        assert(g.holds(s[all[0] as int] as int, k));
        assert forall|j: int| 0 <= j < k.1.len() implies #[trigger] k.1[j] == s[all[j + 1] as int] by {
            assert(r[base + j] == k.1[j]);
            assert(all[j + 1] == vars[j]);
        }
        assert(node_atom(g, op, all, s));
    }
}

/// What is at home stays there when later variables come in.
proof fn lemma_home_stays(
    r: Seq<Id>,
    rv: Seq<VarId>,
    home: Seq<int>,
    rv2: Seq<VarId>,
    home2: Seq<int>,
    i: int,
)
    requires
        at_home(r, rv, home, i),
        0 <= i < rv.len() <= rv2.len(),
        rv2[i] == rv[i],
        home.len() <= home2.len(),
        forall|v: int| 0 <= v < home.len() ==> #[trigger] home2[v] == home[v],
    ensures
        at_home(r, rv2, home2, i),
{
}

/// What one pattern adds to the state.
spec fn in_step(
    g: &EGraph,
    p: Pat,
    d: Draft,
    c: Code,
    reg: int,
    rv: Seq<VarId>,
    home: Seq<int>,
    e: Draft,
    c2: Code,
    rv2: Seq<VarId>,
    home2: Seq<int>,
    lo: int,
) -> bool {
    &&& aligned(e, c2, rv2, home2, e.names.len() as int)
    &&& extends(c, rv, home, c2, rv2, home2)
    &&& forall|w: int| 0 <= w < lo ==> #[trigger] c2.var_reg[w] == c.var_reg[w]
    &&& bridged(g, e.atoms, d.atoms.len() as int, c2.ins, c.ins.len() as int, rv2)
    &&& homed(g, c2.ins, c.ins.len() as int, rv2, home2, reg, reg + 1, c.n_regs)
    &&& p is App ==> {
        &&& home2[d.names.len() as int] == reg
        &&& c2.ins.len() > c.ins.len()
        &&& c2.ins[c.ins.len() as int] is Bind
        &&& c2.ins[c.ins.len() as int]->class == reg
        &&& c2.ins[c.ins.len() as int]->Bind_op == p->App_0
    }
}

/// Where the first variable that the code has not met may be: behind the
/// pattern's own auxiliary.
spec fn unmet(p: Pat, d: Draft) -> int {
    if p is App {
        (d.names.len() + 1) as int
    } else {
        d.names.len() as int
    }
}

proof fn lemma_lockstep(
    g: &EGraph,
    p: Pat,
    pv: PatV,
    d: Draft,
    c: Code,
    reg: int,
    rv: Seq<VarId>,
    home: Seq<int>,
    names: Seq<Seq<char>>,
) -> (out: (Seq<VarId>, Seq<int>))
    requires
        g.well_formed(),
        pattern::draft_ok(d),
        plain(p),
        pattern::numbered(p, pv, names),
        starts(names, pattern::unnest(p, d).1),
        c.var_reg.len() == names.len(),
        backtrack::vars_below(pv, names.len()),
        backtrack::emitted(c, pv, reg).n_regs <= usize::MAX,
        aligned(d, c, rv, home, unmet(p, d)),
        0 <= reg < c.n_regs,
        rv[reg] == pattern::unnest(p, d).0,
    ensures
        in_step(
            g,
            p,
            d,
            c,
            reg,
            rv,
            home,
            pattern::unnest(p, d).1,
            backtrack::emitted(c, pv, reg),
            out.0,
            out.1,
            unmet(p, d),
        ),
    decreases p, 0nat,
{
    let (v, e) = pattern::unnest(p, d);
    let c2 = backtrack::emitted(c, pv, reg);
    match p {
        Pat::Var(name) => {
            let w = pv->Var_0;
            lemma_own_place(d, name@, names, w as int);
            if w < d.names.len() {
                assert(c.var_reg[w as int] == home[w as int]);
                assert(c2.ins =~= c.ins.push(Ins::Compare { a: c.var_reg[w as int], b: reg as usize }));
                assert(bridged(g, e.atoms, d.atoms.len() as int, c2.ins, c.ins.len() as int, rv)) by {
                    assert forall|s: Seq<Id>, r: Seq<Id>| #[trigger] fits(g, s, r, rv)
                        implies (atoms_hold(
                        g,
                        e.atoms,
                        d.atoms.len() as int,
                        s,
                    ) <==> ins_hold(g, c2.ins, c.ins.len() as int, r)) by {
                        assert(r[reg] == s[rv[reg] as int]);
                        assert(r[home[w as int]] == s[rv[home[w as int]] as int]);
                    }
                }
                assert(homed(g, c2.ins, c.ins.len() as int, rv, home, reg, reg + 1, c.n_regs)) by {
                    assert forall|r: Seq<Id>| (#[trigger] calm(g, r, rv.len() as int) && ins_hold(
                        g,
                        c2.ins,
                        c.ins.len() as int,
                        r,
                    )) implies at_home(r, rv, home, reg) by {
                        assert(backtrack::holds_ins(g, c2.ins[c.ins.len() as int], r));
                        assert(g.rep(r[reg]) == r[reg]);
                        assert(g.rep(r[home[w as int]]) == r[home[w as int]]);
                    }
                }
                (rv, home)
            } else {
                let home2 = home.push(reg);
                assert(c.var_reg[w as int] == usize::MAX);
                assert(c2.ins == c.ins);
                assert(aligned(e, c2, rv, home2, e.names.len() as int));
                (rv, home2)
            }
        },
        Pat::App(op, args) => {
            let pvs = pv->App_1;
            let n = args@.len();
            assert(args.len() == n && pvs.len() == pvs@.len());
            let base = c.n_regs;
            let bind = Ins::Bind {
                class: reg as usize,
                op,
                out: base as usize,
                arity: pvs@.len() as usize,
            };
            let c1 = Code { ins: c.ins.push(bind), n_regs: base + n, ..c };
            let d1 = pattern::with_aux(d, op);
            let (vars, f) = pattern::unnest_args(args, d1, n);
            assert(e.names == f.names);
            backtrack::lemma_emitted_args_grows(c1, pvs, base, n);
            pattern::lemma_unnest(p, d);
            pattern::lemma_args_len(args, d1, n);
            pattern::lemma_with_aux_ok(d, op);
            pattern::lemma_unnest_args(args, d1, n);
            let rv1 = rv + vars;
            let home1 = home.push(reg);
            assert(aligned(d1, c1, rv1, home1, d1.names.len() as int)) by {
                assert forall|w: int| 0 <= w < home1.len() implies 0 <= #[trigger] home1[w] < c1.n_regs
                    && rv1[home1[w]] == w by {
                    if w < home.len() {
                        assert(home1[w] == home[w]);
                    }
                }
                assert forall|w: int| 0 <= w < home1.len() && d1.own[w]
                    implies #[trigger] c1.var_reg[w] == #[trigger] home1[w] by {
                    assert(w < home.len());
                    assert(d.own[w]);
                    assert(c.var_reg[w] == home[w]);
                }
            }
            let (rv2, home2) = lemma_lockstep_args(g, args, pvs, d1, c1, base, rv1, home1, names, n);
            assert(rv2[reg] == v) by {
                assert(rv2[reg] == rv1[reg]);
            }
            assert(extends(c1, rv1, home1, c2, rv2, home2));
            assert(extends(c, rv, home, c2, rv2, home2)) by {
                assert forall|i: int| 0 <= i < c.ins.len() implies #[trigger] c2.ins[i] == c.ins[i] by {
                    assert(c2.ins[i] == c1.ins[i]);
                }
                assert forall|i: int| 0 <= i < rv.len() implies #[trigger] rv2[i] == rv[i] by {
                    assert(rv2[i] == rv1[i]);
                }
                assert forall|i: int| 0 <= i < home.len() implies #[trigger] home2[i] == home[i] by {
                    assert(home2[i] == home1[i]);
                }
            }
            let slot = d.atoms.len() as int;
            let at = c.ins.len() as int;
            assert(c2.ins[at] == bind) by {
                assert(c2.ins[at] == c1.ins[at]);
            }
            assert(home2[d.names.len() as int] == reg) by {
                assert(home2[d.names.len() as int] == home1[d.names.len() as int]);
            }
            assert(e.atoms[slot] == (op, seq![v] + vars));
            assert(bridged(g, e.atoms, slot, c2.ins, at, rv2)) by {
                assert forall|s: Seq<Id>, r: Seq<Id>| #[trigger] fits(g, s, r, rv2) implies (atoms_hold(
                    g,
                    e.atoms,
                    slot,
                    s,
                ) <==> ins_hold(g, c2.ins, at, r)) by {
                    assert forall|j: int| 0 <= j < vars.len()
                        implies rv2[base + j] == #[trigger] vars[j] by {
                        assert(rv2[base + j] == rv1[base + j]);
                    }
                    lemma_bind_is_atom(g, s, r, rv2, reg, base, op, v, vars);
                    assert(atoms_hold(g, f.atoms, slot + 1, s) <==> ins_hold(g, c2.ins, at + 1, r));
                    if atoms_hold(g, e.atoms, slot, s) {
                        assert(node_atom(g, e.atoms[slot].0, e.atoms[slot].1, s));
                        assert forall|i: int| slot + 1 <= i < f.atoms.len() implies node_atom(
                            g,
                            (#[trigger] f.atoms[i]).0,
                            f.atoms[i].1,
                            s,
                        ) by {
                            assert(e.atoms[i] == f.atoms[i]);
                        }
                        assert forall|i: int| at <= i < c2.ins.len()
                            implies backtrack::holds_ins(g, #[trigger] c2.ins[i], r) by {}
                    }
                    if ins_hold(g, c2.ins, at, r) {
                        assert(backtrack::holds_ins(g, c2.ins[at], r));
                        assert(ins_hold(g, c2.ins, at + 1, r));
                        assert forall|i: int| slot <= i < e.atoms.len() implies node_atom(
                            g,
                            (#[trigger] e.atoms[i]).0,
                            e.atoms[i].1,
                            s,
                        ) by {
                            if i > slot {
                                assert(e.atoms[i] == f.atoms[i]);
                            }
                        }
                    }
                }
            }
            assert(homed(g, c2.ins, at, rv2, home2, reg, reg + 1, c.n_regs)) by {
                assert forall|r: Seq<Id>| (#[trigger] calm(g, r, rv2.len() as int) && ins_hold(
                    g,
                    c2.ins,
                    at,
                    r,
                )) implies at_home(r, rv2, home2, reg) && forall|x: int|
                    c.n_regs <= x < rv2.len() ==> #[trigger] at_home(r, rv2, home2, x) by {
                    assert(ins_hold(g, c2.ins, at + 1, r));
                }
            }
            (rv2, home2)
        },
    }
}

proof fn lemma_lockstep_args(
    g: &EGraph,
    args: Vec<Pat>,
    pvs: Vec<PatV>,
    d: Draft,
    c: Code,
    base: int,
    rv: Seq<VarId>,
    home: Seq<int>,
    names: Seq<Seq<char>>,
    k: nat,
) -> (out: (Seq<VarId>, Seq<int>))
    requires
        g.well_formed(),
        pattern::draft_ok(d),
        k <= args@.len() == pvs@.len(),
        forall|i: int| 0 <= i < args@.len() ==> plain(#[trigger] args@[i]),
        forall|i: int|
            0 <= i < args@.len() ==> pattern::numbered(#[trigger] args@[i], pvs@[i], names),
        starts(names, pattern::unnest_args(args, d, k).1),
        c.var_reg.len() == names.len(),
        forall|i: int|
            0 <= i < pvs@.len() ==> backtrack::vars_below(#[trigger] pvs@[i], names.len()),
        backtrack::emitted_args(c, pvs, base, k).n_regs <= usize::MAX,
        aligned(d, c, rv, home, d.names.len() as int),
        0 <= base,
        base + args@.len() <= c.n_regs,
        forall|j: int|
            0 <= j < k ==> rv[base + j] == #[trigger] pattern::unnest_args(args, d, k).0[j],
    ensures
        ({
            let e = pattern::unnest_args(args, d, k).1;
            let c2 = backtrack::emitted_args(c, pvs, base, k);
            &&& aligned(e, c2, out.0, out.1, e.names.len() as int)
            &&& extends(c, rv, home, c2, out.0, out.1)
            &&& forall|w: int|
                0 <= w < d.names.len() ==> #[trigger] c2.var_reg[w] == c.var_reg[w]
            &&& bridged(g, e.atoms, d.atoms.len() as int, c2.ins, c.ins.len() as int, out.0)
            &&& homed(g, c2.ins, c.ins.len() as int, out.0, out.1, base, base + k, c.n_regs)
        }),
    decreases args, k,
{
    if k == 0 {
        (rv, home)
    } else {
        let k0 = (k - 1) as nat;
        let (vars0, e0) = pattern::unnest_args(args, d, k0);
        let (vars, e) = pattern::unnest_args(args, d, k);
        let c0 = backtrack::emitted_args(c, pvs, base, k0);
        let c2 = backtrack::emitted_args(c, pvs, base, k);
        let p = args@[k - 1];
        let pv = pvs@[k - 1];
        pattern::lemma_pat_len(p, e0);
        pattern::lemma_unnest_args(args, d, k0);
        pattern::lemma_unnest(p, e0);
        assert(starts(names, e0)) by {
            assert forall|i: int| 0 <= i < e0.names.len()
                implies #[trigger] names[i] == e0.names[i] by {
                assert(e.names[i] == e0.names[i]);
            }
        }
        assert forall|j: int| 0 <= j < k0 implies rv[base + j] == #[trigger] vars0[j] by {
            assert(vars[j] == vars0[j]);
        }
        backtrack::lemma_emitted_args_monotone(c, pvs, base, k0, k);
        backtrack::lemma_emitted_args_grows(c, pvs, base, k0);
        let (rv0, home0) = lemma_lockstep_args(g, args, pvs, d, c, base, rv, home, names, k0);
        assert(rv0[base + k - 1] == vars[k - 1]) by {
            assert(rv0[base + k - 1] == rv[base + k - 1]);
        }
        let (rv2, home2) = lemma_lockstep(g, p, pv, e0, c0, base + k - 1, rv0, home0, names);
        let at = c.ins.len() as int;
        assert(extends(c, rv, home, c2, rv2, home2)) by {
            assert forall|i: int| 0 <= i < c.ins.len() implies #[trigger] c2.ins[i] == c.ins[i] by {
                assert(c2.ins[i] == c0.ins[i]);
            }
            assert forall|i: int| 0 <= i < rv.len() implies #[trigger] rv2[i] == rv[i] by {
                assert(rv2[i] == rv0[i]);
            }
            assert forall|i: int| 0 <= i < home.len() implies #[trigger] home2[i] == home[i] by {
                assert(home2[i] == home0[i]);
            }
        }
        assert forall|w: int| 0 <= w < d.names.len()
            implies #[trigger] c2.var_reg[w] == c.var_reg[w] by {
            assert(c0.var_reg[w] == c.var_reg[w]);
        }
        lemma_join_steps(g, d.atoms, c.ins, rv0, e0.atoms, c0.ins, rv2, e.atoms, c2.ins);
        assert(homed(g, c2.ins, at, rv2, home2, base, base + k, c.n_regs)) by {
            assert forall|x: int| base <= x < base + k implies (#[trigger] rv2[x]) < home2.len() by {
                if x < base + k - 1 {
                    assert(rv2[x] == rv0[x]);
                }
            }
            assert forall|x: int| c.n_regs <= x < rv2.len()
                implies (#[trigger] rv2[x]) < home2.len() by {
                if x < rv0.len() {
                    assert(rv2[x] == rv0[x]);
                }
            }
            assert forall|r: Seq<Id>| (#[trigger] calm(g, r, rv2.len() as int) && ins_hold(g, c2.ins, at, r))
                implies (forall|
                x: int,
            |
                base <= x < base + k ==> #[trigger] at_home(r, rv2, home2, x)) && (forall|x: int|
                c.n_regs <= x < rv2.len() ==> #[trigger] at_home(r, rv2, home2, x)) by {
                lemma_ins_split(g, c0.ins, c2.ins, at, r);
                assert(calm(g, r, rv0.len() as int));
                assert forall|x: int| base <= x < base + k
                    implies #[trigger] at_home(r, rv2, home2, x) by {
                    if x < base + k - 1 {
                        assert(at_home(r, rv0, home0, x));
                        lemma_home_stays(r, rv0, home0, rv2, home2, x);
                    }
                }
                assert forall|x: int| c.n_regs <= x < rv2.len()
                    implies #[trigger] at_home(r, rv2, home2, x) by {
                    if x < rv0.len() {
                        assert(at_home(r, rv0, home0, x));
                        lemma_home_stays(r, rv0, home0, rv2, home2, x);
                    }
                }
            }
        }
        (rv2, home2)
    }
}

/// What holds from a place on holds of a first part and of the rest.
proof fn lemma_ins_split(g: &EGraph, ins0: Seq<Ins>, ins: Seq<Ins>, at: int, r: Seq<Id>)
    requires
        0 <= at <= ins0.len() <= ins.len(),
        forall|i: int| 0 <= i < ins0.len() ==> #[trigger] ins[i] == ins0[i],
    ensures
        ins_hold(g, ins, at, r) <==> ins_hold(g, ins0, at, r) && ins_hold(
            g,
            ins,
            ins0.len() as int,
            r,
        ),
{
    if ins_hold(g, ins, at, r) {
        assert forall|i: int| at <= i < ins0.len()
            implies backtrack::holds_ins(g, #[trigger] ins0[i], r) by {
            assert(ins[i] == ins0[i]);
        }
    }
    if ins_hold(g, ins0, at, r) && ins_hold(g, ins, ins0.len() as int, r) {
        assert forall|i: int| at <= i < ins.len()
            implies backtrack::holds_ins(g, #[trigger] ins[i], r) by {
            if i < ins0.len() {
                assert(backtrack::holds_ins(g, ins0[i], r));
            }
        }
    }
}

pub proof fn lemma_atoms_split(
    g: &EGraph,
    atoms0: Seq<(Sym, Seq<VarId>)>,
    atoms: Seq<(Sym, Seq<VarId>)>,
    a: int,
    s: Seq<Id>,
)
    requires
        0 <= a <= atoms0.len() <= atoms.len(),
        forall|i: int| 0 <= i < atoms0.len() ==> #[trigger] atoms[i] == atoms0[i],
    ensures
        atoms_hold(g, atoms, a, s) <==> atoms_hold(g, atoms0, a, s) && atoms_hold(
            g,
            atoms,
            atoms0.len() as int,
            s,
        ),
{
    if atoms_hold(g, atoms, a, s) {
        assert forall|i: int| a <= i < atoms0.len() implies node_atom(
            g,
            (#[trigger] atoms0[i]).0,
            atoms0[i].1,
            s,
        ) by {
            assert(atoms[i] == atoms0[i]);
        }
    }
    if atoms_hold(g, atoms0, a, s) && atoms_hold(g, atoms, atoms0.len() as int, s) {
        assert forall|i: int| a <= i < atoms.len()
            implies node_atom(g, (#[trigger] atoms[i]).0, atoms[i].1, s) by {
            if i < atoms0.len() {
                assert(node_atom(g, atoms0[i].0, atoms0[i].1, s));
            }
        }
    }
}

/// Two steps, one after the other, make one.
proof fn lemma_join_steps(
    g: &EGraph,
    atoms: Seq<(Sym, Seq<VarId>)>,
    ins: Seq<Ins>,
    rv1: Seq<VarId>,
    atoms1: Seq<(Sym, Seq<VarId>)>,
    ins1: Seq<Ins>,
    rv2: Seq<VarId>,
    atoms2: Seq<(Sym, Seq<VarId>)>,
    ins2: Seq<Ins>,
)
    requires
        atoms.len() <= atoms1.len() <= atoms2.len(),
        forall|i: int| 0 <= i < atoms1.len() ==> #[trigger] atoms2[i] == atoms1[i],
        ins.len() <= ins1.len() <= ins2.len(),
        forall|i: int| 0 <= i < ins1.len() ==> #[trigger] ins2[i] == ins1[i],
        rv1.len() <= rv2.len(),
        forall|i: int| 0 <= i < rv1.len() ==> #[trigger] rv2[i] == rv1[i],
        bridged(g, atoms1, atoms.len() as int, ins1, ins.len() as int, rv1),
        bridged(g, atoms2, atoms1.len() as int, ins2, ins1.len() as int, rv2),
    ensures
        bridged(g, atoms2, atoms.len() as int, ins2, ins.len() as int, rv2),
{
    let a = atoms.len() as int;
    let at = ins.len() as int;
    assert forall|s: Seq<Id>, r: Seq<Id>| #[trigger] fits(g, s, r, rv2)
        implies (atoms_hold(g, atoms2, a, s) <==> ins_hold(
        g,
        ins2,
        at,
        r,
    )) by {
        assert(fits(g, s, r, rv1)) by {
            assert forall|i: int| 0 <= i < rv1.len() implies r[i] == s[#[trigger] rv1[i] as int] by {
                assert(rv2[i] == rv1[i]);
            }
        }
        lemma_ins_split(g, ins1, ins2, at, r);
        lemma_atoms_split(g, atoms1, atoms2, a, s);
    }
}

/// A numbered pattern speaks of variables that have a name.
pub proof fn lemma_numbered_below(p: Pat, pv: PatV, names: Seq<Seq<char>>)
    requires
        pattern::numbered(p, pv, names),
    ensures
        backtrack::vars_below(pv, names.len()),
    decreases p,
{
    match (p, pv) {
        (Pat::App(op, args), PatV::App(op2, args2)) => {
            assert forall|i: int| 0 <= i < args2@.len()
                implies backtrack::vars_below(#[trigger] args2@[i], names.len()) by {
                assert(pattern::numbered(args@[i], args2@[i], names));
                lemma_numbered_below(args@[i], args2@[i], names);
            }
        },
        _ => {},
    }
}

/// The patterns are over plain variables, numbered by the names.
pub open spec fn posed(pats: Seq<Pat>, pvs: Seq<PatV>, names: Seq<Seq<char>>) -> bool {
    &&& pats.len() == pvs.len()
    &&& forall|i: int| 0 <= i < pats.len() ==> plain(#[trigger] pats[i])
    &&& forall|i: int|
        0 <= i < pats.len() ==> pattern::numbered(#[trigger] pats[i], pvs[i], names)
}

spec fn in_tune(
    g: &EGraph,
    d: Draft,
    c: Code,
    roots: Seq<VarId>,
    rv: Seq<VarId>,
    home: Seq<int>,
) -> bool {
    &&& pattern::draft_ok(d)
    &&& aligned(d, c, rv, home, d.names.len() as int)
    &&& bridged(g, d.atoms, 0, c.ins, 0, rv)
    &&& homed(g, c.ins, 0, rv, home, 0, 0, 0)
    &&& forall|i: int|
        0 <= i < roots.len() ==> (#[trigger] roots[i]) < d.names.len() && c.var_reg[roots[i] as int]
            == home[roots[i] as int]
}

proof fn lemma_tuned(
    g: &EGraph,
    pats: Seq<Pat>,
    pvs: Seq<PatV>,
    names: Seq<Seq<char>>,
    roots: Seq<VarId>,
    k: nat,
) -> (out: (Seq<VarId>, Seq<int>))
    requires
        g.well_formed(),
        posed(pats, pvs, names),
        k <= pats.len() <= roots.len(),
        forall|i: int| 0 <= i < roots.len() ==> (#[trigger] roots[i]) < names.len(),
        forall|i: int|
            0 <= i < k ==> #[trigger] pattern::compiled(pats, k).0[i] == roots[i],
        starts(names, pattern::compiled(pats, k).1),
        backtrack::programmed(pvs, names.len(), roots, k).0.n_regs <= usize::MAX,
    ensures
        in_tune(
            g,
            pattern::compiled(pats, k).1,
            backtrack::programmed(pvs, names.len(), roots, k).0,
            pattern::compiled(pats, k).0,
            out.0,
            out.1,
        ),
        pattern::compiled(pats, k).0.len() == k,
    decreases k,
{
    let n = names.len();
    assert forall|i: int| 0 <= i < pvs.len() implies backtrack::vars_below(#[trigger] pvs[i], n) by {
        lemma_numbered_below(pats[i], pvs[i], names);
    }
    if k == 0 {
        (Seq::empty(), Seq::empty())
    } else {
        let k0 = (k - 1) as nat;
        let (r0, d0) = pattern::compiled(pats, k0);
        let (rs, e) = pattern::compiled(pats, k);
        let c0 = backtrack::programmed(pvs, n, roots, k0).0;
        let c2 = backtrack::programmed(pvs, n, roots, k).0;
        let p = pats[k - 1];
        let pv = pvs[k - 1];
        assert(plain(p));
        assert(pattern::numbered(p, pv, names));
        pattern::lemma_pat_len(p, d0);
        backtrack::lemma_programmed_monotone(pvs, n, roots, k0, k);
        backtrack::lemma_programmed_monotone(pvs, n, roots, k0, k0);
        lemma_compiled_grows(pats, k);
        lemma_compiled_grows(pats, k0);
        assert forall|i: int| 0 <= i < k0 implies #[trigger] r0[i] == roots[i] by {
            assert(rs[i] == r0[i]);
        }
        assert(starts(names, d0)) by {
            assert forall|i: int| 0 <= i < d0.names.len()
                implies #[trigger] names[i] == d0.names[i] by {
                assert(e.names[i] == d0.names[i]);
            }
        }
        let (rv0, home0) = lemma_tuned(g, pats, pvs, names, roots, k0);
        pattern::lemma_unnest(p, d0);
        let root = c0.n_regs;
        let v = pattern::unnest(p, d0).0;
        let scan = Ins::Scan { out: root as usize, op: backtrack::root_op(pv) };
        let c1 = Code {
            ins: c0.ins.push(scan),
            n_regs: root + 1,
            var_reg: backtrack::met(c0.var_reg, roots[k - 1], root),
        };
        assert(rs[k - 1] == v);
        assert(roots[k - 1] == v);
        backtrack::lemma_emitted_grows(c1, pv, root);
        let rv1 = rv0.push(v);
        assert forall|w: int| 0 <= w < home0.len() implies 0 <= #[trigger] home0[w] < c1.n_regs
            && rv1[home0[w]] == w by {
            assert(rv0[home0[w]] == w);
        }
        let (rv2, home2) = if p is Var && v == d0.names.len() {
            lemma_fresh_root(g, p, pv, d0, c1, root, rv1, home0, names)
        } else {
            if p is Var {
                assert(d0.own[v as int]) by {
                    assert(pattern::unnest(p, d0).1.own[v as int]);
                }
                assert(c0.var_reg[v as int] == home0[v as int]);
            }
            assert(aligned(d0, c1, rv1, home0, unmet(p, d0)));
            lemma_lockstep(g, p, pv, d0, c1, root, rv1, home0, names)
        };
        let a = d0.atoms.len() as int;
        let at = c0.ins.len() as int;
        assert forall|i: int| 0 <= i < c0.ins.len() implies #[trigger] c2.ins[i] == c0.ins[i] by {
            assert(c2.ins[i] == c1.ins[i]);
        }
        assert forall|i: int| 0 <= i < rv0.len() implies #[trigger] rv2[i] == rv0[i] by {
            assert(rv2[i] == rv1[i]);
        }
        assert(c2.ins[at] == scan) by {
            assert(c2.ins[at] == c1.ins[at]);
        }
        assert(rv2[root] == v) by {
            assert(rv2[root] == rv1[root]);
        }
        assert forall|r: Seq<Id>| #[trigger] calm(g, r, rv2.len() as int)
            implies (ins_hold(g, c2.ins, at, r) <==> ins_hold(
            g,
            c2.ins,
            at + 1,
            r,
        )) by {
            if ins_hold(g, c2.ins, at + 1, r) {
                assert(r[root] < g.len() && g.rep(r[root]) == r[root]);
                if p is App {
                    lemma_scan_follows(g, c2.ins, at, r, root, p->App_0);
                } else {
                    assert(backtrack::candidate(g, None, r[root]));
                    assert(backtrack::holds_ins(g, c2.ins[at], r));
                }
            }
        }
        assert(bridged(g, e.atoms, a, c2.ins, at, rv2)) by {
            assert forall|s: Seq<Id>, r: Seq<Id>| #[trigger] fits(g, s, r, rv2)
                implies (atoms_hold(g, e.atoms, a, s) <==> ins_hold(
                g,
                c2.ins,
                at,
                r,
            )) by {
                assert(calm(g, r, rv2.len() as int));
            }
        }
        assert(d0.atoms.take(0).len() == 0 && c0.ins.take(0).len() == 0);
        lemma_join_steps(
            g,
            d0.atoms.take(0),
            c0.ins.take(0),
            rv0,
            d0.atoms,
            c0.ins,
            rv2,
            e.atoms,
            c2.ins,
        );
        assert(homed(g, c2.ins, 0, rv2, home2, 0, 0, 0)) by {
            assert forall|x: int| 0 <= x < rv2.len() implies (#[trigger] rv2[x]) < home2.len() by {
                if x < rv0.len() {
                    assert(rv2[x] == rv0[x]);
                }
            }
            assert forall|r: Seq<Id>| (#[trigger] calm(g, r, rv2.len() as int) && ins_hold(g, c2.ins, 0, r))
                implies (forall|
                x: int,
            |
                0 <= x < rv2.len() ==> #[trigger] at_home(r, rv2, home2, x)) by {
                lemma_ins_split(g, c0.ins, c2.ins, 0, r);
                assert(calm(g, r, rv0.len() as int));
                assert(ins_hold(g, c2.ins, at + 1, r));
                assert forall|x: int| 0 <= x < rv2.len()
                    implies #[trigger] at_home(r, rv2, home2, x) by {
                    if x < rv0.len() {
                        assert(at_home(r, rv0, home0, x));
                        lemma_home_stays(r, rv0, home0, rv2, home2, x);
                    }
                }
            }
        }
        assert forall|i: int| 0 <= i < rs.len()
            implies (#[trigger] rs[i]) < e.names.len() && c2.var_reg[rs[i] as int]
            == home2[rs[i] as int] by {
            if i < k0 {
                assert(rs[i] == r0[i]);
                assert(c1.var_reg[r0[i] as int] == c0.var_reg[r0[i] as int]);
                assert(c2.var_reg[r0[i] as int] == c1.var_reg[r0[i] as int]);
                assert(home2[r0[i] as int] == home0[r0[i] as int]);
            } else if v < d0.names.len() {
                assert(c2.var_reg[v as int] == c1.var_reg[v as int]);
                assert(home2[v as int] == home0[v as int]);
            } else {
                assert(c2.var_reg[v as int] == c1.var_reg[v as int]);
            }
        }
        (rv2, home2)
    }
}

/// A root that is a variable which was not met before: its register is its
/// home, and comparing it with itself says nothing.
proof fn lemma_fresh_root(
    g: &EGraph,
    p: Pat,
    pv: PatV,
    d: Draft,
    c: Code,
    root: int,
    rv: Seq<VarId>,
    home: Seq<int>,
    names: Seq<Seq<char>>,
) -> (out: (Seq<VarId>, Seq<int>))
    requires
        p is Var,
        plain(p),
        pattern::draft_ok(d),
        pattern::numbered(p, pv, names),
        starts(names, pattern::unnest(p, d).1),
        pattern::unnest(p, d).0 == d.names.len(),
        c.var_reg.len() == names.len(),
        c.n_regs == root + 1 <= usize::MAX,
        0 <= root,
        rv.len() == c.n_regs,
        rv[root] == d.names.len(),
        home.len() == d.names.len(),
        forall|v: int|
            0 <= v < home.len() ==> 0 <= #[trigger] home[v] < c.n_regs && rv[home[v]] == v,
        forall|v: int|
            0 <= v < home.len() && d.own[v] ==> #[trigger] c.var_reg[v] == #[trigger] home[v],
        c.var_reg[d.names.len() as int] == root,
        forall|v: int|
            d.names.len() < v < c.var_reg.len() ==> #[trigger] c.var_reg[v] == usize::MAX,
    ensures
        in_step(
            g,
            p,
            d,
            c,
            root,
            rv,
            home,
            pattern::unnest(p, d).1,
            backtrack::emitted(c, pv, root),
            out.0,
            out.1,
            (d.names.len() + 1) as int,
        ),
        out.1[d.names.len() as int] == root,
{
    let e = pattern::unnest(p, d).1;
    let c2 = backtrack::emitted(c, pv, root);
    let w = pv->Var_0;
    let name = p->Var_0@;
    lemma_own_place(d, name, names, w as int);
    let home2 = home.push(root);
    let at = c.ins.len() as int;
    if exists|x: int| pattern::is_own(d, name, x) {
        let x = choose|x: int| pattern::is_own(d, name, x);
        assert(pattern::is_own(d, name, x));
    }
    assert(c2.ins =~= c.ins.push(Ins::Compare { a: root as usize, b: root as usize }));
    assert(aligned(e, c2, rv, home2, e.names.len() as int));
    assert(bridged(g, e.atoms, d.atoms.len() as int, c2.ins, at, rv));
    assert(homed(g, c2.ins, at, rv, home2, root, root + 1, c.n_regs));
    (rv, home2)
}

/// Compiling one pattern more only adds to the draft.
pub proof fn lemma_compiled_grows(pats: Seq<Pat>, k: nat)
    requires
        pattern::compiled(pats, k).1.names.len() <= usize::MAX,
    ensures
        pattern::draft_ok(pattern::compiled(pats, k).1),
        pattern::compiled(pats, k).0.len() == k,
        k > 0 ==> pattern::grows(
            pattern::compiled(pats, (k - 1) as nat).1,
            pattern::compiled(pats, k).1,
        ),
    decreases k,
{
    if k > 0 {
        let d = pattern::compiled(pats, (k - 1) as nat).1;
        pattern::lemma_pat_len(pats[k - 1], d);
        lemma_compiled_grows(pats, (k - 1) as nat);
        pattern::lemma_unnest(pats[k - 1], d);
    }
}

/// A root scan finds whatever the bind behind it finds.
proof fn lemma_scan_follows(g: &EGraph, ins: Seq<Ins>, at: int, r: Seq<Id>, root: int, op: Sym)
    requires
        0 <= at,
        at + 1 < ins.len(),
        ins_hold(g, ins, at + 1, r),
        ins[at] == (Ins::Scan { out: root as usize, op: Some(op) }),
        0 <= root <= usize::MAX,
        ins[at + 1] is Bind,
        ins[at + 1]->class == root,
        ins[at + 1]->Bind_op == op,
        r[root] < g.len(),
        g.rep(r[root]) == r[root],
    ensures
        ins_hold(g, ins, at, r),
{
    assert(backtrack::holds_ins(g, ins[at + 1], r));
    let k = choose|k: nodes::Key| #[trigger]
        g.holds(g.rep(r[root]) as int, k) && k.0 == op;
    let c = r[root] as int;
    let m = choose|m: int| 0 <= m < g.listed(c).len() && g.listed(c)[m] == k;
    assert(g.listed(c)[m].0 == op);
    assert(g.has_op(c, op));
    assert(backtrack::candidate(g, Some(op), r[root]));
    assert(backtrack::holds_ins(g, ins[at], r));
    assert forall|i: int| at <= i < ins.len()
        implies backtrack::holds_ins(g, #[trigger] ins[i], r) by {}
}

/// The tuples of every relation have the width of the atoms that use it.
pub open spec fn exact_widths(q: &Query, db: Seq<relational::Relation>) -> bool {
    forall|i: int, t: Seq<Id>|
        0 <= i < q.atoms@.len() && #[trigger] relational::tuples_of(
            db,
            q.atoms@[i].rel,
        ).contains(t) ==> t.len() == q.atoms@[i].vars@.len()
}

/// An atom over the database is an e-node of the e-graph.
pub proof fn lemma_atom_is_node(
    g: &EGraph,
    db: Seq<relational::Relation>,
    rel: Sym,
    vars: Seq<VarId>,
    s: Seq<Id>,
)
    requires
        g.well_formed(),
        g.rebuilt(),
        relational::is_database(g, db),
        vars.len() > 0,
        forall|t: Seq<Id>| #[trigger]
            relational::tuples_of(db, rel).contains(t) ==> t.len() == vars.len(),
    ensures
        relational::atom_holds(relational::tuples_of(db, rel), vars, s) <==> node_atom(
            g,
            rel,
            vars,
            s,
        ),
{
    let tuples = relational::tuples_of(db, rel);
    assert(tuples == relational::graph_tuples(g, rel, g.len()));
    g.lemma_well_formed();
    if relational::atom_holds(tuples, vars, s) {
        let t = choose|t: Seq<Id>| #[trigger] tuples.contains(t) && relational::spells(vars, t, s);
        relational::lemma_database_tuples(g, rel, t);
        let (c, k) = choose|c: int, k: nodes::Key| #[trigger]
            g.holds(c, k) && k.0 == rel && t == relational::tuple_for(g, c, k);
        assert(g.canonical(k) == k);
        assert(t[0] == c as Id);
        assert(t[0] == s[vars[0] as int]);
        assert(g.holds(s[vars[0] as int] as int, k));
        assert forall|j: int| 0 <= j < k.1.len() implies #[trigger] k.1[j] == s[vars[j + 1] as int] by {
            assert(t[j + 1] == k.1[j]);
            assert(t[j + 1] == s[vars[j + 1] as int]);
        }
        assert(node_atom(g, rel, vars, s));
    }
    if node_atom(g, rel, vars, s) {
        let k = choose|k: nodes::Key| #[trigger]
            g.holds(s[vars[0] as int] as int, k) && k.0 == rel && k.1.len() + 1 == vars.len()
                && forall|j: int| 0 <= j < k.1.len() ==> #[trigger] k.1[j] == s[vars[j + 1] as int];
        let c = s[vars[0] as int] as int;
        let t = relational::tuple_for(g, c, k);
        assert(g.canonical(k) == k);
        relational::lemma_database_tuples(g, rel, t);
        assert(tuples.contains(t));
        assert forall|i: int| 0 <= i < vars.len() implies t[i] == s[#[trigger] vars[i] as int] by {
            if i > 0 {
                assert(t[i] == k.1[i - 1]);
                assert(k.1[i - 1] == s[vars[(i - 1) + 1] as int]);
            }
        }
        assert(relational::spells(vars, t, s));
    }
}

/// Each of the given places, read from `s`.
pub open spec fn through(places: Seq<int>, s: Seq<Id>) -> Seq<Id> {
    Seq::new(places.len(), |i: int| s[places[i]])
}

/// Everything that the two matchers are given for one list of patterns over
/// one e-graph.
pub open spec fn put_to_both(
    g: &EGraph,
    pats: Seq<Pat>,
    pvs: Seq<PatV>,
    q: &Query,
    db: Seq<relational::Relation>,
    prog: &Program,
) -> bool {
    &&& g.well_formed()
    &&& g.rebuilt()
    &&& pattern::is_query(
        q,
        pattern::compiled(pats, pats.len()).0,
        pattern::compiled(pats, pats.len()).1,
    )
    &&& posed(pats, pvs, pattern::texts(q.names@))
    &&& (backtrack::code_of(prog), prog.root_regs@) == backtrack::programmed(
        pvs,
        q.n_vars as nat,
        q.roots@,
        pats.len(),
    )
    &&& relational::is_database(g, db)
    &&& exact_widths(q, db)
}

/// One question to both, where every variable stands under some symbol: one that
/// does not is free, to the join a value that no atom fixes, to the search any
/// class.
pub open spec fn same_question(
    g: &EGraph,
    pats: Seq<Pat>,
    pvs: Seq<PatV>,
    q: &Query,
    db: Seq<relational::Relation>,
    prog: &Program,
) -> bool {
    &&& put_to_both(g, pats, pvs, q, db, prog)
    &&& forall|v: VarId| v < q.n_vars ==> #[trigger] join::mentioned(q, v)
}

/// The two ways between matches and runs.
spec fn paired(
    g: &EGraph,
    q: &Query,
    db: Seq<relational::Relation>,
    prog: &Program,
    there: Seq<int>,
    back: Seq<int>,
) -> bool {
    &&& forall|s: Seq<Id>| #[trigger]
        join::is_match(q, db, s) ==> {
            &&& backtrack::is_run(g, prog, through(there, s))
            &&& through(back, through(there, s)) == s
            &&& backtrack::read_out(prog, q.head@, through(there, s)) == join::project(q.head@, s)
        }
    &&& forall|r: Seq<Id>| #[trigger]
        backtrack::is_run(g, prog, r) ==> {
            &&& join::is_match(q, db, through(back, r))
            &&& through(there, through(back, r)) == r
        }
}

proof fn lemma_own_vars(own: Seq<bool>, n: nat, i: int)
    requires
        n <= own.len() <= usize::MAX,
        0 <= i < pattern::own_vars(own, n).len(),
    ensures
        pattern::own_vars(own, n)[i] < n,
        own[pattern::own_vars(own, n)[i] as int],
    decreases n,
{
    if n > 0 {
        let before = pattern::own_vars(own, (n - 1) as nat);
        if i < before.len() {
            lemma_own_vars(own, (n - 1) as nat, i);
        }
    }
}

/// What a held e-node says of ids: its class and its children name themselves.
proof fn lemma_held_calm(g: &EGraph, c: int, k: nodes::Key)
    requires
        g.well_formed(),
        g.rebuilt(),
        g.holds(c, k),
    ensures
        g.reps()[c] == c,
        c < g.len() <= u32::MAX,
        forall|j: int|
            0 <= j < k.1.len() ==> (#[trigger] k.1[j]) < g.len() && g.rep(k.1[j]) == k.1[j],
{
    g.lemma_well_formed();
    assert(g.canonical(k) == k);
    assert forall|j: int| 0 <= j < k.1.len()
        implies (#[trigger] k.1[j]) < g.len() && g.rep(k.1[j]) == k.1[j] by {
        assert(g.canonical(k).1[j] == k.1[j]);
    }
}

/// A run leaves ids that name themselves.
proof fn lemma_run_calm(g: &EGraph, prog: &Program, r: Seq<Id>)
    requires
        g.well_formed(),
        g.rebuilt(),
        backtrack::code_ok(backtrack::code_of(prog)),
        backtrack::is_run(g, prog, r),
    ensures
        calm(g, r, r.len() as int),
{
    let ins = prog.ins@;
    assert forall|i: int| 0 <= i < r.len()
        implies (#[trigger] r[i]) < g.len() && g.rep(r[i]) == r[i] by {
        assert(backtrack::written(ins, 0, ins.len() as int, i));
        let p = choose|p: int| 0 <= p < ins.len() && backtrack::writes(#[trigger] ins[p], i);
        assert(backtrack::holds_ins(g, ins[p], r));
        match ins[p] {
            Ins::Scan { out, op } => {
                match op {
                    Some(sym) => {
                        let c = r[i] as int;
                        let m = choose|m: int|
                            0 <= m < g.listed(c).len() && (#[trigger] g.listed(c)[m]).0 == sym;
                        assert(g.holds(c, g.listed(c)[m]));
                        lemma_held_calm(g, c, g.listed(c)[m]);
                    },
                    None => {},
                }
            },
            Ins::Bind { class, op, out, arity } => {
                let k = choose|k: nodes::Key| #[trigger]
                    g.holds(g.rep(r[class as int]) as int, k) && k.0 == op && k.1.len() == arity
                        && backtrack::children_at(r, out as int, k);
                lemma_held_calm(g, g.rep(r[class as int]) as int, k);
                assert(r[out + (i - out)] == k.1[i - out]);
            },
            Ins::Compare { a, b } => {},
        }
    }
}

#[verifier::rlimit(40)]
proof fn lemma_paired(
    g: &EGraph,
    pats: Seq<Pat>,
    pvs: Seq<PatV>,
    q: &Query,
    db: Seq<relational::Relation>,
    prog: &Program,
) -> (out: (Seq<int>, Seq<int>))
    requires
        same_question(g, pats, pvs, q, db, prog),
    ensures
        paired(g, q, db, prog, out.0, out.1),
{
    let names = pattern::texts(q.names@);
    let (roots, d) = pattern::compiled(pats, pats.len());
    lemma_compiled_grows(pats, pats.len());
    assert(forall|i: int| 0 <= i < roots.len() ==> (#[trigger] roots[i]) < names.len()) by {
        lemma_roots_named(pats, pats.len());
    }
    let (rv, home) = lemma_tuned(g, pats, pvs, names, roots, pats.len());
    assert forall|i: int| 0 <= i < pvs.len()
        implies backtrack::vars_below(#[trigger] pvs[i], names.len()) by {
        lemma_numbered_below(pats[i], pvs[i], names);
    }
    backtrack::lemma_compiled_straight(pvs, names.len(), roots, pats.len());
    let there = Seq::new(rv.len(), |i: int| rv[i] as int);
    assert forall|i: int| 0 <= i < q.head@.len() implies (#[trigger] q.head@[i]) < home.len()
        && prog.var_reg@[q.head@[i] as int] == home[q.head@[i] as int] by {
        if i >= roots.len() {
            lemma_own_vars(d.own, d.own.len(), i - roots.len());
        } else {
            assert(q.head@[i] == roots[i]);
        }
    }
    assert forall|i: int| 0 <= i < d.atoms.len() implies d.atoms[i] == (#[trigger] q.atoms@[i])@ by {
        assert(pattern::atom_values(q.atoms@)[i] == q.atoms@[i]@);
    }
    assert(q.atoms@.len() == d.atoms.len());
    assert forall|s: Seq<Id>| #[trigger] relational::satisfies(q, db, s) <==> atoms_hold(g, d.atoms, 0, s) by {
        assert forall|i: int| 0 <= i < d.atoms.len() implies relational::atom_holds(
            relational::tuples_of(db, (#[trigger] q.atoms@[i]).rel),
            q.atoms@[i].vars@,
            s,
        ) == node_atom(g, d.atoms[i].0, d.atoms[i].1, s) by {
            assert(d.atoms[i] == q.atoms@[i]@);
            assert(d.atoms[i].1.len() > 0);
            lemma_atom_is_node(g, db, q.atoms@[i].rel, q.atoms@[i].vars@, s);
        }
        if atoms_hold(g, d.atoms, 0, s) {
            assert forall|i: int| 0 <= i < q.atoms@.len() implies relational::atom_holds(
                relational::tuples_of(db, (#[trigger] q.atoms@[i]).rel),
                q.atoms@[i].vars@,
                s,
            ) by {
                assert(node_atom(g, d.atoms[i].0, d.atoms[i].1, s));
            }
        }
        if relational::satisfies(q, db, s) {
            assert forall|i: int| 0 <= i < d.atoms.len() implies node_atom(
                g,
                (#[trigger] d.atoms[i]).0,
                d.atoms[i].1,
                s,
            ) by {
                assert(relational::atom_holds(
                    relational::tuples_of(db, q.atoms@[i].rel),
                    q.atoms@[i].vars@,
                    s,
                ));
            }
        }
    }
    assert forall|s: Seq<Id>| #[trigger] join::is_match(q, db, s) implies {
        &&& backtrack::is_run(g, prog, through(there, s))
        &&& through(home, through(there, s)) == s
        &&& backtrack::read_out(prog, q.head@, through(there, s)) == join::project(q.head@, s)
    } by {
        lemma_match_runs(g, q, db, prog, d, rv, home, s);
    }
    assert forall|r: Seq<Id>| #[trigger] backtrack::is_run(g, prog, r) implies {
        &&& join::is_match(q, db, through(home, r))
        &&& through(there, through(home, r)) == r
    } by {
        lemma_run_matches(g, q, db, prog, d, rv, home, r);
    }
    (there, home)
}

/// The root variables have names.
proof fn lemma_roots_named(pats: Seq<Pat>, k: nat)
    requires
        pattern::compiled(pats, k).1.names.len() <= usize::MAX,
    ensures
        forall|i: int|
            0 <= i < k ==> #[trigger] pattern::compiled(pats, k).0[i] < pattern::compiled(
                pats,
                k,
            ).1.names.len(),
    decreases k,
{
    if k > 0 {
        let (rs0, d) = pattern::compiled(pats, (k - 1) as nat);
        let (rs, e) = pattern::compiled(pats, k);
        pattern::lemma_pat_len(pats[k - 1], d);
        lemma_compiled_grows(pats, (k - 1) as nat);
        lemma_roots_named(pats, (k - 1) as nat);
        pattern::lemma_unnest(pats[k - 1], d);
        assert forall|i: int| 0 <= i < k implies #[trigger] rs[i] < e.names.len() by {
            if i < k - 1 {
                assert(rs[i] == rs0[i]);
            }
        }
    }
}

spec fn knows_atoms(g: &EGraph, q: &Query, db: Seq<relational::Relation>, d: Draft) -> bool {
    &&& q.atoms@.len() == d.atoms.len()
    &&& forall|i: int| 0 <= i < d.atoms.len() ==> d.atoms[i] == (#[trigger] q.atoms@[i])@
    &&& forall|s: Seq<Id>| #[trigger]
        relational::satisfies(q, db, s) <==> atoms_hold(g, d.atoms, 0, s)
    &&& forall|v: VarId| v < q.n_vars ==> #[trigger] join::mentioned(q, v)
}

spec fn knows_head(q: &Query, prog: &Program, home: Seq<int>) -> bool {
    forall|i: int|
        0 <= i < q.head@.len() ==> (#[trigger] q.head@[i]) < home.len()
            && prog.var_reg@[q.head@[i] as int] == home[q.head@[i] as int]
}

proof fn lemma_match_runs(
    g: &EGraph,
    q: &Query,
    db: Seq<relational::Relation>,
    prog: &Program,
    d: Draft,
    rv: Seq<VarId>,
    home: Seq<int>,
    s: Seq<Id>,
)
    requires
        g.well_formed(),
        g.rebuilt(),
        knows_atoms(g, q, db, d),
        knows_head(q, prog, home),
        q.n_vars == d.names.len(),
        in_tune(g, d, backtrack::code_of(prog), q.roots@, rv, home),
        backtrack::code_ok(backtrack::code_of(prog)),
        forall|i: int| 0 <= i < rv.len() ==> (#[trigger] rv[i]) < d.names.len(),
        join::is_match(q, db, s),
    ensures
        ({
            let r = through(Seq::new(rv.len(), |i: int| rv[i] as int), s);
            &&& backtrack::is_run(g, prog, r)
            &&& through(home, r) == s
            &&& backtrack::read_out(prog, q.head@, r) == join::project(q.head@, s)
        }),
{
    let there = Seq::new(rv.len(), |i: int| rv[i] as int);
    let r = through(there, s);
    assert(atoms_hold(g, d.atoms, 0, s));
    assert forall|v: int| 0 <= v < s.len()
        implies (#[trigger] s[v]) < g.len() && g.rep(s[v]) == s[v] by {
        assert(join::mentioned(q, v as VarId));
        let i = choose|i: int|
            0 <= i < q.atoms@.len() && (#[trigger] q.atoms@[i]).vars@.contains(v as VarId);
        let k = choose|k: int| 0 <= k < q.atoms@[i].vars@.len() && q.atoms@[i].vars@[k] == v as VarId;
        assert(d.atoms[i] == q.atoms@[i]@);
        let vars = d.atoms[i].1;
        assert(node_atom(g, d.atoms[i].0, vars, s));
        let key = choose|key: nodes::Key| #[trigger]
            g.holds(s[vars[0] as int] as int, key) && key.0 == d.atoms[i].0 && key.1.len() + 1
                == vars.len() && forall|j: int|
                0 <= j < key.1.len() ==> #[trigger] key.1[j] == s[vars[j + 1] as int];
        lemma_held_calm(g, s[vars[0] as int] as int, key);
        if k > 0 {
            assert(key.1[k - 1] == s[vars[(k - 1) + 1] as int]);
        }
    }
    assert forall|i: int| 0 <= i < rv.len() implies r[i] == s[#[trigger] rv[i] as int] by {}
    assert(fits(g, s, r, rv)) by {
        assert forall|i: int| 0 <= i < rv.len()
            implies (#[trigger] r[i]) < g.len() && g.rep(r[i]) == r[i] by {
            assert(rv[i] < d.names.len());
            assert(r[i] == s[rv[i] as int]);
        }
    }
    assert(ins_hold(g, prog.ins@, 0, r));
    assert(backtrack::is_run(g, prog, r)) by {
        assert forall|reg: int| 0 <= reg < r.len() && !#[trigger] backtrack::written(
            prog.ins@,
            0,
            prog.ins@.len() as int,
            reg,
        ) implies r[reg] == 0 by {}
    }
    assert(through(home, r) =~= s) by {
        assert forall|v: int| 0 <= v < s.len() implies #[trigger] through(home, r)[v] == s[v] by {
            assert(rv[home[v]] == v);
            assert(r[home[v]] == s[rv[home[v]] as int]);
        }
    }
    assert(backtrack::read_out(prog, q.head@, r) =~= join::project(q.head@, s)) by {
        assert forall|i: int| 0 <= i < q.head@.len() implies backtrack::read_out(prog, q.head@, r)[i]
            == join::project(q.head@, s)[i] by {
            let v = q.head@[i] as int;
            assert(rv[home[v]] == v);
            assert(r[home[v]] == s[rv[home[v]] as int]);
        }
    }
}

proof fn lemma_run_matches(
    g: &EGraph,
    q: &Query,
    db: Seq<relational::Relation>,
    prog: &Program,
    d: Draft,
    rv: Seq<VarId>,
    home: Seq<int>,
    r: Seq<Id>,
)
    requires
        g.well_formed(),
        g.rebuilt(),
        knows_atoms(g, q, db, d),
        q.n_vars == d.names.len(),
        in_tune(g, d, backtrack::code_of(prog), q.roots@, rv, home),
        backtrack::code_ok(backtrack::code_of(prog)),
        backtrack::is_run(g, prog, r),
    ensures
        join::is_match(q, db, through(home, r)),
        through(Seq::new(rv.len(), |i: int| rv[i] as int), through(home, r)) == r,
{
    let there = Seq::new(rv.len(), |i: int| rv[i] as int);
    let s = through(home, r);
    lemma_run_calm(g, prog, r);
    assert(calm(g, r, rv.len() as int));
    assert(ins_hold(g, prog.ins@, 0, r));
    assert forall|i: int| 0 <= i < rv.len() implies r[i] == s[#[trigger] rv[i] as int] by {
        assert(at_home(r, rv, home, i));
    }
    assert(fits(g, s, r, rv));
    assert(atoms_hold(g, d.atoms, 0, s));
    assert(through(there, s) =~= r);
}

/// Two lists of the same values, each once, are the same under any reading,
/// order aside.
pub proof fn lemma_same_readings(a: Seq<Seq<Id>>, b: Seq<Seq<Id>>, f: spec_fn(Seq<Id>) -> Seq<Id>)
    requires
        a.no_duplicates(),
        b.no_duplicates(),
        forall|x: Seq<Id>| #[trigger] a.contains(x) <==> b.contains(x),
    ensures
        a.map_values(f).to_multiset() == b.map_values(f).to_multiset(),
    decreases a.len(),
{
    if a.len() == 0 {
        if b.len() > 0 {
            assert(b.contains(b[0]));
            assert(a.contains(b[0]));
        }
        assert(a.map_values(f) =~= b.map_values(f));
    } else {
        let x = a.last();
        let a0 = a.drop_last();
        assert(a.contains(x));
        let j = choose|j: int| 0 <= j < b.len() && b[j] == x;
        let b0 = b.remove(j);
        assert forall|y: Seq<Id>| #[trigger] a0.contains(y) <==> b0.contains(y) by {
            if a0.contains(y) {
                let i = choose|i: int| 0 <= i < a0.len() && a0[i] == y;
                assert(a[i] == y);
                assert(a.contains(y));
                let m = choose|m: int| 0 <= m < b.len() && b[m] == y;
                if m < j {
                    assert(b0[m] == y);
                } else {
                    assert(b0[m - 1] == y);
                }
            }
            if b0.contains(y) {
                let i = choose|i: int| 0 <= i < b0.len() && b0[i] == y;
                if i < j {
                    assert(b[i] == y);
                } else {
                    assert(b[i + 1] == y);
                }
                assert(b.contains(y));
                assert(a.contains(y));
                let m = choose|m: int| 0 <= m < a.len() && a[m] == y;
                assert(a0[m] == y);
            }
        }
        lemma_same_readings(a0, b0, f);
        assert(a.map_values(f) =~= a0.map_values(f).push(f(x)));
        vstd::seq_lib::to_multiset_build(a0.map_values(f), f(x));
        assert(b0.map_values(f) =~= b.map_values(f).remove(j));
        vstd::seq_lib::to_multiset_remove(b.map_values(f), j);
        let mb = b.map_values(f).to_multiset();
        assert(b.map_values(f)[j] == f(x));
        assert(mb.count(f(x)) > 0) by {
            assert(b.map_values(f).contains(f(x)));
            b.map_values(f).to_multiset_ensures();
        }
        assert(mb.remove(f(x)).insert(f(x)) =~= mb);
    }
}

spec fn reading(prog: &Program, head: Seq<VarId>) -> spec_fn(Seq<Id>) -> Seq<Id> {
    |r: Seq<Id>| backtrack::read_out(prog, head, r)
}

/// On a rebuilt e-graph the join over its database and the backtracking search
/// report the same rows, each as often, whatever the order.
pub proof fn lemma_matchers_agree(
    g: &EGraph,
    pats: Seq<Pat>,
    pvs: Seq<PatV>,
    q: &Query,
    db: Seq<relational::Relation>,
    prog: &Program,
    found: Seq<Seq<Id>>,
    joined: Seq<Seq<Id>>,
    ran: Seq<Seq<Id>>,
    searched: Seq<Seq<Id>>,
)
    requires
        same_question(g, pats, pvs, q, db, prog),
        join::reports(found, q, db, joined),
        backtrack::reports_runs(ran, g, prog, q.head@, searched),
    ensures
        joined.to_multiset() == searched.to_multiset(),
{
    let (there, back) = lemma_paired(g, pats, pvs, q, db, prog);
    let a = found.map_values(|s: Seq<Id>| through(there, s));
    let f = reading(prog, q.head@);
    assert forall|i: int, j: int| 0 <= i < a.len() && 0 <= j < a.len() && i != j
        implies a[i] != a[j] by {
        assert(found.contains(found[i]));
        assert(found.contains(found[j]));
        assert(through(back, a[i]) == found[i]);
        assert(through(back, a[j]) == found[j]);
    }
    assert forall|r: Seq<Id>| #[trigger] a.contains(r) <==> ran.contains(r) by {
        if a.contains(r) {
            let i = choose|i: int| 0 <= i < a.len() && a[i] == r;
            assert(found.contains(found[i]));
            assert(join::is_match(q, db, found[i]));
        }
        if ran.contains(r) {
            assert(backtrack::is_run(g, prog, r));
            let s = through(back, r);
            assert(join::is_match(q, db, s));
            assert(found.contains(s));
            let i = choose|i: int| 0 <= i < found.len() && found[i] == s;
            assert(a[i] == r);
        }
    }
    lemma_same_readings(a, ran, f);
    assert(a.map_values(f) =~= joined) by {
        assert forall|i: int| 0 <= i < joined.len() implies a.map_values(f)[i] == joined[i] by {
            assert(found.contains(found[i]));
            assert(joined[i] == join::project(q.head@, found[i]));
        }
    }
    assert(ran.map_values(f) =~= searched);
}

/// Some atom of the draft speaks of `v`.
spec fn said(d: Draft, v: VarId) -> bool {
    exists|i: int| 0 <= i < d.atoms.len() && (#[trigger] d.atoms[i]).1.contains(v)
}

/// What was said stays said.
proof fn lemma_still_said(d: Draft, e: Draft, v: VarId)
    requires
        pattern::grows(d, e),
        said(d, v),
    ensures
        said(e, v),
{
    let i = choose|i: int| 0 <= i < d.atoms.len() && (#[trigger] d.atoms[i]).1.contains(v);
    assert(e.atoms[i] == d.atoms[i]);
}

/// The variables that a pattern brings are said, but for a pattern that is one.
proof fn lemma_pattern_says(p: Pat, d: Draft, w: VarId)
    requires
        pattern::draft_ok(d),
        pattern::unnest(p, d).1.names.len() <= usize::MAX,
        d.names.len() <= w < pattern::unnest(p, d).1.names.len(),
    ensures
        said(pattern::unnest(p, d).1, w) || (p is Var && w == pattern::unnest(p, d).0),
    decreases p, 0nat,
{
    match p {
        Pat::Var(name) => {},
        Pat::App(op, args) => {
            let d1 = pattern::with_aux(d, op);
            pattern::lemma_args_len(args, d1, args@.len());
            let (vars, f) = pattern::unnest_args(args, d1, args@.len());
            let (v, e) = pattern::unnest(p, d);
            lemma_aux_ok(d, op);
            pattern::lemma_unnest_args(args, d1, args@.len());
            let slot = d.atoms.len() as int;
            assert(f.atoms[slot] == d1.atoms[slot]);
            let line = seq![v] + vars;
            assert(e.atoms[slot].1 == line);
            if w == d.names.len() {
                assert(line[0] == w);
                assert(e.atoms[slot].1.contains(w));
            } else {
                lemma_args_say(args, d1, args@.len(), w);
                if vars.contains(w) {
                    let j = choose|j: int| 0 <= j < vars.len() && vars[j] == w;
                    assert(line[j + 1] == w);
                    assert(e.atoms[slot].1.contains(w));
                } else {
                    let i = choose|i: int|
                        0 <= i < f.atoms.len() && (#[trigger] f.atoms[i]).1.contains(w);
                    if i == slot {
                        assert(d1.atoms[slot].1 == seq![d.names.len() as VarId]);
                    } else {
                        assert(e.atoms[i] == f.atoms[i]);
                    }
                }
            }
        },
    }
}

proof fn lemma_aux_ok(d: Draft, op: Sym)
    requires
        pattern::draft_ok(d),
        d.names.len() < usize::MAX,
    ensures
        pattern::draft_ok(pattern::with_aux(d, op)),
{
    let d1 = pattern::with_aux(d, op);
    assert forall|i: int, k: int| 0 <= i < d1.atoms.len() && 0 <= k < d1.atoms[i].1.len()
        implies #[trigger] d1.atoms[i].1[k] < d1.names.len() by {
        if i < d.atoms.len() {
            assert(d.atoms[i].1[k] < d.names.len());
        }
    }
}

proof fn lemma_args_say(args: Vec<Pat>, d: Draft, k: nat, w: VarId)
    requires
        pattern::draft_ok(d),
        k <= args@.len(),
        pattern::unnest_args(args, d, k).1.names.len() <= usize::MAX,
        d.names.len() <= w < pattern::unnest_args(args, d, k).1.names.len(),
    ensures
        said(pattern::unnest_args(args, d, k).1, w) || pattern::unnest_args(args, d, k).0.contains(
            w,
        ),
    decreases args, k,
{
    if k > 0 {
        let (before, e) = pattern::unnest_args(args, d, (k - 1) as nat);
        let (v, f) = pattern::unnest(args@[k - 1], e);
        let vars = pattern::unnest_args(args, d, k).0;
        pattern::lemma_pat_len(args@[k - 1], e);
        pattern::lemma_unnest_args(args, d, (k - 1) as nat);
        pattern::lemma_unnest(args@[k - 1], e);
        assert(vars == before.push(v));
        if w < e.names.len() {
            lemma_args_say(args, d, (k - 1) as nat, w);
            if before.contains(w) {
                let j = choose|j: int| 0 <= j < before.len() && before[j] == w;
                assert(vars[j] == w);
            } else {
                lemma_still_said(e, f, w);
            }
        } else {
            lemma_pattern_says(args@[k - 1], e, w);
            if !said(f, w) {
                assert(vars[before.len() as int] == w);
            }
        }
    }
}

/// Where every pattern has a symbol, every variable stands under one.
proof fn lemma_all_said(pats: Seq<Pat>, k: nat, w: VarId)
    requires
        k <= pats.len(),
        forall|i: int| 0 <= i < pats.len() ==> #[trigger] pats[i] is App,
        pattern::compiled(pats, k).1.names.len() <= usize::MAX,
        w < pattern::compiled(pats, k).1.names.len(),
    ensures
        said(pattern::compiled(pats, k).1, w),
    decreases k,
{
    if k > 0 {
        let d = pattern::compiled(pats, (k - 1) as nat).1;
        let e = pattern::compiled(pats, k).1;
        assert(pats[k - 1] is App);
        pattern::lemma_pat_len(pats[k - 1], d);
        lemma_compiled_grows(pats, (k - 1) as nat);
        pattern::lemma_unnest(pats[k - 1], d);
        if w < d.names.len() {
            lemma_all_said(pats, (k - 1) as nat, w);
            lemma_still_said(d, e, w);
        } else {
            lemma_pattern_says(pats[k - 1], d, w);
        }
    }
}

/// For patterns that each have a symbol at their root, the two matchers report
/// the same rows, each as often, whatever the order.
pub proof fn lemma_matchers_agree_on_terms(
    g: &EGraph,
    pats: Seq<Pat>,
    pvs: Seq<PatV>,
    q: &Query,
    db: Seq<relational::Relation>,
    prog: &Program,
    found: Seq<Seq<Id>>,
    joined: Seq<Seq<Id>>,
    ran: Seq<Seq<Id>>,
    searched: Seq<Seq<Id>>,
)
    requires
        put_to_both(g, pats, pvs, q, db, prog),
        forall|i: int| 0 <= i < pats.len() ==> #[trigger] pats[i] is App,
        join::reports(found, q, db, joined),
        backtrack::reports_runs(ran, g, prog, q.head@, searched),
    ensures
        joined.to_multiset() == searched.to_multiset(),
{
    let d = pattern::compiled(pats, pats.len()).1;
    assert forall|v: VarId| v < q.n_vars implies #[trigger] join::mentioned(q, v) by {
        lemma_all_said(pats, pats.len(), v);
        let i = choose|i: int| 0 <= i < d.atoms.len() && (#[trigger] d.atoms[i]).1.contains(v);
        assert(pattern::atom_values(q.atoms@)[i] == q.atoms@[i]@);
        assert(q.atoms@[i].vars@.contains(v));
    }
    lemma_matchers_agree(g, pats, pvs, q, db, prog, found, joined, ran, searched);
}

} // verus!
