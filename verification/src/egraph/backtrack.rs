//! Backtracking e-matching: patterns compiled to a straight-line program over
//! registers, run by depth-first search.
//!
//! `Bind` walks every e-node of the right symbol in a class and writes its
//! children into registers; `Compare`, the equality constraint, can only run
//! once both registers are filled.

use crate::egraph::egraph::{copy_ids, EGraph};
use crate::egraph::join;
use crate::egraph::nodes;
use crate::egraph::nodes::{ENode, Id, Sym};
use crate::egraph::pattern::{PatV, VarId};
use crate::math;
use vstd::prelude::*;

verus! {

#[derive(Clone, Copy, Debug)]
pub enum Ins {
    /// Enumerate candidate classes for a root register, through the op index.
    Scan { out: usize, op: Option<Sym> },
    /// For each `op` e-node in the class in register `class`, write its
    /// children into registers `out..out + arity`.
    Bind { class: usize, op: Sym, out: usize, arity: usize },
    /// The equality constraint, checked when the second occurrence is reached.
    Compare { a: usize, b: usize },
}

#[derive(Debug)]
pub struct Program {
    pub ins: Vec<Ins>,
    pub n_regs: usize,
    /// Register holding each query variable (`usize::MAX` if the variable is
    /// not bound by these patterns).
    pub var_reg: Vec<usize>,
    pub root_regs: Vec<usize>,
}

/// A program under construction.
#[verifier::ext_equal]
pub struct Code {
    pub ins: Seq<Ins>,
    pub n_regs: int,
    pub var_reg: Seq<usize>,
}

/// The code for a pattern whose class is in register `reg`: a variable is
/// bound at its first occurrence and compared at every later one.
pub open spec fn emitted(c: Code, pat: PatV, reg: int) -> Code
    decreases pat, 0nat,
{
    match pat {
        PatV::Var(v) => if c.var_reg[v as int] == usize::MAX {
            Code { var_reg: c.var_reg.update(v as int, reg as usize), ..c }
        } else {
            Code {
                ins: c.ins.push(Ins::Compare { a: c.var_reg[v as int], b: reg as usize }),
                ..c
            }
        },
        PatV::App(op, args) => {
            let base = c.n_regs;
            let d = Code {
                ins: c.ins.push(
                    Ins::Bind {
                        class: reg as usize,
                        op,
                        out: base as usize,
                        arity: args@.len() as usize,
                    },
                ),
                n_regs: base + args@.len(),
                ..c
            };
            emitted_args(d, args, base, args@.len())
        },
    }
}

/// The code for the first `k` patterns of a list, in registers from `base` on.
pub open spec fn emitted_args(c: Code, args: Vec<PatV>, base: int, k: nat) -> Code
    decreases args, k,
{
    if k == 0 || k > args@.len() {
        c
    } else {
        emitted(emitted_args(c, args, base, (k - 1) as nat), args@[k - 1], base + k - 1)
    }
}

/// The symbol that a root scan can use.
pub open spec fn root_op(pat: PatV) -> Option<Sym> {
    match pat {
        PatV::App(op, _) => Some(op),
        PatV::Var(_) => None,
    }
}

/// A variable that has no register yet gets one; the others keep theirs.
pub open spec fn met(var_reg: Seq<usize>, v: VarId, reg: int) -> Seq<usize> {
    if var_reg[v as int] == usize::MAX {
        var_reg.update(v as int, reg as usize)
    } else {
        var_reg
    }
}

/// The code for the first `k` of several patterns, and their root registers. A
/// root register answers the variable of its root, unless that was met before:
/// then it is compared with where it was met.
pub open spec fn programmed(pats: Seq<PatV>, n_vars: nat, roots: Seq<VarId>, k: nat) -> (
    Code,
    Seq<usize>,
)
    decreases k,
{
    if k == 0 {
        (
            Code { ins: Seq::empty(), n_regs: 0, var_reg: Seq::new(n_vars, |i: int| usize::MAX) },
            Seq::empty(),
        )
    } else {
        let (c, rr) = programmed(pats, n_vars, roots, (k - 1) as nat);
        let root = c.n_regs;
        let d = Code {
            ins: c.ins.push(Ins::Scan { out: root as usize, op: root_op(pats[k - 1]) }),
            n_regs: root + 1,
            var_reg: met(c.var_reg, roots[k - 1], root),
        };
        (emitted(d, pats[k - 1], root), rr.push(root as usize))
    }
}

/// The variables of a pattern are below `n`.
pub open spec fn vars_below(pat: PatV, n: nat) -> bool
    decreases pat,
{
    match pat {
        PatV::Var(v) => v < n,
        PatV::App(op, args) => forall|i: int|
            0 <= i < args@.len() ==> vars_below(#[trigger] args@[i], n),
    }
}

/// The code that a program holds.
pub open spec fn code_of(p: &Program) -> Code {
    Code { ins: p.ins@, n_regs: p.n_regs as int, var_reg: p.var_reg@ }
}

pub proof fn lemma_emitted_grows(c: Code, pat: PatV, reg: int)
    requires
        vars_below(pat, c.var_reg.len()),
    ensures
        c.n_regs <= emitted(c, pat, reg).n_regs,
        emitted(c, pat, reg).var_reg.len() == c.var_reg.len(),
        c.ins.len() <= emitted(c, pat, reg).ins.len(),
    decreases pat, 0nat,
{
    match pat {
        PatV::Var(v) => {},
        PatV::App(op, args) => {
            let d = Code {
                ins: c.ins.push(
                    Ins::Bind {
                        class: reg as usize,
                        op,
                        out: c.n_regs as usize,
                        arity: args@.len() as usize,
                    },
                ),
                n_regs: c.n_regs + args@.len(),
                ..c
            };
            lemma_emitted_args_grows(d, args, c.n_regs, args@.len());
        },
    }
}

pub proof fn lemma_emitted_args_grows(c: Code, args: Vec<PatV>, base: int, k: nat)
    requires
        k <= args@.len(),
        forall|i: int|
            0 <= i < args@.len() ==> vars_below(#[trigger] args@[i], c.var_reg.len()),
    ensures
        c.n_regs <= emitted_args(c, args, base, k).n_regs,
        emitted_args(c, args, base, k).var_reg.len() == c.var_reg.len(),
        c.ins.len() <= emitted_args(c, args, base, k).ins.len(),
    decreases args, k,
{
    if k > 0 {
        lemma_emitted_args_grows(c, args, base, (k - 1) as nat);
        lemma_emitted_grows(
            emitted_args(c, args, base, (k - 1) as nat),
            args@[k - 1],
            base + k - 1,
        );
    }
}

pub proof fn lemma_emitted_args_monotone(c: Code, args: Vec<PatV>, base: int, j: nat, k: nat)
    requires
        j <= k <= args@.len(),
        forall|i: int|
            0 <= i < args@.len() ==> vars_below(#[trigger] args@[i], c.var_reg.len()),
    ensures
        emitted_args(c, args, base, j).n_regs <= emitted_args(c, args, base, k).n_regs,
    decreases k,
{
    if j < k {
        lemma_emitted_args_monotone(c, args, base, j, (k - 1) as nat);
        lemma_emitted_args_grows(c, args, base, (k - 1) as nat);
        lemma_emitted_grows(
            emitted_args(c, args, base, (k - 1) as nat),
            args@[k - 1],
            base + k - 1,
        );
    }
}

fn emit(p: &mut Program, pat: &PatV, reg: usize)
    requires
        vars_below(*pat, old(p).var_reg@.len()),
        emitted(code_of(old(p)), *pat, reg as int).n_regs <= usize::MAX,
    ensures
        code_of(final(p)) == emitted(code_of(old(p)), *pat, reg as int),
        final(p).root_regs == old(p).root_regs,
    decreases pat,
{
    let ghost c = code_of(p);
    match pat {
        PatV::Var(v) => {
            if p.var_reg[*v] == usize::MAX {
                p.var_reg.set(*v, reg);
            } else {
                p.ins.push(Ins::Compare { a: p.var_reg[*v], b: reg });
            }
            assert(code_of(p) =~= emitted(c, *pat, reg as int));
        },
        PatV::App(op, args) => {
            let base = p.n_regs;
            let ghost d = Code {
                ins: c.ins.push(
                    Ins::Bind { class: reg, op: *op, out: base, arity: args@.len() as usize },
                ),
                n_regs: base + args@.len(),
                ..c
            };
            proof {
                lemma_emitted_args_grows(d, *args, base as int, args@.len());
            }
            let n = args.len();
            p.n_regs = p.n_regs + n;
            p.ins.push(Ins::Bind { class: reg, op: *op, out: base, arity: n });
            assert(code_of(p) =~= d);
            for i in 0..n
                invariant
                    n == args@.len(),
                    *pat == PatV::App(*op, *args),
                    vars_below(*pat, c.var_reg.len()),
                    d.var_reg.len() == c.var_reg.len(),
                    emitted_args(d, *args, base as int, args@.len()).n_regs <= usize::MAX,
                    base + n == d.n_regs,
                    d.n_regs <= usize::MAX,
                    code_of(p) == emitted_args(d, *args, base as int, i as nat),
                    p.root_regs == old(p).root_regs,
            {
                proof {
                    assert(decreases_to!(*pat => pat->App_1));
                    assert(decreases_to!(*args => args[i as int]));
                    assert(decreases_to!(*pat => args[i as int]));
                    lemma_emitted_args_monotone(d, *args, base as int, (i + 1) as nat, args@.len());
                    lemma_emitted_args_grows(d, *args, base as int, i as nat);
                    assert(vars_below(args@[i as int], c.var_reg.len()));
                }
                emit(p, &args[i], base + i);
            }
        },
    }
}

pub proof fn lemma_programmed_monotone(
    pats: Seq<PatV>,
    n_vars: nat,
    roots: Seq<VarId>,
    j: nat,
    k: nat,
)
    requires
        j <= k <= pats.len(),
        roots.len() >= pats.len(),
        forall|i: int| 0 <= i < pats.len() ==> (#[trigger] roots[i]) < n_vars,
        forall|i: int| 0 <= i < pats.len() ==> vars_below(#[trigger] pats[i], n_vars),
    ensures
        programmed(pats, n_vars, roots, j).0.n_regs <= programmed(
            pats,
            n_vars,
            roots,
            k,
        ).0.n_regs,
        programmed(pats, n_vars, roots, k).0.var_reg.len() == n_vars,
    decreases k,
{
    if k > 0 {
        let c = programmed(pats, n_vars, roots, (k - 1) as nat).0;
        let d = Code {
            ins: c.ins.push(Ins::Scan { out: c.n_regs as usize, op: root_op(pats[k - 1]) }),
            n_regs: c.n_regs + 1,
            var_reg: met(c.var_reg, roots[k - 1], c.n_regs),
        };
        if j < k {
            lemma_programmed_monotone(pats, n_vars, roots, j, (k - 1) as nat);
        } else {
            lemma_programmed_monotone(pats, n_vars, roots, (k - 1) as nat, (k - 1) as nat);
        }
        assert(roots[k - 1] < n_vars);
        lemma_emitted_grows(d, pats[k - 1], c.n_regs);
    }
}

/// Compiles numbered patterns into a program.
pub fn compile(pats: &[PatV], n_vars: usize, root_vars: &[VarId]) -> (p: Program)
    requires
        root_vars@.len() >= pats@.len(),
        forall|i: int| 0 <= i < pats@.len() ==> (#[trigger] root_vars@[i]) < n_vars,
        forall|i: int| 0 <= i < pats@.len() ==> vars_below(#[trigger] pats@[i], n_vars as nat),
        programmed(pats@, n_vars as nat, root_vars@, pats@.len()).0.n_regs <= usize::MAX,
    ensures
        (code_of(&p), p.root_regs@) == programmed(
            pats@,
            n_vars as nat,
            root_vars@,
            pats@.len(),
        ),
        p.var_reg@.len() == n_vars,
        straight(p.ins@, p.n_regs as int),
{
    proof {
        lemma_compiled_straight(pats@, n_vars as nat, root_vars@, pats@.len());
    }
    let mut p = Program {
        ins: Vec::new(),
        n_regs: 0,
        var_reg: vec![usize::MAX; n_vars],
        root_regs: Vec::new(),
    };
    assert(code_of(&p) =~= programmed(pats@, n_vars as nat, root_vars@, 0).0);
    for i in 0..pats.len()
        invariant
            root_vars@.len() >= pats@.len(),
            forall|i: int| 0 <= i < pats@.len() ==> (#[trigger] root_vars@[i]) < n_vars,
            forall|i: int| 0 <= i < pats@.len() ==> vars_below(#[trigger] pats@[i], n_vars as nat),
            programmed(pats@, n_vars as nat, root_vars@, pats@.len()).0.n_regs <= usize::MAX,
            p.var_reg@.len() == n_vars,
            (code_of(&p), p.root_regs@) == programmed(pats@, n_vars as nat, root_vars@, i as nat),
    {
        let ghost c = code_of(&p);
        let root = p.n_regs;
        let ghost d = Code {
            ins: c.ins.push(Ins::Scan { out: root, op: root_op(pats@[i as int]) }),
            n_regs: root + 1,
            var_reg: met(c.var_reg, root_vars@[i as int], root as int),
        };
        proof {
            lemma_programmed_monotone(
                pats@,
                n_vars as nat,
                root_vars@,
                (i + 1) as nat,
                pats@.len(),
            );
            lemma_emitted_grows(d, pats@[i as int], root as int);
        }
        p.n_regs = p.n_regs + 1;
        p.root_regs.push(root);
        if p.var_reg[root_vars[i]] == usize::MAX {
            p.var_reg.set(root_vars[i], root);
        }
        let op = match &pats[i] {
            PatV::App(op, _) => Some(*op),
            PatV::Var(_) => None,
        };
        p.ins.push(Ins::Scan { out: root, op });
        assert(code_of(&p) =~= d);
        emit(&mut p, &pats[i], root);
    }
    p
}

/// Class `c` is a candidate of a root scan.
pub open spec fn candidate(g: &EGraph, op: Option<Sym>, c: Id) -> bool {
    &&& c < g.len()
    &&& match op {
        Some(s) => g.has_op(c as int, s),
        None => g.rep(c) == c,
    }
}

/// E-node `k` is what the registers from `out` on hold.
pub open spec fn children_at(r: Seq<Id>, out: int, k: nodes::Key) -> bool {
    forall|j: int| 0 <= j < k.1.len() ==> r[out + j] == #[trigger] k.1[j]
}

/// The registers satisfy an instruction.
pub open spec fn holds_ins(g: &EGraph, i: Ins, r: Seq<Id>) -> bool {
    match i {
        Ins::Scan { out, op } => candidate(g, op, r[out as int]),
        Ins::Bind { class, op, out, arity } => exists|k: nodes::Key| #[trigger]
            g.holds(g.rep(r[class as int]) as int, k) && k.0 == op && k.1.len() == arity
                && children_at(r, out as int, k),
        Ins::Compare { a, b } => g.rep(r[a as int]) == g.rep(r[b as int]),
    }
}

pub open spec fn writes(i: Ins, reg: int) -> bool {
    match i {
        Ins::Scan { out, op } => reg == out,
        Ins::Bind { class, op, out, arity } => out <= reg < out + arity,
        Ins::Compare { a, b } => false,
    }
}

pub open spec fn reads(i: Ins, reg: int) -> bool {
    match i {
        Ins::Scan { out, op } => false,
        Ins::Bind { class, op, out, arity } => reg == class,
        Ins::Compare { a, b } => reg == a || reg == b,
    }
}

/// Register `reg` is written by an instruction of `lo..hi`.
pub open spec fn written(ins: Seq<Ins>, lo: int, hi: int, reg: int) -> bool {
    exists|p: int| lo <= p < hi && writes(#[trigger] ins[p], reg)
}

/// Registers are in range, written once, and read only after they are written.
pub open spec fn straight(ins: Seq<Ins>, n_regs: int) -> bool {
    &&& forall|p: int, reg: int|
        0 <= p < ins.len() && (#[trigger] writes(ins[p], reg)) ==> 0 <= reg < n_regs && !written(
            ins,
            p + 1,
            ins.len() as int,
            reg,
        )
    &&& forall|p: int, reg: int|
        0 <= p < ins.len() && (#[trigger] reads(ins[p], reg)) ==> 0 <= reg < n_regs && written(
            ins,
            0,
            p,
            reg,
        ) && !written(ins, p, ins.len() as int, reg)
}

/// `r` is a run of the instructions from `pos` on that starts from `regs`.
spec fn runs(g: &EGraph, ins: Seq<Ins>, pos: int, regs: Seq<Id>, r: Seq<Id>) -> bool {
    &&& r.len() == regs.len()
    &&& forall|reg: int|
        0 <= reg < regs.len() && !#[trigger] written(ins, pos, ins.len() as int, reg) ==> r[reg]
            == regs[reg]
    &&& forall|p: int| pos <= p < ins.len() ==> holds_ins(g, #[trigger] ins[p], r)
}

/// The registers that the instructions before `pos` wrote hold ids.
spec fn filled(g: &EGraph, ins: Seq<Ins>, pos: int, regs: Seq<Id>) -> bool {
    forall|reg: int|
        0 <= reg < regs.len() && #[trigger] written(ins, 0, pos, reg) ==> regs[reg] < g.len()
}

/// Registers with the children of an e-node written from `out` on.
pub open spec fn with_children(regs: Seq<Id>, out: int, k: nodes::Key) -> Seq<Id> {
    Seq::new(
        regs.len(),
        |i: int|
            if out <= i < out + k.1.len() {
                k.1[i - out]
            } else {
                regs[i]
            },
    )
}

/// The work of a search from `pos` on: one per class that a scan steps over
/// and one per e-node that a bind steps over.
pub open spec fn search_cost(g: &EGraph, ins: Seq<Ins>, pos: nat, regs: Seq<Id>) -> nat
    decreases ins.len() - pos, 1nat, 0nat,
{
    if pos >= ins.len() {
        0
    } else {
        match ins[pos as int] {
            Ins::Scan { out, op } => scan_cost(g, ins, pos, regs, out, op, g.len()),
            Ins::Bind { class, op, out, arity } => bind_cost(
                g,
                ins,
                pos,
                regs,
                ins[pos as int],
                g.listed(g.rep(regs[class as int]) as int).len(),
            ),
            Ins::Compare { a, b } => if g.rep(regs[a as int]) == g.rep(regs[b as int]) {
                search_cost(g, ins, pos + 1, regs)
            } else {
                0
            },
        }
    }
}

/// The work of a scan over the ids below `n`.
pub open spec fn scan_cost(
    g: &EGraph,
    ins: Seq<Ins>,
    pos: nat,
    regs: Seq<Id>,
    out: usize,
    op: Option<Sym>,
    n: nat,
) -> nat
    decreases ins.len() - pos, 0nat, n,
{
    if n == 0 || pos >= ins.len() {
        0
    } else {
        scan_cost(g, ins, pos, regs, out, op, (n - 1) as nat) + (if candidate(
            g,
            op,
            (n - 1) as Id,
        ) {
            1 + search_cost(g, ins, pos + 1, regs.update(out as int, (n - 1) as Id))
        } else {
            0
        })
    }
}

/// The e-node is one that the bind steps over.
pub open spec fn binds(i: Ins, k: nodes::Key) -> bool {
    i matches Ins::Bind { class, op, out, arity } && k.0 == op && k.1.len() == arity
}

/// The work of a bind over the first `m` e-nodes of its class.
pub open spec fn bind_cost(
    g: &EGraph,
    ins: Seq<Ins>,
    pos: nat,
    regs: Seq<Id>,
    i: Ins,
    m: nat,
) -> nat
    decreases ins.len() - pos, 0nat, m,
{
    if m == 0 || pos >= ins.len() {
        0
    } else {
        let k = g.listed(g.rep(regs[i->class as int]) as int)[m - 1];
        bind_cost(g, ins, pos, regs, i, (m - 1) as nat) + (if binds(i, k) {
            1 + search_cost(g, ins, pos + 1, with_children(regs, i->Bind_out as int, k))
        } else {
            0
        })
    }
}

/// The list holds exactly the runs; of a rebuilt graph, each once.
spec fn lists_runs(
    found: Seq<Vec<Id>>,
    g: &EGraph,
    ins: Seq<Ins>,
    pos: int,
    regs: Seq<Id>,
) -> bool {
    &&& g.rebuilt() ==> join::values(found).no_duplicates()
    &&& forall|r: Seq<Id>| #[trigger]
        join::values(found).contains(r) <==> runs(g, ins, pos, regs, r)
}

proof fn lemma_written_step(ins: Seq<Ins>, pos: int, reg: int)
    requires
        0 <= pos < ins.len(),
    ensures
        written(ins, pos, ins.len() as int, reg) <==> writes(ins[pos], reg) || written(
            ins,
            pos + 1,
            ins.len() as int,
            reg,
        ),
        written(ins, 0, pos + 1, reg) <==> written(ins, 0, pos, reg) || writes(ins[pos], reg),
{
    if written(ins, pos, ins.len() as int, reg) {
        let p = choose|p: int| pos <= p < ins.len() && writes(#[trigger] ins[p], reg);
        if p > pos {
            assert(writes(ins[p], reg));
        }
    }
    if written(ins, pos + 1, ins.len() as int, reg) {
        let p = choose|p: int| pos + 1 <= p < ins.len() && writes(#[trigger] ins[p], reg);
        assert(writes(ins[p], reg));
    }
    if written(ins, 0, pos + 1, reg) {
        let p = choose|p: int| 0 <= p < pos + 1 && writes(#[trigger] ins[p], reg);
        if p < pos {
            assert(writes(ins[p], reg));
        }
    }
    if written(ins, 0, pos, reg) {
        let p = choose|p: int| 0 <= p < pos && writes(#[trigger] ins[p], reg);
        assert(writes(ins[p], reg));
    }
}

proof fn lemma_scan_split(
    g: &EGraph,
    ins: Seq<Ins>,
    pos: int,
    regs: Seq<Id>,
    out: usize,
    op: Option<Sym>,
    c: Id,
    r: Seq<Id>,
)
    requires
        straight(ins, regs.len() as int),
        0 <= pos < ins.len(),
        ins[pos] == (Ins::Scan { out, op }),
        candidate(g, op, c),
    ensures
        runs(g, ins, pos + 1, regs.update(out as int, c), r) <==> runs(g, ins, pos, regs, r)
            && r[out as int] == c,
{
    let regs2 = regs.update(out as int, c);
    let end = ins.len() as int;
    assert(writes(ins[pos], out as int));
    if runs(g, ins, pos + 1, regs2, r) {
        assert(!written(ins, pos + 1, end, out as int));
        assert forall|reg: int| 0 <= reg < regs.len() && !#[trigger] written(ins, pos, end, reg)
            implies r[reg] == regs[reg] by {
            lemma_written_step(ins, pos, reg);
            assert(!written(ins, pos + 1, end, reg));
        }
        assert forall|p: int| pos <= p < ins.len() implies holds_ins(g, #[trigger] ins[p], r) by {}
    }
    if runs(g, ins, pos, regs, r) && r[out as int] == c {
        assert forall|reg: int| 0 <= reg < regs2.len() && !#[trigger] written(ins, pos + 1, end, reg)
            implies r[reg] == regs2[reg] by {
            lemma_written_step(ins, pos, reg);
            if reg != out {
                assert(!written(ins, pos, end, reg));
            }
        }
    }
}

proof fn lemma_bind_split(
    g: &EGraph,
    ins: Seq<Ins>,
    pos: int,
    regs: Seq<Id>,
    k: nodes::Key,
    r: Seq<Id>,
)
    requires
        straight(ins, regs.len() as int),
        0 <= pos < ins.len(),
        binds(ins[pos], k),
        g.holds(g.rep(regs[ins[pos]->class as int]) as int, k),
    ensures
        runs(g, ins, pos + 1, with_children(regs, ins[pos]->Bind_out as int, k), r) <==> runs(
            g,
            ins,
            pos,
            regs,
            r,
        ) && children_at(r, ins[pos]->Bind_out as int, k),
{
    let out = ins[pos]->Bind_out as int;
    let class = ins[pos]->class as int;
    let regs2 = with_children(regs, out, k);
    let end = ins.len() as int;
    assert(reads(ins[pos], class));
    assert(!written(ins, pos, end, class));
    if runs(g, ins, pos + 1, regs2, r) {
        assert forall|j: int| 0 <= j < k.1.len() implies r[out + j] == #[trigger] k.1[j] by {
            assert(writes(ins[pos], out + j));
            assert(!written(ins, pos + 1, end, out + j));
            assert(r[out + j] == regs2[out + j]);
        }
        assert forall|reg: int| 0 <= reg < regs.len() && !#[trigger] written(ins, pos, end, reg)
            implies r[reg] == regs[reg] by {
            lemma_written_step(ins, pos, reg);
            assert(!written(ins, pos + 1, end, reg));
            assert(!writes(ins[pos], reg));
        }
        assert(r[class] == regs[class]);
        assert(holds_ins(g, ins[pos], r));
        assert forall|p: int| pos <= p < ins.len() implies holds_ins(g, #[trigger] ins[p], r) by {}
    }
    if runs(g, ins, pos, regs, r) && children_at(r, out, k) {
        assert forall|reg: int| 0 <= reg < regs2.len() && !#[trigger] written(ins, pos + 1, end, reg)
            implies r[reg] == regs2[reg] by {
            lemma_written_step(ins, pos, reg);
            if out <= reg < out + k.1.len() {
                assert(r[out + (reg - out)] == k.1[reg - out]);
            } else {
                assert(!written(ins, pos, end, reg));
            }
        }
    }
}

/// Two lists without repeats and without a common row make one without
/// repeats.
pub proof fn lemma_append_rows(a: Seq<Vec<Id>>, b: Seq<Vec<Id>>)
    ensures
        forall|r: Seq<Id>| #[trigger]
            join::values(a + b).contains(r) <==> join::values(a).contains(r) || join::values(
                b,
            ).contains(r),
        join::values(a).no_duplicates() && join::values(b).no_duplicates() && (forall|r: Seq<Id>|
            #[trigger] join::values(a).contains(r) ==> !join::values(b).contains(r))
            ==> join::values(a + b).no_duplicates(),
{
    let x = join::values(a);
    let y = join::values(b);
    let z = join::values(a + b);
    assert(z =~= x + y);
    assert forall|r: Seq<Id>| #[trigger] z.contains(r) <==> x.contains(r) || y.contains(r) by {
        if z.contains(r) {
            let i = choose|i: int| 0 <= i < z.len() && z[i] == r;
            if i < x.len() {
                assert(x[i] == r);
            } else {
                assert(y[i - x.len()] == r);
            }
        }
        if x.contains(r) {
            let i = choose|i: int| 0 <= i < x.len() && x[i] == r;
            assert(z[i] == r);
        }
        if y.contains(r) {
            let i = choose|i: int| 0 <= i < y.len() && y[i] == r;
            assert(z[i + x.len()] == r);
        }
    }
    if x.no_duplicates() && y.no_duplicates() && (forall|r: Seq<Id>| #[trigger]
        x.contains(r) ==> !y.contains(r)) {
        assert forall|i: int, j: int| 0 <= i < z.len() && 0 <= j < z.len() && i != j
            implies z[i] != z[j] by {
            if i < x.len() && j >= x.len() {
                assert(x.contains(x[i]));
                assert(y.contains(y[j - x.len()]));
            } else if j < x.len() && i >= x.len() {
                assert(x.contains(x[j]));
                assert(y.contains(y[i - x.len()]));
            }
        }
    }
}

/// No candidate between two places costs nothing.
proof fn lemma_scan_gap(
    g: &EGraph,
    ins: Seq<Ins>,
    pos: nat,
    regs: Seq<Id>,
    out: usize,
    op: Option<Sym>,
    a: nat,
    b: nat,
)
    requires
        a <= b <= g.len() <= u32::MAX,
        forall|c: Id| a <= c < b ==> !#[trigger] candidate(g, op, c),
    ensures
        scan_cost(g, ins, pos, regs, out, op, b) == scan_cost(g, ins, pos, regs, out, op, a),
    decreases b,
{
    if a < b {
        lemma_scan_gap(g, ins, pos, regs, out, op, a, (b - 1) as nat);
        assert(!candidate(g, op, (b - 1) as Id));
    }
}

/// The candidates of a scan, ascending.
fn list_candidates(g: &EGraph, op: Option<Sym>) -> (cs: Vec<Id>)
    requires
        g.well_formed(),
    ensures
        forall|i: int, j: int| 0 <= i < j < cs@.len() ==> #[trigger] cs@[i] < #[trigger] cs@[j],
        forall|c: Id| #[trigger] cs@.contains(c) <==> candidate(g, op, c),
{
    match op {
        Some(s) => g.classes_with_op(s),
        None => g.class_ids(),
    }
}

/// All runs of the program from an instruction on.
#[verifier::rlimit(60)]
fn run_from(g: &EGraph, ins: &[Ins], pos: usize, regs: &Vec<Id>, visits: &mut u64) -> (found: Vec<
    Vec<Id>,
>)
    requires
        g.well_formed(),
        straight(ins@, regs@.len() as int),
        pos <= ins@.len(),
        filled(g, ins@, pos as int, regs@),
    ensures
        lists_runs(found@, g, ins@, pos as int, regs@),
        *final(visits) == math::capped(*old(visits) + search_cost(g, ins@, pos as nat, regs@)),
    decreases ins@.len() - pos,
{
    let n_ins = ins.len();
    let n_regs = regs.len();
    let mut found: Vec<Vec<Id>> = Vec::new();
    proof {
        g.lemma_well_formed();
        assert(join::values(found@) =~= Seq::<Seq<Id>>::empty());
    }
    if pos == ins.len() {
        found.push(copy_ids(regs));
        proof {
            assert(join::values(found@) =~= seq![regs@]);
            assert(join::values(found@)[0] == regs@);
            assert forall|r: Seq<Id>| #[trigger] join::values(found@).contains(r) <==> runs(g, ins@, pos as int, regs@, r) by {
                if runs(g, ins@, pos as int, regs@, r) {
                    assert forall|reg: int| 0 <= reg < regs@.len() implies r[reg] == regs@[reg] by {
                        assert(!written(ins@, pos as int, ins@.len() as int, reg));
                    }
                    assert(r =~= regs@);
                }
            }
        }
        return found;
    }
    match ins[pos] {
        Ins::Scan { out, op } => {
            assert(writes(ins@[pos as int], out as int));
            let cs = list_candidates(g, op);
            let mut below: Ghost<nat> = Ghost(0);
            for k in 0..cs.len()
                invariant
                    g.well_formed(),
                    g.len() <= u32::MAX,
                    n_ins == ins@.len(),
                    n_regs == regs@.len(),
                    pos < n_ins,
                    straight(ins@, regs@.len() as int),
                    filled(g, ins@, pos as int, regs@),
                    ins@[pos as int] == (Ins::Scan { out, op }),
                    writes(ins@[pos as int], out as int),
                    forall|i: int, j: int|
                        0 <= i < j < cs@.len() ==> #[trigger] cs@[i] < #[trigger] cs@[j],
                    forall|c: Id| #[trigger] cs@.contains(c) <==> candidate(g, op, c),
                    below@ <= g.len(),
                    below@ == (if k == 0 {
                        0
                    } else {
                        cs@[k - 1] + 1
                    }),
                    g.rebuilt() ==> join::values(found@).no_duplicates(),
                    forall|r: Seq<Id>| #[trigger]
                        join::values(found@).contains(r) <==> runs(g, ins@, pos as int, regs@, r)
                            && cs@.take(k as int).contains(r[out as int]),
                    *visits == math::capped(
                        *old(visits) + scan_cost(g, ins@, pos as nat, regs@, out, op, below@),
                    ),
            {
                let c = cs[k];
                proof {
                    assert(cs@.contains(c));
                    assert(candidate(g, op, c));
                    assert forall|d: Id| below@ <= d < c implies !#[trigger] candidate(g, op, d) by {
                        if candidate(g, op, d) {
                            assert(cs@.contains(d));
                            let m = choose|m: int| 0 <= m < cs@.len() && cs@[m] == d;
                            if m < k {
                                if m < k - 1 {
                                    assert(cs@[m] < cs@[k - 1]);
                                }
                            } else if m > k {
                                assert(cs@[k as int] < cs@[m]);
                            }
                        }
                    }
                    lemma_scan_gap(g, ins@, pos as nat, regs@, out, op, below@, c as nat);
                    below@ = (c + 1) as nat;
                }
                math::tick(visits);
                let mut next = copy_ids(regs);
                next.set(out, c);
                proof {
                    assert(next@ =~= regs@.update(out as int, c));
                    assert forall|reg: int| 0 <= reg < next@.len() && #[trigger] written(ins@, 0, pos + 1, reg)
                        implies next@[reg]
                        < g.len() by {
                        lemma_written_step(ins@, pos as int, reg);
                    }
                }
                let mut more = run_from(g, ins, pos + 1, &next, visits);
                proof {
                    lemma_append_rows(found@, more@);
                    let before = cs@.take(k as int);
                    assert(cs@.take(k + 1) =~= before.push(c));
                    assert(!before.contains(c)) by {
                        if before.contains(c) {
                            let m = choose|m: int| 0 <= m < before.len() && before[m] == c;
                            assert(cs@[m] < cs@[k as int]);
                        }
                    }
                    assert forall|r: Seq<Id>| #[trigger] join::values(more@).contains(r) <==> runs(g, ins@, pos as int, regs@, r)
                        && r[out as int] == c by {
                        lemma_scan_split(g, ins@, pos as int, regs@, out, op, c, r);
                    }
                    assert forall|r: Seq<Id>| #[trigger] join::values(found@ + more@).contains(r) <==> runs(
                        g,
                        ins@,
                        pos as int,
                        regs@,
                        r,
                    ) && cs@.take(k + 1).contains(r[out as int]) by {
                        assert(before.push(c).contains(r[out as int]) <==> before.contains(r[out as int])
                            || r[out as int] == c) by {
                            if before.contains(r[out as int]) {
                                let m = choose|m: int| 0 <= m < before.len() && before[m] == r[out as int];
                                assert(before.push(c)[m] == r[out as int]);
                            }
                            assert(before.push(c)[k as int] == c);
                        }
                        assert(join::values(found@).contains(r) <==> runs(g, ins@, pos as int, regs@, r)
                            && before.contains(r[out as int]));
                        assert(join::values(more@).contains(r) <==> runs(g, ins@, pos as int, regs@, r)
                            && r[out as int] == c);
                    }
                    assert forall|r: Seq<Id>| #[trigger] join::values(found@).contains(r)
                        implies !join::values(more@).contains(r) by {}
                }
                found.append(&mut more);
            }
            proof {
                assert(cs@.take(cs@.len() as int) =~= cs@);
                assert forall|r: Seq<Id>| #[trigger] join::values(found@).contains(r) <==> runs(g, ins@, pos as int, regs@, r) by {
                    if runs(g, ins@, pos as int, regs@, r) {
                        assert(holds_ins(g, ins@[pos as int], r));
                        assert(cs@.contains(r[out as int]));
                    }
                }
                assert forall|d: Id| below@ <= d < g.len() implies !#[trigger] candidate(g, op, d) by {
                    if candidate(g, op, d) {
                        assert(cs@.contains(d));
                        let m = choose|m: int| 0 <= m < cs@.len() && cs@[m] == d;
                        if m < cs@.len() - 1 {
                            assert(cs@[m] < cs@[cs@.len() - 1]);
                        }
                    }
                }
                lemma_scan_gap(g, ins@, pos as nat, regs@, out, op, below@, g.len());
            }
            found
        },
        Ins::Bind { class, op, out, arity } => {
            let ghost i = ins@[pos as int];
            proof {
                assert(reads(ins@[pos as int], class as int));
                assert(written(ins@, 0, pos as int, class as int));
            }
            let list = g.nodes(regs[class]);
            let ghost c = g.rep(regs@[class as int]) as int;
            let ghost ks = g.listed(c);
            assert(nodes::keys(list@) == ks);
            for m in 0..list.len()
                invariant
                    g.well_formed(),
                    g.len() <= u32::MAX,
                    n_ins == ins@.len(),
                    n_regs == regs@.len(),
                    pos < n_ins,
                    straight(ins@, regs@.len() as int),
                    filled(g, ins@, pos as int, regs@),
                    i == ins@[pos as int],
                    i == (Ins::Bind { class, op, out, arity }),
                    c == g.rep(regs@[class as int]),
                    c < g.len(),
                    ks == g.listed(c),
                    nodes::keys(list@) == ks,
                    g.rebuilt() ==> join::values(found@).no_duplicates(),
                    forall|r: Seq<Id>| #[trigger]
                        join::values(found@).contains(r) <==> runs(g, ins@, pos as int, regs@, r)
                            && bound_by(ks, i, m as int, r),
                    *visits == math::capped(
                        *old(visits) + bind_cost(g, ins@, pos as nat, regs@, i, m as nat),
                    ),
            {
                let n = &list[m];
                let ghost k = ks[m as int];
                proof {
                    assert(nodes::keys(list@)[m as int] == n@);
                    assert(ks.contains(k));
                    assert(g.holds(c, k));
                    g.lemma_well_formed();
                }
                if n.op == op && n.children.len() == arity {
                    math::tick(visits);
                    proof {
                        if arity > 0 {
                            assert(writes(ins@[pos as int], out + arity - 1));
                        }
                    }
                    let next = write_children(regs, out, n);
                    proof {
                        assert(binds(i, k));
                        assert forall|reg: int| 0 <= reg < next@.len() && #[trigger] written(ins@, 0, pos + 1, reg)
                            implies next@[reg]
                            < g.len() by {
                            lemma_written_step(ins@, pos as int, reg);
                            if out <= reg < out + arity {
                                assert(k.1[reg - out] < g.len());
                            }
                        }
                    }
                    let mut more = run_from(g, ins, pos + 1, &next, visits);
                    proof {
                        lemma_append_rows(found@, more@);
                        assert forall|r: Seq<Id>| #[trigger] join::values(more@).contains(r) <==> runs(g, ins@, pos as int, regs@, r)
                            && children_at(r, out as int, k) by {
                            lemma_bind_split(g, ins@, pos as int, regs@, k, r);
                        }
                        assert forall|r: Seq<Id>| #[trigger] join::values(found@ + more@).contains(r) <==> runs(
                            g,
                            ins@,
                            pos as int,
                            regs@,
                            r,
                        ) && bound_by(ks, i, m + 1, r) by {
                            lemma_bound_step(ks, i, m as int, r);
                            assert(join::values(found@).contains(r) <==> runs(g, ins@, pos as int, regs@, r)
                                && bound_by(ks, i, m as int, r));
                            assert(join::values(more@).contains(r) <==> runs(g, ins@, pos as int, regs@, r)
                                && children_at(r, out as int, k));
                        }
                        if g.rebuilt() {
                            assert forall|r: Seq<Id>| #[trigger] join::values(found@).contains(r)
                                implies !join::values(more@).contains(r) by {
                                if join::values(more@).contains(r) {
                                    let j = choose|j: int|
                                        0 <= j < m && binds(i, #[trigger] ks[j]) && children_at(r, out as int, ks[j]);
                                    assert(ks[j].1 =~= k.1) by {
                                        assert forall|x: int| 0 <= x < k.1.len()
                                            implies ks[j].1[x] == k.1[x] by {
                                            assert(r[out + x] == ks[j].1[x]);
                                            assert(r[out + x] == k.1[x]);
                                        }
                                    }
                                    assert(g.listed(c).no_duplicates());
                                    assert(ks[j] == ks[m as int]);
                                }
                            }
                        }
                    }
                    found.append(&mut more);
                } else {
                    proof {
                        assert(!binds(i, k));
                        assert forall|r: Seq<Id>| #[trigger] join::values(found@).contains(r) <==> runs(g, ins@, pos as int, regs@, r)
                            && bound_by(ks, i, m + 1, r) by {
                            lemma_bound_step(ks, i, m as int, r);
                        }
                    }
                }
            }
            proof {
                assert(nodes::keys(list@).len() == list@.len());
                assert forall|r: Seq<Id>| #[trigger] join::values(found@).contains(r) <==> runs(g, ins@, pos as int, regs@, r) by {
                    if runs(g, ins@, pos as int, regs@, r) {
                        assert(holds_ins(g, ins@[pos as int], r));
                        assert(!written(ins@, pos as int, ins@.len() as int, class as int));
                        assert(r[class as int] == regs@[class as int]);
                        let k = choose|k: nodes::Key| #[trigger]
                            g.holds(c, k) && k.0 == op && k.1.len() == arity && children_at(
                                r,
                                out as int,
                                k,
                            );
                        let j = choose|j: int| 0 <= j < ks.len() && ks[j] == k;
                        assert(binds(i, ks[j]));
                        assert(bound_by(ks, i, ks.len() as int, r));
                    }
                }
            }
            found
        },
        Ins::Compare { a, b } => {
            proof {
                assert(reads(ins@[pos as int], a as int));
                assert(reads(ins@[pos as int], b as int));
                assert(written(ins@, 0, pos as int, a as int));
                assert(written(ins@, 0, pos as int, b as int));
                assert forall|reg: int| #[trigger] written(ins@, pos as int, ins@.len() as int, reg) == written(
                    ins@,
                    pos + 1,
                    ins@.len() as int,
                    reg,
                ) by {
                    lemma_written_step(ins@, pos as int, reg);
                }
            }
            if g.find(regs[a]) == g.find(regs[b]) {
                proof {
                    assert forall|reg: int| 0 <= reg < regs@.len() && #[trigger] written(ins@, 0, pos + 1, reg)
                        implies regs@[reg]
                        < g.len() by {
                        lemma_written_step(ins@, pos as int, reg);
                    }
                }
                let rest = run_from(g, ins, pos + 1, regs, visits);
                proof {
                    assert forall|r: Seq<Id>| #[trigger] join::values(rest@).contains(r) <==> runs(g, ins@, pos as int, regs@, r) by {
                        lemma_compare_step(g, ins@, pos as int, regs@, r);
                    }
                }
                rest
            } else {
                proof {
                    assert forall|r: Seq<Id>| #[trigger] join::values(found@).contains(r) <==> runs(g, ins@, pos as int, regs@, r) by {
                        lemma_compare_step(g, ins@, pos as int, regs@, r);
                    }
                }
                found
            }
        },
    }
}

/// One of the first `m` e-nodes is what the bind wrote.
spec fn bound_by(ks: Seq<nodes::Key>, i: Ins, m: int, r: Seq<Id>) -> bool {
    exists|j: int|
        0 <= j < m && binds(i, #[trigger] ks[j]) && children_at(r, i->Bind_out as int, ks[j])
}

proof fn lemma_bound_step(ks: Seq<nodes::Key>, i: Ins, m: int, r: Seq<Id>)
    requires
        0 <= m < ks.len(),
    ensures
        bound_by(ks, i, m + 1, r) <==> bound_by(ks, i, m, r) || (binds(i, ks[m]) && children_at(
            r,
            i->Bind_out as int,
            ks[m],
        )),
{
    if bound_by(ks, i, m + 1, r) {
        let j = choose|j: int|
            0 <= j < m + 1 && binds(i, #[trigger] ks[j]) && children_at(
                r,
                i->Bind_out as int,
                ks[j],
            );
        if j < m {
            assert(binds(i, ks[j]));
        }
    }
    if bound_by(ks, i, m, r) {
        let j = choose|j: int|
            0 <= j < m && binds(i, #[trigger] ks[j]) && children_at(r, i->Bind_out as int, ks[j]);
        assert(binds(i, ks[j]));
    }
}

proof fn lemma_compare_step(g: &EGraph, ins: Seq<Ins>, pos: int, regs: Seq<Id>, r: Seq<Id>)
    requires
        straight(ins, regs.len() as int),
        0 <= pos < ins.len(),
        ins[pos] is Compare,
    ensures
        runs(g, ins, pos, regs, r) <==> runs(g, ins, pos + 1, regs, r) && g.rep(
            regs[ins[pos]->a as int],
        ) == g.rep(regs[ins[pos]->b as int]),
{
    let end = ins.len() as int;
    let a = ins[pos]->a as int;
    let b = ins[pos]->b as int;
    assert(reads(ins[pos], a) && reads(ins[pos], b));
    assert(!written(ins, pos, end, a) && !written(ins, pos, end, b));
    assert forall|reg: int| #[trigger] written(ins, pos, end, reg) == written(ins, pos + 1, end, reg) by {
        lemma_written_step(ins, pos, reg);
    }
    if runs(g, ins, pos, regs, r) {
        assert(holds_ins(g, ins[pos], r));
        assert(r[a] == regs[a] && r[b] == regs[b]);
        assert forall|reg: int| 0 <= reg < regs.len() && !#[trigger] written(ins, pos + 1, end, reg)
            implies r[reg] == regs[reg] by {
            assert(!written(ins, pos, end, reg));
        }
    }
    if runs(g, ins, pos + 1, regs, r) && g.rep(regs[a]) == g.rep(regs[b]) {
        assert forall|reg: int| 0 <= reg < regs.len() && !#[trigger] written(ins, pos, end, reg)
            implies r[reg] == regs[reg] by {
            assert(!written(ins, pos + 1, end, reg));
        }
        assert(!written(ins, pos + 1, end, a) && !written(ins, pos + 1, end, b));
        assert(holds_ins(g, ins[pos], r));
        assert forall|p: int| pos <= p < ins.len() implies holds_ins(g, #[trigger] ins[p], r) by {}
    }
}

fn write_children(regs: &Vec<Id>, out: usize, n: &ENode) -> (next: Vec<Id>)
    requires
        out + n.children@.len() <= regs@.len() || n.children@.len() == 0,
    ensures
        next@ == with_children(regs@, out as int, n@),
{
    let mut next = copy_ids(regs);
    let n_regs = regs.len();
    for j in 0..n.children.len()
        invariant
            n_regs == regs@.len(),
            out + n.children@.len() <= n_regs || n.children@.len() == 0,
            next@.len() == regs@.len(),
            forall|i: int|
                0 <= i < regs@.len() ==> #[trigger] next@[i] == (if out <= i < out + j {
                    n.children@[i - out]
                } else {
                    regs@[i]
                }),
    {
        next.set(out + j, n.children[j]);
    }
    assert(next@ =~= with_children(regs@, out as int, n@));
    next
}

/// `r` is what a run of the program leaves in the registers: every
/// instruction holds, and a register that nothing writes is 0.
pub open spec fn is_run(g: &EGraph, prog: &Program, r: Seq<Id>) -> bool {
    let ins = prog.ins@;
    &&& r.len() == prog.n_regs
    &&& forall|reg: int|
        0 <= reg < r.len() && !#[trigger] written(ins, 0, ins.len() as int, reg) ==> r[reg] == 0
    &&& forall|p: int| 0 <= p < ins.len() ==> holds_ins(g, #[trigger] ins[p], r)
}

/// The registers before the first instruction.
pub open spec fn cleared(n: nat) -> Seq<Id> {
    Seq::new(n, |i: int| 0 as Id)
}

/// Runs the program. `visits` counts units of work: one per e-node that a
/// `Bind` steps over and one per e-class that a `Scan` steps over.
pub fn search(g: &EGraph, prog: &Program, visits: &mut u64) -> (found: Vec<Vec<Id>>)
    requires
        g.well_formed(),
        straight(prog.ins@, prog.n_regs as int),
    ensures
        forall|r: Seq<Id>| #[trigger]
            join::values(found@).contains(r) <==> is_run(g, prog, r),
        g.rebuilt() ==> join::values(found@).no_duplicates(),
        *final(visits) == math::capped(
            *old(visits) + search_cost(g, prog.ins@, 0, cleared(prog.n_regs as nat)),
        ),
{
    let regs: Vec<Id> = vec![0; prog.n_regs];
    assert(regs@ =~= cleared(prog.n_regs as nat));
    let found = run_from(g, &prog.ins, 0, &regs, visits);
    proof {
        assert forall|r: Seq<Id>| #[trigger] join::values(found@).contains(r) <==> is_run(g, prog, r) by {
            assert(runs(g, prog.ins@, 0, regs@, r) <==> is_run(g, prog, r)) by {
                if is_run(g, prog, r) {
                    assert forall|reg: int| 0 <= reg < regs@.len() && !#[trigger] written(
                        prog.ins@,
                        0,
                        prog.ins@.len() as int,
                        reg,
                    ) implies r[reg] == regs@[reg] by {}
                }
                if runs(g, prog.ins@, 0, regs@, r) {
                    assert forall|reg: int| 0 <= reg < r.len() && !#[trigger] written(
                        prog.ins@,
                        0,
                        prog.ins@.len() as int,
                        reg,
                    ) implies r[reg] == 0 by {
                        assert(regs@[reg] == 0);
                    }
                }
            }
        }
    }
    found
}

/// What a run says of the head variables.
pub open spec fn read_out(prog: &Program, head: Seq<VarId>, r: Seq<Id>) -> Seq<Id> {
    Seq::new(head.len(), |i: int| r[prog.var_reg@[head[i] as int] as int])
}

/// The rows are what the runs say, one for each run.
pub open spec fn reports_runs(
    found: Seq<Seq<Id>>,
    g: &EGraph,
    prog: &Program,
    head: Seq<VarId>,
    rows: Seq<Seq<Id>>,
) -> bool {
    &&& g.rebuilt() ==> found.no_duplicates()
    &&& forall|r: Seq<Id>| #[trigger] found.contains(r) <==> is_run(g, prog, r)
    &&& rows.len() == found.len()
    &&& forall|i: int|
        0 <= i < rows.len() ==> #[trigger] rows[i] == read_out(prog, head, found[i])
}

/// Substitutions for the head variables, in head order: one row per run.
pub fn matches(g: &EGraph, prog: &Program, head: &[VarId], visits: &mut u64) -> (rows: Vec<Vec<Id>>)
    requires
        g.well_formed(),
        straight(prog.ins@, prog.n_regs as int),
        forall|i: int|
            0 <= i < head@.len() ==> (#[trigger] head@[i]) < prog.var_reg@.len()
                && prog.var_reg@[head@[i] as int] < prog.n_regs,
    ensures
        exists|found: Seq<Seq<Id>>|
            reports_runs(found, g, prog, head@, join::values(rows@)),
        *final(visits) == math::capped(
            *old(visits) + search_cost(g, prog.ins@, 0, cleared(prog.n_regs as nat)),
        ),
{
    let found = search(g, prog, visits);
    let mut rows: Vec<Vec<Id>> = Vec::new();
    for i in 0..found.len()
        invariant
            forall|i: int|
                0 <= i < head@.len() ==> (#[trigger] head@[i]) < prog.var_reg@.len()
                    && prog.var_reg@[head@[i] as int] < prog.n_regs,
            forall|r: Seq<Id>| #[trigger]
                join::values(found@).contains(r) <==> is_run(g, prog, r),
            rows@.len() == i,
            forall|k: int|
                0 <= k < i ==> (#[trigger] rows@[k])@ == read_out(prog, head@, found@[k]@),
    {
        assert(join::values(found@).contains(found@[i as int]@)) by {
            assert(join::values(found@)[i as int] == found@[i as int]@);
        }
        assert(found@[i as int]@.len() == prog.n_regs);
        let mut row: Vec<Id> = Vec::new();
        for k in 0..head.len()
            invariant
                forall|i: int|
                    0 <= i < head@.len() ==> (#[trigger] head@[i]) < prog.var_reg@.len()
                        && prog.var_reg@[head@[i] as int] < prog.n_regs,
                i < found@.len(),
                found@[i as int]@.len() == prog.n_regs,
                row@.len() == k,
                forall|j: int|
                    0 <= j < k ==> #[trigger] row@[j]
                        == found@[i as int]@[prog.var_reg@[head@[j] as int] as int],
        {
            row.push(found[i][prog.var_reg[head[k]]]);
        }
        assert(row@ =~= read_out(prog, head@, found@[i as int]@));
        rows.push(row);
    }
    proof {
        assert forall|i: int| 0 <= i < rows@.len()
            implies #[trigger] join::values(rows@)[i] == read_out(
            prog,
            head@,
            join::values(found@)[i],
        ) by {}
        assert(reports_runs(join::values(found@), g, prog, head@, join::values(rows@)));
    }
    rows
}

/// The code reads only what it wrote before, writes each register once, and
/// leaves none unwritten.
pub open spec fn code_ok(c: Code) -> bool {
    &&& 0 <= c.n_regs <= usize::MAX
    &&& straight(c.ins, c.n_regs)
    &&& forall|reg: int|
        0 <= reg < c.n_regs ==> #[trigger] written(c.ins, 0, c.ins.len() as int, reg)
    &&& forall|v: int|
        0 <= v < c.var_reg.len() ==> (#[trigger] c.var_reg[v]) == usize::MAX || c.var_reg[v]
            < c.n_regs
}

/// An instruction that reads what is there and writes what is not yet.
proof fn lemma_push_ok(c: Code, i: Ins, n: int)
    requires
        code_ok(c),
        c.n_regs <= n <= usize::MAX,
        forall|reg: int| #[trigger] writes(i, reg) <==> c.n_regs <= reg < n,
        forall|reg: int| #[trigger] reads(i, reg) ==> 0 <= reg < c.n_regs,
    ensures
        code_ok(Code { ins: c.ins.push(i), n_regs: n, ..c }),
{
    let d = Code { ins: c.ins.push(i), n_regs: n, ..c };
    let e = c.ins.len() as int;
    assert forall|lo: int, reg: int| 0 <= lo <= e
        implies #[trigger] written(d.ins, lo, e + 1, reg) == (written(
        c.ins,
        lo,
        e,
        reg,
    ) || writes(i, reg)) by {
        if written(d.ins, lo, e + 1, reg) {
            let p = choose|p: int| lo <= p < e + 1 && writes(#[trigger] d.ins[p], reg);
            if p < e {
                assert(writes(c.ins[p], reg));
            }
        }
        if written(c.ins, lo, e, reg) {
            let p = choose|p: int| lo <= p < e && writes(#[trigger] c.ins[p], reg);
            assert(writes(d.ins[p], reg));
        }
        if writes(i, reg) {
            assert(writes(d.ins[e], reg));
        }
    }
    assert forall|hi: int, reg: int| hi <= e
        implies #[trigger] written(d.ins, 0, hi, reg) == written(c.ins, 0, hi, reg) by {
        if written(d.ins, 0, hi, reg) {
            let p = choose|p: int| 0 <= p < hi && writes(#[trigger] d.ins[p], reg);
            assert(writes(c.ins[p], reg));
        }
        if written(c.ins, 0, hi, reg) {
            let p = choose|p: int| 0 <= p < hi && writes(#[trigger] c.ins[p], reg);
            assert(writes(d.ins[p], reg));
        }
    }
    assert forall|p: int, reg: int| 0 <= p < d.ins.len() && (#[trigger] writes(d.ins[p], reg))
        implies 0 <= reg < n
        && !written(d.ins, p + 1, e + 1, reg) by {
        if p < e {
            assert(writes(c.ins[p], reg));
            assert(!written(c.ins, p + 1, e, reg));
            assert(!writes(i, reg));
            assert(written(d.ins, p + 1, e + 1, reg) == (written(c.ins, p + 1, e, reg) || writes(i, reg)));
        }
    }
    assert forall|p: int, reg: int| 0 <= p < d.ins.len() && (#[trigger] reads(d.ins[p], reg))
        implies 0 <= reg < n
        && written(d.ins, 0, p, reg) && !written(d.ins, p, e + 1, reg) by {
        if p < e {
            assert(reads(c.ins[p], reg));
            assert(written(c.ins, 0, p, reg) && !written(c.ins, p, e, reg));
            assert(!writes(i, reg));
            assert(written(d.ins, p, e + 1, reg) == (written(c.ins, p, e, reg) || writes(i, reg)));
            assert(written(d.ins, 0, p, reg) == written(c.ins, 0, p, reg));
        } else {
            assert(written(c.ins, 0, e, reg));
            assert(written(d.ins, 0, e, reg) == written(c.ins, 0, e, reg));
            if written(d.ins, e, e + 1, reg) {
                assert(writes(d.ins[e], reg));
            }
        }
    }
    assert forall|reg: int| 0 <= reg < n
        implies #[trigger] written(d.ins, 0, d.ins.len() as int, reg) by {
        assert(written(d.ins, 0, e + 1, reg) == (written(c.ins, 0, e, reg) || writes(i, reg)));
        if reg < c.n_regs {
            assert(written(c.ins, 0, c.ins.len() as int, reg));
        } else {
            assert(writes(i, reg));
        }
    }
}

proof fn lemma_emitted_ok(c: Code, pat: PatV, reg: int)
    requires
        code_ok(c),
        0 <= reg < c.n_regs,
        vars_below(pat, c.var_reg.len()),
        emitted(c, pat, reg).n_regs <= usize::MAX,
    ensures
        code_ok(emitted(c, pat, reg)),
    decreases pat, 0nat,
{
    match pat {
        PatV::Var(v) => {
            if c.var_reg[v as int] != usize::MAX {
                let i = Ins::Compare { a: c.var_reg[v as int], b: reg as usize };
                lemma_push_ok(c, i, c.n_regs);
            }
        },
        PatV::App(op, args) => {
            let base = c.n_regs;
            let i = Ins::Bind {
                class: reg as usize,
                op,
                out: base as usize,
                arity: args@.len() as usize,
            };
            let d = Code { ins: c.ins.push(i), n_regs: base + args@.len(), ..c };
            assert(args.len() == args@.len());
            lemma_emitted_args_grows(d, args, base, args@.len());
            lemma_push_ok(c, i, base + args@.len());
            lemma_emitted_args_ok(d, args, base, args@.len());
        },
    }
}

proof fn lemma_emitted_args_ok(c: Code, args: Vec<PatV>, base: int, k: nat)
    requires
        code_ok(c),
        k <= args@.len(),
        0 <= base,
        base + args@.len() <= c.n_regs,
        forall|i: int| 0 <= i < args@.len() ==> vars_below(#[trigger] args@[i], c.var_reg.len()),
        emitted_args(c, args, base, k).n_regs <= usize::MAX,
    ensures
        code_ok(emitted_args(c, args, base, k)),
    decreases args, k,
{
    if k > 0 {
        let d = emitted_args(c, args, base, (k - 1) as nat);
        lemma_emitted_args_monotone(c, args, base, (k - 1) as nat, k);
        lemma_emitted_args_grows(c, args, base, (k - 1) as nat);
        lemma_emitted_args_ok(c, args, base, (k - 1) as nat);
        lemma_emitted_ok(d, args@[k - 1], base + k - 1);
    }
}

/// A compiled program runs straight through: each register is written once,
/// before it is read.
pub proof fn lemma_compiled_straight(pats: Seq<PatV>, n_vars: nat, roots: Seq<VarId>, k: nat)
    requires
        k <= pats.len() <= roots.len(),
        forall|i: int| 0 <= i < pats.len() ==> (#[trigger] roots[i]) < n_vars,
        forall|i: int| 0 <= i < pats.len() ==> vars_below(#[trigger] pats[i], n_vars),
        programmed(pats, n_vars, roots, k).0.n_regs <= usize::MAX,
    ensures
        code_ok(programmed(pats, n_vars, roots, k).0),
        programmed(pats, n_vars, roots, k).0.var_reg.len() == n_vars,
    decreases k,
{
    if k > 0 {
        let (c, rr) = programmed(pats, n_vars, roots, (k - 1) as nat);
        lemma_programmed_monotone(pats, n_vars, roots, (k - 1) as nat, k);
        lemma_compiled_straight(pats, n_vars, roots, (k - 1) as nat);
        let root = c.n_regs;
        let i = Ins::Scan { out: root as usize, op: root_op(pats[k - 1]) };
        let d = Code {
            ins: c.ins.push(i),
            n_regs: root + 1,
            var_reg: met(c.var_reg, roots[k - 1], root),
        };
        lemma_emitted_grows(d, pats[k - 1], root);
        lemma_push_ok(c, i, root + 1);
        let e = Code { ins: c.ins.push(i), n_regs: root + 1, ..c };
        assert(code_ok(e));
        assert(roots[k - 1] < n_vars);
        assert(code_ok(d));
        lemma_emitted_ok(d, pats[k - 1], root);
    }
}

} // verus!
