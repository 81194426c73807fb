//! Patterns, and the compilation of a pattern into a conjunctive query.
//!
//! Every subpattern that is not a variable gets a fresh auxiliary variable:
//!
//! ```text
//!   Aux(f(p1..pk)) = v ~ R_f(v, v1..vk), A1..Ak   where Aux(pi) = vi ~ Ai
//!   Aux(x)         = x ~ []
//! ```
//!
//! So `f(a, g(a))` becomes `Q(root, a) <- R_f(root, a, x), R_g(x, a)`: the
//! repeated `a` is now just a join variable.

use crate::egraph::nodes::Sym;
use crate::text;
use vstd::prelude::*;
use vstd::string::*;

verus! {

pub type VarId = usize;

#[derive(Debug)]
pub enum Pat {
    Var(String),
    App(Sym, Vec<Pat>),
}

/// The two patterns read alike.
pub open spec fn same_pat(a: Pat, b: Pat) -> bool
    decreases a,
{
    match (a, b) {
        (Pat::Var(x), Pat::Var(y)) => x@ == y@,
        (Pat::App(f, xs), Pat::App(g, ys)) => {
            &&& f == g
            &&& xs@.len() == ys@.len()
            &&& forall|i: int| 0 <= i < xs@.len() ==> same_pat(#[trigger] xs@[i], ys@[i])
        },
        _ => false,
    }
}

fn copy_pat(p: &Pat) -> (r: Pat)
    ensures
        same_pat(*p, r),
    decreases p,
{
    match p {
        Pat::Var(name) => Pat::Var(name.clone()),
        Pat::App(op, args) => {
            let mut out: Vec<Pat> = Vec::new();
            for i in 0..args.len()
                invariant
                    *p == Pat::App(*op, *args),
                    out@.len() == i,
                    forall|j: int| 0 <= j < i ==> same_pat(#[trigger] args@[j], out@[j]),
            {
                proof {
                    assert(decreases_to!(*p => p->App_1));
                    assert(decreases_to!(*args => args[i as int]));
                    assert(decreases_to!(*p => args[i as int]));
                }
                let x = copy_pat(&args[i]);
                out.push(x);
            }
            Pat::App(*op, out)
        },
    }
}

impl Clone for Pat {
    fn clone(&self) -> (r: Pat)
        ensures
            same_pat(*self, r),
    {
        copy_pat(self)
    }
}

pub fn pvar(name: &str) -> (p: Pat)
    ensures
        p matches Pat::Var(n) && n@ == name@,
{
    Pat::Var(name.to_owned())
}

pub fn papp(op: Sym, args: Vec<Pat>) -> (p: Pat)
    ensures
        p == Pat::App(op, args),
{
    Pat::App(op, args)
}

/// `R_rel(vars[0], vars[1..])`; `vars[0]` is always the e-class id column.
#[derive(Clone, Debug)]
pub struct Atom {
    pub rel: Sym,
    pub vars: Vec<VarId>,
}

impl View for Atom {
    type V = (Sym, Seq<VarId>);

    open spec fn view(&self) -> (Sym, Seq<VarId>) {
        (self.rel, self.vars@)
    }
}

#[derive(Clone, Debug)]
pub struct Query {
    pub atoms: Vec<Atom>,
    pub n_vars: usize,
    /// Display name per variable; auxiliaries are named `?0`, `?1`, and so on.
    pub names: Vec<String>,
    /// The variables that the caller wants back: the roots, then the pattern
    /// variables.
    pub head: Vec<VarId>,
    /// One root per input pattern, in order.
    pub roots: Vec<VarId>,
}

/// The atoms of a list, as values.
pub open spec fn atom_values(atoms: Seq<Atom>) -> Seq<(Sym, Seq<VarId>)> {
    atoms.map_values(|a: Atom| a@)
}

pub open spec fn texts(names: Seq<String>) -> Seq<Seq<char>> {
    names.map_values(|s: String| s@)
}

/// A query under construction.
#[verifier::ext_equal]
pub struct Draft {
    pub atoms: Seq<(Sym, Seq<VarId>)>,
    /// The name of each variable.
    pub names: Seq<Seq<char>>,
    /// Whether the variable is the pattern's own.
    pub own: Seq<bool>,
    /// How many auxiliaries there are.
    pub aux: nat,
}

pub open spec fn empty_draft() -> Draft {
    Draft { atoms: Seq::empty(), names: Seq::empty(), own: Seq::empty(), aux: 0 }
}

/// `v` is the pattern's own variable `name`.
pub open spec fn is_own(d: Draft, name: Seq<char>, v: int) -> bool {
    0 <= v < d.names.len() && d.own[v] && d.names[v] == name
}

/// The variable for a name: the one it has, or the next one.
pub open spec fn var_for(d: Draft, name: Seq<char>) -> int {
    if exists|v: int| is_own(d, name, v) {
        choose|v: int| is_own(d, name, v)
    } else {
        d.names.len() as int
    }
}

pub open spec fn with_own(d: Draft, name: Seq<char>) -> Draft {
    if exists|v: int| is_own(d, name, v) {
        d
    } else {
        Draft { names: d.names.push(name), own: d.own.push(true), ..d }
    }
}

/// The name of auxiliary number `n`.
pub open spec fn aux_name(n: nat) -> Seq<char> {
    seq!['?'] + text::decimal(n)
}

/// A fresh auxiliary variable, and a slot for its atom.
pub open spec fn with_aux(d: Draft, op: Sym) -> Draft {
    Draft {
        atoms: d.atoms.push((op, seq![d.names.len() as VarId])),
        names: d.names.push(aux_name(d.aux)),
        own: d.own.push(false),
        aux: d.aux + 1,
    }
}

/// Unnests a pattern: the variable that stands for it, and the draft with its
/// atoms, outermost first.
pub open spec fn unnest(p: Pat, d: Draft) -> (VarId, Draft)
    decreases p, 0nat,
{
    match p {
        Pat::Var(name) => (var_for(d, name@) as VarId, with_own(d, name@)),
        Pat::App(op, args) => {
            let v = d.names.len() as VarId;
            let slot = d.atoms.len() as int;
            let (vars, e) = unnest_args(args, with_aux(d, op), args@.len());
            (v, Draft { atoms: e.atoms.update(slot, (op, seq![v] + vars)), ..e })
        },
    }
}

/// Unnests the first `k` patterns of a list, one after the other.
pub open spec fn unnest_args(args: Vec<Pat>, d: Draft, k: nat) -> (Seq<VarId>, Draft)
    decreases args, k,
{
    if k == 0 || k > args@.len() {
        (Seq::empty(), d)
    } else {
        let (vars, e) = unnest_args(args, d, (k - 1) as nat);
        let (v, f) = unnest(args@[k - 1], e);
        (vars.push(v), f)
    }
}

/// Own names are distinct, atoms speak of variables that there are, and
/// auxiliary names start with a question mark.
pub open spec fn draft_ok(d: Draft) -> bool {
    &&& d.own.len() == d.names.len()
    &&& forall|i: int, j: int|
        0 <= i < j < d.names.len() && d.own[i] && d.own[j] ==> #[trigger] d.names[i]
            != #[trigger] d.names[j]
    &&& forall|i: int, k: int|
        0 <= i < d.atoms.len() && 0 <= k < d.atoms[i].1.len() ==> #[trigger] d.atoms[i].1[k]
            < d.names.len()
    &&& forall|i: int| 0 <= i < d.atoms.len() ==> (#[trigger] d.atoms[i]).1.len() > 0
    &&& forall|i: int|
        0 <= i < d.names.len() && !d.own[i] ==> (#[trigger] d.names[i]).len() > 0
            && d.names[i][0] == '?'
    &&& d.names.len() <= usize::MAX
}

/// `e` has grown out of `d`: only at the end, but for atoms that are named.
pub open spec fn grows(d: Draft, e: Draft) -> bool {
    &&& d.names.len() <= e.names.len()
    &&& d.atoms.len() <= e.atoms.len()
    &&& forall|i: int| 0 <= i < d.names.len() ==> #[trigger] e.names[i] == d.names[i]
    &&& forall|i: int| 0 <= i < d.names.len() ==> #[trigger] e.own[i] == d.own[i]
    &&& forall|i: int| 0 <= i < d.atoms.len() ==> #[trigger] e.atoms[i] == d.atoms[i]
}

pub proof fn lemma_unnest(p: Pat, d: Draft)
    requires
        draft_ok(d),
        unnest(p, d).1.names.len() <= usize::MAX,
    ensures
        draft_ok(unnest(p, d).1),
        grows(d, unnest(p, d).1),
        unnest(p, d).0 < unnest(p, d).1.names.len(),
        p is Var ==> unnest(p, d).1.own[unnest(p, d).0 as int],
        p is App ==> unnest(p, d).0 == d.names.len(),
    decreases p, 0nat,
{
    let (v, e) = unnest(p, d);
    match p {
        Pat::Var(name) => {
            if exists|v: int| is_own(d, name@, v) {
                let w = choose|v: int| is_own(d, name@, v);
                assert(is_own(d, name@, w));
            } else {
                assert forall|i: int, j: int| 0 <= i < j < e.names.len() && e.own[i] && e.own[j]
                    implies #[trigger] e.names[i]
                    != #[trigger] e.names[j] by {
                    if j == d.names.len() {
                        assert(!is_own(d, name@, i));
                    }
                }
            }
        },
        Pat::App(op, args) => {
            let d1 = with_aux(d, op);
            lemma_args_len(args, d1, args@.len());
            assert(draft_ok(d1)) by {
                assert forall|i: int, k: int| 0 <= i < d1.atoms.len() && 0 <= k < d1.atoms[i].1.len()
                    implies #[trigger] d1.atoms[i].1[k]
                    < d1.names.len() by {
                    if i < d.atoms.len() {
                        assert(d.atoms[i].1[k] < d.names.len());
                    }
                }
            }
            lemma_unnest_args(args, d1, args@.len());
            let (vars, f) = unnest_args(args, d1, args@.len());
            let slot = d.atoms.len() as int;
            assert(f.atoms[slot] == d1.atoms[slot]);
            assert forall|i: int, k: int| 0 <= i < e.atoms.len() && 0 <= k < e.atoms[i].1.len()
                implies #[trigger] e.atoms[i].1[k]
                < e.names.len() by {
                if i == slot {
                    if k > 0 {
                        assert(vars[k - 1] < f.names.len());
                    }
                } else {
                    assert(f.atoms[i].1[k] < f.names.len());
                }
            }
            assert forall|i: int| 0 <= i < e.atoms.len()
                implies (#[trigger] e.atoms[i]).1.len() > 0 by {
                if i != slot {
                    assert(f.atoms[i].1.len() > 0);
                }
            }
            assert forall|i: int| 0 <= i < d.atoms.len()
                implies #[trigger] e.atoms[i] == d.atoms[i] by {
                assert(f.atoms[i] == d1.atoms[i]);
            }
            assert forall|i: int| 0 <= i < d.names.len()
                implies #[trigger] e.names[i] == d.names[i] by {
                assert(f.names[i] == d1.names[i]);
            }
            assert forall|i: int| 0 <= i < d.names.len() implies #[trigger] e.own[i] == d.own[i] by {
                assert(f.own[i] == d1.own[i]);
            }
        },
    }
}

/// Drafts only get longer.
pub proof fn lemma_args_len(args: Vec<Pat>, d: Draft, k: nat)
    requires
        k <= args@.len(),
    ensures
        d.names.len() <= unnest_args(args, d, k).1.names.len(),
    decreases args, k,
{
    if k > 0 {
        lemma_args_len(args, d, (k - 1) as nat);
        lemma_pat_len(args@[k - 1], unnest_args(args, d, (k - 1) as nat).1);
    }
}

pub proof fn lemma_pat_len(p: Pat, d: Draft)
    ensures
        d.names.len() <= unnest(p, d).1.names.len(),
    decreases p, 0nat,
{
    match p {
        Pat::Var(name) => {},
        Pat::App(op, args) => {
            lemma_args_len(args, with_aux(d, op), args@.len());
        },
    }
}

pub proof fn lemma_unnest_args(args: Vec<Pat>, d: Draft, k: nat)
    requires
        draft_ok(d),
        k <= args@.len(),
        unnest_args(args, d, k).1.names.len() <= usize::MAX,
    ensures
        draft_ok(unnest_args(args, d, k).1),
        grows(d, unnest_args(args, d, k).1),
        unnest_args(args, d, k).0.len() == k,
        forall|i: int|
            0 <= i < k ==> #[trigger] unnest_args(args, d, k).0[i] < unnest_args(
                args,
                d,
                k,
            ).1.names.len(),
    decreases args, k,
{
    if k > 0 {
        let e = unnest_args(args, d, (k - 1) as nat).1;
        lemma_pat_len(args@[k - 1], e);
        lemma_unnest_args(args, d, (k - 1) as nat);
        lemma_unnest(args@[k - 1], e);
        let f = unnest(args@[k - 1], e).1;
        let vars = unnest_args(args, d, k).0;
        assert forall|i: int| 0 <= i < k implies #[trigger] vars[i] < f.names.len() by {
            if i < k - 1 {
                assert(unnest_args(args, d, (k - 1) as nat).0[i] < e.names.len());
            }
        }
        assert forall|i: int| 0 <= i < d.names.len() implies #[trigger] f.names[i] == d.names[i] by {
            assert(e.names[i] == d.names[i]);
        }
        assert forall|i: int| 0 <= i < d.names.len() implies #[trigger] f.own[i] == d.own[i] by {
            assert(e.own[i] == d.own[i]);
        }
        assert forall|i: int| 0 <= i < d.atoms.len() implies #[trigger] f.atoms[i] == d.atoms[i] by {
            assert(e.atoms[i] == d.atoms[i]);
        }
    }
}

/// The draft that a list of patterns makes.
pub open spec fn compiled(pats: Seq<Pat>, k: nat) -> (Seq<VarId>, Draft)
    decreases k,
{
    if k == 0 {
        (Seq::empty(), empty_draft())
    } else {
        let (vars, d) = compiled(pats, (k - 1) as nat);
        let (v, e) = unnest(pats[k - 1], d);
        (vars.push(v), e)
    }
}

/// The pattern's own variables, in order.
pub open spec fn own_vars(own: Seq<bool>, n: nat) -> Seq<VarId>
    decreases n,
{
    if n == 0 {
        Seq::empty()
    } else if own[n - 1] {
        own_vars(own, (n - 1) as nat).push((n - 1) as VarId)
    } else {
        own_vars(own, (n - 1) as nat)
    }
}

/// `q` is the query of the draft.
pub open spec fn is_query(q: &Query, roots: Seq<VarId>, d: Draft) -> bool {
    &&& atom_values(q.atoms@) == d.atoms
    &&& texts(q.names@) == d.names
    &&& q.n_vars == d.names.len()
    &&& q.roots@ == roots
    &&& q.head@ == roots + own_vars(d.own, d.own.len())
}

struct Builder {
    atoms: Vec<Atom>,
    names: Vec<String>,
    own: Vec<bool>,
    aux: usize,
}

impl Builder {
    spec fn draft(&self) -> Draft {
        Draft {
            atoms: atom_values(self.atoms@),
            names: texts(self.names@),
            own: self.own@,
            aux: self.aux as nat,
        }
    }

    spec fn ok(&self) -> bool {
        &&& self.own@.len() == self.names@.len()
        &&& self.aux <= self.names@.len()
        &&& draft_ok(self.draft())
    }

    fn named(&mut self, name: &String) -> (v: VarId)
        requires
            old(self).ok(),
        ensures
            final(self).ok(),
            v == var_for(old(self).draft(), name@),
            final(self).draft() == with_own(old(self).draft(), name@),
            final(self).aux == old(self).aux,
    {
        let ghost d = self.draft();
        for v in 0..self.names.len()
            invariant
                *self == *old(self),
                self.ok(),
                d == self.draft(),
                forall|w: int| 0 <= w < v ==> !#[trigger] is_own(d, name@, w),
        {
            assert(d.names[v as int] == self.names@[v as int]@);
            if self.own[v] && self.names[v] == *name {
                proof {
                    assert(is_own(d, name@, v as int));
                    let w = choose|w: int| is_own(d, name@, w);
                    if w < v {
                        assert(d.names[w] != d.names[v as int]);
                    } else if v < w {
                        assert(d.names[v as int] != d.names[w]);
                    }
                }
                return v;
            }
        }
        let v = self.names.len();
        proof {
            assert forall|w: int| !is_own(d, name@, w) by {}
        }
        self.names.push(name.clone());
        self.own.push(true);
        let ghost size = self.names.len();
        proof {
            assert(self.draft() =~= with_own(d, name@)) by {
                assert(texts(self.names@) =~= d.names.push(name@));
            }
            lemma_unnest_own(d, name@);
        }
        v
    }

    fn fresh(&mut self, op: Sym) -> (v: VarId)
        requires
            old(self).ok(),
        ensures
            final(self).ok(),
            v == old(self).names@.len(),
            final(self).draft() == with_aux(old(self).draft(), op),
    {
        let ghost d = self.draft();
        let v = self.names.len();
        let mut name = "?".to_owned();
        let digits = text::decimal_of(self.aux);
        name.append(digits.as_str());
        proof {
            reveal_strlit("?");
            assert(name@ =~= aux_name(self.aux as nat));
        }
        self.names.push(name);
        self.own.push(false);
        let size = self.names.len();
        assert(self.aux < size);
        self.aux = self.aux + 1;
        let mut vars: Vec<VarId> = Vec::new();
        vars.push(v);
        let atom = Atom { rel: op, vars };
        let ghost av = atom@;
        self.atoms.push(atom);
        proof {
            assert(av.1 =~= seq![v]);
            assert(texts(self.names@) =~= d.names.push(aux_name(d.aux)));
            assert(atom_values(self.atoms@) =~= d.atoms.push((op, seq![v])));
            assert(self.draft() =~= with_aux(d, op));
            lemma_with_aux_ok(d, op);
        }
        v
    }

    /// The variable that stands for a pattern, its atoms added on the way.
    fn aux_of(&mut self, p: &Pat) -> (v: VarId)
        requires
            old(self).ok(),
        ensures
            final(self).ok(),
            (v, final(self).draft()) == unnest(*p, old(self).draft()),
        decreases p,
    {
        let ghost d = self.draft();
        match p {
            Pat::Var(name) => self.named(name),
            Pat::App(op, args) => {
                let slot = self.atoms.len();
                let v = self.fresh(*op);
                let ghost d1 = self.draft();
                let mut vars: Vec<VarId> = Vec::new();
                vars.push(v);
                for i in 0..args.len()
                    invariant
                        self.ok(),
                        draft_ok(d1),
                        *p == Pat::App(*op, *args),
                        d1 == with_aux(d, *op),
                        slot == d.atoms.len(),
                        vars@ == seq![v] + unnest_args(*args, d1, i as nat).0,
                        self.draft() == unnest_args(*args, d1, i as nat).1,
                {
                    proof {
                        assert(decreases_to!(*p => p->App_1));
                        assert(decreases_to!(*args => args[i as int]));
                        assert(decreases_to!(*p => args[i as int]));
                    }
                    let w = self.aux_of(&args[i]);
                    vars.push(w);
                    assert(vars@ =~= seq![v] + unnest_args(*args, d1, (i + 1) as nat).0);
                }
                proof {
                    lemma_unnest_args(*args, d1, args@.len());
                }
                let ghost f = self.draft();
                let ghost before = self.atoms@;
                assert(atom_values(before).len() == before.len());
                let atom = Atom { rel: *op, vars };
                let ghost av = atom@;
                self.atoms.set(slot, atom);
                proof {
                    assert(atom_values(self.atoms@) =~= f.atoms.update(slot as int, av));
                    assert(self.draft() =~= unnest(*p, d).1);
                    lemma_unnest(*p, d);
                }
                v
            },
        }
    }
}

proof fn lemma_unnest_own(d: Draft, name: Seq<char>)
    requires
        draft_ok(d),
        with_own(d, name).names.len() <= usize::MAX,
    ensures
        draft_ok(with_own(d, name)),
{
    let e = with_own(d, name);
    if !(exists|v: int| is_own(d, name, v)) {
        assert forall|i: int, j: int| 0 <= i < j < e.names.len() && e.own[i] && e.own[j]
            implies #[trigger] e.names[i]
            != #[trigger] e.names[j] by {
            if j == d.names.len() {
                assert(!is_own(d, name, i));
            }
        }
    }
}

pub proof fn lemma_with_aux_ok(d: Draft, op: Sym)
    requires
        draft_ok(d),
        d.names.len() < usize::MAX,
    ensures
        draft_ok(with_aux(d, op)),
{
    let e = with_aux(d, op);
    assert forall|i: int, k: int| 0 <= i < e.atoms.len() && 0 <= k < e.atoms[i].1.len()
        implies #[trigger] e.atoms[i].1[k]
        < e.names.len() by {
        if i < d.atoms.len() {
            assert(d.atoms[i].1[k] < d.names.len());
        }
    }
}

/// Compiles one or more patterns into a single conjunctive query. Several
/// patterns that share variables are just more atoms in the same body.
pub fn compile(pats: &[Pat]) -> (q: Query)
    ensures
        is_query(&q, compiled(pats@, pats@.len()).0, compiled(pats@, pats@.len()).1),
        draft_ok(compiled(pats@, pats@.len()).1),
        q.in_range(),
        q.roots@.len() == pats@.len(),
        forall|i: int| 0 <= i < q.roots@.len() ==> #[trigger] q.roots@[i] < q.n_vars,
        forall|i: int| 0 <= i < q.atoms@.len() ==> (#[trigger] q.atoms@[i]).vars@.len() > 0,
        forall|i: int| 0 <= i < pats@.len() ==> known(#[trigger] pats@[i], texts(q.names@)),
{
    let mut b = Builder { atoms: Vec::new(), names: Vec::new(), own: Vec::new(), aux: 0 };
    assert(b.draft() =~= empty_draft());
    let mut roots: Vec<VarId> = Vec::new();
    for i in 0..pats.len()
        invariant
            b.ok(),
            (roots@, b.draft()) == compiled(pats@, i as nat),
            roots@.len() == i,
            forall|j: int| 0 <= j < i ==> #[trigger] roots@[j] < b.names@.len(),
            forall|j: int| 0 <= j < i ==> known(#[trigger] pats@[j], b.draft().names),
    {
        let ghost d = b.draft();
        let v = b.aux_of(&pats[i]);
        proof {
            lemma_unnest(pats@[i as int], d);
            lemma_known(pats@[i as int], d);
            assert forall|j: int| 0 <= j < i implies known(#[trigger] pats@[j], b.draft().names) by {
                lemma_known_more(pats@[j], d.names, b.draft().names);
            }
        }
        roots.push(v);
    }
    let mut head: Vec<VarId> = Vec::new();
    for i in 0..roots.len()
        invariant
            head@ == roots@.take(i as int),
    {
        head.push(roots[i]);
        assert(head@ =~= roots@.take(i + 1));
    }
    assert(head@ =~= roots@ + own_vars(b.own@, 0));
    for v in 0..b.own.len()
        invariant
            head@ == roots@ + own_vars(b.own@, v as nat),
    {
        if b.own[v] {
            head.push(v);
        }
        assert(head@ =~= roots@ + own_vars(b.own@, (v + 1) as nat));
    }
    let n_vars = b.names.len();
    proof {
        lemma_own_vars_below(b.own@, b.own@.len());
        assert forall|i: int| 0 <= i < head@.len() implies #[trigger] head@[i] < n_vars by {
            if i >= roots@.len() {
                assert(head@[i] == own_vars(b.own@, b.own@.len())[i - roots@.len()]);
            }
        }
        assert forall|i: int| 0 <= i < b.atoms@.len() implies (#[trigger] b.atoms@[i]).vars@.len() > 0
            && forall|k: int|
            0 <= k < b.atoms@[i].vars@.len() ==> #[trigger] b.atoms@[i].vars@[k] < n_vars by {
            assert(b.draft().atoms[i] == b.atoms@[i]@);
            assert forall|k: int| 0 <= k < b.atoms@[i].vars@.len()
                implies #[trigger] b.atoms@[i].vars@[k]
                < n_vars by {
                assert(b.draft().atoms[i].1[k] == b.atoms@[i].vars@[k]);
            }
        }
    }
    Query { n_vars, atoms: b.atoms, names: b.names, head, roots }
}

/// A pattern stays known when names are added.
proof fn lemma_known_more(p: Pat, a: Seq<Seq<char>>, b: Seq<Seq<char>>)
    requires
        known(p, a),
        a.len() <= b.len(),
        forall|i: int| 0 <= i < a.len() ==> #[trigger] b[i] == a[i],
    ensures
        known(p, b),
    decreases p,
{
    match p {
        Pat::Var(name) => {
            let i = choose|i: int| 0 <= i < a.len() && a[i] == name@;
            assert(b[i] == name@);
        },
        Pat::App(op, args) => {
            assert forall|i: int| 0 <= i < args@.len() implies known(#[trigger] args@[i], b) by {
                assert(decreases_to!(args => args[i]));
                lemma_known_more(args@[i], a, b);
            }
        },
    }
}

/// Unnesting a pattern names its variables.
proof fn lemma_known(p: Pat, d: Draft)
    requires
        draft_ok(d),
        unnest(p, d).1.names.len() <= usize::MAX,
    ensures
        known(p, unnest(p, d).1.names),
    decreases p, 0nat,
{
    match p {
        Pat::Var(name) => {
            let e = with_own(d, name@);
            if exists|v: int| is_own(d, name@, v) {
                let w = choose|v: int| is_own(d, name@, v);
                assert(is_own(d, name@, w));
                assert(e.names[w] == name@);
            } else {
                assert(e.names[d.names.len() as int] == name@);
            }
        },
        Pat::App(op, args) => {
            let d1 = with_aux(d, op);
            lemma_args_len(args, d1, args@.len());
            lemma_with_aux_ok(d, op);
            lemma_known_args(args, d1, args@.len());
        },
    }
}

proof fn lemma_known_args(args: Vec<Pat>, d: Draft, k: nat)
    requires
        draft_ok(d),
        k <= args@.len(),
        unnest_args(args, d, k).1.names.len() <= usize::MAX,
    ensures
        forall|i: int| 0 <= i < k ==> known(#[trigger] args@[i], unnest_args(args, d, k).1.names),
    decreases args, k,
{
    if k > 0 {
        let e = unnest_args(args, d, (k - 1) as nat).1;
        let f = unnest_args(args, d, k).1;
        lemma_pat_len(args@[k - 1], e);
        lemma_known_args(args, d, (k - 1) as nat);
        lemma_unnest_args(args, d, (k - 1) as nat);
        lemma_unnest(args@[k - 1], e);
        lemma_known(args@[k - 1], e);
        assert forall|i: int| 0 <= i < k implies known(#[trigger] args@[i], f.names) by {
            if i < k - 1 {
                lemma_known_more(args@[i], e.names, f.names);
            }
        }
    }
}

/// Own variables are variables.
proof fn lemma_own_vars_below(own: Seq<bool>, n: nat)
    requires
        n <= own.len() <= usize::MAX,
    ensures
        forall|i: int| 0 <= i < own_vars(own, n).len() ==> #[trigger] own_vars(own, n)[i] < n,
    decreases n,
{
    if n > 0 {
        lemma_own_vars_below(own, (n - 1) as nat);
        let before = own_vars(own, (n - 1) as nat);
        let now = own_vars(own, n);
        assert forall|i: int| 0 <= i < now.len() implies #[trigger] now[i] < n by {
            if i < before.len() {
                assert(before[i] < n - 1);
            }
        }
    }
}

/// The names of some variables.
pub open spec fn names_of(q: &Query, vars: Seq<VarId>) -> Seq<Seq<char>> {
    Seq::new(vars.len(), |i: int| q.names@[vars[i] as int]@)
}

/// An atom in text: `R_f(x, y)`.
pub open spec fn atom_text(q: &Query, a: Atom, rel_name: Seq<char>) -> Seq<char> {
    "R_"@ + rel_name + "("@ + text::join(names_of(q, a.vars@), ", "@) + ")"@
}

/// The query in text: `Q(x) <- R_f(x, y), R_g(y, x)`.
pub open spec fn query_text(q: &Query, rel_names: Seq<String>) -> Seq<char> {
    "Q("@ + text::join(names_of(q, q.head@), ", "@) + ") <- "@ + text::join(
        Seq::new(q.atoms@.len(), |i: int| atom_text(q, q.atoms@[i], rel_names[i]@)),
        ", "@,
    )
}

impl Query {
    /// Every variable that the query speaks of has a name.
    pub open spec fn in_range(&self) -> bool {
        &&& self.n_vars == self.names@.len()
        &&& forall|i: int| 0 <= i < self.head@.len() ==> #[trigger] self.head@[i] < self.n_vars
        &&& forall|i: int, k: int|
            0 <= i < self.atoms@.len() && 0 <= k < self.atoms@[i].vars@.len()
                ==> #[trigger] self.atoms@[i].vars@[k] < self.n_vars
    }

    fn pick_names(&self, vars: &Vec<VarId>) -> (r: Vec<String>)
        requires
            forall|i: int| 0 <= i < vars@.len() ==> #[trigger] vars@[i] < self.names@.len(),
        ensures
            text::chars(r@) == names_of(self, vars@),
    {
        let mut r: Vec<String> = Vec::new();
        for i in 0..vars.len()
            invariant
                forall|i: int| 0 <= i < vars@.len() ==> #[trigger] vars@[i] < self.names@.len(),
                r@.len() == i,
                forall|j: int| 0 <= j < i ==> (#[trigger] r@[j])@ == self.names@[vars@[j] as int]@,
        {
            r.push(self.names[vars[i]].clone());
        }
        assert(text::chars(r@) =~= names_of(self, vars@));
        r
    }

    /// The query in the usual notation, with the caller's names for symbols.
    pub fn render<F: Fn(Sym) -> String>(&self, name_of: &F) -> (s: String)
        requires
            self.in_range(),
            forall|i: int|
                0 <= i < self.atoms@.len() ==> call_requires(
                    *name_of,
                    ((#[trigger] self.atoms@[i]).rel,),
                ),
        ensures
            exists|rel_names: Seq<String>|
                rel_names.len() == self.atoms@.len() && (forall|i: int|
                    0 <= i < self.atoms@.len() ==> call_ensures(
                        *name_of,
                        (self.atoms@[i].rel,),
                        #[trigger] rel_names[i],
                    )) && s@ == #[trigger] query_text(self, rel_names),
    {
        let mut body: Vec<String> = Vec::new();
        let ghost mut rel_names: Seq<String> = Seq::empty();
        for i in 0..self.atoms.len()
            invariant
                self.in_range(),
                forall|i: int|
                    0 <= i < self.atoms@.len() ==> call_requires(
                        *name_of,
                        ((#[trigger] self.atoms@[i]).rel,),
                    ),
                body@.len() == i,
                rel_names.len() == i,
                forall|j: int|
                    0 <= j < i ==> call_ensures(
                        *name_of,
                        (self.atoms@[j].rel,),
                        #[trigger] rel_names[j],
                    ),
                forall|j: int|
                    0 <= j < i ==> (#[trigger] body@[j])@ == atom_text(
                        self,
                        self.atoms@[j],
                        rel_names[j]@,
                    ),
        {
            let a = &self.atoms[i];
            assert(self.atoms@[i as int].rel == a.rel);
            let rel = name_of(a.rel);
            proof {
                rel_names = rel_names.push(rel);
                assert forall|k: int| 0 <= k < a.vars@.len()
                    implies #[trigger] a.vars@[k] < self.names@.len() by {
                    assert(self.atoms@[i as int].vars@[k] < self.n_vars);
                }
            }
            let vs = self.pick_names(&a.vars);
            let mut t = "R_".to_owned();
            t.append(rel.as_str());
            t.append("(");
            t.append(text::join_texts(&vs, ", ").as_str());
            t.append(")");
            assert(t@ =~= atom_text(self, self.atoms@[i as int], rel@));
            body.push(t);
        }
        let head = self.pick_names(&self.head);
        let mut s = "Q(".to_owned();
        s.append(text::join_texts(&head, ", ").as_str());
        s.append(") <- ");
        s.append(text::join_texts(&body, ", ").as_str());
        proof {
            assert(text::chars(body@) =~= Seq::new(
                self.atoms@.len(),
                |i: int| atom_text(self, self.atoms@[i], rel_names[i]@),
            ));
            assert(s@ =~= query_text(self, rel_names));
        }
        s
    }

    /// The atoms that `v` occurs in, in order.
    pub fn atoms_with(&self, v: VarId) -> (r: Vec<usize>)
        ensures
            forall|i: int, j: int| 0 <= i < j < r@.len() ==> #[trigger] r@[i] < #[trigger] r@[j],
            forall|i: usize| #[trigger]
                r@.contains(i) <==> i < self.atoms@.len() && self.atoms@[i as int].vars@.contains(v),
    {
        let mut r: Vec<usize> = Vec::new();
        for i in 0..self.atoms.len()
            invariant
                forall|i: int, j: int| 0 <= i < j < r@.len() ==> #[trigger] r@[i] < #[trigger] r@[j],
                forall|j: int| 0 <= j < r@.len() ==> #[trigger] r@[j] < i,
                forall|x: usize| #[trigger]
                    r@.contains(x) <==> x < i && self.atoms@[x as int].vars@.contains(v),
        {
            let found = holds_var(&self.atoms[i].vars, v);
            let ghost r0 = r@;
            if found {
                r.push(i);
            }
            proof {
                assert forall|x: usize| #[trigger] r@.contains(x) <==> x < i + 1 && self.atoms@[x as int].vars@.contains(v) by {
                    crate::graph::lemma_push_contains(r0, i, x);
                    assert(r0.contains(x) <==> x < i && self.atoms@[x as int].vars@.contains(v));
                }
            }
        }
        r
    }
}

/// Whether `v` is among the variables.
pub fn holds_var(vars: &[VarId], v: VarId) -> (found: bool)
    ensures
        found == vars@.contains(v),
{
    for i in 0..vars.len()
        invariant
            forall|j: int| 0 <= j < i ==> #[trigger] vars@[j] != v,
    {
        if vars[i] == v {
            return true;
        }
    }
    false
}

/// A pattern whose variables are numbered against a query, so that both
/// matchers report substitutions in the same variable space.
#[derive(Debug)]
pub enum PatV {
    Var(VarId),
    App(Sym, Vec<PatV>),
}

/// The two numbered patterns read alike.
pub open spec fn same_numbered(a: PatV, b: PatV) -> bool
    decreases a,
{
    match (a, b) {
        (PatV::Var(x), PatV::Var(y)) => x == y,
        (PatV::App(f, xs), PatV::App(g, ys)) => {
            &&& f == g
            &&& xs@.len() == ys@.len()
            &&& forall|i: int| 0 <= i < xs@.len() ==> same_numbered(#[trigger] xs@[i], ys@[i])
        },
        _ => false,
    }
}

fn copy_numbered(p: &PatV) -> (r: PatV)
    ensures
        same_numbered(*p, r),
    decreases p,
{
    match p {
        PatV::Var(v) => PatV::Var(*v),
        PatV::App(op, args) => {
            let mut out: Vec<PatV> = Vec::new();
            for i in 0..args.len()
                invariant
                    *p == PatV::App(*op, *args),
                    out@.len() == i,
                    forall|j: int| 0 <= j < i ==> same_numbered(#[trigger] args@[j], out@[j]),
            {
                proof {
                    assert(decreases_to!(*p => p->App_1));
                    assert(decreases_to!(*args => args[i as int]));
                    assert(decreases_to!(*p => args[i as int]));
                }
                let x = copy_numbered(&args[i]);
                out.push(x);
            }
            PatV::App(*op, out)
        },
    }
}

impl Clone for PatV {
    fn clone(&self) -> (r: PatV)
        ensures
            same_numbered(*self, r),
    {
        copy_numbered(self)
    }
}

/// `i` is the first place of `name`.
pub open spec fn first_place(names: Seq<Seq<char>>, name: Seq<char>, i: int) -> bool {
    &&& 0 <= i < names.len()
    &&& names[i] == name
    &&& forall|j: int| 0 <= j < i ==> #[trigger] names[j] != name
}

/// Every variable of the pattern has a name of the query.
pub open spec fn known(p: Pat, names: Seq<Seq<char>>) -> bool
    decreases p,
{
    match p {
        Pat::Var(name) => names.contains(name@),
        Pat::App(op, args) => forall|i: int|
            0 <= i < args@.len() ==> known(#[trigger] args@[i], names),
    }
}

/// `pv` is `p` with each variable replaced by the first place of its name.
pub open spec fn numbered(p: Pat, pv: PatV, names: Seq<Seq<char>>) -> bool
    decreases p,
{
    match (p, pv) {
        (Pat::Var(name), PatV::Var(v)) => first_place(names, name@, v as int),
        (Pat::App(op, args), PatV::App(op2, args2)) => {
            &&& op == op2
            &&& args@.len() == args2@.len()
            &&& forall|i: int|
                0 <= i < args@.len() ==> numbered(#[trigger] args@[i], args2@[i], names)
        },
        _ => false,
    }
}

/// Numbers the variables of a pattern.
pub fn number(p: &Pat, q: &Query) -> (pv: PatV)
    requires
        known(*p, texts(q.names@)),
    ensures
        numbered(*p, pv, texts(q.names@)),
    decreases p,
{
    match p {
        Pat::Var(name) => {
            let ghost names = texts(q.names@);
            let mut v: usize = 0;
            assert(exists|i: int| 0 <= i < names.len() && names[i] == name@);
            let ghost at = choose|i: int| 0 <= i < names.len() && names[i] == name@;
            let len = q.names.len();
            while q.names[v] != *name
                invariant
                    len == q.names@.len(),
                    names == texts(q.names@),
                    0 <= at < names.len(),
                    names[at] == name@,
                    v <= at,
                    forall|j: int| 0 <= j < v ==> #[trigger] names[j] != name@,
                decreases at - v,
            {
                assert(names[v as int] == q.names@[v as int]@);
                v += 1;
            }
            assert(names[v as int] == q.names@[v as int]@);
            PatV::Var(v)
        },
        Pat::App(op, args) => {
            let mut out: Vec<PatV> = Vec::new();
            for i in 0..args.len()
                invariant
                    *p == Pat::App(*op, *args),
                    known(*p, texts(q.names@)),
                    out@.len() == i,
                    forall|j: int|
                        0 <= j < i ==> numbered(#[trigger] args@[j], out@[j], texts(q.names@)),
            {
                proof {
                    assert(decreases_to!(*p => p->App_1));
                    assert(decreases_to!(*args => args[i as int]));
                    assert(decreases_to!(*p => args[i as int]));
                    assert(known(args@[i as int], texts(q.names@)));
                }
                let x = number(&args[i], q);
                out.push(x);
            }
            PatV::App(*op, out)
        },
    }
}

} // verus!
