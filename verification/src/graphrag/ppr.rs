//! Personalized PageRank: association as arithmetic.
//!
//! A walk over the graph that restarts at the seeds spreads a fixed mass over
//! the nodes. Mass that flows out of one seed and mass that flows out of
//! another add up at the one candidate that is connected to both, so that a
//! question over several hops is answered in a single pass.

use crate::graphrag::kg;
use crate::graphrag::kg::{Instance, Kg, Passage};
use crate::math;
use vstd::prelude::*;

verus! {

/// All the mass there is; a node has its part of it.
pub const MASS: u64 = 0x1000_0000_0000_0000;

/// How often a node is among the first `n` seeds.
pub open spec fn times(seeds: Seq<usize>, u: int, n: nat) -> int
    decreases n,
{
    if n == 0 {
        0
    } else {
        times(seeds, u, (n - 1) as nat) + if seeds[n - 1] == u {
            1int
        } else {
            0
        }
    }
}

/// A pool of mass, shared out evenly over the seeds. What does not divide is
/// left over until the next time.
pub open spec fn restart(seeds: Seq<usize>, pool: int) -> spec_fn(int) -> int {
    |u: int| (pool / seeds.len() as int) * times(seeds, u, seeds.len())
}

/// The chance to go on walking, as a fraction.
pub ghost struct Damping {
    pub num: int,
    pub den: int,
}

impl Damping {
    pub open spec fn valid(self) -> bool {
        0 <= self.num <= self.den && 0 < self.den
    }
}

/// What a node passes on to each of its neighbours.
pub open spec fn share(kg: &Kg, d: Damping, pi: Seq<u64>) -> spec_fn(int) -> int {
    |v: int|
        if kg.adj@[v]@.len() == 0 {
            0
        } else {
            (pi[v] * d.num / d.den) / kg.adj@[v]@.len() as int
        }
}

/// What a node passes on in all.
pub open spec fn sent(kg: &Kg, d: Damping, pi: Seq<u64>) -> spec_fn(int) -> int {
    |v: int| kg.adj@[v]@.len() * share(kg, d, pi)(v)
}

/// What a node gets from its neighbours.
pub open spec fn inflow(kg: &Kg, d: Damping, pi: Seq<u64>) -> spec_fn(int) -> int {
    |u: int| math::sum_over(kg.adj@[u]@, share(kg, d, pi))
}

pub open spec fn mass_at(pi: Seq<u64>) -> spec_fn(int) -> int {
    |v: int| pi[v] as int
}

/// What is not passed on goes back to the seeds.
pub open spec fn pool(kg: &Kg, d: Damping, pi: Seq<u64>) -> int {
    MASS - math::sum(pi.len(), sent(kg, d, pi))
}

/// What a node has after one more iteration.
pub open spec fn arrived(kg: &Kg, seeds: Seq<usize>, d: Damping, pi: Seq<u64>) -> spec_fn(
    int,
) -> int {
    |u: int| inflow(kg, d, pi)(u) + restart(seeds, pool(kg, d, pi))(u)
}

/// The masses after `k` iterations from the restart.
pub open spec fn iterated(kg: &Kg, seeds: Seq<usize>, d: Damping, k: nat) -> Seq<u64>
    decreases k,
{
    if k == 0 {
        Seq::new(kg.n_nodes as nat, |u: int| restart(seeds, MASS as int)(u) as u64)
    } else {
        let pi = iterated(kg, seeds, d, (k - 1) as nat);
        Seq::new(kg.n_nodes as nat, |u: int| arrived(kg, seeds, d, pi)(u) as u64)
    }
}

/// There are seeds, and they are nodes.
pub open spec fn seeds_fit(kg: &Kg, seeds: Seq<usize>) -> bool {
    &&& seeds.len() > 0
    &&& forall|i: int| 0 <= i < seeds.len() ==> #[trigger] seeds[i] < kg.n_nodes
}

/// A part of a sum of nonnegative terms is at most the sum.
proof fn lemma_term(n: nat, f: spec_fn(int) -> int, u: int)
    requires
        0 <= u < n,
        forall|i: int| 0 <= i < n ==> 0 <= #[trigger] f(i),
    ensures
        0 <= f(u) <= math::sum(n, f),
    decreases n,
{
    let zero = |i: int| 0int;
    math::lemma_sum_single((n - 1) as nat, zero, -1, 0);
    math::lemma_sum_le((n - 1) as nat, zero, f);
    if u < n - 1 {
        lemma_term((n - 1) as nat, f, u);
        assert(0 <= f(n - 1));
    }
}

spec fn times_of(seeds: Seq<usize>, k: nat) -> spec_fn(int) -> int {
    |u: int| times(seeds, u, k)
}

/// Every seed is one node.
proof fn lemma_times_total(seeds: Seq<usize>, n: nat, k: nat)
    requires
        k <= seeds.len(),
        forall|i: int| 0 <= i < seeds.len() ==> #[trigger] seeds[i] < n,
    ensures
        math::sum(n, times_of(seeds, k)) == k,
        forall|u: int| 0 <= #[trigger] times(seeds, u, k) <= k,
    decreases k,
{
    let now = times_of(seeds, k);
    if k == 0 {
        math::lemma_sum_single(n, now, -1, 0);
    } else {
        lemma_times_total(seeds, n, (k - 1) as nat);
        let before = times_of(seeds, (k - 1) as nat);
        let one = |u: int|
            if u == seeds[k - 1] {
                1int
            } else {
                0
            };
        math::lemma_sum_add(n, before, one, now);
        math::lemma_sum_single(n, one, seeds[k - 1] as int, 1);
        assert forall|u: int| 0 <= #[trigger] times(seeds, u, k) <= k by {
            assert(0 <= times(seeds, u, (k - 1) as nat) <= k - 1);
        }
    }
}

spec fn scaled(f: spec_fn(int) -> int, x: int) -> spec_fn(int) -> int {
    |u: int| x * f(u)
}

proof fn lemma_sum_scaled(n: nat, f: spec_fn(int) -> int, x: int)
    ensures
        math::sum(n, scaled(f, x)) == x * math::sum(n, f),
    decreases n,
{
    if n > 0 {
        lemma_sum_scaled((n - 1) as nat, f, x);
        let s = math::sum((n - 1) as nat, f);
        let t = f(n - 1);
        assert(x * s + x * t == x * (s + t)) by (nonlinear_arith);
    } else {
        assert(x * 0 == 0) by (nonlinear_arith);
    }
}

/// The seeds share out the pool, but for what does not divide.
proof fn lemma_restart_total(seeds: Seq<usize>, n: nat, pool: int)
    requires
        seeds.len() > 0,
        pool >= 0,
        forall|i: int| 0 <= i < seeds.len() ==> #[trigger] seeds[i] < n,
    ensures
        math::sum(n, restart(seeds, pool)) == pool - pool % seeds.len() as int,
        0 <= pool % (seeds.len() as int) < seeds.len(),
        forall|u: int| 0 <= #[trigger] restart(seeds, pool)(u),
{
    let len = seeds.len() as int;
    let each = pool / len;
    let counts = times_of(seeds, seeds.len());
    let even = scaled(counts, each);
    lemma_times_total(seeds, n, seeds.len());
    lemma_sum_scaled(n, counts, each);
    math::lemma_sum_same(n, even, restart(seeds, pool));
    vstd::arithmetic::div_mod::lemma_mod_bound(pool, len);
    vstd::arithmetic::div_mod::lemma_fundamental_div_mod(pool, len);
    assert(each * len == len * each) by (nonlinear_arith);
    vstd::arithmetic::div_mod::lemma_div_pos_is_pos(pool, len);
    assert forall|u: int| 0 <= #[trigger] restart(seeds, pool)(u) by {
        let t = times(seeds, u, seeds.len());
        assert(0 <= each * t) by (nonlinear_arith)
            requires
                0 <= each,
                0 <= t,
        ;
    }
}

spec fn pulled(passages: Seq<Passage>, f: spec_fn(int) -> int, k: nat) -> spec_fn(int) -> int {
    |u: int| math::sum_over(kg::neighbours(passages, u, k), f)
}

spec fn pushed(passages: Seq<Passage>, f: spec_fn(int) -> int, k: nat) -> spec_fn(int) -> int {
    |u: int| kg::neighbours(passages, u, k).len() * f(u)
}

spec fn only_at(x: usize, y: int) -> spec_fn(int) -> int {
    |u: int|
        if u == x {
            y
        } else {
            0
        }
}

spec fn either(a: spec_fn(int) -> int, b: spec_fn(int) -> int) -> spec_fn(int) -> int {
    |u: int| a(u) + b(u)
}

proof fn lemma_sum_push(s: Seq<usize>, x: usize, f: spec_fn(int) -> int)
    ensures
        math::sum_over(s.push(x), f) == math::sum_over(s, f) + f(x as int),
{
    assert(s.push(x).drop_last() =~= s);
}

/// A part of a list of nonnegative terms adds up to at most all of it.
proof fn lemma_sum_take(s: Seq<usize>, f: spec_fn(int) -> int, k: int)
    requires
        0 <= k <= s.len(),
        forall|i: int| 0 <= i < s.len() ==> 0 <= f(#[trigger] s[i] as int),
    ensures
        math::sum_over(s.take(k), f) <= math::sum_over(s, f),
    decreases s.len(),
{
    if k == s.len() {
        assert(s.take(k) =~= s);
    } else {
        let t = s.drop_last();
        assert forall|i: int| 0 <= i < t.len() implies 0 <= f(#[trigger] t[i] as int) by {
            assert(t[i] == s[i]);
        }
        lemma_sum_take(t, f, k);
        assert(t.take(k) =~= s.take(k));
        assert(0 <= f(s[s.len() - 1] as int));
    }
}

/// What the neighbours pass on is what the nodes get.
proof fn lemma_flow(passages: Seq<Passage>, f: spec_fn(int) -> int, n: nat, k: nat)
    requires
        k <= passages.len(),
        forall|i: int|
            0 <= i < passages.len() ==> (#[trigger] passages[i]).src < n && passages[i].dst < n,
    ensures
        math::sum(n, pulled(passages, f, k)) == math::sum(n, pushed(passages, f, k)),
    decreases k,
{
    let a = pulled(passages, f, k);
    let b = pushed(passages, f, k);
    if k == 0 {
        assert forall|u: int| 0 <= u < n implies #[trigger] b(u) == 0 by {
            assert(0 * f(u) == 0) by (nonlinear_arith);
        }
        math::lemma_sum_single(n, a, -1, 0);
        math::lemma_sum_single(n, b, -1, 0);
    } else {
        lemma_flow(passages, f, n, (k - 1) as nat);
        let p = passages[k - 1];
        let a0 = pulled(passages, f, (k - 1) as nat);
        let b0 = pushed(passages, f, (k - 1) as nat);
        let (x, y) = (f(p.src as int), f(p.dst as int));
        let (ax, ay) = (only_at(p.src, y), only_at(p.dst, x));
        let (bx, by) = (only_at(p.src, x), only_at(p.dst, y));
        assert forall|u: int| 0 <= u < n implies #[trigger] a(u) == a0(u) + either(ax, ay)(u)
            && b(u) == b0(u) + either(bx, by)(u) by {
            let l0 = kg::neighbours(passages, u, (k - 1) as nat);
            let one = if p.src == u {
                l0.push(p.dst)
            } else {
                l0
            };
            let l1 = kg::neighbours(passages, u, k);
            lemma_sum_push(l0, p.dst, f);
            lemma_sum_push(one, p.src, f);
            assert(l1 == if p.dst == u {
                one.push(p.src)
            } else {
                one
            });
            assert(a(u) == math::sum_over(l1, f));
            assert(b(u) == l1.len() * f(u));
            let w = f(u);
            let m = l0.len() as int;
            assert((m + 1) * w == m * w + w && (m + 2) * w == m * w + w + w) by (nonlinear_arith);
        }
        assert forall|u: int| 0 <= u < n implies #[trigger] b(u) == b0(u) + either(bx, by)(u) by {
            assert(a(u) == a0(u) + either(ax, ay)(u));
        }
        math::lemma_sum_add(n, a0, either(ax, ay), a);
        math::lemma_sum_add(n, b0, either(bx, by), b);
        math::lemma_sum_add(n, ax, ay, either(ax, ay));
        math::lemma_sum_add(n, bx, by, either(bx, by));
        math::lemma_sum_single(n, ax, p.src as int, y);
        math::lemma_sum_single(n, ay, p.dst as int, x);
        math::lemma_sum_single(n, bx, p.src as int, x);
        math::lemma_sum_single(n, by, p.dst as int, y);
    }
}

/// No node passes on more than it has.
proof fn lemma_sent(kg: &Kg, d: Damping, pi: Seq<u64>, v: int)
    requires
        d.valid(),
        0 <= v < pi.len(),
    ensures
        0 <= share(kg, d, pi)(v),
        share(kg, d, pi)(v) <= pi[v],
        0 <= sent(kg, d, pi)(v) <= pi[v],
{
    let x = pi[v] as int;
    let len = kg.adj@[v]@.len() as int;
    let (num, den) = (d.num, d.den);
    let kept = x * num / den;
    assert(0 <= x * num <= den * x) by (nonlinear_arith)
        requires
            0 <= x,
            0 <= num <= den,
    ;
    vstd::arithmetic::div_mod::lemma_div_is_ordered(x * num, den * x, den);
    vstd::arithmetic::div_mod::lemma_div_multiples_vanish(x, den);
    vstd::arithmetic::div_mod::lemma_div_pos_is_pos(x * num, den);
    assert(0 <= kept <= x);
    if len > 0 {
        vstd::arithmetic::div_mod::lemma_fundamental_div_mod(kept, len);
        vstd::arithmetic::div_mod::lemma_div_pos_is_pos(kept, len);
        let s = kept / len;
        assert(s <= len * s) by (nonlinear_arith)
            requires
                1 <= len,
                0 <= s,
        ;
    } else {
        assert(0 * 0int == 0);
    }
}

proof fn lemma_sum_over_nonnegative(s: Seq<usize>, f: spec_fn(int) -> int)
    requires
        forall|i: int| 0 <= i < s.len() ==> 0 <= f(#[trigger] s[i] as int),
    ensures
        0 <= math::sum_over(s, f),
    decreases s.len(),
{
    if s.len() > 0 {
        assert(0 <= f(s[s.len() - 1] as int));
        assert forall|i: int| 0 <= i < s.drop_last().len() implies 0 <= f(
            #[trigger] s.drop_last()[i] as int,
        ) by {
            assert(s.drop_last()[i] == s[i]);
        }
        lemma_sum_over_nonnegative(s.drop_last(), f);
    }
}

/// The neighbours of a node are nodes.
proof fn lemma_neighbours_below(passages: Seq<Passage>, v: int, k: nat, n: int)
    requires
        k <= passages.len(),
        forall|i: int|
            0 <= i < passages.len() ==> (#[trigger] passages[i]).src < n && passages[i].dst < n,
    ensures
        forall|i: int|
            0 <= i < kg::neighbours(passages, v, k).len() ==> #[trigger] kg::neighbours(
                passages,
                v,
                k,
            )[i] < n,
    decreases k,
{
    if k > 0 {
        lemma_neighbours_below(passages, v, (k - 1) as nat, n);
        let before = kg::neighbours(passages, v, (k - 1) as nat);
        let now = kg::neighbours(passages, v, k);
        assert(passages[k - 1].src < n);
        assert forall|i: int| 0 <= i < now.len() implies #[trigger] now[i] < n by {
            if i < before.len() {
                assert(now[i] == before[i]);
            }
        }
    }
}

/// The masses are all that there is, but for less than one unit per seed.
pub open spec fn is_spread(seeds: Seq<usize>, pi: Seq<u64>) -> bool {
    MASS - seeds.len() < math::sum(pi.len(), mass_at(pi)) <= MASS
}

/// One iteration keeps the mass.
pub proof fn lemma_step_total(kg: &Kg, seeds: Seq<usize>, d: Damping, pi: Seq<u64>)
    requires
        kg.well_formed(),
        seeds_fit(kg, seeds),
        d.valid(),
        pi.len() == kg.n_nodes,
        math::sum(pi.len(), mass_at(pi)) <= MASS,
    ensures
        0 <= pool(kg, d, pi) <= MASS,
        MASS - seeds.len() < math::sum(pi.len(), arrived(kg, seeds, d, pi)) <= MASS,
        forall|u: int| 0 <= u < kg.n_nodes ==> 0 <= #[trigger] inflow(kg, d, pi)(u),
        forall|u: int| 0 <= u < kg.n_nodes ==> 0 <= #[trigger] arrived(kg, seeds, d, pi)(u),
{
    let n = pi.len();
    let f = share(kg, d, pi);
    let out = sent(kg, d, pi);
    let all = mass_at(pi);
    let into = inflow(kg, d, pi);
    let passages = kg.passages@;
    assert forall|v: int| 0 <= v < n implies 0 <= #[trigger] out(v) <= all(v) by {
        lemma_sent(kg, d, pi, v);
    }
    math::lemma_sum_le(n, out, all);
    let zero = |i: int| 0int;
    math::lemma_sum_single(n, zero, -1, 0);
    math::lemma_sum_le(n, zero, out);
    lemma_flow(passages, f, n, passages.len());
    let pull = pulled(passages, f, passages.len());
    let push = pushed(passages, f, passages.len());
    assert forall|u: int| 0 <= u < n implies #[trigger] into(u) == pull(u) by {
        assert(kg.adj@[u]@ == kg::neighbours(passages, u, passages.len()));
    }
    assert forall|u: int| 0 <= u < n implies #[trigger] out(u) == push(u) by {
        assert(kg.adj@[u]@ == kg::neighbours(passages, u, passages.len()));
    }
    math::lemma_sum_same(n, into, pull);
    math::lemma_sum_same(n, out, push);
    let back = restart(seeds, pool(kg, d, pi));
    lemma_restart_total(seeds, n, pool(kg, d, pi));
    math::lemma_sum_add(n, into, back, arrived(kg, seeds, d, pi));
    assert forall|u: int| 0 <= u < kg.n_nodes implies 0 <= #[trigger] inflow(kg, d, pi)(u) by {
        let list = kg.adj@[u]@;
        lemma_neighbours_below(passages, u, passages.len(), n as int);
        assert forall|i: int| 0 <= i < list.len() implies 0 <= f(#[trigger] list[i] as int) by {
            assert(list[i] < n);
            lemma_sent(kg, d, pi, list[i] as int);
        }
        lemma_sum_over_nonnegative(list, f);
    }
    assert forall|u: int| 0 <= u < kg.n_nodes implies 0 <= #[trigger] arrived(kg, seeds, d, pi)(u) by {
        assert(0 <= inflow(kg, d, pi)(u));
        assert(0 <= back(u));
    }
}

/// Masses that come out of nonnegative numbers with no more in all than there
/// is.
proof fn lemma_rounded(n: nat, f: spec_fn(int) -> int, pi: Seq<u64>)
    requires
        pi.len() == n,
        forall|u: int| 0 <= u < n ==> 0 <= #[trigger] f(u),
        forall|u: int| 0 <= u < n ==> #[trigger] pi[u] == f(u) as u64,
        math::sum(n, f) <= MASS,
    ensures
        forall|u: int| 0 <= u < n ==> #[trigger] f(u) <= MASS,
        forall|u: int| 0 <= u < n ==> #[trigger] pi[u] == f(u),
        math::sum(n, mass_at(pi)) == math::sum(n, f),
{
    assert forall|u: int| 0 <= u < n implies #[trigger] f(u) <= MASS by {
        lemma_term(n, f, u);
    }
    assert forall|u: int| 0 <= u < n implies #[trigger] mass_at(pi)(u) == f(u) by {
        assert(pi[u] == f(u) as u64);
        assert(0 <= f(u) <= MASS);
    }
    math::lemma_sum_same(n, mass_at(pi), f);
}

/// The masses are a distribution, however many iterations there are: nothing is
/// made, and nothing is lost but what cannot be shared out evenly among the
/// seeds, less than one unit for each.
pub proof fn lemma_mass_is_conserved(kg: &Kg, seeds: Seq<usize>, d: Damping, k: nat)
    requires
        kg.well_formed(),
        seeds_fit(kg, seeds),
        d.valid(),
    ensures
        iterated(kg, seeds, d, k).len() == kg.n_nodes,
        is_spread(seeds, iterated(kg, seeds, d, k)),
        k > 0 ==> forall|u: int|
            0 <= u < kg.n_nodes ==> #[trigger] iterated(kg, seeds, d, k)[u] == arrived(
                kg,
                seeds,
                d,
                iterated(kg, seeds, d, (k - 1) as nat),
            )(u),
        k == 0 ==> forall|u: int|
            0 <= u < kg.n_nodes ==> #[trigger] iterated(kg, seeds, d, k)[u] == restart(
                seeds,
                MASS as int,
            )(u),
    decreases k,
{
    let n = kg.n_nodes as nat;
    let now = iterated(kg, seeds, d, k);
    if k == 0 {
        lemma_restart_total(seeds, n, MASS as int);
        lemma_rounded(n, restart(seeds, MASS as int), now);
    } else {
        lemma_mass_is_conserved(kg, seeds, d, (k - 1) as nat);
        let pi = iterated(kg, seeds, d, (k - 1) as nat);
        lemma_step_total(kg, seeds, d, pi);
        lemma_rounded(n, arrived(kg, seeds, d, pi), now);
    }
}

/// Shares a pool out over the seeds.
fn add_restart(seeds: &[usize], pool: u64, u: usize) -> (x: u64)
    requires
        seeds@.len() > 0,
        restart(seeds@, pool as int)(u as int) <= u64::MAX,
    ensures
        x == restart(seeds@, pool as int)(u as int),
{
    let len = seeds.len() as u64;
    let each = pool / len;
    let mut n: u64 = 0;
    for i in 0..seeds.len()
        invariant
            n == times(seeds@, u as int, i as nat),
            n <= i,
    {
        if seeds[i] == u {
            n = n + 1;
        }
    }
    each * n
}

/// What each node passes on to each of its neighbours.
fn shares(kg: &Kg, pi: &Vec<u64>, num: u32, den: u32) -> (r: Vec<u64>)
    requires
        kg.well_formed(),
        pi@.len() == kg.n_nodes,
        num <= den,
        den > 0,
    ensures
        r@.len() == kg.n_nodes,
        forall|v: int|
            0 <= v < kg.n_nodes ==> #[trigger] r@[v] == share(
                kg,
                (Damping { num: num as int, den: den as int }),
                pi@,
            )(v),
{
    let ghost d = Damping { num: num as int, den: den as int };
    let mut r: Vec<u64> = Vec::new();
    for v in 0..kg.n_nodes
        invariant
            kg.well_formed(),
            pi@.len() == kg.n_nodes,
            num <= den,
            den > 0,
            d == (Damping { num: num as int, den: den as int }),
            r@.len() == v,
            forall|w: int| 0 <= w < v ==> #[trigger] r@[w] == share(kg, d, pi@)(w),
    {
        let len = kg.adj[v].len() as u64;
        proof {
            lemma_sent(kg, d, pi@, v as int);
            let (x, n, m) = (pi@[v as int] as int, num as int, den as int);
            assert(0 <= x * n <= 0xffff_ffff_ffff_ffff * 0xffff_ffff) by (nonlinear_arith)
                requires
                    0 <= x <= 0xffff_ffff_ffff_ffff,
                    0 <= n <= 0xffff_ffff,
            ;
            assert(x * n <= m * x) by (nonlinear_arith)
                requires
                    0 <= x,
                    n <= m,
            ;
            vstd::arithmetic::div_mod::lemma_div_is_ordered(x * n, m * x, m);
            vstd::arithmetic::div_mod::lemma_div_multiples_vanish(x, m);
        }
        r.push(if len == 0 {
            0
        } else {
            (pi[v] as u128 * num as u128 / den as u128) as u64 / len
        });
    }
    r
}

/// What comes back to the seeds.
fn returned(kg: &Kg, pi: &Vec<u64>, part: &Vec<u64>, num: u32, den: u32) -> (p: u64)
    requires
        kg.well_formed(),
        pi@.len() == kg.n_nodes,
        num <= den,
        den > 0,
        math::sum(pi@.len(), mass_at(pi@)) <= MASS,
        part@.len() == kg.n_nodes,
        forall|v: int|
            0 <= v < kg.n_nodes ==> #[trigger] part@[v] == share(
                kg,
                (Damping { num: num as int, den: den as int }),
                pi@,
            )(v),
    ensures
        p == pool(kg, (Damping { num: num as int, den: den as int }), pi@),
{
    let ghost d = Damping { num: num as int, den: den as int };
    let ghost out = sent(kg, d, pi@);
    let mut p: u64 = MASS;
    for v in 0..kg.n_nodes
        invariant
            kg.well_formed(),
            pi@.len() == kg.n_nodes,
            d.valid(),
            math::sum(pi@.len(), mass_at(pi@)) <= MASS,
            part@.len() == kg.n_nodes,
            out == sent(kg, d, pi@),
            forall|v: int| 0 <= v < kg.n_nodes ==> #[trigger] part@[v] == share(kg, d, pi@)(v),
            p == MASS - math::sum(v as nat, out),
            p >= MASS - math::sum(v as nat, mass_at(pi@)),
    {
        proof {
            lemma_sent(kg, d, pi@, v as int);
            let all = mass_at(pi@);
            assert forall|i: int| 0 <= i < pi@.len() implies 0 <= #[trigger] all(i) by {}
            math::lemma_sum_prefix((v + 1) as nat, pi@.len(), all);
            assert(out(v as int) == kg.adj@[v as int]@.len() * part@[v as int]);
            assert(all(v as int) == pi@[v as int]);
        }
        p = p - kg.adj[v].len() as u64 * part[v];
    }
    p
}

/// Personalized PageRank by power iteration: each node splits what it passes
/// on evenly over its neighbours, and the rest, with what a node without
/// neighbours has, goes back to the seeds. Damping is `num / den`.
pub fn ppr(kg: &Kg, seeds: &[usize], num: u32, den: u32, iters: usize) -> (pi: Vec<u64>)
    requires
        kg.well_formed(),
        seeds_fit(kg, seeds@),
        num <= den,
        den > 0,
    ensures
        pi@ == iterated(
            kg,
            seeds@,
            (Damping { num: num as int, den: den as int }),
            iters as nat,
        ),
        pi@.len() == kg.n_nodes,
        is_spread(seeds@, pi@),
{
    let ghost d = Damping { num: num as int, den: den as int };
    let n = kg.n_nodes;
    let mut pi: Vec<u64> = Vec::new();
    proof {
        lemma_mass_is_conserved(kg, seeds@, d, 0);
        lemma_restart_total(seeds@, n as nat, MASS as int);
    }
    for u in 0..n
        invariant
            n == kg.n_nodes,
            seeds_fit(kg, seeds@),
            math::sum(n as nat, restart(seeds@, MASS as int)) <= MASS,
            forall|u: int| 0 <= #[trigger] restart(seeds@, MASS as int)(u),
            pi@.len() == u,
            forall|w: int|
                0 <= w < u ==> #[trigger] pi@[w] == restart(seeds@, MASS as int)(w) as u64,
    {
        proof {
            lemma_term(n as nat, restart(seeds@, MASS as int), u as int);
        }
        pi.push(add_restart(seeds, MASS, u));
    }
    assert(pi@ =~= iterated(kg, seeds@, d, 0));
    for k in 0..iters
        invariant
            n == kg.n_nodes,
            kg.well_formed(),
            seeds_fit(kg, seeds@),
            num <= den,
            den > 0,
            d == (Damping { num: num as int, den: den as int }),
            pi@ == iterated(kg, seeds@, d, k as nat),
            pi@.len() == n,
            is_spread(seeds@, pi@),
    {
        pi = step(kg, seeds, num, den, &pi);
        proof {
            lemma_mass_is_conserved(kg, seeds@, d, (k + 1) as nat);
            assert(pi@ =~= iterated(kg, seeds@, d, (k + 1) as nat));
        }
    }
    pi
}

/// One iteration.
fn step(kg: &Kg, seeds: &[usize], num: u32, den: u32, pi: &Vec<u64>) -> (next: Vec<u64>)
    requires
        kg.well_formed(),
        seeds_fit(kg, seeds@),
        num <= den,
        den > 0,
        pi@.len() == kg.n_nodes,
        math::sum(pi@.len(), mass_at(pi@)) <= MASS,
    ensures
        next@.len() == kg.n_nodes,
        forall|u: int|
            0 <= u < kg.n_nodes ==> #[trigger] next@[u] == arrived(
                kg,
                seeds@,
                (Damping { num: num as int, den: den as int }),
                pi@,
            )(u) as u64,
{
    let ghost d = Damping { num: num as int, den: den as int };
    let part = shares(kg, pi, num, den);
    let back = returned(kg, pi, &part, num, den);
    let ghost f = share(kg, d, pi@);
    let ghost all = arrived(kg, seeds@, d, pi@);
    proof {
        lemma_step_total(kg, seeds@, d, pi@);
        lemma_restart_total(seeds@, kg.n_nodes as nat, back as int);
    }
    let mut next: Vec<u64> = Vec::new();
    for u in 0..kg.n_nodes
        invariant
            kg.well_formed(),
            seeds_fit(kg, seeds@),
            d.valid(),
            pi@.len() == kg.n_nodes,
            part@.len() == kg.n_nodes,
            f == share(kg, d, pi@),
            all == arrived(kg, seeds@, d, pi@),
            forall|v: int| 0 <= v < kg.n_nodes ==> #[trigger] part@[v] == f(v),
            back == pool(kg, d, pi@),
            math::sum(pi@.len(), all) <= MASS,
            forall|u: int| 0 <= u < kg.n_nodes ==> 0 <= #[trigger] inflow(kg, d, pi@)(u),
            forall|u: int| 0 <= u < kg.n_nodes ==> 0 <= #[trigger] all(u),
            forall|u: int| 0 <= #[trigger] restart(seeds@, back as int)(u),
            next@.len() == u,
            forall|w: int| 0 <= w < u ==> #[trigger] next@[w] == all(w) as u64,
    {
        let list = &kg.adj[u];
        proof {
            assert(0 <= inflow(kg, d, pi@)(u as int));
            assert(0 <= restart(seeds@, back as int)(u as int));
            lemma_term(pi@.len(), all, u as int);
            lemma_neighbours_below(
                kg.passages@,
                u as int,
                kg.passages@.len(),
                kg.n_nodes as int,
            );
            assert(list@ == kg::neighbours(kg.passages@, u as int, kg.passages@.len()));
            assert forall|i: int| 0 <= i < list@.len() implies 0 <= f(#[trigger] list@[i] as int) by {
                assert(part@[list@[i] as int] == f(list@[i] as int));
            }
        }
        let mut x = add_restart(seeds, back, u);
        let ghost from = x as int;
        assert(list@.take(0).len() == 0);
        for i in 0..list.len()
            invariant
                list@ == kg.adj@[u as int]@,
                part@.len() == kg.n_nodes,
                forall|v: int| 0 <= v < kg.n_nodes ==> #[trigger] part@[v] == f(v),
                forall|i: int|
                    0 <= i < list@.len() ==> 0 <= f(#[trigger] list@[i] as int) && list@[i]
                        < kg.n_nodes,
                from + math::sum_over(list@, f) <= MASS,
                x == from + math::sum_over(list@.take(i as int), f),
        {
            let w = list[i];
            proof {
                lemma_sum_take(list@, f, i + 1);
                assert(list@.take(i + 1).drop_last() =~= list@.take(i as int));
                assert(part@[w as int] == f(w as int));
            }
            x = x + part[w];
        }
        assert(list@.take(list@.len() as int) =~= list@);
        next.push(x);
    }
    next
}

/// The rank of the true answer among the candidates by mass, 1 the best; equal
/// masses keep the order of the candidates.
pub fn ppr_rank(inst: &Instance, num: u32, den: u32, iters: usize) -> (rank: usize)
    requires
        kg::rankable(inst),
        num <= den,
        den > 0,
    ensures
        kg::is_rank(
            inst.candidates@,
            iterated(
                &inst.kg,
                inst.seeds@,
                (Damping { num: num as int, den: den as int }),
                iters as nat,
            ),
            inst.answer,
            rank as int,
        ),
        1 <= rank <= inst.candidates@.len(),
{
    let pi = ppr(&inst.kg, &inst.seeds, num, den, iters);
    proof {
        let at = choose|at: int| 0 <= at < inst.candidates@.len() && inst.candidates@[at] == inst.answer;
        assert(inst.candidates@[at] < inst.kg.n_nodes);
    }
    kg::rank_in(&inst.candidates, &pi, inst.answer)
}

/// A node keeps what damping holds back and splits the rest evenly: every neighbour
/// gets the same, and what is lost in dividing is less than a unit for each, and one.
pub proof fn lemma_even_split(kg: &Kg, d: Damping, pi: Seq<u64>, v: int)
    requires
        d.valid(),
        kg.adj@[v]@.len() > 0,
    ensures
        ({
            let each = share(kg, d, pi)(v);
            let n = kg.adj@[v]@.len();
            &&& 0 <= d.den * (n * each) <= d.num * pi[v]
            &&& d.num * pi[v] < d.den * (n * each + n)
        }),
{
    let n = kg.adj@[v]@.len() as int;
    let x = pi[v] * d.num;
    let y = x / d.den;
    let each = y / n;
    vstd::arithmetic::div_mod::lemma_fundamental_div_mod(x, d.den);
    vstd::arithmetic::div_mod::lemma_mod_bound(x, d.den);
    vstd::arithmetic::div_mod::lemma_fundamental_div_mod(y, n);
    vstd::arithmetic::div_mod::lemma_mod_bound(y, n);
    assert(x >= 0) by (nonlinear_arith)
        requires
            x == pi[v] * d.num,
            d.num >= 0,
    ;
    vstd::arithmetic::div_mod::lemma_div_pos_is_pos(x, d.den);
    vstd::arithmetic::div_mod::lemma_div_pos_is_pos(y, n);
    assert(d.num * pi[v] == x) by (nonlinear_arith)
        requires
            x == pi[v] * d.num,
    ;
    let (r, s, den) = (x % d.den, y % n, d.den);
    assert(0 <= den * (n * each) && den * (n * each) <= x && x < den * (n * each + n))
        by (nonlinear_arith)
        requires
            x == den * y + r,
            y == n * each + s,
            0 <= r < den,
            0 <= s < n,
            each >= 0,
    ;
}

} // verus!
