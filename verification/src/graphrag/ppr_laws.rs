//! What personalized PageRank promises: the answer to a path-finding question
//! comes first, and mass falls with the distance from the seed.

use crate::graphrag::kg;
use crate::graphrag::kg::{Instance, Kg, Passage};
use crate::graphrag::ppr;
use crate::graphrag::ppr::{Damping, MASS};
use crate::math;
use vstd::prelude::*;

verus! {

/// What passage `i` gives a node: `f` of the other end.
spec fn given(passages: Seq<Passage>, f: spec_fn(int) -> int, u: int) -> spec_fn(int) -> int {
    |i: int|
        (if passages[i].src == u {
            f(passages[i].dst as int)
        } else {
            0
        }) + (if passages[i].dst == u {
            f(passages[i].src as int)
        } else {
            0
        })
}

proof fn lemma_sum_push(s: Seq<usize>, x: usize, f: spec_fn(int) -> int)
    ensures
        math::sum_over(s.push(x), f) == math::sum_over(s, f) + f(x as int),
{
    assert(s.push(x).drop_last() =~= s);
}

/// Summing over the neighbours is summing over the passages.
proof fn lemma_given(passages: Seq<Passage>, f: spec_fn(int) -> int, u: int, k: nat)
    ensures
        math::sum_over(kg::neighbours(passages, u, k), f) == math::sum(k, given(passages, f, u)),
    decreases k,
{
    if k > 0 {
        lemma_given(passages, f, u, (k - 1) as nat);
        let p = passages[k - 1];
        let before = kg::neighbours(passages, u, (k - 1) as nat);
        let one = if p.src == u {
            before.push(p.dst)
        } else {
            before
        };
        lemma_sum_push(before, p.dst, f);
        lemma_sum_push(one, p.src, f);
        assert(kg::neighbours(passages, u, k) == if p.dst == u {
            one.push(p.src)
        } else {
            one
        });
        assert(given(passages, f, u)(k - 1) == (if p.src == u {
            f(p.dst as int)
        } else {
            0
        }) + (if p.dst == u {
            f(p.src as int)
        } else {
            0
        }));
    }
}

spec fn unit() -> spec_fn(int) -> int {
    |v: int| 1int
}

/// A list adds up to its length where every entry is one.
proof fn lemma_unit_sum(s: Seq<usize>)
    ensures
        math::sum_over(s, unit()) == s.len(),
    decreases s.len(),
{
    if s.len() > 0 {
        lemma_unit_sum(s.drop_last());
    }
}

/// The sum over a node's neighbours, and their number, from the passages.
proof fn lemma_at(g: &Kg, f: spec_fn(int) -> int, u: int)
    requires
        g.well_formed(),
        0 <= u < g.n_nodes,
    ensures
        math::sum_over(g.adj@[u]@, f) == math::sum(
            g.passages@.len(),
            given(g.passages@, f, u),
        ),
        g.adj@[u]@.len() == math::sum(g.passages@.len(), given(g.passages@, unit(), u)),
{
    assert(g.adj@[u]@ == kg::neighbours(g.passages@, u, g.passages@.len()));
    lemma_given(g.passages@, f, u, g.passages@.len());
    lemma_given(g.passages@, unit(), u, g.passages@.len());
    lemma_unit_sum(g.adj@[u]@);
}

/// Node `t` of chain `c` of a seed.
spec fn node(h: int, d: int, s: int, c: int, t: int) -> int {
    kg::chain_node(h, kg::chain_start(h, kg::seed_start(h, d, s), c), c == 0, t)
}

/// The node before it: the seed, or a node of the chain.
spec fn before(h: int, d: int, s: int, c: int, t: int) -> int {
    if t == 0 {
        s
    } else {
        node(h, d, s, c, t - 1)
    }
}

/// Where its fact is.
spec fn index(h: int, d: int, s: int, c: int, t: int) -> int {
    s * ((d + 1) * h) + c * h + t
}

spec fn is_place(h: int, d: int, s: int, c: int, t: int) -> bool {
    &&& 0 <= s < 2
    &&& 0 <= c <= d
    &&& 0 <= t < h
}

/// The node lies in the room of its seed, or is the answer.
proof fn lemma_node_room(h: int, d: int, s: int, c: int, t: int)
    requires
        h >= 1,
        is_place(h, d, s, c, t),
    ensures
        ({
            let v = node(h, d, s, c, t);
            let start = kg::seed_start(h, d, s);
            if c == 0 && t == h - 1 {
                v == 2
            } else {
                &&& start <= v < start + kg::chain_room(h, d)
                &&& v - start + 1 == c * h + t + (if c == 0 {
                    1int
                } else {
                    0
                })
            }
        }),
        kg::chain_room(h, d) >= 0,
{
    let start = kg::seed_start(h, d, s);
    kg::lemma_chain_room(h, d, 3, 0);
    kg::lemma_chain_room(h, d, start, c);
    if c > 0 {
        assert((h - 1) + (c - 1) * h + t + 1 == c * h + t) by (nonlinear_arith);
    } else {
        assert(c * h == 0) by (nonlinear_arith)
            requires
                c == 0,
        ;
    }
}

/// Different places have different nodes, but for the answer.
proof fn lemma_node_injective(
    h: int,
    d: int,
    s: int,
    c: int,
    t: int,
    s2: int,
    c2: int,
    t2: int,
)
    requires
        h >= 1,
        is_place(h, d, s, c, t),
        is_place(h, d, s2, c2, t2),
        node(h, d, s, c, t) == node(h, d, s2, c2, t2),
    ensures
        (s == s2 && c == c2 && t == t2) || (c == 0 && c2 == 0 && t == h - 1 && t2 == h - 1),
{
    lemma_node_room(h, d, s, c, t);
    lemma_node_room(h, d, s2, c2, t2);
    if !(c == 0 && t == h - 1) && !(c2 == 0 && t2 == h - 1) {
        assert(s == s2);
        let x = node(h, d, s, c, t) - kg::seed_start(h, d, s) + 1;
        if c == 0 || c2 == 0 {
            assert(c * h >= h || c == 0) by (nonlinear_arith)
                requires
                    c >= 0,
                    h >= 1,
            ;
            assert(c2 * h >= h || c2 == 0) by (nonlinear_arith)
                requires
                    c2 >= 0,
                    h >= 1,
            ;
            if c == 0 {
                assert(c * h == 0) by (nonlinear_arith)
                    requires
                        c == 0,
                ;
            }
            if c2 == 0 {
                assert(c2 * h == 0) by (nonlinear_arith)
                    requires
                        c2 == 0,
                ;
            }
        } else {
            vstd::arithmetic::div_mod::lemma_fundamental_div_mod_converse(x, h, c, t);
            vstd::arithmetic::div_mod::lemma_fundamental_div_mod_converse(x, h, c2, t2);
        }
    }
}

/// The fact of a place: from the node before it to the node.
proof fn lemma_fact(h: int, d: int, s: int, c: int, t: int)
    requires
        h >= 1,
        d >= 0,
        3 + 2 * kg::chain_room(h, d) <= usize::MAX,
        is_place(h, d, s, c, t),
    ensures
        0 <= index(h, d, s, c, t) < kg::instance_facts(h, d).len(),
        kg::instance_facts(h, d).len() == 2 * ((d + 1) * h),
        kg::instance_facts(h, d)[index(h, d, s, c, t)].src == before(h, d, s, c, t),
        kg::instance_facts(h, d)[index(h, d, s, c, t)].dst == node(h, d, s, c, t),
{
    let start = kg::seed_start(h, d, s);
    kg::lemma_seed_fact_there(h, s, start, (d + 1) as nat, c, t);
    kg::lemma_seed_facts_len(h, 0, kg::seed_start(h, d, 0), (d + 1) as nat);
    kg::lemma_seed_facts_len(h, 1, kg::seed_start(h, d, 1), (d + 1) as nat);
    let half = (d + 1) * h;
    assert(s * half == if s == 0 {
        0
    } else {
        half
    }) by (nonlinear_arith)
        requires
            s == 0 || s == 1,
    ;
    lemma_node_room(h, d, s, c, t);
    if t > 0 {
        lemma_node_room(h, d, s, c, t - 1);
    }
}

/// Every fact has a place.
proof fn lemma_place(h: int, d: int, i: int) -> (r: (int, int, int))
    requires
        h >= 1,
        d >= 0,
        3 + 2 * kg::chain_room(h, d) <= usize::MAX,
        0 <= i < 2 * ((d + 1) * h),
    ensures
        is_place(h, d, r.0, r.1, r.2),
        i == index(h, d, r.0, r.1, r.2),
{
    let half = (d + 1) * h;
    kg::lemma_seed_facts_len(h, 0, kg::seed_start(h, d, 0), (d + 1) as nat);
    kg::lemma_seed_facts_len(h, 1, kg::seed_start(h, d, 1), (d + 1) as nat);
    if i < half {
        let (c, t) = kg::lemma_seed_fact_shape(h, 0, kg::seed_start(h, d, 0), (d + 1) as nat, i);
        assert(0 * half == 0) by (nonlinear_arith);
        (0, c, t)
    } else {
        let (c, t) = kg::lemma_seed_fact_shape(
            h,
            1,
            kg::seed_start(h, d, 1),
            (d + 1) as nat,
            i - half,
        );
        assert(1 * half == half) by (nonlinear_arith);
        (1, c, t)
    }
}

/// Two facts touch a node inside a chain, one touches a dead end.
proof fn lemma_chain_sum(inst: &Instance, h: int, d: int, f: spec_fn(int) -> int, s: int, c: int, t: int)
    requires
        h >= 1,
        d >= 0,
        kg::is_instance(inst, h, d),
        is_place(h, d, s, c, t),
        !(c == 0 && t == h - 1),
    ensures
        math::sum_over(inst.kg.adj@[node(h, d, s, c, t)]@, f) == f(before(h, d, s, c, t)) + (if t
            < h - 1 {
            f(node(h, d, s, c, t + 1))
        } else {
            0
        }),
{
    let facts = inst.kg.passages@;
    let u = node(h, d, s, c, t);
    let x = index(h, d, s, c, t);
    let p = given(facts, f, u);
    let n = facts.len();
    lemma_node_room(h, d, s, c, t);
    lemma_fact(h, d, s, c, t);
    lemma_at(&inst.kg, f, u);
    if t < h - 1 {
        lemma_fact(h, d, s, c, t + 1);
        lemma_node_room(h, d, s, c, t + 1);
    }
    if t > 0 {
        lemma_node_room(h, d, s, c, t - 1);
    }
    assert forall|i: int| 0 <= i < n implies {
        &&& facts[i].dst == u <==> i == x
        &&& facts[i].src == u <==> (t < h - 1 && i == x + 1)
        &&& i != x && (t == h - 1 || i != x + 1) ==> #[trigger] p(i) == 0
    } by {
        let (s2, c2, t2) = lemma_place(h, d, i);
        lemma_fact(h, d, s2, c2, t2);
        lemma_node_room(h, d, s2, c2, t2);
        if facts[i].dst == u {
            lemma_node_injective(h, d, s, c, t, s2, c2, t2);
        }
        if facts[i].src == u && t2 > 0 {
            lemma_node_injective(h, d, s, c, t, s2, c2, t2 - 1);
        }
        if t < h - 1 && i == x + 1 {
            assert(facts[x + 1].src == u);
        }
    }
    if t < h - 1 {
        math::lemma_sum_pair(n, p, x, x + 1);
    } else {
        math::lemma_sum_single(n, p, x, p(x));
    }
}

/// The two gold facts touch the answer.
proof fn lemma_answer_sum(inst: &Instance, h: int, d: int, f: spec_fn(int) -> int)
    requires
        h >= 1,
        d >= 0,
        kg::is_instance(inst, h, d),
    ensures
        math::sum_over(inst.kg.adj@[2]@, f) == f(before(h, d, 0, 0, h - 1)) + f(
            before(h, d, 1, 0, h - 1),
        ),
{
    let facts = inst.kg.passages@;
    let p = given(facts, f, 2);
    let n = facts.len();
    let x = index(h, d, 0, 0, h - 1);
    let y = index(h, d, 1, 0, h - 1);
    lemma_fact(h, d, 0, 0, h - 1);
    lemma_fact(h, d, 1, 0, h - 1);
    lemma_node_room(h, d, 0, 0, h - 1);
    lemma_node_room(h, d, 1, 0, h - 1);
    lemma_at(&inst.kg, f, 2);
    assert((d + 1) * h > 0) by (nonlinear_arith)
        requires
            d >= 0,
            h >= 1,
    ;
    assert forall|i: int| 0 <= i < n implies {
        &&& facts[i].dst == 2 <==> i == x || i == y
        &&& facts[i].src != 2
        &&& i != x && i != y ==> #[trigger] p(i) == 0
    } by {
        let (s2, c2, t2) = lemma_place(h, d, i);
        lemma_fact(h, d, s2, c2, t2);
        lemma_node_room(h, d, s2, c2, t2);
        if t2 > 0 {
            lemma_node_room(h, d, s2, c2, t2 - 1);
        }
    }
    math::lemma_sum_pair(n, p, x, y);
}

/// The two sides carry the same.
spec fn is_even(h: int, d: int, f: spec_fn(int) -> int) -> bool {
    &&& f(0) == f(1)
    &&& forall|c: int, t: int|
        0 <= c <= d && 0 <= t < h ==> #[trigger] f(node(h, d, 0, c, t)) == f(node(h, d, 1, c, t))
}

/// What is even adds up to the same at both seeds.
proof fn lemma_seed_sums(inst: &Instance, h: int, d: int, f: spec_fn(int) -> int)
    requires
        h >= 1,
        d >= 0,
        kg::is_instance(inst, h, d),
        is_even(h, d, f),
    ensures
        math::sum_over(inst.kg.adj@[0]@, f) == math::sum_over(inst.kg.adj@[1]@, f),
{
    let facts = inst.kg.passages@;
    let half = ((d + 1) * h) as nat;
    assert(half >= 1) by (nonlinear_arith)
        requires
            half == (d + 1) * h,
            d >= 0,
            h >= 1,
    ;
    let (p, q) = (given(facts, f, 0), given(facts, f, 1));
    lemma_fact(h, d, 0, 0, 0);
    lemma_node_room(h, d, 0, 0, 0);
    lemma_at(&inst.kg, f, 0);
    lemma_at(&inst.kg, f, 1);
    math::lemma_sum_split(half, half, p);
    math::lemma_sum_split(half, half, q);
    let p2 = |i: int| p(half + i);
    let q2 = |i: int| q(half + i);
    assert forall|i: int| 0 <= i < half implies #[trigger] p(i) == q2(i) && p2(i) == q(i) by {
        let (s, c, t) = lemma_place(h, d, i);
        assert(s == 0) by {
            if s == 1 {
                assert(1 * half == half) by (nonlinear_arith);
                assert(c * h >= 0) by (nonlinear_arith)
                    requires
                        c >= 0,
                        h >= 1,
                ;
            }
        }
        assert(index(h, d, 1, c, t) == half + i) by {
            assert(0 * half == 0 && 1 * half == half) by (nonlinear_arith);
        }
        lemma_fact(h, d, 0, c, t);
        lemma_fact(h, d, 1, c, t);
        lemma_node_room(h, d, 0, c, t);
        lemma_node_room(h, d, 1, c, t);
        if t > 0 {
            lemma_node_room(h, d, 0, c, t - 1);
            lemma_node_room(h, d, 1, c, t - 1);
        }
        assert(f(node(h, d, 0, c, t)) == f(node(h, d, 1, c, t)));
    }
    assert forall|i: int| 0 <= i < half implies #[trigger] p2(i) == q(i) by {
        assert(p(i) == q2(i));
    }
    math::lemma_sum_same(half, p, q2);
    math::lemma_sum_same(half, p2, q);
}

/// Nodes inside a chain have two neighbours, dead ends one, the answer two, and
/// both seeds as many.
proof fn lemma_degrees(inst: &Instance, h: int, d: int)
    requires
        h >= 1,
        d >= 0,
        kg::is_instance(inst, h, d),
    ensures
        forall|s: int, c: int, t: int|
            is_place(h, d, s, c, t) && !(c == 0 && t == h - 1)
                ==> inst.kg.adj@[#[trigger] node(h, d, s, c, t)]@.len() == (if t < h - 1 {
                2nat
            } else {
                1
            }),
        inst.kg.adj@[2]@.len() == 2,
        inst.kg.adj@[0]@.len() == inst.kg.adj@[1]@.len(),
{
    let f = unit();
    assert forall|s: int, c: int, t: int| is_place(h, d, s, c, t) && !(c == 0 && t == h - 1)
        implies inst.kg.adj@[#[trigger] node(h, d, s, c, t)]@.len() == (if t < h - 1 {
        2nat
    } else {
        1
    }) by {
        lemma_chain_sum(inst, h, d, f, s, c, t);
        lemma_unit_sum(inst.kg.adj@[node(h, d, s, c, t)]@);
    }
    lemma_answer_sum(inst, h, d, f);
    lemma_unit_sum(inst.kg.adj@[2]@);
    lemma_seed_sums(inst, h, d, f);
    lemma_unit_sum(inst.kg.adj@[0]@);
    lemma_unit_sum(inst.kg.adj@[1]@);
}

/// More mass passes on more.
proof fn lemma_passes_more(x: int, y: int, num: int, den: int)
    requires
        x >= y >= 0,
        num >= 0,
        den > 0,
    ensures
        x * num / den >= y * num / den >= 0,
        (x * num / den) / 2 >= (y * num / den) / 2,
{
    assert(x * num >= y * num >= 0) by (nonlinear_arith)
        requires
            x >= y >= 0,
            num >= 0,
    ;
    vstd::arithmetic::div_mod::lemma_div_is_ordered(y * num, x * num, den);
    vstd::arithmetic::div_mod::lemma_div_pos_is_pos(y * num, den);
}

/// Twice the mass passes on at least twice.
proof fn lemma_passes_twice(x: int, y: int, num: int, den: int)
    requires
        x >= 2 * y,
        y >= 0,
        num >= 0,
        den > 0,
    ensures
        (x * num / den) / 2 >= y * num / den,
{
    lemma_passes_more(x, 2 * y, num, den);
    let q = y * num / den;
    vstd::arithmetic::div_mod::lemma_fundamental_div_mod(y * num, den);
    vstd::arithmetic::div_mod::lemma_mod_bound(y * num, den);
    let r = (y * num) % den;
    assert((2 * y) * num == den * (2 * q) + 2 * r) by (nonlinear_arith)
        requires
            y * num == den * q + r,
    ;
    vstd::arithmetic::div_mod::lemma_div_is_ordered(den * (2 * q), (2 * y) * num, den);
    vstd::arithmetic::div_mod::lemma_div_multiples_vanish(2 * q, den);
}

spec fn at(pi: Seq<u64>) -> spec_fn(int) -> int {
    |v: int| pi[v] as int
}

/// On each side the way to the answer carries at least as much as any other,
/// and the answer as much as the dead ends of both sides.
spec fn answer_leads(h: int, d: int, pi: Seq<u64>) -> bool {
    &&& forall|s: int, c: int, t: int|
        is_place(h, d, s, c, t) && t < h - 1 ==> pi[node(h, d, s, 0, t)] >= #[trigger] pi[node(
            h,
            d,
            s,
            c,
            t,
        )]
    &&& forall|s: int, c: int|
        is_place(h, d, s, c, h - 1) && c >= 1 ==> pi[2] >= 2 * #[trigger] pi[node(
            h,
            d,
            s,
            c,
            h - 1,
        )]
}

/// Seeds are 0 and 1, each once.
proof fn lemma_two_seeds(seeds: Seq<usize>)
    requires
        seeds == seq![0usize, 1usize],
    ensures
        ppr::times(seeds, 0, 2) == 1,
        ppr::times(seeds, 1, 2) == 1,
        forall|u: int| u >= 2 ==> #[trigger] ppr::times(seeds, u, 2) == 0,
{
    assert(seeds[0] == 0 && seeds[1] == 1);
    reveal_with_fuel(ppr::times, 3);
}

/// What holds of the masses at every iteration.
#[verifier::rlimit(60)]
proof fn lemma_answer_keeps_leading(inst: &Instance, h: int, d: int, a: Damping, k: nat)
    requires
        h >= 1,
        d >= 0,
        kg::is_instance(inst, h, d),
        a.valid(),
    ensures
        is_even(h, d, at(ppr::iterated(&inst.kg, inst.seeds@, a, k))),
        answer_leads(h, d, ppr::iterated(&inst.kg, inst.seeds@, a, k)),
    decreases k,
{
    let g = &inst.kg;
    let seeds = inst.seeds@;
    let now = ppr::iterated(g, seeds, a, k);
    kg::lemma_chain_room(h, d, 3, 0);
    assert(ppr::seeds_fit(g, seeds)) by {
        assert(seeds[0] == 0 && seeds[1] == 1);
    }
    ppr::lemma_mass_is_conserved(g, seeds, a, k);
    lemma_two_seeds(seeds);
    assert(seeds.len() == 2);
    assert forall|s: int, c: int, t: int| is_place(h, d, s, c, t)
        implies 2 <= #[trigger] node(h, d, s, c, t) < g.n_nodes by {
        lemma_node_room(h, d, s, c, t);
    }
    if k == 0 {
        let back = ppr::restart(seeds, MASS as int);
        assert forall|u: int| 2 <= u < g.n_nodes implies #[trigger] now[u] == 0 by {
            assert(now[u] == back(u));
            let each = MASS as int / 2;
            assert(each * 0 == 0) by (nonlinear_arith);
        }
        assert(now[0] == back(0) && now[1] == back(1));
    } else {
        let pi = ppr::iterated(g, seeds, a, (k - 1) as nat);
        lemma_answer_keeps_leading(inst, h, d, a, (k - 1) as nat);
        ppr::lemma_mass_is_conserved(g, seeds, a, (k - 1) as nat);
        let f = ppr::share(g, a, pi);
        let pool = ppr::pool(g, a, pi);
        let back = ppr::restart(seeds, pool);
        lemma_degrees(inst, h, d);
        assert forall|u: int| 2 <= u < g.n_nodes
            implies #[trigger] now[u] == math::sum_over(g.adj@[u]@, f) by {
            assert(now[u] == ppr::arrived(g, seeds, a, pi)(u));
            let each = pool / 2;
            assert(each * 0 == 0) by (nonlinear_arith);
        }
        assert(now[0] == ppr::arrived(g, seeds, a, pi)(0));
        assert(now[1] == ppr::arrived(g, seeds, a, pi)(1));
        lemma_even_shares(inst, h, d, a, pi);
        lemma_seed_sums(inst, h, d, f);
        lemma_leading_shares(inst, h, d, a, pi);
        lemma_answer_sum(inst, h, d, f);
        assert forall|c: int, t: int| 0 <= c <= d && 0 <= t < h
            implies #[trigger] at(now)(node(h, d, 0, c, t)) == at(now)(node(h, d, 1, c, t)) by {
            if !(c == 0 && t == h - 1) {
                assert(is_place(h, d, 0, c, t) && is_place(h, d, 1, c, t));
                lemma_chain_sum(inst, h, d, f, 0, c, t);
                lemma_chain_sum(inst, h, d, f, 1, c, t);
                if t > 0 {
                    assert(f(node(h, d, 0, c, t - 1)) == f(node(h, d, 1, c, t - 1)));
                }
                if t < h - 1 {
                    assert(f(node(h, d, 0, c, t + 1)) == f(node(h, d, 1, c, t + 1)));
                }
            } else {
                lemma_node_room(h, d, 0, c, t);
                lemma_node_room(h, d, 1, c, t);
            }
        }
        assert forall|s: int, c: int, t: int| is_place(h, d, s, c, t) && t < h - 1
            implies now[node(h, d, s, 0, t)] >= #[trigger] now[node(h, d, s, c, t)] by {
            if c > 0 {
                assert(is_place(h, d, s, 0, t));
                lemma_chain_sum(inst, h, d, f, s, 0, t);
                lemma_chain_sum(inst, h, d, f, s, c, t);
                assert(is_place(h, d, s, c, t + 1));
                assert(f(node(h, d, s, 0, t + 1)) >= f(node(h, d, s, c, t + 1)));
                if t > 0 {
                    assert(is_place(h, d, s, c, t - 1));
                    assert(f(node(h, d, s, 0, t - 1)) >= f(node(h, d, s, c, t - 1)));
                }
            }
        }
        assert forall|s: int, c: int| is_place(h, d, s, c, h - 1) && c >= 1
            implies now[2] >= 2 * #[trigger] now[node(h, d, s, c, h - 1)] by {
            lemma_chain_sum(inst, h, d, f, s, c, h - 1);
            if h > 1 {
                assert(is_place(h, d, s, c, h - 2));
                assert(f(node(h, d, s, 0, h - 2)) >= f(node(h, d, s, c, h - 2)));
                assert(f(node(h, d, 0, 0, h - 2)) == f(node(h, d, 1, 0, h - 2)));
            }
        }
    }
}

/// Even masses pass on evenly.
proof fn lemma_even_shares(inst: &Instance, h: int, d: int, a: Damping, pi: Seq<u64>)
    requires
        h >= 1,
        d >= 0,
        kg::is_instance(inst, h, d),
        is_even(h, d, at(pi)),
    ensures
        is_even(h, d, ppr::share(&inst.kg, a, pi)),
{
    let f = ppr::share(&inst.kg, a, pi);
    lemma_degrees(inst, h, d);
    assert(at(pi)(0) == at(pi)(1));
    assert forall|c: int, t: int| 0 <= c <= d && 0 <= t < h
        implies #[trigger] f(node(h, d, 0, c, t)) == f(node(h, d, 1, c, t)) by {
        assert(at(pi)(node(h, d, 0, c, t)) == at(pi)(node(h, d, 1, c, t)));
        if c == 0 && t == h - 1 {
            lemma_node_room(h, d, 0, c, t);
            lemma_node_room(h, d, 1, c, t);
        } else {
            assert(is_place(h, d, 0, c, t) && is_place(h, d, 1, c, t));
        }
    }
}

/// Where the way to the answer leads, it passes on more at every step.
proof fn lemma_leading_shares(inst: &Instance, h: int, d: int, a: Damping, pi: Seq<u64>)
    requires
        h >= 1,
        d >= 0,
        a.valid(),
        kg::is_instance(inst, h, d),
        answer_leads(h, d, pi),
    ensures
        forall|s: int, c: int, t: int|
            is_place(h, d, s, c, t) ==> ppr::share(&inst.kg, a, pi)(node(h, d, s, 0, t))
                >= #[trigger] ppr::share(&inst.kg, a, pi)(node(h, d, s, c, t)),
{
    let f = ppr::share(&inst.kg, a, pi);
    lemma_degrees(inst, h, d);
    assert forall|s: int, c: int, t: int| is_place(h, d, s, c, t) implies f(node(h, d, s, 0, t))
        >= #[trigger] f(node(h, d, s, c, t)) by {
        let (u, v) = (node(h, d, s, 0, t), node(h, d, s, c, t));
        if c > 0 {
            if t < h - 1 {
                assert(is_place(h, d, s, 0, t));
                assert(pi[u] >= pi[v]);
                lemma_passes_more(pi[u] as int, pi[v] as int, a.num, a.den);
            } else {
                lemma_node_room(h, d, s, 0, t);
                assert(pi[2] >= 2 * pi[v]);
                lemma_passes_twice(pi[2] as int, pi[v] as int, a.num, a.den);
                assert(f(v) == (pi[v] * a.num / a.den) / 1);
            }
        }
    }
}

/// Association as arithmetic: on every path-finding instance, however many hops
/// and distractors it has, and whatever the damping and the iterations, the
/// answer ranks first.
pub proof fn lemma_answer_ranks_first(
    inst: &Instance,
    h: int,
    d: int,
    a: Damping,
    iters: nat,
    rank: int,
)
    requires
        h >= 1,
        d >= 0,
        kg::is_instance(inst, h, d),
        a.valid(),
        kg::is_rank(
            inst.candidates@,
            ppr::iterated(&inst.kg, inst.seeds@, a, iters),
            inst.answer,
            rank,
        ),
    ensures
        rank == 1,
{
    let pi = ppr::iterated(&inst.kg, inst.seeds@, a, iters);
    let order = inst.candidates@;
    lemma_answer_keeps_leading(inst, h, d, a, iters);
    kg::lemma_chain_room(h, d, 3, 0);
    let up = kg::ahead(order, pi, inst.answer);
    let eq = kg::level_with(order, pi, inst.answer);
    assert forall|j: int| 0 <= j < order.len() implies !#[trigger] up(j) by {
        let (s, c) = kg::lemma_candidate_chain(h, d, j);
        lemma_node_room(h, d, s, c, h - 1);
        assert(order[j] == node(h, d, s, c, h - 1));
        if c > 0 {
            assert(pi[2] >= 2 * pi[node(h, d, s, c, h - 1)]);
        }
    }
    math::lemma_count_single(order.len(), up, 0, false);
    let first = choose|x: int| #[trigger]
        kg::first_at(order, inst.answer, x) && rank == 1 + math::count(order.len(), up)
            + math::count(x as nat, eq);
    assert(order[0] == inst.answer);
    assert(first == 0);
}

/// A chain: one fact from each node to the next.
pub open spec fn is_chain(g: &Kg) -> bool {
    &&& g.well_formed()
    &&& g.n_nodes >= 2
    &&& g.passages@.len() == g.n_nodes - 1
    &&& forall|i: int|
        0 <= i < g.passages@.len() ==> (#[trigger] g.passages@[i]).src == i && g.passages@[i].dst
            == i + 1
}

/// The neighbours of a node of a chain are the one before and the one after.
proof fn lemma_link_sum(g: &Kg, f: spec_fn(int) -> int, u: int)
    requires
        is_chain(g),
        0 <= u < g.n_nodes,
    ensures
        math::sum_over(g.adj@[u]@, f) == (if u > 0 {
            f(u - 1)
        } else {
            0
        }) + (if u < g.n_nodes - 1 {
            f(u + 1)
        } else {
            0
        }),
{
    let n = g.passages@.len();
    let p = given(g.passages@, f, u);
    lemma_at(g, f, u);
    assert forall|i: int| 0 <= i < n && i != u && i != u - 1 implies #[trigger] p(i) == 0 by {
        assert(g.passages@[i].src == i);
    }
    if 0 < u < n {
        assert(g.passages@[u].src == u && g.passages@[u - 1].dst == u);
        math::lemma_sum_pair(n, p, u - 1, u);
    } else if u == 0 {
        assert(g.passages@[0].src == 0);
        math::lemma_sum_single(n, p, 0, f(1));
    } else {
        assert(g.passages@[u - 1].dst == u);
        math::lemma_sum_single(n, p, u - 1, f(u - 1));
    }
}

/// The ends have one neighbour, the others two.
proof fn lemma_link_degree(g: &Kg, u: int)
    requires
        is_chain(g),
        0 <= u < g.n_nodes,
    ensures
        g.adj@[u]@.len() == (if 0 < u < g.n_nodes - 1 {
            2nat
        } else {
            1
        }),
{
    lemma_link_sum(g, unit(), u);
    lemma_unit_sum(g.adj@[u]@);
}

/// At most half the mass is passed on.
spec fn at_most_half(a: Damping) -> bool {
    a.valid() && 2 * a.num <= a.den
}

spec fn passed(a: Damping, x: int) -> int {
    x * a.num / a.den
}

/// Passing on at most half halves what is added too, but for the rounding.
proof fn lemma_passed(a: Damping, x: int, e: int)
    requires
        at_most_half(a),
        x >= 0,
        e >= 0,
    ensures
        0 <= passed(a, x),
        2 * passed(a, x) <= x,
        passed(a, x) <= passed(a, x + e),
        2 * passed(a, x + e) <= 2 * passed(a, x) + e + 1,
{
    let (num, den) = (a.num, a.den);
    let (p, q) = (passed(a, x), passed(a, x + e));
    lemma_passes_more(x + e, x, num, den);
    vstd::arithmetic::div_mod::lemma_fundamental_div_mod(x * num, den);
    vstd::arithmetic::div_mod::lemma_mod_bound(x * num, den);
    vstd::arithmetic::div_mod::lemma_fundamental_div_mod((x + e) * num, den);
    vstd::arithmetic::div_mod::lemma_mod_bound((x + e) * num, den);
    assert(2 * p <= x) by (nonlinear_arith)
        requires
            den * p <= x * num,
            2 * num <= den,
            den > 0,
            num >= 0,
            x >= 0,
    ;
    assert(2 * q < 2 * p + e + 2) by (nonlinear_arith)
        requires
            den * q <= (x + e) * num,
            x * num < den * p + den,
            2 * num <= den,
            den > 0,
            num >= 0,
            e >= 0,
    ;
}

/// Passing on twice the mass is passing it on twice, but for the rounding.
proof fn lemma_passed_twice(a: Damping, y: int)
    requires
        at_most_half(a),
        y >= 0,
    ensures
        2 * passed(a, y) <= passed(a, 2 * y) <= 2 * passed(a, y) + 1,
{
    let (num, den) = (a.num, a.den);
    let (p, q) = (passed(a, y), passed(a, 2 * y));
    vstd::arithmetic::div_mod::lemma_fundamental_div_mod(y * num, den);
    vstd::arithmetic::div_mod::lemma_mod_bound(y * num, den);
    vstd::arithmetic::div_mod::lemma_fundamental_div_mod((2 * y) * num, den);
    vstd::arithmetic::div_mod::lemma_mod_bound((2 * y) * num, den);
    assert((2 * y) * num == 2 * (y * num)) by (nonlinear_arith);
    assert(q < 2 * p + 2) by (nonlinear_arith)
        requires
            den * q <= 2 * (y * num),
            y * num < den * p + den,
            den > 0,
    ;
    assert(q + 1 > 2 * p) by (nonlinear_arith)
        requires
            2 * (y * num) < den * q + den,
            y * num >= den * p,
            den > 0,
    ;
}

/// What a node of a chain passes on to each neighbour.
proof fn lemma_link_share(g: &Kg, a: Damping, pi: Seq<u64>, v: int)
    requires
        is_chain(g),
        0 <= v < g.n_nodes,
    ensures
        ppr::share(g, a, pi)(v) == (if 0 < v < g.n_nodes - 1 {
            passed(a, pi[v] as int) / 2
        } else {
            passed(a, pi[v] as int)
        }),
{
    lemma_link_degree(g, v);
}

/// At least half of the mass goes back to the seed.
proof fn lemma_half_goes_back(g: &Kg, a: Damping, pi: Seq<u64>)
    requires
        is_chain(g),
        at_most_half(a),
        pi.len() == g.n_nodes,
        math::sum(pi.len(), ppr::mass_at(pi)) <= MASS,
    ensures
        2 * ppr::pool(g, a, pi) >= MASS,
{
    let n = pi.len();
    let out = ppr::sent(g, a, pi);
    let twice = |v: int| out(v) + out(v);
    math::lemma_sum_add(n, out, out, twice);
    assert forall|v: int| 0 <= v < n implies #[trigger] twice(v) <= ppr::mass_at(pi)(v) by {
        lemma_link_share(g, a, pi, v);
        lemma_link_degree(g, v);
        lemma_passed(a, pi[v] as int, 0);
    }
    math::lemma_sum_le(n, twice, ppr::mass_at(pi));
}

/// The masses of a chain after one more iteration.
proof fn lemma_link_step(g: &Kg, a: Damping, k: nat)
    requires
        is_chain(g),
        at_most_half(a),
    ensures
        ({
            let f = ppr::share(g, a, ppr::iterated(g, seq![0usize], a, k));
            let next = ppr::iterated(g, seq![0usize], a, k + 1);
            &&& 2 * next[0] >= MASS
            &&& forall|u: int|
                0 < u < g.n_nodes ==> #[trigger] next[u] == f(u - 1) + (if u < g.n_nodes - 1 {
                    f(u + 1)
                } else {
                    0
                })
        }),
{
    let seeds = seq![0usize];
    let pi = ppr::iterated(g, seeds, a, k);
    let next = ppr::iterated(g, seeds, a, k + 1);
    let f = ppr::share(g, a, pi);
    assert(ppr::seeds_fit(g, seeds));
    ppr::lemma_mass_is_conserved(g, seeds, a, k);
    ppr::lemma_mass_is_conserved(g, seeds, a, k + 1);
    lemma_half_goes_back(g, a, pi);
    reveal_with_fuel(ppr::times, 2);
    let pool = ppr::pool(g, a, pi);
    assert(next[0] == ppr::arrived(g, seeds, a, pi)(0));
    ppr::lemma_step_total(g, seeds, a, pi);
    assert(0 <= ppr::inflow(g, a, pi)(0));
    assert(ppr::times(seeds, 0, 1) == 1);
    assert(ppr::restart(seeds, pool)(0) == pool);
    assert forall|u: int| 0 < u < g.n_nodes implies #[trigger] next[u] == f(u - 1) + (if u
        < g.n_nodes - 1 {
        f(u + 1)
    } else {
        0
    }) by {
        assert(next[u] == ppr::arrived(g, seeds, a, pi)(u));
        assert(ppr::times(seeds, u, 1) == 0);
        assert(ppr::restart(seeds, pool)(u) == 0) by {
            assert((pool / 1) * 0 == 0) by (nonlinear_arith);
        }
        lemma_link_sum(g, f, u);
    }
}

/// How far a node of a chain may be below half of what it had.
spec fn slack(g: &Kg, u: int) -> int {
    if 0 < u < g.n_nodes - 1 {
        12
    } else {
        6
    }
}

/// The masses of a chain at the start.
proof fn lemma_link_start(g: &Kg, a: Damping)
    requires
        is_chain(g),
        at_most_half(a),
    ensures
        ppr::iterated(g, seq![0usize], a, 0)[0] == MASS,
        forall|u: int|
            0 < u < g.n_nodes ==> #[trigger] ppr::iterated(g, seq![0usize], a, 0)[u] == 0,
{
    let seeds = seq![0usize];
    let now = ppr::iterated(g, seeds, a, 0);
    assert(ppr::seeds_fit(g, seeds));
    ppr::lemma_mass_is_conserved(g, seeds, a, 0);
    reveal_with_fuel(ppr::times, 2);
    let back = ppr::restart(seeds, MASS as int);
    assert(now[0] == back(0));
    assert(ppr::times(seeds, 0, 1) == 1);
    assert forall|u: int| 0 < u < g.n_nodes implies #[trigger] now[u] == 0 by {
        assert(now[u] == back(u));
        assert(ppr::times(seeds, u, 1) == 0);
        assert((MASS as int / 1) * 0 == 0) by (nonlinear_arith);
    }
}

/// A node of a chain keeps half of what it had, but for the rounding.
proof fn lemma_half_stays(g: &Kg, a: Damping, k: nat, u: int)
    requires
        is_chain(g),
        at_most_half(a),
        0 <= u < g.n_nodes,
    ensures
        2 * ppr::iterated(g, seq![0usize], a, k + 1)[u] >= ppr::iterated(
            g,
            seq![0usize],
            a,
            k,
        )[u] - slack(g, u),
    decreases k, 0int,
{
    let seeds = seq![0usize];
    lemma_link_start(g, a);
    lemma_link_step(g, a, k);
    assert(ppr::seeds_fit(g, seeds));
    if u == 0 {
        lemma_two_masses(g, seeds, a, k);
    } else if k > 0 {
        lemma_link_step(g, a, (k - 1) as nat);
        lemma_half_share(g, a, (k - 1) as nat, u - 1);
        if u < g.n_nodes - 1 {
            lemma_half_share(g, a, (k - 1) as nat, u + 1);
        }
    }
}

/// So what it passes on is at least half of what it passed on, but for the
/// rounding.
proof fn lemma_half_share(g: &Kg, a: Damping, k: nat, v: int)
    requires
        is_chain(g),
        at_most_half(a),
        0 <= v < g.n_nodes,
    ensures
        2 * ppr::share(g, a, ppr::iterated(g, seq![0usize], a, k + 1))(v) >= ppr::share(
            g,
            a,
            ppr::iterated(g, seq![0usize], a, k),
        )(v) - 5,
    decreases k, 1int,
{
    let now = ppr::iterated(g, seq![0usize], a, k);
    let next = ppr::iterated(g, seq![0usize], a, k + 1);
    lemma_half_stays(g, a, k, v);
    lemma_link_share(g, a, now, v);
    lemma_link_share(g, a, next, v);
    let (x, y, e) = (now[v] as int, next[v] as int, slack(g, v));
    lemma_passed(a, 2 * y, e);
    lemma_passed_twice(a, y);
    lemma_passed(a, x, 2 * y + e - x);
}

/// The first two nodes share the mass.
proof fn lemma_two_masses(g: &Kg, seeds: Seq<usize>, a: Damping, k: nat)
    requires
        g.well_formed(),
        g.n_nodes >= 2,
        ppr::seeds_fit(g, seeds),
        a.valid(),
    ensures
        ppr::iterated(g, seeds, a, k)[0] + ppr::iterated(g, seeds, a, k)[1] <= MASS,
{
    let pi = ppr::iterated(g, seeds, a, k);
    ppr::lemma_mass_is_conserved(g, seeds, a, k);
    let n = pi.len();
    let f = ppr::mass_at(pi);
    let two = |v: int|
        if v == 0 || v == 1 {
            f(v)
        } else {
            0
        };
    math::lemma_sum_pair(n, two, 0, 1);
    math::lemma_sum_le(n, two, f);
}

/// The end of a chain has at most half of what the node before it has, but for
/// the rounding.
proof fn lemma_end_has_half(g: &Kg, a: Damping, k: nat)
    requires
        is_chain(g),
        g.n_nodes >= 3,
        at_most_half(a),
    ensures
        2 * ppr::iterated(g, seq![0usize], a, k)[g.n_nodes - 1] <= ppr::iterated(
            g,
            seq![0usize],
            a,
            k,
        )[g.n_nodes - 2] + 6,
{
    let n = g.n_nodes as int;
    lemma_link_start(g, a);
    if k > 0 {
        let past = ppr::iterated(g, seq![0usize], a, (k - 1) as nat);
        lemma_link_step(g, a, (k - 1) as nat);
        lemma_half_stays(g, a, (k - 1) as nat, n - 2);
        lemma_link_share(g, a, past, n - 2);
        lemma_passed(a, past[n - 2] as int, 0);
    }
}

/// Mass falls with the distance from the seed: along a chain that is seeded at
/// its head, and with a damping of at most one half, no node has more than the
/// one before it after any number of iterations. Rounding may add up to four
/// units of the smallest mass there is.
pub proof fn lemma_mass_falls_along_a_chain(g: &Kg, a: Damping, iters: nat, u: int)
    requires
        is_chain(g),
        a.valid(),
        2 * a.num <= a.den,
        0 < u < g.n_nodes,
    ensures
        ppr::iterated(g, seq![0usize], a, iters)[u] <= ppr::iterated(
            g,
            seq![0usize],
            a,
            iters,
        )[u - 1] + 4,
    decreases iters, 0int,
{
    let seeds = seq![0usize];
    let n = g.n_nodes as int;
    lemma_link_start(g, a);
    assert(ppr::seeds_fit(g, seeds));
    lemma_two_masses(g, seeds, a, iters);
    if iters > 0 {
        let k = (iters - 1) as nat;
        let pi = ppr::iterated(g, seeds, a, k);
        lemma_link_step(g, a, k);
        if u > 1 {
            lemma_falling_share(g, a, k, u - 1);
            lemma_link_share(g, a, pi, u);
            lemma_passed(a, pi[u] as int, 0);
            if u < n - 1 {
                if u + 1 < n - 1 {
                    lemma_falling_share(g, a, k, u + 1);
                } else {
                    lemma_end_has_half(g, a, k);
                    lemma_link_share(g, a, pi, u + 1);
                    let (x, y) = (pi[u] as int, pi[u + 1] as int);
                    lemma_passed_twice(a, y);
                    lemma_passed(a, x, 6);
                    lemma_passed(a, 2 * y, x + 6 - 2 * y);
                }
            }
        }
    }
}

/// A node inside a chain passes on no more than the one before it, but for the
/// rounding.
proof fn lemma_falling_share(g: &Kg, a: Damping, k: nat, v: int)
    requires
        is_chain(g),
        at_most_half(a),
        0 < v < g.n_nodes - 1,
    ensures
        ppr::share(g, a, ppr::iterated(g, seq![0usize], a, k))(v) <= ppr::share(
            g,
            a,
            ppr::iterated(g, seq![0usize], a, k),
        )(v - 1) + 2,
    decreases k, 1int,
{
    let pi = ppr::iterated(g, seq![0usize], a, k);
    lemma_mass_falls_along_a_chain(g, a, k, v);
    lemma_link_share(g, a, pi, v);
    lemma_link_share(g, a, pi, v - 1);
    let (x, y) = (pi[v - 1] as int, pi[v] as int);
    lemma_passed(a, x, 4);
    lemma_passed(a, y, x + 4 - y);
}

} // verus!
