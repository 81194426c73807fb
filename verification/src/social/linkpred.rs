//! Link prediction: scores for pairs that are not joined yet.
//!
//! Friends of friends become friends: the scores read what two nodes share. A
//! shared neighbour who knows everybody says little, one who knows three people
//! says a lot; the product of the degrees says nothing of what is shared.

pub use crate::social::collab::{collab_instance, evaluate};

use crate::math;
use crate::social::bipartite;
use crate::social::collab;
use crate::social::collab::Collab;
use crate::social::recs;
use vstd::prelude::*;

verus! {

/// The neighbours of a node.
pub open spec fn circle(g: &Collab, v: u32) -> Set<u32> {
    g.adj@[v as int]@.to_set()
}

/// The neighbour lists of two nodes name nodes once.
proof fn lemma_lists(g: &Collab, x: u32)
    requires
        g.well_formed(),
        x < g.n_nodes,
    ensures
        bipartite::is_choice(g.adj@[x as int]@, g.n_nodes as int),
        g.adj@[x as int]@.len() <= g.n_nodes,
        circle(g, x).len() == g.adj@[x as int]@.len(),
{
    let list = g.adj@[x as int]@;
    assert(bipartite::rows_of(g.adj@)[x as int] == list);
    math::lemma_distinct_numbers(list, g.n_nodes as nat);
    list.unique_seq_to_set();
}

/// How many neighbours two nodes share.
pub fn common_neighbors(g: &Collab, x: u32, y: u32) -> (n: u128)
    requires
        g.well_formed(),
        x < g.n_nodes,
        y < g.n_nodes,
    ensures
        n == circle(g, x).intersect(circle(g, y)).len(),
{
    let (a, b) = (g.neighbors(x), g.neighbors(y));
    proof {
        lemma_lists(g, x);
        lemma_lists(g, y);
        assert(circle(g, x).intersect(circle(g, y)) =~= circle(g, y).intersect(circle(g, x)));
        recs::lemma_shared(a@, b@, a@.len());
        recs::lemma_shared(b@, a@, b@.len());
        assert(a@.take(a@.len() as int) =~= a@);
        assert(b@.take(b@.len() as int) =~= b@);
    }
    let (n, of) = if a.len() <= b.len() {
        recs::overlap(a, b)
    } else {
        recs::overlap(b, a)
    };
    n as u128
}

/// The score of two nodes that share everything.
pub const WHOLE: u64 = 0x8000_0000_0000_0000;

/// A part of a whole in units of `1 / WHOLE`, rounded down; 0 of nothing.
pub open spec fn part_of(part: nat, whole: nat) -> int {
    if whole == 0 {
        0
    } else {
        part * WHOLE / (whole as int)
    }
}

/// Shared neighbours out of all neighbours of the two, so that two hubs with
/// fifty shared out of thousands do not outrank five out of six.
pub fn jaccard(g: &Collab, x: u32, y: u32) -> (s: u128)
    requires
        g.well_formed(),
        x < g.n_nodes,
        y < g.n_nodes,
    ensures
        s == part_of(
            circle(g, x).intersect(circle(g, y)).len(),
            circle(g, x).union(circle(g, y)).len(),
        ),
{
    let shared = common_neighbors(g, x, y);
    proof {
        lemma_lists(g, x);
        lemma_lists(g, y);
        vstd::set_lib::lemma_set_intersect_union_lens(circle(g, x), circle(g, y));
        vstd::set_lib::lemma_len_subset(
            circle(g, x).intersect(circle(g, y)),
            circle(g, x),
        );
        vstd::set_lib::lemma_len_subset(
            circle(g, x).intersect(circle(g, y)),
            circle(g, y),
        );
    }
    let all = g.degree(x) as u128 + g.degree(y) as u128 - shared;
    if all == 0 {
        return 0;
    }
    proof {
        let (p, w) = (shared as int, all as int);
        assert(p <= w);
        assert(p * WHOLE <= WHOLE * w) by (nonlinear_arith)
            requires
                p <= w,
        ;
        vstd::arithmetic::div_mod::lemma_div_is_ordered(p * WHOLE, WHOLE * w, w);
        vstd::arithmetic::div_mod::lemma_div_multiples_vanish(WHOLE as int, w);
        assert(WHOLE * w == w * WHOLE) by (nonlinear_arith);
        assert(0 <= p * WHOLE <= 0xffff_ffff_ffff_ffff * 0x8000_0000_0000_0000)
            by (nonlinear_arith)
            requires
                0 <= p <= 0xffff_ffff_ffff_ffff,
                WHOLE == 0x8000_0000_0000_0000,
        ;
        vstd::arithmetic::div_mod::lemma_div_pos_is_pos(p * WHOLE, w);
    }
    shared * WHOLE as u128 / all
}

/// Scores order pairs as the exact parts do, as long as the wholes are at most
/// 2^31.
pub proof fn lemma_parts_are_ordered(p: nat, v: nat, q: nat, w: nat)
    requires
        0 < v <= 0x8000_0000,
        0 < w <= 0x8000_0000,
    ensures
        p * w < q * v ==> part_of(p, v) < part_of(q, w),
        p * w == q * v ==> part_of(p, v) == part_of(q, w),
{
    let (p, v, q, w) = (p as int, v as int, q as int, w as int);
    let one = WHOLE as int;
    let a = (p * one) / v;
    let b = (q * one) / w;
    vstd::arithmetic::div_mod::lemma_fundamental_div_mod(p * one, v);
    vstd::arithmetic::div_mod::lemma_fundamental_div_mod(q * one, w);
    let (r, s) = ((p * one) % v, (q * one) % w);
    assert(p * one == v * a + r && 0 <= r < v);
    assert(q * one == w * b + s && 0 <= s < w);
    assert((q * v - p * w) * one == (q * one) * v - (p * one) * w) by (nonlinear_arith);
    assert((w * b + s) * v == (v * w) * b + s * v) by (nonlinear_arith);
    assert((v * a + r) * w == (v * w) * a + r * w) by (nonlinear_arith);
    assert((v * w) * b - (v * w) * a == (v * w) * (b - a)) by (nonlinear_arith);
    assert(0 <= s * v <= (w - 1) * v && 0 <= r * w <= (v - 1) * w) by (nonlinear_arith)
        requires
            0 <= s <= w - 1,
            0 <= r <= v - 1,
            0 < v,
            0 < w,
    ;
    assert((w - 1) * v < v * w && (v - 1) * w < v * w) by (nonlinear_arith)
        requires
            0 < v,
            0 < w,
    ;
    assert(v * w <= 0x8000_0000 * 0x8000_0000) by (nonlinear_arith)
        requires
            0 < v <= 0x8000_0000,
            0 < w <= 0x8000_0000,
    ;
    if p * w < q * v {
        assert((q * v - p * w) * one >= one) by (nonlinear_arith)
            requires
                q * v - p * w >= 1,
                one > 0,
        ;
        if b <= a {
            assert((v * w) * (b - a) <= 0) by (nonlinear_arith)
                requires
                    0 < v,
                    0 < w,
                    b <= a,
            ;
        }
    } else if p * w == q * v {
        assert((q * v - p * w) * one == 0) by (nonlinear_arith)
            requires
                q * v == p * w,
        ;
        if b < a {
            assert((v * w) * (b - a) <= -(v * w)) by (nonlinear_arith)
                requires
                    0 < v,
                    0 < w,
                    b <= a - 1,
            ;
        } else if b > a {
            assert((v * w) * (b - a) >= v * w) by (nonlinear_arith)
                requires
                    0 < v,
                    0 < w,
                    b >= a + 1,
            ;
        }
    }
}

/// What a shared neighbour of degree `d` adds; one that knows nobody else adds
/// nothing.
pub open spec fn rarity(weights: Seq<u64>, d: int) -> int {
    if d <= 1 {
        0
    } else {
        weights[d] as int
    }
}

/// What those among the first `n` neighbours of `x` add that `y` has as well.
pub open spec fn rare_weight(g: &Collab, x: u32, y: u32, weights: Seq<u64>, n: nat) -> int
    decreases n,
{
    if n == 0 {
        0
    } else {
        let z = g.adj@[x as int]@[n - 1];
        rare_weight(g, x, y, weights, (n - 1) as nat) + if circle(g, y).contains(z) {
            rarity(weights, g.adj@[z as int]@.len() as int)
        } else {
            0
        }
    }
}

/// The table has a weight for every degree.
pub open spec fn covers(g: &Collab, weights: Seq<u64>) -> bool {
    forall|v: int| 0 <= v < g.n_nodes ==> (#[trigger] g.adj@[v])@.len() < weights.len()
}

/// Shared neighbours, each weighed by its degree: with weights that fall, such
/// as `1 / ln d`, rare ones count for more.
pub fn adamic_adar(g: &Collab, x: u32, y: u32, weights: &Vec<u64>) -> (s: u128)
    requires
        g.well_formed(),
        x < g.n_nodes,
        y < g.n_nodes,
        covers(g, weights@),
    ensures
        s == rare_weight(g, x, y, weights@, g.adj@[x as int]@.len()),
{
    let (a, b) = (g.neighbors(x), g.neighbors(y));
    proof {
        lemma_lists(g, x);
    }
    let mut s: u128 = 0;
    for i in 0..a.len()
        invariant
            g.well_formed(),
            covers(g, weights@),
            a@ == g.adj@[x as int]@,
            b@ == g.adj@[y as int]@,
            bipartite::is_choice(a@, g.n_nodes as int),
            a@.len() <= g.n_nodes,
            s == rare_weight(g, x, y, weights@, i as nat),
            s <= i * 0xffff_ffff_ffff_ffff,
    {
        let z = a[i];
        assert(a@[i as int] < g.n_nodes);
        assert(g.adj@[z as int]@.len() < weights@.len());
        let d = g.degree(z);
        if d > 1 && bipartite::has_item(b, z) {
            assert(i * 0xffff_ffff_ffff_ffff <= 0xffff_fffe * 0xffff_ffff_ffff_ffff)
                by (nonlinear_arith)
                requires
                    i <= 0xffff_fffe,
            ;
            s = s + weights[d] as u128;
        }
    }
    s
}

/// Whoever two nodes share knows both.
proof fn lemma_shared_knows_two(g: &Collab, x: u32, y: u32, z: u32)
    requires
        g.well_formed(),
        x < g.n_nodes,
        y < g.n_nodes,
        x != y,
        g.adj@[x as int]@.contains(z),
        g.adj@[y as int]@.contains(z),
    ensures
        z < g.n_nodes,
        g.adj@[z as int]@.len() >= 2,
{
    let rows = bipartite::rows_of(g.adj@);
    assert(rows[x as int].contains(z) && rows[y as int].contains(z));
    let i = choose|i: int| 0 <= i < rows[x as int].len() && rows[x as int][i] == z;
    assert(bipartite::is_choice(rows[x as int], g.n_nodes as int));
    assert(rows[x as int][i] < g.n_nodes);
    assert(rows[z as int].contains(x) && rows[z as int].contains(y));
    let p = choose|p: int| 0 <= p < rows[z as int].len() && rows[z as int][p] == x;
    let q = choose|q: int| 0 <= q < rows[z as int].len() && rows[z as int][q] == y;
    assert(p != q);
}

proof fn lemma_flat(g: &Collab, x: u32, y: u32, weights: Seq<u64>, n: nat)
    requires
        g.well_formed(),
        x < g.n_nodes,
        y < g.n_nodes,
        x != y,
        covers(g, weights),
        forall|d: int| 0 <= d < weights.len() ==> #[trigger] weights[d] == 1,
        n <= g.adj@[x as int]@.len(),
    ensures
        rare_weight(g, x, y, weights, n) == recs::shared(
            g.adj@[x as int]@,
            g.adj@[y as int]@,
            n,
        ),
    decreases n,
{
    if n > 0 {
        lemma_flat(g, x, y, weights, (n - 1) as nat);
        let z = g.adj@[x as int]@[n - 1];
        if g.adj@[y as int]@.contains(z) {
            assert(g.adj@[x as int]@.contains(z));
            lemma_shared_knows_two(g, x, y, z);
            assert(g.adj@[z as int]@.len() < weights.len());
        }
    }
}

/// With one weight for all, the weighed score is the number of shared
/// neighbours: nobody shared is left out.
pub proof fn lemma_flat_weights_count(g: &Collab, x: u32, y: u32, weights: Seq<u64>)
    requires
        g.well_formed(),
        x < g.n_nodes,
        y < g.n_nodes,
        x != y,
        covers(g, weights),
        forall|d: int| 0 <= d < weights.len() ==> #[trigger] weights[d] == 1,
    ensures
        rare_weight(g, x, y, weights, g.adj@[x as int]@.len()) == circle(g, x).intersect(
            circle(g, y),
        ).len(),
{
    let list = g.adj@[x as int]@;
    lemma_lists(g, x);
    lemma_flat(g, x, y, weights, list.len());
    recs::lemma_shared(list, g.adj@[y as int]@, list.len());
    assert(list.take(list.len() as int) =~= list);
}

/// The product of the two degrees, which never looks at what is shared.
pub fn preferential_attachment(g: &Collab, x: u32, y: u32) -> (s: u128)
    requires
        g.well_formed(),
        x < g.n_nodes,
        y < g.n_nodes,
    ensures
        s == g.adj@[x as int]@.len() * g.adj@[y as int]@.len(),
{
    proof {
        lemma_lists(g, x);
        lemma_lists(g, y);
        let (a, b) = (g.adj@[x as int]@.len(), g.adj@[y as int]@.len());
        assert(a * b <= 0xffff_ffff * 0xffff_ffff) by (nonlinear_arith)
            requires
                a <= 0xffff_ffff,
                b <= 0xffff_ffff,
        ;
    }
    g.degree(x) as u128 * g.degree(y) as u128
}

/// Scores every candidate pair.
pub fn score_all<F: Fn(&Collab, u32, u32) -> u128>(g: &Collab, f: F) -> (scored: Vec<
    ((u32, u32), u128),
>)
    requires
        g.well_formed(),
        forall|a: u32, b: u32|
            a < g.n_nodes && b < g.n_nodes ==> #[trigger] f.requires((g, a, b)),
    ensures
        ({
            let pairs = collab::open_pairs(bipartite::rows_of(g.adj@), g.core@, g.core@.len());
            &&& scored@.len() == pairs.len()
            &&& forall|i: int|
                0 <= i < pairs.len() ==> (#[trigger] scored@[i]).0 == pairs[i] && f.ensures(
                    (g, pairs[i].0, pairs[i].1),
                    scored@[i].1,
                )
        }),
{
    let pairs = g.candidates();
    let mut scored: Vec<((u32, u32), u128)> = Vec::new();
    for i in 0..pairs.len()
        invariant
            forall|a: u32, b: u32|
                a < g.n_nodes && b < g.n_nodes ==> #[trigger] f.requires((g, a, b)),
            forall|i: int|
                0 <= i < pairs@.len() ==> (#[trigger] pairs@[i]).0 < g.n_nodes && pairs@[i].1
                    < g.n_nodes,
            scored@.len() == i,
            forall|j: int|
                0 <= j < i ==> (#[trigger] scored@[j]).0 == pairs@[j] && f.ensures(
                    (g, pairs@[j].0, pairs@[j].1),
                    scored@[j].1,
                ),
    {
        let (a, b) = pairs[i];
        assert(pairs@[i as int].0 < g.n_nodes);
        let s = f(g, a, b);
        scored.push(((a, b), s));
    }
    scored
}

/// Neighbour `i` of `x` is one of `y` too, and has `d` neighbours itself.
pub open spec fn is_shared_of_degree(g: &Collab, x: u32, y: u32, d: int) -> spec_fn(int) -> bool {
    |i: int|
        g.adj@[y as int]@.contains(g.adj@[x as int]@[i])
            && g.adj@[g.adj@[x as int]@[i] as int]@.len() == d
}

/// A shared neighbour counts by its own degree: where only nodes of degree `d` weigh
/// anything, the score is that weight for every shared neighbour of degree `d`.
pub proof fn lemma_weights_go_by_degree(
    g: &Collab,
    x: u32,
    y: u32,
    weights: Seq<u64>,
    d: int,
    n: nat,
)
    requires
        g.well_formed(),
        covers(g, weights),
        x < g.n_nodes,
        2 <= d < weights.len(),
        n <= g.adj@[x as int]@.len(),
        forall|k: int| 0 <= k < weights.len() && k != d ==> #[trigger] weights[k] == 0,
    ensures
        rare_weight(g, x, y, weights, n) == weights[d] * math::count(
            n,
            is_shared_of_degree(g, x, y, d),
        ),
    decreases n,
{
    let w = weights[d] as int;
    if n == 0 {
        assert(w * 0 == 0) by (nonlinear_arith);
    } else {
        lemma_weights_go_by_degree(g, x, y, weights, d, (n - 1) as nat);
        let c = math::count((n - 1) as nat, is_shared_of_degree(g, x, y, d)) as int;
        assert(w * (c + 1) == w * c + w) by (nonlinear_arith);
        let z = g.adj@[x as int]@[n - 1];
        assert(circle(g, y).contains(z) <==> g.adj@[y as int]@.contains(z));
        assert(bipartite::rows_of(g.adj@)[x as int] == g.adj@[x as int]@);
        assert(z < g.n_nodes);
        assert(g.adj@[z as int]@.len() < weights.len());
    }
}

} // verus!
