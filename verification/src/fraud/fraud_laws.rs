//! What is planted in review graphs and in lists of records.

use crate::debugging::rank_laws;
use crate::double;
use crate::fraud::er;
use crate::fraud::review_graph;
use crate::fraud::review_graph::{FraudConfig, ReviewGraph, Suspicion};
use crate::rng;
use crate::zipf::Zipf;
use vstd::prelude::*;

verus! {

/// The edge joins a user and an object of the injected block.
pub open spec fn is_planted(cfg: FraudConfig, e: (usize, usize)) -> bool {
    cfg.n_users <= e.0 < cfg.n_users + cfg.block_users && cfg.n_objects <= e.1 < cfg.n_objects
        + cfg.block_objects
}

/// Cell `(u, o)` of the block comes before place `o1` of row `u1`.
spec fn is_earlier(cfg: FraudConfig, e: (usize, usize), u1: int, o1: int) -> bool {
    let (u, o) = (e.0 - cfg.n_users, e.1 - cfg.n_objects);
    0 <= u && 0 <= o < cfg.block_objects && (u < u1 || (u == u1 && o < o1))
}

proof fn lemma_with_edge(edges: Seq<(usize, usize)>, e: (usize, usize), x: (usize, usize))
    ensures
        review_graph::with_edge(edges, e).contains(x) <==> edges.contains(x) || x == e,
{
    let now = review_graph::with_edge(edges, e);
    if !edges.contains(e) {
        assert(now[edges.len() as int] == e);
        if edges.contains(x) {
            let i = choose|i: int| 0 <= i < edges.len() && edges[i] == x;
            assert(now[i] == x);
        }
        if now.contains(x) {
            let i = choose|i: int| 0 <= i < now.len() && now[i] == x;
            if i < edges.len() {
                assert(edges[i] == x);
            }
        }
    }
}

/// The block adds edges of its own users to its own objects and no others: all of
/// them where its density is one, and none where it is zero.
pub proof fn lemma_block(
    cfg: FraudConfig,
    edges: Seq<(usize, usize)>,
    stream: Map<nat, u32>,
    x: (usize, usize),
)
    requires
        cfg.fits(),
    ensures
        ({
            let now = review_graph::block(cfg, edges, stream, cfg.block_users as nat, 0).0;
            &&& edges.contains(x) ==> now.contains(x)
            &&& now.contains(x) ==> edges.contains(x) || is_planted(cfg, x)
            &&& cfg.block_density >= 9_007_199_254_740_992 && is_planted(cfg, x) ==> now.contains(
                x,
            )
            &&& cfg.block_density == 0 ==> (now.contains(x) <==> edges.contains(x))
        }),
{
    lemma_block_until(cfg, edges, stream, cfg.block_users as nat, 0, x);
}

proof fn lemma_block_until(
    cfg: FraudConfig,
    edges: Seq<(usize, usize)>,
    stream: Map<nat, u32>,
    u: nat,
    o: nat,
    x: (usize, usize),
)
    requires
        cfg.fits(),
        u <= cfg.block_users,
        o <= cfg.block_objects,
        u == cfg.block_users ==> o == 0,
    ensures
        ({
            let now = review_graph::block(cfg, edges, stream, u, o).0;
            &&& edges.contains(x) ==> now.contains(x)
            &&& now.contains(x) ==> edges.contains(x) || is_planted(cfg, x)
            &&& cfg.block_density >= 9_007_199_254_740_992 && is_earlier(cfg, x, u as int, o as int)
                ==> now.contains(x)
            &&& cfg.block_density == 0 ==> (now.contains(x) <==> edges.contains(x))
        }),
    decreases u, o,
{
    if o > 0 {
        lemma_block_until(cfg, edges, stream, u, (o - 1) as nat, x);
        let (before, rest) = review_graph::block(cfg, edges, stream, u, (o - 1) as nat);
        let e = ((cfg.n_users + u) as usize, (cfg.n_objects + (o - 1)) as usize);
        lemma_with_edge(before, e, x);
        assert(rest[0] <= 0xffff_ffff && rest[1] <= 0xffff_ffff);
    } else if u > 0 {
        lemma_block_until(
            cfg,
            edges,
            stream,
            (u - 1) as nat,
            cfg.block_objects as nat,
            x,
        );
    }
}

/// Camouflage adds at most as many edges as it should, all of them by the user it is
/// for, and takes none away.
pub proof fn lemma_disguise(
    zc: Seq<u64>,
    user: usize,
    edges: Seq<(usize, usize)>,
    stream: Map<nat, u32>,
    left: nat,
    tries: nat,
    x: (usize, usize),
)
    ensures
        ({
            let now = review_graph::disguise(zc, user, edges, stream, left, tries).0;
            &&& edges.len() <= now.len() <= edges.len() + left
            &&& edges.contains(x) ==> now.contains(x)
            &&& now.contains(x) ==> edges.contains(x) || x.0 == user
        }),
    decreases tries,
{
    if left > 0 && tries > 0 {
        let (o, rest) = crate::zipf::ranked(zc, stream);
        let more = review_graph::with_edge(edges, (user, o));
        let next = if edges.contains((user, o)) {
            left
        } else {
            (left - 1) as nat
        };
        lemma_with_edge(edges, (user, o), x);
        lemma_disguise(zc, user, more, rest, next, (tries - 1) as nat, x);
    }
}

/// The camouflage of a user is the ratio times their fraud edges, rounded to the
/// nearest: off by at most one half, and one part in 2^53.
pub proof fn lemma_camouflage(cfg: FraudConfig, n: int)
    requires
        1 <= n <= 0x20_0000_0000_0000,
        cfg.camo_ratio.value() >= 0x10_0000_0000_0000,
        cfg.camouflage(n) < u64::MAX,
    ensures
        ({
            let (u, exact) = (double::one(), cfg.camo_ratio.value() * n);
            let off = 2 * (u * cfg.camouflage(n)) - 2 * exact;
            &&& 0x20_0000_0000_0000 * (off - u) <= 2 * exact
            &&& 0x20_0000_0000_0000 * (off + u) >= -(2 * exact)
        }),
{
    let (u, v) = (double::one(), cfg.camo_ratio.value());
    double::lemma_one();
    rank_laws::lemma_product_error(v, n);
    let prod = double::product(double::of(n), v);
    let x = 2 * prod + u;
    vstd::arithmetic::div_mod::lemma_fundamental_div_mod(x, 2 * u);
    vstd::arithmetic::div_mod::lemma_mod_bound(x, 2 * u);
    let q = x / (2 * u);
    assert((2 * u) * q == 2 * (u * q)) by (nonlinear_arith);
    assert(v * n >= 0) by (nonlinear_arith)
        requires
            v >= 0,
            n >= 0,
    ;
    assert(prod >= 0);
    vstd::arithmetic::div_mod::lemma_div_pos_is_pos(x, 2 * u);
}

/// A stream in which no coin comes up but a sure one.
pub open spec fn ones() -> Map<nat, u32> {
    Map::new(|i: nat| true, |i: nat| 0xffff_ffffu32)
}

/// A record says of every field what is true or what was drawn in its place; and where
/// no coin comes up, all of it is true.
pub proof fn lemma_fields(a: Seq<u32>, b: Seq<u32>, stream: Map<nat, u32>, f: nat, g: int)
    requires
        f <= 5,
        f <= a.len(),
        f <= b.len(),
        0 <= g < f,
    ensures
        ({
            let (x, y) = (er::copied(a, stream, f).0, er::copied(b, stream, f).0);
            &&& x.len() == f
            &&& x[g] == y[g] || (x[g] == a[g] && y[g] == b[g])
            &&& stream == ones() ==> x[g] == a[g]
        }),
    decreases f,
{
    lemma_fields_from(a, b, stream, f);
}

proof fn lemma_fields_from(a: Seq<u32>, b: Seq<u32>, stream: Map<nat, u32>, f: nat)
    requires
        f <= 5,
        f <= a.len(),
        f <= b.len(),
    ensures
        ({
            let ((x, s), (y, t)) = (er::copied(a, stream, f), er::copied(b, stream, f));
            &&& x.len() == f
            &&& y.len() == f
            &&& s == t
            &&& forall|g: int|
                0 <= g < f ==> #[trigger] x[g] == y[g] || (x[g] == a[g] && y[g] == b[g])
            &&& stream == ones() ==> s == ones() && forall|g: int|
                0 <= g < f ==> #[trigger] x[g] == a[g]
        }),
    decreases f,
{
    if f > 0 {
        lemma_fields_from(a, b, stream, (f - 1) as nat);
        let rest = er::copied(a, stream, (f - 1) as nat).1;
        if stream == ones() {
            assert(rng::skip_words(rest, 2) =~= ones());
            assert(rest[0] == 0xffff_ffff && rest[1] == 0xffff_ffff);
        }
    }
}

/// Every person has as many records as the others, one after another.
pub proof fn lemma_population(stream: Map<nat, u32>, dups: nat, e: nat, i: int)
    requires
        0 <= i < e * dups,
    ensures
        er::population(stream, dups, e).0.len() == e * dups,
        er::population(stream, dups, e).0[i].0 * dups <= i,
        i < (er::population(stream, dups, e).0[i].0 + 1) * dups,
    decreases e,
{
    lemma_population_len(stream, dups, e);
    let (before, rest) = er::population(stream, dups, (e - 1) as nat);
    lemma_population_len(stream, dups, (e - 1) as nat);
    let (truth, mid) = er::person(rest, er::FIELDS as nat);
    lemma_copies(truth, mid, dups, e - 1);
    assert((e - 1) * dups + dups == e * dups) by (nonlinear_arith);
    assert((e - 1 + 1) * dups == e * dups);
    if i < (e - 1) * dups {
        lemma_population(stream, dups, (e - 1) as nat, i);
    } else {
        let rows = er::copies(truth, mid, dups, e - 1).0;
        assert(er::population(stream, dups, e).0[i] == rows[i - before.len()]);
    }
}

proof fn lemma_population_len(stream: Map<nat, u32>, dups: nat, e: nat)
    ensures
        er::population(stream, dups, e).0.len() == e * dups,
    decreases e,
{
    if e > 0 {
        lemma_population_len(stream, dups, (e - 1) as nat);
        let rest = er::population(stream, dups, (e - 1) as nat).1;
        let (truth, mid) = er::person(rest, er::FIELDS as nat);
        lemma_copies(truth, mid, dups, e - 1);
        assert((e - 1) * dups + dups == e * dups) by (nonlinear_arith);
    } else {
        assert(0 * dups == 0) by (nonlinear_arith);
    }
}

proof fn lemma_copies(truth: Seq<u32>, stream: Map<nat, u32>, d: nat, e: int)
    ensures
        er::copies(truth, stream, d, e).0.len() == d,
        forall|i: int| 0 <= i < d ==> (#[trigger] er::copies(truth, stream, d, e).0[i]).0 == e,
    decreases d,
{
    if d > 0 {
        lemma_copies(truth, stream, (d - 1) as nat, e);
    }
}

/// By obscurity, users with ten reviews or more come first, and of two such users the
/// one whose objects have fewer reviews on average; by degree, the one with more
/// reviews. Between equals the smaller number decides.
pub proof fn lemma_suspicion(g: &ReviewGraph, a: int, b: int)
    requires
        0 <= review_graph::popularity(g, a) <= 0x20_0000_0000_0000,
        0 <= review_graph::popularity(g, b) <= 0x20_0000_0000_0000,
        g.user_adj@[a]@.len() <= 0x20_0000_0000_0000,
        g.user_adj@[b]@.len() <= 0x20_0000_0000_0000,
    ensures
        ({
            let (x, y) = (g.user_adj@[a]@.len(), g.user_adj@[b]@.len());
            let (p, q) = (review_graph::popularity(g, a), review_graph::popularity(g, b));
            &&& x > y ==> review_graph::ahead(g, Suspicion::Degree, a, b)
            &&& x == y ==> (review_graph::ahead(g, Suspicion::Degree, a, b) <==> a < b)
            &&& x >= 10 > y ==> review_graph::ahead(g, Suspicion::Obscurity, a, b)
                && !review_graph::ahead(g, Suspicion::Obscurity, b, a)
            &&& x >= 10 && y >= 10 && p * y <= q * x && a < b ==> review_graph::ahead(
                g,
                Suspicion::Obscurity,
                a,
                b,
            )
            &&& x >= 10 && y >= 10 && p * y <= q * x && a < b ==> !review_graph::ahead(
                g,
                Suspicion::Obscurity,
                b,
                a,
            )
        }),
{
    let (x, y) = (g.user_adj@[a]@.len() as int, g.user_adj@[b]@.len() as int);
    let (p, q) = (review_graph::popularity(g, a), review_graph::popularity(g, b));
    if x >= 10 && y >= 10 && p * y <= q * x {
        let u = double::one();
        double::lemma_one();
        double::lemma_of_exact(p);
        double::lemma_of_exact(q);
        double::lemma_of_exact(x);
        double::lemma_of_exact(y);
        assert(0 < x * u && 0 < y * u && 0 <= (p * u) * u && 0 <= (q * u) * u && ((p * u) * u) * (y
            * u) <= ((q * u) * u) * (x * u)) by (nonlinear_arith)
            requires
                p * y <= q * x,
                p >= 0,
                q >= 0,
                x > 0,
                y > 0,
                u > 0,
        ;
        double::lemma_rounded_monotone((p * u) * u, x * u, (q * u) * u, y * u);
    }
}

/// Background edges join a user that one sampler draws with an object that the other
/// draws, at most as many as wanted.
pub proof fn lemma_background(
    zu: &Zipf,
    zo: &Zipf,
    edges: Seq<(usize, usize)>,
    stream: Map<nat, u32>,
    want: nat,
    tries: nat,
    x: (usize, usize),
)
    requires
        zu.well_formed(),
        zo.well_formed(),
        edges.len() <= want,
    ensures
        ({
            let now = review_graph::background(
                zu.steps@,
                zo.steps@,
                edges,
                stream,
                want,
                tries,
            ).0;
            &&& now.len() <= want
            &&& edges.contains(x) ==> now.contains(x)
            &&& now.contains(x) ==> edges.contains(x) || (x.0 < zu.steps@.len() && x.1
                < zo.steps@.len())
            &&& tries > 0 && want > 0 ==> now.len() > 0
        }),
    decreases tries,
{
    if edges.len() < want && tries > 0 {
        let (u, mid) = crate::zipf::ranked(zu.steps@, stream);
        let (o, rest) = crate::zipf::ranked(zo.steps@, mid);
        crate::zipf::lemma_rank_below(zu, stream);
        crate::zipf::lemma_rank_below(zo, mid);
        let more = review_graph::with_edge(edges, (u, o));
        lemma_with_edge(edges, (u, o), x);
        lemma_with_edge(edges, (u, o), (u, o));
        lemma_background(zu, zo, more, rest, want, (tries - 1) as nat, x);
        lemma_background(zu, zo, more, rest, want, (tries - 1) as nat, (u, o));
    }
}

} // verus!
