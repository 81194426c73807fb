//! A review graph in which naive fraud detection fails: camouflage.
//!
//! Users review objects, with a skewed background and an injected fraud block:
//! paid accounts that all review the same obscure objects, and then popular
//! ones as camouflage. Ranking users by degree misses the block, since honest
//! power users review more; ranking them by the obscurity of what they review
//! works until camouflage, since the fraudster controls his row.

pub use crate::rng::seeded_rng;

use crate::double;
use crate::double::Double;
use crate::math;
use crate::rng;
use crate::zipf;
use crate::zipf::Zipf;
use rand_chacha::ChaCha8Rng;
use std::collections::HashSet;
use vstd::prelude::*;

verus! {

broadcast use vstd::std_specs::hash::group_hash_axioms;

#[derive(Debug)]
pub struct ReviewGraph {
    pub n_users: usize,
    pub n_objects: usize,
    /// User and object, each pair once.
    pub edges: Vec<(usize, usize)>,
    /// The objects that each user reviewed.
    pub user_adj: Vec<Vec<usize>>,
    /// How often each object was reviewed.
    pub obj_deg: Vec<usize>,
    /// The injected block.
    pub fraud_users: Vec<usize>,
    pub fraud_objects: Vec<usize>,
}

#[derive(Clone, Copy, Debug)]
pub struct FraudConfig {
    pub n_users: usize,
    pub n_objects: usize,
    pub background_edges: usize,
    pub block_users: usize,
    pub block_objects: usize,
    /// The density of the block in units of 2^-53.
    pub block_density: u64,
    /// Camouflage edges per fraud edge, per fraud user.
    pub camo_ratio: Double,
}

impl Default for FraudConfig {
    fn default() -> (c: FraudConfig)
        ensures
            c == (FraudConfig {
                n_users: 2_000,
                n_objects: 2_000,
                background_edges: 20_000,
                block_users: 20,
                block_objects: 80,
                block_density: rng::UNIT,
                camo_ratio: (Double { m: 0, e: 0 }),
            }),
    {
        FraudConfig {
            n_users: 2_000,
            n_objects: 2_000,
            background_edges: 20_000,
            block_users: 20,
            block_objects: 80,
            block_density: rng::UNIT,
            camo_ratio: Double { m: 0, e: 0 },
        }
    }
}

impl FraudConfig {
    pub open spec fn users(&self) -> int {
        self.n_users + self.block_users
    }

    pub open spec fn objects(&self) -> int {
        self.n_objects + self.block_objects
    }

    /// The numbers fit the machine, and the ratio is one.
    pub open spec fn fits(&self) -> bool {
        &&& self.users() <= u32::MAX
        &&& self.objects() <= u32::MAX
        &&& self.users() <= usize::MAX
        &&& self.objects() <= usize::MAX
        &&& self.background_edges * 10 <= usize::MAX
        &&& self.camo_ratio.finite()
        &&& self.camouflage(self.block_objects as int) * 10 + 10 <= usize::MAX
    }

    /// Camouflage edges for a user with `n` fraud edges, computed in double
    /// precision and rounded to the nearest, halves up.
    pub open spec fn camouflage(&self, n: int) -> int {
        double::saturated(
            double::nearest(double::product(double::of(n), self.camo_ratio.value())),
        ) as int
    }
}

/// The edges with one more, unless it is there.
pub open spec fn with_edge(edges: Seq<(usize, usize)>, e: (usize, usize)) -> Seq<(usize, usize)> {
    if edges.contains(e) {
        edges
    } else {
        edges.push(e)
    }
}

/// Background edges: pairs are drawn until there are enough, or `tries` are
/// used up.
pub open spec fn background(
    zu: Seq<u64>,
    zo: Seq<u64>,
    edges: Seq<(usize, usize)>,
    stream: Map<nat, u32>,
    want: nat,
    tries: nat,
) -> (Seq<(usize, usize)>, Map<nat, u32>)
    decreases tries,
{
    if edges.len() >= want || tries == 0 {
        (edges, stream)
    } else {
        let (u, mid) = zipf::ranked(zu, stream);
        let (o, rest) = zipf::ranked(zo, mid);
        background(zu, zo, with_edge(edges, (u, o)), rest, want, (tries - 1) as nat)
    }
}

/// The fraud block up to object `o` of user `u`: every cell with a coin.
pub open spec fn block(
    cfg: FraudConfig,
    edges: Seq<(usize, usize)>,
    stream: Map<nat, u32>,
    u: nat,
    o: nat,
) -> (Seq<(usize, usize)>, Map<nat, u32>)
    decreases u, o,
{
    if o > 0 {
        let (before, rest) = block(cfg, edges, stream, u, (o - 1) as nat);
        (
            if rng::first_u64(rest) / 2048 < cfg.block_density {
                with_edge(
                    before,
                    ((cfg.n_users + u) as usize, (cfg.n_objects + (o - 1)) as usize),
                )
            } else {
                before
            },
            rng::skip_words(rest, 2),
        )
    } else if u > 0 {
        block(cfg, edges, stream, (u - 1) as nat, cfg.block_objects as nat)
    } else {
        (edges, stream)
    }
}

/// Camouflage of one user: objects are drawn until `left` more are placed, or
/// `tries` are used up.
pub open spec fn disguise(
    zc: Seq<u64>,
    user: usize,
    edges: Seq<(usize, usize)>,
    stream: Map<nat, u32>,
    left: nat,
    tries: nat,
) -> (Seq<(usize, usize)>, Map<nat, u32>)
    decreases tries,
{
    if left == 0 || tries == 0 {
        (edges, stream)
    } else {
        let (o, rest) = zipf::ranked(zc, stream);
        disguise(
            zc,
            user,
            with_edge(edges, (user, o)),
            rest,
            if edges.contains((user, o)) {
                left
            } else {
                (left - 1) as nat
            },
            (tries - 1) as nat,
        )
    }
}

pub open spec fn is_user(edges: Seq<(usize, usize)>, u: int) -> spec_fn(int) -> bool {
    |i: int| edges[i].0 == u
}

/// How many edges a user has.
pub open spec fn edges_of(edges: Seq<(usize, usize)>, u: int) -> int {
    math::count(edges.len(), is_user(edges, u)) as int
}

/// Camouflage of the first `n` block users; `blocked` are the edges without
/// any.
pub open spec fn disguises(
    cfg: FraudConfig,
    zc: Seq<u64>,
    blocked: Seq<(usize, usize)>,
    stream: Map<nat, u32>,
    n: nat,
) -> (Seq<(usize, usize)>, Map<nat, u32>)
    decreases n,
{
    if n == 0 {
        (blocked, stream)
    } else {
        let (before, rest) = disguises(cfg, zc, blocked, stream, (n - 1) as nat);
        let user = (cfg.n_users + (n - 1)) as usize;
        let want = cfg.camouflage(edges_of(blocked, user as int)) as nat;
        disguise(zc, user, before, rest, want, want * 10 + 10)
    }
}

/// All edges of an instance, and the stream that is left.
pub open spec fn instance_edges(
    cfg: FraudConfig,
    zu: Seq<u64>,
    zo: Seq<u64>,
    zc: Seq<u64>,
    stream: Map<nat, u32>,
) -> (Seq<(usize, usize)>, Map<nat, u32>) {
    let (bg, s1) = background(
        zu,
        zo,
        Seq::empty(),
        stream,
        cfg.background_edges as nat,
        cfg.background_edges as nat * 10,
    );
    let (blocked, s2) = block(cfg, bg, s1, cfg.block_users as nat, 0);
    disguises(cfg, zc, blocked, s2, cfg.block_users as nat)
}

/// The objects of a user among the first `k` edges.
pub open spec fn reviewed(edges: Seq<(usize, usize)>, u: int, k: nat) -> Seq<usize>
    decreases k,
{
    if k == 0 {
        Seq::empty()
    } else {
        let before = reviewed(edges, u, (k - 1) as nat);
        if edges[k - 1].0 == u {
            before.push(edges[k - 1].1)
        } else {
            before
        }
    }
}

pub open spec fn is_object(edges: Seq<(usize, usize)>, o: int) -> spec_fn(int) -> bool {
    |i: int| edges[i].1 == o
}

/// Numbers from `lo` to `hi`.
pub open spec fn span(lo: int, hi: int) -> Seq<usize> {
    Seq::new((hi - lo) as nat, |i: int| (lo + i) as usize)
}

impl ReviewGraph {
    /// The lists and degrees are those of the edges, each of which is there
    /// once and joins a user with an object.
    pub open spec fn well_formed(&self) -> bool {
        &&& self.edges@.no_duplicates()
        &&& forall|i: int|
            0 <= i < self.edges@.len() ==> (#[trigger] self.edges@[i]).0 < self.n_users
                && self.edges@[i].1 < self.n_objects
        &&& self.user_adj@.len() == self.n_users
        &&& forall|u: int|
            0 <= u < self.n_users ==> (#[trigger] self.user_adj@[u])@ == reviewed(
                self.edges@,
                u,
                self.edges@.len(),
            )
        &&& self.obj_deg@.len() == self.n_objects
        &&& forall|o: int|
            0 <= o < self.n_objects ==> #[trigger] self.obj_deg@[o] == math::count(
                self.edges@.len(),
                is_object(self.edges@, o),
            )
        &&& forall|i: int|
            0 <= i < self.fraud_users@.len() ==> #[trigger] self.fraud_users@[i] < self.n_users
        &&& forall|i: int|
            0 <= i < self.fraud_objects@.len() ==> #[trigger] self.fraud_objects@[i]
                < self.n_objects
    }
}

/// The number of a pair, which tells it from every other.
spec fn pair_number(e: (usize, usize)) -> u64 {
    (e.0 * 0x1_0000_0000 + e.1) as u64
}

/// The edges so far, to be looked up.
struct EdgeSet {
    edges: Vec<(usize, usize)>,
    seen: HashSet<u64>,
}

impl EdgeSet {
    spec fn well_formed(&self) -> bool {
        &&& self.edges@.no_duplicates()
        &&& forall|i: int|
            0 <= i < self.edges@.len() ==> (#[trigger] self.edges@[i]).0 <= u32::MAX
                && self.edges@[i].1 <= u32::MAX
        &&& forall|u: usize, o: usize|
            u <= u32::MAX && o <= u32::MAX ==> (self.seen@.contains(#[trigger] pair_number((u, o)))
                <==> self.edges@.contains((u, o)))
    }

    fn new() -> (s: EdgeSet)
        ensures
            s.well_formed(),
            s.edges@ == Seq::<(usize, usize)>::empty(),
    {
        EdgeSet { edges: Vec::new(), seen: HashSet::new() }
    }

    /// Adds an edge; false where it is there already.
    fn add(&mut self, u: usize, o: usize) -> (fresh: bool)
        requires
            old(self).well_formed(),
            u <= u32::MAX,
            o <= u32::MAX,
        ensures
            final(self).well_formed(),
            final(self).edges@ == with_edge(old(self).edges@, (u, o)),
            fresh == !old(self).edges@.contains((u, o)),
    {
        let x = u as u64 * 0x1_0000_0000 + o as u64;
        assert(x == pair_number((u, o)));
        if self.seen.contains(&x) {
            return false;
        }
        let ghost before = self.edges@;
        let ghost seen0 = self.seen@;
        self.seen.insert(x);
        self.edges.push((u, o));
        proof {
            assert forall|a: usize, b: usize| a <= u32::MAX && b <= u32::MAX
                implies (self.seen@.contains(
                #[trigger] pair_number((a, b)),
            ) <==> self.edges@.contains((a, b))) by {
                assert(seen0.contains(pair_number((a, b))) <==> before.contains((a, b)));
                if before.contains((a, b)) {
                    let i = choose|i: int| 0 <= i < before.len() && before[i] == (a, b);
                    assert(self.edges@[i] == (a, b));
                }
                if self.edges@.contains((a, b)) {
                    let i = choose|i: int| 0 <= i < self.edges@.len() && self.edges@[i] == (a, b);
                    if i < before.len() {
                        assert(before[i] == (a, b));
                    }
                }
                assert(self.edges@[before.len() as int] == (u, o));
                assert(pair_number((a, b)) == pair_number((u, o)) ==> a == u && b == o);
            }
            assert forall|i: int, j: int| 0 <= i < self.edges@.len() && 0 <= j < self.edges@.len() && i != j
                implies self.edges@[i]
                != self.edges@[j] by {
                if i == before.len() {
                    assert(before.contains(before[j]));
                } else if j == before.len() {
                    assert(before.contains(before[i]));
                }
            }
        }
        true
    }
}

spec fn edges_within(edges: Seq<(usize, usize)>, n: int, m: int) -> bool {
    forall|i: int| 0 <= i < edges.len() ==> (#[trigger] edges[i]).0 < n && edges[i].1 < m
}

/// Builds a graph: a skewed background, the fraud block on ids of its own,
/// then camouflage from each block user to popular objects.
pub fn fraud_instance(
    rng: &mut ChaCha8Rng,
    cfg: &FraudConfig,
    zu: &Zipf,
    zo: &Zipf,
    zc: &Zipf,
) -> (g: ReviewGraph)
    requires
        cfg.fits(),
        zu.well_formed(),
        zo.well_formed(),
        zc.well_formed(),
        zu.steps@.len() == cfg.n_users,
        zo.steps@.len() == cfg.n_objects,
        zc.steps@.len() == cfg.n_objects,
    ensures
        g.well_formed(),
        g.n_users == cfg.users(),
        g.n_objects == cfg.objects(),
        (g.edges@, rng::words(*final(rng))) == instance_edges(
            *cfg,
            zu.steps@,
            zo.steps@,
            zc.steps@,
            rng::words(*old(rng)),
        ),
        g.fraud_users@ == span(cfg.n_users as int, cfg.users()),
        g.fraud_objects@ == span(cfg.n_objects as int, cfg.objects()),
{
    let mut set = EdgeSet::new();
    let want = cfg.background_edges;
    let mut left = want * 10;
    let ghost start = rng::words(*rng);
    let ghost after_bg = background(
        zu.steps@,
        zo.steps@,
        Seq::empty(),
        start,
        want as nat,
        want as nat * 10,
    );
    while set.edges.len() < want && left > 0
        invariant
            cfg.fits(),
            want == cfg.background_edges,
            zu.well_formed(),
            zo.well_formed(),
            zu.steps@.len() == cfg.n_users,
            zo.steps@.len() == cfg.n_objects,
            set.well_formed(),
            edges_within(set.edges@, cfg.n_users as int, cfg.n_objects as int),
            after_bg == background(
                zu.steps@,
                zo.steps@,
                set.edges@,
                rng::words(*rng),
                want as nat,
                left as nat,
            ),
        decreases left,
    {
        left -= 1;
        let u = zu.sample(rng);
        let o = zo.sample(rng);
        set.add(u, o);
    }
    let ghost bg = set.edges@;
    let ghost s1 = rng::words(*rng);
    assert(after_bg == (bg, s1));
    let mut per_user: Vec<usize> = Vec::new();
    for bu in 0..cfg.block_users
        invariant
            cfg.fits(),
            set.well_formed(),
            edges_within(bg, cfg.n_users as int, cfg.n_objects as int),
            edges_within(set.edges@, cfg.users(), cfg.objects()),
            forall|i: int|
                0 <= i < set.edges@.len() ==> (#[trigger] set.edges@[i]).0 < cfg.n_users + bu,
            (set.edges@, rng::words(*rng)) == block(*cfg, bg, s1, bu as nat, 0),
            per_user@.len() == bu,
            forall|i: int|
                0 <= i < bu ==> #[trigger] per_user@[i] == edges_of(
                    set.edges@,
                    cfg.n_users + i,
                ) && per_user@[i] <= cfg.block_objects,
    {
        let mut mine: usize = 0;
        let u = cfg.n_users + bu;
        let ghost before = set.edges@;
        proof {
            math::lemma_count_single(before.len(), is_user(before, u as int), 0, false);
        }
        for bo in 0..cfg.block_objects
            invariant
                cfg.fits(),
                bu < cfg.block_users,
                u == cfg.n_users + bu,
                set.well_formed(),
                edges_within(set.edges@, cfg.users(), cfg.objects()),
                forall|i: int|
                    0 <= i < set.edges@.len() ==> (#[trigger] set.edges@[i]).0 < cfg.n_users + bu
                        || (set.edges@[i].0 == u && set.edges@[i].1 < cfg.n_objects + bo),
                (set.edges@, rng::words(*rng)) == block(*cfg, bg, s1, bu as nat, bo as nat),
                per_user@.len() == bu,
                forall|i: int|
                    0 <= i < bu ==> #[trigger] per_user@[i] == edges_of(
                        set.edges@,
                        cfg.n_users + i,
                    ) && per_user@[i] <= cfg.block_objects,
                mine == edges_of(set.edges@, u as int),
                mine <= bo,
        {
            if rng::coin(rng, cfg.block_density) {
                let o = cfg.n_objects + bo;
                let ghost old_edges = set.edges@;
                assert(!old_edges.contains((u, o)));
                set.add(u, o);
                mine += 1;
                proof {
                    lemma_edge_counts(old_edges, (u, o));
                }
            }
        }
        per_user.push(mine);
    }
    let ghost blocked = set.edges@;
    let ghost s2 = rng::words(*rng);
    for bu in 0..cfg.block_users
        invariant
            cfg.fits(),
            zc.well_formed(),
            zc.steps@.len() == cfg.n_objects,
            set.well_formed(),
            edges_within(set.edges@, cfg.users(), cfg.objects()),
            per_user@.len() == cfg.block_users,
            forall|i: int|
                0 <= i < cfg.block_users ==> #[trigger] per_user@[i] == edges_of(
                    blocked,
                    cfg.n_users + i,
                ) && per_user@[i] <= cfg.block_objects,
            (set.edges@, rng::words(*rng)) == disguises(*cfg, zc.steps@, blocked, s2, bu as nat),
    {
        let u = cfg.n_users + bu;
        let ghost before = set.edges@;
        let ghost rest = rng::words(*rng);
        assert(per_user@[bu as int] == edges_of(blocked, cfg.n_users + bu));
        let goal = camouflage_of(cfg, per_user[bu]);
        let mut placed: usize = 0;
        let mut tries: usize = 0;
        let limit = goal * 10 + 10;
        while placed < goal && tries < limit
            invariant
                cfg.fits(),
                bu < cfg.block_users,
                u == cfg.n_users + bu,
                zc.well_formed(),
                zc.steps@.len() == cfg.n_objects,
                set.well_formed(),
                edges_within(set.edges@, cfg.users(), cfg.objects()),
                placed <= goal,
                tries <= limit,
                disguise(
                    zc.steps@,
                    u,
                    before,
                    rest,
                    goal as nat,
                    limit as nat,
                ) == disguise(
                    zc.steps@,
                    u,
                    set.edges@,
                    rng::words(*rng),
                    (goal - placed) as nat,
                    (limit - tries) as nat,
                ),
            decreases limit - tries,
        {
            tries += 1;
            let o = zc.sample(rng);
            if set.add(u, o) {
                placed += 1;
            }
        }
    }
    finish(cfg, set.edges)
}

/// One edge more counts for its user.
proof fn lemma_edge_counts(edges: Seq<(usize, usize)>, e: (usize, usize))
    ensures
        forall|u: int|
            edges_of(edges.push(e), u) == #[trigger] edges_of(edges, u) + (if u == e.0 {
                1int
            } else {
                0
            }),
{
    let more = edges.push(e);
    assert forall|u: int| edges_of(more, u) == #[trigger] edges_of(edges, u) + (if u == e.0 {
        1int
    } else {
        0
    }) by {
        math::lemma_count_same(edges.len(), is_user(edges, u), is_user(more, u));
    }
}

/// More fraud edges want no less camouflage.
proof fn lemma_camouflage_grows(cfg: &FraudConfig, n: int, m: int)
    requires
        0 <= n <= m,
        cfg.camo_ratio.normal(),
    ensures
        0 <= cfg.camouflage(n) <= cfg.camouflage(m),
{
    let (u, r) = (double::one(), cfg.camo_ratio.value());
    double::lemma_one();
    cfg.camo_ratio.lemma_sign();
    double::lemma_of_monotone(n, m);
    let (a, b) = (double::of(n), double::of(m));
    assert(0 <= a * r && (a * r) * u <= (b * r) * u) by (nonlinear_arith)
        requires
            0 <= a <= b,
            r >= 0,
            u > 0,
    ;
    assert(b * r >= 0) by (nonlinear_arith)
        requires
            b >= 0,
            r >= 0,
    ;
    double::lemma_rounded_monotone(a * r, u, b * r, u);
    let (p, q) = (double::product(a, r), double::product(b, r));
    vstd::arithmetic::div_mod::lemma_div_is_ordered(2 * p + u, 2 * q + u, 2 * u);
    vstd::arithmetic::div_mod::lemma_div_pos_is_pos(2 * p + u, 2 * u);
}

/// How much camouflage a user with `n` fraud edges wants.
fn camouflage_of(cfg: &FraudConfig, n: usize) -> (k: usize)
    requires
        cfg.fits(),
        n <= cfg.block_objects,
    ensures
        k == cfg.camouflage(n as int),
        k * 10 + 10 <= usize::MAX,
{
    proof {
        lemma_camouflage_grows(cfg, n as int, cfg.block_objects as int);
    }
    Double::from_u64(n as u64).times(cfg.camo_ratio).to_nearest() as usize
}

/// The lists and degrees of the edges.
fn finish(cfg: &FraudConfig, edges: Vec<(usize, usize)>) -> (g: ReviewGraph)
    requires
        cfg.fits(),
        edges@.no_duplicates(),
        edges_within(edges@, cfg.users(), cfg.objects()),
    ensures
        g.well_formed(),
        g.n_users == cfg.users(),
        g.n_objects == cfg.objects(),
        g.edges@ == edges@,
        g.fraud_users@ == span(cfg.n_users as int, cfg.users()),
        g.fraud_objects@ == span(cfg.n_objects as int, cfg.objects()),
{
    let n_users = cfg.n_users + cfg.block_users;
    let n_objects = cfg.n_objects + cfg.block_objects;
    let mut user_adj: Vec<Vec<usize>> = math::empty_lists(n_users);
    let mut obj_deg: Vec<usize> = vec![0; n_objects];
    for i in 0..edges.len()
        invariant
            edges_within(edges@, n_users as int, n_objects as int),
            user_adj@.len() == n_users,
            forall|u: int|
                0 <= u < n_users ==> (#[trigger] user_adj@[u])@ == reviewed(edges@, u, i as nat),
            obj_deg@.len() == n_objects,
            forall|o: int|
                0 <= o < n_objects ==> #[trigger] obj_deg@[o] == math::count(
                    i as nat,
                    is_object(edges@, o),
                ),
    {
        let (u, o) = edges[i];
        assert(edges@[i as int].0 < n_users && edges@[i as int].1 < n_objects);
        user_adj[u].push(o);
        proof {
            math::lemma_count_le(i as nat, is_object(edges@, o as int));
        }
        let d = obj_deg[o] + 1;
        obj_deg.set(o, d);
    }
    let fraud_users = numbers(cfg.n_users, n_users);
    let fraud_objects = numbers(cfg.n_objects, n_objects);
    ReviewGraph { n_users, n_objects, edges, user_adj, obj_deg, fraud_users, fraud_objects }
}

fn numbers(lo: usize, hi: usize) -> (v: Vec<usize>)
    requires
        lo <= hi,
    ensures
        v@ == span(lo as int, hi as int),
{
    let mut v: Vec<usize> = Vec::new();
    for i in lo..hi
        invariant
            lo <= i <= hi,
            v@ == span(lo as int, i as int),
    {
        v.push(i);
        assert(v@ =~= span(lo as int, i + 1));
    }
    v
}

/// User `a` comes before user `b` in the order of suspicion.
pub open spec fn ahead(g: &ReviewGraph, by: Suspicion, a: int, b: int) -> bool {
    let x = g.user_adj@[a]@.len();
    let y = g.user_adj@[b]@.len();
    match by {
        Suspicion::Degree => x > y || (x == y && a < b),
        Suspicion::Obscurity => if x >= 10 && y >= 10 {
            let s = mean_popularity(g, a);
            let t = mean_popularity(g, b);
            s < t || (s == t && a < b)
        } else {
            x >= 10 || (y < 10 && a < b)
        },
    }
}

/// What makes a user suspicious.
#[derive(Clone, Copy, Debug)]
pub enum Suspicion {
    /// Many reviews.
    Degree,
    /// Ten reviews or more, of objects with few others on average.
    Obscurity,
}

pub open spec fn degree_at(g: &ReviewGraph) -> spec_fn(int) -> int {
    |o: int| g.obj_deg@[o] as int
}

/// The reviews of all the objects that a user reviewed.
pub open spec fn popularity(g: &ReviewGraph, u: int) -> int {
    math::sum_over(g.user_adj@[u]@, degree_at(g))
}

/// How popular what a user reviewed is on average, in double precision. No sum
/// is too large to be exact.
pub open spec fn mean_popularity(g: &ReviewGraph, u: int) -> int {
    double::quotient(double::of(popularity(g, u)), double::of(g.user_adj@[u]@.len() as int))
}

/// The means of the users that have ten reviews or more.
spec fn means_of(g: &ReviewGraph, means: Seq<Double>) -> bool {
    &&& means.len() == g.n_users
    &&& forall|u: int|
        0 <= u < g.n_users && g.user_adj@[u]@.len() >= 10 ==> (#[trigger] means[u]).normal()
            && means[u].value() == mean_popularity(g, u)
}

pub open spec fn before_user(g: &ReviewGraph, by: Suspicion, u: int) -> spec_fn(int) -> bool {
    |w: int| ahead(g, by, w, u)
}

/// The place of a user in the order of suspicion, from 0 on.
pub open spec fn place_of(g: &ReviewGraph, by: Suspicion, u: int) -> nat {
    math::count(g.n_users as nat, before_user(g, by, u))
}

pub open spec fn is_hit(g: &ReviewGraph, by: Suspicion) -> spec_fn(int) -> bool {
    |u: int|
        g.fraud_users@.contains(u as usize) && place_of(g, by, u) < g.fraud_users@.len()
}

/// Edges have numbers that fit 32 bits.
pub open spec fn few_edges(g: &ReviewGraph) -> bool {
    g.edges@.len() <= u32::MAX
}

proof fn lemma_reviewed(edges: Seq<(usize, usize)>, u: int, k: nat)
    requires
        k <= edges.len(),
    ensures
        reviewed(edges, u, k).len() <= k,
        forall|i: int|
            0 <= i < reviewed(edges, u, k).len() ==> exists|j: int|
                0 <= j < k && (#[trigger] edges[j]).1 == #[trigger] reviewed(edges, u, k)[i],
    decreases k,
{
    if k > 0 {
        lemma_reviewed(edges, u, (k - 1) as nat);
        let before = reviewed(edges, u, (k - 1) as nat);
        let now = reviewed(edges, u, k);
        assert forall|i: int| 0 <= i < now.len() implies exists|j: int|
            0 <= j < k && (#[trigger] edges[j]).1 == #[trigger] now[i] by {
            if i < before.len() {
                assert(before[i] == now[i]);
                let j = choose|j: int| 0 <= j < k - 1 && (#[trigger] edges[j]).1 == before[i];
                assert(edges[j].1 == now[i]);
            } else {
                assert(edges[k - 1].1 == now[i]);
            }
        }
    }
}

/// The popularity of what each user reviewed.
fn popularities(g: &ReviewGraph) -> (sums: Vec<u64>)
    requires
        g.well_formed(),
        few_edges(g),
    ensures
        sums@.len() == g.n_users,
        forall|u: int| 0 <= u < g.n_users ==> #[trigger] sums@[u] == popularity(g, u),
{
    let mut sums: Vec<u64> = Vec::new();
    let ghost f = degree_at(g);
    for u in 0..g.n_users
        invariant
            g.well_formed(),
            few_edges(g),
            f == degree_at(g),
            sums@.len() == u,
            forall|w: int| 0 <= w < u ==> #[trigger] sums@[w] == popularity(g, w),
    {
        let list = &g.user_adj[u];
        let mut total: u64 = 0;
        assert(list@.take(0) =~= Seq::<usize>::empty());
        for i in 0..list.len()
            invariant
                g.well_formed(),
                few_edges(g),
                f == degree_at(g),
                u < g.n_users,
                *list == g.user_adj@[u as int],
                total == math::sum_over(list@.take(i as int), f),
                total <= i * u32::MAX,
        {
            proof {
                let e = g.edges@;
                assert(list@ == reviewed(e, u as int, e.len()));
                lemma_reviewed(e, u as int, e.len());
                let j = choose|j: int|
                    0 <= j < e.len() && (#[trigger] e[j]).1 == list@[i as int];
                assert(e[j].1 < g.n_objects);
                let o = list@[i as int] as int;
                assert(g.obj_deg@[o] == math::count(e.len(), is_object(e, o)));
                math::lemma_count_le(e.len(), is_object(e, o));
                assert(list@.take(i + 1).drop_last() =~= list@.take(i as int));
                assert(i * u32::MAX + u32::MAX == (i + 1) * u32::MAX) by (nonlinear_arith);
                assert((i + 1) * u32::MAX <= u32::MAX * u32::MAX) by (nonlinear_arith)
                    requires
                        i + 1 <= u32::MAX,
                ;
            }
            total = total + g.obj_deg[list[i]] as u64;
        }
        assert(list@.take(list@.len() as int) =~= list@);
        sums.push(total);
    }
    sums
}

/// The average popularity of what each user with ten reviews or more reviewed.
fn mean_popularities(g: &ReviewGraph) -> (means: Vec<Double>)
    requires
        g.well_formed(),
        few_edges(g),
    ensures
        means_of(g, means@),
{
    let sums = popularities(g);
    let mut means: Vec<Double> = Vec::new();
    for u in 0..g.n_users
        invariant
            g.well_formed(),
            sums@.len() == g.n_users,
            forall|u: int| 0 <= u < g.n_users ==> #[trigger] sums@[u] == popularity(g, u),
            means@.len() == u,
            forall|w: int|
                0 <= w < u && g.user_adj@[w]@.len() >= 10 ==> (#[trigger] means@[w]).normal()
                    && means@[w].value() == mean_popularity(g, w),
    {
        let n = g.user_adj[u].len();
        if n < 10 {
            means.push(double::zero());
        } else {
            let of = Double::from_u64(n as u64);
            proof {
                double::lemma_of_positive(n as int);
                of.lemma_sign();
                assert(sums@[u as int] == popularity(g, u as int));
            }
            means.push(Double::from_u64(sums[u]).over(of));
        }
    }
    means
}

fn is_ahead(g: &ReviewGraph, by: Suspicion, means: &Vec<Double>, a: usize, b: usize) -> (r: bool)
    requires
        g.well_formed(),
        a < g.n_users,
        b < g.n_users,
        means_of(g, means@),
    ensures
        r == ahead(g, by, a as int, b as int),
{
    let x = g.user_adj[a].len();
    let y = g.user_adj[b].len();
    match by {
        Suspicion::Degree => x > y || (x == y && a < b),
        Suspicion::Obscurity => {
            if x >= 10 && y >= 10 {
                let (s, t) = (means[a], means[b]);
                assert(means@[a as int].normal() && means@[b as int].normal());
                !s.at_least(t) || (t.at_least(s) && a < b)
            } else {
                x >= 10 || (y < 10 && a < b)
            }
        },
    }
}

/// Of the most suspicious users, as many as there are fraud users: how many
/// are, and how many were looked at.
pub fn top_k_precision(g: &ReviewGraph, by: Suspicion) -> (r: (usize, usize))
    requires
        g.well_formed(),
        few_edges(g),
    ensures
        r.0 == math::count(g.n_users as nat, is_hit(g, by)),
        r.1 == g.fraud_users@.len(),
{
    let means = mean_popularities(g);
    let k = g.fraud_users.len();
    let mut flagged: Vec<bool> = vec![false; g.n_users];
    for i in 0..k
        invariant
            g.well_formed(),
            k == g.fraud_users@.len(),
            flagged@.len() == g.n_users,
            forall|u: int|
                0 <= u < g.n_users ==> (#[trigger] flagged@[u] <==> g.fraud_users@.take(
                    i as int,
                ).contains(u as usize)),
    {
        let f = g.fraud_users[i];
        assert(g.fraud_users@[i as int] < g.n_users);
        let ghost was = flagged@;
        flagged.set(f, true);
        proof {
            let a = g.fraud_users@.take(i as int);
            let b = g.fraud_users@.take(i + 1);
            assert(b =~= a.push(f));
            assert forall|u: int| 0 <= u < g.n_users
                implies (#[trigger] flagged@[u] <==> b.contains(u as usize)) by {
                assert(was[u] <==> a.contains(u as usize));
                if a.contains(u as usize) {
                    let j = choose|j: int| 0 <= j < a.len() && a[j] == u as usize;
                    assert(b[j] == u as usize);
                }
                if b.contains(u as usize) {
                    let j = choose|j: int| 0 <= j < b.len() && b[j] == u as usize;
                    if j < i {
                        assert(a[j] == u as usize);
                    }
                }
                assert(b[i as int] == f);
            }
        }
    }
    assert(g.fraud_users@.take(k as int) =~= g.fraud_users@);
    let mut hits: usize = 0;
    for u in 0..g.n_users
        invariant
            g.well_formed(),
            k == g.fraud_users@.len(),
            means_of(g, means@),
            flagged@.len() == g.n_users,
            forall|u: int|
                0 <= u < g.n_users ==> (#[trigger] flagged@[u] <==> g.fraud_users@.contains(
                    u as usize,
                )),
            hits <= u,
            hits == math::count(u as nat, is_hit(g, by)),
    {
        if flagged[u] {
            let mut place: usize = 0;
            for w in 0..g.n_users
                invariant
                    g.well_formed(),
                    u < g.n_users,
                    means_of(g, means@),
                    place <= w,
                    place == math::count(w as nat, before_user(g, by, u as int)),
            {
                if is_ahead(g, by, &means, w, u) {
                    place += 1;
                }
            }
            if place < k {
                hits += 1;
            }
        }
    }
    (hits, k)
}

/// Flagging the users with the most reviews: hits, and users flagged.
pub fn degree_rank_precision(g: &ReviewGraph) -> (r: (usize, usize))
    requires
        g.well_formed(),
        few_edges(g),
    ensures
        r.0 == math::count(g.n_users as nat, is_hit(g, Suspicion::Degree)),
        r.1 == g.fraud_users@.len(),
{
    top_k_precision(g, Suspicion::Degree)
}

/// Flagging active users that review only obscure objects: hits, and users
/// flagged.
pub fn obscurity_rank_precision(g: &ReviewGraph) -> (r: (usize, usize))
    requires
        g.well_formed(),
        few_edges(g),
    ensures
        r.0 == math::count(g.n_users as nat, is_hit(g, Suspicion::Obscurity)),
        r.1 == g.fraud_users@.len(),
{
    top_k_precision(g, Suspicion::Obscurity)
}

/// The later edges are the earlier ones, then others whose objects are below
/// `m`.
pub open spec fn adds_below(a: Seq<(usize, usize)>, b: Seq<(usize, usize)>, m: int) -> bool {
    &&& a.len() <= b.len()
    &&& forall|i: int| 0 <= i < a.len() ==> #[trigger] b[i] == a[i]
    &&& forall|i: int| a.len() <= i < b.len() ==> (#[trigger] b[i]).1 < m
}

proof fn lemma_disguise_adds(
    zc: &Zipf,
    user: usize,
    edges: Seq<(usize, usize)>,
    stream: Map<nat, u32>,
    left: nat,
    tries: nat,
)
    requires
        zc.well_formed(),
    ensures
        adds_below(
            edges,
            disguise(zc.steps@, user, edges, stream, left, tries).0,
            zc.steps@.len() as int,
        ),
    decreases tries,
{
    if left != 0 && tries != 0 {
        let (o, rest) = zipf::ranked(zc.steps@, stream);
        zipf::lemma_rank_below(zc, stream);
        let more = with_edge(edges, (user, o));
        let left2 = if edges.contains((user, o)) {
            left
        } else {
            (left - 1) as nat
        };
        lemma_disguise_adds(zc, user, more, rest, left2, (tries - 1) as nat);
        let end = disguise(zc.steps@, user, more, rest, left2, (tries - 1) as nat).0;
        assert forall|i: int| 0 <= i < edges.len() implies #[trigger] end[i] == edges[i] by {
            assert(more[i] == edges[i]);
            assert(end[i] == more[i]);
        }
        assert forall|i: int| edges.len() <= i < end.len()
            implies (#[trigger] end[i]).1 < zc.steps@.len() by {
            if i < more.len() {
                assert(end[i] == more[i]);
            }
        }
    }
}

proof fn lemma_disguises_add(
    cfg: FraudConfig,
    zc: &Zipf,
    blocked: Seq<(usize, usize)>,
    stream: Map<nat, u32>,
    n: nat,
)
    requires
        zc.well_formed(),
    ensures
        adds_below(
            blocked,
            disguises(cfg, zc.steps@, blocked, stream, n).0,
            zc.steps@.len() as int,
        ),
    decreases n,
{
    if n > 0 {
        lemma_disguises_add(cfg, zc, blocked, stream, (n - 1) as nat);
        let (before, rest) = disguises(cfg, zc.steps@, blocked, stream, (n - 1) as nat);
        let user = (cfg.n_users + (n - 1)) as usize;
        let want = cfg.camouflage(edges_of(blocked, user as int)) as nat;
        lemma_disguise_adds(zc, user, before, rest, want, want * 10 + 10);
        let end = disguises(cfg, zc.steps@, blocked, stream, n).0;
        assert forall|i: int| 0 <= i < blocked.len() implies #[trigger] end[i] == blocked[i] by {
            assert(before[i] == blocked[i]);
            assert(end[i] == before[i]);
        }
        assert forall|i: int| blocked.len() <= i < end.len()
            implies (#[trigger] end[i]).1 < zc.steps@.len() by {
            if i < before.len() {
                assert(end[i] == before[i]);
                assert(before[i].1 < zc.steps@.len());
            }
        }
    }
}

proof fn lemma_column_count(
    a: Seq<(usize, usize)>,
    b: Seq<(usize, usize)>,
    m: int,
    o: int,
    k: nat,
)
    requires
        adds_below(a, b, m),
        o >= m,
        a.len() <= k <= b.len(),
    ensures
        math::count(k, is_object(b, o)) == math::count(a.len(), is_object(a, o)),
    decreases k,
{
    if k == a.len() {
        math::lemma_count_same(k, is_object(b, o), is_object(a, o));
    } else {
        lemma_column_count(a, b, m, o, (k - 1) as nat);
        assert(b[k - 1].1 < m);
    }
}

/// Camouflage does not touch the columns of the block: every edge of the block
/// stays, and each of its objects has as many reviews as without.
pub proof fn lemma_camouflage_spares_the_block(
    cfg: FraudConfig,
    zc: &Zipf,
    blocked: Seq<(usize, usize)>,
    stream: Map<nat, u32>,
    o: int,
)
    requires
        zc.well_formed(),
        zc.steps@.len() == cfg.n_objects,
        o >= cfg.n_objects,
    ensures
        ({
            let all = disguises(cfg, zc.steps@, blocked, stream, cfg.block_users as nat).0;
            &&& forall|i: int| 0 <= i < blocked.len() ==> #[trigger] all[i] == blocked[i]
            &&& blocked.len() <= all.len()
            &&& math::count(all.len(), is_object(all, o)) == math::count(
                blocked.len(),
                is_object(blocked, o),
            )
        }),
{
    lemma_disguises_add(cfg, zc, blocked, stream, cfg.block_users as nat);
    let all = disguises(cfg, zc.steps@, blocked, stream, cfg.block_users as nat).0;
    lemma_column_count(blocked, all, cfg.n_objects as int, o, all.len());
}

} // verus!
