//! A collaboration network that grows, and the links that its future holds.
//!
//! The network grows by triadic closure and preferential attachment over a
//! training period. The links of a test period are drawn the same way and held
//! out. A predictor ranks the pairs that are not joined yet; it is worth what
//! it finds among as many pairs as there are new links, measured against what
//! a random guess would find.

use crate::math;
use crate::rng;
use crate::social::bipartite;
use crate::sorting;
use rand_chacha::ChaCha8Rng;
use vstd::prelude::*;

verus! {

#[derive(Clone, Copy, Debug)]
pub struct CollabConfig {
    pub n_nodes: usize,
    /// Edges of the training period.
    pub train_edges: usize,
    /// Edges of the test period: the prediction target.
    pub test_edges: usize,
    pub n_communities: usize,
    /// How likely a new edge closes a triangle rather than attaching by
    /// preference, in units of 2^-53.
    pub triadic_closure: u64,
    /// How likely an attachment stays inside a community, in units of 2^-53.
    pub community_purity: u64,
    /// The training degree that makes a node part of the core.
    pub core_degree: usize,
}

impl Default for CollabConfig {
    fn default() -> (c: CollabConfig)
        ensures
            c == (CollabConfig {
                n_nodes: 800,
                train_edges: 4_000,
                test_edges: 1_000,
                n_communities: 12,
                triadic_closure: 0x1c_cccc_cccc_cccd,
                community_purity: 0x19_9999_9999_999a,
                core_degree: 3,
            }),
    {
        CollabConfig {
            n_nodes: 800,
            train_edges: 4_000,
            test_edges: 1_000,
            n_communities: 12,
            triadic_closure: 0x1c_cccc_cccc_cccd,
            community_purity: 0x19_9999_9999_999a,
            core_degree: 3,
        }
    }
}

impl CollabConfig {
    /// There is a node and a community, and the numbers fit the machine.
    pub open spec fn fits(&self) -> bool {
        &&& 1 <= self.n_nodes <= u32::MAX
        &&& 1 <= self.n_communities <= u32::MAX
        &&& self.train_edges * 50 <= usize::MAX
        &&& self.test_edges * 50 <= usize::MAX
    }
}

#[derive(Debug)]
pub struct Collab {
    pub n_nodes: usize,
    /// The training graph: the neighbours of each node.
    pub adj: Vec<Vec<u32>>,
    pub community: Vec<u32>,
    /// Links of the test period between core nodes that were not joined.
    pub new_edges: Vec<(u32, u32)>,
    /// Nodes with enough neighbours in the training graph.
    pub core: Vec<u32>,
}

/// Every list names nodes once, and links go both ways and never to oneself.
pub open spec fn is_network(adj: Seq<Seq<u32>>, n: int) -> bool {
    &&& adj.len() == n
    &&& forall|u: int| 0 <= u < n ==> bipartite::is_choice(#[trigger] adj[u], n)
    &&& forall|u: int, v: u32|
        0 <= u < n && #[trigger] adj[u].contains(v) ==> v != u && adj[v as int].contains(u as u32)
}

/// The network with one more link.
pub open spec fn joined(adj: Seq<Seq<u32>>, u: u32, v: u32) -> Seq<Seq<u32>> {
    let once = adj.update(u as int, bipartite::with_item(adj[u as int], v));
    once.update(v as int, bipartite::with_item(once[v as int], u))
}

/// The communities of the first `n` nodes.
pub open spec fn drawn_communities(k: u64, stream: Map<nat, u32>, n: nat) -> (
    Seq<u32>,
    Map<nat, u32>,
)
    decreases n,
{
    if n == 0 {
        (Seq::empty(), stream)
    } else {
        let (before, rest) = drawn_communities(k, stream, (n - 1) as nat);
        let (c, used) = rng::range_draw(rest, 0, k);
        (before.push(c as u32), rng::skip_words(rest, used))
    }
}

/// A random node.
pub open spec fn some_node(n: int, stream: Map<nat, u32>) -> (u32, Map<nat, u32>) {
    let (x, used) = rng::range_draw(stream, 0, n as u64);
    (x as u32, rng::skip_words(stream, used))
}

/// One random link for each of the first `k` nodes, unless it is to itself.
pub open spec fn sown(n: int, stream: Map<nat, u32>, k: nat) -> (Seq<Seq<u32>>, Map<nat, u32>)
    decreases k,
{
    if k == 0 {
        (Seq::new(n as nat, |v: int| Seq::empty()), stream)
    } else {
        let (adj, rest) = sown(n, stream, (k - 1) as nat);
        let (w, end) = some_node(n, rest);
        if w == k - 1 {
            (adj, end)
        } else {
            (joined(adj, (k - 1) as u32, w), end)
        }
    }
}

/// The best connected of a node and `k` random others, the first of equals.
pub open spec fn preferred(adj: Seq<Seq<u32>>, cand: u32, stream: Map<nat, u32>, k: nat) -> (
    u32,
    Map<nat, u32>,
)
    decreases k,
{
    if k == 0 {
        (cand, stream)
    } else {
        let (alt, rest) = some_node(adj.len() as int, stream);
        preferred(
            adj,
            if adj[alt as int].len() > adj[cand as int].len() {
                alt
            } else {
                cand
            },
            rest,
            (k - 1) as nat,
        )
    }
}

/// Draws again until the node is of community `c`, or `tries` are used up.
pub open spec fn kept_near(
    community: Seq<u32>,
    c: u32,
    cand: u32,
    stream: Map<nat, u32>,
    tries: nat,
) -> (u32, Map<nat, u32>)
    decreases tries,
{
    if community[cand as int] == c || tries == 0 {
        (cand, stream)
    } else {
        let (next, rest) = some_node(community.len() as int, stream);
        kept_near(community, c, next, rest, (tries - 1) as nat)
    }
}

/// Whom a node meets: a neighbour of a neighbour, or someone well connected,
/// by preference of its own community. Itself where there is nobody.
pub open spec fn partner(
    adj: Seq<Seq<u32>>,
    community: Seq<u32>,
    cfg: CollabConfig,
    u: u32,
    stream: Map<nat, u32>,
) -> (u32, Map<nat, u32>) {
    let after = rng::skip_words(stream, 2);
    let near = adj[u as int];
    if rng::first_u64(stream) / 2048 < cfg.triadic_closure && near.len() > 0 {
        let (x, used) = rng::range_draw(after, 0, near.len() as u64);
        let mid = rng::skip_words(after, used);
        let far = adj[near[x as int] as int];
        if far.len() == 0 {
            (u, mid)
        } else {
            let (y, more) = rng::range_draw(mid, 0, far.len() as u64);
            (far[y as int], rng::skip_words(mid, more))
        }
    } else {
        let (first, s1) = some_node(adj.len() as int, after);
        let (cand, s2) = preferred(adj, first, s1, 3);
        let s3 = rng::skip_words(s2, 2);
        if rng::first_u64(s2) / 2048 < cfg.community_purity {
            kept_near(community, community[u as int], cand, s3, 20)
        } else {
            (cand, s3)
        }
    }
}

/// A link as it is written down: the smaller node first.
pub open spec fn link(u: u32, v: u32) -> (u32, u32) {
    if u < v {
        (u, v)
    } else {
        (v, u)
    }
}

/// `want` new links, or as many as `tries` give. They go into the network, or
/// where `record` only into the list.
pub open spec fn grown(
    adj: Seq<Seq<u32>>,
    community: Seq<u32>,
    cfg: CollabConfig,
    out: Seq<(u32, u32)>,
    record: bool,
    stream: Map<nat, u32>,
    want: nat,
    tries: nat,
) -> (Seq<Seq<u32>>, Seq<(u32, u32)>, Map<nat, u32>)
    decreases tries,
{
    if want == 0 || tries == 0 {
        (adj, out, stream)
    } else {
        let (u, s1) = some_node(adj.len() as int, stream);
        let (v, s2) = partner(adj, community, cfg, u, s1);
        let left = (tries - 1) as nat;
        if u == v || adj[u as int].contains(v) {
            grown(adj, community, cfg, out, record, s2, want, left)
        } else if record {
            grown(
                adj,
                community,
                cfg,
                out.push(link(u, v)),
                record,
                s2,
                (want - 1) as nat,
                left,
            )
        } else {
            grown(
                joined(adj, u, v),
                community,
                cfg,
                out,
                record,
                s2,
                (want - 1) as nat,
                left,
            )
        }
    }
}

/// The nodes among the first `n` with at least `d` neighbours.
pub open spec fn core_of(adj: Seq<Seq<u32>>, d: usize, n: nat) -> Seq<u32>
    decreases n,
{
    if n == 0 {
        Seq::empty()
    } else {
        let before = core_of(adj, d, (n - 1) as nat);
        if adj[n - 1].len() >= d {
            before.push((n - 1) as u32)
        } else {
            before
        }
    }
}

/// A recorded link that counts: both ends are in the core, and the training
/// graph does not have it.
pub open spec fn counts(adj: Seq<Seq<u32>>, d: usize, e: (u32, u32)) -> bool {
    &&& adj[e.0 as int].len() >= d
    &&& adj[e.1 as int].len() >= d
    &&& !adj[e.0 as int].contains(e.1)
}

/// What a seed and a configuration make.
pub open spec fn is_instance(
    cfg: CollabConfig,
    stream: Map<nat, u32>,
    g: &Collab,
    end: Map<nat, u32>,
) -> bool {
    let n = cfg.n_nodes as nat;
    let (community, s1) = drawn_communities(cfg.n_communities as u64, stream, n);
    let (sparse, s2) = sown(n as int, s1, n);
    let (adj, none, s3) = grown(
        sparse,
        community,
        cfg,
        Seq::empty(),
        false,
        s2,
        cfg.train_edges as nat,
        cfg.train_edges as nat * 50,
    );
    let (same, future, s4) = grown(
        adj,
        community,
        cfg,
        Seq::empty(),
        true,
        s3,
        cfg.test_edges as nat,
        cfg.test_edges as nat * 50,
    );
    &&& g.n_nodes == n
    &&& g.community@ == community
    &&& bipartite::rows_of(g.adj@) == adj
    &&& g.core@ == core_of(adj, cfg.core_degree, n)
    &&& forall|e: (u32, u32)| #[trigger]
        g.new_edges@.contains(e) <==> future.contains(e) && counts(adj, cfg.core_degree, e)
    &&& end == s4
}

/// The pairs of core node `i` with those between it and place `j` that it is
/// not joined to.
pub open spec fn open_pairs_from(adj: Seq<Seq<u32>>, core: Seq<u32>, i: int, j: int) -> Seq<
    (u32, u32),
>
    decreases j - i,
{
    if j <= i + 1 {
        Seq::empty()
    } else {
        let before = open_pairs_from(adj, core, i, j - 1);
        if adj[core[i] as int].contains(core[j - 1]) {
            before
        } else {
            before.push((core[i], core[j - 1]))
        }
    }
}

/// The pairs of the first `n` core nodes with those behind them.
pub open spec fn open_pairs(adj: Seq<Seq<u32>>, core: Seq<u32>, n: nat) -> Seq<(u32, u32)>
    decreases n,
{
    if n == 0 {
        Seq::empty()
    } else {
        open_pairs(adj, core, (n - 1) as nat) + open_pairs_from(
            adj,
            core,
            n - 1,
            core.len() as int,
        )
    }
}

impl Collab {
    /// The lists are a network, the core is in order, and so are the new
    /// links, none of which the network has.
    pub open spec fn well_formed(&self) -> bool {
        &&& self.n_nodes <= u32::MAX
        &&& is_network(bipartite::rows_of(self.adj@), self.n_nodes as int)
        &&& self.community@.len() == self.n_nodes
        &&& sorting::is_strict(self.core@)
        &&& forall|i: int| 0 <= i < self.core@.len() ==> #[trigger] self.core@[i] < self.n_nodes
        &&& sorting::is_strict(self.new_edges@)
        &&& forall|i: int|
            0 <= i < self.new_edges@.len() ==> is_future(
                bipartite::rows_of(self.adj@),
                #[trigger] self.new_edges@[i],
            )
    }

    pub fn degree(&self, v: u32) -> (d: usize)
        requires
            v < self.adj@.len(),
        ensures
            d == self.adj@[v as int]@.len(),
    {
        self.adj[v as usize].len()
    }

    pub fn neighbors(&self, v: u32) -> (list: &Vec<u32>)
        requires
            v < self.adj@.len(),
        ensures
            list@ == self.adj@[v as int]@,
    {
        &self.adj[v as usize]
    }

    /// Every pair of core nodes that is not joined: what a predictor must
    /// rank.
    pub fn candidates(&self) -> (out: Vec<(u32, u32)>)
        requires
            self.well_formed(),
        ensures
            out@ == open_pairs(bipartite::rows_of(self.adj@), self.core@, self.core@.len()),
            forall|i: int|
                0 <= i < out@.len() ==> (#[trigger] out@[i]).0 < self.n_nodes && out@[i].1
                    < self.n_nodes,
    {
        let ghost adj = bipartite::rows_of(self.adj@);
        let n = self.core.len();
        let mut out: Vec<(u32, u32)> = Vec::new();
        for i in 0..n
            invariant
                self.well_formed(),
                n == self.core@.len(),
                adj == bipartite::rows_of(self.adj@),
                out@ == open_pairs(adj, self.core@, i as nat),
                forall|k: int|
                    0 <= k < out@.len() ==> (#[trigger] out@[k]).0 < self.n_nodes && out@[k].1
                        < self.n_nodes,
        {
            let ghost before = out@;
            let a = self.core[i];
            assert(self.core@[i as int] < self.n_nodes);
            let near = &self.adj[a as usize];
            assert(adj[a as int] == near@);
            assert(out@ =~= before + open_pairs_from(adj, self.core@, i as int, i + 1));
            for j in i + 1..n
                invariant
                    self.well_formed(),
                    i < n == self.core@.len(),
                    a == self.core@[i as int],
                    a < self.n_nodes,
                    adj[a as int] == near@,
                    out@ == before + open_pairs_from(adj, self.core@, i as int, j as int),
                    forall|k: int|
                        0 <= k < out@.len() ==> (#[trigger] out@[k]).0 < self.n_nodes && out@[k].1
                            < self.n_nodes,
            {
                let b = self.core[j];
                assert(self.core@[j as int] < self.n_nodes);
                if !bipartite::has_item(near, b) {
                    out.push((a, b));
                }
                assert(out@ =~= before + open_pairs_from(adj, self.core@, i as int, j + 1));
            }
        }
        out
    }
}

/// A link that the network could still get.
pub open spec fn is_future(adj: Seq<Seq<u32>>, e: (u32, u32)) -> bool {
    e.0 < e.1 < adj.len() && !adj[e.0 as int].contains(e.1)
}

proof fn lemma_with_item(list: Seq<u32>, x: u32, y: u32)
    ensures
        bipartite::with_item(list, x).contains(y) <==> list.contains(y) || y == x,
{
    let next = bipartite::with_item(list, x);
    if !list.contains(x) {
        assert(next[list.len() as int] == x);
        if list.contains(y) {
            let i = choose|i: int| 0 <= i < list.len() && list[i] == y;
            assert(next[i] == y);
        }
        if next.contains(y) {
            let i = choose|i: int| 0 <= i < next.len() && next[i] == y;
            if i < list.len() {
                assert(list[i] == y);
            }
        }
    }
}

/// A link more leaves a network.
proof fn lemma_joined(adj: Seq<Seq<u32>>, u: u32, v: u32, n: int)
    requires
        is_network(adj, n),
        n <= u32::MAX,
        u < n,
        v < n,
        u != v,
    ensures
        is_network(joined(adj, u, v), n),
{
    let next = joined(adj, u, v);
    bipartite::lemma_choice_step(adj[u as int], v, n);
    bipartite::lemma_choice_step(adj[v as int], u, n);
    assert forall|a: int, b: u32| 0 <= a < n && #[trigger] next[a].contains(b) implies b != a
        && next[b as int].contains(a as u32) by {
        lemma_with_item(adj[u as int], v, b);
        lemma_with_item(adj[v as int], u, b);
        lemma_with_item(adj[u as int], v, a as u32);
        lemma_with_item(adj[v as int], u, a as u32);
        if !((a == u && b == v) || (a == v && b == u)) {
            assert(adj[a].contains(b));
            assert(adj[b as int].contains(a as u32));
        }
    }
}

/// Puts a link into the lists of both ends.
fn join(adj: &mut Vec<Vec<u32>>, u: u32, v: u32)
    requires
        is_network(bipartite::rows_of(old(adj)@), old(adj)@.len() as int),
        old(adj)@.len() <= u32::MAX,
        u < old(adj)@.len(),
        v < old(adj)@.len(),
        u != v,
    ensures
        bipartite::rows_of(final(adj)@) == joined(bipartite::rows_of(old(adj)@), u, v),
        is_network(bipartite::rows_of(final(adj)@), old(adj)@.len() as int),
{
    let ghost rows = bipartite::rows_of(adj@);
    proof {
        lemma_joined(rows, u, v, adj@.len() as int);
    }
    put(adj, u, v);
    assert(bipartite::rows_of(adj@)[v as int] == rows[v as int]);
    put(adj, v, u);
}

fn put(adj: &mut Vec<Vec<u32>>, u: u32, v: u32)
    requires
        u < old(adj)@.len(),
    ensures
        bipartite::rows_of(final(adj)@) == bipartite::rows_of(old(adj)@).update(
            u as int,
            bipartite::with_item(bipartite::rows_of(old(adj)@)[u as int], v),
        ),
{
    let ghost before = adj@;
    let mut list: Vec<u32> = Vec::new();
    std::mem::swap(&mut list, &mut adj[u as usize]);
    bipartite::add_item(&mut list, v);
    adj.set(u as usize, list);
    assert(bipartite::rows_of(adj@) =~= bipartite::rows_of(before).update(
        u as int,
        bipartite::with_item(bipartite::rows_of(before)[u as int], v),
    ));
}

fn draw_node(rng: &mut ChaCha8Rng, n: usize) -> (v: u32)
    requires
        1 <= n <= u32::MAX,
    ensures
        (v, rng::words(*final(rng))) == some_node(n as int, rng::words(*old(rng))),
        v < n,
{
    rng::gen_range(rng, 0, n as u64) as u32
}

fn draw_partner(
    rng: &mut ChaCha8Rng,
    adj: &Vec<Vec<u32>>,
    community: &Vec<u32>,
    cfg: &CollabConfig,
    u: u32,
) -> (v: u32)
    requires
        1 <= adj@.len() <= u32::MAX,
        is_network(bipartite::rows_of(adj@), adj@.len() as int),
        community@.len() == adj@.len(),
        u < adj@.len(),
    ensures
        (v, rng::words(*final(rng))) == partner(
            bipartite::rows_of(adj@),
            community@,
            *cfg,
            u,
            rng::words(*old(rng)),
        ),
        v < adj@.len(),
        cfg.triadic_closure >= 9_007_199_254_740_992 && adj@[u as int]@.len() > 0
            ==> share_a_neighbour(bipartite::rows_of(adj@), u, v),
{
    let ghost rows = bipartite::rows_of(adj@);
    let n = adj.len();
    let ghost toss = rng::words(*rng);
    assert(toss[0] <= 0xffff_ffff && toss[1] <= 0xffff_ffff);
    let close = rng::coin(rng, cfg.triadic_closure);
    let near = &adj[u as usize];
    assert(rows[u as int] == near@);
    if close && near.len() > 0 {
        let x = rng::draw_index(rng, 0, near.len());
        let w = near[x];
        assert(near@[x as int] < n);
        let far = &adj[w as usize];
        assert(rows[w as int] == far@);
        proof {
            assert(rows[u as int].contains(w));
            assert(rows[w as int].contains(u));
            let i = choose|i: int| 0 <= i < far@.len() && far@[i] == u;
            assert(far@.len() > 0);
        }
        if far.len() == 0 {
            u
        } else {
            let y = rng::draw_index(rng, 0, far.len());
            assert(far@[y as int] < n);
            assert(rows[w as int].contains(far@[y as int]));
            far[y]
        }
    } else {
        let mut cand = draw_node(rng, n);
        let ghost pick = preferred(rows, cand, rng::words(*rng), 3);
        for k in 0..3u32
            invariant
                n == adj@.len(),
                1 <= n <= u32::MAX,
                rows == bipartite::rows_of(adj@),
                cand < n,
                pick == preferred(rows, cand, rng::words(*rng), (3 - k) as nat),
        {
            let alt = draw_node(rng, n);
            if adj[alt as usize].len() > adj[cand as usize].len() {
                cand = alt;
            }
        }
        if rng::coin(rng, cfg.community_purity) {
            let c = community[u as usize];
            let mut left: u32 = 20;
            let ghost kept = kept_near(community@, c, cand, rng::words(*rng), 20);
            while community[cand as usize] != c && left > 0
                invariant
                    n == community@.len(),
                    1 <= n <= u32::MAX,
                    cand < n,
                    kept == kept_near(community@, c, cand, rng::words(*rng), left as nat),
                decreases left,
            {
                cand = draw_node(rng, n);
                left = left - 1;
            }
        }
        cand
    }
}

/// Some node is a neighbour of both.
pub open spec fn share_a_neighbour(adj: Seq<Seq<u32>>, u: u32, v: u32) -> bool {
    exists|w: u32| w < adj.len() && #[trigger] adj[w as int].contains(u) && adj[w as int].contains(v)
}

/// Where every new link closes a triangle, this one does, unless one of its ends had
/// no neighbour.
pub open spec fn closes_a_triangle(adj: Seq<Seq<u32>>, e: (u32, u32)) -> bool {
    adj[e.0 as int].len() == 0 || adj[e.1 as int].len() == 0 || share_a_neighbour(adj, e.0, e.1)
}

/// Grows the network by `count` links, or writes them down instead.
fn grow(
    rng: &mut ChaCha8Rng,
    adj: &mut Vec<Vec<u32>>,
    community: &Vec<u32>,
    cfg: &CollabConfig,
    count: usize,
    out: &mut Vec<(u32, u32)>,
    record: bool,
)
    requires
        1 <= old(adj)@.len() <= u32::MAX,
        is_network(bipartite::rows_of(old(adj)@), old(adj)@.len() as int),
        community@.len() == old(adj)@.len(),
        count * 50 <= usize::MAX,
        forall|i: int|
            0 <= i < old(out)@.len() ==> is_future(
                bipartite::rows_of(old(adj)@),
                #[trigger] old(out)@[i],
            ),
        old(out)@.len() == 0,
    ensures
        (bipartite::rows_of(final(adj)@), final(out)@, rng::words(*final(rng))) == grown(
            bipartite::rows_of(old(adj)@),
            community@,
            *cfg,
            old(out)@,
            record,
            rng::words(*old(rng)),
            count as nat,
            count as nat * 50,
        ),
        final(adj)@.len() == old(adj)@.len(),
        is_network(bipartite::rows_of(final(adj)@), final(adj)@.len() as int),
        record ==> bipartite::rows_of(final(adj)@) == bipartite::rows_of(old(adj)@),
        forall|i: int|
            0 <= i < final(out)@.len() ==> is_future(
                bipartite::rows_of(final(adj)@),
                #[trigger] final(out)@[i],
            ),
        !record ==> final(out)@.len() == 0,
        final(out)@.len() <= count,
        record && cfg.triadic_closure >= 9_007_199_254_740_992 ==> forall|i: int|
            0 <= i < final(out)@.len() ==> closes_a_triangle(
                bipartite::rows_of(final(adj)@),
                #[trigger] final(out)@[i],
            ),
{
    let n = adj.len();
    let mut want = count;
    let mut left = count * 50;
    let ghost whole = grown(
        bipartite::rows_of(adj@),
        community@,
        *cfg,
        out@,
        record,
        rng::words(*rng),
        count as nat,
        count as nat * 50,
    );
    while want > 0 && left > 0
        invariant
            n == adj@.len(),
            1 <= n <= u32::MAX,
            is_network(bipartite::rows_of(adj@), n as int),
            community@.len() == n,
            whole == grown(
                bipartite::rows_of(adj@),
                community@,
                *cfg,
                out@,
                record,
                rng::words(*rng),
                want as nat,
                left as nat,
            ),
            record ==> bipartite::rows_of(adj@) == bipartite::rows_of(old(adj)@),
            forall|i: int|
                0 <= i < out@.len() ==> is_future(
                    bipartite::rows_of(adj@),
                    #[trigger] out@[i],
                ),
            !record ==> out@.len() == 0,
            out@.len() + want <= count,
            record && cfg.triadic_closure >= 9_007_199_254_740_992 ==> forall|i: int|
                0 <= i < out@.len() ==> closes_a_triangle(
                    bipartite::rows_of(adj@),
                    #[trigger] out@[i],
                ),
        decreases left,
    {
        let ghost rows = bipartite::rows_of(adj@);
        let u = draw_node(rng, n);
        let v = draw_partner(rng, adj, community, cfg, u);
        assert(rows[u as int] == adj@[u as int]@);
        if u != v && !bipartite::has_item(&adj[u as usize], v) {
            if record {
                proof {
                    if rows[v as int].contains(u) {
                        assert(rows[u as int].contains(v));
                    }
                    if rows[u as int].len() > 0 && share_a_neighbour(rows, u, v) {
                        let w = choose|w: u32|
                            w < rows.len() && #[trigger] rows[w as int].contains(u)
                                && rows[w as int].contains(v);
                        assert(rows[w as int].contains(v) && rows[w as int].contains(u));
                        assert(share_a_neighbour(rows, v, u));
                    }
                }
                out.push(if u < v {
                    (u, v)
                } else {
                    (v, u)
                });
            } else {
                join(adj, u, v);
                assert(bipartite::rows_of(adj@).len() == n);
            }
            want = want - 1;
        }
        left = left - 1;
    }
}

/// The core is in order and inside the network.
proof fn lemma_core(adj: Seq<Seq<u32>>, d: usize, n: nat)
    requires
        n <= u32::MAX,
    ensures
        sorting::is_strict(core_of(adj, d, n)),
        forall|i: int|
            0 <= i < core_of(adj, d, n).len() ==> #[trigger] core_of(adj, d, n)[i] < n,
    decreases n,
{
    if n > 0 {
        lemma_core(adj, d, (n - 1) as nat);
        let before = core_of(adj, d, (n - 1) as nat);
        let now = core_of(adj, d, n);
        assert forall|i: int| 0 <= i < now.len() implies #[trigger] now[i] < n by {
            if i < before.len() {
                assert(before[i] < n - 1);
            }
        }
        assert forall|i: int, j: int| 0 <= i < j < now.len() implies sorting::Keyed::key(
            &#[trigger] now[i],
        ) < sorting::Keyed::key(&#[trigger] now[j]) by {
            if j < before.len() {
                assert(sorting::Keyed::key(&before[i]) < sorting::Keyed::key(&before[j]));
            } else {
                assert(before[i] < n - 1);
            }
        }
    }
}

proof fn lemma_core_has(adj: Seq<Seq<u32>>, d: usize, n: nat, v: u32)
    requires
        n <= u32::MAX,
        v < n,
    ensures
        core_of(adj, d, n).contains(v) <==> adj[v as int].len() >= d,
    decreases n,
{
    let before = core_of(adj, d, (n - 1) as nat);
    let now = core_of(adj, d, n);
    if v < n - 1 {
        lemma_core_has(adj, d, (n - 1) as nat, v);
        if before.contains(v) {
            let i = choose|i: int| 0 <= i < before.len() && before[i] == v;
            assert(now[i] == v);
        }
        if now.contains(v) {
            let i = choose|i: int| 0 <= i < now.len() && now[i] == v;
            assert(before[i] == v);
        }
    } else {
        lemma_core(adj, d, (n - 1) as nat);
        if adj[n - 1].len() >= d {
            assert(now[now.len() - 1] == v);
        }
    }
}

/// Whom a node meets by preference is no worse connected than the first candidate,
/// and a candidate of the right community is kept.
pub proof fn lemma_preference(
    adj: Seq<Seq<u32>>,
    community: Seq<u32>,
    c: u32,
    cand: u32,
    stream: Map<nat, u32>,
    k: nat,
)
    ensures
        adj[preferred(adj, cand, stream, k).0 as int].len() >= adj[cand as int].len(),
        community[cand as int] == c ==> kept_near(community, c, cand, stream, k).0 == cand,
        k >= 1 && community[some_node(community.len() as int, stream).0 as int] == c
            ==> community[kept_near(community, c, cand, stream, k).0 as int] == c,
    decreases k,
{
    if k > 0 {
        let (alt, rest) = some_node(adj.len() as int, stream);
        let best = if adj[alt as int].len() > adj[cand as int].len() {
            alt
        } else {
            cand
        };
        lemma_preference(adj, community, c, best, rest, (k - 1) as nat);
        let (next, after) = some_node(community.len() as int, stream);
        lemma_preference(adj, community, c, next, after, (k - 1) as nat);
    }
}

/// The recorded links that count, in order, each once.
fn select_links(adj: &Vec<Vec<u32>>, d: usize, future: &Vec<(u32, u32)>) -> (r: Vec<(u32, u32)>)
    requires
        forall|i: int|
            0 <= i < future@.len() ==> is_future(
                bipartite::rows_of(adj@),
                #[trigger] future@[i],
            ),
    ensures
        sorting::is_strict(r@),
        forall|e: (u32, u32)| #[trigger]
            r@.contains(e) <==> future@.contains(e) && counts(bipartite::rows_of(adj@), d, e),
        forall|i: int|
            0 <= i < r@.len() ==> is_future(bipartite::rows_of(adj@), #[trigger] r@[i]),
{
    let ghost rows = bipartite::rows_of(adj@);
    let mut kept: Vec<(u32, u32)> = Vec::new();
    for i in 0..future.len()
        invariant
            rows == bipartite::rows_of(adj@),
            forall|i: int| 0 <= i < future@.len() ==> is_future(rows, #[trigger] future@[i]),
            forall|j: int|
                0 <= j < kept@.len() ==> future@.contains(#[trigger] kept@[j]) && counts(
                    rows,
                    d,
                    kept@[j],
                ),
            forall|j: int|
                0 <= j < i && counts(rows, d, #[trigger] future@[j]) ==> kept@.contains(future@[j]),
    {
        let ghost before = kept@;
        let (a, b) = future[i];
        assert(is_future(rows, future@[i as int]));
        assert(rows[a as int] == adj@[a as int]@ && rows[b as int] == adj@[b as int]@);
        if adj[a as usize].len() >= d && adj[b as usize].len() >= d && !bipartite::has_item(
            &adj[a as usize],
            b,
        ) {
            kept.push((a, b));
            assert(kept@[before.len() as int] == future@[i as int]);
        }
        assert forall|j: int| 0 <= j < i + 1 && counts(rows, d, #[trigger] future@[j])
            implies kept@.contains(
            future@[j],
        ) by {
            if j < i {
                let k = choose|k: int| 0 <= k < before.len() && before[k] == future@[j];
                assert(kept@[k] == future@[j]);
            }
        }
    }
    let r = sorting::sorted_distinct(&kept);
    proof {
        assert forall|e: (u32, u32)| #[trigger] r@.contains(e) <==> future@.contains(e) && counts(
            rows,
            d,
            e,
        ) by {
            if kept@.contains(e) {
                let j = choose|j: int| 0 <= j < kept@.len() && kept@[j] == e;
                assert(future@.contains(kept@[j]));
            }
            if future@.contains(e) && counts(rows, d, e) {
                let j = choose|j: int| 0 <= j < future@.len() && future@[j] == e;
                assert(kept@.contains(future@[j]));
            }
        }
        assert forall|i: int| 0 <= i < r@.len() implies is_future(rows, #[trigger] r@[i]) by {
            assert(r@.contains(r@[i]));
            let j = choose|j: int| 0 <= j < future@.len() && future@[j] == r@[i];
            assert(is_future(rows, future@[j]));
        }
    }
    r
}

/// Draws a network, its core, and the links of its future.
pub fn collab_instance(rng: &mut ChaCha8Rng, cfg: &CollabConfig) -> (g: Collab)
    requires
        cfg.fits(),
    ensures
        g.well_formed(),
        is_instance(*cfg, rng::words(*old(rng)), &g, rng::words(*final(rng))),
        forall|v: int|
            0 <= v < cfg.n_nodes ==> #[trigger] g.community@[v] < cfg.n_communities,
        forall|v: u32|
            v < cfg.n_nodes ==> (#[trigger] g.core@.contains(v) <==> g.adj@[v as int]@.len()
                >= cfg.core_degree),
        g.new_edges@.len() <= cfg.test_edges,
        cfg.triadic_closure >= 9_007_199_254_740_992 && cfg.core_degree > 0 ==> forall|i: int|
            0 <= i < g.new_edges@.len() ==> share_a_neighbour(
                bipartite::rows_of(g.adj@),
                (#[trigger] g.new_edges@[i]).0,
                g.new_edges@[i].1,
            ),
{
    let n = cfg.n_nodes;
    let ghost stream = rng::words(*rng);
    let mut community: Vec<u32> = Vec::new();
    assert(community@ =~= Seq::empty());
    for v in 0..n
        invariant
            cfg.fits(),
            (community@, rng::words(*rng)) == drawn_communities(
                cfg.n_communities as u64,
                stream,
                v as nat,
            ),
            community@.len() == v,
            forall|j: int| 0 <= j < v ==> #[trigger] community@[j] < cfg.n_communities,
    {
        community.push(rng::gen_range(rng, 0, cfg.n_communities as u64) as u32);
    }
    let ghost s1 = rng::words(*rng);
    let mut adj: Vec<Vec<u32>> = math::empty_lists(n);
    assert(bipartite::rows_of(adj@) =~= Seq::new(n as nat, |v: int| Seq::empty()));
    for v in 0..n
        invariant
            n == cfg.n_nodes,
            cfg.fits(),
            adj@.len() == n,
            is_network(bipartite::rows_of(adj@), n as int),
            (bipartite::rows_of(adj@), rng::words(*rng)) == sown(n as int, s1, v as nat),
    {
        let w = draw_node(rng, n);
        if w != v as u32 {
            join(&mut adj, v as u32, w);
            assert(bipartite::rows_of(adj@).len() == n);
        }
    }
    let mut none: Vec<(u32, u32)> = Vec::new();
    assert(none@ =~= Seq::empty());
    grow(rng, &mut adj, &community, cfg, cfg.train_edges, &mut none, false);
    let ghost rows = bipartite::rows_of(adj@);
    let mut core: Vec<u32> = Vec::new();
    assert(core@ =~= Seq::empty());
    for v in 0..n
        invariant
            n == cfg.n_nodes,
            cfg.fits(),
            adj@.len() == n,
            rows == bipartite::rows_of(adj@),
            core@ == core_of(rows, cfg.core_degree, v as nat),
    {
        assert(rows[v as int] == adj@[v as int]@);
        if adj[v].len() >= cfg.core_degree {
            core.push(v as u32);
        }
    }
    let mut future: Vec<(u32, u32)> = Vec::new();
    assert(future@ =~= Seq::empty());
    grow(rng, &mut adj, &community, cfg, cfg.test_edges, &mut future, true);
    let new_edges = select_links(&adj, cfg.core_degree, &future);
    proof {
        lemma_core(rows, cfg.core_degree, n as nat);
        assert forall|v: u32| v < cfg.n_nodes implies (#[trigger] core@.contains(v)
            <==> adj@[v as int]@.len() >= cfg.core_degree) by {
            lemma_core_has(rows, cfg.core_degree, n as nat, v);
            assert(bipartite::rows_of(adj@)[v as int] == adj@[v as int]@);
        }
        math::lemma_subset_len(new_edges@, future@);
        if cfg.triadic_closure >= 9_007_199_254_740_992 && cfg.core_degree > 0 {
            assert forall|i: int| 0 <= i < new_edges@.len() implies share_a_neighbour(
                bipartite::rows_of(adj@),
                (#[trigger] new_edges@[i]).0,
                new_edges@[i].1,
            ) by {
                let e = new_edges@[i];
                assert(new_edges@.contains(e));
                let j = choose|j: int| 0 <= j < future@.len() && future@[j] == e;
                assert(closes_a_triangle(bipartite::rows_of(adj@), future@[j]));
            }
        }
    }
    Collab { n_nodes: n, adj, community, new_edges, core }
}

/// What a predictor found.
#[derive(Clone, Copy, Debug)]
pub struct PredictorScore {
    /// New links among its first `n` pairs.
    pub hits: usize,
    /// How many new links there are.
    pub n: usize,
    /// How many pairs there were to rank: a random guess hits with probability
    /// `n / candidates`.
    pub candidates: usize,
}

/// How many of the first `k` pairs are in `truth`.
pub open spec fn found(
    scored: Seq<((u32, u32), u128)>,
    truth: Seq<(u32, u32)>,
    k: nat,
) -> nat
    decreases k,
{
    if k == 0 {
        0
    } else {
        found(scored, truth, (k - 1) as nat) + if truth.contains(scored[k - 1].0) {
            1nat
        } else {
            0
        }
    }
}

fn has_link(list: &Vec<(u32, u32)>, e: (u32, u32)) -> (b: bool)
    ensures
        b == list@.contains(e),
{
    for i in 0..list.len()
        invariant
            forall|j: int| 0 <= j < i ==> #[trigger] list@[j] != e,
    {
        if list[i].0 == e.0 && list[i].1 == e.1 {
            assert(list@[i as int] == e);
            return true;
        }
    }
    false
}

/// Ranks the scored pairs, equal scores by the pair itself, and counts the new
/// links among as many of the best as there are new links.
pub fn evaluate(g: &Collab, scored: &mut Vec<((u32, u32), u128)>) -> (r: PredictorScore)
    requires
        g.well_formed(),
    ensures
        sorting::is_sorted(final(scored)@),
        final(scored)@.to_multiset() == old(scored)@.to_multiset(),
        final(scored)@.len() == old(scored)@.len(),
        r.n == g.new_edges@.len(),
        r.hits == found(
            final(scored)@,
            g.new_edges@,
            if r.n < final(scored)@.len() {
                r.n as nat
            } else {
                final(scored)@.len()
            },
        ),
        r.hits <= r.n,
        r.candidates == open_pairs(
            bipartite::rows_of(g.adj@),
            g.core@,
            g.core@.len(),
        ).len(),
{
    let n = g.new_edges.len();
    let candidates = g.candidates().len();
    let ranked = sorting::sorted(scored);
    let k = if n < ranked.len() {
        n
    } else {
        ranked.len()
    };
    let mut hits: usize = 0;
    for i in 0..k
        invariant
            k <= ranked@.len(),
            hits <= i,
            hits == found(ranked@, g.new_edges@, i as nat),
    {
        if has_link(&g.new_edges, ranked[i].0) {
            hits += 1;
        }
    }
    *scored = ranked;
    PredictorScore { hits, n, candidates }
}

/// What a predictor found among its first pairs: all where all of them came true, and
/// something where one did.
pub proof fn lemma_found(scored: Seq<((u32, u32), u128)>, truth: Seq<(u32, u32)>, k: nat)
    requires
        k <= scored.len(),
    ensures
        found(scored, truth, k) <= k,
        found(scored, truth, k) == k <==> forall|i: int|
            0 <= i < k ==> truth.contains((#[trigger] scored[i]).0),
        found(scored, truth, k) > 0 <==> exists|i: int|
            0 <= i < k && truth.contains((#[trigger] scored[i]).0),
    decreases k,
{
    if k > 0 {
        lemma_found(scored, truth, (k - 1) as nat);
        if found(scored, truth, (k - 1) as nat) > 0 {
            let i = choose|i: int| 0 <= i < k - 1 && truth.contains((#[trigger] scored[i]).0);
            assert(truth.contains(scored[i].0));
        }
        if exists|i: int| 0 <= i < k && truth.contains((#[trigger] scored[i]).0) {
            let i = choose|i: int| 0 <= i < k && truth.contains((#[trigger] scored[i]).0);
            if i < k - 1 {
                assert(truth.contains(scored[i].0));
            }
        }
        if forall|i: int| 0 <= i < k ==> truth.contains((#[trigger] scored[i]).0) {
            assert(truth.contains(scored[k - 1].0));
            assert forall|i: int| 0 <= i < k - 1 implies truth.contains(
                (#[trigger] scored[i]).0,
            ) by {}
        }
    }
}

/// The pair is one of core nodes at places `i < k` that are not joined.
pub open spec fn is_open_pair(
    adj: Seq<Seq<u32>>,
    core: Seq<u32>,
    p: (u32, u32),
    i: int,
    k: int,
) -> bool {
    &&& 0 <= i < k < core.len()
    &&& p == (core[i], core[k])
    &&& !adj[p.0 as int].contains(p.1)
}

/// What can still be predicted are the pairs of core nodes that are not joined, and all
/// of them.
pub proof fn lemma_open_pairs(adj: Seq<Seq<u32>>, core: Seq<u32>, n: nat, p: (u32, u32))
    requires
        n <= core.len(),
    ensures
        open_pairs(adj, core, n).contains(p) <==> exists|i: int, k: int|
            i < n && #[trigger] is_open_pair(adj, core, p, i, k),
    decreases n,
{
    let now = open_pairs(adj, core, n);
    if n > 0 {
        let before = open_pairs(adj, core, (n - 1) as nat);
        let more = open_pairs_from(adj, core, n - 1, core.len() as int);
        lemma_open_pairs(adj, core, (n - 1) as nat, p);
        lemma_open_pairs_from(adj, core, n - 1, core.len() as int, p);
        if before.contains(p) {
            let j = choose|j: int| 0 <= j < before.len() && before[j] == p;
            assert(now[j] == p);
        }
        if more.contains(p) {
            let j = choose|j: int| 0 <= j < more.len() && more[j] == p;
            assert(now[before.len() + j] == p);
        }
        if now.contains(p) {
            let j = choose|j: int| 0 <= j < now.len() && now[j] == p;
            if j < before.len() {
                assert(before[j] == p);
                let (i, k) = choose|i: int, k: int|
                    i < n - 1 && #[trigger] is_open_pair(adj, core, p, i, k);
                assert(is_open_pair(adj, core, p, i, k));
            } else {
                assert(more[j - before.len()] == p);
            }
        }
        if exists|i: int, k: int| i < n && #[trigger] is_open_pair(adj, core, p, i, k) {
            let (i, k) = choose|i: int, k: int|
                i < n && #[trigger] is_open_pair(adj, core, p, i, k);
            if i < n - 1 {
                assert(is_open_pair(adj, core, p, i, k));
            }
        }
    }
}

proof fn lemma_open_pairs_from(adj: Seq<Seq<u32>>, core: Seq<u32>, i: int, j: int, p: (u32, u32))
    requires
        0 <= i,
        j <= core.len(),
    ensures
        open_pairs_from(adj, core, i, j).contains(p) <==> exists|k: int|
            k < j && #[trigger] is_open_pair(adj, core, p, i, k),
    decreases j - i,
{
    let now = open_pairs_from(adj, core, i, j);
    if j > i + 1 {
        let before = open_pairs_from(adj, core, i, j - 1);
        lemma_open_pairs_from(adj, core, i, j - 1, p);
        if before.contains(p) {
            let x = choose|x: int| 0 <= x < before.len() && before[x] == p;
            assert(now[x] == p);
        }
        if is_open_pair(adj, core, p, i, j - 1) {
            assert(now[now.len() - 1] == p);
        }
        if now.contains(p) {
            let x = choose|x: int| 0 <= x < now.len() && now[x] == p;
            if x < before.len() {
                assert(before[x] == p);
                let k = choose|k: int| k < j - 1 && #[trigger] is_open_pair(adj, core, p, i, k);
                assert(is_open_pair(adj, core, p, i, k));
            } else {
                assert(is_open_pair(adj, core, p, i, j - 1));
            }
        }
        if exists|k: int| k < j && #[trigger] is_open_pair(adj, core, p, i, k) {
            let k = choose|k: int| k < j && #[trigger] is_open_pair(adj, core, p, i, k);
            if k < j - 1 {
                assert(is_open_pair(adj, core, p, i, k));
            }
        }
    }
}

} // verus!
