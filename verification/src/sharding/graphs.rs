//! Graph generators for partitioners, and what a partition cuts.
//!
//! Two workloads: a planted-partition graph, with communities that a
//! partitioner can find, and a preferential-attachment graph, with the
//! power-law degree tail of natural graphs.

use crate::math;
use crate::rng;
use crate::sharding::placement;
use vstd::prelude::*;

verus! {

#[derive(Debug)]
pub struct Graph {
    pub n: usize,
    pub edges: Vec<(u32, u32)>,
}

/// The neighbours that the first `k` edges give a vertex, in edge order.
pub open spec fn neighbours(edges: Seq<(u32, u32)>, v: int, k: nat) -> Seq<u32>
    decreases k,
{
    if k == 0 {
        Seq::empty()
    } else {
        let before = neighbours(edges, v, (k - 1) as nat);
        let (a, b) = edges[k - 1];
        let with_b = if a == v {
            before.push(b)
        } else {
            before
        };
        if b == v {
            with_b.push(a)
        } else {
            with_b
        }
    }
}

impl Graph {
    /// Edges join vertices of the graph.
    pub open spec fn in_range(&self) -> bool {
        forall|i: int|
            0 <= i < self.edges@.len() ==> (#[trigger] self.edges@[i]).0 < self.n && self.edges@[i].1
                < self.n
    }

    pub fn adjacency(&self) -> (adj: Vec<Vec<u32>>)
        requires
            self.in_range(),
        ensures
            adj@.len() == self.n,
            forall|v: int|
                0 <= v < self.n ==> (#[trigger] adj@[v])@ == neighbours(
                    self.edges@,
                    v,
                    self.edges@.len(),
                ),
    {
        let mut adj: Vec<Vec<u32>> = Vec::new();
        for v in 0..self.n
            invariant
                adj@.len() == v,
                forall|w: int| 0 <= w < v ==> (#[trigger] adj@[w])@ == Seq::<u32>::empty(),
        {
            adj.push(Vec::new());
        }
        for i in 0..self.edges.len()
            invariant
                self.in_range(),
                adj@.len() == self.n,
                forall|v: int|
                    0 <= v < self.n ==> (#[trigger] adj@[v])@ == neighbours(
                        self.edges@,
                        v,
                        i as nat,
                    ),
        {
            let (a, b) = self.edges[i];
            assert(self.edges@[i as int].0 < self.n && self.edges@[i as int].1 < self.n);
            adj[a as usize].push(b);
            adj[b as usize].push(a);
        }
        adj
    }
}

/// The edges from `v` to the places that were drawn in its own community.
pub open spec fn inner_edges(v: int, base: int, draws: Seq<usize>, k: nat) -> Seq<(u32, u32)>
    decreases k,
{
    if k == 0 {
        Seq::empty()
    } else {
        let before = inner_edges(v, base, draws, (k - 1) as nat);
        let u = base + draws[k - 1];
        if u != v {
            before.push((v as u32, u as u32))
        } else {
            before
        }
    }
}

/// The edges from `v` to the vertices that were drawn outside its community.
pub open spec fn outer_edges(v: int, per: int, draws: Seq<usize>, k: nat) -> Seq<(u32, u32)>
    decreases k,
{
    if k == 0 {
        Seq::empty()
    } else {
        let before = outer_edges(v, per, draws, (k - 1) as nat);
        let u = draws[k - 1] as int;
        if u / per != v / per {
            before.push((v as u32, u as u32))
        } else {
            before
        }
    }
}

/// The edges of the first `v` vertices of a planted partition, and the stream
/// that is left.
pub open spec fn planted(
    stream: Map<nat, u32>,
    n: usize,
    per: usize,
    d_in: nat,
    d_out: nat,
    v: nat,
) -> (Seq<(u32, u32)>, Map<nat, u32>)
    decreases v,
{
    if v == 0 {
        (Seq::empty(), stream)
    } else {
        let (before, rest) = planted(stream, n, per, d_in, d_out, (v - 1) as nat);
        let w = v - 1;
        let (ins, mid) = rng::range_draws(rest, 0, per, d_in);
        let (outs, end) = rng::range_draws(mid, 0, n, d_out);
        (
            before + inner_edges(w, (w / per as int) * per, ins, d_in) + outer_edges(
                w,
                per as int,
                outs,
                d_out,
            ),
            end,
        )
    }
}

/// Both ends are in one block of `per` vertices.
pub open spec fn is_inside(e: (u32, u32), per: int) -> bool {
    e.0 as int / per == e.1 as int / per
}

pub open spec fn all_inside(edges: Seq<(u32, u32)>, per: int) -> bool {
    forall|i: int| 0 <= i < edges.len() ==> is_inside(#[trigger] edges[i], per)
}

pub open spec fn none_inside(edges: Seq<(u32, u32)>, per: int) -> bool {
    forall|i: int| 0 <= i < edges.len() ==> !is_inside(#[trigger] edges[i], per)
}

/// Planted partition: `k` communities of `per` vertices; each vertex draws
/// `d_in` edges into its community and `d_out` edges across.
pub fn community(k: usize, per: usize, d_in: usize, d_out: usize, seed: u64) -> (g: Graph)
    requires
        k * per <= u32::MAX,
        k * per <= usize::MAX,
    ensures
        g.n == k * per,
        g.edges@ == planted(
            rng::seeded_words(seed),
            (k * per) as usize,
            per,
            d_in as nat,
            d_out as nat,
            (k * per) as nat,
        ).0,
        g.in_range(),
        forall|i: int|
            0 <= i < g.edges@.len() ==> (#[trigger] g.edges@[i]).0 != g.edges@[i].1,
        g.edges@.len() <= g.n * (d_in + d_out),
        d_out == 0 ==> all_inside(g.edges@, per as int),
        d_in == 0 ==> none_inside(g.edges@, per as int),
{
    let n = k * per;
    let mut draw = rng::seeded_rng(seed);
    let ghost start = rng::words(draw);
    let mut edges: Vec<(u32, u32)> = Vec::new();
    for v in 0..n
        invariant
            n == k * per,
            n <= u32::MAX,
            start == rng::seeded_words(seed),
            (edges@, rng::words(draw)) == planted(
                start,
                n,
                per,
                d_in as nat,
                d_out as nat,
                v as nat,
            ),
            forall|i: int|
                0 <= i < edges@.len() ==> (#[trigger] edges@[i]).0 < n && edges@[i].1 < n
                    && edges@[i].0 != edges@[i].1,
            edges@.len() <= v * (d_in + d_out),
            d_out == 0 ==> all_inside(edges@, per as int),
            d_in == 0 ==> none_inside(edges@, per as int),
    {
        proof {
            assert(per > 0) by (nonlinear_arith)
                requires
                    n == k * per,
                    n > 0,
                    per >= 0,
            ;
        }
        let c = v / per;
        proof {
            assert(c * per + per <= n) by (nonlinear_arith)
                requires
                    c == v as int / per as int,
                    v < n,
                    n == k * per,
                    per > 0,
                    v >= 0,
                    k >= 0,
            ;
        }
        let base = c * per;
        let ins = rng::draw_indices(&mut draw, 0, per, d_in);
        let outs = rng::draw_indices(&mut draw, 0, n, d_out);
        let ghost before = edges@;
        for i in 0..ins.len()
            invariant
                n <= u32::MAX,
                v < n,
                ins@.len() == d_in,
                base + per <= n,
                per > 0,
                c == v as int / per as int,
                base == c * per,
                d_out == 0 ==> all_inside(edges@, per as int),
                d_in == 0 ==> none_inside(edges@, per as int),
                edges@.len() <= before.len() + i,
                forall|i: int| 0 <= i < ins@.len() ==> 0 <= #[trigger] ins@[i] < per,
                edges@ == before + inner_edges(v as int, base as int, ins@, i as nat),
                forall|i: int|
                    0 <= i < edges@.len() ==> (#[trigger] edges@[i]).0 < n && edges@[i].1 < n
                        && edges@[i].0 != edges@[i].1,
        {
            assert(ins@[i as int] < per);
            let u = base + ins[i];
            proof {
                vstd::arithmetic::div_mod::lemma_fundamental_div_mod_converse(
                    u as int,
                    per as int,
                    c as int,
                    ins@[i as int] as int,
                );
                assert(is_inside((v as u32, u as u32), per as int));
            }
            if u != v {
                edges.push((v as u32, u as u32));
            }
            assert(edges@ =~= before + inner_edges(v as int, base as int, ins@, (i + 1) as nat));
        }
        let ghost mid = edges@;
        for i in 0..outs.len()
            invariant
                n <= u32::MAX,
                v < n,
                per > 0,
                c == v as int / per as int,
                outs@.len() == d_out,
                d_out == 0 ==> all_inside(edges@, per as int),
                d_in == 0 ==> none_inside(edges@, per as int),
                edges@.len() <= before.len() + d_in + i,
                forall|i: int| 0 <= i < outs@.len() ==> 0 <= #[trigger] outs@[i] < n,
                edges@ == mid + outer_edges(v as int, per as int, outs@, i as nat),
                forall|i: int|
                    0 <= i < edges@.len() ==> (#[trigger] edges@[i]).0 < n && edges@[i].1 < n
                        && edges@[i].0 != edges@[i].1,
        {
            assert(outs@[i as int] < n);
            let u = outs[i];
            if u / per != c {
                edges.push((v as u32, u as u32));
            }
            assert(edges@ =~= mid + outer_edges(v as int, per as int, outs@, (i + 1) as nat));
        }
        assert((v + 1) * (d_in + d_out) == v * (d_in + d_out) + d_in + d_out) by (nonlinear_arith);
    }
    Graph { n, edges }
}

/// The edges of a complete graph on the first vertices: all pairs with the
/// larger end below `v`, and those of `v` with the first `u`.
pub open spec fn clique(v: nat, u: nat) -> Seq<(u32, u32)>
    decreases v, u,
{
    if u > 0 {
        clique(v, (u - 1) as nat).push(((u - 1) as u32, v as u32))
    } else if v > 0 {
        clique((v - 1) as nat, (v - 1) as nat)
    } else {
        Seq::empty()
    }
}

/// The ends of the edges, in order.
pub open spec fn ends_of(edges: Seq<(u32, u32)>) -> Seq<u32> {
    Seq::new(
        2 * edges.len(),
        |i: int|
            if i % 2 == 0 {
                edges[i / 2].0
            } else {
                edges[i / 2].1
            },
    )
}

/// `j` edges from `v` to ends that were drawn from the edges so far, and the
/// stream that is left.
pub open spec fn attached(
    edges: Seq<(u32, u32)>,
    stream: Map<nat, u32>,
    v: int,
    j: nat,
) -> (Seq<(u32, u32)>, Map<nat, u32>)
    decreases j,
{
    if j == 0 {
        (edges, stream)
    } else {
        let (before, rest) = attached(edges, stream, v, (j - 1) as nat);
        let (at, used) = rng::range_draw(rest, 0, (2 * before.len()) as u64);
        (before.push((ends_of(before)[at as int], v as u32)), rng::skip_words(rest, used))
    }
}

/// Vertices behind the first `m + 1` attached, up to `v`.
pub open spec fn grown(stream: Map<nat, u32>, m: nat, v: nat) -> (Seq<(u32, u32)>, Map<nat, u32>)
    decreases v,
{
    if v <= m + 1 {
        (clique(m, m), stream)
    } else {
        let (before, rest) = grown(stream, m, (v - 1) as nat);
        attached(before, rest, v - 1, m)
    }
}

/// Ends stay below a bound.
spec fn ends_below(edges: Seq<(u32, u32)>, n: int) -> bool {
    forall|i: int| 0 <= i < edges.len() ==> (#[trigger] edges[i]).0 < n && edges[i].1 < n
}

fn push_edge(edges: &mut Vec<(u32, u32)>, ends: &mut Vec<u32>, a: u32, b: u32)
    requires
        old(ends)@ == ends_of(old(edges)@),
    ensures
        final(edges)@ == old(edges)@.push((a, b)),
        final(ends)@ == ends_of(final(edges)@),
{
    edges.push((a, b));
    ends.push(a);
    ends.push(b);
    proof {
        let e0 = old(edges)@;
        let e = edges@;
        assert(ends@ =~= ends_of(e)) by {
            assert forall|i: int| 0 <= i < ends@.len() implies ends@[i] == ends_of(e)[i] by {
                if i < 2 * e0.len() {
                    assert(old(ends)@[i] == ends_of(e0)[i]);
                    assert(i / 2 < e0.len());
                } else if i == 2 * e0.len() {
                    assert(i / 2 == e0.len() && i % 2 == 0);
                } else {
                    assert(i == 2 * e0.len() + 1);
                    assert(i / 2 == e0.len() && i % 2 == 1);
                }
            }
        }
    }
}

/// Preferential attachment: a complete graph on `m + 1` vertices, then each
/// new vertex attaches `m` edges to ends drawn in proportion to their degree.
pub fn power_law(n: usize, m: usize, seed: u64) -> (g: Graph)
    requires
        m < u32::MAX,
        n <= u32::MAX,
    ensures
        g.n == n,
        g.edges@ == grown(rng::seeded_words(seed), m as nat, n as nat).0,
        n > m ==> g.in_range(),
{
    let mut draw = rng::seeded_rng(seed);
    let ghost start = rng::words(draw);
    let mut edges: Vec<(u32, u32)> = Vec::new();
    let mut ends: Vec<u32> = Vec::new();
    assert(ends@ =~= ends_of(edges@));
    let mut v: usize = 0;
    while v <= m
        invariant
            m < u32::MAX,
            v <= m + 1,
            ends@ == ends_of(edges@),
            v > 0 ==> edges@ == clique((v - 1) as nat, (v - 1) as nat),
            v == 0 ==> edges@ == Seq::<(u32, u32)>::empty(),
            ends_below(edges@, v as int),
        decreases m + 1 - v,
    {
        assert(edges@ == clique(v as nat, 0));
        for u in 0..v
            invariant
                v <= m,
                m < u32::MAX,
                ends@ == ends_of(edges@),
                edges@ == clique(v as nat, u as nat),
                ends_below(edges@, v + 1),
        {
            push_edge(&mut edges, &mut ends, u as u32, v as u32);
        }
        v += 1;
    }
    let mut v = m + 1;
    assert(m > 0 ==> edges@ == clique(m as nat, (m - 1) as nat).push(((m - 1) as u32, m as u32)));
    while v < n
        invariant
            m < u32::MAX,
            n <= u32::MAX,
            m + 1 <= v,
            v <= n || v == m + 1,
            start == rng::seeded_words(seed),
            ends@ == ends_of(edges@),
            (edges@, rng::words(draw)) == grown(start, m as nat, v as nat),
            ends_below(edges@, v as int),
            m > 0 ==> edges@.len() > 0,
        decreases n - v,
    {
        let ghost base = edges@;
        let ghost rest = rng::words(draw);
        for j in 0..m
            invariant
                v < n <= u32::MAX,
                ends@ == ends_of(edges@),
                (edges@, rng::words(draw)) == attached(base, rest, v as int, j as nat),
                ends_below(edges@, v + 1),
                m > 0 ==> edges@.len() > 0,
        {
            let at = rng::draw_index(&mut draw, 0, ends.len());
            let t = ends[at];
            proof {
                assert(ends@[at as int] == ends_of(edges@)[at as int]);
                let e = edges@[at as int / 2];
                assert(e.0 < v + 1 && e.1 < v + 1);
            }
            push_edge(&mut edges, &mut ends, t, v as u32);
        }
        v += 1;
    }
    Graph { n, edges }
}

/// Edge `i` joins two parts.
pub open spec fn is_cut(assign: Seq<u32>, edges: Seq<(u32, u32)>) -> spec_fn(int) -> bool {
    |i: int| assign[edges[i].0 as int] != assign[edges[i].1 as int]
}

/// How many edges have their ends in different parts: the communication that
/// a distributed traversal pays.
pub fn edge_cut(assign: &[u32], edges: &[(u32, u32)]) -> (cut: usize)
    requires
        forall|i: int|
            0 <= i < edges@.len() ==> (#[trigger] edges@[i]).0 < assign@.len() && edges@[i].1
                < assign@.len(),
    ensures
        cut == math::count(edges@.len(), is_cut(assign@, edges@)),
{
    let mut cut: usize = 0;
    for i in 0..edges.len()
        invariant
            forall|i: int|
                0 <= i < edges@.len() ==> (#[trigger] edges@[i]).0 < assign@.len() && edges@[i].1
                    < assign@.len(),
            cut <= i,
            cut == math::count(i as nat, is_cut(assign@, edges@)),
    {
        let (u, v) = edges[i];
        assert(edges@[i as int].0 < assign@.len());
        if assign[u as usize] != assign[v as usize] {
            cut += 1;
        }
    }
    cut
}

/// Placement by hash: the baseline.
pub fn random_assignment(n: usize, k: u32, seed: u64) -> (assign: Vec<u32>)
    requires
        n > 0 ==> k > 0,
    ensures
        assign@.len() == n,
        forall|v: int|
            0 <= v < n ==> #[trigger] assign@[v] == placement::mixed(seed ^ (v as u64)) as int
                % k as int && assign@[v] < k,
{
    let mut assign: Vec<u32> = Vec::new();
    for v in 0..n
        invariant
            n > 0 ==> k > 0,
            assign@.len() == v,
            forall|w: int|
                0 <= w < v ==> #[trigger] assign@[w] == placement::mixed(seed ^ (w as u64)) as int
                    % k as int && assign@[w] < k,
    {
        assign.push((placement::splitmix64(seed ^ (v as u64)) % k as u64) as u32);
    }
    assign
}

} // verus!
