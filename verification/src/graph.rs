//! Directed graphs as adjacency lists: walks, reachability, breadth-first
//! distances.

use crate::math;
use vstd::prelude::*;

verus! {

/// A relation between nodes: `e(a, b)` when there is an edge from `a` to `b`.
pub type Edges = spec_fn(usize, usize) -> bool;

/// The edges that adjacency lists hold.
pub open spec fn listed(adj: Seq<Vec<usize>>) -> Edges {
    |a: usize, b: usize| a < adj.len() && adj[a as int]@.contains(b)
}

/// Every neighbour is a node.
pub open spec fn closed_lists(adj: Seq<Vec<usize>>) -> bool {
    forall|a: int, k: int|
        0 <= a < adj.len() && 0 <= k < adj[a]@.len() ==> #[trigger] adj[a]@[k] < adj.len()
}

/// `p` follows edges from each of its nodes to the next.
pub open spec fn is_walk(e: Edges, p: Seq<usize>) -> bool {
    &&& p.len() > 0
    &&& forall|i: int| 0 <= i < p.len() - 1 ==> e(#[trigger] p[i], p[i + 1])
}

/// `p` is a walk from `a` to `b`.
pub open spec fn walks(e: Edges, p: Seq<usize>, a: usize, b: usize) -> bool {
    &&& is_walk(e, p)
    &&& p[0] == a
    &&& p.last() == b
}

/// Some walk leads from `a` to `b`; every node reaches itself.
pub open spec fn reach(e: Edges, a: usize, b: usize) -> bool {
    exists|p: Seq<usize>| walks(e, p, a, b)
}

/// The same edges, pointing the other way.
pub open spec fn flip(e: Edges) -> Edges {
    |a: usize, b: usize| e(b, a)
}

/// The edges that touch neither side of a removed node.
pub open spec fn without(e: Edges, d: usize) -> Edges {
    |a: usize, b: usize| e(a, b) && a != d && b != d
}

pub proof fn lemma_reach_self(e: Edges, a: usize)
    ensures
        reach(e, a, a),
{
    assert(walks(e, seq![a], a, a));
}

/// Appending an edge to a walk.
pub proof fn lemma_walk_push(e: Edges, p: Seq<usize>, a: usize, b: usize, c: usize)
    requires
        walks(e, p, a, b),
        e(b, c),
    ensures
        walks(e, p.push(c), a, c),
{
    let q = p.push(c);
    assert forall|i: int| 0 <= i < q.len() - 1 implies e(#[trigger] q[i], q[i + 1]) by {
        if i < p.len() - 1 {
            assert(q[i] == p[i]);
        }
    }
}

/// A walk to `b` followed by a walk from `b`.
pub proof fn lemma_walk_join(
    e: Edges,
    p: Seq<usize>,
    q: Seq<usize>,
    a: usize,
    b: usize,
    c: usize,
)
    requires
        walks(e, p, a, b),
        walks(e, q, b, c),
    ensures
        walks(e, p + q.skip(1), a, c),
        forall|x: usize| #[trigger] (p + q.skip(1)).contains(x) ==> p.contains(x) || q.contains(x),
{
    let r = p + q.skip(1);
    assert forall|i: int| 0 <= i < r.len() - 1 implies e(#[trigger] r[i], r[i + 1]) by {
        if i < p.len() - 1 {
            assert(r[i] == p[i] && r[i + 1] == p[i + 1]);
        } else {
            let k = i - p.len() + 1;
            assert(r[i] == q[k]);
            assert(r[i + 1] == q[k + 1]);
        }
    }
    assert forall|x: usize| #[trigger] r.contains(x) implies p.contains(x) || q.contains(x) by {
        let i = choose|i: int| 0 <= i < r.len() && r[i] == x;
        if i < p.len() {
            assert(p[i] == x);
        } else {
            assert(q[i - p.len() + 1] == x);
        }
    }
    if q.len() == 1 {
        assert(r =~= p);
    } else {
        assert(r.last() == q.last());
    }
}

/// Reading a walk backwards is a walk of the flipped edges.
pub proof fn lemma_walk_flip(e: Edges, p: Seq<usize>, a: usize, b: usize)
    requires
        walks(e, p, a, b),
    ensures
        walks(flip(e), p.reverse(), b, a),
        forall|x: usize| #[trigger] p.reverse().contains(x) == p.contains(x),
{
    let r = p.reverse();
    assert forall|i: int| 0 <= i < r.len() - 1 implies flip(e)(#[trigger] r[i], r[i + 1]) by {
        let j = p.len() - 2 - i;
        assert(r[i] == p[j + 1] && r[i + 1] == p[j]);
    }
    assert forall|x: usize| #[trigger] r.contains(x) == p.contains(x) by {
        if p.contains(x) {
            let j = choose|j: int| 0 <= j < p.len() && p[j] == x;
            assert(r[p.len() - 1 - j] == x);
        }
        if r.contains(x) {
            let j = choose|j: int| 0 <= j < r.len() && r[j] == x;
            assert(p[p.len() - 1 - j] == x);
        }
    }
}

pub proof fn lemma_reach_flip(e: Edges, a: usize, b: usize)
    ensures
        reach(flip(e), b, a) == reach(e, a, b),
{
    if reach(e, a, b) {
        let p = choose|p: Seq<usize>| walks(e, p, a, b);
        lemma_walk_flip(e, p, a, b);
    }
    if reach(flip(e), b, a) {
        let p = choose|p: Seq<usize>| walks(flip(e), p, b, a);
        lemma_walk_flip(flip(e), p, b, a);
        assert(walks(e, p.reverse(), a, b)) by {
            let r = p.reverse();
            assert forall|i: int| 0 <= i < r.len() - 1 implies e(#[trigger] r[i], r[i + 1]) by {
                assert(flip(flip(e))(r[i], r[i + 1]));
            }
        }
    }
}

/// Walks that agree on every edge they could use are the same walks.
pub proof fn lemma_reach_same(e: Edges, f: Edges, a: usize, b: usize)
    requires
        forall|x: usize, y: usize| #[trigger] e(x, y) == f(x, y),
    ensures
        reach(e, a, b) == reach(f, a, b),
{
    if reach(e, a, b) {
        let p = choose|p: Seq<usize>| walks(e, p, a, b);
        assert(walks(f, p, a, b));
    }
    if reach(f, a, b) {
        let p = choose|p: Seq<usize>| walks(f, p, a, b);
        assert(walks(e, p, a, b));
    }
}

/// A walk avoids `d` exactly when it is a walk of the edges without `d`
/// (apart from its single node, when it has only one).
pub proof fn lemma_walk_without(e: Edges, p: Seq<usize>, a: usize, b: usize, d: usize)
    requires
        a != d,
    ensures
        walks(without(e, d), p, a, b) == (walks(e, p, a, b) && !p.contains(d)),
{
    if walks(without(e, d), p, a, b) {
        assert forall|i: int| 0 <= i < p.len() - 1 implies e(#[trigger] p[i], p[i + 1]) by {
            assert(without(e, d)(p[i], p[i + 1]));
        }
        if p.contains(d) {
            let i = choose|i: int| 0 <= i < p.len() && p[i] == d;
            assert(without(e, d)(p[i - 1], p[i - 1 + 1]));
        }
    }
    if walks(e, p, a, b) && !p.contains(d) {
        assert forall|i: int| 0 <= i < p.len() - 1 implies without(e, d)(#[trigger] p[i], p[i + 1])
        by {
            assert(p.contains(p[i]));
            assert(p.contains(p[i + 1]));
        }
    }
}

/// A walk of `k` edges leads from some seed to `v`.
pub open spec fn within(e: Edges, seeds: Seq<usize>, v: usize, k: nat) -> bool {
    exists|s: usize, p: Seq<usize>|
        seeds.contains(s) && #[trigger] walks(e, p, s, v) && p.len() == k + 1
}

/// `v` is reachable from one of the seeds.
pub open spec fn reach_any(e: Edges, seeds: Seq<usize>, v: usize) -> bool {
    exists|s: usize| seeds.contains(s) && #[trigger] reach(e, s, v)
}

/// `d` is the hop distance from the seeds to `v`: `usize::MAX` when there is
/// no walk, and otherwise the number of edges of a shortest one.
pub open spec fn is_distance(e: Edges, seeds: Seq<usize>, v: usize, d: usize) -> bool {
    if d == usize::MAX {
        !reach_any(e, seeds, v)
    } else {
        &&& within(e, seeds, v, d as nat)
        &&& forall|k: nat| #[trigger] within(e, seeds, v, k) ==> d <= k
    }
}

/// Along a walk from a seed the labels grow by at most one per edge.
proof fn lemma_labels_bound(
    e: Edges,
    n: nat,
    seeds: Seq<usize>,
    dist: Seq<usize>,
    p: Seq<usize>,
    s: usize,
    v: usize,
)
    requires
        dist.len() == n,
        seeds.contains(s),
        walks(e, p, s, v),
        forall|i: int| 0 <= i < seeds.len() ==> #[trigger] seeds[i] < n && dist[seeds[i] as int] == 0,
        forall|a: usize, b: usize| #[trigger] e(a, b) ==> a < n && b < n,
        forall|a: usize, b: usize|
            #[trigger] e(a, b) && dist[a as int] != usize::MAX ==> dist[b as int] <= dist[a as int] + 1
                && dist[b as int] != usize::MAX,
    ensures
        v < n,
        dist[v as int] != usize::MAX,
        dist[v as int] <= p.len() - 1,
    decreases p.len(),
{
    let i = choose|i: int| 0 <= i < seeds.len() && seeds[i] == s;
    assert(seeds[i] < n);
    if p.len() > 1 {
        let q = p.drop_last();
        let u = q.last();
        assert(e(p[p.len() - 2], p[p.len() - 2 + 1]));
        assert(walks(e, q, s, u));
        lemma_labels_bound(e, n, seeds, dist, q, s, u);
    }
}

/// What holds of the labels and the queue of a breadth-first search at any
/// time: the queue lists the labelled nodes once each, in label order, and
/// each label is the length of some walk.
#[verifier::opaque]
spec fn bfs_state(
    e: Edges,
    n: nat,
    seeds: Seq<usize>,
    dist: Seq<usize>,
    queue: Seq<usize>,
) -> bool {
    &&& dist.len() == n
    &&& n <= usize::MAX
    &&& queue.len() <= n
    &&& queue.no_duplicates()
    &&& forall|a: usize, b: usize| #[trigger] e(a, b) ==> a < n && b < n
    &&& forall|i: int| 0 <= i < seeds.len() ==> #[trigger] seeds[i] < n
    &&& forall|i: int| 0 <= i < queue.len() ==> #[trigger] queue[i] < n
    &&& forall|i: int| 0 <= i < queue.len() ==> dist[#[trigger] queue[i] as int] <= i
    &&& forall|i: int|
        0 <= i < queue.len() ==> within(e, seeds, #[trigger] queue[i], dist[queue[i] as int] as nat)
    &&& forall|i: int, j: int|
        0 <= i <= j < queue.len() ==> dist[#[trigger] queue[i] as int] <= dist[#[trigger] queue[j] as int]
    &&& forall|v: int|
        0 <= v < n && #[trigger] dist[v] != usize::MAX ==> queue.contains(v as usize)
}

/// Every label in the queue is at most one more than that of entry `h`.
spec fn bfs_frontier(dist: Seq<usize>, queue: Seq<usize>, h: int) -> bool {
    forall|j: int|
        0 <= j < queue.len() ==> dist[#[trigger] queue[j] as int] <= dist[queue[h] as int] + 1
}

/// The nodes before entry `h` of the queue have no neighbour that is left out
/// or labelled too high.
spec fn bfs_done(e: Edges, dist: Seq<usize>, queue: Seq<usize>, h: int) -> bool {
    forall|i: int, b: usize|
        0 <= i < h && #[trigger] e(queue[i], b) ==> dist[b as int] != usize::MAX && dist[b as int]
            <= dist[queue[i] as int] + 1
}

proof fn lemma_bfs_push(
    e: Edges,
    n: nat,
    seeds: Seq<usize>,
    dist: Seq<usize>,
    queue: Seq<usize>,
    h: int,
    w: usize,
)
    requires
        bfs_state(e, n, seeds, dist, queue),
        bfs_frontier(dist, queue, h),
        bfs_done(e, dist, queue, h),
        0 <= h < queue.len(),
        w < n,
        e(queue[h], w),
        dist[w as int] == usize::MAX,
    ensures
        dist[queue[h] as int] + 1 < n,
        queue.push(w).len() <= n,
        ({
            let d2 = dist.update(w as int, (dist[queue[h] as int] + 1) as usize);
            let q2 = queue.push(w);
            &&& bfs_state(e, n, seeds, d2, q2)
            &&& bfs_frontier(d2, q2, h)
            &&& bfs_done(e, d2, q2, h)
            &&& d2[queue[h] as int] == dist[queue[h] as int]
        }),
{
    reveal(bfs_state);
    let v = queue[h];
    let dv = dist[v as int];
    assert(dv <= h);
    let d2 = dist.update(w as int, (dv + 1) as usize);
    let q2 = queue.push(w);
    assert forall|i: int| 0 <= i < queue.len() implies #[trigger] queue[i] != w by {
        assert(dist[queue[i] as int] <= i);
    }
    assert(q2.no_duplicates());
    math::lemma_distinct_bounded(q2, n);
    assert(within(e, seeds, w, (dv + 1) as nat)) by {
        assert(within(e, seeds, queue[h], dist[queue[h] as int] as nat));
        let (s, p) = choose|s: usize, p: Seq<usize>|
            seeds.contains(s) && #[trigger] walks(e, p, s, v) && p.len() == dv + 1;
        lemma_walk_push(e, p, s, v, w);
        assert(p.push(w).len() == dv + 1 + 1);
    }
    assert forall|i: int| 0 <= i < q2.len() implies within(
        e,
        seeds,
        #[trigger] q2[i],
        d2[q2[i] as int] as nat,
    ) by {
        if i < queue.len() {
            assert(q2[i] == queue[i]);
        }
    }
    assert forall|i: int, j: int| 0 <= i <= j < q2.len()
        implies d2[#[trigger] q2[i] as int] <= d2[#[trigger] q2[j] as int] by {
        if i < queue.len() {
            assert(q2[i] == queue[i]);
            assert(dist[queue[i] as int] <= dv + 1);
        }
        if j < queue.len() {
            assert(q2[j] == queue[j]);
        }
    }
    assert forall|i: int| 0 <= i < q2.len() implies d2[#[trigger] q2[i] as int] <= i by {
        if i < queue.len() {
            assert(q2[i] == queue[i]);
        }
    }
    assert forall|v2: int| 0 <= v2 < n && #[trigger] d2[v2] != usize::MAX
        implies q2.contains(v2 as usize) by {
        if v2 != w {
            assert(dist[v2] != usize::MAX);
            let i = choose|i: int| 0 <= i < queue.len() && queue[i] == v2 as usize;
            assert(q2[i] == v2 as usize);
        } else {
            assert(q2[queue.len() as int] == w);
        }
    }
    assert forall|j: int| 0 <= j < q2.len()
        implies d2[#[trigger] q2[j] as int] <= d2[q2[h] as int] + 1 by {
        assert(q2[h] == queue[h]);
        if j < queue.len() {
            assert(q2[j] == queue[j]);
        }
    }
    assert forall|i: int, b: usize| 0 <= i < h && #[trigger] e(q2[i], b)
        implies d2[b as int] != usize::MAX && d2[b as int] <= d2[q2[i] as int] + 1 by {
        assert(q2[i] == queue[i]);
        assert(e(queue[i], b));
    }
}

/// Breadth-first hop distances from several seeds at once.
pub fn bfs(adj: &[Vec<usize>], seeds: &[usize]) -> (dist: Vec<usize>)
    requires
        closed_lists(adj@),
        forall|i: int| 0 <= i < seeds@.len() ==> #[trigger] seeds@[i] < adj@.len(),
    ensures
        dist@.len() == adj@.len(),
        forall|v: int|
            0 <= v < dist@.len() ==> is_distance(listed(adj@), seeds@, v as usize, #[trigger] dist@[v]),
{
    let n = adj.len();
    let ghost e = listed(adj@);
    let mut dist: Vec<usize> = vec![usize::MAX; n];
    let mut queue: Vec<usize> = Vec::new();
    for k in 0..seeds.len()
        invariant
            n == adj@.len(),
            dist@.len() == n,
            e == listed(adj@),
            forall|i: int| 0 <= i < seeds@.len() ==> #[trigger] seeds@[i] < n,
            forall|i: int| 0 <= i < k ==> dist@[#[trigger] seeds@[i] as int] == 0,
            queue@.no_duplicates(),
            forall|i: int| 0 <= i < queue@.len() ==> #[trigger] queue@[i] < n,
            forall|i: int| 0 <= i < queue@.len() ==> dist@[#[trigger] queue@[i] as int] == 0,
            forall|i: int| 0 <= i < queue@.len() ==> seeds@.contains(#[trigger] queue@[i]),
            forall|v: int| 0 <= v < n && #[trigger] dist@[v] != usize::MAX ==> queue@.contains(v as usize),
    {
        let s = seeds[k];
        if dist[s] == usize::MAX {
            let ghost q0 = queue@;
            let ghost d0 = dist@;
            dist.set(s, 0);
            queue.push(s);
            proof {
                assert(queue@[q0.len() as int] == s);
                assert forall|v: int| 0 <= v < n && #[trigger] dist@[v] != usize::MAX
                    implies queue@.contains(v as usize) by {
                    if v != s {
                        assert(d0[v] != usize::MAX);
                        let i = choose|i: int| 0 <= i < q0.len() && q0[i] == v as usize;
                        assert(queue@[i] == v as usize);
                    }
                }
                assert(seeds@.contains(s));
            }
        } else {
            proof {
                let i = choose|i: int| 0 <= i < queue@.len() && queue@[i] == s;
                assert(dist@[queue@[i] as int] == 0);
            }
        }
    }
    proof {
        assert forall|i: int| 0 <= i < queue@.len()
            implies within(e, seeds@, #[trigger] queue@[i], 0) by {
            assert(walks(e, seq![queue@[i]], queue@[i], queue@[i]));
        }
        math::lemma_distinct_bounded(queue@, n as nat);
        assert forall|a: usize, b: usize| #[trigger] e(a, b) implies a < n && b < n by {
            let k = choose|k: int| 0 <= k < adj@[a as int]@.len() && adj@[a as int]@[k] == b;
            assert(adj@[a as int]@[k] < adj@.len());
        }
        reveal(bfs_state);
        assert(bfs_state(e, n as nat, seeds@, dist@, queue@));
    }
    let mut head: usize = 0;
    while head < queue.len()
        invariant
            n == adj@.len(),
            closed_lists(adj@),
            e == listed(adj@),
            dist@.len() == n,
            head <= queue@.len() <= n,
            forall|i: int| 0 <= i < seeds@.len() ==> #[trigger] seeds@[i] < n && dist@[seeds@[i] as int] == 0,
            bfs_state(e, n as nat, seeds@, dist@, queue@),
            head < queue@.len() ==> bfs_frontier(dist@, queue@, head as int),
            bfs_done(e, dist@, queue@, head as int),
        decreases n - head,
    {
        let v = queue[head];
        proof {
            reveal(bfs_state);
            assert(queue@[head as int] < n);
        }
        let dv = dist[v];
        let nbrs = &adj[v];
        for k in 0..nbrs.len()
            invariant
                n == adj@.len(),
                closed_lists(adj@),
                e == listed(adj@),
                v < n,
                nbrs@ == adj@[v as int]@,
                dist@.len() == n,
                head < queue@.len() <= n,
                v == queue@[head as int],
                dv == dist@[v as int],
                dv != usize::MAX,
                forall|i: int| 0 <= i < seeds@.len() ==> #[trigger] seeds@[i] < n && dist@[seeds@[i] as int] == 0,
                bfs_state(e, n as nat, seeds@, dist@, queue@),
                bfs_frontier(dist@, queue@, head as int),
                bfs_done(e, dist@, queue@, head as int),
                forall|j: int| 0 <= j < nbrs@.len() ==> #[trigger] nbrs@[j] < n,
                forall|j: int| 0 <= j < k ==> dist@[#[trigger] nbrs@[j] as int] != usize::MAX && dist@[nbrs@[j] as int] <= dv + 1,
        {
            let w = nbrs[k];
            assert(adj@[v as int]@[k as int] < adj@.len());
            assert(e(v, w));
            if dist[w] == usize::MAX {
                proof {
                    lemma_bfs_push(e, n as nat, seeds@, dist@, queue@, head as int, w);
                }
                let ghost d0 = dist@;
                dist.set(w, dv + 1);
                queue.push(w);
                assert forall|j: int| 0 <= j < k + 1
                    implies dist@[#[trigger] nbrs@[j] as int] != usize::MAX && dist@[nbrs@[j] as int] <= dv + 1 by {
                    if nbrs@[j] != w {
                        assert(d0[nbrs@[j] as int] == dist@[nbrs@[j] as int]);
                    }
                }
            } else {
                proof {
                    reveal(bfs_state);
                    let j = choose|j: int| 0 <= j < queue@.len() && queue@[j] == w;
                    assert(dist@[queue@[j] as int] <= dist@[queue@[head as int] as int] + 1);
                }
            }
        }
        proof {
            assert forall|i: int, b: usize| 0 <= i < head + 1 && #[trigger] e(queue@[i], b)
                implies dist@[b as int] != usize::MAX && dist@[b as int] <= dist@[queue@[i] as int] + 1 by {
                if i == head {
                    let j = choose|j: int| 0 <= j < nbrs@.len() && nbrs@[j] == b;
                    assert(dist@[nbrs@[j] as int] <= dv + 1);
                }
            }
            if head + 1 < queue@.len() {
                reveal(bfs_state);
                assert(dist@[queue@[head as int] as int] <= dist@[queue@[head + 1] as int]);
            }
        }
        head += 1;
    }
    proof {
        reveal(bfs_state);
        assert forall|a: usize, b: usize| #[trigger] e(a, b) && dist@[a as int] != usize::MAX
            implies dist@[b as int] <= dist@[a as int] + 1 && dist@[b as int] != usize::MAX by {
            let i = choose|i: int| 0 <= i < queue@.len() && queue@[i] == a;
            assert(e(queue@[i], b));
        }
        assert forall|v: int| 0 <= v < dist@.len()
            implies is_distance(e, seeds@, v as usize, #[trigger] dist@[v]) by {
            if dist@[v] == usize::MAX {
                if reach_any(e, seeds@, v as usize) {
                    let s = choose|s: usize| seeds@.contains(s) && #[trigger] reach(e, s, v as usize);
                    let p = choose|p: Seq<usize>| #[trigger] walks(e, p, s, v as usize);
                    lemma_labels_bound(e, n as nat, seeds@, dist@, p, s, v as usize);
                }
            } else {
                let i = choose|i: int| 0 <= i < queue@.len() && queue@[i] == v as usize;
                assert(within(e, seeds@, queue@[i], dist@[queue@[i] as int] as nat));
                assert forall|k: nat| #[trigger] within(e, seeds@, v as usize, k)
                    implies dist@[v] <= k by {
                    let (s, p) = choose|s: usize, p: Seq<usize>|
                        seeds@.contains(s) && #[trigger] walks(e, p, s, v as usize) && p.len() == k + 1;
                    lemma_labels_bound(e, n as nat, seeds@, dist@, p, s, v as usize);
                }
            }
        }
    }
    dist
}

/// A distance label from one seed says whether the seed reaches the node.
pub proof fn lemma_single_seed(e: Edges, s: usize, v: usize, d: usize)
    requires
        is_distance(e, seq![s], v, d),
    ensures
        d != usize::MAX <==> reach(e, s, v),
{
    assert(seq![s][0] == s);
    if d != usize::MAX {
        let (t, p) = choose|t: usize, p: Seq<usize>|
            seq![s].contains(t) && #[trigger] walks(e, p, t, v) && p.len() == d + 1;
        assert(t == s);
        assert(reach(e, s, v));
    }
    if reach(e, s, v) {
        assert(reach_any(e, seq![s], v));
    }
}

/// A shortest walk from `a` to `b` has `k` edges.
pub open spec fn is_hops(e: Edges, a: usize, b: usize, k: nat) -> bool {
    &&& exists|p: Seq<usize>| #[trigger] walks(e, p, a, b) && p.len() == k + 1
    &&& forall|p: Seq<usize>| #[trigger] walks(e, p, a, b) ==> k + 1 <= p.len()
}

/// The number of edges of a shortest walk from `a` to `b`.
pub open spec fn hops(e: Edges, a: usize, b: usize) -> nat {
    choose|k: nat| is_hops(e, a, b, k)
}

/// A label of the search from `b` over the reversed edges is the length of a
/// shortest walk to `b`.
pub proof fn lemma_reverse_label(e: Edges, a: usize, b: usize, d: usize)
    requires
        is_distance(flip(e), seq![b], a, d),
    ensures
        d == usize::MAX <==> !reach(e, a, b),
        d != usize::MAX ==> hops(e, a, b) == d,
{
    lemma_single_seed(flip(e), b, a, d);
    lemma_reach_flip(e, a, b);
    if d != usize::MAX {
        let f = flip(e);
        let (t, p) = choose|t: usize, p: Seq<usize>|
            seq![b].contains(t) && #[trigger] walks(f, p, t, a) && p.len() == d + 1;
        assert(t == b);
        lemma_walk_flip(f, p, b, a);
        assert(flip(f) =~= e);
        assert(walks(e, p.reverse(), a, b));
        assert forall|q: Seq<usize>| #[trigger] walks(e, q, a, b) implies d + 1 <= q.len() by {
            lemma_walk_flip(e, q, a, b);
            assert(seq![b][0] == b);
            assert(within(f, seq![b], a, (q.len() - 1) as nat));
        }
        assert(is_hops(e, a, b, d as nat));
        let k = hops(e, a, b);
        assert(is_hops(e, a, b, k));
        let w = choose|w: Seq<usize>| #[trigger] walks(e, w, a, b) && w.len() == k + 1;
        assert(d + 1 <= w.len());
        assert(k + 1 <= p.reverse().len());
    }
}

/// A set that holds the start of a walk and is closed under the edges holds
/// its end.
pub proof fn lemma_closed_under_walks(
    e: Edges,
    inside: spec_fn(usize) -> bool,
    p: Seq<usize>,
    a: usize,
    b: usize,
)
    requires
        walks(e, p, a, b),
        inside(a),
        forall|x: usize, y: usize| inside(x) && #[trigger] e(x, y) ==> inside(y),
    ensures
        inside(b),
    decreases p.len(),
{
    if p.len() > 1 {
        let q = p.drop_last();
        assert(e(p[p.len() - 2], p[p.len() - 1]));
        assert(walks(e, q, a, q.last()));
        lemma_closed_under_walks(e, inside, q, a, q.last());
    }
}

/// The rest of a walk from any of its places is a walk.
pub proof fn lemma_walk_suffix(e: Edges, p: Seq<usize>, a: usize, b: usize, i: int)
    requires
        walks(e, p, a, b),
        0 <= i < p.len(),
    ensures
        walks(e, p.skip(i), p[i], b),
        reach(e, p[i], b),
{
    let q = p.skip(i);
    assert forall|k: int| 0 <= k < q.len() - 1 implies e(#[trigger] q[k], q[k + 1]) by {
        assert(q[k] == p[i + k]);
        assert(q[k + 1] == p[i + k + 1]);
    }
    assert(walks(e, q, p[i], b));
}

pub proof fn lemma_push_contains(s: Seq<usize>, x: usize, y: usize)
    ensures
        s.push(x).contains(y) <==> s.contains(y) || x == y,
{
    assert(s.push(x)[s.len() as int] == x);
    if s.contains(y) {
        let i = choose|i: int| 0 <= i < s.len() && s[i] == y;
        assert(s.push(x)[i] == y);
    }
}

/// Cutting the loops out of a walk: what is reachable is reachable by a walk
/// that visits no node twice.
pub proof fn lemma_simple_walk(e: Edges, p: Seq<usize>, a: usize, b: usize) -> (q: Seq<usize>)
    requires
        walks(e, p, a, b),
    ensures
        walks(e, q, a, b),
        q.no_duplicates(),
        q.len() <= p.len(),
        forall|x: usize| #[trigger] q.contains(x) ==> p.contains(x),
    decreases p.len(),
{
    if p.no_duplicates() {
        p
    } else {
        let (i, j) = choose|i: int, j: int|
            0 <= i < p.len() && 0 <= j < p.len() && i != j && p[i] == p[j];
        let (lo, hi) = if i < j {
            (i, j)
        } else {
            (j, i)
        };
        let r = p.take(lo + 1) + p.skip(hi + 1);
        assert forall|k: int| 0 <= k < r.len() - 1 implies e(#[trigger] r[k], r[k + 1]) by {
            if k < lo {
                assert(e(p[k], p[k + 1]));
            } else {
                let m = k - lo + hi;
                assert(r[k] == p[m]);
                assert(r[k + 1] == p[m + 1]);
            }
        }
        assert(r.last() == p.last()) by {
            if hi + 1 == p.len() {
                assert(r.last() == p[lo]);
            }
        }
        let q = lemma_simple_walk(e, r, a, b);
        assert forall|x: usize| #[trigger] q.contains(x) implies p.contains(x) by {
            assert(r.contains(x));
            let k = choose|k: int| 0 <= k < r.len() && r[k] == x;
            if k <= lo {
                assert(p[k] == x);
            } else {
                assert(p[k - lo + hi] == x);
            }
        }
        q
    }
}

pub proof fn lemma_reach_edge(e: Edges, a: usize, b: usize)
    requires
        e(a, b),
    ensures
        reach(e, a, b),
{
    let p = seq![a, b];
    assert(e(p[0], p[1]));
    assert(walks(e, p, a, b));
}

pub proof fn lemma_reach_trans(e: Edges, a: usize, b: usize, c: usize)
    requires
        reach(e, a, b),
        reach(e, b, c),
    ensures
        reach(e, a, c),
{
    let p = choose|p: Seq<usize>| #[trigger] walks(e, p, a, b);
    let q = choose|q: Seq<usize>| #[trigger] walks(e, q, b, c);
    lemma_walk_join(e, p, q, a, b, c);
}

/// More edges reach no less.
pub proof fn lemma_reach_more(e: Edges, f: Edges, a: usize, b: usize)
    requires
        reach(e, a, b),
        forall|x: usize, y: usize| #[trigger] e(x, y) ==> f(x, y),
    ensures
        reach(f, a, b),
{
    let p = choose|p: Seq<usize>| #[trigger] walks(e, p, a, b);
    assert forall|i: int| 0 <= i < p.len() - 1 implies f(#[trigger] p[i], p[i + 1]) by {
        assert(e(p[i], p[i + 1]));
    }
    assert(walks(f, p, a, b));
}

} // verus!
