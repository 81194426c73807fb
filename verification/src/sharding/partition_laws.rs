//! Where a greedy partition puts a vertex, and what random graphs look like.

use crate::sharding::graphs;
use crate::sharding::partitioner;
use crate::sharding::partitioner::Plan;
use vstd::prelude::*;

verus! {

/// A plan with room for all vertices.
pub open spec fn is_plan(plan: Plan) -> bool {
    plan.n > 0 && plan.k > 0 && plan.slack.0 >= 0 && plan.slack.1 > 0
}

/// Of two parts of one size, a vertex goes to the one with more of its neighbours.
pub proof fn lemma_neighbours_attract(
    plan: Plan,
    edges: Seq<(u32, u32)>,
    assign: Seq<u32>,
    v: int,
    p: int,
    q: int,
)
    requires
        is_plan(plan),
        partitioner::is_choice(plan, edges, assign, v, p),
        0 <= q < plan.k,
        partitioner::part_size(assign, v, p) == partitioner::part_size(assign, v, q),
    ensures
        partitioner::near_count(edges, assign, v, p) >= partitioner::near_count(
            edges,
            assign,
            v,
            q,
        ),
{
    let size = partitioner::part_size(assign, v, p);
    let room = plan.over() - size * plan.under();
    let (a, b) = (
        partitioner::near_count(edges, assign, v, p),
        partitioner::near_count(edges, assign, v, q),
    );
    assert(partitioner::preferred(plan, edges, assign, v, p, q));
    if a < b {
        assert(a * room < b * room) by (nonlinear_arith)
            requires
                a < b,
                room > 0,
        ;
    }
}

/// Of two parts with as many of its neighbours, a vertex goes to the smaller one.
pub proof fn lemma_room_attracts(
    plan: Plan,
    edges: Seq<(u32, u32)>,
    assign: Seq<u32>,
    v: int,
    p: int,
    q: int,
)
    requires
        is_plan(plan),
        partitioner::is_choice(plan, edges, assign, v, p),
        0 <= q < plan.k,
        partitioner::near_count(edges, assign, v, p) == partitioner::near_count(
            edges,
            assign,
            v,
            q,
        ),
        partitioner::near_count(edges, assign, v, p) > 0,
    ensures
        partitioner::part_size(assign, v, p) <= partitioner::part_size(assign, v, q),
{
    let (x, y) = (partitioner::part_size(assign, v, p), partitioner::part_size(assign, v, q));
    let near = partitioner::near_count(edges, assign, v, p);
    let (over, under) = (plan.over(), plan.under());
    assert(under > 0) by (nonlinear_arith)
        requires
            under == plan.slack.1 * plan.k,
            plan.slack.1 > 0,
            plan.k > 0,
    ;
    assert(partitioner::preferred(plan, edges, assign, v, p, q));
    if y < x {
        assert(y * under < x * under) by (nonlinear_arith)
            requires
                y < x,
                under > 0,
        ;
        let (rx, ry) = (over - x * under, over - y * under);
        assert(near * rx < near * ry) by (nonlinear_arith)
            requires
                rx < ry,
                near > 0,
        ;
    }
}

/// A vertex without neighbours goes to the first part with room.
pub proof fn lemma_strangers_fill_up(
    plan: Plan,
    edges: Seq<(u32, u32)>,
    assign: Seq<u32>,
    v: int,
    p: int,
    q: int,
)
    requires
        is_plan(plan),
        partitioner::is_choice(plan, edges, assign, v, p),
        0 <= q < p,
        forall|r: int|
            0 <= r < plan.k ==> #[trigger] partitioner::near_count(edges, assign, v, r) == 0,
    ensures
        partitioner::part_size(assign, v, q) * (plan.slack.1 * plan.k) >= (plan.slack.1
            + plan.slack.0) * plan.n,
{
    assert(partitioner::preferred(plan, edges, assign, v, p, q));
    let (a, b) = (
        plan.over() - partitioner::part_size(assign, v, p) * plan.under(),
        plan.over() - partitioner::part_size(assign, v, q) * plan.under(),
    );
    assert(partitioner::near_count(edges, assign, v, p) == 0);
    assert(partitioner::near_count(edges, assign, v, q) == 0);
    assert(0 * a == 0 && 0 * b == 0) by (nonlinear_arith);
}

proof fn lemma_clique_size(v: nat, u: nat)
    ensures
        2 * graphs::clique(v, u).len() == v * (v - 1) + 2 * u,
    decreases v, u,
{
    if u > 0 {
        lemma_clique_size(v, (u - 1) as nat);
    } else if v > 0 {
        lemma_clique_size((v - 1) as nat, (v - 1) as nat);
        assert((v - 1) * (v - 2) + 2 * (v - 1) == v * (v - 1)) by (nonlinear_arith);
    } else {
        assert(0 * (0 - 1) == 0) by (nonlinear_arith);
    }
}

proof fn lemma_attached_size(edges: Seq<(u32, u32)>, stream: Map<nat, u32>, v: int, j: nat)
    ensures
        graphs::attached(edges, stream, v, j).0.len() == edges.len() + j,
        forall|i: int|
            0 <= i < edges.len() ==> graphs::attached(edges, stream, v, j).0[i]
                == #[trigger] edges[i],
        forall|i: int|
            edges.len() <= i < edges.len() + j ==> (#[trigger] graphs::attached(
                edges,
                stream,
                v,
                j,
            ).0[i]).1 == v as u32,
    decreases j,
{
    if j > 0 {
        lemma_attached_size(edges, stream, v, (j - 1) as nat);
        let before = graphs::attached(edges, stream, v, (j - 1) as nat).0;
        let now = graphs::attached(edges, stream, v, j).0;
        assert forall|i: int| 0 <= i < edges.len() implies now[i] == #[trigger] edges[i] by {
            assert(before[i] == edges[i]);
        }
        assert forall|i: int| edges.len() <= i < edges.len() + j implies (#[trigger] now[i]).1
            == v as u32 by {
            if i < before.len() {
                assert(now[i] == before[i]);
            }
        }
    }
}

/// A graph that grows by preference starts with all pairs of its first vertices, and
/// every later vertex brings the same number of edges, which are its own.
pub proof fn lemma_growth(stream: Map<nat, u32>, m: nat, n: nat)
    requires
        n > m + 1,
    ensures
        ({
            let now = graphs::grown(stream, m, n).0;
            let before = graphs::grown(stream, m, (n - 1) as nat).0;
            &&& 2 * now.len() == m * (m + 1) + 2 * (m * (n - m - 1))
            &&& now.len() == before.len() + m
            &&& forall|i: int| 0 <= i < before.len() ==> now[i] == #[trigger] before[i]
            &&& forall|i: int| before.len() <= i < now.len() ==> (#[trigger] now[i]).1 == (n - 1)
                as u32
        }),
    decreases n,
{
    let (before, rest) = graphs::grown(stream, m, (n - 1) as nat);
    lemma_attached_size(before, rest, n - 1, m);
    if n - 1 > m + 1 {
        lemma_growth(stream, m, (n - 1) as nat);
        assert(m * (n - 1 - m - 1) + m == m * (n - m - 1)) by (nonlinear_arith);
    } else {
        lemma_clique_size(m, m);
        assert(m * (m - 1) + 2 * m == m * (m + 1)) by (nonlinear_arith);
        assert(m * (n - m - 1) == m) by (nonlinear_arith)
            requires
                n - m - 1 == 1,
        ;
    }
}

} // verus!
