//! Choke points: which few nodes, if removed, delete the most attack paths?
//!
//! The naive answer deletes a node, runs reachability again and counts who
//! lost their path, once per node. The exact answer for all nodes at once: in
//! the reversed graph rooted at tier zero, node `d` dominates node `u` when
//! every attack path from `u` passes through `d`, so deleting `d` disconnects
//! exactly the nodes of its dominator subtree.

use crate::attack::ad_graph;
use crate::attack::ad_graph::{reaches, AdGraph, Edge};
use crate::attack::ad_instance;
use crate::attack::dominators;
use crate::graph;
use crate::math;
use crate::sorting;
use vstd::prelude::*;

verus! {

/// Every attack path from `u` passes through `d`.
pub open spec fn gates(g: &AdGraph, d: usize, u: usize) -> bool {
    forall|p: Seq<usize>| #[trigger]
        graph::walks(g.rel(), p, u, g.tier_zero) ==> p.contains(d)
}

/// User `u` still has an attack path once `removed` is gone.
pub open spec fn exposed_without(g: &AdGraph, removed: Option<usize>, u: usize) -> bool {
    match removed {
        None => g.exposed(u),
        Some(d) => u != d && graph::reach(graph::without(g.rel(), d), u, g.tier_zero),
    }
}

/// Number of users with an attack path to tier zero after deleting `removed`
/// and its edges.
pub fn exposure(g: &AdGraph, removed: Option<usize>) -> (n: usize)
    requires
        g.well_formed(),
        removed matches Some(d) ==> d < g.nodes(),
    ensures
        n == math::count(g.n_users as nat, |u: int| exposed_without(g, removed, u as usize)),
{
    let mut rev = g.reverse_adj();
    let ghost rev0 = rev@;
    proof {
        g.lemma_reverse(rev@);
    }
    if let Some(d) = removed {
        rev = drop_node(&rev, d);
    }
    let seen = reaches(&rev, g.tier_zero);
    let mut n: usize = 0;
    for u in 0..g.n_users
        invariant
            g.well_formed(),
            seen@.len() == g.nodes(),
            removed is None ==> rev@ == rev0,
            rev0.len() == g.nodes(),
            forall|b: int|
                0 <= b < rev0.len() ==> (#[trigger] rev0[b])@ == ad_graph::sources(
                    g.edges@,
                    b as usize,
                ),
            removed matches Some(d) ==> forall|a: usize, b: usize| #[trigger]
                graph::listed(rev@)(a, b) == graph::without(graph::listed(rev0), d)(a, b),
            forall|v: int|
                0 <= v < seen@.len() ==> #[trigger] seen@[v] == graph::reach(
                    graph::listed(rev@),
                    g.tier_zero,
                    v as usize,
                ),
            n <= u,
            n == math::count(u as nat, |u: int| exposed_without(g, removed, u as usize)),
    {
        let spared = match removed {
            Some(d) => u != d,
            None => true,
        };
        proof {
            match removed {
                None => {
                    ad_graph::lemma_seen_exposed(g, rev0, u);
                },
                Some(d) => {
                    g.lemma_reverse(rev0);
                    let e = graph::without(g.rel(), d);
                    assert forall|a: usize, b: usize| #[trigger]
                        graph::listed(rev@)(a, b) == graph::flip(e)(a, b) by {
                        assert(graph::listed(rev0)(a, b) == graph::flip(g.rel())(a, b));
                    }
                    graph::lemma_reach_same(
                        graph::listed(rev@),
                        graph::flip(e),
                        g.tier_zero,
                        u,
                    );
                    graph::lemma_reach_flip(e, u, g.tier_zero);
                },
            }
        }
        if seen[u] && spared {
            n += 1;
        }
    }
    n
}

/// The lists without node `d`: its own list emptied, and no list names it.
fn drop_node(lists: &Vec<Vec<usize>>, d: usize) -> (r: Vec<Vec<usize>>)
    requires
        graph::closed_lists(lists@),
    ensures
        r@.len() == lists@.len(),
        graph::closed_lists(r@),
        forall|a: usize, b: usize| #[trigger]
            graph::listed(r@)(a, b) == graph::without(graph::listed(lists@), d)(a, b),
{
    let mut r: Vec<Vec<usize>> = Vec::new();
    for v in 0..lists.len()
        invariant
            graph::closed_lists(lists@),
            r@.len() == v,
            forall|a: int, b: usize|
                0 <= a < v ==> (#[trigger] r@[a]@.contains(b) <==> lists@[a]@.contains(b) && a != d
                    && b != d),
    {
        let mut kept: Vec<usize> = Vec::new();
        let list = &lists[v];
        if v != d {
            for k in 0..list.len()
                invariant
                    list@ == lists@[v as int]@,
                    forall|b: usize| #[trigger]
                        kept@.contains(b) <==> list@.take(k as int).contains(b) && b != d,
            {
                let x = list[k];
                let ghost k0 = kept@;
                if x != d {
                    kept.push(x);
                }
                proof {
                    assert(list@.take(k + 1) =~= list@.take(k as int).push(x));
                    assert forall|b: usize| #[trigger] kept@.contains(b) <==> list@.take(
                        k + 1,
                    ).contains(b) && b != d by {
                        graph::lemma_push_contains(list@.take(k as int), x, b);
                        graph::lemma_push_contains(k0, x, b);
                        assert(k0.contains(b) <==> list@.take(k as int).contains(b) && b != d);
                    }
                }
            }
        }
        assert(list@.take(list@.len() as int) =~= list@);
        r.push(kept);
    }
    proof {
        assert forall|a: int, k: int| 0 <= a < r@.len() && 0 <= k < r@[a]@.len()
            implies #[trigger] r@[a]@[k]
            < r@.len() by {
            let b = r@[a]@[k];
            assert(r@[a]@.contains(b));
            let i = choose|i: int| 0 <= i < lists@[a]@.len() && lists@[a]@[i] == b;
            assert(lists@[a]@[i] < lists@.len());
        }
        assert forall|a: usize, b: usize| #[trigger]
            graph::listed(r@)(a, b) == graph::without(graph::listed(lists@), d)(a, b) by {
            if a < r@.len() {
                assert(r@[a as int]@.contains(b) <==> lists@[a as int]@.contains(b) && a != d && b
                    != d);
            }
        }
    }
    r
}

/// Removing `d` cuts off exactly those users all of whose attack paths pass
/// through it.
pub proof fn lemma_removal_cuts_gated(g: &AdGraph, d: usize, u: usize)
    requires
        d != g.tier_zero,
    ensures
        g.exposed(u) && !exposed_without(g, Some(d), u) <==> g.exposed(u) && gates(g, d, u),
        exposed_without(g, Some(d), u) ==> g.exposed(u),
{
    let e = g.rel();
    let f = graph::without(e, d);
    let t = g.tier_zero;
    if exposed_without(g, Some(d), u) {
        let p = choose|p: Seq<usize>| #[trigger] graph::walks(f, p, u, t);
        assert forall|i: int| 0 <= i < p.len() - 1 implies e(#[trigger] p[i], p[i + 1]) by {
            assert(f(p[i], p[i + 1]));
        }
        assert(graph::walks(e, p, u, t));
        assert(!p.contains(d)) by {
            if p.contains(d) {
                let i = choose|i: int| 0 <= i < p.len() && p[i] == d;
                if i < p.len() - 1 {
                    assert(f(p[i], p[i + 1]));
                }
            }
        }
    }
    if g.exposed(u) && !gates(g, d, u) {
        let p = choose|p: Seq<usize>| #[trigger] graph::walks(e, p, u, t) && !p.contains(d);
        graph::lemma_walk_without(e, p, u, t, d);
        assert(p.contains(u)) by {
            assert(p[0] == u);
        }
    }
}

/// How many exposed users lose all their attack paths with `d`.
pub open spec fn blast(g: &AdGraph, d: usize) -> nat {
    math::count(g.n_users as nat, |u: int| g.exposed(u as usize) && gates(g, d, u as usize))
}

/// The blast radius of a node is the exposure that its removal takes away.
pub proof fn lemma_blast_is_lost_exposure(g: &AdGraph, d: usize)
    requires
        d != g.tier_zero,
    ensures
        blast(g, d) == math::count(g.n_users as nat, |u: int| exposed_without(g, None, u as usize))
            - math::count(g.n_users as nat, |u: int| exposed_without(g, Some(d), u as usize)),
{
    let all = |u: int| exposed_without(g, None, u as usize);
    let left = |u: int| exposed_without(g, Some(d), u as usize);
    let lost = |u: int| g.exposed(u as usize) && gates(g, d, u as usize);
    assert forall|u: int| 0 <= u < g.n_users implies #[trigger] all(u) == (left(u) || lost(u)) && !(
    left(u) && lost(u)) by {
        lemma_removal_cuts_gated(g, d, u as usize);
    }
    math::lemma_count_split(g.n_users as nat, all, left, lost);
}

/// Removing tier zero disconnects everyone.
pub proof fn lemma_blast_of_tier_zero(g: &AdGraph)
    ensures
        blast(g, g.tier_zero) == math::count(
            g.n_users as nat,
            |u: int| exposed_without(g, None, u as usize),
        ),
{
    let all = |u: int| exposed_without(g, None, u as usize);
    let lost = |u: int| g.exposed(u as usize) && gates(g, g.tier_zero, u as usize);
    assert forall|u: int| 0 <= u < g.n_users implies #[trigger] all(u) == lost(u) by {
        assert forall|p: Seq<usize>| #[trigger]
            graph::walks(g.rel(), p, u as usize, g.tier_zero) implies p.contains(g.tier_zero) by {
            assert(p[p.len() - 1] == g.tier_zero);
        }
    }
    math::lemma_count_same(g.n_users as nat, all, lost);
}

/// The honest baseline: remove one node, recompute reachability, repeat.
pub fn blast_radius_naive(g: &AdGraph) -> (r: Vec<usize>)
    requires
        g.well_formed(),
    ensures
        r@.len() == g.nodes(),
        forall|d: int| 0 <= d < r@.len() ==> #[trigger] r@[d] == blast(g, d as usize),
{
    let total = exposure(g, None);
    let mut r: Vec<usize> = Vec::new();
    let n = g.n_nodes();
    for d in 0..n
        invariant
            g.well_formed(),
            n == g.nodes(),
            total == math::count(g.n_users as nat, |u: int| exposed_without(g, None, u as usize)),
            r@.len() == d,
            forall|i: int| 0 <= i < d ==> #[trigger] r@[i] == blast(g, i as usize),
    {
        if d == g.tier_zero {
            proof {
                lemma_blast_of_tier_zero(g);
            }
            r.push(total);
        } else {
            proof {
                lemma_blast_is_lost_exposure(g, d);
            }
            r.push(total - exposure(g, Some(d)));
        }
    }
    r
}

/// What a numbering of the nodes that the root reaches satisfies.
spec fn numbering(lists: Seq<Vec<usize>>, root: usize, order: Seq<usize>, idx: Seq<usize>) -> bool {
    &&& order.len() > 0
    &&& order[0] == root
    &&& order.len() <= lists.len()
    &&& idx.len() == lists.len()
    &&& forall|i: int|
        0 <= i < order.len() ==> #[trigger] order[i] < lists.len() && idx[order[i] as int] == i
    &&& forall|v: int|
        0 <= v < lists.len() ==> (#[trigger] idx[v] != usize::MAX <==> graph::reach(
            graph::listed(lists),
            root,
            v as usize,
        ))
    &&& forall|v: int|
        0 <= v < lists.len() && #[trigger] idx[v] != usize::MAX ==> idx[v] < order.len()
            && order[idx[v] as int] == v
}

/// Every node but the first has a predecessor before it.
spec fn rooted(lists: Seq<Vec<usize>>, order: Seq<usize>) -> bool {
    forall|j: int|
        0 < j < order.len() ==> exists|i: int|
            0 <= i < j && graph::listed(lists)(#[trigger] order[i], #[trigger] order[j])
}

spec fn on_stack(stack: Seq<(usize, usize)>, v: usize) -> bool {
    exists|k: int| 0 <= k < stack.len() && (#[trigger] stack[k]).0 == v
}

/// The work that the entries of the stack still hold.
spec fn remaining(lists: Seq<Vec<usize>>, stack: Seq<(usize, usize)>) -> nat
    decreases stack.len(),
{
    if stack.len() == 0 {
        0
    } else {
        let (v, i) = stack.last();
        remaining(lists, stack.drop_last()) + (lists[v as int]@.len() - i + 1) as nat
    }
}

#[verifier::opaque]
spec fn dfs_state(
    lists: Seq<Vec<usize>>,
    root: usize,
    visited: Seq<bool>,
    post: Seq<usize>,
    stack: Seq<(usize, usize)>,
    parent: Seq<usize>,
) -> bool {
    let e = graph::listed(lists);
    &&& lists.len() <= usize::MAX
    &&& visited.len() == lists.len()
    &&& parent.len() == lists.len()
    &&& root < lists.len()
    &&& visited[root as int]
    &&& forall|k: int|
        0 <= k < stack.len() ==> (#[trigger] stack[k]).0 < lists.len() && stack[k].1
            <= lists[stack[k].0 as int]@.len()
    &&& forall|i: int| 0 <= i < post.len() ==> #[trigger] post[i] < lists.len()
    &&& post.no_duplicates()
    &&& forall|k: int, l: int|
        0 <= k < l < stack.len() ==> (#[trigger] stack[k]).0 != (#[trigger] stack[l]).0
    &&& forall|k: int| 0 <= k < stack.len() ==> !post.contains((#[trigger] stack[k]).0)
    &&& forall|v: int|
        0 <= v < lists.len() ==> (#[trigger] visited[v] <==> post.contains(v as usize) || on_stack(
            stack,
            v as usize,
        ))
    &&& stack.len() > 0 ==> stack[0].0 == root
    &&& stack.len() == 0 ==> post.len() > 0 && post.last() == root
    &&& forall|k: int|
        0 < k < stack.len() ==> parent[(#[trigger] stack[k]).0 as int] == stack[k - 1].0
    &&& forall|v: int|
        0 <= v < lists.len() && #[trigger] visited[v] && v != root ==> e(parent[v], v as usize)
            && visited[parent[v] as int]
    &&& forall|i: int, j: int|
        0 <= j <= i < post.len() && post[i] != root ==> #[trigger] post[j] != parent[#[trigger] post[i] as int]
    &&& forall|i: int, b: usize|
        0 <= i < post.len() && #[trigger] e(post[i], b) ==> visited[b as int]
    &&& forall|k: int, j: int|
        0 <= k < stack.len() && 0 <= j < stack[k].1
            ==> visited[#[trigger] lists[stack[k].0 as int]@[j] as int]
    &&& forall|v: int|
        0 <= v < lists.len() && #[trigger] visited[v] ==> graph::reach(e, root, v as usize)
}

spec fn stack_nodes(stack: Seq<(usize, usize)>) -> Seq<usize> {
    Seq::new(stack.len(), |k: int| stack[k].0)
}

proof fn lemma_dfs_size(
    lists: Seq<Vec<usize>>,
    root: usize,
    visited: Seq<bool>,
    post: Seq<usize>,
    stack: Seq<(usize, usize)>,
    parent: Seq<usize>,
)
    requires
        dfs_state(lists, root, visited, post, stack, parent),
    ensures
        post.len() + stack.len() <= lists.len(),
{
    reveal(dfs_state);
    let all = post + stack_nodes(stack);
    assert forall|i: int, j: int| 0 <= i < all.len() && 0 <= j < all.len() && i != j implies all[i]
        != all[j] by {
        if i < post.len() && j >= post.len() {
            assert(post.contains(post[i]));
            assert(!post.contains(stack[j - post.len()].0));
        } else if j < post.len() && i >= post.len() {
            assert(post.contains(post[j]));
            assert(!post.contains(stack[i - post.len()].0));
        } else if i >= post.len() && j >= post.len() {
            assert(stack[i - post.len()].0 != stack[j - post.len()].0);
        }
    }
    assert forall|i: int| 0 <= i < all.len() implies #[trigger] all[i] < lists.len() by {
        if i >= post.len() {
            assert(stack[i - post.len()].0 < lists.len());
        }
    }
    math::lemma_distinct_bounded(all, lists.len());
}

/// The top entry moves past a neighbour that was seen before.
proof fn lemma_dfs_skip(
    lists: Seq<Vec<usize>>,
    root: usize,
    visited: Seq<bool>,
    post: Seq<usize>,
    stack: Seq<(usize, usize)>,
    parent: Seq<usize>,
)
    requires
        dfs_state(lists, root, visited, post, stack, parent),
        stack.len() > 0,
        stack.last().1 < lists[stack.last().0 as int]@.len(),
        visited[lists[stack.last().0 as int]@[stack.last().1 as int] as int],
    ensures
        dfs_state(
            lists,
            root,
            visited,
            post,
            stack.update(stack.len() - 1, (stack.last().0, (stack.last().1 + 1) as usize)),
            parent,
        ),
{
    reveal(dfs_state);
    let s2 = stack.update(stack.len() - 1, (stack.last().0, (stack.last().1 + 1) as usize));
    assert forall|v: usize| on_stack(s2, v) == on_stack(stack, v) by {
        if on_stack(stack, v) {
            let k = choose|k: int| 0 <= k < stack.len() && (#[trigger] stack[k]).0 == v;
            assert(s2[k].0 == v);
        }
        if on_stack(s2, v) {
            let k = choose|k: int| 0 <= k < s2.len() && (#[trigger] s2[k]).0 == v;
            assert(stack[k].0 == v);
        }
    }
    assert forall|k: int| 0 <= k < s2.len() implies (#[trigger] s2[k]).0 == stack[k].0 by {}
    assert forall|k: int, j: int| 0 <= k < s2.len() && 0 <= j < s2[k].1
        implies visited[#[trigger] lists[s2[k].0 as int]@[j] as int] by {
        if j < stack[k].1 {
            assert(visited[lists[stack[k].0 as int]@[j] as int]);
        }
    }
}

/// A new neighbour goes on top of the stack.
proof fn lemma_dfs_push(
    lists: Seq<Vec<usize>>,
    root: usize,
    visited: Seq<bool>,
    post: Seq<usize>,
    stack: Seq<(usize, usize)>,
    parent: Seq<usize>,
    w: usize,
)
    requires
        dfs_state(lists, root, visited, post, stack, parent),
        graph::closed_lists(lists),
        stack.len() > 0,
        w < lists.len(),
        graph::listed(lists)(stack.last().0, w),
        !visited[w as int],
    ensures
        dfs_state(
            lists,
            root,
            visited.update(w as int, true),
            post,
            stack.push((w, 0)),
            parent.update(w as int, stack.last().0),
        ),
{
    reveal(dfs_state);
    let e = graph::listed(lists);
    let v = stack.last().0;
    let vis2 = visited.update(w as int, true);
    let s2 = stack.push((w, 0));
    let par2 = parent.update(w as int, v);
    assert(!on_stack(stack, w));
    assert(!post.contains(w));
    assert(on_stack(stack, v)) by {
        assert(stack[stack.len() - 1].0 == v);
    }
    assert(visited[v as int]);
    assert(v != w);
    assert forall|x: usize| on_stack(s2, x) == (on_stack(stack, x) || x == w) by {
        if on_stack(stack, x) {
            let k = choose|k: int| 0 <= k < stack.len() && (#[trigger] stack[k]).0 == x;
            assert(s2[k].0 == x);
        }
        if x == w {
            assert(s2[stack.len() as int].0 == x);
        }
        if on_stack(s2, x) {
            let k = choose|k: int| 0 <= k < s2.len() && (#[trigger] s2[k]).0 == x;
            if k < stack.len() {
                assert(stack[k].0 == x);
            }
        }
    }
    assert forall|k: int, l: int| 0 <= k < l < s2.len()
        implies (#[trigger] s2[k]).0 != (#[trigger] s2[l]).0 by {
        if l == stack.len() {
            assert(stack[k].0 == s2[k].0);
        } else {
            assert(stack[k].0 != stack[l].0);
        }
    }
    assert forall|k: int| 0 < k < s2.len() implies par2[(#[trigger] s2[k]).0 as int] == s2[k - 1].0 by {
        if k < stack.len() {
            assert(stack[k].0 != w);
            assert(parent[stack[k].0 as int] == stack[k - 1].0);
        }
    }
    assert forall|x: int| 0 <= x < lists.len() && #[trigger] vis2[x] && x != root
        implies e(par2[x], x as usize)
            && vis2[par2[x] as int] by {
        if x != w {
            assert(visited[x]);
            assert(e(parent[x], x as usize));
        }
    }
    assert forall|i: int, j: int| 0 <= j <= i < post.len() && post[i] != root
        implies #[trigger] post[j] != par2[#[trigger] post[i] as int] by {
        assert(post.contains(post[i]));
        assert(post[i] != w);
        assert(post[j] != parent[post[i] as int]);
    }
    assert forall|i: int, b: usize| 0 <= i < post.len() && #[trigger] e(post[i], b)
        implies vis2[b as int] by {
        assert(visited[b as int]);
        let k = choose|k: int| 0 <= k < lists[post[i] as int]@.len() && lists[post[i] as int]@[k] == b;
        assert(lists[post[i] as int]@[k] < lists.len());
    }
    assert forall|k: int, j: int| 0 <= k < s2.len() && 0 <= j < s2[k].1
        implies vis2[#[trigger] lists[s2[k].0 as int]@[j] as int] by {
        assert(s2[k] == stack[k]);
        assert(visited[lists[stack[k].0 as int]@[j] as int]);
        assert(lists[stack[k].0 as int]@[j] < lists.len());
    }
    assert forall|x: int| 0 <= x < lists.len() && #[trigger] vis2[x]
        implies graph::reach(e, root, x as usize) by {
        if x == w {
            let p = choose|p: Seq<usize>| #[trigger] graph::walks(e, p, root, v);
            graph::lemma_walk_push(e, p, root, v, w);
        } else {
            assert(visited[x]);
        }
    }
    assert(s2[0].0 == root) by {
        assert(stack[0].0 == root);
    }
    assert forall|k: int| 0 <= k < s2.len() implies !post.contains((#[trigger] s2[k]).0) by {
        if k < stack.len() {
            assert(!post.contains(stack[k].0));
        }
    }
    assert forall|k: int| 0 <= k < s2.len() implies (#[trigger] s2[k]).0 < lists.len() && s2[k].1
        <= lists[s2[k].0 as int]@.len() by {
        if k < stack.len() {
            assert(stack[k].0 < lists.len());
        }
    }
    assert forall|x: int| 0 <= x < lists.len()
        implies (#[trigger] vis2[x] <==> post.contains(x as usize)
        || on_stack(s2, x as usize)) by {
        assert(on_stack(s2, x as usize) == (on_stack(stack, x as usize) || x as usize == w));
        assert(visited[x] <==> post.contains(x as usize) || on_stack(stack, x as usize));
    }
}

/// A finished entry leaves the stack for the postorder.
proof fn lemma_dfs_pop(
    lists: Seq<Vec<usize>>,
    root: usize,
    visited: Seq<bool>,
    post: Seq<usize>,
    stack: Seq<(usize, usize)>,
    parent: Seq<usize>,
)
    requires
        dfs_state(lists, root, visited, post, stack, parent),
        stack.len() > 0,
        stack.last().1 >= lists[stack.last().0 as int]@.len(),
    ensures
        dfs_state(lists, root, visited, post.push(stack.last().0), stack.drop_last(), parent),
{
    reveal(dfs_state);
    let e = graph::listed(lists);
    let top = stack.len() - 1;
    let v = stack.last().0;
    let p2 = post.push(v);
    let s2 = stack.drop_last();
    assert(stack[top].0 == v);
    assert(!post.contains(v));
    assert forall|x: usize| p2.contains(x) == (post.contains(x) || x == v) by {
        graph::lemma_push_contains(post, v, x);
    }
    assert forall|x: usize| (on_stack(s2, x) || x == v) == on_stack(stack, x) by {
        if on_stack(s2, x) {
            let k = choose|k: int| 0 <= k < s2.len() && (#[trigger] s2[k]).0 == x;
            assert(stack[k].0 == x);
        }
        if on_stack(stack, x) {
            let k = choose|k: int| 0 <= k < stack.len() && (#[trigger] stack[k]).0 == x;
            if k < top {
                assert(s2[k].0 == x);
            }
        }
    }
    assert forall|k: int| 0 <= k < s2.len() implies !p2.contains((#[trigger] s2[k]).0) by {
        assert(stack[k].0 != stack[top].0);
        assert(!post.contains(stack[k].0));
    }
    assert(p2.no_duplicates()) by {
        assert forall|i: int, j: int| 0 <= i < p2.len() && 0 <= j < p2.len() && i != j
            implies p2[i] != p2[j] by {
            if i < post.len() {
                assert(post.contains(post[i]));
            }
            if j < post.len() {
                assert(post.contains(post[j]));
            }
        }
    }
    assert forall|i: int, j: int| 0 <= j <= i < p2.len() && p2[i] != root
        implies #[trigger] p2[j] != parent[#[trigger] p2[i] as int] by {
        if i < post.len() {
            assert(post[j] != parent[post[i] as int]);
        } else {
            assert(top > 0);
            assert(parent[stack[top].0 as int] == stack[top - 1].0);
            assert(stack[top - 1].0 != stack[top].0);
            assert(!post.contains(stack[top - 1].0));
            if j < post.len() {
                assert(post.contains(post[j]));
            }
        }
    }
    assert forall|i: int, b: usize| 0 <= i < p2.len() && #[trigger] e(p2[i], b)
        implies visited[b as int] by {
        if i < post.len() {
            assert(e(post[i], b));
        } else {
            let k = choose|k: int| 0 <= k < lists[v as int]@.len() && lists[v as int]@[k] == b;
            assert(visited[lists[stack[top].0 as int]@[k] as int]);
        }
    }
    assert forall|k: int, j: int| 0 <= k < s2.len() && 0 <= j < s2[k].1
        implies visited[#[trigger] lists[s2[k].0 as int]@[j] as int] by {
        assert(visited[lists[stack[k].0 as int]@[j] as int]);
    }
    assert forall|k: int| 0 < k < s2.len()
        implies parent[(#[trigger] s2[k]).0 as int] == s2[k - 1].0 by {
        assert(parent[stack[k].0 as int] == stack[k - 1].0);
    }
}

/// Reverse postorder of the nodes that `root` reaches along `lists`, and each
/// node's place in it (`usize::MAX` for the others).
#[verifier::rlimit(40)]
fn reverse_postorder(lists: &Vec<Vec<usize>>, root: usize) -> (r: (Vec<usize>, Vec<usize>))
    requires
        graph::closed_lists(lists@),
        root < lists@.len(),
    ensures
        numbering(lists@, root, r.0@, r.1@),
        rooted(lists@, r.0@),
{
    let n = lists.len();
    let ghost e = graph::listed(lists@);
    let mut visited: Vec<bool> = vec![false; n];
    let mut post: Vec<usize> = Vec::new();
    let mut stack: Vec<(usize, usize)> = Vec::new();
    let ghost mut parent: Seq<usize> = Seq::new(n as nat, |i: int| root);
    stack.push((root, 0));
    visited.set(root, true);
    proof {
        reveal(dfs_state);
        graph::lemma_reach_self(e, root);
        assert(stack@[0].0 == root);
        assert forall|v: int| 0 <= v < n
            implies (#[trigger] visited@[v] <==> post@.contains(v as usize) || on_stack(stack@, v as usize)) by {
            if on_stack(stack@, v as usize) {
                let k = choose|k: int| 0 <= k < stack@.len() && (#[trigger] stack@[k]).0 == v as usize;
                assert(k == 0);
            }
        }
        assert(dfs_state(lists@, root, visited@, post@, stack@, parent));
    }
    while stack.len() > 0
        invariant
            n == lists@.len(),
            e == graph::listed(lists@),
            graph::closed_lists(lists@),
            visited@.len() == n,
            dfs_state(lists@, root, visited@, post@, stack@, parent),
        decreases n - post@.len() - stack@.len(), remaining(lists@, stack@),
    {
        let top = stack.len() - 1;
        let (v, i) = stack[top];
        proof {
            reveal(dfs_state);
            assert(stack@[top as int].0 < n);
            lemma_dfs_size(lists@, root, visited@, post@, stack@, parent);
        }
        if i < lists[v].len() {
            let w = lists[v][i];
            assert(lists@[v as int]@[i as int] < lists@.len());
            if visited[w] {
                proof {
                    lemma_dfs_skip(lists@, root, visited@, post@, stack@, parent);
                    assert(stack@.update(top as int, (v, (i + 1) as usize)).drop_last() =~= stack@.drop_last());
                }
                stack.set(top, (v, i + 1));
            } else {
                assert(e(v, w));
                proof {
                    let vis2 = visited@.update(w as int, true);
                    let s2 = stack@.push((w, 0));
                    let par2 = parent.update(w as int, v);
                    lemma_dfs_push(lists@, root, visited@, post@, stack@, parent, w);
                    lemma_dfs_size(lists@, root, vis2, post@, s2, par2);
                    parent = par2;
                }
                visited.set(w, true);
                stack.push((w, 0));
            }
        } else {
            proof {
                lemma_dfs_pop(lists@, root, visited@, post@, stack@, parent);
            }
            post.push(v);
            stack.pop();
        }
    }
    proof {
        reveal(dfs_state);
        lemma_dfs_size(lists@, root, visited@, post@, stack@, parent);
        assert forall|v: usize| v < n implies !on_stack(stack@, v) by {}
        let inside = |v: usize| v < n && visited@[v as int];
        assert forall|x: usize, y: usize| inside(x) && #[trigger] e(x, y) implies inside(y) by {
            assert(post@.contains(x));
            let i = choose|i: int| 0 <= i < post@.len() && post@[i] == x;
            assert(e(post@[i], y));
            let k = choose|k: int| 0 <= k < lists@[x as int]@.len() && lists@[x as int]@[k] == y;
            assert(lists@[x as int]@[k] < lists@.len());
        }
        assert forall|v: int| 0 <= v < n
            implies (post@.contains(v as usize) <==> #[trigger] graph::reach(e, root, v as usize)) by {
            assert(visited@[v] <==> post@.contains(v as usize));
            if graph::reach(e, root, v as usize) {
                let p = choose|p: Seq<usize>| #[trigger] graph::walks(e, p, root, v as usize);
                graph::lemma_closed_under_walks(e, inside, p, root, v as usize);
            }
        }
    }
    let m = post.len();
    let mut order: Vec<usize> = Vec::new();
    let mut idx: Vec<usize> = vec![usize::MAX; n];
    for i in 0..m
        invariant
            n == lists@.len(),
            m == post@.len(),
            m <= n,
            idx@.len() == n,
            post@.no_duplicates(),
            forall|i: int| 0 <= i < m ==> #[trigger] post@[i] < n,
            order@.len() == i,
            forall|k: int| 0 <= k < i ==> #[trigger] order@[k] == post@[m - 1 - k],
            forall|k: int| 0 <= k < i ==> idx@[#[trigger] order@[k] as int] == k,
            forall|v: int|
                0 <= v < n && #[trigger] idx@[v] != usize::MAX ==> idx@[v] < i && order@[idx@[v] as int] == v,
    {
        let v = post[m - 1 - i];
        assert(post@[m - 1 - i] < n);
        let ghost o0 = order@;
        let ghost i0 = idx@;
        order.push(v);
        idx.set(v, i);
        proof {
            assert forall|k: int| 0 <= k < i + 1 implies idx@[#[trigger] order@[k] as int] == k by {
                if k < i {
                    assert(o0[k] == post@[m - 1 - k]);
                    assert(o0[k] != v);
                }
            }
            assert forall|x: int| 0 <= x < n && #[trigger] idx@[x] != usize::MAX
                implies idx@[x] < i + 1 && order@[idx@[x] as int] == x by {
                if x != v {
                    assert(i0[x] != usize::MAX);
                }
            }
        }
    }
    proof {
        reveal(dfs_state);
        assert forall|v: int| 0 <= v < n
            implies (#[trigger] idx@[v] != usize::MAX <==> graph::reach(e, root, v as usize)) by {
            assert(post@.contains(v as usize) <==> graph::reach(e, root, v as usize));
            if post@.contains(v as usize) {
                let i = choose|i: int| 0 <= i < m && post@[i] == v as usize;
                assert(order@[m - 1 - i] == v as usize);
            }
            if idx@[v] != usize::MAX {
                assert(order@[idx@[v] as int] == v);
                assert(post@[m - 1 - idx@[v]] == v as usize);
            }
        }
        assert(order@[0] == post@[m - 1]);
        assert forall|j: int| 0 < j < order@.len() implies exists|i: int|
            0 <= i < j && e(#[trigger] order@[i], #[trigger] order@[j]) by {
            let v = order@[j];
            let q = m - 1 - j;
            assert(v == post@[q]);
            assert(v != root);
            assert(post@.contains(v));
            assert(visited@[v as int]);
            let u = parent[v as int];
            assert(e(u, v));
            assert(u < n);
            assert(visited@[u as int]);
            assert(post@.contains(u));
            let r = choose|r: int| 0 <= r < m && post@[r] == u;
            assert(r > q);
            assert(order@[m - 1 - r] == u);
        }
    }
    (order, idx)
}

/// The dominator tree of the reversed graph: the nodes that reach tier zero
/// in reverse postorder, each node's place in it, and for each place the place
/// of its parent.
struct DomTree {
    order: Vec<usize>,
    idx: Vec<usize>,
    up: Vec<usize>,
}

impl DomTree {
    spec fn fits(&self, g: &AdGraph) -> bool {
        &&& self.order@.len() > 0
        &&& self.order@.len() <= g.nodes()
        &&& self.order@[0] == g.tier_zero
        &&& self.idx@.len() == g.nodes()
        &&& self.up@.len() == self.order@.len()
        &&& dominators::is_forest(self.up@)
        &&& forall|i: int|
            0 <= i < self.order@.len() ==> #[trigger] self.order@[i] < g.nodes()
                && self.idx@[self.order@[i] as int] == i
        &&& forall|v: int|
            0 <= v < g.nodes() ==> (#[trigger] self.idx@[v] != usize::MAX <==> g.exposed(
                v as usize,
            ))
        &&& forall|v: int|
            0 <= v < g.nodes() && #[trigger] self.idx@[v] != usize::MAX ==> self.idx@[v]
                < self.order@.len() && self.order@[self.idx@[v] as int] == v
        &&& forall|i: usize, k: usize|
            i < self.order@.len() && k < self.order@.len() ==> #[trigger] dominators::above(
                self.up@,
                i,
                k,
            ) == gates(g, self.order@[i as int], self.order@[k as int])
    }
}

/// Numbers in place of nodes: dominance among the numbers is gating among the
/// nodes.
proof fn lemma_places(
    g: &AdGraph,
    order: Seq<usize>,
    idx: Seq<usize>,
    q: graph::Edges,
    i: usize,
    k: usize,
)
    requires
        order.len() > 0,
        order[0] == g.tier_zero,
        order.len() <= usize::MAX,
        idx.len() == g.nodes(),
        g.well_formed(),
        forall|i: int|
            0 <= i < order.len() ==> #[trigger] order[i] < g.nodes() && idx[order[i] as int] == i,
        forall|v: int|
            0 <= v < g.nodes() ==> (#[trigger] idx[v] != usize::MAX <==> g.exposed(v as usize)),
        forall|v: int|
            0 <= v < g.nodes() && #[trigger] idx[v] != usize::MAX ==> idx[v] < order.len()
                && order[idx[v] as int] == v,
        forall|a: usize, b: usize| #[trigger]
            q(a, b) <==> a < order.len() && b < order.len() && g.rel()(
                order[b as int],
                order[a as int],
            ),
        i < order.len(),
        k < order.len(),
    ensures
        dominators::dominates(q, i, k) == gates(g, order[i as int], order[k as int]),
{
    let e = g.rel();
    let t = g.tier_zero;
    let v = order[k as int];
    if dominators::dominates(q, i, k) {
        assert forall|w: Seq<usize>| #[trigger] graph::walks(e, w, v, t) implies w.contains(
            order[i as int],
        ) by {
            let len = w.len();
            assert forall|s: int| 0 <= s < len implies #[trigger] w[s] < g.nodes() && idx[w[s] as int]
                != usize::MAX by {
                graph::lemma_walk_suffix(e, w, v, t, s);
                assert(g.exposed(w[s]));
                if s < len - 1 {
                    assert(e(w[s], w[s + 1]));
                } else {
                    assert(w[s] == t);
                }
                assert(idx[w[s] as int] != usize::MAX <==> g.exposed(w[s]));
            }
            let p = Seq::new(len, |s: int| idx[w[len - 1 - s] as int]);
            assert(graph::walks(q, p, 0, k)) by {
                assert(w[len - 1] == t);
                assert(order[0] == t);
                assert(p[0] == 0);
                assert(w[0] == v);
                assert(p[len - 1] == k);
                assert forall|s: int| 0 <= s < p.len() - 1 implies q(#[trigger] p[s], p[s + 1]) by {
                    let x = w[len - 1 - s];
                    let y = w[len - 2 - s];
                    assert(e(w[len - 2 - s], w[len - 2 - s + 1]));
                    assert(idx[x as int] != usize::MAX && idx[y as int] != usize::MAX);
                }
            }
            assert(p.contains(i));
            let s = choose|s: int| 0 <= s < p.len() && p[s] == i;
            let x = w[len - 1 - s];
            assert(idx[x as int] != usize::MAX);
            assert(order[idx[x as int] as int] == x);
            assert(w[len - 1 - s] == order[i as int]);
        }
    }
    if gates(g, order[i as int], v) {
        assert forall|p: Seq<usize>| #[trigger] graph::walks(q, p, 0, k) implies p.contains(i) by {
            let len = p.len();
            assert forall|s: int| 0 <= s < len implies #[trigger] p[s] < order.len() by {
                if s < len - 1 {
                    assert(q(p[s], p[s + 1]));
                } else {
                    assert(p[s] == k);
                }
            }
            let w = Seq::new(len, |s: int| order[p[len - 1 - s] as int]);
            assert(graph::walks(e, w, v, t)) by {
                assert(p[len - 1] == k);
                assert(p[0] == 0);
                assert forall|s: int| 0 <= s < w.len() - 1 implies e(#[trigger] w[s], w[s + 1]) by {
                    assert(q(p[len - 2 - s], p[len - 2 - s + 1]));
                }
            }
            assert(w.contains(order[i as int]));
            let s = choose|s: int| 0 <= s < w.len() && w[s] == order[i as int];
            let x = p[len - 1 - s];
            assert(x < order.len());
            assert(idx[order[x as int] as int] == x);
            assert(idx[order[i as int] as int] == i);
            assert(p[len - 1 - s] == i);
        }
    }
}

/// The places of the predecessors of each place.
fn place_preds(g: &AdGraph, order: &Vec<usize>, idx: &Vec<usize>) -> (preds: Vec<Vec<usize>>)
    requires
        g.well_formed(),
        idx@.len() == g.nodes(),
        order@.len() <= g.nodes(),
        forall|i: int|
            0 <= i < order@.len() ==> #[trigger] order@[i] < g.nodes() && idx@[order@[i] as int] == i,
        forall|v: int|
            0 <= v < g.nodes() && #[trigger] idx@[v] != usize::MAX ==> idx@[v] < order@.len()
                && order@[idx@[v] as int] == v,
    ensures
        preds@.len() == order@.len(),
        graph::closed_lists(preds@),
        forall|a: usize, b: usize| #[trigger]
            dominators::pred_rel(preds@)(a, b) <==> a < order@.len() && b < order@.len() && g.rel()(
                order@[b as int],
                order@[a as int],
            ),
{
    let m = order.len();
    let mut preds: Vec<Vec<usize>> = Vec::new();
    proof {
        g.lemma_forward();
    }
    for j in 0..m
        invariant
            m == order@.len(),
            g.well_formed(),
            idx@.len() == g.nodes(),
            m <= g.nodes(),
            graph::closed_lists(g.adj@),
            forall|i: int|
                0 <= i < order@.len() ==> #[trigger] order@[i] < g.nodes() && idx@[order@[i] as int]
                    == i,
            forall|v: int|
                0 <= v < g.nodes() && #[trigger] idx@[v] != usize::MAX ==> idx@[v] < order@.len()
                    && order@[idx@[v] as int] == v,
            preds@.len() == j,
            forall|b: int, a: usize|
                0 <= b < j ==> (#[trigger] preds@[b]@.contains(a) <==> a < m
                    && g.adj@[order@[b] as int]@.contains(order@[a as int])),
    {
        let v = order[j];
        assert(order@[j as int] < g.nodes());
        let outs = &g.adj[v];
        let mut list: Vec<usize> = Vec::new();
        for k in 0..outs.len()
            invariant
                m == order@.len(),
                m <= g.nodes(),
                g.nodes() <= usize::MAX,
                idx@.len() == g.nodes(),
                v < g.nodes(),
                g.adj@.len() == g.nodes(),
                outs@ == g.adj@[v as int]@,
                graph::closed_lists(g.adj@),
                forall|i: int|
                    0 <= i < order@.len() ==> #[trigger] order@[i] < g.nodes()
                        && idx@[order@[i] as int] == i,
                forall|v: int|
                    0 <= v < g.nodes() && #[trigger] idx@[v] != usize::MAX ==> idx@[v]
                        < order@.len() && order@[idx@[v] as int] == v,
                forall|a: usize| #[trigger]
                    list@.contains(a) <==> a < m && outs@.take(k as int).contains(order@[a as int]),
        {
            let w = outs[k];
            assert(g.adj@[v as int]@[k as int] < g.adj@.len());
            let i = idx[w];
            let ghost l0 = list@;
            if i != usize::MAX {
                list.push(i);
            }
            proof {
                assert(outs@.take(k + 1) =~= outs@.take(k as int).push(w));
                assert forall|a: usize| #[trigger] list@.contains(a) <==> a < m && outs@.take(
                    k + 1,
                ).contains(order@[a as int]) by {
                    assert(l0.contains(a) <==> a < m && outs@.take(k as int).contains(
                        order@[a as int],
                    ));
                    graph::lemma_push_contains(l0, i, a);
                    graph::lemma_push_contains(outs@.take(k as int), w, order@[a as int]);
                    if a < m {
                        assert(idx@[order@[a as int] as int] == a);
                    }
                }
            }
        }
        assert(outs@.take(outs@.len() as int) =~= outs@);
        preds.push(list);
    }
    proof {
        assert forall|a: int, k: int| 0 <= a < preds@.len() && 0 <= k < preds@[a]@.len()
            implies #[trigger] preds@[a]@[k]
            < preds@.len() by {
            assert(preds@[a]@.contains(preds@[a]@[k]));
        }
        assert forall|a: usize, b: usize| #[trigger]
            dominators::pred_rel(preds@)(a, b) <==> a < order@.len() && b < order@.len() && g.rel()(
                order@[b as int],
                order@[a as int],
            ) by {
            if b < m {
                assert(preds@[b as int]@.contains(a) <==> a < m
                    && g.adj@[order@[b as int] as int]@.contains(order@[a as int]));
                if a < m {
                    g.lemma_forward();
                    assert(graph::listed(g.adj@)(order@[b as int], order@[a as int]) == g.rel()(
                        order@[b as int],
                        order@[a as int],
                    ));
                    assert(order@[b as int] < g.nodes());
                }
            }
        }
    }
    preds
}

/// Some predecessor of `b` has a smaller place.
spec fn has_lower(preds: Seq<Vec<usize>>, b: int) -> bool {
    exists|a: usize| a < b && #[trigger] preds[b]@.contains(a)
}

fn dom_tree(g: &AdGraph) -> (t: DomTree)
    requires
        g.well_formed(),
    ensures
        t.fits(g),
{
    let rev = g.reverse_adj();
    proof {
        g.lemma_reverse(rev@);
    }
    let (order, idx) = reverse_postorder(&rev, g.tier_zero);
    let m = order.len();
    proof {
        assert forall|v: int| 0 <= v < g.nodes()
            implies (#[trigger] idx@[v] != usize::MAX <==> g.exposed(v as usize)) by {
            ad_graph::lemma_seen_exposed(g, rev@, v as usize);
        }
    }
    let preds = place_preds(g, &order, &idx);
    let ghost q = dominators::pred_rel(preds@);
    proof {
        assert forall|b: int| 0 < b < m implies #[trigger] has_lower(preds@, b) by {
            let a = choose|a: int|
                0 <= a < b && graph::listed(rev@)(#[trigger] order@[a], #[trigger] order@[b]);
            assert(graph::flip(g.rel())(order@[a], order@[b]));
            assert(q(a as usize, b as usize));
            assert(preds@[b]@.contains(a as usize));
        }
    }
    let mut parent: Vec<usize> = Vec::new();
    parent.push(0);
    for j in 1..m
        invariant
            m == order@.len(),
            preds@.len() == m,
            parent@.len() == j,
            forall|b: int| 0 < b < m ==> #[trigger] has_lower(preds@, b),
            forall|b: int| 0 < b < j ==> #[trigger] parent@[b] < b && preds@[b]@.contains(parent@[b]),
    {
        let list = &preds[j];
        assert(has_lower(preds@, j as int));
        let ghost want = choose|a: usize| a < j && #[trigger] preds@[j as int]@.contains(a);
        let ghost place = choose|k: int| 0 <= k < list@.len() && list@[k] == want;
        let mut k: usize = 0;
        let len = list.len();
        while list[k] >= j
            invariant
                len == list@.len(),
                list@ == preds@[j as int]@,
                0 <= place < list@.len(),
                list@[place] < j,
                k <= place,
            decreases place - k,
        {
            k += 1;
        }
        assert(preds@[j as int]@.contains(list@[k as int]));
        parent.push(list[k]);
    }
    let up = dominators::dominator_tree(&preds, parent);
    let t = DomTree { order, idx, up };
    proof {
        assert forall|i: usize, k: usize| i < t.order@.len() && k < t.order@.len()
            implies #[trigger] dominators::above(t.up@, i, k)
            == gates(g, t.order@[i as int], t.order@[k as int]) by {
            lemma_places(g, t.order@, t.idx@, q, i, k);
        }
    }
    t
}

/// Immediate dominators of the reversed graph rooted at tier zero: for each
/// node the nearest other node that all its attack paths pass through. `None`
/// for tier zero itself and for nodes without an attack path.
pub fn immediate_dominators(g: &AdGraph) -> (r: Vec<Option<usize>>)
    requires
        g.well_formed(),
    ensures
        r@.len() == g.nodes(),
        forall|v: int|
            0 <= v < r@.len() ==> (#[trigger] r@[v] is None <==> v == g.tier_zero || !g.exposed(
                v as usize,
            )),
        forall|v: int|
            0 <= v < r@.len() && #[trigger] r@[v] is Some ==> is_immediate(
                g,
                r@[v]->0,
                v as usize,
            ),
{
    let t = dom_tree(g);
    let n = g.n_nodes();
    let mut r: Vec<Option<usize>> = Vec::new();
    for v in 0..n
        invariant
            g.well_formed(),
            n == g.nodes(),
            t.fits(g),
            r@.len() == v,
            forall|v2: int|
                0 <= v2 < v ==> (#[trigger] r@[v2] is None <==> v2 == g.tier_zero || !g.exposed(
                    v2 as usize,
                )),
            forall|v2: int|
                0 <= v2 < v && #[trigger] r@[v2] is Some ==> is_immediate(
                    g,
                    r@[v2]->0,
                    v2 as usize,
                ),
    {
        let k = t.idx[v];
        assert(t.idx@[v as int] != usize::MAX <==> g.exposed(v));
        assert(t.idx@[t.order@[0] as int] == 0);
        if k == usize::MAX || k == 0 {
            r.push(None);
        } else {
            assert(t.order@[k as int] == v);
            let j = t.up[k];
            assert(t.up@[k as int] < k);
            let d = t.order[j];
            proof {
                assert(dominators::above(t.up@, j, k)) by {
                    assert(dominators::above(t.up@, j, j));
                }
                assert(t.idx@[t.order@[j as int] as int] == j);
                assert forall|c: usize| c != v && #[trigger] gates(g, c, v) implies gates(g, c, d) by {
                    lemma_gate_exposed(g, c, v);
                    let i = t.idx@[c as int];
                    assert(t.idx@[c as int] != usize::MAX);
                    assert(t.order@[i as int] == c);
                    assert(dominators::above(t.up@, i, k) == gates(
                        g,
                        t.order@[i as int],
                        t.order@[k as int],
                    ));
                    assert(dominators::above(t.up@, i, j) == gates(
                        g,
                        t.order@[i as int],
                        t.order@[j as int],
                    ));
                }
            }
            r.push(Some(d));
        }
    }
    r
}

/// `d` gates `v`, is not `v`, and every other gate of `v` gates `d`.
pub open spec fn is_immediate(g: &AdGraph, d: usize, v: usize) -> bool {
    &&& d != v
    &&& gates(g, d, v)
    &&& forall|c: usize| c != v && #[trigger] gates(g, c, v) ==> gates(g, c, d)
}

/// A node that gates an exposed one is exposed.
proof fn lemma_gate_exposed(g: &AdGraph, c: usize, v: usize)
    requires
        g.well_formed(),
        g.exposed(v),
        gates(g, c, v),
    ensures
        c < g.nodes(),
        g.exposed(c),
{
    let e = g.rel();
    let p = choose|p: Seq<usize>| #[trigger] graph::walks(e, p, v, g.tier_zero);
    assert(p.contains(c));
    let i = choose|i: int| 0 <= i < p.len() && p[i] == c;
    graph::lemma_walk_suffix(e, p, v, g.tier_zero, i);
    if i < p.len() - 1 {
        assert(e(p[i], p[i + 1]));
    } else {
        assert(p[i] == g.tier_zero);
    }
}

/// Going up from `k` through places at or after `j`, one comes by `i`.
spec fn climbs(up: Seq<usize>, j: int, i: usize, k: usize) -> bool
    decreases k,
{
    k == i || (j <= k && 0 < k < up.len() && up[k as int] < k && climbs(up, j, i, up[k as int]))
}

proof fn lemma_climbs_step(up: Seq<usize>, j: int, i: usize, k: usize)
    requires
        dominators::is_forest(up),
        0 < j < up.len() <= usize::MAX,
        k < up.len(),
    ensures
        climbs(up, j, i, k) == (climbs(up, j + 1, i, k) || (i == up[j] && climbs(
            up,
            j + 1,
            j as usize,
            k,
        ))),
        i == up[j] ==> !(climbs(up, j + 1, i, k) && climbs(up, j + 1, j as usize, k)),
    decreases k,
{
    if k > 0 && k >= j {
        lemma_climbs_step(up, j, i, up[k as int]);
    }
    if k == j {
        lemma_climbs_low(up, j + 1, i, k);
        lemma_climbs_low(up, j, i, up[j]);
    }
    if k < j {
        lemma_climbs_low(up, j, i, k);
        lemma_climbs_low(up, j + 1, i, k);
        lemma_climbs_low(up, j + 1, j as usize, k);
    }
}

/// Below the threshold nothing climbs.
proof fn lemma_climbs_low(up: Seq<usize>, j: int, i: usize, k: usize)
    requires
        k < j,
    ensures
        climbs(up, j, i, k) == (i == k),
{
}

proof fn lemma_climbs_all(up: Seq<usize>, i: usize, k: usize)
    requires
        dominators::is_forest(up),
        k < up.len(),
    ensures
        climbs(up, 1, i, k) == dominators::above(up, i, k),
    decreases k,
{
    if k > 0 {
        lemma_climbs_all(up, i, up[k as int]);
    }
}

/// The exposed users whose climb from their place ends at or passes `v`'s.
spec fn climbers(g: &AdGraph, t: DomTree, j: int, v: usize) -> spec_fn(int) -> bool {
    |u: int|
        g.exposed(u as usize) && g.exposed(v) && climbs(t.up@, j, t.idx@[v as int], t.idx@[u])
}

/// For every node, how many exposed users lose all attack paths if that node
/// is removed, for all nodes in one pass over the dominator tree.
pub fn blast_radius(g: &AdGraph) -> (r: Vec<usize>)
    requires
        g.well_formed(),
    ensures
        r@.len() == g.nodes(),
        forall|d: int| 0 <= d < r@.len() ==> #[trigger] r@[d] == blast(g, d as usize),
{
    let t = dom_tree(g);
    let n = g.n_nodes();
    let m = t.order.len();
    let mut r: Vec<usize> = Vec::new();
    for v in 0..n
        invariant
            g.well_formed(),
            n == g.nodes(),
            t.fits(g),
            m == t.order@.len(),
            r@.len() == v,
            forall|v2: int|
                0 <= v2 < v ==> #[trigger] r@[v2] == math::count(
                    g.n_users as nat,
                    climbers(g, t, m as int, v2 as usize),
                ),
    {
        let own: usize = if v < g.n_users && t.idx[v] != usize::MAX {
            1
        } else {
            0
        };
        proof {
            let c = climbers(g, t, m as int, v);
            assert(t.idx@[v as int] != usize::MAX <==> g.exposed(v));
            assert forall|u: int| 0 <= u < g.n_users
                implies (#[trigger] c(u) <==> own == 1 && u == v) by {
                assert(t.idx@[u] != usize::MAX <==> g.exposed(u as usize));
                if g.exposed(u as usize) && g.exposed(v) {
                    assert(t.order@[t.idx@[u] as int] == u);
                    assert(t.order@[t.idx@[v as int] as int] == v);
                    lemma_climbs_low(t.up@, m as int, t.idx@[v as int], t.idx@[u]);
                }
            }
            math::lemma_count_single(g.n_users as nat, c, v as int, own == 1);
        }
        r.push(own);
    }
    let mut j = m;
    while j > 1
        invariant
            g.well_formed(),
            n == g.nodes(),
            t.fits(g),
            m == t.order@.len(),
            1 <= j <= m,
            r@.len() == n,
            forall|v2: int|
                0 <= v2 < n ==> #[trigger] r@[v2] == math::count(
                    g.n_users as nat,
                    climbers(g, t, j as int, v2 as usize),
                ),
        decreases j,
    {
        j -= 1;
        let v = t.order[j];
        let i = t.up[j];
        assert(t.up@[j as int] < j);
        let d = t.order[i];
        assert(t.order@[j as int] < n && t.order@[i as int] < n);
        assert(t.idx@[t.order@[j as int] as int] == j);
        assert(t.idx@[t.order@[i as int] as int] == i);
        let ghost r0 = r@;
        proof {
            let a = climbers(g, t, j as int, d);
            let b = climbers(g, t, j + 1, d);
            let c = climbers(g, t, j + 1, v);
            assert(g.exposed(d) && g.exposed(v));
            assert forall|u: int| 0 <= u < g.n_users implies #[trigger] a(u) == (b(u) || c(u)) && !(b(u)
                && c(u)) by {
                assert(t.idx@[u] != usize::MAX <==> g.exposed(u as usize));
                if g.exposed(u as usize) {
                    lemma_climbs_step(t.up@, j as int, i, t.idx@[u]);
                }
            }
            math::lemma_count_split(g.n_users as nat, a, b, c);
            math::lemma_count_le(g.n_users as nat, a);
        }
        r.set(d, r[d] + r[v]);
        proof {
            assert forall|v2: int| 0 <= v2 < n implies #[trigger] r@[v2] == math::count(
                g.n_users as nat,
                climbers(g, t, j as int, v2 as usize),
            ) by {
                assert(r0[v2] == math::count(g.n_users as nat, climbers(g, t, j + 1, v2 as usize)));
                if v2 != d {
                    let a = climbers(g, t, j as int, v2 as usize);
                    let b = climbers(g, t, j + 1, v2 as usize);
                    assert forall|u: int| 0 <= u < g.n_users implies #[trigger] a(u) == b(u) by {
                        assert(t.idx@[u] != usize::MAX <==> g.exposed(u as usize));
                        assert(t.idx@[v2] != usize::MAX <==> g.exposed(v2 as usize));
                        if g.exposed(u as usize) && g.exposed(v2 as usize) {
                            assert(t.order@[t.idx@[v2] as int] == v2);
                            lemma_climbs_step(t.up@, j as int, t.idx@[v2], t.idx@[u]);
                        }
                    }
                    math::lemma_count_same(g.n_users as nat, a, b);
                }
            }
        }
    }
    proof {
        assert forall|d: int| 0 <= d < r@.len() implies #[trigger] r@[d] == blast(g, d as usize) by {
            let a = climbers(g, t, 1, d as usize);
            let b = |u: int| g.exposed(u as usize) && gates(g, d as usize, u as usize);
            assert forall|u: int| 0 <= u < g.n_users implies #[trigger] a(u) == b(u) by {
                assert(t.idx@[u] != usize::MAX <==> g.exposed(u as usize));
                assert(t.idx@[d] != usize::MAX <==> g.exposed(d as usize));
                if g.exposed(u as usize) {
                    if b(u) {
                        lemma_gate_exposed(g, d as usize, u as usize);
                    }
                    if g.exposed(d as usize) {
                        assert(t.order@[t.idx@[u] as int] == u);
                        assert(t.order@[t.idx@[d] as int] == d);
                        lemma_climbs_all(t.up@, t.idx@[d], t.idx@[u]);
                        assert(dominators::above(t.up@, t.idx@[d], t.idx@[u]) == gates(
                            g,
                            t.order@[t.idx@[d] as int],
                            t.order@[t.idx@[u] as int],
                        ));
                    }
                }
            }
            math::lemma_count_same(g.n_users as nat, a, b);
        }
    }
    r
}

/// A node that can be taken out of the directory and cuts someone off: no
/// user, not tier zero.
pub open spec fn actionable(g: &AdGraph, d: usize) -> bool {
    g.n_users <= d < g.nodes() && d != g.tier_zero && blast(g, d) > 0
}

/// The actionable choke points with their blast radius, highest first, ties
/// by id.
pub fn rank_chokepoints(g: &AdGraph) -> (r: Vec<(usize, usize)>)
    requires
        g.well_formed(),
    ensures
        forall|i: int|
            0 <= i < r@.len() ==> actionable(g, (#[trigger] r@[i]).0) && r@[i].1 == blast(g, r@[i].0),
        forall|d: usize| #[trigger] actionable(g, d) ==> r@.contains((d, blast(g, d) as usize)),
        forall|i: int, j: int|
            0 <= i < j < r@.len() ==> (#[trigger] r@[i]).1 > (#[trigger] r@[j]).1 || (r@[i].1
                == r@[j].1 && r@[i].0 < r@[j].0),
{
    let b = blast_radius(g);
    let n = g.n_nodes();
    let mut keyed: Vec<(usize, usize)> = Vec::new();
    for d in 0..n
        invariant
            g.well_formed(),
            n == g.nodes(),
            b@.len() == n,
            forall|d: int| 0 <= d < b@.len() ==> #[trigger] b@[d] == blast(g, d as usize),
            forall|i: int|
                0 <= i < keyed@.len() ==> (#[trigger] keyed@[i]).1 < d && actionable(g, keyed@[i].1)
                    && keyed@[i].0 == usize::MAX - blast(g, keyed@[i].1),
            forall|x: usize|
                x < d && #[trigger] actionable(g, x) ==> keyed@.contains(
                    ((usize::MAX - blast(g, x)) as usize, x),
                ),
    {
        let ghost k0 = keyed@;
        if d != g.tier_zero && !g.is_user(d) && b[d] > 0 {
            keyed.push((usize::MAX - b[d], d));
            assert(keyed@[k0.len() as int] == ((usize::MAX - blast(g, d)) as usize, d));
        }
        proof {
            assert forall|x: usize| x < d + 1 && #[trigger] actionable(g, x) implies keyed@.contains(
                ((usize::MAX - blast(g, x)) as usize, x),
            ) by {
                if x < d {
                    let y = ((usize::MAX - blast(g, x)) as usize, x);
                    let i = choose|i: int| 0 <= i < k0.len() && k0[i] == y;
                    assert(keyed@[i] == y);
                }
            }
        }
    }
    let s = sorting::sorted_distinct(&keyed);
    let mut r: Vec<(usize, usize)> = Vec::new();
    for i in 0..s.len()
        invariant
            r@.len() == i,
            forall|k: int| 0 <= k < i ==> #[trigger] r@[k] == (s@[k].1, (usize::MAX - s@[k].0) as usize),
    {
        let (k, d) = s[i];
        r.push((d, usize::MAX - k));
    }
    proof {
        assert forall|i: int| 0 <= i < r@.len()
            implies actionable(g, (#[trigger] r@[i]).0) && r@[i].1 == blast(g, r@[i].0) by {
            assert(s@.contains(s@[i]));
            assert(keyed@.contains(s@[i]));
            let k = choose|k: int| 0 <= k < keyed@.len() && keyed@[k] == s@[i];
            assert(keyed@[k] == s@[i]);
            math::lemma_count_le(g.n_users as nat, |u: int| g.exposed(u as usize) && gates(g, s@[i].1, u as usize));
        }
        assert forall|d: usize| #[trigger] actionable(g, d)
            implies r@.contains((d, blast(g, d) as usize)) by {
            let y = ((usize::MAX - blast(g, d)) as usize, d);
            assert(keyed@.contains(y));
            assert(s@.contains(y));
            let k = choose|k: int| 0 <= k < s@.len() && s@[k] == y;
            math::lemma_count_le(g.n_users as nat, |u: int| g.exposed(u as usize) && gates(g, d, u as usize));
            assert(r@[k] == (d, blast(g, d) as usize));
        }
        assert forall|i: int, j: int| 0 <= i < j < r@.len()
            implies (#[trigger] r@[i]).1 > (#[trigger] r@[j]).1 || (r@[i].1
                == r@[j].1 && r@[i].0 < r@[j].0) by {
            assert(sorting::Keyed::key(&s@[i]) < sorting::Keyed::key(&s@[j]));
        }
    }
    r
}

/// The edges that do not touch `d`.
pub open spec fn edges_without(edges: Seq<Edge>, d: usize) -> Seq<Edge>
    decreases edges.len(),
{
    if edges.len() == 0 {
        Seq::empty()
    } else {
        let before = edges_without(edges.drop_last(), d);
        let e = edges.last();
        if e.0 != d && e.1 != d {
            before.push(e)
        } else {
            before
        }
    }
}

proof fn lemma_edges_without(edges: Seq<Edge>, d: usize, a: usize, b: usize)
    ensures
        ad_graph::joined(edges_without(edges, d), a, b) <==> ad_graph::joined(edges, a, b) && a != d
            && b != d,
    decreases edges.len(),
{
    if edges.len() > 0 {
        let rest = edges.drop_last();
        let before = edges_without(rest, d);
        let now = edges_without(edges, d);
        lemma_edges_without(rest, d, a, b);
        if ad_graph::joined(now, a, b) {
            let i = choose|i: int|
                0 <= i < now.len() && (#[trigger] now[i]).0 == a && now[i].1 == b;
            if i < before.len() {
                assert(before[i] == now[i]);
                let j = choose|j: int|
                    0 <= j < rest.len() && (#[trigger] rest[j]).0 == a && rest[j].1 == b;
                assert(edges[j] == rest[j]);
            } else {
                assert(edges[edges.len() - 1] == now[i]);
            }
        }
        if ad_graph::joined(edges, a, b) && a != d && b != d {
            let j = choose|j: int|
                0 <= j < edges.len() && (#[trigger] edges[j]).0 == a && edges[j].1 == b;
            if j < rest.len() {
                assert(rest[j] == edges[j]);
                let i = choose|i: int|
                    0 <= i < before.len() && (#[trigger] before[i]).0 == a && before[i].1 == b;
                assert(now[i] == before[i]);
            } else {
                assert(now[before.len() as int] == edges[j]);
            }
        }
    }
}

/// `h` is `g` but for its edges.
pub open spec fn same_nodes(g: &AdGraph, h: &AdGraph) -> bool {
    &&& h.n_users == g.n_users
    &&& h.n_groups == g.n_groups
    &&& h.n_computers == g.n_computers
    &&& h.tier_zero == g.tier_zero
    &&& h.t0_ops == g.t0_ops
    &&& h.helpdesk == g.helpdesk
    &&& h.staff == g.staff
    &&& h.service_group_ids@ == g.service_group_ids@
    &&& h.violation_hosts@ == g.violation_hosts@
}

/// Deletes the edges of node `d`.
pub fn cut_node(g: &mut AdGraph, d: usize)
    requires
        old(g).well_formed(),
    ensures
        final(g).well_formed(),
        same_nodes(old(g), final(g)),
        final(g).edges@ == edges_without(old(g).edges@, d),
{
    let n = g.n_nodes();
    let mut kept: Vec<Edge> = Vec::new();
    for i in 0..g.edges.len()
        invariant
            g.well_formed(),
            n == g.nodes(),
            kept@ == edges_without(g.edges@.take(i as int), d),
            forall|k: int| 0 <= k < kept@.len() ==> (#[trigger] kept@[k]).0 < n && kept@[k].1 < n,
    {
        let e = g.edges[i];
        assert(g.edges@.take(i + 1).drop_last() =~= g.edges@.take(i as int));
        if e.0 != d && e.1 != d {
            kept.push(e);
        }
    }
    assert(g.edges@.take(g.edges@.len() as int) =~= g.edges@);
    g.adj = ad_instance::lists_of(&kept, n, false);
    g.memberof_adj = ad_instance::lists_of(&kept, n, true);
    g.edges = kept;
}

/// Cutting a node leaves the edges that avoid it.
pub proof fn lemma_cut_rel(g: &AdGraph, h: &AdGraph, d: usize)
    requires
        h.edges@ == edges_without(g.edges@, d),
    ensures
        forall|a: usize, b: usize| #[trigger]
            h.rel()(a, b) == graph::without(g.rel(), d)(a, b),
{
    assert forall|a: usize, b: usize| #[trigger] h.rel()(a, b) == graph::without(g.rel(), d)(a, b) by {
        lemma_edges_without(g.edges@, d, a, b);
    }
}

/// Cutting a node takes away the exposure that its removal takes away, where
/// the node is no exposed user itself.
pub proof fn lemma_cut_is_removal(g: &AdGraph, h: &AdGraph, d: usize, u: usize)
    requires
        same_nodes(g, h),
        h.edges@ == edges_without(g.edges@, d),
        u != d,
    ensures
        h.exposed(u) == exposed_without(g, Some(d), u),
{
    lemma_cut_rel(g, h, d);
    graph::lemma_reach_same(h.rel(), graph::without(g.rel(), d), u, g.tier_zero);
}

/// The exposed users, counted.
pub open spec fn total_exposure(g: &AdGraph) -> nat {
    math::count(g.n_users as nat, |u: int| exposed_without(g, None, u as usize))
}

/// `d` is the first of the ranking: actionable, with the largest blast radius
/// and among those the smallest id.
pub open spec fn is_top(g: &AdGraph, d: usize) -> bool {
    &&& actionable(g, d)
    &&& forall|c: usize| #[trigger] actionable(g, c) ==> blast(g, c) < blast(g, d) || (blast(g, c)
        == blast(g, d) && d <= c)
}

/// The edges that are left after the cuts, in order.
pub open spec fn edges_after(edges: Seq<Edge>, cuts: Seq<usize>) -> Seq<Edge>
    decreases cuts.len(),
{
    if cuts.len() == 0 {
        edges
    } else {
        edges_without(edges_after(edges, cuts.drop_last()), cuts.last())
    }
}

/// `h` is `g` after the cuts.
pub open spec fn is_after(g: &AdGraph, cuts: Seq<usize>, h: &AdGraph) -> bool {
    same_nodes(g, h) && h.edges@ == edges_after(g.edges@, cuts)
}

/// Graphs with the same nodes and edges have the same exposure and ranking.
proof fn lemma_same_graph(g: &AdGraph, h: &AdGraph)
    requires
        same_nodes(g, h),
        g.edges@ == h.edges@,
    ensures
        total_exposure(g) == total_exposure(h),
        forall|d: usize| #[trigger] is_top(g, d) == is_top(h, d),
        forall|d: usize| #[trigger] actionable(g, d) == actionable(h, d),
{
    assert(g.rel() =~= h.rel());
    let a = |u: int| exposed_without(g, None, u as usize);
    let b = |u: int| exposed_without(h, None, u as usize);
    assert forall|u: int| 0 <= u < g.n_users implies #[trigger] a(u) == b(u) by {}
    math::lemma_count_same(g.n_users as nat, a, b);
    assert forall|d: usize| #[trigger] blast(g, d) == blast(h, d) by {
        let a = |u: int| g.exposed(u as usize) && gates(g, d, u as usize);
        let b = |u: int| h.exposed(u as usize) && gates(h, d, u as usize);
        assert forall|u: int| 0 <= u < g.n_users implies #[trigger] a(u) == b(u) by {}
        math::lemma_count_same(g.n_users as nat, a, b);
    }
    assert forall|d: usize| #[trigger] actionable(g, d) == actionable(h, d) by {
        assert(blast(g, d) == blast(h, d));
    }
    assert forall|d: usize| #[trigger] is_top(g, d) == is_top(h, d) by {
        assert(blast(g, d) == blast(h, d));
        if is_top(g, d) {
            assert forall|c: usize| #[trigger] actionable(h, c)
                implies blast(h, c) < blast(h, d) || (blast(h, c)
        == blast(h, d) && d <= c) by {
                assert(actionable(g, c));
                assert(blast(g, c) == blast(h, c));
            }
        }
        if is_top(h, d) {
            assert forall|c: usize| #[trigger] actionable(g, c)
                implies blast(g, c) < blast(g, d) || (blast(g, c)
        == blast(g, d) && d <= c) by {
                assert(actionable(h, c));
                assert(blast(g, c) == blast(h, c));
            }
        }
    }
}

/// Greedy remediation: cut the best choke point, rank again, repeat, up to
/// `rounds` times or until nothing is worth cutting. Returns the cuts and the
/// exposure before the first and after each of them.
pub fn greedy_cuts(g: AdGraph, rounds: usize) -> (r: (Vec<usize>, Vec<usize>))
    requires
        g.well_formed(),
    ensures
        r.0@.len() <= rounds,
        r.1@.len() == r.0@.len() + 1,
        forall|k: int, h: AdGraph|
            0 <= k <= r.0@.len() && #[trigger] is_after(&g, r.0@.take(k), &h) ==> r.1@[k]
                == total_exposure(&h),
        forall|k: int, h: AdGraph|
            0 <= k < r.0@.len() && #[trigger] is_after(&g, r.0@.take(k), &h) ==> is_top(
                &h,
                r.0@[k],
            ),
        r.0@.len() < rounds ==> forall|h: AdGraph, d: usize|
            is_after(&g, r.0@, &h) ==> !#[trigger] actionable(&h, d),
{
    let ghost start = g;
    let mut work = g;
    let mut cuts: Vec<usize> = Vec::new();
    let mut trace: Vec<usize> = Vec::new();
    trace.push(exposure(&work, None));
    proof {
        assert(cuts@.take(0) =~= Seq::<usize>::empty());
        assert forall|k: int, h: AdGraph| 0 <= k <= 0 && #[trigger] is_after(&start, cuts@.take(k), &h)
            implies trace@[k]
            == total_exposure(&h) by {
            assert(cuts@.take(k) =~= Seq::<usize>::empty());
            lemma_same_graph(&work, &h);
        }
    }
    let mut left = rounds;
    let mut done = false;
    while left > 0 && !done
        invariant
            work.well_formed(),
            done ==> forall|h: AdGraph, d: usize|
                is_after(&start, cuts@, &h) ==> !#[trigger] actionable(&h, d),
            cuts@.len() + left == rounds,
            trace@.len() == cuts@.len() + 1,
            is_after(&start, cuts@, &work),
            forall|k: int, h: AdGraph|
                0 <= k <= cuts@.len() && #[trigger] is_after(&start, cuts@.take(k), &h)
                    ==> trace@[k] == total_exposure(&h),
            forall|k: int, h: AdGraph|
                0 <= k < cuts@.len() && #[trigger] is_after(&start, cuts@.take(k), &h) ==> is_top(
                    &h,
                    cuts@[k],
                ),
        decreases left, (if done { 0int } else { 1int }),
    {
        let ranked = rank_chokepoints(&work);
        if ranked.len() == 0 {
            proof {
                assert forall|h: AdGraph, d: usize| is_after(&start, cuts@, &h)
                    implies !#[trigger] actionable(&h, d) by {
                    lemma_same_graph(&work, &h);
                    assert(actionable(&work, d) == actionable(&h, d));
                }
            }
            done = true;
        } else {
            let d = ranked[0].0;
            let ghost before = work;
            let ghost c0 = cuts@;
            proof {
                assert(is_top(&work, d)) by {
                    assert(actionable(&work, ranked@[0].0));
                    assert forall|c: usize| #[trigger] actionable(&work, c)
                        implies blast(&work, c) < blast(&work, d) || (
                    blast(&work, c) == blast(&work, d) && d <= c) by {
                        let y = (c, blast(&work, c) as usize);
                        assert(ranked@.contains(y));
                        let i = choose|i: int| 0 <= i < ranked@.len() && ranked@[i] == y;
                        if i > 0 {
                            assert(ranked@[0].1 > ranked@[i].1 || (ranked@[0].1 == ranked@[i].1
                                && ranked@[0].0 < ranked@[i].0));
                        }
                        assert(ranked@[i].1 == blast(&work, ranked@[i].0));
                        assert(ranked@[0].1 == blast(&work, ranked@[0].0));
                    }
                }
            }
            cut_node(&mut work, d);
            cuts.push(d);
            trace.push(exposure(&work, None));
            left -= 1;
            proof {
                assert(cuts@.drop_last() =~= c0);
                assert(is_after(&start, cuts@, &work));
                assert forall|k: int, h: AdGraph| 0 <= k <= cuts@.len() && #[trigger] is_after(&start, cuts@.take(k), &h)
                    implies trace@[k] == total_exposure(&h) by {
                    if k < cuts@.len() {
                        assert(cuts@.take(k) =~= c0.take(k));
                        assert(is_after(&start, c0.take(k), &h));
                    } else {
                        assert(cuts@.take(k) =~= cuts@);
                        lemma_same_graph(&work, &h);
                    }
                }
                assert forall|k: int, h: AdGraph| 0 <= k < cuts@.len() && #[trigger] is_after(&start, cuts@.take(k), &h)
                    implies is_top(&h, cuts@[k]) by {
                    assert(cuts@.take(k) =~= c0.take(k));
                    if k < c0.len() {
                        assert(is_after(&start, c0.take(k), &h));
                    } else {
                        assert(c0.take(k) =~= c0);
                        lemma_same_graph(&before, &h);
                        assert(is_top(&before, d) == is_top(&h, d));
                    }
                }
            }
        }
    }
    (cuts, trace)
}

} // verus!
