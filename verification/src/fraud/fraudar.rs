//! Camouflage-resistant dense-block detection.
//!
//! The density of a set of users and objects is the weight of the edges inside
//! it per node. An edge weighs what its object weighs; where popular objects
//! weigh little, camouflage is worth little, and it never touches the columns
//! of the block itself.
//!
//! Greedy peeling deletes the node whose removal costs the least weight, over
//! and over, and returns the densest set on the way: at least half as dense as
//! any set there is.

use crate::double;
use crate::double::Double;
use crate::fraud::peel_queue::PeelQueue;
use crate::fraud::review_graph::ReviewGraph;
use crate::math;
use vstd::arithmetic::power2::{lemma_pow2_adds, lemma_pow2_pos, pow2};
use vstd::prelude::*;

verus! {

/// How much an edge to an object counts.
#[derive(Clone, Copy, PartialEq, Eq, Debug)]
pub enum Weighting {
    /// One for every object.
    Unweighted,
    /// Less the more reviews the object has.
    LogDegree,
}

/// The weight of an object where all weigh alike. Weights are in units of 2^-58,
/// on which every double from 2^-6 to 1 lies.
pub const WHOLE_WEIGHT: u64 = 0x400_0000_0000_0000;

/// The weight of an object with so many reviews; `by_degree` has the weights
/// that fall.
pub open spec fn object_weight(w: Weighting, by_degree: Seq<u64>, obj_deg: int) -> u64 {
    match w {
        Weighting::Unweighted => WHOLE_WEIGHT,
        Weighting::LogDegree => by_degree[obj_deg],
    }
}

/// The weight of an object. It depends on nothing but how often the object was
/// reviewed, which is what keeps it out of a fraudster's hands.
pub fn column_weight(obj_deg: usize, w: Weighting, by_degree: &Vec<u64>) -> (x: u64)
    requires
        w == Weighting::LogDegree ==> obj_deg < by_degree@.len(),
    ensures
        x == object_weight(w, by_degree@, obj_deg as int),
{
    match w {
        Weighting::Unweighted => WHOLE_WEIGHT,
        Weighting::LogDegree => by_degree[obj_deg],
    }
}

/// The weights of all objects of a graph.
pub fn column_weights(g: &ReviewGraph, w: Weighting, by_degree: &Vec<u64>) -> (weight: Vec<u64>)
    requires
        g.obj_deg@.len() == g.n_objects,
        w == Weighting::LogDegree ==> forall|o: int|
            0 <= o < g.n_objects ==> (#[trigger] g.obj_deg@[o]) < by_degree@.len(),
    ensures
        weight@.len() == g.n_objects,
        forall|o: int|
            0 <= o < g.n_objects ==> #[trigger] weight@[o] == object_weight(
                w,
                by_degree@,
                g.obj_deg@[o] as int,
            ),
{
    let mut weight: Vec<u64> = Vec::new();
    for o in 0..g.n_objects
        invariant
            g.obj_deg@.len() == g.n_objects,
            w == Weighting::LogDegree ==> forall|o: int|
                0 <= o < g.n_objects ==> (#[trigger] g.obj_deg@[o]) < by_degree@.len(),
            weight@.len() == o,
            forall|j: int|
                0 <= j < o ==> #[trigger] weight@[j] == object_weight(
                    w,
                    by_degree@,
                    g.obj_deg@[j] as int,
                ),
    {
        let d = g.obj_deg[o];
        assert(w == Weighting::LogDegree ==> g.obj_deg@[o as int] < by_degree@.len());
        weight.push(column_weight(d, w, by_degree));
    }
    weight
}

/// The edges of a review graph with the weight of each object. Users are the
/// nodes below `nu`, objects those from there on.
pub ghost struct Weighted {
    pub edges: Seq<(usize, usize)>,
    pub nu: int,
    pub weight: Seq<u64>,
    /// How many nodes there are.
    pub n: nat,
}

impl Weighted {
    pub open spec fn user(self, i: int) -> int {
        self.edges[i].0 as int
    }

    pub open spec fn object(self, i: int) -> int {
        self.nu + self.edges[i].1
    }

    pub open spec fn edge_weight(self, i: int) -> int {
        self.weight[self.edges[i].1 as int] as int
    }

    /// Edge `i` has both ends in the set.
    pub open spec fn inside(self, set: Seq<bool>, i: int) -> bool {
        set[self.user(i)] && set[self.object(i)]
    }

    pub open spec fn well_formed(self) -> bool {
        &&& 0 <= self.nu
        &&& self.n == self.nu + self.weight.len()
        &&& forall|i: int|
            0 <= i < self.edges.len() ==> (#[trigger] self.edges[i]).0 < self.nu && self.edges[i].1
                < self.weight.len()
    }

    /// The weight of the first `k` edges that are inside the set.
    pub open spec fn mass(self, set: Seq<bool>, k: nat) -> int
        decreases k,
    {
        if k == 0 {
            0
        } else {
            self.mass(set, (k - 1) as nat) + (if self.inside(set, k - 1) {
                self.edge_weight(k - 1)
            } else {
                0
            })
        }
    }

    /// The weight of the first `k` edges inside the set that end at `v`.
    pub open spec fn pull(self, set: Seq<bool>, v: int, k: nat) -> int
        decreases k,
    {
        if k == 0 {
            0
        } else {
            self.pull(set, v, (k - 1) as nat) + (if self.inside(set, k - 1) && (self.user(k - 1)
                == v || self.object(k - 1) == v) {
                self.edge_weight(k - 1)
            } else {
                0
            })
        }
    }

    /// The weight inside the set.
    pub open spec fn total(self, set: Seq<bool>) -> int {
        self.mass(set, self.edges.len())
    }

    /// What a node contributes to the set.
    pub open spec fn worth(self, set: Seq<bool>, v: int) -> int {
        self.pull(set, v, self.edges.len())
    }
}

pub open spec fn in_set(set: Seq<bool>) -> spec_fn(int) -> bool {
    |v: int| set[v]
}

/// How many nodes the set has.
pub open spec fn set_size(set: Seq<bool>) -> nat {
    math::count(set.len(), in_set(set))
}

/// The set `a` is at least as dense as the set `b`.
pub open spec fn as_dense(g: Weighted, a: Seq<bool>, b: Seq<bool>) -> bool {
    g.total(a) * set_size(b) >= g.total(b) * set_size(a)
}

/// The nodes that are left when the first `k` of an order are gone.
pub open spec fn remaining(order: Seq<int>, n: nat, k: int) -> Seq<bool> {
    Seq::new(n, |v: int| !gone(order, k, v))
}

pub open spec fn gone(order: Seq<int>, k: int, v: int) -> bool {
    exists|i: int| 0 <= i < k && #[trigger] order[i] == v
}

/// Node `v` is the next to go: no node left is worth less, and none worth as
/// much comes before it.
pub open spec fn is_least(g: Weighted, set: Seq<bool>, v: int) -> bool {
    &&& 0 <= v < g.n
    &&& set[v]
    &&& forall|x: int|
        0 <= x < g.n && #[trigger] set[x] ==> g.worth(set, v) < g.worth(set, x) || (g.worth(
            set,
            v,
        ) == g.worth(set, x) && v <= x)
}

/// The order in which greedy peeling deletes the nodes.
pub open spec fn is_peeling(g: Weighted, order: Seq<int>) -> bool {
    &&& order.len() == g.n
    &&& forall|k: int|
        0 <= k < g.n ==> is_least(g, remaining(order, g.n, k), #[trigger] order[k])
}

/// Stage `k` of a peeling is the first of its densest.
pub open spec fn is_best(g: Weighted, order: Seq<int>, k: int) -> bool {
    &&& 0 <= k < g.n
    &&& forall|j: int|
        0 <= j < g.n ==> as_dense(
            g,
            remaining(order, g.n, k),
            #[trigger] remaining(order, g.n, j),
        )
    &&& forall|j: int|
        0 <= j < k ==> !as_dense(
            g,
            #[trigger] remaining(order, g.n, j),
            remaining(order, g.n, k),
        )
}

pub open spec fn subset(a: Seq<bool>, b: Seq<bool>) -> bool {
    &&& a.len() == b.len()
    &&& forall|v: int| 0 <= v < a.len() && #[trigger] a[v] ==> b[v]
}

/// Weights are not negative, and a set weighs at least what a node in it is
/// worth.
proof fn lemma_bounds(g: Weighted, set: Seq<bool>, v: int, k: nat)
    ensures
        0 <= g.pull(set, v, k) <= g.mass(set, k),
    decreases k,
{
    if k > 0 {
        lemma_bounds(g, set, v, (k - 1) as nat);
    }
}

proof fn lemma_mass_step(g: Weighted, set: Seq<bool>, k: nat, n: nat)
    requires
        k <= n,
    ensures
        g.mass(set, k) <= g.mass(set, n),
    decreases n,
{
    if k < n {
        lemma_mass_step(g, set, k, (n - 1) as nat);
    }
}

/// In a larger set nothing is worth less.
proof fn lemma_worth_grows(g: Weighted, a: Seq<bool>, b: Seq<bool>, v: int, k: nat)
    requires
        g.well_formed(),
        a.len() == g.n,
        subset(a, b),
        k <= g.edges.len(),
    ensures
        g.pull(a, v, k) <= g.pull(b, v, k),
        g.mass(a, k) <= g.mass(b, k),
    decreases k,
{
    if k > 0 {
        lemma_worth_grows(g, a, b, v, (k - 1) as nat);
        let e = g.edges[k - 1];
        assert(e.0 < g.nu && e.1 < g.weight.len());
        if g.inside(a, k - 1) {
            assert(a[g.user(k - 1)] && a[g.object(k - 1)]);
            assert(b[g.user(k - 1)] && b[g.object(k - 1)]);
        }
    }
}

/// Deleting a node takes its worth off the weight.
proof fn lemma_delete(g: Weighted, set: Seq<bool>, v: int, k: nat)
    requires
        g.well_formed(),
        set.len() == g.n,
        0 <= v < g.n,
        k <= g.edges.len(),
    ensures
        g.mass(set.update(v, false), k) == g.mass(set, k) - g.pull(set, v, k),
    decreases k,
{
    if k > 0 {
        lemma_delete(g, set, v, (k - 1) as nat);
        let e = g.edges[k - 1];
        assert(e.0 < g.nu && e.1 < g.weight.len());
    }
}

spec fn pulls(g: Weighted, set: Seq<bool>, k: nat) -> spec_fn(int) -> int {
    |v: int| g.pull(set, v, k)
}

spec fn at_node(x: int, w: int) -> spec_fn(int) -> int {
    |v: int|
        if v == x {
            w
        } else {
            0
        }
}

/// Every edge counts at both its ends.
proof fn lemma_handshake(g: Weighted, set: Seq<bool>, k: nat)
    requires
        g.well_formed(),
        set.len() == g.n,
        k <= g.edges.len(),
    ensures
        math::sum(g.n, pulls(g, set, k)) == 2 * g.mass(set, k),
    decreases k,
{
    let now = pulls(g, set, k);
    if k == 0 {
        math::lemma_sum_single(g.n, now, 0, 0);
    } else {
        lemma_handshake(g, set, (k - 1) as nat);
        let e = g.edges[k - 1];
        assert(e.0 < g.nu && e.1 < g.weight.len());
        let was = pulls(g, set, (k - 1) as nat);
        let w = if g.inside(set, k - 1) {
            g.edge_weight(k - 1)
        } else {
            0
        };
        let a = at_node(g.user(k - 1), w);
        let b = at_node(g.object(k - 1), w);
        let mid = |v: int| was(v) + a(v);
        math::lemma_sum_add(g.n, was, a, mid);
        assert forall|v: int| 0 <= v < g.n implies #[trigger] now(v) == mid(v) + b(v) by {}
        math::lemma_sum_add(g.n, mid, b, now);
        math::lemma_sum_single(g.n, a, g.user(k - 1), w);
        math::lemma_sum_single(g.n, b, g.object(k - 1), w);
    }
}

/// Where every node of a set is worth at least `w`, so is each on average.
proof fn lemma_sum_at_least(n: nat, f: spec_fn(int) -> int, set: Seq<bool>, w: int, k: nat)
    requires
        k <= n == set.len(),
        forall|v: int| 0 <= v < n ==> #[trigger] f(v) >= 0,
        forall|v: int| 0 <= v < n && set[v] ==> #[trigger] f(v) >= w,
        w >= 0,
    ensures
        math::sum(k, f) >= math::count(k, in_set(set)) * w,
    decreases k,
{
    if k > 0 {
        lemma_sum_at_least(n, f, set, w, (k - 1) as nat);
        let c = math::count((k - 1) as nat, in_set(set));
        assert(f(k - 1) >= 0);
        if set[k - 1] {
            assert(f(k - 1) >= w);
            assert((c + 1) * w == c * w + w) by (nonlinear_arith);
        }
    } else {
        assert(math::count(0, in_set(set)) * w == 0) by (nonlinear_arith)
            requires
                math::count(0, in_set(set)) == 0,
        ;
    }
}

/// No node of the set is worth less than the set's density.
spec fn is_tight(g: Weighted, set: Seq<bool>) -> bool {
    forall|v: int|
        0 <= v < g.n && #[trigger] set[v] ==> g.worth(set, v) * set_size(set) >= g.total(set)
}

proof fn lemma_size_without(set: Seq<bool>, v: int)
    requires
        0 <= v < set.len(),
        set[v],
    ensures
        set_size(set) == set_size(set.update(v, false)) + 1,
{
    let less = set.update(v, false);
    let one = |x: int| x == v;
    let p = in_set(set);
    let q = in_set(less);
    assert forall|x: int| 0 <= x < set.len()
        implies #[trigger] p(x) == (q(x) || one(x)) && !(q(x) && one(x)) by {}
    math::lemma_count_split(set.len(), p, q, one);
    math::lemma_count_single(set.len(), one, v, true);
}

/// A set of one node has no weight.
proof fn lemma_lonely(g: Weighted, set: Seq<bool>, v: int, k: nat)
    requires
        g.well_formed(),
        set.len() == g.n,
        0 <= v < g.n,
        set[v],
        set_size(set) == 1,
        k <= g.edges.len(),
    ensures
        g.mass(set, k) == 0,
    decreases k,
{
    if k > 0 {
        lemma_lonely(g, set, v, (k - 1) as nat);
        let e = g.edges[k - 1];
        assert(e.0 < g.nu && e.1 < g.weight.len());
        if g.inside(set, k - 1) {
            let a = g.user(k - 1);
            let b = g.object(k - 1);
            lemma_size_without(set, a);
            let less = set.update(a, false);
            assert(less[b]);
            lemma_size_without(less, b);
        }
    }
}

/// Density is transitive.
proof fn lemma_dense_trans(a: int, n: int, b: int, m: int, c: int, k: int)
    requires
        n > 0,
        m > 0,
        k > 0,
        a * m >= b * n,
        b * k >= c * m,
    ensures
        a * k >= c * n,
{
    assert((a * k) * m >= (c * n) * m) by (nonlinear_arith)
        requires
            a * m >= b * n,
            b * k >= c * m,
            n > 0,
            k > 0,
    {
        assert((a * m) * k >= (b * n) * k);
        assert((b * k) * n >= (c * m) * n);
    }
    assert(a * k >= c * n) by (nonlinear_arith)
        requires
            (a * k) * m >= (c * n) * m,
            m > 0,
    ;
}

/// Every set holds one that is as dense and tight.
proof fn lemma_tighten(g: Weighted, set: Seq<bool>) -> (core: Seq<bool>)
    requires
        g.well_formed(),
        set.len() == g.n,
        set_size(set) > 0,
    ensures
        core.len() == g.n,
        subset(core, set),
        set_size(core) > 0,
        is_tight(g, core),
        as_dense(g, core, set),
    decreases set_size(set),
{
    if is_tight(g, set) {
        set
    } else {
        let v = choose|v: int|
            0 <= v < g.n && #[trigger] set[v] && g.worth(set, v) * set_size(set) < g.total(set);
        let n = set_size(set) as int;
        let less = set.update(v, false);
        lemma_size_without(set, v);
        lemma_bounds(g, set, v, g.edges.len());
        if n == 1 {
            lemma_lonely(g, set, v, g.edges.len());
            assert(g.worth(set, v) * n >= 0) by (nonlinear_arith)
                requires
                    g.worth(set, v) >= 0,
                    n == 1,
            ;
        }
        lemma_delete(g, set, v, g.edges.len());
        let mass = g.total(set);
        let p = g.worth(set, v);
        assert((mass - p) * n >= mass * (n - 1)) by (nonlinear_arith)
            requires
                p * n < mass,
        ;
        assert(as_dense(g, less, set));
        let core = lemma_tighten(g, less);
        lemma_dense_trans(
            g.total(core),
            set_size(core) as int,
            g.total(less),
            set_size(less) as int,
            g.total(set),
            set_size(set) as int,
        );
        core
    }
}

/// Peeling deletes every node.
proof fn lemma_peeling_ends(g: Weighted, order: Seq<int>, v: int) -> (k: int)
    requires
        is_peeling(g, order),
        0 <= v < g.n,
    ensures
        0 <= k < g.n,
        order[k] == v,
{
    if forall|k: int| 0 <= k < g.n ==> order[k] != v {
        assert(order.no_duplicates()) by {
            assert forall|i: int, j: int| 0 <= i < order.len() && 0 <= j < order.len() && i != j
                implies order[i] != order[j] by {
                if i < j {
                    lemma_not_twice(g, order, i, j);
                } else {
                    lemma_not_twice(g, order, j, i);
                }
            }
        }
        order.unique_seq_to_set();
        let range = vstd::set_lib::set_int_range(0, g.n as int);
        vstd::set_lib::lemma_int_range(0, g.n as int);
        let rest = range.remove(v);
        assert(order.to_set().subset_of(rest)) by {
            assert forall|x: int| order.to_set().contains(x) implies rest.contains(x) by {
                let i = choose|i: int| 0 <= i < order.len() && order[i] == x;
                assert(is_least(g, remaining(order, g.n, i), order[i]));
            }
        }
        vstd::set_lib::lemma_len_subset(order.to_set(), rest);
        assert(false);
    }
    choose|k: int| 0 <= k < g.n && order[k] == v
}

proof fn lemma_not_twice(g: Weighted, order: Seq<int>, i: int, j: int)
    requires
        is_peeling(g, order),
        0 <= i < j < g.n,
    ensures
        order[i] != order[j],
{
    assert(is_least(g, remaining(order, g.n, j), order[j]));
    assert(!gone(order, j, order[j]));
}

/// The first stage at which peeling deletes a node of the set.
proof fn lemma_first_hit(g: Weighted, order: Seq<int>, set: Seq<bool>, k: int) -> (h: int)
    requires
        is_peeling(g, order),
        set.len() == g.n,
        0 <= k < g.n,
        set[order[k]],
    ensures
        0 <= h < g.n,
        set[order[h]],
        subset(set, remaining(order, g.n, h)),
    decreases k,
{
    if exists|j: int| 0 <= j < k && set[#[trigger] order[j]] {
        let j = choose|j: int| 0 <= j < k && set[#[trigger] order[j]];
        lemma_first_hit(g, order, set, j)
    } else {
        assert forall|v: int| 0 <= v < set.len() && #[trigger] set[v]
            implies remaining(order, g.n, k)[v] by {
            if gone(order, k, v) {
                let i = choose|i: int| 0 <= i < k && #[trigger] order[i] == v;
                assert(set[order[i]]);
            }
        }
        k
    }
}

/// The set that peeling returns is at least half as dense as any set.
pub proof fn lemma_half_of_the_best(g: Weighted, order: Seq<int>, k: int, set: Seq<bool>)
    requires
        g.well_formed(),
        is_peeling(g, order),
        is_best(g, order, k),
        set.len() == g.n,
        set_size(set) > 0,
    ensures
        2 * g.total(remaining(order, g.n, k)) * set_size(set) >= g.total(set) * set_size(
            remaining(order, g.n, k),
        ),
{
    let core = lemma_tighten(g, set);
    let v = lemma_some_node(core, core.len());
    let at = lemma_peeling_ends(g, order, v);
    let h = lemma_first_hit(g, order, core, at);
    let x = remaining(order, g.n, h);
    let w = order[h];
    assert(is_least(g, x, order[h]));
    let worth = g.worth(x, w);
    lemma_worth_grows(g, core, x, w, g.edges.len());
    lemma_bounds(g, x, w, g.edges.len());
    let f = pulls(g, x, g.edges.len());
    assert forall|u: int| 0 <= u < g.n implies #[trigger] f(u) >= 0 by {
        lemma_bounds(g, x, u, g.edges.len());
    }
    assert forall|u: int| 0 <= u < g.n && x[u] implies #[trigger] f(u) >= worth by {
        assert(x[u]);
    }
    lemma_sum_at_least(g.n, f, x, worth, g.n);
    lemma_handshake(g, x, g.edges.len());
    let nx = set_size(x) as int;
    let nc = set_size(core) as int;
    let tx = g.total(x);
    let tc = g.total(core);
    assert(2 * tx >= nx * worth);
    assert(core[w]);
    assert(g.worth(core, w) * nc >= tc);
    assert(worth * nc >= tc) by (nonlinear_arith)
        requires
            g.worth(core, w) * nc >= tc,
            worth >= g.worth(core, w),
            nc > 0,
    ;
    assert(2 * tx * nc >= tc * nx) by (nonlinear_arith)
        requires
            2 * tx >= nx * worth,
            worth * nc >= tc,
            nc > 0,
            nx >= 0,
    {
        assert((2 * tx) * nc >= (nx * worth) * nc);
        assert((worth * nc) * nx >= tc * nx);
    }
    let best = remaining(order, g.n, k);
    let nb = set_size(best) as int;
    let tb = g.total(best);
    let ns = set_size(set) as int;
    let ts = g.total(set);
    assert(as_dense(g, best, x));
    lemma_remaining_size(g, order, k);
    lemma_remaining_size(g, order, h);
    // 2 tb / nb >= 2 tx / nx >= tc / nc >= ts / ns
    assert((2 * tb) * nx >= (2 * tx) * nb) by (nonlinear_arith)
        requires
            tb * nx >= tx * nb,
    ;
    lemma_dense_trans(2 * tb, nb, 2 * tx, nx, tc, nc);
    lemma_dense_trans(2 * tb, nb, tc, nc, ts, ns);
}

proof fn lemma_some_node(set: Seq<bool>, n: nat) -> (v: int)
    requires
        n <= set.len(),
        math::count(n, in_set(set)) > 0,
    ensures
        0 <= v < n,
        set[v],
    decreases n,
{
    if set[n - 1] {
        n - 1
    } else {
        lemma_some_node(set, (n - 1) as nat)
    }
}

/// After `k` deletions `k` nodes are gone.
proof fn lemma_remaining_size(g: Weighted, order: Seq<int>, k: int)
    requires
        is_peeling(g, order),
        0 <= k <= g.n,
    ensures
        set_size(remaining(order, g.n, k)) == g.n - k,
    decreases k,
{
    let now = remaining(order, g.n, k);
    if k == 0 {
        let all = |v: int| true;
        let p = in_set(now);
        assert forall|v: int| 0 <= v < g.n implies #[trigger] p(v) == all(v) by {}
        math::lemma_count_same(g.n, p, all);
        lemma_count_all(g.n, all);
    } else {
        lemma_remaining_size(g, order, k - 1);
        let was = remaining(order, g.n, k - 1);
        assert(is_least(g, was, order[k - 1]));
        lemma_remaining_step(g.n, order, k - 1);
        lemma_size_without(was, order[k - 1]);
    }
}

proof fn lemma_count_all(n: nat, p: spec_fn(int) -> bool)
    requires
        forall|i: int| 0 <= i < n ==> #[trigger] p(i),
    ensures
        math::count(n, p) == n,
    decreases n,
{
    if n > 0 {
        lemma_count_all((n - 1) as nat, p);
    }
}

/// One deletion more.
proof fn lemma_remaining_step(n: nat, order: Seq<int>, k: int)
    requires
        0 <= k < order.len(),
        0 <= order[k] < n,
    ensures
        remaining(order, n, k + 1) == remaining(order, n, k).update(order[k], false),
{
    let a = remaining(order, n, k + 1);
    let b = remaining(order, n, k).update(order[k], false);
    assert forall|v: int| 0 <= v < n implies a[v] == b[v] by {
        if gone(order, k + 1, v) {
            let i = choose|i: int| 0 <= i < k + 1 && #[trigger] order[i] == v;
            if i < k {
                assert(gone(order, k, v));
            }
        }
        if gone(order, k, v) {
            let i = choose|i: int| 0 <= i < k && #[trigger] order[i] == v;
            assert(order[i] == v);
            assert(gone(order, k + 1, v));
        }
        if v == order[k] {
            assert(gone(order, k + 1, v));
        }
    }
    assert(a =~= b);
}

/// A detected block: its nodes, the weight inside it, and its size.
#[derive(Debug)]
pub struct Detection {
    pub users: Vec<usize>,
    pub objects: Vec<usize>,
    /// The weight of the edges inside; the density is this by `size`.
    pub weight: u128,
    pub size: usize,
}

/// The detection is the best stage `k` of a peeling.
pub open spec fn is_detection(w: Weighted, order: Seq<int>, k: int, det: &Detection) -> bool {
    let set = remaining(order, w.n, k);
    &&& is_peeling(w, order)
    &&& is_best(w, order, k)
    &&& det.weight == w.total(set)
    &&& det.size == set_size(set)
    &&& det.users@ == members(set, 0, w.nu)
    &&& det.objects@ == members(set, w.nu, w.n as int)
}

/// The graph with its object weights.
pub open spec fn weighted(g: &ReviewGraph, weight: Seq<u64>) -> Weighted {
    Weighted {
        edges: g.edges@,
        nu: g.n_users as int,
        weight,
        n: (g.n_users + g.n_objects) as nat,
    }
}

/// The weights of all edges add up, and densities can be compared.
pub open spec fn weights_fit(g: &ReviewGraph, weight: Seq<u64>) -> bool {
    let w = weighted(g, weight);
    w.total(Seq::new(w.n, |v: int| true)) * w.n <= u128::MAX
}

/// The neighbours of a node in the first `k` edges.
spec fn ties(w: Weighted, v: int, k: nat) -> Seq<usize>
    decreases k,
{
    if k == 0 {
        Seq::empty()
    } else {
        let before = ties(w, v, (k - 1) as nat);
        if w.user(k - 1) == v {
            before.push(w.object(k - 1) as usize)
        } else if w.object(k - 1) == v {
            before.push(w.user(k - 1) as usize)
        } else {
            before
        }
    }
}

/// The weight of an edge between two nodes.
spec fn tie_weight(w: Weighted, a: int, b: int) -> int {
    w.weight[if a >= w.nu {
        a - w.nu
    } else {
        b - w.nu
    }] as int
}

spec fn is_node(list: Seq<usize>, x: int) -> spec_fn(int) -> bool {
    |i: int| list[i] == x
}

/// The weight of the first `k` edges that join `v` and `x`.
proof fn lemma_pull_without(w: Weighted, set: Seq<bool>, v: int, x: int, k: nat)
    requires
        w.well_formed(),
        set.len() == w.n <= usize::MAX,
        0 <= v < w.n,
        0 <= x < w.n,
        x != v,
        set[v],
        set[x],
        k <= w.edges.len(),
    ensures
        w.pull(set.update(v, false), x, k) == w.pull(set, x, k) - math::count(
            ties(w, v, k).len(),
            is_node(ties(w, v, k), x),
        ) * tie_weight(w, v, x),
    decreases k,
{
    let now = ties(w, v, k);
    let wt = tie_weight(w, v, x);
    if k == 0 {
        assert(0 * wt == 0);
        assert(math::count(now.len(), is_node(now, x)) == 0);
    } else {
        lemma_pull_without(w, set, v, x, (k - 1) as nat);
        let e = w.edges[k - 1];
        assert(e.0 < w.nu && e.1 < w.weight.len());
        let was = ties(w, v, (k - 1) as nat);
        let c = math::count(was.len(), is_node(was, x));
        math::lemma_count_same(was.len(), is_node(was, x), is_node(now, x));
        assert((c + 1) * wt == c * wt + wt) by (nonlinear_arith);
        let less = set.update(v, false);
        if w.user(k - 1) == v || w.object(k - 1) == v {
            assert(now.len() == was.len() + 1);
            assert(!w.inside(less, k - 1));
            assert(math::count(now.len(), is_node(now, x)) == c + (if now[was.len() as int] == x {
                1nat
            } else {
                0
            }));
        } else {
            assert(w.inside(less, k - 1) == w.inside(set, k - 1));
        }
    }
}

proof fn lemma_ties_below(w: Weighted, v: int, k: nat, i: int)
    requires
        w.well_formed(),
        w.n <= usize::MAX,
        0 <= v < w.n,
        k <= w.edges.len(),
        0 <= i < ties(w, v, k).len(),
    ensures
        ties(w, v, k)[i] < w.n,
        ties(w, v, k)[i] != v,
        v < w.nu <==> ties(w, v, k)[i] >= w.nu,
    decreases k,
{
    let e = w.edges[k - 1];
    assert(e.0 < w.nu && e.1 < w.weight.len());
    let before = ties(w, v, (k - 1) as nat);
    if i < before.len() {
        lemma_ties_below(w, v, (k - 1) as nat, i);
    }
}

/// The queue holds what the nodes that are left are worth.
spec fn in_step(w: Weighted, q: &PeelQueue, set: Seq<bool>) -> bool {
    &&& q.well_formed()
    &&& q.left() == set
    &&& q.keys().len() == w.n
    &&& forall|x: int| 0 <= x < w.n && #[trigger] set[x] ==> q.keys()[x] == w.worth(set, x)
}

/// Lowers what the neighbours of a deleted node are worth.
fn lower_ties(
    q: &mut PeelQueue,
    list: &Vec<usize>,
    v: usize,
    nu: usize,
    weight: &Vec<u64>,
    w: Ghost<Weighted>,
    set: Ghost<Seq<bool>>,
)
    requires
        w@.well_formed(),
        w@.n <= usize::MAX,
        w@.nu == nu,
        w@.weight == weight@,
        set@.len() == w@.n,
        0 <= v < w@.n,
        set@[v as int],
        list@ == ties(w@, v as int, w@.edges.len()),
        old(q).well_formed(),
        old(q).left() == set@.update(v as int, false),
        old(q).keys().len() == w@.n,
        forall|x: int|
            0 <= x < w@.n && #[trigger] set@[x] ==> old(q).keys()[x] == w@.worth(set@, x),
    ensures
        in_step(w@, final(q), set@.update(v as int, false)),
{
    let ghost wg = w@;
    let ghost s = set@;
    let ghost less = s.update(v as int, false);
    let ghost vi = v as int;
    let ghost m = wg.edges.len();
    proof {
        assert forall|x: int| 0 <= x < wg.n && #[trigger] less[x] implies q.keys()[x] == wg.worth(s, x)
            - math::count(0, is_node(list@, x)) * tie_weight(wg, vi, x) by {
            assert(s[x]);
            assert(0 * tie_weight(wg, vi, x) == 0);
        }
    }
    for i in 0..list.len()
        invariant
            wg == w@,
            s == set@,
            vi == v,
            m == wg.edges.len(),
            less == s.update(vi, false),
            wg.well_formed(),
            wg.n <= usize::MAX,
            wg.nu == nu,
            wg.weight == weight@,
            s.len() == wg.n,
            0 <= v < wg.n,
            s[vi],
            list@ == ties(wg, vi, m),
            q.well_formed(),
            q.left() == less,
            q.keys().len() == wg.n,
            forall|x: int|
                0 <= x < wg.n && #[trigger] less[x] ==> q.keys()[x] == wg.worth(s, x)
                    - math::count(i as nat, is_node(list@, x)) * tie_weight(wg, vi, x),
    {
        let y = list[i];
        proof {
            lemma_ties_below(wg, vi, m, i as int);
        }
        if q.is_left(y) {
            let o = if v >= nu {
                v - nu
            } else {
                y - nu
            };
            proof {
                let c = math::count(i as nat, is_node(list@, y as int));
                let wt = tie_weight(wg, vi, y as int);
                assert(less[y as int]);
                lemma_pull_without(wg, s, vi, y as int, m);
                lemma_bounds(wg, less, y as int, m);
                let all = math::count(list@.len(), is_node(list@, y as int));
                assert(is_node(list@, y as int)(i as int));
                lemma_count_prefix((i + 1) as nat, list@.len(), is_node(list@, y as int));
                assert((c + 1) * wt <= all * wt) by (nonlinear_arith)
                    requires
                        c + 1 <= all,
                        wt >= 0,
                ;
                assert((c + 1) * wt == c * wt + wt) by (nonlinear_arith);
            }
            let k = q.key_of(y) - weight[o] as u128;
            q.lower(y, k);
        }
        proof {
            assert forall|x: int| 0 <= x < wg.n && #[trigger] less[x]
                implies q.keys()[x] == wg.worth(s, x)
                - math::count((i + 1) as nat, is_node(list@, x)) * tie_weight(wg, vi, x) by {
                let c = math::count(i as nat, is_node(list@, x));
                let wt = tie_weight(wg, vi, x);
                assert((c + 1) * wt == c * wt + wt) by (nonlinear_arith);
                assert(math::count((i + 1) as nat, is_node(list@, x)) == c + (if list@[i as int] == x {
                    1nat
                } else {
                    0
                }));
            }
        }
    }
    proof {
        assert forall|x: int| 0 <= x < wg.n && #[trigger] less[x]
            implies q.keys()[x] == wg.worth(less, x) by {
            lemma_pull_without(wg, s, vi, x, m);
        }
    }
}

proof fn lemma_count_prefix(k: nat, n: nat, p: spec_fn(int) -> bool)
    requires
        k <= n,
    ensures
        math::count(k, p) <= math::count(n, p),
    decreases n,
{
    if k < n {
        lemma_count_prefix(k, (n - 1) as nat, p);
    }
}

/// The neighbours of every node.
fn tie_lists(g: &ReviewGraph, weight: &Vec<u64>) -> (lists: Vec<Vec<usize>>)
    requires
        g.well_formed(),
        g.n_users + g.n_objects <= usize::MAX,
        weight@.len() == g.n_objects,
    ensures
        lists@.len() == g.n_users + g.n_objects,
        forall|v: int|
            0 <= v < lists@.len() ==> (#[trigger] lists@[v])@ == ties(
                weighted(g, weight@),
                v,
                g.edges@.len(),
            ),
{
    let n = g.n_users + g.n_objects;
    let ghost w = weighted(g, weight@);
    let mut lists: Vec<Vec<usize>> = math::empty_lists(n);
    for i in 0..g.edges.len()
        invariant
            g.well_formed(),
            n == g.n_users + g.n_objects,
            w == weighted(g, weight@),
            lists@.len() == n,
            forall|v: int| 0 <= v < n ==> (#[trigger] lists@[v])@ == ties(w, v, i as nat),
    {
        let (u, o) = g.edges[i];
        assert(g.edges@[i as int].0 < g.n_users && g.edges@[i as int].1 < g.n_objects);
        let x = g.n_users + o;
        lists[u].push(x);
        lists[x].push(u);
    }
    lists
}

/// What every node is worth in the whole graph, and the whole weight.
fn first_worths(g: &ReviewGraph, weight: &Vec<u64>) -> (r: (Vec<u128>, u128))
    requires
        g.well_formed(),
        g.n_users + g.n_objects <= usize::MAX,
        weight@.len() == g.n_objects,
        weighted(g, weight@).total(Seq::new((g.n_users + g.n_objects) as nat, |v: int| true))
            <= u128::MAX,
    ensures
        ({
            let w = weighted(g, weight@);
            let all = Seq::new(w.n, |v: int| true);
            &&& r.0@.len() == w.n
            &&& forall|v: int| 0 <= v < w.n ==> #[trigger] r.0@[v] == w.worth(all, v)
            &&& r.1 == w.total(all)
        }),
{
    let n = g.n_users + g.n_objects;
    let ghost w = weighted(g, weight@);
    let ghost all = Seq::new(w.n, |v: int| true);
    let mut worth: Vec<u128> = vec![0; n];
    let mut total: u128 = 0;
    for i in 0..g.edges.len()
        invariant
            g.well_formed(),
            n == g.n_users + g.n_objects,
            w == weighted(g, weight@),
            weight@.len() == g.n_objects,
            all == Seq::new(w.n, |v: int| true),
            w.total(all) <= u128::MAX,
            worth@.len() == n,
            total == w.mass(all, i as nat),
            forall|v: int| 0 <= v < n ==> #[trigger] worth@[v] == w.pull(all, v, i as nat),
    {
        let (u, o) = g.edges[i];
        assert(g.edges@[i as int].0 < g.n_users && g.edges@[i as int].1 < g.n_objects);
        let x = g.n_users + o;
        proof {
            lemma_mass_step(w, all, (i + 1) as nat, w.edges.len());
            lemma_bounds(w, all, u as int, (i + 1) as nat);
            lemma_bounds(w, all, x as int, (i + 1) as nat);
            assert(w.inside(all, i as int));
            assert(worth@[u as int] == w.pull(all, u as int, i as nat));
            assert(worth@[x as int] == w.pull(all, x as int, i as nat));
        }
        total = total + weight[o] as u128;
        let a = worth[u] + weight[o] as u128;
        worth.set(u, a);
        let b = worth[x] + weight[o] as u128;
        worth.set(x, b);
    }
    (worth, total)
}

/// Deletes the node that is worth least; also says what weight is left.
fn peel_one(
    q: &mut PeelQueue,
    lists: &Vec<Vec<usize>>,
    nu: usize,
    weight: &Vec<u64>,
    total: u128,
    w: Ghost<Weighted>,
    set: Ghost<Seq<bool>>,
) -> (r: (usize, u128))
    requires
        w@.well_formed(),
        w@.n <= usize::MAX,
        w@.nu == nu,
        w@.weight == weight@,
        lists@.len() == w@.n,
        forall|v: int|
            0 <= v < w@.n ==> (#[trigger] lists@[v])@ == ties(w@, v, w@.edges.len()),
        set@.len() == w@.n,
        set_size(set@) > 0,
        in_step(w@, old(q), set@),
        total == w@.total(set@),
    ensures
        is_least(w@, set@, r.0 as int),
        in_step(w@, final(q), set@.update(r.0 as int, false)),
        r.1 == w@.total(set@.update(r.0 as int, false)),
{
    proof {
        let v = lemma_some_node(set@, w@.n);
        assert(q.left()[v]);
        q.lemma_lens();
    }
    let v = q.pop();
    proof {
        assert forall|x: int| 0 <= x < w@.n && #[trigger] set@[x]
            implies w@.worth(set@, v as int) < w@.worth(
            set@,
            x,
        ) || (w@.worth(set@, v as int) == w@.worth(set@, x) && v <= x) by {
            assert(set@[v as int]);
        }
        assert(set@[v as int]);
        lemma_bounds(w@, set@, v as int, w@.edges.len());
        lemma_delete(w@, set@, v as int, w@.edges.len());
    }
    let left = total - q.key_of(v);
    lower_ties(q, &lists[v], v, nu, weight, w, set);
    (v, left)
}

/// The first nodes of a peeling.
spec fn peeled(w: Weighted, order: Seq<int>) -> bool {
    &&& order.len() <= w.n
    &&& forall|i: int|
        0 <= i < order.len() ==> is_least(w, remaining(order, w.n, i), #[trigger] order[i])
    &&& forall|i: int|
        0 <= i <= order.len() ==> set_size(#[trigger] remaining(order, w.n, i)) == w.n - i
}

proof fn lemma_peeled_step(w: Weighted, order: Seq<int>, v: int, b: int)
    requires
        peeled(w, order),
        order.len() < w.n,
        is_least(w, remaining(order, w.n, order.len() as int), v),
        0 <= b <= order.len(),
        best_so_far(w, order, b, (order.len() + 1) as int),
    ensures
        peeled(w, order.push(v)),
        remaining(order.push(v), w.n, (order.len() + 1) as int) == remaining(
            order,
            w.n,
            order.len() as int,
        ).update(v, false),
        best_so_far(w, order.push(v), b, (order.len() + 1) as int),
        remaining(order.push(v), w.n, b) == remaining(order, w.n, b),
{
    let more = order.push(v);
    let k = order.len() as int;
    let set = remaining(order, w.n, k);
    lemma_order_prefix(order, more, w.n);
    lemma_remaining_step(w.n, more, k);
    assert(remaining(more, w.n, k) == set);
    lemma_size_without(set, v);
    assert(set_size(set) == w.n - k);
    assert forall|i: int| 0 <= i < k + 1
        implies is_least(w, remaining(more, w.n, i), #[trigger] more[i]) by {
        assert(remaining(more, w.n, i) == remaining(order, w.n, i));
        if i < k {
            assert(more[i] == order[i]);
            assert(is_least(w, remaining(order, w.n, i), order[i]));
        }
    }
    assert forall|i: int| 0 <= i <= k + 1
        implies set_size(#[trigger] remaining(more, w.n, i)) == w.n - i by {
        if i <= k {
            assert(remaining(more, w.n, i) == remaining(order, w.n, i));
            assert(set_size(remaining(order, w.n, i)) == w.n - i);
        }
    }
    assert(remaining(more, w.n, b) == remaining(order, w.n, b));
    assert forall|j: int| 0 <= j < k + 1 implies as_dense(
        w,
        remaining(more, w.n, b),
        #[trigger] remaining(more, w.n, j),
    ) by {
        assert(remaining(more, w.n, j) == remaining(order, w.n, j));
        assert(as_dense(w, remaining(order, w.n, b), remaining(order, w.n, j)));
    }
    assert forall|j: int| 0 <= j < b implies !as_dense(
        w,
        #[trigger] remaining(more, w.n, j),
        remaining(more, w.n, b),
    ) by {
        assert(remaining(more, w.n, j) == remaining(order, w.n, j));
        assert(!as_dense(w, remaining(order, w.n, j), remaining(order, w.n, b)));
    }
}

/// Weight `x` over `y` nodes is denser than weight `z` over `t` nodes.
fn denser(x: u128, y: usize, z: u128, t: usize) -> (b: bool)
    requires
        x * t <= u128::MAX,
        z * y <= u128::MAX,
    ensures
        b == (x * t > z * y),
{
    x * t as u128 > z * y as u128
}

/// Greedy peeling: deletes the node that is worth least, over and over, and
/// returns the densest set on the way, the largest where several are.
pub fn fraudar(g: &ReviewGraph, weight: &Vec<u64>) -> (det: Detection)
    requires
        g.well_formed(),
        g.n_users + g.n_objects + 1000 <= usize::MAX,
        g.n_users + g.n_objects > 0,
        weight@.len() == g.n_objects,
        weights_fit(g, weight@),
    ensures
        exists|order: Seq<int>, k: int| #[trigger]
            is_detection(weighted(g, weight@), order, k, &det),
        forall|i: int| 0 <= i < det.users@.len() ==> #[trigger] det.users@[i] < g.n_users,
        forall|i: int| 0 <= i < det.objects@.len() ==> #[trigger] det.objects@[i] < g.n_objects,
{
    let n = g.n_users + g.n_objects;
    let ghost w = weighted(g, weight@);
    let ghost most = w.total(Seq::new(w.n, |v: int| true));
    proof {
        let all = Seq::new(w.n, |v: int| true);
        lemma_mass_step(w, all, 0, w.edges.len());
        assert(most <= most * w.n) by (nonlinear_arith)
            requires
                most >= 0,
                w.n >= 1,
        ;
    }
    let (worth, mut total) = first_worths(g, weight);
    let lists = tie_lists(g, weight);
    let width: usize = if n < 10_000 {
        64
    } else {
        400
    };
    let mut q = PeelQueue::new(worth, width);
    let mut order: Vec<usize> = Vec::new();
    let ghost mut gone_order: Seq<int> = Seq::empty();
    let mut best_at: usize = 0;
    let mut best_weight: u128 = total;
    let ghost mut set = Seq::new(w.n, |v: int| true);
    proof {
        assert(set =~= remaining(gone_order, w.n, 0));
        lemma_count_all(w.n, in_set(set));
        assert(w.well_formed());
    }
    for k in 0..n
        invariant
            n == w.n,
            n <= usize::MAX,
            w.well_formed(),
            w.nu == g.n_users,
            w.weight == weight@,
            lists@.len() == n,
            forall|v: int|
                0 <= v < n ==> (#[trigger] lists@[v])@ == ties(w, v, w.edges.len()),
            order@.len() == k,
            gone_order.len() == k,
            forall|i: int| 0 <= i < k ==> #[trigger] order@[i] == gone_order[i],
            forall|i: int| 0 <= i < k ==> (#[trigger] order@[i]) < n,
            peeled(w, gone_order),
            set == remaining(gone_order, w.n, k as int),
            in_step(w, &q, set),
            total == w.total(set),
            most * n <= u128::MAX,
            total <= most,
            best_weight <= most,
            best_at <= k,
            k > 0 ==> best_at < k,
            best_weight == w.total(remaining(gone_order, w.n, best_at as int)),
            best_so_far(w, gone_order, best_at as int, k as int),
    {
        proof {
            assert(set_size(remaining(gone_order, w.n, k as int)) == n - k);
        }
        let ghost old_best = best_at as int;
        proof {
            let (a, b, m, p, q, ni) = (
                total as int,
                best_weight as int,
                most,
                n - k,
                n - best_at,
                n as int,
            );
            assert(a * q <= m * ni && b * p <= m * ni) by (nonlinear_arith)
                requires
                    0 <= a <= m,
                    0 <= b <= m,
                    0 <= p <= ni,
                    0 <= q <= ni,
            ;
        }
        // What is left before this deletion is stage `k`.
        if k > 0 && denser(total, n - k, best_weight, n - best_at) {
            best_at = k;
            best_weight = total;
        }
        proof {
            lemma_best_step(w, gone_order, k as int, old_best, best_at as int);
        }
        let (v, left) = peel_one(
            &mut q,
            &lists,
            g.n_users,
            weight,
            total,
            Ghost(w),
            Ghost(set),
        );
        assert(left <= total) by {
            lemma_total_shrinks(w, set, v as int);
        }
        total = left;
        order.push(v);
        proof {
            lemma_peeled_step(w, gone_order, v as int, best_at as int);
            set = set.update(v as int, false);
            gone_order = gone_order.push(v as int);
        }
    }
    proof {
        assert(is_peeling(w, gone_order));
        assert(is_best(w, gone_order, best_at as int));
        assert(set_size(remaining(gone_order, w.n, best_at as int)) == n - best_at);
    }
    let det = collect(g, &order, best_at, best_weight, Ghost(gone_order), Ghost(w));
    proof {
        assert(is_detection(w, gone_order, best_at as int, &det));
        let found = remaining(gone_order, w.n, best_at as int);
        assert forall|i: int| 0 <= i < det.users@.len()
            implies #[trigger] det.users@[i] < g.n_users by {
            lemma_members_below(found, 0, g.n_users as int, i);
        }
        assert forall|i: int| 0 <= i < det.objects@.len()
            implies #[trigger] det.objects@[i] < g.n_objects by {
            lemma_members_below(found, g.n_users as int, n as int, i);
        }
    }
    det
}

proof fn lemma_members_below(set: Seq<bool>, lo: int, hi: int, i: int)
    requires
        0 <= lo <= hi <= usize::MAX,
        0 <= i < members(set, lo, hi).len(),
    ensures
        members(set, lo, hi)[i] < hi - lo,
    decreases hi - lo,
{
    if hi > lo {
        let before = members(set, lo, hi - 1);
        if i < before.len() {
            lemma_members_below(set, lo, hi - 1, i);
        }
    }
}

/// Stage `b` is the first of the densest of the first `k` stages.
spec fn best_so_far(w: Weighted, order: Seq<int>, b: int, k: int) -> bool {
    if k == 0 {
        b == 0
    } else {
        &&& 0 <= b < k
        &&& forall|j: int|
            0 <= j < k ==> as_dense(
                w,
                remaining(order, w.n, b),
                #[trigger] remaining(order, w.n, j),
            )
        &&& forall|j: int|
            0 <= j < b ==> !as_dense(
                w,
                #[trigger] remaining(order, w.n, j),
                remaining(order, w.n, b),
            )
    }
}

proof fn lemma_best_step(w: Weighted, order: Seq<int>, k: int, b: int, b2: int)
    requires
        0 <= k < w.n,
        forall|i: int| 0 <= i <= k ==> set_size(#[trigger] remaining(order, w.n, i)) == w.n - i,
        0 <= b <= k,
        best_so_far(w, order, b, k),
        b2 == (if k > 0 && w.total(remaining(order, w.n, k)) * (w.n - b) > w.total(
            remaining(order, w.n, b),
        ) * (w.n - k) {
            k
        } else {
            b
        }),
    ensures
        best_so_far(w, order, b2, k + 1),
{
    let x = remaining(order, w.n, k);
    let y = remaining(order, w.n, b);
    assert(set_size(x) == w.n - k);
    assert(set_size(y) == w.n - b);
    if k > 0 && b2 == k {
        assert forall|j: int| 0 <= j < k + 1
            implies as_dense(w, x, #[trigger] remaining(order, w.n, j)) by {
            if j < k {
                let z = remaining(order, w.n, j);
                assert(set_size(z) == w.n - j);
                assert(as_dense(w, y, z));
                lemma_dense_trans(
                    w.total(x),
                    w.n - k,
                    w.total(y),
                    w.n - b,
                    w.total(z),
                    w.n - j,
                );
            }
        }
        assert forall|j: int| 0 <= j < k
            implies !as_dense(w, #[trigger] remaining(order, w.n, j), x) by {
            let z = remaining(order, w.n, j);
            assert(set_size(z) == w.n - j);
            assert(as_dense(w, y, z));
            if as_dense(w, z, x) {
                lemma_dense_trans(
                    w.total(y),
                    w.n - b,
                    w.total(z),
                    w.n - j,
                    w.total(x),
                    w.n - k,
                );
            }
        }
    } else {
        assert forall|j: int| 0 <= j < k + 1
            implies as_dense(w, y, #[trigger] remaining(order, w.n, j)) by {
            if j < k {
                assert(as_dense(w, y, remaining(order, w.n, j)));
            }
        }
    }
}

/// The stages of an order do not depend on what comes later.
proof fn lemma_order_prefix(order: Seq<int>, more: Seq<int>, n: nat)
    requires
        order.len() <= more.len(),
        forall|i: int| 0 <= i < order.len() ==> #[trigger] more[i] == order[i],
    ensures
        forall|k: int|
            0 <= k <= order.len() ==> #[trigger] remaining(more, n, k) == remaining(order, n, k),
{
    assert forall|k: int| 0 <= k <= order.len()
        implies #[trigger] remaining(more, n, k) == remaining(order, n, k) by {
        assert forall|v: int| gone(more, k, v) == gone(order, k, v) by {
            if gone(more, k, v) {
                let i = choose|i: int| 0 <= i < k && #[trigger] more[i] == v;
                assert(order[i] == v);
            }
            if gone(order, k, v) {
                let i = choose|i: int| 0 <= i < k && #[trigger] order[i] == v;
                assert(more[i] == v);
            }
        }
        assert(remaining(more, n, k) =~= remaining(order, n, k));
    }
}

/// The members of a set from `lo` to `hi`, numbered from `lo`.
pub open spec fn members(set: Seq<bool>, lo: int, hi: int) -> Seq<usize>
    decreases hi - lo,
{
    if hi <= lo {
        Seq::empty()
    } else {
        let before = members(set, lo, hi - 1);
        if set[hi - 1] {
            before.push((hi - 1 - lo) as usize)
        } else {
            before
        }
    }
}

fn list_members(alive: &Vec<bool>, lo: usize, hi: usize) -> (r: Vec<usize>)
    requires
        lo <= hi <= alive@.len(),
    ensures
        r@ == members(alive@, lo as int, hi as int),
{
    let mut r: Vec<usize> = Vec::new();
    for v in lo..hi
        invariant
            lo <= v <= hi <= alive@.len(),
            r@ == members(alive@, lo as int, v as int),
    {
        if alive[v] {
            r.push(v - lo);
        }
    }
    r
}

fn collect(
    g: &ReviewGraph,
    order: &Vec<usize>,
    best_at: usize,
    best_weight: u128,
    gone_order: Ghost<Seq<int>>,
    w: Ghost<Weighted>,
) -> (det: Detection)
    requires
        g.n_users + g.n_objects <= usize::MAX,
        w@.n == g.n_users + g.n_objects,
        order@.len() == gone_order@.len() == w@.n,
        best_at <= w@.n,
        forall|i: int| 0 <= i < w@.n ==> #[trigger] order@[i] == gone_order@[i],
        forall|i: int| 0 <= i < w@.n ==> (#[trigger] order@[i]) < w@.n,
        best_weight == w@.total(remaining(gone_order@, w@.n, best_at as int)),
        set_size(remaining(gone_order@, w@.n, best_at as int)) == w@.n - best_at,
    ensures
        ({
            let set = remaining(gone_order@, w@.n, best_at as int);
            &&& det.weight == w@.total(set)
            &&& det.size == set_size(set)
            &&& det.users@ == members(set, 0, g.n_users as int)
            &&& det.objects@ == members(set, g.n_users as int, w@.n as int)
        }),
{
    let n = g.n_users + g.n_objects;
    let ghost o = gone_order@;
    let mut alive: Vec<bool> = vec![true; n];
    assert(alive@ =~= remaining(o, n as nat, 0));
    for i in 0..best_at
        invariant
            o == gone_order@,
            n == w@.n,
            best_at <= n,
            order@.len() == o.len() == n,
            forall|i: int| 0 <= i < n ==> #[trigger] order@[i] == o[i],
            forall|i: int| 0 <= i < n ==> (#[trigger] order@[i]) < n,
            alive@ == remaining(o, n as nat, i as int),
    {
        let v = order[i];
        assert(order@[i as int] < n);
        alive.set(v, false);
        proof {
            lemma_remaining_step(n as nat, o, i as int);
        }
    }
    let users = list_members(&alive, 0, g.n_users);
    let objects = list_members(&alive, g.n_users, n);
    Detection { users, objects, weight: best_weight, size: n - best_at }
}

/// Node `v` is one of the users or objects.
pub open spec fn is_listed(users: Seq<usize>, objects: Seq<usize>, nu: int, v: int) -> bool {
    if v < nu {
        users.contains(v as usize)
    } else {
        objects.contains((v - nu) as usize)
    }
}

/// The set of some users and objects.
pub open spec fn set_of(users: Seq<usize>, objects: Seq<usize>, nu: int, n: nat) -> Seq<bool> {
    Seq::new(n, |v: int| is_listed(users, objects, nu, v))
}

fn mark_all(flags: &mut Vec<bool>, list: &[usize], base: usize)
    requires
        forall|i: int| 0 <= i < list@.len() ==> base + #[trigger] list@[i] < old(flags)@.len(),
        old(flags)@.len() <= usize::MAX,
    ensures
        final(flags)@.len() == old(flags)@.len(),
        forall|v: int|
            0 <= v < final(flags)@.len() ==> (#[trigger] final(flags)@[v] <==> old(flags)@[v] || (
            base <= v && list@.contains((v - base) as usize))),
{
    for i in 0..list.len()
        invariant
            forall|i: int| 0 <= i < list@.len() ==> base + #[trigger] list@[i] < old(flags)@.len(),
            old(flags)@.len() <= usize::MAX,
            flags@.len() == old(flags)@.len(),
            forall|v: int|
                0 <= v < flags@.len() ==> (#[trigger] flags@[v] <==> old(flags)@[v] || exists|j: int|
                    0 <= j < i && base + #[trigger] list@[j] == v),
    {
        assert(base + list@[i as int] < flags@.len());
        let ghost was = flags@;
        flags.set(base + list[i], true);
        proof {
            assert forall|v: int| 0 <= v < flags@.len()
                implies (#[trigger] flags@[v] <==> old(flags)@[v] || exists|j: int|
                0 <= j < i + 1 && base + #[trigger] list@[j] == v) by {
                assert(was[v] <==> old(flags)@[v] || exists|j: int|
                    0 <= j < i && base + #[trigger] list@[j] == v);
                if exists|j: int| 0 <= j < i + 1 && base + #[trigger] list@[j] == v {
                    let j = choose|j: int| 0 <= j < i + 1 && base + #[trigger] list@[j] == v;
                    if j < i {
                        assert(base + list@[j] == v);
                    }
                }
                if exists|j: int| 0 <= j < i && base + #[trigger] list@[j] == v {
                    let j = choose|j: int| 0 <= j < i && base + #[trigger] list@[j] == v;
                    assert(base + list@[j] == v);
                }
                if base + list@[i as int] == v {
                    assert(flags@[v]);
                }
            }
        }
    }
    proof {
        assert forall|v: int| 0 <= v < flags@.len()
            implies (#[trigger] flags@[v] <==> old(flags)@[v] || (base <= v
            && list@.contains((v - base) as usize))) by {
            if exists|j: int| 0 <= j < list@.len() && base + #[trigger] list@[j] == v {
                let j = choose|j: int| 0 <= j < list@.len() && base + #[trigger] list@[j] == v;
                assert(list@[j] == (v - base) as usize);
            }
            if base <= v && list@.contains((v - base) as usize) {
                let j = choose|j: int| 0 <= j < list@.len() && list@[j] == (v - base) as usize;
                assert(base + list@[j] == v);
            }
        }
    }
}

/// Which nodes are listed.
fn flags_of(nu: usize, no: usize, users: &[usize], objects: &[usize]) -> (flags: Vec<bool>)
    requires
        nu + no <= usize::MAX,
        forall|i: int| 0 <= i < users@.len() ==> #[trigger] users@[i] < nu,
        forall|i: int| 0 <= i < objects@.len() ==> #[trigger] objects@[i] < no,
    ensures
        flags@ == set_of(users@, objects@, nu as int, (nu + no) as nat),
{
    let mut flags: Vec<bool> = vec![false; nu + no];
    mark_all(&mut flags, users, 0);
    mark_all(&mut flags, objects, nu);
    proof {
        let want = set_of(users@, objects@, nu as int, (nu + no) as nat);
        assert forall|v: int| 0 <= v < nu + no implies #[trigger] flags@[v] == want[v] by {
            if v >= nu && users@.contains(v as usize) {
                let i = choose|i: int| 0 <= i < users@.len() && users@[i] == v as usize;
                assert(users@[i] < nu);
            }
        }
        assert(flags@ =~= want);
    }
    flags
}

/// Deleting a node lowers the weight.
proof fn lemma_total_shrinks(w: Weighted, set: Seq<bool>, v: int)
    requires
        w.well_formed(),
        set.len() == w.n,
        0 <= v < w.n,
    ensures
        w.total(set.update(v, false)) <= w.total(set),
{
    lemma_worth_grows(w, set.update(v, false), set, 0, w.edges.len());
}

/// The weight of an object as a double.
pub open spec fn weight_value(weight: u64) -> int {
    double::rounded(weight * pow2(1016), 1)
}

/// The weights of the first `k` edges that are inside the set, added up one after
/// the other in double precision.
pub open spec fn added(w: Weighted, set: Seq<bool>, k: nat) -> int
    decreases k,
{
    if k == 0 {
        0
    } else if w.inside(set, k - 1) {
        double::total(added(w, set, (k - 1) as nat), weight_value(w.weight[w.edges[k - 1].1 as int]))
    } else {
        added(w, set, (k - 1) as nat)
    }
}

/// A weight is less than 2^6.
proof fn lemma_weight_value(weight: u64)
    ensures
        0 <= weight_value(weight) <= pow2(1080),
{
    let (x, h, g) = (weight as int, pow2(1016) as int, pow2(1080) as int);
    vstd::arithmetic::power2::lemma2_to64();
    lemma_pow2_adds(64, 1016);
    lemma_pow2_pos(1016);
    assert(0 <= x * h <= 0x1_0000_0000_0000_0000 * h) by (nonlinear_arith)
        requires
            0 <= x <= 0x1_0000_0000_0000_0000,
            h > 0,
    ;
    double::lemma_rounded_monotone(x * h, 1, 1 * g, 1);
    double::lemma_rounded_exact(1, 1080, 1);
}

/// The density of some users and objects: the weight inside them per node, in
/// double precision.
pub fn g_value(g: &ReviewGraph, users: &[usize], objects: &[usize], weight: &Vec<u64>) -> (r: Double)
    requires
        g.well_formed(),
        g.edges@.len() <= 0x20_0000_0000_0000,
        g.n_users + g.n_objects <= usize::MAX,
        weight@.len() == g.n_objects,
        forall|i: int| 0 <= i < users@.len() ==> #[trigger] users@[i] < g.n_users,
        forall|i: int| 0 <= i < objects@.len() ==> #[trigger] objects@[i] < g.n_objects,
        0 < users@.len() + objects@.len() <= usize::MAX,
    ensures
        r.normal(),
        r.value() == double::quotient(
            added(
                weighted(g, weight@),
                set_of(users@, objects@, g.n_users as int, (g.n_users + g.n_objects) as nat),
                g.edges@.len(),
            ),
            double::of((users@.len() + objects@.len()) as int),
        ),
{
    let flags = flags_of(g.n_users, g.n_objects, users, objects);
    let ghost w = weighted(g, weight@);
    let mut sum = double::zero();
    assert(0 * pow2(1080) == 0) by (nonlinear_arith);
    for i in 0..g.edges.len()
        invariant
            g.well_formed(),
            g.edges@.len() <= 0x20_0000_0000_0000,
            g.n_users + g.n_objects <= usize::MAX,
            w == weighted(g, weight@),
            w.well_formed(),
            w.n == g.n_users + g.n_objects,
            weight@.len() == g.n_objects,
            flags@.len() == w.n,
            sum.normal(),
            sum.value() == added(w, flags@, i as nat),
            0 <= sum.value() <= i * pow2(1080),
    {
        let (u, o) = g.edges[i];
        assert(g.edges@[i as int].0 < g.n_users && g.edges@[i as int].1 < g.n_objects);
        let x = weight[o];
        proof {
            lemma_weight_value(x);
            double::lemma_total_bound(sum.value(), weight_value(x), i as int, 1080);
            sum.lemma_exponent_of_sum(i as int, 1080);
            let h = pow2(1080) as int;
            assert((i + 1) * h == i * h + h) by (nonlinear_arith);
            lemma_pow2_pos(1080);
        }
        if flags[u] && flags[g.n_users + o] {
            sum = sum.plus(double::at_place(x, 1016));
        }
    }
    let n = Double::from_u64((users.len() + objects.len()) as u64);
    proof {
        double::lemma_of_positive((users@.len() + objects@.len()) as int);
        n.lemma_sign();
        sum.lemma_exponent_of_sum(g.edges@.len() as int, 1080);
    }
    sum.over(n)
}

pub open spec fn in_both(a: Seq<bool>, b: Seq<bool>) -> spec_fn(int) -> bool {
    |v: int| a[v] && b[v]
}

/// How many nodes of the planted block were found, how many were reported, and
/// how many there are. Twice the first by the sum of the others is the
/// F-measure.
pub fn f_measure(det: &Detection, g: &ReviewGraph) -> (r: (usize, usize, usize))
    requires
        g.well_formed(),
        g.n_users + g.n_objects <= usize::MAX,
        forall|i: int| 0 <= i < det.users@.len() ==> #[trigger] det.users@[i] < g.n_users,
        forall|i: int| 0 <= i < det.objects@.len() ==> #[trigger] det.objects@[i] < g.n_objects,
    ensures
        ({
            let n = (g.n_users + g.n_objects) as nat;
            let found = set_of(det.users@, det.objects@, g.n_users as int, n);
            let truth = set_of(g.fraud_users@, g.fraud_objects@, g.n_users as int, n);
            &&& r.0 == math::count(n, in_both(truth, found))
            &&& r.1 == set_size(found)
            &&& r.2 == set_size(truth)
        }),
{
    let found = flags_of(g.n_users, g.n_objects, &det.users, &det.objects);
    let truth = flags_of(g.n_users, g.n_objects, &g.fraud_users, &g.fraud_objects);
    let n = g.n_users + g.n_objects;
    let (mut hit, mut reported, mut planted): (usize, usize, usize) = (0, 0, 0);
    for v in 0..n
        invariant
            found@.len() == n,
            truth@.len() == n,
            hit <= v,
            reported <= v,
            planted <= v,
            hit == math::count(v as nat, in_both(truth@, found@)),
            reported == math::count(v as nat, in_set(found@)),
            planted == math::count(v as nat, in_set(truth@)),
    {
        if truth[v] && found[v] {
            hit += 1;
        }
        if found[v] {
            reported += 1;
        }
        if truth[v] {
            planted += 1;
        }
    }
    (hit, reported, planted)
}

} // verus!
