//! A one-pass streaming greedy partitioner.
//!
//! Vertices come in id order. Vertex `v` goes to the part with the largest
//!
//! ```text
//!   |N(v) and P| * (1 - |P| / C),   C = (1 + slack) * n / k
//! ```
//!
//! where only neighbours that are placed already count. A part that has
//! reached `C` takes no more. Ties go to the lightest part, then to the first. A
//! tie at zero, where a vertex has no neighbour in any part with room yet, goes to
//! the first part with room: spread over the lightest ones, the beginnings of a
//! community would draw it apart, and the cut would be near that of a random
//! placement.

use crate::math;
use crate::sharding::graphs;
use crate::sharding::graphs::Graph;
use crate::sorting;
use vstd::prelude::*;

verus! {

/// What the partition is to be: `k` parts with `slack.0 / slack.1` to spare.
pub ghost struct Plan {
    pub n: int,
    pub k: int,
    pub slack: (int, int),
}

impl Plan {
    /// The capacity of a part is `over / under`.
    pub open spec fn over(self) -> int {
        (self.slack.1 + self.slack.0) * self.n
    }

    pub open spec fn under(self) -> int {
        self.slack.1 * self.k
    }
}

pub open spec fn in_part(assign: Seq<u32>, p: int) -> spec_fn(int) -> bool {
    |u: int| assign[u] == p
}

/// How many of the first `v` vertices are in part `p`.
pub open spec fn part_size(assign: Seq<u32>, v: int, p: int) -> int {
    math::count(v as nat, in_part(assign, p)) as int
}

/// `u` is a neighbour in part `p`.
pub open spec fn is_near(edges: Seq<(u32, u32)>, assign: Seq<u32>, v: int, p: int) -> spec_fn(
    int,
) -> bool {
    |u: int|
        graphs::neighbours(edges, v, edges.len()).contains(u as u32) && assign[u] == p
}

/// How many neighbours of `v` among the vertices before it are in part `p`.
pub open spec fn near_count(edges: Seq<(u32, u32)>, assign: Seq<u32>, v: int, p: int) -> int {
    math::count(v as nat, is_near(edges, assign, v, p)) as int
}

/// The part has reached its capacity.
pub open spec fn is_full(plan: Plan, assign: Seq<u32>, v: int, p: int) -> bool {
    part_size(assign, v, p) * plan.under() >= plan.over()
}

/// The score of a part, times the capacity and its denominator.
pub open spec fn score(plan: Plan, edges: Seq<(u32, u32)>, assign: Seq<u32>, v: int, p: int) -> int {
    near_count(edges, assign, v, p) * (plan.over() - part_size(assign, v, p) * plan.under())
}

/// Part `p` is the place for `v`, rather than part `q`.
pub open spec fn preferred(
    plan: Plan,
    edges: Seq<(u32, u32)>,
    assign: Seq<u32>,
    v: int,
    p: int,
    q: int,
) -> bool {
    let a = score(plan, edges, assign, v, p);
    let b = score(plan, edges, assign, v, q);
    let x = part_size(assign, v, p);
    let y = part_size(assign, v, q);
    is_full(plan, assign, v, q) || a > b || (a == b && a > 0 && x < y) || (a == b && (a == 0 || x == y)
        && p <= q)
}

/// Part `p` is where `v` goes.
pub open spec fn is_choice(
    plan: Plan,
    edges: Seq<(u32, u32)>,
    assign: Seq<u32>,
    v: int,
    p: int,
) -> bool {
    &&& 0 <= p < plan.k
    &&& !is_full(plan, assign, v, p)
    &&& forall|q: int|
        0 <= q < plan.k ==> #[trigger] preferred(plan, edges, assign, v, p, q)
}

spec fn sizes(assign: Seq<u32>, v: int) -> spec_fn(int) -> int {
    |p: int| part_size(assign, v, p)
}

spec fn at_part(p: int) -> spec_fn(int) -> int {
    |q: int|
        if q == p {
            1
        } else {
            0
        }
}

/// The parts hold all the vertices that are placed.
proof fn lemma_sizes_add_up(assign: Seq<u32>, v: int, k: nat)
    requires
        0 <= v <= assign.len(),
        forall|u: int| 0 <= u < v ==> (#[trigger] assign[u]) < k,
    ensures
        math::sum(k, sizes(assign, v)) == v,
    decreases v,
{
    let s = sizes(assign, v);
    if v == 0 {
        math::lemma_sum_single(k, s, 0, 0);
    } else {
        lemma_sizes_add_up(assign, v - 1, k);
        let t = sizes(assign, v - 1);
        let last = assign[v - 1] as int;
        let one = at_part(last);
        assert forall|p: int| 0 <= p < k implies #[trigger] s(p) == t(p) + one(p) by {
            assert(part_size(assign, v, p) == part_size(assign, v - 1, p) + one(p));
        }
        math::lemma_sum_add(k, t, one, s);
        math::lemma_sum_single(k, one, last, 1);
    }
}

/// Where every part is full, as many vertices are placed as all parts take.
proof fn lemma_all_full(assign: Seq<u32>, v: int, k: nat, under: int, over: int)
    requires
        forall|p: int| 0 <= p < k ==> #[trigger] part_size(assign, v, p) * under >= over,
    ensures
        math::sum(k, sizes(assign, v)) * under >= k * over,
    decreases k,
{
    if k > 0 {
        lemma_all_full(assign, v, (k - 1) as nat, under, over);
        let s = math::sum((k - 1) as nat, sizes(assign, v));
        let x = part_size(assign, v, k - 1);
        assert((s + x) * under == s * under + x * under) by (nonlinear_arith);
        assert(k * over == (k - 1) * over + over) by (nonlinear_arith);
    }
}

/// There is always a part with room.
proof fn lemma_room(plan: Plan, assign: Seq<u32>, v: int) -> (p: int)
    requires
        0 <= v < plan.n,
        v <= assign.len(),
        plan.k > 0,
        plan.slack.0 >= 0,
        plan.slack.1 > 0,
        forall|u: int| 0 <= u < v ==> (#[trigger] assign[u]) < plan.k,
    ensures
        0 <= p < plan.k,
        !is_full(plan, assign, v, p),
{
    let k = plan.k as nat;
    if forall|p: int| 0 <= p < k ==> #[trigger] part_size(assign, v, p) * plan.under() >= plan.over() {
        lemma_all_full(assign, v, k, plan.under(), plan.over());
        lemma_sizes_add_up(assign, v, k);
        let d = plan.slack.1;
        let u = plan.slack.0;
        let n = plan.n;
        let w = plan.k;
        assert(v * (d * w) < w * ((d + u) * n)) by (nonlinear_arith)
            requires
                0 <= v < n,
                w > 0,
                d > 0,
                u >= 0,
        ;
        assert(false);
    }
    choose|p: int| 0 <= p < k && !(#[trigger] part_size(assign, v, p) * plan.under() >= plan.over())
}

/// No part exceeds its capacity by a whole vertex: a part of `s` vertices had
/// room when it held `s - 1`.
pub proof fn lemma_balanced(plan: Plan, edges: Seq<(u32, u32)>, assign: Seq<u32>, v: int, p: int)
    requires
        0 <= v <= assign.len(),
        0 <= p < plan.k,
        plan.n >= 0,
        plan.slack.0 >= 0,
        plan.slack.1 > 0,
        forall|u: int|
            0 <= u < v ==> is_choice(plan, edges, assign, u, #[trigger] assign[u] as int),
    ensures
        part_size(assign, v, p) > 0 ==> (part_size(assign, v, p) - 1) * plan.under() < plan.over(),
    decreases v,
{
    if v > 0 {
        lemma_balanced(plan, edges, assign, v - 1, p);
        assert(is_choice(plan, edges, assign, v - 1, assign[v - 1] as int));
    }
}

/// Decisions about `v` look only at the vertices before it.
proof fn lemma_looks_back(
    plan: Plan,
    edges: Seq<(u32, u32)>,
    a: Seq<u32>,
    b: Seq<u32>,
    v: int,
    p: int,
)
    requires
        0 <= v <= a.len(),
        v <= b.len(),
        forall|u: int| 0 <= u < v ==> #[trigger] a[u] == b[u],
        is_choice(plan, edges, a, v, p),
    ensures
        is_choice(plan, edges, b, v, p),
{
    assert forall|q: int| #[trigger] part_size(a, v, q) == part_size(b, v, q) by {
        math::lemma_count_same(v as nat, in_part(a, q), in_part(b, q));
    }
    assert forall|q: int| #[trigger] near_count(edges, a, v, q) == near_count(edges, b, v, q) by {
        math::lemma_count_same(v as nat, is_near(edges, a, v, q), is_near(edges, b, v, q));
    }
    assert forall|q: int| 0 <= q < plan.k implies #[trigger] preferred(plan, edges, b, v, p, q) by {
        assert(preferred(plan, edges, a, v, p, q));
        assert(part_size(a, v, q) == part_size(b, v, q));
        assert(part_size(a, v, p) == part_size(b, v, p));
        assert(near_count(edges, a, v, q) == near_count(edges, b, v, q));
        assert(near_count(edges, a, v, p) == near_count(edges, b, v, p));
    }
    assert(part_size(a, v, p) == part_size(b, v, p));
}

spec fn near_among(list: Seq<u32>, j: int, assign: Seq<u32>, p: int) -> spec_fn(int) -> bool {
    |u: int| (exists|i: int| 0 <= i < j && #[trigger] list[i] == u) && assign[u] == p
}

spec fn just(u: int, p: int, q: int) -> spec_fn(int) -> bool {
    |w: int| w == u && p == q
}

/// How many placed neighbours each part has.
fn count_near(
    list: &Vec<u32>,
    assign: &Vec<u32>,
    k: u32,
    edges: Ghost<Seq<(u32, u32)>>,
) -> (near: Vec<u64>)
    requires
        list@ == graphs::neighbours(edges@, assign@.len() as int, edges@.len()),
        forall|u: int| 0 <= u < assign@.len() ==> (#[trigger] assign@[u]) < k,
        assign@.len() <= u32::MAX,
    ensures
        near@.len() == k,
        forall|p: int|
            0 <= p < k ==> #[trigger] near@[p] == near_count(
                edges@,
                assign@,
                assign@.len() as int,
                p,
            ),
{
    let v = assign.len();
    let distinct = sorting::sorted_distinct(list);
    let ghost d = distinct@;
    let mut near: Vec<u64> = vec![0; k as usize];
    proof {
        assert forall|p: int| 0 <= p < k
            implies #[trigger] near@[p] == math::count(v as nat, near_among(d, 0, assign@, p)) by {
            math::lemma_count_single(v as nat, near_among(d, 0, assign@, p), 0, false);
        }
    }
    for i in 0..distinct.len()
        invariant
            v == assign@.len(),
            v <= u32::MAX,
            d == distinct@,
            sorting::is_strict(d),
            near@.len() == k,
            forall|u: int| 0 <= u < v ==> (#[trigger] assign@[u]) < k,
            forall|p: int|
                0 <= p < k ==> #[trigger] near@[p] == math::count(
                    v as nat,
                    near_among(d, i as int, assign@, p),
                ),
    {
        let u = distinct[i] as usize;
        let ghost near0 = near@;
        if u < v {
            let p = assign[u];
            proof {
                math::lemma_count_le(v as nat, near_among(d, i as int, assign@, p as int));
            }
            let x = near[p as usize] + 1;
            near.set(p as usize, x);
        }
        proof {
            assert forall|q: int| 0 <= q < k implies #[trigger] near@[q] == math::count(
                v as nat,
                near_among(d, i + 1, assign@, q),
            ) by {
                let p = if u < v {
                    assign@[u as int] as int
                } else {
                    -1
                };
                let was = near_among(d, i as int, assign@, q);
                let now = near_among(d, i + 1, assign@, q);
                let one = just(u as int, p, q);
                assert(near0[q] == math::count(v as nat, was));
                assert forall|w: int| 0 <= w < v
                    implies #[trigger] now(w) == (was(w) || one(w)) && !(was(w) && one(w)) by {
                    if exists|j: int| 0 <= j < i + 1 && #[trigger] d[j] == w {
                        let j = choose|j: int| 0 <= j < i + 1 && #[trigger] d[j] == w;
                        if j < i {
                            assert(d[j] == w);
                        }
                    }
                    if exists|j: int| 0 <= j < i && #[trigger] d[j] == w {
                        let j = choose|j: int| 0 <= j < i && #[trigger] d[j] == w;
                        assert(d[j] == w);
                        assert(sorting::Keyed::key(&d[j]) < sorting::Keyed::key(&d[i as int]));
                    }
                    if w == u {
                        assert(d[i as int] == w);
                    }
                }
                math::lemma_count_split(v as nat, now, was, one);
                math::lemma_count_single(v as nat, one, u as int, p == q);
            }
        }
    }
    proof {
        assert forall|p: int| 0 <= p < k
            implies #[trigger] near@[p] == near_count(edges@, assign@, v as int, p) by {
            let a = near_among(d, d.len() as int, assign@, p);
            let b = is_near(edges@, assign@, v as int, p);
            assert forall|u: int| 0 <= u < v implies #[trigger] a(u) == b(u) by {
                if exists|i: int| 0 <= i < d.len() && #[trigger] d[i] == u {
                    let i = choose|i: int| 0 <= i < d.len() && #[trigger] d[i] == u;
                    assert(d.contains(d[i]));
                    assert(list@.contains(u as u32));
                }
                if list@.contains(u as u32) {
                    assert(d.contains(u as u32));
                    let i = choose|i: int| 0 <= i < d.len() && d[i] == u as u32;
                    assert(d[i] == u);
                }
            }
            math::lemma_count_same(v as nat, a, b);
        }
    }
    near
}

/// The part of every vertex. The slack is a fraction, `slack_num / slack_den`.
pub fn greedy_partition(g: &Graph, k: u32, slack_num: u32, slack_den: u32) -> (assign: Vec<u32>)
    requires
        g.in_range(),
        g.n <= u32::MAX,
        g.n > 0 ==> k > 0,
        slack_den > 0,
    ensures
        assign@.len() == g.n,
        forall|v: int|
            0 <= v < g.n ==> is_choice(
                (Plan { n: g.n as int, k: k as int, slack: (slack_num as int, slack_den as int) }),
                g.edges@,
                assign@,
                v,
                #[trigger] assign@[v] as int,
            ),
{
    let ghost plan = Plan {
        n: g.n as int,
        k: k as int,
        slack: (slack_num as int, slack_den as int),
    };
    let adj = g.adjacency();
    let mut assign: Vec<u32> = Vec::new();
    let mut size: Vec<u64> = vec![0; k as usize];
    proof {
        let a = slack_num as int;
        let b = slack_den as int;
        let n = g.n as int;
        let w = k as int;
        assert(0 <= (b + a) * n <= 0x1_ffff_ffff * 0xffff_ffff) by (nonlinear_arith)
            requires
                0 <= a <= 0xffff_ffff,
                0 <= b <= 0xffff_ffff,
                0 <= n <= 0xffff_ffff,
        ;
        assert(0 <= b * w <= 0xffff_ffff * 0xffff_ffff) by (nonlinear_arith)
            requires
                0 <= b <= 0xffff_ffff,
                0 <= w <= 0xffff_ffff,
        ;
    }
    let over: u128 = (slack_den as u128 + slack_num as u128) * g.n as u128;
    let under: u128 = slack_den as u128 * k as u128;
    for v in 0..g.n
        invariant
            g.n <= u32::MAX,
            g.n > 0 ==> k > 0,
            slack_den > 0,
            plan == (Plan {
                n: g.n as int,
                k: k as int,
                slack: (slack_num as int, slack_den as int),
            }),
            over == plan.over(),
            under == plan.under(),
            over <= 0x1_ffff_ffff * 0xffff_ffff,
            under <= 0xffff_ffff * 0xffff_ffff,
            adj@.len() == g.n,
            forall|v: int|
                0 <= v < g.n ==> (#[trigger] adj@[v])@ == graphs::neighbours(
                    g.edges@,
                    v,
                    g.edges@.len(),
                ),
            assign@.len() == v,
            size@.len() == k,
            forall|p: int| 0 <= p < k ==> #[trigger] size@[p] == part_size(assign@, v as int, p),
            forall|u: int|
                0 <= u < v ==> is_choice(plan, g.edges@, assign@, u, #[trigger] assign@[u] as int),
            forall|u: int| 0 <= u < v ==> (#[trigger] assign@[u]) < k,
    {
        let near = count_near(&adj[v], &assign, k, Ghost(g.edges@));
        let best = choose_part(&near, &size, over, under, Ghost(plan), Ghost(g.edges@), Ghost(assign@));
        let ghost before = assign@;
        let n = size[best as usize] + 1;
        size.set(best as usize, n);
        assign.push(best);
        proof {
            assert forall|u: int| 0 <= u < v + 1 implies is_choice(
                plan,
                g.edges@,
                assign@,
                u,
                #[trigger] assign@[u] as int,
            ) by {
                if u < v {
                    assert(is_choice(plan, g.edges@, before, u, before[u] as int));
                }
                lemma_looks_back(plan, g.edges@, before, assign@, u, assign@[u] as int);
            }
            assert forall|p: int| 0 <= p < k
                implies #[trigger] size@[p] == part_size(assign@, v + 1, p) by {
                math::lemma_count_same(v as nat, in_part(before, p), in_part(assign@, p));
            }
        }
    }
    assign
}

fn choose_part(
    near: &Vec<u64>,
    size: &Vec<u64>,
    over: u128,
    under: u128,
    plan: Ghost<Plan>,
    edges: Ghost<Seq<(u32, u32)>>,
    assign: Ghost<Seq<u32>>,
) -> (best: u32)
    requires
        plan@.n <= u32::MAX,
        0 < plan@.k <= u32::MAX,
        plan@.slack.0 >= 0,
        plan@.slack.1 > 0,
        over == plan@.over(),
        under == plan@.under(),
        over <= 0x1_ffff_ffff * 0xffff_ffff,
        under <= 0xffff_ffff * 0xffff_ffff,
        assign@.len() < plan@.n,
        near@.len() == plan@.k,
        size@.len() == plan@.k,
        forall|u: int| 0 <= u < assign@.len() ==> (#[trigger] assign@[u]) < plan@.k,
        forall|p: int|
            0 <= p < plan@.k ==> #[trigger] near@[p] == near_count(
                edges@,
                assign@,
                assign@.len() as int,
                p,
            ),
        forall|p: int|
            0 <= p < plan@.k ==> #[trigger] size@[p] == part_size(
                assign@,
                assign@.len() as int,
                p,
            ),
    ensures
        is_choice(plan@, edges@, assign@, assign@.len() as int, best as int),
        size@[best as int] < assign@.len() + 1,
{
    let ghost v = assign@.len() as int;
    let ghost pl = plan@;
    let k = near.len();
    let mut best: Option<(u32, u128)> = None;
    for p in 0..k
        invariant
            v == assign@.len(),
            v < pl.n <= u32::MAX,
            pl == plan@,
            k == pl.k <= u32::MAX,
            near@.len() == k,
            size@.len() == k,
            over == pl.over(),
            under == pl.under(),
            over <= 0x1_ffff_ffff * 0xffff_ffff,
            under <= 0xffff_ffff * 0xffff_ffff,
            forall|p: int|
                0 <= p < k ==> #[trigger] near@[p] == near_count(edges@, assign@, v, p),
            forall|p: int| 0 <= p < k ==> #[trigger] size@[p] == part_size(assign@, v, p),
            best is None ==> forall|q: int| 0 <= q < p ==> #[trigger] is_full(pl, assign@, v, q),
            best matches Some((b, s)) ==> {
                &&& b < p
                &&& !is_full(pl, assign@, v, b as int)
                &&& s == score(pl, edges@, assign@, v, b as int)
                &&& forall|q: int|
                    0 <= q < p ==> #[trigger] preferred(pl, edges@, assign@, v, b as int, q)
            },
    {
        let n = near[p];
        let z = size[p];
        proof {
            assert(near@[p as int] == near_count(edges@, assign@, v, p as int));
            assert(size@[p as int] == part_size(assign@, v, p as int));
            math::lemma_count_le(v as nat, is_near(edges@, assign@, v, p as int));
            math::lemma_count_le(v as nat, in_part(assign@, p as int));
            let zi = z as int;
            let ui = under as int;
            assert(0 <= zi * ui <= 0xffff_ffff * (0xffff_ffff * 0xffff_ffff)) by (nonlinear_arith)
                requires
                    0 <= zi <= 0xffff_ffff,
                    0 <= ui <= 0xffff_ffff * 0xffff_ffff,
            ;
        }
        let used = z as u128 * under;
        if used < over {
            let room = over - used;
            proof {
                let ni = n as int;
                let ri = room as int;
                assert(0 <= ni * ri <= 0xffff_ffff * (0x1_ffff_ffff * 0xffff_ffff)) by (nonlinear_arith)
                    requires
                        0 <= ni <= 0xffff_ffff,
                        0 <= ri <= 0x1_ffff_ffff * 0xffff_ffff,
                ;
            }
            let s = n as u128 * room;
            assert(s == score(pl, edges@, assign@, v, p as int));
            assert(!is_full(pl, assign@, v, p as int));
            let take = match best {
                None => true,
                Some((b, t)) => {
                    assert(size@[b as int] == part_size(assign@, v, b as int));
                    s > t || (s == t && s > 0 && z < size[b as usize])
                },
            };
            if take {
                proof {
                    assert forall|q: int| 0 <= q < p + 1
                        implies #[trigger] preferred(pl, edges@, assign@, v, p as int, q) by {
                        if q < p {
                            match best {
                                None => {
                                    assert(is_full(pl, assign@, v, q));
                                },
                                Some((b, t)) => {
                                    assert(preferred(pl, edges@, assign@, v, b as int, q));
                                },
                            }
                        }
                    }
                }
                best = Some((p as u32, s));
            }
        } else {
            assert(is_full(pl, assign@, v, p as int));
        }
    }
    match best {
        Some((b, _)) => {
            proof {
                math::lemma_count_le(v as nat, in_part(assign@, b as int));
                assert(size@[b as int] == part_size(assign@, v, b as int));
            }
            b
        },
        None => {
            proof {
                let p = lemma_room(pl, assign@, v);
                assert(is_full(pl, assign@, v, p));
            }
            0
        },
    }
}

} // verus!
