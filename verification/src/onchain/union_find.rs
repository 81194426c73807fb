//! Union-find over dense ids, with path halving and union by size.

use crate::graph;
use crate::math;
use vstd::prelude::*;

verus! {

/// The pointer forest. Each element's class is named by the root of its tree.
pub struct UnionFind {
    parent: Vec<u32>,
    size: Vec<u32>,
    class: Ghost<Seq<u32>>,
}

/// Labels number the classes in order of first appearance: each is at most one
/// more than the largest before it.
pub open spec fn first_seen_order(labels: Seq<u32>) -> bool {
    forall|a: int|
        0 <= a < labels.len() ==> labels[a] == 0 || exists|b: int|
            0 <= b < a && (#[trigger] labels[b]) + 1 >= #[trigger] labels[a]
}

spec fn in_class(class: Seq<u32>, r: int) -> spec_fn(int) -> bool {
    |x: int| class[x] == r
}

/// How many elements are in class `r`.
spec fn class_size(class: Seq<u32>, r: int) -> nat {
    math::count(class.len(), in_class(class, r))
}

impl UnionFind {
    /// How many elements there are.
    pub closed spec fn len(&self) -> nat {
        self.parent@.len()
    }

    /// The representative of the class of `x`.
    pub closed spec fn rep(&self, x: u32) -> u32 {
        self.class@[x as int]
    }

    /// `x` and `y` are in one class.
    pub open spec fn same(&self, x: u32, y: u32) -> bool {
        self.rep(x) == self.rep(y)
    }

    pub closed spec fn well_formed(&self) -> bool {
        let n = self.parent@.len();
        let c = self.class@;
        &&& n <= u32::MAX
        &&& self.size@.len() == n
        &&& c.len() == n
        &&& forall|x: int| 0 <= x < n ==> #[trigger] self.parent@[x] < n
        &&& forall|x: int| 0 <= x < n ==> #[trigger] c[x] < n
        &&& forall|x: int| 0 <= x < n ==> c[#[trigger] self.parent@[x] as int] == c[x]
        &&& forall|x: int| 0 <= x < n && #[trigger] self.parent@[x] == x ==> c[x] == x
        &&& forall|x: int|
            0 <= x < n && #[trigger] self.parent@[x] != x ==> self.size@[x]
                < self.size@[self.parent@[x] as int]
        &&& forall|x: int| 0 <= x < n ==> c[(#[trigger] c[x]) as int] == c[x]
        &&& forall|x: int| 0 <= x < n && #[trigger] c[x] == x ==> self.parent@[x] == x
        &&& forall|x: int| 0 <= x < n ==> 1 <= #[trigger] self.size@[x] <= n
        &&& forall|r: int|
            0 <= r < n && #[trigger] c[r] == r ==> self.size@[r] == class_size(c, r)
    }

    /// `n` singletons.
    pub fn new(n: usize) -> (uf: UnionFind)
        requires
            n <= u32::MAX,
        ensures
            uf.well_formed(),
            uf.len() == n,
            forall|x: u32| x < n ==> #[trigger] uf.rep(x) == x,
    {
        let mut parent: Vec<u32> = Vec::new();
        for i in 0..n
            invariant
                n <= u32::MAX,
                parent@.len() == i,
                forall|j: int| 0 <= j < i ==> #[trigger] parent@[j] == j,
        {
            parent.push(i as u32);
        }
        let size: Vec<u32> = vec![1; n];
        let ghost class = parent@;
        let uf = UnionFind { parent, size, class: Ghost(class) };
        proof {
            assert forall|r: int| 0 <= r < n && #[trigger] uf.class@[r] == r implies uf.size@[r]
                == class_size(uf.class@, r) by {
                let p = in_class(uf.class@, r);
                assert forall|x: int| 0 <= x < n implies (#[trigger] p(x) <==> true && x == r) by {}
                math::lemma_count_single(n as nat, p, r, true);
            }
        }
        uf
    }

    /// The representative of `x`, halving the path to it on the way.
    pub fn find(&mut self, x: u32) -> (r: u32)
        requires
            old(self).well_formed(),
            x < old(self).len(),
        ensures
            final(self).well_formed(),
            final(self).len() == old(self).len(),
            forall|y: u32| #[trigger] final(self).rep(y) == old(self).rep(y),
            r == old(self).rep(x),
            r < old(self).len(),
    {
        let mut x0 = x;
        let ghost c = self.class@;
        let ghost n = self.parent@.len();
        while self.parent[x0 as usize] != x0
            invariant
                self.well_formed(),
                self.class@ == c,
                self.parent@.len() == n,
                x0 < n,
                x < n,
                c[x0 as int] == c[x as int],
            decreases n - self.size@[x0 as int],
        {
            let p = self.parent[x0 as usize];
            let g = self.parent[p as usize];
            proof {
                assert(c[self.parent@[x0 as int] as int] == c[x0 as int]);
                assert(c[self.parent@[p as int] as int] == c[p as int]);
                assert(self.size@[x0 as int] < self.size@[p as int]);
                if g != p {
                    assert(self.size@[p as int] < self.size@[g as int]);
                }
                assert(self.size@[g as int] <= n);
            }
            let ghost before = *self;
            self.parent.set(x0 as usize, g);
            proof {
                assert forall|y: int| 0 <= y < n
                    implies c[#[trigger] self.parent@[y] as int] == c[y] by {
                    if y != x0 {
                        assert(c[before.parent@[y] as int] == c[y]);
                    }
                }
                assert forall|y: int| 0 <= y < n && #[trigger] self.parent@[y] != y
                    implies self.size@[y]
                    < self.size@[self.parent@[y] as int] by {
                    if y != x0 {
                        assert(before.parent@[y] != y);
                    }
                }
                assert forall|y: int| 0 <= y < n && #[trigger] c[y] == y
                    implies self.parent@[y] == y by {
                    assert(before.parent@[y] == y);
                }
                assert forall|y: int| 0 <= y < n && #[trigger] self.parent@[y] == y
                    implies c[y] == y by {
                    if y != x0 {
                        assert(before.parent@[y] == y);
                    }
                }
                assert(self.well_formed());
            }
            x0 = g;
        }
        x0
    }

    /// Merges the classes of `a` and `b`.
    pub fn union(&mut self, a: u32, b: u32)
        requires
            old(self).well_formed(),
            a < old(self).len(),
            b < old(self).len(),
        ensures
            final(self).well_formed(),
            final(self).len() == old(self).len(),
            forall|x: u32, y: u32|
                x < old(self).len() && y < old(self).len() ==> (#[trigger] final(self).same(x, y)
                    <==> old(self).same(x, y) || (old(self).same(x, a) && old(self).same(b, y)) || (
                old(self).same(x, b) && old(self).same(a, y))),
    {
        let mut ra = self.find(a);
        let mut rb = self.find(b);
        if ra == rb {
            return;
        }
        if self.size[ra as usize] < self.size[rb as usize] {
            let t = ra;
            ra = rb;
            rb = t;
        }
        let ghost before = *self;
        let ghost n = self.parent@.len();
        let ghost c = self.class@;
        let ghost c2 = Seq::new(
            n,
            |x: int|
                if c[x] == rb {
                    ra
                } else {
                    c[x]
                },
        );
        proof {
            assert(self.rep(a) == old(self).rep(a) && self.rep(b) == old(self).rep(b));
            assert(c[c[a as int] as int] == c[a as int]);
            assert(c[c[b as int] as int] == c[b as int]);
            assert(c[ra as int] == ra && c[rb as int] == rb);
            lemma_merged_size(c, c2, ra as int, rb as int);
            assert(self.size@[ra as int] == class_size(c, ra as int));
            assert(self.size@[rb as int] == class_size(c, rb as int));
        }
        let s = self.size[ra as usize] + self.size[rb as usize];
        self.parent.set(rb as usize, ra);
        self.size.set(ra as usize, s);
        proof {
            self.class@ = c2;
            assert forall|x: int| 0 <= x < n implies c2[#[trigger] self.parent@[x] as int] == c2[x] by {
                if x != rb {
                    assert(c[before.parent@[x] as int] == c[x]);
                }
            }
            assert forall|x: int| 0 <= x < n && #[trigger] self.parent@[x] == x implies c2[x] == x by {
                if x != rb {
                    assert(before.parent@[x] == x);
                }
            }
            assert forall|x: int| 0 <= x < n && #[trigger] self.parent@[x] != x implies self.size@[x]
                < self.size@[self.parent@[x] as int] by {
                if x != rb {
                    assert(before.parent@[x] != x);
                    assert(before.size@[x] < before.size@[before.parent@[x] as int]);
                    assert(x != ra) by {
                        assert(c[ra as int] == ra);
                    }
                }
            }
            assert forall|x: int| 0 <= x < n implies c2[(#[trigger] c2[x]) as int] == c2[x] by {
                assert(c[c[x] as int] == c[x]);
            }
            assert forall|x: int| 0 <= x < n && #[trigger] c2[x] == x implies self.parent@[x] == x by {
                if x == ra {
                    assert(c[x] == x);
                } else {
                    assert(c[x] == x);
                }
                assert(x != rb);
                assert(before.parent@[x] == x);
            }
            assert forall|r: int| 0 <= r < n && #[trigger] c2[r] == r
                implies self.size@[r] == class_size(
                c2,
                r,
            ) by {
                if r != ra {
                    assert(c[r] == r);
                    assert(r != rb);
                    assert(before.size@[r] == class_size(c, r));
                }
            }
            assert(self.well_formed());
            assert forall|x: u32, y: u32| x < n && y < n implies (#[trigger] self.same(x, y) <==> old(
                self,
            ).same(x, y) || (old(self).same(x, a) && old(self).same(b, y)) || (old(self).same(x, b)
                && old(self).same(a, y))) by {
                assert(before.rep(x) == old(self).rep(x) && before.rep(y) == old(self).rep(y));
                assert(c2[x as int] == self.rep(x) && c2[y as int] == self.rep(y));
            }
        }
    }

    /// Each element's class number, in order of first appearance.
    pub fn labels(&mut self) -> (r: Vec<u32>)
        requires
            old(self).well_formed(),
        ensures
            final(self).well_formed(),
            final(self).len() == old(self).len(),
            forall|y: u32| #[trigger] final(self).rep(y) == old(self).rep(y),
            r@.len() == old(self).len(),
            forall|x: u32, y: u32|
                x < r@.len() && y < r@.len() ==> (r@[x as int] == r@[y as int] <==> #[trigger] old(
                    self,
                ).same(x, y)),
            first_seen_order(r@),
    {
        let n = self.parent.len();
        let mut number: Vec<Option<u32>> = Vec::new();
        for i in 0..n
            invariant
                number@.len() == i,
                forall|j: int| 0 <= j < i ==> #[trigger] number@[j] is None,
        {
            number.push(None);
        }
        let mut r: Vec<u32> = Vec::new();
        let mut next: u32 = 0;
        for a in 0..n
            invariant
                old(self).well_formed(),
                old(self).len() == n,
                self.well_formed(),
                self.len() == n,
                n <= u32::MAX,
                number@.len() == n,
                r@.len() == a,
                next <= a,
                forall|y: u32| #[trigger] self.rep(y) == old(self).rep(y),
                forall|x: u32|
                    x < a ==> number@[#[trigger] old(self).rep(x) as int] == Some(r@[x as int]),
                forall|p: int| 0 <= p < n && #[trigger] number@[p] is Some ==> number@[p]->0 < next,
                forall|p: int|
                    0 <= p < n && #[trigger] number@[p] is Some ==> exists|x: u32|
                        x < a && #[trigger] old(self).rep(x) == p,
                forall|p: int, q: int|
                    0 <= p < n && 0 <= q < n && p != q && #[trigger] number@[p] is Some
                        && #[trigger] number@[q] is Some ==> number@[p] != number@[q],
                next > 0 ==> exists|b: int| 0 <= b < a && (#[trigger] r@[b]) + 1 == next,
                first_seen_order(r@),
        {
            let ghost r0 = r@;
            let ghost n0 = number@;
            let root = self.find(a as u32);
            proof {
                assert(root == old(self).rep(a as u32));
            }
            let label = match number[root as usize] {
                Some(l) => l,
                None => {
                    number.set(root as usize, Some(next));
                    next = next + 1;
                    next - 1
                },
            };
            r.push(label);
            proof {
                assert forall|x: u32| x < a + 1
                    implies number@[#[trigger] old(self).rep(x) as int] == Some(r@[x as int]) by {
                    if x < a {
                        assert(n0[old(self).rep(x) as int] == Some(r0[x as int]));
                    }
                }
                assert forall|p: int| 0 <= p < n && #[trigger] number@[p] is Some implies exists|x: u32|
                        x < a + 1 && #[trigger] old(self).rep(x) == p by {
                    if p == root {
                        assert(old(self).rep(a as u32) == p);
                    } else {
                        assert(n0[p] is Some);
                        let x = choose|x: u32| x < a && #[trigger] old(self).rep(x) == p;
                        assert(old(self).rep(x) == p);
                    }
                }
                if n0[root as int] is None {
                    assert(r@[a as int] + 1 == next);
                    if label > 0 {
                        let b = choose|b: int| 0 <= b < a && (#[trigger] r0[b]) + 1 == label;
                        assert(r@[b] + 1 >= r@[a as int]);
                    }
                } else {
                    if next > 0 {
                        let b = choose|b: int| 0 <= b < a && (#[trigger] r0[b]) + 1 == next;
                        assert(r@[b] + 1 == next);
                        assert(r@[b] + 1 >= r@[a as int]);
                    }
                }
                assert forall|i: int| 0 <= i < r@.len() implies r@[i] == 0 || exists|b: int|
                    0 <= b < i && (#[trigger] r@[b]) + 1 >= #[trigger] r@[i] by {
                    if i < a {
                        assert(r0[i] == r@[i]);
                        if r@[i] != 0 {
                            let b = choose|b: int| 0 <= b < i && (#[trigger] r0[b]) + 1 >= r0[i];
                            assert(r@[b] == r0[b]);
                        }
                    }
                }
            }
        }
        proof {
            assert forall|x: u32, y: u32| x < r@.len() && y < r@.len()
                implies (r@[x as int] == r@[y as int] <==> #[trigger] old(
                self,
            ).same(x, y)) by {
                assert(number@[old(self).rep(x) as int] == Some(r@[x as int]));
                assert(number@[old(self).rep(y) as int] == Some(r@[y as int]));
                assert(old(self).class@[x as int] < n);
                assert(old(self).class@[y as int] < n);
            }
        }
        r
    }
}

/// Merging adds the two sizes and leaves the others.
proof fn lemma_merged_size(c: Seq<u32>, c2: Seq<u32>, ra: int, rb: int)
    requires
        ra != rb,
        c2.len() == c.len(),
        forall|x: int|
            0 <= x < c.len() ==> #[trigger] c2[x] == (if c[x] == rb {
                ra
            } else {
                c[x] as int
            }),
    ensures
        class_size(c2, ra) == class_size(c, ra) + class_size(c, rb),
        class_size(c2, ra) <= c.len(),
        forall|r: int| r != ra && r != rb ==> #[trigger] class_size(c2, r) == class_size(c, r),
{
    let n = c.len();
    let pa = in_class(c, ra);
    let pb = in_class(c, rb);
    let pu = in_class(c2, ra);
    assert forall|x: int| 0 <= x < n implies #[trigger] pu(x) == (pa(x) || pb(x)) && !(pa(x)
        && pb(x)) by {
        assert(c2[x] == (if c[x] == rb {
            ra
        } else {
            c[x] as int
        }));
    }
    math::lemma_count_split(n, pu, pa, pb);
    math::lemma_count_le(n, pu);
    assert forall|r: int| r != ra && r != rb
        implies #[trigger] class_size(c2, r) == class_size(c, r) by {
        let pr = in_class(c2, r);
        let po = in_class(c, r);
        assert forall|x: int| 0 <= x < n implies #[trigger] pr(x) == po(x) by {
            assert(c2[x] == (if c[x] == rb {
                ra
            } else {
                c[x] as int
            }));
        }
        math::lemma_count_same(n, pr, po);
    }
}

/// Two elements are linked by the pairs: some chain of pairs leads from one to
/// the other.
pub open spec fn pair_rel(pairs: Seq<(u32, u32)>) -> graph::Edges {
    |a: usize, b: usize|
        exists|i: int|
            0 <= i < pairs.len() && ((#[trigger] pairs[i]).0 == a && pairs[i].1 == b || pairs[i].0
                == b && pairs[i].1 == a)
}

/// One more pair links what was linked, and what was linked to one of its ends
/// with what was linked to the other.
pub proof fn lemma_one_more_pair(pairs: Seq<(u32, u32)>, a: u32, b: u32, x: usize, y: usize)
    ensures
        graph::reach(pair_rel(pairs.push((a, b))), x, y) <==> graph::reach(pair_rel(pairs), x, y)
            || (graph::reach(pair_rel(pairs), x, a as usize) && graph::reach(
            pair_rel(pairs),
            b as usize,
            y,
        )) || (graph::reach(pair_rel(pairs), x, b as usize) && graph::reach(
            pair_rel(pairs),
            a as usize,
            y,
        )),
{
    let e = pair_rel(pairs);
    let all = pairs.push((a, b));
    let f = pair_rel(all);
    let (a1, b1) = (a as usize, b as usize);
    assert forall|u: usize, v: usize| #[trigger] e(u, v) implies f(u, v) by {
        let i = choose|i: int|
            0 <= i < pairs.len() && ((#[trigger] pairs[i]).0 == u && pairs[i].1 == v || pairs[i].0
                == v && pairs[i].1 == u);
        assert(all[i] == pairs[i]);
    }
    assert(all[pairs.len() as int] == (a, b));
    assert(f(a1, b1) && f(b1, a1));
    assert forall|u: usize, v: usize| #[trigger] f(u, v) implies e(u, v) || (u == a1 && v == b1) || (
    u == b1 && v == a1) by {
        let i = choose|i: int|
            0 <= i < all.len() && ((#[trigger] all[i]).0 == u && all[i].1 == v || all[i].0 == v
                && all[i].1 == u);
        if i < pairs.len() {
            assert(pairs[i] == all[i]);
        }
    }
    let right = graph::reach(e, x, y) || (graph::reach(e, x, a1) && graph::reach(e, b1, y)) || (
    graph::reach(e, x, b1) && graph::reach(e, a1, y));
    if right {
        if graph::reach(e, x, y) {
            graph::lemma_reach_more(e, f, x, y);
        } else if graph::reach(e, x, a1) && graph::reach(e, b1, y) {
            graph::lemma_reach_more(e, f, x, a1);
            graph::lemma_reach_more(e, f, b1, y);
            graph::lemma_reach_edge(f, a1, b1);
            graph::lemma_reach_trans(f, x, a1, b1);
            graph::lemma_reach_trans(f, x, b1, y);
        } else {
            graph::lemma_reach_more(e, f, x, b1);
            graph::lemma_reach_more(e, f, a1, y);
            graph::lemma_reach_edge(f, b1, a1);
            graph::lemma_reach_trans(f, x, b1, a1);
            graph::lemma_reach_trans(f, x, a1, y);
        }
    }
    if graph::reach(f, x, y) {
        let p = choose|p: Seq<usize>| #[trigger] graph::walks(f, p, x, y);
        let inside = |v: usize|
            graph::reach(e, x, v) || (graph::reach(e, x, a1) && graph::reach(e, b1, v)) || (
            graph::reach(e, x, b1) && graph::reach(e, a1, v));
        graph::lemma_reach_self(e, x);
        graph::lemma_reach_self(e, a1);
        graph::lemma_reach_self(e, b1);
        assert forall|u: usize, v: usize| inside(u) && #[trigger] f(u, v) implies inside(v) by {
            if e(u, v) {
                graph::lemma_reach_edge(e, u, v);
                if graph::reach(e, x, u) {
                    graph::lemma_reach_trans(e, x, u, v);
                }
                if graph::reach(e, b1, u) {
                    graph::lemma_reach_trans(e, b1, u, v);
                }
                if graph::reach(e, a1, u) {
                    graph::lemma_reach_trans(e, a1, u, v);
                }
            }
        }
        graph::lemma_closed_under_walks(f, inside, p, x, y);
    }
}

/// The partition that a list of merges makes depends on the set of its pairs
/// only, not on their order.
pub proof fn lemma_order_independent(
    p: Seq<(u32, u32)>,
    q: Seq<(u32, u32)>,
    x: usize,
    y: usize,
)
    requires
        forall|pair: (u32, u32)| #[trigger] p.contains(pair) <==> q.contains(pair),
    ensures
        graph::reach(pair_rel(p), x, y) == graph::reach(pair_rel(q), x, y),
{
    assert forall|a: usize, b: usize| #[trigger] pair_rel(p)(a, b) == pair_rel(q)(a, b) by {
        if pair_rel(p)(a, b) {
            let i = choose|i: int|
                0 <= i < p.len() && ((#[trigger] p[i]).0 == a && p[i].1 == b || p[i].0 == b
                    && p[i].1 == a);
            assert(p.contains(p[i]));
            assert(q.contains(p[i]));
            let j = choose|j: int| 0 <= j < q.len() && q[j] == p[i];
            assert(q[j] == p[i]);
        }
        if pair_rel(q)(a, b) {
            let i = choose|i: int|
                0 <= i < q.len() && ((#[trigger] q[i]).0 == a && q[i].1 == b || q[i].0 == b
                    && q[i].1 == a);
            assert(q.contains(q[i]));
            assert(p.contains(q[i]));
            let j = choose|j: int| 0 <= j < p.len() && p[j] == q[i];
            assert(p[j] == q[i]);
        }
    }
    graph::lemma_reach_same(pair_rel(p), pair_rel(q), x, y);
}

} // verus!
