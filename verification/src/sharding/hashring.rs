//! A consistent-hash ring with virtual nodes.
//!
//! Each node projects `vnodes` points onto the ring of 64-bit numbers; a key
//! belongs to the owner of the first point clockwise from its hash. Adding a
//! node moves keys only to it; removing one moves only its own.

use crate::sharding::placement;
use crate::sorting;
use vstd::prelude::*;

verus! {

pub struct HashRing {
    pub vnodes: u32,
    /// Ring position and node, sorted.
    pub points: Vec<(u64, u32)>,
}

/// The position of a node's i-th point.
pub open spec fn position(node: u32, i: int) -> u64 {
    placement::mixed((node * 0x1_0000_0000 + i) as u64)
}

/// The points of a node.
pub open spec fn node_points(node: u32, vnodes: nat) -> Seq<(u64, u32)> {
    Seq::new(vnodes, |i: int| (position(node, i), node))
}

/// How far a point lies clockwise from a hash.
pub open spec fn clockwise(h: u64, pos: u64) -> int {
    if pos >= h {
        pos - h
    } else {
        pos - h + 0x1_0000_0000_0000_0000
    }
}

/// Point `p` comes before point `q`, going clockwise from `h`; nodes tell
/// points at one position apart.
pub open spec fn nearer(h: u64, p: (u64, u32), q: (u64, u32)) -> bool {
    clockwise(h, p.0) < clockwise(h, q.0) || (p.0 == q.0 && p.1 <= q.1)
}

/// `p` is the first of the points clockwise from `h`.
pub open spec fn is_first(points: Seq<(u64, u32)>, h: u64, p: (u64, u32)) -> bool {
    &&& points.contains(p)
    &&& forall|q: (u64, u32)| #[trigger] points.contains(q) ==> nearer(h, p, q)
}

/// The points that are not of the node.
pub open spec fn without_node(points: Seq<(u64, u32)>, node: u32) -> Seq<(u64, u32)>
    decreases points.len(),
{
    if points.len() == 0 {
        Seq::empty()
    } else {
        let before = without_node(points.drop_last(), node);
        if points.last().1 == node {
            before
        } else {
            before.push(points.last())
        }
    }
}

impl HashRing {
    pub open spec fn well_formed(&self) -> bool {
        sorting::is_sorted(self.points@)
    }

    pub fn new(vnodes: u32) -> (r: HashRing)
        ensures
            r.well_formed(),
            r.vnodes == vnodes,
            r.points@ == Seq::<(u64, u32)>::empty(),
    {
        HashRing { vnodes, points: Vec::new() }
    }

    /// Inserts the node's points.
    pub fn add_node(&mut self, node: u32)
        requires
            old(self).well_formed(),
        ensures
            final(self).well_formed(),
            final(self).vnodes == old(self).vnodes,
            final(self).points@.to_multiset() == (old(self).points@ + node_points(
                node,
                old(self).vnodes as nat,
            )).to_multiset(),
            forall|p: (u64, u32)| #[trigger]
                final(self).points@.contains(p) <==> old(self).points@.contains(p) || node_points(
                    node,
                    old(self).vnodes as nat,
                ).contains(p),
            final(self).points@.len() == old(self).points@.len() + old(self).vnodes,
    {
        let ghost before = self.points@;
        let mut all: Vec<(u64, u32)> = Vec::new();
        all.append(&mut self.points);
        let n = self.vnodes;
        assert(all@ =~= before + node_points(node, 0));
        for i in 0..n
            invariant
                all@ == before + node_points(node, i as nat),
        {
            let x = node as u64 * 0x1_0000_0000 + i as u64;
            all.push((placement::splitmix64(x), node));
            assert(all@ =~= before + node_points(node, (i + 1) as nat));
        }
        self.points = sorting::sorted(&all);
        proof {
            let new = node_points(node, n as nat);
            assert forall|p: (u64, u32)| #[trigger] self.points@.contains(p) <==> before.contains(p) || new.contains(p) by {
                let whole = before + new;
                if whole.contains(p) {
                    let i = choose|i: int| 0 <= i < whole.len() && whole[i] == p;
                    if i < before.len() {
                        assert(before[i] == p);
                    } else {
                        assert(new[i - before.len()] == p);
                    }
                }
                if before.contains(p) {
                    let i = choose|i: int| 0 <= i < before.len() && before[i] == p;
                    assert(whole[i] == p);
                }
                if new.contains(p) {
                    let i = choose|i: int| 0 <= i < new.len() && new[i] == p;
                    assert(whole[i + before.len()] == p);
                }
            }
        }
    }

    /// Removes all of the node's points.
    pub fn remove_node(&mut self, node: u32)
        requires
            old(self).well_formed(),
        ensures
            final(self).well_formed(),
            final(self).vnodes == old(self).vnodes,
            final(self).points@ == without_node(old(self).points@, node),
            forall|p: (u64, u32)| #[trigger]
                final(self).points@.contains(p) <==> old(self).points@.contains(p) && p.1 != node,
    {
        let ghost before = self.points@;
        let mut kept: Vec<(u64, u32)> = Vec::new();
        for i in 0..self.points.len()
            invariant
                before == self.points@,
                kept@ == without_node(before.take(i as int), node),
        {
            assert(before.take(i + 1).drop_last() =~= before.take(i as int));
            if self.points[i].1 != node {
                kept.push(self.points[i]);
            }
        }
        assert(before.take(before.len() as int) =~= before);
        self.points = kept;
        proof {
            lemma_without_sorted(before, node);
            assert forall|p: (u64, u32)| #[trigger] self.points@.contains(p) <==> before.contains(p) && p.1 != node by {
                lemma_without(before, node, p);
            }
        }
    }

    /// The owner of a key: the node of the first point at or clockwise after
    /// its hash.
    pub fn lookup(&self, key: u64) -> (node: u32)
        requires
            self.well_formed(),
            self.points@.len() > 0,
        ensures
            exists|p: (u64, u32)| #[trigger]
                is_first(self.points@, placement::mixed(key), p) && p.1 == node,
    {
        let h = placement::splitmix64(key);
        let n = self.points.len();
        let mut lo: usize = 0;
        let mut hi: usize = n;
        while lo < hi
            invariant
                self.well_formed(),
                n == self.points@.len(),
                lo <= hi <= n,
                forall|i: int| 0 <= i < lo ==> (#[trigger] self.points@[i]).0 < h,
                forall|i: int| hi <= i < n ==> (#[trigger] self.points@[i]).0 >= h,
            decreases hi - lo,
        {
            let mid = lo + (hi - lo) / 2;
            if self.points[mid].0 < h {
                proof {
                    assert forall|i: int| 0 <= i < mid + 1
                        implies (#[trigger] self.points@[i]).0 < h by {
                        assert(sorting::Keyed::key(&self.points@[i]) <= sorting::Keyed::key(
                            &self.points@[mid as int],
                        ));
                    }
                }
                lo = mid + 1;
            } else {
                proof {
                    assert forall|i: int| mid <= i < n implies (#[trigger] self.points@[i]).0 >= h by {
                        assert(sorting::Keyed::key(&self.points@[mid as int])
                            <= sorting::Keyed::key(&self.points@[i]));
                    }
                }
                hi = mid;
            }
        }
        let at = if lo < n {
            lo
        } else {
            0
        };
        proof {
            let p = self.points@[at as int];
            assert(self.points@.contains(p));
            assert forall|q: (u64, u32)| #[trigger] self.points@.contains(q)
                implies nearer(h, p, q) by {
                let j = choose|j: int| 0 <= j < n && self.points@[j] == q;
                if at <= j {
                    assert(sorting::Keyed::key(&p) <= sorting::Keyed::key(&self.points@[j]));
                }
            }
            assert(is_first(self.points@, h, p));
        }
        self.points[at].1
    }
}

proof fn lemma_without(points: Seq<(u64, u32)>, node: u32, p: (u64, u32))
    ensures
        without_node(points, node).contains(p) <==> points.contains(p) && p.1 != node,
    decreases points.len(),
{
    if points.len() > 0 {
        let first = points.drop_last();
        let before = without_node(first, node);
        let now = without_node(points, node);
        lemma_without(first, node, p);
        if points.contains(p) {
            let i = choose|i: int| 0 <= i < points.len() && points[i] == p;
            if i < first.len() {
                assert(first[i] == p);
            }
        }
        if first.contains(p) {
            let i = choose|i: int| 0 <= i < first.len() && first[i] == p;
            assert(points[i] == p);
        }
        assert(points.contains(points.last()));
        if points.last().1 != node {
            if before.contains(p) {
                let i = choose|i: int| 0 <= i < before.len() && before[i] == p;
                assert(now[i] == p);
            }
            if now.contains(p) {
                let i = choose|i: int| 0 <= i < now.len() && now[i] == p;
                if i < before.len() {
                    assert(before[i] == p);
                }
            }
            assert(now[before.len() as int] == points.last());
        }
    }
}

proof fn lemma_without_sorted(points: Seq<(u64, u32)>, node: u32)
    requires
        sorting::is_sorted(points),
    ensures
        sorting::is_sorted(without_node(points, node)),
    decreases points.len(),
{
    if points.len() > 0 {
        let first = points.drop_last();
        let before = without_node(first, node);
        let now = without_node(points, node);
        lemma_without_sorted(first, node);
        if points.last().1 != node {
            assert forall|i: int, j: int| 0 <= i <= j < now.len()
                implies sorting::Keyed::key(&(#[trigger] now[i]))
                <= sorting::Keyed::key(&(#[trigger] now[j])) by {
                if i < before.len() && j == before.len() {
                    lemma_without(first, node, before[i]);
                    assert(before.contains(before[i]));
                    let k = choose|k: int| 0 <= k < first.len() && first[k] == before[i];
                    assert(sorting::Keyed::key(&points[k]) <= sorting::Keyed::key(
                        &points[points.len() - 1],
                    ));
                } else if j < before.len() {
                    assert(sorting::Keyed::key(&before[i]) <= sorting::Keyed::key(&before[j]));
                }
            }
        }
    }
}

/// A ring with points has one owner for each hash.
pub proof fn lemma_one_owner(points: Seq<(u64, u32)>, h: u64, p: (u64, u32), q: (u64, u32))
    requires
        is_first(points, h, p),
        is_first(points, h, q),
    ensures
        p == q,
{
    assert(nearer(h, p, q) && nearer(h, q, p));
}

/// Adding a node moves keys only to it: a key whose owner changes goes to the
/// new node.
pub proof fn lemma_added_node_takes_its_own(
    before: Seq<(u64, u32)>,
    after: Seq<(u64, u32)>,
    node: u32,
    h: u64,
    p: (u64, u32),
    q: (u64, u32),
)
    requires
        forall|x: (u64, u32)| #[trigger]
            after.contains(x) ==> before.contains(x) || x.1 == node,
        forall|x: (u64, u32)| #[trigger] before.contains(x) ==> after.contains(x),
        is_first(before, h, p),
        is_first(after, h, q),
    ensures
        q.1 != p.1 ==> q.1 == node,
{
    if q.1 != node {
        assert(before.contains(q));
        assert(after.contains(p));
        assert(nearer(h, p, q) && nearer(h, q, p));
    }
}

/// Removing a node moves only its own keys: a key that another node owned
/// stays where it was, and no key is left with the node.
pub proof fn lemma_removed_node_frees_its_own(
    before: Seq<(u64, u32)>,
    after: Seq<(u64, u32)>,
    node: u32,
    h: u64,
    p: (u64, u32),
    q: (u64, u32),
)
    requires
        forall|x: (u64, u32)| #[trigger]
            after.contains(x) <==> before.contains(x) && x.1 != node,
        is_first(before, h, p),
        is_first(after, h, q),
    ensures
        p.1 != node ==> q.1 == p.1,
        q.1 != node,
{
    assert(after.contains(q));
    if p.1 != node {
        assert(after.contains(p));
        assert(before.contains(q));
        assert(nearer(h, p, q) && nearer(h, q, p));
    }
}

} // verus!
