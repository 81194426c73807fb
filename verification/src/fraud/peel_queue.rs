//! The nodes that are left, by key: the smallest is taken, and keys only go
//! down.
//!
//! Nodes are grouped into blocks that know their smallest node, so that taking
//! one costs a look at every block and at one block's nodes.

use vstd::prelude::*;

verus! {

pub struct PeelQueue {
    key: Vec<u128>,
    alive: Vec<bool>,
    width: usize,
    /// The smallest node of each block; the number of nodes where none is left.
    firsts: Vec<usize>,
}

/// Node `a` comes before node `b`.
pub open spec fn before(key: Seq<u128>, a: int, b: int) -> bool {
    key[a] < key[b] || (key[a] == key[b] && a <= b)
}

/// `f` is the first of the nodes from `lo` to `hi` that are left, or `none`.
spec fn is_first(key: Seq<u128>, alive: Seq<bool>, lo: int, hi: int, f: int, none: int) -> bool {
    if f == none {
        forall|v: int| lo <= v < hi && v < alive.len() ==> !#[trigger] alive[v]
    } else {
        &&& lo <= f < hi
        &&& f < alive.len()
        &&& alive[f]
        &&& forall|v: int|
            lo <= v < hi && v < alive.len() && #[trigger] alive[v] ==> before(key, f, v)
    }
}

impl PeelQueue {
    pub closed spec fn keys(&self) -> Seq<u128> {
        self.key@
    }

    pub closed spec fn left(&self) -> Seq<bool> {
        self.alive@
    }

    pub closed spec fn well_formed(&self) -> bool {
        let n = self.key@.len();
        &&& self.alive@.len() == n
        &&& self.width > 0
        &&& n + self.width <= usize::MAX
        &&& self.firsts@.len() * self.width >= n
        &&& forall|b: int|
            0 <= b < self.firsts@.len() ==> is_first(
                self.key@,
                self.alive@,
                b * self.width,
                b * self.width + self.width,
                #[trigger] self.firsts@[b] as int,
                n as int,
            )
    }

    /// As many keys as nodes.
    pub proof fn lemma_lens(&self)
        requires
            self.well_formed(),
        ensures
            self.keys().len() == self.left().len(),
    {
    }

    /// The first of a range of nodes.
    fn scan(&self, lo: usize, hi: usize) -> (f: usize)
        requires
            self.alive@.len() == self.key@.len(),
            lo <= hi,
        ensures
            is_first(
                self.key@,
                self.alive@,
                lo as int,
                hi as int,
                f as int,
                self.key@.len() as int,
            ),
    {
        let n = self.key.len();
        let mut f = n;
        let mut v = lo;
        while v < hi && v < n
            invariant
                n == self.key@.len() == self.alive@.len(),
                lo <= v <= hi,
                is_first(self.key@, self.alive@, lo as int, v as int, f as int, n as int),
            decreases hi - v,
        {
            if self.alive[v] && (f == n || self.key[v] < self.key[f]) {
                f = v;
            }
            v += 1;
        }
        f
    }

    pub fn new(key: Vec<u128>, width: usize) -> (q: PeelQueue)
        requires
            width > 0,
            key@.len() + width <= usize::MAX,
        ensures
            q.well_formed(),
            q.keys() == key@,
            q.left() == Seq::new(key@.len(), |v: int| true),
    {
        let n = key.len();
        let mut q = PeelQueue { key, alive: vec![true; n], width, firsts: Vec::new() };
        let mut at: usize = 0;
        while at < n
            invariant
                q.key@ == key@,
                n == key@.len(),
                q.alive@ == Seq::new(n as nat, |v: int| true),
                q.width == width,
                width > 0,
                n + width <= usize::MAX,
                at == q.firsts@.len() * width,
                at < n + width,
                forall|b: int|
                    0 <= b < q.firsts@.len() ==> is_first(
                        q.key@,
                        q.alive@,
                        b * width,
                        b * width + width,
                        #[trigger] q.firsts@[b] as int,
                        n as int,
                    ),
            decreases n + width - at,
        {
            let f = q.scan(at, at + width);
            proof {
                let b = q.firsts@.len() as int;
                assert((b + 1) * width == b * width + width) by (nonlinear_arith);
            }
            q.firsts.push(f);
            at = at + width;
        }
        assert(q.alive@ =~= Seq::new(n as nat, |v: int| true));
        q
    }

    pub fn key_of(&self, v: usize) -> (k: u128)
        requires
            v < self.keys().len(),
        ensures
            k == self.keys()[v as int],
    {
        self.key[v]
    }

    pub fn is_left(&self, v: usize) -> (b: bool)
        requires
            v < self.left().len(),
        ensures
            b == self.left()[v as int],
    {
        self.alive[v]
    }

    /// Lowers the key of a node that is left.
    pub fn lower(&mut self, v: usize, k: u128)
        requires
            old(self).well_formed(),
            v < old(self).keys().len(),
            v < old(self).left().len(),
            old(self).left()[v as int],
            k <= old(self).keys()[v as int],
        ensures
            final(self).well_formed(),
            final(self).keys() == old(self).keys().update(v as int, k),
            final(self).left() == old(self).left(),
    {
        let ghost key0 = self.key@;
        let ghost firsts0 = self.firsts@;
        let ghost w = self.width as int;
        let n = self.key.len();
        let b = v / self.width;
        proof {
            lemma_block(v as int, w, self.firsts@.len() as int, n as int);
            assert(is_first(key0, self.alive@, b * w, b * w + w, self.firsts@[b as int] as int, n as int));
        }
        self.key.set(v, k);
        let f = self.firsts[b];
        if self.key[v] < self.key[f] || (self.key[v] == self.key[f] && v < f) {
            self.firsts.set(b, v);
        }
        proof {
            assert forall|c: int| 0 <= c < self.firsts@.len() implies is_first(
                self.key@,
                self.alive@,
                c * w,
                c * w + w,
                #[trigger] self.firsts@[c] as int,
                n as int,
            ) by {
                assert(is_first(key0, self.alive@, c * w, c * w + w, firsts0[c] as int, n as int));
                if c != b {
                    lemma_other_block(v as int, b as int, c, w);
                }
            }
        }
    }

    /// Takes the first node that is left.
    pub fn pop(&mut self) -> (v: usize)
        requires
            old(self).well_formed(),
            exists|x: int| 0 <= x < old(self).left().len() && #[trigger] old(self).left()[x],
        ensures
            final(self).well_formed(),
            v < old(self).left().len(),
            old(self).left()[v as int],
            forall|x: int|
                0 <= x < old(self).left().len() && #[trigger] old(self).left()[x] ==> before(
                    old(self).keys(),
                    v as int,
                    x,
                ),
            final(self).keys() == old(self).keys(),
            final(self).left() == old(self).left().update(v as int, false),
    {
        let n = self.key.len();
        let ghost w = self.width as int;
        let mut best: usize = n;
        assert(0 * w == 0) by (nonlinear_arith);
        for b in 0..self.firsts.len()
            invariant
                self.well_formed(),
                n == self.key@.len(),
                w == self.width,
                is_first(self.key@, self.alive@, 0, b * w, best as int, n as int),
        {
            let f = self.firsts[b];
            proof {
                assert(is_first(
                    self.key@,
                    self.alive@,
                    b * w,
                    b * w + w,
                    self.firsts@[b as int] as int,
                    n as int,
                ));
                assert((b + 1) * w == b * w + w) by (nonlinear_arith);
                assert(b * w >= 0) by (nonlinear_arith)
                    requires
                        b >= 0,
                        w > 0,
                ;
            }
            if f < n && (best == n || self.key[f] < self.key[best]) {
                best = f;
            }
        }
        proof {
            let x = choose|x: int| 0 <= x < self.alive@.len() && #[trigger] self.alive@[x];
            assert(self.alive@[x]);
        }
        let ghost alive0 = self.alive@;
        let ghost firsts0 = self.firsts@;
        let b = best / self.width;
        proof {
            lemma_block(best as int, w, self.firsts@.len() as int, n as int);
        }
        self.alive.set(best, false);
        let lo = b * self.width;
        let f = self.scan(lo, lo + self.width);
        self.firsts.set(b, f);
        proof {
            assert forall|c: int| 0 <= c < self.firsts@.len() implies is_first(
                self.key@,
                self.alive@,
                c * w,
                c * w + w,
                #[trigger] self.firsts@[c] as int,
                n as int,
            ) by {
                if c != b {
                    assert(is_first(self.key@, alive0, c * w, c * w + w, firsts0[c] as int, n as int));
                    lemma_other_block(best as int, b as int, c, w);
                }
            }
        }
        best
    }
}

/// A node is in the block that its number says.
proof fn lemma_block(v: int, w: int, blocks: int, n: int)
    requires
        0 <= v < n,
        w > 0,
        blocks * w >= n,
    ensures
        0 <= v / w < blocks,
        (v / w) * w <= v < (v / w) * w + w,
{
    vstd::arithmetic::div_mod::lemma_fundamental_div_mod(v, w);
    let b = v / w;
    assert(b * w <= v < b * w + w) by (nonlinear_arith)
        requires
            v == w * b + v % w,
            0 <= v % w < w,
    ;
    assert(b < blocks) by (nonlinear_arith)
        requires
            b * w <= v,
            v < blocks * w,
            w > 0,
    ;
    assert(0 <= b) by (nonlinear_arith)
        requires
            v < b * w + w,
            v >= 0,
            w > 0,
    ;
}

/// And in no other.
proof fn lemma_other_block(v: int, b: int, c: int, w: int)
    requires
        w > 0,
        b * w <= v < b * w + w,
        c != b,
    ensures
        !(c * w <= v < c * w + w),
{
    if c < b {
        assert(c * w + w <= b * w) by (nonlinear_arith)
            requires
                c + 1 <= b,
                w > 0,
        ;
    } else {
        assert(b * w + w <= c * w) by (nonlinear_arith)
            requires
                b + 1 <= c,
                w > 0,
        ;
    }
}

} // verus!
