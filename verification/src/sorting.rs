//! Sorting by an integer key.

use vstd::multiset::Multiset;
use vstd::prelude::*;

verus! {

/// Values with an integer key that tells them apart and orders them.
pub trait Keyed: Sized {
    spec fn key(&self) -> int;

    proof fn lemma_key_injective(a: Self, b: Self)
        ensures
            a.key() == b.key() ==> a == b,
    ;

    fn at_most(&self, other: &Self) -> (b: bool)
        ensures
            b == (self.key() <= other.key()),
    ;
}

impl Keyed for u32 {
    open spec fn key(&self) -> int {
        *self as int
    }

    proof fn lemma_key_injective(a: u32, b: u32) {
    }

    fn at_most(&self, other: &u32) -> (b: bool) {
        *self <= *other
    }
}

impl Keyed for u64 {
    open spec fn key(&self) -> int {
        *self as int
    }

    proof fn lemma_key_injective(a: u64, b: u64) {
    }

    fn at_most(&self, other: &u64) -> (b: bool) {
        *self <= *other
    }
}

impl Keyed for usize {
    open spec fn key(&self) -> int {
        *self as int
    }

    proof fn lemma_key_injective(a: usize, b: usize) {
    }

    fn at_most(&self, other: &usize) -> (b: bool) {
        *self <= *other
    }
}

/// Pairs in lexicographic order.
impl Keyed for (usize, usize) {
    open spec fn key(&self) -> int {
        self.0 * 0x1_0000_0000_0000_0000 + self.1
    }

    proof fn lemma_key_injective(a: (usize, usize), b: (usize, usize)) {
    }

    fn at_most(&self, other: &(usize, usize)) -> (b: bool) {
        self.0 < other.0 || (self.0 == other.0 && self.1 <= other.1)
    }
}

/// Pairs in lexicographic order.
impl Keyed for (u64, u32) {
    open spec fn key(&self) -> int {
        self.0 * 0x1_0000_0000 + self.1
    }

    proof fn lemma_key_injective(a: (u64, u32), b: (u64, u32)) {
    }

    fn at_most(&self, other: &(u64, u32)) -> (b: bool) {
        self.0 < other.0 || (self.0 == other.0 && self.1 <= other.1)
    }
}

/// Pairs in lexicographic order.
impl Keyed for (u32, u32) {
    open spec fn key(&self) -> int {
        self.0 * 0x1_0000_0000 + self.1
    }

    proof fn lemma_key_injective(a: (u32, u32), b: (u32, u32)) {
    }

    fn at_most(&self, other: &(u32, u32)) -> (b: bool) {
        self.0 < other.0 || (self.0 == other.0 && self.1 <= other.1)
    }
}

/// Scored pairs: the highest score first, then in lexicographic order.
impl Keyed for ((u32, u32), u128) {
    open spec fn key(&self) -> int {
        self.0.0 * 0x1_0000_0000 + self.0.1 - self.1 * 0x1_0000_0000_0000_0000
    }

    proof fn lemma_key_injective(a: ((u32, u32), u128), b: ((u32, u32), u128)) {
    }

    fn at_most(&self, other: &((u32, u32), u128)) -> (b: bool) {
        self.1 > other.1 || (self.1 == other.1 && self.0.at_most(&other.0))
    }
}

/// Triples in lexicographic order.
impl Keyed for (usize, usize, usize) {
    open spec fn key(&self) -> int {
        self.0 * 0x1_0000_0000_0000_0000_0000_0000_0000_0000int + self.1 * 0x1_0000_0000_0000_0000
            + self.2
    }

    proof fn lemma_key_injective(a: (usize, usize, usize), b: (usize, usize, usize)) {
    }

    fn at_most(&self, other: &(usize, usize, usize)) -> (b: bool) {
        self.0 < other.0 || (self.0 == other.0 && (self.1 < other.1 || (self.1 == other.1 && self.2
            <= other.2)))
    }
}

/// In key order, repeats allowed.
pub open spec fn is_sorted<T: Keyed>(s: Seq<T>) -> bool {
    forall|i: int, j: int| 0 <= i <= j < s.len() ==> (#[trigger] s[i]).key() <= (#[trigger] s[j]).key()
}

/// In key order without repeats.
pub open spec fn is_strict<T: Keyed>(s: Seq<T>) -> bool {
    forall|i: int, j: int| 0 <= i < j < s.len() ==> (#[trigger] s[i]).key() < (#[trigger] s[j]).key()
}

proof fn lemma_push_multiset<T>(s: Seq<T>, x: T)
    ensures
        s.push(x).to_multiset() == s.to_multiset().insert(x),
{
    broadcast use vstd::seq_lib::group_to_multiset_ensures;

    assert(s.push(x).to_multiset() =~= s.to_multiset().insert(x));
}

/// Merges two sorted lists.
pub fn merge<T: Keyed + Copy>(a: &Vec<T>, b: &Vec<T>) -> (r: Vec<T>)
    requires
        is_sorted(a@),
        is_sorted(b@),
        a@.len() + b@.len() <= usize::MAX,
    ensures
        is_sorted(r@),
        r@.len() == a@.len() + b@.len(),
        r@.to_multiset() == a@.to_multiset().add(b@.to_multiset()),
{
    broadcast use vstd::seq_lib::group_to_multiset_ensures;

    let mut r: Vec<T> = Vec::new();
    let mut i: usize = 0;
    let mut j: usize = 0;
    proof {
        assert(a@.subrange(0, 0) =~= Seq::<T>::empty());
        assert(b@.subrange(0, 0) =~= Seq::<T>::empty());
        assert(r@.to_multiset() =~= Multiset::empty());
        assert(r@.to_multiset() =~= a@.subrange(0, 0).to_multiset().add(b@.subrange(0, 0).to_multiset()));
    }
    while i < a.len() || j < b.len()
        invariant
            i <= a@.len(),
            j <= b@.len(),
            is_sorted(a@),
            is_sorted(b@),
            is_sorted(r@),
            r@.len() == i + j,
            a@.len() + b@.len() <= usize::MAX,
            forall|x: int, y: int| 0 <= x < r@.len() && i <= y < a@.len() ==> (#[trigger] r@[x]).key() <= (#[trigger] a@[y]).key(),
            forall|x: int, y: int| 0 <= x < r@.len() && j <= y < b@.len() ==> (#[trigger] r@[x]).key() <= (#[trigger] b@[y]).key(),
            r@.to_multiset() == a@.subrange(0, i as int).to_multiset().add(b@.subrange(0, j as int).to_multiset()),
        decreases a@.len() + b@.len() - i - j,
    {
        if j >= b.len() || (i < a.len() && a[i].at_most(&b[j])) {
            proof {
                lemma_push_multiset(r@, a@[i as int]);
                lemma_push_multiset(a@.subrange(0, i as int), a@[i as int]);
            }
            r.push(a[i]);
            proof {
                assert(a@.subrange(0, i + 1) =~= a@.subrange(0, i as int).push(a@[i as int]));
                assert(r@.to_multiset() =~= a@.subrange(0, i + 1).to_multiset().add(b@.subrange(0, j as int).to_multiset()));
            }
            i += 1;
        } else {
            proof {
                lemma_push_multiset(r@, b@[j as int]);
                lemma_push_multiset(b@.subrange(0, j as int), b@[j as int]);
            }
            r.push(b[j]);
            proof {
                assert(b@.subrange(0, j + 1) =~= b@.subrange(0, j as int).push(b@[j as int]));
                assert(r@.to_multiset() =~= a@.subrange(0, i as int).to_multiset().add(b@.subrange(0, j + 1).to_multiset()));
            }
            j += 1;
        }
    }
    proof {
        assert(a@.subrange(0, i as int) =~= a@);
        assert(b@.subrange(0, j as int) =~= b@);
    }
    r
}

/// The items of `v` in key order.
pub fn sorted<T: Keyed + Copy>(v: &Vec<T>) -> (r: Vec<T>)
    ensures
        is_sorted(r@),
        r@.len() == v@.len(),
        r@.to_multiset() == v@.to_multiset(),
        forall|x: T| #[trigger] r@.contains(x) <==> v@.contains(x),
{
    let r = sorted_range(v, 0, v.len());
    proof {
        assert(v@.subrange(0, v@.len() as int) =~= v@);
        lemma_same_items(r@, v@);
    }
    r
}

proof fn lemma_same_items<T>(a: Seq<T>, b: Seq<T>)
    requires
        a.to_multiset() == b.to_multiset(),
    ensures
        forall|x: T| #[trigger] a.contains(x) <==> b.contains(x),
{
    broadcast use vstd::seq_lib::group_to_multiset_ensures;

    assert forall|x: T| #[trigger] a.contains(x) <==> b.contains(x) by {
        assert(a.contains(x) <==> a.to_multiset().count(x) > 0);
        assert(b.contains(x) <==> b.to_multiset().count(x) > 0);
    }
}

fn sorted_range<T: Keyed + Copy>(v: &Vec<T>, lo: usize, hi: usize) -> (r: Vec<T>)
    requires
        lo <= hi <= v@.len(),
    ensures
        is_sorted(r@),
        r@.len() == hi - lo,
        r@.to_multiset() == v@.subrange(lo as int, hi as int).to_multiset(),
    decreases hi - lo,
{
    broadcast use vstd::seq_lib::group_to_multiset_ensures;

    let mut r: Vec<T> = Vec::new();
    if hi - lo == 0 {
        assert(r@ =~= v@.subrange(lo as int, hi as int));
        return r;
    }
    if hi - lo == 1 {
        r.push(v[lo]);
        assert(r@ =~= v@.subrange(lo as int, hi as int));
        return r;
    }
    let mid = lo + (hi - lo) / 2;
    let a = sorted_range(v, lo, mid);
    let b = sorted_range(v, mid, hi);
    proof {
        assert(v@.subrange(lo as int, hi as int) =~= v@.subrange(lo as int, mid as int) + v@.subrange(mid as int, hi as int));
        vstd::seq_lib::lemma_multiset_commutative(v@.subrange(lo as int, mid as int), v@.subrange(mid as int, hi as int));
    }
    merge(&a, &b)
}

/// The items of `v` in key order, each once.
pub fn sorted_distinct<T: Keyed + Copy>(v: &Vec<T>) -> (r: Vec<T>)
    ensures
        is_strict(r@),
        r@.len() <= v@.len(),
        forall|x: T| #[trigger] r@.contains(x) <==> v@.contains(x),
{
    let s = sorted(v);
    let mut r: Vec<T> = Vec::new();
    for i in 0..s.len()
        invariant
            is_sorted(s@),
            is_strict(r@),
            r@.len() <= i,
            i > 0 ==> r@.len() > 0 && r@.last() == s@[i - 1],
            forall|j: int| 0 <= j < i ==> r@.contains(#[trigger] s@[j]),
            forall|j: int| 0 <= j < r@.len() ==> s@.contains(#[trigger] r@[j]),
    {
        let x = s[i];
        let ghost r0 = r@;
        if r.len() == 0 || !x.at_most(&r[r.len() - 1]) {
            r.push(x);
            proof {
                assert forall|j: int| 0 <= j < i + 1 implies r@.contains(#[trigger] s@[j]) by {
                    if j < i {
                        let k = choose|k: int| 0 <= k < r0.len() && r0[k] == s@[j];
                        assert(r@[k] == s@[j]);
                    } else {
                        assert(r@[r0.len() as int] == s@[j]);
                    }
                }
            }
        } else {
            proof {
                T::lemma_key_injective(x, r@.last());
                assert(r@[r@.len() - 1] == x);
            }
        }
    }
    proof {
        assert forall|x: T| #[trigger] r@.contains(x) <==> v@.contains(x) by {
            if v@.contains(x) {
                assert(s@.contains(x));
                let j = choose|j: int| 0 <= j < s@.len() && s@[j] == x;
                assert(r@.contains(s@[j]));
            }
            if r@.contains(x) {
                let j = choose|j: int| 0 <= j < r@.len() && r@[j] == x;
                assert(s@.contains(r@[j]));
            }
        }
    }
    r
}

/// The order of the numbers.
pub open spec fn number_order() -> spec_fn(u32, u32) -> bool {
    |a: u32, b: u32| a <= b
}

/// A list in ascending order.
pub open spec fn ascending(s: Seq<u32>) -> Seq<u32> {
    s.sort_by(number_order())
}

/// There is one way to sort a list.
pub proof fn lemma_ascending(s: Seq<u32>, r: Seq<u32>)
    requires
        is_sorted(r),
        r.to_multiset() == s.to_multiset(),
    ensures
        r == ascending(s),
{
    let leq = number_order();
    assert(vstd::relations::total_ordering(leq));
    s.lemma_sort_by_ensures(leq);
    assert(vstd::relations::sorted_by(r, leq)) by {
        assert forall|i: int, j: int| 0 <= i < j < r.len() implies #[trigger] leq(r[i], r[j]) by {
            assert(r[i].key() <= r[j].key());
        }
    }
    vstd::seq_lib::lemma_sorted_unique(r, s.sort_by(leq), leq);
}

/// Sorting changes neither what a list holds nor how often.
pub proof fn lemma_ascending_items(s: Seq<u32>)
    ensures
        is_sorted(ascending(s)),
        ascending(s).len() == s.len(),
        forall|x: u32| #[trigger] ascending(s).contains(x) <==> s.contains(x),
        s.no_duplicates() ==> is_strict(ascending(s)),
{
    broadcast use vstd::seq_lib::group_to_multiset_ensures;

    let leq = number_order();
    let r = ascending(s);
    assert(vstd::relations::total_ordering(leq));
    s.lemma_sort_by_ensures(leq);
    assert forall|i: int, j: int| 0 <= i <= j < r.len() implies (#[trigger] r[i]).key() <= (
    #[trigger] r[j]).key() by {
        if i < j {
            assert(leq(r[i], r[j]));
        }
    }
    assert(r.to_multiset().len() == s.to_multiset().len());
    lemma_same_items(r, s);
    if s.no_duplicates() {
        s.lemma_multiset_has_no_duplicates();
        r.lemma_multiset_has_no_duplicates_conv();
        assert forall|i: int, j: int| 0 <= i < j < r.len() implies (#[trigger] r[i]).key() < (
        #[trigger] r[j]).key() by {
            assert(r[i] != r[j]);
            assert(r[i].key() <= r[j].key());
        }
    }
}

} // verus!
