//! Rankings by a score, highest first.

use crate::double::Double;
use vstd::prelude::*;

verus! {

/// What can be ranked.
pub trait Scored: Sized {
    spec fn score(&self) -> int;

    /// What comparing asks for.
    spec fn proper(&self) -> bool;

    /// Whether the score is higher than another.
    fn is_above(&self, other: &Self) -> (r: bool)
        requires
            self.proper(),
            other.proper(),
        ensures
            r == (self.score() > other.score()),
    ;
}

impl Scored for Double {
    open spec fn score(&self) -> int {
        self.value()
    }

    open spec fn proper(&self) -> bool {
        self.normal()
    }

    fn is_above(&self, other: &Double) -> (r: bool) {
        !other.at_least(*self)
    }
}

impl Scored for u64 {
    open spec fn score(&self) -> int {
        *self as int
    }

    open spec fn proper(&self) -> bool {
        true
    }

    fn is_above(&self, other: &u64) -> (r: bool) {
        *self > *other
    }
}

/// What falls short; the less the better.
#[derive(Clone, Copy, Debug)]
pub struct Shortfall(pub u128);

impl Scored for Shortfall {
    open spec fn score(&self) -> int {
        -(self.0 as int)
    }

    open spec fn proper(&self) -> bool {
        true
    }

    fn is_above(&self, other: &Shortfall) -> (r: bool) {
        self.0 < other.0
    }
}

/// The scores of a list.
pub open spec fn scores_of<T: Scored>(list: Seq<T>) -> Seq<int> {
    Seq::new(list.len(), |i: int| list[i].score())
}

/// Entry `a` ranks before entry `b`: its score is higher, or as high and its
/// number smaller.
pub open spec fn beats(scores: Seq<int>, a: int, b: int) -> bool {
    scores[a] > scores[b] || (scores[a] == scores[b] && a < b)
}

/// The ranking of the first `n` entries.
pub open spec fn is_ranking(scores: Seq<int>, r: Seq<u32>, n: int) -> bool {
    &&& r.len() == n
    &&& forall|i: int| 0 <= i < n ==> #[trigger] r[i] < n
    &&& forall|i: int, j: int|
        0 <= i < j < n ==> beats(scores, #[trigger] r[i] as int, #[trigger] r[j] as int)
}

/// Ranks the entries.
pub fn rank<T: Scored>(list: &Vec<T>) -> (r: Vec<u32>)
    requires
        list@.len() <= u32::MAX,
        forall|i: int| 0 <= i < list@.len() ==> (#[trigger] list@[i]).proper(),
    ensures
        is_ranking(scores_of(list@), r@, list@.len() as int),
{
    let ghost scores = scores_of(list@);
    let mut r: Vec<u32> = Vec::new();
    for s in 0..list.len()
        invariant
            list@.len() <= u32::MAX,
            forall|i: int| 0 <= i < list@.len() ==> (#[trigger] list@[i]).proper(),
            scores == scores_of(list@),
            is_ranking(scores, r@, s as int),
    {
        let mut at = r.len();
        while at > 0 && list[s].is_above(&list[r[at - 1] as usize])
            invariant
                s < list@.len() <= u32::MAX,
                forall|i: int| 0 <= i < list@.len() ==> (#[trigger] list@[i]).proper(),
                scores == scores_of(list@),
                is_ranking(scores, r@, s as int),
                at <= s,
                forall|j: int| at <= j < s ==> beats(scores, s as int, #[trigger] r@[j] as int),
            decreases at,
        {
            at -= 1;
        }
        let ghost before = r@;
        r.insert(at, s as u32);
        proof {
            assert forall|i: int, j: int| 0 <= i < j < s + 1 implies beats(
                scores,
                #[trigger] r@[i] as int,
                #[trigger] r@[j] as int,
            ) by {
                if i < at && j == at {
                    if i < at - 1 {
                        assert(beats(scores, before[i] as int, before[at - 1] as int));
                    }
                } else if i < at && j > at {
                    assert(beats(scores, before[i] as int, before[j - 1] as int));
                } else if i == at {
                    assert(beats(scores, s as int, before[j - 1] as int));
                } else if i > at {
                    assert(beats(scores, before[i - 1] as int, before[j - 1] as int));
                } else {
                    assert(beats(scores, before[i] as int, before[j] as int));
                }
            }
            assert forall|i: int| 0 <= i < s + 1 implies #[trigger] r@[i] < s + 1 by {
                if i < at {
                    assert(before[i] < s);
                } else if i > at {
                    assert(before[i - 1] < s);
                }
            }
        }
    }
    r
}

/// Where an entry stands in a ranking, from 1 on.
pub fn rank_of(ranking: &[u32], target: u32) -> (k: usize)
    requires
        ranking@.contains(target),
    ensures
        1 <= k <= ranking@.len(),
        ranking@[k - 1] == target,
        forall|i: int| 0 <= i < k - 1 ==> #[trigger] ranking@[i] != target,
{
    let n = ranking.len();
    let mut i: usize = 0;
    while ranking[i] != target
        invariant
            n == ranking@.len(),
            i < n,
            ranking@.contains(target),
            forall|j: int| 0 <= j < i ==> #[trigger] ranking@[j] != target,
        decreases n - i,
    {
        proof {
            let j = choose|j: int| 0 <= j < n && ranking@[j] == target;
            assert(i < j);
        }
        i += 1;
    }
    i + 1
}

/// Whether an entry is among the first `k` of a ranking.
pub fn top_k_hit(ranking: &[u32], target: u32, k: usize) -> (b: bool)
    ensures
        b <==> exists|i: int| 0 <= i < k && i < ranking@.len() && #[trigger] ranking@[i] == target,
{
    let mut i: usize = 0;
    while i < k && i < ranking.len()
        invariant
            i <= k,
            i <= ranking@.len(),
            forall|j: int| 0 <= j < i ==> #[trigger] ranking@[j] != target,
        decreases k - i,
    {
        if ranking[i] == target {
            return true;
        }
        i += 1;
    }
    false
}

/// A ranking holds every entry.
pub proof fn lemma_ranking_is_complete(scores: Seq<int>, r: Seq<u32>, n: int, s: u32)
    requires
        is_ranking(scores, r, n),
        s < n,
    ensures
        r.contains(s),
{
    if !r.contains(s) {
        let v = r.map_values(|x: u32| x as int);
        assert(v.no_duplicates()) by {
            assert forall|i: int, j: int| 0 <= i < v.len() && 0 <= j < v.len() && i != j
                implies v[i] != v[j] by {
                if i < j {
                    assert(beats(scores, r[i] as int, r[j] as int));
                } else {
                    assert(beats(scores, r[j] as int, r[i] as int));
                }
            }
        }
        v.unique_seq_to_set();
        let range = vstd::set_lib::set_int_range(0, n);
        vstd::set_lib::lemma_int_range(0, n);
        let rest = range.remove(s as int);
        assert(v.to_set().subset_of(rest)) by {
            assert forall|x: int| v.to_set().contains(x) implies rest.contains(x) by {
                let i = choose|i: int| 0 <= i < v.len() && v[i] == x;
                assert(r[i] < n);
                assert(r.contains(r[i]));
            }
        }
        vstd::set_lib::lemma_len_subset(v.to_set(), rest);
        assert(false);
    }
}

} // verus!
