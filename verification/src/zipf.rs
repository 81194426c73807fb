//! Skewed sampling by rank.
//!
//! A sampler is the table of the points at which the rank goes up, on the
//! grid of the 53-bit uniform draws. Whoever makes the table decides on the
//! skew.

use crate::rng;
use rand_chacha::ChaCha8Rng;
use vstd::prelude::*;

verus! {

/// A sampler over ranks `0..steps.len()`; rank 0 comes first on the grid.
#[derive(Debug)]
pub struct Zipf {
    /// Draws from `steps[r]` on have a rank above `r`.
    pub steps: Vec<u64>,
}

/// `r` is the rank of a draw: the number of steps that it has reached.
pub open spec fn is_rank(steps: Seq<u64>, draw: int, r: int) -> bool {
    &&& 0 <= r <= steps.len()
    &&& forall|i: int| 0 <= i < r ==> (#[trigger] steps[i]) <= draw
    &&& forall|i: int| r <= i < steps.len() ==> (#[trigger] steps[i]) > draw
}

/// The rank of a draw.
pub open spec fn rank_of(steps: Seq<u64>, draw: int) -> usize {
    choose|r: usize| is_rank(steps, draw, r as int)
}

/// The rank that a stream gives, and the stream that is left.
pub open spec fn ranked(steps: Seq<u64>, stream: Map<nat, u32>) -> (usize, Map<nat, u32>) {
    (rank_of(steps, rng::first_u64(stream) / 2048), rng::skip_words(stream, 2))
}

impl Zipf {
    /// The steps go up, and the last is behind every draw.
    pub open spec fn well_formed(&self) -> bool {
        &&& self.steps@.len() > 0
        &&& forall|i: int, j: int|
            0 <= i <= j < self.steps@.len() ==> (#[trigger] self.steps@[i]) <= (
            #[trigger] self.steps@[j])
        &&& self.steps@.last() >= rng::UNIT
    }

    /// Draws a rank.
    pub fn sample(&self, rng: &mut ChaCha8Rng) -> (r: usize)
        requires
            self.well_formed(),
        ensures
            r < self.steps@.len(),
            (r, rng::words(*final(rng))) == ranked(self.steps@, rng::words(*old(rng))),
    {
        let x = rng::next_u64(rng) / 2048;
        let n = self.steps.len();
        let mut lo: usize = 0;
        let mut hi: usize = n - 1;
        while lo < hi
            invariant
                self.well_formed(),
                n == self.steps@.len(),
                x < rng::UNIT,
                lo <= hi < n,
                forall|i: int| 0 <= i < lo ==> (#[trigger] self.steps@[i]) <= x,
                forall|i: int| hi <= i < n ==> (#[trigger] self.steps@[i]) > x,
            decreases hi - lo,
        {
            let mid = lo + (hi - lo) / 2;
            if self.steps[mid] <= x {
                proof {
                    assert forall|i: int| 0 <= i < mid + 1 implies (#[trigger] self.steps@[i]) <= x by {
                        assert(self.steps@[i] <= self.steps@[mid as int]);
                    }
                }
                lo = mid + 1;
            } else {
                proof {
                    assert forall|i: int| mid <= i < n implies (#[trigger] self.steps@[i]) > x by {
                        assert(self.steps@[mid as int] <= self.steps@[i]);
                    }
                }
                hi = mid;
            }
        }
        proof {
            assert(is_rank(self.steps@, x as int, lo as int));
            let r = rank_of(self.steps@, x as int);
            assert(is_rank(self.steps@, x as int, r as int));
            if r < lo {
                assert(self.steps@[r as int] <= x);
            } else if lo < r {
                assert(self.steps@[lo as int] <= x);
            }
        }
        lo
    }
}

/// `n` ranks, one after another, and the stream that is left.
pub open spec fn rank_draws(steps: Seq<u64>, stream: Map<nat, u32>, n: nat) -> (
    Seq<u64>,
    Map<nat, u32>,
)
    decreases n,
{
    if n == 0 {
        (Seq::empty(), stream)
    } else {
        let (before, rest) = rank_draws(steps, stream, (n - 1) as nat);
        let (r, end) = ranked(steps, rest);
        (before.push(r as u64), end)
    }
}

/// Where the steps go up, a draw has a rank among the first `n`.
proof fn lemma_some_rank(steps: Seq<u64>, draw: int, n: nat) -> (r: int)
    requires
        n <= steps.len(),
        forall|i: int, j: int|
            0 <= i <= j < steps.len() ==> (#[trigger] steps[i]) <= (#[trigger] steps[j]),
    ensures
        is_rank(steps.take(n as int), draw, r),
    decreases n,
{
    if n == 0 {
        0
    } else {
        let r = lemma_some_rank(steps, draw, (n - 1) as nat);
        let before = steps.take(n - 1);
        let now = steps.take(n as int);
        if steps[n - 1] <= draw {
            assert forall|i: int| 0 <= i < n implies (#[trigger] now[i]) <= draw by {
                assert(steps[i] <= steps[n - 1]);
            }
            n as int
        } else {
            assert forall|i: int| 0 <= i < r implies (#[trigger] now[i]) <= draw by {
                assert(before[i] <= draw);
            }
            assert forall|i: int| r <= i < n implies (#[trigger] now[i]) > draw by {
                if i < n - 1 {
                    assert(before[i] > draw);
                }
            }
            r
        }
    }
}

/// A sampler gives ranks that it has.
pub proof fn lemma_rank_below(z: &Zipf, stream: Map<nat, u32>)
    requires
        z.well_formed(),
    ensures
        ranked(z.steps@, stream).0 < z.steps@.len(),
{
    let draw = rng::first_u64(stream) / 2048;
    let n = z.steps@.len();
    assert(z.steps.len() == n);
    let r = lemma_some_rank(z.steps@, draw, n);
    assert(z.steps@.take(n as int) =~= z.steps@);
    assert(is_rank(z.steps@, draw, r as usize as int));
    let c = rank_of(z.steps@, draw);
    assert(is_rank(z.steps@, draw, c as int));
    if c == n {
        assert(z.steps@[n - 1] <= draw);
    }
}

} // verus!
