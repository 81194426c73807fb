//! The routing core of an exchange operator.
//!
//! An exchange splits one stream into `k` and fuses `k` sorted streams into
//! one. Round-robin balances to within one row; hash routing sends equal rows
//! to the same output, always.

pub use crate::sharding::placement::splitmix64;

use crate::sharding::placement;
use crate::sorting;
use vstd::multiset::Multiset;
use vstd::prelude::*;

verus! {

#[derive(Clone, Copy, Debug)]
pub enum Partitioning {
    RoundRobin,
    Hash,
}

#[derive(Debug)]
pub struct Exchange {
    pub k: usize,
    pub policy: Partitioning,
    /// Round-robin cursor; persists across `partition` calls.
    pub next_output: usize,
}

/// The output of row `i` of the input.
pub open spec fn output_of(policy: Partitioning, k: int, next: int, input: Seq<u64>, i: int) -> int {
    match policy {
        Partitioning::RoundRobin => (next + i) % k,
        Partitioning::Hash => placement::mixed(input[i]) as int % k,
    }
}

/// The first `n` rows that go to output `o`, in order.
pub open spec fn routed(
    policy: Partitioning,
    k: int,
    next: int,
    input: Seq<u64>,
    o: int,
    n: nat,
) -> Seq<u64>
    decreases n,
{
    if n == 0 {
        Seq::empty()
    } else {
        let before = routed(policy, k, next, input, o, (n - 1) as nat);
        if output_of(policy, k, next, input, n - 1) == o {
            before.push(input[n - 1])
        } else {
            before
        }
    }
}

impl Exchange {
    pub open spec fn well_formed(&self) -> bool {
        self.next_output < self.k
    }

    pub fn new(k: usize, policy: Partitioning) -> (e: Exchange)
        requires
            k > 0,
        ensures
            e.well_formed(),
            e.k == k,
            e.policy == policy,
            e.next_output == 0,
    {
        Exchange { k, policy, next_output: 0 }
    }

    /// Routes every row to one of `k` outputs.
    pub fn partition(&mut self, input: &[u64]) -> (out: Vec<Vec<u64>>)
        requires
            old(self).well_formed(),
        ensures
            final(self).well_formed(),
            final(self).k == old(self).k,
            final(self).policy == old(self).policy,
            final(self).next_output == match old(self).policy {
                Partitioning::RoundRobin => (old(self).next_output + input@.len()) % old(self).k as int,
                Partitioning::Hash => old(self).next_output as int,
            },
            out@.len() == old(self).k,
            forall|o: int|
                0 <= o < out@.len() ==> (#[trigger] out@[o])@ == routed(
                    old(self).policy,
                    old(self).k as int,
                    old(self).next_output as int,
                    input@,
                    o,
                    input@.len(),
                ),
    {
        let k = self.k;
        let policy = self.policy;
        let ghost next = self.next_output as int;
        let mut out: Vec<Vec<u64>> = crate::math::empty_lists(k);
        proof {
            vstd::arithmetic::div_mod::lemma_small_mod(next as nat, k as nat);
        }
        for i in 0..input.len()
            invariant
                k > 0,
                k == self.k,
                policy == self.policy,
                self.k == old(self).k,
                self.policy == old(self).policy,
                self.next_output < k,
                next == old(self).next_output,
                self.next_output == match policy {
                    Partitioning::RoundRobin => (next + i) % k as int,
                    Partitioning::Hash => next,
                },
                out@.len() == k,
                forall|o: int|
                    0 <= o < k ==> (#[trigger] out@[o])@ == routed(
                        policy,
                        k as int,
                        next,
                        input@,
                        o,
                        i as nat,
                    ),
        {
            let row = input[i];
            let o: usize = match policy {
                Partitioning::RoundRobin => {
                    let o = self.next_output;
                    proof {
                        lemma_rotate(next + i, k as int);
                    }
                    self.next_output = if o + 1 == k {
                        0
                    } else {
                        o + 1
                    };
                    o
                },
                Partitioning::Hash => (splitmix64(row) % k as u64) as usize,
            };
            assert(o == output_of(policy, k as int, next, input@, i as int));
            out[o].push(row);
        }
        out
    }
}

/// Adding one to a remainder: it goes up by one, or back to 0.
proof fn lemma_rotate(a: int, k: int)
    requires
        a >= 0,
        k > 0,
    ensures
        (a + 1) % k == (if a % k + 1 == k {
            0
        } else {
            a % k + 1
        }),
{
    vstd::arithmetic::div_mod::lemma_fundamental_div_mod(a, k);
    let q = a / k;
    let r = a % k;
    if r + 1 == k {
        assert(a + 1 == k * (q + 1)) by (nonlinear_arith)
            requires
                a == k * q + r,
                r + 1 == k,
        ;
        vstd::arithmetic::div_mod::lemma_fundamental_div_mod_converse(a + 1, k, q + 1, 0);
    } else {
        assert(a + 1 == q * k + (r + 1)) by (nonlinear_arith)
            requires
                a == k * q + r,
        ;
        vstd::arithmetic::div_mod::lemma_fundamental_div_mod_converse(a + 1, k, q, r + 1);
    }
}

/// The rows of the first `k` outputs together.
pub open spec fn all_rows(out: Seq<Seq<u64>>, k: nat) -> Multiset<u64>
    decreases k,
{
    if k == 0 {
        Multiset::empty()
    } else {
        all_rows(out, (k - 1) as nat).add(out[k - 1].to_multiset())
    }
}

/// The outputs of a call.
pub open spec fn outputs(policy: Partitioning, k: int, next: int, input: Seq<u64>, n: nat) -> Seq<
    Seq<u64>,
> {
    Seq::new(k as nat, |o: int| routed(policy, k, next, input, o, n))
}

proof fn lemma_one_more_row(before: Seq<Seq<u64>>, after: Seq<Seq<u64>>, at: int, x: u64, k: nat)
    requires
        before.len() == after.len(),
        k <= before.len(),
        0 <= at < before.len(),
        forall|o: int|
            0 <= o < before.len() ==> #[trigger] after[o] == (if o == at {
                before[o].push(x)
            } else {
                before[o]
            }),
    ensures
        all_rows(after, k) == (if at < k {
            all_rows(before, k).insert(x)
        } else {
            all_rows(before, k)
        }),
    decreases k,
{
    if k > 0 {
        lemma_one_more_row(before, after, at, x, (k - 1) as nat);
        assert(after[k - 1] == (if k - 1 == at {
            before[k - 1].push(x)
        } else {
            before[k - 1]
        }));
        if k - 1 == at {
            vstd::seq_lib::to_multiset_build(before[k - 1], x);
        }
        assert(all_rows(after, k) =~= (if at < k {
            all_rows(before, k).insert(x)
        } else {
            all_rows(before, k)
        }));
    }
}

proof fn lemma_no_row(s: Seq<u64>)
    requires
        s.len() == 0,
    ensures
        s.to_multiset() == Multiset::<u64>::empty(),
{
    s.to_multiset_ensures();
    assert forall|x: u64| s.to_multiset().count(x) == 0 by {
        assert(!s.contains(x));
    }
    assert(s.to_multiset() =~= Multiset::<u64>::empty());
}

proof fn lemma_no_rows(out: Seq<Seq<u64>>, k: nat)
    requires
        k <= out.len(),
        forall|o: int| 0 <= o < out.len() ==> (#[trigger] out[o]).len() == 0,
    ensures
        all_rows(out, k) == Multiset::<u64>::empty(),
    decreases k,
{
    if k > 0 {
        lemma_no_rows(out, (k - 1) as nat);
        assert(out[k - 1].len() == 0);
        lemma_no_row(out[k - 1]);
        assert(all_rows(out, k) =~= Multiset::<u64>::empty());
    }
}

/// Routing is complete: the outputs together hold every row of the input,
/// each as often as it came.
pub proof fn lemma_every_row_once(
    policy: Partitioning,
    k: int,
    next: int,
    input: Seq<u64>,
    n: nat,
)
    requires
        0 < k,
        0 <= next,
        n <= input.len(),
    ensures
        all_rows(outputs(policy, k, next, input, n), k as nat) == input.take(n as int).to_multiset(),
    decreases n,
{
    let after = outputs(policy, k, next, input, n);
    if n == 0 {
        lemma_no_rows(after, k as nat);
        assert(input.take(0) =~= Seq::<u64>::empty());
        lemma_no_row(input.take(0));
    } else {
        let before = outputs(policy, k, next, input, (n - 1) as nat);
        lemma_every_row_once(policy, k, next, input, (n - 1) as nat);
        let at = output_of(policy, k, next, input, n - 1);
        let x = input[n - 1];
        assert(0 <= at < k);
        lemma_one_more_row(before, after, at, x, k as nat);
        assert(input.take(n as int) =~= input.take(n - 1).push(x));
        vstd::seq_lib::to_multiset_build(input.take(n - 1), x);
    }
}

/// How many of `n` rows go to output `o` in rotation.
pub proof fn lemma_round_robin_share(k: int, next: int, input: Seq<u64>, o: int, n: nat)
    requires
        0 <= o < k,
        0 <= next < k,
    ensures
        ({
            let size = routed(Partitioning::RoundRobin, k, next, input, o, n).len();
            let turns = (next + n - 1 - o) as int;
            size == (turns + k) / k - (if next > o {
                1int
            } else {
                0
            })
        }),
    decreases n,
{
    if n == 0 {
        if next > o {
            vstd::arithmetic::div_mod::lemma_fundamental_div_mod_converse(
                next - 1 - o + k,
                k,
                1,
                next - 1 - o,
            );
        } else {
            vstd::arithmetic::div_mod::lemma_fundamental_div_mod_converse(
                next - 1 - o + k,
                k,
                0,
                next - 1 - o + k,
            );
        }
    } else {
        lemma_round_robin_share(k, next, input, o, (n - 1) as nat);
        // One step on: the quotient goes up just when the row is for `o`.
        let a = next + n - 1 - o + k - 1;
        assert(a >= 0);
        lemma_step_quotient(a, k);
        let i = next + n - 1;
        vstd::arithmetic::div_mod::lemma_fundamental_div_mod(i, k);
        let q = i / k;
        let r = i % k;
        // a + 1 = i - o + k
        if r == o {
            assert(a + 1 == (q + 1) * k) by (nonlinear_arith)
                requires
                    i == k * q + r,
                    a + 1 == i - o + k,
                    r == o,
            ;
            vstd::arithmetic::div_mod::lemma_fundamental_div_mod_converse(a + 1, k, q + 1, 0);
        } else if r > o {
            assert(a + 1 == (q + 1) * k + (r - o)) by (nonlinear_arith)
                requires
                    i == k * q + r,
                    a + 1 == i - o + k,
            ;
            vstd::arithmetic::div_mod::lemma_fundamental_div_mod_converse(a + 1, k, q + 1, r - o);
        } else {
            assert(a + 1 == q * k + (r - o + k)) by (nonlinear_arith)
                requires
                    i == k * q + r,
                    a + 1 == i - o + k,
            ;
            vstd::arithmetic::div_mod::lemma_fundamental_div_mod_converse(a + 1, k, q, r - o + k);
        }
    }
}

/// The quotient goes up just where the remainder comes back to 0.
proof fn lemma_step_quotient(a: int, k: int)
    requires
        a >= 0,
        k > 0,
    ensures
        (a + 1) / k == a / k + (if (a + 1) % k == 0 {
            1int
        } else {
            0
        }),
{
    lemma_rotate(a, k);
    vstd::arithmetic::div_mod::lemma_fundamental_div_mod(a, k);
    vstd::arithmetic::div_mod::lemma_fundamental_div_mod(a + 1, k);
    let q = a / k;
    let r = a % k;
    if r + 1 == k {
        assert(a + 1 == (q + 1) * k) by (nonlinear_arith)
            requires
                a == k * q + r,
                r + 1 == k,
        ;
        vstd::arithmetic::div_mod::lemma_fundamental_div_mod_converse(a + 1, k, q + 1, 0);
    } else {
        assert(a + 1 == q * k + (r + 1)) by (nonlinear_arith)
            requires
                a == k * q + r,
        ;
        vstd::arithmetic::div_mod::lemma_fundamental_div_mod_converse(a + 1, k, q, r + 1);
    }
}

/// Round-robin balances to within one row.
pub proof fn lemma_round_robin_balances(
    k: int,
    next: int,
    input: Seq<u64>,
    a: int,
    b: int,
    n: nat,
)
    requires
        0 <= a < k,
        0 <= b < k,
        0 <= next < k,
    ensures
        routed(Partitioning::RoundRobin, k, next, input, a, n).len() <= routed(
            Partitioning::RoundRobin,
            k,
            next,
            input,
            b,
            n,
        ).len() + 1,
{
    lemma_round_robin_share(k, next, input, a, n);
    lemma_round_robin_share(k, next, input, b, n);
    lemma_share_bounds(k, next, n as int, a);
    lemma_share_bounds(k, next, n as int, b);
}

/// The share of an output is the mean, rounded down or up.
proof fn lemma_share_bounds(k: int, next: int, n: int, o: int)
    requires
        0 <= o < k,
        0 <= next < k,
        0 <= n,
    ensures
        ({
            let size = (next + n - 1 - o + k) / k - (if next > o {
                1int
            } else {
                0
            });
            n / k <= size <= n / k + 1
        }),
{
    let x = next + n - 1 - o + k;
    vstd::arithmetic::div_mod::lemma_fundamental_div_mod(x, k);
    vstd::arithmetic::div_mod::lemma_fundamental_div_mod(n, k);
    let d = x / k;
    let m = n / k;
    if next > o {
        // n + k <= x < n + 2k - 1
        assert(m + 1 <= d <= m + 2) by (nonlinear_arith)
            requires
                x == k * d + x % k,
                0 <= x % k < k,
                n == k * m + n % k,
                0 <= n % k < k,
                n + k <= x < n + 2 * k,
                k > 0,
        ;
    } else {
        // n <= x < n + k
        assert(m <= d <= m + 1) by (nonlinear_arith)
            requires
                x == k * d + x % k,
                0 <= x % k < k,
                n == k * m + n % k,
                0 <= n % k < k,
                n <= x < n + k,
                k > 0,
        ;
    }
}

/// The rows of the runs from `lo` to `hi` together.
pub open spec fn run_rows(runs: Seq<Vec<u64>>, lo: int, hi: int) -> Multiset<u64>
    decreases hi - lo,
{
    if lo >= hi {
        Multiset::empty()
    } else {
        run_rows(runs, lo, hi - 1).add(runs[hi - 1]@.to_multiset())
    }
}

/// How many rows the runs from `lo` to `hi` hold.
pub open spec fn run_total(runs: Seq<Vec<u64>>, lo: int, hi: int) -> nat
    decreases hi - lo,
{
    if lo >= hi {
        0
    } else {
        run_total(runs, lo, hi - 1) + runs[hi - 1]@.len()
    }
}

proof fn lemma_runs_split(runs: Seq<Vec<u64>>, lo: int, mid: int, hi: int)
    requires
        lo <= mid <= hi,
    ensures
        run_rows(runs, lo, hi) == run_rows(runs, lo, mid).add(run_rows(runs, mid, hi)),
        run_total(runs, lo, hi) == run_total(runs, lo, mid) + run_total(runs, mid, hi),
    decreases hi - mid,
{
    if mid < hi {
        lemma_runs_split(runs, lo, mid, hi - 1);
        assert(run_rows(runs, lo, hi) =~= run_rows(runs, lo, mid).add(run_rows(runs, mid, hi)));
    } else {
        assert(run_rows(runs, lo, hi) =~= run_rows(runs, lo, mid).add(run_rows(runs, mid, hi)));
    }
}

fn merge_range(runs: &[Vec<u64>], lo: usize, hi: usize) -> (r: Vec<u64>)
    requires
        lo < hi <= runs@.len(),
        forall|i: int| 0 <= i < runs@.len() ==> sorting::is_sorted((#[trigger] runs@[i])@),
        run_total(runs@, lo as int, hi as int) <= usize::MAX,
    ensures
        sorting::is_sorted(r@),
        r@.len() == run_total(runs@, lo as int, hi as int),
        r@.to_multiset() == run_rows(runs@, lo as int, hi as int),
    decreases hi - lo,
{
    if hi - lo == 1 {
        assert(run_rows(runs@, lo as int, lo as int) =~= Multiset::empty());
        assert(run_total(runs@, lo as int, lo as int) == 0);
        assert(run_rows(runs@, lo as int, hi as int) =~= runs@[lo as int]@.to_multiset());
        return runs[lo].clone();
    }
    let mid = lo + (hi - lo) / 2;
    proof {
        lemma_runs_split(runs@, lo as int, mid as int, hi as int);
    }
    let a = merge_range(runs, lo, mid);
    let b = merge_range(runs, mid, hi);
    sorting::merge(&a, &b)
}

/// Fuses sorted runs into one sorted run with the same rows.
pub fn merge_sorted(runs: &[Vec<u64>]) -> (r: Vec<u64>)
    requires
        forall|i: int| 0 <= i < runs@.len() ==> sorting::is_sorted((#[trigger] runs@[i])@),
        run_total(runs@, 0, runs@.len() as int) <= usize::MAX,
    ensures
        sorting::is_sorted(r@),
        r@.len() == run_total(runs@, 0, runs@.len() as int),
        r@.to_multiset() == run_rows(runs@, 0, runs@.len() as int),
{
    if runs.len() == 0 {
        let r: Vec<u64> = Vec::new();
        proof {
            lemma_no_row(r@);
        }
        return r;
    }
    merge_range(runs, 0, runs.len())
}

} // verus!
