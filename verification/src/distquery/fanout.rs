//! The tail of a fan-out.
//!
//! A server that is slow once in 100 requests is harmless alone, but a query
//! that waits for 100 such servers is slow most of the time. A leaf is fast,
//! uniform between 1 and 10 ms, or stalls for 1000 ms.
//!
//! Latencies are doubles. Those from a millisecond on are multiples of 2^-52 of
//! one, and are kept as such: 2^52 units make a millisecond.

pub use crate::rng::seeded_rng;

use crate::debugging::workload;
use crate::double;
use crate::double::Double;
use crate::rng;
use crate::sorting;
use rand_chacha::ChaCha8Rng;
use vstd::arithmetic::power2::{lemma_pow2_adds, lemma_pow2_pos, pow2};
use vstd::prelude::*;

verus! {

/// Units in a millisecond.
pub const MS: u64 = 0x10_0000_0000_0000;

pub const FAST_MIN_MS: u64 = 0x10_0000_0000_0000;

pub const FAST_MAX_MS: u64 = 0xa0_0000_0000_0000;

pub const SLOW_MS: u64 = 0x3e80_0000_0000_0000;

/// A fast latency: what a draw stands for between 1 and 10 ms, product and sum
/// rounded to 53 bits.
pub open spec fn fast(draw: u64) -> int {
    double::rounded(double::rounded(9 * (draw as int / 4096), 1) + FAST_MIN_MS, 1)
}

/// A latency in milliseconds, as a multiple of the least double.
pub open spec fn in_ms(t: u64) -> int {
    t * pow2(1022)
}

/// A double of at least a millisecond, and at most a stall.
pub open spec fn is_latency(t: u64) -> bool {
    FAST_MIN_MS <= t <= SLOW_MS && double::rounded(t as int, 1) == t
}

proof fn lemma_fast(draw: u64)
    ensures
        FAST_MIN_MS <= fast(draw) < FAST_MAX_MS,
        double::rounded(fast(draw), 1) == fast(draw),
{
    let x = draw as int / 4096;
    vstd::arithmetic::power2::lemma2_to64();
    double::lemma_rounded_monotone(9 * x, 1, 9 * 0x10_0000_0000_0000 - 8, 1);
    double::lemma_rounded_exact(9 * 0x2_0000_0000_0000 - 1, 3, 1);
    let p = double::rounded(9 * x, 1);
    assert(0 <= p <= 9 * 0x10_0000_0000_0000 - 8);
    double::lemma_rounded_monotone(p + FAST_MIN_MS, 1, 10 * 0x10_0000_0000_0000 - 8, 1);
    double::lemma_rounded_exact(10 * 0x2_0000_0000_0000 - 1, 3, 1);
    double::lemma_rounded_monotone(FAST_MIN_MS as int, 1, p + FAST_MIN_MS, 1);
    double::lemma_rounded_exact(0x10_0000_0000_0000, 0, 1);
    double::lemma_rounded_again(p + FAST_MIN_MS, 1);
}

/// A fast latency is the uniform draw between 1 and 10 in double precision; no
/// draw reaches 10.
pub proof fn lemma_fast_is_uniform(draw: u64)
    ensures
        fast(draw) * pow2(1022) == double::uniform(double::one(), 9 * double::one(), draw),
        fast(draw) < FAST_MAX_MS,
{
    let x = draw as int / 4096;
    let (h, u) = (pow2(1022) as int, double::one());
    lemma_fast(draw);
    double::lemma_one();
    lemma_pow2_pos(1022);
    vstd::arithmetic::power2::lemma2_to64();
    vstd::arithmetic::power2::lemma2_to64_rest();
    lemma_pow2_adds(52, 1022);
    // The product.
    assert((x * h) * (9 * u) == ((9 * x) * h) * u) by (nonlinear_arith);
    assert((9 * x) * h >= 0) by (nonlinear_arith)
        requires
            x >= 0,
            h > 0,
    ;
    double::lemma_rounded_scaled_by((9 * x) * h, 1, 1074);
    let p = double::rounded(9 * x, 1);
    assert(double::rounded((9 * x) * h, 1) == p * h) by {
        if 9 * x >= 0x10_0000_0000_0000 {
            double::lemma_rounded_shifted(9 * x, 1, 1022);
            assert(h * p == p * h) by (nonlinear_arith);
        } else {
            double::lemma_rounded_exact(9 * x, 1022, 1);
            double::lemma_rounded_exact(9 * x, 0, 1);
        }
    }
    // The sum.
    assert(p >= 0) by {
        double::lemma_rounded_monotone(9 * x, 1, 9 * x, 1);
    }
    let q = p + FAST_MIN_MS;
    assert(p * h + u == q * h) by (nonlinear_arith)
        requires
            u == 0x10_0000_0000_0000 * h,
            q == p + 0x10_0000_0000_0000,
    ;
    double::lemma_rounded_shifted(q, 1, 1022);
    let f = fast(draw);
    assert(h * f == f * h) by (nonlinear_arith);
}

/// One leaf's latency out of a stream, and the stream that is left.
pub open spec fn leaf(stream: Map<nat, u32>, p_slow: u64) -> (u64, Map<nat, u32>) {
    let rest = rng::skip_words(stream, 2);
    if rng::first_u64(stream) / 2048 < p_slow {
        (SLOW_MS, rest)
    } else {
        (fast(rng::first_u64(rest) as u64) as u64, rng::skip_words(rest, 2))
    }
}

/// The latencies of `n` leaves, and the stream that is left.
pub open spec fn leaves(stream: Map<nat, u32>, p_slow: u64, n: nat) -> (Seq<u64>, Map<nat, u32>)
    decreases n,
{
    if n == 0 {
        (Seq::empty(), stream)
    } else {
        let (before, rest) = leaves(stream, p_slow, (n - 1) as nat);
        let (x, end) = leaf(rest, p_slow);
        (before.push(x), end)
    }
}

/// One leaf's latency: fast, or a stall with probability `p_slow / 2^53`.
pub fn leaf_latency(rng: &mut ChaCha8Rng, p_slow: u64) -> (t: u64)
    ensures
        (t, rng::words(*final(rng))) == leaf(rng::words(*old(rng)), p_slow),
        t == SLOW_MS || FAST_MIN_MS <= t < FAST_MAX_MS,
        is_latency(t),
{
    if rng::coin(rng, p_slow) {
        proof {
            vstd::arithmetic::power2::lemma2_to64();
            vstd::arithmetic::power2::lemma2_to64_rest();
            double::lemma_rounded_exact(1000, 52, 1);
        }
        SLOW_MS
    } else {
        let draw = rng::next_u64(rng);
        proof {
            lemma_fast(draw);
            double::lemma_rounded_monotone(
                9 * (draw as int / 4096),
                1,
                9 * 0x10_0000_0000_0000 - 8,
                1,
            );
            vstd::arithmetic::power2::lemma2_to64();
            double::lemma_rounded_exact(9 * 0x2_0000_0000_0000 - 1, 3, 1);
        }
        double::round_integer(double::round_integer(9 * (draw / 4096)) + FAST_MIN_MS)
    }
}

/// The largest of some latencies, or 0.
pub open spec fn largest(s: Seq<u64>) -> u64
    decreases s.len(),
{
    if s.len() == 0 {
        0
    } else if s.last() > largest(s.drop_last()) {
        s.last()
    } else {
        largest(s.drop_last())
    }
}

/// A scatter-gather that waits for all `n` leaves.
pub fn scatter_gather(rng: &mut ChaCha8Rng, n: usize, p_slow: u64) -> (t: u64)
    ensures
        t == largest(leaves(rng::words(*old(rng)), p_slow, n as nat).0),
        rng::words(*final(rng)) == leaves(rng::words(*old(rng)), p_slow, n as nat).1,
{
    let mut t: u64 = 0;
    for i in 0..n
        invariant
            t == largest(leaves(rng::words(*old(rng)), p_slow, i as nat).0),
            rng::words(*rng) == leaves(rng::words(*old(rng)), p_slow, i as nat).1,
    {
        let x = leaf_latency(rng, p_slow);
        proof {
            let now = leaves(rng::words(*old(rng)), p_slow, (i + 1) as nat).0;
            let before = leaves(rng::words(*old(rng)), p_slow, i as nat).0;
            assert(now.drop_last() =~= before);
        }
        if x > t {
            t = x;
        }
    }
    t
}

/// How many of `n` leaves have to answer: `frac` of them, computed in double
/// precision and rounded up, from 1 to `n`.
pub open spec fn enough(n: nat, frac: Double) -> nat {
    workload::clamped(double::ceiling(double::product(double::of(n as int), frac.value())), n)
}

/// A scatter-gather that returns once `frac` of the leaves answered.
pub fn scatter_gather_frac(rng: &mut ChaCha8Rng, n: usize, p_slow: u64, frac: Double) -> (t: u64)
    requires
        n > 0,
        frac.finite(),
    ensures
        exists|s: Seq<u64>|
            {
                &&& #[trigger] sorting::is_sorted(s)
                &&& s.to_multiset() == leaves(
                    rng::words(*old(rng)),
                    p_slow,
                    n as nat,
                ).0.to_multiset()
                &&& t == s[enough(n as nat, frac) - 1]
            },
        rng::words(*final(rng)) == leaves(rng::words(*old(rng)), p_slow, n as nat).1,
{
    let mut all: Vec<u64> = Vec::new();
    for i in 0..n
        invariant
            (all@, rng::words(*rng)) == leaves(rng::words(*old(rng)), p_slow, i as nat),
            all@.len() == i,
    {
        let x = leaf_latency(rng, p_slow);
        all.push(x);
    }
    let s = sorting::sorted(&all);
    let part = Double::from_u64(n as u64).times(frac);
    proof {
        part.lemma_sign();
        double::lemma_one();
        vstd::arithmetic::div_mod::lemma_div_pos_is_pos(part.value(), double::one());
    }
    let k = part.to_ceiling();
    let at: usize = if k < 1 {
        0
    } else if k > n as u64 {
        n - 1
    } else {
        (k - 1) as usize
    };
    assert(sorting::is_sorted(s@));
    assert(at == enough(n as nat, frac) - 1);
    s[at]
}

/// The entry of a sorted list at the fraction `q` of its length, computed in
/// double precision and rounded down, or its last.
pub fn percentile(sorted: &[u64], q: Double) -> (t: u64)
    requires
        sorted@.len() > 0,
        q.finite(),
    ensures
        ({
            let at = double::floor(double::product(double::of(sorted@.len() as int), q.value()));
            t == sorted@[if at < sorted@.len() {
                at
            } else {
                sorted@.len() - 1
            }]
        }),
{
    let n = sorted.len();
    let at = Double::from_u64(n as u64).times(q);
    proof {
        at.lemma_sign();
        double::lemma_one();
        vstd::arithmetic::div_mod::lemma_div_pos_is_pos(at.value(), double::one());
    }
    let at = at.to_floor();
    if at < n as u64 {
        sorted[at as usize]
    } else {
        sorted[n - 1]
    }
}

/// One slow leaf makes the whole fan-out slow.
pub proof fn lemma_slowest_leaf_decides(s: Seq<u64>, i: int)
    requires
        0 <= i < s.len(),
    ensures
        largest(s) >= s[i],
        s.contains(largest(s)) || largest(s) == 0,
    decreases s.len(),
{
    let r = s.drop_last();
    if i < s.len() - 1 {
        lemma_slowest_leaf_decides(r, i);
        assert(r[i] == s[i]);
    }
    if largest(s) == s.last() {
        assert(s.contains(s.last()));
    } else if r.len() > 0 {
        lemma_slowest_leaf_decides(r, 0);
        if r.contains(largest(r)) {
            let j = choose|j: int| 0 <= j < r.len() && r[j] == largest(r);
            assert(s[j] == largest(r));
        }
    }
}

/// Where leaves never stall they take from 1 to 10 ms, and where they always do a second,
/// in units of 2^-52 ms; the more likely a stall, the more leaves stall on the same draw.
pub proof fn lemma_stalls(stream: Map<nat, u32>, low: u64, high: u64)
    requires
        low <= high,
    ensures
        ({
            let ms = 0x10_0000_0000_0000int;
            let stall = 1000 * ms;
            &&& low == 0 ==> ms <= leaf(stream, low).0 < 10 * ms
            &&& high >= 9_007_199_254_740_992 ==> leaf(stream, high).0 == stall
            &&& leaf(stream, low).0 == stall ==> leaf(stream, high).0 == stall
        }),
{
    let rest = rng::skip_words(stream, 2);
    assert(stream[0] <= 0xffff_ffff && stream[1] <= 0xffff_ffff);
    assert(rest[0] <= 0xffff_ffff && rest[1] <= 0xffff_ffff);
    lemma_fast(rng::first_u64(rest) as u64);
}

} // verus!
