//! A service with rare stalls on a virtual clock, measured two ways.

use crate::double;
use crate::double::Double;
use crate::sorting;
use vstd::prelude::*;

verus! {

/// A service that takes `service_ns` per op, except every `stall_every`-th op
/// behind the first, which takes `stall_ns`.
#[derive(Clone, Copy, Debug)]
pub struct StallModel {
    pub service_ns: u64,
    pub stall_every: u64,
    pub stall_ns: u64,
}

impl StallModel {
    /// The time that op `i` takes.
    pub open spec fn takes(&self, i: int) -> u64 {
        if i > 0 && i % self.stall_every as int == 0 {
            self.stall_ns
        } else {
            self.service_ns
        }
    }

    pub fn service_time(&self, i: u64) -> (t: u64)
        requires
            i > 0 ==> self.stall_every > 0,
        ensures
            t == self.takes(i as int),
    {
        if i > 0 && i % self.stall_every == 0 {
            self.stall_ns
        } else {
            self.service_ns
        }
    }
}

/// Closed-loop measurement: the client sends the next request only after the
/// previous response. Each stall is seen by one sample; the requests that
/// would have been sent during it never exist.
pub fn closed_loop(n: u64, m: StallModel) -> (lat: Vec<u64>)
    requires
        n > 1 ==> m.stall_every > 0,
        n <= usize::MAX,
    ensures
        lat@ == Seq::new(n as nat, |i: int| m.takes(i)),
{
    let mut lat: Vec<u64> = Vec::new();
    for i in 0..n
        invariant
            n > 1 ==> m.stall_every > 0,
            lat@ == Seq::new(i as nat, |i: int| m.takes(i)),
    {
        lat.push(m.service_time(i));
        assert(lat@ =~= Seq::new((i + 1) as nat, |i: int| m.takes(i)));
    }
    lat
}

/// When the server is free again after the first `n` ops, which arrive
/// `interval` apart.
pub open spec fn free_after(m: StallModel, interval: nat, n: nat) -> nat
    decreases n,
{
    if n == 0 {
        0
    } else {
        let before = free_after(m, interval, (n - 1) as nat);
        let intended = ((n - 1) * interval) as nat;
        (if intended > before {
            intended
        } else {
            before
        }) + m.takes(n - 1) as nat
    }
}

/// The latency of op `i` from its intended start.
pub open spec fn open_latency(m: StallModel, interval: nat, i: int) -> int {
    free_after(m, interval, (i + 1) as nat) - i * interval
}

proof fn lemma_free_monotone(m: StallModel, interval: nat, k: nat, n: nat)
    requires
        k <= n,
    ensures
        free_after(m, interval, k) <= free_after(m, interval, n),
    decreases n,
{
    if k < n {
        lemma_free_monotone(m, interval, k, (n - 1) as nat);
    }
}

/// Open-loop measurement: requests arrive on a fixed schedule whether or not
/// the server is ready, and each is charged its full wait from its intended
/// start.
pub fn open_loop(n: u64, m: StallModel, interval_ns: u64) -> (lat: Vec<u64>)
    requires
        n > 1 ==> m.stall_every > 0,
        n <= usize::MAX,
        free_after(m, interval_ns as nat, n as nat) <= u64::MAX,
    ensures
        lat@.len() == n,
        forall|i: int|
            0 <= i < n ==> #[trigger] lat@[i] == open_latency(m, interval_ns as nat, i),
{
    let mut lat: Vec<u64> = Vec::new();
    let mut server_free: u64 = 0;
    let ghost gap = interval_ns as nat;
    for i in 0..n
        invariant
            n > 1 ==> m.stall_every > 0,
            gap == interval_ns,
            free_after(m, gap, n as nat) <= u64::MAX,
            server_free == free_after(m, gap, i as nat),
            lat@.len() == i,
            forall|j: int| 0 <= j < i ==> #[trigger] lat@[j] == open_latency(m, gap, j),
    {
        proof {
            lemma_free_monotone(m, gap, (i + 1) as nat, n as nat);
            assert(i * gap >= 0) by (nonlinear_arith)
                requires
                    gap >= 0,
                    i >= 0,
            ;
        }
        let intended = i * interval_ns;
        let start = if intended > server_free {
            intended
        } else {
            server_free
        };
        let done = start + m.service_time(i);
        server_free = done;
        lat.push(done - intended);
    }
    lat
}

/// The open loop never reports less than the closed loop: what a stall delays
/// is charged, not omitted.
pub proof fn lemma_open_loop_charges_more(m: StallModel, interval: nat, i: int)
    requires
        0 <= i,
    ensures
        open_latency(m, interval, i) >= m.takes(i),
{
}

/// A request that finds the last one unfinished waits for the rest of it.
pub proof fn lemma_queueing(m: StallModel, interval: nat, i: int)
    requires
        0 <= i,
    ensures
        open_latency(m, interval, i + 1) == (if open_latency(m, interval, i) > interval {
            open_latency(m, interval, i) - interval
        } else {
            0
        }) + m.takes(i + 1),
{
    assert((i + 1) * interval == i * interval + interval) by (nonlinear_arith);
}

proof fn lemma_free_in_time(m: StallModel, interval: nat, n: nat)
    requires
        interval >= m.service_ns,
        interval >= m.stall_ns,
    ensures
        free_after(m, interval, n) <= n * interval,
    decreases n,
{
    if n > 0 {
        lemma_free_in_time(m, interval, (n - 1) as nat);
        assert(n * interval == (n - 1) * interval + interval) by (nonlinear_arith);
    } else {
        assert(n * interval == 0) by (nonlinear_arith)
            requires
                n == 0,
        ;
    }
}

/// Where the interval covers service and stall, nothing ever waits and both
/// loops report the same.
pub proof fn lemma_loops_agree_without_queueing(m: StallModel, interval: nat, i: int)
    requires
        0 <= i,
        interval >= m.service_ns,
        interval >= m.stall_ns,
    ensures
        open_latency(m, interval, i) == m.takes(i),
{
    lemma_free_in_time(m, interval, i as nat);
}

/// How late the last of `n` ops can be: the schedule, and every op on top.
pub proof fn lemma_free_bound(m: StallModel, interval: nat, n: nat)
    ensures
        free_after(m, interval, n) <= n * interval + n * (if m.service_ns > m.stall_ns {
            m.service_ns
        } else {
            m.stall_ns
        }),
    decreases n,
{
    let most: int = if m.service_ns > m.stall_ns {
        m.service_ns as int
    } else {
        m.stall_ns as int
    };
    if n > 0 {
        lemma_free_bound(m, interval, (n - 1) as nat);
        assert(n * interval == (n - 1) * interval + interval) by (nonlinear_arith);
        assert(n * most == (n - 1) * most + most) by (nonlinear_arith);
        assert((n - 1) * most >= 0) by (nonlinear_arith)
            requires
                n >= 1,
                most >= 0,
        ;
    }
}

/// `r`, but from 1 to `n`.
pub open spec fn clamped(r: int, n: nat) -> nat {
    if r < 1 {
        1
    } else if r > n {
        n
    } else {
        r as nat
    }
}

/// The rank of the percentile `p` among `n` samples, computed in double
/// precision: the smallest that covers that part of them, from 1 to `n`.
pub open spec fn nearest_rank(n: nat, p: Double) -> nat {
    let part = double::quotient(p.value(), double::of(100));
    clamped(double::ceiling(double::product(part, double::of(n as int))), n)
}

pub fn rank_of(n: u64, p: Double) -> (r: u64)
    requires
        p.finite(),
        n > 0,
    ensures
        r == nearest_rank(n as nat, p),
        1 <= r <= n,
{
    let hundred = Double::from_u64(100);
    proof {
        double::lemma_of_exact(100);
        double::lemma_one();
        hundred.lemma_sign();
    }
    let r = p.over(hundred).times(Double::from_u64(n)).to_ceiling();
    if r < 1 {
        1
    } else if r > n {
        n
    } else {
        r
    }
}

/// Nearest-rank percentile. Sorts the samples.
pub fn percentile(samples: &mut Vec<u64>, p: Double) -> (v: u64)
    requires
        old(samples)@.len() > 0,
        p.finite(),
    ensures
        sorting::is_sorted(final(samples)@),
        final(samples)@.to_multiset() == old(samples)@.to_multiset(),
        final(samples)@.len() == old(samples)@.len(),
        v == final(samples)@[nearest_rank(old(samples)@.len(), p) - 1],
{
    let s = sorting::sorted(samples);
    *samples = s;
    let rank = rank_of(samples.len() as u64, p);
    samples[(rank - 1) as usize]
}

/// Of the ops of a period one stalls, its last, and the first op never does.
pub proof fn lemma_one_stall_per_period(m: StallModel, k: int, i: int)
    requires
        m.stall_every > 0,
        k >= 0,
        0 < i < m.stall_every,
    ensures
        m.takes(0) == m.service_ns,
        m.takes(k * m.stall_every + i) == m.service_ns,
        m.takes((k + 1) * m.stall_every) == m.stall_ns,
{
    let e = m.stall_every as int;
    vstd::arithmetic::div_mod::lemma_fundamental_div_mod_converse(k * e + i, e, k, i);
    vstd::arithmetic::div_mod::lemma_mod_multiples_basic(k + 1, e);
    assert((k + 1) * e > 0) by (nonlinear_arith)
        requires
            k >= 0,
            e > 0,
    ;
}

} // verus!
