//! What happens to a request, from its arrival to its last retry.

use crate::overload::admission;
use crate::overload::sim;
use crate::overload::sim::{Attempt, Books, Dagor, NoPolicy, Policy, RetryBudget, SimConfig};
use crate::overload::tokenbucket;
use vstd::prelude::*;

verus! {

/// The time falls into second `w`.
pub open spec fn in_second(time: int, w: int) -> bool {
    w * 1_000_000_000 <= time < (w + 1) * 1_000_000_000
}

/// One where it holds.
pub open spec fn one_if(b: bool) -> int {
    if b {
        1
    } else {
        0
    }
}

/// Originals come one after the other, as often per second as the load says, for
/// as long as the run lasts, each with all its retries and the priorities in turn.
pub proof fn lemma_originals(cfg: SimConfig, i: int)
    requires
        cfg.fits(),
        i >= 0,
    ensures
        ({
            let all = sim::opening(cfg).pending;
            let gap = cfg.interval();
            &&& gap >= 1
            &&& gap * cfg.load_qps <= 1_000_000_000 < (gap + 1) * cfg.load_qps
            &&& i < all.len() <==> i * gap < cfg.duration_ns
            &&& i < all.len() ==> all[i].arrival == i * gap && all[i].retries_left
                == cfg.max_retries && all[i].seq == i && all[i].priority < 255 + 1 && (
            cfg.priority_levels > 1 ==> all[i].priority == i % (cfg.priority_levels as int)) && (
            cfg.priority_levels <= 1 ==> all[i].priority == 0)
        }),
{
    let (gap, load, d) = (cfg.interval(), cfg.load_qps as int, cfg.duration_ns as int);
    vstd::arithmetic::div_mod::lemma_fundamental_div_mod(1_000_000_000, load);
    vstd::arithmetic::div_mod::lemma_mod_bound(1_000_000_000, load);
    assert(gap >= 1) by (nonlinear_arith)
        requires
            1_000_000_000 < load * gap + load,
            load <= 1_000_000_000,
            load > 0,
    ;
    assert(gap * load == load * gap && (gap + 1) * load == load * gap + load) by (nonlinear_arith);
    if d > 0 {
        let q = (d - 1) / gap;
        vstd::arithmetic::div_mod::lemma_fundamental_div_mod(d - 1, gap);
        vstd::arithmetic::div_mod::lemma_mod_bound(d - 1, gap);
        if i <= q {
            assert(i * gap <= gap * q) by (nonlinear_arith)
                requires
                    i <= q,
                    gap >= 1,
            ;
        } else {
            assert(i * gap >= gap * q + gap) by (nonlinear_arith)
                requires
                    i >= q + 1,
                    gap >= 1,
            ;
        }
        assert(q >= 0) by (nonlinear_arith)
            requires
                d - 1 < gap * q + gap,
                d >= 1,
                gap >= 1,
        ;
    } else {
        assert(i * gap >= 0) by (nonlinear_arith)
            requires
                i >= 0,
                gap >= 1,
        ;
    }
    let n = cfg.levels() as int;
    let m = i % n;
    assert(0 <= m < n);
    if n == 1 {
        assert(m == 0);
    }
}

/// The turn of one attempt, in plain times: the earliest attempt is taken, of several
/// the one made first. One that
/// is rejected costs the server nothing. One that is served starts when it has
/// come, the server is free and there is no outage, and not later; it counts where
/// it ends within the timeout.
pub open spec fn is_turn(cfg: SimConfig, s: Books, t: Books, i: int, admitted: bool) -> bool {
    let a = s.pending[i];
    let begin = t.server_free - cfg.service_ns;
    let latency = t.server_free - a.arrival;
    let good = admitted && latency <= cfg.timeout_ns;
    let outage_end = cfg.outage_start_ns + cfg.outage_ns;
    &&& 0 <= i < s.pending.len()
    &&& forall|j: int|
        0 <= j < s.pending.len() ==> a.arrival <= (#[trigger] s.pending[j]).arrival && (
        s.pending[j].arrival == a.arrival ==> a.seq <= s.pending[j].seq)
    &&& !admitted ==> t.server_free == s.server_free
    &&& admitted ==> {
        &&& a.arrival <= begin
        &&& s.server_free <= begin
        &&& !(cfg.outage_start_ns <= begin < outage_end)
        &&& begin == a.arrival || begin == s.server_free || (begin == outage_end && (
        cfg.outage_start_ns <= a.arrival || cfg.outage_start_ns <= s.server_free))
    }
    &&& t.latencies == if good {
        s.latencies.push(latency)
    } else {
        s.latencies
    }
    &&& t.windows.len() == s.windows.len()
    &&& forall|w: int| #![trigger t.windows[w]]
        0 <= w < t.windows.len() ==> {
            &&& t.windows[w].0 == s.windows[w].0 + one_if(in_second(a.arrival, w))
            &&& t.windows[w].1 == s.windows[w].1 + one_if(!admitted && in_second(a.arrival, w))
            &&& t.windows[w].2 == s.windows[w].2 + one_if(good && in_second(t.server_free, w))
        }
    &&& t.per_priority.len() == s.per_priority.len()
    &&& forall|p: int| #![trigger t.per_priority[p]]
        0 <= p < t.per_priority.len() ==> {
            &&& t.per_priority[p].0 == s.per_priority[p].0 + one_if(good && p == a.priority)
            &&& t.per_priority[p].1 == s.per_priority[p].1 + one_if(p == a.priority)
        }
}

/// The next attempt of the same request: one timeout later, with one retry less.
pub open spec fn is_retry_of(cfg: SimConfig, a: Attempt, b: Attempt) -> bool {
    &&& b.arrival == a.arrival + cfg.timeout_ns
    &&& b.retries_left == a.retries_left - 1
    &&& b.priority == a.priority
}

/// Where the attempt at place `i` goes: it is gone, or its retry has joined.
pub open spec fn is_followed(cfg: SimConfig, s: Books, t: Books, i: int, retried: bool) -> bool {
    let rest = s.pending.remove(i);
    if retried {
        &&& t.pending.len() == s.pending.len()
        &&& t.pending.drop_last() == rest
        &&& is_retry_of(cfg, s.pending[i], t.pending.last())
        &&& t.pending.last().seq == s.next_seq
        &&& t.next_seq == s.next_seq + 1
    } else {
        t.pending == rest && t.next_seq == s.next_seq
    }
}

proof fn lemma_seconds(time: int, w: int)
    ensures
        in_second(time, w) <==> w == time / 1_000_000_000,
{
    vstd::arithmetic::div_mod::lemma_fundamental_div_mod(time, 1_000_000_000);
    vstd::arithmetic::div_mod::lemma_mod_bound(time, 1_000_000_000);
}

/// What serving or rejecting an attempt comes to.
proof fn lemma_served(cfg: SimConfig, b: Books, i: int, admitted: bool, retried: bool)
    requires
        sim::is_next(b.pending, i),
        forall|j: int| 0 <= j < b.pending.len() ==> (#[trigger] b.pending[j]).arrival >= 0
            && b.pending[j].priority < b.per_priority.len(),
    ensures
        ({
            let t = sim::served(cfg, b, i, admitted, retried);
            let late = admitted && t.server_free - b.pending[i].arrival > cfg.timeout_ns;
            &&& is_turn(cfg, b, t, i, admitted)
            &&& is_followed(cfg, b, t, i, late && retried)
            &&& admitted ==> t.server_free - cfg.service_ns == sim::start_of(cfg, b, b.pending[i])
            &&& admitted ==> (late <==> sim::latency_of(cfg, b, b.pending[i]) > cfg.timeout_ns)
        }),
{
    let t = sim::served(cfg, b, i, admitted, retried);
    let a = b.pending[i];
    assert forall|j: int| 0 <= j < b.pending.len() implies a.arrival <= (
    #[trigger] b.pending[j]).arrival && (b.pending[j].arrival == a.arrival ==> a.seq
        <= b.pending[j].seq) by {}
    let done = sim::start_of(cfg, b, a) + cfg.service_ns;
    assert forall|w: int| #![trigger t.windows[w]] 0 <= w < t.windows.len() implies {
        let good = admitted && t.server_free - a.arrival <= cfg.timeout_ns;
        &&& t.windows[w].0 == b.windows[w].0 + one_if(in_second(a.arrival, w))
        &&& t.windows[w].1 == b.windows[w].1 + one_if(!admitted && in_second(a.arrival, w))
        &&& t.windows[w].2 == b.windows[w].2 + one_if(good && in_second(t.server_free, w))
    } by {
        lemma_seconds(a.arrival, w);
        lemma_seconds(done, w);
    }
    if admitted && done - a.arrival > cfg.timeout_ns && retried {
        assert(t.pending.drop_last() =~= b.pending.remove(i));
    }
}

/// Whatever the policy, a turn is what `is_turn` says; a retry joins only where the
/// attempt was served, timed out and had a retry left.
pub proof fn lemma_turn<P: Policy>(cfg: SimConfig, s: (Books, P), t: (Books, P)) -> (r: (
    int,
    bool,
    bool,
))
    requires
        sim::turn(cfg, s, t),
        forall|j: int| 0 <= j < s.0.pending.len() ==> (#[trigger] s.0.pending[j]).arrival >= 0
            && s.0.pending[j].priority < s.0.per_priority.len(),
    ensures
        is_turn(cfg, s.0, t.0, r.0, r.1),
        is_followed(cfg, s.0, t.0, r.0, r.2),
        r.2 ==> r.1 && t.0.server_free - s.0.pending[r.0].arrival > cfg.timeout_ns
            && s.0.pending[r.0].retries_left > 0,
{
    let (i, admitted, retried) = choose|i: int, admitted: bool, retried: bool|
        {
            &&& sim::is_next(s.0.pending, i)
            &&& sim::consulted(cfg, s.0, s.0.pending[i], s.1, t.1, admitted, retried)
            &&& t.0 == #[trigger] sim::served(cfg, s.0, i, admitted, retried)
        };
    lemma_served(cfg, s.0, i, admitted, retried);
    let late = t.0.server_free - s.0.pending[i].arrival > cfg.timeout_ns;
    (i, admitted, admitted && late && retried)
}

/// Without a policy everything is served, and an attempt that times out is retried
/// exactly when it has a retry left.
pub proof fn lemma_every_retry_is_made(
    cfg: SimConfig,
    s: (Books, NoPolicy),
    t: (Books, NoPolicy),
) -> (i: int)
    requires
        sim::turn(cfg, s, t),
        forall|j: int| 0 <= j < s.0.pending.len() ==> (#[trigger] s.0.pending[j]).arrival >= 0
            && s.0.pending[j].priority < s.0.per_priority.len(),
    ensures
        is_turn(cfg, s.0, t.0, i, true),
        is_followed(
            cfg,
            s.0,
            t.0,
            i,
            t.0.server_free - s.0.pending[i].arrival > cfg.timeout_ns && s.0.pending[i].retries_left
                > 0,
        ),
{
    let (i, admitted, retried) = choose|i: int, admitted: bool, retried: bool|
        {
            &&& sim::is_next(s.0.pending, i)
            &&& sim::consulted(cfg, s.0, s.0.pending[i], s.1, t.1, admitted, retried)
            &&& t.0 == #[trigger] sim::served(cfg, s.0, i, admitted, retried)
        };
    lemma_served(cfg, s.0, i, admitted, retried);
    assert(admitted);
    i
}

/// With a retry budget everything is served, and an attempt that times out with a
/// retry left is retried exactly when the budget has a token at the time of the
/// timeout; nothing else touches the budget.
pub proof fn lemma_retries_spend_tokens(
    cfg: SimConfig,
    s: (Books, RetryBudget),
    t: (Books, RetryBudget),
) -> (r: (int, bool))
    requires
        sim::turn(cfg, s, t),
        forall|j: int| 0 <= j < s.0.pending.len() ==> 0 <= (#[trigger] s.0.pending[j]).arrival
            && (s.0.pending[j].retries_left > 0 ==> s.0.pending[j].arrival + cfg.timeout_ns
            <= u64::MAX) && s.0.pending[j].priority < s.0.per_priority.len(),
    ensures
        ({
            let a = s.0.pending[r.0];
            let late = t.0.server_free - a.arrival > cfg.timeout_ns;
            &&& is_turn(cfg, s.0, t.0, r.0, true)
            &&& is_followed(cfg, s.0, t.0, r.0, r.1)
            &&& if late && a.retries_left > 0 {
                (r.1, t.1.0.state()) == tokenbucket::acquired(
                    s.1.0.rate_per_sec as int,
                    s.1.0.burst as int,
                    s.1.0.state(),
                    a.arrival + cfg.timeout_ns,
                )
            } else {
                !r.1 && t.1 == s.1
            }
            &&& t.1.0.rate_per_sec == s.1.0.rate_per_sec
            &&& t.1.0.burst == s.1.0.burst
        }),
{
    let (i, admitted, retried) = choose|i: int, admitted: bool, retried: bool|
        {
            &&& sim::is_next(s.0.pending, i)
            &&& sim::consulted(cfg, s.0, s.0.pending[i], s.1, t.1, admitted, retried)
            &&& t.0 == #[trigger] sim::served(cfg, s.0, i, admitted, retried)
        };
    lemma_served(cfg, s.0, i, admitted, retried);
    assert(admitted);
    assert(s.0.pending[i].arrival >= 0);
    (i, retried)
}

/// With admission by priority an attempt is served exactly when its priority is below
/// the cursor, what it waited is noted, and every retry is made.
pub proof fn lemma_priorities_decide(cfg: SimConfig, s: (Books, Dagor), t: (Books, Dagor)) -> (r: (
    int,
    bool,
))
    requires
        sim::turn(cfg, s, t),
        forall|j: int| 0 <= j < s.0.pending.len() ==> 0 <= (#[trigger] s.0.pending[j]).arrival
            && s.0.pending[j].priority < s.0.per_priority.len(),
        0 <= t.0.server_free <= u64::MAX,
    ensures
        ({
            let a = s.0.pending[r.0];
            let late = t.0.server_free - a.arrival > cfg.timeout_ns;
            let asked = admission::gated(s.1.0.state(), a.priority).1;
            &&& is_turn(cfg, s.0, t.0, r.0, r.1)
            &&& r.1 <==> a.priority < s.1.0.state().cursor
            &&& is_followed(cfg, s.0, t.0, r.0, r.1 && late && a.retries_left > 0)
            &&& t.1.0.state() == if r.1 {
                admission::noted(
                    s.1.0.queuing_threshold_ns as int,
                    s.1.0.window as int,
                    asked,
                    t.0.server_free - cfg.service_ns - a.arrival,
                )
            } else {
                asked
            }
        }),
{
    let (i, admitted, retried) = choose|i: int, admitted: bool, retried: bool|
        {
            &&& sim::is_next(s.0.pending, i)
            &&& sim::consulted(cfg, s.0, s.0.pending[i], s.1, t.1, admitted, retried)
            &&& t.0 == #[trigger] sim::served(cfg, s.0, i, admitted, retried)
        };
    lemma_served(cfg, s.0, i, admitted, retried);
    assert(s.0.pending[i].arrival >= 0);
    (i, admitted)
}

/// How many attempts the pending ones stand for, with all their retries.
pub open spec fn still_to_come(pending: Seq<Attempt>) -> int
    decreases pending.len(),
{
    if pending.len() == 0 {
        0
    } else {
        still_to_come(pending.drop_last()) + pending.last().retries_left + 1
    }
}

proof fn lemma_without(pending: Seq<Attempt>, i: int)
    requires
        0 <= i < pending.len(),
    ensures
        still_to_come(pending.remove(i)) == still_to_come(pending) - pending[i].retries_left - 1,
    decreases pending.len(),
{
    if i == pending.len() - 1 {
        assert(pending.remove(i) =~= pending.drop_last());
    } else {
        lemma_without(pending.drop_last(), i);
        assert(pending.remove(i).drop_last() =~= pending.drop_last().remove(i));
        assert(pending.remove(i).last() == pending.last());
    }
}

proof fn lemma_originals_to_come(cfg: SimConfig, n: nat)
    requires
        cfg.fits(),
        n <= sim::opening(cfg).pending.len(),
    ensures
        still_to_come(sim::opening(cfg).pending.take(n as int)) == n * (cfg.max_retries + 1),
    decreases n,
{
    let all = sim::opening(cfg).pending;
    if n == 0 {
        assert(n * (cfg.max_retries + 1) == 0) by (nonlinear_arith)
            requires
                n == 0,
        ;
    } else {
        lemma_originals_to_come(cfg, (n - 1) as nat);
        lemma_originals(cfg, n - 1);
        assert(all.take(n as int).drop_last() =~= all.take(n - 1));
        assert(all.take(n as int).last() == all[n - 1]);
        assert(n * (cfg.max_retries + 1) == (n - 1) * (cfg.max_retries + 1) + (cfg.max_retries + 1))
            by (nonlinear_arith);
    }
}

/// Attempts come at a time, have retries left or none, and a priority.
pub open spec fn are_attempts(cfg: SimConfig, b: Books) -> bool {
    &&& b.per_priority.len() == cfg.levels()
    &&& forall|j: int|
        0 <= j < b.pending.len() ==> (#[trigger] b.pending[j]).arrival >= 0
            && b.pending[j].priority < b.per_priority.len() && 0 <= b.pending[j].retries_left
            <= cfg.max_retries
}

proof fn lemma_opening_attempts(cfg: SimConfig)
    requires
        cfg.fits(),
    ensures
        are_attempts(cfg, sim::opening(cfg)),
{
    let b = sim::opening(cfg);
    assert forall|j: int| 0 <= j < b.pending.len() implies (#[trigger] b.pending[j]).arrival >= 0
        && b.pending[j].priority < b.per_priority.len() && 0 <= b.pending[j].retries_left
        <= cfg.max_retries by {
        lemma_originals(cfg, j);
        let (gap, n) = (cfg.interval(), cfg.levels() as int);
        assert(j * gap >= 0) by (nonlinear_arith)
            requires
                j >= 0,
                gap >= 1,
        ;
        assert(0 <= j % n < n);
    }
}

proof fn lemma_attempts_stay(cfg: SimConfig, s: Books, t: Books, i: int, retried: bool)
    requires
        are_attempts(cfg, s),
        0 <= i < s.pending.len(),
        t.per_priority.len() == s.per_priority.len(),
        is_followed(cfg, s, t, i, retried),
        retried ==> s.pending[i].retries_left > 0,
    ensures
        are_attempts(cfg, t),
{
    let rest = s.pending.remove(i);
    assert forall|j: int| 0 <= j < t.pending.len() implies (#[trigger] t.pending[j]).arrival >= 0
        && t.pending[j].priority < t.per_priority.len() && 0 <= t.pending[j].retries_left
        <= cfg.max_retries by {
        if j < rest.len() {
            if retried {
                assert(t.pending.drop_last()[j] == t.pending[j]);
            }
            assert(rest[j] == s.pending[if j < i {
                j
            } else {
                j + 1
            }]);
        } else {
            assert(t.pending[j] == t.pending.last());
            assert(s.pending[i].arrival >= 0);
        }
    }
}

/// Every request gets its retries. Without a policy, the turns so far and those
/// still to come are one and `max_retries` for every original, less what successes
/// made needless, at most `max_retries` each.
pub proof fn lemma_all_retries_come(cfg: SimConfig, trace: Seq<(Books, NoPolicy)>, k: int)
    requires
        cfg.fits(),
        sim::is_run(cfg, trace),
        0 <= k < trace.len(),
    ensures
        ({
            let all = sim::opening(cfg).pending.len() * (cfg.max_retries + 1);
            let b = trace[k].0;
            let due = k + still_to_come(b.pending);
            all - b.latencies.len() * cfg.max_retries <= due <= all
        }),
        are_attempts(cfg, trace[k].0),
    decreases k,
{
    let n = sim::opening(cfg).pending.len();
    let r = cfg.max_retries as int;
    if k == 0 {
        lemma_originals_to_come(cfg, n);
        lemma_opening_attempts(cfg);
        let all = sim::opening(cfg).pending;
        assert(all.take(n as int) =~= all);
        assert(0 * r == 0) by (nonlinear_arith);
    } else {
        lemma_all_retries_come(cfg, trace, k - 1);
        assert(sim::turn(cfg, trace[k - 1], trace[k - 1 + 1]));
        let (s, t) = (trace[k - 1].0, trace[k].0);
        let i = lemma_every_retry_is_made(cfg, trace[k - 1], trace[k]);
        let a = s.pending[i];
        let late = t.server_free - a.arrival > cfg.timeout_ns;
        lemma_without(s.pending, i);
        lemma_attempts_stay(cfg, s, t, i, late && a.retries_left > 0);
        assert(a.retries_left <= r);
        let l = s.latencies.len() as int;
        assert((l + 1) * r == l * r + r) by (nonlinear_arith);
    }
}

/// So a whole run in which nothing succeeds takes one turn and `max_retries` for
/// every original; and each success saves at most `max_retries` turns.
pub proof fn lemma_storm_size(cfg: SimConfig, trace: Seq<(Books, NoPolicy)>)
    requires
        cfg.fits(),
        sim::is_run(cfg, trace),
        trace.last().0.pending.len() == 0,
    ensures
        ({
            let all = sim::opening(cfg).pending.len() * (cfg.max_retries + 1);
            let turns = trace.len() - 1;
            &&& all - trace.last().0.latencies.len() * cfg.max_retries <= turns <= all
            &&& trace.last().0.latencies.len() == 0 ==> turns == all
        }),
{
    lemma_all_retries_come(cfg, trace, trace.len() - 1);
    let r = cfg.max_retries as int;
    assert(0 * r == 0) by (nonlinear_arith);
}

/// Whatever the policy, no request is attempted more than one and `max_retries`
/// times.
pub proof fn lemma_no_more_retries_than_allowed<P: Policy>(
    cfg: SimConfig,
    trace: Seq<(Books, P)>,
    k: int,
)
    requires
        cfg.fits(),
        sim::is_run(cfg, trace),
        0 <= k < trace.len(),
    ensures
        k + still_to_come(trace[k].0.pending) <= sim::opening(cfg).pending.len() * (cfg.max_retries
            + 1),
        are_attempts(cfg, trace[k].0),
    decreases k,
{
    let n = sim::opening(cfg).pending.len();
    if k == 0 {
        lemma_originals_to_come(cfg, n);
        lemma_opening_attempts(cfg);
        let all = sim::opening(cfg).pending;
        assert(all.take(n as int) =~= all);
    } else {
        lemma_no_more_retries_than_allowed(cfg, trace, k - 1);
        assert(sim::turn(cfg, trace[k - 1], trace[k - 1 + 1]));
        let (s, t) = (trace[k - 1].0, trace[k].0);
        let (i, admitted, retried) = lemma_turn(cfg, trace[k - 1], trace[k]);
        lemma_without(s.pending, i);
        lemma_attempts_stay(cfg, s, t, i, retried);
        assert(s.pending[i].retries_left >= 0);
    }
}

/// No retry of a pending attempt is later than the run lasts and all retries take.
pub open spec fn end_in_time(cfg: SimConfig, pending: Seq<Attempt>) -> bool {
    forall|j: int|
        0 <= j < pending.len() ==> (#[trigger] pending[j]).arrival + pending[j].retries_left
            * cfg.timeout_ns <= cfg.duration_ns + cfg.max_retries * cfg.timeout_ns
}

proof fn lemma_end_in_time(cfg: SimConfig, s: Books, t: Books, i: int, retried: bool)
    requires
        end_in_time(cfg, s.pending),
        0 <= i < s.pending.len(),
        is_followed(cfg, s, t, i, retried),
    ensures
        end_in_time(cfg, t.pending),
{
    let rest = s.pending.remove(i);
    let m = cfg.timeout_ns as int;
    assert forall|j: int| 0 <= j < t.pending.len() implies (#[trigger] t.pending[j]).arrival
        + t.pending[j].retries_left * cfg.timeout_ns <= cfg.duration_ns + cfg.max_retries
        * cfg.timeout_ns by {
        if j < rest.len() {
            if retried {
                assert(t.pending.drop_last()[j] == t.pending[j]);
            }
            assert(rest[j] == s.pending[if j < i {
                j
            } else {
                j + 1
            }]);
        } else {
            let (a, c) = (s.pending[i], t.pending[j]);
            assert(c == t.pending.last());
            let left = a.retries_left as int;
            assert((left - 1) * m + m == left * m) by (nonlinear_arith);
        }
    }
}

/// A retry budget caps the storm: however many attempts time out, a run makes no more
/// retries than the budget holds at first and gains while retries can come.
pub proof fn lemma_budget_caps_the_storm(cfg: SimConfig, trace: Seq<(Books, RetryBudget)>, k: int)
    requires
        cfg.fits(),
        sim::is_run(cfg, trace),
        0 <= k < trace.len(),
        trace[0].1.0.last_ns == 0,
    ensures
        ({
            let retries = trace[k].0.next_seq - sim::opening(cfg).pending.len();
            let budget = trace[0].1.0;
            1_000_000_000 * retries <= budget.level + budget.rate_per_sec * (cfg.duration_ns
                + cfg.max_retries * cfg.timeout_ns)
        }),
{
    lemma_budget_spent(cfg, trace, k);
    let (rate, last) = (trace[0].1.0.rate_per_sec as int, trace[k].1.0.last_ns as int);
    let end = cfg.duration_ns + cfg.max_retries * cfg.timeout_ns;
    assert(rate * last <= rate * end) by (nonlinear_arith)
        requires
            0 <= rate,
            last <= end,
    ;
}

proof fn lemma_budget_spent(cfg: SimConfig, trace: Seq<(Books, RetryBudget)>, k: int)
    requires
        cfg.fits(),
        sim::is_run(cfg, trace),
        0 <= k < trace.len(),
        trace[0].1.0.last_ns == 0,
    ensures
        ({
            let retries = trace[k].0.next_seq - sim::opening(cfg).pending.len();
            let (first, now) = (trace[0].1.0, trace[k].1.0);
            &&& now.rate_per_sec == first.rate_per_sec
            &&& 1_000_000_000 * retries + now.level <= first.level + first.rate_per_sec
                * now.last_ns
            &&& now.last_ns <= cfg.duration_ns + cfg.max_retries * cfg.timeout_ns
            &&& are_attempts(cfg, trace[k].0)
            &&& end_in_time(cfg, trace[k].0.pending)
        }),
    decreases k,
{
    let end = cfg.duration_ns + cfg.max_retries * cfg.timeout_ns;
    assert(cfg.max_retries * cfg.timeout_ns >= 0) by (nonlinear_arith);
    if k == 0 {
        lemma_opening_attempts(cfg);
        let all = sim::opening(cfg).pending;
        assert forall|j: int| 0 <= j < all.len() implies (#[trigger] all[j]).arrival
            + all[j].retries_left * cfg.timeout_ns <= end by {
            lemma_originals(cfg, j);
        }
        assert(trace[0].1.0.rate_per_sec * 0 == 0) by (nonlinear_arith);
    } else {
        lemma_budget_spent(cfg, trace, k - 1);
        assert(sim::turn(cfg, trace[k - 1], trace[k - 1 + 1]));
        let (s, t) = (trace[k - 1], trace[k]);
        let (n, w) = (cfg.attempts() as int, cfg.service_ns as int);
        assert(n * w >= 0) by (nonlinear_arith)
            requires
                n >= 0,
                w >= 0,
        ;
        assert(end <= u64::MAX);
        let m = cfg.timeout_ns as int;
        assert forall|j: int| 0 <= j < s.0.pending.len() implies 0 <= (
        #[trigger] s.0.pending[j]).arrival && (s.0.pending[j].retries_left > 0
            ==> s.0.pending[j].arrival + cfg.timeout_ns <= end) && s.0.pending[j].priority
            < s.0.per_priority.len() by {
            let left = s.0.pending[j].retries_left as int;
            if left > 0 {
                assert(left * m >= m) by (nonlinear_arith)
                    requires
                        left >= 1,
                        m >= 0,
                ;
            }
        }
        let (i, retried) = lemma_retries_spend_tokens(cfg, s, t);
        lemma_attempts_stay(cfg, s.0, t.0, i, retried);
        lemma_end_in_time(cfg, s.0, t.0, i, retried);
        let a = s.0.pending[i];
        let late = t.0.server_free - a.arrival > cfg.timeout_ns;
        if late && a.retries_left > 0 {
            let (l, now) = (s.1.0.state(), a.arrival + cfg.timeout_ns);
            let rate = s.1.0.rate_per_sec as int;
            let later = if now > l.last_ns {
                now - l.last_ns
            } else {
                0
            };
            assert(rate * (l.last_ns + later) == rate * l.last_ns + rate * later)
                by (nonlinear_arith);
            assert(t.1.0.state().last_ns == l.last_ns + later);
        }
    }
}

/// The attempt is one of original `o`: as many timeouts after it as it has retries
/// less, and of the same priority.
pub open spec fn is_attempt_of(cfg: SimConfig, a: Attempt, o: int) -> bool {
    &&& 0 <= o < sim::opening(cfg).pending.len()
    &&& a.arrival == sim::opening(cfg).pending[o].arrival + (cfg.max_retries - a.retries_left)
        * cfg.timeout_ns
    &&& a.priority == sim::opening(cfg).pending[o].priority
    &&& 0 <= a.retries_left <= cfg.max_retries
}

pub open spec fn has_original(cfg: SimConfig, a: Attempt) -> bool {
    exists|o: int| #[trigger] is_attempt_of(cfg, a, o)
}

/// Whatever the policy, every pending attempt is one of an original.
pub proof fn lemma_attempts_have_originals<P: Policy>(
    cfg: SimConfig,
    trace: Seq<(Books, P)>,
    k: int,
)
    requires
        cfg.fits(),
        sim::is_run(cfg, trace),
        0 <= k < trace.len(),
    ensures
        forall|j: int|
            0 <= j < trace[k].0.pending.len() ==> has_original(
                cfg,
                #[trigger] trace[k].0.pending[j],
            ),
        are_attempts(cfg, trace[k].0),
    decreases k,
{
    lemma_no_more_retries_than_allowed(cfg, trace, k);
    if k == 0 {
        lemma_originals_are_first(cfg);
    } else {
        lemma_attempts_have_originals(cfg, trace, k - 1);
        assert(sim::turn(cfg, trace[k - 1], trace[k - 1 + 1]));
        let (i, admitted, retried) = lemma_turn(cfg, trace[k - 1], trace[k]);
        lemma_originals_stay(cfg, trace[k - 1].0, trace[k].0, i, retried);
    }
}

proof fn lemma_originals_are_first(cfg: SimConfig)
    requires
        cfg.fits(),
    ensures
        forall|j: int|
            0 <= j < sim::opening(cfg).pending.len() ==> has_original(
                cfg,
                #[trigger] sim::opening(cfg).pending[j],
            ),
{
    let all = sim::opening(cfg).pending;
    let m = cfg.timeout_ns as int;
    assert(0 * m == 0) by (nonlinear_arith);
    assert forall|j: int| 0 <= j < all.len() implies has_original(cfg, #[trigger] all[j]) by {
        lemma_originals(cfg, j);
        assert(is_attempt_of(cfg, all[j], j));
    }
}

proof fn lemma_originals_stay(cfg: SimConfig, s: Books, t: Books, i: int, retried: bool)
    requires
        0 <= i < s.pending.len(),
        is_followed(cfg, s, t, i, retried),
        retried ==> s.pending[i].retries_left > 0,
        forall|j: int| 0 <= j < s.pending.len() ==> has_original(cfg, #[trigger] s.pending[j]),
    ensures
        forall|j: int| 0 <= j < t.pending.len() ==> has_original(cfg, #[trigger] t.pending[j]),
{
    let (before, now) = (s.pending, t.pending);
    let rest = before.remove(i);
    let m = cfg.timeout_ns as int;
    assert forall|j: int| 0 <= j < now.len() implies has_original(cfg, #[trigger] now[j]) by {
        if j < rest.len() {
            if retried {
                assert(now.drop_last()[j] == now[j]);
            }
            assert(rest[j] == before[if j < i {
                j
            } else {
                j + 1
            }]);
        } else {
            let (a, c) = (before[i], now[j]);
            assert(c == now.last());
            assert(has_original(cfg, a));
            let o = choose|o: int| #[trigger] is_attempt_of(cfg, a, o);
            let r = cfg.max_retries - a.retries_left;
            assert((r + 1) * m == r * m + m) by (nonlinear_arith);
            assert(is_attempt_of(cfg, c, o));
        }
    }
}

/// Turn `k` ended an original without a success: its last attempt timed out.
pub open spec fn gives_up(trace: Seq<(Books, NoPolicy)>, k: int) -> bool {
    trace[k].0.pending.len() < trace[k - 1].0.pending.len() && trace[k].0.latencies
        == trace[k - 1].0.latencies
}

/// How many of the first `k` turns did.
pub open spec fn given_up(trace: Seq<(Books, NoPolicy)>, k: int) -> nat
    decreases k,
{
    if k <= 0 {
        0
    } else {
        given_up(trace, k - 1) + if gives_up(trace, k) {
            1nat
        } else {
            0
        }
    }
}

/// Without a policy every original ends in one of two ways: one of its attempts
/// succeeds, or it has been tried once and `max_retries` times more.
pub proof fn lemma_every_original_ends(cfg: SimConfig, trace: Seq<(Books, NoPolicy)>, k: int)
    requires
        cfg.fits(),
        sim::is_run(cfg, trace),
        0 <= k < trace.len(),
    ensures
        sim::opening(cfg).pending.len() == trace[k].0.latencies.len() + given_up(trace, k)
            + trace[k].0.pending.len(),
        k > 0 && gives_up(trace, k) ==> exists|i: int|
            0 <= i < trace[k - 1].0.pending.len() && trace[k].0.pending
                == trace[k - 1].0.pending.remove(i) && (
            #[trigger] trace[k - 1].0.pending[i]).retries_left == 0 && has_original(
                cfg,
                trace[k - 1].0.pending[i],
            ),
    decreases k,
{
    if k > 0 {
        lemma_every_original_ends(cfg, trace, k - 1);
        lemma_attempts_have_originals(cfg, trace, k - 1);
        assert(sim::turn(cfg, trace[k - 1], trace[k - 1 + 1]));
        let (s, t) = (trace[k - 1].0, trace[k].0);
        let i = lemma_every_retry_is_made(cfg, trace[k - 1], trace[k]);
        let late = t.server_free - s.pending[i].arrival > cfg.timeout_ns;
        if !late {
            assert(t.latencies.len() == s.latencies.len() + 1);
        } else if s.pending[i].retries_left > 0 {
            assert(t.pending.len() == s.pending.len());
        } else {
            assert(gives_up(trace, k));
        }
    }
}

} // verus!
