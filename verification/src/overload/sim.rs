//! A deterministic queueing simulator on a virtual clock.
//!
//! One server, open-loop arrivals, a client timeout and retries: the minimal
//! system with a metastable failure.
//!
//! - Requests arrive on schedule whether or not the server keeps up.
//! - The client abandons a request after the timeout, but the server does not
//!   know and does the work anyway.
//! - Each abandoned attempt may spawn a retry that arrives when the client gave
//!   up, as often as the request has retries left.
//! - In the outage window the server starts no new work: the trigger.

use crate::overload::admission;
use crate::overload::admission::DagorGate;
use crate::overload::tokenbucket;
use crate::overload::tokenbucket::TokenBucket;
use std::collections::VecDeque;
use vstd::prelude::*;

verus! {

/// Nanoseconds in a second.
pub const SECOND: u64 = 1_000_000_000;

#[derive(Clone, Copy, Debug)]
pub struct SimConfig {
    /// Server work per request.
    pub service_ns: u64,
    /// Original arrivals per second, evenly spaced.
    pub load_qps: u64,
    /// The client abandons after this long; the server finishes anyway.
    pub timeout_ns: u64,
    /// Retries per original request.
    pub max_retries: u32,
    /// The server starts no new work from here on, for `outage_ns`.
    pub outage_start_ns: u64,
    pub outage_ns: u64,
    /// Original arrivals stop here; queued work still drains and counts.
    pub duration_ns: u64,
    /// Request `i` gets priority `i % levels`, 0 the highest.
    pub priority_levels: u8,
}

impl SimConfig {
    pub fn capacity_qps(&self) -> (q: u64)
        requires
            self.service_ns > 0,
        ensures
            q == 1_000_000_000int / self.service_ns as int,
    {
        1_000_000_000 / self.service_ns
    }

    /// Time between two original arrivals.
    pub open spec fn interval(&self) -> int {
        1_000_000_000int / self.load_qps as int
    }

    /// How many originals arrive.
    pub open spec fn originals(&self) -> nat {
        if self.duration_ns == 0 {
            0
        } else {
            ((self.duration_ns - 1) / self.interval() + 1) as nat
        }
    }

    pub open spec fn levels(&self) -> nat {
        if self.priority_levels > 1 {
            self.priority_levels as nat
        } else {
            1
        }
    }

    pub open spec fn window_count(&self) -> nat {
        self.duration_ns as nat / SECOND as nat
    }

    /// How many attempts there can be.
    pub open spec fn attempts(&self) -> nat {
        self.originals() * (self.max_retries as nat + 1)
    }

    /// There are arrivals, no closer than a nanosecond, and the whole run fits
    /// the clock.
    pub open spec fn fits(&self) -> bool {
        &&& 0 < self.load_qps <= 1_000_000_000
        &&& self.window_count() <= usize::MAX
        &&& self.attempts() <= u64::MAX
        &&& self.idle_by() + self.attempts() * self.service_ns <= u64::MAX
    }

    /// From here on the server waits for nothing: the last attempt has come and
    /// the outage is over.
    pub open spec fn idle_by(&self) -> int {
        let last = self.duration_ns + self.max_retries * self.timeout_ns;
        let outage_end = self.outage_start_ns + self.outage_ns;
        if last > outage_end {
            last
        } else {
            outage_end
        }
    }
}

/// Hooks for overload control. Each hook comes with a relation that says what
/// it answers and what it leaves of the policy.
pub trait Policy: Sized {
    /// What every hook finds and leaves.
    spec fn ready(&self) -> bool;

    spec fn admitting(&self, now_ns: u64, priority: u8, admitted: bool, after: &Self) -> bool;

    spec fn retrying(&self, now_ns: u64, allowed: bool, after: &Self) -> bool;

    spec fn observing(&self, now_ns: u64, queuing_ns: u64, after: &Self) -> bool;

    /// Arrival-time gate. False is a fast reject: no server work, no retry.
    fn admits(&mut self, now_ns: u64, priority: u8) -> (admitted: bool)
        requires
            old(self).ready(),
        ensures
            final(self).ready(),
            old(self).admitting(now_ns, priority, admitted, final(self)),
    ;

    /// Whether a timed-out attempt may spawn a retry.
    fn allow_retry(&mut self, now_ns: u64) -> (allowed: bool)
        requires
            old(self).ready(),
        ensures
            final(self).ready(),
            old(self).retrying(now_ns, allowed, final(self)),
    ;

    /// A request began processing after waiting.
    fn observe_queuing(&mut self, now_ns: u64, queuing_ns: u64)
        requires
            old(self).ready(),
        ensures
            final(self).ready(),
            old(self).observing(now_ns, queuing_ns, final(self)),
    ;
}

/// No overload control: everything is admitted, every retry allowed.
pub struct NoPolicy;

impl Policy for NoPolicy {
    open spec fn ready(&self) -> bool {
        true
    }

    open spec fn admitting(&self, now_ns: u64, priority: u8, admitted: bool, after: &NoPolicy) -> bool {
        admitted
    }

    open spec fn retrying(&self, now_ns: u64, allowed: bool, after: &NoPolicy) -> bool {
        allowed
    }

    open spec fn observing(&self, now_ns: u64, queuing_ns: u64, after: &NoPolicy) -> bool {
        true
    }

    fn admits(&mut self, now_ns: u64, priority: u8) -> (admitted: bool) {
        true
    }

    fn allow_retry(&mut self, now_ns: u64) -> (allowed: bool) {
        true
    }

    fn observe_queuing(&mut self, now_ns: u64, queuing_ns: u64) {
    }
}

/// Retries spend tokens.
pub struct RetryBudget(pub TokenBucket);

impl Policy for RetryBudget {
    open spec fn ready(&self) -> bool {
        self.0.well_formed()
    }

    open spec fn admitting(
        &self,
        now_ns: u64,
        priority: u8,
        admitted: bool,
        after: &RetryBudget,
    ) -> bool {
        admitted && *after == *self
    }

    open spec fn retrying(&self, now_ns: u64, allowed: bool, after: &RetryBudget) -> bool {
        &&& after.0.rate_per_sec == self.0.rate_per_sec
        &&& after.0.burst == self.0.burst
        &&& (allowed, after.0.state()) == tokenbucket::acquired(
            self.0.rate_per_sec as int,
            self.0.burst as int,
            self.0.state(),
            now_ns as int,
        )
    }

    open spec fn observing(&self, now_ns: u64, queuing_ns: u64, after: &RetryBudget) -> bool {
        *after == *self
    }

    fn admits(&mut self, now_ns: u64, priority: u8) -> (admitted: bool) {
        true
    }

    fn allow_retry(&mut self, now_ns: u64) -> (allowed: bool) {
        self.0.try_acquire(now_ns)
    }

    fn observe_queuing(&mut self, now_ns: u64, queuing_ns: u64) {
    }
}

/// Admission by priority.
pub struct Dagor(pub DagorGate);

impl Policy for Dagor {
    open spec fn ready(&self) -> bool {
        self.0.well_formed()
    }

    open spec fn admitting(&self, now_ns: u64, priority: u8, admitted: bool, after: &Dagor) -> bool {
        &&& after.0.same_setup(&self.0)
        &&& (admitted, after.0.state()) == admission::gated(self.0.state(), priority)
    }

    open spec fn retrying(&self, now_ns: u64, allowed: bool, after: &Dagor) -> bool {
        allowed && *after == *self
    }

    open spec fn observing(&self, now_ns: u64, queuing_ns: u64, after: &Dagor) -> bool {
        &&& after.0.same_setup(&self.0)
        &&& after.0.state() == admission::noted(
            self.0.queuing_threshold_ns as int,
            self.0.window as int,
            self.0.state(),
            queuing_ns as int,
        )
    }

    fn admits(&mut self, now_ns: u64, priority: u8) -> (admitted: bool) {
        self.0.admits(priority)
    }

    fn allow_retry(&mut self, now_ns: u64) -> (allowed: bool) {
        true
    }

    fn observe_queuing(&mut self, now_ns: u64, queuing_ns: u64) {
        self.0.observe(queuing_ns)
    }
}

#[derive(Clone, Copy, Debug)]
pub struct Window {
    /// Arrivals, originals and retries, in this second.
    pub offered: u64,
    /// Fast-rejected by the policy in this second.
    pub rejected: u64,
    /// Requests that completed within the client timeout in this second.
    pub goodput: u64,
}

impl Default for Window {
    fn default() -> (w: Window)
        ensures
            w == (Window { offered: 0, rejected: 0, goodput: 0 }),
    {
        Window { offered: 0, rejected: 0, goodput: 0 }
    }
}

#[derive(Debug)]
pub struct Report {
    /// One entry per second of the run.
    pub windows: Vec<Window>,
    /// Successes and attempts per priority level.
    pub per_priority: Vec<(u64, u64)>,
    /// Latencies of successful attempts.
    pub success_latencies: Vec<u64>,
}

/// An attempt that is on its way to the server.
pub ghost struct Attempt {
    pub arrival: int,
    /// Attempts are numbered as they are made.
    pub seq: int,
    pub retries_left: int,
    pub priority: u8,
}

/// Everything but the policy.
#[verifier::ext_equal]
pub ghost struct Books {
    pub pending: Seq<Attempt>,
    pub next_seq: int,
    pub server_free: int,
    /// Offered, rejected and good requests per second.
    pub windows: Seq<(int, int, int)>,
    /// Successes and attempts per priority.
    pub per_priority: Seq<(int, int)>,
    pub latencies: Seq<int>,
}

/// The original arrivals, evenly spaced.
pub open spec fn original(cfg: SimConfig, i: int) -> Attempt {
    Attempt {
        arrival: i * cfg.interval(),
        seq: i,
        retries_left: cfg.max_retries as int,
        priority: (i % cfg.levels() as int) as u8,
    }
}

/// The first `n` original arrivals.
pub open spec fn arrivals(cfg: SimConfig, n: nat) -> Seq<Attempt> {
    Seq::new(n, |i: int| original(cfg, i))
}

/// The books before anything is served.
pub open spec fn opening(cfg: SimConfig) -> Books {
    Books {
        pending: arrivals(cfg, cfg.originals()),
        next_seq: cfg.originals() as int,
        server_free: 0,
        windows: Seq::new(cfg.window_count(), |i: int| (0int, 0int, 0int)),
        per_priority: Seq::new(cfg.levels(), |i: int| (0int, 0int)),
        latencies: Seq::empty(),
    }
}

/// The server is FIFO in arrival order: place `i` is next, first the earliest,
/// then the one made first.
pub open spec fn is_next(pending: Seq<Attempt>, i: int) -> bool {
    &&& 0 <= i < pending.len()
    &&& forall|j: int|
        0 <= j < pending.len() && j != i ==> pending[i].arrival < (#[trigger] pending[j]).arrival
            || (pending[i].arrival == pending[j].arrival && pending[i].seq < pending[j].seq)
}

/// The window that a time falls into, bumped; times behind the last window do
/// not count.
pub open spec fn counted(
    windows: Seq<(int, int, int)>,
    time: int,
    by: (int, int, int),
) -> Seq<(int, int, int)> {
    let w = time / SECOND as int;
    if 0 <= w < windows.len() {
        windows.update(w, (windows[w].0 + by.0, windows[w].1 + by.1, windows[w].2 + by.2))
    } else {
        windows
    }
}

/// When the server starts on an attempt.
pub open spec fn start_of(cfg: SimConfig, b: Books, a: Attempt) -> int {
    let s = if a.arrival > b.server_free {
        a.arrival
    } else {
        b.server_free
    };
    if cfg.outage_start_ns <= s < cfg.outage_start_ns + cfg.outage_ns {
        cfg.outage_start_ns + cfg.outage_ns
    } else {
        s
    }
}

/// The latency of an attempt that is served.
pub open spec fn latency_of(cfg: SimConfig, b: Books, a: Attempt) -> int {
    start_of(cfg, b, a) + cfg.service_ns - a.arrival
}

/// The client gave up on it and may try again.
pub open spec fn may_retry(cfg: SimConfig, b: Books, a: Attempt) -> bool {
    latency_of(cfg, b, a) > cfg.timeout_ns && a.retries_left > 0
}

/// What becomes of the attempt at place `i`, given the policy's answers.
pub open spec fn served(cfg: SimConfig, b: Books, i: int, admitted: bool, retried: bool) -> Books {
    let a = b.pending[i];
    let p = a.priority as int;
    let rest = b.pending.remove(i);
    let tried = b.per_priority.update(p, (b.per_priority[p].0, b.per_priority[p].1 + 1));
    if !admitted {
        Books {
            pending: rest,
            windows: counted(b.windows, a.arrival, (1, 1, 0)),
            per_priority: tried,
            ..b
        }
    } else {
        let done = start_of(cfg, b, a) + cfg.service_ns;
        let offered = counted(b.windows, a.arrival, (1, 0, 0));
        if done - a.arrival <= cfg.timeout_ns {
            Books {
                pending: rest,
                server_free: done,
                windows: counted(offered, done, (0, 0, 1)),
                per_priority: tried.update(p, (tried[p].0 + 1, tried[p].1)),
                latencies: b.latencies.push(done - a.arrival),
                ..b
            }
        } else if retried {
            Books {
                pending: rest.push(
                    Attempt {
                        arrival: a.arrival + cfg.timeout_ns,
                        seq: b.next_seq,
                        retries_left: a.retries_left - 1,
                        priority: a.priority,
                    },
                ),
                next_seq: b.next_seq + 1,
                server_free: done,
                windows: offered,
                per_priority: tried,
                ..b
            }
        } else {
            Books {
                pending: rest,
                server_free: done,
                windows: offered,
                per_priority: tried,
                ..b
            }
        }
    }
}

/// The policy is asked what it has to be asked about an attempt, in order, and
/// answers so.
pub open spec fn consulted<P: Policy>(
    cfg: SimConfig,
    b: Books,
    a: Attempt,
    p: P,
    q: P,
    admitted: bool,
    retried: bool,
) -> bool {
    exists|p1: P, p2: P|
        {
            &&& #[trigger] p.admitting(a.arrival as u64, a.priority, admitted, &p1)
            &&& if admitted {
                &&& #[trigger] p1.observing(
                    start_of(cfg, b, a) as u64,
                    (start_of(cfg, b, a) - a.arrival) as u64,
                    &p2,
                )
                &&& if may_retry(cfg, b, a) {
                    p2.retrying((a.arrival + cfg.timeout_ns) as u64, retried, &q)
                } else {
                    q == p2 && !retried
                }
            } else {
                p2 == p1 && q == p1 && !retried
            }
        }
}

/// One attempt is taken from the queue and dealt with.
pub open spec fn turn<P: Policy>(cfg: SimConfig, s: (Books, P), t: (Books, P)) -> bool {
    exists|i: int, admitted: bool, retried: bool|
        {
            &&& is_next(s.0.pending, i)
            &&& consulted(cfg, s.0, s.0.pending[i], s.1, t.1, admitted, retried)
            &&& t.0 == #[trigger] served(cfg, s.0, i, admitted, retried)
        }
}

/// A run: from the opening books, turn by turn, until nothing is pending.
pub open spec fn is_run<P: Policy>(cfg: SimConfig, trace: Seq<(Books, P)>) -> bool {
    &&& trace.len() > 0
    &&& trace[0].0 == opening(cfg)
    &&& forall|k: int| 0 <= k < trace.len() - 1 ==> turn(cfg, #[trigger] trace[k], trace[k + 1])
}

/// The window counts what the books count.
pub open spec fn window_is(w: Window, b: (int, int, int)) -> bool {
    w.offered == b.0 && w.rejected == b.1 && w.goodput == b.2
}

/// The report says what the books say.
pub open spec fn reported(r: &Report, b: Books) -> bool {
    &&& r.windows@.len() == b.windows.len()
    &&& forall|i: int|
        0 <= i < b.windows.len() ==> window_is(#[trigger] r.windows@[i], b.windows[i])
    &&& r.per_priority@.len() == b.per_priority.len()
    &&& forall|i: int|
        0 <= i < b.per_priority.len() ==> (#[trigger] r.per_priority@[i]).0 == b.per_priority[i].0
            && r.per_priority@[i].1 == b.per_priority[i].1
    &&& r.success_latencies@.len() == b.latencies.len()
    &&& forall|i: int|
        0 <= i < b.latencies.len() ==> #[trigger] r.success_latencies@[i] == b.latencies[i]
}

/// No count has passed `k`.
spec fn counts_within(b: Books, k: int) -> bool {
    &&& forall|i: int|
        0 <= i < b.windows.len() ==> 0 <= (#[trigger] b.windows[i]).0 <= k && 0 <= b.windows[i].1
            <= k && 0 <= b.windows[i].2 <= k
    &&& forall|i: int|
        0 <= i < b.per_priority.len() ==> 0 <= (#[trigger] b.per_priority[i]).0 <= k && 0
            <= b.per_priority[i].1 <= k
}

/// How many attempts the pending ones may still make.
spec fn work_left(pending: Seq<Attempt>) -> int
    decreases pending.len(),
{
    if pending.len() == 0 {
        0
    } else {
        work_left(pending.drop_last()) + pending.last().retries_left + 1
    }
}

proof fn lemma_work_push(pending: Seq<Attempt>, a: Attempt)
    ensures
        work_left(pending.push(a)) == work_left(pending) + a.retries_left + 1,
{
    assert(pending.push(a).drop_last() =~= pending);
}

proof fn lemma_work_remove(pending: Seq<Attempt>, i: int)
    requires
        0 <= i < pending.len(),
    ensures
        work_left(pending.remove(i)) == work_left(pending) - pending[i].retries_left - 1,
    decreases pending.len(),
{
    if i == pending.len() - 1 {
        assert(pending.remove(i) =~= pending.drop_last());
    } else {
        lemma_work_remove(pending.drop_last(), i);
        assert(pending.remove(i).drop_last() =~= pending.drop_last().remove(i));
        assert(pending.remove(i).last() == pending.last());
    }
}

proof fn lemma_work_nonnegative(pending: Seq<Attempt>)
    requires
        forall|i: int| 0 <= i < pending.len() ==> (#[trigger] pending[i]).retries_left >= 0,
    ensures
        work_left(pending) >= pending.len(),
    decreases pending.len(),
{
    if pending.len() > 0 {
        assert(pending[pending.len() - 1].retries_left >= 0);
        assert forall|i: int| 0 <= i < pending.len() - 1
            implies (#[trigger] pending.drop_last()[i]).retries_left >= 0 by {
            assert(pending[i].retries_left >= 0);
        }
        lemma_work_nonnegative(pending.drop_last());
    }
}

proof fn lemma_work_of_originals(cfg: SimConfig, n: nat)
    ensures
        work_left(arrivals(cfg, n)) == n * (cfg.max_retries + 1),
    decreases n,
{
    let all = arrivals(cfg, n);
    if n == 0 {
        assert(n * (cfg.max_retries + 1) == 0) by (nonlinear_arith)
            requires
                n == 0,
        ;
    } else {
        lemma_work_of_originals(cfg, (n - 1) as nat);
        assert(all.drop_last() =~= arrivals(cfg, (n - 1) as nat));
        assert(n * (cfg.max_retries + 1) == (n - 1) * (cfg.max_retries + 1) + (cfg.max_retries + 1))
            by (nonlinear_arith);
    }
}

/// The queue: the originals from number `next` on, then the retries as they
/// were made, both in the order in which they arrive.
spec fn queued(cfg: SimConfig, next: int, retries: Seq<Attempt>) -> Seq<Attempt> {
    Seq::new((cfg.originals() - next) as nat, |i: int| original(cfg, next + i)) + retries
}

/// The largest arrival that the clock has to hold.
spec fn last_arrival(cfg: SimConfig) -> int {
    cfg.duration_ns + cfg.max_retries * cfg.timeout_ns
}

/// The queue in order at time `now`: no retry is before its time, none later
/// than a timeout from now, and the books know how far they go.
spec fn in_line(cfg: SimConfig, next: int, retries: Seq<Attempt>, now: int, next_seq: int) -> bool {
    &&& 0 <= next <= cfg.originals() <= next_seq
    &&& forall|i: int|
        0 <= i < retries.len() ==> now <= (#[trigger] retries[i]).arrival <= now + cfg.timeout_ns
            && cfg.originals() <= retries[i].seq < next_seq && 0 <= retries[i].retries_left
            < cfg.max_retries && retries[i].priority < cfg.levels() && retries[i].arrival
            + retries[i].retries_left * cfg.timeout_ns <= last_arrival(cfg)
    &&& forall|i: int, j: int|
        0 <= i < j < retries.len() ==> (#[trigger] retries[i]).arrival <= (
        #[trigger] retries[j]).arrival && retries[i].seq < retries[j].seq
    &&& next < cfg.originals() ==> now <= original(cfg, next).arrival
}

proof fn lemma_originals_order(cfg: SimConfig, i: int, j: int)
    requires
        0 < cfg.load_qps <= 1_000_000_000,
        0 <= i < j,
    ensures
        original(cfg, i).arrival < original(cfg, j).arrival,
        cfg.interval() >= 1,
{
    let d = cfg.interval();
    assert(d >= 1) by (nonlinear_arith)
        requires
            d == 1_000_000_000int / cfg.load_qps as int,
            0 < cfg.load_qps <= 1_000_000_000,
    ;
    assert(i * d < j * d) by (nonlinear_arith)
        requires
            i < j,
            d >= 1,
    ;
}

/// An original arrives within the run.
proof fn lemma_original_arrival(cfg: SimConfig, i: int)
    requires
        0 < cfg.load_qps <= 1_000_000_000,
        0 <= i < cfg.originals(),
    ensures
        0 <= original(cfg, i).arrival < cfg.duration_ns,
        original(cfg, i).priority < cfg.levels(),
        original(cfg, i).priority == i % cfg.levels() as int,
{
    lemma_originals_order(cfg, 0, 1);
    let d = cfg.interval();
    let m = cfg.duration_ns - 1;
    vstd::arithmetic::div_mod::lemma_fundamental_div_mod(m, d);
    assert(0 <= i * d <= m) by (nonlinear_arith)
        requires
            m == d * (m / d) + m % d,
            0 <= m % d,
            0 <= i <= m / d,
            d >= 1,
    ;
}

/// The first original is next unless a retry is due before it.
proof fn lemma_next_original(
    cfg: SimConfig,
    next: int,
    retries: Seq<Attempt>,
    now: int,
    next_seq: int,
)
    requires
        0 < cfg.load_qps <= 1_000_000_000,
        in_line(cfg, next, retries, now, next_seq),
        next < cfg.originals(),
        retries.len() > 0 ==> original(cfg, next).arrival <= retries[0].arrival,
    ensures
        is_next(queued(cfg, next, retries), 0),
        queued(cfg, next, retries)[0] == original(cfg, next),
        queued(cfg, next, retries).remove(0) == queued(cfg, next + 1, retries),
{
    let q = queued(cfg, next, retries);
    let n = cfg.originals() - next;
    assert forall|j: int| 0 <= j < q.len() && j != 0
        implies q[0].arrival < (#[trigger] q[j]).arrival || (q[0].arrival
        == q[j].arrival && q[0].seq < q[j].seq) by {
        if j < n {
            lemma_originals_order(cfg, next, next + j);
        } else {
            assert(q[j] == retries[j - n]);
            if j > n {
                assert(retries[0].arrival <= retries[j - n].arrival);
            }
        }
    }
    assert(q.remove(0) =~= queued(cfg, next + 1, retries));
}

/// The first retry is next where no original is due at its time or before.
proof fn lemma_next_retry(
    cfg: SimConfig,
    next: int,
    retries: Seq<Attempt>,
    now: int,
    next_seq: int,
)
    requires
        0 < cfg.load_qps <= 1_000_000_000,
        in_line(cfg, next, retries, now, next_seq),
        retries.len() > 0,
        next < cfg.originals() ==> retries[0].arrival < original(cfg, next).arrival,
    ensures
        is_next(queued(cfg, next, retries), cfg.originals() - next),
        queued(cfg, next, retries)[cfg.originals() - next] == retries[0],
        queued(cfg, next, retries).remove(cfg.originals() - next) == queued(
            cfg,
            next,
            retries.skip(1),
        ),
{
    let q = queued(cfg, next, retries);
    let n = cfg.originals() - next;
    assert(q[n] == retries[0]);
    assert forall|j: int| 0 <= j < q.len() && j != n
        implies q[n].arrival < (#[trigger] q[j]).arrival || (q[n].arrival
        == q[j].arrival && q[n].seq < q[j].seq) by {
        if j < n {
            if j > 0 {
                lemma_originals_order(cfg, next, next + j);
            }
        } else {
            assert(q[j] == retries[j - n]);
            assert(retries[0].arrival <= retries[j - n].arrival && retries[0].seq < retries[j - n].seq);
        }
    }
    assert(q.remove(n) =~= queued(cfg, next, retries.skip(1)));
}

/// One of the counts of a window.
enum Field {
    Offered,
    Rejected,
    Good,
}

spec fn bump(f: Field) -> (int, int, int) {
    match f {
        Field::Offered => (1, 0, 0),
        Field::Rejected => (0, 1, 0),
        Field::Good => (0, 0, 1),
    }
}

/// The count can go up by one.
spec fn has_room(f: Field, w: (int, int, int)) -> bool {
    match f {
        Field::Offered => w.0 < u64::MAX,
        Field::Rejected => w.1 < u64::MAX,
        Field::Good => w.2 < u64::MAX,
    }
}

fn count_at(windows: &mut Vec<Window>, time: u64, f: Field, b: Ghost<Seq<(int, int, int)>>)
    requires
        old(windows)@.len() == b@.len(),
        forall|i: int| 0 <= i < b@.len() ==> window_is(#[trigger] old(windows)@[i], b@[i]),
        forall|i: int| 0 <= i < b@.len() ==> has_room(f, #[trigger] b@[i]),
    ensures
        final(windows)@.len() == b@.len(),
        forall|i: int|
            0 <= i < b@.len() ==> window_is(
                #[trigger] final(windows)@[i],
                counted(b@, time as int, bump(f))[i],
            ),
{
    let w = time / SECOND;
    if w < windows.len() as u64 {
        let w = w as usize;
        let mut x = windows[w];
        assert(has_room(f, b@[w as int]));
        match f {
            Field::Offered => {
                x.offered = x.offered + 1;
            },
            Field::Rejected => {
                x.rejected = x.rejected + 1;
            },
            Field::Good => {
                x.goodput = x.goodput + 1;
            },
        }
        windows.set(w, x);
    }
}

/// The counts after one of them is bumped, none past `k`.
proof fn lemma_counted_within(w: Seq<(int, int, int)>, time: int, inc: (int, int, int), k: int)
    requires
        forall|i: int|
            0 <= i < w.len() ==> 0 <= (#[trigger] w[i]).0 <= k && 0 <= w[i].1 <= k && 0 <= w[i].2
                <= k,
        0 <= inc.0 <= 1,
        0 <= inc.1 <= 1,
        0 <= inc.2 <= 1,
    ensures
        counted(w, time, inc).len() == w.len(),
        forall|i: int|
            0 <= i < w.len() ==> {
                let x = #[trigger] counted(w, time, inc)[i];
                0 <= x.0 <= k + inc.0 && 0 <= x.1 <= k + inc.1 && 0 <= x.2 <= k + inc.2
            },
{
    assert forall|i: int| 0 <= i < w.len() implies {
        let x = #[trigger] counted(w, time, inc)[i];
        0 <= x.0 <= k + inc.0 && 0 <= x.1 <= k + inc.1 && 0 <= x.2 <= k + inc.2
    } by {
        assert(0 <= w[i].0 <= k);
    }
}

/// Counting twice in one window is counting both.
proof fn lemma_counted_twice(w: Seq<(int, int, int)>, time: int)
    ensures
        counted(counted(w, time, (1, 0, 0)), time, (0, 1, 0)) == counted(w, time, (1, 1, 0)),
{
    assert(counted(counted(w, time, (1, 0, 0)), time, (0, 1, 0)) =~= counted(w, time, (1, 1, 0)));
}

/// Numbers of the run so far, and of what is left of it.
spec fn on_track(cfg: SimConfig, b: Books, k: int) -> bool {
    &&& b.windows.len() == cfg.window_count()
    &&& b.per_priority.len() == cfg.levels()
    &&& counts_within(b, k)
    &&& 0 <= k
    &&& k + work_left(b.pending) <= cfg.attempts()
    &&& 0 <= b.server_free <= cfg.idle_by() + k * cfg.service_ns
}

/// What one attempt leaves is still on track.
proof fn lemma_served_on_track(
    cfg: SimConfig,
    b: Books,
    i: int,
    k: int,
    admitted: bool,
    retried: bool,
)
    requires
        cfg.fits(),
        on_track(cfg, b, k),
        0 <= i < b.pending.len(),
        0 <= b.pending[i].arrival <= last_arrival(cfg),
        0 <= b.pending[i].retries_left,
        b.pending[i].priority < cfg.levels(),
        retried ==> b.pending[i].retries_left > 0,
    ensures
        on_track(cfg, served(cfg, b, i, admitted, retried), k + 1),
        work_left(served(cfg, b, i, admitted, retried).pending) < work_left(b.pending),
        0 <= start_of(cfg, b, b.pending[i]) - b.pending[i].arrival,
        work_left(b.pending) >= 1 ==> start_of(cfg, b, b.pending[i]) + cfg.service_ns <= u64::MAX,
{
    let t = served(cfg, b, i, admitted, retried);
    let a = b.pending[i];
    lemma_work_remove(b.pending, i);
    if retried {
        lemma_work_push(
            b.pending.remove(i),
            Attempt {
                arrival: a.arrival + cfg.timeout_ns,
                seq: b.next_seq,
                retries_left: a.retries_left - 1,
                priority: a.priority,
            },
        );
    }
    let sv = cfg.service_ns as int;
    assert((k + 1) * sv == k * sv + sv) by (nonlinear_arith);
    assert(0 <= k * sv) by (nonlinear_arith)
        requires
            k >= 0,
            sv >= 0,
    ;
    let at = cfg.attempts() as int;
    if k + 1 <= at {
        assert((k + 1) * sv <= at * sv) by (nonlinear_arith)
            requires
                k + 1 <= at,
                sv >= 0,
        ;
    }
    lemma_counted_within(b.windows, a.arrival, (1, 1, 0), k);
    lemma_counted_within(b.windows, a.arrival, (1, 0, 0), k);
    let offered = counted(b.windows, a.arrival, (1, 0, 0));
    assert forall|j: int| 0 <= j < t.windows.len()
        implies 0 <= (#[trigger] t.windows[j]).0 <= k + 1 && 0 <= t.windows[j].1
        <= k + 1 && 0 <= t.windows[j].2 <= k + 1 by {
        assert(0 <= b.windows[j].0 <= k);
        if !admitted {
            assert(t.windows[j] == counted(b.windows, a.arrival, (1, 1, 0))[j]);
        } else {
            assert(0 <= offered[j].0 <= k + 1 && 0 <= offered[j].1 <= k && 0 <= offered[j].2 <= k);
        }
    }
    assert forall|j: int| 0 <= j < t.per_priority.len()
        implies 0 <= (#[trigger] t.per_priority[j]).0 <= k + 1 && 0
        <= t.per_priority[j].1 <= k + 1 by {
        assert(0 <= b.per_priority[j].0 <= k);
    }
}

/// The server, and what it has to report.
struct Server {
    windows: Vec<Window>,
    per_priority: Vec<(u64, u64)>,
    success_latencies: Vec<u64>,
    free: u64,
}

impl Server {
    spec fn keeps(&self, b: Books) -> bool {
        &&& self.free == b.server_free
        &&& self.windows@.len() == b.windows.len()
        &&& forall|i: int|
            0 <= i < b.windows.len() ==> window_is(#[trigger] self.windows@[i], b.windows[i])
        &&& self.per_priority@.len() == b.per_priority.len()
        &&& forall|i: int|
            0 <= i < b.per_priority.len() ==> (#[trigger] self.per_priority@[i]).0
                == b.per_priority[i].0 && self.per_priority@[i].1 == b.per_priority[i].1
        &&& self.success_latencies@.len() == b.latencies.len()
        &&& forall|i: int|
            0 <= i < b.latencies.len() ==> #[trigger] self.success_latencies@[i] == b.latencies[i]
    }

    /// Deals with one attempt. The result: whether it was admitted, and
    /// whether it is tried again.
    fn serve<P: Policy>(
        &mut self,
        cfg: SimConfig,
        policy: &mut P,
        arrival: u64,
        retries_left: u32,
        prio: u8,
        b: Ghost<Books>,
        at: Ghost<int>,
        k: Ghost<int>,
    ) -> (r: (bool, bool))
        requires
            cfg.fits(),
            old(policy).ready(),
            old(self).keeps(b@),
            on_track(cfg, b@, k@),
            0 <= at@ < b@.pending.len(),
            arrival == b@.pending[at@].arrival,
            retries_left == b@.pending[at@].retries_left,
            prio == b@.pending[at@].priority,
            prio < cfg.levels(),
            arrival <= last_arrival(cfg),
            retries_left > 0 ==> arrival + cfg.timeout_ns <= last_arrival(cfg),
            work_left(b@.pending) >= 1,
        ensures
            final(policy).ready(),
            r.1 ==> r.0 && retries_left > 0,
            final(self).keeps(served(cfg, b@, at@, r.0, r.1)),
            consulted(cfg, b@, b@.pending[at@], *old(policy), *final(policy), r.0, r.1),
            r.1 == (served(cfg, b@, at@, r.0, r.1).pending.len() == b@.pending.len()),
    {
        let ghost b0 = b@;
        let ghost a = b0.pending[at@];
        let ghost p0 = *policy;
        proof {
            lemma_served_on_track(cfg, b0, at@, k@, true, false);
            lemma_counted_within(b0.windows, arrival as int, (1, 0, 0), k@);
            lemma_counted_twice(b0.windows, arrival as int);
            assert(k@ + 1 <= cfg.attempts());
            assert(cfg.attempts() * cfg.service_ns >= 0) by (nonlinear_arith)
                requires
                    cfg.attempts() >= 0,
                    cfg.service_ns >= 0,
            ;
        }
        count_at(&mut self.windows, arrival, Field::Offered, Ghost(b0.windows));
        let ghost offered = counted(b0.windows, arrival as int, (1, 0, 0));
        let p = prio as usize;
        let tried = self.per_priority[p];
        assert(b0.per_priority[p as int].1 <= k@ && b0.per_priority[p as int].0 <= k@);
        self.per_priority.set(p, (tried.0, tried.1 + 1));
        let admitted = policy.admits(arrival, prio);
        let ghost p1 = *policy;
        if !admitted {
            count_at(&mut self.windows, arrival, Field::Rejected, Ghost(offered));
            proof {
                assert(consulted(cfg, b0, a, p0, p1, false, false)) by {
                    assert(p0.admitting(a.arrival as u64, a.priority, false, &p1));
                    let ask = p1.observing(
                        start_of(cfg, b0, a) as u64,
                        (start_of(cfg, b0, a) - a.arrival) as u64,
                        &p1,
                    );
                }
            }
            return (false, false);
        }
        let outage_end = cfg.outage_start_ns + cfg.outage_ns;
        let mut start = if arrival > self.free {
            arrival
        } else {
            self.free
        };
        if start >= cfg.outage_start_ns && start < outage_end {
            start = outage_end;
        }
        assert(start == start_of(cfg, b0, a));
        policy.observe_queuing(start, start - arrival);
        let ghost p2 = *policy;
        let done = start + cfg.service_ns;
        self.free = done;
        let latency = done - arrival;
        let mut retried = false;
        if latency <= cfg.timeout_ns {
            count_at(&mut self.windows, done, Field::Good, Ghost(offered));
            let tried = self.per_priority[p];
            self.per_priority.set(p, (tried.0 + 1, tried.1));
            self.success_latencies.push(latency);
        } else if retries_left > 0 {
            retried = policy.allow_retry(arrival + cfg.timeout_ns);
        }
        proof {
            let q = *policy;
            assert(consulted(cfg, b0, a, p0, q, true, retried)) by {
                assert(p0.admitting(a.arrival as u64, a.priority, true, &p1));
                assert(p1.observing(
                    start_of(cfg, b0, a) as u64,
                    (start_of(cfg, b0, a) - a.arrival) as u64,
                    &p2,
                ));
            }
        }
        (true, retried)
    }
}

fn new_server(cfg: SimConfig) -> (s: Server)
    requires
        cfg.window_count() <= usize::MAX,
    ensures
        s.keeps(opening(cfg)),
{
    let n_windows = (cfg.duration_ns / SECOND) as usize;
    let blank = Window::default();
    let windows: Vec<Window> = vec![blank; n_windows];
    let levels: usize = if cfg.priority_levels > 1 {
        cfg.priority_levels as usize
    } else {
        1
    };
    let mut per_priority: Vec<(u64, u64)> = Vec::new();
    for i in 0..levels
        invariant
            per_priority@.len() == i,
            forall|j: int| 0 <= j < i ==> #[trigger] per_priority@[j] == (0u64, 0u64),
    {
        per_priority.push((0, 0));
    }
    Server { windows, per_priority, success_latencies: Vec::new(), free: 0 }
}

/// The attempts on their way: the originals by number, the retries in the
/// order in which they were made, which is that of their arrival.
struct Line {
    next: u64,
    originals: u64,
    interval: u64,
    levels: u64,
    retries: VecDeque<(u64, u32, u8)>,
    made: Ghost<Seq<Attempt>>,
}

impl Line {
    spec fn pending(&self, cfg: SimConfig) -> Seq<Attempt> {
        queued(cfg, self.next as int, self.made@)
    }

    #[verifier::opaque]
    spec fn well_formed(&self, cfg: SimConfig, now: int, next_seq: int) -> bool {
        &&& self.interval == cfg.interval()
        &&& self.levels == cfg.levels()
        &&& self.originals == cfg.originals()
        &&& in_line(cfg, self.next as int, self.made@, now, next_seq)
        &&& self.retries@.len() == self.made@.len()
        &&& forall|i: int|
            0 <= i < self.made@.len() ==> (#[trigger] self.retries@[i]).0 == self.made@[i].arrival
                && self.retries@[i].1 == self.made@[i].retries_left && self.retries@[i].2
                == self.made@[i].priority
    }

    fn new(cfg: SimConfig) -> (l: Line)
        requires
            cfg.fits(),
        ensures
            l.well_formed(cfg, 0, cfg.originals() as int),
            l.pending(cfg) == opening(cfg).pending,
    {
        let interval = 1_000_000_000 / cfg.load_qps;
        let levels: u64 = if cfg.priority_levels > 1 {
            cfg.priority_levels as u64
        } else {
            1
        };
        proof {
            lemma_originals_order(cfg, 0, 1);
            assert(interval == cfg.interval());
            assert((cfg.duration_ns - 1) / interval as int + 1 <= u64::MAX) by (nonlinear_arith)
                requires
                    interval >= 1,
                    cfg.duration_ns <= u64::MAX,
            ;
            assert(original(cfg, 0).arrival == 0) by (nonlinear_arith)
                requires
                    original(cfg, 0).arrival == 0 * cfg.interval(),
            ;
            reveal(Line::well_formed);
        }
        let originals: u64 = if cfg.duration_ns == 0 {
            0
        } else {
            (cfg.duration_ns - 1) / interval + 1
        };
        let l = Line {
            next: 0,
            originals,
            interval,
            levels,
            retries: VecDeque::new(),
            made: Ghost(Seq::empty()),
        };
        assert(l.pending(cfg) =~= opening(cfg).pending);
        l
    }

    fn is_empty(&self, cfg: Ghost<SimConfig>, now: Ghost<int>, next_seq: Ghost<int>) -> (b: bool)
        requires
            self.well_formed(cfg@, now@, next_seq@),
        ensures
            b == (self.pending(cfg@).len() == 0),
    {
        proof {
            reveal(Line::well_formed);
        }
        self.next >= self.originals && self.retries.len() == 0
    }

    /// Takes the next attempt; also says where it was.
    fn take(&mut self, cfg: SimConfig, now: Ghost<int>, next_seq: Ghost<int>) -> (r: (
        u64,
        u32,
        u8,
        Ghost<int>,
    ))
        requires
            cfg.fits(),
            0 <= now@,
            old(self).well_formed(cfg, now@, next_seq@),
            old(self).pending(cfg).len() > 0,
        ensures
            is_next(old(self).pending(cfg), r.3@),
            ({
                let a = old(self).pending(cfg)[r.3@];
                &&& r.0 == a.arrival
                &&& r.1 == a.retries_left
                &&& r.2 == a.priority
                &&& timely(cfg, a)
                &&& a.priority < cfg.levels()
            }),
            final(self).pending(cfg) == old(self).pending(cfg).remove(r.3@),
            final(self).well_formed(cfg, r.0 as int, next_seq@),
    {
        proof {
            reveal(Line::well_formed);
            if self.next < self.originals {
                lemma_original_arrival(cfg, self.next as int);
            }
        }
        let ghost next0 = self.next as int;
        let ghost made0 = self.made@;
        let take_retry = self.retries.len() > 0 && (self.next >= self.originals || self.retries[0].0
            < self.next * self.interval);
        if take_retry {
            let ghost at = cfg.originals() - next0;
            let (arrival, left, prio) = self.retries[0];
            self.retries.pop_front();
            proof {
                assert(arrival == made0[0].arrival);
                lemma_next_retry(cfg, next0, made0, now@, next_seq@);
                self.made@ = made0.skip(1);
                lemma_line_moves(
                    cfg,
                    next0,
                    made0,
                    now@,
                    next0,
                    self.made@,
                    arrival as int,
                    next_seq@,
                );
            }
            (arrival, left, prio, Ghost(at))
        } else {
            let arrival = self.next * self.interval;
            let prio = (self.next % self.levels) as u8;
            self.next = self.next + 1;
            proof {
                if made0.len() > 0 {
                    assert(self.retries@[0].0 == made0[0].arrival);
                }
                lemma_next_original(cfg, next0, made0, now@, next_seq@);
                lemma_line_moves(
                    cfg,
                    next0,
                    made0,
                    now@,
                    next0 + 1,
                    made0,
                    arrival as int,
                    next_seq@,
                );
            }
            (arrival, cfg.max_retries, prio, Ghost(0))
        }
    }

    /// A retry gets in line.
    fn put(&mut self, cfg: SimConfig, a: Ghost<Attempt>, at: u64, left: u32, prio: u8, now: Ghost<
        int,
    >)
        requires
            old(self).well_formed(cfg, now@, a@.seq),
            a@.arrival == at == now@ + cfg.timeout_ns,
            a@.retries_left == left < cfg.max_retries,
            a@.priority == prio < cfg.levels(),
            a@.arrival + a@.retries_left * cfg.timeout_ns <= last_arrival(cfg),
        ensures
            final(self).pending(cfg) == old(self).pending(cfg).push(a@),
            final(self).well_formed(cfg, now@, a@.seq + 1),
    {
        self.retries.push_back((at, left, prio));
        proof {
            reveal(Line::well_formed);
            lemma_line_joins(cfg, self.next as int, self.made@, now@, a@.seq, a@);
            self.made@ = self.made@.push(a@);
            assert(self.pending(cfg) =~= old(self).pending(cfg).push(a@));
        }
    }

    proof fn lemma_work(&self, cfg: SimConfig, now: int, next_seq: int)
        requires
            self.well_formed(cfg, now, next_seq),
        ensures
            work_left(self.pending(cfg)) >= self.pending(cfg).len(),
    {
        reveal(Line::well_formed);
        lemma_work_pending(cfg, self.next as int, self.made@, now, next_seq);
    }
}

/// Runs the simulation to its end.
pub fn run<P: Policy>(cfg: SimConfig, policy: &mut P) -> (report: Report)
    requires
        cfg.fits(),
        old(policy).ready(),
    ensures
        final(policy).ready(),
        exists|trace: Seq<(Books, P)>|
            {
                &&& #[trigger] is_run(cfg, trace)
                &&& trace[0].1 == *old(policy)
                &&& trace.last().1 == *final(policy)
                &&& trace.last().0.pending.len() == 0
                &&& reported(&report, trace.last().0)
            },
{
    let ghost mut books = opening(cfg);
    let ghost mut trace: Seq<(Books, P)> = seq![(books, *policy)];
    let ghost mut now: int = 0;
    let ghost mut k: int = 0;
    let mut server = new_server(cfg);
    let mut line = Line::new(cfg);
    proof {
        lemma_work_of_originals(cfg, cfg.originals());
        assert(cfg.max_retries * cfg.timeout_ns >= 0) by (nonlinear_arith)
            requires
                cfg.max_retries >= 0,
                cfg.timeout_ns >= 0,
        ;
        assert(on_track(cfg, books, 0));
        assert(is_run(cfg, trace));
    }
    while !line.is_empty(Ghost(cfg), Ghost(now), Ghost(books.next_seq))
        invariant
            cfg.fits(),
            policy.ready(),
            line.well_formed(cfg, now, books.next_seq),
            books.pending == line.pending(cfg),
            on_track(cfg, books, k),
            0 <= now,
            server.keeps(books),
            is_run(cfg, trace),
            trace[0].1 == *old(policy),
            trace.last() == (books, *policy),
        decreases work_left(books.pending),
    {
        let ghost b0 = books;
        proof {
            line.lemma_work(cfg, now, b0.next_seq);
        }
        let (arrival, retries_left, prio, at) = line.take(cfg, Ghost(now), Ghost(b0.next_seq));
        let ghost a = b0.pending[at@];
        proof {
            lemma_arrival_within(cfg, a);
        }
        let (admitted, retried) = server.serve(
            cfg,
            policy,
            arrival,
            retries_left,
            prio,
            Ghost(b0),
            at,
            Ghost(k),
        );
        proof {
            lemma_served_on_track(cfg, b0, at@, k, admitted, retried);
            books = served(cfg, b0, at@, admitted, retried);
        }
        if retried {
            let ghost again = Attempt {
                arrival: a.arrival + cfg.timeout_ns,
                seq: b0.next_seq,
                retries_left: a.retries_left - 1,
                priority: a.priority,
            };
            proof {
                lemma_clock(cfg);
            }
            line.put(
                cfg,
                Ghost(again),
                arrival + cfg.timeout_ns,
                retries_left - 1,
                prio,
                Ghost(arrival as int),
            );
        }
        proof {
            lemma_trace_push(cfg, trace, (books, *policy), at@, admitted, retried);
            trace = trace.push((books, *policy));
            now = arrival as int;
            k = k + 1;
            line.lemma_work(cfg, now, books.next_seq);
        }
    }
    Report {
        windows: server.windows,
        per_priority: server.per_priority,
        success_latencies: server.success_latencies,
    }
}

/// What the server waits for fits the clock.
proof fn lemma_clock(cfg: SimConfig)
    requires
        cfg.fits(),
    ensures
        cfg.idle_by() <= u64::MAX,
{
    assert(cfg.attempts() * cfg.service_ns >= 0) by (nonlinear_arith)
        requires
            cfg.attempts() >= 0,
            cfg.service_ns >= 0,
    ;
}

/// A retry joins the line at its end.
proof fn lemma_line_joins(
    cfg: SimConfig,
    next: int,
    made: Seq<Attempt>,
    now: int,
    next_seq: int,
    a: Attempt,
)
    requires
        in_line(cfg, next, made, now, next_seq),
        a.arrival == now + cfg.timeout_ns,
        a.seq == next_seq,
        0 <= a.retries_left < cfg.max_retries,
        a.priority < cfg.levels(),
        a.arrival + a.retries_left * cfg.timeout_ns <= last_arrival(cfg),
    ensures
        in_line(cfg, next, made.push(a), now, next_seq + 1),
{
    let more = made.push(a);
    assert forall|i: int, j: int| 0 <= i < j < more.len()
        implies (#[trigger] more[i]).arrival <= (#[trigger] more[j]).arrival
        && more[i].seq < more[j].seq by {
        assert(more[i] == made[i]);
        if j < made.len() {
            assert(more[j] == made[j]);
        }
    }
}

/// What is pending takes work.
proof fn lemma_work_pending(
    cfg: SimConfig,
    next: int,
    made: Seq<Attempt>,
    now: int,
    next_seq: int,
)
    requires
        in_line(cfg, next, made, now, next_seq),
    ensures
        work_left(queued(cfg, next, made)) >= queued(cfg, next, made).len(),
{
    let q = queued(cfg, next, made);
    assert forall|j: int| 0 <= j < q.len() implies (#[trigger] q[j]).retries_left >= 0 by {
        if j >= cfg.originals() - next {
            assert(q[j] == made[j - (cfg.originals() - next)]);
        }
    }
    lemma_work_nonnegative(q);
}

/// One turn more is a longer run.
proof fn lemma_trace_push<P: Policy>(
    cfg: SimConfig,
    trace: Seq<(Books, P)>,
    t: (Books, P),
    i: int,
    admitted: bool,
    retried: bool,
)
    requires
        is_run(cfg, trace),
        is_next(trace.last().0.pending, i),
        consulted(
            cfg,
            trace.last().0,
            trace.last().0.pending[i],
            trace.last().1,
            t.1,
            admitted,
            retried,
        ),
        t.0 == served(cfg, trace.last().0, i, admitted, retried),
    ensures
        is_run(cfg, trace.push(t)),
{
    let more = trace.push(t);
    let s = trace.last();
    assert(turn(cfg, s, t)) by {
        assert(t.0 == served(cfg, s.0, i, admitted, retried));
    }
    assert forall|k: int| 0 <= k < more.len() - 1
        implies turn(cfg, #[trigger] more[k], more[k + 1]) by {
        if k < trace.len() - 1 {
            assert(more[k] == trace[k] && more[k + 1] == trace[k + 1]);
            assert(turn(cfg, trace[k], trace[k + 1]));
        }
    }
}

/// An attempt that arrives in time, with the retries that it has left.
spec fn timely(cfg: SimConfig, a: Attempt) -> bool {
    &&& 0 <= a.arrival
    &&& 0 <= a.retries_left <= cfg.max_retries
    &&& a.arrival + a.retries_left * cfg.timeout_ns <= last_arrival(cfg)
}

proof fn lemma_arrival_within(cfg: SimConfig, a: Attempt)
    requires
        timely(cfg, a),
    ensures
        a.arrival <= last_arrival(cfg),
        a.retries_left > 0 ==> a.arrival + cfg.timeout_ns + (a.retries_left - 1) * cfg.timeout_ns
            <= last_arrival(cfg),
        a.retries_left > 0 ==> a.arrival + cfg.timeout_ns <= last_arrival(cfg),
{
    let r = a.retries_left;
    let t = cfg.timeout_ns as int;
    assert(r * t >= 0) by (nonlinear_arith)
        requires
            r >= 0,
            t >= 0,
    ;
    if r > 0 {
        assert(t + (r - 1) * t == r * t && (r - 1) * t >= 0) by (nonlinear_arith)
            requires
                r >= 1,
                t >= 0,
        ;
    }
}

/// When one attempt is taken, the others are still in line at its time.
proof fn lemma_line_moves(
    cfg: SimConfig,
    next: int,
    made: Seq<Attempt>,
    now: int,
    next2: int,
    made2: Seq<Attempt>,
    arrival: int,
    next_seq: int,
)
    requires
        0 < cfg.load_qps <= 1_000_000_000,
        in_line(cfg, next, made, now, next_seq),
        now <= arrival,
        ({
            ||| (next2 == next + 1 && made2 == made && next < cfg.originals() && arrival
                == original(cfg, next).arrival && (made.len() > 0 ==> arrival <= made[0].arrival))
            ||| (next2 == next && made.len() > 0 && made2 == made.skip(1) && arrival
                == made[0].arrival && (next < cfg.originals() ==> arrival < original(
                cfg,
                next,
            ).arrival))
        }),
    ensures
        in_line(cfg, next2, made2, arrival, next_seq),
{
    if next2 == next + 1 {
        lemma_originals_order(cfg, next, next + 1);
        assert forall|i: int| 0 <= i < made2.len() implies arrival <= (#[trigger] made2[i]).arrival by {
            if i > 0 {
                assert(made[0].arrival <= made[i].arrival);
            }
        }
    } else {
        assert forall|i: int| 0 <= i < made2.len()
            implies arrival <= (#[trigger] made2[i]).arrival <= arrival + cfg.timeout_ns
            && cfg.originals() <= made2[i].seq < next_seq && 0 <= made2[i].retries_left < cfg.max_retries
            && made2[i].priority < cfg.levels() && made2[i].arrival + made2[i].retries_left
            * cfg.timeout_ns <= last_arrival(cfg) by {
            assert(made2[i] == made[i + 1]);
            assert(made[0].arrival <= made[i + 1].arrival);
        }
        assert forall|i: int, j: int| 0 <= i < j < made2.len()
            implies (#[trigger] made2[i]).arrival <= (
        #[trigger] made2[j]).arrival && made2[i].seq < made2[j].seq by {
            assert(made2[i] == made[i + 1] && made2[j] == made[j + 1]);
        }
    }
}

/// The sum of the successes over the first `n` priorities.
pub open spec fn successes(per_priority: Seq<(int, int)>, n: nat) -> int
    decreases n,
{
    if n == 0 {
        0
    } else {
        successes(per_priority, (n - 1) as nat) + per_priority[n - 1].0
    }
}

/// The sum of the attempts over the first `n` priorities.
pub open spec fn tries(per_priority: Seq<(int, int)>, n: nat) -> int
    decreases n,
{
    if n == 0 {
        0
    } else {
        tries(per_priority, (n - 1) as nat) + per_priority[n - 1].1
    }
}

proof fn lemma_sums_update(s: Seq<(int, int)>, p: int, x: (int, int), n: nat)
    requires
        0 <= p < s.len(),
        n <= s.len(),
    ensures
        successes(s.update(p, x), n) == successes(s, n) + (if p < n {
            x.0 - s[p].0
        } else {
            0
        }),
        tries(s.update(p, x), n) == tries(s, n) + (if p < n {
            x.1 - s[p].1
        } else {
            0
        }),
    decreases n,
{
    if n > 0 {
        lemma_sums_update(s, p, x, (n - 1) as nat);
    }
}

/// Books that balance: a success is an attempt, every success has its latency,
/// no longer than the timeout, and no more is rejected than was offered.
pub open spec fn balanced(cfg: SimConfig, b: Books) -> bool {
    &&& b.windows.len() == cfg.window_count()
    &&& b.per_priority.len() == cfg.levels()
    &&& forall|i: int| 0 <= i < b.pending.len() ==> (#[trigger] b.pending[i]).priority < cfg.levels()
    &&& successes(b.per_priority, b.per_priority.len()) == b.latencies.len()
    &&& forall|i: int|
        0 <= i < b.per_priority.len() ==> 0 <= (#[trigger] b.per_priority[i]).0
            <= b.per_priority[i].1
    &&& forall|i: int|
        0 <= i < b.latencies.len() ==> cfg.service_ns <= #[trigger] b.latencies[i]
            <= cfg.timeout_ns
    &&& forall|i: int|
        0 <= i < b.windows.len() ==> 0 <= (#[trigger] b.windows[i]).1 <= b.windows[i].0
}

proof fn lemma_served_balanced(cfg: SimConfig, b: Books, i: int, admitted: bool, retried: bool)
    requires
        balanced(cfg, b),
        0 <= i < b.pending.len(),
    ensures
        balanced(cfg, served(cfg, b, i, admitted, retried)),
        tries(
            served(cfg, b, i, admitted, retried).per_priority,
            cfg.levels(),
        ) == tries(b.per_priority, cfg.levels()) + 1,
{
    let a = b.pending[i];
    let p = a.priority as int;
    let t = served(cfg, b, i, admitted, retried);
    let n = cfg.levels();
    let once = b.per_priority.update(p, (b.per_priority[p].0, b.per_priority[p].1 + 1));
    lemma_sums_update(b.per_priority, p, (b.per_priority[p].0, b.per_priority[p].1 + 1), n);
    lemma_sums_update(once, p, (once[p].0 + 1, once[p].1), n);
    assert forall|j: int| 0 <= j < t.pending.len() implies (#[trigger] t.pending[j]).priority < n by {
        let rest = b.pending.remove(i);
        if j < rest.len() {
            assert(rest[j] == b.pending[if j < i {
                j
            } else {
                j + 1
            }]);
        }
    }
    assert forall|j: int| 0 <= j < t.per_priority.len()
        implies 0 <= (#[trigger] t.per_priority[j]).0 <= t.per_priority[j].1 by {
        assert(0 <= b.per_priority[j].0 <= b.per_priority[j].1);
    }
    assert forall|j: int| 0 <= j < t.windows.len()
        implies 0 <= (#[trigger] t.windows[j]).1 <= t.windows[j].0 by {
        assert(0 <= b.windows[j].1 <= b.windows[j].0);
    }
    assert forall|j: int| 0 <= j < t.latencies.len()
        implies cfg.service_ns <= #[trigger] t.latencies[j] <= cfg.timeout_ns by {
        if j < b.latencies.len() {
            assert(t.latencies[j] == b.latencies[j]);
        }
    }
}

proof fn lemma_opening_balanced(cfg: SimConfig, n: nat)
    requires
        n <= cfg.levels(),
    ensures
        successes(opening(cfg).per_priority, n) == 0,
        tries(opening(cfg).per_priority, n) == 0,
    decreases n,
{
    if n > 0 {
        lemma_opening_balanced(cfg, (n - 1) as nat);
    }
}

/// The books balance at every point of every run, whatever the policy, and
/// the attempts are the turns so far.
pub proof fn lemma_books_balance<P: Policy>(cfg: SimConfig, trace: Seq<(Books, P)>, k: int)
    requires
        is_run(cfg, trace),
        0 <= k < trace.len(),
    ensures
        balanced(cfg, trace[k].0),
        tries(trace[k].0.per_priority, cfg.levels()) == k,
    decreases k,
{
    if k == 0 {
        lemma_opening_balanced(cfg, cfg.levels());
        let b = opening(cfg);
        assert forall|i: int| 0 <= i < b.pending.len()
            implies (#[trigger] b.pending[i]).priority < cfg.levels() by {
            let m = i % cfg.levels() as int;
            assert(0 <= m < cfg.levels());
        }
    } else {
        lemma_books_balance(cfg, trace, k - 1);
        assert(turn(cfg, trace[k - 1], trace[k - 1 + 1]));
        let s = trace[k - 1];
        let t = trace[k];
        let (i, admitted, retried) = choose|i: int, admitted: bool, retried: bool|
            {
                &&& is_next(s.0.pending, i)
                &&& consulted(cfg, s.0, s.0.pending[i], s.1, t.1, admitted, retried)
                &&& t.0 == #[trigger] served(cfg, s.0, i, admitted, retried)
            };
        lemma_served_balanced(cfg, s.0, i, admitted, retried);
    }
}

/// Without a policy nothing is rejected.
pub proof fn lemma_no_policy_rejects_nothing(
    cfg: SimConfig,
    trace: Seq<(Books, NoPolicy)>,
    k: int,
    w: int,
)
    requires
        is_run(cfg, trace),
        0 <= k < trace.len(),
        0 <= w < trace[k].0.windows.len(),
    ensures
        trace[k].0.windows[w].1 == 0,
    decreases k,
{
    if k > 0 {
        assert(turn(cfg, trace[k - 1], trace[k - 1 + 1]));
        let s = trace[k - 1];
        let t = trace[k];
        let (i, admitted, retried) = choose|i: int, admitted: bool, retried: bool|
            {
                &&& is_next(s.0.pending, i)
                &&& consulted(cfg, s.0, s.0.pending[i], s.1, t.1, admitted, retried)
                &&& t.0 == #[trigger] served(cfg, s.0, i, admitted, retried)
            };
        assert(admitted);
        lemma_no_policy_rejects_nothing(cfg, trace, k - 1, w);
    }
}

/// From second `t` on goodput is the full load.
pub open spec fn healed(windows: Seq<Window>, t: int, load: u64) -> bool {
    forall|i: int| t <= i < windows.len() ==> (#[trigger] windows[i]).goodput == load
}

/// The first second from `start` on where goodput is back to the full load
/// and stays there to the end.
pub fn heal_time_s(r: &Report, start: usize, load: u64) -> (t: Option<usize>)
    ensures
        match t {
            Some(t) => {
                &&& start <= t < r.windows@.len()
                &&& healed(r.windows@, t as int, load)
                &&& t > start ==> !healed(r.windows@, t - 1, load)
            },
            None => start >= r.windows@.len() || !healed(
                r.windows@,
                r.windows@.len() - 1,
                load,
            ),
        },
{
    let n = r.windows.len();
    if start >= n || r.windows[n - 1].goodput != load {
        return None;
    }
    let mut t = n - 1;
    while t > start && r.windows[t - 1].goodput == load
        invariant
            n == r.windows@.len(),
            start <= t < n,
            healed(r.windows@, t as int, load),
        decreases t,
    {
        t -= 1;
    }
    Some(t)
}

} // verus!
