//! Admission control by priority, driven by queuing time.
//!
//! The overload signal is the average time that requests spent in the queue
//! over a window of requests. Shedding goes by priority, lowest first: a
//! request of priority `p` (0 is the highest) is admitted while `p` is below
//! the cursor, which never goes under 1. Adaptation is multiplicative down and
//! additive up on an expected number of admissions; a histogram of the
//! requested priorities turns that number back into the largest cursor that
//! fits.

use vstd::prelude::*;

verus! {

/// What an overloaded window takes off, in hundredths.
pub const ALPHA_PERCENT: u64 = 5;

/// What a healthy window adds, in hundredths of the requests.
pub const BETA_PERCENT: u64 = 1;

/// What admission control remembers.
#[verifier::ext_equal]
pub ghost struct GateState {
    /// Priorities below it are admitted.
    pub cursor: int,
    /// The requests of each priority in this window.
    pub requests: Seq<u64>,
    /// How many queuing times were seen in this window, and their sum.
    pub seen: int,
    pub queued: int,
    /// The expected number of admissions, in hundredths.
    pub expected: int,
}

/// The requests of the first `n` priorities.
pub open spec fn requested(requests: Seq<u64>, n: nat) -> nat
    decreases n,
{
    if n == 0 {
        0
    } else {
        requested(requests, (n - 1) as nat) + requests[n - 1] as nat
    }
}

/// The largest cursor from 1 to `top` under which no more than `expected`
/// hundredths are admitted; 1 where there is none.
pub open spec fn fitting(requests: Seq<u64>, expected: int, top: nat) -> nat
    decreases top,
{
    if top <= 1 || requested(requests, top) * 100 <= expected {
        if top <= 1 {
            1
        } else {
            top
        }
    } else {
        fitting(requests, expected, (top - 1) as nat)
    }
}

pub open spec fn larger(a: int, b: int) -> int {
    if a > b {
        a
    } else {
        b
    }
}

/// The state after a window: down where the average queuing time was above
/// the threshold, else up.
pub open spec fn adapted(threshold: int, s: GateState) -> GateState {
    let admitted = requested(s.requests, s.cursor as nat) as int;
    let all = requested(s.requests, s.requests.len()) as int;
    let expected = if s.queued > threshold * s.seen {
        admitted * (100 - ALPHA_PERCENT)
    } else {
        let sum = larger(s.expected, admitted * 100) + all * BETA_PERCENT;
        if sum > u128::MAX {
            u128::MAX as int
        } else {
            sum
        }
    };
    let top = if s.queued > threshold * s.seen {
        s.cursor as nat
    } else {
        s.requests.len()
    };
    GateState {
        cursor: fitting(s.requests, expected, top) as int,
        requests: Seq::new(s.requests.len(), |i: int| 0u64),
        seen: 0,
        queued: 0,
        expected,
    }
}

/// A request arrives: it is counted, and admitted below the cursor.
pub open spec fn gated(s: GateState, priority: u8) -> (bool, GateState) {
    (
        priority < s.cursor,
        if priority < s.requests.len() && s.requests[priority as int] < u64::MAX {
            GateState {
                requests: s.requests.update(
                    priority as int,
                    (s.requests[priority as int] + 1) as u64,
                ),
                ..s
            }
        } else {
            s
        },
    )
}

/// A request began processing after a time in the queue.
pub open spec fn noted(threshold: int, window: int, s: GateState, queuing: int) -> GateState {
    let t = GateState { seen: s.seen + 1, queued: s.queued + queuing, ..s };
    if t.seen >= window {
        adapted(threshold, t)
    } else {
        t
    }
}

/// Admission control remembers one count per level and a cursor between 1 and the
/// number of levels.
pub open spec fn gate_ok(s: GateState, levels: int, window: int) -> bool {
    &&& s.requests.len() == larger(levels, 1)
    &&& 1 <= s.cursor <= s.requests.len() <= 255
    &&& 0 <= s.seen < larger(window, 1)
    &&& 0 <= s.queued <= s.seen * u64::MAX
    &&& 0 <= s.expected <= u128::MAX
}

pub struct DagorGate {
    pub queuing_threshold_ns: u64,
    /// Observations per adaptation window.
    pub window: usize,
    /// Priority levels; requests carry `0..levels`, 0 highest.
    pub levels: u8,
    /// Priorities below it are admitted.
    pub admitted_below: u8,
    /// The requests of each priority in this window.
    pub requests: Vec<u64>,
    /// Queuing times seen in this window, and their sum.
    pub seen: usize,
    pub queued_ns: u128,
    /// Hundredths of the expected number of admissions.
    pub expected: u128,
}

impl DagorGate {
    pub open spec fn state(&self) -> GateState {
        GateState {
            cursor: self.admitted_below as int,
            requests: self.requests@,
            seen: self.seen as int,
            queued: self.queued_ns as int,
            expected: self.expected as int,
        }
    }

    pub open spec fn well_formed(&self) -> bool {
        gate_ok(self.state(), self.levels as int, self.window as int)
    }

    /// Equal but for what is remembered.
    pub open spec fn same_setup(&self, other: &DagorGate) -> bool {
        &&& self.queuing_threshold_ns == other.queuing_threshold_ns
        &&& self.window == other.window
        &&& self.levels == other.levels
    }

    /// Starts fully open.
    pub fn new(queuing_threshold_ns: u64, window: usize, levels: u8) -> (g: DagorGate)
        ensures
            g.well_formed(),
            g.queuing_threshold_ns == queuing_threshold_ns,
            g.window == window,
            g.levels == levels,
            g.state() == opened(levels as int),
    {
        let n: u8 = if levels > 1 {
            levels
        } else {
            1
        };
        let g = DagorGate {
            queuing_threshold_ns,
            window,
            levels,
            admitted_below: n,
            requests: vec![0; n as usize],
            seen: 0,
            queued_ns: 0,
            expected: 0,
        };
        assert(g.state() =~= opened(levels as int));
        g
    }

    /// Gates a request at arrival.
    pub fn admits(&mut self, priority: u8) -> (admitted: bool)
        requires
            old(self).well_formed(),
        ensures
            final(self).well_formed(),
            final(self).same_setup(old(self)),
            (admitted, final(self).state()) == gated(old(self).state(), priority),
    {
        let p = priority as usize;
        if p < self.requests.len() && self.requests[p] < u64::MAX {
            let n = self.requests[p] + 1;
            self.requests.set(p, n);
        }
        priority < self.admitted_below
    }

    /// An admitted request began processing after `queuing_ns` in the queue.
    /// At the end of a window the cursor is adapted.
    pub fn observe(&mut self, queuing_ns: u64)
        requires
            old(self).well_formed(),
        ensures
            final(self).well_formed(),
            final(self).same_setup(old(self)),
            final(self).state() == noted(
                old(self).queuing_threshold_ns as int,
                old(self).window as int,
                old(self).state(),
                queuing_ns as int,
            ),
    {
        proof {
            let n = self.seen as int;
            assert(n * 0xffff_ffff_ffff_ffff + 0xffff_ffff_ffff_ffff <= 0x1_0000_0000_0000_0000
                * 0xffff_ffff_ffff_ffff) by (nonlinear_arith)
                requires
                    0 <= n <= 0xffff_ffff_ffff_ffff,
            ;
            assert((n + 1) * u64::MAX == n * u64::MAX + u64::MAX) by (nonlinear_arith);
        }
        self.seen = self.seen + 1;
        self.queued_ns = self.queued_ns + queuing_ns as u128;
        if self.seen >= self.window {
            self.adapt();
        }
    }

    fn adapt(&mut self)
        requires
            old(self).requests@.len() == larger(old(self).levels as int, 1),
            1 <= old(self).admitted_below <= old(self).requests@.len(),
        ensures
            final(self).well_formed(),
            final(self).same_setup(old(self)),
            final(self).state() == adapted(
                old(self).queuing_threshold_ns as int,
                old(self).state(),
            ),
    {
        let ghost s = self.state();
        let n = self.requests.len();
        let admitted = total(&self.requests, self.admitted_below as usize);
        let all = total(&self.requests, n);
        proof {
            let t = self.queuing_threshold_ns as int;
            let k = self.seen as int;
            assert(0 <= t * k <= 0xffff_ffff_ffff_ffff * 0xffff_ffff_ffff_ffff) by (nonlinear_arith)
                requires
                    0 <= t <= 0xffff_ffff_ffff_ffff,
                    0 <= k <= 0xffff_ffff_ffff_ffff,
            ;
        }
        proof {
            let a = admitted as int;
            let k = 100 - ALPHA_PERCENT as int;
            let b = all as int;
            let beta = BETA_PERCENT as int;
            assert(0 <= a * k <= a * 100) by (nonlinear_arith)
                requires
                    0 <= k <= 100,
                    0 <= a,
            ;
            assert(0 <= b * beta <= b * 100) by (nonlinear_arith)
                requires
                    0 <= beta <= 100,
                    0 <= b,
            ;
        }
        let over = self.queued_ns > self.queuing_threshold_ns as u128 * self.seen as u128;
        let expected: u128 = if over {
            admitted * (100 - ALPHA_PERCENT as u128)
        } else {
            let base = if self.expected > admitted * 100 {
                self.expected
            } else {
                admitted * 100
            };
            let more = all * BETA_PERCENT as u128;
            if more > u128::MAX - base {
                u128::MAX
            } else {
                base + more
            }
        };
        let mut top: usize = if over {
            self.admitted_below as usize
        } else {
            n
        };
        let ghost first = top as nat;
        while top > 1 && total(&self.requests, top) * 100 > expected
            invariant
                1 <= top <= self.requests@.len() <= 255,
                self.requests@ == s.requests,
                fitting(s.requests, expected as int, first) == fitting(
                    s.requests,
                    expected as int,
                    top as nat,
                ),
            decreases top,
        {
            top -= 1;
        }
        self.admitted_below = top as u8;
        self.requests = vec![0; n];
        self.seen = 0;
        self.queued_ns = 0;
        self.expected = expected;
        assert(self.state() =~= adapted(self.queuing_threshold_ns as int, s));
    }

    /// The admission cursor: `levels` admits all, 1 only the highest
    /// priority.
    pub fn cursor(&self) -> (c: u8)
        ensures
            c == self.state().cursor,
    {
        self.admitted_below
    }
}

/// A gate that admits everything.
pub open spec fn opened(levels: int) -> GateState {
    GateState {
        cursor: larger(levels, 1),
        requests: Seq::new(larger(levels, 1) as nat, |i: int| 0u64),
        seen: 0,
        queued: 0,
        expected: 0,
    }
}

fn total(requests: &Vec<u64>, n: usize) -> (t: u128)
    requires
        n <= requests@.len() <= 255,
    ensures
        t == requested(requests@, n as nat),
        t <= 255 * 0xffff_ffff_ffff_ffff,
{
    let mut t: u128 = 0;
    for i in 0..n
        invariant
            n <= requests@.len() <= 255,
            t == requested(requests@, i as nat),
            t <= i * 0xffff_ffff_ffff_ffff,
    {
        t = t + requests[i] as u128;
    }
    t
}

proof fn lemma_requested_monotone(requests: Seq<u64>, k: nat, n: nat)
    requires
        k <= n,
    ensures
        requested(requests, k) <= requested(requests, n),
    decreases n,
{
    if k < n {
        lemma_requested_monotone(requests, k, (n - 1) as nat);
    }
}

/// The fitting cursor: as large as it can be.
pub proof fn lemma_fitting(requests: Seq<u64>, expected: int, top: nat)
    ensures
        1 <= fitting(requests, expected, top),
        top >= 1 ==> fitting(requests, expected, top) <= top,
        fitting(requests, expected, top) > 1 ==> requested(
            requests,
            fitting(requests, expected, top),
        ) * 100 <= expected,
        forall|c: nat|
            fitting(requests, expected, top) < c <= top ==> #[trigger] requested(requests, c) * 100
                > expected,
    decreases top,
{
    if top > 1 && requested(requests, top) * 100 > expected {
        lemma_fitting(requests, expected, (top - 1) as nat);
    }
}

/// The highest priority is never shed, and a request is never admitted where
/// one of a higher priority would be shed.
pub proof fn lemma_lowest_first(s: GateState, levels: int, window: int, p: u8, q: u8)
    requires
        gate_ok(s, levels, window),
        p <= q,
    ensures
        gated(s, 0).0,
        gated(s, q).0 ==> gated(s, p).0,
{
}

/// A window of slow requests admits less, down to the highest
/// priority, where anything was admitted in it; a healthy one never closes it.
pub proof fn lemma_adaptation_direction(threshold: int, s: GateState, levels: int)
    requires
        s.requests.len() == larger(levels, 1),
        1 <= s.cursor <= s.requests.len(),
        requested(s.requests, s.cursor as nat) * 100 <= u128::MAX,
    ensures
        1 <= adapted(threshold, s).cursor <= s.requests.len(),
        s.queued > threshold * s.seen && requested(s.requests, s.cursor as nat) > 0 ==> adapted(
            threshold,
            s,
        ).cursor < s.cursor || adapted(threshold, s).cursor == 1,
        s.queued > threshold * s.seen ==> adapted(threshold, s).cursor <= s.cursor,
        s.queued <= threshold * s.seen ==> adapted(threshold, s).cursor >= s.cursor,
{
    let e = adapted(threshold, s).expected;
    let admitted = requested(s.requests, s.cursor as nat) as int;
    if s.queued > threshold * s.seen {
        lemma_fitting(s.requests, e, s.cursor as nat);
    } else {
        lemma_fitting(s.requests, e, s.requests.len());
        assert(e >= admitted * 100);
        let c = adapted(threshold, s).cursor;
        if c < s.cursor {
            assert(requested(s.requests, s.cursor as nat) * 100 > e);
        }
    }
}

} // verus!
