//! How far a window opens or closes admission.

use crate::overload::admission;
use crate::overload::admission::GateState;
use vstd::prelude::*;

verus! {

/// How many requests of the priorities below `c` came in this window.
pub open spec fn below(requests: Seq<u64>, c: int) -> int
    decreases c,
{
    if c <= 0 {
        0
    } else {
        below(requests, c - 1) + requests[c - 1]
    }
}

proof fn lemma_below(requests: Seq<u64>, c: nat)
    ensures
        below(requests, c as int) == admission::requested(requests, c),
    decreases c,
{
    if c > 0 {
        lemma_below(requests, (c - 1) as nat);
    }
}

/// The requests of the window waited longer than the threshold on average.
pub open spec fn is_slow(threshold: int, s: GateState) -> bool {
    s.queued > threshold * s.seen
}

/// After a slow window the next one is to admit 95 in 100 of what this one
/// admitted. The cursor is the largest that does: no cursor up to the old one
/// that admits so few is above it, and it admits so few itself, unless it is at
/// the highest priority, which is never shed.
pub proof fn lemma_slow_window_sheds_one_in_twenty(threshold: int, s: GateState, c: int)
    requires
        1 <= s.cursor <= s.requests.len(),
        is_slow(threshold, s),
    ensures
        ({
            let now = admission::adapted(threshold, s).cursor;
            let admitted = below(s.requests, s.cursor);
            &&& 1 <= now <= s.cursor
            &&& 2 <= c <= s.cursor && 100 * below(s.requests, c) <= 95 * admitted ==> c <= now
            &&& now > 1 ==> 100 * below(s.requests, now) <= 95 * admitted
        }),
{
    let e = admission::adapted(threshold, s).expected;
    let now = admission::adapted(threshold, s).cursor;
    lemma_below(s.requests, s.cursor as nat);
    assert(e == 95 * below(s.requests, s.cursor)) by {
        let a = below(s.requests, s.cursor);
        assert(a * 95 == 95 * a);
    }
    admission::lemma_fitting(s.requests, e, s.cursor as nat);
    lemma_below(s.requests, now as nat);
    if 2 <= c <= s.cursor {
        lemma_below(s.requests, c as nat);
        if c > now {
            assert(admission::requested(s.requests, c as nat) * 100 > e);
        }
    }
}

/// After a window that was not slow the number to admit grows by one in a hundred
/// of all requests, from what was expected or was admitted, whichever is more. The
/// cursor is the largest that admits no more than that, and never below the old
/// one.
pub proof fn lemma_healthy_window_opens_by_one_in_a_hundred(threshold: int, s: GateState, c: int)
    requires
        1 <= s.cursor <= s.requests.len(),
        s.expected >= 0,
        !is_slow(threshold, s),
        100 * below(s.requests, s.cursor) + below(s.requests, s.requests.len() as int)
            <= u128::MAX,
        s.expected + below(s.requests, s.requests.len() as int) <= u128::MAX,
    ensures
        ({
            let next = admission::adapted(threshold, s);
            let all = below(s.requests, s.requests.len() as int);
            let admitted = below(s.requests, s.cursor);
            &&& next.expected >= s.expected + all
            &&& next.expected >= 100 * admitted + all
            &&& next.expected == s.expected + all || next.expected == 100 * admitted + all
            &&& s.cursor <= next.cursor <= s.requests.len()
            &&& next.cursor > 1 ==> 100 * below(s.requests, next.cursor) <= next.expected
            &&& 2 <= c <= s.requests.len() && 100 * below(s.requests, c) <= next.expected ==> c
                <= next.cursor
        }),
{
    let next = admission::adapted(threshold, s);
    let n = s.requests.len();
    lemma_below(s.requests, s.cursor as nat);
    lemma_below(s.requests, n);
    admission::lemma_fitting(s.requests, next.expected, n);
    lemma_below(s.requests, next.cursor as nat);
    if 2 <= c <= n {
        lemma_below(s.requests, c as nat);
        if c > next.cursor {
            assert(admission::requested(s.requests, c as nat) * 100 > next.expected);
        }
    }
    if next.cursor < s.cursor {
        assert(admission::requested(s.requests, s.cursor as nat) * 100 > next.expected);
        lemma_below_grows(s.requests, 0, n as int);
    }
}

proof fn lemma_below_grows(requests: Seq<u64>, a: int, b: int)
    requires
        0 <= a <= b,
    ensures
        0 <= below(requests, a) <= below(requests, b),
    decreases b,
{
    if b > 0 {
        if a < b {
            lemma_below_grows(requests, a, b - 1);
        } else {
            lemma_below_grows(requests, b - 1, b - 1);
        }
    }
}

/// Within a window an observation is added up and nothing else changes; the last
/// one of a window starts the next with nothing counted.
pub proof fn lemma_windows_are_counted(threshold: int, window: int, s: GateState, queuing: int)
    ensures
        ({
            let next = admission::noted(threshold, window, s, queuing);
            if s.seen + 1 < window {
                &&& next.seen == s.seen + 1
                &&& next.queued == s.queued + queuing
                &&& next.cursor == s.cursor
                &&& next.requests == s.requests
                &&& next.expected == s.expected
            } else {
                &&& next.seen == 0
                &&& next.queued == 0
                &&& next.requests.len() == s.requests.len()
                &&& forall|p: int| 0 <= p < s.requests.len() ==> #[trigger] next.requests[p] == 0
            }
        }),
{
}

/// Only the cursor decides who is admitted, and every request is counted under its
/// priority, admitted or not.
pub proof fn lemma_requests_are_counted(s: GateState, priority: u8, q: int)
    requires
        0 <= q < s.requests.len(),
        s.requests[q] < u64::MAX,
    ensures
        ({
            let (admitted, next) = admission::gated(s, priority);
            &&& admitted <==> (priority as int) < s.cursor
            &&& next.cursor == s.cursor
            &&& next.seen == s.seen
            &&& next.queued == s.queued
            &&& next.expected == s.expected
            &&& next.requests.len() == s.requests.len()
            &&& next.requests[q] == s.requests[q] + (if q == priority {
                1int
            } else {
                0
            })
        }),
{
}

/// A new gate admits every priority that there is.
pub proof fn lemma_new_gate_is_open(levels: u8, priority: u8)
    ensures
        priority < levels ==> admission::gated(admission::opened(levels as int), priority).0,
        priority == 0 ==> admission::gated(admission::opened(levels as int), priority).0,
        levels > 0 ==> !admission::gated(admission::opened(levels as int), levels).0,
{
}

/// So a slow window that admitted anything lowers the cursor, down to the highest
/// priority: a server that stays slow sheds one priority after another.
pub proof fn lemma_slow_windows_shed(threshold: int, s: GateState)
    requires
        1 < s.cursor <= s.requests.len(),
        is_slow(threshold, s),
        below(s.requests, s.cursor) > 0,
    ensures
        1 <= admission::adapted(threshold, s).cursor < s.cursor,
{
    lemma_slow_window_sheds_one_in_twenty(threshold, s, s.cursor);
}

} // verus!
