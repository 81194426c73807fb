//! A token bucket, used as a retry budget.
//!
//! During overload the retry rate must be an absolute, small number, not
//! proportional to the failure rate. Retries spend tokens, tokens refill at a
//! fixed rate, and an idle bucket holds at most `burst` of them.
//!
//! Levels are kept in billionths of a token, so that refilling by the
//! nanosecond is exact.

use vstd::prelude::*;

verus! {

/// Billionths of a token in a token.
pub const TOKEN: u64 = 1_000_000_000;

pub struct TokenBucket {
    pub rate_per_sec: u64,
    pub burst: u64,
    /// Billionths of a token in the bucket when it was last looked at.
    pub level: u128,
    /// When that was.
    pub last_ns: u64,
}

/// What a bucket holds, and since when.
pub ghost struct Level {
    pub level: int,
    pub last_ns: int,
}

/// The level at `now`: refilled since the last look, and capped.
pub open spec fn refilled(rate: int, burst: int, l: Level, now: int) -> int {
    let gained = l.level + rate * (if now > l.last_ns {
        now - l.last_ns
    } else {
        0
    });
    if gained > burst * TOKEN {
        burst * TOKEN
    } else {
        gained
    }
}

/// Whether a token can be taken at `now`, and what that leaves.
pub open spec fn acquired(rate: int, burst: int, l: Level, now: int) -> (bool, Level) {
    let level = refilled(rate, burst, l, now);
    let last_ns = if now > l.last_ns {
        now
    } else {
        l.last_ns
    };
    if level >= TOKEN {
        (true, Level { level: level - TOKEN, last_ns })
    } else {
        (false, Level { level, last_ns })
    }
}

/// A full bucket at time 0.
pub open spec fn full(burst: int) -> Level {
    Level { level: burst * TOKEN, last_ns: 0 }
}

proof fn lemma_tokens_fit(n: u64)
    ensures
        0 <= n * TOKEN <= u64::MAX * 1_000_000_000,
{
    let a = n as int;
    let t = TOKEN as int;
    assert(0 <= a * t <= 0xffff_ffff_ffff_ffff * 1_000_000_000) by (nonlinear_arith)
        requires
            0 <= a <= 0xffff_ffff_ffff_ffff,
            0 <= t <= 1_000_000_000,
    ;
}

impl TokenBucket {
    pub open spec fn state(&self) -> Level {
        Level { level: self.level as int, last_ns: self.last_ns as int }
    }

    /// Never more than `burst` tokens.
    pub open spec fn well_formed(&self) -> bool {
        self.level <= self.burst * TOKEN
    }

    /// Starts full.
    pub fn new(rate_per_sec: u64, burst: u64) -> (b: TokenBucket)
        ensures
            b.well_formed(),
            b.rate_per_sec == rate_per_sec,
            b.burst == burst,
            b.state() == full(burst as int),
    {
        proof {
            lemma_tokens_fit(burst);
        }
        TokenBucket { rate_per_sec, burst, level: burst as u128 * TOKEN as u128, last_ns: 0 }
    }

    /// Takes one token at `now_ns`; false where there is none. Where the clock
    /// has not moved on, nothing is refilled.
    pub fn try_acquire(&mut self, now_ns: u64) -> (allowed: bool)
        requires
            old(self).well_formed(),
        ensures
            final(self).well_formed(),
            final(self).rate_per_sec == old(self).rate_per_sec,
            final(self).burst == old(self).burst,
            (allowed, final(self).state()) == acquired(
                old(self).rate_per_sec as int,
                old(self).burst as int,
                old(self).state(),
                now_ns as int,
            ),
    {
        proof {
            lemma_tokens_fit(self.burst);
        }
        let cap = self.burst as u128 * TOKEN as u128;
        if now_ns > self.last_ns {
            let dt = now_ns - self.last_ns;
            proof {
                let r = self.rate_per_sec as int;
                let d = dt as int;
                assert(0 <= r * d <= 0xffff_ffff_ffff_ffff * 0xffff_ffff_ffff_ffff)
                    by (nonlinear_arith)
                    requires
                        0 <= r <= 0xffff_ffff_ffff_ffff,
                        0 <= d <= 0xffff_ffff_ffff_ffff,
                ;
            }
            let gained = self.rate_per_sec as u128 * dt as u128;
            if gained > cap - self.level {
                self.level = cap;
            } else {
                self.level = self.level + gained;
            }
            self.last_ns = now_ns;
        } else {
            proof {
                let r = self.rate_per_sec as int;
                assert(r * 0 == 0);
            }
        }
        if self.level >= TOKEN as u128 {
            self.level = self.level - TOKEN as u128;
            true
        } else {
            false
        }
    }
}

/// The bucket after asking at each of the times, and how many asked in vain
/// or not: the state, and the number allowed.
pub open spec fn asked(rate: int, burst: int, start: Level, times: Seq<u64>) -> (Level, nat)
    decreases times.len(),
{
    if times.len() == 0 {
        (start, 0)
    } else {
        let (l, n) = asked(rate, burst, start, times.drop_last());
        let (allowed, m) = acquired(rate, burst, l, times.last() as int);
        (m, if allowed {
            n + 1
        } else {
            n
        })
    }
}

/// The budget is absolute: whatever the times asked at, in order, the number
/// allowed is at most what the bucket held plus what the rate gave.
pub proof fn lemma_budget_is_absolute(rate: int, burst: int, start: Level, times: Seq<u64>)
    requires
        rate >= 0,
        burst >= 0,
        0 <= start.level <= burst * TOKEN,
    ensures
        ({
            let (l, n) = asked(rate, burst, start, times);
            &&& 0 <= l.level <= burst * TOKEN
            &&& l.last_ns >= start.last_ns
            &&& l.level + n * TOKEN <= start.level + rate * (l.last_ns - start.last_ns)
        }),
    decreases times.len(),
{
    if times.len() == 0 {
        assert(rate * 0 == 0);
    } else {
        lemma_budget_is_absolute(rate, burst, start, times.drop_last());
        let (l, n) = asked(rate, burst, start, times.drop_last());
        let now = times.last() as int;
        let dt = if now > l.last_ns {
            now - l.last_ns
        } else {
            0
        };
        assert(rate * (l.last_ns - start.last_ns) + rate * dt == rate * (l.last_ns + dt
            - start.last_ns)) by (nonlinear_arith);
        assert(rate * dt >= 0) by (nonlinear_arith)
            requires
                rate >= 0,
                dt >= 0,
        ;
    }
}

/// Times that do not go back.
pub open spec fn in_order(times: Seq<u64>) -> bool {
    forall|i: int, j: int| 0 <= i <= j < times.len() ==> #[trigger] times[i] <= #[trigger] times[j]
}

/// Of calls in order, however many, no more are allowed than the burst and what
/// the rate gave between the first and the last.
pub proof fn lemma_window_is_bounded(rate: int, burst: int, start: Level, times: Seq<u64>)
    requires
        rate >= 0,
        burst >= 0,
        0 <= start.level <= burst * TOKEN,
        times.len() > 0,
        in_order(times),
        start.last_ns <= times[0],
    ensures
        ({
            let (l, n) = asked(rate, burst, start, times);
            &&& 0 <= l.level <= burst * TOKEN
            &&& l.last_ns == times.last()
            &&& l.level + n * TOKEN <= burst * TOKEN + rate * (times.last() - times[0])
        }),
    decreases times.len(),
{
    let before = times.drop_last();
    let now = times.last() as int;
    if before.len() == 0 {
        assert(asked(rate, burst, start, before) == (start, 0nat));
        assert(rate * (now - now) == 0) by (nonlinear_arith);
        let gap = if now > start.last_ns {
            now - start.last_ns
        } else {
            0
        };
        assert(rate * gap >= 0) by (nonlinear_arith)
            requires
                rate >= 0,
                gap >= 0,
        ;
    } else {
        assert(in_order(before)) by {
            assert forall|i: int, j: int| 0 <= i <= j < before.len() implies #[trigger] before[i]
                <= #[trigger] before[j] by {
                assert(times[i] <= times[j]);
            }
        }
        lemma_window_is_bounded(rate, burst, start, before);
        let last = before.last() as int;
        assert(times[before.len() - 1] <= times[before.len() as int]);
        assert(rate * (last - times[0]) + rate * (now - last) == rate * (now - times[0]))
            by (nonlinear_arith);
        assert(rate * (now - last) >= 0) by (nonlinear_arith)
            requires
                rate >= 0,
                now >= last,
        ;
        assert(rate * 0 == 0) by (nonlinear_arith);
    }
}

/// The bucket is full at `now`.
pub open spec fn is_full_at(rate: int, burst: int, l: Level, now: int) -> bool {
    refilled(rate, burst, l, now) == burst * TOKEN
}

/// A bucket that starts full is full, and one that was idle for as long as the
/// rate takes to fill it, however much longer.
pub proof fn lemma_full_when(rate: int, burst: int, l: Level, now: int)
    requires
        rate >= 0,
        burst >= 0,
        0 <= l.level <= burst * TOKEN,
        l.level == burst * TOKEN || rate * (now - l.last_ns) >= burst * TOKEN,
    ensures
        is_full_at(rate, burst, l, now),
{
    let gap = if now > l.last_ns {
        now - l.last_ns
    } else {
        0
    };
    assert(rate * gap >= 0 && (now > l.last_ns || rate * (now - l.last_ns) <= 0))
        by (nonlinear_arith)
        requires
            rate >= 0,
            gap >= 0,
    ;
}

/// The first `n` of calls that all come at `now`.
pub open spec fn at_once(now: u64, n: nat) -> Seq<u64> {
    Seq::new(n, |i: int| now)
}

/// A full bucket allows exactly `burst` of the calls that come at one instant:
/// the first ones, and no other.
pub proof fn lemma_full_bucket_grants_the_burst(
    rate: int,
    burst: int,
    l: Level,
    now: u64,
    n: nat,
)
    requires
        rate >= 0,
        burst >= 0,
        0 <= l.level,
        l.last_ns <= now,
        is_full_at(rate, burst, l, now as int),
    ensures
        asked(rate, burst, l, at_once(now, n)).1 == (if n < burst {
            n as int
        } else {
            burst
        }),
        acquired(rate, burst, asked(rate, burst, l, at_once(now, n)).0, now as int).0 == (n < burst),
{
    lemma_level_at_once(rate, burst, l, now, n);
    let (m, k) = asked(rate, burst, l, at_once(now, n));
    if n > 0 {
        assert(rate * 0 == 0) by (nonlinear_arith);
    }
}

/// So does a bucket that starts full, and one that was idle for as long as the
/// rate takes to fill it, however much longer: exactly `burst` of the calls at
/// one instant are allowed.
pub proof fn lemma_idle_bucket_grants_the_burst(
    rate: int,
    burst: int,
    l: Level,
    now: u64,
    n: nat,
)
    requires
        rate >= 0,
        burst >= 0,
        0 <= l.level <= burst * TOKEN,
        l.last_ns <= now,
        l == full(burst) || rate * (now - l.last_ns) >= burst * TOKEN,
    ensures
        asked(rate, burst, l, at_once(now, n)).1 == (if n < burst {
            n as int
        } else {
            burst
        }),
        acquired(rate, burst, asked(rate, burst, l, at_once(now, n)).0, now as int).0 == (n < burst),
{
    lemma_full_when(rate, burst, l, now as int);
    lemma_full_bucket_grants_the_burst(rate, burst, l, now, n);
}

/// What is left after `n` calls at one instant.
proof fn lemma_level_at_once(rate: int, burst: int, l: Level, now: u64, n: nat)
    requires
        rate >= 0,
        burst >= 0,
        0 <= l.level,
        l.last_ns <= now,
        is_full_at(rate, burst, l, now as int),
    ensures
        ({
            let (m, k) = asked(rate, burst, l, at_once(now, n));
            let used = if n < burst {
                n as int
            } else {
                burst
            };
            &&& k == used
            &&& refilled(rate, burst, m, now as int) == (burst - used) * TOKEN
            &&& n > 0 ==> m.last_ns == now && m.level == (burst - used) * TOKEN
        }),
    decreases n,
{
    let all = at_once(now, n);
    if n == 0 {
        assert(asked(rate, burst, l, all) == (l, 0nat));
    } else {
        lemma_level_at_once(rate, burst, l, now, (n - 1) as nat);
        assert(all.drop_last() =~= at_once(now, (n - 1) as nat));
        assert(all.last() == now);
        assert(rate * 0 == 0) by (nonlinear_arith);
    }
}

} // verus!
