//! Hedged requests: where no answer has come after a delay, a second copy of
//! the request goes out, and the first answer wins.

use crate::distquery::fanout;
use crate::double;
use crate::double::Double;
use crate::rng;
use crate::sorting;
use rand_chacha::ChaCha8Rng;
use vstd::arithmetic::power2::{lemma_pow2_adds, lemma_pow2_pos, lemma_pow2_unfold, pow2};
use vstd::prelude::*;

verus! {

/// The stall probability of a leaf, 0.005, in units of 2^-53.
pub const P_SLOW: u64 = 45_035_996_273_705;

/// When a second copy answers that is sent after `delay` and takes `secondary`,
/// in double precision.
pub open spec fn second_answer(delay: Double, secondary: u64) -> int {
    double::total(delay.value(), fanout::in_ms(secondary))
}

/// The latency and the number of requests, where the primary answers after
/// `primary` and a second copy, if it is sent, after `secondary`.
pub open spec fn hedged(primary: u64, delay: Option<Double>, secondary: u64) -> (u64, u32) {
    match delay {
        None => (primary, 1),
        Some(d) => if fanout::in_ms(primary) <= d.value() {
            (primary, 1)
        } else if fanout::in_ms(primary) <= second_answer(d, secondary) {
            (primary, 2)
        } else {
            ((second_answer(d, secondary) / pow2(1022) as int) as u64, 2)
        },
    }
}

/// The hedge goes out.
pub open spec fn fires(primary: u64, delay: Option<Double>) -> bool {
    delay is Some && fanout::in_ms(primary) > delay->0.value()
}

/// What a request makes of a stream, and the stream that is left.
pub open spec fn request(stream: Map<nat, u32>, delay: Option<Double>) -> (
    (u64, u32),
    Map<nat, u32>,
) {
    let (primary, rest) = fanout::leaf(stream, P_SLOW);
    if fires(primary, delay) {
        let (secondary, end) = fanout::leaf(rest, P_SLOW);
        (hedged(primary, delay, secondary), end)
    } else {
        (hedged(primary, delay, 0), rest)
    }
}

/// The delay, where there is one, is a double.
pub open spec fn delay_fits(delay: Option<Double>) -> bool {
    delay matches Some(d) ==> d.finite()
}

/// A latency as a double.
fn to_double(t: u64) -> (d: Double)
    requires
        fanout::is_latency(t),
    ensures
        d.normal(),
        d.e <= 0x1000,
        d.value() == fanout::in_ms(t),
{
    proof {
        double::lemma_rounded_shifted(t as int, 1, 1022);
        let (x, h) = (t as int, pow2(1022) as int);
        assert(h * x == x * h) by (nonlinear_arith);
    }
    double::at_place(t, 1022)
}

/// From a millisecond on, the second answer is a multiple of the unit.
pub proof fn lemma_second_answer(delay: Double, secondary: u64)
    requires
        delay.normal(),
        secondary >= fanout::FAST_MIN_MS,
    ensures
        second_answer(delay, secondary) == (second_answer(delay, secondary) / pow2(1022) as int)
            * pow2(1022),
        second_answer(delay, secondary) >= fanout::in_ms(fanout::FAST_MIN_MS),
{
    let p = delay.value() + fanout::in_ms(secondary);
    let h = pow2(1022) as int;
    lemma_pow2_pos(1022);
    delay.lemma_sign();
    let x = secondary as int;
    assert(x * h >= 0x10_0000_0000_0000 * h) by (nonlinear_arith)
        requires
            x >= 0x10_0000_0000_0000,
            h > 0,
    ;
    double::lemma_rounded_coarse(p, 1, 1022);
    let r = double::rounded(p, h);
    assert(h * r == r * h) by (nonlinear_arith);
    vstd::arithmetic::div_mod::lemma_div_multiples_vanish(r, h);
    double::lemma_rounded_monotone(0x10_0000_0000_0000 * h, 1, p, 1);
    double::lemma_rounded_exact(0x10_0000_0000_0000, 1022, 1);
}

/// Which answer wins, and how many requests were sent.
pub fn settle(primary: u64, delay: Double, secondary: u64) -> (r: (u64, u32))
    requires
        delay.finite(),
        fanout::is_latency(primary),
        fanout::is_latency(secondary),
        fanout::in_ms(primary) > delay.value(),
    ensures
        r == hedged(primary, Some(delay), secondary),
        r.0 <= primary,
{
    let second = delay.plus(to_double(secondary));
    if second.at_least(to_double(primary)) {
        return (primary, 2);
    }
    proof {
        lemma_second_answer(delay, secondary);
        let (m, x, h) = (second.m as int, pow2(second.e as nat) as int, pow2(1022) as int);
        let p = primary as int;
        lemma_pow2_pos(1022);
        lemma_pow2_pos(second.e as nat);
        assert(second.e >= 1022) by {
            if second.e < 1022 {
                let g = pow2((1021 - second.e) as nat) as int;
                lemma_pow2_adds(second.e as nat, (1021 - second.e) as nat);
                lemma_pow2_pos((1021 - second.e) as nat);
                lemma_pow2_unfold(1022);
                assert(x * g >= x) by (nonlinear_arith)
                    requires
                        x > 0,
                        g >= 1,
                ;
                assert(m * x < 0x10_0000_0000_0000 * h) by (nonlinear_arith)
                    requires
                        m < 0x20_0000_0000_0000,
                        0 < x,
                        2 * x <= h,
                ;
            }
        }
        let w = pow2((second.e - 1022) as nat) as int;
        lemma_pow2_adds((second.e - 1022) as nat, 1022);
        assert(m * (w * h) == (m * w) * h) by (nonlinear_arith);
        vstd::arithmetic::div_mod::lemma_div_multiples_vanish(m * w, h);
        assert(h * (m * w) == (m * w) * h) by (nonlinear_arith);
        assert(m * w < p) by (nonlinear_arith)
            requires
                (m * w) * h < p * h,
                h > 0,
        ;
        second.lemma_sign();
        lemma_pow2_pos((second.e - 1022) as nat);
        assert(second.m > 0) by {
            assert(0 < 0x10_0000_0000_0000 * h);
        }
        assert(w <= m * w) by (nonlinear_arith)
            requires
                m >= 1,
                w > 0,
        ;
        if second.e - 1022 > 64 {
            vstd::arithmetic::power2::lemma2_to64();
            lemma_pow2_adds(64, (second.e - 1022 - 64) as nat);
            lemma_pow2_pos((second.e - 1022 - 64) as nat);
            let v = pow2((second.e - 1022 - 64) as nat) as int;
            assert(0x1_0000_0000_0000_0000 * v >= 0x1_0000_0000_0000_0000) by (nonlinear_arith)
                requires
                    v >= 1,
            ;
        }
    }
    (double::shifted(second.m, second.e - 1022) as u64, 2)
}

/// One request, hedged or not: its latency, and how many were sent.
pub fn request_with_hedge(rng: &mut ChaCha8Rng, hedge_delay: Option<Double>) -> (r: (u64, u32))
    requires
        delay_fits(hedge_delay),
    ensures
        (r, rng::words(*final(rng))) == request(rng::words(*old(rng)), hedge_delay),
        1 <= r.1 <= 2,
{
    let primary = fanout::leaf_latency(rng, P_SLOW);
    match hedge_delay {
        None => (primary, 1),
        Some(d) => {
            if d.at_least(to_double(primary)) {
                (primary, 1)
            } else {
                let secondary = fanout::leaf_latency(rng, P_SLOW);
                settle(primary, d, secondary)
            }
        },
    }
}

/// The latencies of `n` requests, how many were sent, and the stream that is
/// left.
pub open spec fn trials(stream: Map<nat, u32>, delay: Option<Double>, n: nat) -> (
    Seq<u64>,
    nat,
    Map<nat, u32>,
)
    decreases n,
{
    if n == 0 {
        (Seq::empty(), 0, stream)
    } else {
        let (before, sent, rest) = trials(stream, delay, (n - 1) as nat);
        let ((t, k), end) = request(rest, delay);
        (before.push(t), sent + k as nat, end)
    }
}

/// Runs some requests: their latencies, sorted, and how many were sent.
pub fn run_trials(rng: &mut ChaCha8Rng, trials_n: usize, hedge_delay: Option<Double>) -> (r: (
    Vec<u64>,
    u64,
))
    requires
        delay_fits(hedge_delay),
        trials_n <= u64::MAX / 2,
    ensures
        sorting::is_sorted(r.0@),
        r.0@.to_multiset() == trials(
            rng::words(*old(rng)),
            hedge_delay,
            trials_n as nat,
        ).0.to_multiset(),
        r.0@.len() == trials_n,
        r.1 == trials(rng::words(*old(rng)), hedge_delay, trials_n as nat).1,
        rng::words(*final(rng)) == trials(rng::words(*old(rng)), hedge_delay, trials_n as nat).2,
        trials_n <= r.1 <= 2 * trials_n,
{
    let mut lats: Vec<u64> = Vec::new();
    let mut sent: u64 = 0;
    for i in 0..trials_n
        invariant
            delay_fits(hedge_delay),
            trials_n <= u64::MAX / 2,
            lats@.len() == i,
            (lats@, sent as nat, rng::words(*rng)) == trials(
                rng::words(*old(rng)),
                hedge_delay,
                i as nat,
            ),
            i <= sent <= 2 * i,
    {
        let (t, k) = request_with_hedge(rng, hedge_delay);
        lats.push(t);
        sent = sent + k as u64;
    }
    (sorting::sorted(&lats), sent)
}

/// A hedge never makes a request slower, and sends a second copy where it fires.
pub proof fn lemma_hedge_never_hurts(primary: u64, delay: Option<Double>, secondary: u64)
    requires
        delay_fits(delay),
    ensures
        hedged(primary, delay, secondary).0 <= primary,
        hedged(primary, delay, secondary).1 == (if fires(primary, delay) {
            2u32
        } else {
            1
        }),
{
    if let Some(d) = delay {
        let (a, p, h) = (second_answer(d, secondary), primary as int, pow2(1022) as int);
        lemma_pow2_pos(1022);
        if a < p * h {
            d.lemma_sign();
            let t = secondary as int;
            assert(t * h >= 0) by (nonlinear_arith)
                requires
                    t >= 0,
                    h > 0,
            ;
            double::lemma_rounded_monotone(
                d.value() + fanout::in_ms(secondary),
                1,
                d.value() + fanout::in_ms(secondary),
                1,
            );
            vstd::arithmetic::div_mod::lemma_div_pos_is_pos(a, h);
            vstd::arithmetic::div_mod::lemma_div_is_ordered(a, p * h, h);
            assert(p * h == h * p) by (nonlinear_arith);
            vstd::arithmetic::div_mod::lemma_div_multiples_vanish(p, h);
        }
    }
}

/// The first answer wins: where the primary is not there by the delay, two requests are
/// sent and the earlier of the two answers counts, the second copy's a delay later.
pub proof fn lemma_first_answer_wins(primary: u64, delay: Double, secondary: u64)
    requires
        delay.normal(),
        secondary >= fanout::FAST_MIN_MS,
        primary * pow2(1022) > delay.value(),
        double::rounded(delay.value() + secondary * pow2(1022), 1) == delay.value() + secondary
            * pow2(1022),
    ensures
        ({
            let r = hedged(primary, Some(delay), secondary);
            let (first, second) = (
                primary * pow2(1022),
                delay.value() + secondary * pow2(1022),
            );
            &&& r.1 == 2
            &&& first <= second ==> r.0 == primary
            &&& first > second ==> r.0 * pow2(1022) == second
        }),
{
    let h = pow2(1022) as int;
    lemma_pow2_pos(1022);
    lemma_second_answer(delay, secondary);
    let second = second_answer(delay, secondary);
    if primary * h > second {
        let q = second / h;
        assert(0 <= q < primary) by (nonlinear_arith)
            requires
                primary * h > second,
                second == q * h,
                second >= 0,
                h > 0,
        ;
    }
}

/// Every trial sends one request or two: one where nothing is hedged, and a second copy
/// for every trial at most.
pub proof fn lemma_trials(stream: Map<nat, u32>, delay: Option<Double>, n: nat)
    ensures
        trials(stream, delay, n).0.len() == n,
        n <= trials(stream, delay, n).1 <= 2 * n,
        delay is None ==> trials(stream, delay, n).1 == n,
        delay is None ==> trials(stream, delay, n).0 == fanout::leaves(stream, P_SLOW, n).0,
        delay is None ==> trials(stream, delay, n).2 == fanout::leaves(stream, P_SLOW, n).1,
    decreases n,
{
    if n > 0 {
        lemma_trials(stream, delay, (n - 1) as nat);
    }
}

} // verus!
