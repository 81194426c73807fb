use database_learning_path::overload::admission::DagorGate;
use database_learning_path::overload::sim::{
    heal_time_s, run, Dagor, NoPolicy, RetryBudget, SimConfig, Window,
};
use database_learning_path::overload::tokenbucket::TokenBucket;

const THRESHOLD: u64 = 20_000_000;
const FAST: u64 = 1_000_000;
const SLOW: u64 = 100_000_000;

/// One round of traffic: 400 requests, priorities in turn, every admitted one
/// with the same queuing time.
fn round(g: &mut DagorGate, queuing_ns: u64) {
    for i in 0..400u32 {
        if g.admits((i % 4) as u8) {
            g.observe(queuing_ns);
        }
    }
}

#[test]
fn healthy_admits_everything() {
    let mut g = DagorGate::new(THRESHOLD, 100, 4);
    for _ in 0..10 {
        round(&mut g, FAST);
    }
    assert_eq!(g.cursor(), 4);
    for p in 0..4u8 {
        assert!(g.admits(p));
    }
}

#[test]
fn overload_sheds_lowest_priority_first_and_never_the_highest() {
    let mut g = DagorGate::new(THRESHOLD, 100, 4);
    for _ in 0..50 {
        round(&mut g, SLOW);
    }
    assert!(g.cursor() < 4);
    assert!(g.cursor() >= 1);
    assert!(g.admits(0));
    assert!(!g.admits(3));
}

#[test]
fn cursor_recovers_when_pressure_clears() {
    let mut g = DagorGate::new(THRESHOLD, 100, 4);
    for _ in 0..50 {
        round(&mut g, SLOW);
    }
    assert!(g.cursor() < 4);
    for _ in 0..500 {
        round(&mut g, FAST);
    }
    assert_eq!(g.cursor(), 4);
    assert!(g.admits(3));
}

/// Capacity 1000 per second, load 800, a timeout of 50 ms, one retry, and an
/// outage of one second.
const VULNERABLE: SimConfig = SimConfig {
    service_ns: 1_000_000,
    load_qps: 800,
    timeout_ns: 50_000_000,
    max_retries: 1,
    outage_start_ns: 2_000_000_000,
    outage_ns: 1_000_000_000,
    duration_ns: 10_000_000_000,
    priority_levels: 1,
};

#[test]
fn vulnerable_state_is_fine_without_a_trigger() {
    let cfg = SimConfig { outage_ns: 0, ..VULNERABLE };
    let r = run(cfg, &mut NoPolicy);
    assert!(r.windows.iter().all(|w| w.goodput == 800));
}

#[test]
fn trigger_above_hidden_capacity_collapses_permanently() {
    let r = run(VULNERABLE, &mut NoPolicy);
    assert_eq!(r.windows[0].goodput, 800);
    assert_eq!(r.windows[1].goodput, 800);
    assert_eq!(r.windows[8].goodput, 0);
    assert_eq!(r.windows[9].goodput, 0);
    assert_eq!(r.windows[9].offered, 1600);
    assert_eq!(heal_time_s(&r, 3, 800), None);
}

#[test]
fn trigger_below_hidden_capacity_heals() {
    let cfg = SimConfig { load_qps: 400, ..VULNERABLE };
    let r = run(cfg, &mut NoPolicy);
    assert_eq!(r.windows[1].goodput, 400);
    assert_eq!(r.windows[3].goodput, 0);
    assert_eq!(r.windows[9].goodput, 400);
    assert!(heal_time_s(&r, 3, 400).is_some());
}

#[test]
fn a_retry_budget_breaks_the_storm() {
    let cfg = SimConfig { duration_ns: 20_000_000_000, ..VULNERABLE };
    let budget = run(cfg, &mut RetryBudget(TokenBucket::new(8, 8)));
    assert!(heal_time_s(&budget, 3, 800).is_some());
    let storm = run(cfg, &mut NoPolicy);
    assert_eq!(heal_time_s(&storm, 3, 800), None);
    assert!(budget.windows[4].offered < storm.windows[4].offered);
}

#[test]
fn admission_rejects_and_serves_the_rest() {
    let cfg = SimConfig { load_qps: 2_000, outage_ns: 0, priority_levels: 4, ..VULNERABLE };
    let mut policy = Dagor(DagorGate::new(20_000_000, 200, 4));
    let r = run(cfg, &mut policy);
    let rejected: u64 = r.windows.iter().map(|w| w.rejected).sum();
    assert!(rejected > 0);
    assert_eq!(r.per_priority.len(), 4);
    for &(good, attempts) in &r.per_priority {
        assert!(good <= attempts);
    }
    let good: u64 = r.per_priority.iter().map(|p| p.0).sum();
    assert_eq!(good, r.success_latencies.len() as u64);
}

#[test]
fn capacity_is_the_inverse_of_service_time() {
    assert_eq!(VULNERABLE.capacity_qps(), 1_000);
}

#[test]
fn burst_then_deny() {
    let mut tb = TokenBucket::new(10, 5);
    for _ in 0..5 {
        assert!(tb.try_acquire(0));
    }
    assert!(!tb.try_acquire(0));
}

#[test]
fn steady_rate_enforced() {
    let mut tb = TokenBucket::new(10, 1);
    assert!(tb.try_acquire(0));
    let mut allowed = 0;
    for ms in 1..=1000u64 {
        if tb.try_acquire(ms * 1_000_000) {
            allowed += 1;
        }
    }
    assert_eq!(allowed, 10);
}

#[test]
fn idle_does_not_accumulate_beyond_burst() {
    let mut tb = TokenBucket::new(1_000, 4);
    for _ in 0..4 {
        assert!(tb.try_acquire(0));
    }
    assert!(!tb.try_acquire(0));
    let t = 10_000_000_000;
    for _ in 0..4 {
        assert!(tb.try_acquire(t));
    }
    assert!(!tb.try_acquire(t));
}

#[test]
fn a_late_outage_leaves_the_run_its_clock() {
    let cfg = SimConfig {
        service_ns: 1,
        load_qps: 1,
        timeout_ns: 1,
        max_retries: 0,
        outage_start_ns: u64::MAX - 1_000,
        outage_ns: 500,
        duration_ns: 3_000_000_000,
        priority_levels: 1,
    };
    let r = run(cfg, &mut NoPolicy);
    assert!(r.windows.iter().all(|w| w.goodput == 1));
    assert_eq!(Window::default().offered, 0);
}

#[test]
fn a_full_bucket_grants_exactly_the_burst() {
    for (rate, burst) in [(1u64, 1u64), (3, 7), (1_000, 4), (7, 0)] {
        let mut tb = TokenBucket::new(rate, burst);
        let mut t = 0u64;
        for _ in 0..3 {
            let allowed = (0..burst + 5).filter(|_| tb.try_acquire(t)).count() as u64;
            assert_eq!(allowed, burst);
            // As long as it takes to fill, and then some.
            t += burst * 1_000_000_000 / rate + 1 + t;
        }
    }
}
