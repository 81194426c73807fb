use database_learning_path::distquery::exchange::{merge_sorted, Exchange, Partitioning};
use database_learning_path::distquery::fanout::{
    leaf_latency, percentile, scatter_gather, scatter_gather_frac, seeded_rng, MS, SLOW_MS,
};
use database_learning_path::distquery::hedge::{run_trials, settle};
use database_learning_path::double::Double;
use rand::Rng;

/// A float as the library has it.
fn double(x: f64) -> Double {
    Double::from_bits(x.to_bits()).unwrap()
}

fn threshold(p: f64) -> u64 {
    (p * (1u64 << 53) as f64).ceil() as u64
}

#[test]
fn hash_routing_is_deterministic_and_complete() {
    let rows: Vec<u64> = (0..10_000).collect();
    let mut ex = Exchange::new(8, Partitioning::Hash);
    let out1 = ex.partition(&rows);
    let out2 = ex.partition(&rows);
    assert_eq!(out1, out2, "same input must route identically");
    let mut all: Vec<u64> = out1.into_iter().flatten().collect();
    all.sort_unstable();
    assert_eq!(all, rows, "every row exactly once");
}

#[test]
fn round_robin_balances_to_within_one_row() {
    let rows: Vec<u64> = (0..10_001).collect();
    let mut ex = Exchange::new(8, Partitioning::RoundRobin);
    let out = ex.partition(&rows);
    let sizes: Vec<usize> = out.iter().map(Vec::len).collect();
    let (min, max) = (sizes.iter().min().unwrap(), sizes.iter().max().unwrap());
    assert!(max - min <= 1, "sizes {sizes:?}");
    let mut all: Vec<u64> = out.into_iter().flatten().collect();
    all.sort_unstable();
    assert_eq!(all, rows);
}

#[test]
fn merging_exchange_preserves_sorted_order() {
    let runs: Vec<Vec<u64>> = (0..8u64)
        .map(|r| (0..1_000u64).map(|i| i * 8 + r).collect())
        .collect();
    let merged = merge_sorted(&runs);
    let expect: Vec<u64> = (0..8_000).collect();
    assert_eq!(merged, expect, "merge must be globally sorted, same multiset");
}

#[test]
fn round_robin_goes_on_where_it_stopped() {
    let mut ex = Exchange::new(3, Partitioning::RoundRobin);
    assert_eq!(ex.partition(&[10, 11]), vec![vec![10], vec![11], vec![]]);
    assert_eq!(ex.partition(&[12, 13]), vec![vec![13], vec![], vec![12]]);
}

#[test]
fn simulated_fanout_matches_the_closed_form() {
    let mut rng = seeded_rng(7);
    let n_trials = 20_000;
    let slow = (0..n_trials)
        .filter(|_| scatter_gather(&mut rng, 100, threshold(0.01)) >= SLOW_MS)
        .count();
    let frac = slow as f64 / n_trials as f64;
    assert!(
        (frac - 0.634).abs() < 0.02,
        "expected ~0.634, got {frac}"
    );
}

#[test]
fn the_leaf_tail_becomes_the_service_median() {
    let mut rng = seeded_rng(42);
    let mut one: Vec<u64> = (0..10_000)
        .map(|_| leaf_latency(&mut rng, threshold(0.01)))
        .collect();
    let mut all: Vec<u64> = (0..10_000)
        .map(|_| scatter_gather(&mut rng, 100, threshold(0.01)))
        .collect();
    one.sort_unstable();
    all.sort_unstable();
    let one_p50 = percentile(&one, double(0.50));
    let all_p50 = percentile(&all, double(0.50));
    assert!(one_p50 < 10 * MS, "one leaf p50 should be fast, got {one_p50}");
    assert!(
        all_p50 >= SLOW_MS,
        "100-leaf p50 should be a stall, got {all_p50}"
    );
}

#[test]
fn most_leaves_are_in_before_all_of_them() {
    let mut a = seeded_rng(3);
    let mut b = seeded_rng(3);
    let some = scatter_gather_frac(&mut a, 100, threshold(0.01), double(0.95));
    let all = scatter_gather(&mut b, 100, threshold(0.01));
    assert!(some <= all);
}

#[test]
fn a_10ms_hedge_cuts_p999_by_10x() {
    let mut rng = seeded_rng(11);
    let (unhedged, _) = run_trials(&mut rng, 100_000, None);
    let (hedged, _) = run_trials(&mut rng, 100_000, Some(double(10.0)));
    let u = percentile(&unhedged, double(0.999));
    let h = percentile(&hedged, double(0.999));
    assert!(u >= SLOW_MS, "unhedged p99.9 should be a stall, got {u}");
    assert!(h as f64 * 10.0 <= u as f64, "hedged p99.9 {h} not 10x below unhedged {u}");
}

#[test]
fn extra_load_stays_under_10_percent() {
    let mut rng = seeded_rng(13);
    let trials = 100_000usize;
    let (_, sent) = run_trials(&mut rng, trials, Some(double(10.0)));
    let extra = sent as f64 / trials as f64 - 1.0;
    assert!(extra < 0.10, "extra request fraction {extra}");
    assert!(extra > 0.0, "a 10 ms hedge must fire sometimes");
}

#[test]
fn zero_delay_doubles_the_requests() {
    let mut rng = seeded_rng(17);
    let trials = 10_000usize;
    let (_, sent) = run_trials(&mut rng, trials, Some(double(0.0)));
    let extra = sent as f64 / trials as f64 - 1.0;
    assert!(extra > 0.95, "zero-delay hedge should ~double requests, extra {extra}");
}

#[test]
fn the_faster_copy_wins() {
    assert_eq!(settle(1_000 * MS, double(10.0), 5 * MS), (15 * MS, 2));
    assert_eq!(settle(15 * MS, double(10.0), 5 * MS), (15 * MS, 2));
    assert_eq!(settle(12 * MS, double(10.0), 5 * MS), (12 * MS, 2));
    let late = 0.1 + 5.000_000_000_000_001;
    let five = (5.000_000_000_000_001 * MS as f64) as u64;
    assert_eq!(settle(9 * MS, double(0.1), five), ((late * MS as f64) as u64, 2));
}

#[test]
fn leaves_are_drawn_in_double_precision() {
    let mut rng = seeded_rng(23);
    let mut twin = seeded_rng(23);
    for _ in 0..20_000 {
        let want = if twin.gen::<f64>() < 0.01 {
            1_000.0
        } else {
            twin.gen_range(1.0..10.0)
        };
        let got = leaf_latency(&mut rng, threshold(0.01));
        assert_eq!(got as f64 / MS as f64, want);
    }
}

#[test]
fn places_are_computed_in_double_precision() {
    let list: Vec<u64> = (0..100).collect();
    assert_eq!(percentile(&list, double(0.29)), 28);
    assert_eq!(percentile(&list, double(0.57)), 56);
    assert_eq!(percentile(&list, double(0.5)), 50);
    assert_eq!(percentile(&list, double(1.0)), 99);
    assert_eq!(percentile(&list, double(7.0)), 99);
}
