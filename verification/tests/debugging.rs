use database_learning_path::debugging::histogram::LogHistogram;
use database_learning_path::debugging::slowlog::SlowLog;
use database_learning_path::debugging::workload::{
    closed_loop, open_loop, percentile, rank_of, StallModel,
};
use database_learning_path::double::Double;
use rand::{Rng, SeedableRng};
use rand_chacha::ChaCha8Rng;

/// A float as the library has it.
fn double(x: f64) -> Double {
    Double::from_bits(x.to_bits()).unwrap()
}

#[test]
fn relative_error_is_bounded() {
    let mut h = LogHistogram::new(5);
    let mut rng = ChaCha8Rng::seed_from_u64(34);
    let mut exact: Vec<u64> = (0..100_000)
        .map(|_| rng.gen_range(1..2_000_000_000u64))
        .collect();
    for &v in &exact {
        h.record(v);
    }
    for p in [50.0, 90.0, 99.0, 99.9] {
        let est = h.percentile(double(p)) as f64;
        let tru = percentile(&mut exact, double(p)) as f64;
        assert!(est >= tru, "p{p}: est {est} < true {tru}");
        assert!(est <= tru * (1.0 + 1.0 / 32.0) + 1.0, "p{p}: est {est} vs {tru}");
    }
}

#[test]
fn merge_equals_recording_everything_in_one() {
    let mut a = LogHistogram::new(4);
    let mut b = LogHistogram::new(4);
    let mut all = LogHistogram::new(4);
    for v in 1..10_000u64 {
        if v % 2 == 0 {
            a.record(v)
        } else {
            b.record(v)
        }
        all.record(v);
    }
    a.merge(&b);
    assert_eq!(a.total(), all.total());
    for p in [1.0, 25.0, 50.0, 75.0, 99.0, 100.0] {
        assert_eq!(a.percentile(double(p)), all.percentile(double(p)));
    }
}

#[test]
fn memory_never_grows() {
    let mut h = LogHistogram::new(3);
    let before = h.bucket_count();
    for v in [0u64, 1, 7, 8, 255, 1 << 20, u64::MAX / 2, u64::MAX] {
        h.record(v);
    }
    assert_eq!(h.bucket_count(), before);
    assert_eq!(h.total(), 8);
    assert!(h.percentile(double(100.0)) >= u64::MAX / 2);
}

#[test]
fn histogram_buckets_are_exact_below_the_precision() {
    let h = LogHistogram::new(5);
    for v in 0..32u64 {
        assert_eq!(h.upper_bound(h.index(v)), v);
    }
    for v in [32u64, 33, 1_000, 1_000_000_007, u64::MAX] {
        let top = h.upper_bound(h.index(v));
        assert!(top >= v);
        assert!(top - v <= v / 32);
    }
    assert_eq!(h.upper_bound(h.index(u64::MAX)), u64::MAX);
}

#[test]
fn threshold_gates_and_negative_disables() {
    let mut sl = SlowLog::new(10_000, 128);
    sl.add("GRAPH.QUERY fast", 9_999);
    sl.add("GRAPH.QUERY slow", 10_000);
    assert_eq!(sl.len(), 1);
    assert_eq!(sl.get(10)[0].cmd, "GRAPH.QUERY slow");

    let mut off = SlowLog::new(-1, 128);
    off.add("anything", u64::MAX);
    assert!(off.is_empty());
}

#[test]
fn ring_caps_and_returns_newest_first() {
    let mut sl = SlowLog::new(0, 3);
    for i in 0..10u64 {
        sl.add(&format!("cmd{i}"), 100 + i);
    }
    assert_eq!(sl.len(), 3);
    let got = sl.get(10);
    assert_eq!(
        got.iter().map(|e| e.cmd.as_str()).collect::<Vec<_>>(),
        vec!["cmd9", "cmd8", "cmd7"]
    );
    assert_eq!(sl.get(2).len(), 2);
}

#[test]
fn ids_are_monotonic_and_survive_reset() {
    let mut sl = SlowLog::new(0, 8);
    sl.add("a", 1);
    sl.add("b", 1);
    let ids: Vec<u64> = sl.get(10).iter().map(|e| e.id).collect();
    assert!(ids[0] > ids[1]);
    sl.reset();
    assert!(sl.is_empty());
    sl.add("c", 1);
    assert!(sl.get(1)[0].id > ids[0]);
}

#[test]
fn a_slow_log_without_room_keeps_nothing() {
    let mut sl = SlowLog::new(0, 0);
    sl.add("a", 1);
    assert_eq!(sl.len(), 0);
    assert!(sl.get(10).is_empty());
}

const M: StallModel = StallModel {
    service_ns: 1_000,
    stall_every: 100,
    stall_ns: 1_000_000,
};

#[test]
fn closed_loop_sees_only_service_times() {
    let lat = closed_loop(1_000, M);
    assert_eq!(lat.iter().filter(|&&l| l == 1_000_000).count(), 9);
    assert_eq!(lat.iter().filter(|&&l| l == 1_000).count(), 991);
    let mut lat = lat;
    assert_eq!(percentile(&mut lat, double(99.0)), 1_000);
}

#[test]
fn open_loop_charges_the_queue() {
    let lat = open_loop(1_000, M, 10_000);
    assert_eq!(lat[100], 1_000_000);
    assert_eq!(lat[101], 991_000);
    assert_eq!(lat[50], 1_000);
    assert!(lat.iter().filter(|&&l| l > 100_000).count() > 90);
}

#[test]
fn percentile_nearest_rank() {
    let mut v: Vec<u64> = (1..=100).collect();
    assert_eq!(percentile(&mut v, double(50.0)), 50);
    assert_eq!(percentile(&mut v, double(99.0)), 99);
    assert_eq!(percentile(&mut v, double(100.0)), 100);
}

#[test]
fn ranks_stay_inside_the_samples() {
    assert_eq!(rank_of(100, double(99.9)), 100);
    assert_eq!(rank_of(3, double(0.0)), 1);
    assert_eq!(rank_of(3, double(50.0)), 2);
    assert_eq!(rank_of(3, double(1e300)), 3);
    assert_eq!(rank_of(3, double(5e-324)), 1);
    for n in [1u64, 7, 100, 1_000, 123_456_789] {
        for p in [0.1, 29.0, 33.3, 57.0, 58.0, 99.99] {
            let want = ((p / 100.0) * n as f64).ceil() as u64;
            assert_eq!(rank_of(n, double(p)), want.clamp(1, n));
        }
    }
}

#[test]
fn open_loop_never_reports_less_than_closed_loop() {
    let open = open_loop(500, M, 2_000);
    let closed = closed_loop(500, M);
    for i in 0..500 {
        assert!(open[i] >= closed[i]);
    }
}

#[test]
fn loops_agree_where_nothing_queues() {
    assert_eq!(open_loop(300, M, 1_000_000), closed_loop(300, M));
    assert_ne!(open_loop(300, M, 999_999), closed_loop(300, M));
}

#[test]
fn entries_can_be_kept_and_compared() {
    let mut log = SlowLog::new(0, 4);
    log.add("get a", 7);
    let seen = log.get(1);
    assert_eq!(seen.clone(), log.get(1));
    log.add("get b", 7);
    assert_ne!(seen, log.get(1));
}
