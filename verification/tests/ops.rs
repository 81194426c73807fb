use database_learning_path::double::Double;
use database_learning_path::ops::inference::{
    failure_correlation, sherlock_single_fault, Correlation,
};
use database_learning_path::ops::ranking::rank_of;
use database_learning_path::ops::rca::{random_walk_rca, top_k_hit};
use database_learning_path::ops::sampling::{
    distinct_paths, edge_recall, mean_latency_us, p99_latency_us, rare_path_recall, sample,
};
use database_learning_path::ops::services::{
    all_edges, configured_edges, failure_counts, participation, rank_by_error_rate,
    rank_by_failures, run_workload, seeded_rng, topology, Topology, TopologyConfig, Trace,
    Workload,
};
use std::collections::HashSet;

fn threshold(p: f64) -> u64 {
    (p * (1u64 << 53) as f64).ceil() as u64
}

/// A number of the library as a float.
fn float(d: Double) -> f64 {
    f64::from_bits(d.to_bits())
}

/// A float as the library has it.
fn double(x: f64) -> Double {
    Double::from_bits(x.to_bits()).unwrap()
}

fn signed(c: &Correlation) -> f64 {
    if c.negative {
        -float(c.size)
    } else {
        float(c.size)
    }
}

fn setup(seed: u64) -> (Topology, Workload, TopologyConfig) {
    let cfg = TopologyConfig::default();
    let mut rng = seeded_rng(seed);
    let t = topology(&mut rng, &cfg);
    let w = run_workload(&mut rng, &t, &cfg);
    (t, w, cfg)
}

#[test]
fn the_walk_beats_both_per_node_baselines() {
    let (t, w, _) = setup(1);
    let corr = failure_correlation(&t, &w);
    let mut rng = seeded_rng(99);
    let r = random_walk_rca(&mut rng, &t, &corr, 200_000, threshold(0.15), false);
    assert!(
        top_k_hit(&r, t.root_cause, 3),
        "root cause {} not in top 3: {:?}",
        t.name(t.root_cause),
        &r[..5]
    );
    let by_count = rank_of(&rank_by_failures(&w), t.root_cause);
    let by_rate = rank_of(&rank_by_error_rate(&w), t.root_cause);
    let by_walk = rank_of(&r, t.root_cause);
    assert!(
        by_walk < by_count,
        "walk ranked it {by_walk}, failure count {by_count}"
    );
    assert!(
        by_walk <= by_rate,
        "walk ranked it {by_walk}, error rate {by_rate}"
    );
}

#[test]
fn walking_only_backwards_is_not_enough() {
    let (t, w, _) = setup(1);
    let corr = failure_correlation(&t, &w);
    let mut rng = seeded_rng(99);
    let full = random_walk_rca(&mut rng, &t, &corr, 200_000, threshold(0.15), false);
    let mut rng = seeded_rng(99);
    let back = random_walk_rca(&mut rng, &t, &corr, 200_000, threshold(0.15), true);
    assert!(
        rank_of(&full, t.root_cause) <= rank_of(&back, t.root_cause),
        "backward-only ranked {} vs full {}",
        rank_of(&back, t.root_cause),
        rank_of(&full, t.root_cause)
    );
}

#[test]
fn the_walk_is_stable_across_seeds() {
    let (t, w, _) = setup(1);
    let corr = failure_correlation(&t, &w);
    let mut hits = 0;
    for seed in 0..5u64 {
        let mut rng = seeded_rng(seed);
        let r = random_walk_rca(&mut rng, &t, &corr, 200_000, threshold(0.15), false);
        if top_k_hit(&r, t.root_cause, 3) {
            hits += 1;
        }
    }
    assert_eq!(hits, 5, "only {hits}/5 seeds put the cause in the top 3");
}

#[test]
fn inference_localizes_the_single_fault() {
    let (t, w, cfg) = setup(1);
    let r = sherlock_single_fault(&t, &w, cfg.propagation);
    assert!(
        top_k_hit(&r, t.root_cause, 3),
        "root cause {} not in top 3: {:?}",
        t.name(t.root_cause),
        &r[..5]
    );
}

#[test]
fn localization_survives_a_different_topology() {
    let (t, w, cfg) = setup(7);
    let corr = failure_correlation(&t, &w);
    let mut rng = seeded_rng(3);
    let r = random_walk_rca(&mut rng, &t, &corr, 200_000, threshold(0.15), false);
    assert!(top_k_hit(&r, t.root_cause, 5));
    assert!(top_k_hit(&sherlock_single_fault(&t, &w, cfg.propagation), t.root_cause, 5));
}

fn workload() -> (Topology, Vec<Trace>) {
    let (t, w, _) = setup(5);
    (t, w.traces)
}

#[test]
fn sampling_keeps_whole_traces() {
    let (_, traces) = workload();
    let mut rng = seeded_rng(11);
    let s = sample(&mut rng, &traces, threshold(0.05));
    assert!(!s.is_empty());
    for tr in &s {
        assert!(!tr.path.is_empty());
        assert!(traces.iter().any(|o| o.path == tr.path && o.edges == tr.edges));
    }
    let frac = s.len() as f64 / traces.len() as f64;
    assert!((frac - 0.05).abs() < 0.01, "sampled {frac} of traces");
}

#[test]
fn the_dependency_graph_survives_aggressive_sampling() {
    let (t, traces) = workload();
    let seen: HashSet<(u32, u32)> =
        traces.iter().flat_map(|t| t.edges.iter().copied()).collect();
    let truth: Vec<(u32, u32)> = seen.into_iter().collect();
    let _ = all_edges(&t);
    let mut rng = seeded_rng(11);
    let s = sample(&mut rng, &traces, threshold(1.0 / 64.0));
    let (hits, total) = edge_recall(&s, &truth);
    let r = hits as f64 / total as f64;
    assert!(r > 0.95, "1/64 sampling recovered only {r} of the edges");
}

#[test]
fn rare_paths_do_not_survive_it() {
    let (_, traces) = workload();
    let mut rng = seeded_rng(11);
    let s = sample(&mut rng, &traces, threshold(1.0 / 64.0));
    let (survived, total) = rare_path_recall(&traces, &s, 2);
    let rare = survived as f64 / total as f64;
    assert!(
        rare < 0.25,
        "rare-path recall was {rare}: the workload has no rare paths to lose"
    );
}

#[test]
fn mean_latency_is_unbiased_under_sampling() {
    let (_, traces) = workload();
    let mean = |list: &[Trace]| {
        let (sum, n) = mean_latency_us(list);
        sum as f64 / n as f64
    };
    let full = mean(&traces);
    let mut err = 0.0;
    for seed in 0..8u64 {
        let mut rng = seeded_rng(seed);
        let s = sample(&mut rng, &traces, threshold(0.02));
        err += (mean(&s) - full).abs() / full;
    }
    assert!(err / 8.0 < 0.05, "mean latency error {:.3}", err / 8.0);
}

#[test]
fn traces_are_summed_up() {
    let trace = |path: Vec<u32>, latency_us: u64| Trace {
        path,
        edges: vec![],
        failed: false,
        latency_us,
    };
    let list = vec![trace(vec![0, 1], 10), trace(vec![1, 0], 20), trace(vec![0, 2], 60)];
    assert_eq!(mean_latency_us(&list), (90, 3));
    assert_eq!(p99_latency_us(&list), 60);
    assert_eq!(distinct_paths(&list).iter().map(|(_, n)| n).sum::<usize>(), 3);
}

#[test]
fn the_storm_is_much_larger_than_the_cause() {
    let (t, w, _) = setup(1);
    let alerting = w.alerting(double(0.05));
    assert!(
        alerting.len() > 10,
        "only {} services alerting: no storm to localize",
        alerting.len()
    );
    assert!(
        !alerting.contains(&t.root_cause),
        "a gray failure must not trip its own alert"
    );
}

#[test]
fn the_broken_service_looks_healthy() {
    let (t, w, cfg) = setup(1);
    let baseline = cfg.baseline_error as f64 / (1u64 << 53) as f64;
    let cause = float(w.error_rate(t.root_cause));
    assert!(
        cause < 3.0 * baseline,
        "root cause error rate {cause} is not baseline-quiet"
    );
    let callers = &t.rdeps[t.root_cause as usize];
    let callers_rate: f64 =
        callers.iter().map(|&c| float(w.error_rate(c))).sum::<f64>() / callers.len() as f64;
    assert!(
        callers_rate > 10.0 * cause,
        "callers at {callers_rate} vs cause at {cause}"
    );
}

#[test]
fn the_loudest_alert_is_not_the_cause() {
    let (t, w, _) = setup(1);
    let by_count = rank_by_failures(&w);
    let by_rate = rank_by_error_rate(&w);
    assert!(t.is_frontend(by_rate[0]), "got {}", t.name(by_rate[0]));
    assert!(
        rank_of(&by_count, t.root_cause) > t.n_services / 2,
        "root cause ranked {} of {} by failure count",
        rank_of(&by_count, t.root_cause),
        t.n_services
    );
    assert!(
        rank_of(&by_rate, t.root_cause) > t.n_services / 2,
        "root cause ranked {} of {} by error rate",
        rank_of(&by_rate, t.root_cause),
        t.n_services
    );
    let rates: Vec<f64> = t.infra.iter().map(|&i| float(w.error_rate(i))).collect();
    let spread = rates.iter().cloned().fold(0.0f64, f64::max)
        - rates.iter().cloned().fold(1.0f64, f64::min);
    assert!(spread < 0.01, "infra error rates differ by {spread}");
}

#[test]
fn traces_reconstruct_the_dependency_graph() {
    let (t, w, _) = setup(2);
    let observed: HashSet<(u32, u32)> =
        w.traces.iter().flat_map(|tr| tr.edges.iter().copied()).collect();
    let truth: HashSet<(u32, u32)> = all_edges(&t).into_iter().collect();
    assert!(observed.is_subset(&truth));
    assert_eq!(
        observed.len(),
        truth.len(),
        "full tracing must see every reachable edge"
    );
    assert!(
        configured_edges(&t).len() > truth.len(),
        "the generator should contain some unreachable configuration"
    );
}

fn trace(path: Vec<u32>, failed: bool) -> Trace {
    Trace { path, edges: vec![], failed, latency_us: 1 }
}

fn two_front_ends() -> Topology {
    Topology {
        n_services: 4,
        deps: vec![vec![2, 3], vec![3], vec![], vec![]],
        rdeps: vec![vec![], vec![], vec![0], vec![0, 1]],
        frontends: vec![0, 1],
        infra: vec![2, 3],
        root_cause: 2,
        names: vec!["a".to_string(), "b".to_string(), "c".to_string(), "d".to_string()],
    }
}

#[test]
fn counts_follow_the_traces() {
    let traces = vec![
        trace(vec![0, 2], true),
        trace(vec![0, 3], false),
        trace(vec![1, 3], false),
        trace(vec![0, 2], true),
    ];
    let (touched, both, failed) = failure_counts(4, &traces);
    assert_eq!(touched, vec![3, 1, 2, 2]);
    assert_eq!(both, vec![2, 0, 2, 0]);
    assert_eq!(failed, 2);
    let t = two_front_ends();
    let w = Workload { traces, calls: vec![0; 4], failures: vec![0; 4] };
    let corr = failure_correlation(&t, &w);
    let root = (0.75 * 0.25 * 0.5 * 0.5f64).sqrt();
    assert_eq!(signed(&corr[0]), 0.125 / root);
    assert_eq!(signed(&corr[1]), -(0.125 / root));
    assert_eq!(signed(&corr[2]), 1.0);
    assert_eq!(signed(&corr[3]), -1.0);
    let parts = participation(&t, &w);
    assert_eq!(parts[0], (vec![3, 0, 2, 1], 3));
    assert_eq!(parts[1], (vec![0, 1, 0, 1], 1));
    assert_eq!(sherlock_single_fault(&t, &w, 1 << 53), vec![0, 2, 3, 1]);
}

#[test]
fn a_walk_avoids_what_goes_against_failures() {
    let t = two_front_ends();
    let corr = |x: f64| Correlation { negative: x < 0.0, size: double(x.abs()) };
    let against = vec![corr(0.0), corr(0.0), corr(1.0), corr(-1.0)];
    let r = random_walk_rca(&mut seeded_rng(5), &t, &against, 1_000, 0, false);
    assert_eq!(r[0], 2);
    let neither = vec![corr(0.0), corr(0.0), corr(1.0), corr(0.0)];
    assert_eq!(random_walk_rca(&mut seeded_rng(5), &t, &neither, 1_000, 0, false), r);
}

#[test]
fn correlations_are_those_of_floats() {
    let (t, w, _) = setup(7);
    let n = w.traces.len() as f64;
    let failed = w.traces.iter().filter(|tr| tr.failed).count() as f64;
    let corr = failure_correlation(&t, &w);
    for s in 0..t.n_services {
        let on = |tr: &&Trace| tr.path.contains(&(s as u32));
        let touched = w.traces.iter().filter(on).count() as f64;
        let both = w.traces.iter().filter(on).filter(|tr| tr.failed).count() as f64;
        let (a, b) = (touched / n, failed / n);
        let want = if a <= 0.0 || a >= 1.0 || b <= 0.0 || b >= 1.0 {
            0.0
        } else {
            let cov = both / n - a * b;
            (cov / (a * (1.0 - a) * b * (1.0 - b)).sqrt()).clamp(-1.0, 1.0)
        };
        assert_eq!(signed(&corr[s]), want);
        let rate = w.failures[s] as f64 / w.calls[s] as f64;
        assert_eq!(float(w.error_rate(s as u32)), if w.calls[s] == 0 { 0.0 } else { rate });
    }
}

#[test]
fn close_candidates_do_not_tie() {
    let t = two_front_ends();
    // Service 3 is on one more request of the second front end than service 2.
    let mut traces = Vec::new();
    for i in 0..4_000 {
        traces.push(trace(if i < 2_000 { vec![0, 2] } else { vec![0, 3] }, i % 2 == 0));
        traces.push(trace(if i < 1_999 { vec![1, 2] } else { vec![1, 3] }, i % 2 == 0));
    }
    let w = Workload { traces, calls: vec![0; 4], failures: vec![0; 4] };
    let r = sherlock_single_fault(&t, &w, 1 << 53);
    assert!(rank_of(&r, 2) != rank_of(&r, 3));
    assert_eq!(r.len(), 4);
}
