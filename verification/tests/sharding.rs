use database_learning_path::sharding::graphs::{
    community, edge_cut, power_law, random_assignment, Graph,
};
use database_learning_path::sharding::hashring::HashRing;
use database_learning_path::sharding::partitioner::greedy_partition;
use database_learning_path::sharding::placement::{
    hot_shard_load, hot_shard_share, modn_movement, splitmix64,
};
use database_learning_path::zipf::Zipf;

/// The steps of a cumulative distribution on the grid of the uniform draws.
fn zipf(n: usize, s: f64) -> Zipf {
    let mut cdf: Vec<f64> = Vec::with_capacity(n);
    let mut acc = 0.0;
    for r in 1..=n {
        acc += 1.0 / (r as f64).powf(s);
        cdf.push(acc);
    }
    let unit = (1u64 << 53) as f64;
    let steps = cdf.iter().map(|c| (c / acc * unit).floor() as u64 + 1).collect();
    Zipf { steps }
}

fn cut_fraction(assign: &[u32], g: &Graph) -> f64 {
    edge_cut(assign, &g.edges) as f64 / g.edges.len() as f64
}

#[test]
fn random_cut_matches_theorem_5_1() {
    let g = community(8, 1_000, 8, 2, 3);
    let cut = cut_fraction(&random_assignment(g.n, 8, 11), &g);
    assert!((cut - 0.875).abs() < 0.01, "got {cut}");
}

#[test]
fn a_power_law_graph_has_hubs() {
    let g = power_law(2_000, 4, 5);
    assert_eq!(g.n, 2_000);
    let adj = g.adjacency();
    let top = adj.iter().map(|l| l.len()).max().unwrap();
    let mean = 2.0 * g.edges.len() as f64 / g.n as f64;
    assert!(top as f64 > 10.0 * mean, "hub {top}, mean {mean}");
}

fn owners(ring: &HashRing, n_keys: u64) -> Vec<u32> {
    (0..n_keys).map(|k| ring.lookup(splitmix64(k))).collect()
}

#[test]
fn add_node_moves_about_one_fifth_and_only_to_the_new_node() {
    let mut ring = HashRing::new(128);
    for n in 0..4 {
        ring.add_node(n);
    }
    let before = owners(&ring, 50_000);
    ring.add_node(4);
    let after = owners(&ring, 50_000);
    let moved = before.iter().zip(&after).filter(|(b, a)| b != a).count();
    let frac = moved as f64 / before.len() as f64;
    assert!(frac > 0.10 && frac < 0.30, "expected ~0.20, got {frac}");
    for (b, a) in before.iter().zip(&after) {
        if b != a {
            assert_eq!(*a, 4, "a moved key must land on the new node");
        }
    }
}

#[test]
fn remove_node_moves_only_its_keys() {
    let mut ring = HashRing::new(128);
    for n in 0..5 {
        ring.add_node(n);
    }
    let before = owners(&ring, 50_000);
    ring.remove_node(2);
    let after = owners(&ring, 50_000);
    for (b, a) in before.iter().zip(&after) {
        if *b != 2 {
            assert_eq!(b, a, "a surviving node's key must not move");
        } else {
            assert_ne!(*a, 2, "node 2's keys must be re-homed");
        }
    }
}

#[test]
fn more_vnodes_tighter_balance() {
    let imbalance = |vnodes: u32| -> f64 {
        let mut ring = HashRing::new(vnodes);
        for n in 0..8 {
            ring.add_node(n);
        }
        let mut counts = [0u64; 8];
        for k in 0..100_000u64 {
            counts[ring.lookup(splitmix64(k)) as usize] += 1;
        }
        *counts.iter().max().unwrap() as f64 / (100_000.0 / 8.0)
    };
    let lumpy = imbalance(1);
    let smooth = imbalance(512);
    assert!(smooth < lumpy, "512 vnodes ({smooth}) must beat 1 ({lumpy})");
    assert!(smooth < 1.25, "512 vnodes should be within 25% of ideal, got {smooth}");
}

#[test]
fn adding_and_removing_a_node_restores_the_ring() {
    let mut ring = HashRing::new(64);
    for n in 0..3 {
        ring.add_node(n);
    }
    let before = owners(&ring, 2_000);
    ring.add_node(9);
    ring.remove_node(9);
    assert_eq!(owners(&ring, 2_000), before);
}

fn test_graph() -> Graph {
    community(8, 500, 8, 2, 7)
}

#[test]
fn balanced_within_slack() {
    let g = test_graph();
    let assign = greedy_partition(&g, 8, 5, 100);
    let mut counts = vec![0usize; 8];
    for &p in &assign {
        counts[p as usize] += 1;
    }
    let cap = (1.05 * g.n as f64 / 8.0).ceil() as usize;
    for (i, &c) in counts.iter().enumerate() {
        assert!(c <= cap, "part {i} holds {c} > cap {cap}");
    }
}

#[test]
fn beats_random_on_community_graph() {
    let g = test_graph();
    let rand_cut = cut_fraction(&random_assignment(g.n, 8, 99), &g);
    let greedy_cut = cut_fraction(&greedy_partition(&g, 8, 5, 100), &g);
    assert!(
        greedy_cut < 0.6 * rand_cut,
        "greedy {greedy_cut} vs random {rand_cut}"
    );
}

#[test]
fn deterministic() {
    let g = test_graph();
    assert_eq!(greedy_partition(&g, 8, 5, 100), greedy_partition(&g, 8, 5, 100));
}

#[test]
fn modn_4_to_5_moves_exactly_80_percent() {
    let keys: Vec<u64> = (0..100_000u64).collect();
    let (moved, total) = modn_movement(&keys, 4, 5);
    let m = moved as f64 / total as f64;
    assert!((m - 0.80).abs() < 1e-12, "got {m}");
}

#[test]
fn modn_movement_hashed_keys_same_story() {
    let keys: Vec<u64> = (0..100_000u64).map(splitmix64).collect();
    let (moved, total) = modn_movement(&keys, 4, 5);
    let m = moved as f64 / total as f64;
    assert!(m > 0.78 && m < 0.82, "got {m}");
}

#[test]
fn zipf_hot_shard_far_exceeds_ideal() {
    let hottest = hot_shard_share(&zipf(10_000, 1.0), 16, 200_000, 42);
    let share = hottest as f64 / 200_000.0;
    assert!(share > 0.12, "got {share}");
    assert!(share < 0.35, "got {share}");
}

#[test]
fn the_mixer_is_the_known_one() {
    assert_eq!(splitmix64(0), 0xe220_a839_7b1d_cdaf);
    assert_eq!(hot_shard_load(&[1, 1, 1, 2], 1), 4);
}

#[test]
fn one_more_shard_moves_all_but_one_part() {
    for n in 1..12u64 {
        let keys: Vec<u64> = (0..n * (n + 1) * 10).collect();
        let (moved, total) = modn_movement(&keys, n, n + 1);
        assert_eq!(moved * (n + 1), total * n);
    }
}

#[test]
fn a_fine_slack_is_a_fraction_like_any_other() {
    let g = test_graph();
    assert_eq!(
        greedy_partition(&g, 8, 5, 100),
        greedy_partition(&g, 8, 50_000_000, 1_000_000_000)
    );
}
