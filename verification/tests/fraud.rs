use database_learning_path::double::Double;
use database_learning_path::fraud::er::{
    agreement, block_pairs, candidate_pairs, empirical_m, estimate_u_random, generate_records,
    link, naive_pair_count, pair_precision_recall, pattern_counts, pattern_of, pool_size,
    typo_rate, Record, FIELDS, PATTERNS,
};
use database_learning_path::fraud::fraudar::{
    column_weight, column_weights, f_measure, fraudar, g_value, Detection, Weighting,
};
use database_learning_path::fraud::review_graph::{
    degree_rank_precision, fraud_instance, obscurity_rank_precision, seeded_rng, FraudConfig,
    ReviewGraph,
};
use database_learning_path::zipf::Zipf;
use rand_chacha::ChaCha8Rng;

/// The steps of a Zipf law: the first draw of the grid behind each cumulative
/// weight.
fn zipf(n: usize, s: f64) -> Zipf {
    let mut cum: Vec<f64> = Vec::with_capacity(n);
    let mut total = 0.0;
    for r in 1..=n {
        total += 1.0 / (r as f64).powf(s);
        cum.push(total);
    }
    let unit = 1u64 << 53;
    let mut steps = Vec::with_capacity(n);
    for c in &cum {
        let (mut lo, mut hi) = (0u64, unit);
        while lo < hi {
            let mid = lo + (hi - lo) / 2;
            if *c < mid as f64 / unit as f64 * total {
                hi = mid;
            } else {
                lo = mid + 1;
            }
        }
        steps.push(lo);
    }
    Zipf { steps }
}

fn instance(rng: &mut ChaCha8Rng, cfg: &FraudConfig) -> ReviewGraph {
    let (zu, zo, zc) = (zipf(cfg.n_users, 0.7), zipf(cfg.n_objects, 0.8), zipf(cfg.n_objects, 1.5));
    fraud_instance(rng, cfg, &zu, &zo, &zc)
}

/// Column weights: `1 / ln(degree + 5)` in units of 2^-58, or one for all.
fn weights_of(g: &ReviewGraph, w: Weighting) -> Vec<u64> {
    let top = g.obj_deg.iter().copied().max().unwrap_or(0);
    let by_degree = (0..=top)
        .map(|d| (1.0 / (d as f64 + 5.0).ln() * (1u64 << 58) as f64) as u64)
        .collect();
    column_weights(g, w, &by_degree)
}

fn f_score(det: &Detection, g: &ReviewGraph) -> f64 {
    let (hit, found, truth) = f_measure(det, g);
    2.0 * hit as f64 / (found + truth) as f64
}

/// A number of the library as a float.
fn float(d: Double) -> f64 {
    f64::from_bits(d.to_bits())
}

/// A float as the library has it.
fn double(x: f64) -> Double {
    Double::from_bits(x.to_bits()).unwrap()
}

#[test]
fn sampled_u_and_em_m_recover_the_labeled_truth() {
    let mut rng = seeded_rng(20);
    let records = generate_records(&mut rng, 2_000, 3);
    let agreed = estimate_u_random(&mut rng, &records, 200_000);
    let u: Vec<f64> = agreed.iter().map(|&n| n as f64 / 200_000.0).collect();
    for f in 0..FIELDS {
        let expect = 1.0 / pool_size(f) as f64;
        assert!(
            (u[f] - expect).abs() < 0.005 + expect,
            "u[{f}] = {} vs ~{expect}",
            u[f]
        );
    }
    for key_field in [1usize, 2] {
        let pairs = block_pairs(&records, key_field);
        let counts = pattern_counts(&records, &pairs);
        let (p, m) = em(&counts, &u, key_field, 50);
        let (matched, agreed) = empirical_m(&records, &pairs);
        let p_true = matched as f64 / pairs.len() as f64;
        assert!(
            (p - p_true).abs() < 0.05,
            "pass on field {key_field}: p {p} vs {p_true}"
        );
        for f in 0..FIELDS {
            if f == key_field {
                assert!(m[f].is_nan(), "blocked field must be masked");
                continue;
            }
            let m_true = agreed[f] as f64 / matched as f64;
            assert!(
                (m[f] - m_true).abs() < 0.05,
                "pass on field {key_field}: m[{f}] {} vs {}",
                m[f],
                m_true
            );
        }
    }
}

/// Expectation-maximization for the match prior and the agreement rates among
/// matches, over pattern counts, with one field masked.
fn em(counts: &[u64], u: &[f64], masked: usize, rounds: usize) -> (f64, Vec<f64>) {
    let total: u64 = counts.iter().sum();
    let mut p = 0.2;
    let mut m = vec![0.9; FIELDS];
    for _ in 0..rounds {
        let mut mass = 0.0;
        let mut agreed = vec![0.0; FIELDS];
        for (pat, &n) in counts.iter().enumerate() {
            if n == 0 {
                continue;
            }
            let (mut yes, mut no) = (p, 1.0 - p);
            for f in 0..FIELDS {
                if f == masked {
                    continue;
                }
                if pat >> f & 1 == 1 {
                    yes *= m[f];
                    no *= u[f];
                } else {
                    yes *= 1.0 - m[f];
                    no *= 1.0 - u[f];
                }
            }
            let w = yes / (yes + no) * n as f64;
            mass += w;
            for f in 0..FIELDS {
                if pat >> f & 1 == 1 {
                    agreed[f] += w;
                }
            }
        }
        p = mass / total as f64;
        for f in 0..FIELDS {
            m[f] = (agreed[f] / mass).clamp(1e-6, 1.0 - 1e-6);
        }
    }
    m[masked] = f64::NAN;
    (p, m)
}

/// The weight of each pattern in bits, estimated from the records.
fn weights(rng: &mut ChaCha8Rng, records: &[Record]) -> Vec<f64> {
    let agreed = estimate_u_random(rng, records, 200_000);
    let u: Vec<f64> = agreed
        .iter()
        .map(|&n| (n as f64 / 200_000.0).clamp(1e-6, 1.0 - 1e-6))
        .collect();
    let by_surname = em(&pattern_counts(records, &block_pairs(records, 1)), &u, 1, 50).1;
    let by_birth = em(&pattern_counts(records, &block_pairs(records, 2)), &u, 2, 50).1;
    let m: Vec<f64> = (0..FIELDS)
        .map(|f| {
            if by_surname[f].is_nan() {
                by_birth[f]
            } else if by_birth[f].is_nan() {
                by_surname[f]
            } else {
                (by_surname[f] + by_birth[f]) / 2.0
            }
        })
        .collect();
    (0..PATTERNS)
        .map(|pat| {
            (0..FIELDS)
                .map(|f| {
                    if pat >> f & 1 == 1 {
                        (m[f] / u[f]).log2()
                    } else {
                        ((1.0 - m[f]) / (1.0 - u[f])).log2()
                    }
                })
                .sum()
        })
        .collect()
}

#[test]
fn match_weights_separate_by_many_bits() {
    let mut rng = seeded_rng(21);
    let records = generate_records(&mut rng, 2_000, 3);
    let w = weights(&mut rng, &records);
    let pairs = candidate_pairs(&records);
    let (mut m_sum, mut m_n, mut u_sum, mut u_n) = (0.0, 0.0, 0.0, 0.0);
    for &(i, j) in &pairs {
        let bits = w[pattern_of(&records[i], &records[j])];
        if records[i].entity == records[j].entity {
            m_sum += bits;
            m_n += 1.0;
        } else {
            u_sum += bits;
            u_n += 1.0;
        }
    }
    let gap = m_sum / m_n - u_sum / u_n;
    assert!(gap > 20.0, "mean match-weight gap only {gap} bits");
}

#[test]
fn blocking_saves_comparisons_and_linkage_stays_accurate() {
    let mut rng = seeded_rng(22);
    let records = generate_records(&mut rng, 2_000, 3);
    let pairs = candidate_pairs(&records);
    let naive = naive_pair_count(records.len());
    assert!(
        pairs.len() * 20 <= naive,
        "blocking only cut {naive} to {}",
        pairs.len()
    );
    let w = weights(&mut rng, &records);
    let accept: Vec<bool> = w.iter().map(|&bits| bits > 12.0).collect();
    let clusters = link(&records, &accept);
    let (correct, predicted, truth) = pair_precision_recall(&records, &clusters);
    let precision = correct as f64 / predicted as f64;
    let recall = correct as f64 / truth as f64;
    assert!(precision >= 0.95, "precision {precision}");
    assert!(recall >= 0.9, "recall {recall}");
}

#[test]
fn agreement_is_field_by_field() {
    let a = Record { entity: 0, fields: [1, 2, 3, 4, 5] };
    let b = Record { entity: 1, fields: [1, 9, 3, 9, 5] };
    assert_eq!(agreement(&a, &b), [true, false, true, false, true]);
    assert_eq!(pattern_of(&a, &b), 0b10101);
    assert_eq!(typo_rate(0) < 1 << 53, true);
    assert_eq!(naive_pair_count(4), 6);
}

#[test]
fn linking_follows_the_table() {
    let records = vec![
        Record { entity: 0, fields: [1, 2, 3, 4, 5] },
        Record { entity: 0, fields: [1, 2, 3, 4, 6] },
        Record { entity: 1, fields: [7, 8, 9, 10, 11] },
    ];
    let all = link(&records, &vec![true; PATTERNS]);
    assert_eq!(all[0], all[1]);
    assert_ne!(all[0], all[2]);
    assert_eq!(pair_precision_recall(&records, &all), (1, 1, 1));
    let none = link(&records, &vec![false; PATTERNS]);
    assert_ne!(none[0], none[1]);
    assert_eq!(pair_precision_recall(&records, &none), (0, 0, 1));
}

#[test]
fn log_weighted_peeling_recovers_the_block() {
    let mut rng = seeded_rng(10);
    let g = instance(&mut rng, &FraudConfig::default());
    let w = weights_of(&g, Weighting::LogDegree);
    let det = fraudar(&g, &w);
    let f = f_score(&det, &g);
    assert!(f >= 0.9, "no camouflage: F = {f}");
    let planted = float(g_value(&g, &g.fraud_users, &g.fraud_objects, &w));
    let found = det.weight as f64 / (1u64 << 58) as f64 / det.size as f64;
    assert!(
        found >= planted / 2.0,
        "g(returned) = {found} < half of g(planted) = {planted}"
    );
}

#[test]
fn camouflage_drags_unweighted_peeling_into_the_popular_core() {
    let mut rng = seeded_rng(11);
    let cfg = FraudConfig { camo_ratio: double(2.0), ..FraudConfig::default() };
    let g = instance(&mut rng, &cfg);
    let unw_f = f_score(&fraudar(&g, &weights_of(&g, Weighting::Unweighted)), &g);
    assert!(unw_f < 0.7, "camo 2x: unweighted F = {unw_f}");
}

#[test]
fn camouflage_does_not_move_log_weighted_detection() {
    let mut rng = seeded_rng(12);
    let cfg = FraudConfig { camo_ratio: double(2.0), ..FraudConfig::default() };
    let g = instance(&mut rng, &cfg);
    let f = f_score(&fraudar(&g, &weights_of(&g, Weighting::LogDegree)), &g);
    assert!(f >= 0.9, "camo 2x: log-weighted F = {f}");
}

#[test]
fn review_graph_instance_shape_is_as_advertised() {
    let mut rng = seeded_rng(1);
    let cfg = FraudConfig { camo_ratio: double(1.0), ..FraudConfig::default() };
    let g = instance(&mut rng, &cfg);
    assert_eq!(g.fraud_users.len(), 20);
    assert_eq!(g.fraud_objects.len(), 80);
    let fraud_edges = g
        .edges
        .iter()
        .filter(|&&(u, o)| u >= cfg.n_users && o >= cfg.n_objects)
        .count();
    assert_eq!(fraud_edges, 1600);
    let camo_edges = g
        .edges
        .iter()
        .filter(|&&(u, o)| u >= cfg.n_users && o < cfg.n_objects)
        .count();
    assert!(
        (fraud_edges as f64 * 0.8..=fraud_edges as f64 * 1.05).contains(&(camo_edges as f64)),
        "{camo_edges} camouflage for {fraud_edges} fraud edges"
    );
}

#[test]
fn degree_ranking_never_finds_economical_fraud() {
    let mut rng = seeded_rng(2);
    let g = instance(&mut rng, &FraudConfig::default());
    let (hits, k) = degree_rank_precision(&g);
    let p = hits as f64 / k as f64;
    assert!(p < 0.3, "degree precision {p}");
}

#[test]
fn obscurity_ranking_dies_to_camouflage() {
    let mut rng = seeded_rng(3);
    let clean = instance(&mut rng, &FraudConfig::default());
    let (hits, k) = obscurity_rank_precision(&clean);
    let p0 = hits as f64 / k as f64;
    assert!(p0 > 0.7, "no camouflage: obscurity precision {p0}");

    let camo = instance(
        &mut rng,
        &FraudConfig { camo_ratio: double(2.0), ..FraudConfig::default() },
    );
    let (hits, k) = obscurity_rank_precision(&camo);
    let p2 = hits as f64 / k as f64;
    assert!(p2 < 0.3, "camo 2x: obscurity precision {p2}");
}

#[test]
fn weights_fall_with_the_degree() {
    let table = vec![9, 7, 4];
    assert_eq!(column_weight(2, Weighting::LogDegree, &table), 4);
    assert_eq!(column_weight(2, Weighting::Unweighted, &table), 1 << 58);
    assert_eq!(column_weight(700, Weighting::Unweighted, &table), 1 << 58);
}

#[test]
fn entities_can_have_any_number() {
    let far = 1usize << 40;
    let records = vec![
        Record { entity: far, fields: [1, 2, 3, 4, 5] },
        Record { entity: far, fields: [1, 2, 3, 4, 6] },
        Record { entity: 0, fields: [7, 8, 9, 10, 11] },
    ];
    assert_eq!(pair_precision_recall(&records, &[4, 4, 4]), (1, 3, 1));
}

#[test]
fn densities_add_up_like_floats() {
    let mut rng = seeded_rng(21);
    let cfg = FraudConfig { camo_ratio: double(0.3), ..FraudConfig::default() };
    let g = instance(&mut rng, &cfg);
    let users: Vec<usize> = (0..g.n_users).filter(|u| u % 3 == 0).collect();
    let objects: Vec<usize> = (0..g.n_objects).filter(|o| o % 2 == 1).collect();
    let sum: f64 = g
        .edges
        .iter()
        .filter(|&&(u, o)| u % 3 == 0 && o % 2 == 1)
        .map(|&(_, o)| 1.0 / ((g.obj_deg[o] as f64 + 5.0).ln()))
        .sum();
    let want = sum / (users.len() + objects.len()) as f64;
    let w = weights_of(&g, Weighting::LogDegree);
    assert_eq!(float(g_value(&g, &users, &objects, &w)), want);
}
