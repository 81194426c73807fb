use database_learning_path::onchain::chain::{addresses_of, descendants, Chain};
use database_learning_path::onchain::clustering::{
    change_output, full_clusters, multi_input_clusters, quality, ClusterQuality,
};
use database_learning_path::onchain::instance::{chain_instance, payment, ChainConfig};
use database_learning_path::onchain::taint::{
    extract_taint, fifo, flagged_utxos, flagged_value, haircut, poison, TaintPart, CLEAN, STOLEN,
};
use database_learning_path::rng::seeded_rng;
use rand::Rng;
use std::collections::{HashSet, VecDeque};

fn threshold(p: f64) -> u64 {
    (p * (1u64 << 53) as f64).ceil() as u64
}

#[test]
fn the_chain_conserves_value() {
    let mut rng = seeded_rng(1);
    let cfg = ChainConfig {
        n_entities: 50,
        n_txs: 2_000,
        ..ChainConfig::default()
    };
    let c = chain_instance(&mut rng, &cfg);
    for tx in &c.txs {
        if tx.is_coinbase() {
            continue;
        }
        let i: u64 = tx.inputs.iter().map(|&o| c.outputs[o].value).sum();
        let o: u64 = tx.outputs.iter().map(|&o| c.outputs[o].value).sum();
        assert_eq!(i, o);
    }
    assert_eq!(c.total_value(), cfg.n_entities as u64 * cfg.initial_value);
}

#[test]
fn addresses_vastly_outnumber_entities() {
    let mut rng = seeded_rng(2);
    let c = chain_instance(&mut rng, &ChainConfig::default());
    assert!(
        c.n_addresses() > 20 * c.n_entities,
        "{} addresses for {} entities",
        c.n_addresses(),
        c.n_entities
    );
}

#[test]
fn the_theft_spreads_through_the_graph() {
    let mut rng = seeded_rng(3);
    let c = chain_instance(&mut rng, &ChainConfig::default());
    let d = descendants(&c, c.stolen_output);
    assert!(d.len() > 100, "only {} descendants", d.len());
    let outs: Vec<usize> = d.iter().copied().collect();
    let names = addresses_of(&c, &outs);
    assert!(!names.is_empty());
    assert!(names.len() <= d.len());
}

#[test]
fn a_payment_leaves_change() {
    assert_eq!(payment(2, 0), 1);
    for draw in [0u64, 1 << 40, (1 << 52) - 1] {
        let p = payment(1_000, draw);
        assert!(1 <= p && p < 1_000);
    }
}

fn chain(change_reuse_rate: f64) -> Chain {
    let mut rng = seeded_rng(11);
    chain_instance(
        &mut rng,
        &ChainConfig {
            n_entities: 120,
            n_txs: 8_000,
            change_reuse_rate: threshold(change_reuse_rate),
            ..ChainConfig::default()
        },
    )
}

fn precision(q: &ClusterQuality) -> f64 {
    q.true_pairs as f64 / q.predicted_pairs as f64
}

fn recall(q: &ClusterQuality) -> f64 {
    q.true_pairs as f64 / q.actual_pairs as f64
}

#[test]
fn co_spending_never_lies() {
    let c = chain(0.0);
    let q = quality(&c, &multi_input_clusters(&c));
    assert_eq!(precision(&q), 1.0, "co-spend produced a false merge");
    assert!(recall(&q) < 0.95, "recall {}: nothing left to find?", recall(&q));
}

#[test]
fn the_change_heuristic_buys_recall() {
    let c = chain(0.0);
    let h1 = quality(&c, &multi_input_clusters(&c));
    let both = quality(&c, &full_clusters(&c));
    assert!(
        recall(&both) > recall(&h1),
        "change heuristic added no recall: {} vs {}",
        recall(&both),
        recall(&h1)
    );
    assert!(both.n_clusters < h1.n_clusters);
}

#[test]
fn one_reused_change_address_in_twenty_collapses_the_graph() {
    let c = chain(0.05);
    let safe = quality(&c, &multi_input_clusters(&c));
    let collapsed = quality(&c, &full_clusters(&c));
    assert_eq!(precision(&safe), 1.0);
    assert!(
        precision(&collapsed) < 0.2,
        "expected a super-cluster collapse, got precision {}",
        precision(&collapsed)
    );
    assert!(
        collapsed.largest > c.n_addresses() / 10,
        "largest cluster {} of {} addresses",
        collapsed.largest,
        c.n_addresses()
    );
}

#[test]
fn definition_4_3_refuses_ambiguous_transactions() {
    let c = chain(0.0);
    let mut seen: HashSet<u32> = HashSet::new();
    let mut ambiguous = 0usize;
    for (i, tx) in c.txs.iter().enumerate() {
        if !tx.is_coinbase() {
            let fresh = tx
                .outputs
                .iter()
                .filter(|&&o| !seen.contains(&c.outputs[o].address))
                .count();
            if fresh > 1 {
                assert!(change_output(&c, i, &seen).is_none());
                ambiguous += 1;
            }
        }
        for &o in &tx.outputs {
            seen.insert(c.outputs[o].address);
        }
    }
    assert!(ambiguous > 0, "the test never exercised condition 4");
}

#[test]
fn clustering_is_order_independent() {
    let c = chain(0.0);
    let a = multi_input_clusters(&c);
    let b = multi_input_clusters(&c);
    assert_eq!(a, b);
}

fn small() -> Chain {
    let mut rng = seeded_rng(7);
    chain_instance(
        &mut rng,
        &ChainConfig {
            n_entities: 60,
            n_txs: 3_000,
            ..ChainConfig::default()
        },
    )
}

#[test]
fn extract_taint_splits_runs_at_the_boundary() {
    let mut q: VecDeque<TaintPart> = VecDeque::from(vec![
        TaintPart { name: CLEAN, value: 3 },
        TaintPart { name: STOLEN, value: 2 },
        TaintPart { name: CLEAN, value: 4 },
    ]);
    let d = extract_taint(&mut q, 3);
    assert_eq!(d, VecDeque::from(vec![TaintPart { name: CLEAN, value: 3 }]));
    let e = extract_taint(&mut q, 2);
    assert_eq!(e, VecDeque::from(vec![TaintPart { name: STOLEN, value: 2 }]));
    let f = extract_taint(&mut q, 4);
    assert_eq!(f, VecDeque::from(vec![TaintPart { name: CLEAN, value: 4 }]));
    assert!(q.is_empty());

    let mut q: VecDeque<TaintPart> = VecDeque::from(vec![TaintPart { name: STOLEN, value: 10 }]);
    let a = extract_taint(&mut q, 4);
    assert_eq!(a, VecDeque::from(vec![TaintPart { name: STOLEN, value: 4 }]));
    assert_eq!(q, VecDeque::from(vec![TaintPart { name: STOLEN, value: 6 }]));
}

#[test]
fn fifo_is_lossless() {
    let c = small();
    let t = fifo(&c, c.stolen_output);
    assert_eq!(
        flagged_value(&c, &t),
        c.stolen_value,
        "FIFO must conserve the stolen amount exactly"
    );
}

#[test]
fn haircut_conserves_value_but_not_focus() {
    let c = small();
    let h = haircut(&c, c.stolen_output);
    let f = fifo(&c, c.stolen_output);
    let hv = flagged_value(&c, &h) as f64;
    assert!(
        (hv - c.stolen_value as f64).abs() / (c.stolen_value as f64) < 0.01,
        "haircut total {hv} vs stolen {}",
        c.stolen_value
    );
    assert!(
        flagged_utxos(&c, &h).len() > 5 * flagged_utxos(&c, &f).len(),
        "haircut {} utxos vs fifo {}",
        flagged_utxos(&c, &h).len(),
        flagged_utxos(&c, &f).len()
    );
}

#[test]
fn poison_overcounts_wildly() {
    let c = small();
    let p = poison(&c, c.stolen_output);
    assert!(
        flagged_value(&c, &p) > 10 * c.stolen_value,
        "poison flagged {} vs stolen {}",
        flagged_value(&c, &p),
        c.stolen_value
    );
}

#[test]
fn every_policy_stays_inside_the_descendant_set() {
    let c = small();
    let d = descendants(&c, c.stolen_output);
    for t in [
        fifo(&c, c.stolen_output),
        haircut(&c, c.stolen_output),
        poison(&c, c.stolen_output),
    ] {
        for o in 0..c.n_outputs() {
            if t[o] > 0 {
                assert!(d.contains(&o), "output {o} tainted but not a descendant");
            }
        }
    }
    let f = fifo(&c, c.stolen_output);
    let p = poison(&c, c.stolen_output);
    for o in 0..c.n_outputs() {
        if f[o] > 0 {
            assert!(p[o] > 0, "FIFO leaves poison at output {o}");
        }
    }
}

#[test]
fn payments_are_computed_in_double_precision() {
    let mut rng = seeded_rng(12);
    let mut twin = seeded_rng(12);
    for i in 0..5_000u32 {
        let total = 2 + (rng.gen::<u64>() >> (i % 62));
        twin.gen::<u64>();
        let want = (total as f64 * twin.gen_range(0.10..0.70)) as u64;
        assert_eq!(payment(total, rng.gen()), want.max(1).min(total - 1));
    }
}

#[test]
fn haircut_rounds_in_double_precision() {
    let c = chain_instance(
        &mut seeded_rng(31),
        &ChainConfig {
            n_entities: 40,
            n_txs: 2_000,
            initial_value: 123_456_789_012_345,
            ..ChainConfig::default()
        },
    );
    let mut want = vec![0u64; c.outputs.len()];
    want[c.stolen_output] = c.outputs[c.stolen_output].value;
    for tx in &c.txs {
        let total: u64 = tx.inputs.iter().map(|&o| c.outputs[o].value).sum();
        let dirty: u64 = tx.inputs.iter().map(|&o| want[o]).sum();
        if tx.inputs.is_empty() || dirty == 0 || total == 0 {
            continue;
        }
        let part = dirty as f64 / total as f64;
        for &o in &tx.outputs {
            want[o] = (c.outputs[o].value as f64 * part).round() as u64;
        }
    }
    assert_eq!(haircut(&c, c.stolen_output), want);
}
