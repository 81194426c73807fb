use database_learning_path::graphrag::kg::{
    bfs_rank, mention_rank, path_finding_instance, random_kg, rank_in, score_rank, seeded_rng,
    total_rank, Kg, Ranking,
};
use database_learning_path::graphrag::ppr::{ppr, ppr_rank, MASS};
use database_learning_path::graphrag::temporal::TemporalStore;

#[test]
fn kg_instance_shape_is_as_advertised() {
    let inst = path_finding_instance(2, 8);
    assert_eq!(inst.kg.passages.len(), 36);
    assert_eq!(inst.candidates.len(), 17);
    assert_eq!(inst.gold_passages.len(), 4);
    let dist = inst.kg.bfs_dist(&inst.seeds);
    assert_eq!(dist[inst.answer], 2);
    assert!(inst.kg.passages.iter().all(|p| {
        !(inst.seeds.contains(&p.src) && inst.seeds.contains(&p.dst))
    }));
}

#[test]
fn mention_ranking_solves_one_hop() {
    let mut rng = seeded_rng(1);
    let mean = total_rank(&mut rng, 200, 1, 8, Ranking::Mentions) as f64 / 200.0;
    assert!(mean < 1.05, "mean rank {mean}, should be ~1");
}

#[test]
fn mention_ranking_collapses_at_two_hops() {
    let mut rng = seeded_rng(2);
    let mean = total_rank(&mut rng, 400, 2, 8, Ranking::Mentions) as f64 / 400.0;
    assert!(
        (mean - 9.0).abs() < 1.0,
        "mean rank {mean}, should be ~9 (chance among 17)"
    );
}

#[test]
fn distance_ranking_is_chance_as_well() {
    let mut rng = seeded_rng(4);
    let mean = total_rank(&mut rng, 400, 2, 8, Ranking::Distance) as f64 / 400.0;
    assert!((mean - 9.0).abs() < 1.0, "mean rank {mean}");
}

#[test]
fn a_mention_of_both_seeds_wins_one_hop() {
    let inst = path_finding_instance(1, 3);
    let mut rng = seeded_rng(9);
    assert_eq!(mention_rank(&mut rng, &inst), 1);
    let r = bfs_rank(&mut rng, &inst);
    assert!(1 <= r && r <= inst.candidates.len());
}

#[test]
fn a_score_of_its_own_ranks_the_answer_first() {
    let inst = path_finding_instance(2, 8);
    let mut scores = vec![1u64; inst.kg.n_nodes];
    scores[inst.answer] = 2;
    let mut rng = seeded_rng(5);
    assert_eq!(score_rank(&mut rng, &inst, &scores), 1);
    scores[inst.answer] = 0;
    assert_eq!(score_rank(&mut rng, &inst, &scores), 17);
    assert_eq!(rank_in(&vec![2, 0, 1], &vec![5, 7, 5], 0), 3);
    assert_eq!(rank_in(&vec![0, 2, 1], &vec![5, 7, 5], 0), 2);
}

#[test]
fn facts_are_listed_at_both_ends() {
    let mut kg = Kg::new(3);
    kg.add_fact(0, 2);
    assert_eq!(kg.adj[0], vec![2]);
    assert_eq!(kg.adj[2], vec![0]);
    assert_eq!(kg.mentions[2], vec![0]);
    assert_eq!(kg.bfs_dist(&[0])[2], 1);
}

#[test]
fn a_random_graph_has_its_degree() {
    let mut rng = seeded_rng(8);
    let kg = random_kg(&mut rng, 100, 6);
    assert_eq!(kg.n_nodes, 100);
    assert!(kg.passages.len() <= 300);
    assert!(kg.passages.len() > 250);
}

#[test]
fn ppr_is_a_distribution() {
    let inst = path_finding_instance(2, 8);
    let pi = ppr(&inst.kg, &inst.seeds, 1, 2, 30);
    assert_eq!(pi.len(), inst.kg.n_nodes);
    let sum: u64 = pi.iter().sum();
    assert!((sum as f64 / MASS as f64 - 1.0).abs() < 1e-9, "sums to {sum}");
    assert!(sum <= MASS && MASS - sum < 2);
}

#[test]
fn mass_decays_with_distance_from_seed() {
    let mut kg = Kg::new(6);
    for i in 0..5 {
        kg.add_fact(i, i + 1);
    }
    let pi = ppr(&kg, &[0], 1, 2, 60);
    for i in 1..6 {
        assert!(
            pi[i - 1] > pi[i],
            "pi[{}]={} !> pi[{}]={}",
            i - 1,
            pi[i - 1],
            i,
            pi[i]
        );
    }
}

#[test]
fn mass_falls_along_chains_of_any_length() {
    for n in 2..24usize {
        let mut kg = Kg::new(n);
        for i in 0..n - 1 {
            kg.add_fact(i, i + 1);
        }
        for (num, den) in [(1u32, 2u32), (1, 3), (2, 5), (0, 1)] {
            for iters in [0usize, 1, 2, 5, 40] {
                let pi = ppr(&kg, &[0], num, den, iters);
                for i in 1..n {
                    assert!(pi[i] <= pi[i - 1] + 4);
                }
            }
        }
    }
}

#[test]
fn the_answer_ranks_first_at_any_depth() {
    for hops in 1..5usize {
        for distractors in [0usize, 1, 3] {
            let inst = path_finding_instance(hops, distractors);
            for (num, den) in [(1u32, 2u32), (17, 20), (0, 1), (1, 1)] {
                for iters in [0usize, 1, 2, 7] {
                    assert_eq!(ppr_rank(&inst, num, den, iters), 1);
                }
            }
        }
    }
}

#[test]
fn association_ranks_the_meet_node_first() {
    let inst = path_finding_instance(2, 8);
    assert_eq!(ppr_rank(&inst, 1, 2, 30), 1);

    let mut rng = seeded_rng(3);
    let mention = total_rank(&mut rng, 100, 2, 8, Ranking::Mentions) as f64 / 100.0;
    let total: usize = (0..100).map(|_| ppr_rank(&path_finding_instance(2, 8), 1, 2, 30)).sum();
    let ppr_mean = total as f64 / 100.0;
    assert!(mention > 7.0, "mention mean rank {mention} should be chance");
    assert!(ppr_mean < 1.05, "PPR mean rank {ppr_mean} should be ~1");
}

#[test]
fn a_node_without_neighbours_gives_its_mass_back() {
    let kg = Kg::new(3);
    let pi = ppr(&kg, &[1, 1, 2], 1, 2, 7);
    assert_eq!(pi[0], 0);
    assert_eq!(pi[1], MASS / 3 * 2);
    assert_eq!(pi[2], MASS / 3);
    assert!(MASS - pi.iter().sum::<u64>() < 3);
    let mut pair = Kg::new(2);
    pair.add_fact(0, 1);
    assert_eq!(ppr(&pair, &[0], 1, 2, 1), vec![MASS / 2, MASS / 2]);
    assert_eq!(ppr(&pair, &[0], 1, 2, 2), vec![MASS / 4 * 3, MASS / 4]);
}

const WORKS_AT: u32 = 0;
const ALICE: u32 = 1;
const ACME: u32 = 10;
const BETA: u32 = 11;

#[test]
fn contradiction_invalidates_without_delete() {
    let mut store = TemporalStore::new();
    store.ingest(ALICE, WORKS_AT, ACME, 100, 100);
    store.ingest(ALICE, WORKS_AT, BETA, 200, 205);

    assert_eq!(store.edges.len(), 2);
    let old = &store.edges[0];
    assert_eq!(old.t_invalid, Some(200), "invalid from the NEW fact's t_valid");
    assert_eq!(old.t_expired, Some(205), "expired when we LEARNED it");

    let now = store.current();
    assert_eq!(now.len(), 1);
    assert_eq!(now[0].dst, BETA);
}

#[test]
fn as_of_event_time_reconstructs_the_past() {
    let mut store = TemporalStore::new();
    store.ingest(ALICE, WORKS_AT, ACME, 100, 100);
    store.ingest(ALICE, WORKS_AT, BETA, 200, 205);

    let then = store.as_of(150, 1_000);
    assert_eq!(then.len(), 1);
    assert_eq!(then[0].dst, ACME);
    assert!(store.as_of(50, 1_000).is_empty());
}

#[test]
fn ingestion_time_distinguishes_known_from_true() {
    let mut store = TemporalStore::new();
    store.ingest(ALICE, WORKS_AT, ACME, 5, 100);

    assert_eq!(store.as_of(10, 1_000).len(), 1);
    assert!(store.as_of(10, 50).is_empty());
}

#[test]
fn an_empty_store_is_the_default() {
    assert!(TemporalStore::default().edges.is_empty());
}

#[test]
fn what_was_known_stays_known() {
    let mut store = TemporalStore::new();
    store.ingest(ALICE, WORKS_AT, ACME, 100, 100);
    let before: Vec<u32> = store.as_of(150, 150).iter().map(|e| e.dst).collect();
    store.ingest(ALICE, WORKS_AT, BETA, 120, 200);
    let after: Vec<u32> = store.as_of(150, 150).iter().map(|e| e.dst).collect();
    assert_eq!(before, after);
}
