use database_learning_path::double::Double;
use database_learning_path::social::bipartite::{
    bipartite_instance, seeded_rng, Bipartite, BipartiteConfig,
};
use database_learning_path::social::collab::{collab_instance, evaluate, Collab, CollabConfig};
use database_learning_path::social::linkpred::{
    adamic_adar, common_neighbors, jaccard, preferential_attachment, score_all, WHOLE,
};
use database_learning_path::social::pixie::{
    allocate_steps, basic_random_walk, max_item_degree, multi_hit_boost, overlap, pixie_walk,
    topk, walk_per_query, VISIT,
};
use database_learning_path::social::recs::{
    hit_rate, personalization, popularity_overlap, popularity_topk, topk_from_visits,
};
use database_learning_path::zipf::Zipf;
use rand_chacha::ChaCha8Rng;

fn threshold(p: f64) -> u64 {
    (p * (1u64 << 53) as f64).ceil() as u64
}

/// The steps of a cumulative distribution on the grid of the uniform draws.
fn zipf(n: usize, s: f64) -> Zipf {
    let mut cdf: Vec<f64> = Vec::with_capacity(n);
    let mut acc = 0.0;
    for k in 1..=n {
        acc += 1.0 / (k as f64).powf(s);
        cdf.push(acc);
    }
    let unit = (1u64 << 53) as f64;
    let steps = cdf.iter().map(|c| (c / acc * unit).floor() as u64 + 1).collect();
    Zipf { steps }
}

fn instance(rng: &mut ChaCha8Rng, cfg: &BipartiteConfig) -> Bipartite {
    let per = (cfg.n_items / cfg.n_communities).max(1);
    bipartite_instance(rng, cfg, &zipf(cfg.n_items, 1.1), &zipf(per, 1.1))
}

#[test]
fn the_bipartite_graph_has_a_popularity_tail_and_communities() {
    let mut rng = seeded_rng(1);
    let g = instance(&mut rng, &BipartiteConfig::default());
    let mut degs: Vec<usize> = (0..g.n_items as u32).map(|i| g.item_degree(i)).collect();
    degs.sort_unstable_by(|a, b| b.cmp(a));
    let total: usize = degs.iter().sum();
    let head: usize = degs.iter().take(g.n_items / 100).sum();
    assert!(
        head as f64 / total as f64 > 0.05,
        "top 1% of items hold only {:.1}% of edges",
        100.0 * head as f64 / total as f64
    );
    let u = 0u32;
    let c = g.user_community[u as usize];
    let same = g.user_adj[u as usize]
        .iter()
        .filter(|&&i| g.item_community[i as usize] == c)
        .count();
    assert!(same * 2 > g.user_adj[u as usize].len());
    assert_eq!(g.holdout_for(0).len(), 2);
    assert_eq!(g.user_degree(0), g.user_adj[0].len());
    assert_eq!(max_item_degree(&g), degs[0]);
}

#[test]
fn the_collaboration_graph_holds_out_real_future_edges() {
    let mut rng = seeded_rng(2);
    let g = collab_instance(&mut rng, &CollabConfig::default());
    assert!(g.new_edges.len() > 100, "{} test edges", g.new_edges.len());
    for &(a, b) in &g.new_edges {
        assert!(!g.adj[a as usize].contains(&b), "test edge leaked into train");
    }
    let cands = g.candidates().len();
    let r = g.new_edges.len() as f64 / cands as f64;
    assert!(r < 0.02, "random accuracy {r}: task is too easy");
}

fn small_collab() -> Collab {
    let mut rng = seeded_rng(4);
    collab_instance(
        &mut rng,
        &CollabConfig {
            n_nodes: 400,
            train_edges: 2_500,
            test_edges: 600,
            ..CollabConfig::default()
        },
    )
}

/// Units in one: 2^58, on which `1 / ln d` lies exactly.
const ONE: f64 = 288_230_376_151_711_744.0;

/// `1 / ln d` in units of 2^-58, for every degree.
fn rarities(g: &Collab) -> Vec<u64> {
    let top = g.adj.iter().map(|l| l.len()).max().unwrap_or(0);
    (0..=top)
        .map(|d| if d <= 1 { 0 } else { (1.0 / (d as f64).ln() * ONE) as u64 })
        .collect()
}

fn factor(g: &Collab, scored: &mut Vec<((u32, u32), u128)>) -> f64 {
    let r = evaluate(g, scored);
    let random = r.n as f64 / r.candidates as f64;
    r.hits as f64 / r.n.max(1) as f64 / random.max(f64::MIN_POSITIVE)
}

#[test]
fn the_measures_agree_on_a_hand_built_case() {
    let mut adj: Vec<Vec<u32>> = vec![Vec::new(); 110];
    let link = |a: u32, b: u32, adj: &mut Vec<Vec<u32>>| {
        adj[a as usize].push(b);
        adj[b as usize].push(a);
    };
    link(0, 2, &mut adj);
    link(1, 2, &mut adj);
    link(0, 3, &mut adj);
    link(1, 3, &mut adj);
    for v in 10..108u32 {
        link(3, v, &mut adj);
    }
    let g = Collab {
        n_nodes: 110,
        adj,
        community: vec![0; 110],
        new_edges: vec![],
        core: (0..110).collect(),
    };
    assert_eq!(common_neighbors(&g, 0, 1), 2);
    let w = rarities(&g);
    let aa = adamic_adar(&g, 0, 1, &w);
    let specialist = 1.0 / (2f64).ln();
    let hub = 1.0 / (100f64).ln();
    assert_eq!(aa, (specialist * ONE) as u128 + (hub * ONE) as u128);
    assert!((aa as f64 / ONE - (specialist + hub)).abs() < 1e-12, "got {aa}");
    assert!(specialist > 5.0 * hub, "the discount is not doing any work");
    assert_eq!(preferential_attachment(&g, 0, 1), 4);
    assert_eq!(jaccard(&g, 0, 1), WHOLE as u128);
    assert_eq!(jaccard(&g, 0, 0), WHOLE as u128);
    assert_eq!(jaccard(&g, 4, 5), 0);
    assert_eq!(adamic_adar(&g, 0, 1, &vec![1; 101]), common_neighbors(&g, 0, 1));
    assert_eq!(g.degree(3), 100);
    assert_eq!(g.neighbors(2), &vec![0, 1]);
}

#[test]
fn topology_beats_random_by_an_order_of_magnitude() {
    let g = small_collab();
    let w = rarities(&g);
    for (name, mut s) in [
        ("common", score_all(&g, common_neighbors)),
        ("jaccard", score_all(&g, jaccard)),
        ("adamic", score_all(&g, |g: &Collab, a, b| adamic_adar(g, a, b, &w))),
    ] {
        let f = factor(&g, &mut s);
        assert!(f > 5.0, "{name} only {f}x better than random");
    }
}

#[test]
fn degree_alone_is_the_weakest_measure() {
    let g = small_collab();
    let w = rarities(&g);
    let mut pa = score_all(&g, preferential_attachment);
    let mut cn = score_all(&g, common_neighbors);
    let mut aa = score_all(&g, |g: &Collab, a, b| adamic_adar(g, a, b, &w));
    let pa = factor(&g, &mut pa);
    let cn = factor(&g, &mut cn);
    let aa = factor(&g, &mut aa);
    assert!(pa < cn, "preferential attachment {pa} vs common neighbors {cn}");
    assert!(pa < aa, "preferential attachment {pa} vs adamic/adar {aa}");
}

#[test]
fn discounting_hubs_helps() {
    let g = small_collab();
    let w = rarities(&g);
    let mut cn = score_all(&g, common_neighbors);
    let mut aa = score_all(&g, |g: &Collab, a, b| adamic_adar(g, a, b, &w));
    let cn = factor(&g, &mut cn);
    let aa = factor(&g, &mut aa);
    assert!(aa >= cn, "adamic/adar {aa} did not beat common neighbors {cn}");
}

#[test]
fn evaluation_counts_the_best_pairs() {
    let g = Collab {
        n_nodes: 4,
        adj: vec![vec![1], vec![0], vec![], vec![]],
        community: vec![0; 4],
        new_edges: vec![(0, 2), (2, 3)],
        core: vec![0, 1, 2, 3],
    };
    assert_eq!(g.candidates(), vec![(0, 2), (0, 3), (1, 2), (1, 3), (2, 3)]);
    let mut scored = vec![((0, 2), 1), ((0, 3), 5), ((1, 2), 1), ((1, 3), 0), ((2, 3), 0)];
    let r = evaluate(&g, &mut scored);
    assert_eq!((r.hits, r.n, r.candidates), (1, 2, 5));
    assert_eq!(scored[0], ((0, 3), 5));
    assert_eq!(scored[1], ((0, 2), 1));
    assert_eq!(scored[2], ((1, 2), 1));
}

fn small() -> Bipartite {
    let mut rng = seeded_rng(5);
    instance(
        &mut rng,
        &BipartiteConfig {
            n_users: 600,
            n_items: 1_200,
            n_communities: 10,
            community_purity: threshold(0.9),
            ..BipartiteConfig::default()
        },
    )
}

/// A float as the library has it.
fn double(x: f64) -> Double {
    Double::from_bits(x.to_bits()).unwrap()
}

/// `d * (ln D - ln d)` for every degree up to the largest.
fn scale(g: &Bipartite) -> Vec<Double> {
    let top = max_item_degree(g);
    (0..=top)
        .map(|d| {
            if d == 0 {
                double(0.0)
            } else {
                double(d as f64 * ((top as f64).ln() - (d as f64).ln()))
            }
        })
        .collect()
}

#[test]
fn multi_hit_beats_single_hit_at_equal_total_visits() {
    let per_query = vec![vec![None, Some(4u64), Some(2)], vec![None, None, Some(2)]];
    let scores = multi_hit_boost(&per_query, 3);
    assert!(scores[0].is_none());
    let s: Vec<f64> = scores
        .iter()
        .map(|&x| x.unwrap_or(0) as f64 / VISIT as f64)
        .collect();
    assert!((s[1] - 4.0).abs() < 1e-9, "single-source score changed: {}", s[1]);
    assert!((s[2] - 8.0).abs() < 1e-9, "multi-source score wrong: {}", s[2]);
    assert!(s[2] > s[1]);
}

#[test]
fn a_single_source_keeps_exactly_its_visits() {
    for n in [0u64, 1, 2, 3, 5, 1 << 40, u64::MAX] {
        let per_query = vec![vec![None], vec![Some(n)], vec![Some(0)]];
        assert_eq!(multi_hit_boost(&per_query, 1), vec![Some(n as u128 * VISIT)]);
    }
    // (sqrt 2 + sqrt 3)^2 = 5 + 2 sqrt 6
    let s = multi_hit_boost(&vec![vec![Some(2u64)], vec![Some(3)]], 1)[0].unwrap();
    let want = 5.0 + 2.0 * 6f64.sqrt();
    assert!((s as f64 / VISIT as f64 - want).abs() < 1e-14);
}

#[test]
fn many_pins_have_room_for_their_scores() {
    let per_query = vec![vec![Some(1u64)]; 1_000];
    assert_eq!(multi_hit_boost(&per_query, 1), vec![Some(VISIT * 1_000_000)]);
    let scale = vec![double(1.0); 4];
    let g = Bipartite {
        n_users: 1,
        n_items: 1,
        user_adj: vec![vec![0]],
        item_adj: vec![vec![0]],
        user_community: vec![0],
        item_community: vec![0],
        holdout: vec![],
    };
    let pins = vec![(0u32, double(1.0)); 1_000];
    let r = pixie_walk(&mut seeded_rng(2), &g, &pins, &scale, 4_000, threshold(0.5), None);
    assert_eq!(r.steps_taken, 4_000);
    assert_eq!(r.scores, vec![Some(VISIT * 4_000_000)]);
}

#[test]
fn every_query_pin_gets_at_least_one_step() {
    let g = small();
    let mut query: Vec<(u32, Double)> = Vec::new();
    let mut lo = None;
    let mut hi = None;
    for i in 0..g.n_items as u32 {
        let d = g.item_degree(i);
        if d == 1 && lo.is_none() {
            lo = Some(i);
        }
        if d > 30 && hi.is_none() {
            hi = Some(i);
        }
    }
    query.push((lo.expect("no degree-1 item"), double(1.0)));
    query.push((hi.expect("no high-degree item"), double(1.0)));
    let steps = allocate_steps(&g, &query, &scale(&g), 10_000);
    assert!(steps[0] >= 1, "low-degree pin got {} steps", steps[0]);
    assert!(steps[1] > steps[0], "high-degree pin should get more");
    let deg_ratio = g.item_degree(query[1].0) as f64 / g.item_degree(query[0].0) as f64;
    let step_ratio = steps[1] as f64 / steps[0] as f64;
    assert!(
        step_ratio < deg_ratio,
        "allocation is not sub-linear: steps {step_ratio} vs degrees {deg_ratio}"
    );
}

#[test]
fn budgets_are_shared_like_floats() {
    let g = small();
    let scale = scale(&g);
    let pins: Vec<(u32, f64)> =
        g.user_adj[7].iter().enumerate().map(|(k, &i)| (i, 0.1 + k as f64 / 3.0)).collect();
    let query: Vec<(u32, Double)> = pins.iter().map(|&(i, w)| (i, double(w))).collect();
    let asked: Vec<f64> = pins
        .iter()
        .map(|&(i, w)| w * f64::from_bits(scale[g.item_degree(i)].to_bits()))
        .collect();
    let all: f64 = asked.iter().sum();
    for total in [0usize, 1, 7, 1_000, 123_457] {
        let want: Vec<usize> =
            asked.iter().map(|c| ((c / all * total as f64) as usize).max(1)).collect();
        assert_eq!(allocate_steps(&g, &query, &scale, total), want);
    }
}

#[test]
fn early_stopping_keeps_the_top_of_the_ranking() {
    let g = small();
    let scale = scale(&g);
    let mut rng = seeded_rng(9);
    let query: Vec<(u32, Double)> = g.user_adj[7][..4.min(g.user_adj[7].len())]
        .iter()
        .map(|&i| (i, double(1.0)))
        .collect();
    let full = pixie_walk(&mut rng, &g, &query, &scale, 200_000, threshold(0.3), None);
    let mut rng = seeded_rng(9);
    let early = pixie_walk(&mut rng, &g, &query, &scale, 200_000, threshold(0.3), Some((200, 4)));
    assert!(
        early.steps_taken < full.steps_taken,
        "early stopping took {} of {} steps",
        early.steps_taken,
        full.steps_taken
    );
    let (hits, of) = overlap(&topk(&early.scores, &[], 100), &topk(&full.scores, &[], 100));
    let o = hits as f64 / of as f64;
    assert!(o >= 0.7, "early-stopped top-100 overlaps the full walk by only {o}");
}

#[test]
fn the_walk_is_personalized() {
    let g = small();
    let scale = scale(&g);
    let mut a = None;
    let mut b = None;
    for u in 0..g.n_users as u32 {
        if g.user_adj[u as usize].len() < 4 {
            continue;
        }
        if a.is_none() {
            a = Some(u);
        } else if g.user_community[u as usize] != g.user_community[a.unwrap() as usize] {
            b = Some(u);
            break;
        }
    }
    let (a, b) = (a.unwrap(), b.unwrap());
    let mut rng = seeded_rng(3);
    let list_for = |u: u32, rng: &mut ChaCha8Rng| {
        let q: Vec<(u32, Double)> = g.user_adj[u as usize][..4].iter().map(|&i| (i, double(1.0))).collect();
        let r = pixie_walk(rng, &g, &q, &scale, 60_000, threshold(0.3), None);
        topk(&r.scores, &g.user_adj[u as usize], 50)
    };
    let la = list_for(a, &mut rng);
    let lb = list_for(b, &mut rng);
    let (hits, of) = overlap(&la, &lb);
    let o = hits as f64 / of as f64;
    assert!(
        o < 0.5,
        "two users in different communities share {:.0}% of their top-50",
        100.0 * o
    );
}

#[test]
fn a_walk_counts_its_visits() {
    let g = Bipartite {
        n_users: 1,
        n_items: 2,
        user_adj: vec![vec![0, 1]],
        item_adj: vec![vec![0], vec![0]],
        user_community: vec![0],
        item_community: vec![0, 0],
        holdout: vec![],
    };
    let mut rng = seeded_rng(1);
    let visits = basic_random_walk(&mut rng, &g, 0, 1_000, threshold(0.2));
    assert_eq!(visits.iter().flatten().sum::<u64>(), 1_000);
    assert!(visits[0] > Some(400) && visits[1] > Some(400));
    let mut rng = seeded_rng(1);
    let each = walk_per_query(&mut rng, &g, &[(0, double(1.0)), (1, double(1.0))], &[1_000, 10], threshold(0.2));
    assert_eq!(each[0], visits);
    assert_eq!(each[1].iter().flatten().sum::<u64>(), 10);
}

#[test]
fn an_early_stop_is_the_beginning_of_the_full_walk() {
    let g = small();
    let flat = vec![double(1.0); max_item_degree(&g) + 1];
    let pin = g.user_adj[0][0];
    let early = pixie_walk(
        &mut seeded_rng(6),
        &g,
        &[(pin, double(1.0))],
        &flat,
        50_000,
        threshold(0.3),
        Some((20, 4)),
    );
    let visits = basic_random_walk(
        &mut seeded_rng(6),
        &g,
        pin,
        early.steps_taken as usize,
        threshold(0.3),
    );
    let scores = multi_hit_boost(&vec![visits], g.n_items);
    assert_eq!(scores, early.scores);
}

#[test]
fn lists_are_cut_from_scores() {
    let visits = vec![Some(3u64), None, Some(5), Some(3), Some(1)];
    assert_eq!(topk_from_visits(&visits, &[2], 2), vec![0, 3]);
    assert_eq!(topk_from_visits(&visits, &[], 10), vec![2, 0, 3, 4]);
    assert_eq!(topk_from_visits(&vec![None, Some(0), Some(1)], &[], 10), vec![2, 1]);
    assert_eq!(topk(&vec![Some(0), None, Some(7)], &[], 10), vec![2, 0]);
    let g = Bipartite {
        n_users: 2,
        n_items: 3,
        user_adj: vec![vec![1, 2], vec![1]],
        item_adj: vec![vec![], vec![0, 1], vec![0]],
        user_community: vec![0, 0],
        item_community: vec![0, 0, 0],
        holdout: vec![(0, 0), (1, 2)],
    };
    assert_eq!(popularity_topk(&g, 2), vec![1, 2]);
    let recs = vec![(0u32, vec![0u32, 1]), (1u32, vec![1u32])];
    assert_eq!(hit_rate(&g, &recs), (1, 2));
    assert_eq!(popularity_overlap(&recs, &[1, 2]), vec![(1, 2), (1, 1)]);
    assert_eq!(personalization(&recs, 10), vec![(1, 2)]);
    assert_eq!(personalization(&recs, 1), vec![]);
}
