use database_learning_path::attack::ad_graph::{
    attack_path_lengths, attack_path_reachable_users, direct_tier_zero_members,
    memberof_reachable_users, AdConfig, AdGraph,
};
use database_learning_path::attack::ad_instance::ad_instance;
use database_learning_path::attack::authz::{
    check_pointer, intersect_galloping, intersect_linear, nested_groups, LeopardIndex, RelStore,
};
use database_learning_path::attack::chokepoint::{
    blast_radius, blast_radius_naive, cut_node, exposure, greedy_cuts, immediate_dominators,
    rank_chokepoints,
};
use database_learning_path::rng::seeded_rng;

#[test]
fn the_list_view_undercounts_the_graph_view() {
    let mut rng = seeded_rng(1);
    let g = ad_instance(&mut rng, &AdConfig::default());
    let direct = direct_tier_zero_members(&g);
    let nested = memberof_reachable_users(&g);
    let paths = attack_path_reachable_users(&g);
    assert_eq!(direct, 5, "the compliance-report number");
    assert_eq!(nested, 8, "5 direct + 3 via the nested t0_ops group");
    assert!(
        paths > 50 * nested,
        "attack paths {paths} vs membership {nested}"
    );
}

#[test]
fn sessions_are_what_create_the_exposure() {
    let mut rng = seeded_rng(2);
    let cfg = AdConfig {
        privileged_sessions: 0,
        ordinary_sessions: 0,
        ..AdConfig::tiered()
    };
    let g = ad_instance(&mut rng, &cfg);
    let paths = attack_path_reachable_users(&g);
    assert_eq!(paths, memberof_reachable_users(&g));
    assert!(paths < g.n_users / 100, "no sessions: {paths} users reach TZ");
}

#[test]
fn two_misplaced_tokens_are_worth_hundreds_of_users() {
    let clean = AdConfig {
        privileged_sessions: 0,
        ordinary_sessions: 0,
        ..AdConfig::tiered()
    };
    let sloppy = AdConfig { da_on_workstation: 2, ..clean };
    let a = attack_path_reachable_users(&ad_instance(&mut seeded_rng(2), &clean));
    let b = attack_path_reachable_users(&ad_instance(&mut seeded_rng(2), &sloppy));
    assert_eq!(a, 8);
    assert!(b > 20 * a, "{a} -> {b}");
}

#[test]
fn path_lengths_count_the_reachable_users() {
    let g = ad_instance(&mut seeded_rng(1), &AdConfig::default());
    let (n, total, longest) = attack_path_lengths(&g);
    assert_eq!(n, attack_path_reachable_users(&g));
    assert!(total >= n as u128);
    assert!(longest >= 1);
}

#[test]
fn the_index_answers_exactly_what_pointer_chasing_answers() {
    let mut rng = seeded_rng(3);
    let (store, deep_user) = nested_groups(&mut rng, 6, 3, 4, 200);
    let index = LeopardIndex::build(&store);
    for u in 0..200u32 {
        for g in 0..store.n_groups() as u32 {
            let (want, _) = check_pointer(&store, u, g, true);
            let (got, _) = index.check(u, g);
            assert_eq!(want, got, "user {u} group {g}");
        }
    }
    assert!(index.check(deep_user, 0).0, "deep member must be found");
}

#[test]
fn nesting_cycles_terminate() {
    let store = RelStore {
        direct_users: vec![vec![], vec![7]],
        children: vec![vec![1], vec![0]],
        n_users: 8,
    };
    assert!(check_pointer(&store, 7, 0, true).0);
    assert!(!check_pointer(&store, 6, 0, true).0);
    let index = LeopardIndex::build(&store);
    assert!(index.check(7, 0).0);
    assert!(!index.check(6, 0).0);
}

#[test]
fn galloping_beats_the_merge_when_the_sets_are_lopsided() {
    let large: Vec<u32> = (0..1_000_000u32).filter(|x| x % 2 == 1).collect();
    for (needle, expect) in [(999_999u32, true), (999_998u32, false)] {
        let small = vec![needle];
        let (hit_g, probes) = intersect_galloping(&small, &large);
        let (hit_l, steps) = intersect_linear(&small, &large);
        assert_eq!(hit_g, expect);
        assert_eq!(hit_g, hit_l);
        assert!(
            probes * 1_000 < steps,
            "needle {needle}: galloping {probes} probes vs merge {steps} steps"
        );
    }
    let small: Vec<u32> = vec![2, 4, 6];
    assert_eq!(
        intersect_galloping(&small, &large).0,
        intersect_linear(&small, &large).0
    );
}

#[test]
fn memoization_removes_the_path_explosion() {
    let depth = 12;
    let mut children = vec![Vec::new(); 2 * depth + 1];
    for i in 0..depth {
        children[2 * i] = vec![(2 * i + 1) as u32, (2 * i + 2) as u32];
        if i + 1 < depth {
            children[2 * i + 1] = vec![(2 * i + 2) as u32];
            children[2 * i + 2] = vec![(2 * i + 2) as u32];
        }
    }
    let store = RelStore {
        direct_users: vec![Vec::new(); 2 * depth + 1],
        children,
        n_users: 4,
    };
    let (_, memo) = check_pointer(&store, 1, 0, true);
    let (_, naive) = check_pointer(&store, 1, 0, false);
    assert!(
        naive.groups_visited > 2 * memo.groups_visited,
        "memo {} vs naive {}",
        memo.groups_visited,
        naive.groups_visited
    );
}

#[test]
fn the_index_counts_its_entries() {
    let store = RelStore {
        direct_users: vec![vec![], vec![3]],
        children: vec![vec![1], vec![]],
        n_users: 4,
    };
    assert_eq!(store.tuple_count(), 2);
    let index = LeopardIndex::build(&store);
    assert_eq!(index.group2group[0], vec![0, 1]);
    assert_eq!(index.member2group[3], vec![1]);
    assert_eq!(index.size_entries(), 4);
}

fn small(cfg: AdConfig) -> AdGraph {
    let mut rng = seeded_rng(5);
    ad_instance(
        &mut rng,
        &AdConfig {
            n_users: 120,
            n_groups: 40,
            n_computers: 60,
            group_nesting: 50,
            admin_edges: 80,
            privileged_users: 10,
            privileged_sessions: 40,
            ordinary_sessions: 100,
            acl_edges: 12,
            ..cfg
        },
    )
}

#[test]
fn dominators_price_every_removal_exactly() {
    let g = small(AdConfig::tiered());
    let fast = blast_radius(&g);
    let slow = blast_radius_naive(&g);
    for d in 0..g.n_nodes() {
        assert_eq!(fast[d], slow[d], "node {d}");
    }
}

#[test]
fn removing_the_top_chokepoint_actually_reduces_exposure() {
    let g = small(AdConfig::tiered());
    let ranked = rank_chokepoints(&g);
    assert!(!ranked.is_empty(), "no actionable choke point found");
    let (top, predicted) = ranked[0];
    let before = exposure(&g, None);
    let after = exposure(&g, Some(top));
    assert_eq!(before - after, predicted);
    assert!(predicted > 0);
}

#[test]
fn a_flat_directory_has_no_single_node_choke_point() {
    let flat = small(AdConfig::default());
    let tiered = small(AdConfig::tiered());
    assert_eq!(exposure(&flat, None), exposure(&tiered, None));
    assert!(rank_chokepoints(&flat).is_empty());
    assert!(!rank_chokepoints(&tiered).is_empty());
}

#[test]
fn the_dominator_pass_also_agrees_on_the_flat_directory() {
    let g = small(AdConfig::default());
    let fast = blast_radius(&g);
    let slow = blast_radius_naive(&g);
    for d in 0..g.n_nodes() {
        assert_eq!(fast[d], slow[d], "node {d}");
    }
}

#[test]
fn tier_zero_dominates_everyone() {
    let g = small(AdConfig::tiered());
    let blast = blast_radius(&g);
    assert_eq!(blast[g.tier_zero], exposure(&g, None));
    assert_eq!(immediate_dominators(&g)[g.tier_zero], None);
}

#[test]
fn cutting_a_node_exposes_as_if_it_were_removed() {
    let mut g = small(AdConfig::tiered());
    let (top, _) = rank_chokepoints(&g)[0];
    let predicted = exposure(&g, Some(top));
    cut_node(&mut g, top);
    assert_eq!(exposure(&g, None), predicted);
}

#[test]
fn greedy_cuts_lower_the_exposure() {
    let g = small(AdConfig::tiered());
    let start = exposure(&g, None);
    let (cuts, left) = greedy_cuts(g, 3);
    assert!(!cuts.is_empty());
    assert_eq!(left[0], start);
    assert!(left.windows(2).all(|w| w[1] <= w[0]));
}

#[test]
fn the_merge_takes_either_order() {
    let odd: Vec<u32> = (0..1_000_000u32).filter(|x| x % 2 == 1).collect();
    let last = vec![999_999u32];
    assert_eq!(intersect_linear(&last, &odd), (true, 500_000));
    assert_eq!(intersect_linear(&odd, &last), (true, 500_000));
    assert_eq!(intersect_linear(&[], &odd), (false, 0));
    let (a, b) = (vec![1u32, 4, 9, 16], vec![2u32, 3, 5, 7, 11]);
    assert_eq!(intersect_linear(&a, &b), intersect_linear(&b, &a));
}

#[test]
fn every_view_holds_the_narrower_one() {
    for seed in 1..6u64 {
        let g = ad_instance(&mut seeded_rng(seed), &AdConfig::default());
        let direct = direct_tier_zero_members(&g);
        let nested = memberof_reachable_users(&g);
        let exposed = attack_path_reachable_users(&g);
        assert!(direct <= nested && nested <= exposed && exposed <= AdConfig::default().n_users);
    }
    let cfg = AdConfig {
        staff_fraction: 90_071_992_547_410,
        ordinary_sessions: 100,
        ..AdConfig::tiered()
    };
    let g = ad_instance(&mut seeded_rng(42), &cfg);
    assert_eq!(memberof_reachable_users(&g), 8);
    assert_eq!(attack_path_reachable_users(&g), 1969);
}

#[test]
fn a_search_stops_at_the_first_hit() {
    let store = RelStore {
        direct_users: vec![vec![], vec![], vec![], vec![5]],
        children: vec![vec![1, 2], vec![3], vec![3], vec![]],
        n_users: 6,
    };
    let (hit, cost) = check_pointer(&store, 5, 0, true);
    assert!(hit);
    assert_eq!((cost.groups_visited, cost.tuple_reads), (4, 7));
    let (hit, cost) = check_pointer(&store, 5, 0, false);
    assert!(hit);
    assert_eq!((cost.groups_visited, cost.tuple_reads), (3, 5));
    let (hit, cost) = check_pointer(&store, 4, 0, true);
    assert!(!hit);
    assert_eq!((cost.groups_visited, cost.tuple_reads), (4, 8));
    let (hit, cost) = check_pointer(&store, 4, 0, false);
    assert!(!hit);
    assert_eq!((cost.groups_visited, cost.tuple_reads), (5, 10));
}
