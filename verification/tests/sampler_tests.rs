use hcp_rs::graph::load_graph;
use hcp_rs::multi_group_model::Move;
use hcp_rs::sampler::random_groups;
use hcp_rs::sampler::HierarchicalModel;
use rand::SeedableRng;

/// The reference assignment: group 3 holds nodes 0..=6, and each of the
/// groups 1, 2, 4, 5, 6, 7 holds one of nodes 1..=6 plus three leaves.
fn reference_masks() -> Vec<u64> {
    vec![
        9, 41, 25, 13, 73, 137, 11, 33, 17, 5, 65, 129, 3, 33, 33, 17, 17, 5, 5, 65, 65, 129, 129,
        3, 3,
    ]
}

/// The reference graph: a clique on nodes 0..=6 plus a clique on each
/// 4-node side group.  25 nodes, 57 undirected edges.
fn reference_edges() -> Vec<(usize, usize)> {
    let mut edges = Vec::new();
    for i in 0..7 {
        for j in (i + 1)..7 {
            edges.push((i, j));
        }
    }
    let side_groups: [[usize; 4]; 6] = [
        [1, 7, 13, 14],
        [2, 8, 15, 16],
        [3, 9, 17, 18],
        [4, 10, 19, 20],
        [5, 11, 21, 22],
        [6, 12, 23, 24],
    ];
    for grp in side_groups.iter() {
        for a in 0..4 {
            for b in (a + 1)..4 {
                edges.push((grp[a], grp[b]));
            }
        }
    }
    edges
}

fn reference_sampler() -> HierarchicalModel {
    HierarchicalModel::new(25, reference_edges(), reference_masks(), 8, 64).unwrap()
}

fn ln_fact(k: usize) -> f64 {
    (1..=k).map(|i| (i as f64).ln()).sum()
}

fn loglike(edges: &[usize], pairs: &[usize]) -> f64 {
    edges
        .iter()
        .zip(pairs.iter())
        .map(|(&e, &p)| ln_fact(e) + ln_fact(p - e) - ln_fact(p + 1))
        .sum()
}

#[test]
fn example() {
    let hcp = reference_sampler();
    assert_eq!(hcp.model().all_group_sizes(), &vec![25, 4, 4, 7, 4, 4, 4, 4]);
    assert_eq!(hcp.hcg_edges(), &vec![0, 6, 6, 21, 6, 6, 6, 6]);
    assert_eq!(hcp.hcg_pairs(), &vec![243, 6, 6, 21, 6, 6, 6, 6]);
    let ll = loglike(hcp.hcg_edges(), hcp.hcg_pairs());
    assert!((ll - -20.2637).abs() < 0.001, "{} != {}", ll, -20.2637);
}

#[test]
fn counters_total_to_edges_and_pairs() {
    let hcp = reference_sampler();
    assert_eq!(hcp.hcg_edges().iter().sum::<usize>(), 57);
    assert_eq!(hcp.hcg_pairs().iter().sum::<usize>(), 25 * 24 / 2);
}

#[test]
fn single_group_population_moves_are_noops() {
    let mut rng = mt19937::MT19937::seed_from_u64(11);
    let mut hcp = HierarchicalModel::new(3, vec![(0, 1)], vec![1, 1, 1], 1, 4).unwrap();
    for remove_coin in [false, true] {
        let m = hcp.uniform_groupsize(&mut rng, false, remove_coin);
        assert!(m.is_none());
    }
    let m = hcp.uniform_groupsize(&mut rng, true, false);
    assert!(matches!(m, Some(Move::AddGroup { .. })));
}

#[test]
fn structural_add_at_ceiling_is_noop() {
    let mut rng = mt19937::MT19937::seed_from_u64(12);
    let mut hcp = HierarchicalModel::new(3, vec![(0, 1)], vec![3, 1, 1], 2, 2).unwrap();
    let m = hcp.uniform_groupsize(&mut rng, true, false);
    assert!(m.is_none());
}

#[test]
fn removal_from_empty_group_removes_the_group() {
    let mut rng = mt19937::MT19937::seed_from_u64(13);
    // group 1 exists but holds no node
    let mut hcp = HierarchicalModel::new(3, vec![(0, 1)], vec![1, 1, 1], 2, 4).unwrap();
    let m = hcp.uniform_groupsize(&mut rng, false, true);
    assert!(matches!(m, Some(Move::RemoveGroup { group: 1 })));
}

#[test]
fn addition_to_full_group_is_noop() {
    let mut rng = mt19937::MT19937::seed_from_u64(14);
    let mut hcp = HierarchicalModel::new(3, vec![(0, 1)], vec![3, 3, 3], 2, 4).unwrap();
    let m = hcp.uniform_groupsize(&mut rng, false, false);
    assert!(m.is_none());
}

#[test]
fn structural_move_preserves_loglike() {
    let mut rng = mt19937::MT19937::seed_from_u64(21);
    let mut hcp = reference_sampler();
    let before = loglike(hcp.hcg_edges(), hcp.hcg_pairs());
    let m = hcp.uniform_groupsize(&mut rng, true, false).unwrap();
    assert!(matches!(m, Move::AddGroup { .. }));
    hcp.update_hcg_props(m);
    let after = loglike(hcp.hcg_edges(), hcp.hcg_pairs());
    assert!((before - after).abs() < 1e-12, "{} != {}", before, after);
}

#[test]
fn incremental_update_matches_recount() {
    let mut rng = mt19937::MT19937::seed_from_u64(33);
    let mut hcp = reference_sampler();
    for step in 0..40 {
        let structural = step % 7 == 0;
        let remove_coin = step % 2 == 0;
        if let Some(m) = hcp.uniform_groupsize(&mut rng, structural, remove_coin) {
            hcp.update_hcg_props(m);
        }
        // recount every pair and edge from scratch
        let g = hcp.num_groups();
        let n = hcp.num_nodes();
        let mut pairs = vec![0usize; g];
        for v in 0..n {
            for u in 0..v {
                pairs[hcp.model().hcg(u, v)] += 1;
            }
        }
        let mut edges = vec![0usize; g];
        for &(s, t) in reference_edges().iter() {
            edges[hcp.model().hcg(s, t)] += 1;
        }
        assert_eq!(hcp.hcg_pairs(), &pairs);
        assert_eq!(hcp.hcg_edges(), &edges);
    }
}

#[test]
fn rollback_restores_the_state() {
    let mut rng = mt19937::MT19937::seed_from_u64(55);
    let mut hcp = reference_sampler();
    for step in 0..40 {
        let structural = step % 5 == 0;
        let remove_coin = step % 2 == 1;
        let groups_before = hcp.model().all_groups().clone();
        let sizes_before = hcp.model().all_group_sizes().clone();
        let edges_before = hcp.hcg_edges().clone();
        let pairs_before = hcp.hcg_pairs().clone();
        if let Some(m) = hcp.uniform_groupsize(&mut rng, structural, remove_coin) {
            hcp.update_hcg_props(m);
            hcp.rollback(m);
        }
        assert_eq!(hcp.model().all_groups(), &groups_before);
        assert_eq!(hcp.model().all_group_sizes(), &sizes_before);
        assert_eq!(hcp.hcg_edges(), &edges_before);
        assert_eq!(hcp.hcg_pairs(), &pairs_before);
    }
}

#[test]
fn construction_rejects_bad_inputs() {
    // group count out of range
    assert!(HierarchicalModel::new(2, vec![], vec![1, 1], 0, 4).is_err());
    assert!(HierarchicalModel::new(2, vec![], vec![1, 1], 5, 4).is_err());
    assert!(HierarchicalModel::new(2, vec![], vec![1, 1], 1, 65).is_err());
    // mask list length differs from the node count
    assert!(HierarchicalModel::new(3, vec![], vec![1, 1], 1, 4).is_err());
    // universal bit unset
    assert!(HierarchicalModel::new(2, vec![], vec![1, 2], 2, 4).is_err());
    // mask uses a group beyond num_groups
    assert!(HierarchicalModel::new(2, vec![], vec![1, 5], 2, 4).is_err());
    // edge endpoint out of range
    assert!(HierarchicalModel::new(2, vec![(0, 2)], vec![1, 1], 1, 4).is_err());
    // self-loop
    assert!(HierarchicalModel::new(2, vec![(1, 1)], vec![1, 1], 1, 4).is_err());
    // a valid one for contrast
    assert!(HierarchicalModel::new(2, vec![(0, 1)], vec![1, 1], 1, 4).is_ok());
}

#[test]
fn load_graph_parses_positional_ids() {
    let text = "graph [\nnode [\nid 0\n]\nnode [\nid 1\n]\nnode [\nid 2\n]\nedge [\nsource 0\ntarget 1\n]\nedge [\nsource 1\ntarget 2\n]\n]\n";
    let (n, mut edges) = load_graph(text).unwrap();
    edges.sort();
    assert_eq!(n, 3);
    assert_eq!(edges, vec![(0, 1), (1, 2)]);
}

#[test]
fn load_graph_rejects_bad_inputs() {
    assert!(load_graph("not a graph at all").is_err());
    // identifiers that are not positions
    let text = "graph [\nnode [\nid 5\n]\nnode [\nid 6\n]\nedge [\nsource 5\ntarget 6\n]\n]\n";
    assert!(load_graph(text).is_err());
    // duplicate identifier
    let text = "graph [\nnode [\nid 0\n]\nnode [\nid 0\n]\n]\n";
    assert!(load_graph(text).is_err());
    // edge endpoint that is no node
    let text = "graph [\nnode [\nid 0\n]\nnode [\nid 1\n]\nedge [\nsource 0\ntarget 7\n]\n]\n";
    assert!(load_graph(text).is_err());
}

#[test]
fn random_groups_sets_universal_bit() {
    let mut rng = mt19937::MT19937::seed_from_u64(4);
    for g in [1u32, 2, 5, 64] {
        let masks = random_groups(&mut rng, 50, g);
        assert_eq!(masks.len(), 50);
        for &m in masks.iter() {
            assert_eq!(m & 1, 1);
            if g < 64 {
                assert_eq!(m >> g, 0);
            }
        }
    }
}

#[test]
fn ln_fact_values() {
    // the log-factorial used by the likelihood checks above
    assert_eq!(ln_fact(0), 0.0);
    assert!((ln_fact(2) - 0.6931).abs() < 0.001);
    assert!((ln_fact(10) - 15.1044).abs() < 0.001);
}
