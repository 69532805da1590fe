use spiderdb::cluster::{Cluster, ClusterConfig, ClusterEngine};
use spiderdb::ranking::{
    calculate_cluster_score, calculate_graph_score, calculate_neighborhood_coherence,
    expand_with_neighbors, find_cluster_candidates, rank, score_node, RankConfig, Snapshot,
};
use spiderdb::storage::NodeHeader;

fn corpus() -> Vec<Vec<i16>> {
    vec![
        vec![1000, 0],
        vec![0, 1000],
        vec![990, 50],
        vec![50, 990],
        vec![980, -40],
        vec![-30, 985],
    ]
}

fn headers(significances: &[u8]) -> Vec<NodeHeader> {
    let mut out = Vec::new();
    for (i, s) in significances.iter().enumerate() {
        out.push(NodeHeader {
            id: i as u64,
            data_offset: 0,
            data_len: 0,
            last_access_ts: 0,
            access_count: 0,
            significance: *s,
        });
    }
    out
}

fn forest(min: usize, max: usize) -> Vec<Cluster> {
    let e = ClusterEngine::new(ClusterConfig {
        min_cluster_size: min,
        max_cluster_size: max,
        max_depth: 3,
        similarity_threshold: 200_000,
    });
    e.cluster_graph(&headers(&[10, 20, 30, 40, 200, 60]), &corpus(), &[], 2)
}

fn edges() -> Vec<Vec<u64>> {
    vec![vec![2, 4, 1], vec![3], vec![0], vec![], vec![0, 2, 99], vec![5, 5]]
}

fn sorted(mut v: Vec<u64>) -> Vec<u64> {
    v.sort();
    v
}

#[test]
fn default_rank_config() {
    let c = RankConfig::default();
    assert_eq!(c.semantic_weight, 500_000);
    assert_eq!(c.graph_weight, 300_000);
    assert_eq!(c.bio_weight, 150_000);
    assert_eq!(c.cluster_weight, 50_000);
}

#[test]
fn expand_with_no_hops_returns_the_start_nodes() {
    assert_eq!(expand_with_neighbors(&[0], &edges(), 0), vec![0]);
    assert_eq!(expand_with_neighbors(&[5, 1, 5], &edges(), 0), vec![5, 1]);
    let none: Vec<u64> = Vec::new();
    assert_eq!(expand_with_neighbors(&[], &edges(), 3), none);
}

#[test]
fn expand_goes_one_hop_at_a_time() {
    assert_eq!(expand_with_neighbors(&[0], &edges(), 1), vec![0, 2, 4, 1]);
    assert_eq!(expand_with_neighbors(&[0], &edges(), 2), vec![0, 2, 4, 1, 99, 3]);
    assert_eq!(expand_with_neighbors(&[5, 1, 5], &edges(), 1), vec![5, 1, 3]);
}

#[test]
fn expand_ends_on_cycles() {
    assert_eq!(expand_with_neighbors(&[0], &edges(), 3), vec![0, 2, 4, 1, 99, 3]);
    assert_eq!(expand_with_neighbors(&[0], &edges(), usize::MAX), vec![0, 2, 4, 1, 99, 3]);
    let ring: Vec<Vec<u64>> = vec![vec![1], vec![2], vec![0]];
    assert_eq!(sorted(expand_with_neighbors(&[1], &ring, 1000)), vec![0, 1, 2]);
    assert_eq!(expand_with_neighbors(&[1], &ring, 1), vec![1, 2]);
}

#[test]
fn expand_keeps_nodes_without_adjacency_lists() {
    assert_eq!(expand_with_neighbors(&[77, 4], &edges(), 5), vec![77, 4, 0, 2, 99, 1, 3]);
    assert_eq!(expand_with_neighbors(&[7], &[], 2), vec![7]);
}

#[test]
fn expanded_nodes_are_all_different() {
    let got = expand_with_neighbors(&[5, 4, 4, 0], &edges(), 4);
    let mut seen = got.clone();
    seen.sort();
    seen.dedup();
    assert_eq!(seen.len(), got.len());
}

#[test]
fn candidates_come_from_the_similar_roots() {
    let f = forest(1, 2);
    assert_eq!(find_cluster_candidates(&f, &[1000, 30], 100), vec![0, 4, 2]);
    assert_eq!(find_cluster_candidates(&f, &[10, 1000], 4), vec![1, 5, 3]);
    let plain = forest(3, 50);
    assert_eq!(find_cluster_candidates(&plain, &[1000, 30], 100), vec![0, 4, 2]);
}

#[test]
fn candidates_stop_at_the_limit() {
    let f = forest(1, 2);
    assert_eq!(find_cluster_candidates(&f, &[1000, 30], 2), vec![0, 4]);
    assert_eq!(find_cluster_candidates(&f, &[1000, 30], 1), vec![0]);
    assert_eq!(find_cluster_candidates(&f, &[1000, 30], 3), vec![0, 4, 2]);
    let none: Vec<u64> = Vec::new();
    assert_eq!(find_cluster_candidates(&f, &[1000, 30], 0), none);
}

#[test]
fn candidates_are_never_more_than_the_limit() {
    let f = forest(1, 2);
    let queries: [[i16; 2]; 4] = [[1000, 30], [10, 1000], [1000, 1000], [-5, 700]];
    for q in queries.iter() {
        for limit in 0..8usize {
            let got = find_cluster_candidates(&f, q, limit);
            assert!(got.len() <= limit);
            let mut seen = got.clone();
            seen.sort();
            seen.dedup();
            assert_eq!(seen.len(), got.len());
        }
    }
}

#[test]
fn candidates_of_no_limit_from_one_similar_root() {
    let root = Cluster {
        id: 0,
        anchor_node_id: 5,
        member_ids: vec![5, 6],
        centroid: vec![1, 0],
        significance: 0,
        sub_clusters: Vec::new(),
        depth: 0,
    };
    let forest = vec![root];
    let none: Vec<u64> = Vec::new();
    assert_eq!(find_cluster_candidates(&forest, &[1, 0], 0), none);
    assert_eq!(find_cluster_candidates(&forest, &[1, 0], 1), vec![5]);
    assert_eq!(find_cluster_candidates(&forest, &[1, 0], 2), vec![5, 6]);
    assert_eq!(find_cluster_candidates(&forest, &[1, 0], 9), vec![5, 6]);
}

#[test]
fn candidates_need_a_similar_root() {
    let f = forest(3, 50);
    let none: Vec<u64> = Vec::new();
    assert_eq!(find_cluster_candidates(&f, &[-1000, -1000], 100), none);
    assert_eq!(find_cluster_candidates(&[], &[1000, 30], 100), none);
}

#[test]
fn candidates_of_both_roots_when_both_are_similar() {
    let f = forest(3, 50);
    // at 45 degrees both centroids are at a similarity of about 0.7
    assert_eq!(find_cluster_candidates(&f, &[1000, 1000], 100), vec![1, 5, 3, 0, 4, 2]);
    assert_eq!(find_cluster_candidates(&f, &[1000, 1000], 4), vec![1, 5, 3, 0]);
}

#[test]
fn graph_score_exact_values() {
    let q: [i16; 2] = [1000, 30];
    assert_eq!(calculate_graph_score(0, &edges(), &corpus(), &[0, 2], &q), 491_258);
    assert_eq!(calculate_graph_score(1, &edges(), &corpus(), &[0, 2], &q), 191_863);
    assert_eq!(calculate_graph_score(2, &edges(), &corpus(), &[0, 2], &q), 529_741);
    assert_eq!(calculate_graph_score(4, &edges(), &corpus(), &[0, 2], &q), 689_717);
    assert_eq!(calculate_graph_score(5, &edges(), &corpus(), &[0, 2], &q), 209_931);
    // without seeds the share of seeds is zero
    assert_eq!(calculate_graph_score(0, &edges(), &corpus(), &[], &q), 291_258);
}

#[test]
fn graph_score_without_neighbours_is_zero() {
    let q: [i16; 2] = [1000, 30];
    assert_eq!(calculate_graph_score(3, &edges(), &corpus(), &[0, 2], &q), 0);
    assert_eq!(calculate_graph_score(6, &edges(), &corpus(), &[0, 2], &q), 0);
}

#[test]
fn graph_score_counts_at_most_ten_neighbours() {
    let q: [i16; 2] = [1000, 30];
    let mut big: Vec<Vec<u64>> = vec![(0..12).collect()];
    for _ in 0..11 {
        big.push(Vec::new());
    }
    let mut wide = corpus();
    for _ in 0..6 {
        wide.push(vec![1000, 1000]);
    }
    assert_eq!(calculate_graph_score(0, &big, &wide, &[1, 2, 3], &q), 884_665);
}

#[test]
fn neighborhood_coherence_exact_values() {
    let q: [i16; 2] = [1000, 30];
    assert_eq!(calculate_neighborhood_coherence(0, &[2, 4, 1], &corpus(), &q), 670_861);
    assert_eq!(calculate_neighborhood_coherence(2, &[0], &corpus(), &q), 999_138);
    // a neighbour outside the corpus counts as zero, but counts
    assert_eq!(calculate_neighborhood_coherence(4, &[0, 2, 99], &corpus(), &q), 665_724);
    assert_eq!(calculate_neighborhood_coherence(0, &[], &corpus(), &q), 0);
}

#[test]
fn cluster_score_is_the_best_relevance() {
    let q: [i16; 2] = [1000, 30];
    let f = forest(1, 2);
    assert_eq!(calculate_cluster_score(0, Some(&f), &q), 793_862);
    assert_eq!(calculate_cluster_score(1, Some(&f), &q), 72_284);
    assert_eq!(calculate_cluster_score(3, Some(&f), &q), 103_315);
    assert_eq!(calculate_cluster_score(4, Some(&f), &q), 933_540);
    let plain = forest(3, 50);
    assert_eq!(calculate_cluster_score(4, Some(&plain), &q), 793_862);
    assert_eq!(calculate_cluster_score(3, Some(&plain), &q), 72_284);
}

#[test]
fn cluster_score_may_be_negative() {
    let away = Cluster {
        id: 0,
        anchor_node_id: 0,
        member_ids: vec![0],
        centroid: vec![-1, 0],
        significance: 0,
        sub_clusters: Vec::new(),
        depth: 0,
    };
    let forest = vec![away];
    // 0.7 * (-1) + 0.3 * 0 / 255
    assert_eq!(calculate_cluster_score(0, Some(&forest), &[1, 0]), -700_000);
    // no cluster holds node 1
    assert_eq!(calculate_cluster_score(1, Some(&forest), &[1, 0]), 0);
}

#[test]
fn cluster_score_is_the_best_of_the_holding_clusters() {
    let leaf = Cluster {
        id: 1,
        anchor_node_id: 0,
        member_ids: vec![0],
        centroid: vec![-3, 4],
        significance: 0,
        sub_clusters: Vec::new(),
        depth: 1,
    };
    let other = Cluster {
        id: 2,
        anchor_node_id: 7,
        member_ids: vec![7],
        centroid: vec![1, 0],
        significance: 255_000_000,
        sub_clusters: Vec::new(),
        depth: 1,
    };
    let root = Cluster {
        id: 0,
        anchor_node_id: 0,
        member_ids: vec![0, 7],
        centroid: vec![-1, 0],
        significance: 0,
        sub_clusters: vec![leaf, other],
        depth: 0,
    };
    let forest = vec![root];
    // the root gives -0.7, the leaf 0.7 * (-0.6) = -0.42
    assert_eq!(calculate_cluster_score(0, Some(&forest), &[1, 0]), -420_000);
    // the root gives -0.7, the other sub-cluster 0.7 + 0.3
    assert_eq!(calculate_cluster_score(7, Some(&forest), &[1, 0]), 1_000_000);
    assert_eq!(calculate_cluster_score(9, Some(&forest), &[1, 0]), 0);
}

#[test]
fn cluster_score_without_a_forest_is_zero() {
    let q: [i16; 2] = [1000, 30];
    assert_eq!(calculate_cluster_score(0, None, &q), 0);
    let f = forest(1, 2);
    assert_eq!(calculate_cluster_score(6, Some(&f), &q), 0);
}

#[test]
fn rank_three_nodes_by_meaning_and_by_use() {
    let embeddings: Vec<Vec<i16>> = vec![vec![1000, 0], vec![0, 1000], vec![900, 100]];
    let now: u64 = 1_700_000_000;
    let mut h = headers(&[10, 10, 200]);
    for x in h.iter_mut() {
        x.last_access_ts = now;
    }
    h[2].access_count = 50;
    let view = Snapshot {
        headers: &h,
        embeddings: &embeddings,
        edge_list: &[],
        seed_nodes: &[],
        clusters: None,
        now,
    };
    let q: [i16; 2] = [1000, 0];
    let semantic = RankConfig { semantic_weight: 1_000_000, graph_weight: 0, bio_weight: 0, cluster_weight: 0 };
    assert_eq!(rank(&[0, 1, 2], &q, &view, &semantic, 3), vec![0, 2, 1]);
    let bio = RankConfig { semantic_weight: 0, graph_weight: 0, bio_weight: 1_000_000, cluster_weight: 0 };
    assert_eq!(rank(&[0, 1, 2], &q, &view, &bio, 3), vec![2, 0, 1]);
    assert_eq!(rank(&[0, 1, 2], &q, &view, &RankConfig::default(), 3), vec![2, 0, 1]);
    assert_eq!(rank(&[0, 1, 2], &q, &view, &RankConfig::default(), 1), vec![2]);
    assert!(rank(&[0, 1, 2], &q, &view, &RankConfig::default(), 0).is_empty());
}

#[test]
fn final_score_is_the_weighted_sum() {
    let embeddings: Vec<Vec<i16>> = vec![vec![1000, 0], vec![0, 1000], vec![900, 100]];
    let now: u64 = 1_700_000_000;
    let mut h = headers(&[10, 10, 200]);
    for x in h.iter_mut() {
        x.last_access_ts = now;
    }
    h[2].access_count = 50;
    let view = Snapshot {
        headers: &h,
        embeddings: &embeddings,
        edge_list: &[],
        seed_nodes: &[],
        clusters: None,
        now,
    };
    let q: [i16; 2] = [1000, 0];
    let c = RankConfig::default();
    assert_eq!(score_node(&c, &view, &q, 0), 547_352_900_000);
    assert_eq!(score_node(&c, &view, &q, 1), 47_352_900_000);
    assert_eq!(score_node(&c, &view, &q, 2), 611_500_250_000);
    // a node outside the arena has no signal
    assert_eq!(score_node(&c, &view, &q, 9), 0);
}

#[test]
fn final_score_uses_graph_and_cluster_signals() {
    let q: [i16; 2] = [1000, 30];
    let f = forest(1, 2);
    let h = headers(&[10, 20, 30, 40, 200, 60]);
    let e = edges();
    let view = Snapshot {
        headers: &h,
        embeddings: &corpus(),
        edge_list: &e,
        seed_nodes: &[0, 2],
        clusters: Some(&f),
        now: 0,
    };
    let graph_only = RankConfig { semantic_weight: 0, graph_weight: 2, bio_weight: 0, cluster_weight: 0 };
    assert_eq!(score_node(&graph_only, &view, &q, 4), 2 * 689_717);
    let cluster_only = RankConfig { semantic_weight: 0, graph_weight: 0, bio_weight: 0, cluster_weight: -3 };
    assert_eq!(score_node(&cluster_only, &view, &q, 4), -3 * 933_540);
    assert_eq!(rank(&[3, 0, 4, 5], &q, &view, &graph_only, 2), vec![4, 0]);
}
