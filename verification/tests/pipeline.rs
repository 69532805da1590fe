use spiderdb::cluster::{Cluster, ClusterConfig, ClusterEngine};
use spiderdb::export::export_cluster_tree;
use spiderdb::ranking::{ranked_search, RankConfig};
use spiderdb::storage::NodeHeader;

fn corpus() -> Vec<Vec<i16>> {
    vec![
        vec![1000, 0],
        vec![0, 1000],
        vec![990, 50],
        vec![50, 990],
        vec![980, -40],
        vec![-30, 985],
    ]
}

fn headers() -> Vec<NodeHeader> {
    let significances: [u8; 6] = [10, 20, 30, 40, 200, 60];
    let mut out = Vec::new();
    for (i, s) in significances.iter().enumerate() {
        out.push(NodeHeader {
            id: i as u64,
            data_offset: 0,
            data_len: 0,
            last_access_ts: 0,
            access_count: 0,
            significance: *s,
        });
    }
    out
}

fn forest(min: usize, max: usize) -> Vec<Cluster> {
    let e = ClusterEngine::new(ClusterConfig {
        min_cluster_size: min,
        max_cluster_size: max,
        max_depth: 3,
        similarity_threshold: 200_000,
    });
    e.cluster_graph(&headers(), &corpus(), &[], 2)
}

fn edges() -> Vec<Vec<u64>> {
    vec![vec![2, 4, 1], vec![3], vec![0], vec![], vec![0, 2, 99], vec![5, 5]]
}

#[test]
fn ranked_search_without_hops_ranks_the_candidates() {
    let f = forest(1, 2);
    let q: [i16; 2] = [1000, 30];
    let got = ranked_search(&f, &headers(), &corpus(), &edges(), &q, 100, 0, &RankConfig::default(), 0, 10);
    assert_eq!(got, vec![4, 0, 2]);
}

#[test]
fn ranked_search_reaches_the_neighbours() {
    let f = forest(1, 2);
    let q: [i16; 2] = [1000, 30];
    let c = RankConfig::default();
    assert_eq!(
        ranked_search(&f, &headers(), &corpus(), &edges(), &q, 100, 1, &c, 0, 10),
        vec![4, 0, 2, 1, 99]
    );
    assert_eq!(
        ranked_search(&f, &headers(), &corpus(), &edges(), &q, 100, 2, &c, 0, 10),
        vec![4, 0, 2, 1, 3, 99]
    );
    assert_eq!(
        ranked_search(&f, &headers(), &corpus(), &edges(), &q, 100, 2, &c, 0, 2),
        vec![4, 0]
    );
}

#[test]
fn ranked_search_counts_the_candidates_as_seeds() {
    let f = forest(1, 2);
    let q: [i16; 2] = [1000, 30];
    // with two candidates, node 2 is reached over an edge and both of its
    // neighbours' targets are seeds
    assert_eq!(
        ranked_search(&f, &headers(), &corpus(), &edges(), &q, 2, 1, &RankConfig::default(), 0, 3),
        vec![4, 2, 0]
    );
    let graph_only = RankConfig { semantic_weight: 0, graph_weight: 1_000_000, bio_weight: 0, cluster_weight: 0 };
    assert_eq!(
        ranked_search(&f, &headers(), &corpus(), &edges(), &q, 100, 1, &graph_only, 0, 10),
        vec![0, 4, 2, 1, 99]
    );
}

#[test]
fn ranked_search_without_a_similar_cluster_finds_nothing() {
    let f = forest(1, 2);
    let q: [i16; 2] = [-1000, -1000];
    assert!(ranked_search(&f, &headers(), &corpus(), &edges(), &q, 100, 3, &RankConfig::default(), 0, 10).is_empty());
    let none: Vec<Cluster> = Vec::new();
    assert!(ranked_search(&none, &headers(), &corpus(), &edges(), &[1000, 30], 100, 3, &RankConfig::default(), 0, 10).is_empty());
}

#[test]
fn export_of_a_single_cluster() {
    let f = forest(3, 50);
    assert_eq!(export_cluster_tree(&f[0]), "Cluster 0 (anchor: 4, 3 nodes, sig: 80.00)\n");
    assert_eq!(export_cluster_tree(&f[1]), "Cluster 1 (anchor: 5, 3 nodes, sig: 40.00)\n");
}

#[test]
fn export_of_a_tree() {
    let f = forest(1, 2);
    assert_eq!(
        export_cluster_tree(&f[1]),
        "Cluster 4 (anchor: 5, 3 nodes, sig: 40.00)\n  Cluster 5 (anchor: 1, 1 nodes, sig: 20.00)\n  Cluster 6 (anchor: 5, 1 nodes, sig: 60.00)\n  Cluster 7 (anchor: 3, 1 nodes, sig: 40.00)\n"
    );
}

#[test]
fn export_of_a_deep_tree_and_of_odd_numbers() {
    let leaf = Cluster {
        id: 1_234_567_890_123,
        anchor_node_id: 0,
        member_ids: Vec::new(),
        centroid: Vec::new(),
        significance: -1_239_999,
        sub_clusters: Vec::new(),
        depth: 2,
    };
    let middle = Cluster {
        id: 10,
        anchor_node_id: 7,
        member_ids: vec![7],
        centroid: vec![1],
        significance: 9_999,
        sub_clusters: vec![leaf],
        depth: 1,
    };
    let root = Cluster {
        id: u64::MAX,
        anchor_node_id: 9,
        member_ids: vec![9, 7],
        centroid: vec![1],
        significance: 255_000_000,
        sub_clusters: vec![middle],
        depth: 0,
    };
    assert_eq!(
        export_cluster_tree(&root),
        "Cluster 18446744073709551615 (anchor: 9, 2 nodes, sig: 255.00)\n  Cluster 10 (anchor: 7, 1 nodes, sig: 0.01)\n    Cluster 1234567890123 (anchor: 0, 0 nodes, sig: -1.24)\n"
    );
}

#[test]
fn export_rounds_the_significance_as_a_formatted_number() {
    // 0.125, 0.375 and 2.625 lie halfway between two hundredths and are
    // binary fractions, so the formatted number shows where a half goes
    let values: [i64; 14] = [
        0, 4_999, 5_001, 125_000, 375_000, 2_625_000, 994_999, 995_001, 79_999_999,
        254_996_000, -4_999, -125_000, -375_000, -1_239_999,
    ];
    for v in values.iter() {
        let c = Cluster {
            id: 3,
            anchor_node_id: 1,
            member_ids: vec![1],
            centroid: vec![1],
            significance: *v,
            sub_clusters: Vec::new(),
            depth: 0,
        };
        let number = format!("{:.2}", (*v as f64) / 1_000_000.0);
        let number = if *v < 0 && !number.starts_with('-') { format!("-{}", number) } else { number };
        assert_eq!(
            export_cluster_tree(&c),
            format!("Cluster 3 (anchor: 1, 1 nodes, sig: {})\n", number)
        );
    }
}

fn significance_text(v: i64) -> String {
    let c = Cluster {
        id: 3,
        anchor_node_id: 1,
        member_ids: vec![1],
        centroid: vec![1],
        significance: v,
        sub_clusters: Vec::new(),
        depth: 0,
    };
    let line = export_cluster_tree(&c);
    let start = line.find("sig: ").unwrap() + 5;
    line[start..line.len() - 2].to_string()
}

#[test]
fn export_rounds_a_half_to_the_even_hundredth() {
    assert_eq!(significance_text(5_000), "0.00");
    assert_eq!(significance_text(15_000), "0.02");
    assert_eq!(significance_text(25_000), "0.02");
    assert_eq!(significance_text(995_000), "1.00");
    assert_eq!(significance_text(1_005_000), "1.00");
    assert_eq!(significance_text(1_015_000), "1.02");
    assert_eq!(significance_text(-5_000), "-0.00");
    assert_eq!(significance_text(-15_000), "-0.02");
    assert_eq!(significance_text(i64::MAX), "9223372036854.78");
    assert_eq!(significance_text(i64::MIN), "-9223372036854.78");
}
