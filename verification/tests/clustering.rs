use spiderdb::cluster::{similarity, Cluster, ClusterConfig, ClusterEngine};
use spiderdb::storage::NodeHeader;

fn corpus() -> Vec<Vec<i16>> {
    vec![
        vec![1000, 0],
        vec![0, 1000],
        vec![990, 50],
        vec![50, 990],
        vec![980, -40],
        vec![-30, 985],
    ]
}

fn headers(significances: &[u8]) -> Vec<NodeHeader> {
    let mut out = Vec::new();
    for (i, s) in significances.iter().enumerate() {
        out.push(NodeHeader {
            id: i as u64,
            data_offset: 0,
            data_len: 0,
            last_access_ts: 0,
            access_count: 0,
            significance: *s,
        });
    }
    out
}

fn engine(min: usize, max: usize, depth: usize) -> ClusterEngine {
    ClusterEngine::new(ClusterConfig {
        min_cluster_size: min,
        max_cluster_size: max,
        max_depth: depth,
        similarity_threshold: 200_000,
    })
}

fn sorted(mut v: Vec<u64>) -> Vec<u64> {
    v.sort();
    v
}

#[test]
fn default_cluster_config() {
    let c = ClusterConfig::default();
    assert_eq!(c.min_cluster_size, 3);
    assert_eq!(c.max_cluster_size, 50);
    assert_eq!(c.max_depth, 3);
    assert_eq!(c.similarity_threshold, 200_000);
}

#[test]
fn two_tight_groups_become_two_clusters() {
    let e = engine(3, 50, 3);
    let flat = e.agglomerative_cluster(&corpus(), 2);
    assert_eq!(flat, vec![vec![0, 4, 2], vec![1, 5, 3]]);
    let forest = e.cluster_graph(&headers(&[10, 20, 30, 40, 200, 60]), &corpus(), &[], 2);
    assert_eq!(forest.len(), 2);
    assert_eq!(sorted(forest[0].member_ids.clone()), vec![0, 2, 4]);
    assert_eq!(sorted(forest[1].member_ids.clone()), vec![1, 3, 5]);
}

#[test]
fn agglomerative_cluster_merges_the_best_pair_first() {
    let e = engine(3, 50, 3);
    assert_eq!(e.agglomerative_cluster(&corpus(), 3), vec![vec![0, 4], vec![1, 5, 3], vec![2]]);
    assert_eq!(e.agglomerative_cluster(&corpus(), 1), vec![vec![0, 4, 2, 1, 5, 3]]);
}

#[test]
fn agglomerative_cluster_keeps_singletons_for_a_small_corpus() {
    let e = engine(3, 50, 3);
    let all: Vec<Vec<u64>> = vec![vec![0], vec![1], vec![2], vec![3], vec![4], vec![5]];
    assert_eq!(e.agglomerative_cluster(&corpus(), 6), all);
    assert_eq!(e.agglomerative_cluster(&corpus(), 9), all);
}

#[test]
fn agglomerative_cluster_of_nothing_is_nothing() {
    let e = engine(3, 50, 3);
    let none: Vec<Vec<i16>> = Vec::new();
    assert!(e.agglomerative_cluster(&none, 2).is_empty());
    assert!(e.cluster_graph(&[], &none, &[], 2).is_empty());
}

#[test]
fn agglomerative_cluster_to_zero_clusters_ends_with_one() {
    let e = engine(3, 50, 3);
    assert_eq!(e.agglomerative_cluster(&corpus(), 0), vec![vec![0, 4, 2, 1, 5, 3]]);
}

#[test]
fn clusters_hold_every_node_once() {
    let e = engine(3, 50, 3);
    for k in 1..6 {
        let flat = e.agglomerative_cluster(&corpus(), k);
        assert_eq!(flat.len(), k);
        let mut all: Vec<u64> = Vec::new();
        for c in &flat {
            assert!(!c.is_empty());
            all.extend(c.iter());
        }
        assert_eq!(sorted(all), vec![0, 1, 2, 3, 4, 5]);
    }
}

#[test]
fn agglomerative_cluster_subset_keeps_the_ids() {
    let e = engine(3, 50, 3);
    let flat = e.agglomerative_cluster_subset(&[5, 0, 3, 4], &corpus(), 2);
    assert_eq!(flat, vec![vec![5, 3], vec![0, 4]]);
}

#[test]
fn average_linkage_exact_values() {
    let e = engine(3, 50, 3);
    assert_eq!(e.average_linkage_distance(&[0, 2], &[4], &corpus()), 997_503);
    assert_eq!(e.average_linkage_distance(&[0], &[1], &corpus()), 0);
    assert_eq!(e.average_linkage_distance(&[0, 2, 4], &[1, 3, 5], &corpus()), 9_878);
    assert_eq!(e.average_linkage_distance(&[], &[1], &corpus()), 0);
    assert_eq!(e.average_linkage_distance(&[1], &[], &corpus()), 0);
}

#[test]
fn centroid_is_the_mean_rounded_down() {
    let e = engine(3, 50, 3);
    assert_eq!(e.calculate_centroid(&[0, 2, 4], &corpus()), vec![990, 3]);
    assert_eq!(e.calculate_centroid(&[1, 3, 5], &corpus()), vec![6, 991]);
    let none: Vec<i16> = Vec::new();
    assert_eq!(e.calculate_centroid(&[], &corpus()), none);
    // -1 and 0 have the mean -1/2, which is rounded down
    let small: Vec<Vec<i16>> = vec![vec![-1], vec![0]];
    assert_eq!(e.calculate_centroid(&[0, 1], &small), vec![-1]);
}

#[test]
fn mean_significance_exact_values() {
    let e = engine(3, 50, 3);
    let h = headers(&[10, 20, 30, 40, 200, 60]);
    assert_eq!(e.average_significance(&[0, 2, 4], &h), 80_000_000);
    assert_eq!(e.average_significance(&[1, 3, 5], &h), 40_000_000);
    // a node without a header counts as zero
    assert_eq!(e.average_significance(&[0, 99], &h), 5_000_000);
    assert_eq!(e.average_significance(&[], &h), 0);
}

#[test]
fn anchor_balances_closeness_and_significance() {
    let e = engine(3, 50, 3);
    let h = headers(&[10, 20, 30, 40, 200, 60]);
    assert_eq!(e.find_cluster_anchor(&[0, 2, 4], &corpus(), &h), 4);
    assert_eq!(e.find_cluster_anchor(&[1, 3, 5], &corpus(), &h), 5);
    // with equal significance the member nearest to the centroid wins
    assert_eq!(e.find_cluster_anchor(&[0, 2], &corpus(), &headers(&[0; 6])), 0);
    assert_eq!(e.find_cluster_anchor(&[], &corpus(), &h), 0);
}

#[test]
fn cluster_graph_fills_every_field() {
    let e = engine(3, 50, 3);
    let forest = e.cluster_graph(&headers(&[10, 20, 30, 40, 200, 60]), &corpus(), &[], 2);
    assert_eq!(forest.len(), 2);
    assert_eq!(forest[0].id, 0);
    assert_eq!(forest[0].anchor_node_id, 4);
    assert_eq!(forest[0].member_ids, vec![0, 4, 2]);
    assert_eq!(forest[0].centroid, vec![990, 3]);
    assert_eq!(forest[0].significance, 80_000_000);
    assert_eq!(forest[0].depth, 0);
    assert!(forest[0].sub_clusters.is_empty());
    assert_eq!(forest[1].id, 1);
    assert_eq!(forest[1].anchor_node_id, 5);
    assert_eq!(forest[1].member_ids, vec![1, 5, 3]);
    assert_eq!(forest[1].centroid, vec![6, 991]);
    assert_eq!(forest[1].significance, 40_000_000);
}

#[test]
fn large_clusters_are_refined() {
    let e = engine(1, 2, 3);
    let forest = e.cluster_graph(&headers(&[10, 20, 30, 40, 200, 60]), &corpus(), &[], 2);
    assert_eq!(forest.len(), 2);
    assert_eq!(forest[0].id, 0);
    assert_eq!(forest[1].id, 4);
    let subs = &forest[0].sub_clusters;
    assert_eq!(subs.len(), 3);
    assert_eq!((subs[0].id, subs[0].member_ids.clone(), subs[0].depth), (1, vec![0], 1));
    assert_eq!((subs[1].id, subs[1].member_ids.clone(), subs[1].depth), (2, vec![4], 1));
    assert_eq!((subs[2].id, subs[2].member_ids.clone(), subs[2].depth), (3, vec![2], 1));
    assert_eq!(subs[1].significance, 200_000_000);
    assert_eq!(subs[1].centroid, vec![980, -40]);
    assert!(subs[0].sub_clusters.is_empty());
    let others = &forest[1].sub_clusters;
    assert_eq!(others.len(), 3);
    assert_eq!((others[0].id, others[0].member_ids.clone()), (5, vec![1]));
    assert_eq!((others[1].id, others[1].member_ids.clone()), (6, vec![5]));
    assert_eq!((others[2].id, others[2].member_ids.clone()), (7, vec![3]));
}

#[test]
fn refinement_stops_at_the_depth_limit() {
    let e = engine(0, 0, 2);
    let forest = e.cluster_graph(&headers(&[10, 20, 30, 40, 200, 60]), &corpus(), &[], 2);
    assert_eq!(forest.len(), 2);
    assert_eq!(forest[1].id, 7);
    let first = &forest[0].sub_clusters[0];
    assert_eq!((first.id, first.depth), (1, 1));
    assert_eq!(first.sub_clusters.len(), 1);
    let below = &first.sub_clusters[0];
    assert_eq!((below.id, below.depth, below.member_ids.clone()), (2, 2, vec![0]));
    assert!(below.sub_clusters.is_empty());
}

#[test]
fn sub_clusters_hold_only_members_of_their_parent() {
    let e = engine(1, 2, 3);
    let forest = e.cluster_graph(&headers(&[10, 20, 30, 40, 200, 60]), &corpus(), &[], 2);
    for root in &forest {
        for sub in &root.sub_clusters {
            assert!(!sub.member_ids.is_empty());
            for m in &sub.member_ids {
                assert!(root.member_ids.contains(m));
            }
        }
    }
}

#[test]
fn find_node_clusters_follows_the_hierarchy() {
    let e = engine(1, 2, 3);
    let forest = e.cluster_graph(&headers(&[10, 20, 30, 40, 200, 60]), &corpus(), &[], 2);
    assert_eq!(e.find_node_clusters(0, &forest), vec![0, 1]);
    assert_eq!(e.find_node_clusters(1, &forest), vec![4, 5]);
    assert_eq!(e.find_node_clusters(2, &forest), vec![0, 3]);
    assert_eq!(e.find_node_clusters(3, &forest), vec![4, 7]);
    assert_eq!(e.find_node_clusters(4, &forest), vec![0, 2]);
    assert_eq!(e.find_node_clusters(5, &forest), vec![4, 6]);
    let none: Vec<u64> = Vec::new();
    assert_eq!(e.find_node_clusters(6, &forest), none);
    assert_eq!(e.find_node_clusters(0, &[]), none);
}

#[test]
fn find_node_clusters_skips_what_lies_below_a_cluster_without_the_node() {
    let e = engine(3, 50, 3);
    let leaf = Cluster {
        id: 8,
        anchor_node_id: 3,
        member_ids: vec![3],
        centroid: vec![1],
        significance: 0,
        sub_clusters: Vec::new(),
        depth: 1,
    };
    let root = Cluster {
        id: 7,
        anchor_node_id: 1,
        member_ids: vec![1, 2],
        centroid: vec![1],
        significance: 0,
        sub_clusters: vec![leaf],
        depth: 0,
    };
    let none: Vec<u64> = Vec::new();
    assert_eq!(e.find_node_clusters(3, &[root]), none);
}

#[test]
fn cluster_search_ranks_the_members() {
    let e = engine(3, 50, 3);
    let forest = e.cluster_graph(&headers(&[10, 20, 30, 40, 200, 60]), &corpus(), &[], 2);
    assert_eq!(
        e.cluster_search(&[1000, 0], &forest[0], &corpus(), 2),
        vec![(0, 1_000_000), (4, 999_168)]
    );
    assert_eq!(
        e.cluster_search(&[0, 1000], &forest[0], &corpus(), 5),
        vec![(2, 50_440), (0, 0), (4, -40_782)]
    );
    assert!(e.cluster_search(&[0, 1000], &forest[0], &corpus(), 0).is_empty());
}

#[test]
fn cohesion_exact_values() {
    let e = engine(3, 50, 3);
    let forest = e.cluster_graph(&headers(&[10, 20, 30, 40, 200, 60]), &corpus(), &[], 2);
    assert_eq!(e.calculate_cohesion(&forest[0], &corpus()), 997_911);
    let all = e.cluster_graph(&headers(&[10, 20, 30, 40, 200, 60]), &corpus(), &[], 1);
    assert_eq!(e.calculate_cohesion(&all[0], &corpus()), 405_175);
}

#[test]
fn cohesion_of_a_single_node_is_one() {
    let e = engine(1, 2, 3);
    let forest = e.cluster_graph(&headers(&[10, 20, 30, 40, 200, 60]), &corpus(), &[], 2);
    assert_eq!(e.calculate_cohesion(&forest[0].sub_clusters[0], &corpus()), 1_000_000);
    let empty = Cluster {
        id: 0,
        anchor_node_id: 0,
        member_ids: Vec::new(),
        centroid: Vec::new(),
        significance: 0,
        sub_clusters: Vec::new(),
        depth: 0,
    };
    assert_eq!(e.calculate_cohesion(&empty, &corpus()), 1_000_000);
}

#[test]
fn similarity_of_a_node_outside_the_corpus_is_zero() {
    assert_eq!(similarity(&corpus(), 0, 2), 998_727);
    assert_eq!(similarity(&corpus(), 0, 6), 0);
    assert_eq!(similarity(&corpus(), 77, 0), 0);
}

fn walk<'a>(forest: &'a [Cluster], trail: &mut Vec<&'a Cluster>, out: &mut Vec<Vec<&'a Cluster>>) {
    for c in forest {
        trail.push(c);
        out.push(trail.clone());
        walk(&c.sub_clusters, trail, out);
        trail.pop();
    }
}

#[test]
fn found_clusters_hold_the_node_and_so_do_their_ancestors() {
    let e = engine(1, 2, 3);
    let forest = e.cluster_graph(&headers(&[10, 20, 30, 40, 200, 60]), &corpus(), &[], 2);
    let mut paths: Vec<Vec<&Cluster>> = Vec::new();
    walk(&forest, &mut Vec::new(), &mut paths);
    for node in 0..7u64 {
        let found = e.find_node_clusters(node, &forest);
        for id in &found {
            let path = paths.iter().find(|p| p.last().unwrap().id == *id).unwrap();
            for ancestor in path {
                assert!(ancestor.member_ids.contains(&node));
                assert!(found.contains(&ancestor.id));
            }
        }
        // and nothing that holds the node along its whole path is left out
        for path in &paths {
            if path.iter().all(|c| c.member_ids.contains(&node)) {
                assert!(found.contains(&path.last().unwrap().id));
            }
        }
    }
}

#[test]
fn cluster_ids_follow_one_another() {
    let e = engine(0, 0, 2);
    let forest = e.cluster_graph(&headers(&[10, 20, 30, 40, 200, 60]), &corpus(), &[], 2);
    let mut paths: Vec<Vec<&Cluster>> = Vec::new();
    walk(&forest, &mut Vec::new(), &mut paths);
    let ids: Vec<u64> = paths.iter().map(|p| p.last().unwrap().id).collect();
    let expected: Vec<u64> = (0..14).collect();
    assert_eq!(ids, expected);
    for p in &paths {
        assert_eq!(p.last().unwrap().depth, p.len() - 1);
        assert!(p.last().unwrap().depth <= 2);
    }
}

#[test]
fn build_cluster_hierarchy_skips_empty_lists_and_counts_on() {
    let e = engine(3, 50, 3);
    let mut counter: u64 = 40;
    let flat: Vec<Vec<u64>> = vec![vec![], vec![3, 1], vec![], vec![0]];
    let forest = e.build_cluster_hierarchy(flat, &corpus(), &headers(&[10, 20, 30, 40, 200, 60]), &mut counter, 5);
    assert_eq!(forest.len(), 2);
    assert_eq!((forest[0].id, forest[0].member_ids.clone(), forest[0].depth), (40, vec![3, 1], 5));
    assert_eq!((forest[1].id, forest[1].member_ids.clone(), forest[1].depth), (41, vec![0], 5));
    assert_eq!(counter, 42);
    let mut at_the_end: u64 = u64::MAX;
    let one = e.build_cluster(vec![2], &corpus(), &headers(&[10, 20, 30, 40, 200, 60]), &mut at_the_end, 0);
    assert_eq!(one.id, u64::MAX);
    assert_eq!(at_the_end, 0);
}

#[test]
fn agglomerate_merges_given_clusters() {
    let e = engine(3, 50, 3);
    let start: Vec<Vec<u64>> = vec![vec![1], vec![0, 2], vec![4], vec![3, 5]];
    assert_eq!(e.agglomerate(start.clone(), &corpus(), 2), vec![vec![1, 3, 5], vec![0, 2, 4]]);
    assert_eq!(e.agglomerate(start.clone(), &corpus(), 4), start);
    assert_eq!(e.parts_of(7), 2);
    assert_eq!(e.parts_of(12), 4);
    assert_eq!(e.parts_of(100), 5);
    assert_eq!(engine(0, 1, 1).parts_of(100), 5);
}

#[test]
fn a_cluster_is_copied_with_all_below_it() {
    let e = engine(1, 2, 3);
    let forest = e.cluster_graph(&headers(&[10, 20, 30, 40, 200, 60]), &corpus(), &[], 2);
    let copy = forest[0].clone();
    assert_eq!(copy.id, forest[0].id);
    assert_eq!(copy.anchor_node_id, forest[0].anchor_node_id);
    assert_eq!(copy.member_ids, forest[0].member_ids);
    assert_eq!(copy.centroid, forest[0].centroid);
    assert_eq!(copy.significance, forest[0].significance);
    assert_eq!(copy.depth, forest[0].depth);
    assert_eq!(copy.sub_clusters.len(), 3);
    for (a, b) in copy.sub_clusters.iter().zip(forest[0].sub_clusters.iter()) {
        assert_eq!((a.id, a.depth, a.member_ids.clone()), (b.id, b.depth, b.member_ids.clone()));
    }
}
