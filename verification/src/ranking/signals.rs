//! The graph score, the bio score and the cluster score of a node.

use crate::bio::{calc_life_score, life_score};
use crate::cluster::lookup::cluster_at;
use crate::cluster::{Cluster, holds_id, row, similarity, similarity_to};
use crate::fixed::{div_floor, lemma_mean_in_range};
use crate::ranking::forest_view;
use crate::ranking::expand::neighbors_of;
use crate::search::{SCALE, cosine, cosine_similarity, lemma_cosine_range};
use crate::storage::NodeHeader;
use vstd::prelude::*;

verus! {

/// How many of the first `n` neighbours are seeds.
pub open spec fn seed_links(neighbors: Seq<u64>, seeds: Seq<u64>, n: nat) -> nat
    decreases n,
{
    if n == 0 {
        0
    } else {
        seed_links(neighbors, seeds, (n - 1) as nat) + if seeds.contains(neighbors[n - 1]) {
            1nat
        } else {
            0nat
        }
    }
}

/// The sum, over the first `n` neighbours that lie in the corpus, of the
/// similarity of the neighbour to the query and of its similarity to `node`.
pub open spec fn coherence_sum(
    node: u64,
    neighbors: Seq<u64>,
    embeddings: Seq<Vec<i16>>,
    query: Seq<i16>,
    n: nat,
) -> int
    decreases n,
{
    if n == 0 {
        0
    } else {
        coherence_sum(node, neighbors, embeddings, query, (n - 1) as nat) + if neighbors[n - 1]
            < embeddings.len() {
            cosine(query, row(embeddings, neighbors[n - 1])) + cosine(
                row(embeddings, node),
                row(embeddings, neighbors[n - 1]),
            )
        } else {
            0
        }
    }
}

/// The coherence of the neighbourhood of `node`: over its first five
/// neighbours, the mean of the average of the neighbour's similarity to the
/// query and to `node`, rounded down. A neighbour outside the corpus counts
/// as zero; without neighbours the coherence is zero.
pub open spec fn neighborhood_coherence(
    node: u64,
    neighbors: Seq<u64>,
    embeddings: Seq<Vec<i16>>,
    query: Seq<i16>,
) -> int {
    let limit: nat = if neighbors.len() <= 5 {
        neighbors.len()
    } else {
        5
    };
    if limit == 0 {
        0
    } else {
        coherence_sum(node, neighbors, embeddings, query, limit) / (2 * limit) as int
    }
}

/// The graph score of `node`: for a node with neighbours, three tenths of
/// its degree in tenths (at most one), four tenths of the share of the seeds
/// that its neighbours make up, and three tenths of the coherence of its
/// neighbourhood, together at most one. Zero for a node without neighbours.
pub open spec fn graph_score(
    node: u64,
    edges: Seq<Vec<u64>>,
    embeddings: Seq<Vec<i16>>,
    seeds: Seq<u64>,
    query: Seq<i16>,
) -> int {
    let around = neighbors_of(edges, node);
    if around.len() == 0 {
        0
    } else {
        let degree: int = if around.len() <= 10 {
            around.len() as int
        } else {
            10
        };
        let seed_count: int = if seeds.len() >= 1 {
            seeds.len() as int
        } else {
            1
        };
        let links = seed_links(around, seeds, around.len()) as int;
        let total = degree * 30_000 + (links * 400_000) / seed_count + (neighborhood_coherence(
            node,
            around,
            embeddings,
            query,
        ) * 3) / 10;
        if total <= SCALE {
            total
        } else {
            SCALE as int
        }
    }
}

/// The bio score of a node at time `now`: four tenths of its significance
/// as a share of 255, three tenths of a tenth of its life score (at most
/// one), and three tenths of a hundredth of its access count (at most one).
pub open spec fn bio_score(header: NodeHeader, now: u64) -> int {
    let life = life_score(header, now);
    let recency = if life <= 10 * SCALE {
        life
    } else {
        10 * SCALE
    };
    let reads: int = if header.access_count <= 100 {
        header.access_count as int
    } else {
        100
    };
    header.significance * 400_000 / 255 + recency * 3 / 100 + reads * 3_000
}

/// The relevance of a cluster to a query: seven tenths of the similarity of
/// the query to its centroid and three tenths of its significance as a share
/// of 255, rounded down.
pub open spec fn relevance(c: Cluster, query: Seq<i16>) -> int {
    (1785 * cosine(query, c.centroid@) + 3 * c.significance) / 2550
}

/// The larger of two numbers.
pub open spec fn larger(a: int, b: int) -> int {
    if a >= b {
        a
    } else {
        b
    }
}

/// The better of two relevances, of which either may be missing.
pub open spec fn better(a: Option<int>, b: Option<int>) -> Option<int> {
    match (a, b) {
        (Some(x), Some(y)) => Some(larger(x, y)),
        (Some(x), None) => Some(x),
        (None, _) => b,
    }
}

/// The highest relevance of a cluster of `forest`, at any depth, that holds
/// `node`; none where no cluster holds it.
pub open spec fn best_relevance(forest: Seq<Cluster>, node: u64, query: Seq<i16>) -> Option<int>
    decreases forest,
{
    if forest.len() == 0 {
        None
    } else {
        better(
            best_relevance(forest.drop_last(), node, query),
            best_under(forest.last(), node, query),
        )
    }
}

/// The highest relevance of a cluster of the tree of `c` that holds `node`;
/// none where no cluster of the tree holds it.
pub open spec fn best_under(c: Cluster, node: u64, query: Seq<i16>) -> Option<int>
    decreases c,
{
    better(
        if c.member_ids@.contains(node) {
            Some(relevance(c, query))
        } else {
            None
        },
        best_relevance(c.sub_clusters@, node, query),
    )
}

/// The cluster score of `node`: the highest relevance of a cluster of the
/// forest, at any depth, that holds the node, be it negative; zero where no
/// cluster holds the node, and zero without a forest.
pub open spec fn cluster_score(node: u64, clusters: Option<Seq<Cluster>>, query: Seq<i16>) -> int {
    match clusters {
        Some(forest) => match best_relevance(forest, node, query) {
            Some(best) => best,
            None => 0,
        },
        None => 0,
    }
}

/// The bounds of a relevance.
pub proof fn lemma_relevance_range(c: Cluster, query: Seq<i16>)
    ensures
        -0x40_0000_0000_0000 <= relevance(c, query) <= 0x40_0000_0000_0000,
{
    lemma_cosine_range(query, c.centroid@);
}

/// The bounds of a best relevance.
pub proof fn lemma_best_relevance_range(forest: Seq<Cluster>, node: u64, query: Seq<i16>)
    ensures
        best_relevance(forest, node, query) matches Some(best) ==> -0x40_0000_0000_0000 <= best
            <= 0x40_0000_0000_0000,
    decreases forest,
{
    if forest.len() > 0 {
        lemma_best_relevance_range(forest.drop_last(), node, query);
        lemma_best_under_range(forest.last(), node, query);
    }
}

/// The bounds of the best relevance of a tree.
pub proof fn lemma_best_under_range(c: Cluster, node: u64, query: Seq<i16>)
    ensures
        best_under(c, node, query) matches Some(best) ==> -0x40_0000_0000_0000 <= best
            <= 0x40_0000_0000_0000,
    decreases c,
{
    lemma_relevance_range(c, query);
    lemma_best_relevance_range(c.sub_clusters@, node, query);
}

/// Whether `path` leads to a cluster of `forest`: its first entry is a
/// position in `forest`, each further entry a position among the
/// sub-clusters of the cluster before.
pub open spec fn is_path(forest: Seq<Cluster>, path: Seq<int>) -> bool
    decreases path.len(),
{
    &&& path.len() >= 1
    &&& 0 <= path[0] < forest.len()
    &&& (path.len() == 1 || is_path(forest[path[0]].sub_clusters@, path.drop_first()))
}

/// Whether the relevance `a`, which may be missing, is there and at least `x`.
pub open spec fn at_least(a: Option<int>, x: int) -> bool {
    a matches Some(best) && best >= x
}

/// The best relevance of a forest is at least that of each of its trees.
proof fn lemma_best_covers_tree(forest: Seq<Cluster>, i: int, node: u64, query: Seq<i16>, x: int)
    requires
        0 <= i < forest.len(),
        at_least(best_under(forest[i], node, query), x),
    ensures
        at_least(best_relevance(forest, node, query), x),
    decreases forest.len(),
{
    if i < forest.len() - 1 {
        assert(forest.drop_last()[i] == forest[i]);
        lemma_best_covers_tree(forest.drop_last(), i, node, query, x);
    }
}

/// Where a cluster of the forest, at any depth, holds the node, there is a
/// best relevance, and it is at least the relevance of that cluster.
pub proof fn lemma_best_relevance_covers(
    forest: Seq<Cluster>,
    path: Seq<int>,
    node: u64,
    query: Seq<i16>,
)
    requires
        is_path(forest, path),
        cluster_at(forest, path).member_ids@.contains(node),
    ensures
        at_least(best_relevance(forest, node, query), relevance(cluster_at(forest, path), query)),
    decreases path.len(),
{
    let c = forest[path[0]];
    let x = relevance(cluster_at(forest, path), query);
    if path.len() > 1 {
        lemma_best_relevance_covers(c.sub_clusters@, path.drop_first(), node, query);
    }
    assert(at_least(best_under(c, node, query), x));
    lemma_best_covers_tree(forest, path[0], node, query, x);
}

/// A best relevance is the relevance of a cluster of the forest that holds
/// the node.
pub proof fn lemma_best_relevance_attained(forest: Seq<Cluster>, node: u64, query: Seq<i16>) -> (path:
    Seq<int>)
    requires
        best_relevance(forest, node, query) is Some,
    ensures
        is_path(forest, path),
        cluster_at(forest, path).member_ids@.contains(node),
        best_relevance(forest, node, query) == Some(relevance(cluster_at(forest, path), query)),
    decreases forest,
{
    let last = forest.last();
    let front = forest.drop_last();
    let best = best_relevance(forest, node, query);
    assert(forest.len() > 0);
    assert(best == better(best_relevance(front, node, query), best_under(last, node, query)));
    if best_relevance(front, node, query) == best {
        let path = lemma_best_relevance_attained(front, node, query);
        lemma_path_in_grown_forest(front, forest, path);
        path
    } else {
        let here = forest.len() - 1;
        let below_best = best_relevance(last.sub_clusters@, node, query);
        assert(best == best_under(last, node, query));
        if below_best == best {
            let below = lemma_best_relevance_attained(last.sub_clusters@, node, query);
            let path = seq![here] + below;
            assert(path.len() > 1);
            assert(path.drop_first() =~= below);
            assert(path[0] == here);
            assert(forest[path[0]] == last);
            assert(cluster_at(forest, path) == cluster_at(last.sub_clusters@, below));
            path
        } else {
            let path = seq![here];
            assert(path.len() == 1);
            assert(path[0] == here);
            assert(cluster_at(forest, path) == last);
            assert(last.member_ids@.contains(node));
            assert(best == Some(relevance(last, query)));
            path
        }
    }
}

/// A path into the start of a forest is a path into the forest, and leads
/// to the same cluster.
proof fn lemma_path_in_grown_forest(front: Seq<Cluster>, forest: Seq<Cluster>, path: Seq<int>)
    requires
        is_path(front, path),
        front.len() <= forest.len(),
        forall|i: int| 0 <= i < front.len() ==> front[i] == forest[i],
    ensures
        is_path(forest, path),
        cluster_at(forest, path) == cluster_at(front, path),
{
}

/// The coherence of the neighbourhood of `node_id`, whose neighbours are
/// `neighbors`: over the first five of them, the mean of the average of the
/// neighbour's similarity to the query and to the node, rounded down.
pub fn calculate_neighborhood_coherence(
    node_id: u64,
    neighbors: &[u64],
    embeddings: &[Vec<i16>],
    query_embedding: &[i16],
) -> (r: i64)
    ensures
        r == neighborhood_coherence(node_id, neighbors@, embeddings@, query_embedding@),
        -SCALE <= r <= SCALE,
{
    let limit: usize = if neighbors.len() <= 5 {
        neighbors.len()
    } else {
        5
    };
    if limit == 0 {
        return 0;
    }
    let mut total: i128 = 0;
    let mut i: usize = 0;
    while i < limit
        invariant
            i <= limit,
            limit <= 5,
            limit <= neighbors.len(),
            total == coherence_sum(node_id, neighbors@, embeddings@, query_embedding@, i as nat),
            -(2_000_000 * i) <= total <= 2_000_000 * i,
        decreases limit - i,
    {
        let nid: u64 = neighbors[i];
        if nid < embeddings.len() as u64 {
            let q_sim: i64 = similarity_to(query_embedding, embeddings, nid);
            let n_sim: i64 = similarity(embeddings, node_id, nid);
            total = total + q_sim as i128 + n_sim as i128;
        }
        i += 1;
    }
    let count: i128 = 2 * (limit as i128);
    proof {
        lemma_mean_in_range(total as int, count as int, -SCALE, SCALE as int);
    }
    div_floor(total, count) as i64
}

/// The graph score of `node_id`: zero for a node without neighbours; else
/// `min(degree / 10, 1) * 0.3`, plus the number of its neighbours that are
/// seeds, divided by the number of seeds (at least one), times `0.4`, plus
/// the coherence of its neighbourhood times `0.3`; at most one.
pub fn calculate_graph_score(
    node_id: u64,
    edge_list: &[Vec<u64>],
    embeddings: &[Vec<i16>],
    seed_nodes: &[u64],
    query_embedding: &[i16],
) -> (r: i64)
    ensures
        r == graph_score(node_id, edge_list@, embeddings@, seed_nodes@, query_embedding@),
        -SCALE <= r <= SCALE,
{
    if node_id >= edge_list.len() as u64 {
        return 0;
    }
    let around: &Vec<u64> = &edge_list[node_id as usize];
    let n: usize = around.len();
    if n == 0 {
        return 0;
    }
    let degree: i128 = if n <= 10 {
        n as i128
    } else {
        10
    };
    let mut links: u64 = 0;
    let mut i: usize = 0;
    while i < n
        invariant
            i <= n,
            n == around.len(),
            links == seed_links(around@, seed_nodes@, i as nat),
            links <= i,
        decreases n - i,
    {
        if holds_id(seed_nodes, around[i]) {
            links = links + 1;
        }
        i += 1;
    }
    let seed_count: i128 = if seed_nodes.len() >= 1 {
        seed_nodes.len() as i128
    } else {
        1
    };
    let bonus: i128 = div_floor((links as i128) * 400_000, seed_count);
    let coherence: i64 = calculate_neighborhood_coherence(
        node_id,
        around.as_slice(),
        embeddings,
        query_embedding,
    );
    let part: i128 = div_floor((coherence as i128) * 3, 10);
    proof {
        vstd::arithmetic::div_mod::lemma_div_pos_is_pos(links * 400_000, seed_count as int);
    }
    let total: i128 = degree * 30_000 + bonus + part;
    if total <= 1_000_000 {
        total as i64
    } else {
        1_000_000
    }
}

/// The bio score of the node of `header` at time `now`:
/// `significance / 255 * 0.4 + min(life_score / 10, 1) * 0.3
/// + min(access_count / 100, 1) * 0.3`.
pub fn calculate_bio_score(header: &NodeHeader, now: u64) -> (r: i64)
    ensures
        r == bio_score(*header, now),
        0 <= r <= SCALE,
{
    let life: i64 = calc_life_score(header, now);
    let recency: i64 = if life <= 10_000_000 {
        life
    } else {
        10_000_000
    };
    let reads: i64 = if header.access_count <= 100 {
        header.access_count as i64
    } else {
        100
    };
    (header.significance as i64) * 400_000 / 255 + recency * 3 / 100 + reads * 3_000
}

/// The relevance of `cluster` to a query.
pub fn cluster_relevance(cluster: &Cluster, query_embedding: &[i16]) -> (r: i64)
    ensures
        r == relevance(*cluster, query_embedding@),
{
    let sim: i64 = cosine_similarity(query_embedding, cluster.centroid.as_slice());
    let total: i128 = 1785 * (sim as i128) + 3 * (cluster.significance as i128);
    div_floor(total, 2550) as i64
}

/// The view of a relevance that may be missing.
pub open spec fn relevance_view(r: Option<i64>) -> Option<int> {
    match r {
        Some(value) => Some(value as int),
        None => None,
    }
}

/// The highest relevance of a cluster of `forest`, at any depth, that holds
/// `node_id`; none where no cluster holds it.
pub fn best_cluster_relevance(node_id: u64, forest: &[Cluster], query_embedding: &[i16]) -> (r:
    Option<i64>)
    ensures
        relevance_view(r) == best_relevance(forest@, node_id, query_embedding@),
    decreases forest@,
{
    let n: usize = forest.len();
    let mut best: Option<i64> = None;
    let mut i: usize = 0;
    assert(forest@.take(0) =~= Seq::<Cluster>::empty());
    while i < n
        invariant
            i <= n,
            n == forest.len(),
            relevance_view(best) == best_relevance(
                forest@.take(i as int),
                node_id,
                query_embedding@,
            ),
        decreases n - i,
    {
        let cluster: &Cluster = &forest[i];
        let ghost grown = forest@.take(i + 1);
        assert(grown.drop_last() =~= forest@.take(i as int));
        assert(grown.last() == *cluster);
        assert(best_relevance(grown, node_id, query_embedding@) == better(
            best_relevance(grown.drop_last(), node_id, query_embedding@),
            best_under(grown.last(), node_id, query_embedding@),
        ));
        let own: Option<i64> = if holds_id(cluster.member_ids.as_slice(), node_id) {
            Some(cluster_relevance(cluster, query_embedding))
        } else {
            None
        };
        let below: Option<i64> = best_cluster_relevance(
            node_id,
            cluster.sub_clusters.as_slice(),
            query_embedding,
        );
        let here: Option<i64> = better_of(own, below);
        assert(relevance_view(here) == best_under(*cluster, node_id, query_embedding@));
        best = better_of(best, here);
        i += 1;
    }
    assert(forest@.take(n as int) =~= forest@);
    best
}

/// The better of two relevances, of which either may be missing.
pub fn better_of(a: Option<i64>, b: Option<i64>) -> (r: Option<i64>)
    ensures
        relevance_view(r) == better(relevance_view(a), relevance_view(b)),
{
    match (a, b) {
        (Some(x), Some(y)) => if x >= y {
            Some(x)
        } else {
            Some(y)
        },
        (Some(x), None) => Some(x),
        (None, _) => b,
    }
}

/// The cluster score of `node_id`: the highest relevance of a cluster that
/// holds the node, at any depth of the forest, be it negative; zero where no
/// cluster holds the node, and zero without a forest.
pub fn calculate_cluster_score(
    node_id: u64,
    clusters: Option<&Vec<Cluster>>,
    query_embedding: &[i16],
) -> (r: i64)
    ensures
        r == cluster_score(node_id, forest_view(clusters), query_embedding@),
        -0x40_0000_0000_0000 <= r <= 0x40_0000_0000_0000,
{
    match clusters {
        Some(forest) => {
            proof {
                lemma_best_relevance_range(forest@, node_id, query_embedding@);
            }
            match best_cluster_relevance(node_id, forest.as_slice(), query_embedding) {
                Some(best) => best,
                None => 0,
            }
        },
        None => 0,
    }
}

} // verus!
