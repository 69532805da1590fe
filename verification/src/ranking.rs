//! The ranking pipeline: candidates from the cluster forest, their
//! expansion over the adjacency lists, and the final score, which is the
//! weighted sum of four signals.

pub mod candidates;
pub mod expand;
pub mod signals;

pub use crate::ranking::candidates::{collect_recursive, find_cluster_candidates};
pub use crate::ranking::expand::expand_with_neighbors;
pub use crate::ranking::signals::{
    calculate_bio_score,
    calculate_cluster_score,
    calculate_graph_score,
    calculate_neighborhood_coherence,
};
use crate::cluster::{Cluster, row, similarity_to};
use crate::ranking::candidates::candidates;
use crate::ranking::expand::expansion;
use crate::ranking::signals::{bio_score, cluster_score, graph_score};
use crate::search::cosine;
use crate::storage::NodeHeader;
use crate::topk::{is_top, select_top, top_order};
use vstd::prelude::*;

verus! {

/// The weights of the four signals, in units of `1 / SCALE`. They need not
/// add up to one.
#[derive(Debug, Clone, Copy)]
pub struct RankConfig {
    /// The weight of the similarity to the query.
    pub semantic_weight: i64,
    /// The weight of the graph score.
    pub graph_weight: i64,
    /// The weight of the bio score.
    pub bio_weight: i64,
    /// The weight of the cluster score.
    pub cluster_weight: i64,
}

impl Default for RankConfig {
    fn default() -> (r: RankConfig)
        ensures
            r.semantic_weight == 500_000,
            r.graph_weight == 300_000,
            r.bio_weight == 150_000,
            r.cluster_weight == 50_000,
    {
        RankConfig {
            semantic_weight: 500_000,
            graph_weight: 300_000,
            bio_weight: 150_000,
            cluster_weight: 50_000,
        }
    }
}

/// The view of a forest that may be missing.
pub open spec fn forest_view(clusters: Option<&Vec<Cluster>>) -> Option<Seq<Cluster>> {
    match clusters {
        Some(forest) => Some(forest@),
        None => None,
    }
}

/// The bio score of node `id` at time `now`: zero for a node without a
/// header.
pub open spec fn bio_of(headers: Seq<NodeHeader>, id: u64, now: u64) -> int {
    if id < headers.len() {
        bio_score(headers[id as int], now)
    } else {
        0
    }
}

/// What a query is ranked against: the arena at one moment, the seeds of
/// the expansion, and the cluster forest, if there is one.
pub struct Snapshot<'a> {
    /// The headers of the nodes.
    pub headers: &'a [NodeHeader],
    /// The embeddings of the nodes.
    pub embeddings: &'a [Vec<i16>],
    /// The adjacency lists of the nodes.
    pub edge_list: &'a [Vec<u64>],
    /// The nodes that the expansion started from.
    pub seed_nodes: &'a [u64],
    /// The cluster forest.
    pub clusters: Option<&'a Vec<Cluster>>,
    /// The time, in seconds since the epoch.
    pub now: u64,
}

/// What a query is ranked against, as values.
pub struct SnapshotView {
    /// The headers of the nodes.
    pub headers: Seq<NodeHeader>,
    /// The embeddings of the nodes.
    pub embeddings: Seq<Vec<i16>>,
    /// The adjacency lists of the nodes.
    pub edges: Seq<Vec<u64>>,
    /// The nodes that the expansion started from.
    pub seeds: Seq<u64>,
    /// The cluster forest.
    pub clusters: Option<Seq<Cluster>>,
    /// The time, in seconds since the epoch.
    pub now: u64,
}

impl<'a> View for Snapshot<'a> {
    type V = SnapshotView;

    open spec fn view(&self) -> SnapshotView {
        SnapshotView {
            headers: self.headers@,
            embeddings: self.embeddings@,
            edges: self.edge_list@,
            seeds: self.seed_nodes@,
            clusters: forest_view(self.clusters),
            now: self.now,
        }
    }
}

/// The final score of node `id`: the sum of its four signals, each times its
/// weight, in units of `1 / SCALE^2`.
pub open spec fn final_score(config: RankConfig, view: SnapshotView, query: Seq<i16>, id: u64) -> int {
    config.semantic_weight * cosine(query, row(view.embeddings, id)) + config.graph_weight
        * graph_score(id, view.edges, view.embeddings, view.seeds, query) + config.bio_weight
        * bio_of(view.headers, id, view.now) + config.cluster_weight * cluster_score(
        id,
        view.clusters,
        query,
    )
}

/// The final score of each candidate, in order.
pub open spec fn final_scores(
    config: RankConfig,
    view: SnapshotView,
    query: Seq<i16>,
    candidates: Seq<u64>,
) -> Seq<i128> {
    Seq::new(candidates.len(), |p: int| final_score(config, view, query, candidates[p]) as i128)
}

/// The candidates at the positions `order`.
pub open spec fn picked(candidates: Seq<u64>, order: Seq<usize>) -> Seq<u64> {
    Seq::new(order.len(), |a: int| candidates[order[a] as int])
}

/// The final score of node `id`: semantic, graph, bio and cluster signal,
/// each times its weight.
pub fn score_node(config: &RankConfig, view: &Snapshot, query_embedding: &[i16], id: u64) -> (r:
    i128)
    ensures
        r == final_score(*config, view@, query_embedding@, id),
{
    let semantic: i128 = similarity_to(query_embedding, view.embeddings, id) as i128;
    let graph: i128 = calculate_graph_score(
        id,
        view.edge_list,
        view.embeddings,
        view.seed_nodes,
        query_embedding,
    ) as i128;
    let bio: i128 = if id < view.headers.len() as u64 {
        calculate_bio_score(&view.headers[id as usize], view.now) as i128
    } else {
        0
    };
    let cluster: i128 = calculate_cluster_score(id, view.clusters, query_embedding) as i128;
    let w1: i128 = config.semantic_weight as i128;
    let w2: i128 = config.graph_weight as i128;
    let w3: i128 = config.bio_weight as i128;
    let w4: i128 = config.cluster_weight as i128;
    proof {
        lemma_product_bound(w1 as int, semantic as int, 0x40_0000_0000_0000);
        lemma_product_bound(w2 as int, graph as int, 0x40_0000_0000_0000);
        lemma_product_bound(w3 as int, bio as int, 0x40_0000_0000_0000);
        lemma_product_bound(w4 as int, cluster as int, 0x40_0000_0000_0000);
    }
    w1 * semantic + w2 * graph + w3 * bio + w4 * cluster
}

/// The product of a weight and a signal of bounded size fits well into 128
/// bits.
pub proof fn lemma_product_bound(w: int, x: int, bound: int)
    requires
        -0x8000_0000_0000_0000 <= w <= 0x8000_0000_0000_0000,
        -bound <= x <= bound,
        0 <= bound,
    ensures
        -(0x8000_0000_0000_0000 * bound) <= w * x <= 0x8000_0000_0000_0000 * bound,
{
    assert(-(0x8000_0000_0000_0000 * bound) <= w * x <= 0x8000_0000_0000_0000 * bound) by (nonlinear_arith)
        requires
            -0x8000_0000_0000_0000 <= w <= 0x8000_0000_0000_0000,
            -bound <= x <= bound,
            0 <= bound,
    ;
}

/// The `k` candidates of the highest final score, highest first. Of two
/// candidates of equal score the one that stands earlier among the
/// candidates comes first.
pub fn rank(
    candidates: &[u64],
    query_embedding: &[i16],
    view: &Snapshot,
    config: &RankConfig,
    k: usize,
) -> (r: Vec<u64>)
    ensures
        r@ == picked(
            candidates@,
            top_order(final_scores(*config, view@, query_embedding@, candidates@), k as int),
        ),
        is_top(
            final_scores(*config, view@, query_embedding@, candidates@),
            k as int,
            top_order(final_scores(*config, view@, query_embedding@, candidates@), k as int),
        ),
        r.len() == if k <= candidates.len() {
            k
        } else {
            candidates.len()
        },
{
    let n: usize = candidates.len();
    let ghost wanted = final_scores(*config, view@, query_embedding@, candidates@);
    let mut scores: Vec<i128> = Vec::new();
    let mut p: usize = 0;
    while p < n
        invariant
            p <= n,
            n == candidates.len(),
            scores.len() == p,
            wanted == final_scores(*config, view@, query_embedding@, candidates@),
            forall|q: int| 0 <= q < p ==> scores[q] == wanted[q],
        decreases n - p,
    {
        let score: i128 = score_node(config, view, query_embedding, candidates[p]);
        scores.push(score);
        p += 1;
    }
    assert(scores@ =~= wanted);
    let order: Vec<usize> = select_top(&scores, k);
    let count: usize = order.len();
    let mut out: Vec<u64> = Vec::new();
    let mut a: usize = 0;
    while a < count
        invariant
            a <= count,
            count == order.len(),
            out.len() == a,
            n == candidates.len(),
            forall|b: int| 0 <= b < order.len() ==> order[b] < n,
            forall|b: int| 0 <= b < a ==> out[b] == picked(candidates@, order@)[b],
        decreases count - a,
    {
        out.push(candidates[order[a]]);
        a += 1;
    }
    assert(out@ =~= picked(candidates@, order@));
    out
}

/// What a ranked search returns: the candidates that the forest gives are
/// the seeds; the seeds are expanded over the edges by `hops` hops; of the
/// nodes so reached, the `k` of the highest final score are returned,
/// highest first.
pub open spec fn ranked_result(
    config: RankConfig,
    forest: Seq<Cluster>,
    headers: Seq<NodeHeader>,
    embeddings: Seq<Vec<i16>>,
    edges: Seq<Vec<u64>>,
    query: Seq<i16>,
    max_candidates: nat,
    hops: nat,
    now: u64,
    k: int,
) -> Seq<u64> {
    let seeds = candidates(forest, query, max_candidates);
    let nodes = expansion(seeds, edges, hops);
    let view = SnapshotView { headers, embeddings, edges, seeds, clusters: Some(forest), now };
    picked(nodes, top_order(final_scores(config, view, query, nodes), k))
}

/// The three stages of ranking in one: candidates from the cluster forest,
/// their expansion over the adjacency lists by `hops` hops, and the `k`
/// nodes of the highest final score among those reached, highest first. The
/// candidates are the seeds that the graph score counts.
pub fn ranked_search(
    clusters: &Vec<Cluster>,
    headers: &[NodeHeader],
    embeddings: &[Vec<i16>],
    edge_list: &[Vec<u64>],
    query_embedding: &[i16],
    max_candidates: usize,
    hops: usize,
    config: &RankConfig,
    now: u64,
    k: usize,
) -> (r: Vec<u64>)
    ensures
        r@ == ranked_result(
            *config,
            clusters@,
            headers@,
            embeddings@,
            edge_list@,
            query_embedding@,
            max_candidates as nat,
            hops as nat,
            now,
            k as int,
        ),
        r.len() <= k,
{
    let seeds: Vec<u64> = find_cluster_candidates(
        clusters.as_slice(),
        query_embedding,
        max_candidates,
    );
    let nodes: Vec<u64> = expand_with_neighbors(seeds.as_slice(), edge_list, hops);
    let view: Snapshot = Snapshot {
        headers,
        embeddings,
        edge_list,
        seed_nodes: seeds.as_slice(),
        clusters: Some(clusters),
        now,
    };
    rank(nodes.as_slice(), query_embedding, &view, config, k)
}

} // verus!
