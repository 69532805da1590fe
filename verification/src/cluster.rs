//! Hierarchical clustering of a corpus: the clusters, the limits that
//! clustering goes by, and the figures of a cluster that are means over its
//! members.
//!
//! A node id that lies outside the corpus stands for a node without an
//! embedding and of significance zero.

pub mod agglomerate;
pub mod hierarchy;
pub mod linkage;
pub mod lookup;

pub use crate::export::export_cluster_tree;
use crate::fixed::{div_floor, lemma_mean_in_range};
use crate::search::{SCALE, cosine, cosine_similarity};
use crate::storage::NodeHeader;
use vstd::prelude::*;

verus! {

/// A group of nodes, with the groups it was refined into.
#[derive(Debug)]
pub struct Cluster {
    /// The number of the cluster within its forest.
    pub id: u64,
    /// The member that stands for the cluster.
    pub anchor_node_id: u64,
    /// The nodes of the cluster.
    pub member_ids: Vec<u64>,
    /// The mean of the members' embeddings, component by component.
    pub centroid: Vec<i16>,
    /// The mean of the members' significances, in units of `1 / SCALE`.
    pub significance: i64,
    /// The clusters that the members were split into, if they were.
    pub sub_clusters: Vec<Cluster>,
    /// The level of the cluster; a root has depth zero.
    pub depth: usize,
}

/// Whether two clusters are alike: their trees hold the same in every field.
pub open spec fn same_tree(a: Cluster, b: Cluster) -> bool
    decreases a,
{
    &&& a.id == b.id
    &&& a.anchor_node_id == b.anchor_node_id
    &&& a.member_ids@ == b.member_ids@
    &&& a.centroid@ == b.centroid@
    &&& a.significance == b.significance
    &&& a.depth == b.depth
    &&& a.sub_clusters@.len() == b.sub_clusters@.len()
    &&& forall|i: int|
        0 <= i < a.sub_clusters@.len() ==> same_tree(
            #[trigger] a.sub_clusters@[i],
            b.sub_clusters@[i],
        )
}

impl Clone for Cluster {
    /// A copy of the cluster and of all clusters below it.
    fn clone(&self) -> (r: Cluster)
        ensures
            same_tree(r, *self),
        decreases self,
    {
        let n: usize = self.sub_clusters.len();
        let mut below: Vec<Cluster> = Vec::new();
        let mut i: usize = 0;
        while i < n
            invariant
                i <= n,
                n == self.sub_clusters.len(),
                below.len() == i,
                forall|j: int| 0 <= j < i ==> same_tree(#[trigger] below@[j], self.sub_clusters@[j]),
            decreases n - i,
        {
            let copy: Cluster = self.sub_clusters[i].clone();
            below.push(copy);
            i += 1;
        }
        Cluster {
            id: self.id,
            anchor_node_id: self.anchor_node_id,
            member_ids: self.member_ids.clone(),
            centroid: self.centroid.clone(),
            significance: self.significance,
            sub_clusters: below,
            depth: self.depth,
        }
    }
}

/// The limits that clustering goes by.
#[derive(Debug, Clone, Copy)]
pub struct ClusterConfig {
    /// What the size of a cluster is divided by to get the number of its parts.
    pub min_cluster_size: usize,
    /// The size above which a cluster is split.
    pub max_cluster_size: usize,
    /// The depth at which no cluster is split any more.
    pub max_depth: usize,
    /// The similarity, in units of `1 / SCALE`, from which two nodes count as close.
    pub similarity_threshold: i64,
}

impl Default for ClusterConfig {
    fn default() -> (r: ClusterConfig)
        ensures
            r.min_cluster_size == 3,
            r.max_cluster_size == 50,
            r.max_depth == 3,
            r.similarity_threshold == 200_000,
    {
        ClusterConfig {
            min_cluster_size: 3,
            max_cluster_size: 50,
            max_depth: 3,
            similarity_threshold: 200_000,
        }
    }
}

/// The embedding of node `id`: empty for a node outside the corpus.
pub open spec fn row(embeddings: Seq<Vec<i16>>, id: u64) -> Seq<i16> {
    if id < embeddings.len() {
        embeddings[id as int]@
    } else {
        Seq::empty()
    }
}

/// Component `col` of the embedding of node `id`: zero where it has none.
pub open spec fn component(embeddings: Seq<Vec<i16>>, id: u64, col: int) -> int {
    let r = row(embeddings, id);
    if 0 <= col < r.len() {
        r[col] as int
    } else {
        0
    }
}

/// The significance of node `id`: zero for a node outside the corpus.
pub open spec fn significance_of(headers: Seq<NodeHeader>, id: u64) -> int {
    if id < headers.len() {
        headers[id as int].significance as int
    } else {
        0
    }
}

/// The number of components of the corpus: that of its first embedding.
pub open spec fn dimension(embeddings: Seq<Vec<i16>>) -> nat {
    if embeddings.len() > 0 {
        embeddings[0].len() as nat
    } else {
        0
    }
}

/// The sum of component `col` over the first `n` of `members`.
pub open spec fn column_sum(members: Seq<u64>, embeddings: Seq<Vec<i16>>, col: int, n: nat) -> int
    decreases n,
{
    if n == 0 {
        0
    } else {
        column_sum(members, embeddings, col, (n - 1) as nat) + component(
            embeddings,
            members[n - 1],
            col,
        )
    }
}

/// The mean of the members' embeddings, component by component and rounded
/// down; empty where there is no member.
pub open spec fn centroid(members: Seq<u64>, embeddings: Seq<Vec<i16>>) -> Seq<i16> {
    if members.len() == 0 {
        Seq::empty()
    } else {
        Seq::new(
            dimension(embeddings),
            |col: int| (column_sum(members, embeddings, col, members.len()) / (members.len() as int)) as i16,
        )
    }
}

/// The sum of the significances of the first `n` of `members`.
pub open spec fn significance_sum(members: Seq<u64>, headers: Seq<NodeHeader>, n: nat) -> int
    decreases n,
{
    if n == 0 {
        0
    } else {
        significance_sum(members, headers, (n - 1) as nat) + significance_of(
            headers,
            members[n - 1],
        )
    }
}

/// The mean of the members' significances, in units of `1 / SCALE` and
/// rounded down; zero where there is no member.
pub open spec fn mean_significance(members: Seq<u64>, headers: Seq<NodeHeader>) -> int {
    if members.len() == 0 {
        0
    } else {
        significance_sum(members, headers, members.len()) * SCALE / (members.len() as int)
    }
}

/// Component `col` of the embedding of node `id`.
pub fn component_of(embeddings: &[Vec<i16>], id: u64, col: usize) -> (r: i16)
    ensures
        r == component(embeddings@, id, col as int),
{
    if id < embeddings.len() as u64 {
        let r: &Vec<i16> = &embeddings[id as usize];
        if col < r.len() {
            r[col]
        } else {
            0
        }
    } else {
        0
    }
}

/// The clustering engine: the limits it was made with.
pub struct ClusterEngine {
    config: ClusterConfig,
}

impl ClusterEngine {
    /// The limits of this engine.
    pub closed spec fn limits(&self) -> ClusterConfig {
        self.config
    }

    /// An engine that goes by `config`.
    pub fn new(config: ClusterConfig) -> (r: ClusterEngine)
        ensures
            r.limits() == config,
    {
        ClusterEngine { config }
    }

    /// The limits of this engine.
    pub fn config(&self) -> (r: ClusterConfig)
        ensures
            r == self.limits(),
    {
        self.config
    }

    /// The centroid of `member_ids`: the mean of their embeddings, component
    /// by component, each mean rounded down. It has as many components as the
    /// first embedding of the corpus, and none where there is no member.
    pub fn calculate_centroid(&self, member_ids: &[u64], embeddings: &[Vec<i16>]) -> (r: Vec<i16>)
        ensures
            r@ == centroid(member_ids@, embeddings@),
    {
        let count: usize = member_ids.len();
        let mut out: Vec<i16> = Vec::new();
        if count == 0 {
            assert(out@ =~= centroid(member_ids@, embeddings@));
            return out;
        }
        let dim: usize = if embeddings.len() > 0 {
            embeddings[0].len()
        } else {
            0
        };
        let mut col: usize = 0;
        while col < dim
            invariant
                col <= dim,
                dim == dimension(embeddings@),
                count == member_ids.len(),
                count > 0,
                out.len() == col,
                forall|c: int|
                    0 <= c < col ==> out[c] == centroid(member_ids@, embeddings@)[c],
            decreases dim - col,
        {
            let mut sum: i128 = 0;
            let mut i: usize = 0;
            while i < count
                invariant
                    i <= count,
                    count == member_ids.len(),
                    sum == column_sum(member_ids@, embeddings@, col as int, i as nat),
                    -0x8000 * i <= sum <= 0x7FFF * i,
                decreases count - i,
            {
                let x: i16 = component_of(embeddings, member_ids[i], col);
                sum = sum + x as i128;
                i += 1;
            }
            let mean: i128 = div_floor(sum, count as i128);
            proof {
                lemma_mean_in_range(sum as int, count as int, -0x8000, 0x7FFF);
            }
            out.push(mean as i16);
            col += 1;
        }
        assert(out@ =~= centroid(member_ids@, embeddings@));
        out
    }

    /// The mean significance of `member_ids`, in units of `1 / SCALE`.
    pub fn average_significance(&self, member_ids: &[u64], headers: &[NodeHeader]) -> (r: i64)
        ensures
            r == mean_significance(member_ids@, headers@),
            0 <= r <= 255 * SCALE,
    {
        let count: usize = member_ids.len();
        if count == 0 {
            return 0;
        }
        let mut sum: i128 = 0;
        let mut i: usize = 0;
        while i < count
            invariant
                i <= count,
                count == member_ids.len(),
                sum == significance_sum(member_ids@, headers@, i as nat),
                0 <= sum <= 255 * i,
            decreases count - i,
        {
            let id: u64 = member_ids[i];
            if id < headers.len() as u64 {
                sum = sum + headers[id as usize].significance as i128;
            }
            i += 1;
        }
        let scaled: i128 = sum * 1_000_000;
        let mean: i128 = div_floor(scaled, count as i128);
        proof {
            lemma_mean_in_range(scaled as int, count as int, 0, 255 * SCALE);
        }
        mean as i64
    }
}

/// The similarity of two nodes of the corpus.
pub open spec fn similarity_of(embeddings: Seq<Vec<i16>>, a: u64, b: u64) -> int {
    cosine(row(embeddings, a), row(embeddings, b))
}

/// The similarity of nodes `a` and `b`: zero where either lies outside the
/// corpus.
pub fn similarity(embeddings: &[Vec<i16>], a: u64, b: u64) -> (r: i64)
    ensures
        r == similarity_of(embeddings@, a, b),
        -SCALE <= r <= SCALE,
{
    let n: u64 = embeddings.len() as u64;
    if a < n && b < n {
        cosine_similarity(embeddings[a as usize].as_slice(), embeddings[b as usize].as_slice())
    } else {
        0
    }
}

/// The similarity of `query` to node `id`: zero where the node lies outside
/// the corpus.
pub fn similarity_to(query: &[i16], embeddings: &[Vec<i16>], id: u64) -> (r: i64)
    ensures
        r == cosine(query@, row(embeddings@, id)),
        -SCALE <= r <= SCALE,
{
    if id < embeddings.len() as u64 {
        cosine_similarity(query, embeddings[id as usize].as_slice())
    } else {
        0
    }
}

/// The similarity of the vector `center` to node `id`: zero where the node
/// lies outside the corpus.
pub fn similarity_from(center: &[i16], embeddings: &[Vec<i16>], id: u64) -> (r: i64)
    ensures
        r == cosine(row(embeddings@, id), center@),
        -SCALE <= r <= SCALE,
{
    if id < embeddings.len() as u64 {
        cosine_similarity(embeddings[id as usize].as_slice(), center)
    } else {
        0
    }
}

/// Whether `list` holds `id`.
pub fn holds_id(list: &[u64], id: u64) -> (r: bool)
    ensures
        r == list@.contains(id),
{
    let n: usize = list.len();
    let mut i: usize = 0;
    while i < n
        invariant
            i <= n,
            n == list.len(),
            forall|j: int| 0 <= j < i ==> list[j] != id,
        decreases n - i,
    {
        if list[i] == id {
            return true;
        }
        i += 1;
    }
    false
}

} // verus!
