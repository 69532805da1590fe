//! The forest of clusters: the anchor of a cluster, the refinement of large
//! clusters into sub-clusters, and the numbering of the clusters.

use crate::cluster::{
    Cluster, ClusterConfig, ClusterEngine, centroid, mean_significance, row,
    significance_of, similarity_from,
};
use crate::cluster::agglomerate::{
    agglomerated, is_partition, lemma_agglomerated, lemma_members_singletons, members_of, node_ids,
    rows, singletons,
};
use crate::search::{SCALE, cosine};
use crate::storage::NodeHeader;
use crate::topk::{select_top, top_order};
use vstd::prelude::*;

verus! {

/// What decides the anchor of a cluster with centroid `center`: ninety times
/// the sum of seven tenths of the similarity of node `id` to the centroid and
/// three tenths of a ninth of its significance, in units of `1 / SCALE`.
pub open spec fn anchor_weight(
    embeddings: Seq<Vec<i16>>,
    headers: Seq<NodeHeader>,
    center: Seq<i16>,
    id: u64,
) -> int {
    63 * cosine(row(embeddings, id), center) + 3 * SCALE * significance_of(headers, id)
}

/// The anchor weight of each member, in the order of the members.
pub open spec fn anchor_weights(
    members: Seq<u64>,
    embeddings: Seq<Vec<i16>>,
    headers: Seq<NodeHeader>,
) -> Seq<i128> {
    Seq::new(
        members.len(),
        |p: int|
            anchor_weight(embeddings, headers, centroid(members, embeddings), members[p]) as i128,
    )
}

/// The anchor of a cluster: the member of the highest anchor weight, the
/// first of them where several have it; zero where there is no member.
pub open spec fn anchor(
    members: Seq<u64>,
    embeddings: Seq<Vec<i16>>,
    headers: Seq<NodeHeader>,
) -> u64 {
    if members.len() == 0 {
        0
    } else {
        members[top_order(anchor_weights(members, embeddings, headers), 1)[0] as int]
    }
}

/// The number of parts that a cluster of `size` members is split into: the
/// size divided by `min_cluster_size`, but at least two and at most five;
/// five where `min_cluster_size` is zero.
pub open spec fn split_count(size: nat, min_cluster_size: nat) -> nat {
    if min_cluster_size == 0 {
        5
    } else {
        let q = size / min_cluster_size;
        if q < 2 {
            2
        } else if q > 5 {
            5
        } else {
            q
        }
    }
}

/// The number of clusters of a tree.
pub open spec fn tree_size(c: Cluster) -> nat
    decreases c,
{
    1 + forest_size(c.sub_clusters@)
}

/// The number of clusters of a forest, at all depths.
pub open spec fn forest_size(forest: Seq<Cluster>) -> nat
    decreases forest,
{
    if forest.len() == 0 {
        0
    } else {
        forest_size(forest.drop_last()) + tree_size(forest.last())
    }
}

/// The id that follows `count` ids after `first`: ids are counted modulo
/// `2^64`.
pub open spec fn id_after(first: u64, count: nat) -> u64 {
    ((first + count) % 0x1_0000_0000_0000_0000) as u64
}

/// Whether `c` is the cluster of `members` at `depth`, numbered from `id`:
/// its anchor, centroid and significance are those of the members, and
/// where it has more than `max_cluster_size` members and lies above
/// `max_depth`, its sub-clusters are the forest of the clusters that
/// its members agglomerate to; else it has none.
pub open spec fn is_cluster_of(
    c: Cluster,
    members: Seq<u64>,
    embeddings: Seq<Vec<i16>>,
    headers: Seq<NodeHeader>,
    config: ClusterConfig,
    id: u64,
    depth: nat,
) -> bool
    decreases c, 0nat,
{
    &&& c.id == id
    &&& c.member_ids@ == members
    &&& c.anchor_node_id == anchor(members, embeddings, headers)
    &&& c.centroid@ == centroid(members, embeddings)
    &&& c.significance == mean_significance(members, headers)
    &&& c.depth == depth
    &&& if members.len() > config.max_cluster_size && depth < config.max_depth {
        is_forest_of(
            c.sub_clusters@,
            agglomerated(
                singletons(members),
                embeddings,
                split_count(members.len(), config.min_cluster_size as nat),
            ),
            embeddings,
            headers,
            config,
            id_after(id, 1),
            depth + 1,
        )
    } else {
        c.sub_clusters@.len() == 0
    }
}

/// Whether `forest` holds, in order, the cluster of each member list of
/// `flat` that is not empty, numbered in sequence from `first_id`: a cluster
/// comes before its sub-clusters, and they before the cluster that follows it.
pub open spec fn is_forest_of(
    forest: Seq<Cluster>,
    flat: Seq<Seq<u64>>,
    embeddings: Seq<Vec<i16>>,
    headers: Seq<NodeHeader>,
    config: ClusterConfig,
    first_id: u64,
    depth: nat,
) -> bool
    decreases forest, flat.len(),
{
    if flat.len() == 0 {
        forest.len() == 0
    } else if flat.last().len() == 0 {
        is_forest_of(forest, flat.drop_last(), embeddings, headers, config, first_id, depth)
    } else {
        &&& forest.len() > 0
        &&& is_forest_of(
            forest.drop_last(),
            flat.drop_last(),
            embeddings,
            headers,
            config,
            first_id,
            depth,
        )
        &&& is_cluster_of(
            forest.last(),
            flat.last(),
            embeddings,
            headers,
            config,
            id_after(first_id, forest_size(forest.drop_last())),
            depth,
        )
    }
}

/// Counting on from an id, in two steps or in one, ends at the same id.
pub proof fn lemma_id_after_twice(first: u64, a: nat, b: nat)
    ensures
        id_after(id_after(first, a), b) == id_after(first, a + b),
{
    vstd::arithmetic::div_mod::lemma_add_mod_noop(
        first + a,
        b as int,
        0x1_0000_0000_0000_0000,
    );
    vstd::arithmetic::div_mod::lemma_mod_bound((first + a) as int, 0x1_0000_0000_0000_0000);
    vstd::arithmetic::div_mod::lemma_mod_bound(
        (first + a + b) as int,
        0x1_0000_0000_0000_0000,
    );
    let m = 0x1_0000_0000_0000_0000int;
    let x = ((first + a) % m) as int;
    vstd::arithmetic::div_mod::lemma_mod_bound(x + b, m);
    vstd::arithmetic::div_mod::lemma_small_mod((b % m as nat) as nat, m as nat);
    vstd::arithmetic::div_mod::lemma_mod_twice(b as int, m);
    vstd::arithmetic::div_mod::lemma_add_mod_noop(x, b as int, m);
    vstd::arithmetic::div_mod::lemma_mod_twice((first + a) as int, m);
}

/// A cluster whose fields are those of its members, and whose sub-clusters
/// are the forest of its parts or are none, is the cluster of its members.
pub proof fn lemma_cluster_made(
    made: Cluster,
    members: Seq<u64>,
    embeddings: Seq<Vec<i16>>,
    headers: Seq<NodeHeader>,
    config: ClusterConfig,
    id: u64,
    depth: nat,
)
    requires
        made.id == id,
        made.member_ids@ == members,
        made.anchor_node_id == anchor(members, embeddings, headers),
        made.centroid@ == centroid(members, embeddings),
        made.significance == mean_significance(members, headers),
        made.depth == depth,
        members.len() > config.max_cluster_size && depth < config.max_depth ==> is_forest_of(
            made.sub_clusters@,
            agglomerated(
                singletons(members),
                embeddings,
                split_count(members.len(), config.min_cluster_size as nat),
            ),
            embeddings,
            headers,
            config,
            id_after(id, 1),
            depth + 1,
        ),
        !(members.len() > config.max_cluster_size && depth < config.max_depth)
            ==> made.sub_clusters@.len() == 0,
    ensures
        is_cluster_of(made, members, embeddings, headers, config, id, depth),
{
}

/// A forest grows by the cluster of one more member list.
pub proof fn lemma_forest_grows(
    forest: Seq<Cluster>,
    flat: Seq<Seq<u64>>,
    members: Seq<u64>,
    made: Cluster,
    embeddings: Seq<Vec<i16>>,
    headers: Seq<NodeHeader>,
    config: ClusterConfig,
    first_id: u64,
    depth: nat,
)
    requires
        is_forest_of(forest, flat, embeddings, headers, config, first_id, depth),
        members.len() > 0,
        is_cluster_of(
            made,
            members,
            embeddings,
            headers,
            config,
            id_after(first_id, forest_size(forest)),
            depth,
        ),
    ensures
        is_forest_of(
            forest.push(made),
            flat.push(members),
            embeddings,
            headers,
            config,
            first_id,
            depth,
        ),
        forest_size(forest.push(made)) == forest_size(forest) + tree_size(made),
        id_after(id_after(first_id, forest_size(forest)), tree_size(made)) == id_after(
            first_id,
            forest_size(forest.push(made)),
        ),
{
    let grown = forest.push(made);
    let lists = flat.push(members);
    assert(grown.drop_last() =~= forest);
    assert(lists.drop_last() =~= flat);
    assert(grown.last() == made);
    assert(lists.last() == members);
    assert(forest_size(grown) == forest_size(grown.drop_last()) + tree_size(grown.last()));
    lemma_id_after_twice(first_id, forest_size(forest), tree_size(made));
}

/// An empty member list adds nothing to a forest.
pub proof fn lemma_forest_skips(
    forest: Seq<Cluster>,
    flat: Seq<Seq<u64>>,
    embeddings: Seq<Vec<i16>>,
    headers: Seq<NodeHeader>,
    config: ClusterConfig,
    first_id: u64,
    depth: nat,
)
    requires
        is_forest_of(forest, flat, embeddings, headers, config, first_id, depth),
    ensures
        is_forest_of(
            forest,
            flat.push(Seq::empty()),
            embeddings,
            headers,
            config,
            first_id,
            depth,
        ),
{
    assert(flat.push(Seq::<u64>::empty()).drop_last() =~= flat);
}

/// The member lists of the clusters of a forest, in order.
pub open spec fn member_lists(forest: Seq<Cluster>) -> Seq<Seq<u64>> {
    Seq::new(forest.len(), |i: int| forest[i].member_ids@)
}

/// A forest of member lists of which none is empty has one cluster for each.
pub proof fn lemma_forest_members(
    forest: Seq<Cluster>,
    flat: Seq<Seq<u64>>,
    embeddings: Seq<Vec<i16>>,
    headers: Seq<NodeHeader>,
    config: ClusterConfig,
    first_id: u64,
    depth: nat,
)
    requires
        is_forest_of(forest, flat, embeddings, headers, config, first_id, depth),
        forall|c: int| 0 <= c < flat.len() ==> (#[trigger] flat[c]).len() > 0,
    ensures
        member_lists(forest) =~= flat,
    decreases flat.len(),
{
    if flat.len() > 0 {
        assert(flat.last().len() > 0);
        assert forall|c: int| 0 <= c < flat.drop_last().len() implies (
        #[trigger] flat.drop_last()[c]).len() > 0 by {
            assert(flat.drop_last()[c] == flat[c]);
        }
        lemma_forest_members(
            forest.drop_last(),
            flat.drop_last(),
            embeddings,
            headers,
            config,
            first_id,
            depth,
        );
        assert(member_lists(forest).len() == flat.len());
        assert(is_cluster_of(
            forest.last(),
            flat.last(),
            embeddings,
            headers,
            config,
            id_after(first_id, forest_size(forest.drop_last())),
            depth,
        ));
        assert(forest.last().member_ids@ == flat.last());
        assert(member_lists(forest.drop_last()).len() == flat.drop_last().len());
        assert forall|c: int| 0 <= c < flat.len() implies member_lists(forest)[c] == flat[c] by {
            if c < flat.len() - 1 {
                assert(member_lists(forest.drop_last())[c] == flat.drop_last()[c]);
                assert(forest.drop_last()[c] == forest[c]);
            } else {
                assert(forest[c] == forest.last());
            }
        }
    }
}

impl ClusterEngine {
    /// The anchor of a cluster: the member that is closest to the centroid
    /// and most significant, by `anchor_weight`; the first such member where
    /// several weigh the same, and zero where there is no member.
    pub fn find_cluster_anchor(
        &self,
        members: &[u64],
        embeddings: &[Vec<i16>],
        headers: &[NodeHeader],
    ) -> (r: u64)
        ensures
            r == anchor(members@, embeddings@, headers@),
            members.len() > 0 ==> members@.contains(r),
    {
        let n: usize = members.len();
        if n == 0 {
            return 0;
        }
        let center: Vec<i16> = self.calculate_centroid(members, embeddings);
        let mut weights: Vec<i128> = Vec::new();
        let mut p: usize = 0;
        while p < n
            invariant
                p <= n,
                n == members.len(),
                weights.len() == p,
                center@ == centroid(members@, embeddings@),
                forall|q: int|
                    0 <= q < p ==> weights[q] == anchor_weights(members@, embeddings@, headers@)[q],
            decreases n - p,
        {
            let id: u64 = members[p];
            let sim: i64 = similarity_from(center.as_slice(), embeddings, id);
            let sig: i128 = if id < headers.len() as u64 {
                headers[id as usize].significance as i128
            } else {
                0
            };
            weights.push(63 * (sim as i128) + 3_000_000 * sig);
            p += 1;
        }
        assert(weights@ =~= anchor_weights(members@, embeddings@, headers@));
        let order: Vec<usize> = select_top(&weights, 1);
        members[order[0]]
    }

    /// The forest of the member lists `flat_clusters` at `depth`: one cluster
    /// for each list that is not empty, with its anchor, centroid and mean
    /// significance. A cluster of more than `max_cluster_size` members that
    /// lies above `max_depth` is clustered again, into `split_count` parts,
    /// which become its sub-clusters. Ids are taken from
    /// `cluster_id_counter`, one after the other.
    pub fn build_cluster_hierarchy(
        &self,
        flat_clusters: Vec<Vec<u64>>,
        embeddings: &[Vec<i16>],
        headers: &[NodeHeader],
        cluster_id_counter: &mut u64,
        depth: usize,
    ) -> (r: Vec<Cluster>)
        ensures
            is_forest_of(
                r@,
                rows(flat_clusters@),
                embeddings@,
                headers@,
                self.limits(),
                *old(cluster_id_counter),
                depth as nat,
            ),
            *final(cluster_id_counter) == id_after(*old(cluster_id_counter), forest_size(r@)),
        decreases self.limits().max_depth - depth, 1nat,
    {
        let ghost first_id: u64 = *cluster_id_counter;
        let ghost flat = rows(flat_clusters@);
        let count: usize = flat_clusters.len();
        let mut result: Vec<Cluster> = Vec::new();
        let mut i: usize = 0;
        assert(flat.take(0) =~= Seq::<Seq<u64>>::empty());
        while i < count
            invariant
                i <= count,
                count == flat_clusters.len(),
                flat == rows(flat_clusters@),
                is_forest_of(
                    result@,
                    flat.take(i as int),
                    embeddings@,
                    headers@,
                    self.limits(),
                    first_id,
                    depth as nat,
                ),
                *cluster_id_counter == id_after(first_id, forest_size(result@)),
            decreases count - i,
        {
            let members: Vec<u64> = flat_clusters[i].clone();
            let ghost before = result@;
            let ghost list = members@;
            assert(list == flat[i as int]);
            assert(flat.take(i + 1) =~= flat.take(i as int).push(list));
            if members.len() > 0 {
                let made: Cluster = self.build_cluster(
                    members,
                    embeddings,
                    headers,
                    cluster_id_counter,
                    depth,
                );
                proof {
                    lemma_forest_grows(
                        before,
                        flat.take(i as int),
                        list,
                        made,
                        embeddings@,
                        headers@,
                        self.limits(),
                        first_id,
                        depth as nat,
                    );
                }
                result.push(made);
            } else {
                proof {
                    assert(members@ =~= Seq::<u64>::empty());
                    lemma_forest_skips(
                        before,
                        flat.take(i as int),
                        embeddings@,
                        headers@,
                        self.limits(),
                        first_id,
                        depth as nat,
                    );
                }
            }
            i += 1;
        }
        assert(flat.take(count as int) =~= flat);
        result
    }

    /// The cluster of `members` at `depth`, with the id that
    /// `cluster_id_counter` holds; its sub-clusters take the ids that follow.
    pub fn build_cluster(
        &self,
        members: Vec<u64>,
        embeddings: &[Vec<i16>],
        headers: &[NodeHeader],
        cluster_id_counter: &mut u64,
        depth: usize,
    ) -> (r: Cluster)
        ensures
            is_cluster_of(
                r,
                members@,
                embeddings@,
                headers@,
                self.limits(),
                *old(cluster_id_counter),
                depth as nat,
            ),
            *final(cluster_id_counter) == id_after(*old(cluster_id_counter), tree_size(r)),
        decreases self.limits().max_depth - depth, 0nat,
    {
        let id: u64 = *cluster_id_counter;
        let ghost list = members@;
        *cluster_id_counter = if id == u64::MAX {
            0
        } else {
            id + 1
        };
        assert(*cluster_id_counter == id_after(id, 1));
        let anchor_node_id: u64 = self.find_cluster_anchor(members.as_slice(), embeddings, headers);
        let center: Vec<i16> = self.calculate_centroid(members.as_slice(), embeddings);
        let significance: i64 = self.average_significance(members.as_slice(), headers);
        let mut sub_clusters: Vec<Cluster> = Vec::new();
        let refine: bool = members.len() > self.config().max_cluster_size && depth
            < self.config().max_depth;
        if refine {
            let sub_k: usize = self.parts_of(members.len());
            let sub_flat: Vec<Vec<u64>> = self.agglomerative_cluster_subset(
                members.as_slice(),
                embeddings,
                sub_k,
            );
            sub_clusters =
            self.build_cluster_hierarchy(
                sub_flat,
                embeddings,
                headers,
                cluster_id_counter,
                depth + 1,
            );
        }
        let ghost kids = sub_clusters@;
        proof {
            lemma_id_after_twice(id, 1, forest_size(kids));
        }
        let made: Cluster = Cluster {
            id,
            anchor_node_id,
            member_ids: members,
            centroid: center,
            significance,
            sub_clusters,
            depth,
        };
        proof {
            assert(made.sub_clusters@ == kids);
            assert(made.member_ids@ == list);
            assert(tree_size(made) == 1 + forest_size(kids));
            if refine {
                assert(is_forest_of(
                    kids,
                    agglomerated(
                        singletons(list),
                        embeddings@,
                        split_count(list.len(), self.limits().min_cluster_size as nat),
                    ),
                    embeddings@,
                    headers@,
                    self.limits(),
                    id_after(id, 1),
                    (depth + 1) as nat,
                ));
            } else {
                assert(kids.len() == 0);
                assert(forest_size(kids) == 0);
            }
            lemma_cluster_made(
                made,
                list,
                embeddings@,
                headers@,
                self.limits(),
                id,
                depth as nat,
            );
        }
        made
    }

    /// The number of parts that a cluster of `size` members is split into.
    pub fn parts_of(&self, size: usize) -> (r: usize)
        ensures
            r == split_count(size as nat, self.limits().min_cluster_size as nat),
            2 <= r <= 5,
    {
        if self.config().min_cluster_size == 0 {
            5
        } else {
            let q: usize = size / self.config().min_cluster_size;
            if q < 2 {
                2
            } else if q > 5 {
                5
            } else {
                q
            }
        }
    }

    /// Clusters a whole corpus into a forest: agglomerates its nodes to
    /// `k_clusters` clusters, which become the roots, and refines each root
    /// that is too large. The roots hold every node of the corpus once. The
    /// adjacency lists do not enter.
    pub fn cluster_graph(
        &self,
        headers: &[NodeHeader],
        embeddings: &[Vec<i16>],
        _edge_list: &[Vec<u64>],
        k_clusters: usize,
    ) -> (r: Vec<Cluster>)
        ensures
            is_forest_of(
                r@,
                agglomerated(
                    singletons(node_ids(embeddings.len() as nat)),
                    embeddings@,
                    k_clusters as nat,
                ),
                embeddings@,
                headers@,
                self.limits(),
                0,
                0,
            ),
            member_lists(r@) == agglomerated(
                singletons(node_ids(embeddings.len() as nat)),
                embeddings@,
                k_clusters as nat,
            ),
            is_partition(member_lists(r@), embeddings.len() as nat),
            1 <= k_clusters <= embeddings.len() ==> r.len() == k_clusters,
            embeddings.len() <= k_clusters ==> r.len() == embeddings.len(),
            forall|i: int|
                0 <= i < r.len() ==> (#[trigger] r[i]).depth == 0 && r[i].member_ids@.len() > 0,
    {
        let flat_clusters: Vec<Vec<u64>> = self.agglomerative_cluster(embeddings, k_clusters);
        let ghost flat = rows(flat_clusters@);
        let mut cluster_id_counter: u64 = 0;
        let r: Vec<Cluster> = self.build_cluster_hierarchy(
            flat_clusters,
            embeddings,
            headers,
            &mut cluster_id_counter,
            0,
        );
        proof {
            lemma_forest_members(r@, flat, embeddings@, headers@, self.limits(), 0, 0);
            assert forall|i: int| 0 <= i < r.len() implies (#[trigger] r[i]).depth == 0
                && r[i].member_ids@.len() > 0 by {
                let found = lemma_forest_source(
                    r@,
                    flat,
                    embeddings@,
                    headers@,
                    self.limits(),
                    0,
                    0,
                    i,
                );
                assert(member_lists(r@)[i] == r[i].member_ids@);
            }
        }
        r
    }
}

/// Whether, in the tree of `c`, each sub-cluster lies one level below its
/// parent and holds only members of its parent.
pub open spec fn is_nested(c: Cluster) -> bool
    decreases c,
{
    forall|i: int|
        0 <= i < c.sub_clusters@.len() ==> {
            let child = #[trigger] c.sub_clusters@[i];
            &&& forall|x: u64| child.member_ids@.contains(x) ==> c.member_ids@.contains(x)
            &&& child.member_ids@.len() > 0
            &&& child.depth == c.depth + 1
            &&& is_nested(child)
        }
}

/// Whether no cluster of the tree of `c` lies deeper than `limit`.
pub open spec fn within_depth(c: Cluster, limit: nat) -> bool
    decreases c,
{
    &&& c.depth <= limit
    &&& forall|i: int|
        0 <= i < c.sub_clusters@.len() ==> within_depth(#[trigger] c.sub_clusters@[i], limit)
}

/// A member of a cluster is among the members of all clusters.
pub proof fn lemma_member_counted(clusters: Seq<Seq<u64>>, c: int, x: u64)
    requires
        0 <= c < clusters.len(),
        clusters[c].contains(x),
    ensures
        members_of(clusters).count(x) > 0,
    decreases clusters.len(),
{
    broadcast use vstd::multiset::group_multiset_axioms;

    if c == clusters.len() - 1 {
        vstd::seq_lib::to_multiset_contains(clusters.last(), x);
    } else {
        lemma_member_counted(clusters.drop_last(), c, x);
    }
}

/// Each cluster of a forest is the cluster of one of the member lists that
/// the forest was built of.
pub proof fn lemma_forest_source(
    forest: Seq<Cluster>,
    flat: Seq<Seq<u64>>,
    embeddings: Seq<Vec<i16>>,
    headers: Seq<NodeHeader>,
    config: ClusterConfig,
    first_id: u64,
    depth: nat,
    i: int,
) -> (found: (int, u64))
    requires
        is_forest_of(forest, flat, embeddings, headers, config, first_id, depth),
        0 <= i < forest.len(),
    ensures
        0 <= found.0 < flat.len(),
        is_cluster_of(forest[i], flat[found.0], embeddings, headers, config, found.1, depth),
    decreases flat.len(),
{
    if flat.last().len() == 0 {
        let found = lemma_forest_source(
            forest,
            flat.drop_last(),
            embeddings,
            headers,
            config,
            first_id,
            depth,
            i,
        );
        assert(flat.drop_last()[found.0] == flat[found.0]);
        found
    } else if i == forest.len() - 1 {
        (flat.len() - 1, id_after(first_id, forest_size(forest.drop_last())))
    } else {
        let found = lemma_forest_source(
            forest.drop_last(),
            flat.drop_last(),
            embeddings,
            headers,
            config,
            first_id,
            depth,
            i,
        );
        assert(flat.drop_last()[found.0] == flat[found.0]);
        assert(forest.drop_last()[i] == forest[i]);
        found
    }
}

/// In the cluster of a list of members, each sub-cluster lies one level
/// below its parent and holds only members of its parent; and where the
/// cluster does not lie deeper than `max_depth`, nor does any cluster below
/// it.
pub proof fn lemma_cluster_nested(
    c: Cluster,
    members: Seq<u64>,
    embeddings: Seq<Vec<i16>>,
    headers: Seq<NodeHeader>,
    config: ClusterConfig,
    id: u64,
    depth: nat,
)
    requires
        is_cluster_of(c, members, embeddings, headers, config, id, depth),
    ensures
        is_nested(c),
        depth <= config.max_depth ==> within_depth(c, config.max_depth as nat),
    decreases c,
{
    if members.len() > config.max_cluster_size && depth < config.max_depth {
        let parts = split_count(members.len(), config.min_cluster_size as nat);
        let flat = agglomerated(singletons(members), embeddings, parts);
        lemma_agglomerated(singletons(members), embeddings, parts);
        lemma_members_singletons(members);
        assert forall|j: int| 0 <= j < singletons(members).len() implies (
        #[trigger] singletons(members)[j]).len() > 0 by {
            assert(singletons(members)[j] == seq![members[j]]);
        }
        assert forall|i: int| 0 <= i < c.sub_clusters@.len() implies {
            let child = #[trigger] c.sub_clusters@[i];
            &&& forall|x: u64| child.member_ids@.contains(x) ==> c.member_ids@.contains(x)
            &&& child.member_ids@.len() > 0
            &&& child.depth == c.depth + 1
            &&& is_nested(child)
            &&& within_depth(child, config.max_depth as nat)
        } by {
            let child = c.sub_clusters@[i];
            let found = lemma_forest_source(
                c.sub_clusters@,
                flat,
                embeddings,
                headers,
                config,
                id_after(id, 1),
                depth + 1,
                i,
            );
            lemma_cluster_nested(
                child,
                flat[found.0],
                embeddings,
                headers,
                config,
                found.1,
                depth + 1,
            );
            assert(flat[found.0].len() > 0);
            assert forall|x: u64| child.member_ids@.contains(x) implies c.member_ids@.contains(
                x,
            ) by {
                lemma_member_counted(flat, found.0, x);
                vstd::seq_lib::to_multiset_contains(members, x);
            }
        }
    }
}

/// The ids of the clusters of a tree: that of the cluster, then those of
/// its sub-clusters.
pub open spec fn tree_ids(c: Cluster) -> Seq<u64>
    decreases c,
{
    seq![c.id] + forest_ids(c.sub_clusters@)
}

/// The ids of the clusters of a forest, one tree after the other.
pub open spec fn forest_ids(forest: Seq<Cluster>) -> Seq<u64>
    decreases forest,
{
    if forest.len() == 0 {
        Seq::empty()
    } else {
        forest_ids(forest.drop_last()) + tree_ids(forest.last())
    }
}

/// The `n` ids that follow one another from `first` on.
pub open spec fn ids_from(first: u64, n: nat) -> Seq<u64> {
    Seq::new(n, |t: int| id_after(first, t as nat))
}

/// Ids that follow one another, and those that follow them, follow one
/// another.
proof fn lemma_ids_joined(first: u64, a: nat, b: nat)
    ensures
        ids_from(first, a) + ids_from(id_after(first, a), b) =~= ids_from(first, a + b),
{
    let left = ids_from(first, a) + ids_from(id_after(first, a), b);
    let right = ids_from(first, a + b);
    assert forall|t: int| 0 <= t < a + b implies left[t] == right[t] by {
        if t >= a {
            lemma_id_after_twice(first, a, (t - a) as nat);
        }
    }
}

/// The clusters of a forest have the ids from the first on, one after
/// the other, in the order of the forest and a cluster before its
/// sub-clusters.
pub proof fn lemma_forest_ids(
    forest: Seq<Cluster>,
    flat: Seq<Seq<u64>>,
    embeddings: Seq<Vec<i16>>,
    headers: Seq<NodeHeader>,
    config: ClusterConfig,
    first_id: u64,
    depth: nat,
)
    requires
        is_forest_of(forest, flat, embeddings, headers, config, first_id, depth),
    ensures
        forest_ids(forest) == ids_from(first_id, forest_size(forest)),
    decreases forest, flat.len(),
{
    if flat.len() == 0 {
        assert(forest_ids(forest) =~= ids_from(first_id, 0));
    } else if flat.last().len() == 0 {
        lemma_forest_ids(forest, flat.drop_last(), embeddings, headers, config, first_id, depth);
    } else {
        let front = forest.drop_last();
        let last = forest.last();
        lemma_forest_ids(front, flat.drop_last(), embeddings, headers, config, first_id, depth);
        lemma_cluster_ids(
            last,
            flat.last(),
            embeddings,
            headers,
            config,
            id_after(first_id, forest_size(front)),
            depth,
        );
        lemma_ids_joined(first_id, forest_size(front), tree_size(last));
    }
}

/// The clusters of the tree of a cluster have the ids from that of the
/// cluster on, one after the other.
pub proof fn lemma_cluster_ids(
    c: Cluster,
    members: Seq<u64>,
    embeddings: Seq<Vec<i16>>,
    headers: Seq<NodeHeader>,
    config: ClusterConfig,
    id: u64,
    depth: nat,
)
    requires
        is_cluster_of(c, members, embeddings, headers, config, id, depth),
    ensures
        tree_ids(c) == ids_from(id, tree_size(c)),
    decreases c, 0nat,
{
    let below = forest_size(c.sub_clusters@);
    if members.len() > config.max_cluster_size && depth < config.max_depth {
        lemma_forest_ids(
            c.sub_clusters@,
            agglomerated(
                singletons(members),
                embeddings,
                split_count(members.len(), config.min_cluster_size as nat),
            ),
            embeddings,
            headers,
            config,
            id_after(id, 1),
            depth + 1,
        );
    } else {
        assert(forest_ids(c.sub_clusters@) =~= ids_from(id_after(id, 1), 0));
    }
    assert(seq![c.id] =~= ids_from(id, 1));
    lemma_ids_joined(id, 1, below);
}

/// Ids that follow one another are all different, as long as there are at
/// most `2^64` of them.
pub proof fn lemma_ids_distinct(first: u64, n: nat)
    requires
        n <= 0x1_0000_0000_0000_0000,
    ensures
        ids_from(first, n).no_duplicates(),
{
    assert forall|a: int, b: int| 0 <= a < n && 0 <= b < n && a != b implies ids_from(first, n)[a]
        != ids_from(first, n)[b] by {
        let m = 0x1_0000_0000_0000_0000int;
        let x = first + a;
        let y = first + b;
        vstd::arithmetic::div_mod::lemma_fundamental_div_mod(x, m);
        vstd::arithmetic::div_mod::lemma_fundamental_div_mod(y, m);
        if x % m == y % m {
            let qx = x / m;
            let qy = y / m;
            assert(x - y == m * (qx - qy)) by (nonlinear_arith)
                requires
                    x == m * qx + x % m,
                    y == m * qy + y % m,
                    x % m == y % m,
            ;
            assert(false) by (nonlinear_arith)
                requires
                    x - y == m * (qx - qy),
                    -m < x - y < m,
                    x != y,
                    m > 0,
            ;
        }
    }
}

} // verus!
