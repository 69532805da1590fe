//! Looking things up in a forest: the clusters that hold a node, the members
//! of a cluster nearest to a query, and the cohesion of a cluster.

use crate::cluster::{
    Cluster, ClusterEngine, holds_id, row, similarity, similarity_of, similarity_to,
};
use crate::fixed::Mean;
use crate::search::{SCALE, cosine, lemma_cosine_range};
use crate::topk::{is_top, select_top, top_order};
use vstd::prelude::*;

verus! {

/// The ids of the clusters of a forest that hold `node` and whose ancestors
/// all hold it: forest order, a cluster before its sub-clusters.
pub open spec fn found_clusters(forest: Seq<Cluster>, node: u64) -> Seq<u64>
    decreases forest,
{
    if forest.len() == 0 {
        Seq::empty()
    } else {
        let last = forest.last();
        found_clusters(forest.drop_last(), node) + found_under(last, node)
    }
}

/// What the tree of `c` adds to `found_clusters`: nothing where `c` does not
/// hold `node`; else its id, and what its sub-clusters add.
pub open spec fn found_under(c: Cluster, node: u64) -> Seq<u64>
    decreases c,
{
    if c.member_ids@.contains(node) {
        seq![c.id] + found_clusters(c.sub_clusters@, node)
    } else {
        Seq::empty()
    }
}

/// The cluster that `path` leads to: its first entry is a position in
/// `forest`, each further entry a position among the sub-clusters of the
/// cluster before.
pub open spec fn cluster_at(forest: Seq<Cluster>, path: Seq<int>) -> Cluster
    decreases path.len(),
{
    if path.len() <= 1 {
        forest[path[0]]
    } else {
        cluster_at(forest[path[0]].sub_clusters@, path.drop_first())
    }
}

/// Whether `path` leads through clusters of `forest` that all hold `node`.
pub open spec fn is_matched_path(forest: Seq<Cluster>, path: Seq<int>, node: u64) -> bool
    decreases path.len(),
{
    &&& path.len() >= 1
    &&& 0 <= path[0] < forest.len()
    &&& forest[path[0]].member_ids@.contains(node)
    &&& (path.len() == 1 || is_matched_path(
        forest[path[0]].sub_clusters@,
        path.drop_first(),
        node,
    ))
}

/// What two lists hold one after the other is what either holds.
proof fn lemma_contains_concat(a: Seq<u64>, b: Seq<u64>, x: u64)
    ensures
        (a + b).contains(x) <==> (a.contains(x) || b.contains(x)),
{
    if a.contains(x) {
        let i = choose|i: int| 0 <= i < a.len() && a[i] == x;
        assert((a + b)[i] == x);
    }
    if b.contains(x) {
        let i = choose|i: int| 0 <= i < b.len() && b[i] == x;
        assert((a + b)[a.len() + i] == x);
    }
    if (a + b).contains(x) {
        let i = choose|i: int| 0 <= i < (a + b).len() && (a + b)[i] == x;
        if i < a.len() {
            assert(a[i] == x);
        } else {
            assert(b[i - a.len()] == x);
        }
    }
}

/// What the tree of a cluster of a forest adds is found in the forest.
proof fn lemma_found_block(forest: Seq<Cluster>, c: int, node: u64, x: u64)
    requires
        0 <= c < forest.len(),
        found_under(forest[c], node).contains(x),
    ensures
        found_clusters(forest, node).contains(x),
    decreases forest.len(),
{
    lemma_contains_concat(
        found_clusters(forest.drop_last(), node),
        found_under(forest.last(), node),
        x,
    );
    if c < forest.len() - 1 {
        assert(forest.drop_last()[c] == forest[c]);
        lemma_found_block(forest.drop_last(), c, node, x);
    }
}

/// A path through clusters that hold the node ends at a cluster that holds it.
pub proof fn lemma_matched_path_holds(forest: Seq<Cluster>, path: Seq<int>, node: u64)
    requires
        is_matched_path(forest, path, node),
    ensures
        cluster_at(forest, path).member_ids@.contains(node),
    decreases path.len(),
{
    if path.len() > 1 {
        lemma_matched_path_holds(forest[path[0]].sub_clusters@, path.drop_first(), node);
    }
}

/// Every start of a path through clusters that hold the node is such a path.
pub proof fn lemma_matched_path_prefix(forest: Seq<Cluster>, path: Seq<int>, node: u64, k: int)
    requires
        is_matched_path(forest, path, node),
        1 <= k <= path.len(),
    ensures
        is_matched_path(forest, path.take(k), node),
    decreases path.len(),
{
    let head = path.take(k);
    assert(head[0] == path[0]);
    if k > 1 {
        lemma_matched_path_prefix(
            forest[path[0]].sub_clusters@,
            path.drop_first(),
            node,
            k - 1,
        );
        assert(head.drop_first() =~= path.drop_first().take(k - 1));
    }
}

/// The cluster at the end of a path through clusters that hold the node is
/// among the clusters found.
pub proof fn lemma_matched_path_found(forest: Seq<Cluster>, path: Seq<int>, node: u64)
    requires
        is_matched_path(forest, path, node),
    ensures
        found_clusters(forest, node).contains(cluster_at(forest, path).id),
    decreases path.len(),
{
    let c = forest[path[0]];
    let x = cluster_at(forest, path).id;
    let inner = found_clusters(c.sub_clusters@, node);
    lemma_contains_concat(seq![c.id], inner, x);
    if path.len() == 1 {
        assert(seq![c.id][0] == x);
    } else {
        lemma_matched_path_found(c.sub_clusters@, path.drop_first(), node);
    }
    lemma_found_block(forest, path[0], node, x);
}

/// Every cluster found is reached by a path through clusters that hold the
/// node.
pub proof fn lemma_found_has_path(forest: Seq<Cluster>, node: u64, x: u64) -> (path: Seq<int>)
    requires
        found_clusters(forest, node).contains(x),
    ensures
        is_matched_path(forest, path, node),
        cluster_at(forest, path).id == x,
    decreases forest,
{
    let last = forest.last();
    let front = forest.drop_last();
    lemma_contains_concat(found_clusters(front, node), found_under(last, node), x);
    if found_clusters(front, node).contains(x) {
        let path = lemma_found_has_path(front, node, x);
        lemma_path_in_longer_forest(front, forest, path, node);
        path
    } else {
        let inner = found_clusters(last.sub_clusters@, node);
        lemma_contains_concat(seq![last.id], inner, x);
        let here = forest.len() - 1;
        if inner.contains(x) {
            let below = lemma_found_has_path(last.sub_clusters@, node, x);
            let path = seq![here] + below;
            assert(path.drop_first() =~= below);
            assert(path[0] == here);
            path
        } else {
            let i = choose|i: int| 0 <= i < seq![last.id].len() && seq![last.id][i] == x;
            assert(last.id == x);
            let path = seq![here];
            assert(path[0] == here);
            path
        }
    }
}

/// A path through the start of a forest is a path through the forest.
proof fn lemma_path_in_longer_forest(
    front: Seq<Cluster>,
    forest: Seq<Cluster>,
    path: Seq<int>,
    node: u64,
)
    requires
        is_matched_path(front, path, node),
        front.len() <= forest.len(),
        forall|i: int| 0 <= i < front.len() ==> front[i] == forest[i],
    ensures
        is_matched_path(forest, path, node),
        cluster_at(forest, path) == cluster_at(front, path),
{
}

/// Every cluster found holds the node, and so does each of its ancestors,
/// which are found too.
pub proof fn lemma_found_with_ancestors(forest: Seq<Cluster>, node: u64, x: u64) -> (path: Seq<
    int,
>)
    requires
        found_clusters(forest, node).contains(x),
    ensures
        path.len() >= 1,
        cluster_at(forest, path).id == x,
        forall|k: int|
            1 <= k <= path.len() ==> (#[trigger] cluster_at(
                forest,
                path.take(k),
            )).member_ids@.contains(node),
        forall|k: int|
            1 <= k <= path.len() ==> found_clusters(forest, node).contains(
                (#[trigger] cluster_at(forest, path.take(k))).id,
            ),
{
    let path = lemma_found_has_path(forest, node, x);
    assert forall|k: int| 1 <= k <= path.len() implies (#[trigger] cluster_at(
        forest,
        path.take(k),
    )).member_ids@.contains(node) && found_clusters(forest, node).contains(
        cluster_at(forest, path.take(k)).id,
    ) by {
        lemma_matched_path_prefix(forest, path, node, k);
        lemma_matched_path_holds(forest, path.take(k), node);
        lemma_matched_path_found(forest, path.take(k), node);
    }
    path
}

/// Where among the clusters found the cluster stands that the path leads
/// to: behind what the trees before its root add, and, below the root,
/// behind the root and what the sub-clusters before it add.
pub open spec fn found_position(forest: Seq<Cluster>, path: Seq<int>, node: u64) -> int
    decreases path.len(),
{
    let start = found_clusters(forest.take(path[0]), node).len() as int;
    if path.len() <= 1 {
        start
    } else {
        start + 1 + found_position(forest[path[0]].sub_clusters@, path.drop_first(), node)
    }
}

/// What the first trees of a forest add stands at the start of what the
/// forest adds.
proof fn lemma_found_starts(forest: Seq<Cluster>, i: int, node: u64)
    requires
        0 <= i <= forest.len(),
    ensures
        found_clusters(forest.take(i), node).len() <= found_clusters(forest, node).len(),
        forall|t: int|
            0 <= t < found_clusters(forest.take(i), node).len() ==> found_clusters(
                forest,
                node,
            )[t] == found_clusters(forest.take(i), node)[t],
    decreases forest.len() - i,
{
    if i == forest.len() {
        assert(forest.take(i) =~= forest);
    } else {
        lemma_found_starts(forest, i + 1, node);
        let grown = forest.take(i + 1);
        assert(grown.drop_last() =~= forest.take(i));
        assert(found_clusters(grown, node) == found_clusters(grown.drop_last(), node)
            + found_under(grown.last(), node));
    }
}

/// The cluster at the end of a path through clusters that hold the node
/// stands among the clusters found at its position.
pub proof fn lemma_found_position(forest: Seq<Cluster>, path: Seq<int>, node: u64)
    requires
        is_matched_path(forest, path, node),
    ensures
        0 <= found_position(forest, path, node) < found_clusters(forest, node).len(),
        found_clusters(forest, node)[found_position(forest, path, node)] == cluster_at(
            forest,
            path,
        ).id,
    decreases path.len(),
{
    let i = path[0];
    let c = forest[i];
    let grown = forest.take(i + 1);
    let before = found_clusters(forest.take(i), node);
    let inner = found_clusters(c.sub_clusters@, node);
    assert(grown.drop_last() =~= forest.take(i));
    assert(grown.last() == c);
    assert(found_clusters(grown, node) == before + found_under(c, node));
    assert(found_under(c, node) == seq![c.id] + inner);
    lemma_found_starts(forest, i + 1, node);
    let pos = found_position(forest, path, node);
    if path.len() > 1 {
        lemma_found_position(c.sub_clusters@, path.drop_first(), node);
        let q = found_position(c.sub_clusters@, path.drop_first(), node);
        assert(pos == before.len() + 1 + q);
        assert((before + (seq![c.id] + inner))[pos] == inner[q]);
    } else {
        assert(pos == before.len());
        assert((before + (seq![c.id] + inner))[pos] == c.id);
    }
}

/// A cluster found stands behind each of its ancestors among the clusters
/// found.
pub proof fn lemma_ancestor_stands_before(forest: Seq<Cluster>, path: Seq<int>, node: u64, k: int)
    requires
        is_matched_path(forest, path, node),
        1 <= k < path.len(),
    ensures
        0 <= found_position(forest, path.take(k), node) < found_position(forest, path, node)
            < found_clusters(forest, node).len(),
        found_clusters(forest, node)[found_position(forest, path.take(k), node)] == cluster_at(
            forest,
            path.take(k),
        ).id,
        found_clusters(forest, node)[found_position(forest, path, node)] == cluster_at(
            forest,
            path,
        ).id,
    decreases path.len(),
{
    lemma_matched_path_prefix(forest, path, node, k);
    lemma_found_position(forest, path, node);
    lemma_found_position(forest, path.take(k), node);
    let head = path.take(k);
    assert(head[0] == path[0]);
    let below = forest[path[0]].sub_clusters@;
    if k > 1 {
        assert(head.drop_first() =~= path.drop_first().take(k - 1));
        lemma_ancestor_stands_before(below, path.drop_first(), node, k - 1);
    } else {
        lemma_found_position(below, path.drop_first(), node);
    }
}

/// The similarity of `query` to each member, in the order of the members.
pub open spec fn member_scores(
    query: Seq<i16>,
    members: Seq<u64>,
    embeddings: Seq<Vec<i16>>,
) -> Seq<i128> {
    Seq::new(members.len(), |p: int| cosine(query, row(embeddings, members[p])) as i128)
}

/// The members at the positions `order`, each with its score.
pub open spec fn ranked_members(members: Seq<u64>, scores: Seq<i128>, order: Seq<usize>) -> Seq<
    (u64, i64),
> {
    Seq::new(order.len(), |a: int| (members[order[a] as int], scores[order[a] as int] as i64))
}

/// The sum of the similarities of member `i` to the members after it and
/// before position `j`.
pub open spec fn upper_sum(members: Seq<u64>, embeddings: Seq<Vec<i16>>, i: int, j: int) -> int
    decreases j - i,
{
    if j <= i + 1 {
        0
    } else {
        upper_sum(members, embeddings, i, j - 1) + similarity_of(
            embeddings,
            members[i],
            members[j - 1],
        )
    }
}

/// The sum of the similarities of all pairs of members of which the first
/// stands before position `n`.
pub open spec fn cohesion_sum(members: Seq<u64>, embeddings: Seq<Vec<i16>>, n: nat) -> int
    decreases n,
{
    if n == 0 {
        0
    } else {
        cohesion_sum(members, embeddings, (n - 1) as nat) + upper_sum(
            members,
            embeddings,
            n - 1,
            members.len() as int,
        )
    }
}

/// The cohesion of a cluster: the mean similarity of its pairs of members,
/// rounded down; one where it has fewer than two members.
pub open spec fn cohesion(members: Seq<u64>, embeddings: Seq<Vec<i16>>) -> int {
    if members.len() <= 1 {
        SCALE as int
    } else {
        cohesion_sum(members, embeddings, members.len()) / ((members.len() * (members.len() - 1))
            / 2)
    }
}

impl ClusterEngine {
    /// The ids of the clusters that hold `node_id`: each root that holds it,
    /// followed by what its sub-clusters give in the same way. A cluster
    /// below one that does not hold the node is not looked at.
    pub fn find_node_clusters(&self, node_id: u64, clusters: &[Cluster]) -> (r: Vec<u64>)
        ensures
            r@ == found_clusters(clusters@, node_id),
        decreases clusters@,
    {
        let n: usize = clusters.len();
        let mut result: Vec<u64> = Vec::new();
        let mut i: usize = 0;
        assert(clusters@.take(0) =~= Seq::<Cluster>::empty());
        while i < n
            invariant
                i <= n,
                n == clusters.len(),
                result@ == found_clusters(clusters@.take(i as int), node_id),
            decreases n - i,
        {
            let cluster: &Cluster = &clusters[i];
            let ghost grown = clusters@.take(i + 1);
            assert(grown.drop_last() =~= clusters@.take(i as int));
            assert(grown.last() == *cluster);
            assert(found_clusters(grown, node_id) == found_clusters(grown.drop_last(), node_id)
                + found_under(grown.last(), node_id));
            if holds_id(cluster.member_ids.as_slice(), node_id) {
                result.push(cluster.id);
                let mut below: Vec<u64> = self.find_node_clusters(
                    node_id,
                    cluster.sub_clusters.as_slice(),
                );
                result.append(&mut below);
                assert(result@ =~= found_clusters(clusters@.take(i as int), node_id) + (seq![
                    cluster.id,
                ] + found_clusters(cluster.sub_clusters@, node_id)));
            } else {
                assert(result@ =~= found_clusters(clusters@.take(i as int), node_id)
                    + Seq::<u64>::empty());
            }
            i += 1;
        }
        assert(clusters@.take(n as int) =~= clusters@);
        result
    }

    /// The `k` members of `cluster` that are most similar to
    /// `query_embedding`, most similar first, each with its similarity. Of
    /// two members of equal similarity the one that stands earlier in the
    /// cluster comes first.
    pub fn cluster_search(
        &self,
        query_embedding: &[i16],
        cluster: &Cluster,
        embeddings: &[Vec<i16>],
        k: usize,
    ) -> (r: Vec<(u64, i64)>)
        ensures
            r@ == ranked_members(
                cluster.member_ids@,
                member_scores(query_embedding@, cluster.member_ids@, embeddings@),
                top_order(
                    member_scores(query_embedding@, cluster.member_ids@, embeddings@),
                    k as int,
                ),
            ),
            is_top(
                member_scores(query_embedding@, cluster.member_ids@, embeddings@),
                k as int,
                top_order(
                    member_scores(query_embedding@, cluster.member_ids@, embeddings@),
                    k as int,
                ),
            ),
            r.len() == if k <= cluster.member_ids.len() {
                k
            } else {
                cluster.member_ids.len()
            },
    {
        let n: usize = cluster.member_ids.len();
        let ghost wanted = member_scores(query_embedding@, cluster.member_ids@, embeddings@);
        let mut scores: Vec<i128> = Vec::new();
        let mut p: usize = 0;
        while p < n
            invariant
                p <= n,
                n == cluster.member_ids.len(),
                scores.len() == p,
                wanted == member_scores(query_embedding@, cluster.member_ids@, embeddings@),
                forall|q: int| 0 <= q < p ==> scores[q] == wanted[q],
            decreases n - p,
        {
            let sim: i64 = similarity_to(query_embedding, embeddings, cluster.member_ids[p]);
            scores.push(sim as i128);
            p += 1;
        }
        assert(scores@ =~= wanted);
        let order: Vec<usize> = select_top(&scores, k);
        let count: usize = order.len();
        let mut out: Vec<(u64, i64)> = Vec::new();
        let mut a: usize = 0;
        while a < count
            invariant
                a <= count,
                count == order.len(),
                out.len() == a,
                scores@ == wanted,
                wanted == member_scores(query_embedding@, cluster.member_ids@, embeddings@),
                n == cluster.member_ids.len(),
                is_top(scores@, k as int, order@),
                forall|b: int|
                    0 <= b < a ==> out[b] == ranked_members(
                        cluster.member_ids@,
                        wanted,
                        order@,
                    )[b],
            decreases count - a,
        {
            let pos: usize = order[a];
            proof {
                lemma_cosine_range(
                    query_embedding@,
                    row(embeddings@, cluster.member_ids@[pos as int]),
                );
            }
            out.push((cluster.member_ids[pos], scores[pos] as i64));
            a += 1;
        }
        assert(out@ =~= ranked_members(cluster.member_ids@, wanted, order@));
        out
    }

    /// The cohesion of `cluster`: the mean similarity of its pairs of
    /// members, rounded down; one for a cluster of fewer than two members.
    pub fn calculate_cohesion(&self, cluster: &Cluster, embeddings: &[Vec<i16>]) -> (r: i64)
        ensures
            r == cohesion(cluster.member_ids@, embeddings@),
            -SCALE <= r <= SCALE,
    {
        let m: usize = cluster.member_ids.len();
        if m <= 1 {
            return 1_000_000;
        }
        let ghost members = cluster.member_ids@;
        let size: u128 = m as u128;
        assert(2 <= size * (size - 1) <= 0xFFFF_FFFF_FFFF_FFFF * 0xFFFF_FFFF_FFFF_FFFF) by (nonlinear_arith)
            requires
                2 <= size <= 0xFFFF_FFFF_FFFF_FFFF,
        ;
        let pairs: u128 = (size * (size - 1)) / 2;
        let mut mean: Mean = Mean::new(pairs, 1_000_000);
        let mut i: usize = 0;
        proof {
            assert(0 * (2 * m - 0 - 1) == 0) by (nonlinear_arith);
        }
        while i < m
            invariant
                i <= m,
                m == cluster.member_ids.len(),
                m >= 2,
                members == cluster.member_ids@,
                mean.wf(),
                mean.of() == (m * (m - 1)) / 2,
                mean.limit() == SCALE,
                2 * mean.terms() == i * (2 * m - i - 1),
                mean.sum() == cohesion_sum(members, embeddings@, i as nat),
            decreases m - i,
        {
            let x: u64 = cluster.member_ids[i];
            let ghost row_start: int = mean.terms();
            let ghost before: int = mean.sum();
            let mut j: usize = i + 1;
            while j < m
                invariant
                    i < m,
                    i + 1 <= j <= m,
                    m == cluster.member_ids.len(),
                    members == cluster.member_ids@,
                    x == members[i as int],
                    mean.wf(),
                    mean.of() == (m * (m - 1)) / 2,
                    mean.limit() == SCALE,
                    mean.terms() == row_start + (j - i - 1),
                    2 * row_start == i * (2 * m - i - 1),
                    mean.sum() == before + upper_sum(members, embeddings@, i as int, j as int),
                decreases m - j,
            {
                let sim: i64 = similarity(embeddings, x, cluster.member_ids[j]);
                proof {
                    let t = i + 1;
                    let d = m - t;
                    assert(2 * (row_start + (j - i - 1)) + 2 <= m * (m - 1)) by (nonlinear_arith)
                        requires
                            2 * row_start == i * (2 * m - i - 1),
                            0 <= i,
                            i + 1 <= j,
                            j <= m - 1,
                            t == i + 1,
                            d == m - t,
                            d >= 1,
                    ;
                }
                mean.add(sim);
                j += 1;
            }
            proof {
                assert(2 * (row_start + (m - i - 1)) == (i + 1) * (2 * m - (i + 1) - 1)) by (nonlinear_arith)
                    requires
                        2 * row_start == i * (2 * m - i - 1),
                ;
            }
            i += 1;
        }
        mean.value()
    }
}

} // verus!
