//! Candidates from the cluster forest: the members of the clusters that
//! are most similar to the query.

use crate::cluster::{Cluster, holds_id};
use crate::ranking::expand::{lemma_push_no_duplicates, with_id};
use crate::search::{cosine, cosine_similarity, lemma_cosine_range};
use crate::topk::{select_top, top_order};
use vstd::prelude::*;

verus! {

/// The similarity of `query` to the centroid of each cluster, in order.
pub open spec fn centroid_scores(query: Seq<i16>, clusters: Seq<Cluster>) -> Seq<i128> {
    Seq::new(clusters.len(), |i: int| cosine(query, clusters[i].centroid@) as i128)
}

/// The candidates after the members of a cluster have been added one by
/// one: a member is added only while there are fewer than `limit`
/// candidates.
pub open spec fn collect_members(acc: Seq<u64>, members: Seq<u64>, limit: nat) -> Seq<u64>
    decreases members.len(),
{
    if members.len() == 0 || acc.len() >= limit {
        acc
    } else {
        collect_members(with_id(acc, members[0]), members.drop_first(), limit)
    }
}

/// The candidates after the tree of cluster `c`, which is at similarity
/// `score` to the query, has been collected: its members, and, where there
/// are still fewer than `limit` candidates and `score` is above one half,
/// what its two best sub-clusters give that are at a similarity above
/// `0.45`.
pub open spec fn collect_tree(
    acc: Seq<u64>,
    c: Cluster,
    query: Seq<i16>,
    score: int,
    limit: nat,
) -> Seq<u64>
    decreases c, 0nat,
{
    let grown = collect_members(acc, c.member_ids@, limit);
    if grown.len() >= limit || score <= 500_000 || c.sub_clusters@.len() == 0 {
        grown
    } else {
        let scores = centroid_scores(query, c.sub_clusters@);
        collect_ranked(
            grown,
            c.sub_clusters@,
            query,
            scores,
            top_order(scores, 2),
            450_000,
            limit,
            0,
        )
    }
}

/// The candidates after the clusters at the positions `order`, from entry
/// `from` on, have been gone through: each that is at a similarity above
/// `threshold` has its tree collected, as long as there are fewer than
/// `limit` candidates.
pub open spec fn collect_ranked(
    acc: Seq<u64>,
    clusters: Seq<Cluster>,
    query: Seq<i16>,
    scores: Seq<i128>,
    order: Seq<usize>,
    threshold: int,
    limit: nat,
    from: nat,
) -> Seq<u64>
    decreases clusters, order.len() - from,
{
    if from >= order.len() || acc.len() >= limit {
        acc
    } else {
        let pos = order[from as int] as int;
        if pos < clusters.len() && scores[pos] > threshold {
            collect_ranked(
                collect_tree(acc, clusters[pos], query, scores[pos] as int, limit),
                clusters,
                query,
                scores,
                order,
                threshold,
                limit,
                from + 1,
            )
        } else {
            collect_ranked(acc, clusters, query, scores, order, threshold, limit, from + 1)
        }
    }
}

/// The candidates that a forest gives for a query: what the three roots
/// give that are most similar to the query, each only if its similarity is
/// above `0.4`; at most `limit` candidates.
pub open spec fn candidates(clusters: Seq<Cluster>, query: Seq<i16>, limit: nat) -> Seq<u64> {
    let scores = centroid_scores(query, clusters);
    collect_ranked(
        Seq::empty(),
        clusters,
        query,
        scores,
        top_order(scores, 3),
        400_000,
        limit,
        0,
    )
}

/// The similarity of `query` to the centroid of each cluster, in order.
pub fn score_centroids(query: &[i16], clusters: &[Cluster]) -> (scores: Vec<i128>)
    ensures
        scores@ == centroid_scores(query@, clusters@),
{
    let n: usize = clusters.len();
    let mut scores: Vec<i128> = Vec::new();
    let mut i: usize = 0;
    while i < n
        invariant
            i <= n,
            n == clusters.len(),
            scores.len() == i,
            forall|j: int| 0 <= j < i ==> scores[j] == centroid_scores(query@, clusters@)[j],
        decreases n - i,
    {
        let sim: i64 = cosine_similarity(query, clusters[i].centroid.as_slice());
        scores.push(sim as i128);
        i += 1;
    }
    assert(scores@ =~= centroid_scores(query@, clusters@));
    scores
}

/// Adds the members of a cluster to the candidates, one by one, as long as
/// there are fewer than `limit` candidates.
pub fn add_members(candidates: &mut Vec<u64>, members: &[u64], limit: usize)
    ensures
        final(candidates)@ == collect_members(old(candidates)@, members@, limit as nat),
        old(candidates)@.no_duplicates() ==> final(candidates)@.no_duplicates(),
        old(candidates).len() <= limit ==> final(candidates).len() <= limit,
{
    let n: usize = members.len();
    let ghost first = candidates@;
    let mut i: usize = 0;
    assert(members@.skip(0) =~= members@);
    while i < n && candidates.len() < limit
        invariant
            i <= n,
            n == members.len(),
            first == old(candidates)@,
            collect_members(first, members@, limit as nat) == collect_members(
                candidates@,
                members@.skip(i as int),
                limit as nat,
            ),
            first.no_duplicates() ==> candidates@.no_duplicates(),
            first.len() <= limit ==> candidates.len() <= limit,
        decreases n - i,
    {
        let id: u64 = members[i];
        let ghost before = candidates@;
        assert(members@.skip(i as int)[0] == id);
        assert(members@.skip(i as int).drop_first() =~= members@.skip(i + 1));
        if !holds_id(candidates.as_slice(), id) {
            candidates.push(id);
            proof {
                if before.no_duplicates() {
                    lemma_push_no_duplicates(before, id);
                }
            }
        }
        assert(candidates@ == with_id(before, id));
        i += 1;
    }
    assert(members@.skip(n as int) =~= Seq::<u64>::empty());
}

/// Collects the tree of `cluster`, which is at similarity `parent_score` to
/// the query, into the candidates: its members, and below a cluster of
/// similarity above one half its two most similar sub-clusters of similarity
/// above `0.45`, as long as there are fewer than `limit` candidates.
pub fn collect_recursive(
    cluster: &Cluster,
    query: &[i16],
    candidates: &mut Vec<u64>,
    parent_score: i64,
    limit: usize,
)
    ensures
        final(candidates)@ == collect_tree(
            old(candidates)@,
            *cluster,
            query@,
            parent_score as int,
            limit as nat,
        ),
        old(candidates)@.no_duplicates() ==> final(candidates)@.no_duplicates(),
        old(candidates).len() <= limit ==> final(candidates).len() <= limit,
    decreases cluster,
{
    add_members(candidates, cluster.member_ids.as_slice(), limit);
    if candidates.len() < limit && parent_score > 500_000 && cluster.sub_clusters.len() > 0 {
        let scores: Vec<i128> = score_centroids(query, cluster.sub_clusters.as_slice());
        let order: Vec<usize> = select_top(&scores, 2);
        collect_ordered(
            candidates,
            cluster.sub_clusters.as_slice(),
            query,
            &scores,
            &order,
            450_000,
            limit,
        );
    }
}

/// Goes through the clusters at the positions `order` and collects the tree
/// of each that is at a similarity above `threshold`, as long as there are
/// fewer than `limit` candidates.
pub fn collect_ordered(
    candidates: &mut Vec<u64>,
    clusters: &[Cluster],
    query: &[i16],
    scores: &Vec<i128>,
    order: &Vec<usize>,
    threshold: i64,
    limit: usize,
)
    requires
        scores@ == centroid_scores(query@, clusters@),
        forall|a: int| 0 <= a < order.len() ==> order[a] < clusters.len(),
    ensures
        final(candidates)@ == collect_ranked(
            old(candidates)@,
            clusters@,
            query@,
            scores@,
            order@,
            threshold as int,
            limit as nat,
            0,
        ),
        old(candidates)@.no_duplicates() ==> final(candidates)@.no_duplicates(),
        old(candidates).len() <= limit ==> final(candidates).len() <= limit,
    decreases clusters@,
{
    let n: usize = order.len();
    let ghost first = candidates@;
    let mut a: usize = 0;
    while a < n && candidates.len() < limit
        invariant
            a <= n,
            n == order.len(),
            first == old(candidates)@,
            scores@ == centroid_scores(query@, clusters@),
            forall|b: int| 0 <= b < order.len() ==> order[b] < clusters.len(),
            collect_ranked(
                first,
                clusters@,
                query@,
                scores@,
                order@,
                threshold as int,
                limit as nat,
                0,
            ) == collect_ranked(
                candidates@,
                clusters@,
                query@,
                scores@,
                order@,
                threshold as int,
                limit as nat,
                a as nat,
            ),
            first.no_duplicates() ==> candidates@.no_duplicates(),
            first.len() <= limit ==> candidates.len() <= limit,
        decreases n - a,
    {
        let pos: usize = order[a];
        proof {
            lemma_cosine_range(query@, clusters@[pos as int].centroid@);
        }
        let score: i64 = scores[pos] as i64;
        if score > threshold {
            collect_recursive(&clusters[pos], query, candidates, score, limit);
        }
        a += 1;
    }
}

/// The candidates that the forest `clusters` gives for a query, each once
/// and in the order in which they are met, and at most `max_candidates` of
/// them: the members of the three roots most similar to the query, each
/// root only if its similarity is above `0.4`; below a cluster of
/// similarity above one half, the members of its two most similar
/// sub-clusters, each only if its similarity is above `0.45`, and so on. A
/// member is added only while there are fewer than `max_candidates`
/// candidates.
pub fn find_cluster_candidates(clusters: &[Cluster], query_embedding: &[i16], max_candidates: usize) -> (r: Vec<u64>)
    ensures
        r@ == candidates(clusters@, query_embedding@, max_candidates as nat),
        r@.no_duplicates(),
        r.len() <= max_candidates,
{
    let mut found: Vec<u64> = Vec::new();
    let scores: Vec<i128> = score_centroids(query_embedding, clusters);
    let order: Vec<usize> = select_top(&scores, 3);
    collect_ordered(&mut found, clusters, query_embedding, &scores, &order, 400_000, max_candidates);
    found
}

} // verus!
