//! Agglomerative clustering: merging the pair of clusters of the highest
//! average linkage, again and again.

use crate::cluster::ClusterEngine;
use crate::cluster::linkage::{SimilarityTable, average_linkage};
use vstd::multiset::Multiset;
use vstd::prelude::*;

verus! {

/// The member lists of a list of clusters.
pub open spec fn rows(clusters: Seq<Vec<u64>>) -> Seq<Seq<u64>> {
    Seq::new(clusters.len(), |i: int| clusters[i]@)
}

/// All members of all clusters, each as often as it occurs.
pub open spec fn members_of(clusters: Seq<Seq<u64>>) -> Multiset<u64>
    decreases clusters.len(),
{
    if clusters.len() == 0 {
        Multiset::empty()
    } else {
        members_of(clusters.drop_last()).add(clusters.last().to_multiset())
    }
}

/// Whether the pair `(x, y)` is met before the pair `(i, j)` when pairs are
/// gone through row by row.
pub open spec fn pair_before(x: int, y: int, i: int, j: int) -> bool {
    x < i || (x == i && y < j)
}

/// The average linkage of clusters `x` and `y` of a list.
pub open spec fn linkage(clusters: Seq<Seq<u64>>, embeddings: Seq<Vec<i16>>, x: int, y: int) -> int {
    average_linkage(clusters[x], clusters[y], embeddings)
}

/// Whether `(bi, bj)` is the best pair among those met before `(i, j)`: no
/// such pair has a higher linkage, and none that is met before `(bi, bj)`
/// has an equal one.
pub open spec fn is_best_before(
    clusters: Seq<Seq<u64>>,
    embeddings: Seq<Vec<i16>>,
    bi: int,
    bj: int,
    i: int,
    j: int,
) -> bool {
    &&& 0 <= bi < bj < clusters.len()
    &&& forall|x: int, y: int|
        0 <= x < y < clusters.len() && pair_before(x, y, i, j) ==> #[trigger] linkage(
            clusters,
            embeddings,
            x,
            y,
        ) <= linkage(clusters, embeddings, bi, bj)
    &&& forall|x: int, y: int|
        0 <= x < y < clusters.len() && pair_before(x, y, i, j) && pair_before(x, y, bi, bj)
            ==> #[trigger] linkage(clusters, embeddings, x, y) < linkage(
            clusters,
            embeddings,
            bi,
            bj,
        )
}

/// Whether `(bi, bj)` is the pair to merge: the first, row by row, among the
/// pairs of the highest average linkage.
pub open spec fn is_best_pair(
    clusters: Seq<Seq<u64>>,
    embeddings: Seq<Vec<i16>>,
    bi: int,
    bj: int,
) -> bool {
    is_best_before(clusters, embeddings, bi, bj, clusters.len() as int, 0)
}

/// The pair to merge.
pub open spec fn best_pair(clusters: Seq<Seq<u64>>, embeddings: Seq<Vec<i16>>) -> (int, int) {
    choose|p: (int, int)| is_best_pair(clusters, embeddings, p.0, p.1)
}

/// The list of clusters after cluster `j` has been merged into cluster `i`:
/// the members of `j` follow those of `i`, and `j` has left the list.
pub open spec fn merged(clusters: Seq<Seq<u64>>, i: int, j: int) -> Seq<Seq<u64>> {
    if 0 <= i < j < clusters.len() {
        clusters.update(i, clusters[i] + clusters[j]).remove(j)
    } else {
        clusters.drop_last()
    }
}

/// The clusters that are left when the best pair has been merged, again and
/// again, until at most `k` clusters, or a single one, are left.
pub open spec fn agglomerated(clusters: Seq<Seq<u64>>, embeddings: Seq<Vec<i16>>, k: nat) -> Seq<
    Seq<u64>,
>
    decreases clusters.len(),
{
    if clusters.len() <= k || clusters.len() < 2 {
        clusters
    } else {
        let p = best_pair(clusters, embeddings);
        agglomerated(merged(clusters, p.0, p.1), embeddings, k)
    }
}

/// One cluster for each id, with that id as its only member.
pub open spec fn singletons(ids: Seq<u64>) -> Seq<Seq<u64>> {
    Seq::new(ids.len(), |i: int| seq![ids[i]])
}

/// The ids of a corpus of `n` nodes, in order.
pub open spec fn node_ids(n: nat) -> Seq<u64> {
    Seq::new(n, |i: int| i as u64)
}

/// There is one pair to merge and no other.
pub proof fn lemma_best_pair_unique(
    clusters: Seq<Seq<u64>>,
    embeddings: Seq<Vec<i16>>,
    i: int,
    j: int,
    x: int,
    y: int,
)
    requires
        is_best_pair(clusters, embeddings, i, j),
        is_best_pair(clusters, embeddings, x, y),
    ensures
        i == x,
        j == y,
{
    let a = linkage(clusters, embeddings, i, j);
    let b = linkage(clusters, embeddings, x, y);
    assert(a <= b);
    assert(b <= a);
    if pair_before(x, y, i, j) {
        assert(b < a);
    } else if pair_before(i, j, x, y) {
        assert(a < b);
    }
}

/// The pair that is first among the pairs of the highest average linkage is
/// the pair to merge.
pub proof fn lemma_best_pair_is(clusters: Seq<Seq<u64>>, embeddings: Seq<Vec<i16>>, i: int, j: int)
    requires
        is_best_pair(clusters, embeddings, i, j),
    ensures
        best_pair(clusters, embeddings) == (i, j),
{
    let found = (i, j);
    assert(is_best_pair(clusters, embeddings, found.0, found.1));
    let p = best_pair(clusters, embeddings);
    lemma_best_pair_unique(clusters, embeddings, i, j, p.0, p.1);
}

/// Going on through the pairs from `(i, j)`, with the best pair so far in
/// hand, ends with the pair to merge.
proof fn lemma_best_pair_scan(
    clusters: Seq<Seq<u64>>,
    embeddings: Seq<Vec<i16>>,
    bi: int,
    bj: int,
    i: int,
    j: int,
)
    requires
        clusters.len() >= 2,
        0 <= i < j <= clusters.len(),
        i < clusters.len() - 1,
        is_best_before(clusters, embeddings, bi, bj, i, j),
        pair_before(bi, bj, i, j) || (bi == i && bj == j),
    ensures
        exists|p: (int, int)| is_best_pair(clusters, embeddings, p.0, p.1),
    decreases clusters.len() - i, clusters.len() - j,
{
    let n = clusters.len() as int;
    if j >= n {
        if i + 1 >= n - 1 {
            assert(is_best_pair(clusters, embeddings, (bi, bj).0, (bi, bj).1));
        } else {
            lemma_best_pair_scan(clusters, embeddings, bi, bj, i + 1, i + 2);
        }
    } else {
        let here = linkage(clusters, embeddings, i, j);
        if here > linkage(clusters, embeddings, bi, bj) {
            lemma_best_pair_scan(clusters, embeddings, i, j, i, j + 1);
        } else {
            lemma_best_pair_scan(clusters, embeddings, bi, bj, i, j + 1);
        }
    }
}

/// Two clusters or more have a pair to merge.
pub proof fn lemma_best_pair_exists(clusters: Seq<Seq<u64>>, embeddings: Seq<Vec<i16>>)
    requires
        clusters.len() >= 2,
    ensures
        is_best_pair(
            clusters,
            embeddings,
            best_pair(clusters, embeddings).0,
            best_pair(clusters, embeddings).1,
        ),
{
    lemma_best_pair_scan(clusters, embeddings, 0, 1, 0, 1);
}

/// Agglomeration keeps the members, leaves no cluster empty that was not
/// empty before, and ends with `k` clusters where there were more and `k`
/// is not zero.
pub proof fn lemma_agglomerated(clusters: Seq<Seq<u64>>, embeddings: Seq<Vec<i16>>, k: nat)
    ensures
        members_of(agglomerated(clusters, embeddings, k)) == members_of(clusters),
        (forall|c: int| 0 <= c < clusters.len() ==> (#[trigger] clusters[c]).len() > 0) ==> (forall|
            c: int,
        |
            0 <= c < agglomerated(clusters, embeddings, k).len() ==> (#[trigger] agglomerated(
                clusters,
                embeddings,
                k,
            )[c]).len() > 0),
        1 <= k <= clusters.len() ==> agglomerated(clusters, embeddings, k).len() == k,
        clusters.len() <= k ==> agglomerated(clusters, embeddings, k) == clusters,
    decreases clusters.len(),
{
    if !(clusters.len() <= k || clusters.len() < 2) {
        lemma_best_pair_exists(clusters, embeddings);
        let p = best_pair(clusters, embeddings);
        let next = merged(clusters, p.0, p.1);
        lemma_members_merged(clusters, p.0, p.1);
        lemma_agglomerated(next, embeddings, k);
        if forall|c: int| 0 <= c < clusters.len() ==> (#[trigger] clusters[c]).len() > 0 {
            assert forall|c: int| 0 <= c < next.len() implies (#[trigger] next[c]).len() > 0 by {
                if c == p.0 {
                    assert(clusters[p.0].len() > 0);
                } else if c < p.1 {
                    assert(next[c] == clusters[c]);
                } else {
                    assert(next[c] == clusters[c + 1]);
                }
            }
        }
    }
}

/// Agglomerating a corpus of `n` nodes to `k` clusters gives clusters that
/// hold every node once; there are `k` of them where `k` is at least one
/// and at most `n`.
pub proof fn lemma_agglomerated_partition(n: nat, embeddings: Seq<Vec<i16>>, k: nat)
    requires
        n <= u64::MAX,
    ensures
        is_partition(agglomerated(singletons(node_ids(n)), embeddings, k), n),
        1 <= k <= n ==> agglomerated(singletons(node_ids(n)), embeddings, k).len() == k,
{
    let start = singletons(node_ids(n));
    lemma_agglomerated(start, embeddings, k);
    lemma_members_singletons(node_ids(n));
    assert forall|c: int| 0 <= c < start.len() implies (#[trigger] start[c]).len() > 0 by {
        assert(start[c] == seq![node_ids(n)[c]]);
    }
    assert forall|id: u64| #[trigger]
        members_of(agglomerated(start, embeddings, k)).count(id) == if id < n {
            1nat
        } else {
            0nat
        } by {
        lemma_node_ids_once(n, id);
    }
}

/// Replacing a cluster takes its members away and adds those of the new one.
pub proof fn lemma_members_update(clusters: Seq<Seq<u64>>, i: int, x: Seq<u64>)
    requires
        0 <= i < clusters.len(),
    ensures
        members_of(clusters.update(i, x)).add(clusters[i].to_multiset()) =~= members_of(
            clusters,
        ).add(x.to_multiset()),
    decreases clusters.len(),
{
    broadcast use vstd::multiset::group_multiset_axioms;

    let u = clusters.update(i, x);
    let front = clusters.drop_last();
    let last = clusters.last().to_multiset();
    let old_part = clusters[i].to_multiset();
    let new_part = x.to_multiset();
    if i == clusters.len() - 1 {
        assert(u.drop_last() =~= front);
        assert(u.last() == x);
        assert(members_of(u) == members_of(front).add(new_part));
        assert(members_of(clusters) == members_of(front).add(old_part));
        assert forall|v: u64|
            members_of(u).add(old_part).count(v) == members_of(clusters).add(new_part).count(
                v,
            ) by {}
    } else {
        assert(u.drop_last() =~= front.update(i, x));
        assert(u.last() == clusters.last());
        assert(front[i] == clusters[i]);
        lemma_members_update(front, i, x);
        let inner = members_of(front.update(i, x));
        assert(members_of(u) == inner.add(last));
        assert(members_of(clusters) == members_of(front).add(last));
        assert forall|v: u64|
            members_of(u).add(old_part).count(v) == members_of(clusters).add(new_part).count(
                v,
            ) by {
            assert(inner.add(old_part).count(v) == members_of(front).add(new_part).count(v));
        }
    }
}

/// Removing a cluster takes its members away.
pub proof fn lemma_members_remove(clusters: Seq<Seq<u64>>, j: int)
    requires
        0 <= j < clusters.len(),
    ensures
        members_of(clusters.remove(j)).add(clusters[j].to_multiset()) =~= members_of(clusters),
    decreases clusters.len(),
{
    let u = clusters.remove(j);
    if j == clusters.len() - 1 {
        assert(u =~= clusters.drop_last());
    } else {
        assert(u.drop_last() =~= clusters.drop_last().remove(j));
        assert(u.last() == clusters.last());
        lemma_members_remove(clusters.drop_last(), j);
    }
}

/// A merge keeps the members.
pub proof fn lemma_members_merged(clusters: Seq<Seq<u64>>, i: int, j: int)
    requires
        0 <= i < j < clusters.len(),
    ensures
        members_of(merged(clusters, i, j)) =~= members_of(clusters),
{
    let joined = clusters[i] + clusters[j];
    let u = clusters.update(i, joined);
    lemma_members_update(clusters, i, joined);
    lemma_members_remove(u, j);
    vstd::seq_lib::lemma_multiset_commutative(clusters[i], clusters[j]);
    let m1 = members_of(merged(clusters, i, j));
    let m2 = members_of(clusters);
    let mu = members_of(u);
    let ci = clusters[i].to_multiset();
    let cj = clusters[j].to_multiset();
    assert forall|v: u64| m1.count(v) == m2.count(v) by {
        assert(m1.add(cj).count(v) == mu.count(v));
        assert(mu.add(ci).count(v) == m2.add(joined.to_multiset()).count(v));
        assert(joined.to_multiset().count(v) == ci.add(cj).count(v));
    }
}

/// The members of singleton clusters are the ids they were made of.
pub proof fn lemma_members_singletons(ids: Seq<u64>)
    ensures
        members_of(singletons(ids)) =~= ids.to_multiset(),
    decreases ids.len(),
{
    if ids.len() == 0 {
        assert(ids.to_multiset() =~= Multiset::<u64>::empty()) by {
            vstd::seq_lib::to_multiset_len(ids);
        }
    } else {
        let front = ids.drop_last();
        lemma_members_singletons(front);
        assert(singletons(ids).drop_last() =~= singletons(front));
        assert(singletons(ids).last() =~= seq![ids.last()]);
        assert(ids =~= front + seq![ids.last()]);
        vstd::seq_lib::lemma_multiset_commutative(front, seq![ids.last()]);
    }
}

/// Whether the clusters are not empty and hold each of the ids below `n`
/// once, and nothing else.
pub open spec fn is_partition(clusters: Seq<Seq<u64>>, n: nat) -> bool {
    &&& forall|c: int| 0 <= c < clusters.len() ==> (#[trigger] clusters[c]).len() > 0
    &&& forall|id: u64| #[trigger]
        members_of(clusters).count(id) == if id < n {
            1nat
        } else {
            0nat
        }
}

/// The ids of a corpus occur once each.
pub proof fn lemma_node_ids_once(n: nat, id: u64)
    requires
        n <= u64::MAX,
    ensures
        node_ids(n).to_multiset().count(id) == if id < n {
            1nat
        } else {
            0nat
        },
    decreases n,
{
    broadcast use vstd::multiset::group_multiset_axioms;

    if n == 0 {
        vstd::seq_lib::to_multiset_len(node_ids(n));
        assert(node_ids(n).to_multiset() =~= Multiset::<u64>::empty());
    } else {
        let front = node_ids((n - 1) as nat);
        let last = (n - 1) as u64;
        lemma_node_ids_once((n - 1) as nat, id);
        assert(node_ids(n) =~= front + seq![last]);
        vstd::seq_lib::lemma_multiset_commutative(front, seq![last]);
        assert(seq![last] =~= Seq::<u64>::empty().push(last));
        vstd::seq_lib::to_multiset_build(Seq::<u64>::empty(), last);
        vstd::seq_lib::to_multiset_len(Seq::<u64>::empty());
        assert(Seq::<u64>::empty().to_multiset() =~= Multiset::<u64>::empty());
    }
}

/// One cluster for each id of `ids`, with that id as its only member.
pub fn singleton_clusters(ids: &[u64]) -> (r: Vec<Vec<u64>>)
    ensures
        rows(r@) == singletons(ids@),
{
    let n: usize = ids.len();
    let mut out: Vec<Vec<u64>> = Vec::new();
    let mut i: usize = 0;
    while i < n
        invariant
            i <= n,
            n == ids.len(),
            out.len() == i,
            forall|c: int| 0 <= c < i ==> (#[trigger] out[c])@ == seq![ids[c]],
        decreases n - i,
    {
        let mut one: Vec<u64> = Vec::new();
        one.push(ids[i]);
        assert(one@ =~= seq![ids[i as int]]);
        out.push(one);
        i += 1;
    }
    assert(rows(out@) =~= singletons(ids@));
    out
}

impl ClusterEngine {
    /// Merges the best pair of `start`, again and again, until at most
    /// `k_clusters` clusters, or a single one, are left. The best pair is the
    /// one of the highest average linkage; among several, the first met when
    /// pairs are gone through row by row. The second cluster of the pair is
    /// appended to the first and leaves the list.
    pub fn agglomerate(
        &self,
        start: Vec<Vec<u64>>,
        embeddings: &[Vec<i16>],
        k_clusters: usize,
    ) -> (r: Vec<Vec<u64>>)
        ensures
            rows(r@) == agglomerated(rows(start@), embeddings@, k_clusters as nat),
            members_of(rows(r@)) == members_of(rows(start@)),
            (forall|c: int| 0 <= c < start.len() ==> (#[trigger] start[c]).len() > 0) ==> (forall|
                c: int,
            |
                0 <= c < r.len() ==> (#[trigger] r[c]).len() > 0),
            r.len() == if start.len() <= k_clusters || start.len() < 2 {
                start.len()
            } else if k_clusters >= 1 {
                k_clusters
            } else {
                1
            },
    {
        let ghost first = rows(start@);
        let ghost first_len = start.len();
        let ghost filled = forall|c: int| 0 <= c < start.len() ==> (#[trigger] start[c]).len() > 0;
        let mut clusters: Vec<Vec<u64>> = start;
        let mut table: SimilarityTable = SimilarityTable::new();
        while clusters.len() > k_clusters && clusters.len() >= 2
            invariant
                table.holds_for(embeddings@),
                agglomerated(rows(clusters@), embeddings@, k_clusters as nat) == agglomerated(
                    first,
                    embeddings@,
                    k_clusters as nat,
                ),
                members_of(rows(clusters@)) == members_of(first),
                filled ==> (forall|c: int|
                    0 <= c < clusters.len() ==> (#[trigger] clusters[c]).len() > 0),
                clusters.len() <= first_len,
                first_len <= k_clusters || first_len < 2 ==> clusters.len() == first_len,
                first_len > k_clusters ==> clusters.len() >= k_clusters,
                first_len >= 1 ==> clusters.len() >= 1,
            decreases clusters.len(),
        {
            let n: usize = clusters.len();
            let ghost current = rows(clusters@);
            let mut best_i: usize = 0;
            let mut best_j: usize = 1;
            let mut best_sim: i64 = i64::MIN;
            let mut i: usize = 0;
            while i < n
                invariant
                    n == clusters.len(),
                    n >= 2,
                    i <= n,
                    table.holds_for(embeddings@),
                    current == rows(clusters@),
                    is_best_before(current, embeddings@, best_i as int, best_j as int, i as int, 0),
                    i == 0 ==> best_sim == i64::MIN && best_i == 0 && best_j == 1,
                    i > 0 ==> best_sim == linkage(
                        current,
                        embeddings@,
                        best_i as int,
                        best_j as int,
                    ) && pair_before(best_i as int, best_j as int, i as int, 0),
                decreases n - i,
            {
                let mut j: usize = i + 1;
                while j < n
                    invariant
                        n == clusters.len(),
                        i < n,
                        i + 1 <= j <= n,
                        table.holds_for(embeddings@),
                        current == rows(clusters@),
                            is_best_before(
                            current,
                            embeddings@,
                            best_i as int,
                            best_j as int,
                            i as int,
                            j as int,
                        ),
                        !(i > 0 || j > i + 1) ==> best_sim == i64::MIN && best_i == 0 && best_j
                            == 1,
                        (i > 0 || j > i + 1) ==> best_sim == linkage(
                            current,
                            embeddings@,
                            best_i as int,
                            best_j as int,
                        ) && pair_before(best_i as int, best_j as int, i as int, j as int),
                    decreases n - j,
                {
                    let sim: i64 = self.average_linkage_known(
                        &mut table,
                        clusters[i].as_slice(),
                        clusters[j].as_slice(),
                        embeddings,
                    );
                    assert(sim == linkage(current, embeddings@, i as int, j as int));
                    if sim > best_sim {
                        best_sim = sim;
                        best_i = i;
                        best_j = j;
                    }
                    j += 1;
                }
                i += 1;
            }
            proof {
                lemma_best_pair_is(current, embeddings@, best_i as int, best_j as int);
                lemma_members_merged(current, best_i as int, best_j as int);
            }
            let mut tail: Vec<u64> = clusters.remove(best_j);
            clusters[best_i].append(&mut tail);
            proof {
                let next = merged(current, best_i as int, best_j as int);
                assert(rows(clusters@).len() == next.len());
                assert forall|c: int| 0 <= c < next.len() implies rows(clusters@)[c] == next[c] by {
                    if c == best_i {
                        assert(next[c] =~= current[best_i as int] + current[best_j as int]);
                    } else if c < best_j {
                        assert(next[c] == current[c]);
                    } else {
                        assert(next[c] == current[c + 1]);
                    }
                }
                assert(rows(clusters@) =~= next);
            }
        }
        clusters
    }

    /// Clusters a corpus: starting from one cluster for each node, merges the
    /// best pair until `k_clusters` clusters are left. Where the corpus has
    /// at most `k_clusters` nodes, each node stays alone; for `k_clusters`
    /// zero, merging ends with a single cluster.
    pub fn agglomerative_cluster(&self, embeddings: &[Vec<i16>], k_clusters: usize) -> (r: Vec<
        Vec<u64>,
    >)
        ensures
            rows(r@) == agglomerated(
                singletons(node_ids(embeddings.len() as nat)),
                embeddings@,
                k_clusters as nat,
            ),
            is_partition(rows(r@), embeddings.len() as nat),
            1 <= k_clusters < embeddings.len() ==> r.len() == k_clusters,
            embeddings.len() <= k_clusters ==> r.len() == embeddings.len(),
    {
        let n: usize = embeddings.len();
        let mut ids: Vec<u64> = Vec::new();
        let mut i: usize = 0;
        while i < n
            invariant
                i <= n,
                ids.len() == i,
                forall|c: int| 0 <= c < i ==> ids[c] == c as u64,
            decreases n - i,
        {
            ids.push(i as u64);
            i += 1;
        }
        assert(ids@ =~= node_ids(n as nat));
        let start: Vec<Vec<u64>> = singleton_clusters(ids.as_slice());
        proof {
            lemma_members_singletons(ids@);
            vstd::seq_lib::to_multiset_len(ids@);
            assert forall|c: int| 0 <= c < start.len() implies (#[trigger] start[c]).len() > 0 by {
                assert(rows(start@)[c] == seq![ids@[c]]);
            }
            assert forall|id: u64| #[trigger]
                members_of(rows(start@)).count(id) == if id < n {
                    1nat
                } else {
                    0nat
                } by {
                lemma_node_ids_once(n as nat, id);
            }
        }
        let r: Vec<Vec<u64>> = self.agglomerate(start, embeddings, k_clusters);
        proof {
            assert forall|c: int| 0 <= c < rows(r@).len() implies (#[trigger] rows(r@)[c]).len()
                > 0 by {
                assert(r[c].len() > 0);
            }
        }
        r
    }

    /// Clusters the nodes `subset_ids` of a corpus, as `agglomerative_cluster`
    /// clusters a whole corpus.
    pub fn agglomerative_cluster_subset(
        &self,
        subset_ids: &[u64],
        embeddings: &[Vec<i16>],
        k_clusters: usize,
    ) -> (r: Vec<Vec<u64>>)
        ensures
            rows(r@) == agglomerated(singletons(subset_ids@), embeddings@, k_clusters as nat),
            members_of(rows(r@)) == subset_ids@.to_multiset(),
            forall|c: int| 0 <= c < r.len() ==> (#[trigger] r[c]).len() > 0,
    {
        let start: Vec<Vec<u64>> = singleton_clusters(subset_ids);
        proof {
            lemma_members_singletons(subset_ids@);
            vstd::seq_lib::to_multiset_len(subset_ids@);
            assert forall|c: int| 0 <= c < start.len() implies (#[trigger] start[c]).len() > 0 by {
                assert(rows(start@)[c] == seq![subset_ids@[c]]);
            }
        }
        self.agglomerate(start, embeddings, k_clusters)
    }
}

} // verus!
