//! The average linkage of two clusters, and the table that keeps the
//! similarities of pairs of nodes while clusters are merged.

use crate::cluster::{ClusterEngine, row, similarity, similarity_of};

use crate::fixed::{Mean, lemma_mean_in_range};
use crate::search::{SCALE, lemma_cosine_range, lemma_cosine_symmetric};
use std::collections::HashMap;
use vstd::prelude::*;

verus! {

/// The sum of the similarities of node `x` to the first `m` nodes of `b`.
pub open spec fn row_sum(x: u64, b: Seq<u64>, embeddings: Seq<Vec<i16>>, m: nat) -> int
    decreases m,
{
    if m == 0 {
        0
    } else {
        row_sum(x, b, embeddings, (m - 1) as nat) + similarity_of(embeddings, x, b[m - 1])
    }
}

/// The sum of the similarities of each of the first `n` nodes of `a` to each
/// node of `b`.
pub open spec fn linkage_sum(a: Seq<u64>, b: Seq<u64>, embeddings: Seq<Vec<i16>>, n: nat) -> int
    decreases n,
{
    if n == 0 {
        0
    } else {
        linkage_sum(a, b, embeddings, (n - 1) as nat) + row_sum(
            a[n - 1],
            b,
            embeddings,
            b.len(),
        )
    }
}

/// The average linkage of two clusters: the mean of the similarities of each
/// node of `a` to each node of `b`, rounded down; zero where either is empty.
pub open spec fn average_linkage(a: Seq<u64>, b: Seq<u64>, embeddings: Seq<Vec<i16>>) -> int {
    if a.len() == 0 || b.len() == 0 {
        0
    } else {
        linkage_sum(a, b, embeddings, a.len()) / (a.len() * b.len()) as int
    }
}

/// A sum of `m` similarities lies between minus `m` and `m`.
pub proof fn lemma_row_sum_bounds(x: u64, b: Seq<u64>, embeddings: Seq<Vec<i16>>, m: nat)
    ensures
        -(m * SCALE) <= row_sum(x, b, embeddings, m) <= m * SCALE,
    decreases m,
{
    if m > 0 {
        lemma_row_sum_bounds(x, b, embeddings, (m - 1) as nat);
        lemma_cosine_range(row(embeddings, x), row(embeddings, b[m - 1]));
    }
}

/// The sum of the similarities of `n` nodes to each node of `b` lies
/// between minus and plus `n` times the size of `b`.
pub proof fn lemma_linkage_sum_bounds(a: Seq<u64>, b: Seq<u64>, embeddings: Seq<Vec<i16>>, n: nat)
    ensures
        -(n * (b.len() * SCALE)) <= linkage_sum(a, b, embeddings, n) <= n * (b.len() * SCALE),
    decreases n,
{
    let w = b.len() * SCALE;
    if n > 0 {
        lemma_linkage_sum_bounds(a, b, embeddings, (n - 1) as nat);
        lemma_row_sum_bounds(a[n - 1], b, embeddings, b.len());
        assert(n * w == (n - 1) * w + w) by (nonlinear_arith);
    } else {
        assert(0 * w == 0) by (nonlinear_arith);
    }
}

/// An average linkage lies between minus one and one.
pub proof fn lemma_average_linkage_range(a: Seq<u64>, b: Seq<u64>, embeddings: Seq<Vec<i16>>)
    ensures
        -SCALE <= average_linkage(a, b, embeddings) <= SCALE,
{
    if a.len() > 0 && b.len() > 0 {
        lemma_linkage_sum_bounds(a, b, embeddings, a.len());
        let la = a.len() as int;
        let lb = b.len() as int;
        let count = la * lb;
        assert(count > 0 && la * (lb * SCALE) == SCALE * count && -(la * (lb * SCALE)) == (-SCALE)
            * count) by (nonlinear_arith)
            requires
                count == la * lb,
                la > 0,
                lb > 0,
        ;
        lemma_mean_in_range(linkage_sum(a, b, embeddings, a.len()), count, -SCALE, SCALE as int);
    }
}

/// The key under which the similarity of nodes `a` and `b` is kept.
pub open spec fn pair_key(a: u64, b: u64) -> u128 {
    (a as u128 * 0x1_0000_0000_0000_0000 + b) as u128
}

/// The similarities of pairs of nodes that were computed before: each is
/// computed once and then kept.
pub struct SimilarityTable {
    known: HashMap<u128, i64>,
}

impl SimilarityTable {
    /// Whether each similarity of the table is that of its pair of nodes of
    /// the corpus `embeddings`.
    pub closed spec fn holds_for(&self, embeddings: Seq<Vec<i16>>) -> bool {
        forall|a: u64, b: u64| #[trigger]
            self.known@.contains_key(pair_key(a, b)) ==> self.known@[pair_key(a, b)]
                == similarity_of(embeddings, a, b)
    }

    /// A table without similarities.
    pub fn new() -> (r: SimilarityTable)
        ensures
            forall|embeddings: Seq<Vec<i16>>| r.holds_for(embeddings),
    {
        SimilarityTable { known: HashMap::new() }
    }

    /// The similarity of nodes `a` and `b`: looked up, or computed and kept.
    pub fn similarity(&mut self, embeddings: &[Vec<i16>], a: u64, b: u64) -> (r: i64)
        requires
            old(self).holds_for(embeddings@),
        ensures
            final(self).holds_for(embeddings@),
            r == similarity_of(embeddings@, a, b),
            -SCALE <= r <= SCALE,
    {
        broadcast use vstd::std_specs::hash::group_hash_axioms;

        let low: u64 = if a <= b {
            a
        } else {
            b
        };
        let high: u64 = if a <= b {
            b
        } else {
            a
        };
        let key: u128 = (low as u128) * 0x1_0000_0000_0000_0000 + (high as u128);
        proof {
            lemma_cosine_symmetric(row(embeddings@, a), row(embeddings@, b));
            lemma_cosine_range(row(embeddings@, a), row(embeddings@, b));
            assert(key == pair_key(low, high));
        }
        match self.known.get(&key) {
            Some(found) => *found,
            None => {
                let computed: i64 = similarity(embeddings, low, high);
                let ghost before = self.known@;
                self.known.insert(key, computed);
                proof {
                    assert forall|x: u64, y: u64| #[trigger]
                        self.known@.contains_key(pair_key(x, y)) implies self.known@[pair_key(
                        x,
                        y,
                    )] == similarity_of(embeddings@, x, y) by {
                        lemma_pair_key_one_to_one(x, y, low, high);
                        if pair_key(x, y) != key {
                            assert(before.contains_key(pair_key(x, y)));
                        }
                    }
                }
                computed
            },
        }
    }
}

/// Different pairs have different keys.
pub proof fn lemma_pair_key_one_to_one(a: u64, b: u64, c: u64, d: u64)
    ensures
        pair_key(a, b) == pair_key(c, d) ==> a == c && b == d,
{
}

impl ClusterEngine {
    /// The average linkage of two clusters: the mean similarity of a node of
    /// the one to a node of the other, rounded down; zero where either is
    /// empty.
    pub fn average_linkage_distance(
        &self,
        cluster_a: &[u64],
        cluster_b: &[u64],
        embeddings: &[Vec<i16>],
    ) -> (r: i64)
        ensures
            r == average_linkage(cluster_a@, cluster_b@, embeddings@),
            -SCALE <= r <= SCALE,
    {
        let mut table: SimilarityTable = SimilarityTable::new();
        self.average_linkage_known(&mut table, cluster_a, cluster_b, embeddings)
    }

    /// The average linkage of two clusters, with the similarities taken from
    /// `table` as far as they are known there, and kept there.
    pub fn average_linkage_known(
        &self,
        table: &mut SimilarityTable,
        cluster_a: &[u64],
        cluster_b: &[u64],
        embeddings: &[Vec<i16>],
    ) -> (r: i64)
        requires
            old(table).holds_for(embeddings@),
        ensures
            r == average_linkage(cluster_a@, cluster_b@, embeddings@),
            -SCALE <= r <= SCALE,
            final(table).holds_for(embeddings@),
    {
        let la: usize = cluster_a.len();
        let lb: usize = cluster_b.len();
        if la == 0 || lb == 0 {
            return 0;
        }
        assert(0 < la * lb <= 0xFFFF_FFFF_FFFF_FFFF * 0xFFFF_FFFF_FFFF_FFFF) by (nonlinear_arith)
            requires
                0 < la <= 0xFFFF_FFFF_FFFF_FFFF,
                0 < lb <= 0xFFFF_FFFF_FFFF_FFFF,
        ;
        let count: u128 = (la as u128) * (lb as u128);
        let mut mean: Mean = Mean::new(count, 1_000_000);
        let mut i: usize = 0;
        assert(0 * lb == 0) by (nonlinear_arith);
        while i < la
            invariant
                i <= la,
                la == cluster_a.len(),
                lb == cluster_b.len(),
                lb > 0,
                table.holds_for(embeddings@),
                mean.wf(),
                mean.of() == la * lb,
                mean.limit() == SCALE,
                mean.terms() == i * lb,
                mean.sum() == linkage_sum(cluster_a@, cluster_b@, embeddings@, i as nat),
            decreases la - i,
        {
            let x: u64 = cluster_a[i];
            let ghost before: int = mean.sum();
            let mut j: usize = 0;
            while j < lb
                invariant
                    i < la,
                    j <= lb,
                    lb == cluster_b.len(),
                    table.holds_for(embeddings@),
                    mean.wf(),
                    mean.of() == la * lb,
                    mean.limit() == SCALE,
                    mean.terms() == i * lb + j,
                    mean.sum() == before + row_sum(x, cluster_b@, embeddings@, j as nat),
                decreases lb - j,
            {
                let sim: i64 = table.similarity(embeddings, x, cluster_b[j]);
                assert(i * lb + j < la * lb) by (nonlinear_arith)
                    requires
                        0 <= i < la,
                        0 <= j < lb,
                ;
                mean.add(sim);
                j += 1;
            }
            assert((i + 1) * lb == i * lb + lb) by (nonlinear_arith);
            i += 1;
        }
        proof {
            lemma_average_linkage_range(cluster_a@, cluster_b@, embeddings@);
        }
        mean.value()
    }
}

} // verus!
