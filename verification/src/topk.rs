//! Picking the best `k` of a list of scores: the one ordering every ranked
//! result of this crate goes by.
//!
//! A higher score comes first; of two equal scores, the one that stands
//! earlier in the list comes first.

use vstd::prelude::*;

verus! {

/// Whether position `i` comes before position `j` in a ranking by `scores`.
pub open spec fn ranks_before(scores: Seq<i128>, i: int, j: int) -> bool {
    scores[i] > scores[j] || (scores[i] == scores[j] && i < j)
}

/// Whether `order` names position `i`.
pub open spec fn listed(order: Seq<usize>, i: int) -> bool {
    exists|a: int| 0 <= a < order.len() && #[trigger] order[a] == i
}

/// Whether `order` holds the best `k` of the first `n` positions of `scores`,
/// best first.
pub open spec fn is_top_of(scores: Seq<i128>, n: int, k: int, order: Seq<usize>) -> bool {
    &&& order.len() == if k <= n { k } else { n }
    &&& forall|a: int| 0 <= a < order.len() ==> #[trigger] order[a] < n
    &&& forall|a: int, b: int|
        0 <= a < b < order.len() ==> ranks_before(scores, #[trigger] order[a] as int, #[trigger] order[b] as int)
    &&& forall|i: int, a: int|
        0 <= i < n && 0 <= a < order.len() && !listed(order, i) ==> #[trigger] ranks_before(
            scores,
            order[a] as int,
            i,
        )
    &&& order.len() < k ==> forall|i: int| 0 <= i < n ==> listed(order, i)
}

/// Whether `order` holds the best `k` positions of `scores`, best first.
pub open spec fn is_top(scores: Seq<i128>, k: int, order: Seq<usize>) -> bool {
    is_top_of(scores, scores.len() as int, k, order)
}

/// The best `k` positions of `scores`, best first.
pub open spec fn top_order(scores: Seq<i128>, k: int) -> Seq<usize> {
    choose|order: Seq<usize>| is_top(scores, k, order)
}

/// Where two rankings agree up to a position, the entry of the one does not
/// rank before the entry of the other at that position.
proof fn lemma_top_no_earlier(
    scores: Seq<i128>,
    n: int,
    k: int,
    o1: Seq<usize>,
    o2: Seq<usize>,
    a: int,
)
    requires
        is_top_of(scores, n, k, o1),
        is_top_of(scores, n, k, o2),
        0 <= a < o1.len(),
        forall|b: int| 0 <= b < a ==> o1[b] == o2[b],
    ensures
        !ranks_before(scores, o1[a] as int, o2[a] as int),
{
    let x = o1[a] as int;
    let y = o2[a] as int;
    if ranks_before(scores, x, y) {
        if listed(o2, x) {
            let b = choose|b: int| 0 <= b < o2.len() && o2[b] == x;
            if b < a {
                assert(ranks_before(scores, o1[b] as int, o1[a] as int));
            } else if b > a {
                assert(ranks_before(scores, o2[a] as int, o2[b] as int));
            }
        } else {
            assert(ranks_before(scores, o2[a] as int, x));
        }
    }
}

/// Two rankings agree at every position.
proof fn lemma_top_prefix_equal(
    scores: Seq<i128>,
    n: int,
    k: int,
    o1: Seq<usize>,
    o2: Seq<usize>,
    m: int,
)
    requires
        is_top_of(scores, n, k, o1),
        is_top_of(scores, n, k, o2),
        0 <= m <= o1.len(),
    ensures
        forall|b: int| 0 <= b < m ==> o1[b] == o2[b],
    decreases m,
{
    if m > 0 {
        lemma_top_prefix_equal(scores, n, k, o1, o2, m - 1);
        lemma_top_no_earlier(scores, n, k, o1, o2, m - 1);
        lemma_top_no_earlier(scores, n, k, o2, o1, m - 1);
    }
}

/// There is one ranking of the best `k` and no other.
pub proof fn lemma_top_unique(scores: Seq<i128>, n: int, k: int, o1: Seq<usize>, o2: Seq<usize>)
    requires
        is_top_of(scores, n, k, o1),
        is_top_of(scores, n, k, o2),
    ensures
        o1 == o2,
{
    lemma_top_prefix_equal(scores, n, k, o1, o2, o1.len() as int);
    assert(o1 =~= o2);
}

/// The positions of a ranking are all different.
pub proof fn lemma_top_distinct(scores: Seq<i128>, n: int, k: int, order: Seq<usize>)
    requires
        is_top_of(scores, n, k, order),
    ensures
        forall|a: int, b: int|
            0 <= a < order.len() && 0 <= b < order.len() && a != b ==> #[trigger] order[a]
                != #[trigger] order[b],
{
    assert forall|a: int, b: int|
        0 <= a < order.len() && 0 <= b < order.len() && a != b implies #[trigger] order[a]
        != #[trigger] order[b] by {
        if a < b {
            assert(ranks_before(scores, order[a] as int, order[b] as int));
        } else {
            assert(ranks_before(scores, order[b] as int, order[a] as int));
        }
    }
}

/// The place at which position `i` enters a ranking of the positions before
/// it: behind the entries whose score is not lower, before those whose score
/// is lower.
proof fn lemma_entry_place(scores: Seq<i128>, order: Seq<usize>, i: int, a: int) -> (p: int)
    requires
        0 <= a <= order.len(),
        forall|x: int, y: int|
            0 <= x < y < order.len() ==> ranks_before(
                scores,
                #[trigger] order[x] as int,
                #[trigger] order[y] as int,
            ),
        forall|b: int| a <= b < order.len() ==> scores[#[trigger] order[b] as int] < scores[i],
    ensures
        0 <= p <= a,
        forall|b: int| p <= b < order.len() ==> scores[#[trigger] order[b] as int] < scores[i],
        forall|b: int| 0 <= b < p ==> scores[#[trigger] order[b] as int] >= scores[i],
    decreases a,
{
    if a == 0 || scores[order[a - 1] as int] >= scores[i] {
        assert forall|b: int| 0 <= b < a implies scores[#[trigger] order[b] as int]
            >= scores[i] by {
            if b < a - 1 {
                assert(ranks_before(scores, order[b] as int, order[a - 1] as int));
            }
        }
        a
    } else {
        lemma_entry_place(scores, order, i, a - 1)
    }
}

/// A ranking of the best `k` of the first `i` positions, with position `i`
/// entered at its place, is a ranking of the best `k` of the first `i + 1`.
proof fn lemma_top_step(scores: Seq<i128>, i: int, k: int, prev: Seq<usize>) -> (next: Seq<usize>)
    requires
        0 <= i < scores.len(),
        i < usize::MAX,
        0 <= k,
        is_top_of(scores, i, k, prev),
    ensures
        is_top_of(scores, i + 1, k, next),
{
    let p = lemma_entry_place(scores, prev, i, prev.len() as int);
    if p < k {
        let grown = prev.insert(p, i as usize);
        assert forall|j: int| listed(prev, j) implies listed(grown, j) by {
            let a = choose|a: int| 0 <= a < prev.len() && prev[a] == j;
            if a < p {
                assert(grown[a] == j);
            } else {
                assert(grown[a + 1] == j);
            }
        }
        assert(grown[p] == i);
        assert(listed(grown, i));
        assert forall|a: int, b: int| 0 <= a < b < grown.len() implies ranks_before(
            scores,
            #[trigger] grown[a] as int,
            #[trigger] grown[b] as int,
        ) by {
            if b < p {
                assert(ranks_before(scores, prev[a] as int, prev[b] as int));
            } else if b == p {
                assert(scores[prev[a] as int] >= scores[i]);
            } else if a == p {
                assert(scores[prev[b - 1] as int] < scores[i]);
            } else if a < p {
                assert(ranks_before(scores, prev[a] as int, prev[b - 1] as int));
            } else {
                assert(ranks_before(scores, prev[a - 1] as int, prev[b - 1] as int));
            }
        }
        if grown.len() > k {
            let kept = grown.drop_last();
            let dropped = grown[k] as int;
            assert forall|j: int, a: int|
                0 <= j < i + 1 && 0 <= a < kept.len() && !listed(
                    kept,
                    j,
                ) implies #[trigger] ranks_before(scores, kept[a] as int, j) by {
                if j == dropped {
                    assert(ranks_before(scores, grown[a] as int, grown[k] as int));
                } else {
                    if listed(grown, j) {
                        let b = choose|b: int| 0 <= b < grown.len() && grown[b] == j;
                        assert(b < k);
                        assert(kept[b] == j);
                        assert(false);
                    }
                    assert(!listed(prev, j));
                    assert(j != i);
                    let last = prev[k - 1] as int;
                    assert(ranks_before(scores, last, j));
                    assert(grown[k] == last);
                    assert(ranks_before(scores, grown[a] as int, grown[k] as int));
                }
            }
            assert forall|a: int, b: int| 0 <= a < b < kept.len() implies ranks_before(
                scores,
                #[trigger] kept[a] as int,
                #[trigger] kept[b] as int,
            ) by {
                assert(ranks_before(scores, grown[a] as int, grown[b] as int));
            }
            assert forall|a: int| 0 <= a < kept.len() implies #[trigger] kept[a] < i + 1 by {
                assert(grown[a] < i + 1);
            }
            kept
        } else {
            assert forall|j: int| 0 <= j < i + 1 implies listed(grown, j) by {
                if j < i {
                    assert(listed(prev, j));
                }
            }
            assert forall|a: int| 0 <= a < grown.len() implies #[trigger] grown[a] < i + 1 by {
                if a < p {
                    assert(prev[a] < i);
                } else if a > p {
                    assert(prev[a - 1] < i);
                }
            }
            grown
        }
    } else {
        assert forall|j: int, a: int|
            0 <= j < i + 1 && 0 <= a < prev.len() && !listed(
                prev,
                j,
            ) implies #[trigger] ranks_before(scores, prev[a] as int, j) by {
            if j == i {
                assert(scores[prev[a] as int] >= scores[i]);
                assert(prev[a] < i);
            }
        }
        assert forall|a: int| 0 <= a < prev.len() implies #[trigger] prev[a] < i + 1 by {
            assert(prev[a] < i);
        }
        prev
    }
}

/// There is a ranking of the best `k` of the first `n` positions.
proof fn lemma_top_of_prefix(scores: Seq<i128>, n: int, k: int) -> (order: Seq<usize>)
    requires
        0 <= n <= scores.len(),
        n <= usize::MAX,
        0 <= k,
    ensures
        is_top_of(scores, n, k, order),
    decreases n,
{
    if n == 0 {
        Seq::empty()
    } else {
        let prev = lemma_top_of_prefix(scores, n - 1, k);
        lemma_top_step(scores, n - 1, k, prev)
    }
}

/// Every list of scores has a ranking of its best `k`, and `top_order` is
/// it: as long as `k`, or as the list where that is shorter, of positions of
/// the list that are all different, in the order of falling scores.
pub proof fn lemma_top_exists(scores: Seq<i128>, k: int)
    requires
        0 <= k,
        scores.len() <= usize::MAX,
    ensures
        is_top(scores, k, top_order(scores, k)),
        top_order(scores, k).len() == if k <= scores.len() {
            k
        } else {
            scores.len() as int
        },
{
    let order = lemma_top_of_prefix(scores, scores.len() as int, k);
    assert(is_top(scores, k, order));
}

/// The best `k` positions of `scores`, best first: all of them, where there
/// are at most `k`.
pub fn select_top(scores: &Vec<i128>, k: usize) -> (order: Vec<usize>)
    ensures
        is_top(scores@, k as int, order@),
        order@ == top_order(scores@, k as int),
{
    let n: usize = scores.len();
    let mut best: Vec<usize> = Vec::new();
    let mut i: usize = 0;
    while i < n
        invariant
            i <= n,
            n == scores.len(),
            is_top_of(scores@, i as int, k as int, best@),
        decreases n - i,
    {
        let len: usize = best.len();
        let mut p: usize = len;
        while p > 0 && scores[best[p - 1]] < scores[i]
            invariant
                p <= len,
                len == best.len(),
                i < n,
                n == scores.len(),
                forall|a: int| 0 <= a < len ==> #[trigger] best[a] < i,
                forall|a: int| p <= a < len ==> scores[#[trigger] best[a] as int] < scores[i as int],
            decreases p,
        {
            p -= 1;
        }
        let ghost old_best: Seq<usize> = best@;
        proof {
            assert forall|a: int| 0 <= a < p implies scores[#[trigger] old_best[a] as int]
                >= scores[i as int] by {
                if a < p - 1 {
                    assert(ranks_before(scores@, old_best[a] as int, old_best[p - 1] as int));
                }
            }
        }
        if p < k {
            best.insert(p, i);
            proof {
                let grown = best@;
                assert forall|j: int| listed(old_best, j) implies listed(grown, j) by {
                    let a = choose|a: int| 0 <= a < old_best.len() && old_best[a] == j;
                    if a < p {
                        assert(grown[a] == j);
                    } else {
                        assert(grown[a + 1] == j);
                    }
                }
                assert(grown[p as int] == i);
                assert(listed(grown, i as int));
            }
            if best.len() > k {
                let ghost grown: Seq<usize> = best@;
                best.pop();
                proof {
                    let kept = best@;
                    let dropped = grown[k as int] as int;
                    assert forall|j: int, a: int|
                        0 <= j < i + 1 && 0 <= a < kept.len() && !listed(
                            kept,
                            j,
                        ) implies #[trigger] ranks_before(scores@, kept[a] as int, j) by {
                        if j == dropped {
                            assert(ranks_before(scores@, grown[a] as int, grown[k as int] as int));
                        } else {
                            if listed(grown, j) {
                                let b = choose|b: int| 0 <= b < grown.len() && grown[b] == j;
                                assert(b < k);
                                assert(kept[b] == j);
                                assert(false);
                            }
                            assert(!listed(old_best, j));
                            assert(j != i);
                            let last = old_best[k - 1] as int;
                            assert(ranks_before(scores@, last, j));
                            assert(grown[k as int] == last);
                            assert(ranks_before(scores@, grown[a] as int, grown[k as int] as int));
                        }
                    }
                    assert forall|a: int, b: int| 0 <= a < b < kept.len() implies ranks_before(
                        scores@,
                        #[trigger] kept[a] as int,
                        #[trigger] kept[b] as int,
                    ) by {
                        assert(ranks_before(scores@, grown[a] as int, grown[b] as int));
                    }
                }
            } else {
                proof {
                    let grown = best@;
                    assert forall|j: int| 0 <= j < i + 1 implies listed(grown, j) by {
                        if j < i {
                            assert(listed(old_best, j));
                        }
                    }
                }
            }
        } else {
            proof {
                assert forall|j: int, a: int|
                    0 <= j < i + 1 && 0 <= a < old_best.len() && !listed(
                        old_best,
                        j,
                    ) implies #[trigger] ranks_before(scores@, old_best[a] as int, j) by {
                    if j == i {
                        assert(scores[old_best[a] as int] >= scores[i as int]);
                    }
                }
            }
        }
        i += 1;
    }
    proof {
        assert(is_top(scores@, k as int, best@));
        assert(is_top(scores@, k as int, top_order(scores@, k as int)));
        lemma_top_unique(
            scores@,
            n as int,
            k as int,
            best@,
            top_order(scores@, k as int),
        );
    }
    best
}

} // verus!
