//! Expansion over the adjacency lists: the nodes that a number of hops
//! lead to.

use std::collections::HashSet;
use vstd::prelude::*;

verus! {

/// The neighbours of `node`: none for a node without an adjacency list.
pub open spec fn neighbors_of(edges: Seq<Vec<u64>>, node: u64) -> Seq<u64> {
    if node < edges.len() {
        edges[node as int]@
    } else {
        Seq::empty()
    }
}

/// Whether an edge leads from `u` to `v`.
pub open spec fn is_edge(edges: Seq<Vec<u64>>, u: u64, v: u64) -> bool {
    neighbors_of(edges, u).contains(v)
}

/// The nodes of `set`, and those that one edge leads to from a node of `set`.
pub open spec fn one_hop(set: Set<u64>, edges: Seq<Vec<u64>>) -> Set<u64> {
    Set::new(|v: u64| set.contains(v) || exists|u: u64| set.contains(u) && #[trigger] is_edge(edges, u, v))
}

/// The nodes that at most `hops` edges lead to from a node of `start`.
pub open spec fn reach(start: Seq<u64>, edges: Seq<Vec<u64>>, hops: nat) -> Set<u64>
    decreases hops,
{
    if hops == 0 {
        start.to_set()
    } else {
        one_hop(reach(start, edges, (hops - 1) as nat), edges)
    }
}

/// Whether no edge leads out of `set`.
pub open spec fn is_closed(set: Set<u64>, edges: Seq<Vec<u64>>) -> bool {
    forall|u: u64, v: u64| set.contains(u) && #[trigger] is_edge(edges, u, v) ==> set.contains(v)
}

/// Once no edge leads out of what was reached, more hops reach nothing new.
pub proof fn lemma_reach_stable(start: Seq<u64>, edges: Seq<Vec<u64>>, hops: nat, more: nat)
    requires
        is_closed(reach(start, edges, hops), edges),
    ensures
        reach(start, edges, hops + more) == reach(start, edges, hops),
    decreases more,
{
    if more > 0 {
        lemma_reach_stable(start, edges, hops, (more - 1) as nat);
        let inner = reach(start, edges, hops);
        assert(reach(start, edges, hops + more) == one_hop(
            reach(start, edges, (hops + more - 1) as nat),
            edges,
        ));
        assert(one_hop(inner, edges) =~= inner);
    }
}

/// The list `acc` with `id` in it: put at the end, unless it is there
/// already.
pub open spec fn with_id(acc: Seq<u64>, id: u64) -> Seq<u64> {
    if acc.contains(id) {
        acc
    } else {
        acc.push(id)
    }
}

/// The list `acc` with each of `items` in it, added in their order.
pub open spec fn with_ids(acc: Seq<u64>, items: Seq<u64>) -> Seq<u64>
    decreases items.len(),
{
    if items.len() == 0 {
        acc
    } else {
        with_ids(with_id(acc, items[0]), items.drop_first())
    }
}

/// The list `acc` with the neighbours of its nodes at the positions from
/// `lo` up to `hi` in it, added node by node.
pub open spec fn expand_level(acc: Seq<u64>, edges: Seq<Vec<u64>>, lo: int, hi: int) -> Seq<u64>
    decreases hi - lo,
{
    if lo >= hi {
        acc
    } else {
        expand_level(with_ids(acc, neighbors_of(edges, acc[lo])), edges, lo + 1, hi)
    }
}

/// The list `acc`, whose nodes from position `lo` on were added last,
/// expanded by `hops` more hops.
pub open spec fn expand_from(acc: Seq<u64>, edges: Seq<Vec<u64>>, lo: int, hops: nat) -> Seq<u64>
    decreases hops,
{
    if hops == 0 || lo >= acc.len() {
        acc
    } else {
        expand_from(
            expand_level(acc, edges, lo, acc.len() as int),
            edges,
            acc.len() as int,
            (hops - 1) as nat,
        )
    }
}

/// The nodes that at most `hops` edges lead to from a node of `start`, in
/// the order in which a search level by level meets them: the start nodes,
/// then the neighbours of each of them, and so on.
pub open spec fn expansion(start: Seq<u64>, edges: Seq<Vec<u64>>, hops: nat) -> Seq<u64> {
    expand_from(with_ids(Seq::empty(), start), edges, 0, hops)
}

/// The nodes that at most `hops` edges lead to from a start node, each once:
/// the start nodes in their order, then the nodes one hop away in the order
/// in which they are met, and so on. A node without an adjacency list has
/// no neighbours.
pub fn expand_with_neighbors(start_nodes: &[u64], edge_list: &[Vec<u64>], hops: usize) -> (r: Vec<
    u64,
>)
    ensures
        r@ == expansion(start_nodes@, edge_list@, hops as nat),
        r@.to_set() == reach(start_nodes@, edge_list@, hops as nat),
        r@.no_duplicates(),
{
    broadcast use vstd::std_specs::hash::group_hash_axioms;

    let mut expanded: Vec<u64> = Vec::new();
    let mut seen: HashSet<u64> = HashSet::new();
    let count: usize = start_nodes.len();
    let mut s: usize = 0;
    assert(start_nodes@.skip(0) =~= start_nodes@);
    let ghost total = expansion(start_nodes@, edge_list@, hops as nat);
    while s < count
        invariant
            s <= count,
            count == start_nodes.len(),
            expanded@.no_duplicates(),
            forall|x: u64| seen@.contains(x) <==> expanded@.contains(x),
            forall|x: u64| expanded@.contains(x) <==> start_nodes@.take(s as int).contains(x),
            with_ids(Seq::empty(), start_nodes@) == with_ids(
                expanded@,
                start_nodes@.skip(s as int),
            ),
        decreases count - s,
    {
        let id: u64 = start_nodes[s];
        let ghost before = expanded@;
        assert(start_nodes@.skip(s as int)[0] == id);
        assert(start_nodes@.skip(s as int).drop_first() =~= start_nodes@.skip(s + 1));
        let ghost head = start_nodes@.take(s as int);
        let ghost grown = start_nodes@.take(s + 1);
        assert(grown =~= head.push(id));
        if seen.insert(id) {
            expanded.push(id);
            assert(expanded@ == before.push(id));
        }
        assert(expanded@ == with_id(before, id));
        proof {
            lemma_push_contains(head, id);
            if expanded@ != before {
                lemma_push_contains(before, id);
                lemma_push_no_duplicates(before, id);
            }
            assert forall|x: u64| expanded@.contains(x) <==> grown.contains(x) by {
                assert(grown.contains(x) <==> (head.contains(x) || x == id));
                if expanded@ != before {
                    assert(expanded@.contains(x) <==> (before.contains(x) || x == id));
                } else {
                    assert(before.contains(id));
                }
            }
        }
        s += 1;
    }
    assert(start_nodes@.take(count as int) =~= start_nodes@);
    assert(start_nodes@.skip(count as int) =~= Seq::<u64>::empty());
    let mut lo: usize = 0;
    let mut level: usize = 0;
    while level < hops && lo < expanded.len()
        invariant
            lo <= expanded.len(),
            level <= hops,
            total == expansion(start_nodes@, edge_list@, hops as nat),
            total == expand_from(expanded@, edge_list@, lo as int, (hops - level) as nat),
            expanded@.no_duplicates(),
            forall|x: u64| seen@.contains(x) <==> expanded@.contains(x),
            forall|x: u64|
                expanded@.contains(x) <==> reach(start_nodes@, edge_list@, level as nat).contains(
                    x,
                ),
            forall|i: int, v: u64|
                0 <= i < lo && #[trigger] is_edge(edge_list@, expanded@[i], v)
                    ==> expanded@.contains(v),
        decreases hops - level,
    {
        let hi: usize = expanded.len();
        let ghost before = expanded@;
        let ghost inner = reach(start_nodes@, edge_list@, level as nat);
        let ghost rest: nat = (hops - level - 1) as nat;
        let mut idx: usize = lo;
        while idx < hi
            invariant
                lo <= idx <= hi <= expanded.len(),
                hi == before.len(),
                total == expand_from(
                    expand_level(expanded@, edge_list@, idx as int, hi as int),
                    edge_list@,
                    hi as int,
                    rest,
                ),
                expanded@.no_duplicates(),
                forall|x: u64| seen@.contains(x) <==> expanded@.contains(x),
                forall|i: int| 0 <= i < hi ==> expanded@[i] == before[i],
                forall|x: u64| before.contains(x) <==> inner.contains(x),
                forall|x: u64| expanded@.contains(x) ==> one_hop(inner, edge_list@).contains(x),
                forall|i: int, v: u64|
                    0 <= i < idx && #[trigger] is_edge(edge_list@, expanded@[i], v)
                        ==> expanded@.contains(v),
            decreases hi - idx,
        {
            let node: u64 = expanded[idx];
            assert(before[idx as int] == node);
            assert(before.contains(node));
            let ghost goal = expand_level(expanded@, edge_list@, idx as int, hi as int);
            if node < edge_list.len() as u64 {
                let degree: usize = edge_list[node as usize].len();
                let ghost around = edge_list@[node as int]@;
                let mut j: usize = 0;
                assert(around.skip(0) =~= around);
                assert(neighbors_of(edge_list@, node) == around);
                while j < degree
                    invariant
                        lo <= idx < hi <= expanded.len(),
                        hi == before.len(),
                        goal == expand_level(
                            with_ids(expanded@, around.skip(j as int)),
                            edge_list@,
                            idx + 1,
                            hi as int,
                        ),
                        j <= degree,
                        node < edge_list.len(),
                        around == edge_list@[node as int]@,
                        degree == around.len(),
                        node == expanded@[idx as int],
                        inner.contains(node),
                        expanded@.no_duplicates(),
                        forall|x: u64| seen@.contains(x) <==> expanded@.contains(x),
                        forall|i: int| 0 <= i < hi ==> expanded@[i] == before[i],
                        forall|x: u64| before.contains(x) <==> inner.contains(x),
                        forall|x: u64|
                            expanded@.contains(x) ==> one_hop(inner, edge_list@).contains(x),
                        forall|i: int, v: u64|
                            0 <= i < idx && #[trigger] is_edge(edge_list@, expanded@[i], v)
                                ==> expanded@.contains(v),
                        forall|q: int| 0 <= q < j ==> expanded@.contains(#[trigger] around[q]),
                    decreases degree - j,
                {
                    let next: u64 = edge_list[node as usize][j];
                    let ghost was = expanded@;
                    assert(around[j as int] == next);
                    assert(around.skip(j as int)[0] == next);
                    assert(around.skip(j as int).drop_first() =~= around.skip(j + 1));
                    assert(is_edge(edge_list@, node, next));
                    assert(one_hop(inner, edge_list@).contains(next));
                    if seen.insert(next) {
                        expanded.push(next);
                        proof {
                            lemma_push_contains(was, next);
                            lemma_push_no_duplicates(was, next);
                        }
                    }
                    assert(expanded@ == with_id(was, next));
                    proof {
                        lemma_push_keeps(was, expanded@);
                        assert forall|x: u64| expanded@.contains(x) implies one_hop(
                            inner,
                            edge_list@,
                        ).contains(x) by {
                            if expanded@ != was {
                                assert(expanded@.contains(x) <==> (was.contains(x) || x == next));
                            }
                        }
                        assert(expanded@.contains(next));
                    }
                    j += 1;
                }
                assert(around.skip(degree as int) =~= Seq::<u64>::empty());
                assert forall|v: u64| is_edge(edge_list@, node, v) implies expanded@.contains(
                    v,
                ) by {
                    let q = choose|q: int| 0 <= q < around.len() && around[q] == v;
                    assert(expanded@.contains(around[q]));
                }
            } else {
                assert(neighbors_of(edge_list@, node) =~= Seq::<u64>::empty());
            }
            idx += 1;
        }
        proof {
            let outer = reach(start_nodes@, edge_list@, (level + 1) as nat);
            assert(outer == one_hop(inner, edge_list@));
            assert forall|x: u64| outer.contains(x) implies expanded@.contains(x) by {
                if inner.contains(x) {
                    let i = choose|i: int| 0 <= i < before.len() && before[i] == x;
                    assert(expanded@[i] == x);
                } else {
                    let u = choose|u: u64| inner.contains(u) && is_edge(edge_list@, u, x);
                    let i = choose|i: int| 0 <= i < before.len() && before[i] == u;
                    assert(expanded@[i] == u);
                }
            }
        }
        lo = hi;
        level += 1;
    }
    proof {
        let got = reach(start_nodes@, edge_list@, level as nat);
        if level < hops {
            assert forall|u: u64, v: u64| got.contains(u) && #[trigger] is_edge(
                edge_list@,
                u,
                v,
            ) implies got.contains(v) by {
                assert(expanded@.contains(u));
                let i = choose|i: int| 0 <= i < expanded@.len() && expanded@[i] == u;
                assert(lo == expanded@.len());
                assert(is_edge(edge_list@, expanded@[i], v));
                assert(expanded@.contains(v));
            }
            lemma_reach_stable(start_nodes@, edge_list@, level as nat, (hops - level) as nat);
        }
        assert(expanded@.to_set() =~= reach(start_nodes@, edge_list@, hops as nat));
    }
    expanded
}

/// What a sequence holds once `x` has been put at its end.
pub proof fn lemma_push_contains(s: Seq<u64>, x: u64)
    ensures
        forall|y: u64| s.push(x).contains(y) <==> (s.contains(y) || y == x),
{
    assert forall|y: u64| s.push(x).contains(y) <==> (s.contains(y) || y == x) by {
        if s.contains(y) {
            let i = choose|i: int| 0 <= i < s.len() && s[i] == y;
            assert(s.push(x)[i] == y);
        }
        if y == x {
            assert(s.push(x)[s.len() as int] == y);
        }
        if s.push(x).contains(y) {
            let i = choose|i: int| 0 <= i < s.push(x).len() && s.push(x)[i] == y;
            if i < s.len() {
                assert(s[i] == y);
            }
        }
    }
}

/// A sequence without duplicates stays so when something it lacks is put at
/// its end.
pub proof fn lemma_push_no_duplicates(s: Seq<u64>, x: u64)
    requires
        s.no_duplicates(),
        !s.contains(x),
    ensures
        s.push(x).no_duplicates(),
{
    assert forall|i: int, j: int|
        0 <= i < s.push(x).len() && 0 <= j < s.push(x).len() && i != j implies s.push(x)[i]
        != s.push(x)[j] by {
        if i < s.len() && j < s.len() {
        } else if i < s.len() {
            assert(s.contains(s[i]));
        } else {
            assert(s.contains(s[j]));
        }
    }
}

/// A list that grew by at most one entry at its end holds what it held.
proof fn lemma_push_keeps(was: Seq<u64>, now: Seq<u64>)
    requires
        now == was || (exists|x: u64| now == was.push(x)),
    ensures
        forall|y: u64| was.contains(y) ==> now.contains(y),
        forall|i: int| 0 <= i < was.len() ==> now[i] == was[i],
        was.len() <= now.len(),
{
    if now != was {
        let x = choose|x: u64| now == was.push(x);
        lemma_push_contains(was, x);
    }
}

} // verus!
