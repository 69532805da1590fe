//! The node arena: headers, content, embeddings and adjacency lists of all
//! nodes, and the two operations that rank by life score.
//!
//! The arena keeps no clock: each operation that depends on the time takes
//! it as `now`, in seconds since the epoch.

use crate::bio::{calc_life_score, life_score};
use crate::search::{
    attach_scores, cosine, cosine_scores, lemma_cosine_range, scan_scores, with_scores,
};
use crate::storage::NodeHeader;
use crate::topk::{is_top, lemma_top_distinct, ranks_before, select_top, top_order};
use vstd::prelude::*;
use vstd::utf8::{decode_utf8, encode_utf8, valid_utf8};

verus! {

/// The first `n` headers' nodes whose life score at `now` is below
/// `threshold`, in arena order.
pub open spec fn dead_nodes(headers: Seq<NodeHeader>, threshold: i64, now: u64, n: nat) -> Seq<u64>
    decreases n,
{
    if n == 0 {
        Seq::empty()
    } else {
        let front = dead_nodes(headers, threshold, now, (n - 1) as nat);
        if life_score(headers[n - 1], now) < threshold {
            front.push(headers[n - 1].id)
        } else {
            front
        }
    }
}

/// Twice `k`, or the largest number there is.
pub open spec fn doubled(k: usize) -> usize {
    if k <= usize::MAX / 2 {
        (2 * k) as usize
    } else {
        usize::MAX
    }
}

/// The similarity of each of the nearest nodes times its life score at
/// `now`, in units of `1 / SCALE^2`.
pub open spec fn decayed_scores(nearest: Seq<(u64, i64)>, headers: Seq<NodeHeader>, now: u64) -> Seq<
    i128,
> {
    Seq::new(
        nearest.len(),
        |a: int| (nearest[a].1 * life_score(headers[nearest[a].0 as int], now)) as i128,
    )
}

/// The ids of the nearest nodes at the positions `order`.
pub open spec fn ids_at(nearest: Seq<(u64, i64)>, order: Seq<usize>) -> Seq<u64> {
    Seq::new(order.len(), |b: int| nearest[order[b] as int].0)
}

/// The `2 * k` nodes most similar to `query`, most similar first, each with
/// its similarity.
pub open spec fn nearest_nodes(query: Seq<i16>, embeddings: Seq<Vec<i16>>, k: usize) -> Seq<
    (u64, i64),
> {
    with_scores(
        cosine_scores(query, embeddings),
        top_order(cosine_scores(query, embeddings), doubled(k) as int),
    )
}

/// The result of a hybrid search: of the `2 * k` nodes most similar to the
/// query, the `k` with the highest similarity times life score, highest
/// first.
pub open spec fn hybrid_result(
    query: Seq<i16>,
    embeddings: Seq<Vec<i16>>,
    headers: Seq<NodeHeader>,
    k: usize,
    now: u64,
) -> Seq<u64> {
    let nearest = nearest_nodes(query, embeddings, k);
    ids_at(nearest, top_order(decayed_scores(nearest, headers, now), k as int))
}

/// What the hybrid search orders node `id` by: its similarity to the query
/// times its life score.
pub open spec fn hybrid_score(
    query: Seq<i16>,
    embeddings: Seq<Vec<i16>>,
    headers: Seq<NodeHeader>,
    now: u64,
    id: u64,
) -> int {
    cosine(query, embeddings[id as int]@) * life_score(headers[id as int], now)
}

/// Decodes bytes as UTF-8 text; what `String::from_utf8` returns, with its
/// error dropped. The bytes become a string exactly if they are valid UTF-8,
/// and the string holds the characters they encode.
#[verifier::external_body]
fn string_from_utf8(bytes: Vec<u8>) -> (r: Option<String>)
    ensures
        r is Some <==> valid_utf8(bytes@),
        r matches Some(s) ==> s@ == decode_utf8(bytes@),
{
    String::from_utf8(bytes).ok()
}

/// The arena of all nodes.
pub struct SpiderDB {
    headers: Vec<NodeHeader>,
    data_heap: Vec<u8>,
    edge_list: Vec<Vec<u64>>,
    embeddings: Vec<Vec<i16>>,
}

impl SpiderDB {
    /// The headers of the nodes, by id.
    pub closed spec fn node_headers(&self) -> Seq<NodeHeader> {
        self.headers@
    }

    /// The bytes of all contents, one after the other.
    pub closed spec fn heap(&self) -> Seq<u8> {
        self.data_heap@
    }

    /// The adjacency lists of the nodes, by id.
    pub closed spec fn edges(&self) -> Seq<Vec<u64>> {
        self.edge_list@
    }

    /// The embeddings of the nodes, by id.
    pub closed spec fn node_embeddings(&self) -> Seq<Vec<i16>> {
        self.embeddings@
    }

    /// The number of nodes.
    pub open spec fn count(&self) -> nat {
        self.node_headers().len()
    }

    /// The bytes of the content of node `id`.
    pub open spec fn content_bytes(&self, id: int) -> Seq<u8> {
        let h = self.node_headers()[id];
        self.heap().subrange(h.data_offset as int, h.data_offset + h.data_len)
    }

    /// Whether the arena is in order: each node has a header, an embedding
    /// and an adjacency list; its id is its position; its content lies in
    /// the heap.
    pub open spec fn wf(&self) -> bool {
        &&& self.node_embeddings().len() == self.count()
        &&& self.edges().len() == self.count()
        &&& forall|i: int| 0 <= i < self.count() ==> (#[trigger] self.node_headers()[i]).id == i
        &&& forall|i: int|
            0 <= i < self.count() ==> {
                let h = #[trigger] self.node_headers()[i];
                h.data_offset + h.data_len <= self.heap().len()
            }
    }

    /// An arena without nodes.
    pub fn new() -> (r: SpiderDB)
        ensures
            r.wf(),
            r.count() == 0,
            r.heap().len() == 0,
    {
        SpiderDB {
            headers: Vec::new(),
            data_heap: Vec::new(),
            edge_list: Vec::new(),
            embeddings: Vec::new(),
        }
    }

    /// The headers of the nodes.
    pub fn headers(&self) -> (r: &Vec<NodeHeader>)
        ensures
            r@ == self.node_headers(),
    {
        &self.headers
    }

    /// The embeddings of the nodes.
    pub fn embeddings(&self) -> (r: &Vec<Vec<i16>>)
        ensures
            r@ == self.node_embeddings(),
    {
        &self.embeddings
    }

    /// The adjacency lists of the nodes.
    pub fn edge_list(&self) -> (r: &Vec<Vec<u64>>)
        ensures
            r@ == self.edges(),
    {
        &self.edge_list
    }

    /// Adds a node: appends the bytes of `content` to the heap, stores the
    /// embedding, and gives the node the next id. The node starts with no
    /// accesses, no edges, and `now` as the time of its last access.
    pub fn add_node(&mut self, content: String, embedding: Vec<i16>, significance: u8, now: u64) -> (id:
        u64)
        requires
            old(self).wf(),
            encode_utf8(content@).len() <= u32::MAX,
        ensures
            final(self).wf(),
            id == old(self).count(),
            final(self).count() == old(self).count() + 1,
            final(self).node_headers() == old(self).node_headers().push(
                (NodeHeader {
                    id,
                    data_offset: old(self).heap().len() as u64,
                    data_len: encode_utf8(content@).len() as u32,
                    last_access_ts: now,
                    access_count: 0,
                    significance,
                }),
            ),
            final(self).heap() == old(self).heap() + encode_utf8(content@),
            final(self).node_embeddings() == old(self).node_embeddings().push(embedding),
            final(self).edges().len() == old(self).edges().len() + 1,
            forall|i: int|
                0 <= i < old(self).edges().len() ==> final(self).edges()[i] == old(self).edges()[i],
            final(self).edges()[id as int]@.len() == 0,
            final(self).content_bytes(id as int) == encode_utf8(content@),
    {
        let id: u64 = self.headers.len() as u64;
        let bytes: &[u8] = content.as_str().as_bytes();
        let data_offset: u64 = self.data_heap.len() as u64;
        let data_len: u32 = bytes.len() as u32;
        self.data_heap.extend_from_slice(bytes);
        self.embeddings.push(embedding);
        self.edge_list.push(Vec::new());
        let header: NodeHeader = NodeHeader {
            id,
            data_offset,
            data_len,
            last_access_ts: now,
            access_count: 0,
            significance,
        };
        self.headers.push(header);
        proof {
            assert(self.heap().subrange(data_offset as int, data_offset + data_len) =~= encode_utf8(
                content@,
            ));
        }
        id
    }

    /// Records an edge from `source_id` to `target_id`, at the end of the
    /// adjacency list of `source_id`. Nothing happens where either id is not
    /// that of a node.
    pub fn add_edge(&mut self, source_id: u64, target_id: u64)
        requires
            old(self).wf(),
        ensures
            final(self).wf(),
            final(self).node_headers() == old(self).node_headers(),
            final(self).heap() == old(self).heap(),
            final(self).node_embeddings() == old(self).node_embeddings(),
            final(self).edges().len() == old(self).edges().len(),
            source_id < old(self).count() && target_id < old(self).count() ==> final(self).edges()[source_id as int]@ == old(self).edges()[source_id as int]@.push(target_id),
            !(source_id < old(self).count() && target_id < old(self).count()) ==> final(self).edges() == old(self).edges(),
            forall|i: int|
                0 <= i < old(self).edges().len() && i != source_id ==> final(self).edges()[i]
                    == old(self).edges()[i],
    {
        let n: u64 = self.headers.len() as u64;
        if source_id >= n || target_id >= n {
            return ;
        }
        self.edge_list[source_id as usize].push(target_id);
    }

    /// Reads the content of node `id` at time `now`. The read counts as an
    /// access: the node's last access becomes `now` and its access count
    /// grows by one, up to `u32::MAX`. There is no content where `id` is not
    /// that of a node, or where the bytes of the node are not UTF-8 text.
    pub fn get_node(&mut self, id: u64, now: u64) -> (r: Option<String>)
        requires
            old(self).wf(),
        ensures
            final(self).wf(),
            final(self).heap() == old(self).heap(),
            final(self).node_embeddings() == old(self).node_embeddings(),
            final(self).edges() == old(self).edges(),
            id >= old(self).count() ==> r is None && final(self).node_headers() == old(self).node_headers(),
            id < old(self).count() ==> {
                let before = old(self).node_headers()[id as int];
                &&& final(self).node_headers() == old(self).node_headers().update(
                    id as int,
                    (NodeHeader {
                        last_access_ts: now,
                        access_count: if before.access_count < u32::MAX {
                            (before.access_count + 1) as u32
                        } else {
                            u32::MAX
                        },
                        ..before
                    }),
                )
                &&& r is Some <==> valid_utf8(old(self).content_bytes(id as int))
                &&& r matches Some(s) ==> s@ == decode_utf8(old(self).content_bytes(id as int))
            },
    {
        if id >= self.headers.len() as u64 {
            return None;
        }
        let index: usize = id as usize;
        let mut header: NodeHeader = self.headers[index];
        header.last_access_ts = now;
        if header.access_count < u32::MAX {
            header.access_count = header.access_count + 1;
        }
        self.headers.set(index, header);
        let start: usize = header.data_offset as usize;
        let len: usize = header.data_len as usize;
        let mut bytes: Vec<u8> = Vec::new();
        let mut i: usize = 0;
        while i < len
            invariant
                i <= len,
                start + len <= self.data_heap.len(),
                bytes@ == self.data_heap@.subrange(start as int, start + i),
            decreases len - i,
        {
            bytes.push(self.data_heap[start + i]);
            assert(self.data_heap@.subrange(start as int, start + i + 1) =~= self.data_heap@.subrange(
                start as int,
                start + i,
            ).push(self.data_heap@[start + i]));
            i += 1;
        }
        string_from_utf8(bytes)
    }

    /// The life score of node `id` at time `now`; zero where `id` is not
    /// that of a node.
    pub fn calculate_life_score(&self, id: u64, now: u64) -> (r: i64)
        ensures
            id < self.count() ==> r == life_score(self.node_headers()[id as int], now),
            id >= self.count() ==> r == 0,
            r >= 0,
    {
        if id >= self.headers.len() as u64 {
            return 0;
        }
        calc_life_score(&self.headers[id as usize], now)
    }

    /// The nodes whose life score at time `now` is below `threshold`, in
    /// the order of their ids. Nothing is removed.
    pub fn vacuum(&self, threshold: i64, now: u64) -> (r: Vec<u64>)
        requires
            self.wf(),
        ensures
            r@ == dead_nodes(self.node_headers(), threshold, now, self.count()),
            forall|id: u64|
                r@.contains(id) <==> (id < self.count() && life_score(
                    self.node_headers()[id as int],
                    now,
                ) < threshold),
            r@.no_duplicates(),
    {
        let n: usize = self.headers.len();
        let mut dead: Vec<u64> = Vec::new();
        let mut i: usize = 0;
        while i < n
            invariant
                i <= n,
                n == self.headers.len(),
                self.wf(),
                dead@ == dead_nodes(self.node_headers(), threshold, now, i as nat),
                forall|id: u64|
                    dead@.contains(id) <==> (id < i && life_score(
                        self.node_headers()[id as int],
                        now,
                    ) < threshold),
                dead@.no_duplicates(),
            decreases n - i,
        {
            let header: &NodeHeader = &self.headers[i];
            let score: i64 = calc_life_score(header, now);
            let ghost before = dead@;
            assert(header.id == i);
            if score < threshold {
                dead.push(header.id);
                proof {
                    crate::ranking::expand::lemma_push_contains(before, header.id);
                    crate::ranking::expand::lemma_push_no_duplicates(before, header.id);
                }
            }
            proof {
                assert forall|id: u64|
                    dead@.contains(id) <==> (id < i + 1 && life_score(
                        self.node_headers()[id as int],
                        now,
                    ) < threshold) by {
                    if score < threshold {
                        assert(dead@.contains(id) <==> (before.contains(id) || id == header.id));
                    }
                }
            }
            i += 1;
        }
        dead
    }

    /// The decayed score of a nearest node is its similarity times its life
    /// score.
    proof fn lemma_decayed_score(
        &self,
        query: Seq<i16>,
        sims: Seq<i128>,
        first: Seq<usize>,
        nearest: Seq<(u64, i64)>,
        now: u64,
        p: int,
    )
        requires
            self.wf(),
            sims == cosine_scores(query, self.embeddings@),
            nearest == with_scores(sims, first),
            0 <= p < first.len(),
            first[p] < sims.len(),
        ensures
            decayed_scores(nearest, self.headers@, now)[p] == hybrid_score(
                query,
                self.embeddings@,
                self.headers@,
                now,
                nearest[p].0,
            ),
            nearest[p].0 == first[p],
    {
        let id = first[p] as int;
        let h = self.headers@[id];
        let sim = cosine(query, self.embeddings@[id]@);
        let life = life_score(h, now);
        lemma_cosine_range(query, self.embeddings@[id]@);
        crate::bio::lemma_life_score_range(h.access_count, h.significance, h.last_access_ts, now);
        assert(nearest[p] == (first[p] as u64, sims[id] as i64));
        assert(sims[id] == sim);
        assert(-(1_000_000 * (1_000_000 * (2 * 0xFFFF_FFFF + 10 * 255))) <= sim * life <= 1_000_000
            * (1_000_000 * (2 * 0xFFFF_FFFF + 10 * 255))) by (nonlinear_arith)
            requires
                -1_000_000 <= sim <= 1_000_000,
                0 <= life <= 1_000_000 * (2 * 0xFFFF_FFFF + 10 * 255),
        ;
    }

    /// The hybrid search: takes the `2 * k` nodes most similar to the query,
    /// orders them by similarity times life score at time `now`, highest
    /// first, and returns the ids of the first `k`. Where two nodes are
    /// equal in the first ordering, the one of the lower id comes first;
    /// where two are equal in the second, the one that came first in the
    /// first.
    pub fn hybrid_search(&self, query_embedding: Vec<i16>, k: usize, now: u64) -> (r: Vec<u64>)
        requires
            self.wf(),
        ensures
            r@ == hybrid_result(
                query_embedding@,
                self.node_embeddings(),
                self.node_headers(),
                k,
                now,
            ),
            r.len() == if k <= self.count() {
                k as int
            } else {
                self.count() as int
            },
            r@.no_duplicates(),
            forall|b: int| 0 <= b < r.len() ==> r[b] < self.count(),
            forall|a: int, b: int|
                0 <= a < b < r.len() ==> hybrid_score(
                    query_embedding@,
                    self.node_embeddings(),
                    self.node_headers(),
                    now,
                    r[a],
                ) >= hybrid_score(
                    query_embedding@,
                    self.node_embeddings(),
                    self.node_headers(),
                    now,
                    r[b],
                ),
    {
        let wide: usize = if k <= usize::MAX / 2 {
            2 * k
        } else {
            usize::MAX
        };
        let query: &[i16] = query_embedding.as_slice();
        let sims: Vec<i128> = scan_scores(query, self.embeddings.as_slice());
        let first: Vec<usize> = select_top(&sims, wide);
        proof {
            assert forall|i: int| 0 <= i < sims.len() implies i64::MIN <= #[trigger] sims[i]
                <= i64::MAX by {
                lemma_cosine_range(query@, self.embeddings@[i]@);
            }
            lemma_top_distinct(sims@, sims.len() as int, wide as int, first@);
        }
        let nearest: Vec<(u64, i64)> = attach_scores(&sims, &first);
        let count: usize = nearest.len();
        let mut scores: Vec<i128> = Vec::new();
        let mut a: usize = 0;
        while a < count
            invariant
                a <= count,
                count == nearest.len(),
                scores.len() == a,
                self.wf(),
                sims@ == cosine_scores(query@, self.embeddings@),
                nearest@ == with_scores(sims@, first@),
                is_top(sims@, wide as int, first@),
                forall|b: int|
                    0 <= b < a ==> scores[b] == decayed_scores(nearest@, self.headers@, now)[b],
            decreases count - a,
        {
            let id: u64 = nearest[a].0;
            let sim: i64 = nearest[a].1;
            proof {
                assert(nearest@[a as int] == with_scores(sims@, first@)[a as int]);
                assert(first@[a as int] < sims.len());
                lemma_cosine_range(query@, self.embeddings@[id as int]@);
            }
            let life: i64 = calc_life_score(&self.headers[id as usize], now);
            assert(-1_000_000 <= sim <= 1_000_000);
            assert(0 <= life <= 1_000_000 * (2 * 0xFFFF_FFFF + 10 * 255));
            assert(-(1_000_000 * (1_000_000 * (2 * 0xFFFF_FFFF + 10 * 255))) <= sim * life
                <= 1_000_000 * (1_000_000 * (2 * 0xFFFF_FFFF + 10 * 255))) by (nonlinear_arith)
                requires
                    -1_000_000 <= sim <= 1_000_000,
                    0 <= life <= 1_000_000 * (2 * 0xFFFF_FFFF + 10 * 255),
            ;
            scores.push((sim as i128) * (life as i128));
            a += 1;
        }
        assert(scores@ =~= decayed_scores(nearest@, self.headers@, now));
        let second: Vec<usize> = select_top(&scores, k);
        proof {
            lemma_top_distinct(scores@, scores.len() as int, k as int, second@);
        }
        let picked: usize = second.len();
        let mut out: Vec<u64> = Vec::new();
        let mut b: usize = 0;
        while b < picked
            invariant
                b <= picked,
                picked == second.len(),
                out.len() == b,
                forall|c: int| 0 <= c < second.len() ==> second[c] < nearest.len(),
                forall|c: int| 0 <= c < b ==> out[c] == ids_at(nearest@, second@)[c],
            decreases picked - b,
        {
            out.push(nearest[second[b]].0);
            b += 1;
        }
        proof {
            assert(out@ =~= ids_at(nearest@, second@));
            assert forall|x: int, y: int| 0 <= x < out.len() && 0 <= y < out.len() && x
                != y implies out@[x] != out@[y] by {
                assert(second@[x] != second@[y]);
                assert(first@[second@[x] as int] != first@[second@[y] as int]);
            }
            assert forall|x: int, y: int| 0 <= x < y < out.len() implies hybrid_score(
                query@,
                self.embeddings@,
                self.headers@,
                now,
                out@[x],
            ) >= hybrid_score(query@, self.embeddings@, self.headers@, now, out@[y]) by {
                let px = second@[x] as int;
                let py = second@[y] as int;
                assert(ranks_before(scores@, px, py));
                self.lemma_decayed_score(query@, sims@, first@, nearest@, now, px);
                self.lemma_decayed_score(query@, sims@, first@, nearest@, now, py);
            }
        }
        out
    }
}

} // verus!
