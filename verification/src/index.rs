//! An approximate index of embeddings: a navigable small-world graph in
//! several layers, kept by the `hnsw_rs` crate.
//!
//! What a search of the graph returns is decided by how the graph was built
//! and by the width of the search, and may miss a nearest neighbour. The
//! contracts here state what holds of every answer: how many results there
//! are at most, that each is a point of the index, and that there is one at
//! least where the index has points of the query's dimension and one at
//! least is asked for.

use crate::search::SCALE;
use hnsw_rs::hnsw::Hnsw;
use hnsw_rs::prelude::DistCosine;
use vstd::prelude::*;

verus! {

/// The largest size that a table of the graph is asked to have.
pub const SIZE_LIMIT: usize = 0x10_0000;

/// The number of layers of a graph.
pub const LAYERS: usize = 16;

/// The largest number of points up to which the graph counts the rank of a
/// point in its layer.
pub const COUNTED_POINTS: usize = 0x7FFF_FFFF;

/// A graph of `hnsw_rs` over vectors of `i32` components, with the cosine
/// distance. Nothing is known of it but through the functions below.
#[verifier::external_body]
pub struct Graph {
    inner: Hnsw<'static, i32, DistCosine>,
}

/// The points of a graph, in the order in which they were inserted, each
/// with the id it was given.
pub uninterp spec fn graph_points(graph: Graph) -> Seq<(usize, Seq<i16>)>;

/// What a graph was made with: the number of connections of a point in a
/// layer, the number of layers, and the width of the search by which a
/// point finds its place.
pub uninterp spec fn graph_made_with(graph: Graph) -> (usize, usize, usize);

/// What a search for `query` finds in a graph that was made with
/// `made_with` and holds `points`, when `k` points are asked for and the
/// search is `ef` wide: each point found as its id and the bits of its
/// distance to the query, which is a 32-bit floating-point number. The graph
/// draws the layer of a point from a generator that always starts the same
/// way, so what it finds is decided by these values.
pub uninterp spec fn graph_found(
    points: Seq<(usize, Seq<i16>)>,
    made_with: (usize, usize, usize),
    query: Seq<i16>,
    k: usize,
    ef: usize,
) -> Seq<(usize, u32)>;

/// Whether every point of a graph has `dimension` components.
pub open spec fn all_of_dimension(points: Seq<(usize, Seq<i16>)>, dimension: int) -> bool {
    forall|p: int| 0 <= p < points.len() ==> (#[trigger] points[p]).1.len() == dimension
}

/// Whether a point of the graph has the id `id`.
pub open spec fn has_id(points: Seq<(usize, Seq<i16>)>, id: int) -> bool {
    exists|p: int| 0 <= p < points.len() && (#[trigger] points[p]).0 == id
}

/// Whether the distances of what was found are not negative and do not fall
/// from one entry to the next. The bits of floating-point numbers that are
/// not negative are in the order of the numbers.
pub open spec fn rising_distances(found: Seq<(usize, u32)>) -> bool {
    &&& forall|i: int| 0 <= i < found.len() ==> (#[trigger] found[i]).1 < 0x8000_0000
    &&& forall|i: int, j: int|
        0 <= i <= j < found.len() ==> (#[trigger] found[i]).1 <= (#[trigger] found[j]).1
}

/// `Hnsw::new` with the cosine distance: a graph without points. The
/// function ends the process for more than 256 connections, draws the layer
/// of a point from `max_layer` layers, of which there must be one, and
/// reserves tables of the sizes it is given.
#[verifier::external_body]
fn graph_new(m: usize, max_elements: usize, max_layer: usize, ef_construction: usize) -> (graph:
    Graph)
    requires
        m <= 256,
        1 <= max_layer,
        max_elements <= SIZE_LIMIT,
        ef_construction <= SIZE_LIMIT,
    ensures
        graph_points(graph) == Seq::<(usize, Seq<i16>)>::empty(),
        graph_made_with(graph) == (m, max_layer, ef_construction),
{
    Graph { inner: Hnsw::new(m, max_elements, max_layer, ef_construction, DistCosine) }
}

/// `Hnsw::insert`: the graph gets one more point, with the id `id`. The
/// distance of two vectors of different lengths is not defined, so the
/// vector has the dimension of the points that are there.
#[verifier::external_body]
fn graph_insert(graph: &mut Graph, vector: &[i16], id: usize)
    requires
        all_of_dimension(graph_points(*old(graph)), vector@.len() as int),
    ensures
        graph_points(*final(graph)) == graph_points(*old(graph)).push((id, vector@)),
        graph_made_with(*final(graph)) == graph_made_with(*old(graph)),
{
    let data: Vec<i32> = vector.iter().map(|x| *x as i32).collect();
    graph.inner.insert((&data, id));
}

/// `Hnsw::search`: what the graph finds for the query, which is at most `k`
/// points of the graph, each as its id and the bits of its distance to the
/// query. The distance is one minus a cosine and never below zero, and the
/// points come in the order of rising distance. The search starts at a
/// point of the graph and keeps a point among its results unless it has
/// found `max(k, ef)` nearer ones, so a search of a graph with points for
/// one point or more comes back with a point. That holds as long as the rank
/// of a point in its layer is counted, which is up to `2^31 - 1` points.
#[verifier::external_body]
fn graph_search(graph: &Graph, query: &[i16], k: usize, ef: usize) -> (r: Vec<(usize, u32)>)
    requires
        all_of_dimension(graph_points(*graph), query@.len() as int),
        k <= SIZE_LIMIT,
        ef <= SIZE_LIMIT,
    ensures
        r@ == graph_found(graph_points(*graph), graph_made_with(*graph), query@, k, ef),
        r.len() <= k,
        forall|i: int| 0 <= i < r.len() ==> has_id(graph_points(*graph), (#[trigger] r[i]).0 as int),
        rising_distances(r@),
        k >= 1 && 0 < graph_points(*graph).len() <= COUNTED_POINTS ==> r.len() >= 1,
{
    let data: Vec<i32> = query.iter().map(|x| *x as i32).collect();
    graph.inner.search(&data, k, ef).into_iter().map(|n| (n.d_id, n.distance.to_bits())).collect()
}

/// The exponent field of a 32-bit floating-point number.
pub open spec fn exponent_of(bits: u32) -> int {
    (bits as int / 0x80_0000) % 0x100
}

/// The fraction field of a 32-bit floating-point number.
pub open spec fn fraction_of(bits: u32) -> int {
    bits as int % 0x80_0000
}

/// Two to the power `e`.
pub open spec fn two_to(e: nat) -> int
    decreases e,
{
    if e == 0 {
        1
    } else {
        2 * two_to((e - 1) as nat)
    }
}

/// The distance that `bits` stand for as a 32-bit floating-point number, in
/// units of `1 / SCALE` and rounded down, and brought into the range of a
/// cosine distance: zero for a negative number, two for a number above two,
/// for an infinite one and for one that is no number.
pub open spec fn distance_of_bits(bits: u32) -> int {
    let exponent = exponent_of(bits);
    let fraction = fraction_of(bits);
    if bits >= 0x8000_0000 {
        0
    } else if exponent >= 128 {
        2 * SCALE
    } else if exponent == 0 {
        0
    } else {
        ((0x80_0000 + fraction) * SCALE) / two_to((150 - exponent) as nat)
    }
}

/// The similarity that a cosine distance stands for: one minus the distance.
pub open spec fn similarity_of_bits(bits: u32) -> int {
    SCALE - distance_of_bits(bits)
}

/// A power of two is positive.
pub proof fn lemma_two_to_positive(e: nat)
    ensures
        two_to(e) >= 1,
    decreases e,
{
    if e > 0 {
        lemma_two_to_positive((e - 1) as nat);
    }
}

/// Powers of two grow with their exponent.
pub proof fn lemma_two_to_grows(a: nat, b: nat)
    requires
        a <= b,
    ensures
        two_to(a) <= two_to(b),
    decreases b,
{
    if a < b {
        lemma_two_to_grows(a, (b - 1) as nat);
        lemma_two_to_positive((b - 1) as nat);
    }
}

/// The similarity that the bits of a cosine distance stand for, in units of
/// `1 / SCALE`.
pub fn similarity_from_distance(bits: u32) -> (r: i64)
    ensures
        r == similarity_of_bits(bits),
        -SCALE <= r <= SCALE,
{
    let exponent: u32 = (bits / 0x80_0000) % 0x100;
    let fraction: u32 = bits % 0x80_0000;
    if bits >= 0x8000_0000 {
        return 1_000_000;
    }
    if exponent >= 128 {
        return -1_000_000;
    }
    if exponent == 0 {
        return 1_000_000;
    }
    let scaled: u64 = (0x80_0000 + fraction as u64) * 1_000_000;
    let shift: u32 = 150 - exponent;
    let mut quotient: u64 = scaled;
    let mut done: u32 = 0;
    while done < shift && quotient > 0
        invariant
            done <= shift,
            quotient == scaled as int / two_to(done as nat),
        decreases shift - done,
    {
        proof {
            lemma_two_to_positive(done as nat);
            let d = two_to(done as nat);
            vstd::arithmetic::div_mod::lemma_div_denominator(scaled as int, d, 2);
            assert(d * 2 == 2 * d);
        }
        quotient = quotient / 2;
        done += 1;
    }
    proof {
        lemma_two_to_positive(done as nat);
        lemma_two_to_positive(shift as nat);
        if done < shift {
            lemma_two_to_grows(done as nat, shift as nat);
            let small = two_to(done as nat);
            let large = two_to(shift as nat);
            vstd::arithmetic::div_mod::lemma_div_is_ordered_by_denominator(
                scaled as int,
                small,
                large,
            );
            vstd::arithmetic::div_mod::lemma_div_pos_is_pos(scaled as int, large);
        }
        assert(quotient == scaled as int / two_to(shift as nat));
        lemma_two_to_grows(23, shift as nat);
        assert(two_to(23) == 0x80_0000) by {
            reveal_with_fuel(two_to, 24);
        }
        vstd::arithmetic::div_mod::lemma_div_is_ordered_by_denominator(
            scaled as int,
            0x80_0000,
            two_to(shift as nat),
        );
        assert(scaled as int / 0x80_0000 <= 2_000_000);
    }
    1_000_000 - quotient as i64
}

/// A distance is not negative and at most two.
pub proof fn lemma_distance_range(bits: u32)
    ensures
        0 <= distance_of_bits(bits) <= 2 * SCALE,
{
    let exponent = exponent_of(bits);
    let fraction = fraction_of(bits);
    if bits < 0x8000_0000 && 1 <= exponent < 128 {
        let scaled = (0x80_0000 + fraction) * SCALE;
        let shift = (150 - exponent) as nat;
        lemma_two_to_positive(shift);
        lemma_two_to_grows(23, shift);
        assert(two_to(23) == 0x80_0000) by {
            reveal_with_fuel(two_to, 24);
        }
        vstd::arithmetic::div_mod::lemma_div_is_ordered_by_denominator(
            scaled,
            0x80_0000,
            two_to(shift),
        );
        vstd::arithmetic::div_mod::lemma_div_pos_is_pos(scaled, two_to(shift));
        assert(scaled / 0x80_0000 <= 2_000_000);
    }
}

/// Of two floating-point numbers that are not negative, the one of the
/// lower bits stands for the lower distance.
pub proof fn lemma_distance_rises(low: u32, high: u32)
    requires
        low <= high < 0x8000_0000,
    ensures
        distance_of_bits(low) <= distance_of_bits(high),
{
    let e1 = exponent_of(low);
    let e2 = exponent_of(high);
    let f1 = fraction_of(low);
    let f2 = fraction_of(high);
    lemma_distance_range(low);
    lemma_distance_range(high);
    assert(e1 == low as int / 0x80_0000);
    assert(e2 == high as int / 0x80_0000);
    assert(e1 <= e2);
    if 1 <= e1 && e2 < 128 {
        let n1 = (0x80_0000 + f1) * SCALE;
        let n2 = (0x80_0000 + f2) * SCALE;
        let d2 = two_to((150 - e2) as nat);
        lemma_two_to_positive((150 - e2) as nat);
        if e1 == e2 {
            assert(f1 <= f2);
            vstd::arithmetic::div_mod::lemma_div_is_ordered(n1, n2, d2);
        } else {
            let d1 = two_to((150 - e1) as nat);
            lemma_two_to_grows((150 - e2 + 1) as nat, (150 - e1) as nat);
            assert(two_to((150 - e2 + 1) as nat) == 2 * d2);
            assert(d2 * 2 == 2 * d2);
            vstd::arithmetic::div_mod::lemma_div_is_ordered_by_denominator(n1, 2 * d2, d1);
            vstd::arithmetic::div_mod::lemma_div_denominator(n1, 2, d2);
            assert(n1 / 2 <= n2);
            vstd::arithmetic::div_mod::lemma_div_is_ordered(n1 / 2, n2, d2);
            assert(2 * d2 == 2 * d2);
        }
    }
}

/// Whether the similarities of an answer do not rise from one entry to the
/// next.
pub open spec fn falling_similarities(answer: Seq<(u64, i64)>) -> bool {
    forall|i: int, j: int|
        0 <= i <= j < answer.len() ==> (#[trigger] answer[i]).1 >= (#[trigger] answer[j]).1
}

/// The setting that is given, kept to `SIZE_LIMIT`, or `fallback` where
/// none is given.
pub open spec fn setting(given: Option<usize>, fallback: usize) -> usize {
    match given {
        Some(value) => if value <= SIZE_LIMIT {
            value
        } else {
            SIZE_LIMIT
        },
        None => fallback,
    }
}

/// The setting that is given, kept to `SIZE_LIMIT`, or `fallback` where
/// none is given.
pub fn setting_of(given: Option<usize>, fallback: usize) -> (r: usize)
    ensures
        r == setting(given, fallback),
{
    match given {
        Some(value) => if value <= SIZE_LIMIT {
            value
        } else {
            SIZE_LIMIT
        },
        None => fallback,
    }
}

/// What a search of the graph found, as the index answers it: each point
/// with its id and the similarity that its distance stands for.
pub open spec fn answers_of(found: Seq<(usize, u32)>) -> Seq<(u64, i64)> {
    Seq::new(found.len(), |i: int| (found[i].0 as u64, similarity_of_bits(found[i].1) as i64))
}

/// Turns what a search of the graph found into the answer of the index:
/// each id with the similarity that the bits of its distance stand for.
pub fn answers(found: &Vec<(usize, u32)>) -> (r: Vec<(u64, i64)>)
    ensures
        r@ == answers_of(found@),
        forall|i: int| 0 <= i < r.len() ==> -SCALE <= (#[trigger] r[i]).1 <= SCALE,
        rising_distances(found@) ==> falling_similarities(r@),
{
    let n: usize = found.len();
    let mut out: Vec<(u64, i64)> = Vec::new();
    let mut i: usize = 0;
    while i < n
        invariant
            i <= n,
            n == found.len(),
            out.len() == i,
            forall|j: int| 0 <= j < i ==> out[j] == answers_of(found@)[j],
            forall|j: int| 0 <= j < i ==> -SCALE <= (#[trigger] out[j]).1 <= SCALE,
        decreases n - i,
    {
        let similarity: i64 = similarity_from_distance(found[i].1);
        out.push((found[i].0 as u64, similarity));
        i += 1;
    }
    assert(out@ =~= answers_of(found@));
    proof {
        if rising_distances(found@) {
            assert forall|i: int, j: int| 0 <= i <= j < out.len() implies (#[trigger] out@[i]).1
                >= (#[trigger] out@[j]).1 by {
                lemma_distance_rises(found@[i].1, found@[j].1);
                lemma_distance_range(found@[i].1);
                lemma_distance_range(found@[j].1);
            }
        }
    }
    out
}

/// An index of embeddings for approximate search.
pub struct VectorIndex {
    graph: Graph,
    dimension: usize,
    count: usize,
}

impl VectorIndex {
    /// The points of the index, in the order in which they were added, each
    /// with its id.
    pub closed spec fn points(&self) -> Seq<(usize, Seq<i16>)> {
        graph_points(self.graph)
    }

    /// What the graph of the index was made with: the number of connections
    /// of a point in a layer, the number of layers, and the width of the
    /// search by which a point finds its place.
    pub closed spec fn made_with(&self) -> (usize, usize, usize) {
        graph_made_with(self.graph)
    }

    /// Whether the index takes `vector` under the id `id`: the id and the
    /// number of points can be counted, and the vector has the dimension of
    /// the points that are there.
    pub open spec fn accepts(&self, id: u64, vector: Seq<i16>) -> bool {
        &&& id <= usize::MAX
        &&& self.points().len() < usize::MAX
        &&& (self.points().len() == 0 || vector.len() == self.points()[0].1.len())
    }

    /// Whether a search for `query` goes to the graph: the index has points,
    /// and the query has their dimension.
    pub open spec fn searches(&self, query: Seq<i16>) -> bool {
        self.points().len() > 0 && query.len() == self.points()[0].1.len()
    }

    /// Whether the index is in order: its points are of one dimension.
    pub closed spec fn wf(&self) -> bool {
        &&& self.count == graph_points(self.graph).len()
        &&& all_of_dimension(graph_points(self.graph), self.dimension as int)
    }

    /// An index without points. `m` is the number of connections of a point
    /// in a layer (16 where it is not given), `max_elements` the number of
    /// points to reserve room for (a million), `ef_construction` the width
    /// of the search by which a point finds its place (200). Room is
    /// reserved for `SIZE_LIMIT` points at most, and the width is at most
    /// `SIZE_LIMIT`. The graph has `LAYERS` layers.
    pub fn new(m: Option<usize>, max_elements: Option<usize>, ef_construction: Option<usize>) -> (r:
        VectorIndex)
        requires
            m matches Some(connections) ==> connections <= 256,
        ensures
            r.wf(),
            r.points().len() == 0,
            r.made_with() == (
                match m {
                    Some(connections) => connections,
                    None => 16usize,
                },
                LAYERS,
                setting(ef_construction, 200),
            ),
    {
        let connections: usize = match m {
            Some(value) => value,
            None => 16,
        };
        let room: usize = setting_of(max_elements, 1_000_000);
        let width: usize = setting_of(ef_construction, 200);
        VectorIndex {
            graph: graph_new(connections, room, LAYERS, width),
            dimension: 0,
            count: 0,
        }
    }

    /// The number of points of the index.
    pub fn len(&self) -> (r: usize)
        requires
            self.wf(),
        ensures
            r == self.points().len(),
    {
        self.count
    }

    /// Adds a vector to the index, under the id `id`. The first vector
    /// decides the dimension of the index; a later vector of another
    /// dimension is not added. Nor is a vector added once the index holds
    /// as many points as can be counted.
    pub fn add(&mut self, id: u64, vector: &[i16])
        requires
            old(self).wf(),
        ensures
            final(self).wf(),
            final(self).made_with() == old(self).made_with(),
            final(self).points() == if old(self).accepts(id, vector@) {
                old(self).points().push((id as usize, vector@))
            } else {
                old(self).points()
            },
    {
        if id > usize::MAX as u64 || self.count == usize::MAX {
            return ;
        }
        if self.count == 0 {
            self.dimension = vector.len();
        } else if vector.len() != self.dimension {
            return ;
        }
        graph_insert(&mut self.graph, vector, id as usize);
        self.count = self.count + 1;
    }

    /// Searches the index for the `k` points nearest to `query`: at most `k`
    /// points, and at most `SIZE_LIMIT`, each as its id and its similarity to
    /// the query as the graph computed it, most similar first. `ef_search`
    /// is the width of the search (64 where it is not given, and at most
    /// `SIZE_LIMIT`). The answer is empty for an empty index and for a query
    /// of another dimension than the index; else the graph is searched, and
    /// what it found is answered as `answers` turns it. Which points the
    /// graph finds is up to the graph; it finds one at least where one at
    /// least is asked for.
    pub fn search(&self, query: &[i16], k: usize, ef_search: Option<usize>) -> (r: Vec<(u64, i64)>)
        requires
            self.wf(),
        ensures
            !self.searches(query@) ==> r.len() == 0,
            self.searches(query@) ==> r@ == answers_of(
                graph_found(
                    self.points(),
                    self.made_with(),
                    query@,
                    setting(Some(k), 0),
                    setting(ef_search, 64),
                ),
            ),
            r.len() <= k,
            r.len() <= SIZE_LIMIT,
            forall|i: int| 0 <= i < r.len() ==> has_id(self.points(), (#[trigger] r[i]).0 as int),
            forall|i: int| 0 <= i < r.len() ==> -SCALE <= (#[trigger] r[i]).1 <= SCALE,
            falling_similarities(r@),
            self.searches(query@) && k >= 1 && self.points().len() <= COUNTED_POINTS ==> r.len()
                >= 1,
    {
        if self.count == 0 || query.len() != self.dimension {
            return Vec::new();
        }
        let wanted: usize = setting_of(Some(k), 0);
        let width: usize = setting_of(ef_search, 64);
        let found: Vec<(usize, u32)> = graph_search(&self.graph, query, wanted, width);
        proof {
            assert forall|i: int| 0 <= i < found.len() implies has_id(
                self.points(),
                (#[trigger] answers_of(found@)[i]).0 as int,
            ) by {
                assert(has_id(self.points(), found[i].0 as int));
            }
        }
        answers(&found)
    }
}

} // verus!
