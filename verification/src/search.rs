//! The similarity primitive: cosine similarity of quantised embeddings, and
//! the scan that ranks a corpus against a query.
//!
//! An embedding is a vector of `i16` components. A similarity is a fixed-point
//! number: `SCALE` stands for one.

pub use crate::index::VectorIndex;
use crate::root::{
    floor_root, floor_root_bounded, is_floor_root, lemma_floor_root_exists, lemma_floor_root_is,
    lemma_pow_monotone, lemma_pow_unfold, lemma_pow_zero_exponent,
};
use crate::topk::{is_top, select_top, top_order};
use crate::wide::Wide;
use vstd::arithmetic::power::pow;
use vstd::prelude::*;

verus! {

/// One whole unit of a fixed-point score.
pub const SCALE: i64 = 1_000_000;

/// The sum of the products of the first `n` components of `a` and `b`.
pub open spec fn dot_upto(a: Seq<i16>, b: Seq<i16>, n: nat) -> int
    decreases n,
{
    if n == 0 {
        0
    } else {
        dot_upto(a, b, (n - 1) as nat) + a[n - 1] * b[n - 1]
    }
}

/// The dot product of `a` and `b`, over the components that both have.
pub open spec fn dot(a: Seq<i16>, b: Seq<i16>) -> int {
    dot_upto(a, b, if a.len() <= b.len() { a.len() } else { b.len() })
}

/// The square of the Euclidean norm of `a`.
pub open spec fn norm_sq(a: Seq<i16>) -> int {
    dot_upto(a, a, a.len())
}

/// The cosine of the angle between `a` and `b`, in units of `1 / SCALE`,
/// rounded towards zero; zero where either vector has no length.
pub open spec fn cosine(a: Seq<i16>, b: Seq<i16>) -> int {
    let d = dot(a, b);
    let na = norm_sq(a);
    let nb = norm_sq(b);
    if na == 0 || nb == 0 {
        0
    } else {
        let m = floor_root(2, SCALE * SCALE * (d * d), na * nb);
        if d >= 0 {
            m
        } else {
            -m
        }
    }
}

/// The second power of a number is the number times itself.
pub proof fn lemma_square_pow(x: int)
    ensures
        pow(x, 2) == x * x,
{
    lemma_pow_unfold(x, 2);
    lemma_pow_unfold(x, 1);
    lemma_pow_zero_exponent(x);
    assert(x * (x * 1) == x * x) by (nonlinear_arith);
}

/// The sum of the squares of `n` components is not negative and at most
/// `n` times `2^30`.
pub proof fn lemma_self_dot_bounds(a: Seq<i16>, n: nat)
    requires
        n <= a.len(),
    ensures
        0 <= dot_upto(a, a, n) <= n * 0x4000_0000,
    decreases n,
{
    if n > 0 {
        lemma_self_dot_bounds(a, (n - 1) as nat);
        let x = a[n - 1] as int;
        assert(0 <= x * x <= 0x4000_0000) by (nonlinear_arith)
            requires
                -0x8000 <= x <= 0x7FFF,
        ;
    }
}

/// The sum of the squares of the first components grows with their number.
pub proof fn lemma_self_dot_grows(a: Seq<i16>, m: nat, n: nat)
    requires
        m <= n <= a.len(),
    ensures
        dot_upto(a, a, m) <= dot_upto(a, a, n),
    decreases n,
{
    if m < n {
        lemma_self_dot_grows(a, m, (n - 1) as nat);
        let x = a[n - 1] as int;
        assert(0 <= x * x) by (nonlinear_arith);
    }
}

/// A dot product does not depend on the order of its arguments.
pub proof fn lemma_dot_symmetric(a: Seq<i16>, b: Seq<i16>, n: nat)
    ensures
        dot_upto(a, b, n) == dot_upto(b, a, n),
    decreases n,
{
    if n > 0 {
        lemma_dot_symmetric(a, b, (n - 1) as nat);
        let x = a[n - 1] as int;
        let y = b[n - 1] as int;
        assert(x * y == y * x) by (nonlinear_arith);
    }
}

/// One more component keeps the square of a dot product below the product
/// of the squared norms.
proof fn lemma_cauchy_schwarz_step(d: int, a: int, b: int, x: int, y: int)
    requires
        0 <= a,
        0 <= b,
        d * d <= a * b,
    ensures
        (d + x * y) * (d + x * y) <= (a + x * x) * (b + y * y),
{
    let p = a * (y * y);
    let q = b * (x * x);
    let z = x * y;
    let v = 2 * (d * z);
    let u = p + q;
    assert(0 <= y * y && 0 <= x * x && 0 <= z * z) by (nonlinear_arith)
        requires
            z == x * y,
    ;
    assert(p >= 0 && q >= 0) by (nonlinear_arith)
        requires
            p == a * (y * y),
            q == b * (x * x),
            a >= 0,
            b >= 0,
            0 <= y * y,
            0 <= x * x,
    ;
    assert(u * u >= 4 * (p * q)) by (nonlinear_arith)
        requires
            u == p + q,
    ;
    assert(p * q == (a * b) * (z * z)) by (nonlinear_arith)
        requires
            p == a * (y * y),
            q == b * (x * x),
            z == x * y,
    ;
    assert((d * d) * (z * z) <= (a * b) * (z * z)) by (nonlinear_arith)
        requires
            d * d <= a * b,
            0 <= z * z,
    ;
    assert(v * v == 4 * ((d * d) * (z * z))) by (nonlinear_arith)
        requires
            v == 2 * (d * z),
    ;
    assert(v * v <= u * u);
    assert(v <= u) by (nonlinear_arith)
        requires
            v * v <= u * u,
            u >= 0,
    ;
    assert((d + z) * (d + z) == d * d + v + z * z) by (nonlinear_arith)
        requires
            v == 2 * (d * z),
    ;
    assert((a + x * x) * (b + y * y) == a * b + u + z * z) by (nonlinear_arith)
        requires
            u == p + q,
            p == a * (y * y),
            q == b * (x * x),
            z == x * y,
    ;
}

/// The square of a dot product is at most the product of the squared norms.
pub proof fn lemma_cauchy_schwarz(a: Seq<i16>, b: Seq<i16>, n: nat)
    requires
        n <= a.len(),
        n <= b.len(),
    ensures
        dot_upto(a, b, n) * dot_upto(a, b, n) <= dot_upto(a, a, n) * dot_upto(b, b, n),
    decreases n,
{
    if n == 0 {
        assert(0int * 0int <= 0int * 0int) by (nonlinear_arith);
    } else {
        let m = (n - 1) as nat;
        lemma_cauchy_schwarz(a, b, m);
        lemma_self_dot_bounds(a, m);
        lemma_self_dot_bounds(b, m);
        lemma_cauchy_schwarz_step(
            dot_upto(a, b, m),
            dot_upto(a, a, m),
            dot_upto(b, b, m),
            a[n - 1] as int,
            b[n - 1] as int,
        );
    }
}

/// The square of the dot product of two vectors of any lengths is at most
/// the product of their squared norms.
pub proof fn lemma_dot_bounded_by_norms(a: Seq<i16>, b: Seq<i16>)
    ensures
        dot(a, b) * dot(a, b) <= norm_sq(a) * norm_sq(b),
        norm_sq(a) >= 0,
        norm_sq(b) >= 0,
{
    let n: nat = if a.len() <= b.len() {
        a.len()
    } else {
        b.len()
    };
    lemma_cauchy_schwarz(a, b, n);
    lemma_self_dot_grows(a, n, a.len());
    lemma_self_dot_grows(b, n, b.len());
    lemma_self_dot_bounds(a, n);
    lemma_self_dot_bounds(b, n);
    lemma_self_dot_bounds(a, a.len());
    lemma_self_dot_bounds(b, b.len());
    let x = dot_upto(a, a, n);
    let y = dot_upto(b, b, n);
    let na = norm_sq(a);
    let nb = norm_sq(b);
    assert(x * y <= na * nb) by (nonlinear_arith)
        requires
            0 <= x <= na,
            0 <= y <= nb,
    ;
}

/// A cosine lies between minus one and one.
pub proof fn lemma_cosine_range(a: Seq<i16>, b: Seq<i16>)
    ensures
        -SCALE <= cosine(a, b) <= SCALE,
{
    let d = dot(a, b);
    let na = norm_sq(a);
    let nb = norm_sq(b);
    lemma_dot_bounded_by_norms(a, b);
    if na != 0 && nb != 0 {
        let num = SCALE * SCALE * (d * d);
        let den = na * nb;
        assert(den > 0) by (nonlinear_arith)
            requires
                den == na * nb,
                na > 0,
                nb > 0,
        ;
        assert(num >= 0) by (nonlinear_arith)
            requires
                num == SCALE * SCALE * (d * d),
        ;
        lemma_floor_root_exists(2, num, den);
        let m = floor_root(2, num, den);
        if m > SCALE {
            lemma_pow_monotone(SCALE + 1, m, 2);
            lemma_square_pow(SCALE + 1);
            let q = pow(m, 2);
            assert(q * den > num) by (nonlinear_arith)
                requires
                    q >= (SCALE + 1) * (SCALE + 1),
                    den > 0,
                    d * d <= den,
                    num == SCALE * SCALE * (d * d),
            ;
        }
    }
}

/// The cosine similarity of `v1` and `v2`: `SCALE` times the cosine of their
/// angle, rounded towards zero. It is zero where either vector has zero norm.
/// The dot product runs over the components that both vectors have.
pub fn cosine_similarity(v1: &[i16], v2: &[i16]) -> (r: i64)
    ensures
        r == cosine(v1@, v2@),
        -SCALE <= r <= SCALE,
{
    let n1: usize = v1.len();
    let n2: usize = v2.len();
    let n: usize = if n1 <= n2 {
        n1
    } else {
        n2
    };
    let mut d: i128 = 0;
    let mut i: usize = 0;
    while i < n
        invariant
            i <= n,
            n <= v1.len(),
            n <= v2.len(),
            d == dot_upto(v1@, v2@, i as nat),
            -(i * 0x4000_0000) <= d <= i * 0x4000_0000,
        decreases n - i,
    {
        let x: i128 = v1[i] as i128;
        let y: i128 = v2[i] as i128;
        assert(-0x4000_0000 <= x * y <= 0x4000_0000) by (nonlinear_arith)
            requires
                -0x8000 <= x <= 0x7FFF,
                -0x8000 <= y <= 0x7FFF,
        ;
        d = d + x * y;
        i += 1;
    }
    let na: u128 = squared_norm(v1);
    let nb: u128 = squared_norm(v2);
    proof {
        lemma_cosine_range(v1@, v2@);
    }
    if na == 0 || nb == 0 {
        return 0;
    }
    let mag: u128 = if d >= 0 {
        d as u128
    } else {
        (-d) as u128
    };
    let scale: u128 = 1_000_000;
    let one: Wide = Wide::one();
    let num: Wide = one.mul_small(scale).mul_small(scale).mul_small(mag).mul_small(mag);
    let den: Wide = one.mul_small(na).mul_small(nb);
    proof {
        let di = d as int;
        let s = SCALE as int;
        lemma_dot_bounded_by_norms(v1@, v2@);
        assert(mag * mag == di * di) by (nonlinear_arith)
            requires
                mag == di || mag == -di,
        ;
        assert(num@ == s * s * (di * di)) by (nonlinear_arith)
            requires
                num@ == 1 * scale * scale * mag * mag,
                scale == s,
                mag * mag == di * di,
        ;
        assert(den@ == na * nb) by (nonlinear_arith)
            requires
                den@ == 1 * na * nb,
        ;
        assert(na * nb > 0) by (nonlinear_arith)
            requires
                na > 0,
                nb > 0,
        ;
        lemma_square_pow(s + 1);
        assert(num@ < ((s + 1) * (s + 1)) * den@) by (nonlinear_arith)
            requires
                num@ == s * s * (di * di),
                di * di <= den@,
                den@ > 0,
                s > 0,
        ;
    }
    let m: u128 = floor_root_bounded(2, &num, &den, scale);
    if d >= 0 {
        m as i64
    } else {
        -(m as i64)
    }
}

/// The square of the Euclidean norm of `v`.
pub fn squared_norm(v: &[i16]) -> (r: u128)
    ensures
        r == norm_sq(v@),
        r <= v.len() * 0x4000_0000,
{
    let n: usize = v.len();
    let mut acc: u128 = 0;
    let mut i: usize = 0;
    while i < n
        invariant
            i <= n,
            n == v.len(),
            acc == dot_upto(v@, v@, i as nat),
            acc <= i * 0x4000_0000,
        decreases n - i,
    {
        let x: i64 = v[i] as i64;
        assert(0 <= x * x <= 0x4000_0000) by (nonlinear_arith)
            requires
                -0x8000 <= x <= 0x7FFF,
        ;
        let sq: i64 = x * x;
        acc = acc + sq as u128;
        i += 1;
    }
    acc
}

/// A vector with a component other than zero has a positive norm.
pub proof fn lemma_norm_positive(v: Seq<i16>, i: int)
    requires
        0 <= i < v.len(),
        v[i] != 0,
    ensures
        norm_sq(v) > 0,
{
    lemma_self_dot_bounds(v, i as nat);
    lemma_self_dot_grows(v, (i + 1) as nat, v.len());
    let x = v[i] as int;
    assert(x * x > 0) by (nonlinear_arith)
        requires
            x != 0,
    ;
}

/// Two vectors of one norm whose dot product is that norm squared, or its
/// negative, are at similarity one, or minus one.
proof fn lemma_cosine_of_parallel(a: Seq<i16>, b: Seq<i16>)
    requires
        norm_sq(a) > 0,
        norm_sq(b) == norm_sq(a),
        dot(a, b) == norm_sq(a) || dot(a, b) == -norm_sq(a),
    ensures
        dot(a, b) > 0 ==> cosine(a, b) == SCALE,
        dot(a, b) < 0 ==> cosine(a, b) == -SCALE,
{
    let n = norm_sq(a);
    let d = dot(a, b);
    let s = SCALE as int;
    let num = s * s * (d * d);
    let den = n * n;
    assert(d * d == n * n) by (nonlinear_arith)
        requires
            d == n || d == -n,
    ;
    assert(den > 0) by (nonlinear_arith)
        requires
            den == n * n,
            n > 0,
    ;
    lemma_square_pow(s);
    lemma_square_pow(s + 1);
    assert((s * s) * den == num && num < ((s + 1) * (s + 1)) * den) by (nonlinear_arith)
        requires
            num == s * s * (d * d),
            d * d == den,
            den > 0,
            s > 0,
    ;
    assert(is_floor_root(s, 2, num, den));
    lemma_floor_root_is(s, 2, num, den);
}

/// A vector that is not zero is at similarity one with itself.
pub proof fn lemma_cosine_of_itself(v: Seq<i16>)
    requires
        exists|i: int| 0 <= i < v.len() && v[i] != 0,
    ensures
        cosine(v, v) == SCALE,
{
    let i = choose|i: int| 0 <= i < v.len() && v[i] != 0;
    lemma_norm_positive(v, i);
    lemma_cosine_of_parallel(v, v);
}

/// The dot product of a vector and its negation is the negative of its
/// squared norm, and both have the same norm.
proof fn lemma_dot_of_negation(v: Seq<i16>, w: Seq<i16>, n: nat)
    requires
        n <= v.len(),
        w.len() == v.len(),
        forall|i: int| 0 <= i < v.len() ==> w[i] == -v[i],
    ensures
        dot_upto(v, w, n) == -dot_upto(v, v, n),
        dot_upto(w, w, n) == dot_upto(v, v, n),
    decreases n,
{
    if n > 0 {
        lemma_dot_of_negation(v, w, (n - 1) as nat);
        let x = v[n - 1] as int;
        let y = w[n - 1] as int;
        assert(x * y == -(x * x) && y * y == x * x) by (nonlinear_arith)
            requires
                y == -x,
        ;
    }
}

/// A vector that is not zero is at similarity minus one with its negation.
pub proof fn lemma_cosine_of_negation(v: Seq<i16>, w: Seq<i16>)
    requires
        exists|i: int| 0 <= i < v.len() && v[i] != 0,
        w.len() == v.len(),
        forall|i: int| 0 <= i < v.len() ==> w[i] == -v[i],
    ensures
        cosine(v, w) == -SCALE,
{
    let i = choose|i: int| 0 <= i < v.len() && v[i] != 0;
    lemma_norm_positive(v, i);
    lemma_dot_of_negation(v, w, v.len());
    lemma_cosine_of_parallel(v, w);
}

/// Similarity does not depend on the order of its arguments.
pub proof fn lemma_cosine_symmetric(a: Seq<i16>, b: Seq<i16>)
    ensures
        cosine(a, b) == cosine(b, a),
{
    let n: nat = if a.len() <= b.len() {
        a.len()
    } else {
        b.len()
    };
    lemma_dot_symmetric(a, b, n);
    let na = norm_sq(a);
    let nb = norm_sq(b);
    assert(na * nb == nb * na) by (nonlinear_arith);
}

/// The similarity of a vector of zero norm with any vector is zero.
pub proof fn lemma_cosine_of_zero_norm(a: Seq<i16>, b: Seq<i16>)
    requires
        norm_sq(a) == 0 || norm_sq(b) == 0,
    ensures
        cosine(a, b) == 0,
        cosine(b, a) == 0,
{
}

/// A vector whose components are all zero has zero norm.
proof fn lemma_norm_of_zeros(v: Seq<i16>, n: nat)
    requires
        n <= v.len(),
        forall|i: int| 0 <= i < v.len() ==> v[i] == 0,
    ensures
        dot_upto(v, v, n) == 0,
    decreases n,
{
    if n > 0 {
        lemma_norm_of_zeros(v, (n - 1) as nat);
    }
}

/// The similarity of a vector whose components are all zero with any vector
/// is zero.
pub proof fn lemma_cosine_of_zero_vector(a: Seq<i16>, b: Seq<i16>)
    requires
        forall|i: int| 0 <= i < a.len() ==> a[i] == 0,
    ensures
        cosine(a, b) == 0,
        cosine(b, a) == 0,
{
    lemma_norm_of_zeros(a, a.len());
}

/// The similarity of `query` to each embedding of a corpus, in corpus order.
pub open spec fn cosine_scores(query: Seq<i16>, embeddings: Seq<Vec<i16>>) -> Seq<i128> {
    Seq::new(embeddings.len(), |i: int| cosine(query, embeddings[i]@) as i128)
}

/// The positions `order` of a list of scores, each with its score.
pub open spec fn with_scores(scores: Seq<i128>, order: Seq<usize>) -> Seq<(u64, i64)> {
    Seq::new(order.len(), |a: int| (order[a] as u64, scores[order[a] as int] as i64))
}

/// The similarity of `query` to each embedding of a corpus, in corpus order.
pub fn scan_scores(query: &[i16], embeddings: &[Vec<i16>]) -> (scores: Vec<i128>)
    ensures
        scores@ == cosine_scores(query@, embeddings@),
{
    let n: usize = embeddings.len();
    let mut scores: Vec<i128> = Vec::new();
    let mut i: usize = 0;
    while i < n
        invariant
            i <= n,
            n == embeddings.len(),
            scores.len() == i,
            forall|j: int| 0 <= j < i ==> scores[j] == cosine(query@, embeddings[j]@),
        decreases n - i,
    {
        let sim: i64 = cosine_similarity(query, embeddings[i].as_slice());
        scores.push(sim as i128);
        i += 1;
    }
    assert(scores@ =~= cosine_scores(query@, embeddings@));
    scores
}

/// Pairs each position of `order` with its score.
pub fn attach_scores(scores: &Vec<i128>, order: &Vec<usize>) -> (r: Vec<(u64, i64)>)
    requires
        forall|a: int| 0 <= a < order.len() ==> order[a] < scores.len(),
        forall|i: int| 0 <= i < scores.len() ==> i64::MIN <= #[trigger] scores[i] <= i64::MAX,
    ensures
        r@ == with_scores(scores@, order@),
{
    let n: usize = order.len();
    let mut out: Vec<(u64, i64)> = Vec::new();
    let mut a: usize = 0;
    while a < n
        invariant
            a <= n,
            n == order.len(),
            out.len() == a,
            forall|b: int| 0 <= b < order.len() ==> order[b] < scores.len(),
            forall|i: int| 0 <= i < scores.len() ==> i64::MIN <= #[trigger] scores[i] <= i64::MAX,
            forall|b: int| 0 <= b < a ==> out[b] == with_scores(scores@, order@)[b],
        decreases n - a,
    {
        let pos: usize = order[a];
        out.push((pos as u64, scores[pos] as i64));
        a += 1;
    }
    assert(out@ =~= with_scores(scores@, order@));
    out
}

/// The `k` embeddings of a corpus that are most similar to `query`, most
/// similar first, each as its position in the corpus and its similarity. Of
/// two embeddings of equal similarity the one that stands earlier in the
/// corpus comes first. Where the corpus holds fewer than `k`, all are returned.
pub fn top_k(query: &[i16], embeddings: &[Vec<i16>], k: usize) -> (r: Vec<(u64, i64)>)
    ensures
        r@ == with_scores(
            cosine_scores(query@, embeddings@),
            top_order(cosine_scores(query@, embeddings@), k as int),
        ),
        is_top(
            cosine_scores(query@, embeddings@),
            k as int,
            top_order(cosine_scores(query@, embeddings@), k as int),
        ),
        r.len() == if k <= embeddings.len() {
            k
        } else {
            embeddings.len()
        },
{
    let scores: Vec<i128> = scan_scores(query, embeddings);
    let order: Vec<usize> = select_top(&scores, k);
    proof {
        assert forall|i: int| 0 <= i < scores.len() implies i64::MIN <= #[trigger] scores[i]
            <= i64::MAX by {
            lemma_cosine_range(query@, embeddings@[i]@);
        }
    }
    attach_scores(&scores, &order)
}

} // verus!
