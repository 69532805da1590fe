//! Floors of roots of ratios: the one rounding that every score of this crate
//! goes through.

use crate::wide::{Wide, FACTOR_LIMIT};
use vstd::arithmetic::power::pow;
use vstd::prelude::*;

verus! {

/// `r` is the `p`-th root of `num / den`, rounded down: the largest natural
/// number whose `p`-th power, times `den`, does not exceed `num`.
pub open spec fn is_floor_root(r: int, p: nat, num: int, den: int) -> bool {
    &&& r >= 0
    &&& pow(r, p) * den <= num
    &&& num < pow(r + 1, p) * den
}

/// The `p`-th root of `num / den`, rounded down.
pub open spec fn floor_root(p: nat, num: int, den: int) -> int {
    choose|r: int| is_floor_root(r, p, num, den)
}

/// A power with a positive exponent is the base times the power with the
/// exponent before.
pub proof fn lemma_pow_unfold(b: int, e: nat)
    requires
        e >= 1,
    ensures
        pow(b, e) == b * pow(b, (e - 1) as nat),
{
    reveal(pow);
}

/// A power with the exponent zero is one.
pub proof fn lemma_pow_zero_exponent(b: int)
    ensures
        pow(b, 0) == 1,
{
    reveal(pow);
}

/// A power of a number that is not negative is not negative.
pub proof fn lemma_pow_nonnegative(b: int, e: nat)
    requires
        b >= 0,
    ensures
        pow(b, e) >= 0,
    decreases e,
{
    reveal(pow);
    if e > 0 {
        lemma_pow_nonnegative(b, (e - 1) as nat);
        let q = pow(b, (e - 1) as nat);
        assert(b * q >= 0) by (nonlinear_arith)
            requires
                b >= 0,
                q >= 0,
        ;
    }
}

/// Powers keep the order of their bases.
pub proof fn lemma_pow_monotone(a: int, b: int, e: nat)
    requires
        0 <= a <= b,
    ensures
        pow(a, e) <= pow(b, e),
    decreases e,
{
    reveal(pow);
    if e > 0 {
        lemma_pow_monotone(a, b, (e - 1) as nat);
        lemma_pow_nonnegative(a, (e - 1) as nat);
        let x = pow(a, (e - 1) as nat);
        let y = pow(b, (e - 1) as nat);
        assert(a * x <= b * y) by (nonlinear_arith)
            requires
                0 <= a <= b,
                0 <= x <= y,
        ;
    }
}

/// A power with a positive exponent is at least its base.
pub proof fn lemma_pow_at_least_base(b: int, e: nat)
    requires
        b >= 1,
        e >= 1,
    ensures
        pow(b, e) >= b,
    decreases e,
{
    reveal(pow);
    if e > 1 {
        lemma_pow_at_least_base(b, (e - 1) as nat);
        let q = pow(b, (e - 1) as nat);
        assert(b * q >= b) by (nonlinear_arith)
            requires
                b >= 1,
                q >= 1,
        ;
    } else {
        assert(pow(b, 0) == 1);
    }
}

/// Powers of bases in strict order, to a positive exponent, are in strict order.
pub proof fn lemma_pow_strictly_monotone(a: int, b: int, e: nat)
    requires
        0 <= a < b,
        e >= 1,
    ensures
        pow(a, e) < pow(b, e),
    decreases e,
{
    lemma_pow_unfold(a, e);
    lemma_pow_unfold(b, e);
    if e == 1 {
        lemma_pow_zero_exponent(a);
        lemma_pow_zero_exponent(b);
    } else {
        lemma_pow_strictly_monotone(a, b, (e - 1) as nat);
        lemma_pow_nonnegative(a, (e - 1) as nat);
        let x = pow(a, (e - 1) as nat);
        let y = pow(b, (e - 1) as nat);
        assert(a * x < b * y) by (nonlinear_arith)
            requires
                0 <= a < b,
                0 <= x < y,
        ;
    }
}

/// There is at most one floor of a root.
pub proof fn lemma_floor_root_unique(r1: int, r2: int, p: nat, num: int, den: int)
    requires
        den > 0,
        is_floor_root(r1, p, num, den),
        is_floor_root(r2, p, num, den),
    ensures
        r1 == r2,
{
    if r1 < r2 {
        lemma_pow_monotone(r1 + 1, r2, p);
        let x = pow(r1 + 1, p);
        let y = pow(r2, p);
        assert(x * den <= y * den) by (nonlinear_arith)
            requires
                x <= y,
                den > 0,
        ;
    } else if r2 < r1 {
        lemma_pow_monotone(r2 + 1, r1, p);
        let x = pow(r2 + 1, p);
        let y = pow(r1, p);
        assert(x * den <= y * den) by (nonlinear_arith)
            requires
                x <= y,
                den > 0,
        ;
    }
}

/// Counting up from a number whose power does not exceed the ratio finds the
/// floor of the root.
proof fn lemma_floor_root_search(r: int, p: nat, num: int, den: int)
    requires
        p >= 1,
        den > 0,
        r >= 0,
        pow(r, p) * den <= num,
    ensures
        exists|s: int| is_floor_root(s, p, num, den),
    decreases num - r,
{
    if num < pow(r + 1, p) * den {
        assert(is_floor_root(r, p, num, den));
    } else {
        lemma_pow_at_least_base(r + 1, p);
        let x = pow(r + 1, p);
        assert(x * den >= r + 1) by (nonlinear_arith)
            requires
                x >= r + 1,
                den >= 1,
                r >= 0,
        ;
        lemma_floor_root_search(r + 1, p, num, den);
    }
}

/// Every ratio of a natural number and a positive one has a floor of its
/// `p`-th root, for `p` at least one.
pub proof fn lemma_floor_root_exists(p: nat, num: int, den: int)
    requires
        p >= 1,
        den > 0,
        num >= 0,
    ensures
        is_floor_root(floor_root(p, num, den), p, num, den),
{
    reveal(pow);
    assert(pow(0, p) == 0);
    assert(pow(0, p) * den == 0);
    lemma_floor_root_search(0, p, num, den);
}

/// What has the defining property is the floor of the root.
pub proof fn lemma_floor_root_is(r: int, p: nat, num: int, den: int)
    requires
        den > 0,
        is_floor_root(r, p, num, den),
    ensures
        floor_root(p, num, den) == r,
{
    lemma_floor_root_unique(r, floor_root(p, num, den), p, num, den);
}

/// The floor of a root grows with the numerator and shrinks as the
/// denominator grows.
pub proof fn lemma_floor_root_monotone(p: nat, num1: int, den1: int, num2: int, den2: int)
    requires
        p >= 1,
        0 <= num1 <= num2,
        0 < den2 <= den1,
    ensures
        floor_root(p, num1, den1) <= floor_root(p, num2, den2),
{
    lemma_floor_root_exists(p, num1, den1);
    lemma_floor_root_exists(p, num2, den2);
    let r1 = floor_root(p, num1, den1);
    let r2 = floor_root(p, num2, den2);
    if r2 < r1 {
        lemma_pow_monotone(r2 + 1, r1, p);
        lemma_pow_nonnegative(r2 + 1, p);
        let x = pow(r2 + 1, p);
        let y = pow(r1, p);
        assert(x * den2 <= y * den1) by (nonlinear_arith)
            requires
                0 <= x <= y,
                0 < den2 <= den1,
        ;
    }
}

/// `w` times the `e`-th power of `m`.
pub fn mul_pow(w: &Wide, m: u128, e: usize) -> (r: Wide)
    requires
        m < FACTOR_LIMIT,
    ensures
        r@ == w@ * pow(m as int, e as nat),
{
    let ghost start: nat = w@;
    let mut acc: Wide = w.duplicate();
    let mut j: usize = 0;
    proof {
        lemma_pow_zero_exponent(m as int);
        assert(start * 1 == start) by (nonlinear_arith);
    }
    while j < e
        invariant
            j <= e,
            m < FACTOR_LIMIT,
            acc@ == start * pow(m as int, j as nat),
        decreases e - j,
    {
        proof {
            lemma_pow_unfold(m as int, (j + 1) as nat);
            let q = pow(m as int, j as nat);
            assert((start * q) * m == start * (m * q)) by (nonlinear_arith);
        }
        acc = acc.mul_small(m);
        j += 1;
    }
    acc
}

/// The `p`-th root of `num / den`, rounded down, for a root that is at most
/// `hi`.
pub fn floor_root_bounded(p: usize, num: &Wide, den: &Wide, hi: u128) -> (r: u128)
    requires
        p >= 1,
        den@ > 0,
        hi + 1 < FACTOR_LIMIT,
        num@ < pow(hi + 1, p as nat) * den@,
    ensures
        is_floor_root(r as int, p as nat, num@ as int, den@ as int),
        r == floor_root(p as nat, num@ as int, den@ as int),
        r <= hi,
{
    let mut lo: u128 = 0;
    let mut up: u128 = hi + 1;
    proof {
        reveal(pow);
        assert(pow(0, p as nat) == 0);
        assert(pow(0, p as nat) * den@ == 0);
    }
    while up - lo > 1
        invariant
            p >= 1,
            den@ > 0,
            lo < up <= hi + 1,
            hi + 1 < FACTOR_LIMIT,
            pow(lo as int, p as nat) * den@ <= num@,
            num@ < pow(up as int, p as nat) * den@,
        decreases up - lo,
    {
        let mid: u128 = lo + (up - lo) / 2;
        let scaled: Wide = mul_pow(den, mid, p);
        proof {
            let q = pow(mid as int, p as nat);
            assert(den@ * q == q * den@) by (nonlinear_arith);
        }
        if scaled.le(num) {
            lo = mid;
        } else {
            up = mid;
        }
    }
    proof {
        assert(up == lo + 1);
        lemma_floor_root_is(lo as int, p as nat, num@ as int, den@ as int);
    }
    lo
}

} // verus!
