//! The life score of a node: how much its use and its importance still
//! count, some time after it was last read.
//!
//! With `d` the hours since the last read plus two, the life score is
//! `(2 * access_count + 10 * significance) / d^1.8`. It is kept in units of
//! `1 / SCALE` and rounded down. The exponent `1.8` is `9 / 5`, so the score
//! is the floor of a fifth root of a ratio of integers, and is computed
//! exactly.

use crate::root::{
    floor_root, floor_root_bounded, lemma_floor_root_monotone, lemma_pow_monotone,
    lemma_pow_nonnegative, lemma_pow_strictly_monotone, mul_pow,
};
use crate::search::SCALE;
use crate::storage::NodeHeader;
use crate::wide::Wide;
use vstd::arithmetic::power::pow;
use vstd::prelude::*;

verus! {

/// The seconds of an hour.
pub const HOUR: u64 = 3600;

/// What decays: twice the access count plus ten times the significance.
pub open spec fn usage(access_count: u32, significance: u8) -> int {
    2 * access_count + 10 * significance
}

/// The seconds since the last access, plus two hours; a clock that lies
/// before the last access counts as no time gone by.
pub open spec fn age(last_access_ts: u64, now: u64) -> int {
    (if now >= last_access_ts {
        now - last_access_ts
    } else {
        0
    }) + 2 * HOUR
}

/// The numerator of the fifth power of a life score: the fifth power of
/// the scaled usage, times the ninth power of an hour.
pub open spec fn life_numerator(access_count: u32, significance: u8) -> int {
    pow(SCALE * usage(access_count, significance), 5) * pow(HOUR as int, 9)
}

/// The life score of a node at time `now`, in units of `1 / SCALE`: the
/// usage divided by the `1.8`-th power of the age in hours, rounded down.
pub open spec fn life_score_at(
    access_count: u32,
    significance: u8,
    last_access_ts: u64,
    now: u64,
) -> int {
    floor_root(5, life_numerator(access_count, significance), pow(age(last_access_ts, now), 9))
}

/// The life score of the node of `header` at time `now`.
pub open spec fn life_score(header: NodeHeader, now: u64) -> int {
    life_score_at(header.access_count, header.significance, header.last_access_ts, now)
}

/// A power of a positive number is positive.
pub proof fn lemma_pow_positive(b: int, e: nat)
    requires
        b >= 1,
    ensures
        pow(b, e) >= 1,
    decreases e,
{
    reveal(pow);
    if e > 0 {
        lemma_pow_positive(b, (e - 1) as nat);
        let q = pow(b, (e - 1) as nat);
        assert(b * q >= 1) by (nonlinear_arith)
            requires
                b >= 1,
                q >= 1,
        ;
    }
}

/// A life score is not negative and not above the scaled usage.
pub proof fn lemma_life_score_range(
    access_count: u32,
    significance: u8,
    last_access_ts: u64,
    now: u64,
)
    ensures
        0 <= life_score_at(access_count, significance, last_access_ts, now) <= SCALE * usage(
            access_count,
            significance,
        ),
{
    let k = SCALE * usage(access_count, significance);
    let t = age(last_access_ts, now);
    let num = life_numerator(access_count, significance);
    let den = pow(t, 9);
    lemma_pow_positive(t, 9);
    lemma_pow_nonnegative(k, 5);
    lemma_pow_positive(HOUR as int, 9);
    let a = pow(k, 5);
    let h = pow(HOUR as int, 9);
    assert(a * h >= 0) by (nonlinear_arith)
        requires
            a >= 0,
            h >= 1,
    ;
    crate::root::lemma_floor_root_exists(5, num, den);
    let r = life_score_at(access_count, significance, last_access_ts, now);
    if r > k {
        lemma_pow_monotone(k + 1, r, 5);
        lemma_pow_strictly_monotone(k, k + 1, 5);
        lemma_pow_monotone(HOUR as int, t, 9);
        let b = pow(r, 5);
        assert(b * den > a * h) by (nonlinear_arith)
            requires
                b > a,
                a >= 0,
                den >= h,
                h >= 1,
        ;
    }
}

/// A life score does not rise as time goes by.
pub proof fn lemma_life_score_decays(
    access_count: u32,
    significance: u8,
    last_access_ts: u64,
    earlier: u64,
    later: u64,
)
    requires
        earlier <= later,
    ensures
        life_score_at(access_count, significance, last_access_ts, later) <= life_score_at(
            access_count,
            significance,
            last_access_ts,
            earlier,
        ),
{
    let k = SCALE * usage(access_count, significance);
    let num = life_numerator(access_count, significance);
    let t1 = age(last_access_ts, earlier);
    let t2 = age(last_access_ts, later);
    lemma_pow_monotone(t1, t2, 9);
    lemma_pow_positive(t1, 9);
    lemma_pow_nonnegative(k, 5);
    lemma_pow_positive(HOUR as int, 9);
    let a = pow(k, 5);
    let h = pow(HOUR as int, 9);
    assert(a * h >= 0) by (nonlinear_arith)
        requires
            a >= 0,
            h >= 1,
    ;
    lemma_floor_root_monotone(5, num, pow(t2, 9), num, pow(t1, 9));
}

/// A life score does not fall as the access count or the significance rises.
pub proof fn lemma_life_score_grows_with_usage(
    count1: u32,
    significance1: u8,
    count2: u32,
    significance2: u8,
    last_access_ts: u64,
    now: u64,
)
    requires
        count1 <= count2,
        significance1 <= significance2,
    ensures
        life_score_at(count1, significance1, last_access_ts, now) <= life_score_at(
            count2,
            significance2,
            last_access_ts,
            now,
        ),
{
    let k1 = SCALE * usage(count1, significance1);
    let k2 = SCALE * usage(count2, significance2);
    let t = age(last_access_ts, now);
    lemma_pow_monotone(k1, k2, 5);
    lemma_pow_nonnegative(k1, 5);
    lemma_pow_positive(HOUR as int, 9);
    lemma_pow_positive(t, 9);
    let a1 = pow(k1, 5);
    let a2 = pow(k2, 5);
    let h = pow(HOUR as int, 9);
    assert(0 <= a1 * h <= a2 * h) by (nonlinear_arith)
        requires
            0 <= a1 <= a2,
            h >= 1,
    ;
    lemma_floor_root_monotone(
        5,
        life_numerator(count1, significance1),
        pow(t, 9),
        life_numerator(count2, significance2),
        pow(t, 9),
    );
}

/// The life score of a node with the given usage figures at time `now`.
pub fn life_score_of(access_count: u32, significance: u8, last_access_ts: u64, now: u64) -> (r:
    i64)
    ensures
        r == life_score_at(access_count, significance, last_access_ts, now),
        0 <= r <= SCALE * usage(access_count, significance),
{
    let delta: u64 = if now >= last_access_ts {
        now - last_access_ts
    } else {
        0
    };
    let t: u128 = delta as u128 + 7200;
    let k: u128 = 1_000_000 * (2 * (access_count as u128) + 10 * (significance as u128));
    let one: Wide = Wide::one();
    let scaled: Wide = mul_pow(&one, k, 5);
    let num: Wide = mul_pow(&scaled, 3600, 9);
    let den: Wide = mul_pow(&one, t, 9);
    proof {
        let a = pow(k as int, 5);
        let h = pow(3600, 9);
        let d = pow(t as int, 9);
        let b = pow(k + 1, 5);
        assert(scaled@ == a) by (nonlinear_arith)
            requires
                scaled@ == 1 * a,
        ;
        assert(den@ == d) by (nonlinear_arith)
            requires
                den@ == 1 * d,
        ;
        lemma_pow_nonnegative(k as int, 5);
        lemma_pow_positive(3600, 9);
        lemma_pow_positive(t as int, 9);
        lemma_pow_strictly_monotone(k as int, k + 1, 5);
        lemma_pow_monotone(3600, t as int, 9);
        assert(a * h < b * d) by (nonlinear_arith)
            requires
                0 <= a < b,
                1 <= h <= d,
        ;
        lemma_life_score_range(access_count, significance, last_access_ts, now);
    }
    let r: u128 = floor_root_bounded(5, &num, &den, k);
    r as i64
}

/// The life score of the node of `header` at time `now`:
/// `(2 * access_count + 10 * significance) / (hours + 2)^1.8`, where `hours`
/// is the time since the last access, in units of `1 / SCALE` and rounded
/// down.
pub fn calc_life_score(header: &NodeHeader, now: u64) -> (r: i64)
    ensures
        r == life_score(*header, now),
        0 <= r <= SCALE * usage(header.access_count, header.significance),
{
    life_score_of(header.access_count, header.significance, header.last_access_ts, now)
}

} // verus!
