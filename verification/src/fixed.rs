//! Fixed-point arithmetic on scores: a score is an integer in units of
//! `1 / SCALE`, and a quotient is always rounded down.

use vstd::arithmetic::div_mod::{lemma_fundamental_div_mod, lemma_fundamental_div_mod_converse};
use vstd::prelude::*;

verus! {

/// The quotient of `a` by a positive `b`, rounded towards minus infinity.
pub fn div_floor(a: i128, b: i128) -> (r: i128)
    requires
        b > 0,
        a > i128::MIN,
    ensures
        r == a / b,
{
    if a >= 0 {
        a / b
    } else {
        let m: i128 = -a - 1;
        let q: i128 = m / b;
        proof {
            let rem = (m as int) % (b as int);
            lemma_fundamental_div_mod(m as int, b as int);
            assert(b * q == q * b) by (nonlinear_arith);
            assert((-q - 1) * b + (b - rem - 1) == -(q * b + rem) - 1) by (nonlinear_arith);
            lemma_fundamental_div_mod_converse(a as int, b as int, (-q - 1) as int, b - rem - 1);
        }
        -q - 1
    }
}

/// The quotient of a sum of `n` terms by `n` lies where the terms lie.
pub proof fn lemma_mean_in_range(sum: int, n: int, lo: int, hi: int)
    requires
        n > 0,
        lo * n <= sum <= hi * n,
    ensures
        lo <= sum / n <= hi,
{
    lemma_fundamental_div_mod(sum, n);
    let q = sum / n;
    let r = sum % n;
    assert(lo <= q) by (nonlinear_arith)
        requires
            sum == n * q + r,
            0 <= r < n,
            lo * n <= sum,
    ;
    assert(q <= hi) by (nonlinear_arith)
        requires
            sum == n * q + r,
            0 <= r < n,
            sum <= hi * n,
    ;
}

/// A mean in the making: the sum of the terms taken so far, kept as its
/// quotient by the number of terms that the mean is of, and the rest. The
/// sum itself need not fit into a machine integer.
pub struct Mean {
    quotient: i128,
    rest: u128,
    count: u128,
    added: u128,
    bound: i64,
}

impl Mean {
    /// The sum of the terms taken so far.
    pub closed spec fn sum(&self) -> int {
        self.quotient * self.count + self.rest
    }

    /// The number of terms that the mean is of.
    pub closed spec fn of(&self) -> int {
        self.count as int
    }

    /// The number of terms taken so far.
    pub closed spec fn terms(&self) -> int {
        self.added as int
    }

    /// What no term exceeds, in either direction.
    pub closed spec fn limit(&self) -> int {
        self.bound as int
    }

    /// Whether the mean is in order.
    pub closed spec fn wf(&self) -> bool {
        &&& self.count > 0
        &&& self.rest < self.count
        &&& self.added <= self.count
        &&& self.bound >= 0
        &&& -self.bound <= self.quotient <= self.bound
        &&& -(self.added * self.bound) <= self.quotient * self.count + self.rest <= self.added
            * self.bound
    }

    /// A mean of `count` terms, none of which exceeds `bound` in either
    /// direction, with no term taken yet.
    pub fn new(count: u128, bound: i64) -> (r: Mean)
        requires
            count > 0,
            bound >= 0,
        ensures
            r.wf(),
            r.sum() == 0,
            r.terms() == 0,
            r.of() == count,
            r.limit() == bound,
    {
        assert(0 * count + 0 == 0 && 0 * bound == 0) by (nonlinear_arith);
        Mean { quotient: 0, rest: 0, count, added: 0, bound }
    }

    /// Takes one more term.
    pub fn add(&mut self, x: i64)
        requires
            old(self).wf(),
            old(self).terms() < old(self).of(),
            -old(self).limit() <= x <= old(self).limit(),
        ensures
            final(self).wf(),
            final(self).sum() == old(self).sum() + x,
            final(self).terms() == old(self).terms() + 1,
            final(self).of() == old(self).of(),
            final(self).limit() == old(self).limit(),
    {
        let c: u128 = self.count;
        let q: i128 = self.quotient;
        let r: u128 = self.rest;
        let ghost total: int = q * c + r + x;
        let ghost b: int = self.bound as int;
        let ghost n: int = self.added as int;
        proof {
            assert(-((n + 1) * b) <= total <= (n + 1) * b) by (nonlinear_arith)
                requires
                    -(n * b) <= q * c + r <= n * b,
                    -b <= x <= b,
                    total == q * c + r + x,
            ;
            assert((n + 1) * b <= c * b && (-b) * c == -(c * b) && b * c == c * b) by (nonlinear_arith)
                requires
                    n + 1 <= c,
                    b >= 0,
            ;
        }
        if x >= 0 {
            let room: u128 = c - r;
            let up: u128 = x as u128;
            if up < room {
                self.rest = r + up;
            } else {
                let over: u128 = up - room;
                let steps: u128 = over / c;
                let left: u128 = over % c;
                proof {
                    vstd::arithmetic::div_mod::lemma_fundamental_div_mod(over as int, c as int);
                    assert(steps <= over);
                    assert((q + 1 + steps) * c + left == total) by (nonlinear_arith)
                        requires
                            total == q * c + r + x,
                            x == up,
                            up == over + room,
                            room == c - r,
                            over == c * steps + left,
                    ;
                    lemma_mean_from_parts(total, c as int, q + 1 + steps, left as int, -b, b);
                }
                self.quotient = q + 1 + steps as i128;
                self.rest = left;
            }
        } else {
            let down: u128 = (-(x as i128)) as u128;
            if down <= r {
                self.rest = r - down;
            } else {
                let under: u128 = down - r;
                let steps: u128 = under / c;
                let left: u128 = under % c;
                proof {
                    vstd::arithmetic::div_mod::lemma_fundamental_div_mod(under as int, c as int);
                    assert(steps <= under);
                }
                if left == 0 {
                    proof {
                        assert((q - steps) * c + 0 == total) by (nonlinear_arith)
                            requires
                                total == q * c + r + x,
                                x == -down,
                                down == under + r,
                                under == c * steps + left,
                                left == 0,
                        ;
                        lemma_mean_from_parts(total, c as int, q - steps, 0, -b, b);
                    }
                    self.quotient = q - steps as i128;
                    self.rest = 0;
                } else {
                    proof {
                        assert((q - steps - 1) * c + (c - left) == total) by (nonlinear_arith)
                            requires
                                total == q * c + r + x,
                                x == -down,
                                down == under + r,
                                under == c * steps + left,
                        ;
                        lemma_mean_from_parts(
                            total,
                            c as int,
                            q - steps - 1,
                            c - left,
                            -b,
                            b,
                        );
                    }
                    self.quotient = q - steps as i128 - 1;
                    self.rest = c - left;
                }
            }
        }
        self.added = self.added + 1;
    }

    /// The mean of the terms taken, rounded down.
    pub fn value(&self) -> (r: i64)
        requires
            self.wf(),
        ensures
            r == self.sum() / self.of(),
            -self.limit() <= r <= self.limit(),
    {
        proof {
            let q = self.quotient as int;
            let c = self.count as int;
            assert(self.sum() == q * c + self.rest);
            lemma_fundamental_div_mod_converse(self.sum(), c, q, self.rest as int);
        }
        self.quotient as i64
    }
}

/// A sum that is a quotient times the number of its terms plus a rest below
/// that number, and that lies where the terms lie, has its quotient there.
pub proof fn lemma_mean_from_parts(sum: int, n: int, q: int, r: int, lo: int, hi: int)
    requires
        n > 0,
        0 <= r < n,
        sum == q * n + r,
        lo * n <= sum <= hi * n,
    ensures
        lo <= q <= hi,
{
    lemma_fundamental_div_mod_converse(sum, n, q, r);
    lemma_mean_in_range(sum, n, lo, hi);
}

} // verus!
