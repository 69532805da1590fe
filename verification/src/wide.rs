//! Natural numbers of unbounded size, kept as 32-bit limbs.
//!
//! The scores of this crate are floors of roots of ratios of products. The
//! products do not fit in any machine integer, so they are formed and compared
//! here, exactly.

use vstd::prelude::*;

verus! {

/// The radix of a limb.
pub const LIMB_BASE: u128 = 0x1_0000_0000;

/// Strict upper bound of a factor that `Wide::mul_small` takes.
pub const FACTOR_LIMIT: u128 = 0x1_0000_0000_0000_0000_0000_0000;

/// The weight of the limb at position `i`: `LIMB_BASE` to the power `i`.
pub open spec fn radix(i: nat) -> nat
    decreases i,
{
    if i == 0 {
        1
    } else {
        0x1_0000_0000 * radix((i - 1) as nat)
    }
}

/// The number that little-endian limbs stand for.
pub open spec fn limbs_value(limbs: Seq<u32>) -> nat
    decreases limbs.len(),
{
    if limbs.len() == 0 {
        0
    } else {
        limbs_value(limbs.drop_last()) + limbs.last() as nat * radix((limbs.len() - 1) as nat)
    }
}

/// The weight of a limb is positive.
pub proof fn lemma_radix_positive(i: nat)
    ensures
        radix(i) > 0,
    decreases i,
{
    if i > 0 {
        lemma_radix_positive((i - 1) as nat);
    }
}

/// Limbs stand for a number below the weight of the first limb they lack.
pub proof fn lemma_value_below_radix(limbs: Seq<u32>)
    ensures
        limbs_value(limbs) < radix(limbs.len()),
    decreases limbs.len(),
{
    if limbs.len() > 0 {
        let n = (limbs.len() - 1) as nat;
        lemma_value_below_radix(limbs.drop_last());
        lemma_radix_positive(n);
        let last = limbs.last() as nat;
        let r = radix(n);
        assert(last * r + r <= 0x1_0000_0000 * r) by (nonlinear_arith)
            requires
                last < 0x1_0000_0000,
                r > 0,
        ;
    }
}

/// One more limb adds its value times its weight.
pub proof fn lemma_value_push(limbs: Seq<u32>, x: u32)
    ensures
        limbs_value(limbs.push(x)) == limbs_value(limbs) + x as nat * radix(limbs.len()),
{
    assert(limbs.push(x).drop_last() =~= limbs);
}

/// The first `i + 1` limbs stand for what the first `i` stand for, plus
/// limb `i` times its weight.
pub proof fn lemma_value_take(limbs: Seq<u32>, i: int)
    requires
        0 <= i < limbs.len(),
    ensures
        limbs_value(limbs.take(i + 1)) == limbs_value(limbs.take(i)) + limbs[i] as nat * radix(
            i as nat,
        ),
{
    assert(limbs.take(i + 1).drop_last() =~= limbs.take(i));
}

/// Where two numbers of equal length agree above limb `k` and differ at `k`,
/// the limb at `k` decides their order.
pub proof fn lemma_value_order(a: Seq<u32>, b: Seq<u32>, k: int)
    requires
        a.len() == b.len(),
        0 <= k < a.len(),
        forall|j: int| k < j < a.len() ==> a[j] == b[j],
        a[k] < b[k],
    ensures
        limbs_value(a) < limbs_value(b),
    decreases a.len(),
{
    let n = (a.len() - 1) as nat;
    if k == n {
        lemma_value_below_radix(a.drop_last());
        let r = radix(n);
        let x = a[k] as nat;
        let y = b[k] as nat;
        assert(x * r + r <= y * r) by (nonlinear_arith)
            requires
                x < y,
                r >= 0,
        ;
    } else {
        lemma_value_order(a.drop_last(), b.drop_last(), k);
    }
}

/// A natural number of any size.
pub struct Wide {
    limbs: Vec<u32>,
}

impl View for Wide {
    type V = nat;

    closed spec fn view(&self) -> nat {
        limbs_value(self.limbs@)
    }
}

impl Wide {
    /// The number one.
    pub fn one() -> (r: Wide)
        ensures
            r@ == 1,
    {
        let mut limbs: Vec<u32> = Vec::new();
        limbs.push(1u32);
        proof {
            lemma_value_push(Seq::<u32>::empty(), 1u32);
            assert(limbs@ =~= Seq::<u32>::empty().push(1u32));
        }
        Wide { limbs }
    }

    /// A copy of this number.
    pub fn duplicate(&self) -> (r: Wide)
        ensures
            r@ == self@,
    {
        Wide { limbs: self.limbs.clone() }
    }

    /// The product of this number and a factor below `FACTOR_LIMIT`.
    pub fn mul_small(&self, m: u128) -> (r: Wide)
        requires
            m < FACTOR_LIMIT,
        ensures
            r@ == self@ * m,
    {
        let n: usize = self.limbs.len();
        let mut out: Vec<u32> = Vec::new();
        let mut carry: u128 = 0;
        let mut i: usize = 0;
        proof {
            assert(self.limbs@.take(0) =~= Seq::<u32>::empty());
            assert(limbs_value(self.limbs@.take(0)) * m == 0) by (nonlinear_arith)
                requires
                    limbs_value(self.limbs@.take(0)) == 0,
            ;
        }
        while i < n
            invariant
                n == self.limbs.len(),
                i <= n,
                out.len() == i,
                m < FACTOR_LIMIT,
                carry <= m,
                limbs_value(out@) + carry * radix(i as nat) == limbs_value(
                    self.limbs@.take(i as int),
                ) * m,
            decreases n - i,
        {
            let limb: u128 = self.limbs[i] as u128;
            assert(limb * m <= 0xFFFF_FFFF * m) by (nonlinear_arith)
                requires
                    limb <= 0xFFFF_FFFF,
                    m >= 0,
            ;
            let t: u128 = limb * m + carry;
            let low: u32 = (t % LIMB_BASE) as u32;
            let high: u128 = t / LIMB_BASE;
            proof {
                let r = radix(i as nat);
                let before = limbs_value(out@);
                let part = limbs_value(self.limbs@.take(i as int));
                lemma_value_push(out@, low);
                lemma_value_take(self.limbs@, i as int);
                assert(t == high * 0x1_0000_0000 + low);
                assert(radix((i + 1) as nat) == 0x1_0000_0000 * r);
                assert(before + low * r + high * (0x1_0000_0000 * r) == (part + limb * r) * m)
                    by (nonlinear_arith)
                    requires
                        before + carry * r == part * m,
                        high * 0x1_0000_0000 + low == limb * m + carry,
                ;
            }
            out.push(low);
            carry = high;
            i += 1;
        }
        assert(self.limbs@.take(n as int) =~= self.limbs@);
        while carry > 0
            invariant
                limbs_value(out@) + carry * radix(out.len() as nat) == limbs_value(self.limbs@)
                    * m,
            decreases carry,
        {
            let low: u32 = (carry % LIMB_BASE) as u32;
            let high: u128 = carry / LIMB_BASE;
            proof {
                let r = radix(out.len() as nat);
                let before = limbs_value(out@);
                lemma_value_push(out@, low);
                assert(radix((out.len() + 1) as nat) == 0x1_0000_0000 * r);
                assert(before + low * r + high * (0x1_0000_0000 * r) == before + carry * r)
                    by (nonlinear_arith)
                    requires
                        carry == high * 0x1_0000_0000 + low,
                ;
            }
            out.push(low);
            carry = high;
        }
        Wide { limbs: out }
    }

    /// Whether this number is at most `other`.
    pub fn le(&self, other: &Wide) -> (r: bool)
        ensures
            r == (self@ <= other@),
    {
        let mut a: Vec<u32> = self.limbs.clone();
        let mut b: Vec<u32> = other.limbs.clone();
        while a.len() < b.len()
            invariant
                limbs_value(a@) == limbs_value(self.limbs@),
                b@ == other.limbs@,
            decreases b.len() - a.len(),
        {
            proof {
                lemma_value_push(a@, 0u32);
            }
            a.push(0u32);
        }
        while b.len() < a.len()
            invariant
                limbs_value(a@) == limbs_value(self.limbs@),
                limbs_value(b@) == limbs_value(other.limbs@),
                b.len() <= a.len(),
            decreases a.len() - b.len(),
        {
            proof {
                lemma_value_push(b@, 0u32);
            }
            b.push(0u32);
        }
        let n: usize = a.len();
        let mut i: usize = n;
        while i > 0
            invariant
                i <= n,
                n == a.len(),
                n == b.len(),
                forall|j: int| i <= j < n ==> a[j] == b[j],
                limbs_value(a@) == limbs_value(self.limbs@),
                limbs_value(b@) == limbs_value(other.limbs@),
            decreases i,
        {
            i -= 1;
            if a[i] < b[i] {
                proof {
                    lemma_value_order(a@, b@, i as int);
                }
                return true;
            }
            if b[i] < a[i] {
                proof {
                    lemma_value_order(b@, a@, i as int);
                }
                return false;
            }
        }
        assert(a@ =~= b@);
        true
    }
}

} // verus!
