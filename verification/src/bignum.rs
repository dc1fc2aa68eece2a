//! Arbitrary-precision signed integers, held as sign-magnitude values over
//! little-endian base-2^32 limbs. The arithmetic itself is done by the `num`
//! crate behind a small set of trusted wrappers; everything layered on top is
//! verified against the mathematical integer each value denotes.
use vstd::prelude::*;
use num::bigint::{BigInt, BigUint, Sign};
use num::Integer;

verus! {

/// Mathematical value of a little-endian base-2^32 limb sequence.
pub open spec fn limbs_val(s: Seq<u32>) -> nat
    decreases s.len(),
{
    if s.len() == 0 {
        0
    } else {
        s[0] as nat + 0x100000000 * limbs_val(s.drop_first())
    }
}

/// A signed arbitrary-precision integer: a magnitude in limbs and a sign flag.
#[derive(Debug, Clone, PartialEq, Eq)]
pub struct Big {
    pub neg: bool,
    pub limbs: Vec<u32>,
}

impl View for Big {
    type V = int;

    open spec fn view(&self) -> int {
        if self.neg {
            -(limbs_val(self.limbs@) as int)
        } else {
            limbs_val(self.limbs@) as int
        }
    }
}

impl Big {
    /// Canonical form: no leading zero limb, and zero is never negative.
    pub open spec fn inv(&self) -> bool {
        &&& (self.limbs@.len() > 0 ==> self.limbs@.last() != 0)
        &&& (self.neg ==> self.limbs@.len() > 0)
    }

    pub fn from_u32(n: u32) -> (b: Big)
        ensures
            b@ == n as int,
            b.inv(),
    {
        let mut limbs: Vec<u32> = Vec::new();
        if n > 0 {
            limbs.push(n);
        }
        proof {
            assert(limbs_val(Seq::<u32>::empty()) == 0);
            if n > 0 {
                assert(limbs@.drop_first() =~= Seq::<u32>::empty());
            }
        }
        Big { neg: false, limbs }
    }

    pub fn copy(&self) -> (r: Big)
        ensures
            r@ == self@,
            r.neg == self.neg,
            r.limbs@ == self.limbs@,
    {
        let mut limbs: Vec<u32> = Vec::new();
        let mut i: usize = 0;
        while i < self.limbs.len()
            invariant
                i <= self.limbs.len(),
                limbs@ == self.limbs@.take(i as int),
            decreases self.limbs.len() - i,
        {
            limbs.push(self.limbs[i]);
            i += 1;
        }
        proof {
            assert(self.limbs@.take(self.limbs@.len() as int) =~= self.limbs@);
        }
        Big { neg: self.neg, limbs }
    }

    /// Negation: flip the sign flag, except on zero.
    pub fn negated(&self) -> (r: Big)
        requires
            self.inv(),
        ensures
            r@ == -self@,
            r.inv(),
    {
        let r = Big { neg: !self.neg && self.limbs.len() > 0, limbs: self.copy().limbs };
        proof {
            if self.limbs@.len() > 0 {
                lemma_limbs_val_pos(self.limbs@);
            }
        }
        r
    }

    /// Magnitude.
    pub fn magnitude(&self) -> (r: Big)
        requires
            self.inv(),
        ensures
            r@ == vstd::math::abs(self@),
            r.inv(),
            !r.neg,
    {
        Big { neg: false, limbs: self.copy().limbs }
    }

    pub fn is_zero(&self) -> (r: bool)
        requires
            self.inv(),
        ensures
            r == (self@ == 0),
    {
        proof {
            if self.limbs@.len() > 0 {
                lemma_limbs_val_pos(self.limbs@);
            }
        }
        self.limbs.len() == 0
    }

    /// The value as a machine word, when it is small enough.
    pub fn to_u32(&self) -> (r: u32)
        requires
            self.inv(),
            0 <= self@ < 0x100000000,
        ensures
            r as int == self@,
    {
        proof {
            if self.limbs@.len() > 0 {
                lemma_limbs_val_pos(self.limbs@);
            }
            if self.limbs@.len() >= 2 {
                lemma_limbs_val_wide(self.limbs@);
            }
        }
        if self.limbs.len() == 0 {
            0
        } else {
            self.limbs[0]
        }
    }
}

/// A non-empty canonical limb sequence denotes a strictly positive value.
pub proof fn lemma_limbs_val_pos(s: Seq<u32>)
    requires
        s.len() > 0,
        s.last() != 0,
    ensures
        limbs_val(s) >= 1,
    decreases s.len(),
{
    if s.len() == 1 {
        assert(limbs_val(s) == s[0] as nat + 0x100000000 * limbs_val(s.drop_first()));
        assert(s[0] == s.last());
    } else {
        lemma_limbs_val_pos(s.drop_first());
        assert(s.drop_first().last() == s.last());
    }
}

/// Two or more canonical limbs denote a value of at least 2^32.
pub proof fn lemma_limbs_val_wide(s: Seq<u32>)
    requires
        s.len() >= 2,
        s.last() != 0,
    ensures
        limbs_val(s) >= 0x100000000,
{
    lemma_limbs_val_pos(s.drop_first());
    assert(s.drop_first().last() == s.last());
}

/// Euclid's greatest common divisor of two naturals.
pub open spec fn gcd_nat(a: nat, b: nat) -> nat
    decreases b,
{
    if b == 0 {
        a
    } else {
        gcd_nat(b, a % b)
    }
}

/// The gcd with a positive operand is positive and no larger than it.
pub proof fn lemma_gcd_bounds(a: nat, b: nat)
    requires
        b > 0,
    ensures
        1 <= gcd_nat(a, b) <= b,
    decreases b,
{
    if a % b == 0 {
        assert(gcd_nat(b, 0) == b);
    } else {
        lemma_gcd_bounds(b, a % b);
    }
}

/// Relies on `num`'s `BigInt` addition: exact addition of the two integers.
#[verifier::external_body]
pub fn big_add(a: &Big, b: &Big) -> (r: Big)
    ensures
        r@ == a@ + b@,
        r.inv(),
{
    let x = BigInt::from_biguint(if a.neg { Sign::Minus } else { Sign::Plus }, BigUint::new(a.limbs.clone()));
    let y = BigInt::from_biguint(if b.neg { Sign::Minus } else { Sign::Plus }, BigUint::new(b.limbs.clone()));
    let (s, limbs) = (x + y).to_u32_digits();
    Big { neg: matches!(s, Sign::Minus), limbs }
}

/// Relies on `num`'s `BigInt` multiplication: exact multiplication of the two integers.
#[verifier::external_body]
pub fn big_mul(a: &Big, b: &Big) -> (r: Big)
    ensures
        r@ == a@ * b@,
        r.inv(),
{
    let x = BigInt::from_biguint(if a.neg { Sign::Minus } else { Sign::Plus }, BigUint::new(a.limbs.clone()));
    let y = BigInt::from_biguint(if b.neg { Sign::Minus } else { Sign::Plus }, BigUint::new(b.limbs.clone()));
    let (s, limbs) = (x * y).to_u32_digits();
    Big { neg: matches!(s, Sign::Minus), limbs }
}

/// Relies on `num`'s `Integer::div_rem` for `BigInt`: truncated division with
/// remainder, which on non-negative operands agrees with Euclidean division.
#[verifier::external_body]
pub fn big_divmod(a: &Big, b: &Big) -> (qr: (Big, Big))
    requires
        a@ >= 0,
        b@ > 0,
    ensures
        qr.0@ == a@ / b@,
        qr.1@ == a@ % b@,
        qr.0.inv(),
        qr.1.inv(),
{
    let x = BigInt::from_biguint(Sign::Plus, BigUint::new(a.limbs.clone()));
    let y = BigInt::from_biguint(Sign::Plus, BigUint::new(b.limbs.clone()));
    let (q, r) = x.div_rem(&y);
    let (_, ql) = q.to_u32_digits();
    let (_, rl) = r.to_u32_digits();
    (Big { neg: false, limbs: ql }, Big { neg: false, limbs: rl })
}

/// Relies on `num`'s `Integer::gcd` for `BigInt`: the greatest common divisor,
/// the value Euclid's algorithm computes.
#[verifier::external_body]
pub fn big_gcd(a: &Big, b: &Big) -> (r: Big)
    requires
        a@ >= 0,
        b@ >= 0,
    ensures
        r@ == gcd_nat(a@ as nat, b@ as nat) as int,
        r.inv(),
{
    let x = BigInt::from_biguint(Sign::Plus, BigUint::new(a.limbs.clone()));
    let y = BigInt::from_biguint(Sign::Plus, BigUint::new(b.limbs.clone()));
    let (_, limbs) = x.gcd(&y).to_u32_digits();
    Big { neg: false, limbs }
}

} // verus!
