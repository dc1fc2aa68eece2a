//! Exact rational numbers: a signed big-integer numerator over a positive
//! big-integer denominator, kept in lowest terms by dividing out the greatest
//! common divisor after every operation.
use vstd::prelude::*;
use vstd::math::abs;
use crate::bignum::{Big, big_add, big_mul, big_divmod, big_gcd, gcd_nat, lemma_gcd_bounds};

verus! {

/// The pair a fraction reduces to: both parts divided by their gcd.
/// Meaningful for `d > 0`.
pub open spec fn norm(n: int, d: int) -> (int, int) {
    let g = gcd_nat(abs(n), d as nat) as int;
    (if n < 0 { -(abs(n) as int / g) } else { n / g }, d / g)
}

pub open spec fn add_val(n1: int, d1: int, n2: int, d2: int) -> (int, int) {
    norm(n1 * d2 + n2 * d1, d1 * d2)
}

pub open spec fn sub_val(n1: int, d1: int, n2: int, d2: int) -> (int, int) {
    norm(n1 * d2 - n2 * d1, d1 * d2)
}

pub open spec fn mul_val(n1: int, d1: int, n2: int, d2: int) -> (int, int) {
    norm(n1 * n2, d1 * d2)
}

/// Quotient of two fractions; the sign moves to the numerator so the
/// denominator handed to `norm` stays positive. Meaningful for `n2 != 0`.
pub open spec fn div_val(n1: int, d1: int, n2: int, d2: int) -> (int, int) {
    if n2 < 0 {
        norm(-(n1 * d2), -(d1 * n2))
    } else {
        norm(n1 * d2, d1 * n2)
    }
}

/// An exact rational in lowest terms: numerator `n`, positive denominator `d`.
#[derive(Debug, Clone, PartialEq, Eq)]
pub struct Rat {
    pub n: Big,
    pub d: Big,
}

impl Rat {
    pub open spec fn inv(&self) -> bool {
        &&& self.n.inv()
        &&& self.d.inv()
        &&& self.d@ > 0
    }

    pub open spec fn num(&self) -> int {
        self.n@
    }

    pub open spec fn den(&self) -> int {
        self.d@
    }

    pub fn from_u32(v: u32) -> (r: Rat)
        ensures
            r.inv(),
            r.num() == v as int,
            r.den() == 1,
    {
        Rat { n: Big::from_u32(v), d: Big::from_u32(1) }
    }

    pub fn copy(&self) -> (r: Rat)
        ensures
            r.num() == self.num(),
            r.den() == self.den(),
            self.inv() ==> r.inv(),
    {
        Rat { n: self.n.copy(), d: self.d.copy() }
    }

    pub fn negated(&self) -> (r: Rat)
        requires
            self.inv(),
        ensures
            r.inv(),
            r.num() == -self.num(),
            r.den() == self.den(),
    {
        Rat { n: self.n.negated(), d: self.d.copy() }
    }
}

/// Reduce the fraction `n / d` to lowest terms.
pub fn reduce(n: &Big, d: &Big) -> (r: Rat)
    requires
        n.inv(),
        d.inv(),
        d@ > 0,
    ensures
        r.inv(),
        (r.num(), r.den()) == norm(n@, d@),
{
    let m = n.magnitude();
    let g = big_gcd(&m, d);
    proof {
        lemma_gcd_bounds(abs(n@), d@ as nat);
        vstd::arithmetic::div_mod::lemma_div_non_zero(d@, g@);
        vstd::arithmetic::div_mod::lemma_div_pos_is_pos(m@, g@);
    }
    let (q, _) = big_divmod(&m, &g);
    let (qd, _) = big_divmod(d, &g);
    let nn = if n.neg { q.negated() } else { q };
    Rat { n: nn, d: qd }
}

pub fn rat_add(a: &Rat, b: &Rat) -> (r: Rat)
    requires
        a.inv(),
        b.inv(),
    ensures
        r.inv(),
        (r.num(), r.den()) == add_val(a.num(), a.den(), b.num(), b.den()),
{
    let x = big_mul(&a.n, &b.d);
    let y = big_mul(&b.n, &a.d);
    let nn = big_add(&x, &y);
    let dd = big_mul(&a.d, &b.d);
    proof {
        assert(a.d@ * b.d@ > 0) by (nonlinear_arith)
            requires
                a.d@ > 0,
                b.d@ > 0,
        ;
    }
    reduce(&nn, &dd)
}

pub fn rat_sub(a: &Rat, b: &Rat) -> (r: Rat)
    requires
        a.inv(),
        b.inv(),
    ensures
        r.inv(),
        (r.num(), r.den()) == sub_val(a.num(), a.den(), b.num(), b.den()),
{
    let nb = b.negated();
    let r = rat_add(a, &nb);
    proof {
        assert((-b.num()) * a.den() == -(b.num() * a.den())) by (nonlinear_arith);
    }
    r
}

pub fn rat_mul(a: &Rat, b: &Rat) -> (r: Rat)
    requires
        a.inv(),
        b.inv(),
    ensures
        r.inv(),
        (r.num(), r.den()) == mul_val(a.num(), a.den(), b.num(), b.den()),
{
    let nn = big_mul(&a.n, &b.n);
    let dd = big_mul(&a.d, &b.d);
    proof {
        assert(a.d@ * b.d@ > 0) by (nonlinear_arith)
            requires
                a.d@ > 0,
                b.d@ > 0,
        ;
    }
    reduce(&nn, &dd)
}

pub fn rat_div(a: &Rat, b: &Rat) -> (r: Rat)
    requires
        a.inv(),
        b.inv(),
        b.num() != 0,
    ensures
        r.inv(),
        (r.num(), r.den()) == div_val(a.num(), a.den(), b.num(), b.den()),
{
    let nn = big_mul(&a.n, &b.d);
    let dd = big_mul(&a.d, &b.n);
    proof {
        assert(b.n@ < 0 ==> a.d@ * b.n@ < 0) by (nonlinear_arith)
            requires
                a.d@ > 0,
        ;
        assert(b.n@ > 0 ==> a.d@ * b.n@ > 0) by (nonlinear_arith)
            requires
                a.d@ > 0,
        ;
    }
    if dd.neg {
        let r = reduce(&nn.negated(), &dd.negated());
        r
    } else {
        reduce(&nn, &dd)
    }
}

/// A fraction over one is already in lowest terms.
pub proof fn lemma_norm_one(n: int)
    ensures
        norm(n, 1) == (n, 1int),
{
    assert(abs(n) % 1 == 0) by (nonlinear_arith);
    assert(gcd_nat(1, 0) == 1);
    assert(gcd_nat(abs(n), 1) == 1);
    assert(n / 1 == n) by (nonlinear_arith);
    assert(abs(n) as int / 1 == abs(n) as int) by (nonlinear_arith);
}

} // verus!
