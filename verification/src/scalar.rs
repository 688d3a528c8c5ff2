//! The executable coefficient type: an exact rational number held as two
//! 64-bit integers in lowest terms. An operation whose exact result does
//! not fit, or a division by zero, gives the undefined value, which every
//! later operation hands on.

use crate::gcd::{gcd, lemma_reduce};
use crate::rational::{lemma_integer, Rational, LIMIT};
use vstd::arithmetic::div_mod::lemma_mod_pos_bound;
use vstd::prelude::*;

verus! {

/// A coefficient or constant of a linear function.
#[derive(Clone, Copy, Debug, PartialEq, Eq, Structural)]
pub struct Scalar {
    num: i64,
    den: i64,
}

impl View for Scalar {
    type V = Rational;

    closed spec fn view(&self) -> Rational {
        Rational { num: self.num as int, den: self.den as int }
    }
}

impl DeepView for Scalar {
    type V = Rational;

    open spec fn deep_view(&self) -> Rational {
        self@
    }
}

/// Euclid's algorithm.
fn gcd_of(a: u128, b: u128) -> (g: u128)
    ensures
        g == gcd(a as nat, b as nat),
{
    let mut x: u128 = a;
    let mut y: u128 = b;
    while y != 0
        invariant
            gcd(x as nat, y as nat) == gcd(a as nat, b as nat),
        decreases y,
    {
        proof {
            lemma_mod_pos_bound(x as int, y as int);
        }
        let r: u128 = x % y;
        x = y;
        y = r;
    }
    x
}

/// The bound on a product of two parts, each within the limit.
proof fn lemma_product_bound(a: int, b: int)
    requires
        -LIMIT <= a <= LIMIT,
        -LIMIT <= b <= LIMIT,
    ensures
        -0x3fff_ffff_ffff_ffff_0000_0000_0000_0001 <= a * b
            <= 0x3fff_ffff_ffff_ffff_0000_0000_0000_0001,
{
    assert(-(LIMIT * LIMIT) <= a * b <= LIMIT * LIMIT) by (nonlinear_arith)
        requires
            -LIMIT <= a <= LIMIT,
            -LIMIT <= b <= LIMIT,
            LIMIT >= 0,
    ;
    assert(LIMIT * LIMIT == 0x3fff_ffff_ffff_ffff_0000_0000_0000_0001) by (nonlinear_arith)
        requires
            LIMIT == 0x7fff_ffff_ffff_ffff,
    ;
}

impl Scalar {
    /// Every value is the undefined value or a fraction in lowest terms
    /// within the limit.
    #[verifier::type_invariant]
    pub open spec fn wf(self) -> bool {
        self@.wf()
    }

    /// Two values with the same view are the same value.
    pub proof fn lemma_view_injective(a: Scalar, b: Scalar)
        ensures
            a@ == b@ <==> a == b,
    {
    }

    /// The fraction `n / d` in lowest terms, or the undefined value where a
    /// part of it is beyond the limit.
    fn reduced(n: i128, d: i128) -> (r: Scalar)
        requires
            d > 0,
            n > i128::MIN,
        ensures
            r@ == Rational::fraction(n as int, d as int),
    {
        let magnitude: u128 = if n < 0 {
            (-n) as u128
        } else {
            n as u128
        };
        let g: u128 = gcd_of(magnitude, d as u128);
        proof {
            lemma_reduce(n as int, d as int);
        }
        let qn: u128 = magnitude / g;
        let qd: u128 = d as u128 / g;
        if qn > LIMIT as u128 || qd > LIMIT as u128 {
            return Scalar { num: 0, den: 0 };
        }
        let num: i64 = if n < 0 {
            -(qn as i64)
        } else {
            qn as i64
        };
        Scalar { num, den: qd as i64 }
    }

    /// The undefined value.
    pub fn undefined() -> (r: Scalar)
        ensures
            r@ == Rational::undefined(),
    {
        Scalar { num: 0, den: 0 }
    }

    pub fn zero() -> (r: Scalar)
        ensures
            r@ == Rational::zero(),
    {
        proof {
            lemma_integer(0);
        }
        Scalar { num: 0, den: 1 }
    }

    pub fn one() -> (r: Scalar)
        ensures
            r@ == Rational::one(),
    {
        proof {
            lemma_integer(1);
        }
        Scalar { num: 1, den: 1 }
    }

    /// The value `n`; undefined for the one integer beyond the limit.
    pub fn from_integer(n: i64) -> (r: Scalar)
        ensures
            r@ == Rational::integer(n as int),
    {
        Self::reduced(n as i128, 1)
    }

    /// The value `num / den`; undefined where `den` is zero.
    pub fn new(num: i64, den: i64) -> (r: Scalar)
        ensures
            r@ == Rational::ratio(num as int, den as int),
    {
        if den == 0 {
            Scalar { num: 0, den: 0 }
        } else if den < 0 {
            Self::reduced(-(num as i128), -(den as i128))
        } else {
            Self::reduced(num as i128, den as i128)
        }
    }

    /// The numerator of the fraction in lowest terms; zero for the undefined
    /// value.
    pub fn numerator(&self) -> (n: i64)
        ensures
            n == self@.num,
    {
        self.num
    }

    /// The denominator of the fraction in lowest terms; zero for the
    /// undefined value.
    pub fn denominator(&self) -> (d: i64)
        ensures
            d == self@.den,
    {
        self.den
    }

    pub fn is_defined(&self) -> (b: bool)
        ensures
            b == self@.defined(),
    {
        self.den != 0
    }

    pub fn is_zero(&self) -> (b: bool)
        ensures
            b == self@.is_zero(),
    {
        self.den != 0 && self.num == 0
    }

    pub fn is_positive(&self) -> (b: bool)
        ensures
            b == self@.is_positive(),
    {
        self.den != 0 && self.num > 0
    }

    pub fn is_negative(&self) -> (b: bool)
        ensures
            b == self@.is_negative(),
    {
        self.den != 0 && self.num < 0
    }

    pub fn is_integer(&self) -> (b: bool)
        ensures
            b == self@.is_integer(),
    {
        self.den == 1
    }

    pub fn neg(&self) -> (r: Scalar)
        ensures
            r@ == self@.neg(),
    {
        proof {
            use_type_invariant(self);
            assert(vstd::math::abs(-(self.num as int)) == vstd::math::abs(self.num as int));
        }
        Scalar { num: -self.num, den: self.den }
    }

    pub fn add(&self, other: &Scalar) -> (r: Scalar)
        ensures
            r@ == self@.add(other@),
    {
        proof {
            use_type_invariant(self);
            use_type_invariant(other);
        }
        if self.den == 0 || other.den == 0 {
            return Scalar { num: 0, den: 0 };
        }
        proof {
            lemma_product_bound(self.num as int, other.den as int);
            lemma_product_bound(other.num as int, self.den as int);
            lemma_product_bound(self.den as int, other.den as int);
            assert(self.den * other.den > 0) by (nonlinear_arith)
                requires
                    self.den > 0,
                    other.den > 0,
            ;
        }
        let n: i128 = self.num as i128 * other.den as i128 + other.num as i128 * self.den as i128;
        let d: i128 = self.den as i128 * other.den as i128;
        Self::reduced(n, d)
    }

    pub fn sub(&self, other: &Scalar) -> (r: Scalar)
        ensures
            r@ == self@.sub(other@),
    {
        let negated = other.neg();
        self.add(&negated)
    }

    pub fn mul(&self, other: &Scalar) -> (r: Scalar)
        ensures
            r@ == self@.mul(other@),
    {
        proof {
            use_type_invariant(self);
            use_type_invariant(other);
        }
        if self.den == 0 || other.den == 0 {
            return Scalar { num: 0, den: 0 };
        }
        proof {
            lemma_product_bound(self.num as int, other.num as int);
            lemma_product_bound(self.den as int, other.den as int);
            assert(self.den * other.den > 0) by (nonlinear_arith)
                requires
                    self.den > 0,
                    other.den > 0,
            ;
        }
        let n: i128 = self.num as i128 * other.num as i128;
        let d: i128 = self.den as i128 * other.den as i128;
        Self::reduced(n, d)
    }

    /// Division; the undefined value where the divisor is zero.
    pub fn div(&self, other: &Scalar) -> (r: Scalar)
        ensures
            r@ == self@.div(other@),
    {
        proof {
            use_type_invariant(self);
            use_type_invariant(other);
        }
        if self.den == 0 || other.den == 0 || other.num == 0 {
            proof {
                assert(self.den * 0 == 0) by (nonlinear_arith);
            }
            return Scalar { num: 0, den: 0 };
        }
        proof {
            lemma_product_bound(self.num as int, other.den as int);
            lemma_product_bound(self.den as int, other.num as int);
            if other.num > 0 {
                assert(self.den * other.num > 0) by (nonlinear_arith)
                    requires
                        self.den > 0,
                        other.num > 0,
                ;
            } else {
                assert(self.den * other.num < 0) by (nonlinear_arith)
                    requires
                        self.den > 0,
                        other.num < 0,
                ;
            }
        }
        let n: i128 = self.num as i128 * other.den as i128;
        let d: i128 = self.den as i128 * other.num as i128;
        if d < 0 {
            Self::reduced(-n, -d)
        } else {
            Self::reduced(n, d)
        }
    }

    /// The value without its sign.
    pub fn magnitude(&self) -> (r: Scalar)
        ensures
            r@ == self@.magnitude(),
    {
        if self.is_negative() {
            self.neg()
        } else {
            *self
        }
    }

    /// Strictly less, between two defined values.
    pub fn lt(&self, other: &Scalar) -> (b: bool)
        ensures
            b == self@.lt(other@),
    {
        proof {
            use_type_invariant(self);
            use_type_invariant(other);
        }
        if self.den == 0 || other.den == 0 {
            return false;
        }
        proof {
            lemma_product_bound(self.num as int, other.den as int);
            lemma_product_bound(other.num as int, self.den as int);
        }
        (self.num as i128) * (other.den as i128) < (other.num as i128) * (self.den as i128)
    }

    /// Whether `self` comes before `other` in the order by which a greatest
    /// value is chosen.
    pub fn ranks_below(&self, other: &Scalar) -> (b: bool)
        ensures
            b == self@.ranks_below(other@),
    {
        proof {
            use_type_invariant(self);
            use_type_invariant(other);
        }
        if other.den == 0 {
            return false;
        }
        if self.den == 0 {
            return true;
        }
        proof {
            lemma_product_bound(self.num as int, other.den as int);
            lemma_product_bound(other.num as int, self.den as int);
        }
        (self.num as i128) * (other.den as i128) < (other.num as i128) * (self.den as i128)
    }
}

} // verus!
