//! The mathematical model of a coefficient: an exact rational number in
//! lowest terms whose parts fit in 64 bits, or the undefined value that
//! stands for a result beyond that range or a division by zero.

use crate::gcd::{
    gcd, lemma_gcd_one, lemma_gcd_symmetric, lemma_reduce, lemma_reduce_equivalent, lowest_terms,
};
use vstd::math::abs;
use vstd::prelude::*;

verus! {

/// The largest magnitude that a numerator or a denominator may have.
pub const LIMIT: i64 = 0x7fff_ffff_ffff_ffff;

/// `num / den` where `den > 0`; `den == 0` marks the undefined value.
pub struct Rational {
    pub num: int,
    pub den: int,
}

impl Rational {
    /// The value of an operation whose exact result is not representable.
    pub open spec fn undefined() -> Rational {
        Rational { num: 0, den: 0 }
    }

    pub open spec fn zero() -> Rational {
        Rational { num: 0, den: 1 }
    }

    pub open spec fn one() -> Rational {
        Rational { num: 1, den: 1 }
    }

    pub open spec fn defined(self) -> bool {
        self.den != 0
    }

    /// The parts are within the limit.
    pub open spec fn in_range(n: int, d: int) -> bool {
        -LIMIT <= n <= LIMIT && 0 < d <= LIMIT
    }

    /// A value is well formed when it is the undefined value or a fraction
    /// in lowest terms within the limit. Every number then has one form.
    pub open spec fn wf(self) -> bool {
        if self.den == 0 {
            self.num == 0
        } else {
            lowest_terms(self.num, self.den) && Self::in_range(self.num, self.den)
        }
    }

    /// The number `n / d` for `d > 0`, in lowest terms; undefined where
    /// `d <= 0` or a part of the reduced fraction is beyond the limit.
    pub open spec fn fraction(n: int, d: int) -> Rational {
        if d > 0 {
            let g = gcd(abs(n), d as nat) as int;
            if Self::in_range(n / g, d / g) {
                Rational { num: n / g, den: d / g }
            } else {
                Self::undefined()
            }
        } else {
            Self::undefined()
        }
    }

    /// The number `n / d` for any `d != 0`.
    pub open spec fn ratio(n: int, d: int) -> Rational {
        if d < 0 {
            Self::fraction(-n, -d)
        } else {
            Self::fraction(n, d)
        }
    }

    pub open spec fn integer(n: int) -> Rational {
        Self::fraction(n, 1)
    }

    pub open spec fn is_zero(self) -> bool {
        self.den != 0 && self.num == 0
    }

    pub open spec fn is_positive(self) -> bool {
        self.den != 0 && self.num > 0
    }

    pub open spec fn is_negative(self) -> bool {
        self.den != 0 && self.num < 0
    }

    pub open spec fn is_integer(self) -> bool {
        self.den == 1
    }

    pub open spec fn neg(self) -> Rational {
        Rational { num: -self.num, den: self.den }
    }

    /// The value without its sign.
    pub open spec fn magnitude(self) -> Rational {
        if self.is_negative() {
            self.neg()
        } else {
            self
        }
    }

    pub open spec fn add(self, other: Rational) -> Rational {
        if self.defined() && other.defined() {
            Self::fraction(self.num * other.den + other.num * self.den, self.den * other.den)
        } else {
            Self::undefined()
        }
    }

    pub open spec fn sub(self, other: Rational) -> Rational {
        self.add(other.neg())
    }

    pub open spec fn mul(self, other: Rational) -> Rational {
        if self.defined() && other.defined() {
            Self::fraction(self.num * other.num, self.den * other.den)
        } else {
            Self::undefined()
        }
    }

    /// Division; undefined where the divisor is zero.
    pub open spec fn div(self, other: Rational) -> Rational {
        if self.defined() && other.defined() {
            Self::ratio(self.num * other.den, self.den * other.num)
        } else {
            Self::undefined()
        }
    }

    /// Strictly less, between two defined values.
    pub open spec fn lt(self, other: Rational) -> bool {
        self.defined() && other.defined() && self.num * other.den < other.num * self.den
    }

    /// The order by which a greatest value is chosen: the undefined value
    /// ranks below every defined one, defined values rank by size.
    pub open spec fn ranks_below(self, other: Rational) -> bool {
        other.defined() && (!self.defined() || self.num * other.den < other.num * self.den)
    }
}

/// A fraction is always well formed.
pub proof fn lemma_fraction_wf(n: int, d: int)
    ensures
        Rational::fraction(n, d).wf(),
{
    if d > 0 {
        lemma_reduce(n, d);
    }
}

/// A well-formed defined value is its own fraction.
pub proof fn lemma_fraction_of_wf(r: Rational)
    requires
        r.wf(),
        r.defined(),
    ensures
        Rational::fraction(r.num, r.den) == r,
{
    assert(r.num / 1 == r.num && r.den / 1 == r.den);
}

/// Where a fraction is defined, it denotes `n / d`.
pub proof fn lemma_fraction_value(n: int, d: int)
    requires
        Rational::fraction(n, d).defined(),
    ensures
        d > 0,
        Rational::fraction(n, d).num * d == n * Rational::fraction(n, d).den,
{
    lemma_reduce(n, d);
    let g = gcd(abs(n), d as nat) as int;
    let p = n / g;
    let q = d / g;
    assert(p * d == n * q) by (nonlinear_arith)
        requires
            n == p * g,
            d == q * g,
    ;
}

/// A fraction that denotes a well-formed value is that value.
pub proof fn lemma_fraction_denotes(n: int, d: int, r: Rational)
    requires
        d > 0,
        r.wf(),
        r.defined(),
        n * r.den == r.num * d,
    ensures
        Rational::fraction(n, d) == r,
{
    lemma_reduce_equivalent(n, d, r.num, r.den);
}

/// The integers within the limit are their own fractions.
pub proof fn lemma_integer(n: int)
    ensures
        -LIMIT <= n <= LIMIT ==> Rational::integer(n) == (Rational { num: n, den: 1 }),
        !(-LIMIT <= n <= LIMIT) ==> Rational::integer(n) == Rational::undefined(),
        Rational::zero().wf(),
        Rational::one().wf(),
{
    lemma_gcd_one(abs(n));
    lemma_gcd_one(0);
    lemma_gcd_one(1);
    assert(n / 1 == n);
    assert(1int / 1 == 1);
}

/// The one well-formed value that is zero.
pub proof fn lemma_zero_unique(r: Rational)
    requires
        r.wf(),
        r.is_zero(),
    ensures
        r == Rational::zero(),
{
    assert(gcd(r.den as nat, 0) == r.den);
    assert(0nat % (r.den as nat) == 0);
    assert(gcd(0, r.den as nat) == gcd(r.den as nat, 0nat % (r.den as nat)));
}

/// Adding zero changes nothing.
pub proof fn lemma_add_zero(a: Rational)
    requires
        a.wf(),
    ensures
        a.add(Rational::zero()) == a,
        Rational::zero().add(a) == a,
{
    if a.defined() {
        assert(a.num * 1 + 0 * a.den == a.num) by (nonlinear_arith);
        assert(0 * a.den + a.num * 1 == a.num) by (nonlinear_arith);
        assert(a.den * 1 == a.den && 1 * a.den == a.den) by (nonlinear_arith);
        lemma_fraction_of_wf(a);
    }
}

/// Negation keeps a value well formed and is its own inverse.
pub proof fn lemma_neg(a: Rational)
    requires
        a.wf(),
    ensures
        a.neg().wf(),
        a.neg().neg() == a,
        a.neg().defined() == a.defined(),
{
    assert(abs(-a.num) == abs(a.num));
}

/// Subtracting what was added gives the first operand back, where the sum
/// is representable.
pub proof fn lemma_add_then_sub(a: Rational, b: Rational)
    requires
        a.wf(),
        b.wf(),
        a.add(b).defined(),
    ensures
        a.add(b).sub(b) == a,
{
    let (an, ad, bn, bd) = (a.num, a.den, b.num, b.den);
    let n = an * bd + bn * ad;
    let d = ad * bd;
    let s = a.add(b);
    let (sn, sd) = (s.num, s.den);
    lemma_fraction_value(n, d);
    let m = sn * bd + (-bn) * sd;
    let e = sd * bd;
    assert(e > 0) by (nonlinear_arith)
        requires
            e == sd * bd,
            sd > 0,
            bd > 0,
    ;
    assert(m * ad == sn * d - (bn * ad) * sd) by (nonlinear_arith)
        requires
            m == sn * bd + (-bn) * sd,
            d == ad * bd,
    ;
    assert(n * sd == an * e + (bn * ad) * sd) by (nonlinear_arith)
        requires
            n == an * bd + bn * ad,
            e == sd * bd,
    ;
    assert(m * ad == an * e);
    lemma_fraction_denotes(m, e, a);
}

/// Dividing by what was multiplied gives the first operand back, where the
/// product is representable and the factor is not zero.
pub proof fn lemma_mul_then_div(a: Rational, k: Rational)
    requires
        a.wf(),
        k.wf(),
        k.defined(),
        k.num != 0,
        a.mul(k).defined(),
    ensures
        a.mul(k).div(k) == a,
{
    let (an, ad, kn, kd) = (a.num, a.den, k.num, k.den);
    let n = an * kn;
    let d = ad * kd;
    let s = a.mul(k);
    let (sn, sd) = (s.num, s.den);
    lemma_fraction_value(n, d);
    let m = sn * kd;
    let e = sd * kn;
    assert(m * ad == sn * d) by (nonlinear_arith)
        requires
            m == sn * kd,
            d == ad * kd,
    ;
    assert(n * sd == an * e) by (nonlinear_arith)
        requires
            n == an * kn,
            e == sd * kn,
    ;
    assert(m * ad == an * e);
    if kn > 0 {
        assert(e > 0) by (nonlinear_arith)
            requires
                e == sd * kn,
                sd > 0,
                kn > 0,
        ;
        lemma_fraction_denotes(m, e, a);
    } else {
        assert(-e > 0) by (nonlinear_arith)
            requires
                e == sd * kn,
                sd > 0,
                kn < 0,
        ;
        assert((-m) * ad == an * (-e)) by (nonlinear_arith)
            requires
                m * ad == an * e,
        ;
        lemma_fraction_denotes(-m, -e, a);
    }
}

/// A value minus itself is zero.
pub proof fn lemma_sub_self(a: Rational)
    requires
        a.wf(),
        a.defined(),
    ensures
        a.sub(a) == Rational::zero(),
{
    let n = a.num * a.den + (-a.num) * a.den;
    let d = a.den * a.den;
    assert(n == 0) by (nonlinear_arith)
        requires
            n == a.num * a.den + (-a.num) * a.den,
    ;
    assert(d > 0) by (nonlinear_arith)
        requires
            d == a.den * a.den,
            a.den > 0,
    ;
    lemma_integer(0);
    lemma_fraction_denotes(n, d, Rational::zero());
}

/// One over a defined value that is not zero is defined, and zero over it
/// is zero.
pub proof fn lemma_reciprocal(c: Rational)
    requires
        c.wf(),
        c.defined(),
        c.num != 0,
    ensures
        Rational::one().div(c).defined(),
        Rational::one().div(c).wf(),
        Rational::zero().div(c) == Rational::zero(),
{
    lemma_gcd_symmetric(abs(c.num), c.den as nat);
    lemma_integer(0);
    assert(1 * c.den == c.den && 1 * c.num == c.num && 0 * c.den == 0) by (nonlinear_arith);
    if c.num > 0 {
        assert(c.den / 1 == c.den && c.num / 1 == c.num);
        lemma_fraction_denotes(0, c.num, Rational::zero());
    } else {
        assert(abs(-c.den) == c.den);
        assert((-c.den) / 1 == -c.den && (-c.num) / 1 == -c.num);
        lemma_fraction_denotes(0, -c.num, Rational::zero());
    }
    lemma_fraction_wf(c.den, c.num);
    lemma_fraction_wf(-c.den, -c.num);
}

/// The ranking is a strict weak order: it is irreflexive and transitive,
/// and so is its complement.
pub proof fn lemma_ranking(a: Rational, b: Rational, c: Rational)
    requires
        a.den >= 0,
        b.den >= 0,
        c.den >= 0,
    ensures
        !a.ranks_below(a),
        a.ranks_below(b) && b.ranks_below(c) ==> a.ranks_below(c),
        !a.ranks_below(b) && !b.ranks_below(c) ==> !a.ranks_below(c),
{
    if a.defined() && b.defined() && c.defined() {
        if a.ranks_below(b) && b.ranks_below(c) {
            assert(a.num * c.den < c.num * a.den) by (nonlinear_arith)
                requires
                    a.num * b.den < b.num * a.den,
                    b.num * c.den < c.num * b.den,
                    a.den > 0,
                    b.den > 0,
                    c.den > 0,
            ;
        }
        if !a.ranks_below(b) && !b.ranks_below(c) {
            assert(a.num * c.den >= c.num * a.den) by (nonlinear_arith)
                requires
                    a.num * b.den >= b.num * a.den,
                    b.num * c.den >= c.num * b.den,
                    a.den > 0,
                    b.den > 0,
                    c.den > 0,
            ;
        }
    }
}

/// What does not rank above a value ranks below whatever that value ranks
/// below.
pub proof fn lemma_ranks_through(a: Rational, b: Rational, c: Rational)
    requires
        a.wf(),
        b.wf(),
        c.wf(),
        !b.ranks_below(a),
        b.ranks_below(c),
    ensures
        a.ranks_below(c),
{
    if a.defined() && b.defined() {
        assert(a.num * c.den < c.num * a.den) by (nonlinear_arith)
            requires
                a.num * b.den <= b.num * a.den,
                b.num * c.den < c.num * b.den,
                a.den > 0,
                b.den > 0,
                c.den > 0,
        ;
    }
}

/// Nothing is greater than zero that a value which is not greater than
/// zero does not rank below.
pub proof fn lemma_not_positive_below(greatest: Rational, other: Rational)
    requires
        greatest.wf(),
        other.wf(),
        !greatest.is_positive(),
        !greatest.ranks_below(other),
    ensures
        !other.is_positive(),
{
    if other.is_positive() && greatest.defined() {
        assert(greatest.num * other.den < other.num * greatest.den) by (nonlinear_arith)
            requires
                greatest.num <= 0,
                other.num > 0,
                other.den > 0,
                greatest.den > 0,
        ;
    }
}

/// A defined value that is not zero, divided by itself, is one.
pub proof fn lemma_div_self(a: Rational)
    requires
        a.wf(),
        a.defined(),
        a.num != 0,
    ensures
        a.div(a) == Rational::one(),
{
    let n = a.num * a.den;
    let d = a.den * a.num;
    assert(n == d) by (nonlinear_arith)
        requires
            n == a.num * a.den,
            d == a.den * a.num,
    ;
    lemma_integer(1);
    if a.num > 0 {
        assert(d > 0) by (nonlinear_arith)
            requires
                d == a.den * a.num,
                a.den > 0,
                a.num > 0,
        ;
        lemma_fraction_denotes(n, d, Rational::one());
    } else {
        assert(-d > 0) by (nonlinear_arith)
            requires
                d == a.den * a.num,
                a.den > 0,
                a.num < 0,
        ;
        lemma_fraction_denotes(-n, -d, Rational::one());
    }
}

/// A defined fraction has the sign of its numerator.
pub proof fn lemma_fraction_sign(n: int, d: int)
    requires
        Rational::fraction(n, d).defined(),
    ensures
        n >= 0 ==> Rational::fraction(n, d).num >= 0,
        n <= 0 ==> Rational::fraction(n, d).num <= 0,
{
    lemma_fraction_value(n, d);
    lemma_fraction_wf(n, d);
    let r = Rational::fraction(n, d);
    assert((n >= 0 ==> r.num >= 0) && (n <= 0 ==> r.num <= 0)) by (nonlinear_arith)
        requires
            r.num * d == n * r.den,
            d > 0,
            r.den > 0,
    ;
}

/// A value that is not below zero, over a value below zero, is not above
/// zero.
pub proof fn lemma_div_sign(b: Rational, a: Rational)
    requires
        b.wf(),
        a.wf(),
        b.defined(),
        b.num >= 0,
        a.is_negative(),
        b.div(a).defined(),
    ensures
        b.div(a).num <= 0,
{
    assert(b.den * a.num < 0) by (nonlinear_arith)
        requires
            b.den > 0,
            a.num < 0,
    ;
    assert(-(b.num * a.den) <= 0) by (nonlinear_arith)
        requires
            b.num >= 0,
            a.den > 0,
    ;
    lemma_fraction_sign(-(b.num * a.den), -(b.den * a.num));
}

/// The product of a value that is not below zero and one that is above
/// zero is not below zero.
pub proof fn lemma_mul_sign(e: Rational, c: Rational)
    requires
        e.wf(),
        c.wf(),
        e.defined(),
        e.num >= 0,
        c.is_positive(),
        e.mul(c).defined(),
    ensures
        e.mul(c).num >= 0,
{
    assert(e.num * c.num >= 0) by (nonlinear_arith)
        requires
            e.num >= 0,
            c.num > 0,
    ;
    lemma_fraction_sign(e.num * c.num, e.den * c.den);
}

/// A value with a value that is not below zero added to it is not less
/// than it was.
pub proof fn lemma_add_not_less(z: Rational, t: Rational)
    requires
        z.wf(),
        t.wf(),
        t.num >= 0,
        z.add(t).defined(),
    ensures
        !z.add(t).lt(z),
{
    let n = z.num * t.den + t.num * z.den;
    let d = z.den * t.den;
    let r = z.add(t);
    lemma_fraction_value(n, d);
    lemma_fraction_wf(n, d);
    let (rn, rd, zn, zd, tn, td) = (r.num, r.den, z.num, z.den, t.num, t.den);
    assert(rn * zd * td == (zn * td + tn * zd) * rd) by (nonlinear_arith)
        requires
            rn * d == n * rd,
            n == zn * td + tn * zd,
            d == zd * td,
    ;
    assert((zn * td + tn * zd) * rd >= (zn * rd) * td) by (nonlinear_arith)
        requires
            tn >= 0,
            zd > 0,
            rd > 0,
    ;
    assert(rn * zd >= zn * rd) by (nonlinear_arith)
        requires
            rn * zd * td >= (zn * rd) * td,
            td > 0,
    ;
}

/// The sum of two values that are not below zero is not below zero.
pub proof fn lemma_add_sign(x: Rational, y: Rational)
    requires
        x.num >= 0,
        y.num >= 0,
        x.den >= 0,
        y.den >= 0,
        x.add(y).defined(),
    ensures
        x.add(y).num >= 0,
{
    assert(x.num * y.den + y.num * x.den >= 0) by (nonlinear_arith)
        requires
            x.num >= 0,
            y.num >= 0,
            x.den >= 0,
            y.den >= 0,
    ;
    lemma_fraction_sign(x.num * y.den + y.num * x.den, x.den * y.den);
}

/// Where `q` is not less than `b / a` and `a` is below zero, `b - q * a`
/// is not below zero: the variable of a row stays at zero or above when
/// another variable grows by no more than the row admits.
pub proof fn lemma_ratio_bound(b: Rational, a: Rational, q: Rational)
    requires
        b.wf(),
        a.wf(),
        q.wf(),
        b.defined(),
        a.is_negative(),
        q.defined(),
        b.div(a).defined(),
        !q.ranks_below(b.div(a)),
        b.add(q.neg().mul(a)).defined(),
    ensures
        b.add(q.neg().mul(a)).num >= 0,
{
    let (bn, bd, an, ad, qn, qd) = (b.num, b.den, a.num, a.den, q.num, q.den);
    let r = b.div(a);
    let (rn, rd) = (r.num, r.den);
    assert(bd * an < 0) by (nonlinear_arith)
        requires
            bd > 0,
            an < 0,
    ;
    lemma_fraction_value(-(bn * ad), -(bd * an));
    lemma_fraction_wf(-(bn * ad), -(bd * an));
    // rn / rd is b / a
    assert(rn * (bd * an) == (bn * ad) * rd) by (nonlinear_arith)
        requires
            rn * (-(bd * an)) == (-(bn * ad)) * rd,
    ;
    // q is not less than it
    assert(qn * rd >= rn * qd);
    assert((qn * rd) * (bd * an) <= (rn * qd) * (bd * an)) by (nonlinear_arith)
        requires
            qn * rd >= rn * qd,
            bd * an < 0,
    ;
    assert((rn * qd) * (bd * an) == ((bn * ad) * qd) * rd) by (nonlinear_arith)
        requires
            rn * (bd * an) == (bn * ad) * rd,
    ;
    assert((qn * rd) * (bd * an) == ((qn * bd) * an) * rd) by (nonlinear_arith);
    assert((qn * bd) * an <= (bn * ad) * qd) by (nonlinear_arith)
        requires
            ((qn * bd) * an) * rd <= ((bn * ad) * qd) * rd,
            rd > 0,
    ;
    // the product and the sum
    let e = q.neg();
    let t = e.mul(a);
    let (tn, td) = (t.num, t.den);
    lemma_fraction_value((-qn) * an, qd * ad);
    lemma_fraction_wf((-qn) * an, qd * ad);
    let n = bn * td + tn * bd;
    let k = qd * ad;
    let w = tn * k;
    assert(w == -((qn * an) * td)) by (nonlinear_arith)
        requires
            w == ((-qn) * an) * td,
    ;
    assert(n * k == (bn * td) * k + w * bd) by (nonlinear_arith)
        requires
            n == bn * td + tn * bd,
            w == tn * k,
    ;
    assert((bn * td) * k == td * ((bn * ad) * qd)) by (nonlinear_arith)
        requires
            k == qd * ad,
    ;
    assert(w * bd == -(td * ((qn * bd) * an))) by (nonlinear_arith)
        requires
            w == -((qn * an) * td),
    ;
    assert(td * ((bn * ad) * qd) - td * ((qn * bd) * an) == td * ((bn * ad) * qd - (qn * bd) * an))
        by (nonlinear_arith);
    assert(n * (qd * ad) == td * ((bn * ad) * qd - (qn * bd) * an));
    assert(n >= 0) by (nonlinear_arith)
        requires
            n * (qd * ad) == td * ((bn * ad) * qd - (qn * bd) * an),
            (qn * bd) * an <= (bn * ad) * qd,
            td > 0,
            qd > 0,
            ad > 0,
    ;
    lemma_fraction_sign(n, bd * td);
}

} // verus!
