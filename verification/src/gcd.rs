//! Greatest common divisors of natural numbers, and the facts about
//! fractions in lowest terms that exact rational arithmetic rests on.

use vstd::arithmetic::div_mod::{
    lemma_fundamental_div_mod, lemma_mod_multiples_basic, lemma_mod_pos_bound,
};
use vstd::math::abs;
use vstd::prelude::*;

verus! {

/// The greatest common divisor of `a` and `b`, by Euclid's recurrence.
/// `gcd(0, 0)` is `0`.
pub open spec fn gcd(a: nat, b: nat) -> nat
    decreases b,
{
    if b == 0 {
        a
    } else {
        gcd(b, a % b)
    }
}

/// `n` is `k` times `d`.
pub open spec fn is_multiple(n: int, d: int, k: int) -> bool {
    n == d * k
}

/// `d` divides `n`.
pub open spec fn divides(d: int, n: int) -> bool {
    exists|k: int| #[trigger] is_multiple(n, d, k)
}

/// A witness shows divisibility.
pub proof fn lemma_divides_witness(d: int, n: int, k: int)
    requires
        n == d * k,
    ensures
        divides(d, n),
{
    assert(is_multiple(n, d, k));
}

/// For a positive divisor, divisibility is a zero remainder.
pub proof fn lemma_divides_iff_mod(d: int, n: int)
    requires
        d > 0,
    ensures
        divides(d, n) <==> n % d == 0,
{
    if divides(d, n) {
        let k = choose|k: int| #[trigger] is_multiple(n, d, k);
        assert(d * k == k * d) by (nonlinear_arith);
        lemma_mod_multiples_basic(k, d);
    }
    if n % d == 0 {
        lemma_fundamental_div_mod(n, d);
        lemma_divides_witness(d, n, n / d);
    }
}

/// A divisor of two numbers divides every combination of them.
pub proof fn lemma_divides_combination(d: int, a: int, b: int, x: int, y: int)
    requires
        divides(d, a),
        divides(d, b),
    ensures
        divides(d, a * x + b * y),
{
    let ka = choose|k: int| #[trigger] is_multiple(a, d, k);
    let kb = choose|k: int| #[trigger] is_multiple(b, d, k);
    assert(a * x + b * y == d * (ka * x + kb * y)) by (nonlinear_arith)
        requires
            a == d * ka,
            b == d * kb,
    ;
    lemma_divides_witness(d, a * x + b * y, ka * x + kb * y);
}

/// The gcd divides both of its arguments, and is positive unless both are
/// zero.
pub proof fn lemma_gcd_divides(a: nat, b: nat)
    ensures
        divides(gcd(a, b) as int, a as int),
        divides(gcd(a, b) as int, b as int),
        a > 0 || b > 0 ==> gcd(a, b) > 0,
    decreases b,
{
    if b == 0 {
        lemma_divides_witness(a as int, a as int, 1);
        lemma_divides_witness(a as int, 0, 0);
    } else {
        let r = a % b;
        lemma_mod_pos_bound(a as int, b as int);
        lemma_gcd_divides(b, r);
        let g = gcd(b, r) as int;
        lemma_fundamental_div_mod(a as int, b as int);
        lemma_divides_combination(g, b as int, r as int, a as int / b as int, 1);
        assert(b as int * (a as int / b as int) + r as int * 1 == a as int);
    }
}

/// Every common divisor divides the gcd.
pub proof fn lemma_gcd_greatest(a: nat, b: nat, d: int)
    requires
        divides(d, a as int),
        divides(d, b as int),
    ensures
        divides(d, gcd(a, b) as int),
    decreases b,
{
    if b != 0 {
        let r = a % b;
        lemma_mod_pos_bound(a as int, b as int);
        lemma_fundamental_div_mod(a as int, b as int);
        lemma_divides_combination(d, a as int, b as int, 1, -(a as int / b as int));
        assert(a as int * 1 + b as int * (-(a as int / b as int)) == r as int) by (nonlinear_arith)
            requires
                a as int == b as int * (a as int / b as int) + r as int,
        ;
        lemma_gcd_greatest(b, r, d);
    }
}

/// Bezout's identity: the gcd is an integer combination of its arguments.
pub proof fn lemma_bezout(a: nat, b: nat) -> (c: (int, int))
    ensures
        a * c.0 + b * c.1 == gcd(a, b),
    decreases b,
{
    if b == 0 {
        (1, 0)
    } else {
        let r = a % b;
        let q = a as int / b as int;
        lemma_mod_pos_bound(a as int, b as int);
        lemma_fundamental_div_mod(a as int, b as int);
        let (x, y) = lemma_bezout(b, r);
        assert(a * y + b * (x - q * y) == b * x + r * y) by (nonlinear_arith)
            requires
                a as int == b as int * q + r as int,
        ;
        (y, x - q * y)
    }
}

/// Euclid's lemma: a number coprime to `p` that divides `p * s` divides `s`.
pub proof fn lemma_coprime_divides_product(p: nat, q: nat, s: int)
    requires
        gcd(p, q) == 1,
        divides(q as int, p * s),
    ensures
        divides(q as int, s),
{
    let (x, y) = lemma_bezout(p, q);
    let m = choose|m: int| #[trigger] is_multiple(p * s, q as int, m);
    assert(s == q as int * (m * x + s * y)) by (nonlinear_arith)
        requires
            p * x + q * y == 1,
            p * s == q as int * m,
    ;
    lemma_divides_witness(q as int, s, m * x + s * y);
}

/// Two positive numbers that divide each other are equal.
pub proof fn lemma_divides_antisymmetric(a: int, b: int)
    requires
        a > 0,
        b > 0,
        divides(a, b),
        divides(b, a),
    ensures
        a == b,
{
    let k = choose|k: int| #[trigger] is_multiple(b, a, k);
    let l = choose|l: int| #[trigger] is_multiple(a, b, l);
    assert(a == b) by (nonlinear_arith)
        requires
            a > 0,
            b > 0,
            b == a * k,
            a == b * l,
    ;
}

/// A fraction is in lowest terms when its denominator is positive and
/// shares no factor with its numerator.
pub open spec fn lowest_terms(n: int, d: int) -> bool {
    d > 0 && gcd(abs(n), d as nat) == 1
}

/// Two fractions in lowest terms that denote the same number are the same
/// fraction.
pub proof fn lemma_lowest_terms_unique(p: int, q: int, r: int, s: int)
    requires
        lowest_terms(p, q),
        lowest_terms(r, s),
        p * s == r * q,
    ensures
        p == r,
        q == s,
{
    let ap = abs(p);
    let ar = abs(r);
    assert(ap * s == ar * q) by (nonlinear_arith)
        requires
            p * s == r * q,
            q > 0,
            s > 0,
            ap == (if p >= 0 { p } else { -p }),
            ar == (if r >= 0 { r } else { -r }),
    ;
    assert(ar * q == q * ar) by (nonlinear_arith);
    lemma_divides_witness(q, ap * s, ar as int);
    lemma_coprime_divides_product(ap, q as nat, s);
    assert(ap * s == s * ap) by (nonlinear_arith);
    lemma_divides_witness(s, ar * q, ap as int);
    lemma_coprime_divides_product(ar, s as nat, q);
    lemma_divides_antisymmetric(q, s);
    assert(p == r) by (nonlinear_arith)
        requires
            p * s == r * q,
            q == s,
            s > 0,
    ;
}

/// Dividing both parts of a fraction by their gcd leaves a fraction in
/// lowest terms that denotes the same number.
pub proof fn lemma_reduce(n: int, d: int)
    requires
        d > 0,
    ensures
        gcd(abs(n), d as nat) > 0,
        lowest_terms(n / (gcd(abs(n), d as nat) as int), d / (gcd(abs(n), d as nat) as int)),
        n == (n / (gcd(abs(n), d as nat) as int)) * gcd(abs(n), d as nat),
        d == (d / (gcd(abs(n), d as nat) as int)) * gcd(abs(n), d as nat),
        n >= 0 ==> n / (gcd(abs(n), d as nat) as int) == abs(n) as int / (gcd(abs(n), d as nat) as int),
        n < 0 ==> n / (gcd(abs(n), d as nat) as int) == -(abs(n) as int / (gcd(abs(n), d as nat) as int)),
{
    let a = abs(n);
    let g = gcd(a, d as nat) as int;
    lemma_gcd_divides(a, d as nat);
    lemma_divides_iff_mod(g, a as int);
    lemma_divides_iff_mod(g, d);
    lemma_fundamental_div_mod(d, g);
    lemma_fundamental_div_mod(a as int, g);
    let p = n / g;
    let q = d / g;
    let ka = a as int / g;
    assert(d == q * g) by (nonlinear_arith)
        requires
            d == g * q + 0,
    ;
    assert(a == ka * g) by (nonlinear_arith)
        requires
            a as int == g * ka + 0,
    ;
    // the quotient of the numerator keeps the sign
    if n >= 0 {
        assert(p == ka);
    } else {
        assert(n == g * (-ka)) by (nonlinear_arith)
            requires
                -n == ka * g,
        ;
        lemma_divides_witness(g, n, -ka);
        lemma_divides_iff_mod(g, n);
        lemma_fundamental_div_mod(n, g);
        assert(p == -ka) by (nonlinear_arith)
            requires
                n == g * p + 0,
                n == g * (-ka),
                g > 0,
        ;
    }
    assert(n == p * g) by (nonlinear_arith)
        requires
            a == ka * g,
            a == (if n >= 0 { n } else { -n }),
            p == (if n >= 0 { ka } else { -ka }),
    ;
    assert(q > 0) by (nonlinear_arith)
        requires
            d == q * g,
            d > 0,
            g > 0,
    ;
    assert(abs(p) == ka);
    // a common divisor h of the quotients makes g * h a common divisor
    let h = gcd(ka as nat, q as nat) as int;
    lemma_gcd_divides(ka as nat, q as nat);
    let u = choose|u: int| #[trigger] is_multiple(ka, h, u);
    let v = choose|v: int| #[trigger] is_multiple(q, h, v);
    assert(a as int == (g * h) * u) by (nonlinear_arith)
        requires
            a == ka * g,
            ka == h * u,
    ;
    assert(d == (g * h) * v) by (nonlinear_arith)
        requires
            d == q * g,
            q == h * v,
    ;
    lemma_divides_witness(g * h, a as int, u);
    lemma_divides_witness(g * h, d, v);
    lemma_gcd_greatest(a, d as nat, g * h);
    let w = choose|w: int| #[trigger] is_multiple(g, (g * h), w);
    assert(h == 1) by (nonlinear_arith)
        requires
            g == (g * h) * w,
            g > 0,
            h > 0,
    ;
}

/// A fraction that denotes the same number as one in lowest terms reduces
/// to it.
pub proof fn lemma_reduce_equivalent(n: int, d: int, p: int, q: int)
    requires
        d > 0,
        lowest_terms(p, q),
        n * q == p * d,
    ensures
        n / (gcd(abs(n), d as nat) as int) == p,
        d / (gcd(abs(n), d as nat) as int) == q,
{
    let g = gcd(abs(n), d as nat) as int;
    lemma_reduce(n, d);
    let rn = n / g;
    let rd = d / g;
    assert(rn * q == p * rd) by (nonlinear_arith)
        requires
            n == rn * g,
            d == rd * g,
            n * q == p * d,
            g > 0,
    ;
    lemma_lowest_terms_unique(rn, rd, p, q);
}

/// The gcd does not depend on the order of its arguments.
pub proof fn lemma_gcd_symmetric(a: nat, b: nat)
    ensures
        gcd(a, b) == gcd(b, a),
{
    lemma_gcd_divides(a, b);
    lemma_gcd_divides(b, a);
    lemma_gcd_greatest(b, a, gcd(a, b) as int);
    lemma_gcd_greatest(a, b, gcd(b, a) as int);
    if a > 0 || b > 0 {
        lemma_divides_antisymmetric(gcd(a, b) as int, gcd(b, a) as int);
    }
}

/// The gcd of a number with one is one.
pub proof fn lemma_gcd_one(a: nat)
    ensures
        gcd(a, 1) == 1,
{
    assert(a % 1 == 0) by {
        lemma_mod_multiples_basic(a as int, 1);
    }
    assert(gcd(1, 0) == 1);
    assert(gcd(a, 1) == gcd(1, a % 1));
}

} // verus!
