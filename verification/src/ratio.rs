//! Fractions as mathematical objects: lowest terms, and the four operations
//! on fractions in lowest terms.

use vstd::arithmetic::div_mod::{
    lemma_div_multiples_vanish,
    lemma_fundamental_div_mod,
    lemma_mod_pos_bound,
};
use vstd::arithmetic::mul::lemma_mul_equality_converse;
use vstd::prelude::*;

verus! {

/// A fraction `num / den` of two integers.
pub struct Ratio {
    pub num: int,
    pub den: int,
}

/// The absolute value.
pub open spec fn magnitude(i: int) -> nat {
    if i >= 0 {
        i as nat
    } else {
        (-i) as nat
    }
}

/// The greatest common divisor, by Euclid's rule; `gcd_of(0, 0)` is 0.
pub open spec fn gcd_of(a: nat, b: nat) -> nat
    decreases b,
{
    if b == 0 {
        a
    } else {
        gcd_of(b, a % b)
    }
}

/// Lowest terms: the denominator is positive and shares no factor with the
/// numerator.
pub open spec fn is_reduced(q: Ratio) -> bool {
    q.den > 0 && gcd_of(magnitude(q.num), q.den as nat) == 1
}

/// The fraction `n / d` in lowest terms.
pub open spec fn normalize(n: int, d: int) -> Ratio
    recommends
        d != 0,
{
    let top = if d < 0 {
        -n
    } else {
        n
    };
    let bottom = if d < 0 {
        -d
    } else {
        d
    };
    let g = gcd_of(magnitude(top), bottom as nat) as int;
    Ratio { num: top / g, den: bottom / g }
}

/// The integer `i` as a fraction.
pub open spec fn q_int(i: int) -> Ratio {
    Ratio { num: i, den: 1 }
}

/// Sum of two fractions, in lowest terms.
pub open spec fn q_add(a: Ratio, b: Ratio) -> Ratio {
    normalize(a.num * b.den + b.num * a.den, a.den * b.den)
}

/// Difference of two fractions, in lowest terms.
pub open spec fn q_sub(a: Ratio, b: Ratio) -> Ratio {
    normalize(a.num * b.den - b.num * a.den, a.den * b.den)
}

/// Product of two fractions, in lowest terms.
pub open spec fn q_mul(a: Ratio, b: Ratio) -> Ratio {
    normalize(a.num * b.num, a.den * b.den)
}

/// Quotient of two fractions, in lowest terms.
pub open spec fn q_div(a: Ratio, b: Ratio) -> Ratio
    recommends
        b.num != 0,
{
    normalize(a.num * b.den, a.den * b.num)
}

/// `q` has the value `n / d`.
pub open spec fn has_value(q: Ratio, n: int, d: int) -> bool {
    d != 0 && q.den != 0 && q.num * d == n * q.den
}

// ---------------------------------------------------------------------------
// The greatest common divisor
// ---------------------------------------------------------------------------

/// The greatest common divisor divides both numbers: the lemma returns the
/// two cofactors.
pub proof fn lemma_gcd_cofactors(a: nat, b: nat) -> (k: (nat, nat))
    ensures
        a == gcd_of(a, b) * k.0,
        b == gcd_of(a, b) * k.1,
    decreases b,
{
    if b == 0 {
        (1, 0)
    } else {
        let g = gcd_of(a, b);
        lemma_mod_pos_bound(a as int, b as int);
        let r = (a % b) as nat;
        let (k0, k1) = lemma_gcd_cofactors(b, r);
        lemma_fundamental_div_mod(a as int, b as int);
        let q = a / b;
        assert(a == b * q + r);
        assert(b * q == g * (k0 * q)) by (nonlinear_arith)
            requires
                b == g * k0,
        ;
        assert(g * (k0 * q) + g * k1 == g * (k0 * q + k1)) by (nonlinear_arith);
        ((k0 * q + k1) as nat, k0)
    }
}

/// The greatest common divisor is a combination of the two numbers with
/// integer coefficients, which the lemma returns.
pub proof fn lemma_gcd_combination(a: nat, b: nat) -> (uv: (int, int))
    ensures
        uv.0 * a + uv.1 * b == gcd_of(a, b),
    decreases b,
{
    if b == 0 {
        (1, 0)
    } else {
        lemma_mod_pos_bound(a as int, b as int);
        let r = (a % b) as nat;
        let (u, v) = lemma_gcd_combination(b, r);
        lemma_fundamental_div_mod(a as int, b as int);
        let q = (a / b) as int;
        assert(a == b * q + r);
        assert(v * a + (u - v * q) * b == u * b + v * r) by (nonlinear_arith)
            requires
                a == b * q + r,
        ;
        (v, u - v * q)
    }
}

/// The greatest common divisor is positive unless both numbers are zero.
pub proof fn lemma_gcd_positive(a: nat, b: nat)
    requires
        a > 0 || b > 0,
    ensures
        gcd_of(a, b) > 0,
    decreases b,
{
    if b != 0 {
        lemma_mod_pos_bound(a as int, b as int);
        lemma_gcd_positive(b, (a % b) as nat);
    }
}

/// A product of two integers that is 1, the first of them positive, has both
/// factors equal to 1.
proof fn lemma_unit_product(h: int, w: int)
    requires
        h > 0,
        h * w == 1,
    ensures
        h == 1,
        w == 1,
{
    assert(w > 0) by (nonlinear_arith)
        requires
            h > 0,
            h * w == 1,
    ;
    assert(h == 1 && w == 1) by (nonlinear_arith)
        requires
            h > 0,
            w > 0,
            h * w == 1,
    ;
}

/// Dividing two numbers by their greatest common divisor leaves numbers
/// without a common factor.
proof fn lemma_cofactors_coprime(a: nat, b: nat, ka: nat, kb: nat)
    requires
        a > 0 || b > 0,
        a == gcd_of(a, b) * ka,
        b == gcd_of(a, b) * kb,
    ensures
        gcd_of(ka, kb) == 1,
{
    let g = gcd_of(a, b) as int;
    lemma_gcd_positive(a, b);
    let h = gcd_of(ka, kb) as int;
    assert(ka > 0 || kb > 0) by (nonlinear_arith)
        requires
            a > 0 || b > 0,
            a == g * ka,
            b == g * kb,
    ;
    lemma_gcd_positive(ka, kb);
    let (c0, c1) = lemma_gcd_cofactors(ka, kb);
    let (u, v) = lemma_gcd_combination(a, b);
    let w = u * c0 + v * c1;
    assert(g * (h * w) == g * 1) by (nonlinear_arith)
        requires
            u * a + v * b == g,
            a == g * ka,
            b == g * kb,
            ka == h * c0,
            kb == h * c1,
            w == u * c0 + v * c1,
    ;
    lemma_mul_equality_converse(g, h * w, 1);
    lemma_unit_product(h, w);
}

// ---------------------------------------------------------------------------
// Lowest terms
// ---------------------------------------------------------------------------

/// `normalize(n, d)` is in lowest terms and has the value `n / d`.
pub proof fn lemma_normalize(n: int, d: int)
    requires
        d != 0,
    ensures
        is_reduced(normalize(n, d)),
        has_value(normalize(n, d), n, d),
{
    let top = if d < 0 {
        -n
    } else {
        n
    };
    let bottom = if d < 0 {
        -d
    } else {
        d
    };
    let a = magnitude(top);
    let b = bottom as nat;
    let g = gcd_of(a, b) as int;
    lemma_gcd_positive(a, b);
    let (ka, kb) = lemma_gcd_cofactors(a, b);
    lemma_cofactors_coprime(a, b, ka, kb);
    let r = normalize(n, d);
    let signed = if top >= 0 {
        ka as int
    } else {
        -(ka as int)
    };
    assert(top == g * signed) by (nonlinear_arith)
        requires
            a == g * ka,
            a == if top >= 0 {
                top
            } else {
                -top
            },
            signed == if top >= 0 {
                ka as int
            } else {
                -(ka as int)
            },
    ;
    lemma_div_multiples_vanish(signed, g);
    lemma_div_multiples_vanish(kb as int, g);
    assert(r.num == signed);
    assert(r.den == kb);
    assert(kb > 0) by (nonlinear_arith)
        requires
            b > 0,
            b == g * kb,
            g > 0,
    ;
    assert(magnitude(signed) == ka);
    assert(signed * bottom == top * kb) by (nonlinear_arith)
        requires
            top == g * signed,
            bottom == g * kb,
    ;
    assert(r.num * d == n * r.den) by (nonlinear_arith)
        requires
            r.num * bottom == top * r.den,
            (top == n && bottom == d) || (top == -n && bottom == -d),
    ;
}

/// Two fractions in lowest terms with the same value are the same fraction.
pub proof fn lemma_reduced_unique(a: Ratio, b: Ratio)
    requires
        is_reduced(a),
        is_reduced(b),
        a.num * b.den == b.num * a.den,
    ensures
        a == b,
{
    let (ua, va) = lemma_gcd_combination(magnitude(a.num), a.den as nat);
    let sa = if a.num >= 0 {
        ua
    } else {
        -ua
    };
    assert(sa * a.num + va * a.den == 1) by (nonlinear_arith)
        requires
            ua * magnitude(a.num) + va * a.den == 1,
            magnitude(a.num) == if a.num >= 0 {
                a.num
            } else {
                -a.num
            },
            sa == if a.num >= 0 {
                ua
            } else {
                -ua
            },
    ;
    let (ub, vb) = lemma_gcd_combination(magnitude(b.num), b.den as nat);
    let sb = if b.num >= 0 {
        ub
    } else {
        -ub
    };
    assert(sb * b.num + vb * b.den == 1) by (nonlinear_arith)
        requires
            ub * magnitude(b.num) + vb * b.den == 1,
            magnitude(b.num) == if b.num >= 0 {
                b.num
            } else {
                -b.num
            },
            sb == if b.num >= 0 {
                ub
            } else {
                -ub
            },
    ;
    // a.den divides b.den, and b.den divides a.den
    let s = sa * b.num + va * b.den;
    assert(a.den * s == b.den) by (nonlinear_arith)
        requires
            sa * a.num + va * a.den == 1,
            a.num * b.den == b.num * a.den,
            s == sa * b.num + va * b.den,
    ;
    let t = sb * a.num + vb * a.den;
    assert(b.den * t == a.den) by (nonlinear_arith)
        requires
            sb * b.num + vb * b.den == 1,
            a.num * b.den == b.num * a.den,
            t == sb * a.num + vb * a.den,
    ;
    assert(a.den * (s * t) == a.den * 1) by (nonlinear_arith)
        requires
            a.den * s == b.den,
            b.den * t == a.den,
    ;
    lemma_mul_equality_converse(a.den, s * t, 1);
    assert(s > 0) by (nonlinear_arith)
        requires
            a.den * s == b.den,
            a.den > 0,
            b.den > 0,
    ;
    lemma_unit_product(s, t);
    assert(a.den == b.den) by (nonlinear_arith)
        requires
            a.den * s == b.den,
            s == 1,
    ;
    assert(a.den * a.num == a.den * b.num) by (nonlinear_arith)
        requires
            a.num * b.den == b.num * a.den,
            a.den == b.den,
    ;
    lemma_mul_equality_converse(a.den, a.num, b.num);
}

/// The three ways of pairing four factors give the same product.
pub proof fn lemma_regroup(a: int, b: int, c: int, d: int)
    ensures
        (a * b) * (c * d) == (a * c) * (b * d),
        (a * b) * (c * d) == (a * d) * (b * c),
{
    assert((a * b) * (c * d) == (a * c) * (b * d)) by (nonlinear_arith);
    assert((a * b) * (c * d) == (a * d) * (b * c)) by (nonlinear_arith);
}

/// Two fractions in lowest terms that have the values of two equal raw
/// fractions are the same fraction.
pub proof fn lemma_same_value(p: Ratio, q: Ratio, n1: int, d1: int, n2: int, d2: int)
    requires
        is_reduced(p),
        is_reduced(q),
        has_value(p, n1, d1),
        has_value(q, n2, d2),
        n1 * d2 == n2 * d1,
    ensures
        p == q,
{
    lemma_regroup(d1, d2, p.num, q.den);
    lemma_regroup(n1, p.den, q.den, d2);
    lemma_regroup(n2, d1, p.den, q.den);
    lemma_regroup(d1, d2, q.num, p.den);
    assert((d1 * d2) * (p.num * q.den) == (p.num * d1) * (q.den * d2)) by (nonlinear_arith)
        requires
            (d1 * d2) * (p.num * q.den) == (d1 * p.num) * (d2 * q.den),
    ;
    assert((n1 * p.den) * (q.den * d2) == (n1 * d2) * (p.den * q.den));
    assert((n2 * d1) * (p.den * q.den) == (n2 * q.den) * (d1 * p.den));
    assert((q.num * d2) * (d1 * p.den) == (d1 * d2) * (q.num * p.den)) by (nonlinear_arith)
        requires
            (d1 * d2) * (q.num * p.den) == (d1 * p.den) * (d2 * q.num),
    ;
    assert(d1 * d2 != 0) by (nonlinear_arith)
        requires
            d1 != 0,
            d2 != 0,
    ;
    lemma_mul_equality_converse(d1 * d2, p.num * q.den, q.num * p.den);
    lemma_reduced_unique(p, q);
}

// ---------------------------------------------------------------------------
// Values of sums, differences, products and quotients
// ---------------------------------------------------------------------------

/// A fraction with the value `big_n / big_d` has the value of every raw
/// fraction equal to that one.
pub proof fn lemma_value_transfer(q: Ratio, big_n: int, big_d: int, n: int, d: int)
    requires
        has_value(q, big_n, big_d),
        d != 0,
        big_n * d == n * big_d,
    ensures
        has_value(q, n, d),
{
    lemma_regroup(big_d, q.num, d, 1);
    lemma_regroup(big_n, q.den, d, 1);
    lemma_regroup(n, big_d, q.den, 1);
    assert(big_d * (q.num * d) == (q.num * big_d) * d) by (nonlinear_arith);
    assert((big_n * q.den) * d == (big_n * d) * q.den) by (nonlinear_arith);
    assert((n * big_d) * q.den == big_d * (n * q.den)) by (nonlinear_arith);
    lemma_mul_equality_converse(big_d, q.num * d, n * q.den);
}

/// The value of a sum.
pub proof fn lemma_add_value(a: Ratio, b: Ratio, na: int, da: int, nb: int, db: int)
    requires
        has_value(a, na, da),
        has_value(b, nb, db),
    ensures
        is_reduced(q_add(a, b)),
        has_value(q_add(a, b), na * db + nb * da, da * db),
{
    let big_n = a.num * b.den + b.num * a.den;
    let big_d = a.den * b.den;
    assert(big_d != 0 && da * db != 0) by (nonlinear_arith)
        requires
            big_d == a.den * b.den,
            a.den != 0,
            b.den != 0,
            da != 0,
            db != 0,
    ;
    lemma_normalize(big_n, big_d);
    lemma_regroup(a.num, b.den, da, db);
    lemma_regroup(na, a.den, b.den, db);
    lemma_regroup(b.num, a.den, da, db);
    lemma_regroup(nb, b.den, a.den, da);
    lemma_regroup(na, db, a.den, b.den);
    lemma_regroup(nb, da, a.den, b.den);
    assert((a.num * b.den) * (da * db) == (na * db) * (a.den * b.den));
    assert((b.num * a.den) * (da * db) == (nb * da) * (a.den * b.den));
    assert(big_n * (da * db) == (na * db + nb * da) * big_d) by (nonlinear_arith)
        requires
            big_n == a.num * b.den + b.num * a.den,
            (a.num * b.den) * (da * db) == (na * db) * big_d,
            (b.num * a.den) * (da * db) == (nb * da) * big_d,
    ;
    lemma_value_transfer(q_add(a, b), big_n, big_d, na * db + nb * da, da * db);
}

/// The value of a difference.
pub proof fn lemma_sub_value(a: Ratio, b: Ratio, na: int, da: int, nb: int, db: int)
    requires
        has_value(a, na, da),
        has_value(b, nb, db),
    ensures
        is_reduced(q_sub(a, b)),
        has_value(q_sub(a, b), na * db - nb * da, da * db),
{
    let big_n = a.num * b.den - b.num * a.den;
    let big_d = a.den * b.den;
    assert(big_d != 0 && da * db != 0) by (nonlinear_arith)
        requires
            big_d == a.den * b.den,
            a.den != 0,
            b.den != 0,
            da != 0,
            db != 0,
    ;
    lemma_normalize(big_n, big_d);
    lemma_regroup(a.num, b.den, da, db);
    lemma_regroup(na, a.den, b.den, db);
    lemma_regroup(b.num, a.den, da, db);
    lemma_regroup(nb, b.den, a.den, da);
    lemma_regroup(na, db, a.den, b.den);
    lemma_regroup(nb, da, a.den, b.den);
    assert((a.num * b.den) * (da * db) == (na * db) * (a.den * b.den));
    assert((b.num * a.den) * (da * db) == (nb * da) * (a.den * b.den));
    assert(big_n * (da * db) == (na * db - nb * da) * big_d) by (nonlinear_arith)
        requires
            big_n == a.num * b.den - b.num * a.den,
            (a.num * b.den) * (da * db) == (na * db) * big_d,
            (b.num * a.den) * (da * db) == (nb * da) * big_d,
    ;
    lemma_value_transfer(q_sub(a, b), big_n, big_d, na * db - nb * da, da * db);
}

/// The value of a product.
pub proof fn lemma_mul_value(a: Ratio, b: Ratio, na: int, da: int, nb: int, db: int)
    requires
        has_value(a, na, da),
        has_value(b, nb, db),
    ensures
        is_reduced(q_mul(a, b)),
        has_value(q_mul(a, b), na * nb, da * db),
{
    let big_n = a.num * b.num;
    let big_d = a.den * b.den;
    assert(big_d != 0 && da * db != 0) by (nonlinear_arith)
        requires
            big_d == a.den * b.den,
            a.den != 0,
            b.den != 0,
            da != 0,
            db != 0,
    ;
    lemma_normalize(big_n, big_d);
    lemma_regroup(a.num, b.num, da, db);
    lemma_regroup(na, a.den, nb, b.den);
    assert(big_n * (da * db) == (na * nb) * big_d);
    lemma_value_transfer(q_mul(a, b), big_n, big_d, na * nb, da * db);
}

/// The value of a quotient.
pub proof fn lemma_div_value(a: Ratio, b: Ratio, na: int, da: int, nb: int, db: int)
    requires
        has_value(a, na, da),
        has_value(b, nb, db),
        b.num != 0,
    ensures
        nb != 0,
        is_reduced(q_div(a, b)),
        has_value(q_div(a, b), na * db, da * nb),
{
    let big_n = a.num * b.den;
    let big_d = a.den * b.num;
    assert(nb != 0) by (nonlinear_arith)
        requires
            b.num * db == nb * b.den,
            b.num != 0,
            db != 0,
    ;
    assert(big_d != 0 && da * nb != 0) by (nonlinear_arith)
        requires
            big_d == a.den * b.num,
            a.den != 0,
            b.num != 0,
            da != 0,
            nb != 0,
    ;
    lemma_normalize(big_n, big_d);
    lemma_regroup(a.num, b.den, da, nb);
    lemma_regroup(na, a.den, b.num, db);
    lemma_regroup(na, db, a.den, b.num);
    assert(big_n * (da * nb) == (na * db) * big_d);
    lemma_value_transfer(q_div(a, b), big_n, big_d, na * db, da * nb);
}

} // verus!
