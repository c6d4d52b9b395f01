//! Laws of arithmetic on fractions in lowest terms: each says that two
//! expressions are the same fraction.

use crate::ratio::{
    has_value,
    is_reduced,
    lemma_add_value,
    lemma_div_value,
    lemma_mul_value,
    lemma_regroup,
    lemma_same_value,
    lemma_sub_value,
    q_add,
    q_div,
    q_int,
    q_mul,
    q_sub,
    gcd_of,
    Ratio,
};
use vstd::prelude::*;

verus! {

/// An integer over one is in lowest terms.
pub proof fn lemma_int_reduced(i: int)
    ensures
        is_reduced(q_int(i)),
        has_value(q_int(i), i, 1),
{
    let a = crate::ratio::magnitude(i);
    assert(a % 1 == 0);
    assert(gcd_of(a, 1) == gcd_of(1, 0)) by {
        reveal_with_fuel(gcd_of, 2);
    }
    assert(gcd_of(1, 0) == 1);
}

/// The sum of two integers as fractions.
pub proof fn lemma_int_add(i: int, j: int)
    ensures
        q_add(q_int(i), q_int(j)) == q_int(i + j),
{
    lemma_int_reduced(i);
    lemma_int_reduced(j);
    lemma_int_reduced(i + j);
    lemma_add_value(q_int(i), q_int(j), i, 1, j, 1);
    lemma_same_value(q_add(q_int(i), q_int(j)), q_int(i + j), i * 1 + j * 1, 1int * 1int, i + j, 1);
}

/// The product of two integers as fractions.
pub proof fn lemma_int_mul(i: int, j: int)
    ensures
        q_mul(q_int(i), q_int(j)) == q_int(i * j),
{
    lemma_int_reduced(i);
    lemma_int_reduced(j);
    lemma_int_reduced(i * j);
    lemma_mul_value(q_int(i), q_int(j), i, 1, j, 1);
    lemma_same_value(q_mul(q_int(i), q_int(j)), q_int(i * j), i * j, 1int * 1int, i * j, 1);
}

// ---------------------------------------------------------------------------
// Identities between integers that the laws below rest on
// ---------------------------------------------------------------------------

proof fn lemma_cross_sub_mul(un: int, ud: int, vn: int, vd: int, wn: int, wd: int)
    ensures
        ((un * vd - vn * ud) * wn) * ((ud * wd) * (vd * wd)) == ((un * wn) * (vd * wd) - (vn * wn)
            * (ud * wd)) * ((ud * vd) * wd),
{
    let a = un * vd - vn * ud;
    let e = ud * vd;
    let k = wn * wd;
    lemma_regroup(un, wn, vd, wd);
    lemma_regroup(vn, wn, ud, wd);
    lemma_regroup(ud, wd, vd, wd);
    let right = (un * wn) * (vd * wd) - (vn * wn) * (ud * wd);
    assert(right == a * k) by (nonlinear_arith)
        requires
            right == (un * vd) * k - (vn * ud) * k,
            a == un * vd - vn * ud,
    ;
    assert((ud * wd) * (vd * wd) == e * (wd * wd));
    assert((a * wn) * (e * (wd * wd)) == (a * k) * (e * wd)) by (nonlinear_arith)
        requires
            k == wn * wd,
    ;
}

proof fn lemma_cross_mul_add(un: int, ud: int, vn: int, vd: int, wn: int, wd: int)
    ensures
        ((un * vn) * (ud * wd) + (un * wn) * (ud * vd)) * (ud * (vd * wd)) == (un * (vn * wd + wn
            * vd)) * ((ud * vd) * (ud * wd)),
{
    let s = vn * wd + wn * vd;
    let e = vd * wd;
    lemma_regroup(un, vn, ud, wd);
    lemma_regroup(un, wn, ud, vd);
    lemma_regroup(ud, vd, ud, wd);
    let left = (un * vn) * (ud * wd) + (un * wn) * (ud * vd);
    assert(left == (un * ud) * s) by (nonlinear_arith)
        requires
            left == (un * ud) * (vn * wd) + (un * ud) * (wn * vd),
            s == vn * wd + wn * vd,
    ;
    assert((ud * vd) * (ud * wd) == (ud * ud) * e);
    assert(((un * ud) * s) * (ud * e) == (un * s) * ((ud * ud) * e)) by (nonlinear_arith);
}

proof fn lemma_cross_sub_add(
    un: int,
    ud: int,
    vn: int,
    vd: int,
    wn: int,
    wd: int,
    zn: int,
    zd: int,
)
    ensures
        ((un * vd - vn * ud) * (wd * zd) + (wn * zd - zn * wd) * (ud * vd)) * ((ud * wd) * (vd
            * zd)) == ((un * wd + wn * ud) * (vd * zd) - (vn * zd + zn * vd) * (ud * wd)) * ((ud
            * vd) * (wd * zd)),
{
    lemma_regroup(un, vd, wd, zd);
    lemma_regroup(vn, ud, wd, zd);
    lemma_regroup(wn, zd, ud, vd);
    lemma_regroup(zn, wd, ud, vd);
    lemma_regroup(un, wd, vd, zd);
    lemma_regroup(wn, ud, vd, zd);
    lemma_regroup(vn, zd, ud, wd);
    lemma_regroup(zn, vd, ud, wd);
    lemma_regroup(ud, vd, wd, zd);
    let t1 = (un * vd) * (wd * zd);
    let t2 = (vn * ud) * (wd * zd);
    let t3 = (wn * zd) * (ud * vd);
    let t4 = (zn * wd) * (ud * vd);
    let left = (un * vd - vn * ud) * (wd * zd) + (wn * zd - zn * wd) * (ud * vd);
    assert(left == t1 - t2 + t3 - t4) by (nonlinear_arith)
        requires
            left == (un * vd - vn * ud) * (wd * zd) + (wn * zd - zn * wd) * (ud * vd),
            t1 == (un * vd) * (wd * zd),
            t2 == (vn * ud) * (wd * zd),
            t3 == (wn * zd) * (ud * vd),
            t4 == (zn * wd) * (ud * vd),
    ;
    let right = (un * wd + wn * ud) * (vd * zd) - (vn * zd + zn * vd) * (ud * wd);
    assert(right == (un * wd) * (vd * zd) + (wn * ud) * (vd * zd) - (vn * zd) * (ud * wd) - (zn
        * vd) * (ud * wd)) by (nonlinear_arith)
        requires
            right == (un * wd + wn * ud) * (vd * zd) - (vn * zd + zn * vd) * (ud * wd),
    ;
    assert((un * wd) * (vd * zd) == t1);
    assert((wn * ud) * (vd * zd) == t3);
    assert((vn * zd) * (ud * wd) == t2);
    assert((zn * vd) * (ud * wd) == t4);
    assert(left == right);
    assert((ud * wd) * (vd * zd) == (ud * vd) * (wd * zd));
}

proof fn lemma_cross_div_add(an: int, ad: int, bn: int, bd: int, pn: int, pd: int)
    ensures
        ((an * pd) * (bd * pn) + (bn * pd) * (ad * pn)) * ((ad * bd) * pn) == ((an * bd + bn * ad)
            * pd) * ((ad * pn) * (bd * pn)),
{
    let s = an * bd + bn * ad;
    let e = ad * bd;
    lemma_regroup(an, pd, bd, pn);
    lemma_regroup(bn, pd, ad, pn);
    lemma_regroup(ad, pn, bd, pn);
    let left = (an * pd) * (bd * pn) + (bn * pd) * (ad * pn);
    assert(left == s * (pd * pn)) by (nonlinear_arith)
        requires
            left == (an * bd) * (pd * pn) + (bn * ad) * (pd * pn),
            s == an * bd + bn * ad,
    ;
    assert((ad * pn) * (bd * pn) == e * (pn * pn));
    assert((s * (pd * pn)) * (e * pn) == (s * pd) * (e * (pn * pn))) by (nonlinear_arith);
}

proof fn lemma_cross_add_sub(dn: int, dd: int, yn: int, yd: int, rn: int, rd: int)
    ensures
        ((dn * yd + yn * dd) * (rd * yd) + (rn * yd - yn * rd) * (dd * yd)) * (dd * rd) == (dn
            * rd + rn * dd) * ((dd * yd) * (rd * yd)),
{
    let s = dn * rd + rn * dd;
    let e = dd * rd;
    let k = yd * yd;
    lemma_regroup(dn, yd, rd, yd);
    lemma_regroup(yn, dd, rd, yd);
    lemma_regroup(rn, yd, dd, yd);
    lemma_regroup(yn, rd, dd, yd);
    lemma_regroup(dd, yd, rd, yd);
    let t1 = (dn * yd) * (rd * yd);
    let t2 = (yn * dd) * (rd * yd);
    let t3 = (rn * yd) * (dd * yd);
    let t4 = (yn * rd) * (dd * yd);
    let left = (dn * yd + yn * dd) * (rd * yd) + (rn * yd - yn * rd) * (dd * yd);
    assert(left == t1 + t2 + t3 - t4) by (nonlinear_arith)
        requires
            left == (dn * yd + yn * dd) * (rd * yd) + (rn * yd - yn * rd) * (dd * yd),
            t1 == (dn * yd) * (rd * yd),
            t2 == (yn * dd) * (rd * yd),
            t3 == (rn * yd) * (dd * yd),
            t4 == (yn * rd) * (dd * yd),
    ;
    assert(t1 == (dn * rd) * k);
    assert(t3 == (rn * dd) * k);
    assert(t2 == (yn * yd) * (dd * rd));
    assert(t4 == (yn * yd) * (rd * dd));
    assert(dd * rd == rd * dd) by (nonlinear_arith);
    assert(left == s * k) by (nonlinear_arith)
        requires
            left == (dn * rd) * k + (rn * dd) * k,
            s == dn * rd + rn * dd,
    ;
    assert((dd * yd) * (rd * yd) == e * k);
    assert((s * k) * e == s * (e * k)) by (nonlinear_arith);
}

proof fn lemma_cross_add_swap(dn: int, dd: int, xn: int, xd: int, rn: int, rd: int)
    ensures
        ((dn * xd + xn * dd) * rd + rn * (dd * xd)) * ((dd * rd) * xd) == ((dn * rd + rn * dd)
            * xd + xn * (dd * rd)) * ((dd * xd) * rd),
{
    let left = (dn * xd + xn * dd) * rd + rn * (dd * xd);
    let right = (dn * rd + rn * dd) * xd + xn * (dd * rd);
    lemma_regroup(dn, xd, rd, 1);
    lemma_regroup(dn, rd, xd, 1);
    assert((dn * xd) * rd == (dn * rd) * xd) by (nonlinear_arith);
    assert((xn * dd) * rd == xn * (dd * rd)) by (nonlinear_arith);
    assert(rn * (dd * xd) == (rn * dd) * xd) by (nonlinear_arith);
    assert(left == (dn * xd) * rd + (xn * dd) * rd + rn * (dd * xd)) by (nonlinear_arith)
        requires
            left == (dn * xd + xn * dd) * rd + rn * (dd * xd),
    ;
    assert(right == (dn * rd) * xd + (rn * dd) * xd + xn * (dd * rd)) by (nonlinear_arith)
        requires
            right == (dn * rd + rn * dd) * xd + xn * (dd * rd),
    ;
    assert(left == right);
    assert((dd * rd) * xd == (dd * xd) * rd) by (nonlinear_arith);
}

/// Adding zero changes nothing.
pub proof fn lemma_add_zero(a: Ratio)
    requires
        is_reduced(a),
    ensures
        q_add(a, q_int(0int)) == a,
{
    lemma_int_reduced(0int);
    lemma_add_value(a, q_int(0int), a.num, a.den, 0, 1);
    assert(((a.num) * (1int) + (0int) * (a.den)) * (a.den) == (a.num) * ((a.den) * (1int))) by (nonlinear_arith);
    lemma_same_value(q_add(a, q_int(0int)), a, (a.num) * (1int) + (0int) * (a.den), (a.den) * (1int), a.num, a.den);
}

/// Subtracting zero changes nothing.
pub proof fn lemma_sub_zero(a: Ratio)
    requires
        is_reduced(a),
    ensures
        q_sub(a, q_int(0int)) == a,
{
    lemma_int_reduced(0int);
    lemma_sub_value(a, q_int(0int), a.num, a.den, 0, 1);
    assert(((a.num) * (1int) - (0int) * (a.den)) * (a.den) == (a.num) * ((a.den) * (1int))) by (nonlinear_arith);
    lemma_same_value(q_sub(a, q_int(0int)), a, (a.num) * (1int) - (0int) * (a.den), (a.den) * (1int), a.num, a.den);
}

/// A fraction minus itself is zero.
pub proof fn lemma_sub_self(a: Ratio)
    requires
        is_reduced(a),
    ensures
        q_sub(a, a) == q_int(0int),
{
    lemma_sub_value(a, a, a.num, a.den, a.num, a.den);
    lemma_int_reduced(0int);
    assert(((a.num) * (a.den) - (a.num) * (a.den)) * (1int) == (0int) * ((a.den) * (a.den))) by (nonlinear_arith);
    lemma_same_value(q_sub(a, a), q_int(0int), (a.num) * (a.den) - (a.num) * (a.den), (a.den) * (a.den), 0, 1);
}

/// A product with zero on the right is zero.
pub proof fn lemma_mul_zero(a: Ratio)
    requires
        is_reduced(a),
    ensures
        q_mul(a, q_int(0int)) == q_int(0int),
{
    lemma_int_reduced(0int);
    lemma_mul_value(a, q_int(0int), a.num, a.den, 0, 1);
    assert(((a.num) * (0int)) * (1int) == (0int) * ((a.den) * (1int))) by (nonlinear_arith);
    lemma_same_value(q_mul(a, q_int(0int)), q_int(0int), (a.num) * (0int), (a.den) * (1int), 0, 1);
}

/// A product with zero on the left is zero.
pub proof fn lemma_zero_mul(a: Ratio)
    requires
        is_reduced(a),
    ensures
        q_mul(q_int(0int), a) == q_int(0int),
{
    lemma_int_reduced(0int);
    lemma_mul_value(q_int(0int), a, 0, 1, a.num, a.den);
    assert(((0int) * (a.num)) * (1int) == (0int) * ((1int) * (a.den))) by (nonlinear_arith);
    lemma_same_value(q_mul(q_int(0int), a), q_int(0int), (0int) * (a.num), (1int) * (a.den), 0, 1);
}

/// One is neutral on the left of a product.
pub proof fn lemma_one_mul(a: Ratio)
    requires
        is_reduced(a),
    ensures
        q_mul(q_int(1int), a) == a,
{
    lemma_int_reduced(1int);
    lemma_mul_value(q_int(1int), a, 1, 1, a.num, a.den);
    assert(((1int) * (a.num)) * (a.den) == (a.num) * ((1int) * (a.den))) by (nonlinear_arith);
    lemma_same_value(q_mul(q_int(1int), a), a, (1int) * (a.num), (1int) * (a.den), a.num, a.den);
}

/// One is neutral on the right of a product.
pub proof fn lemma_mul_one(a: Ratio)
    requires
        is_reduced(a),
    ensures
        q_mul(a, q_int(1int)) == a,
{
    lemma_int_reduced(1int);
    lemma_mul_value(a, q_int(1int), a.num, a.den, 1, 1);
    assert(((a.num) * (1int)) * (a.den) == (a.num) * ((a.den) * (1int))) by (nonlinear_arith);
    lemma_same_value(q_mul(a, q_int(1int)), a, (a.num) * (1int), (a.den) * (1int), a.num, a.den);
}

/// Zero divided by anything but zero is zero.
pub proof fn lemma_zero_div(pv: Ratio)
    requires
        is_reduced(pv),
        pv.num != 0,
    ensures
        q_div(q_int(0int), pv) == q_int(0int),
{
    lemma_int_reduced(0int);
    lemma_div_value(q_int(0int), pv, 0, 1, pv.num, pv.den);
    assert(((0int) * (pv.den)) * (1int) == (0int) * ((1int) * (pv.num))) by (nonlinear_arith);
    lemma_same_value(q_div(q_int(0int), pv), q_int(0int), (0int) * (pv.den), (1int) * (pv.num), 0, 1);
}

/// A fraction other than zero divided by itself is one.
pub proof fn lemma_div_self(pv: Ratio)
    requires
        is_reduced(pv),
        pv.num != 0,
    ensures
        q_div(pv, pv) == q_int(1int),
{
    lemma_div_value(pv, pv, pv.num, pv.den, pv.num, pv.den);
    lemma_int_reduced(1int);
    assert(((pv.num) * (pv.den)) * (1int) == (1int) * ((pv.den) * (pv.num))) by (nonlinear_arith);
    lemma_same_value(q_div(pv, pv), q_int(1int), (pv.num) * (pv.den), (pv.den) * (pv.num), 1, 1);
}

/// A sum does not depend on the order of its terms.
pub proof fn lemma_add_commutes(a: Ratio, b: Ratio)
    requires
        is_reduced(a),
        is_reduced(b),
    ensures
        q_add(a, b) == q_add(b, a),
{
    lemma_add_value(a, b, a.num, a.den, b.num, b.den);
    lemma_add_value(b, a, b.num, b.den, a.num, a.den);
    assert(((a.num) * (b.den) + (b.num) * (a.den)) * ((b.den) * (a.den)) == ((b.num) * (a.den) + (a.num) * (b.den)) * ((a.den) * (b.den))) by (nonlinear_arith);
    lemma_same_value(q_add(a, b), q_add(b, a), (a.num) * (b.den) + (b.num) * (a.den), (a.den) * (b.den), (b.num) * (a.den) + (a.num) * (b.den), (b.den) * (a.den));
}

/// Subtracting what was added gives the start back.
pub proof fn lemma_add_sub_cancel(a: Ratio, v: Ratio)
    requires
        is_reduced(a),
        is_reduced(v),
    ensures
        q_sub(q_add(a, v), v) == a,
{
    lemma_add_value(a, v, a.num, a.den, v.num, v.den);
    lemma_sub_value(q_add(a, v), v, (a.num) * (v.den) + (v.num) * (a.den), (a.den) * (v.den), v.num, v.den);
    assert((((a.num) * (v.den) + (v.num) * (a.den)) * (v.den) - (v.num) * ((a.den) * (v.den))) * (a.den) == (a.num) * (((a.den) * (v.den)) * (v.den))) by (nonlinear_arith);
    lemma_same_value(q_sub(q_add(a, v), v), a, ((a.num) * (v.den) + (v.num) * (a.den)) * (v.den) - (v.num) * ((a.den) * (v.den)), ((a.den) * (v.den)) * (v.den), a.num, a.den);
}

/// Adding what was subtracted gives the start back.
pub proof fn lemma_sub_add_cancel(a: Ratio, y: Ratio)
    requires
        is_reduced(a),
        is_reduced(y),
    ensures
        q_add(q_sub(a, y), y) == a,
{
    lemma_sub_value(a, y, a.num, a.den, y.num, y.den);
    lemma_add_value(q_sub(a, y), y, (a.num) * (y.den) - (y.num) * (a.den), (a.den) * (y.den), y.num, y.den);
    assert((((a.num) * (y.den) - (y.num) * (a.den)) * (y.den) + (y.num) * ((a.den) * (y.den))) * (a.den) == (a.num) * (((a.den) * (y.den)) * (y.den))) by (nonlinear_arith);
    lemma_same_value(q_add(q_sub(a, y), y), a, ((a.num) * (y.den) - (y.num) * (a.den)) * (y.den) + (y.num) * ((a.den) * (y.den)), ((a.den) * (y.den)) * (y.den), a.num, a.den);
}

/// Multiplying by what was divided by gives the start back.
pub proof fn lemma_div_mul_cancel(a: Ratio, pv: Ratio)
    requires
        is_reduced(a),
        is_reduced(pv),
        pv.num != 0,
    ensures
        q_mul(q_div(a, pv), pv) == a,
{
    lemma_div_value(a, pv, a.num, a.den, pv.num, pv.den);
    lemma_mul_value(q_div(a, pv), pv, (a.num) * (pv.den), (a.den) * (pv.num), pv.num, pv.den);
    assert((((a.num) * (pv.den)) * (pv.num)) * (a.den) == (a.num) * (((a.den) * (pv.num)) * (pv.den))) by (nonlinear_arith);
    lemma_same_value(q_mul(q_div(a, pv), pv), a, ((a.num) * (pv.den)) * (pv.num), ((a.den) * (pv.num)) * (pv.den), a.num, a.den);
}

/// A product distributes over a difference on its left.
pub proof fn lemma_sub_mul_distributes(u: Ratio, v: Ratio, w: Ratio)
    requires
        is_reduced(u),
        is_reduced(v),
        is_reduced(w),
    ensures
        q_mul(q_sub(u, v), w) == q_sub(q_mul(u, w), q_mul(v, w)),
{
    lemma_sub_value(u, v, u.num, u.den, v.num, v.den);
    lemma_mul_value(q_sub(u, v), w, (u.num) * (v.den) - (v.num) * (u.den), (u.den) * (v.den), w.num, w.den);
    lemma_mul_value(u, w, u.num, u.den, w.num, w.den);
    lemma_mul_value(v, w, v.num, v.den, w.num, w.den);
    lemma_sub_value(q_mul(u, w), q_mul(v, w), (u.num) * (w.num), (u.den) * (w.den), (v.num) * (w.num), (v.den) * (w.den));
    lemma_cross_sub_mul(u.num, u.den, v.num, v.den, w.num, w.den);
    lemma_same_value(q_mul(q_sub(u, v), w), q_sub(q_mul(u, w), q_mul(v, w)), ((u.num) * (v.den) - (v.num) * (u.den)) * (w.num), ((u.den) * (v.den)) * (w.den), ((u.num) * (w.num)) * ((v.den) * (w.den)) - ((v.num) * (w.num)) * ((u.den) * (w.den)), ((u.den) * (w.den)) * ((v.den) * (w.den)));
}

/// A product of three does not depend on the grouping.
pub proof fn lemma_mul_associates(u: Ratio, v: Ratio, w: Ratio)
    requires
        is_reduced(u),
        is_reduced(v),
        is_reduced(w),
    ensures
        q_mul(q_mul(u, v), w) == q_mul(u, q_mul(v, w)),
{
    lemma_mul_value(u, v, u.num, u.den, v.num, v.den);
    lemma_mul_value(q_mul(u, v), w, (u.num) * (v.num), (u.den) * (v.den), w.num, w.den);
    lemma_mul_value(v, w, v.num, v.den, w.num, w.den);
    lemma_mul_value(u, q_mul(v, w), u.num, u.den, (v.num) * (w.num), (v.den) * (w.den));
    assert((((u.num) * (v.num)) * (w.num)) * ((u.den) * ((v.den) * (w.den))) == ((u.num) * ((v.num) * (w.num))) * (((u.den) * (v.den)) * (w.den))) by (nonlinear_arith);
    lemma_same_value(q_mul(q_mul(u, v), w), q_mul(u, q_mul(v, w)), ((u.num) * (v.num)) * (w.num), ((u.den) * (v.den)) * (w.den), (u.num) * ((v.num) * (w.num)), (u.den) * ((v.den) * (w.den)));
}

/// A common factor on the left can be taken out of a sum.
pub proof fn lemma_mul_add_distributes(u: Ratio, v: Ratio, w: Ratio)
    requires
        is_reduced(u),
        is_reduced(v),
        is_reduced(w),
    ensures
        q_add(q_mul(u, v), q_mul(u, w)) == q_mul(u, q_add(v, w)),
{
    lemma_mul_value(u, v, u.num, u.den, v.num, v.den);
    lemma_mul_value(u, w, u.num, u.den, w.num, w.den);
    lemma_add_value(q_mul(u, v), q_mul(u, w), (u.num) * (v.num), (u.den) * (v.den), (u.num) * (w.num), (u.den) * (w.den));
    lemma_add_value(v, w, v.num, v.den, w.num, w.den);
    lemma_mul_value(u, q_add(v, w), u.num, u.den, (v.num) * (w.den) + (w.num) * (v.den), (v.den) * (w.den));
    lemma_cross_mul_add(u.num, u.den, v.num, v.den, w.num, w.den);
    lemma_same_value(q_add(q_mul(u, v), q_mul(u, w)), q_mul(u, q_add(v, w)), ((u.num) * (v.num)) * ((u.den) * (w.den)) + ((u.num) * (w.num)) * ((u.den) * (v.den)), ((u.den) * (v.den)) * ((u.den) * (w.den)), (u.num) * ((v.num) * (w.den) + (w.num) * (v.den)), (u.den) * ((v.den) * (w.den)));
}

/// A sum of two differences is the difference of the sums.
pub proof fn lemma_sub_add_swap(u: Ratio, v: Ratio, w: Ratio, z: Ratio)
    requires
        is_reduced(u),
        is_reduced(v),
        is_reduced(w),
        is_reduced(z),
    ensures
        q_add(q_sub(u, v), q_sub(w, z)) == q_sub(q_add(u, w), q_add(v, z)),
{
    lemma_sub_value(u, v, u.num, u.den, v.num, v.den);
    lemma_sub_value(w, z, w.num, w.den, z.num, z.den);
    lemma_add_value(q_sub(u, v), q_sub(w, z), (u.num) * (v.den) - (v.num) * (u.den), (u.den) * (v.den), (w.num) * (z.den) - (z.num) * (w.den), (w.den) * (z.den));
    lemma_add_value(u, w, u.num, u.den, w.num, w.den);
    lemma_add_value(v, z, v.num, v.den, z.num, z.den);
    lemma_sub_value(q_add(u, w), q_add(v, z), (u.num) * (w.den) + (w.num) * (u.den), (u.den) * (w.den), (v.num) * (z.den) + (z.num) * (v.den), (v.den) * (z.den));
    lemma_cross_sub_add(u.num, u.den, v.num, v.den, w.num, w.den, z.num, z.den);
    lemma_same_value(q_add(q_sub(u, v), q_sub(w, z)), q_sub(q_add(u, w), q_add(v, z)), ((u.num) * (v.den) - (v.num) * (u.den)) * ((w.den) * (z.den)) + ((w.num) * (z.den) - (z.num) * (w.den)) * ((u.den) * (v.den)), ((u.den) * (v.den)) * ((w.den) * (z.den)), ((u.num) * (w.den) + (w.num) * (u.den)) * ((v.den) * (z.den)) - ((v.num) * (z.den) + (z.num) * (v.den)) * ((u.den) * (w.den)), ((u.den) * (w.den)) * ((v.den) * (z.den)));
}

/// A factor can be moved inside a quotient.
pub proof fn lemma_div_mul_swap(a: Ratio, pv: Ratio, x: Ratio)
    requires
        is_reduced(a),
        is_reduced(pv),
        is_reduced(x),
        pv.num != 0,
    ensures
        q_mul(q_div(a, pv), x) == q_div(q_mul(a, x), pv),
{
    lemma_div_value(a, pv, a.num, a.den, pv.num, pv.den);
    lemma_mul_value(q_div(a, pv), x, (a.num) * (pv.den), (a.den) * (pv.num), x.num, x.den);
    lemma_mul_value(a, x, a.num, a.den, x.num, x.den);
    lemma_div_value(q_mul(a, x), pv, (a.num) * (x.num), (a.den) * (x.den), pv.num, pv.den);
    assert((((a.num) * (pv.den)) * (x.num)) * (((a.den) * (x.den)) * (pv.num)) == (((a.num) * (x.num)) * (pv.den)) * (((a.den) * (pv.num)) * (x.den))) by (nonlinear_arith);
    lemma_same_value(q_mul(q_div(a, pv), x), q_div(q_mul(a, x), pv), ((a.num) * (pv.den)) * (x.num), ((a.den) * (pv.num)) * (x.den), ((a.num) * (x.num)) * (pv.den), ((a.den) * (x.den)) * (pv.num));
}

/// A sum of two quotients by the same divisor is the quotient of the sum.
pub proof fn lemma_div_add(a: Ratio, b: Ratio, pv: Ratio)
    requires
        is_reduced(a),
        is_reduced(b),
        is_reduced(pv),
        pv.num != 0,
    ensures
        q_add(q_div(a, pv), q_div(b, pv)) == q_div(q_add(a, b), pv),
{
    lemma_div_value(a, pv, a.num, a.den, pv.num, pv.den);
    lemma_div_value(b, pv, b.num, b.den, pv.num, pv.den);
    lemma_add_value(q_div(a, pv), q_div(b, pv), (a.num) * (pv.den), (a.den) * (pv.num), (b.num) * (pv.den), (b.den) * (pv.num));
    lemma_add_value(a, b, a.num, a.den, b.num, b.den);
    lemma_div_value(q_add(a, b), pv, (a.num) * (b.den) + (b.num) * (a.den), (a.den) * (b.den), pv.num, pv.den);
    lemma_cross_div_add(a.num, a.den, b.num, b.den, pv.num, pv.den);
    lemma_same_value(q_add(q_div(a, pv), q_div(b, pv)), q_div(q_add(a, b), pv), ((a.num) * (pv.den)) * ((b.den) * (pv.num)) + ((b.num) * (pv.den)) * ((a.den) * (pv.num)), ((a.den) * (pv.num)) * ((b.den) * (pv.num)), ((a.num) * (b.den) + (b.num) * (a.den)) * (pv.den), ((a.den) * (b.den)) * (pv.num));
}

/// Adding a term to one side and subtracting it from the other leaves the sum.
pub proof fn lemma_add_sub_merge(d: Ratio, y: Ratio, r: Ratio)
    requires
        is_reduced(d),
        is_reduced(y),
        is_reduced(r),
    ensures
        q_add(q_add(d, y), q_sub(r, y)) == q_add(d, r),
{
    lemma_add_value(d, y, d.num, d.den, y.num, y.den);
    lemma_sub_value(r, y, r.num, r.den, y.num, y.den);
    lemma_add_value(q_add(d, y), q_sub(r, y), (d.num) * (y.den) + (y.num) * (d.den), (d.den) * (y.den), (r.num) * (y.den) - (y.num) * (r.den), (r.den) * (y.den));
    lemma_add_value(d, r, d.num, d.den, r.num, r.den);
    lemma_cross_add_sub(d.num, d.den, y.num, y.den, r.num, r.den);
    lemma_same_value(q_add(q_add(d, y), q_sub(r, y)), q_add(d, r), ((d.num) * (y.den) + (y.num) * (d.den)) * ((r.den) * (y.den)) + ((r.num) * (y.den) - (y.num) * (r.den)) * ((d.den) * (y.den)), ((d.den) * (y.den)) * ((r.den) * (y.den)), (d.num) * (r.den) + (r.num) * (d.den), (d.den) * (r.den));
}

/// The last two terms of a sum of three can change places.
pub proof fn lemma_add_swap(d: Ratio, x: Ratio, r: Ratio)
    requires
        is_reduced(d),
        is_reduced(x),
        is_reduced(r),
    ensures
        q_add(q_add(d, x), r) == q_add(q_add(d, r), x),
{
    lemma_add_value(d, x, d.num, d.den, x.num, x.den);
    lemma_add_value(q_add(d, x), r, (d.num) * (x.den) + (x.num) * (d.den), (d.den) * (x.den), r.num, r.den);
    lemma_add_value(d, r, d.num, d.den, r.num, r.den);
    lemma_add_value(q_add(d, r), x, (d.num) * (r.den) + (r.num) * (d.den), (d.den) * (r.den), x.num, x.den);
    lemma_cross_add_swap(d.num, d.den, x.num, x.den, r.num, r.den);
    lemma_same_value(q_add(q_add(d, x), r), q_add(q_add(d, r), x), ((d.num) * (x.den) + (x.num) * (d.den)) * (r.den) + (r.num) * ((d.den) * (x.den)), ((d.den) * (x.den)) * (r.den), ((d.num) * (r.den) + (r.num) * (d.den)) * (x.den) + (x.num) * ((d.den) * (r.den)), ((d.den) * (r.den)) * (x.den));
}

/// Sums, differences and products of fractions in lowest terms are in
/// lowest terms.
pub proof fn lemma_results_reduced(a: Ratio, b: Ratio)
    requires
        is_reduced(a),
        is_reduced(b),
    ensures
        is_reduced(q_add(a, b)),
        is_reduced(q_sub(a, b)),
        is_reduced(q_mul(a, b)),
{
    lemma_add_value(a, b, a.num, a.den, b.num, b.den);
    lemma_sub_value(a, b, a.num, a.den, b.num, b.den);
    lemma_mul_value(a, b, a.num, a.den, b.num, b.den);
}

} // verus!
