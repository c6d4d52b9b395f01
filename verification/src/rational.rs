//! Exact fractions: a numerator and a positive denominator of any size,
//! always in lowest terms.

use crate::bigint::BigInt;
use crate::ratio::{
    gcd_of,
    is_reduced,
    lemma_gcd_cofactors,
    lemma_gcd_positive,
    magnitude,
    normalize,
    q_add,
    q_div,
    q_int,
    q_mul,
    q_sub,
    Ratio,
};
use crate::ratio_laws::lemma_int_reduced;
use vstd::arithmetic::div_mod::{
    lemma_div_multiples_vanish,
    lemma_fundamental_div_mod,
    lemma_mod_pos_bound,
};
use vstd::prelude::*;

verus! {

/// What can go wrong in exact arithmetic.
#[derive(Debug, Clone, Copy, PartialEq, Eq)]
pub enum ArithError {
    /// A denominator or a divisor was zero.
    DivisionByZero,
    /// A value does not fit the machine integer that was asked for.
    RangeOverflow,
}

/// An exact fraction.
#[derive(Debug)]
pub struct Rat {
    num: BigInt,
    den: BigInt,
}

impl View for Rat {
    type V = Ratio;

    closed spec fn view(&self) -> Ratio {
        Ratio { num: self.num@, den: self.den@ }
    }
}

/// The greatest common divisor of two numbers that are not negative.
pub fn gcd(a: BigInt, b: BigInt) -> (g: BigInt)
    requires
        a@ >= 0,
        b@ >= 0,
    ensures
        g@ == gcd_of(a@ as nat, b@ as nat),
{
    let mut a = a;
    let mut b = b;
    let ghost first = a@ as nat;
    let ghost second = b@ as nat;
    while !b.is_zero()
        invariant
            a@ >= 0,
            b@ >= 0,
            gcd_of(a@ as nat, b@ as nat) == gcd_of(first, second),
        decreases b@,
    {
        proof {
            lemma_fundamental_div_mod(a@, b@);
            lemma_mod_pos_bound(a@, b@);
        }
        let t = a.remainder(&b);
        assert(t@ == a@ % b@) by (nonlinear_arith)
            requires
                t@ == a@ - b@ * (a@ / b@),
                a@ == b@ * (a@ / b@) + (a@ % b@),
        ;
        a = b;
        b = t;
    }
    a
}

/// Exact division by a positive divisor that divides the number rounds
/// nowhere: toward zero and downward are the same.
proof fn lemma_exact_quotient(top: int, g: int, k: int)
    requires
        g > 0,
        top == g * k,
    ensures
        crate::bigint::truncated_quotient(top, g) == top / g,
        top / g == k,
{
    lemma_div_multiples_vanish(k, g);
    if top < 0 {
        assert(-top == g * (-k)) by (nonlinear_arith)
            requires
                top == g * k,
        ;
        lemma_div_multiples_vanish(-k, g);
    }
}

impl Rat {
    /// Lowest terms: what every value of this type satisfies.
    pub open spec fn wf(&self) -> bool {
        is_reduced(self@)
    }

    /// The fraction `num / den` in lowest terms, for a denominator other
    /// than zero.
    pub fn from_parts(num: BigInt, den: BigInt) -> (r: Rat)
        requires
            den@ != 0,
        ensures
            r.wf(),
            r@ == normalize(num@, den@),
    {
        let flip = den.is_negative();
        let top = if flip {
            num.negated()
        } else {
            num
        };
        let bottom = if flip {
            den.negated()
        } else {
            den
        };
        let size = if top.is_negative() {
            top.negated()
        } else {
            top.duplicate()
        };
        let g = gcd(size, bottom.duplicate());
        proof {
            let a = magnitude(top@);
            let b = bottom@ as nat;
            lemma_gcd_positive(a, b);
            let (ka, kb) = lemma_gcd_cofactors(a, b);
            let signed = if top@ >= 0 {
                ka as int
            } else {
                -(ka as int)
            };
            assert(top@ == g@ * signed) by (nonlinear_arith)
                requires
                    a == g@ * ka,
                    a == if top@ >= 0 {
                        top@
                    } else {
                        -top@
                    },
                    signed == if top@ >= 0 {
                        ka as int
                    } else {
                        -(ka as int)
                    },
            ;
            lemma_exact_quotient(top@, g@, signed);
            lemma_exact_quotient(bottom@, g@, kb as int);
            crate::ratio::lemma_normalize(num@, den@);
        }
        let n = top.quotient(&g);
        let d = bottom.quotient(&g);
        Rat { num: n, den: d }
    }

    /// The fraction `num / den` in lowest terms; a zero denominator is an
    /// error.
    pub fn new(num: i128, den: i128) -> (r: Result<Rat, ArithError>)
        ensures
            den == 0 <==> r == Err::<Rat, ArithError>(ArithError::DivisionByZero),
            den != 0 ==> r.is_ok() && r.unwrap().wf() && r.unwrap()@ == normalize(
                num as int,
                den as int,
            ),
    {
        if den == 0 {
            Err(ArithError::DivisionByZero)
        } else {
            Ok(Rat::from_parts(BigInt::from_i128(num), BigInt::from_i128(den)))
        }
    }

    /// The integer `v` as a fraction.
    pub fn from_i128(v: i128) -> (r: Rat)
        ensures
            r.wf(),
            r@ == q_int(v as int),
    {
        proof {
            lemma_int_reduced(v as int);
        }
        Rat { num: BigInt::from_i128(v), den: BigInt::from_i128(1) }
    }

    /// Zero.
    pub fn zero() -> (r: Rat)
        ensures
            r.wf(),
            r@ == q_int(0),
    {
        Rat::from_i128(0)
    }

    /// One.
    pub fn one() -> (r: Rat)
        ensures
            r.wf(),
            r@ == q_int(1),
    {
        Rat::from_i128(1)
    }

    /// The integer `v` as a fraction.
    pub fn from_i64(v: i64) -> (r: Rat)
        ensures
            r.wf(),
            r@ == q_int(v as int),
    {
        Rat::from_i128(v as i128)
    }

    /// A second copy of the same fraction.
    pub fn duplicate(&self) -> (r: Rat)
        ensures
            r@ == self@,
    {
        Rat { num: self.num.duplicate(), den: self.den.duplicate() }
    }

    /// Whether the value is a whole number.
    pub fn is_integer(&self) -> (whole: bool)
        ensures
            whole == (self@.den == 1),
    {
        self.den.equals(&BigInt::from_i128(1))
    }

    /// Whether the value is zero.
    pub fn is_zero(&self) -> (z: bool)
        ensures
            z == (self@.num == 0),
    {
        self.num.is_zero()
    }

    /// Whether the value is below zero.
    pub fn is_negative(&self) -> (neg: bool)
        ensures
            neg == (self@.num < 0),
    {
        self.num.is_negative()
    }

    /// The value as an `i64`: given exactly when it is a whole number in the
    /// range of `i64`, and `RangeOverflow` otherwise.
    pub fn to_i64(&self) -> (r: Result<i64, ArithError>)
        ensures
            match r {
                Ok(v) => self@ == q_int(v as int),
                Err(e) => e == ArithError::RangeOverflow && !(self@.den == 1 && i64::MIN
                    <= self@.num <= i64::MAX),
            },
    {
        if self.is_integer() {
            match self.num.to_i64() {
                Some(v) => Ok(v),
                None => Err(ArithError::RangeOverflow),
            }
        } else {
            Err(ArithError::RangeOverflow)
        }
    }

    /// Whether two fractions are the same.
    pub fn equals(&self, other: &Rat) -> (same: bool)
        ensures
            same == (self@ == other@),
    {
        self.num.equals(&other.num) && self.den.equals(&other.den)
    }

    /// Whether `self` is less than `other`, decided exactly by cross
    /// multiplication.
    pub fn less_than(&self, other: &Rat) -> (less: bool)
        ensures
            less == (self@.num * other@.den < other@.num * self@.den),
    {
        let left = self.num.times(&other.den);
        let right = other.num.times(&self.den);
        !right.at_most(&left)
    }

    /// The sum.
    pub fn add(&self, rhs: &Rat) -> (r: Rat)
        requires
            self.wf(),
            rhs.wf(),
        ensures
            r.wf(),
            r@ == q_add(self@, rhs@),
    {
        let top = self.num.times(&rhs.den).plus(&rhs.num.times(&self.den));
        let bottom = self.den.times(&rhs.den);
        assert(bottom@ != 0) by (nonlinear_arith)
            requires
                bottom@ == self@.den * rhs@.den,
                self@.den > 0,
                rhs@.den > 0,
        ;
        Rat::from_parts(top, bottom)
    }

    /// The difference.
    pub fn sub(&self, rhs: &Rat) -> (r: Rat)
        requires
            self.wf(),
            rhs.wf(),
        ensures
            r.wf(),
            r@ == q_sub(self@, rhs@),
    {
        let top = self.num.times(&rhs.den).minus(&rhs.num.times(&self.den));
        let bottom = self.den.times(&rhs.den);
        assert(bottom@ != 0) by (nonlinear_arith)
            requires
                bottom@ == self@.den * rhs@.den,
                self@.den > 0,
                rhs@.den > 0,
        ;
        Rat::from_parts(top, bottom)
    }

    /// The product.
    pub fn mul(&self, rhs: &Rat) -> (r: Rat)
        requires
            self.wf(),
            rhs.wf(),
        ensures
            r.wf(),
            r@ == q_mul(self@, rhs@),
    {
        let top = self.num.times(&rhs.num);
        let bottom = self.den.times(&rhs.den);
        assert(bottom@ != 0) by (nonlinear_arith)
            requires
                bottom@ == self@.den * rhs@.den,
                self@.den > 0,
                rhs@.den > 0,
        ;
        Rat::from_parts(top, bottom)
    }

    /// The quotient; dividing by zero is an error.
    pub fn div(&self, rhs: &Rat) -> (r: Result<Rat, ArithError>)
        requires
            self.wf(),
            rhs.wf(),
        ensures
            rhs@.num == 0 <==> r == Err::<Rat, ArithError>(ArithError::DivisionByZero),
            rhs@.num != 0 ==> r.is_ok() && r.unwrap().wf() && r.unwrap()@ == q_div(self@, rhs@),
    {
        if rhs.is_zero() {
            Err(ArithError::DivisionByZero)
        } else {
            let top = self.num.times(&rhs.den);
            let bottom = self.den.times(&rhs.num);
            assert(bottom@ != 0) by (nonlinear_arith)
                requires
                    bottom@ == self@.den * rhs@.num,
                    self@.den > 0,
                    rhs@.num != 0,
            ;
            Ok(Rat::from_parts(top, bottom))
        }
    }

    /// The value with its sign turned.
    pub fn neg(&self) -> (r: Rat)
        requires
            self.wf(),
        ensures
            r.wf(),
            r@ == (Ratio { num: -self@.num, den: self@.den }),
    {
        assert(magnitude(-self@.num) == magnitude(self@.num));
        Rat { num: self.num.negated(), den: self.den.duplicate() }
    }
}

} // verus!
