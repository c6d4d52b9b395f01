//! Integers of any size, for exact rational arithmetic.
//!
//! A value is held as its two's-complement bytes, least significant first.
//! The arithmetic itself is done by the `num-bigint` crate: each operation
//! below hands the bytes to it and takes the bytes of the result back. What
//! these operations compute is stated, not proved.

use vstd::prelude::*;

verus! {

/// The number that `bytes` spell in base 256, least significant digit first.
pub open spec fn unsigned_value(bytes: Seq<u8>) -> nat
    decreases bytes.len(),
{
    if bytes.len() == 0 {
        0
    } else {
        bytes[0] as nat + 256 * unsigned_value(bytes.skip(1))
    }
}

/// 256 to the power `len`.
pub open spec fn radix_power(len: nat) -> nat
    decreases len,
{
    if len == 0 {
        1
    } else {
        256 * radix_power((len - 1) as nat)
    }
}

/// The integer that `bytes` spell in two's complement, least significant
/// byte first; no bytes at all spell zero.
pub open spec fn signed_value(bytes: Seq<u8>) -> int {
    if bytes.len() > 0 && bytes.last() >= 128 {
        unsigned_value(bytes) - radix_power(bytes.len())
    } else {
        unsigned_value(bytes) as int
    }
}

/// The quotient of `a` by `b` rounded toward zero.
pub open spec fn truncated_quotient(a: int, b: int) -> int
    recommends
        b != 0,
{
    let size = (if a >= 0 {
        a
    } else {
        -a
    }) / (if b >= 0 {
        b
    } else {
        -b
    });
    if (a >= 0) == (b >= 0) {
        size
    } else {
        -size
    }
}

/// An integer without a bound on its size.
#[derive(Debug)]
pub struct BigInt {
    bytes: Vec<u8>,
}

impl View for BigInt {
    type V = int;

    closed spec fn view(&self) -> int {
        signed_value(self.bytes@)
    }
}

impl BigInt {
    /// Zero.
    pub fn zero() -> (z: BigInt)
        ensures
            z@ == 0,
    {
        BigInt { bytes: Vec::new() }
    }

    /// A second copy of the same integer.
    pub fn duplicate(&self) -> (copy: BigInt)
        ensures
            copy@ == self@,
    {
        let bytes = self.bytes.clone();
        assert(bytes@ =~= self.bytes@);
        BigInt { bytes }
    }

    /// The integer `n`, through `num_bigint::BigInt::from` and
    /// `to_signed_bytes_le`: the result stands for `n` itself.
    #[verifier::external_body]
    pub(crate) fn from_i128(n: i128) -> (big: BigInt)
        ensures
            big@ == n,
    {
        BigInt { bytes: num_bigint::BigInt::from(n).to_signed_bytes_le() }
    }

    /// The value as an `i64`, through `i64::try_from` of `num-bigint`: it is
    /// returned exactly when it lies in the range of `i64`, and is then
    /// unchanged.
    #[verifier::external_body]
    pub(crate) fn to_i64(&self) -> (small: Option<i64>)
        ensures
            small.is_some() <==> i64::MIN <= self@ <= i64::MAX,
            small matches Some(v) ==> v == self@,
    {
        let x = num_bigint::BigInt::from_signed_bytes_le(&self.bytes);
        i64::try_from(&x).ok()
    }

    /// The sum, through `+` of `num-bigint` on two references.
    #[verifier::external_body]
    pub(crate) fn plus(&self, other: &BigInt) -> (sum: BigInt)
        ensures
            sum@ == self@ + other@,
    {
        let x = num_bigint::BigInt::from_signed_bytes_le(&self.bytes);
        let y = num_bigint::BigInt::from_signed_bytes_le(&other.bytes);
        BigInt { bytes: (&x + &y).to_signed_bytes_le() }
    }

    /// The difference, through `-` of `num-bigint` on two references.
    #[verifier::external_body]
    pub(crate) fn minus(&self, other: &BigInt) -> (difference: BigInt)
        ensures
            difference@ == self@ - other@,
    {
        let x = num_bigint::BigInt::from_signed_bytes_le(&self.bytes);
        let y = num_bigint::BigInt::from_signed_bytes_le(&other.bytes);
        BigInt { bytes: (&x - &y).to_signed_bytes_le() }
    }

    /// The product, through `*` of `num-bigint` on two references.
    #[verifier::external_body]
    pub(crate) fn times(&self, other: &BigInt) -> (product: BigInt)
        ensures
            product@ == self@ * other@,
    {
        let x = num_bigint::BigInt::from_signed_bytes_le(&self.bytes);
        let y = num_bigint::BigInt::from_signed_bytes_le(&other.bytes);
        BigInt { bytes: (&x * &y).to_signed_bytes_le() }
    }

    /// The quotient rounded toward zero, through `/` of `num-bigint` on two
    /// references, which panics on a zero divisor: that divisor is left out.
    #[verifier::external_body]
    pub(crate) fn quotient(&self, other: &BigInt) -> (q: BigInt)
        requires
            other@ != 0,
        ensures
            q@ == truncated_quotient(self@, other@),
    {
        let x = num_bigint::BigInt::from_signed_bytes_le(&self.bytes);
        let y = num_bigint::BigInt::from_signed_bytes_le(&other.bytes);
        BigInt { bytes: (&x / &y).to_signed_bytes_le() }
    }

    /// The remainder that goes with `quotient`, through `%` of `num-bigint`
    /// on two references, which panics on a zero divisor: that divisor is
    /// left out.
    #[verifier::external_body]
    pub(crate) fn remainder(&self, other: &BigInt) -> (r: BigInt)
        requires
            other@ != 0,
        ensures
            r@ == self@ - other@ * truncated_quotient(self@, other@),
    {
        let x = num_bigint::BigInt::from_signed_bytes_le(&self.bytes);
        let y = num_bigint::BigInt::from_signed_bytes_le(&other.bytes);
        BigInt { bytes: (&x % &y).to_signed_bytes_le() }
    }

    /// Whether `self` is at most `other`, through `<=` of `num-bigint`.
    #[verifier::external_body]
    pub(crate) fn at_most(&self, other: &BigInt) -> (le: bool)
        ensures
            le == (self@ <= other@),
    {
        let x = num_bigint::BigInt::from_signed_bytes_le(&self.bytes);
        let y = num_bigint::BigInt::from_signed_bytes_le(&other.bytes);
        x <= y
    }

    /// Whether the value is zero.
    pub fn is_zero(&self) -> (z: bool)
        ensures
            z == (self@ == 0),
    {
        let zero = BigInt::zero();
        self.at_most(&zero) && zero.at_most(self)
    }

    /// Whether the value is below zero.
    pub fn is_negative(&self) -> (neg: bool)
        ensures
            neg == (self@ < 0),
    {
        let zero = BigInt::zero();
        !zero.at_most(self)
    }

    /// Whether two values are the same integer.
    pub fn equals(&self, other: &BigInt) -> (same: bool)
        ensures
            same == (self@ == other@),
    {
        self.at_most(other) && other.at_most(self)
    }

    /// The value with its sign turned.
    pub fn negated(&self) -> (n: BigInt)
        ensures
            n@ == -self@,
    {
        BigInt::zero().minus(self)
    }
}

} // verus!
