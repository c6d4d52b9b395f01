use advent_puzzles::bigint::BigInt;
use advent_puzzles::rational::{gcd, ArithError, Rat};

fn rat(n: i128, d: i128) -> Rat {
    Rat::new(n, d).unwrap()
}

fn is(r: &Rat, n: i128, d: i128) -> bool {
    r.equals(&rat(n, d))
}

#[test]
fn new_reduces_and_moves_the_sign() {
    assert!(rat(6, 8).equals(&rat(3, 4)));
    assert!(rat(3, -6).equals(&rat(-1, 2)));
    assert!(rat(-3, -6).equals(&rat(1, 2)));
    assert!(rat(0, -7).equals(&Rat::zero()));
    assert!(rat(0, 5).is_zero());
    assert!(rat(3, -6).is_negative());
    assert!(!rat(-3, -6).is_negative());
}

#[test]
fn new_rejects_a_zero_denominator() {
    assert_eq!(Rat::new(1, 0).err(), Some(ArithError::DivisionByZero));
    assert_eq!(Rat::new(0, 0).err(), Some(ArithError::DivisionByZero));
}

#[test]
fn the_four_operations() {
    assert!(is(&rat(1, 2).add(&rat(1, 3)), 5, 6));
    assert!(is(&rat(1, 2).sub(&rat(1, 3)), 1, 6));
    assert!(is(&rat(1, 3).sub(&rat(1, 2)), -1, 6));
    assert!(is(&rat(2, 3).mul(&rat(3, 4)), 1, 2));
    assert!(is(&rat(2, 3).div(&rat(4, 9)).unwrap(), 3, 2));
    assert!(is(&rat(2, 3).div(&rat(-4, 9)).unwrap(), -3, 2));
    assert!(is(&rat(1, 2).neg(), -1, 2));
    assert_eq!(rat(1, 2).div(&Rat::zero()).err(), Some(ArithError::DivisionByZero));
}

#[test]
fn operations_do_not_overflow() {
    let big = Rat::from_i128(i128::MAX);
    let square = big.mul(&big);
    assert!(square.is_integer());
    assert_eq!(square.to_i64(), Err(ArithError::RangeOverflow));
    let back = square.div(&big).unwrap();
    assert!(back.equals(&big));
    let sum = big.add(&big).sub(&big);
    assert!(sum.equals(&big));
}

#[test]
fn comparison_is_exact() {
    assert!(rat(1, 3).less_than(&rat(1, 2)));
    assert!(!rat(1, 2).less_than(&rat(1, 3)));
    assert!(!rat(2, 4).less_than(&rat(1, 2)));
    assert!(rat(-1, 2).less_than(&rat(-1, 3)));
    assert!(rat(2, 4).equals(&rat(1, 2)));
    assert!(!rat(1, 2).equals(&rat(1, 3)));
}

#[test]
fn whole_numbers() {
    assert!(Rat::from_i64(7).is_integer());
    assert!(rat(14, 2).is_integer());
    assert!(!rat(7, 2).is_integer());
    assert_eq!(Rat::from_i64(-7).to_i64(), Ok(-7));
    assert_eq!(rat(14, 2).to_i64(), Ok(7));
    assert_eq!(rat(7, 2).to_i64(), Err(ArithError::RangeOverflow));
    assert_eq!(Rat::from_i64(i64::MAX).to_i64(), Ok(i64::MAX));
    assert_eq!(Rat::from_i64(i64::MIN).to_i64(), Ok(i64::MIN));
    assert_eq!(Rat::from_i128(i64::MAX as i128 + 1).to_i64(), Err(ArithError::RangeOverflow));
    assert_eq!(Rat::from_i128(i64::MIN as i128 - 1).to_i64(), Err(ArithError::RangeOverflow));
    assert!(Rat::one().equals(&rat(5, 5)));
    assert!(Rat::one().duplicate().equals(&Rat::one()));
}

#[test]
fn gcd_of_zero_and_zero() {
    assert!(gcd(BigInt::zero(), BigInt::zero()).is_zero());
    assert!(BigInt::zero().negated().equals(&BigInt::zero()));
    assert!(!BigInt::zero().is_negative());
}
