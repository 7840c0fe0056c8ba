use bigdecimal::num_bigint::BigInt;
use bigdecimal::BigDecimal;
use prime_gaps::decimal::{Decimal, SCALE_LIMIT};
use std::str::FromStr;

fn dec(text: &str) -> Decimal {
    let (digits, scale) = BigDecimal::from_str(text).unwrap().into_bigint_and_exponent();
    Decimal { bytes: digits.to_signed_bytes_le(), scale }
}

fn parts(d: &Decimal) -> (BigInt, i64) {
    (BigInt::from_signed_bytes_le(&d.bytes), d.scale)
}

fn big(d: &Decimal) -> BigDecimal {
    BigDecimal::new(BigInt::from_signed_bytes_le(&d.bytes), d.scale)
}

#[test]
fn from_u64_of_zero_is_zero_at_scale_zero() {
    let zero = Decimal::from_u64(0);
    assert_eq!(parts(&zero), (BigInt::from(0), 0));
    assert!(zero.is_zero());
}

#[test]
fn from_u64_keeps_the_value() {
    for value in [1u64, 2, 127, 128, 255, 256, 65_535, 65_536, 1_000_000_000, u64::MAX] {
        let d = Decimal::from_u64(value);
        assert_eq!(parts(&d), (BigInt::from(value), 0));
        assert!(!d.is_zero());
    }
}

#[test]
fn from_u64_writes_low_byte_first_and_a_sign_byte() {
    assert_eq!(Decimal::from_u64(0x0102).bytes, vec![0x02, 0x01, 0x00]);
    assert_eq!(Decimal::from_u64(200).bytes, vec![200, 0]);
}

#[test]
fn is_zero_reads_every_byte() {
    assert!(Decimal { bytes: vec![], scale: 0 }.is_zero());
    assert!(Decimal { bytes: vec![0, 0, 0], scale: 5 }.is_zero());
    assert!(!Decimal { bytes: vec![0, 1], scale: 0 }.is_zero());
    assert!(!Decimal { bytes: vec![0x80], scale: 0 }.is_zero());
    assert!(!Decimal { bytes: vec![0xff, 0xff], scale: -3 }.is_zero());
}

#[test]
fn in_range_goes_up_to_the_limit() {
    assert!(Decimal { bytes: vec![1], scale: 0 }.in_range());
    assert!(Decimal { bytes: vec![1], scale: SCALE_LIMIT }.in_range());
    assert!(Decimal { bytes: vec![1], scale: -SCALE_LIMIT }.in_range());
    assert!(!Decimal { bytes: vec![1], scale: SCALE_LIMIT + 1 }.in_range());
    assert!(!Decimal { bytes: vec![1], scale: -SCALE_LIMIT - 1 }.in_range());
    assert!(!Decimal { bytes: vec![1], scale: i64::MIN }.in_range());
}

#[test]
fn sum_is_exact_at_the_larger_scale() {
    let sum = dec("0.5").checked_add(&dec("0.25")).unwrap();
    assert_eq!(parts(&sum), (BigInt::from(75), 2));
    let sum = dec("0.25").checked_add(&dec("0.5")).unwrap();
    assert_eq!(parts(&sum), (BigInt::from(75), 2));
}

#[test]
fn sum_with_zero_is_lifted_to_the_larger_scale() {
    let sum = dec("7").checked_add(&dec("0.000")).unwrap();
    assert_eq!(parts(&sum), (BigInt::from(7000), 3));
    let sum = dec("0").checked_add(&dec("1.25")).unwrap();
    assert_eq!(parts(&sum), (BigInt::from(125), 2));
}

#[test]
fn sum_of_negative_scale_is_lifted_to_zero() {
    let sum = dec("0").checked_add(&dec("5e3")).unwrap();
    assert_eq!(parts(&sum), (BigInt::from(5000), 0));
}

#[test]
fn difference_is_exact_and_may_be_negative() {
    let difference = dec("0.5").checked_sub(&dec("1")).unwrap();
    assert_eq!(parts(&difference), (BigInt::from(-5), 1));
    assert_eq!(difference.bytes, vec![0xfb]);
    assert_eq!(difference.scale, 1);
    let difference = dec("1").checked_sub(&dec("0.5")).unwrap();
    assert_eq!(parts(&difference), (BigInt::from(5), 1));
}

#[test]
fn difference_with_zero_is_lifted_to_the_larger_scale() {
    let difference = dec("3").checked_sub(&dec("0.00")).unwrap();
    assert_eq!(parts(&difference), (BigInt::from(300), 2));
    let difference = dec("0.00").checked_sub(&dec("3")).unwrap();
    assert_eq!(parts(&difference), (BigInt::from(-300), 2));
    let difference = dec("0").checked_sub(&dec("0.25")).unwrap();
    assert_eq!(parts(&difference), (BigInt::from(-25), 2));
}

#[test]
fn difference_of_equals_is_zero() {
    let difference = dec("12.5").checked_sub(&dec("12.50")).unwrap();
    assert_eq!(parts(&difference), (BigInt::from(0), 2));
    assert!(difference.is_zero());
}

#[test]
fn product_multiplies_digits_and_adds_scales() {
    let product = dec("1.5").checked_mul(&dec("1.5")).unwrap();
    assert_eq!(parts(&product), (BigInt::from(225), 2));
    let product = dec("-0.02").checked_mul(&dec("300")).unwrap();
    assert_eq!(parts(&product), (BigInt::from(-600), 2));
}

#[test]
fn product_with_one_keeps_both_scales() {
    let product = dec("1.0").checked_mul(&dec("2.50")).unwrap();
    assert_eq!(parts(&product), (BigInt::from(2500), 3));
    let product = dec("2.50").checked_mul(&dec("1")).unwrap();
    assert_eq!(parts(&product), (BigInt::from(250), 2));
}

#[test]
fn product_of_large_numbers_is_exact() {
    let a = Decimal::from_u64(u64::MAX);
    let product = a.checked_mul(&a).unwrap();
    let expected = BigInt::from(u64::MAX) * BigInt::from(u64::MAX);
    assert_eq!(parts(&product), (expected, 0));
}

#[test]
fn quotient_that_ends_is_exact() {
    let quotient = dec("1").checked_div(&dec("4")).unwrap();
    assert_eq!(big(&quotient), BigDecimal::from_str("0.25").unwrap());
    let quotient = dec("-7.5").checked_div(&dec("2.5")).unwrap();
    assert_eq!(big(&quotient), BigDecimal::from_str("-3").unwrap());
}

#[test]
fn quotient_that_does_not_end_is_cut() {
    let quotient = dec("1").checked_div(&dec("3")).unwrap();
    let expected = BigDecimal::from(1) / BigDecimal::from(3);
    assert_eq!(parts(&quotient), expected.into_bigint_and_exponent());
    let text = big(&quotient).to_string();
    assert!(text.starts_with("0.3333333333"));
}

#[test]
fn quotient_by_the_whole_number_one_is_the_dividend_as_it_is() {
    let quotient = dec("2.500").checked_div(&dec("1")).unwrap();
    assert_eq!(parts(&quotient), (BigInt::from(2500), 3));
    let quotient = dec("-7e2").checked_div(&Decimal::from_u64(1)).unwrap();
    assert_eq!(parts(&quotient), (BigInt::from(-7), -2));
}

#[test]
fn quotient_by_zero_is_none() {
    assert!(dec("7").checked_div(&dec("0")).is_none());
    assert!(dec("7").checked_div(&dec("0.000")).is_none());
    assert!(dec("0").checked_div(&Decimal { bytes: vec![], scale: 0 }).is_none());
}

#[test]
fn quotient_of_zero_is_zero() {
    let quotient = dec("0").checked_div(&dec("7")).unwrap();
    assert!(quotient.is_zero());
}

#[test]
fn scale_out_of_range_is_none() {
    let far = Decimal { bytes: vec![1], scale: SCALE_LIMIT + 1 };
    let near = dec("1");
    assert!(far.checked_add(&near).is_none());
    assert!(near.checked_add(&far).is_none());
    assert!(far.checked_sub(&near).is_none());
    assert!(near.checked_sub(&far).is_none());
    assert!(far.checked_mul(&near).is_none());
    assert!(near.checked_mul(&far).is_none());
    assert!(far.checked_div(&near).is_none());
    assert!(near.checked_div(&far).is_none());
}

#[test]
fn product_at_the_limit_leaves_the_range() {
    let edge = Decimal { bytes: vec![3], scale: SCALE_LIMIT };
    let product = edge.checked_mul(&edge).unwrap();
    assert_eq!(parts(&product), (BigInt::from(9), 2 * SCALE_LIMIT));
    assert!(!product.in_range());
    assert!(product.checked_mul(&edge).is_none());
}
