//! Decimal values: comparison, arithmetic, limits and rounding.
use orderly::decimal::{Decimal, MAX_MANTISSA};
use std::cmp::Ordering;
use std::str::FromStr;

fn dec(text: &str) -> Decimal {
    let d = rust_decimal::Decimal::from_str(text).unwrap();
    Decimal::from_parts(d.mantissa(), d.scale()).unwrap().with_sign(d.is_sign_negative())
}

fn parts(d: Decimal) -> (i128, u32) {
    (d.mantissa(), d.scale())
}

#[test]
fn parts_out_of_range_are_refused() {
    assert!(Decimal::from_parts(MAX_MANTISSA, 28).is_some());
    assert!(Decimal::from_parts(-MAX_MANTISSA, 0).is_some());
    assert!(Decimal::from_parts(MAX_MANTISSA + 1, 0).is_none());
    assert!(Decimal::from_parts(-MAX_MANTISSA - 1, 0).is_none());
    assert!(Decimal::from_parts(1, 29).is_none());
}

#[test]
fn decimals_compare_by_value() {
    assert_eq!(dec("1.5"), dec("1.50"));
    assert_ne!(dec("1.5"), dec("1.51"));
    assert_eq!(dec("0"), dec("0.000"));
    assert_eq!(dec("10.85").cmp(&dec("10.9")), Ordering::Less);
    assert_eq!(dec("-0.5").cmp(&dec("-0.01")), Ordering::Less);
    assert_eq!(dec("2").cmp(&dec("2.000")), Ordering::Equal);
    assert!(dec("11") > dec("10.999"));
    assert!(Decimal::from_parts(MAX_MANTISSA, 0).unwrap() > Decimal::from_parts(MAX_MANTISSA, 28).unwrap());
}

#[test]
fn zero_is_zero_at_every_scale() {
    assert!(dec("0.00").is_zero());
    assert!(Decimal::zero().is_zero());
    assert!(!Decimal::two().is_zero());
    assert!(!dec("0.0000000000000000000000000001").is_zero());
}

#[test]
fn zero_has_a_sign_that_does_not_compare() {
    let negative = Decimal::from_parts(0, 2).unwrap().with_sign(true);
    assert!(negative.is_sign_negative());
    assert!(!Decimal::from_parts(0, 2).unwrap().is_sign_negative());
    assert_eq!(parts(negative), (0, 2));
    assert_eq!(negative, Decimal::zero());
    assert!(!(negative < Decimal::zero()));
    assert!(dec("-0.01") < negative);
    assert_eq!(dec("1.5").with_sign(true), dec("-1.5"));
    assert_eq!(dec("-1.5").with_sign(true), dec("-1.5"));
    assert_eq!(dec("-1.5").with_sign(false), dec("1.5"));
    // A zero operand leaves the other one as it is; zero minus a zero is the second one.
    assert!(Decimal::zero().checked_add(negative).unwrap().is_sign_negative());
    assert!(Decimal::zero().checked_sub(negative).unwrap().is_sign_negative());
    assert!(!negative.checked_add(Decimal::zero()).unwrap().is_sign_negative());
    // Sums, products and quotients that come out as zero are positive.
    assert!(!dec("-1").checked_add(dec("1")).unwrap().is_sign_negative());
    assert!(!negative.checked_mul(dec("2")).unwrap().is_sign_negative());
    assert!(!negative.checked_div(dec("2")).unwrap().is_sign_negative());
}

#[test]
fn rescaling_keeps_the_sign() {
    let price = dec("-0.000000004").rescaled(8);
    assert_eq!(parts(price), (0, 8));
    assert!(price.is_sign_negative());
    assert!(!dec("0.000000004").rescaled(8).is_sign_negative());
    assert!(Decimal::zero().with_sign(true).rescaled(3).is_sign_negative());
}

#[test]
fn exact_quotients_are_kept() {
    assert_eq!(dec("21").checked_div(dec("2")).unwrap(), dec("10.5"));
    assert_eq!(dec("1").checked_div(dec("-8")).unwrap(), dec("-0.125"));
    let largest = Decimal::from_parts(MAX_MANTISSA, 28).unwrap();
    assert_eq!(Decimal::from_parts(MAX_MANTISSA, 27).unwrap().checked_div(dec("10")).unwrap(), largest);
}

#[test]
fn exact_sums_have_the_larger_scale() {
    assert_eq!(parts(dec("1.5").checked_add(dec("0.250")).unwrap()), (1_750, 3));
    assert_eq!(parts(dec("1.50").checked_sub(dec("0.5")).unwrap()), (100, 2));
    assert_eq!(parts(dec("1.50").checked_sub(dec("1.500")).unwrap()), (0, 3));
    assert_eq!(parts(dec("0.000").checked_sub(dec("0.5")).unwrap()), (-5, 1));
}

#[test]
fn rounded_differences_depend_on_values_alone() {
    let large = Decimal::from_parts(MAX_MANTISSA, 0).unwrap();
    let short = large.checked_sub(dec("0.1")).unwrap();
    let long = large.checked_sub(dec("0.1000000000")).unwrap();
    assert_eq!(short, long);
    let part = Decimal::from_parts(MAX_MANTISSA / 10, 0).unwrap();
    assert_eq!(part.checked_sub(dec("0.123")).unwrap(), part.checked_sub(dec("0.12300000")).unwrap());
}

#[test]
fn differences_are_exact_where_they_fit() {
    assert_eq!(dec("11").checked_sub(dec("10.85")).unwrap(), dec("0.15"));
    assert_eq!(dec("10.85").checked_sub(dec("11")).unwrap(), dec("-0.15"));
    assert_eq!(dec("0").checked_sub(dec("0.07")).unwrap(), dec("-0.07"));
    assert_eq!(dec("7").checked_sub(dec("0.000")).unwrap(), dec("7"));
    // Both operands need the full mantissa once their scales are aligned, the difference does not.
    let a = Decimal::from_parts(79_228_162_514_264_337_593_543_950_336 / 4, 0).unwrap();
    let b = Decimal::from_parts(MAX_MANTISSA, 1).unwrap();
    let d = a.checked_sub(b).unwrap();
    assert_eq!(d.checked_add(b).unwrap(), a);
}

#[test]
fn differences_that_cancel_beyond_the_mantissa_are_exact() {
    // With one more digit the first operand exceeds the mantissa, and the difference fits again.
    let a = Decimal::from_parts(7_922_816_251_426_433_759_354_395_034, 0).unwrap();
    let b = Decimal::from_parts(1_234_567_890_123_456_789_012_345_678, 1).unwrap();
    let d = a.checked_sub(b).unwrap();
    assert_eq!(
        parts(d),
        (79_228_162_514_264_337_593_543_950_340 - 1_234_567_890_123_456_789_012_345_678, 1)
    );
}

#[test]
fn sums_and_differences_overflow_beyond_the_largest_mantissa() {
    let max = Decimal::from_parts(MAX_MANTISSA, 0).unwrap();
    let min = Decimal::from_parts(-MAX_MANTISSA, 0).unwrap();
    assert!(max.checked_add(dec("1")).is_none());
    assert!(max.checked_sub(min).is_none());
    assert!(min.checked_sub(dec("1")).is_none());
    // Below half a unit the sum is rounded, from half a unit on it overflows.
    assert_eq!(max.checked_add(dec("0.49")).unwrap(), max);
    assert!(max.checked_add(dec("0.5")).is_none());
    assert!(min.checked_sub(dec("0.4999999999999999999999999999")).is_some());
    assert!(min.checked_sub(dec("0.5")).is_none());
}

#[test]
fn sums_are_exact_where_they_fit() {
    assert_eq!(dec("0.1").checked_add(dec("0.22")).unwrap(), dec("0.32"));
    assert_eq!(parts(dec("0").checked_add(dec("0.22")).unwrap()), (22, 2));
    assert_eq!(dec("-3").checked_add(dec("1.25")).unwrap(), dec("-1.75"));
}

#[test]
fn products_keep_all_digits_where_they_fit() {
    assert_eq!(parts(dec("1.5").checked_mul(dec("0.25")).unwrap()), (375, 3));
    assert_eq!(parts(dec("-1.50").checked_mul(dec("4")).unwrap()), (-600, 2));
    assert_eq!(parts(dec("0.00").checked_mul(dec("4")).unwrap()), (0, 0));
    let max = Decimal::from_parts(MAX_MANTISSA, 0).unwrap();
    assert!(max.checked_mul(dec("2")).is_none());
    assert_eq!(parts(max.checked_mul(dec("1")).unwrap()), (MAX_MANTISSA, 0));
}

#[test]
fn quotients_and_their_limits() {
    assert_eq!(dec("21.7").checked_div(dec("2")).unwrap(), dec("10.85"));
    assert_eq!(parts(dec("0.0").checked_div(dec("3")).unwrap()), (0, 0));
    assert!(dec("1").checked_div(dec("0")).is_none());
    let max = Decimal::from_parts(MAX_MANTISSA, 0).unwrap();
    assert!(max.checked_div(dec("0.1")).is_none());
}

#[test]
fn rescaling_rounds_halves_away_from_zero() {
    assert_eq!(parts(dec("1.45").rescaled(1)), (15, 1));
    assert_eq!(parts(dec("-1.45").rescaled(1)), (-15, 1));
    assert_eq!(parts(dec("1.44999").rescaled(1)), (14, 1));
    assert_eq!(parts(dec("0.00000000499").rescaled(8)), (0, 8));
    assert_eq!(parts(dec("0.000000005").rescaled(8)), (1, 8));
    assert_eq!(parts(dec("0.0000000000000000000000000005").rescaled(8)), (0, 8));
}

#[test]
fn rescaling_adds_digits_as_far_as_they_fit() {
    assert_eq!(parts(dec("1.123").rescaled(6)), (1_123_000, 6));
    assert_eq!(parts(dec("1.123").rescaled(3)), (1_123, 3));
    assert_eq!(parts(dec("0").rescaled(8)), (0, 8));
    assert_eq!(parts(dec("11.76470588235294").rescaled(28)), (11_764_705_882_352_940_000_000_000_000, 27));
    let max = Decimal::from_parts(MAX_MANTISSA, 0).unwrap();
    assert_eq!(parts(max.rescaled(8)), (MAX_MANTISSA, 0));
}

const UNIT: i128 = 10_000_000_000_000_000_000_000_000_000;

/// Whole part and fraction, the fraction in units of `10^-28` and never negative.
fn split(d: Decimal) -> (i128, i128) {
    let ten_to_scale = 10i128.pow(d.scale());
    let whole = d.mantissa().div_euclid(ten_to_scale);
    let fraction = d.mantissa().rem_euclid(ten_to_scale) * 10i128.pow(28 - d.scale());
    (whole, fraction)
}

fn normal(whole: i128, fraction: i128) -> (i128, i128) {
    (whole + fraction.div_euclid(UNIT), fraction.rem_euclid(UNIT))
}

fn agrees(result: Option<Decimal>, a: Decimal, b: Decimal, value: (i128, i128)) {
    let negated = normal(-value.0, -value.1);
    let size = if value.0 < 0 { negated } else { value };
    let in_range = size.0 < MAX_MANTISSA || (size.0 == MAX_MANTISSA && size.1 < UNIT / 2);
    assert_eq!(result.is_some(), in_range, "{:?} {:?}", a, b);
    let scale = a.scale().max(b.scale());
    let aligned = size
        .0
        .checked_mul(10i128.pow(scale))
        .and_then(|m| m.checked_add(size.1 / 10i128.pow(28 - scale)));
    let exact = a.is_zero() || b.is_zero() || matches!(aligned, Some(m) if m <= MAX_MANTISSA);
    if exact {
        assert_eq!(split(result.unwrap()), value, "{:?} {:?}", a, b);
    }
}

#[test]
fn sums_and_differences_agree_with_wide_arithmetic() {
    let mut seed: u64 = 0x9e37_79b9_7f4a_7c15;
    let mut next = || {
        seed ^= seed << 13;
        seed ^= seed >> 7;
        seed ^= seed << 17;
        seed
    };
    let mut numbers: Vec<Decimal> = Vec::new();
    for scale in [0u32, 1, 2, 8, 9, 10, 18, 19, 27, 28] {
        for mantissa in [0, 1, 5, MAX_MANTISSA, MAX_MANTISSA - 1, MAX_MANTISSA / 10, MAX_MANTISSA / 10 + 1, 1 << 32, 1 << 64, (1 << 64) - 1] {
            numbers.push(Decimal::from_parts(mantissa, scale).unwrap());
            numbers.push(Decimal::from_parts(-mantissa, scale).unwrap());
        }
        for _ in 0..20 {
            let bits = (next() % 96) as u32;
            let raw = (((next() as u128) << 64) | next() as u128) >> (127 - bits);
            let mantissa = (raw as i128).min(MAX_MANTISSA);
            let sign = if next() % 2 == 0 { 1 } else { -1 };
            numbers.push(Decimal::from_parts(sign * mantissa, scale).unwrap());
        }
    }
    for a in &numbers {
        for b in &numbers {
            let (aw, af) = split(*a);
            let (bw, bf) = split(*b);
            agrees(a.checked_add(*b), *a, *b, normal(aw + bw, af + bf));
            agrees(a.checked_sub(*b), *a, *b, normal(aw - bw, af - bf));
            let order = (aw, af).cmp(&(bw, bf));
            assert_eq!(a.cmp(b), order, "{:?} {:?}", a, b);
        }
    }
}
