//! Volume-weighted prices.
use orderly::decimal::{Decimal, MAX_MANTISSA};
use orderly::weighted::{average, shown_price, weighted_price, weighted_side, Overflow, Quote};
use std::str::FromStr;

fn dec(text: &str) -> Decimal {
    let d = rust_decimal::Decimal::from_str(text).unwrap();
    Decimal::from_parts(d.mantissa(), d.scale()).unwrap().with_sign(d.is_sign_negative())
}

fn quotes(entries: &[(&str, &str)]) -> Vec<Quote> {
    entries.iter().map(|(p, a)| Quote { price: dec(p), amount: dec(a) }).collect()
}

#[test]
fn a_side_is_weighted_by_amount() {
    assert_eq!(weighted_side(&quotes(&[("10", "1"), ("8", "3")])).unwrap(), dec("8.5"));
    assert_eq!(weighted_side(&quotes(&[("0.07", "2.5")])).unwrap(), dec("0.07"));
    assert_eq!(weighted_side(&quotes(&[("10", "0"), ("8", "0.0")])).unwrap(), dec("0"));
    assert_eq!(weighted_side(&quotes(&[])).unwrap(), dec("0"));
}

#[test]
fn the_price_is_the_rounded_midpoint() {
    let price = weighted_price(&quotes(&[("10", "1"), ("8", "3")]), &quotes(&[("11", "2")]));
    let price = price.unwrap().unwrap();
    assert_eq!((price.mantissa(), price.scale()), (975_000_000, 8));
    let third = weighted_price(&quotes(&[("1", "1"), ("0", "2")]), &quotes(&[("1", "1"), ("0", "2")]));
    assert_eq!(third.unwrap().unwrap(), dec("0.33333333"));
    let two_thirds = weighted_price(&quotes(&[("1", "2"), ("0", "1")]), &quotes(&[("1", "2"), ("0", "1")]));
    assert_eq!(two_thirds.unwrap().unwrap(), dec("0.66666667"));
}

#[test]
fn an_empty_side_has_no_price() {
    assert!(weighted_price(&quotes(&[]), &quotes(&[("1", "1")])).unwrap().is_none());
    assert!(weighted_price(&quotes(&[("1", "1")]), &quotes(&[])).unwrap().is_none());
}

#[test]
fn steps_that_overflow_are_errors() {
    let max = Decimal::from_parts(MAX_MANTISSA, 0).unwrap();
    let huge = vec![Quote { price: max, amount: dec("2") }];
    let full = vec![Quote { price: dec("1"), amount: max }, Quote { price: dec("1"), amount: max }];
    let fine = quotes(&[("1", "1")]);
    assert_eq!(weighted_price(&huge, &fine).unwrap_err(), Overflow);
    assert_eq!(weighted_price(&fine, &full).unwrap_err(), Overflow);
    // Each side alone is within the limits, their sum is not.
    let top = vec![Quote { price: max, amount: dec("1") }];
    assert_eq!(weighted_price(&top, &top).unwrap_err(), Overflow);
}

#[test]
fn averages_without_an_amount_are_zero() {
    assert_eq!(average(dec("5"), dec("0.0")).unwrap(), dec("0"));
    assert_eq!(average(dec("5"), dec("4")).unwrap(), dec("1.25"));
    assert!(average(Decimal::from_parts(MAX_MANTISSA, 0).unwrap(), dec("0.5")).is_none());
}

#[test]
fn shown_prices_have_eight_digits() {
    let price = shown_price(dec("9.75"));
    assert_eq!((price.mantissa(), price.scale()), (975_000_000, 8));
    assert_eq!(shown_price(dec("0.123456785")), dec("0.12345679"));
    let max = Decimal::from_parts(MAX_MANTISSA, 3).unwrap();
    assert_eq!((shown_price(max).mantissa(), shown_price(max).scale()), (MAX_MANTISSA, 3));
}

#[test]
fn a_negative_price_that_rounds_to_zero_keeps_its_sign() {
    let bids = quotes(&[("-0.000000005", "1")]);
    let asks = quotes(&[("0", "1")]);
    let price = weighted_price(&bids, &asks).unwrap().unwrap();
    assert_eq!((price.mantissa(), price.scale(), price.is_sign_negative()), (0, 8, true));
    let price = weighted_price(&quotes(&[("0.000000005", "1")]), &asks).unwrap().unwrap();
    assert_eq!((price.mantissa(), price.scale(), price.is_sign_negative()), (0, 8, false));
    let price = weighted_price(&quotes(&[("-1", "1")]), &quotes(&[("1", "1")])).unwrap().unwrap();
    assert_eq!((price.mantissa(), price.scale(), price.is_sign_negative()), (0, 8, false));
}

#[test]
fn a_long_total_amount_may_round_to_the_odd_value() {
    let side = quotes(&[
        ("1584563250285286751870879006.9", "1"),
        ("0", "199999999999999999999999999"),
    ]);
    let average = weighted_side(&side).unwrap();
    assert_eq!((average.mantissa(), average.scale()), (7_922_816_251_426_433_759_354_395_035, 27));
}
