//! Levels: their order, sorting, merging, and keeping them by price.
use orderly::decimal::Decimal;
use orderly::levels_map::LevelsMap;
use orderly::orderbook::{Exchange, Level, Side, ToLevel, ToLevels};
use orderly::ranking::{sort_levels, Merge};
use std::cmp::Ordering;
use std::str::FromStr;

fn dec(text: &str) -> Decimal {
    let d = rust_decimal::Decimal::from_str(text).unwrap();
    Decimal::from_parts(d.mantissa(), d.scale()).unwrap()
}

fn bid(price: &str, amount: &str) -> Level {
    Level::new(Side::Bid, dec(price), dec(amount), Exchange::Kraken)
}

fn ask(price: &str, amount: &str) -> Level {
    Level::new(Side::Ask, dec(price), dec(amount), Exchange::Kraken)
}

#[test]
fn levels_compare_by_price_and_amount() {
    assert_eq!(bid("10", "1").cmp(&bid("11", "1")), Ordering::Less);
    assert_eq!(bid("10", "2").cmp(&bid("10.0", "1")), Ordering::Greater);
    assert_eq!(ask("10", "2").cmp(&ask("10.0", "1")), Ordering::Less);
    assert_eq!(ask("12", "2").cmp(&ask("10.0", "1")), Ordering::Greater);
    assert_eq!(bid("10", "1").cmp(&bid("10", "1.0")), Ordering::Equal);
    assert_eq!(bid("10", "1").partial_cmp(&bid("9", "1")), Some(Ordering::Greater));
    assert_eq!(ask("10", "1").partial_cmp(&ask("10", "3")), Some(Ordering::Greater));
    assert!(bid("9", "5") < bid("10", "1"));
}

#[test]
fn the_order_of_one_side_is_total() {
    let levels = vec![ask("10", "1"), ask("10", "2"), ask("11", "1"), ask("10.0", "1.0")];
    for a in &levels {
        for b in &levels {
            assert_eq!(a.cmp(b), b.cmp(a).reverse());
            for c in &levels {
                if a.cmp(b) != Ordering::Greater && b.cmp(c) != Ordering::Greater {
                    assert_ne!(a.cmp(c), Ordering::Greater);
                }
            }
        }
    }
}

#[test]
fn levels_are_equal_by_value_side_and_exchange() {
    assert_eq!(bid("10", "1"), bid("10.0", "1.00"));
    assert_ne!(bid("10", "1"), ask("10", "1"));
    assert_ne!(bid("10", "1"), bid("10", "2"));
    assert_ne!(bid("10", "1"), Level::new(Side::Bid, dec("10"), dec("1"), Exchange::Binance));
}

#[test]
fn sorting_is_ascending() {
    let sorted = sort_levels(&vec![bid("3", "1"), bid("1", "5"), bid("2", "2"), bid("2", "1")]);
    assert_eq!(sorted, vec![bid("1", "5"), bid("2", "1"), bid("2", "2"), bid("3", "1")]);
    let sorted = sort_levels(&vec![ask("3", "1"), ask("2", "1"), ask("2", "2")]);
    assert_eq!(sorted, vec![ask("2", "2"), ask("2", "1"), ask("3", "1")]);
    assert_eq!(sort_levels(&vec![]), vec![]);
}

#[test]
fn merging_sorts_both_lists_together() {
    let merged = vec![bid("3", "1"), bid("1", "1")].merge(&vec![bid("2", "1"), bid("3", "2")]);
    assert_eq!(merged, vec![bid("1", "1"), bid("2", "1"), bid("3", "1"), bid("3", "2")]);
    let map = LevelsMap::from_levels(vec![bid("5", "1"), bid("0.5", "1")]);
    let merged = merged.merge_map(&map);
    assert_eq!(merged.len(), 6);
    assert_eq!(merged[0], bid("0.5", "1"));
    assert_eq!(merged[5], bid("5", "1"));
}

#[test]
fn maps_hold_one_level_to_a_price_in_ascending_order() {
    let map = LevelsMap::from_levels(vec![bid("2", "1"), bid("1", "1"), bid("2.0", "7")]);
    assert_eq!(map.values(), &vec![bid("1", "1"), bid("2", "7")]);
    assert_eq!(map.len(), 2);
    assert_eq!(LevelsMap::new().len(), 0);
    assert_eq!(map, LevelsMap::from_levels(vec![bid("2", "7"), bid("1", "1")]));
    assert_ne!(map, LevelsMap::new());
}

#[test]
fn extending_keeps_the_top() {
    let mut map = LevelsMap::from_levels(vec![bid("1", "1"), bid("2", "1"), bid("3", "1")]);
    map.extend_and_keep_top(LevelsMap::from_levels(vec![bid("2", "0"), bid("4", "1"), bid("1", "9")]), 2);
    assert_eq!(map.values(), &vec![bid("3", "1"), bid("4", "1")]);
    map.extend_and_keep_top(LevelsMap::new(), 0);
    assert_eq!(map.len(), 0);
}

#[test]
fn extending_keeps_the_bottom() {
    let mut map = LevelsMap::from_levels(vec![ask("1", "1"), ask("2", "1"), ask("3", "1")]);
    map.extend_and_keep_bottom(LevelsMap::from_levels(vec![ask("1", "0.00"), ask("0.5", "1"), ask("2", "9")]), 2);
    assert_eq!(map.values(), &vec![ask("0.5", "1"), ask("2", "9")]);
    map.extend_and_keep_bottom(LevelsMap::from_levels(vec![ask("0.5", "0")]), 5);
    assert_eq!(map.values(), &vec![ask("2", "9")]);
}

struct Raw(&'static str, &'static str);

impl ToLevel for Raw {
    fn to_level(&self, side: Side) -> Level {
        Level::new(side, dec(self.0), dec(self.1), Exchange::Bitstamp)
    }
}

#[test]
fn raw_levels_are_cut_to_the_depth() {
    let raw = vec![Raw("3", "1"), Raw("2", "4"), Raw("1", "9")];
    let level = |price: &str, amount: &str| Level::new(Side::Ask, dec(price), dec(amount), Exchange::Bitstamp);
    assert_eq!(raw.to_levels(Side::Ask, 2), vec![level("3", "1"), level("2", "4")]);
    assert_eq!(raw.to_levels(Side::Ask, 3).len(), 3);
    assert_eq!(raw.to_levels(Side::Ask, 9), vec![level("3", "1"), level("2", "4"), level("1", "9")]);
    assert_eq!(raw.to_levels(Side::Bid, 0), vec![]);
}
