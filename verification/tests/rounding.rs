//! Range and rounding of the four operations, held against integers of unlimited size.
use orderly::decimal::{Decimal, MAX_MANTISSA};
use std::cmp::Ordering;

/// A natural number: 32-bit digits, the lowest first, without leading zeros.
type Natural = Vec<u32>;

fn natural(mut n: u128) -> Natural {
    let mut digits = Vec::new();
    while n > 0 {
        digits.push(n as u32);
        n >>= 32;
    }
    digits
}

fn trimmed(mut n: Natural) -> Natural {
    while n.last() == Some(&0) {
        n.pop();
    }
    n
}

fn order(a: &Natural, b: &Natural) -> Ordering {
    a.len().cmp(&b.len()).then_with(|| a.iter().rev().cmp(b.iter().rev()))
}

fn plus(a: &Natural, b: &Natural) -> Natural {
    let mut sum = Vec::new();
    let mut carry = 0u64;
    for i in 0..a.len().max(b.len()) + 1 {
        carry += *a.get(i).unwrap_or(&0) as u64 + *b.get(i).unwrap_or(&0) as u64;
        sum.push(carry as u32);
        carry >>= 32;
    }
    trimmed(sum)
}

fn distance(a: &Natural, b: &Natural) -> Natural {
    let (large, small) = if order(a, b) == Ordering::Less { (b, a) } else { (a, b) };
    let mut rest = large.clone();
    let mut borrow = 0i64;
    for (i, digit) in rest.iter_mut().enumerate() {
        let d = *digit as i64 - borrow - *small.get(i).unwrap_or(&0) as i64;
        borrow = if d < 0 { 1 } else { 0 };
        *digit = d as u32;
    }
    trimmed(rest)
}

fn times(a: &Natural, b: &Natural) -> Natural {
    let mut product = vec![0u32; a.len() + b.len() + 1];
    for (i, x) in a.iter().enumerate() {
        let mut carry = 0u64;
        for (j, y) in b.iter().enumerate() {
            carry += *x as u64 * *y as u64 + product[i + j] as u64;
            product[i + j] = carry as u32;
            carry >>= 32;
        }
        product[i + b.len()] = carry as u32;
    }
    trimmed(product)
}

fn ten_to(digits: u32) -> Natural {
    natural(10u128.pow(digits))
}

/// A sign (`true` for negative) and a magnitude.
type Integer = (bool, Natural);

fn value(d: Decimal) -> Integer {
    let magnitude = times(&natural(d.mantissa().unsigned_abs()), &ten_to(28 - d.scale()));
    (d.mantissa() < 0, magnitude)
}

fn negated(a: &Integer) -> Integer {
    (!a.0, a.1.clone())
}

fn sum(a: &Integer, b: &Integer) -> Integer {
    if a.0 == b.0 {
        (a.0, plus(&a.1, &b.1))
    } else if order(&a.1, &b.1) == Ordering::Less {
        (b.0, distance(&a.1, &b.1))
    } else {
        (a.0, distance(&a.1, &b.1))
    }
}

fn product(a: &Integer, b: &Integer) -> Integer {
    (a.0 != b.0, times(&a.1, &b.1))
}

/// The largest scale at which the mantissa of `n / d` fits, or `None` where it fits at none.
fn kept_scale(n: &Integer, d: &Integer) -> Option<u32> {
    let limit = times(&natural(2 * MAX_MANTISSA as u128 + 1), &d.1);
    let twice = times(&natural(2), &n.1);
    (0..=28).rev().find(|s| order(&twice, &times(&limit, &ten_to(28 - s))) == Ordering::Less)
}

/// A result is there exactly where `n / d` is in range. It is then rounded to as many digits as it
/// can have, to the nearest, and of two that are equally near to the even one where `to_even` says
/// so.
fn is_rounded(result: Option<Decimal>, n: &Integer, d: &Integer, to_even: bool) -> bool {
    match (result, kept_scale(n, d)) {
        (Some(r), Some(kept)) => {
            let unit = times(&d.1, &ten_to(28 - kept));
            let off = times(&natural(2), &sum(&product(&value(r), d), &negated(n)).1);
            let even = !to_even || r.scale() < kept || r.mantissa() % 2 == 0;
            r.scale() <= kept
                && match order(&off, &unit) {
                    Ordering::Less => true,
                    Ordering::Equal => even,
                    Ordering::Greater => false,
                }
        }
        (None, None) => true,
        _ => false,
    }
}

fn parts(d: Decimal) -> (i128, u32, bool) {
    (d.mantissa(), d.scale(), d.is_sign_negative())
}

/// The digits and the sign of a sum.
fn is_written_as_sum(result: Option<Decimal>, a: Decimal, b: Decimal, exact: &Integer) -> bool {
    let one: Integer = (false, natural(1));
    match result {
        None => true,
        Some(r) if a.is_zero() => parts(r) == parts(b),
        Some(r) if b.is_zero() => parts(r) == parts(a),
        Some(r) => {
            r.scale() == a.scale().max(b.scale()).min(kept_scale(exact, &one).unwrap())
                && r.is_sign_negative() == (r.mantissa() < 0)
        }
    }
}

fn opposite(d: Decimal) -> Decimal {
    if d.is_zero() {
        d
    } else {
        d.with_sign(!d.is_sign_negative())
    }
}

fn all_operations_hold(a: Decimal, b: Decimal) {
    let one: Integer = (false, natural(1));
    let unit: Integer = (false, ten_to(28));
    let (x, y) = (value(a), value(b));
    let total = sum(&x, &y);
    let r = a.checked_add(b);
    assert!(is_rounded(r, &total, &one, true), "{:?} + {:?}", a, b);
    assert!(is_written_as_sum(r, a, b, &total), "{:?} + {:?}", a, b);
    let rest = sum(&x, &negated(&y));
    let r = a.checked_sub(b);
    assert!(is_rounded(r, &rest, &one, true), "{:?} - {:?}", a, b);
    assert!(is_written_as_sum(r, a, opposite(b), &rest), "{:?} - {:?}", a, b);
    let area = product(&x, &y);
    let r = a.checked_mul(b);
    assert!(is_rounded(r, &area, &unit, true), "{:?} * {:?}", a, b);
    if a.is_zero() || b.is_zero() {
        assert_eq!(parts(r.unwrap()), (0, 0, false));
    }
    if let Some(r) = r {
        if !r.is_zero() {
            let scale = (a.scale() + b.scale()).min(kept_scale(&area, &unit).unwrap());
            assert_eq!(r.scale(), scale, "{:?} * {:?}", a, b);
        }
    }
    let r = a.checked_div(b);
    let narrow = b.mantissa().unsigned_abs() < 1 << 64;
    assert!(is_rounded(r, &product(&x, &unit), &y, narrow), "{:?} / {:?}", a, b);
    if let Some(r) = r {
        assert_eq!(r.is_sign_negative(), r.mantissa() < 0, "{:?} / {:?}", a, b);
        if a.is_zero() {
            assert_eq!(parts(r), (0, 0, false));
        }
    }
    let expected = if rest.1.is_empty() {
        Ordering::Equal
    } else if rest.0 {
        Ordering::Less
    } else {
        Ordering::Greater
    };
    assert_eq!(a.cmp(&b), expected, "{:?} {:?}", a, b);
}

struct Random(u64);

impl Random {
    fn next(&mut self) -> u64 {
        self.0 ^= self.0 << 13;
        self.0 ^= self.0 >> 7;
        self.0 ^= self.0 << 17;
        self.0
    }

    fn decimal(&mut self) -> Decimal {
        let bits = (self.next() % 97) as u32;
        let raw = ((self.next() as u128) << 64) | self.next() as u128;
        let mantissa = if bits == 0 { 0 } else { (raw >> (128 - bits)) as i128 };
        let negative = self.next() % 2 == 0;
        Decimal::from_parts(mantissa, (self.next() % 29) as u32).unwrap().with_sign(negative)
    }
}

#[test]
fn operations_round_to_the_nearest_on_the_limits() {
    let mantissas = [
        0,
        1,
        2,
        3,
        5,
        10,
        999_999_999,
        (1 << 32) - 1,
        1 << 32,
        (1 << 64) - 1,
        1 << 64,
        MAX_MANTISSA / 10,
        MAX_MANTISSA / 10 + 1,
        MAX_MANTISSA / 2,
        MAX_MANTISSA - 1,
        MAX_MANTISSA,
    ];
    let mut numbers: Vec<Decimal> = Vec::new();
    for scale in [0, 1, 2, 9, 10, 19, 20, 27, 28] {
        for mantissa in mantissas {
            numbers.push(Decimal::from_parts(mantissa, scale).unwrap());
            numbers.push(Decimal::from_parts(mantissa, scale).unwrap().with_sign(true));
        }
    }
    for a in &numbers {
        for b in &numbers {
            all_operations_hold(*a, *b);
        }
    }
}

#[test]
fn operations_round_to_the_nearest_on_random_numbers() {
    let mut random = Random(0x9e37_79b9_7f4a_7c15);
    for _ in 0..100_000 {
        let (a, b) = (random.decimal(), random.decimal());
        all_operations_hold(a, b);
    }
}

#[test]
fn products_and_quotients_overflow_from_half_a_unit_on() {
    // Products and quotients within a few units of the largest mantissa, on both sides of it.
    for b in [1i128, 2, 3, 4, 5, 7, 8, 1_000, 4_294_967_295, 1 << 40, 10_i128.pow(27)] {
        for scale in 0..28 {
            let divisor = Decimal::from_parts(b, scale).unwrap();
            let largest = Decimal::from_parts(MAX_MANTISSA, 0).unwrap();
            if let Some(near) = largest.checked_mul(divisor) {
                for step in -3..=3 {
                    if let Some(a) = Decimal::from_parts(near.mantissa() + step, near.scale()) {
                        all_operations_hold(a, divisor);
                    }
                }
            }
            if let Some(near) = largest.checked_div(divisor) {
                for step in -3..=3 {
                    if let Some(a) = Decimal::from_parts(near.mantissa() + step, near.scale()) {
                        all_operations_hold(a, divisor);
                    }
                }
            }
        }
    }
}

/// Numbers that end in a five behind the last digit that fits.
const TIES: [i128; 4] = [
    15_845_632_502_852_867_518_708_790_069,
    15_845_632_502_852_867_518_708_790_071,
    15_845_632_502_852_867_518_708_790_073,
    31_691_265_005_705_735_037_417_580_141,
];

#[test]
fn quotients_between_two_values() {
    for a in TIES {
        for digits in 0..28 {
            for b in [2 * 10i128.pow(digits), 10i128.pow(digits), 6 * 10i128.pow(digits), 1 << (3 * digits)] {
                for (sa, sb) in [(0, 0), (1, 0), (2, 0), (28, 0), (28, 28), (20, 7), (0, 14), (1, 27), (13, 1)] {
                    let a = Decimal::from_parts(a, sa).unwrap();
                    let b = Decimal::from_parts(b, sb).unwrap();
                    all_operations_hold(a, b);
                    all_operations_hold(a.with_sign(true), b);
                    all_operations_hold(a, b.with_sign(true));
                }
            }
        }
    }
}

#[test]
fn products_and_sums_between_two_values() {
    for a in TIES {
        for digits in 0..27 {
            for b in [5 * 10i128.pow(digits), 15 * 10i128.pow(digits), 25 * 10i128.pow(digits)] {
                for (sa, sb) in [(1, 0), (0, 2), (3, 4), (10, 18), (28, 28), (27, 28), (0, 28), (2, 27)] {
                    let a = Decimal::from_parts(a, sa).unwrap();
                    let b = Decimal::from_parts(b, sb).unwrap();
                    all_operations_hold(a, b);
                    all_operations_hold(b, a.with_sign(true));
                    all_operations_hold(b, a);
                }
            }
        }
    }
    for digits in 1..28 {
        for last in 0..20 {
            let large = Decimal::from_parts(MAX_MANTISSA - last, 0).unwrap();
            let half = Decimal::from_parts(5 * 10i128.pow(digits - 1), digits).unwrap();
            all_operations_hold(large, half);
            all_operations_hold(half, large);
            all_operations_hold(large.with_sign(true), half);
        }
    }
}

#[test]
fn a_quotient_between_two_values_goes_either_way_for_long_divisors() {
    let a = Decimal::from_parts(15_845_632_502_852_867_518_708_790_069, 1).unwrap();
    let long = Decimal::from_parts(200_000_000_000_000_000_000_000_000, 0).unwrap();
    let q = a.checked_div(long).unwrap();
    assert_eq!((q.mantissa(), q.scale()), (7_922_816_251_426_433_759_354_395_035, 27));
    // The same quotient with a divisor of fewer bits.
    let a = Decimal::from_parts(15_845_632_502_852_867_518_708_790_069, 27).unwrap();
    let q = a.checked_div(Decimal::two()).unwrap();
    assert_eq!((q.mantissa(), q.scale()), (7_922_816_251_426_433_759_354_395_034, 27));
}

#[test]
fn rounded_results_on_given_numbers() {
    let third = Decimal::from_parts(1, 0).unwrap().checked_div(Decimal::from_parts(3, 0).unwrap()).unwrap();
    assert_eq!((third.mantissa(), third.scale()), (3_333_333_333_333_333_333_333_333_333, 28));
    let thirds = Decimal::two().checked_div(Decimal::from_parts(3, 0).unwrap()).unwrap();
    assert_eq!((thirds.mantissa(), thirds.scale()), (6_666_666_666_666_666_666_666_666_667, 28));
    let large = Decimal::from_parts(MAX_MANTISSA, 0).unwrap();
    let less = large.checked_sub(Decimal::from_parts(4, 1).unwrap()).unwrap();
    assert_eq!((less.mantissa(), less.scale()), (MAX_MANTISSA, 0));
    let tiny = Decimal::from_parts(1, 28).unwrap();
    assert!(tiny.checked_mul(tiny).unwrap().is_zero());
}
