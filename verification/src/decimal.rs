//! Decimal numbers with a 96-bit mantissa and a scale of at most 28 digits.
//!
//! [`Decimal`] holds a number as plain values, so that contracts can speak of its exact value.
//! The arithmetic itself is that of the `rust_decimal` crate: each operation hands the parts of its
//! operands to one function of that crate and takes the parts of the result back.
use core::cmp::Ordering;
use vstd::arithmetic::div_mod::{
    lemma_div_multiples_vanish, lemma_fundamental_div_mod, lemma_mod_multiples_basic,
};
use vstd::arithmetic::power::{
    lemma_pow1, lemma_pow_adds, lemma_pow_increases, lemma_pow_positive, pow,
};
use vstd::prelude::*;
use vstd::std_specs::cmp::{PartialEqSpec, PartialOrdSpec};

verus! {

/// The largest number of digits behind the decimal point.
pub const MAX_SCALE: u32 = 28;

/// The largest mantissa, `2^96 - 1`.
pub const MAX_MANTISSA: i128 = 79_228_162_514_264_337_593_543_950_335;

/// Whether a mantissa and a scale are within the limits of a [`Decimal`].
pub open spec fn representable(mantissa: i128, scale: u32) -> bool {
    &&& -MAX_MANTISSA <= mantissa <= MAX_MANTISSA
    &&& scale <= MAX_SCALE
}

/// Ten to the power of `digits`.
pub open spec fn ten_to(digits: int) -> int
    recommends
        digits >= 0,
{
    pow(10, digits as nat)
}

/// The value of `mantissa * 10^-scale`, counted in units of `10^-28`: always a whole number.
pub open spec fn value_of(mantissa: i128, scale: u32) -> int {
    mantissa * ten_to(MAX_SCALE - scale)
}

/// A mantissa, a scale, and whether the sign is negative. The sign is that of the mantissa; a zero
/// may have either.
pub type Parts = (i128, u32, bool);

/// Whether parts are within the limits of a [`Decimal`] and the sign is that of the mantissa.
pub open spec fn proper(p: Parts) -> bool {
    &&& representable(p.0, p.1)
    &&& (p.0 > 0 ==> !p.2)
    &&& (p.0 < 0 ==> p.2)
}

/// The value of parts, in units of `10^-28`.
pub open spec fn value_at(p: Parts) -> int {
    value_of(p.0, p.1)
}

/// The value of parts that may be missing.
pub open spec fn value_in(r: Option<Parts>) -> Option<int> {
    match r {
        Some(p) => Some(value_at(p)),
        None => None,
    }
}

/// A decimal number: `mantissa * 10^-scale`.
///
/// Two decimals are equal when they have the same value: `1.5` equals `1.50`. Zero has a sign, which
/// shows only where it is printed.
#[derive(Debug, Clone, Copy)]
pub struct Decimal {
    mantissa: i128,
    scale: u32,
    negative: bool,
}

impl Decimal {
    #[verifier::type_invariant]
    closed spec fn within_limits(self) -> bool {
        proper((self.mantissa, self.scale, self.negative))
    }

    /// The mantissa, as contracts see it.
    pub closed spec fn spec_mantissa(self) -> i128 {
        self.mantissa
    }

    /// The scale, as contracts see it.
    pub closed spec fn spec_scale(self) -> u32 {
        self.scale
    }

    /// Whether the sign is negative, as contracts see it.
    pub closed spec fn spec_negative(self) -> bool {
        self.negative
    }

    /// Mantissa, scale and sign together.
    pub open spec fn parts(self) -> Parts {
        (self.spec_mantissa(), self.spec_scale(), self.spec_negative())
    }

    /// The exact value, in units of `10^-28`.
    pub open spec fn value(self) -> int {
        value_of(self.spec_mantissa(), self.spec_scale())
    }

    /// Builds `mantissa * 10^-scale`, or `None` where one of the two is out of range. A mantissa of
    /// zero gives a positive zero.
    pub fn from_parts(mantissa: i128, scale: u32) -> (d: Option<Decimal>)
        ensures
            d is Some <==> representable(mantissa, scale),
            d matches Some(d) ==> d.parts() == (mantissa, scale, mantissa < 0),
    {
        if scale <= MAX_SCALE && -MAX_MANTISSA <= mantissa && mantissa <= MAX_MANTISSA {
            Some(Decimal { mantissa, scale, negative: mantissa < 0 })
        } else {
            None
        }
    }

    /// The same digits with the given sign.
    pub fn with_sign(self, negative: bool) -> (d: Decimal)
        ensures
            magnitude(d.spec_mantissa() as int) == magnitude(self.spec_mantissa() as int),
            d.spec_scale() == self.spec_scale(),
            d.spec_negative() == negative,
            d.spec_mantissa() > 0 ==> !negative,
            d.spec_mantissa() < 0 ==> negative,
    {
        proof {
            use_type_invariant(&self);
        }
        let mantissa: i128 = if (self.mantissa < 0) == negative {
            self.mantissa
        } else {
            -self.mantissa
        };
        Decimal { mantissa, scale: self.scale, negative }
    }

    /// The mantissa, with its sign.
    pub fn mantissa(&self) -> (m: i128)
        ensures
            m == self.spec_mantissa(),
            -MAX_MANTISSA <= m <= MAX_MANTISSA,
    {
        proof {
            use_type_invariant(self);
        }
        self.mantissa
    }

    /// The number of digits behind the decimal point.
    pub fn scale(&self) -> (s: u32)
        ensures
            s == self.spec_scale(),
            s <= MAX_SCALE,
    {
        proof {
            use_type_invariant(self);
        }
        self.scale
    }

    /// Whether the sign is negative. A zero may have either sign.
    pub fn is_sign_negative(&self) -> (r: bool)
        ensures
            r == self.spec_negative(),
            self.spec_mantissa() > 0 ==> !r,
            self.spec_mantissa() < 0 ==> r,
    {
        proof {
            use_type_invariant(self);
        }
        self.negative
    }
}

/// How two values compare.
pub open spec fn order_of(a: int, b: int) -> Ordering {
    if a < b {
        Ordering::Less
    } else if a == b {
        Ordering::Equal
    } else {
        Ordering::Greater
    }
}

/// `rust_decimal::Decimal::cmp`: compares by value, whatever the two scales are and whatever the sign
/// of a zero is.
#[verifier::external_body]
fn compare_parts(a: Parts, b: Parts) -> (o: Ordering)
    requires
        proper(a),
        proper(b),
    ensures
        o == order_of(value_at(a), value_at(b)),
{
    let mut x = rust_decimal::Decimal::from_i128_with_scale(a.0, a.1);
    x.set_sign_negative(a.2);
    let mut y = rust_decimal::Decimal::from_i128_with_scale(b.0, b.1);
    y.set_sign_negative(b.2);
    x.cmp(&y)
}

impl Decimal {
    /// Compares two decimals by value.
    pub fn cmp(&self, other: &Decimal) -> (o: Ordering)
        ensures
            o == order_of(self.value(), other.value()),
    {
        proof {
            use_type_invariant(self);
            use_type_invariant(other);
        }
        compare_parts(
            (self.mantissa, self.scale, self.negative),
            (other.mantissa, other.scale, other.negative),
        )
    }
}

impl PartialEq for Decimal {
    fn eq(&self, other: &Decimal) -> (r: bool) {
        matches!(self.cmp(other), Ordering::Equal)
    }
}

impl vstd::std_specs::cmp::PartialEqSpecImpl for Decimal {
    open spec fn obeys_eq_spec() -> bool {
        true
    }

    open spec fn eq_spec(&self, other: &Decimal) -> bool {
        self.value() == other.value()
    }
}

impl Eq for Decimal {

}

impl PartialOrd for Decimal {
    fn partial_cmp(&self, other: &Decimal) -> (o: Option<Ordering>) {
        Some(self.cmp(other))
    }
}

impl vstd::std_specs::cmp::PartialOrdSpecImpl for Decimal {
    open spec fn obeys_partial_cmp_spec() -> bool {
        true
    }

    open spec fn partial_cmp_spec(&self, other: &Decimal) -> Option<Ordering> {
        Some(order_of(self.value(), other.value()))
    }
}

/// The larger of two scales.
pub open spec fn common_scale(asc: u32, bsc: u32) -> u32 {
    if asc >= bsc {
        asc
    } else {
        bsc
    }
}

/// The mantissa that writes `mantissa * 10^-from` with the larger scale `to`.
pub open spec fn aligned(mantissa: i128, from: u32, to: u32) -> int {
    mantissa * ten_to(to - from)
}

/// Whether an integer is small enough to be a mantissa.
pub open spec fn fits(mantissa: int) -> bool {
    -MAX_MANTISSA <= mantissa <= MAX_MANTISSA
}

/// The magnitude of an integer.
pub open spec fn magnitude(n: int) -> int {
    if n < 0 {
        -n
    } else {
        n
    }
}

/// Whether a value, in units of `10^-28`, is no larger than the largest mantissa once it is rounded
/// to a whole number. A sum or a difference beyond that overflows.
pub open spec fn in_range(v: int) -> bool {
    2 * magnitude(v) < (2 * MAX_MANTISSA + 1) * ten_to(MAX_SCALE as int)
}

/// Whether the value `n / d`, in units of `10^-28`, is no larger than the largest mantissa once it
/// is rounded to a whole number. A product or a quotient beyond that overflows, and nothing is in
/// range where `d` is zero.
pub open spec fn ratio_in_range(n: int, d: int) -> bool {
    2 * magnitude(n) < (2 * MAX_MANTISSA + 1) * ten_to(MAX_SCALE as int) * magnitude(d)
}

/// The whole number nearest to `n / d`, for a positive `d`; of two that are equally near, the even
/// one.
pub open spec fn half_even(n: int, d: int) -> int {
    let down = n / d;
    let twice = 2 * (n % d);
    if twice < d || (twice == d && down % 2 == 0) {
        down
    } else {
        down + 1
    }
}

/// The mantissa that writes `n / d`, in units of `10^-28`, with `scale` digits behind the point, the
/// last of them rounded.
pub open spec fn written_at(n: int, d: int, scale: int) -> int {
    half_even(n, d * ten_to(MAX_SCALE - scale))
}

/// The largest scale, no larger than `most`, at which the mantissa of `n / d` fits.
pub open spec fn largest_scale(n: int, d: int, most: nat) -> nat
    decreases most,
{
    if most == 0 || fits(written_at(n, d, most as int)) {
        most
    } else {
        largest_scale(n, d, (most - 1) as nat)
    }
}

/// As many digits behind the point as `n / d` can have: 28, or where the mantissa has no room for
/// them, as many as fit.
pub open spec fn kept_scale(n: int, d: int) -> nat {
    largest_scale(n, d, MAX_SCALE as nat)
}

/// The value `n / d`, in units of `10^-28`, rounded to as many digits as it can have.
pub open spec fn rounded(n: int, d: int) -> int {
    written_at(n, d, kept_scale(n, d) as int) * ten_to(MAX_SCALE - kept_scale(n, d))
}

/// The value of a sum of two values, or `None` where it overflows.
pub open spec fn sum_value(a: int, b: int) -> Option<int> {
    if in_range(a + b) {
        Some(rounded(a + b, 1))
    } else {
        None
    }
}

/// The value of a product of two values, or `None` where it overflows.
pub open spec fn product_value(a: int, b: int) -> Option<int> {
    if ratio_in_range(a * b, ten_to(MAX_SCALE as int)) {
        Some(rounded(a * b, ten_to(MAX_SCALE as int)))
    } else {
        None
    }
}

/// The value of a quotient of two values, rounded to as many digits as it can have, of two values
/// that are equally near to the even one; `None` where it overflows or the divisor is zero.
pub open spec fn quotient_value(a: int, b: int) -> Option<int> {
    let n = a * ten_to(MAX_SCALE as int);
    if !ratio_in_range(n, b) {
        None
    } else if b > 0 {
        Some(rounded(n, b))
    } else {
        Some(rounded(-n, -b))
    }
}

/// Whether `v` is a value nearest to `n / d`, for a positive `d`, among those that have as many
/// digits as `n / d` can have. Where two are equally near, either is.
pub open spec fn is_nearest(v: int, n: int, d: int) -> bool {
    let unit = ten_to(MAX_SCALE - kept_scale(n, d));
    &&& v % unit == 0
    &&& 2 * magnitude(v * d - n) <= d * unit
}

/// Whether a mantissa has no more than 64 bits.
pub open spec fn narrow(p: Parts) -> bool {
    magnitude(p.0 as int) < 0x1_0000_0000_0000_0000
}

/// Whether `r` is the value of the quotient of `a` and `b`, or `None` where it overflows or the
/// divisor is zero. Of two values that are equally near to the quotient it is the even one where
/// `to_even` says so, and otherwise either.
pub open spec fn is_quotient(r: Option<int>, a: int, b: int, to_even: bool) -> bool {
    let n = a * ten_to(MAX_SCALE as int);
    &&& r is Some <==> ratio_in_range(n, b)
    &&& r matches Some(v) ==> if b > 0 {
        is_nearest(v, n, b)
    } else {
        is_nearest(v, -n, -b)
    }
    &&& to_even ==> r == quotient_value(a, b)
}

/// The parts with the opposite sign. A zero keeps its sign.
pub open spec fn negated(p: Parts) -> Parts {
    if p.0 == 0 {
        p
    } else {
        ((-p.0) as i128, p.1, !p.2)
    }
}

/// The smaller of a scale and the scale that a result can have.
pub open spec fn scale_within(scale: int, n: int, d: int) -> int {
    if scale <= kept_scale(n, d) {
        scale
    } else {
        kept_scale(n, d) as int
    }
}

/// Whether `r` is the sum of `a` and `b`.
///
/// Where an operand is zero, the sum is the other one. Otherwise it has as many digits behind the
/// point as the operand that has more of them, or as many as fit, and a sum of zero is positive.
pub open spec fn is_sum(r: Option<Parts>, a: Parts, b: Parts) -> bool {
    let v = value_at(a) + value_at(b);
    &&& value_in(r) == sum_value(value_at(a), value_at(b))
    &&& r matches Some(p) ==> if a.0 == 0 {
        p == b
    } else if b.0 == 0 {
        p == a
    } else {
        &&& p.1 == scale_within(common_scale(a.1, b.1) as int, v, 1)
        &&& p.2 == (p.0 < 0)
    }
}

/// The parts of the sum of `a` and `b`, as [`is_sum`] says.
pub open spec fn sum_of(a: Parts, b: Parts) -> Option<Parts> {
    let v = value_at(a) + value_at(b);
    let scale = scale_within(common_scale(a.1, b.1) as int, v, 1);
    let mantissa = rounded(v, 1) / ten_to(MAX_SCALE - scale);
    if !in_range(v) {
        None
    } else if a.0 == 0 {
        Some(b)
    } else if b.0 == 0 {
        Some(a)
    } else {
        Some((mantissa as i128, scale as u32, mantissa < 0))
    }
}

/// Whether parts differ from a value by no more than half a unit of their last digit.
pub open spec fn is_close(p: Parts, v: int) -> bool {
    2 * magnitude(value_at(p) - v) <= ten_to(MAX_SCALE - p.1)
}

/// Whether a sum (or, with `sign` `-1`, a difference) needs no rounding: one operand is zero, or
/// the result fits when it is written with the larger of the two scales.
pub open spec fn adds_exactly(am: i128, asc: u32, bm: i128, bsc: u32, sign: int) -> bool {
    let scale = common_scale(asc, bsc);
    am == 0 || bm == 0 || fits(aligned(am, asc, scale) + sign * aligned(bm, bsc, scale))
}

/// What `rust_decimal::Decimal::checked_mul` gives on two decimals, as parts.
pub uninterp spec fn product_parts(a: Parts, b: Parts) -> Option<Parts>;

/// What `rust_decimal::Decimal::checked_div` gives on two decimals, as parts.
pub uninterp spec fn quotient_parts(a: Parts, b: Parts) -> Option<Parts>;

/// `rust_decimal::Decimal::checked_add`: the sum, as [`is_sum`] says; `None` where it is out of
/// range.
#[verifier::external_body]
fn add_parts(a: Parts, b: Parts) -> (r: Option<Parts>)
    requires
        proper(a),
        proper(b),
    ensures
        r matches Some(p) ==> proper(p),
        is_sum(r, a, b),
{
    let mut x = rust_decimal::Decimal::from_i128_with_scale(a.0, a.1);
    x.set_sign_negative(a.2);
    let mut y = rust_decimal::Decimal::from_i128_with_scale(b.0, b.1);
    y.set_sign_negative(b.2);
    x.checked_add(y).map(|d| (d.mantissa(), d.scale(), d.is_sign_negative()))
}

/// `rust_decimal::Decimal::checked_sub`: the difference, which is the sum with the second operand
/// negated; `None` where it is out of range.
#[verifier::external_body]
fn sub_parts(a: Parts, b: Parts) -> (r: Option<Parts>)
    requires
        proper(a),
        proper(b),
    ensures
        r matches Some(p) ==> proper(p),
        is_sum(r, a, negated(b)),
{
    let mut x = rust_decimal::Decimal::from_i128_with_scale(a.0, a.1);
    x.set_sign_negative(a.2);
    let mut y = rust_decimal::Decimal::from_i128_with_scale(b.0, b.1);
    y.set_sign_negative(b.2);
    x.checked_sub(y).map(|d| (d.mantissa(), d.scale(), d.is_sign_negative()))
}

/// `rust_decimal::Decimal::checked_mul`: the product, rounded to as many digits as it can have, or
/// `None` where it is out of range. Where a factor is zero the product is a positive zero without
/// digits behind the point. A product that is not zero has the digits of both factors together, or as
/// many as it can have. The digits and the sign of a product that is rounded to zero are left to the
/// name.
#[verifier::external_body]
fn mul_parts(a: Parts, b: Parts) -> (r: Option<Parts>)
    requires
        proper(a),
        proper(b),
    ensures
        r == product_parts(a, b),
        r matches Some(p) ==> proper(p),
        value_in(r) == product_value(value_at(a), value_at(b)),
        a.0 == 0 || b.0 == 0 ==> r == Some((0i128, 0u32, false)),
        r matches Some(p) ==> (p.0 != 0 ==> p.1 == scale_within(
            a.1 + b.1,
            value_at(a) * value_at(b),
            ten_to(MAX_SCALE as int),
        )),
{
    let mut x = rust_decimal::Decimal::from_i128_with_scale(a.0, a.1);
    x.set_sign_negative(a.2);
    let mut y = rust_decimal::Decimal::from_i128_with_scale(b.0, b.1);
    y.set_sign_negative(b.2);
    x.checked_mul(y).map(|d| (d.mantissa(), d.scale(), d.is_sign_negative()))
}

/// `rust_decimal::Decimal::checked_div`: the quotient, rounded to the nearest of as many digits as it
/// can have; `None` where the divisor is zero or the quotient is out of range. A quotient of zero is
/// positive, and without digits behind the point where the dividend is zero. Of two values that are
/// equally near, the even one is taken where the mantissa of the divisor has no more than 64 bits;
/// with a longer one it may be the other. Which of them it is then, and how many zeros a quotient has
/// at its end, is left to the name.
#[verifier::external_body]
fn div_parts(a: Parts, b: Parts) -> (r: Option<Parts>)
    requires
        proper(a),
        proper(b),
    ensures
        r == quotient_parts(a, b),
        r matches Some(p) ==> proper(p),
        is_quotient(value_in(r), value_at(a), value_at(b), narrow(b)),
        a.0 == 0 && b.0 != 0 ==> r == Some((0i128, 0u32, false)),
        r matches Some(p) ==> (p.0 == 0 ==> !p.2),
{
    let mut x = rust_decimal::Decimal::from_i128_with_scale(a.0, a.1);
    x.set_sign_negative(a.2);
    let mut y = rust_decimal::Decimal::from_i128_with_scale(b.0, b.1);
    y.set_sign_negative(b.2);
    x.checked_div(y).map(|d| (d.mantissa(), d.scale(), d.is_sign_negative()))
}

/// Whether `r` is `p` brought to `scale` digits behind the point.
///
/// Digits that are too many are rounded away, halves away from zero. Where digits are to be added
/// and the mantissa has no room for all of them, as many are added as fit. The sign stays, also where
/// the mantissa becomes zero.
pub open spec fn is_rescaled(p: Parts, scale: u32, r: Parts) -> bool {
    &&& r.2 == p.2
    &&& if p.0 == 0 {
        r.0 == 0 && r.1 == scale
    } else if p.1 > scale {
        let unit = ten_to(p.1 - scale);
        &&& r.1 == scale
        &&& magnitude(r.0 as int) == (magnitude(p.0 as int) + unit / 2) / unit
        &&& (p.0 > 0 ==> r.0 >= 0)
        &&& (p.0 < 0 ==> r.0 <= 0)
    } else {
        &&& p.1 <= r.1 <= scale
        &&& r.0 == aligned(p.0, p.1, r.1)
        &&& (r.1 == scale || !fits(r.0 * 10))
    }
}

/// A decimal that is brought to `scale` digits stays within half a unit of the last of them, and
/// keeps its value where it had no more digits than that.
pub proof fn law_rescaling_stays_close(p: Parts, scale: u32, r: Parts)
    requires
        p.1 <= MAX_SCALE,
        scale <= MAX_SCALE,
        is_rescaled(p, scale, r),
    ensures
        r.1 <= scale,
        2 * magnitude(value_at(r) - value_at(p)) <= ten_to(MAX_SCALE - scale),
        p.1 <= scale ==> value_at(r) == value_at(p),
{
    let (m, sc, _) = p;
    let (rm, rsc, _) = r;
    lemma_pow_positive(10, (MAX_SCALE - scale) as nat);
    if m == 0 {
        assert(value_of(0, sc) == 0 && value_of(0, rsc) == 0);
    } else if sc > scale {
        let unit = ten_to(sc - scale);
        let rest = ten_to(MAX_SCALE - sc);
        lemma_pow_adds(10, (sc - scale) as nat, (MAX_SCALE - sc) as nat);
        lemma_pow_positive(10, (sc - scale) as nat);
        lemma_pow_positive(10, (MAX_SCALE - sc) as nat);
        lemma_pow1(10);
        let a = magnitude(m as int);
        let r = magnitude(rm as int);
        // `unit` is even, so half of it is exact.
        let tenth = pow(10, (sc - scale - 1) as nat);
        lemma_pow_adds(10, 1, (sc - scale - 1) as nat);
        assert(unit == 10 * tenth);
        let half = unit / 2;
        assert(2 * half == unit);
        lemma_fundamental_div_mod(a + half, unit);
        assert(r * unit - half <= a + half - half && a <= r * unit + half) by (nonlinear_arith)
            requires
                a + half == unit * r + (a + half) % unit,
                0 <= (a + half) % unit < unit,
                2 * half == unit,
                unit > 0,
        ;
        let d = r * unit - a;
        assert(-half <= d <= half);
        assert(value_of(rm, rsc) == rm * (unit * rest));
        assert(rm * (unit * rest) - m * rest == (rm * unit - m) * rest) by (nonlinear_arith);
        assert(magnitude(rm * unit - m) == magnitude(d)) by (nonlinear_arith)
            requires
                d == r * unit - a,
                m > 0 ==> rm >= 0 && a == m && r == rm,
                m < 0 ==> rm <= 0 && a == -m && r == -rm,
                m != 0,
        ;
        assert(2 * magnitude((rm * unit - m) * rest) <= unit * rest) by (nonlinear_arith)
            requires
                2 * magnitude(rm * unit - m) <= unit,
                rest > 0,
        ;
    } else {
        let more = ten_to(rsc - sc);
        let rest = ten_to(MAX_SCALE - rsc);
        lemma_pow_adds(10, (rsc - sc) as nat, (MAX_SCALE - rsc) as nat);
        assert((m * more) * rest == m * (more * rest)) by (nonlinear_arith);
    }
}

/// `rust_decimal::Decimal::rescale`: brings a decimal to `scale` digits behind the point, as
/// [`is_rescaled`] says.
#[verifier::external_body]
fn rescale_parts(p: Parts, scale: u32) -> (r: Parts)
    requires
        proper(p),
        scale <= MAX_SCALE,
    ensures
        proper(r),
        is_rescaled(p, scale, r),
{
    let mut d = rust_decimal::Decimal::from_i128_with_scale(p.0, p.1);
    d.set_sign_negative(p.2);
    d.rescale(scale);
    (d.mantissa(), d.scale(), d.is_sign_negative())
}

/// The whole number nearest to `k * d / d` is `k`.
proof fn lemma_half_even_exact(k: int, d: int)
    requires
        d > 0,
    ensures
        half_even(k * d, d) == k,
{
    lemma_div_multiples_vanish(k, d);
    lemma_mod_multiples_basic(k, d);
    assert(d * k == k * d) by (nonlinear_arith);
}

/// The nearest whole number is at most half away.
proof fn lemma_half_even_close(n: int, d: int)
    requires
        d > 0,
    ensures
        2 * magnitude(half_even(n, d) * d - n) <= d,
{
    lemma_fundamental_div_mod(n, d);
    let down = n / d;
    assert(down * d == d * down && (down + 1) * d == down * d + d) by (nonlinear_arith);
}

/// A scale at which the mantissa fits is no larger than the largest.
proof fn lemma_largest_scale(n: int, d: int, most: nat, scale: nat)
    requires
        scale <= most,
        fits(written_at(n, d, scale as int)),
    ensures
        scale <= largest_scale(n, d, most),
    decreases most,
{
    if most > scale {
        lemma_largest_scale(n, d, (most - 1) as nat, scale);
    }
}

/// The largest scale is no larger than what it is chosen from.
proof fn lemma_largest_scale_bound(n: int, d: int, most: nat)
    ensures
        largest_scale(n, d, most) <= most,
    decreases most,
{
    if most > 0 {
        lemma_largest_scale_bound(n, d, (most - 1) as nat);
    }
}

/// Results that a decimal can hold are exact: where `n / d` is `mantissa * 10^-scale`, within the
/// limits of a decimal, rounding leaves it as it is and keeps at least these digits.
pub proof fn law_exact_results_are_kept(n: int, d: int, mantissa: int, scale: int)
    requires
        d > 0,
        fits(mantissa),
        0 <= scale <= MAX_SCALE,
        n == mantissa * ten_to(MAX_SCALE - scale) * d,
    ensures
        rounded(n, d) == mantissa * ten_to(MAX_SCALE - scale),
        scale <= kept_scale(n, d) <= MAX_SCALE,
{
    let unit = ten_to(MAX_SCALE - scale);
    lemma_pow_positive(10, (MAX_SCALE - scale) as nat);
    assert(d * unit > 0) by (nonlinear_arith)
        requires
            d > 0,
            unit > 0,
    ;
    assert(mantissa * unit * d == mantissa * (d * unit)) by (nonlinear_arith);
    lemma_half_even_exact(mantissa, d * unit);
    assert(written_at(n, d, scale) == mantissa);
    lemma_largest_scale(n, d, MAX_SCALE as nat, scale as nat);
    lemma_largest_scale_bound(n, d, MAX_SCALE as nat);
    let kept = kept_scale(n, d);
    let rest = ten_to(MAX_SCALE - kept);
    let more = ten_to(kept - scale);
    lemma_pow_positive(10, (MAX_SCALE - kept) as nat);
    lemma_pow_adds(10, (kept - scale) as nat, (MAX_SCALE - kept) as nat);
    assert(unit == more * rest);
    assert(d * rest > 0) by (nonlinear_arith)
        requires
            d > 0,
            rest > 0,
    ;
    assert(mantissa * (more * rest) * d == (mantissa * more) * (d * rest)) by (nonlinear_arith);
    lemma_half_even_exact(mantissa * more, d * rest);
    assert((mantissa * more) * rest == mantissa * (more * rest)) by (nonlinear_arith);
}

/// A result differs from `n / d` by no more than half a unit of the last digit that it can have.
pub proof fn law_results_are_close(n: int, d: int)
    requires
        d > 0,
    ensures
        2 * magnitude(rounded(n, d) * d - n) <= d * ten_to(MAX_SCALE - kept_scale(n, d)),
{
    lemma_largest_scale_bound(n, d, MAX_SCALE as nat);
    let kept = kept_scale(n, d);
    let rest = ten_to(MAX_SCALE - kept);
    let m = written_at(n, d, kept as int);
    lemma_pow_positive(10, (MAX_SCALE - kept) as nat);
    assert(d * rest > 0) by (nonlinear_arith)
        requires
            d > 0,
            rest > 0,
    ;
    lemma_half_even_close(n, d * rest);
    assert((m * rest) * d == m * (d * rest)) by (nonlinear_arith);
}

/// An exact quotient is returned as it is: where `v` times the divisor is the dividend, and a decimal
/// can hold `v`, the quotient has the value `v`.
pub proof fn law_exact_quotients_are_kept(
    r: Option<int>,
    a: int,
    b: int,
    to_even: bool,
    mantissa: i128,
    scale: u32,
)
    requires
        b != 0,
        is_quotient(r, a, b, to_even),
        representable(mantissa, scale),
        value_of(mantissa, scale) * b == a * ten_to(MAX_SCALE as int),
    ensures
        r == Some(value_of(mantissa, scale)),
{
    let v = value_of(mantissa, scale);
    let unit = ten_to(MAX_SCALE - scale);
    let whole = ten_to(MAX_SCALE as int);
    let size = magnitude(b);
    lemma_pow_increases(10, (MAX_SCALE - scale) as nat, MAX_SCALE as nat);
    lemma_pow_positive(10, (MAX_SCALE - scale) as nat);
    assert(2 * magnitude(v) < (2 * MAX_MANTISSA + 1) * whole) by (nonlinear_arith)
        requires
            v == mantissa * unit,
            -MAX_MANTISSA <= mantissa <= MAX_MANTISSA,
            0 < unit <= whole,
            MAX_MANTISSA > 0,
    ;
    assert(magnitude(v * b) == magnitude(v) * size) by (nonlinear_arith)
        requires
            size == magnitude(b),
    ;
    assert(2 * (magnitude(v) * size) < (2 * MAX_MANTISSA + 1) * whole * size) by (nonlinear_arith)
        requires
            2 * magnitude(v) < (2 * MAX_MANTISSA + 1) * whole,
            size > 0,
    ;
    if b > 0 {
        lemma_exact_is_nearest(r.unwrap(), b, mantissa, scale);
    } else {
        assert(-(v * b) == v * (-b)) by (nonlinear_arith);
        lemma_exact_is_nearest(r.unwrap(), -b, mantissa, scale);
    }
}

/// Where `n / d` is a value that a decimal can hold, no other is nearest.
proof fn lemma_exact_is_nearest(v: int, d: int, mantissa: i128, scale: u32)
    requires
        d > 0,
        representable(mantissa, scale),
        is_nearest(v, value_of(mantissa, scale) * d, d),
    ensures
        v == value_of(mantissa, scale),
{
    let w = value_of(mantissa, scale);
    let n = w * d;
    law_exact_results_are_kept(n, d, mantissa as int, scale as int);
    let kept = kept_scale(n, d);
    let unit = ten_to(MAX_SCALE - kept);
    let m = written_at(n, d, kept as int);
    lemma_pow_positive(10, (MAX_SCALE - kept) as nat);
    assert(w == m * unit);
    lemma_fundamental_div_mod(v, unit);
    let k = v / unit;
    assert(v == k * unit) by (nonlinear_arith)
        requires
            v == unit * k + v % unit,
            v % unit == 0,
    ;
    assert(2 * magnitude(v - w) <= unit) by (nonlinear_arith)
        requires
            2 * magnitude(v * d - w * d) <= d * unit,
            d > 0,
    {
        assert(v * d - w * d == (v - w) * d);
        assert(magnitude((v - w) * d) == magnitude(v - w) * d);
    }
    assert(k == m) by (nonlinear_arith)
        requires
            2 * magnitude(k * unit - m * unit) <= unit,
            unit > 0,
    {
        assert(k * unit - m * unit == (k - m) * unit);
        if k > m {
            assert((k - m) * unit >= unit);
        } else if k < m {
            assert((m - k) * unit >= unit);
        }
    }
}

/// Brought to a common scale, a decimal keeps its value.
proof fn lemma_aligned_value(mantissa: i128, from: u32, to: u32)
    requires
        from <= to <= MAX_SCALE,
    ensures
        aligned(mantissa, from, to) * ten_to(MAX_SCALE - to) == value_of(mantissa, from),
{
    let more = ten_to(to - from);
    let rest = ten_to(MAX_SCALE - to);
    lemma_pow_adds(10, (to - from) as nat, (MAX_SCALE - to) as nat);
    assert((mantissa * more) * rest == mantissa * (more * rest)) by (nonlinear_arith);
}

/// A mantissa is determined by its value and scale.
proof fn lemma_same_mantissa(m: int, k: int, scale: int)
    requires
        0 <= scale <= MAX_SCALE,
        m * ten_to(MAX_SCALE - scale) == k * ten_to(MAX_SCALE - scale),
    ensures
        m == k,
{
    let unit = ten_to(MAX_SCALE - scale);
    lemma_pow_positive(10, (MAX_SCALE - scale) as nat);
    assert(m == k) by (nonlinear_arith)
        requires
            m * unit == k * unit,
            unit > 0,
    ;
}

/// A sum that needs no rounding is exact, and where neither operand is zero it is written with the
/// larger of the two scales.
pub proof fn law_sums_are_exact(r: Option<Parts>, a: Parts, b: Parts)
    requires
        proper(a),
        proper(b),
        is_sum(r, a, b),
        adds_exactly(a.0, a.1, b.0, b.1, 1),
    ensures
        value_in(r) == Some(value_at(a) + value_at(b)),
        a.0 != 0 && b.0 != 0 ==> (r matches Some(p) && p.1 == common_scale(a.1, b.1) && p.0
            == aligned(a.0, a.1, p.1) + aligned(b.0, b.1, p.1)),
{
    let common = common_scale(a.1, b.1);
    let (m, scale): (int, u32) = if a.0 == 0 {
        (b.0 as int, b.1)
    } else if b.0 == 0 {
        (a.0 as int, a.1)
    } else {
        (aligned(a.0, a.1, common) + aligned(b.0, b.1, common), common)
    };
    let unit = ten_to(MAX_SCALE - scale);
    let v = value_at(a) + value_at(b);
    lemma_zero_value(a.0, a.1);
    lemma_zero_value(b.0, b.1);
    if a.0 != 0 && b.0 != 0 {
        lemma_aligned_value(a.0, a.1, common);
        lemma_aligned_value(b.0, b.1, common);
        assert(m * unit == aligned(a.0, a.1, common) * unit + aligned(b.0, b.1, common) * unit)
            by (nonlinear_arith)
            requires
                m == aligned(a.0, a.1, common) + aligned(b.0, b.1, common),
        ;
    }
    assert(v == m * unit);
    law_exact_results_are_kept(v, 1, m, scale as int);
    let whole = ten_to(MAX_SCALE as int);
    lemma_pow_increases(10, (MAX_SCALE - scale) as nat, MAX_SCALE as nat);
    lemma_pow_positive(10, (MAX_SCALE - scale) as nat);
    assert(2 * magnitude(v) < (2 * MAX_MANTISSA + 1) * whole) by (nonlinear_arith)
        requires
            v == m * unit,
            -MAX_MANTISSA <= m <= MAX_MANTISSA,
            0 < unit <= whole,
            MAX_MANTISSA > 0,
    ;
    if a.0 != 0 && b.0 != 0 {
        lemma_same_mantissa(r.unwrap().0 as int, m, common as int);
    }
}

/// What a sum is determines its parts.
proof fn lemma_sum_of(r: Option<Parts>, a: Parts, b: Parts)
    requires
        is_sum(r, a, b),
        r matches Some(p) ==> proper(p),
    ensures
        r == sum_of(a, b),
{
    if let Some(p) = r {
        let unit = ten_to(MAX_SCALE - p.1);
        lemma_pow_positive(10, (MAX_SCALE - p.1) as nat);
        lemma_div_multiples_vanish(p.0 as int, unit);
        assert(unit * p.0 == p.0 * unit) by (nonlinear_arith);
    }
}

/// A sum differs from its exact value by no more than half a unit of its own last digit.
pub proof fn law_sums_are_close(r: Parts, a: Parts, b: Parts)
    requires
        proper(a),
        proper(b),
        r.1 <= MAX_SCALE,
        is_sum(Some(r), a, b),
    ensures
        is_close(r, value_at(a) + value_at(b)),
{
    let v = value_at(a) + value_at(b);
    if a.0 == 0 || b.0 == 0 {
        lemma_zero_value(a.0, a.1);
        lemma_zero_value(b.0, b.1);
        lemma_pow_positive(10, (MAX_SCALE - r.1) as nat);
    } else {
        law_results_are_close(v, 1);
        lemma_largest_scale_bound(v, 1, MAX_SCALE as nat);
        lemma_pow_increases(10, (MAX_SCALE - kept_scale(v, 1)) as nat, (MAX_SCALE - r.1) as nat);
    }
}

/// A product whose digits fit is exact, digit for digit.
proof fn lemma_product_exact(p: Parts, a: Parts, b: Parts)
    requires
        proper(a),
        proper(b),
        a.0 != 0,
        b.0 != 0,
        fits(a.0 * b.0),
        a.1 + b.1 <= MAX_SCALE,
    ensures
        product_value(value_at(a), value_at(b)) == Some(
            (a.0 * b.0) * ten_to(MAX_SCALE - (a.1 + b.1)),
        ),
        kept_scale(value_at(a) * value_at(b), ten_to(MAX_SCALE as int)) >= a.1 + b.1,
        value_at(p) == (a.0 * b.0) * ten_to(MAX_SCALE - (a.1 + b.1)) ==> p.0 != 0,
        value_at(p) == (a.0 * b.0) * ten_to(MAX_SCALE - (a.1 + b.1)) && p.1 == a.1 + b.1 ==> p.0
            == a.0 * b.0,
{
    let m = a.0 * b.0;
    let scale = a.1 + b.1;
    let unit = ten_to(MAX_SCALE - scale);
    let whole = ten_to(MAX_SCALE as int);
    let ua = ten_to(MAX_SCALE - a.1);
    let ub = ten_to(MAX_SCALE - b.1);
    lemma_pow_positive(10, (MAX_SCALE - scale) as nat);
    lemma_pow_adds(10, (MAX_SCALE - a.1) as nat, (MAX_SCALE - b.1) as nat);
    lemma_pow_adds(10, (MAX_SCALE - scale) as nat, MAX_SCALE as nat);
    assert(ua * ub == unit * whole);
    assert((a.0 * ua) * (b.0 * ub) == (a.0 * b.0) * (ua * ub)) by (nonlinear_arith);
    assert(m * (unit * whole) == m * unit * whole) by (nonlinear_arith);
    let n = value_at(a) * value_at(b);
    assert(n == m * unit * whole);
    lemma_pow_positive(10, MAX_SCALE as nat);
    law_exact_results_are_kept(n, whole, m, scale);
    lemma_pow_increases(10, (MAX_SCALE - scale) as nat, MAX_SCALE as nat);
    assert(2 * magnitude(n) < (2 * MAX_MANTISSA + 1) * whole * magnitude(whole)) by (nonlinear_arith)
        requires
            n == m * unit * whole,
            -MAX_MANTISSA <= m <= MAX_MANTISSA,
            0 < unit <= whole,
            MAX_MANTISSA > 0,
    {
        let v = m * unit;
        assert(2 * magnitude(v) < (2 * MAX_MANTISSA + 1) * whole);
        assert(magnitude(v * whole) == magnitude(v) * whole);
    }
    assert(m != 0) by (nonlinear_arith)
        requires
            m == a.0 * b.0,
            a.0 != 0,
            b.0 != 0,
    ;
    assert(m * unit != 0) by (nonlinear_arith)
        requires
            m != 0,
            unit > 0,
    ;
    if p.1 == scale && value_at(p) == m * unit {
        lemma_same_mantissa(p.0 as int, m, scale);
    }
}

impl Decimal {
    /// Zero.
    pub fn zero() -> (d: Decimal)
        ensures
            d.parts() == (0i128, 0u32, false),
            d.value() == 0,
    {
        Decimal { mantissa: 0, scale: 0, negative: false }
    }

    /// Two.
    pub fn two() -> (d: Decimal)
        ensures
            d.parts() == (2i128, 0u32, false),
    {
        Decimal { mantissa: 2, scale: 0, negative: false }
    }

    /// Whether the value is zero.
    pub fn is_zero(&self) -> (r: bool)
        ensures
            r == (self.value() == 0),
            r == (self.spec_mantissa() == 0),
    {
        proof {
            use_type_invariant(self);
            lemma_zero_value(self.mantissa, self.scale);
        }
        self.mantissa == 0
    }

    /// Whether `self + sign * other` needs no rounding.
    pub open spec fn adds_exactly_to(self, other: Decimal, sign: int) -> bool {
        adds_exactly(
            self.spec_mantissa(),
            self.spec_scale(),
            other.spec_mantissa(),
            other.spec_scale(),
            sign,
        )
    }

    /// The sum, or `None` where it overflows.
    pub fn checked_add(self, other: Decimal) -> (r: Option<Decimal>)
        ensures
            is_sum(parts_of(r), self.parts(), other.parts()),
            parts_of(r) == sum_of(self.parts(), other.parts()),
            r is Some <==> in_range(self.value() + other.value()),
            self.adds_exactly_to(other, 1) ==> (r matches Some(d) && d.value() == self.value()
                + other.value()),
            r matches Some(d) ==> is_close(d.parts(), self.value() + other.value()),
    {
        proof {
            use_type_invariant(&self);
            use_type_invariant(&other);
        }
        let r = add_parts(
            (self.mantissa, self.scale, self.negative),
            (other.mantissa, other.scale, other.negative),
        );
        proof {
            lemma_sum_of(r, self.parts(), other.parts());
            if self.adds_exactly_to(other, 1) {
                law_sums_are_exact(r, self.parts(), other.parts());
            }
            if let Some(p) = r {
                law_sums_are_close(p, self.parts(), other.parts());
            }
        }
        Decimal::from_result(r)
    }

    /// The difference, or `None` where it overflows.
    pub fn checked_sub(self, other: Decimal) -> (r: Option<Decimal>)
        ensures
            is_sum(parts_of(r), self.parts(), negated(other.parts())),
            value_in(parts_of(r)) == sum_value(self.value(), -other.value()),
            r is Some <==> in_range(self.value() - other.value()),
            self.adds_exactly_to(other, -1) ==> (r matches Some(d) && d.value() == self.value()
                - other.value()),
            r matches Some(d) ==> is_close(d.parts(), self.value() - other.value()),
    {
        proof {
            use_type_invariant(&self);
            use_type_invariant(&other);
            lemma_negated(other.parts());
        }
        let r = sub_parts(
            (self.mantissa, self.scale, self.negative),
            (other.mantissa, other.scale, other.negative),
        );
        proof {
            if self.adds_exactly_to(other, -1) {
                lemma_subtracts_exactly(self.parts(), other.parts());
                law_sums_are_exact(r, self.parts(), negated(other.parts()));
            }
            if let Some(p) = r {
                law_sums_are_close(p, self.parts(), negated(other.parts()));
            }
        }
        Decimal::from_result(r)
    }

    /// The product, or `None` where it overflows.
    pub fn checked_mul(self, other: Decimal) -> (r: Option<Decimal>)
        ensures
            parts_of(r) == product_parts(self.parts(), other.parts()),
            value_in(parts_of(r)) == product_value(self.value(), other.value()),
            self.value() == 0 || other.value() == 0 ==> (r matches Some(d) && d.parts() == (
                0i128,
                0u32,
                false,
            )),
            r matches Some(d) ==> (d.value() != 0 ==> d.spec_scale() == scale_within(
                self.spec_scale() + other.spec_scale(),
                self.value() * other.value(),
                ten_to(MAX_SCALE as int),
            )),
            self.value() != 0 && other.value() != 0 && fits(
                self.spec_mantissa() * other.spec_mantissa(),
            ) && self.spec_scale() + other.spec_scale() <= MAX_SCALE ==> (r matches Some(d)
                && d.spec_mantissa() == self.spec_mantissa() * other.spec_mantissa()
                && d.spec_scale() == self.spec_scale() + other.spec_scale()),
    {
        proof {
            use_type_invariant(&self);
            use_type_invariant(&other);
            lemma_zero_value(self.mantissa, self.scale);
            lemma_zero_value(other.mantissa, other.scale);
        }
        let r = mul_parts(
            (self.mantissa, self.scale, self.negative),
            (other.mantissa, other.scale, other.negative),
        );
        proof {
            if let Some(p) = r {
                lemma_zero_value(p.0, p.1);
            }
            if self.mantissa != 0 && other.mantissa != 0 && fits(self.mantissa * other.mantissa)
                && self.scale + other.scale <= MAX_SCALE {
                lemma_product_exact(r.unwrap(), self.parts(), other.parts());
            }
        }
        Decimal::from_result(r)
    }

    /// The quotient, or `None` where it overflows or the divisor is zero.
    pub fn checked_div(self, other: Decimal) -> (r: Option<Decimal>)
        ensures
            parts_of(r) == quotient_parts(self.parts(), other.parts()),
            is_quotient(
                value_in(parts_of(r)),
                self.value(),
                other.value(),
                narrow(other.parts()),
            ),
            other.value() == 0 ==> r is None,
            self.value() == 0 && other.value() != 0 ==> (r matches Some(d) && d.parts() == (
                0i128,
                0u32,
                false,
            )),
            r matches Some(d) ==> (d.spec_negative() <==> d.value() < 0),
    {
        proof {
            use_type_invariant(&self);
            use_type_invariant(&other);
            lemma_zero_value(self.mantissa, self.scale);
            lemma_zero_value(other.mantissa, other.scale);
        }
        let r = div_parts(
            (self.mantissa, self.scale, self.negative),
            (other.mantissa, other.scale, other.negative),
        );
        proof {
            if let Some(p) = r {
                lemma_sign_of_value(p.0, p.1);
            }
            if self.mantissa == 0 && other.mantissa == 0 {
                assert(0 * ten_to(MAX_SCALE as int) == 0) by (nonlinear_arith);
            }
            assert((2 * MAX_MANTISSA + 1) * ten_to(MAX_SCALE as int) * 0 == 0) by (nonlinear_arith);
        }
        Decimal::from_result(r)
    }

    /// The number brought to `scale` digits behind the point, as [`is_rescaled`] says.
    pub fn rescaled(self, scale: u32) -> (d: Decimal)
        requires
            scale <= MAX_SCALE,
        ensures
            is_rescaled(self.parts(), scale, d.parts()),
            proper(self.parts()),
            proper(d.parts()),
    {
        proof {
            use_type_invariant(&self);
        }
        let (mantissa, scale, negative) = rescale_parts(
            (self.mantissa, self.scale, self.negative),
            scale,
        );
        Decimal { mantissa, scale, negative }
    }

    /// A decimal of the parts of a result.
    fn from_result(r: Option<Parts>) -> (d: Option<Decimal>)
        requires
            r matches Some(p) ==> proper(p),
        ensures
            parts_of(d) == r,
    {
        match r {
            Some((mantissa, scale, negative)) => Some(Decimal { mantissa, scale, negative }),
            None => None,
        }
    }
}

/// The parts of a decimal that may be missing.
pub open spec fn parts_of(d: Option<Decimal>) -> Option<Parts> {
    match d {
        Some(d) => Some(d.parts()),
        None => None,
    }
}

/// The opposite sign gives the opposite value.
proof fn lemma_negated(p: Parts)
    requires
        proper(p),
    ensures
        proper(negated(p)),
        value_at(negated(p)) == -value_at(p),
{
    let unit = ten_to(MAX_SCALE - p.1);
    assert((-p.0) * unit == -(p.0 * unit)) by (nonlinear_arith);
    assert(0 * unit == 0) by (nonlinear_arith);
}

/// A difference that needs no rounding is a sum that needs none.
proof fn lemma_subtracts_exactly(a: Parts, b: Parts)
    requires
        proper(a),
        proper(b),
        adds_exactly(a.0, a.1, b.0, b.1, -1),
    ensures
        adds_exactly(a.0, a.1, negated(b).0, negated(b).1, 1),
{
    let more = ten_to(common_scale(a.1, b.1) - b.1);
    assert((-b.0) * more == -(b.0 * more)) by (nonlinear_arith);
}

/// A value has the sign of its mantissa.
proof fn lemma_sign_of_value(mantissa: i128, scale: u32)
    requires
        scale <= MAX_SCALE,
    ensures
        value_of(mantissa, scale) < 0 <==> mantissa < 0,
        value_of(mantissa, scale) == 0 <==> mantissa == 0,
{
    let unit = ten_to(MAX_SCALE - scale);
    lemma_pow_positive(10, (MAX_SCALE - scale) as nat);
    assert((mantissa * unit < 0 <==> mantissa < 0) && (mantissa * unit == 0 <==> mantissa == 0))
        by (nonlinear_arith)
        requires
            unit > 0,
    ;
}

/// A mantissa of zero, and no other, stands for zero.
proof fn lemma_zero_value(mantissa: i128, scale: u32)
    requires
        scale <= MAX_SCALE,
    ensures
        value_of(mantissa, scale) == 0 <==> mantissa == 0,
{
    let unit = ten_to(MAX_SCALE - scale);
    lemma_pow_positive(10, (MAX_SCALE - scale) as nat);
    assert(mantissa * unit == 0 <==> mantissa == 0) by (nonlinear_arith)
        requires
            unit > 0,
    ;
}

/// What a mantissa and a scale stand for: at the largest scale the value is the mantissa, and one
/// digit less behind the point makes it ten times as large. All mantissas below `2^96` and all scales
/// up to 28 can be had.
pub proof fn law_a_digit_is_worth_ten_of_the_next(mantissa: i128, scale: u32)
    ensures
        value_of(mantissa, 28) == mantissa,
        scale < 28 ==> value_of(mantissa, scale) == 10 * value_of(mantissa, (scale + 1) as u32),
        representable(mantissa, scale) <==> -79_228_162_514_264_337_593_543_950_336 < mantissa
            < 79_228_162_514_264_337_593_543_950_336 && scale <= 28,
{
    vstd::arithmetic::power::lemma_pow0(10);
    if scale < 28 {
        let next = ten_to(MAX_SCALE - scale - 1);
        lemma_pow_adds(10, 1, (MAX_SCALE - scale - 1) as nat);
        lemma_pow1(10);
        assert(mantissa * (10 * next) == 10 * (mantissa * next)) by (nonlinear_arith);
    }
}

/// Rounding takes the nearest value, of two that are equally near the one whose last digit is even,
/// and keeps as many digits as there is room for: with one more the mantissa would not fit.
pub proof fn law_rounding_is_to_the_nearest(n: int, d: int)
    requires
        d > 0,
    ensures
        ({
            let kept = kept_scale(n, d);
            let unit = pow(10, (28 - kept) as nat);
            let m = rounded(n, d) / unit;
            &&& kept <= 28
            &&& rounded(n, d) == m * unit
            &&& 2 * magnitude(m * unit * d - n) <= d * unit
            &&& 2 * magnitude(m * unit * d - n) == d * unit ==> m % 2 == 0
            &&& kept < 28 ==> 2 * magnitude(n) >= 158_456_325_028_528_675_187_087_900_671 * d * pow(
                10,
                (27 - kept) as nat,
            )
        }),
{
    lemma_largest_scale_bound(n, d, MAX_SCALE as nat);
    let kept = kept_scale(n, d);
    let unit = ten_to(MAX_SCALE - kept);
    let m = written_at(n, d, kept as int);
    lemma_pow_positive(10, (MAX_SCALE - kept) as nat);
    assert(d * unit > 0) by (nonlinear_arith)
        requires
            d > 0,
            unit > 0,
    ;
    lemma_div_multiples_vanish(m, unit);
    assert(unit * m == m * unit) by (nonlinear_arith);
    assert(rounded(n, d) / unit == m);
    lemma_half_even_close(n, d * unit);
    assert(m * unit * d == m * (d * unit)) by (nonlinear_arith);
    if 2 * magnitude(m * (d * unit) - n) == d * unit {
        lemma_half_even_tie(n, d * unit);
    }
    if kept < 28 {
        lemma_next_does_not_fit(n, d, MAX_SCALE as nat);
        let next = ten_to(MAX_SCALE - kept - 1);
        lemma_pow_positive(10, (MAX_SCALE - kept - 1) as nat);
        assert(d * next > 0) by (nonlinear_arith)
            requires
                d > 0,
                next > 0,
        ;
        lemma_not_fitting(n, d * next);
        assert((2 * MAX_MANTISSA + 1) * (d * next) == (2 * MAX_MANTISSA + 1) * d * next)
            by (nonlinear_arith);
    }
}

/// A whole number that is exactly half away is even.
proof fn lemma_half_even_tie(n: int, d: int)
    requires
        d > 0,
        2 * magnitude(half_even(n, d) * d - n) == d,
    ensures
        half_even(n, d) % 2 == 0,
{
    lemma_fundamental_div_mod(n, d);
    let down = n / d;
    assert(down * d == d * down && (down + 1) * d == down * d + d) by (nonlinear_arith);
}

/// With one digit more than the largest scale has, the mantissa does not fit.
proof fn lemma_next_does_not_fit(n: int, d: int, most: nat)
    requires
        largest_scale(n, d, most) < most,
    ensures
        !fits(written_at(n, d, 1 + largest_scale(n, d, most) as int)),
    decreases most,
{
    if most > 0 && largest_scale(n, d, (most - 1) as nat) < most - 1 {
        lemma_next_does_not_fit(n, d, (most - 1) as nat);
    } else if most > 0 {
        lemma_largest_scale_bound(n, d, (most - 1) as nat);
    }
}

/// A rounded number that does not fit is at least half above the largest mantissa.
proof fn lemma_not_fitting(n: int, d: int)
    requires
        d > 0,
        !fits(half_even(n, d)),
    ensures
        2 * magnitude(n) >= (2 * MAX_MANTISSA + 1) * d,
{
    lemma_half_even_close(n, d);
    let h = half_even(n, d);
    assert(2 * magnitude(n) >= (2 * MAX_MANTISSA + 1) * d) by (nonlinear_arith)
        requires
            2 * magnitude(h * d - n) <= d,
            h > MAX_MANTISSA || h < -MAX_MANTISSA,
            MAX_MANTISSA > 0,
            d > 0,
    {
        if h > MAX_MANTISSA {
            assert(h * d >= (MAX_MANTISSA + 1) * d);
        } else {
            assert(h * d <= -(MAX_MANTISSA + 1) * d);
        }
    }
}

/// Results are there exactly where they are in range: where, rounded to a whole number, they are below
/// `2^96`. A sum, a product and a quotient are then the rounded results.
pub proof fn law_results_are_rounded(a: int, b: int)
    ensures
        sum_value(a, b) is Some <==> 2 * magnitude(a + b) < 158_456_325_028_528_675_187_087_900_671
            * pow(10, 28),
        sum_value(a, b) is Some ==> sum_value(a, b) == Some(rounded(a + b, 1)),
        product_value(a, b) is Some <==> 2 * magnitude(a * b)
            < 158_456_325_028_528_675_187_087_900_671 * pow(10, 28) * pow(10, 28),
        product_value(a, b) is Some ==> product_value(a, b) == Some(rounded(a * b, pow(10, 28))),
        quotient_value(a, b) is Some <==> 2 * magnitude(a * pow(10, 28))
            < 158_456_325_028_528_675_187_087_900_671 * pow(10, 28) * magnitude(b),
        b > 0 && quotient_value(a, b) is Some ==> quotient_value(a, b) == Some(
            rounded(a * pow(10, 28), b),
        ),
        b < 0 && quotient_value(a, b) is Some ==> quotient_value(a, b) == Some(
            rounded(-(a * pow(10, 28)), -b),
        ),
{
    lemma_pow_positive(10, 28);
    assert(158_456_325_028_528_675_187_087_900_671 * pow(10, 28) * 0 == 0) by (nonlinear_arith);
}

/// Whether a decimal can hold a value.
pub open spec fn holdable(v: int) -> bool {
    exists|mantissa: i128, scale: u32|
        representable(mantissa, scale) && #[trigger] value_of(mantissa, scale) == v
}

/// A value that a decimal can hold is in range, and rounding leaves it as it is.
pub proof fn lemma_holdable(v: int, d: int)
    requires
        holdable(v),
        d > 0,
    ensures
        in_range(v),
        ratio_in_range(v * d, d),
        rounded(v * d, d) == v,
        fits(written_at(v * d, d, kept_scale(v * d, d) as int)),
{
    let (mantissa, scale) = choose|mantissa: i128, scale: u32|
        representable(mantissa, scale) && #[trigger] value_of(mantissa, scale) == v;
    let unit = ten_to(MAX_SCALE - scale);
    let whole = ten_to(MAX_SCALE as int);
    lemma_pow_increases(10, (MAX_SCALE - scale) as nat, MAX_SCALE as nat);
    lemma_pow_positive(10, (MAX_SCALE - scale) as nat);
    assert(2 * magnitude(v) < (2 * MAX_MANTISSA + 1) * whole) by (nonlinear_arith)
        requires
            v == mantissa * unit,
            -MAX_MANTISSA <= mantissa <= MAX_MANTISSA,
            0 < unit <= whole,
            MAX_MANTISSA > 0,
    ;
    assert(magnitude(v * d) == magnitude(v) * d) by (nonlinear_arith)
        requires
            d > 0,
    ;
    assert(2 * (magnitude(v) * d) < (2 * MAX_MANTISSA + 1) * whole * d) by (nonlinear_arith)
        requires
            2 * magnitude(v) < (2 * MAX_MANTISSA + 1) * whole,
            d > 0,
    ;
    law_exact_results_are_kept(v * d, d, mantissa as int, scale as int);
    assert(d * unit > 0) by (nonlinear_arith)
        requires
            d > 0,
            unit > 0,
    ;
    assert(mantissa * unit * d == mantissa * (d * unit)) by (nonlinear_arith);
    lemma_half_even_exact(mantissa as int, d * unit);
    lemma_largest_scale_fits(v * d, d, MAX_SCALE as nat, scale as nat);
}

/// Where the mantissa fits at some scale, it fits at the largest.
proof fn lemma_largest_scale_fits(n: int, d: int, most: nat, scale: nat)
    requires
        scale <= most,
        fits(written_at(n, d, scale as int)),
    ensures
        fits(written_at(n, d, largest_scale(n, d, most) as int)),
    decreases most,
{
    if most > scale && !fits(written_at(n, d, most as int)) {
        lemma_largest_scale_fits(n, d, (most - 1) as nat, scale);
    }
}

/// A sum that a decimal can hold is exact.
pub proof fn law_holdable_sums_are_exact(a: Parts, b: Parts)
    requires
        proper(a),
        proper(b),
        holdable(value_at(a) + value_at(b)),
    ensures
        sum_of(a, b) matches Some(p) && proper(p) && value_at(p) == value_at(a) + value_at(b),
{
    let v = value_at(a) + value_at(b);
    assert(v * 1 == v);
    lemma_holdable(v, 1);
    lemma_zero_value(a.0, a.1);
    lemma_zero_value(b.0, b.1);
    if a.0 != 0 && b.0 != 0 {
        let common = common_scale(a.1, b.1);
        let kept = kept_scale(v, 1);
        lemma_largest_scale_bound(v, 1, MAX_SCALE as nat);
        let top = written_at(v, 1, kept as int);
        let rest = ten_to(MAX_SCALE - kept);
        lemma_pow_positive(10, (MAX_SCALE - kept) as nat);
        if common <= kept {
            let unit = ten_to(MAX_SCALE - common);
            let k = aligned(a.0, a.1, common) + aligned(b.0, b.1, common);
            lemma_aligned_value(a.0, a.1, common);
            lemma_aligned_value(b.0, b.1, common);
            assert(v == k * unit) by (nonlinear_arith)
                requires
                    k == aligned(a.0, a.1, common) + aligned(b.0, b.1, common),
                    v == aligned(a.0, a.1, common) * unit + aligned(b.0, b.1, common) * unit,
            ;
            lemma_pow_positive(10, (MAX_SCALE - common) as nat);
            lemma_div_multiples_vanish(k, unit);
            assert(unit * k == k * unit) by (nonlinear_arith);
            lemma_pow_increases(10, (MAX_SCALE - kept) as nat, (MAX_SCALE - common) as nat);
            assert(fits(k)) by (nonlinear_arith)
                requires
                    k * unit == top * rest,
                    0 < rest <= unit,
                    fits(top),
            {
                if k > MAX_MANTISSA {
                    assert(k * unit >= (MAX_MANTISSA + 1) * unit);
                    assert((MAX_MANTISSA + 1) * unit >= (MAX_MANTISSA + 1) * rest);
                    assert(top * rest <= MAX_MANTISSA * rest);
                }
                if k < -MAX_MANTISSA {
                    assert(k * unit <= -(MAX_MANTISSA + 1) * unit);
                    assert(-(MAX_MANTISSA + 1) * unit <= -(MAX_MANTISSA + 1) * rest);
                    assert(top * rest >= -MAX_MANTISSA * rest);
                }
            }
        } else {
            lemma_div_multiples_vanish(top, rest);
            assert(rest * top == top * rest) by (nonlinear_arith);
        }
    }
}

/// The words that the contracts of decimals are made of mean what they say.
pub proof fn law_sizes_and_scales(n: int, m: i128, a: u32, b: u32)
    ensures
        magnitude(n) >= 0,
        magnitude(n) == n || magnitude(n) == -n,
        n >= 0 ==> ten_to(n) == pow(10, n as nat),
        fits(n) <==> magnitude(n) <= 79_228_162_514_264_337_593_543_950_335,
        common_scale(a, b) >= a && common_scale(a, b) >= b,
        common_scale(a, b) == a || common_scale(a, b) == b,
        a <= b ==> aligned(m, a, b) == m * pow(10, (b - a) as nat),
{
}

/// A decimal has the value of its mantissa and scale, and compares by value: two decimals are equal
/// where their values are.
pub proof fn law_decimals_compare_by_value(d: Decimal, e: Decimal)
    ensures
        d.parts() == (d.spec_mantissa(), d.spec_scale(), d.spec_negative()),
        d.value() == value_of(d.spec_mantissa(), d.spec_scale()),
        d.eq_spec(&e) <==> d.value() == e.value(),
        d.partial_cmp_spec(&e) == Some(Ordering::Less) <==> d.value() < e.value(),
        d.partial_cmp_spec(&e) == Some(Ordering::Equal) <==> d.value() == e.value(),
        d.partial_cmp_spec(&e) == Some(Ordering::Greater) <==> d.value() > e.value(),
{
}

/// A sum is the rounded sum of the two values and there exactly where it is in range. It is the other
/// operand where one is zero. Otherwise it has no more digits behind the point than the operand that
/// has more of them, and as many as that where the sum has room for them.
pub proof fn law_sums_are_rounded(r: Option<Parts>, a: Parts, b: Parts)
    requires
        is_sum(r, a, b),
    ensures
        r is Some <==> 2 * magnitude(value_of(a.0, a.1) + value_of(b.0, b.1))
            < 158_456_325_028_528_675_187_087_900_671 * pow(10, 28),
        r matches Some(p) ==> {
            let v = value_of(a.0, a.1) + value_of(b.0, b.1);
            &&& value_of(p.0, p.1) == rounded(v, 1)
            &&& a.0 == 0 ==> p == b
            &&& a.0 != 0 && b.0 == 0 ==> p == a
            &&& a.0 != 0 && b.0 != 0 ==> {
                &&& p.2 == (p.0 < 0)
                &&& a.1 >= b.1 && a.1 <= kept_scale(v, 1) ==> p.1 == a.1
                &&& b.1 >= a.1 && b.1 <= kept_scale(v, 1) ==> p.1 == b.1
                &&& a.1 > kept_scale(v, 1) || b.1 > kept_scale(v, 1) ==> p.1 == kept_scale(v, 1)
            }
        },
{
}

/// A quotient is a nearest value with as many digits as it can have, and there exactly where it is in
/// range; `to_even` settles which of two that are equally near it is.
pub proof fn law_quotients_are_nearest(r: Option<int>, a: int, b: int, to_even: bool)
    requires
        is_quotient(r, a, b, to_even),
    ensures
        r is Some <==> 2 * magnitude(a * pow(10, 28)) < 158_456_325_028_528_675_187_087_900_671 * pow(
            10,
            28,
        ) * magnitude(b),
        b == 0 ==> r is None,
        r matches Some(v) ==> {
            let n = if b > 0 {
                a * pow(10, 28)
            } else {
                -(a * pow(10, 28))
            };
            let unit = pow(10, (28 - kept_scale(n, magnitude(b))) as nat);
            &&& v % unit == 0
            &&& 2 * magnitude(v * magnitude(b) - n) <= magnitude(b) * unit
            &&& to_even ==> v == rounded(n, magnitude(b))
        },
{
    assert(158_456_325_028_528_675_187_087_900_671 * pow(10, 28) * 0 == 0) by (nonlinear_arith);
}

/// Where digits are rounded away, the nearest number is taken, and of two that are equally near the
/// one farther from zero; where digits are added, they are zeros, as many as there is room for. The
/// sign stays.
pub proof fn law_rescaling_rounds_away_from_zero(p: Parts, scale: u32, r: Parts)
    requires
        p.1 <= 28,
        scale <= 28,
        is_rescaled(p, scale, r),
    ensures
        r.2 == p.2,
        p.0 == 0 ==> r.0 == 0 && r.1 == scale,
        p.0 != 0 && p.1 > scale ==> {
            let unit = pow(10, (p.1 - scale) as nat);
            let size = magnitude(r.0 as int) * unit;
            &&& r.1 == scale
            &&& 2 * magnitude(size - magnitude(p.0 as int)) <= unit
            &&& 2 * magnitude(size - magnitude(p.0 as int)) == unit ==> size > magnitude(p.0 as int)
            &&& (p.0 > 0 ==> r.0 >= 0)
            &&& (p.0 < 0 ==> r.0 <= 0)
        },
        p.0 != 0 && p.1 <= scale ==> {
            &&& p.1 <= r.1 <= scale
            &&& r.0 == p.0 * pow(10, (r.1 - p.1) as nat)
            &&& r.1 < scale ==> magnitude(r.0 * 10) > 79_228_162_514_264_337_593_543_950_335
        },
{
    if p.0 != 0 && p.1 > scale {
        let unit = ten_to(p.1 - scale);
        let a = magnitude(p.0 as int);
        lemma_pow_positive(10, (p.1 - scale) as nat);
        lemma_pow_adds(10, 1, (p.1 - scale - 1) as nat);
        lemma_pow1(10);
        let half = unit / 2;
        assert(unit == 2 * half);
        lemma_fundamental_div_mod(a + half, unit);
        let k = magnitude(r.0 as int);
        assert(k * unit == a + half - (a + half) % unit) by (nonlinear_arith)
            requires
                a + half == unit * k + (a + half) % unit,
        ;
    }
}

} // verus!
