//! The weighted market price of a book: the midpoint of the volume-weighted bid and ask prices.
use crate::decimal::{
    fits, holdable, is_quotient, is_rescaled, law_exact_quotients_are_kept, law_holdable_sums_are_exact,
    lemma_holdable, magnitude, narrow, parts_of, product_parts, product_value, proper, quotient_parts,
    quotient_value, representable, sum_of, sum_value, ten_to, value_at, value_in, value_of, Decimal,
    Parts, MAX_SCALE,
};
use vstd::arithmetic::div_mod::{
    lemma_div_denominator, lemma_div_multiples_vanish, lemma_fundamental_div_mod_converse,
};
use vstd::arithmetic::power::{lemma_pow1, lemma_pow_adds, lemma_pow_positive, pow};
use vstd::prelude::*;

verus! {

/// How many digits behind the point a weighted price has.
pub const PRICE_SCALE: u32 = 8;

/// A price and the amount that is offered at it.
#[derive(Debug, Clone, Copy)]
pub struct Quote {
    pub price: Decimal,
    pub amount: Decimal,
}

/// A sum, a product or a quotient is too large for a [`Decimal`].
#[derive(Debug, Clone, Copy, PartialEq, Eq, Structural)]
pub struct Overflow;

/// A value plus another, or `None` where one is missing or the sum overflows.
pub open spec fn plus(a: Option<int>, b: Option<int>) -> Option<int> {
    match (a, b) {
        (Some(a), Some(b)) => sum_value(a, b),
        _ => None,
    }
}

/// A decimal plus another, in parts, or `None` where one is missing or the sum overflows.
pub open spec fn plus_parts(a: Option<Parts>, b: Option<Parts>) -> Option<Parts> {
    match (a, b) {
        (Some(a), Some(b)) => sum_of(a, b),
        _ => None,
    }
}

/// The sum of all amounts, from the first to the last.
pub open spec fn total_amount(quotes: Seq<Quote>) -> Option<Parts>
    decreases quotes.len(),
{
    if quotes.len() == 0 {
        Some((0i128, 0u32, false))
    } else {
        plus_parts(total_amount(quotes.drop_last()), Some(quotes.last().amount.parts()))
    }
}

/// The sum of price times amount, from the first to the last.
pub open spec fn total_value(quotes: Seq<Quote>) -> Option<Parts>
    decreases quotes.len(),
{
    if quotes.len() == 0 {
        Some((0i128, 0u32, false))
    } else {
        plus_parts(
            total_value(quotes.drop_last()),
            product_parts(quotes.last().price.parts(), quotes.last().amount.parts()),
        )
    }
}

/// The value of the sum of price times amount, from the first to the last.
pub open spec fn total_worth(quotes: Seq<Quote>) -> Option<int>
    decreases quotes.len(),
{
    if quotes.len() == 0 {
        Some(0)
    } else {
        plus(
            total_worth(quotes.drop_last()),
            product_value(quotes.last().price.value(), quotes.last().amount.value()),
        )
    }
}

/// The value per amount: zero where there is no amount.
pub open spec fn average_of(value: Parts, amount: Parts) -> Option<Parts> {
    if amount.0 == 0 {
        Some((0i128, 0u32, false))
    } else {
        quotient_parts(value, amount)
    }
}

/// Whether `r` is the value of `worth` per amount: zero where there is no amount, and otherwise the
/// nearest value, as [`is_quotient`] says.
pub open spec fn is_average(r: Option<int>, worth: int, amount: Parts) -> bool {
    if amount.0 == 0 {
        r == Some(0int)
    } else {
        is_quotient(r, worth, value_at(amount), narrow(amount))
    }
}

/// The volume-weighted average price of a side, or `None` where a step overflows. Where the amounts
/// add up to zero, the prices do not matter.
pub open spec fn weighted_average(quotes: Seq<Quote>) -> Option<Parts> {
    match total_amount(quotes) {
        Some(amount) => if amount.0 == 0 {
            Some((0i128, 0u32, false))
        } else {
            match total_value(quotes) {
                Some(value) => average_of(value, amount),
                None => None,
            }
        },
        None => None,
    }
}

/// Whether `r` is the value of the volume-weighted average price of a side, or `None` where a step
/// overflows.
pub open spec fn is_weighted(r: Option<int>, quotes: Seq<Quote>) -> bool {
    match total_amount(quotes) {
        Some(amount) => if amount.0 == 0 {
            r == Some(0int)
        } else {
            match total_worth(quotes) {
                Some(worth) => is_average(r, worth, amount),
                None => r is None,
            }
        },
        None => r is None,
    }
}

/// Half of the sum of two prices, or `None` where a price is missing or the sum overflows.
pub open spec fn midpoint_of(bid: Option<int>, ask: Option<int>) -> Option<int> {
    match plus(bid, ask) {
        Some(sum) => quotient_value(sum, 2 * ten_to(MAX_SCALE as int)),
        None => None,
    }
}

/// The mantissa that writes the value `v` with `scale` digits behind the point, the last of them
/// rounded, halves away from zero.
pub open spec fn shown_mantissa(v: int, scale: int) -> int {
    let unit = ten_to(MAX_SCALE - scale);
    let size = (magnitude(v) + unit / 2) / unit;
    if v < 0 {
        -size
    } else {
        size
    }
}

/// The largest scale, no larger than `most`, at which the mantissa of a shown price fits.
pub open spec fn shown_scale(v: int, most: nat) -> nat
    decreases most,
{
    if most == 0 || fits(shown_mantissa(v, most as int)) {
        most
    } else {
        shown_scale(v, (most - 1) as nat)
    }
}

/// Whether a decimal is the price `v` as it is shown: with eight digits behind the point, or as many
/// as fit, the last of them rounded, halves away from zero.
pub open spec fn is_shown(d: Decimal, v: int) -> bool {
    &&& d.spec_scale() == shown_scale(v, PRICE_SCALE as nat)
    &&& d.spec_mantissa() == shown_mantissa(v, d.spec_scale() as int)
}

/// Whether `r` is the weighted price of a book: none where a side is empty, and otherwise the midpoint
/// of the two averages as it is shown, with its sign, or an overflow.
pub open spec fn is_weighted_price(
    r: Result<Option<Decimal>, Overflow>,
    bids: Seq<Quote>,
    asks: Seq<Quote>,
) -> bool {
    if bids.len() == 0 || asks.len() == 0 {
        r == Ok::<Option<Decimal>, Overflow>(None)
    } else {
        let bid = value_in(weighted_average(bids));
        let ask = value_in(weighted_average(asks));
        &&& is_weighted(bid, bids)
        &&& is_weighted(ask, asks)
        &&& match midpoint_of(bid, ask) {
            Some(v) => r matches Ok(Some(d)) && is_shown(d, v) && d.spec_negative() == (v < 0),
            None => r == Err::<Option<Decimal>, Overflow>(Overflow),
        }
    }
}

/// Adds up all amounts.
fn add_amounts(quotes: &Vec<Quote>) -> (r: Option<Decimal>)
    ensures
        parts_of(r) == total_amount(quotes@),
{
    let mut total = Decimal::zero();
    let mut i: usize = 0;
    proof {
        assert(quotes@.take(0) =~= Seq::empty());
    }
    while i < quotes.len()
        invariant
            i <= quotes.len(),
            Some(total.parts()) == total_amount(quotes@.take(i as int)),
        decreases quotes.len() - i,
    {
        proof {
            assert(quotes@.take(i + 1).drop_last() =~= quotes@.take(i as int));
        }
        match total.checked_add(quotes[i].amount) {
            Some(sum) => {
                total = sum;
            },
            None => {
                proof {
                    lemma_no_amount(quotes@, i + 1);
                }
                return None;
            },
        }
        i += 1;
    }
    proof {
        assert(quotes@.take(quotes.len() as int) =~= quotes@);
    }
    Some(total)
}

/// A sum of amounts that overflows on the way has no result.
proof fn lemma_no_amount(quotes: Seq<Quote>, i: int)
    requires
        0 <= i <= quotes.len(),
        total_amount(quotes.take(i)) is None,
    ensures
        total_amount(quotes) is None,
    decreases quotes.len() - i,
{
    if i < quotes.len() {
        assert(quotes.take(i + 1).drop_last() =~= quotes.take(i));
        lemma_no_amount(quotes, i + 1);
    } else {
        assert(quotes.take(i) =~= quotes);
    }
}

/// Adds up price times amount.
fn add_values(quotes: &Vec<Quote>) -> (r: Option<Decimal>)
    ensures
        parts_of(r) == total_value(quotes@),
        value_in(parts_of(r)) == total_worth(quotes@),
{
    let mut total = Decimal::zero();
    let mut i: usize = 0;
    proof {
        assert(quotes@.take(0) =~= Seq::empty());
    }
    while i < quotes.len()
        invariant
            i <= quotes.len(),
            Some(total.parts()) == total_value(quotes@.take(i as int)),
            Some(total.value()) == total_worth(quotes@.take(i as int)),
        decreases quotes.len() - i,
    {
        let next = match quotes[i].price.checked_mul(quotes[i].amount) {
            Some(value) => total.checked_add(value),
            None => None,
        };
        proof {
            assert(quotes@.take(i + 1).drop_last() =~= quotes@.take(i as int));
        }
        match next {
            Some(sum) => {
                total = sum;
            },
            None => {
                proof {
                    lemma_no_value(quotes@, i + 1);
                }
                return None;
            },
        }
        i += 1;
    }
    proof {
        assert(quotes@.take(quotes.len() as int) =~= quotes@);
    }
    Some(total)
}

/// A sum of values that overflows on the way has no result.
proof fn lemma_no_value(quotes: Seq<Quote>, i: int)
    requires
        0 <= i <= quotes.len(),
        total_value(quotes.take(i)) is None,
        total_worth(quotes.take(i)) is None,
    ensures
        total_value(quotes) is None,
        total_worth(quotes) is None,
    decreases quotes.len() - i,
{
    if i < quotes.len() {
        assert(quotes.take(i + 1).drop_last() =~= quotes.take(i));
        lemma_no_value(quotes, i + 1);
    } else {
        assert(quotes.take(i) =~= quotes);
    }
}

/// The value per amount: zero where there is no amount, and `None` where the quotient overflows.
pub fn average(value: Decimal, amount: Decimal) -> (r: Option<Decimal>)
    ensures
        parts_of(r) == average_of(value.parts(), amount.parts()),
        is_average(value_in(parts_of(r)), value.value(), amount.parts()),
        r matches Some(d) ==> (d.spec_negative() <==> d.value() < 0),
{
    if amount.is_zero() {
        Some(Decimal::zero())
    } else {
        value.checked_div(amount)
    }
}

/// The volume-weighted average price of a side, or `None` where a step overflows.
pub fn weighted_side(quotes: &Vec<Quote>) -> (r: Option<Decimal>)
    ensures
        parts_of(r) == weighted_average(quotes@),
        is_weighted(value_in(parts_of(r)), quotes@),
        r matches Some(d) ==> (d.spec_negative() <==> d.value() < 0),
{
    match add_amounts(quotes) {
        Some(amount) => {
            if amount.is_zero() {
                Some(Decimal::zero())
            } else {
                match add_values(quotes) {
                    Some(value) => average(value, amount),
                    None => None,
                }
            }
        },
        None => None,
    }
}

/// A decimal that is brought to the digits that are shown is shown with its value.
proof fn lemma_shown(p: Parts, r: Parts)
    requires
        p.1 <= MAX_SCALE,
        fits(r.0 as int),
        is_rescaled(p, PRICE_SCALE, r),
    ensures
        r.1 == shown_scale(value_of(p.0, p.1), PRICE_SCALE as nat),
        r.0 == shown_mantissa(value_of(p.0, p.1), r.1 as int),
{
    let v = value_of(p.0, p.1);
    let own = ten_to(MAX_SCALE - p.1);
    lemma_pow_positive(10, (MAX_SCALE - p.1) as nat);
    assert(magnitude(v) == magnitude(p.0 as int) * own && (v < 0 <==> p.0 < 0)) by (nonlinear_arith)
        requires
            v == p.0 * own,
            own > 0,
    ;
    if p.0 == 0 {
        lemma_exact_mantissa(v, 0, PRICE_SCALE as int);
    } else if p.1 > PRICE_SCALE {
        let unit = ten_to(p.1 - PRICE_SCALE);
        let shown = ten_to(MAX_SCALE - PRICE_SCALE);
        let size = magnitude(p.0 as int);
        lemma_pow_adds(10, (p.1 - PRICE_SCALE) as nat, (MAX_SCALE - p.1) as nat);
        lemma_pow_positive(10, (p.1 - PRICE_SCALE) as nat);
        lemma_pow_adds(10, 1, (p.1 - PRICE_SCALE - 1) as nat);
        lemma_pow1(10);
        let half = unit / 2;
        assert(unit == 2 * half);
        assert(shown == unit * own);
        assert(shown / 2 == half * own && size * own + half * own == (size + half) * own)
            by (nonlinear_arith)
            requires
                shown == unit * own,
                unit == 2 * half,
        ;
        assert((size + half) * own == own * (size + half)) by (nonlinear_arith);
        assert(unit * own == own * unit) by (nonlinear_arith);
        assert(size + half >= 0);
        assert((own * (size + half)) / own == size + half) by {
            lemma_div_multiples_vanish(size + half, own);
        }
        assert(own * (size + half) >= 0) by (nonlinear_arith)
            requires
                own > 0,
                size + half >= 0,
        ;
        lemma_div_denominator(own * (size + half), own, unit);
        assert(shown_mantissa(v, PRICE_SCALE as int) == r.0);
    } else {
        let more = ten_to(r.1 - p.1);
        let rest = ten_to(MAX_SCALE - r.1);
        lemma_pow_adds(10, (r.1 - p.1) as nat, (MAX_SCALE - r.1) as nat);
        assert((p.0 * more) * rest == p.0 * (more * rest)) by (nonlinear_arith);
        lemma_exact_mantissa(v, r.0 as int, r.1 as int);
        lemma_no_room(v, r.0 as int, r.1 as nat, PRICE_SCALE as nat);
    }
}

/// A value that has no more than `scale` digits is shown as it is.
proof fn lemma_exact_mantissa(v: int, mantissa: int, scale: int)
    requires
        0 <= scale <= PRICE_SCALE,
        v == mantissa * ten_to(MAX_SCALE - scale),
    ensures
        shown_mantissa(v, scale) == mantissa,
{
    let unit = ten_to(MAX_SCALE - scale);
    let size = magnitude(mantissa);
    lemma_pow_positive(10, (MAX_SCALE - scale) as nat);
    lemma_pow_adds(10, 1, (MAX_SCALE - scale - 1) as nat);
    lemma_pow1(10);
    assert(magnitude(v) == size * unit && (v < 0 <==> mantissa < 0)) by (nonlinear_arith)
        requires
            v == mantissa * unit,
            unit > 0,
            size == magnitude(mantissa),
    ;
    lemma_fundamental_div_mod_converse(
        size * unit + unit / 2,
        unit,
        size,
        unit / 2,
    );
}

/// Where one more digit does not fit, no larger scale has room for the mantissa.
proof fn lemma_no_room(v: int, mantissa: int, scale: nat, most: nat)
    requires
        scale <= most <= PRICE_SCALE,
        v == mantissa * ten_to(MAX_SCALE - scale),
        fits(mantissa),
        scale == PRICE_SCALE || !fits(mantissa * 10),
    ensures
        shown_scale(v, most) == scale,
    decreases most,
{
    if most == scale {
        lemma_exact_mantissa(v, mantissa, scale as int);
    } else {
        let more = pow(10, (most - scale) as nat);
        let rest = ten_to(MAX_SCALE - most);
        lemma_pow_adds(10, (most - scale) as nat, (MAX_SCALE - most) as nat);
        assert((mantissa * more) * rest == mantissa * (more * rest)) by (nonlinear_arith);
        lemma_exact_mantissa(v, mantissa * more, most as int);
        let tenth = pow(10, (most - scale - 1) as nat);
        lemma_pow_positive(10, (most - scale - 1) as nat);
        lemma_pow_adds(10, 1, (most - scale - 1) as nat);
        lemma_pow1(10);
        assert(magnitude(mantissa * more) >= magnitude(mantissa * 10)) by (nonlinear_arith)
            requires
                more == 10 * tenth,
                tenth >= 1,
        ;
        lemma_no_room(v, mantissa, scale, (most - 1) as nat);
    }
}

/// A weighted price, rounded to the digits that are shown. The sign stays, also where the price is
/// rounded to zero.
pub fn shown_price(midpoint: Decimal) -> (d: Decimal)
    ensures
        is_rescaled(midpoint.parts(), PRICE_SCALE, d.parts()),
        is_shown(d, midpoint.value()),
        d.spec_negative() == midpoint.spec_negative(),
{
    let d = midpoint.rescaled(PRICE_SCALE);
    proof {
        lemma_shown(midpoint.parts(), d.parts());
    }
    d
}

/// The midpoint of the volume-weighted bid and ask prices, rounded to the digits that are shown.
/// There is none where a side is empty. A negative midpoint keeps its sign where it is rounded to
/// zero.
pub fn weighted_price(bids: &Vec<Quote>, asks: &Vec<Quote>) -> (r: Result<Option<Decimal>, Overflow>)
    ensures
        is_weighted_price(r, bids@, asks@),
{
    if bids.len() == 0 || asks.len() == 0 {
        return Ok(None);
    }
    let (bid, ask) = match (weighted_side(bids), weighted_side(asks)) {
        (Some(bid), Some(ask)) => (bid, ask),
        _ => return Err(Overflow),
    };
    let sum = match bid.checked_add(ask) {
        Some(sum) => sum,
        None => return Err(Overflow),
    };
    match sum.checked_div(Decimal::two()) {
        Some(midpoint) => Ok(Some(shown_price(midpoint))),
        None => Err(Overflow),
    }
}

/// The totals of a side take in every quote, one after the other: where `amounts` starts at zero and
/// each next one is the sum of the one before and the amount at its index, and `values` is the same of
/// price times amount, the weighted average is the quotient of the last value and the last amount.
pub proof fn law_averages_take_in_every_quote(
    quotes: Seq<Quote>,
    amounts: Seq<Parts>,
    values: Seq<Parts>,
)
    requires
        amounts.len() == quotes.len() + 1,
        values.len() == quotes.len() + 1,
        amounts[0] == (0i128, 0u32, false),
        values[0] == (0i128, 0u32, false),
        forall|i: int|
            0 <= i < quotes.len() ==> sum_of(amounts[i], (#[trigger] quotes[i]).amount.parts())
                == Some(amounts[i + 1]),
        forall|i: int|
            0 <= i < quotes.len() ==> (product_parts(
                (#[trigger] quotes[i]).price.parts(),
                quotes[i].amount.parts(),
            ) matches Some(p) && sum_of(values[i], p) == Some(values[i + 1])),
    ensures
        total_amount(quotes) == Some(amounts.last()),
        total_value(quotes) == Some(values.last()),
        amounts.last().0 == 0 ==> weighted_average(quotes) == Some((0i128, 0u32, false)),
        amounts.last().0 != 0 ==> weighted_average(quotes) == quotient_parts(
            values.last(),
            amounts.last(),
        ),
    decreases quotes.len(),
{
    if quotes.len() > 0 {
        let last = quotes.len() - 1;
        let front = quotes.drop_last();
        assert forall|i: int| 0 <= i < front.len() implies sum_of(
            amounts.drop_last()[i],
            (#[trigger] front[i]).amount.parts(),
        ) == Some(amounts.drop_last()[i + 1]) by {
            assert(front[i] == quotes[i]);
        }
        assert forall|i: int| 0 <= i < front.len() implies (product_parts(
            (#[trigger] front[i]).price.parts(),
            front[i].amount.parts(),
        ) matches Some(p) && sum_of(values.drop_last()[i], p) == Some(
            values.drop_last()[i + 1],
        )) by {
            assert(front[i] == quotes[i]);
        }
        law_averages_take_in_every_quote(front, amounts.drop_last(), values.drop_last());
        assert(quotes[last] == quotes.last());
        assert(amounts.drop_last().last() == amounts[last]);
        assert(values.drop_last().last() == values[last]);
        assert(product_parts(quotes[last].price.parts(), quotes[last].amount.parts()) is Some);
        assert(sum_of(amounts[last], quotes[last].amount.parts()) == Some(amounts[last + 1]));
        assert(amounts.last() == amounts[last + 1] && values.last() == values[last + 1]);
    }
}

/// The arithmetic sum of all amounts, in units of `10^-28`.
pub open spec fn sum_of_amounts(quotes: Seq<Quote>) -> int {
    quotes.fold_left(0int, |sum: int, q: Quote| sum + q.amount.value())
}

/// The arithmetic sum of price times amount over all quotes, in units of `10^-56`.
pub open spec fn sum_of_products(quotes: Seq<Quote>) -> int {
    quotes.fold_left(0int, |sum: int, q: Quote| sum + q.price.value() * q.amount.value())
}

/// Whether a decimal can hold a value in units of `10^-56`.
pub open spec fn holdable_product(v: int) -> bool {
    exists|w: int| #[trigger] holdable(w) && v == w * ten_to(MAX_SCALE as int)
}

/// Whether nothing is rounded when a side is added up: every product, every sum of the first amounts
/// and every sum of the first products is one that a decimal can hold.
pub open spec fn adds_up_exactly(quotes: Seq<Quote>) -> bool {
    &&& forall|i: int| 0 <= i <= quotes.len() ==> holdable(#[trigger] sum_of_amounts(quotes.take(i)))
    &&& forall|i: int|
        0 <= i <= quotes.len() ==> holdable_product(#[trigger] sum_of_products(quotes.take(i)))
    &&& forall|i: int|
        0 <= i < quotes.len() ==> holdable_product(
            (#[trigger] quotes[i]).price.value() * quotes[i].amount.value(),
        )
}

/// The totals of a side that adds up exactly are the arithmetic sums over all its quotes.
proof fn lemma_totals(quotes: Seq<Quote>)
    requires
        forall|i: int| 0 <= i < quotes.len() ==> proper((#[trigger] quotes[i]).amount.parts()),
        adds_up_exactly(quotes),
    ensures
        total_amount(quotes) matches Some(p) && proper(p) && value_at(p) == sum_of_amounts(quotes),
        total_worth(quotes) matches Some(w) && w * ten_to(MAX_SCALE as int) == sum_of_products(
            quotes,
        ),
    decreases quotes.len(),
{
    let whole = ten_to(MAX_SCALE as int);
    lemma_pow_positive(10, MAX_SCALE as nat);
    if quotes.len() == 0 {
        assert(value_of(0, 0) == 0) by (nonlinear_arith);
        assert(0 * whole == 0) by (nonlinear_arith);
    } else {
        let n = quotes.len() as int;
        let front = quotes.drop_last();
        let q = quotes.last();
        assert(front =~= quotes.take(n - 1));
        assert(quotes =~= quotes.take(n));
        assert forall|i: int| 0 <= i <= front.len() implies holdable(
            #[trigger] sum_of_amounts(front.take(i)),
        ) && holdable_product(sum_of_products(front.take(i))) by {
            assert(front.take(i) =~= quotes.take(i));
            assert(holdable(sum_of_amounts(quotes.take(i))));
            assert(holdable_product(sum_of_products(quotes.take(i))));
        }
        assert forall|i: int| 0 <= i <= front.len() implies holdable_product(
            #[trigger] sum_of_products(front.take(i)),
        ) by {
            assert(holdable(sum_of_amounts(front.take(i))));
        }
        assert forall|i: int| 0 <= i < front.len() implies proper(
            (#[trigger] front[i]).amount.parts(),
        ) && holdable_product(front[i].price.value() * front[i].amount.value()) by {
            assert(front[i] == quotes[i]);
        }
        lemma_totals(front);
        assert(quotes[n - 1] == q);
        // Amounts.
        assert(sum_of_amounts(quotes) == sum_of_amounts(front) + q.amount.value());
        assert(holdable(sum_of_amounts(quotes.take(n))));
        law_holdable_sums_are_exact(total_amount(front).unwrap(), q.amount.parts());
        // Products.
        let product = q.price.value() * q.amount.value();
        let p = choose|p: int| #[trigger] holdable(p) && product == p * whole;
        lemma_holdable(p, whole);
        assert(product_value(q.price.value(), q.amount.value()) == Some(p));
        let w = total_worth(front).unwrap();
        assert(sum_of_products(quotes) == sum_of_products(front) + product);
        assert(holdable_product(sum_of_products(quotes.take(n))));
        let u = choose|u: int| #[trigger] holdable(u) && sum_of_products(quotes) == u * whole;
        assert(u == w + p) by (nonlinear_arith)
            requires
                u * whole == w * whole + p * whole,
                whole > 0,
        ;
        assert(u * 1 == u);
        lemma_holdable(u, 1);
    }
}

/// The weighted average of a side is the sum of price times amount over all its quotes, divided by
/// the sum of all amounts: where nothing is rounded, the average times the sum of the amounts is the
/// sum of the products, and where the amounts add up to zero it is zero.
pub proof fn law_averages_are_weighted(average: Option<int>, quotes: Seq<Quote>, v: int)
    requires
        forall|i: int| 0 <= i < quotes.len() ==> proper((#[trigger] quotes[i]).amount.parts()),
        is_weighted(average, quotes),
        adds_up_exactly(quotes),
    ensures
        sum_of_amounts(quotes) == 0 ==> average == Some(0int),
        sum_of_amounts(quotes) != 0 && holdable(v) && v * sum_of_amounts(quotes) == sum_of_products(
            quotes,
        ) ==> average == Some(v),
{
    lemma_totals(quotes);
    let amount = total_amount(quotes).unwrap();
    let worth = total_worth(quotes).unwrap();
    let unit = ten_to(MAX_SCALE - amount.1);
    lemma_pow_positive(10, (MAX_SCALE - amount.1) as nat);
    assert(amount.0 * unit == 0 <==> amount.0 == 0) by (nonlinear_arith)
        requires
            unit > 0,
    ;
    if sum_of_amounts(quotes) != 0 && holdable(v) && v * sum_of_amounts(quotes) == sum_of_products(
        quotes,
    ) {
        let (mantissa, scale) = choose|mantissa: i128, scale: u32|
            representable(mantissa, scale) && #[trigger] value_of(mantissa, scale) == v;
        law_exact_quotients_are_kept(
            average,
            worth,
            value_at(amount),
            narrow(amount),
            mantissa,
            scale,
        );
    }
}

/// A quote more or less shows: behind a list whose totals are known, one more quote adds its amount
/// and its product, whatever it is and however many there are, and what overflows has no average.
pub proof fn law_one_more_quote(quotes: Seq<Quote>, q: Quote)
    ensures
        total_amount(quotes.push(q)) == match total_amount(quotes) {
            Some(amount) => sum_of(amount, q.amount.parts()),
            None => None,
        },
        total_value(quotes.push(q)) == match (
            total_value(quotes),
            product_parts(q.price.parts(), q.amount.parts()),
        ) {
            (Some(value), Some(p)) => sum_of(value, p),
            _ => None,
        },
        total_worth(quotes.push(q)) == match (
            total_worth(quotes),
            product_value(q.price.value(), q.amount.value()),
        ) {
            (Some(worth), Some(p)) => sum_value(worth, p),
            _ => None,
        },
        total_amount(quotes) is None ==> weighted_average(quotes) is None,
        total_amount(quotes) matches Some(amount) ==> (amount.0 != 0 && total_value(quotes) is None
            ==> weighted_average(quotes) is None),
{
    assert(quotes.push(q).drop_last() =~= quotes);
}

/// The value of an average: zero where the total amount is zero, none where a total overflows, and
/// otherwise the total worth per total amount.
pub proof fn law_averages_divide_worth_by_amount(r: Option<int>, quotes: Seq<Quote>)
    requires
        is_weighted(r, quotes),
    ensures
        total_amount(quotes) is None ==> r is None,
        total_amount(quotes) matches Some(amount) ==> {
            &&& amount.0 == 0 ==> r == Some(0int)
            &&& amount.0 != 0 && total_worth(quotes) is None ==> r is None
            &&& amount.0 != 0 ==> (total_worth(quotes) matches Some(worth) ==> is_quotient(
                r,
                worth,
                value_at(amount),
                magnitude(amount.0 as int) < 0x1_0000_0000_0000_0000,
            ))
        },
{
}

/// The midpoint is half of the sum of two prices: where a decimal can hold the sum and half of it,
/// twice the midpoint is the sum, and where a price is missing there is none.
pub proof fn law_midpoints_are_halfway(bid: int, ask: int, v: int)
    ensures
        holdable(bid + ask) && holdable(v) && 2 * v == bid + ask ==> midpoint_of(
            Some(bid),
            Some(ask),
        ) == Some(v),
        midpoint_of(None, Some(ask)) is None,
        midpoint_of(Some(bid), None) is None,
        midpoint_of(None, None) is None,
        midpoint_of(Some(bid), Some(ask)) == match sum_value(bid, ask) {
            Some(sum) => quotient_value(sum, 2 * pow(10, 28)),
            None => None,
        },
{
    if holdable(bid + ask) && holdable(v) && 2 * v == bid + ask {
        let whole = ten_to(MAX_SCALE as int);
        lemma_pow_positive(10, MAX_SCALE as nat);
        assert((bid + ask) * 1 == bid + ask);
        lemma_holdable(bid + ask, 1);
        lemma_holdable(v, 2 * whole);
        assert((bid + ask) * whole == v * (2 * whole)) by (nonlinear_arith)
            requires
                2 * v == bid + ask,
        ;
    }
}

/// A price is shown with eight digits behind the point, or as many as there is room for: it is the
/// nearest number with these digits, and of two that are equally near the one farther from zero.
pub proof fn law_shown_prices_are_nearest(d: Decimal, v: int)
    requires
        is_shown(d, v),
    ensures
        ({
            let scale = d.spec_scale();
            let unit = pow(10, (28 - scale) as nat);
            let shown = d.spec_mantissa() * unit;
            &&& scale <= 8
            &&& 2 * magnitude(shown - v) <= unit
            &&& 2 * magnitude(shown - v) == unit ==> magnitude(shown) > magnitude(v)
            &&& scale < 8 ==> 2 * magnitude(v) >= 158_456_325_028_528_675_187_087_900_671 * pow(
                10,
                (27 - scale) as nat,
            )
        }),
{
    let scale = d.spec_scale();
    lemma_shown_scale(v, PRICE_SCALE as nat);
    lemma_half_away(v, scale as int);
    if scale < PRICE_SCALE {
        let unit = ten_to(MAX_SCALE - scale - 1);
        lemma_half_away(v, scale + 1);
        let m = shown_mantissa(v, scale + 1);
        lemma_pow_positive(10, (MAX_SCALE - scale - 1) as nat);
        assert(2 * magnitude(v) >= 158_456_325_028_528_675_187_087_900_671 * unit)
            by (nonlinear_arith)
            requires
                2 * magnitude(m * unit - v) <= unit,
                m > 79_228_162_514_264_337_593_543_950_335 || m
                    < -79_228_162_514_264_337_593_543_950_335,
                unit > 0,
        {
            if m > 0 {
                assert(m * unit >= 79_228_162_514_264_337_593_543_950_336 * unit);
            } else {
                assert(m * unit <= -79_228_162_514_264_337_593_543_950_336 * unit);
            }
        }
    }
}

/// The scale of a shown price is no larger than what it is chosen from, and one digit more does not
/// fit.
proof fn lemma_shown_scale(v: int, most: nat)
    ensures
        shown_scale(v, most) <= most,
        shown_scale(v, most) < most ==> !fits(shown_mantissa(v, 1 + shown_scale(v, most) as int)),
    decreases most,
{
    if most > 0 && !fits(shown_mantissa(v, most as int)) {
        lemma_shown_scale(v, (most - 1) as nat);
    }
}

/// A shown mantissa is at most half a unit away, and where it is exactly that, farther from zero.
proof fn lemma_half_away(v: int, scale: int)
    requires
        0 <= scale <= PRICE_SCALE,
    ensures
        ({
            let unit = ten_to(MAX_SCALE - scale);
            let shown = shown_mantissa(v, scale) * unit;
            &&& 2 * magnitude(shown - v) <= unit
            &&& 2 * magnitude(shown - v) == unit ==> magnitude(shown) > magnitude(v)
        }),
{
    let unit = ten_to(MAX_SCALE - scale);
    let a = magnitude(v);
    lemma_pow_positive(10, (MAX_SCALE - scale) as nat);
    lemma_pow_adds(10, 1, (MAX_SCALE - scale - 1) as nat);
    lemma_pow1(10);
    let half = unit / 2;
    assert(unit == 2 * half);
    let size = (a + half) / unit;
    vstd::arithmetic::div_mod::lemma_fundamental_div_mod(a + half, unit);
    let r = (a + half) % unit;
    assert(size * unit == a + half - r) by (nonlinear_arith)
        requires
            a + half == unit * size + r,
    ;
    assert(0 <= r < unit);
    assert((-size) * unit == -(size * unit)) by (nonlinear_arith);
    assert(size * unit >= 0) by (nonlinear_arith)
        requires
            size * unit == a + half - r,
            a >= 0,
            unit == 2 * half,
            0 <= r < unit,
            unit > 0,
    {
        assert(size * unit > -unit);
        assert(size > -1);
    }
}

/// Without an amount the value per amount is zero, whatever the value is, and with one it is the
/// quotient of the two.
pub proof fn law_averages_without_amount_are_zero(
    value: Parts,
    amount: Parts,
    r: Option<int>,
    worth: int,
)
    ensures
        amount.0 == 0 ==> average_of(value, amount) == Some((0i128, 0u32, false)),
        amount.0 != 0 ==> average_of(value, amount) == quotient_parts(value, amount),
        amount.0 == 0 ==> (is_average(r, worth, amount) <==> r == Some(0int)),
        amount.0 != 0 && is_average(r, worth, amount) ==> is_quotient(
            r,
            worth,
            value_of(amount.0, amount.1),
            magnitude(amount.0 as int) < 0x1_0000_0000_0000_0000,
        ),
{
}

/// From quotes to the price that is shown: there is none where a side is empty. Where nothing is
/// rounded on the way, it is, to the digits that are shown, halfway between the average of the bids and
/// the average of the asks, each the sum of price times amount over all its quotes divided by the sum
/// of their amounts. It is negative where that is.
pub proof fn law_the_price_is_halfway_between_the_averages(
    r: Result<Option<Decimal>, Overflow>,
    bids: Seq<Quote>,
    asks: Seq<Quote>,
    b: int,
    a: int,
    v: int,
)
    requires
        forall|i: int| 0 <= i < bids.len() ==> proper((#[trigger] bids[i]).amount.parts()),
        forall|i: int| 0 <= i < asks.len() ==> proper((#[trigger] asks[i]).amount.parts()),
        is_weighted_price(r, bids, asks),
    ensures
        bids.len() == 0 || asks.len() == 0 ==> r == Ok::<Option<Decimal>, Overflow>(None),
        bids.len() > 0 && asks.len() > 0 && adds_up_exactly(bids) && adds_up_exactly(asks)
            && sum_of_amounts(bids) != 0 && sum_of_amounts(asks) != 0 && holdable(b) && holdable(a)
            && holdable(b + a) && holdable(v) && b * sum_of_amounts(bids) == sum_of_products(bids)
            && a * sum_of_amounts(asks) == sum_of_products(asks) && 2 * v == b + a ==> (r matches Ok(
            Some(d),
        ) && {
            let unit = pow(10, (28 - d.spec_scale()) as nat);
            &&& d.spec_scale() <= 8
            &&& 2 * magnitude(d.spec_mantissa() * unit - v) <= unit
            &&& d.spec_negative() == (v < 0)
            &&& d.spec_scale() < 8 ==> 2 * magnitude(v) >= 158_456_325_028_528_675_187_087_900_671
                * pow(10, (27 - d.spec_scale()) as nat)
        }),
        bids.len() > 0 && asks.len() > 0 ==> !(r matches Ok(None)),
{
    if bids.len() > 0 && asks.len() > 0 && adds_up_exactly(bids) && adds_up_exactly(asks)
        && sum_of_amounts(bids) != 0 && sum_of_amounts(asks) != 0 && holdable(b) && holdable(a)
        && holdable(b + a) && holdable(v) && b * sum_of_amounts(bids) == sum_of_products(bids) && a
        * sum_of_amounts(asks) == sum_of_products(asks) && 2 * v == b + a {
        law_averages_are_weighted(value_in(weighted_average(bids)), bids, b);
        law_averages_are_weighted(value_in(weighted_average(asks)), asks, a);
        law_midpoints_are_halfway(b, a, v);
        law_shown_prices_are_nearest(r.unwrap().unwrap(), v);
    }
}

} // verus!
