//! Price levels, the ticks that carry them, and the merged book.
use crate::decimal::{order_of, Decimal};
use core::cmp::Ordering;
use vstd::prelude::*;
use vstd::std_specs::cmp::{PartialEqSpec, PartialOrdSpec};

verus! {

/// An exchange whose order book feed is tracked by the engine.
#[derive(Debug, Clone, Copy, Ord, PartialOrd, Eq, PartialEq, Structural)]
pub enum Exchange {
    Bitstamp,
    Binance,
    Kraken,
    Coinbase,
}

impl Exchange {
    /// The lower-case name, as contracts see it.
    pub open spec fn name(self) -> Seq<char> {
        match self {
            Exchange::Bitstamp => "bitstamp"@,
            Exchange::Binance => "binance"@,
            Exchange::Kraken => "kraken"@,
            Exchange::Coinbase => "coinbase"@,
        }
    }

    /// The lower-case name.
    pub fn to_string(&self) -> (s: String)
        ensures
            s@ == self.name(),
    {
        match self {
            Exchange::Bitstamp => "bitstamp".to_owned(),
            Exchange::Binance => "binance".to_owned(),
            Exchange::Kraken => "kraken".to_owned(),
            Exchange::Coinbase => "coinbase".to_owned(),
        }
    }
}

/// The side of the order book a level belongs to.
#[derive(Debug, Clone, Copy, Ord, PartialOrd, Eq, PartialEq, Structural)]
pub enum Side {
    Bid,
    Ask,
}

/// A single price level in the merged order book.
#[derive(Debug, Clone, Copy)]
pub struct Level {
    pub side: Side,
    pub price: Decimal,
    pub amount: Decimal,
    pub exchange: Exchange,
}

impl Level {
    pub fn new(side: Side, price: Decimal, amount: Decimal, exchange: Exchange) -> (l: Level)
        ensures
            l == (Level { side, price, amount, exchange }),
    {
        Level { side, price, amount, exchange }
    }

    /// Whether two levels are equal: the same side and exchange, and prices and amounts of the
    /// same value.
    pub open spec fn same_as(self, other: Level) -> bool {
        &&& self.side == other.side
        &&& self.price.value() == other.price.value()
        &&& self.amount.value() == other.amount.value()
        &&& self.exchange == other.exchange
    }

    /// How two levels compare: by price, and at one price by amount, upwards for a bid and
    /// downwards for an ask.
    pub open spec fn order_to(self, other: Level) -> Ordering {
        if self.price.value() != other.price.value() {
            order_of(self.price.value(), other.price.value())
        } else {
            match self.side {
                Side::Bid => order_of(self.amount.value(), other.amount.value()),
                Side::Ask => order_of(other.amount.value(), self.amount.value()),
            }
        }
    }

    /// Whether a level compares as greater than another.
    pub open spec fn exceeds(self, other: Level) -> bool {
        self.order_to(other) is Greater
    }

    /// Compares two levels, as [`Level::order_to`] says.
    pub fn cmp(&self, other: &Level) -> (o: Ordering)
        ensures
            o == self.order_to(*other),
    {
        match (self.price.cmp(&other.price), &self.side) {
            (Ordering::Equal, Side::Bid) => self.amount.cmp(&other.amount),
            (Ordering::Equal, Side::Ask) => other.amount.cmp(&self.amount),
            (ord, _) => ord,
        }
    }
}

impl PartialEq for Level {
    fn eq(&self, other: &Level) -> (r: bool) {
        self.side == other.side && self.price == other.price && self.amount == other.amount
            && self.exchange == other.exchange
    }
}

impl vstd::std_specs::cmp::PartialEqSpecImpl for Level {
    open spec fn obeys_eq_spec() -> bool {
        true
    }

    open spec fn eq_spec(&self, other: &Level) -> bool {
        self.same_as(*other)
    }
}

impl Eq for Level {

}

impl PartialOrd for Level {
    fn partial_cmp(&self, other: &Level) -> (o: Option<Ordering>) {
        Some(self.cmp(other))
    }
}

impl vstd::std_specs::cmp::PartialOrdSpecImpl for Level {
    open spec fn obeys_partial_cmp_spec() -> bool {
        true
    }

    open spec fn partial_cmp_spec(&self, other: &Level) -> Option<Ordering> {
        Some(self.order_to(*other))
    }
}

/// Whether two lists hold equal levels in the same order.
pub open spec fn same_levels(a: Seq<Level>, b: Seq<Level>) -> bool {
    &&& a.len() == b.len()
    &&& forall|i: int| 0 <= i < a.len() ==> (#[trigger] a[i]).same_as(b[i])
}

/// Compares two lists level by level.
pub fn levels_equal(a: &Vec<Level>, b: &Vec<Level>) -> (r: bool)
    ensures
        r == same_levels(a@, b@),
{
    if a.len() != b.len() {
        return false;
    }
    let mut i: usize = 0;
    while i < a.len()
        invariant
            i <= a.len(),
            a.len() == b.len(),
            forall|j: int| 0 <= j < i ==> (#[trigger] a[j]).same_as(b[j]),
        decreases a.len() - i,
    {
        if a[i] != b[i] {
            assert(!a@[i as int].same_as(b@[i as int]));
            return false;
        }
        i += 1;
    }
    true
}

/// A fully merged order book snapshot published on every change.
#[derive(Debug)]
pub struct OutTick {
    /// Best-ask price minus best-bid price.
    pub spread: Decimal,
    /// Top-10 bids across all exchanges, highest price first.
    pub bids: Vec<Level>,
    /// Top-10 asks across all exchanges, lowest price first.
    pub asks: Vec<Level>,
}

impl OutTick {
    /// The empty book that stands before the first tick.
    pub fn new() -> (t: OutTick)
        ensures
            t.spread.parts() == (0i128, 0u32, false),
            t.spread.value() == 0,
            t.bids@ == Seq::<Level>::empty(),
            t.asks@ == Seq::<Level>::empty(),
    {
        OutTick { spread: Decimal::zero(), bids: Vec::new(), asks: Vec::new() }
    }
}

impl Clone for OutTick {
    fn clone(&self) -> (t: OutTick)
        ensures
            t.spread == self.spread,
            t.bids@ == self.bids@,
            t.asks@ == self.asks@,
    {
        OutTick { spread: self.spread, bids: self.bids.clone(), asks: self.asks.clone() }
    }
}

impl PartialEq for OutTick {
    fn eq(&self, other: &OutTick) -> (r: bool) {
        self.spread == other.spread && levels_equal(&self.bids, &other.bids) && levels_equal(
            &self.asks,
            &other.asks,
        )
    }
}

impl vstd::std_specs::cmp::PartialEqSpecImpl for OutTick {
    open spec fn obeys_eq_spec() -> bool {
        true
    }

    open spec fn eq_spec(&self, other: &OutTick) -> bool {
        &&& self.spread.value() == other.spread.value()
        &&& same_levels(self.bids@, other.bids@)
        &&& same_levels(self.asks@, other.asks@)
    }
}

/// A tick of one exchange: its snapshot, or what changed in it.
#[derive(Debug)]
pub struct InTick {
    pub exchange: Exchange,
    pub bids: Vec<Level>,
    pub asks: Vec<Level>,
}

impl PartialEq for InTick {
    fn eq(&self, other: &InTick) -> (r: bool) {
        self.exchange == other.exchange && levels_equal(&self.bids, &other.bids) && levels_equal(
            &self.asks,
            &other.asks,
        )
    }
}

impl vstd::std_specs::cmp::PartialEqSpecImpl for InTick {
    open spec fn obeys_eq_spec() -> bool {
        true
    }

    open spec fn eq_spec(&self, other: &InTick) -> bool {
        &&& self.exchange == other.exchange
        &&& same_levels(self.bids@, other.bids@)
        &&& same_levels(self.asks@, other.asks@)
    }
}

/// What an exchange sends as a level, in its own form.
pub trait ToLevel {
    /// The level, on the given side.
    fn to_level(&self, side: Side) -> Level;
}

/// A list of what an exchange sends as levels.
pub trait ToLevels {
    /// The levels on the given side, no more than `depth` of them.
    fn to_levels(&self, side: Side, depth: usize) -> Vec<Level>;
}

impl<T: ToLevel> ToLevels for Vec<T> {
    /// The first `depth` entries of the list, or all where there are fewer, each turned into a
    /// level by [`ToLevel::to_level`].
    fn to_levels(&self, side: Side, depth: usize) -> (levels: Vec<Level>)
        ensures
            levels.len() == if self.len() > depth {
                depth
            } else {
                self.len()
            },
            forall|i: int|
                0 <= i < levels.len() ==> call_ensures(
                    T::to_level,
                    (&self[i], side),
                    #[trigger] levels[i],
                ),
    {
        let count: usize = if self.len() > depth {
            depth
        } else {
            self.len()
        };
        let mut levels: Vec<Level> = Vec::new();
        let mut i: usize = 0;
        while i < count
            invariant
                i <= count <= self.len(),
                levels.len() == i,
                forall|j: int|
                    0 <= j < i ==> call_ensures(T::to_level, (&self[j], side), #[trigger] levels[j]),
            decreases count - i,
        {
            levels.push(self[i].to_level(side));
            i += 1;
        }
        levels
    }
}

/// Values compare as integers do.
pub proof fn law_values_compare_as_integers(a: int, b: int)
    ensures
        order_of(a, b) == Ordering::Less <==> a < b,
        order_of(a, b) == Ordering::Equal <==> a == b,
        order_of(a, b) == Ordering::Greater <==> a > b,
{
}

/// A level is less than another where its price is lower, or where the prices are the same and, of
/// bids, its amount is smaller, or, of asks, its amount is larger. It is equal to another in order
/// where price and amount are.
pub proof fn law_levels_compare_by_price_and_amount(a: Level, b: Level)
    ensures
        a.price.value() < b.price.value() ==> a.order_to(b) == Ordering::Less,
        a.price.value() > b.price.value() ==> a.order_to(b) == Ordering::Greater,
        a.price.value() == b.price.value() && a.amount.value() == b.amount.value() ==> a.order_to(b)
            == Ordering::Equal,
        a.price.value() == b.price.value() && a.amount.value() < b.amount.value() ==> a.order_to(b)
            == if a.side == Side::Bid {
            Ordering::Less
        } else {
            Ordering::Greater
        },
        a.price.value() == b.price.value() && a.amount.value() > b.amount.value() ==> a.order_to(b)
            == if a.side == Side::Bid {
            Ordering::Greater
        } else {
            Ordering::Less
        },
        a.exceeds(b) <==> a.order_to(b) == Ordering::Greater,
{
}

/// Levels are equal where side, exchange and the values of price and amount are, and lists of levels
/// where they are as long and equal index by index.
pub proof fn law_equal_levels_have_equal_fields(a: Level, b: Level, s: Seq<Level>, t: Seq<Level>)
    ensures
        a.same_as(b) <==> a.side == b.side && a.exchange == b.exchange && a.price.value()
            == b.price.value() && a.amount.value() == b.amount.value(),
        same_levels(s, s),
        same_levels(s, t) ==> s.len() == t.len(),
        same_levels(s, t) ==> forall|i: int| 0 <= i < s.len() ==> (#[trigger] s[i]).same_as(t[i]),
        s.len() == t.len() && (forall|i: int| 0 <= i < s.len() ==> (#[trigger] s[i]).same_as(t[i]))
            ==> same_levels(s, t),
{
}

/// Levels compare, and levels, books and ticks are equal, by the values of their numbers.
pub proof fn law_equality_is_by_value(a: Level, b: Level, t: OutTick, u: OutTick, x: InTick, y: InTick)
    ensures
        a.eq_spec(&b) <==> a.side == b.side && a.exchange == b.exchange && a.price.value()
            == b.price.value() && a.amount.value() == b.amount.value(),
        a.partial_cmp_spec(&b) == Some(a.order_to(b)),
        t.eq_spec(&u) <==> t.spread.value() == u.spread.value() && same_levels(t.bids@, u.bids@)
            && same_levels(t.asks@, u.asks@),
        x.eq_spec(&y) <==> x.exchange == y.exchange && same_levels(x.bids@, y.bids@) && same_levels(
            x.asks@,
            y.asks@,
        ),
{
}

} // verus!
