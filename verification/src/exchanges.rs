//! The state of all exchanges, the ticks that change it, and the book merged from it.
use crate::decimal::{in_range, is_close, is_sum, negated, sum_value, Decimal};
use crate::levels_map::{by_price, keep_bottom, keep_top, live, strictly_ascending, LevelsMap};
use crate::orderbook::{levels_equal, same_levels, Exchange, InTick, Level, OutTick, Side};
use crate::ranking::{is_sorting_of, lemma_merged, lemma_sorting_contains, Merge};
use vstd::prelude::*;

verus! {

/// How many levels of a side a book shows, and how many are kept of an exchange that sends diffs.
pub const DEPTH: usize = 10;

/// The last snapshot of an exchange that sends whole books.
#[derive(Debug)]
pub struct OrderDepths {
    pub bids: Vec<Level>,
    pub asks: Vec<Level>,
}

impl OrderDepths {
    pub fn new() -> (d: OrderDepths)
        ensures
            d.bids@ == Seq::<Level>::empty(),
            d.asks@ == Seq::<Level>::empty(),
    {
        OrderDepths { bids: Vec::new(), asks: Vec::new() }
    }
}

impl PartialEq for OrderDepths {
    fn eq(&self, other: &OrderDepths) -> (r: bool) {
        levels_equal(&self.bids, &other.bids) && levels_equal(&self.asks, &other.asks)
    }
}

impl vstd::std_specs::cmp::PartialEqSpecImpl for OrderDepths {
    open spec fn obeys_eq_spec() -> bool {
        true
    }

    open spec fn eq_spec(&self, other: &OrderDepths) -> bool {
        same_levels(self.bids@, other.bids@) && same_levels(self.asks@, other.asks@)
    }
}

/// The best levels of an exchange that sends diffs.
#[derive(Debug)]
pub struct OrderDepthsMap {
    pub bids: LevelsMap,
    pub asks: LevelsMap,
}

impl OrderDepthsMap {
    pub fn new() -> (d: OrderDepthsMap)
        ensures
            d.bids@ == Seq::<Level>::empty(),
            d.asks@ == Seq::<Level>::empty(),
    {
        OrderDepthsMap { bids: LevelsMap::new(), asks: LevelsMap::new() }
    }
}

impl OrderDepthsMap {
    /// Whether both sides stand in ascending order of their prices and are no deeper than ten
    /// levels.
    pub open spec fn well_formed(self) -> bool {
        &&& strictly_ascending(self.bids@) && self.bids@.len() <= DEPTH
        &&& strictly_ascending(self.asks@) && self.asks@.len() <= DEPTH
    }
}

impl PartialEq for OrderDepthsMap {
    fn eq(&self, other: &OrderDepthsMap) -> (r: bool) {
        self.bids == other.bids && self.asks == other.asks
    }
}

impl vstd::std_specs::cmp::PartialEqSpecImpl for OrderDepthsMap {
    open spec fn obeys_eq_spec() -> bool {
        true
    }

    open spec fn eq_spec(&self, other: &OrderDepthsMap) -> bool {
        same_levels(self.bids@, other.bids@) && same_levels(self.asks@, other.asks@)
    }
}

/// The depth state of all exchanges.
#[derive(Debug)]
pub struct Exchanges {
    pub bitstamp: OrderDepths,
    pub binance: OrderDepths,
    pub kraken: OrderDepthsMap,
    pub coinbase: OrderDepthsMap,
}

impl PartialEq for Exchanges {
    fn eq(&self, other: &Exchanges) -> (r: bool) {
        self.bitstamp == other.bitstamp && self.binance == other.binance && self.kraken
            == other.kraken && self.coinbase == other.coinbase
    }
}

impl vstd::std_specs::cmp::PartialEqSpecImpl for Exchanges {
    open spec fn obeys_eq_spec() -> bool {
        true
    }

    open spec fn eq_spec(&self, other: &Exchanges) -> bool {
        &&& same_levels(self.bitstamp.bids@, other.bitstamp.bids@)
        &&& same_levels(self.bitstamp.asks@, other.bitstamp.asks@)
        &&& same_levels(self.binance.bids@, other.binance.bids@)
        &&& same_levels(self.binance.asks@, other.binance.asks@)
        &&& same_levels(self.kraken.bids@, other.kraken.bids@)
        &&& same_levels(self.kraken.asks@, other.kraken.asks@)
        &&& same_levels(self.coinbase.bids@, other.coinbase.bids@)
        &&& same_levels(self.coinbase.asks@, other.coinbase.asks@)
    }
}

/// A tick, as contracts see it.
pub struct TickView {
    pub exchange: Exchange,
    pub bids: Seq<Level>,
    pub asks: Seq<Level>,
}

impl View for InTick {
    type V = TickView;

    open spec fn view(&self) -> TickView {
        TickView { exchange: self.exchange, bids: self.bids@, asks: self.asks@ }
    }
}

/// The two sides of a snapshot.
#[verifier::ext_equal]
pub struct Snapshot {
    pub bids: Seq<Level>,
    pub asks: Seq<Level>,
}

/// The two sides of a book that diffs are applied to, each by price.
#[verifier::ext_equal]
pub struct DiffBook {
    pub bids: Map<int, Level>,
    pub asks: Map<int, Level>,
}

/// The state of all exchanges, as contracts see it.
#[verifier::ext_equal]
pub struct ExchangesView {
    pub bitstamp: Snapshot,
    pub binance: Snapshot,
    pub kraken: DiffBook,
    pub coinbase: DiffBook,
}

impl View for OrderDepths {
    type V = Snapshot;

    open spec fn view(&self) -> Snapshot {
        Snapshot { bids: self.bids@, asks: self.asks@ }
    }
}

impl View for OrderDepthsMap {
    type V = DiffBook;

    open spec fn view(&self) -> DiffBook {
        DiffBook { bids: self.bids.by_price(), asks: self.asks.by_price() }
    }
}

impl View for Exchanges {
    type V = ExchangesView;

    open spec fn view(&self) -> ExchangesView {
        ExchangesView {
            bitstamp: self.bitstamp@,
            binance: self.binance@,
            kraken: self.kraken@,
            coinbase: self.coinbase@,
        }
    }
}

/// The bids after a diff: changed and new levels are taken over, levels without an amount are
/// deleted, and the highest prices are kept.
pub open spec fn diffed_bids(bids: Map<int, Level>, diff: Seq<Level>) -> Map<int, Level> {
    keep_top(live(bids.union_prefer_right(by_price(diff))), DEPTH as nat)
}

/// The asks after a diff: changed and new levels are taken over, levels without an amount are
/// deleted, and the lowest prices are kept.
pub open spec fn diffed_asks(asks: Map<int, Level>, diff: Seq<Level>) -> Map<int, Level> {
    keep_bottom(live(asks.union_prefer_right(by_price(diff))), DEPTH as nat)
}

impl TickView {
    /// What a tick makes of a snapshot: it takes its place.
    pub open spec fn snapshot(self) -> Snapshot {
        Snapshot { bids: self.bids, asks: self.asks }
    }

    /// What a tick makes of a book that diffs are applied to.
    pub open spec fn diff(self, book: DiffBook) -> DiffBook {
        DiffBook {
            bids: diffed_bids(book.bids, self.bids),
            asks: diffed_asks(book.asks, self.asks),
        }
    }
}

impl ExchangesView {
    /// No levels anywhere.
    pub open spec fn empty() -> ExchangesView {
        ExchangesView {
            bitstamp: Snapshot { bids: Seq::empty(), asks: Seq::empty() },
            binance: Snapshot { bids: Seq::empty(), asks: Seq::empty() },
            kraken: DiffBook { bids: Map::empty(), asks: Map::empty() },
            coinbase: DiffBook { bids: Map::empty(), asks: Map::empty() },
        }
    }

    /// The state after a tick: only the exchange that it comes from changes.
    pub open spec fn updated(self, t: TickView) -> ExchangesView {
        match t.exchange {
            Exchange::Bitstamp => ExchangesView { bitstamp: t.snapshot(), ..self },
            Exchange::Binance => ExchangesView { binance: t.snapshot(), ..self },
            Exchange::Kraken => ExchangesView { kraken: t.diff(self.kraken), ..self },
            Exchange::Coinbase => ExchangesView { coinbase: t.diff(self.coinbase), ..self },
        }
    }
}

/// Whether `shown` is what a book shows of a side: the levels of all exchanges, best first, cut off
/// behind the first ten. Levels of one price and one amount may stand in either order.
pub open spec fn is_best(shown: Seq<Level>, all: Seq<Level>, side: Side) -> bool {
    exists|sorted: Seq<Level>| #[trigger] is_sorting_of(sorted, all) && shown == best_of(sorted, side)
}

/// The first ten levels of a sorted list, from the end where the best stand.
pub open spec fn best_of(sorted: Seq<Level>, side: Side) -> Seq<Level> {
    let best_first = match side {
        Side::Bid => sorted.reverse(),
        Side::Ask => sorted,
    };
    if best_first.len() <= DEPTH {
        best_first
    } else {
        best_first.take(DEPTH as int)
    }
}

/// Whether `spread` is the best ask's price minus the best bid's, or zero where a side is empty. Its
/// value depends on the values of the two prices alone. It is exact wherever it needs no rounding,
/// and otherwise right to half a unit of its last digit.
pub open spec fn is_spread(spread: Decimal, bids: Seq<Level>, asks: Seq<Level>) -> bool {
    if bids.len() > 0 && asks.len() > 0 {
        let ask = asks[0].price;
        let bid = bids[0].price;
        &&& is_sum(Some(spread.parts()), ask.parts(), negated(bid.parts()))
        &&& Some(spread.value()) == sum_value(ask.value(), -bid.value())
        &&& ask.adds_exactly_to(bid, -1) ==> spread.value() == ask.value() - bid.value()
        &&& is_close(spread.parts(), ask.value() - bid.value())
    } else {
        spread.parts() == (0i128, 0u32, false)
    }
}

/// Whether a level has the highest price of a list.
pub open spec fn is_highest(l: Level, all: Seq<Level>) -> bool {
    &&& all.contains(l)
    &&& forall|i: int| 0 <= i < all.len() ==> (#[trigger] all[i]).price.value() <= l.price.value()
}

/// Whether a level has the lowest price of a list.
pub open spec fn is_lowest(l: Level, all: Seq<Level>) -> bool {
    &&& all.contains(l)
    &&& forall|i: int| 0 <= i < all.len() ==> (#[trigger] all[i]).price.value() >= l.price.value()
}

/// The levels of four lists, sorted.
fn merge_all(
    bitstamp: &Vec<Level>,
    binance: &Vec<Level>,
    kraken: &LevelsMap,
    coinbase: &LevelsMap,
) -> (merged: Vec<Level>)
    ensures
        is_sorting_of(merged@, bitstamp@ + binance@ + kraken@ + coinbase@),
{
    let two = bitstamp.clone().merge(binance);
    let ghost sorted2 = two@;
    let three = two.merge_map(kraken);
    let ghost sorted3 = three@;
    let merged = three.merge_map(coinbase);
    proof {
        lemma_merged(sorted2, bitstamp@ + binance@, kraken@, sorted3);
        lemma_merged(sorted3, bitstamp@ + binance@ + kraken@, coinbase@, merged@);
    }
    merged
}

/// What a book shows of a sorted side.
fn shown(sorted: &Vec<Level>, side: Side) -> (best: Vec<Level>)
    ensures
        best@ == best_of(sorted@, side),
{
    let len: usize = sorted.len();
    let count: usize = if len <= DEPTH {
        len
    } else {
        DEPTH
    };
    let mut best: Vec<Level> = Vec::new();
    let mut i: usize = 0;
    while i < count
        invariant
            i <= count <= len == sorted.len(),
            best.len() == i,
            forall|j: int|
                0 <= j < i ==> #[trigger] best[j] == match side {
                    Side::Bid => sorted[len - 1 - j],
                    Side::Ask => sorted[j],
                },
        decreases count - i,
    {
        match side {
            Side::Bid => best.push(sorted[len - 1 - i]),
            Side::Ask => best.push(sorted[i]),
        }
        i += 1;
    }
    proof {
        assert(best@ =~= best_of(sorted@, side));
    }
    best
}

/// The first level that a book shows has the best price.
pub proof fn lemma_first_is_best(sorted: Seq<Level>, all: Seq<Level>)
    requires
        is_sorting_of(sorted, all),
    ensures
        best_of(sorted, Side::Bid).len() > 0 <==> all.len() > 0,
        best_of(sorted, Side::Ask).len() > 0 <==> all.len() > 0,
        all.len() > 0 ==> is_highest(best_of(sorted, Side::Bid)[0], all),
        all.len() > 0 ==> is_lowest(best_of(sorted, Side::Ask)[0], all),
{
    lemma_sorting_contains(sorted, all);
    if all.len() > 0 {
        let bid = best_of(sorted, Side::Bid)[0];
        let ask = best_of(sorted, Side::Ask)[0];
        assert(bid == sorted[sorted.len() - 1]);
        assert(ask == sorted[0]);
        assert(sorted.contains(bid) && sorted.contains(ask));
        assert forall|i: int| 0 <= i < all.len() implies (#[trigger] all[i]).price.value()
            <= bid.price.value() && all[i].price.value() >= ask.price.value() by {
            assert(sorted.contains(all[i]));
            let j = choose|j: int| 0 <= j < sorted.len() && sorted[j] == all[i];
            assert(sorted[0].price.value() <= sorted[j].price.value());
            assert(sorted[j].price.value() <= sorted[sorted.len() - 1].price.value());
        }
    }
}

/// Whether the spread is in range can be seen from one lowest ask and one highest bid.
proof fn lemma_spread_in_range(e: Exchanges, ask: Level, bid: Level)
    requires
        is_lowest(ask, e.all_asks()),
        is_highest(bid, e.all_bids()),
    ensures
        e.spread_in_range() <==> in_range(ask.price.value() - bid.price.value()),
{
    assert forall|a: Level, b: Level| #[trigger]
        is_lowest(a, e.all_asks()) && #[trigger] is_highest(b, e.all_bids()) implies a.price.value()
        == ask.price.value() && b.price.value() == bid.price.value() by {
        let asks = e.all_asks();
        let bids = e.all_bids();
        let i = choose|i: int| 0 <= i < asks.len() && asks[i] == a;
        let j = choose|j: int| 0 <= j < asks.len() && asks[j] == ask;
        assert(asks[i].price.value() >= ask.price.value() && asks[j].price.value()
            >= a.price.value());
        let k = choose|k: int| 0 <= k < bids.len() && bids[k] == b;
        let l = choose|l: int| 0 <= l < bids.len() && bids[l] == bid;
        assert(bids[k].price.value() <= bid.price.value() && bids[l].price.value()
            <= b.price.value());
    }
}

impl Exchanges {
    /// The bids of all exchanges.
    pub open spec fn all_bids(self) -> Seq<Level> {
        self.bitstamp.bids@ + self.binance.bids@ + self.kraken.bids@ + self.coinbase.bids@
    }

    /// The asks of all exchanges.
    pub open spec fn all_asks(self) -> Seq<Level> {
        self.bitstamp.asks@ + self.binance.asks@ + self.kraken.asks@ + self.coinbase.asks@
    }

    /// Whether the books that diffs are applied to stand in ascending order of their prices, and
    /// none of their sides is deeper than ten levels.
    pub open spec fn well_formed(self) -> bool {
        &&& self.kraken.well_formed()
        &&& self.coinbase.well_formed()
    }

    /// Whether the books that diffs are applied to stand in ascending order of their prices.
    pub open spec fn ascending(self) -> bool {
        &&& strictly_ascending(self.kraken.bids@) && strictly_ascending(self.kraken.asks@)
        &&& strictly_ascending(self.coinbase.bids@) && strictly_ascending(self.coinbase.asks@)
    }

    /// Whether the spread does not overflow: the lowest ask minus the highest bid is in range.
    pub open spec fn spread_in_range(self) -> bool {
        forall|a: Level, b: Level| #[trigger]
            is_lowest(a, self.all_asks()) && #[trigger] is_highest(b, self.all_bids()) ==> in_range(
                a.price.value() - b.price.value(),
            )
    }

    /// Whether a tick shows the book that is merged from this state.
    pub open spec fn shows(self, t: OutTick) -> bool {
        &&& is_best(t.bids@, self.all_bids(), Side::Bid)
        &&& is_best(t.asks@, self.all_asks(), Side::Ask)
        &&& is_spread(t.spread, t.bids@, t.asks@)
    }

    pub fn new() -> (e: Exchanges)
        ensures
            e@ == ExchangesView::empty(),
            e.all_bids() == Seq::<Level>::empty(),
            e.all_asks() == Seq::<Level>::empty(),
            e.well_formed(),
    {
        Exchanges {
            bitstamp: OrderDepths::new(),
            binance: OrderDepths::new(),
            kraken: OrderDepthsMap::new(),
            coinbase: OrderDepthsMap::new(),
        }
    }

    /// Applies an incoming tick from one exchange to the local depth state.
    pub fn update(&mut self, t: InTick)
        ensures
            final(self)@ == old(self)@.updated(t@),
            old(self).well_formed() ==> final(self).well_formed(),
            old(self).ascending(),
            final(self).ascending(),
    {
        proof {
            use_type_invariant(&self.kraken.bids);
            use_type_invariant(&self.kraken.asks);
            use_type_invariant(&self.coinbase.bids);
            use_type_invariant(&self.coinbase.asks);
        }
        match t.exchange {
            Exchange::Bitstamp => {
                self.bitstamp.bids = t.bids;
                self.bitstamp.asks = t.asks;
            },
            Exchange::Binance => {
                self.binance.bids = t.bids;
                self.binance.asks = t.asks;
            },
            Exchange::Kraken => {
                let bids = LevelsMap::from_levels(t.bids);
                let asks = LevelsMap::from_levels(t.asks);
                self.kraken.bids.extend_and_keep_top(bids, DEPTH);
                self.kraken.asks.extend_and_keep_bottom(asks, DEPTH);
            },
            Exchange::Coinbase => {
                let bids = LevelsMap::from_levels(t.bids);
                let asks = LevelsMap::from_levels(t.asks);
                self.coinbase.bids.extend_and_keep_top(bids, DEPTH);
                self.coinbase.asks.extend_and_keep_bottom(asks, DEPTH);
            },
        }
    }

    /// Returns a merged [`OutTick`] across all exchange depth states, or `None` where the spread
    /// overflows.
    pub fn try_to_tick(&self) -> (t: Option<OutTick>)
        ensures
            t is Some <==> self.spread_in_range(),
            t matches Some(t) ==> self.shows(t),
    {
        let sorted_bids = merge_all(
            &self.bitstamp.bids,
            &self.binance.bids,
            &self.kraken.bids,
            &self.coinbase.bids,
        );
        let sorted_asks = merge_all(
            &self.bitstamp.asks,
            &self.binance.asks,
            &self.kraken.asks,
            &self.coinbase.asks,
        );
        let bids = shown(&sorted_bids, Side::Bid);
        let asks = shown(&sorted_asks, Side::Ask);
        proof {
            lemma_first_is_best(sorted_bids@, self.all_bids());
            lemma_first_is_best(sorted_asks@, self.all_asks());
        }
        if bids.len() == 0 || asks.len() == 0 {
            return Some(OutTick { spread: Decimal::zero(), bids, asks });
        }
        proof {
            lemma_spread_in_range(*self, asks@[0], bids@[0]);
        }
        match asks[0].price.checked_sub(bids[0].price) {
            Some(spread) => Some(OutTick { spread, bids, asks }),
            None => None,
        }
    }

    /// Returns a merged [`OutTick`] across all exchange depth states.
    pub fn to_tick(&self) -> (t: OutTick)
        requires
            self.spread_in_range(),
        ensures
            self.shows(t),
    {
        self.try_to_tick().unwrap()
    }
}

} // verus!
