//! What the engine runs, and how its aggregator answers what happens to it.
use crate::effects::{
    is_last_at_its_price, law_asks_of_a_tick_reach_the_book, law_bids_of_a_tick_reach_the_book,
};
use crate::exchanges::{Exchanges, ExchangesView};
use crate::orderbook::{Exchange, InTick, Level, OutTick};
use vstd::prelude::*;

verus! {

/// `String::from` of a string slice: the string holds the characters of the slice.
pub assume_specification<'a>[ <String as From<&'a str>>::from ](s: &str) -> (r: String)
    ensures
        r@ == s@,
;

/// How many ticks may wait between the workers and the aggregator. Backpressure prevents unbounded
/// queue growth when the aggregator falls behind.
pub const CHANNEL_CAPACITY: usize = 256;

/// Aggregates order book feeds from Bitstamp, Binance, Kraken, and Coinbase for a single trading
/// symbol.
pub struct OrderlyEngine {
    symbol: String,
}

/// A worker that is to be run: the exchange it connects to, and the symbol it subscribes to.
pub struct WorkerTask {
    pub exchange: Exchange,
    pub symbol: String,
}

/// The exchanges of a list of workers.
pub open spec fn exchanges_of(tasks: Seq<WorkerTask>) -> Seq<Exchange> {
    tasks.map_values(|t: WorkerTask| t.exchange)
}

/// Whether every worker of a list subscribes to `symbol`.
pub open spec fn all_subscribe_to(tasks: Seq<WorkerTask>, symbol: Seq<char>) -> bool {
    forall|i: int| 0 <= i < tasks.len() ==> (#[trigger] tasks[i]).symbol@ == symbol
}

impl OrderlyEngine {
    /// The trading pair symbol, as contracts see it.
    pub closed spec fn spec_symbol(self) -> String {
        self.symbol
    }

    /// Creates a new engine for the given trading pair symbol (e.g. `"ETH/BTC"`).
    pub fn new<S: Into<String>>(symbol: S) -> (e: OrderlyEngine)
        ensures
            call_ensures(S::into, (symbol,), e.spec_symbol()),
    {
        OrderlyEngine { symbol: symbol.into() }
    }

    /// The trading pair symbol.
    pub fn symbol(&self) -> (s: &str)
        ensures
            s@ == self.spec_symbol()@,
    {
        self.symbol.as_str()
    }

    /// The workers that the engine runs: one for each exchange, always all four.
    pub fn workers(&self) -> (tasks: Vec<WorkerTask>)
        ensures
            exchanges_of(tasks@) == seq![
                Exchange::Bitstamp,
                Exchange::Binance,
                Exchange::Kraken,
                Exchange::Coinbase,
            ],
            all_subscribe_to(tasks@, self.spec_symbol()@),
    {
        let mut tasks: Vec<WorkerTask> = Vec::new();
        tasks.push(WorkerTask { exchange: Exchange::Bitstamp, symbol: self.symbol.clone() });
        tasks.push(WorkerTask { exchange: Exchange::Binance, symbol: self.symbol.clone() });
        tasks.push(WorkerTask { exchange: Exchange::Kraken, symbol: self.symbol.clone() });
        tasks.push(WorkerTask { exchange: Exchange::Coinbase, symbol: self.symbol.clone() });
        proof {
            assert(exchanges_of(tasks@) =~= seq![
                Exchange::Bitstamp,
                Exchange::Binance,
                Exchange::Kraken,
                Exchange::Coinbase,
            ]);
        }
        tasks
    }
}

/// An exchange, unless it is disabled.
pub open spec fn unless(disabled: bool, exchange: Exchange) -> Seq<Exchange> {
    if disabled {
        Seq::empty()
    } else {
        seq![exchange]
    }
}

/// The exchanges that are not disabled, in the order in which their workers are started.
pub open spec fn enabled(
    no_bitstamp: bool,
    no_binance: bool,
    no_kraken: bool,
    no_coinbase: bool,
) -> Seq<Exchange> {
    unless(no_kraken, Exchange::Kraken) + unless(no_binance, Exchange::Binance) + unless(
        no_bitstamp,
        Exchange::Bitstamp,
    ) + unless(no_coinbase, Exchange::Coinbase)
}

/// The workers of the exchanges that are not disabled.
pub fn enabled_workers(
    symbol: &str,
    no_bitstamp: bool,
    no_binance: bool,
    no_kraken: bool,
    no_coinbase: bool,
) -> (tasks: Vec<WorkerTask>)
    ensures
        exchanges_of(tasks@) == enabled(no_bitstamp, no_binance, no_kraken, no_coinbase),
        all_subscribe_to(tasks@, symbol@),
{
    let mut tasks: Vec<WorkerTask> = Vec::new();
    if !no_kraken {
        tasks.push(WorkerTask { exchange: Exchange::Kraken, symbol: String::from(symbol) });
    }
    if !no_binance {
        tasks.push(WorkerTask { exchange: Exchange::Binance, symbol: String::from(symbol) });
    }
    if !no_bitstamp {
        tasks.push(WorkerTask { exchange: Exchange::Bitstamp, symbol: String::from(symbol) });
    }
    if !no_coinbase {
        tasks.push(WorkerTask { exchange: Exchange::Coinbase, symbol: String::from(symbol) });
    }
    proof {
        assert(exchanges_of(tasks@) =~= enabled(no_bitstamp, no_binance, no_kraken, no_coinbase));
    }
    tasks
}

/// The name under which the worker of an exchange logs, as contracts see it.
pub open spec fn worker_label(exchange: Exchange) -> Seq<char> {
    match exchange {
        Exchange::Bitstamp => "Bitstamp"@,
        Exchange::Binance => "Binance"@,
        Exchange::Kraken => "Kraken"@,
        Exchange::Coinbase => "Coinbase"@,
    }
}

/// The name under which the worker of an exchange logs.
pub fn worker_name(exchange: Exchange) -> (name: &'static str)
    ensures
        name@ == worker_label(exchange),
{
    match exchange {
        Exchange::Bitstamp => "Bitstamp",
        Exchange::Binance => "Binance",
        Exchange::Kraken => "Kraken",
        Exchange::Coinbase => "Coinbase",
    }
}

/// What happens to the aggregator.
pub enum AggregatorEvent {
    /// A worker sent a tick.
    Tick(InTick),
    /// Every worker has stopped.
    FeedsClosed,
    /// A merged tick was sent, and someone was there to receive it or not.
    Published { delivered: bool },
}

/// What the aggregator does next.
pub enum AggregatorAction {
    /// Wait for the next tick.
    Receive,
    /// Send a merged tick.
    Publish(OutTick),
    /// The spread of the merged book overflows: there is no tick to send.
    Overflow,
    /// Stop.
    Stop,
}

/// Merges incoming ticks from all exchange workers into one book.
pub struct Aggregator {
    pub exchanges: Exchanges,
}

/// Whether an aggregator goes from one state to another on an event and does `action` about it.
pub open spec fn is_step(
    before: Aggregator,
    event: AggregatorEvent,
    after: Aggregator,
    action: AggregatorAction,
) -> bool {
    match event {
        AggregatorEvent::Tick(t) => {
            &&& after.exchanges@ == before.exchanges@.updated(t@)
            &&& before.exchanges.ascending()
            &&& after.exchanges.ascending()
            &&& before.exchanges.well_formed() ==> after.exchanges.well_formed()
            &&& if after.exchanges.spread_in_range() {
                action matches AggregatorAction::Publish(out) && after.exchanges.shows(out)
            } else {
                action is Overflow
            }
        },
        AggregatorEvent::FeedsClosed => after == before && action is Stop,
        AggregatorEvent::Published { delivered } => {
            &&& after == before
            &&& if delivered {
                action is Receive
            } else {
                action is Stop
            }
        },
    }
}

impl Aggregator {
    pub fn new() -> (a: Aggregator)
        ensures
            a.exchanges@ == ExchangesView::empty(),
            a.exchanges.well_formed(),
    {
        Aggregator { exchanges: Exchanges::new() }
    }

    /// Takes in an event and says what is to be done next. A tick changes the state and is answered
    /// with the merged book. The aggregator stops when all workers have stopped or when nobody
    /// receives its ticks any more.
    pub fn step(&mut self, event: AggregatorEvent) -> (action: AggregatorAction)
        ensures
            is_step(*old(self), event, *final(self), action),
    {
        match event {
            AggregatorEvent::Tick(t) => {
                self.exchanges.update(t);
                match self.exchanges.try_to_tick() {
                    Some(out) => AggregatorAction::Publish(out),
                    None => AggregatorAction::Overflow,
                }
            },
            AggregatorEvent::FeedsClosed => AggregatorAction::Stop,
            AggregatorEvent::Published { delivered } => {
                if delivered {
                    AggregatorAction::Receive
                } else {
                    AggregatorAction::Stop
                }
            },
        }
    }
}

/// Every exchange that is not disabled has one worker, and a disabled one has none.
pub proof fn law_enabled_exchanges_have_one_worker(
    no_bitstamp: bool,
    no_binance: bool,
    no_kraken: bool,
    no_coinbase: bool,
)
    ensures
        ({
            let e = enabled(no_bitstamp, no_binance, no_kraken, no_coinbase);
            &&& e.contains(Exchange::Bitstamp) <==> !no_bitstamp
            &&& e.contains(Exchange::Binance) <==> !no_binance
            &&& e.contains(Exchange::Kraken) <==> !no_kraken
            &&& e.contains(Exchange::Coinbase) <==> !no_coinbase
            &&& e.no_duplicates()
        }),
{
    let e = enabled(no_bitstamp, no_binance, no_kraken, no_coinbase);
    let k: int = if no_kraken { 0 } else { 1 };
    let b: int = if no_binance { k } else { k + 1 };
    let s: int = if no_bitstamp { b } else { b + 1 };
    if !no_kraken {
        assert(e[0] == Exchange::Kraken);
    }
    if !no_binance {
        assert(e[k] == Exchange::Binance);
    }
    if !no_bitstamp {
        assert(e[b] == Exchange::Bitstamp);
    }
    if !no_coinbase {
        assert(e[s] == Exchange::Coinbase);
    }
}

/// The exchanges of a list of workers are those of the workers, index by index, and a list subscribes
/// to a symbol where each of its workers does.
pub proof fn law_workers_have_their_exchange(tasks: Seq<WorkerTask>, symbol: Seq<char>)
    ensures
        exchanges_of(tasks).len() == tasks.len(),
        forall|i: int|
            0 <= i < tasks.len() ==> #[trigger] exchanges_of(tasks)[i] == tasks[i].exchange,
        all_subscribe_to(tasks, symbol) ==> forall|i: int|
            0 <= i < tasks.len() ==> (#[trigger] tasks[i]).symbol@ == symbol,
{
}

/// A worker logs under the name of its exchange, which differs from the lower-case name in its first
/// letter alone. No two exchanges have the same name.
pub proof fn law_workers_are_named_after_their_exchange(exchange: Exchange, other: Exchange)
    ensures
        worker_label(exchange).skip(1) == exchange.name().skip(1),
        worker_label(exchange).len() == exchange.name().len(),
        exchange.name()[0] == 'b' ==> worker_label(exchange)[0] == 'B',
        exchange.name()[0] == 'k' ==> worker_label(exchange)[0] == 'K',
        exchange.name()[0] == 'c' ==> worker_label(exchange)[0] == 'C',
        exchange.name()[0] == 'k' <==> exchange == Exchange::Kraken,
        exchange.name()[0] == 'c' <==> exchange == Exchange::Coinbase,
        exchange.name() == "bitstamp"@ <==> exchange == Exchange::Bitstamp,
        exchange.name() == "binance"@ <==> exchange == Exchange::Binance,
        exchange.name() == other.name() ==> exchange == other,
{
    reveal_strlit("bitstamp");
    reveal_strlit("binance");
    reveal_strlit("kraken");
    reveal_strlit("coinbase");
    reveal_strlit("Bitstamp");
    reveal_strlit("Binance");
    reveal_strlit("Kraken");
    reveal_strlit("Coinbase");
    assert(worker_label(exchange).skip(1) =~= exchange.name().skip(1));
}

/// Every tick, whatever it holds, is answered with a book or with an overflow, and nothing else is. The
/// aggregator stops exactly when all workers have stopped or nobody receives its books, and waits for
/// the next tick exactly when a book was received. Only a tick changes its state.
pub proof fn law_every_tick_is_published(
    before: Aggregator,
    event: AggregatorEvent,
    after: Aggregator,
    action: AggregatorAction,
)
    requires
        is_step(before, event, after, action),
    ensures
        event is Tick <==> action is Publish || action is Overflow,
        event is Tick ==> (action is Overflow <==> !after.exchanges.spread_in_range()),
        action is Stop <==> event == AggregatorEvent::FeedsClosed || event == (
        AggregatorEvent::Published { delivered: false }),
        action is Receive <==> event == (AggregatorEvent::Published { delivered: true }),
        !(event is Tick) ==> after == before,
        event matches AggregatorEvent::Tick(t) ==> after.exchanges@ == before.exchanges@.updated(t@),
{
}

/// The book that is published after a tick takes in what the tick brought: each of its levels that
/// holds an amount and is the last at its price, unless ten levels are shown at prices no worse.
pub proof fn law_published_books_take_in_the_tick(
    before: Aggregator,
    t: InTick,
    after: Aggregator,
    out: OutTick,
    l: Level,
)
    requires
        is_step(before, AggregatorEvent::Tick(t), after, AggregatorAction::Publish(out)),
        l.amount.value() != 0,
    ensures
        is_last_at_its_price(l, t.bids@) ==> out.bids@.contains(l) || (out.bids@.len() == 10
            && forall|i: int|
            0 <= i < out.bids@.len() ==> (#[trigger] out.bids@[i]).price.value()
                >= l.price.value()),
        is_last_at_its_price(l, t.asks@) ==> out.asks@.contains(l) || (out.asks@.len() == 10
            && forall|i: int|
            0 <= i < out.asks@.len() ==> (#[trigger] out.asks@[i]).price.value()
                <= l.price.value()),
{
    if is_last_at_its_price(l, t.bids@) {
        law_bids_of_a_tick_reach_the_book(before.exchanges, t, after.exchanges, out, l);
    }
    if is_last_at_its_price(l, t.asks@) {
        law_asks_of_a_tick_reach_the_book(before.exchanges, t, after.exchanges, out, l);
    }
}

} // verus!
