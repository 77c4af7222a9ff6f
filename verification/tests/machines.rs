//! The engine, its aggregator, the workers and the closing handshake, event by event.
use orderly::decimal::{Decimal, MAX_MANTISSA};
use orderly::engine::{
    enabled_workers, worker_name, Aggregator, AggregatorAction, AggregatorEvent, OrderlyEngine,
};
use orderly::error::Error;
use orderly::orderbook::{Exchange, InTick, Level, Side};
use orderly::websocket::{Closing, ClosingAction, ClosingEvent};
use orderly::worker::{Worker, WorkerAction, WorkerEvent};

const SECOND: u128 = 1_000_000_000;

fn level(side: Side, price: i128) -> Level {
    Level::new(side, Decimal::from_parts(price, 0).unwrap(), Decimal::two(), Exchange::Kraken)
}

fn kraken_tick(bid: i128, ask: i128) -> InTick {
    InTick {
        exchange: Exchange::Kraken,
        bids: vec![level(Side::Bid, bid)],
        asks: vec![level(Side::Ask, ask)],
    }
}

fn connected(now: u128) -> Worker {
    let (mut worker, first) = Worker::start();
    assert!(matches!(first, WorkerAction::Connect));
    assert!(matches!(worker.step(WorkerEvent::Connected { now }), WorkerAction::Listen));
    worker
}

fn sleep_secs(action: WorkerAction) -> u64 {
    match action {
        WorkerAction::Sleep { secs } => secs,
        _ => panic!("no sleep"),
    }
}

#[test]
fn the_engine_runs_all_four_workers() {
    let engine = OrderlyEngine::new("ETH/BTC");
    assert_eq!(engine.symbol(), "ETH/BTC");
    let tasks = engine.workers();
    let exchanges: Vec<Exchange> = tasks.iter().map(|t| t.exchange).collect();
    assert_eq!(
        exchanges,
        vec![Exchange::Bitstamp, Exchange::Binance, Exchange::Kraken, Exchange::Coinbase]
    );
    assert!(tasks.iter().all(|t| t.symbol == "ETH/BTC"));
    assert_eq!(OrderlyEngine::new(String::from("BTC/USD")).symbol(), "BTC/USD");
}

#[test]
fn disabled_exchanges_get_no_worker() {
    let chosen = |a, b, c, d| -> Vec<Exchange> {
        let tasks = enabled_workers("BTC/USD", a, b, c, d);
        assert!(tasks.iter().all(|t| t.symbol == "BTC/USD"));
        tasks.iter().map(|t| t.exchange).collect()
    };
    assert_eq!(
        chosen(false, false, false, false),
        vec![Exchange::Kraken, Exchange::Binance, Exchange::Bitstamp, Exchange::Coinbase]
    );
    assert_eq!(chosen(true, false, true, false), vec![Exchange::Binance, Exchange::Coinbase]);
    assert_eq!(chosen(false, true, false, true), vec![Exchange::Kraken, Exchange::Bitstamp]);
    assert_eq!(chosen(true, true, true, true), vec![]);
}

#[test]
fn workers_are_named_after_their_exchange() {
    assert_eq!(worker_name(Exchange::Bitstamp), "Bitstamp");
    assert_eq!(worker_name(Exchange::Binance), "Binance");
    assert_eq!(worker_name(Exchange::Kraken), "Kraken");
    assert_eq!(worker_name(Exchange::Coinbase), "Coinbase");
}

#[test]
fn the_aggregator_publishes_every_tick() {
    let mut aggregator = Aggregator::new();
    match aggregator.step(AggregatorEvent::Tick(kraken_tick(10, 12))) {
        AggregatorAction::Publish(out) => {
            assert_eq!(out.spread, Decimal::two());
            assert_eq!(out.bids, vec![level(Side::Bid, 10)]);
            assert_eq!(out.asks, vec![level(Side::Ask, 12)]);
        }
        _ => panic!("no tick"),
    }
    assert!(matches!(
        aggregator.step(AggregatorEvent::Published { delivered: true }),
        AggregatorAction::Receive
    ));
    match aggregator.step(AggregatorEvent::Tick(kraken_tick(11, 13))) {
        AggregatorAction::Publish(out) => {
            assert_eq!(out.bids, vec![level(Side::Bid, 11), level(Side::Bid, 10)]);
            assert_eq!(out.asks, vec![level(Side::Ask, 12), level(Side::Ask, 13)]);
        }
        _ => panic!("no tick"),
    }
}

#[test]
fn the_aggregator_stops_without_workers_or_receivers() {
    let mut aggregator = Aggregator::new();
    assert!(matches!(
        aggregator.step(AggregatorEvent::Published { delivered: false }),
        AggregatorAction::Stop
    ));
    assert!(matches!(aggregator.step(AggregatorEvent::FeedsClosed), AggregatorAction::Stop));
}

#[test]
fn the_aggregator_reports_an_overflow() {
    let mut aggregator = Aggregator::new();
    let action = aggregator.step(AggregatorEvent::Tick(kraken_tick(-MAX_MANTISSA, MAX_MANTISSA)));
    assert!(matches!(action, AggregatorAction::Overflow));
}

#[test]
fn the_backoff_doubles_up_to_a_minute() {
    let (mut worker, _) = Worker::start();
    let mut waits: Vec<u64> = Vec::new();
    for _ in 0..9 {
        waits.push(sleep_secs(worker.step(WorkerEvent::ConnectFailed)));
        assert!(matches!(worker.step(WorkerEvent::Slept), WorkerAction::Connect));
    }
    assert_eq!(waits, vec![1, 2, 4, 8, 16, 32, 60, 60, 60]);
    worker.step(WorkerEvent::Connected { now: 5 });
    assert_eq!(sleep_secs(worker.step(WorkerEvent::StreamEnded)), 1);
    assert_eq!(sleep_secs(worker.step(WorkerEvent::ConnectFailed)), 2);
}

#[test]
fn every_failure_makes_a_worker_reconnect() {
    let failures = || {
        vec![
            WorkerEvent::ConnectFailed,
            WorkerEvent::ReadTimedOut,
            WorkerEvent::StreamEnded,
            WorkerEvent::SocketFailed,
            WorkerEvent::CloseFrame,
            WorkerEvent::BadFrame,
            WorkerEvent::Sent { ok: false },
            WorkerEvent::PingDue { now: 31 * SECOND },
        ]
    };
    for failure in failures() {
        let mut worker = connected(0);
        assert_eq!(sleep_secs(worker.step(failure)), 1);
        assert!(matches!(worker.step(WorkerEvent::Slept), WorkerAction::Connect));
    }
}

#[test]
fn stale_connections_are_dropped() {
    let mut worker = connected(100 * SECOND);
    assert!(matches!(worker.step(WorkerEvent::PingDue { now: 115 * SECOND }), WorkerAction::SendPing));
    assert!(matches!(worker.step(WorkerEvent::Sent { ok: true }), WorkerAction::Listen));
    assert!(matches!(worker.step(WorkerEvent::PingDue { now: 130 * SECOND }), WorkerAction::SendPing));
    assert!(matches!(worker.step(WorkerEvent::PongFrame { now: 131 * SECOND }), WorkerAction::Listen));
    assert!(matches!(worker.step(WorkerEvent::PingDue { now: 161 * SECOND }), WorkerAction::SendPing));
    assert!(matches!(worker.step(WorkerEvent::OtherFrame), WorkerAction::Listen));
    assert_eq!(sleep_secs(worker.step(WorkerEvent::PingDue { now: 161 * SECOND + 1 })), 1);
    // A clock that stands before the last data is not stale.
    let mut worker = connected(100);
    assert!(matches!(worker.step(WorkerEvent::PingDue { now: 0 }), WorkerAction::SendPing));
}

#[test]
fn ticks_are_forwarded_until_the_aggregator_is_gone() {
    let mut worker = connected(0);
    match worker.step(WorkerEvent::Tick { tick: kraken_tick(1, 2), now: 40 * SECOND }) {
        WorkerAction::Forward(tick) => assert_eq!(tick, kraken_tick(1, 2)),
        _ => panic!("not forwarded"),
    }
    assert!(matches!(worker.step(WorkerEvent::Forwarded { ok: true }), WorkerAction::Listen));
    assert!(matches!(worker.step(WorkerEvent::PingDue { now: 70 * SECOND }), WorkerAction::SendPing));
    assert!(matches!(worker.step(WorkerEvent::Forwarded { ok: false }), WorkerAction::Exit));
}

#[test]
fn pings_are_answered_with_their_payload() {
    let mut worker = connected(0);
    match worker.step(WorkerEvent::PingFrame(vec![1, 2, 3])) {
        WorkerAction::SendPong(payload) => assert_eq!(payload, vec![1, 2, 3]),
        _ => panic!("no pong"),
    }
}

#[test]
fn a_close_ends_with_the_reply_or_the_stream() {
    for end in [ClosingEvent::CloseFrame, ClosingEvent::StreamEnded] {
        let (mut closing, first) = Closing::start();
        assert!(matches!(first, ClosingAction::SendClose));
        assert!(matches!(closing.step(ClosingEvent::CloseSent), ClosingAction::Read));
        assert!(matches!(closing.step(ClosingEvent::OtherFrame), ClosingAction::Read));
        assert!(matches!(closing.step(end), ClosingAction::Done));
    }
}

#[test]
fn a_close_gives_up_after_five_frames() {
    let (mut closing, _) = Closing::start();
    let mut action = closing.step(ClosingEvent::CloseSent);
    let mut reads = 0;
    while matches!(action, ClosingAction::Read) {
        reads += 1;
        action = closing.step(ClosingEvent::OtherFrame);
    }
    assert_eq!(reads, 5);
    assert!(matches!(action, ClosingAction::Done));
}

#[test]
fn a_close_reads_up_to_the_reply() {
    for others in 0..8 {
        let (mut closing, _) = Closing::start();
        let mut action = closing.step(ClosingEvent::CloseSent);
        let mut reads = 0;
        while matches!(action, ClosingAction::Read) {
            reads += 1;
            action = closing.step(if reads <= others { ClosingEvent::OtherFrame } else { ClosingEvent::CloseFrame });
        }
        assert_eq!(reads, 5.min(others + 1));
    }
}

#[test]
fn errors_say_what_failed() {
    let text = || String::from("details");
    assert_eq!(Error::BadConnection(text()).to_string(), "WebSocket connection error: details");
    assert_eq!(Error::BadData(text()).to_string(), "Data parse error: details");
    assert_eq!(Error::IoError(text()).to_string(), "I/O error: details");
    assert_eq!(Error::BadAddr(text()).to_string(), "Address parse error: details");
}
