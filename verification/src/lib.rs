//! `orderly`: the verified core of a merged order book aggregator.
//!
//! Four exchanges send ticks: two of them whole snapshots, two of them diffs. [`exchanges`] applies
//! the ticks to the state of each exchange and merges all of them into one book of the ten best bids
//! and asks; [`effects`] and [`laws`] state what holds of that state and that book. [`engine`],
//! [`worker`] and [`websocket`] hold the decisions of the tasks around it as machines from event to
//! action, without any I/O. [`decimal`] is the number type, and [`weighted`] the weighted price that a
//! client shows.
pub mod decimal;
pub mod effects;
pub mod engine;
pub mod error;
pub mod exchanges;
pub mod laws;
pub mod levels_map;
pub mod orderbook;
pub mod ranking;
pub mod websocket;
pub mod weighted;
pub mod worker;

pub use engine::OrderlyEngine;
pub use orderbook::{Exchange, Level, OutTick, Side};
