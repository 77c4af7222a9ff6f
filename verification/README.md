# orderly

Merges the order book feeds of Bitstamp, Binance, Kraken and Coinbase for one trading pair into a
single book: the ten best bids and asks across all exchanges, and the spread between them.

- `src/` is the library, verified with Verus: the state of the exchanges, the merged book and its
  laws, the decimal arithmetic, and the decisions of the aggregator, the workers and the closing
  handshake as machines from event to action.
- `tests/` runs the library on concrete values.
- `app/` is the I/O around it: WebSocket connections, the tasks and channels of the engine, and the
  command line. The exchange connectors and the service that clients subscribe to are handed in by
  the caller.

The library trusts the `rust_decimal` crate for its arithmetic. What is trusted of each of its
functions stands above the private function in `src/decimal.rs` that calls it.
