//! The merge logic, snapshot handling, diff deletion and spread calculation on whole ticks.
use orderly::decimal::Decimal;
use orderly::exchanges::{Exchanges, OrderDepths, OrderDepthsMap};
use orderly::orderbook::{Exchange, InTick, Level, OutTick, Side};
use std::str::FromStr;

fn dec(text: &str) -> Decimal {
    let d = rust_decimal::Decimal::from_str(text).unwrap();
    Decimal::from_parts(d.mantissa(), d.scale()).unwrap()
}

#[test]
fn should_add_bitstamp_tick_to_empty() {
    let mut exchanges = Exchanges::new();
    let t = InTick {
        exchange: Exchange::Bitstamp,
        bids: vec![
            Level::new(Side::Bid, dec("0.07358322"), dec("0.46500000"), Exchange::Bitstamp),
            Level::new(Side::Bid, dec("0.07357954"), dec("8.50000000"), Exchange::Bitstamp),
            Level::new(Side::Bid, dec("0.07357942"), dec("0.46500000"), Exchange::Bitstamp),
            Level::new(Side::Bid, dec("0.07357869"), dec("16.31857550"), Exchange::Bitstamp),
            Level::new(Side::Bid, dec("0.07357533"), dec("2.17483368"), Exchange::Bitstamp),
            Level::new(Side::Bid, dec("0.07354592"), dec("10.22442936"), Exchange::Bitstamp),
            Level::new(Side::Bid, dec("0.07354227"), dec("4.34696532"), Exchange::Bitstamp),
            Level::new(Side::Bid, dec("0.07352810"), dec("20.01159075"), Exchange::Bitstamp),
            Level::new(Side::Bid, dec("0.07350019"), dec("21.73733228"), Exchange::Bitstamp),
            Level::new(Side::Bid, dec("0.07348180"), dec("1.85000000"), Exchange::Bitstamp),
        ],
        asks: vec![
            Level::new(Side::Ask, dec("0.07366569"), dec("0.46500000"), Exchange::Bitstamp),
            Level::new(Side::Ask, dec("0.07368584"), dec("16.30832712"), Exchange::Bitstamp),
            Level::new(Side::Ask, dec("0.07371456"), dec("2.17501178"), Exchange::Bitstamp),
            Level::new(Side::Ask, dec("0.07373077"), dec("4.35024244"), Exchange::Bitstamp),
            Level::new(Side::Ask, dec("0.07373618"), dec("8.50000000"), Exchange::Bitstamp),
            Level::new(Side::Ask, dec("0.07374400"), dec("1.85000000"), Exchange::Bitstamp),
            Level::new(Side::Ask, dec("0.07375536"), dec("11.31202728"), Exchange::Bitstamp),
            Level::new(Side::Ask, dec("0.07375625"), dec("6.96131361"), Exchange::Bitstamp),
            Level::new(Side::Ask, dec("0.07375736"), dec("0.00275804"), Exchange::Bitstamp),
            Level::new(Side::Ask, dec("0.07377938"), dec("0.00275807"), Exchange::Bitstamp),
        ],
    };
    exchanges.update(t);

    assert_eq!(exchanges, Exchanges {
        bitstamp: OrderDepths {
            bids: vec![
                Level::new(Side::Bid, dec("0.07358322"), dec("0.46500000"), Exchange::Bitstamp),
                Level::new(Side::Bid, dec("0.07357954"), dec("8.50000000"), Exchange::Bitstamp),
                Level::new(Side::Bid, dec("0.07357942"), dec("0.46500000"), Exchange::Bitstamp),
                Level::new(Side::Bid, dec("0.07357869"), dec("16.31857550"), Exchange::Bitstamp),
                Level::new(Side::Bid, dec("0.07357533"), dec("2.17483368"), Exchange::Bitstamp),
                Level::new(Side::Bid, dec("0.07354592"), dec("10.22442936"), Exchange::Bitstamp),
                Level::new(Side::Bid, dec("0.07354227"), dec("4.34696532"), Exchange::Bitstamp),
                Level::new(Side::Bid, dec("0.07352810"), dec("20.01159075"), Exchange::Bitstamp),
                Level::new(Side::Bid, dec("0.07350019"), dec("21.73733228"), Exchange::Bitstamp),
                Level::new(Side::Bid, dec("0.07348180"), dec("1.85000000"), Exchange::Bitstamp),
            ],
            asks: vec![
                Level::new(Side::Ask, dec("0.07366569"), dec("0.46500000"), Exchange::Bitstamp),
                Level::new(Side::Ask, dec("0.07368584"), dec("16.30832712"), Exchange::Bitstamp),
                Level::new(Side::Ask, dec("0.07371456"), dec("2.17501178"), Exchange::Bitstamp),
                Level::new(Side::Ask, dec("0.07373077"), dec("4.35024244"), Exchange::Bitstamp),
                Level::new(Side::Ask, dec("0.07373618"), dec("8.50000000"), Exchange::Bitstamp),
                Level::new(Side::Ask, dec("0.07374400"), dec("1.85000000"), Exchange::Bitstamp),
                Level::new(Side::Ask, dec("0.07375536"), dec("11.31202728"), Exchange::Bitstamp),
                Level::new(Side::Ask, dec("0.07375625"), dec("6.96131361"), Exchange::Bitstamp),
                Level::new(Side::Ask, dec("0.07375736"), dec("0.00275804"), Exchange::Bitstamp),
                Level::new(Side::Ask, dec("0.07377938"), dec("0.00275807"), Exchange::Bitstamp),
            ],
        },
        binance:  OrderDepths::new(),
        kraken:   OrderDepthsMap::new(),
        coinbase: OrderDepthsMap::new(),
    });
}

#[test]
fn should_merge() {
    let mut exchanges = Exchanges::new();
    let t1 = InTick {
        exchange: Exchange::Bitstamp,
        bids: vec![
            Level::new(Side::Bid, dec("10"), dec("1"), Exchange::Bitstamp),
            Level::new(Side::Bid, dec("9"),  dec("1"), Exchange::Bitstamp),
            Level::new(Side::Bid, dec("8"),  dec("1"), Exchange::Bitstamp),
            Level::new(Side::Bid, dec("7"),  dec("1"), Exchange::Bitstamp),
            Level::new(Side::Bid, dec("6"),  dec("1"), Exchange::Bitstamp),
            Level::new(Side::Bid, dec("5"),  dec("1"), Exchange::Bitstamp),
            Level::new(Side::Bid, dec("4"),  dec("1"), Exchange::Bitstamp),
            Level::new(Side::Bid, dec("3"),  dec("1"), Exchange::Bitstamp),
            Level::new(Side::Bid, dec("2"),  dec("1"), Exchange::Bitstamp),
            Level::new(Side::Bid, dec("1"),  dec("1"), Exchange::Bitstamp),
        ],
        asks: vec![
            Level::new(Side::Ask, dec("11"), dec("1"), Exchange::Bitstamp),
            Level::new(Side::Ask, dec("12"), dec("1"), Exchange::Bitstamp),
            Level::new(Side::Ask, dec("13"), dec("1"), Exchange::Bitstamp),
            Level::new(Side::Ask, dec("14"), dec("1"), Exchange::Bitstamp),
            Level::new(Side::Ask, dec("15"), dec("1"), Exchange::Bitstamp),
            Level::new(Side::Ask, dec("16"), dec("1"), Exchange::Bitstamp),
            Level::new(Side::Ask, dec("17"), dec("1"), Exchange::Bitstamp),
            Level::new(Side::Ask, dec("18"), dec("1"), Exchange::Bitstamp),
            Level::new(Side::Ask, dec("19"), dec("1"), Exchange::Bitstamp),
            Level::new(Side::Ask, dec("20"), dec("1"), Exchange::Bitstamp),
        ],
    };
    let t2 = InTick {
        exchange: Exchange::Binance,
        bids: vec![
            Level::new(Side::Bid, dec("10.5"), dec("2"), Exchange::Binance),
            Level::new(Side::Bid, dec("9.5"),  dec("2"), Exchange::Binance),
            Level::new(Side::Bid, dec("8.5"),  dec("2"), Exchange::Binance),
            Level::new(Side::Bid, dec("7.5"),  dec("2"), Exchange::Binance),
            Level::new(Side::Bid, dec("6.5"),  dec("2"), Exchange::Binance),
            Level::new(Side::Bid, dec("5.5"),  dec("2"), Exchange::Binance),
            Level::new(Side::Bid, dec("4.5"),  dec("2"), Exchange::Binance),
            Level::new(Side::Bid, dec("3.5"),  dec("2"), Exchange::Binance),
            Level::new(Side::Bid, dec("2.5"),  dec("2"), Exchange::Binance),
            Level::new(Side::Bid, dec("1.5"),  dec("2"), Exchange::Binance),
        ],
        asks: vec![
            Level::new(Side::Ask, dec("11.5"), dec("2"), Exchange::Binance),
            Level::new(Side::Ask, dec("12.5"), dec("2"), Exchange::Binance),
            Level::new(Side::Ask, dec("13.5"), dec("2"), Exchange::Binance),
            Level::new(Side::Ask, dec("14.5"), dec("2"), Exchange::Binance),
            Level::new(Side::Ask, dec("15.5"), dec("2"), Exchange::Binance),
            Level::new(Side::Ask, dec("16.5"), dec("2"), Exchange::Binance),
            Level::new(Side::Ask, dec("17.5"), dec("2"), Exchange::Binance),
            Level::new(Side::Ask, dec("18.5"), dec("2"), Exchange::Binance),
            Level::new(Side::Ask, dec("19.5"), dec("2"), Exchange::Binance),
            Level::new(Side::Ask, dec("20.5"), dec("2"), Exchange::Binance),
        ],
    };
    let t3 = InTick {
        exchange: Exchange::Kraken,
        bids: vec![
            Level::new(Side::Bid, dec("10.75"), dec("3"), Exchange::Kraken),
            Level::new(Side::Bid, dec("9.75"),  dec("3"), Exchange::Kraken),
            Level::new(Side::Bid, dec("8.75"),  dec("3"), Exchange::Kraken),
            Level::new(Side::Bid, dec("7.75"),  dec("3"), Exchange::Kraken),
            Level::new(Side::Bid, dec("6.75"),  dec("3"), Exchange::Kraken),
            Level::new(Side::Bid, dec("5.75"),  dec("3"), Exchange::Kraken),
            Level::new(Side::Bid, dec("4.75"),  dec("3"), Exchange::Kraken),
            Level::new(Side::Bid, dec("3.75"),  dec("3"), Exchange::Kraken),
            Level::new(Side::Bid, dec("2.75"),  dec("3"), Exchange::Kraken),
            Level::new(Side::Bid, dec("1.75"),  dec("3"), Exchange::Kraken),
        ],
        asks: vec![
            Level::new(Side::Ask, dec("11.75"), dec("3"), Exchange::Kraken),
            Level::new(Side::Ask, dec("12.75"), dec("3"), Exchange::Kraken),
            Level::new(Side::Ask, dec("13.75"), dec("3"), Exchange::Kraken),
            Level::new(Side::Ask, dec("14.75"), dec("3"), Exchange::Kraken),
            Level::new(Side::Ask, dec("15.75"), dec("3"), Exchange::Kraken),
            Level::new(Side::Ask, dec("16.75"), dec("3"), Exchange::Kraken),
            Level::new(Side::Ask, dec("17.75"), dec("3"), Exchange::Kraken),
            Level::new(Side::Ask, dec("18.75"), dec("3"), Exchange::Kraken),
            Level::new(Side::Ask, dec("19.75"), dec("3"), Exchange::Kraken),
            Level::new(Side::Ask, dec("20.75"), dec("3"), Exchange::Kraken),
        ],
    };
    let t4 = InTick {
        exchange: Exchange::Coinbase,
        bids: vec![
            Level::new(Side::Bid, dec("10.85"), dec("4"), Exchange::Coinbase),
            Level::new(Side::Bid, dec("9.85"),  dec("4"), Exchange::Coinbase),
            Level::new(Side::Bid, dec("8.85"),  dec("4"), Exchange::Coinbase),
            Level::new(Side::Bid, dec("7.85"),  dec("4"), Exchange::Coinbase),
            Level::new(Side::Bid, dec("6.85"),  dec("4"), Exchange::Coinbase),
            Level::new(Side::Bid, dec("5.85"),  dec("4"), Exchange::Coinbase),
            Level::new(Side::Bid, dec("4.85"),  dec("4"), Exchange::Coinbase),
            Level::new(Side::Bid, dec("3.85"),  dec("4"), Exchange::Coinbase),
            Level::new(Side::Bid, dec("2.85"),  dec("4"), Exchange::Coinbase),
            Level::new(Side::Bid, dec("1.85"),  dec("4"), Exchange::Coinbase),
        ],
        asks: vec![
            Level::new(Side::Ask, dec("11.85"), dec("4"), Exchange::Coinbase),
            Level::new(Side::Ask, dec("12.85"), dec("4"), Exchange::Coinbase),
            Level::new(Side::Ask, dec("13.85"), dec("4"), Exchange::Coinbase),
            Level::new(Side::Ask, dec("14.85"), dec("4"), Exchange::Coinbase),
            Level::new(Side::Ask, dec("15.85"), dec("4"), Exchange::Coinbase),
            Level::new(Side::Ask, dec("16.85"), dec("4"), Exchange::Coinbase),
            Level::new(Side::Ask, dec("17.85"), dec("4"), Exchange::Coinbase),
            Level::new(Side::Ask, dec("18.85"), dec("4"), Exchange::Coinbase),
            Level::new(Side::Ask, dec("19.85"), dec("4"), Exchange::Coinbase),
            Level::new(Side::Ask, dec("20.85"), dec("4"), Exchange::Coinbase),
        ],
    };
    exchanges.update(t1);
    exchanges.update(t2);
    exchanges.update(t3);
    exchanges.update(t4);

    let out_tick = exchanges.to_tick();

    assert_eq!(out_tick, OutTick {
        spread: dec("0.15"),
        bids: vec![
            Level::new(Side::Bid, dec("10.85"), dec("4"), Exchange::Coinbase),
            Level::new(Side::Bid, dec("10.75"), dec("3"), Exchange::Kraken),
            Level::new(Side::Bid, dec("10.5"),  dec("2"), Exchange::Binance),
            Level::new(Side::Bid, dec("10"),    dec("1"), Exchange::Bitstamp),
            Level::new(Side::Bid, dec("9.85"),  dec("4"), Exchange::Coinbase),
            Level::new(Side::Bid, dec("9.75"),  dec("3"), Exchange::Kraken),
            Level::new(Side::Bid, dec("9.5"),   dec("2"), Exchange::Binance),
            Level::new(Side::Bid, dec("9"),     dec("1"), Exchange::Bitstamp),
            Level::new(Side::Bid, dec("8.85"),  dec("4"), Exchange::Coinbase),
            Level::new(Side::Bid, dec("8.75"),  dec("3"), Exchange::Kraken),
        ],
        asks: vec![
            Level::new(Side::Ask, dec("11"),    dec("1"), Exchange::Bitstamp),
            Level::new(Side::Ask, dec("11.5"),  dec("2"), Exchange::Binance),
            Level::new(Side::Ask, dec("11.75"), dec("3"), Exchange::Kraken),
            Level::new(Side::Ask, dec("11.85"), dec("4"), Exchange::Coinbase),
            Level::new(Side::Ask, dec("12"),    dec("1"), Exchange::Bitstamp),
            Level::new(Side::Ask, dec("12.5"),  dec("2"), Exchange::Binance),
            Level::new(Side::Ask, dec("12.75"), dec("3"), Exchange::Kraken),
            Level::new(Side::Ask, dec("12.85"), dec("4"), Exchange::Coinbase),
            Level::new(Side::Ask, dec("13"),    dec("1"), Exchange::Bitstamp),
            Level::new(Side::Ask, dec("13.5"),  dec("2"), Exchange::Binance),
        ],
    });
}

#[test]
fn should_remove_kraken_volumes() {
    let mut exchanges = Exchanges::new();
    let t1 = InTick {
        exchange: Exchange::Kraken,
        bids: vec![
            Level::new(Side::Bid, dec("10.75"), dec("3"), Exchange::Kraken),
            Level::new(Side::Bid, dec("9.75"),  dec("3"), Exchange::Kraken),
            Level::new(Side::Bid, dec("8.75"),  dec("3"), Exchange::Kraken),
            Level::new(Side::Bid, dec("7.75"),  dec("3"), Exchange::Kraken),
            Level::new(Side::Bid, dec("6.75"),  dec("3"), Exchange::Kraken),
            Level::new(Side::Bid, dec("5.75"),  dec("3"), Exchange::Kraken),
            Level::new(Side::Bid, dec("4.75"),  dec("3"), Exchange::Kraken),
            Level::new(Side::Bid, dec("3.75"),  dec("3"), Exchange::Kraken),
            Level::new(Side::Bid, dec("2.75"),  dec("3"), Exchange::Kraken),
            Level::new(Side::Bid, dec("1.75"),  dec("3"), Exchange::Kraken),
        ],
        asks: vec![
            Level::new(Side::Ask, dec("11.75"), dec("3"), Exchange::Kraken),
            Level::new(Side::Ask, dec("12.75"), dec("3"), Exchange::Kraken),
            Level::new(Side::Ask, dec("13.75"), dec("3"), Exchange::Kraken),
            Level::new(Side::Ask, dec("14.75"), dec("3"), Exchange::Kraken),
            Level::new(Side::Ask, dec("15.75"), dec("3"), Exchange::Kraken),
            Level::new(Side::Ask, dec("16.75"), dec("3"), Exchange::Kraken),
            Level::new(Side::Ask, dec("17.75"), dec("3"), Exchange::Kraken),
            Level::new(Side::Ask, dec("18.75"), dec("3"), Exchange::Kraken),
            Level::new(Side::Ask, dec("19.75"), dec("3"), Exchange::Kraken),
            Level::new(Side::Ask, dec("20.75"), dec("3"), Exchange::Kraken),
        ],
    };
    exchanges.update(t1);

    let t2 = InTick {
        exchange: Exchange::Kraken,
        bids: vec![
            Level::new(Side::Bid, dec("10.75"), dec("0"), Exchange::Kraken),
            Level::new(Side::Bid, dec("9.75"),  dec("0"), Exchange::Kraken),
            Level::new(Side::Bid, dec("8.75"),  dec("0"), Exchange::Kraken),
            Level::new(Side::Bid, dec("7.75"),  dec("0"), Exchange::Kraken),
            Level::new(Side::Bid, dec("6.75"),  dec("0"), Exchange::Kraken),
        ],
        asks: vec![
            Level::new(Side::Ask, dec("11.75"), dec("0"), Exchange::Kraken),
            Level::new(Side::Ask, dec("12.75"), dec("0"), Exchange::Kraken),
            Level::new(Side::Ask, dec("13.75"), dec("0"), Exchange::Kraken),
            Level::new(Side::Ask, dec("14.75"), dec("0"), Exchange::Kraken),
            Level::new(Side::Ask, dec("15.75"), dec("0"), Exchange::Kraken),
        ],
    };
    exchanges.update(t2);

    let out_tick = exchanges.to_tick();
    assert_eq!(out_tick, OutTick {
        spread: dec("11"),
        bids: vec![
            Level::new(Side::Bid, dec("5.75"), dec("3"), Exchange::Kraken),
            Level::new(Side::Bid, dec("4.75"), dec("3"), Exchange::Kraken),
            Level::new(Side::Bid, dec("3.75"), dec("3"), Exchange::Kraken),
            Level::new(Side::Bid, dec("2.75"), dec("3"), Exchange::Kraken),
            Level::new(Side::Bid, dec("1.75"), dec("3"), Exchange::Kraken),
        ],
        asks: vec![
            Level::new(Side::Ask, dec("16.75"), dec("3"), Exchange::Kraken),
            Level::new(Side::Ask, dec("17.75"), dec("3"), Exchange::Kraken),
            Level::new(Side::Ask, dec("18.75"), dec("3"), Exchange::Kraken),
            Level::new(Side::Ask, dec("19.75"), dec("3"), Exchange::Kraken),
            Level::new(Side::Ask, dec("20.75"), dec("3"), Exchange::Kraken),
        ],
    });
}

#[test]
fn should_merge_simple() {
    let mut exchanges = Exchanges::new();
    let t1 = InTick {
        exchange: Exchange::Bitstamp,
        bids: vec![Level::new(Side::Bid, dec("10"),   dec("1"), Exchange::Bitstamp)],
        asks: vec![Level::new(Side::Ask, dec("11"),   dec("1"), Exchange::Bitstamp)],
    };
    let t2 = InTick {
        exchange: Exchange::Binance,
        bids: vec![Level::new(Side::Bid, dec("10.5"),  dec("2"), Exchange::Binance)],
        asks: vec![Level::new(Side::Ask, dec("11.75"), dec("2"), Exchange::Binance)],
    };
    let t3 = InTick {
        exchange: Exchange::Kraken,
        bids: vec![Level::new(Side::Bid, dec("10.5"),  dec("3"), Exchange::Kraken)],
        asks: vec![Level::new(Side::Ask, dec("11.75"), dec("3"), Exchange::Kraken)],
    };
    let t4 = InTick {
        exchange: Exchange::Coinbase,
        bids: vec![Level::new(Side::Bid, dec("10.85"), dec("4"), Exchange::Coinbase)],
        asks: vec![Level::new(Side::Ask, dec("11.85"), dec("4"), Exchange::Coinbase)],
    };
    exchanges.update(t1);
    exchanges.update(t2);
    exchanges.update(t3);
    exchanges.update(t4);

    let out_tick = exchanges.to_tick();
    assert_eq!(out_tick, OutTick {
        spread: dec("0.15"),
        bids: vec![
            Level::new(Side::Bid, dec("10.85"), dec("4"), Exchange::Coinbase),
            Level::new(Side::Bid, dec("10.5"),  dec("3"), Exchange::Kraken),
            Level::new(Side::Bid, dec("10.5"),  dec("2"), Exchange::Binance),
            Level::new(Side::Bid, dec("10"),    dec("1"), Exchange::Bitstamp),
        ],
        asks: vec![
            Level::new(Side::Ask, dec("11"),    dec("1"), Exchange::Bitstamp),
            Level::new(Side::Ask, dec("11.75"), dec("3"), Exchange::Kraken),
            Level::new(Side::Ask, dec("11.75"), dec("2"), Exchange::Binance),
            Level::new(Side::Ask, dec("11.85"), dec("4"), Exchange::Coinbase),
        ],
    });
}

#[test]
fn exchange_display() {
    assert_eq!(Exchange::Bitstamp.to_string(), "bitstamp");
    assert_eq!(Exchange::Binance.to_string(),  "binance");
    assert_eq!(Exchange::Kraken.to_string(),   "kraken");
    assert_eq!(Exchange::Coinbase.to_string(), "coinbase");
}
