use orderly::aggregator::Aggregator;
use orderly::book::{ExchangeId, Level, NormalizedTick, Side};

fn bid(price: u64, amount: u64, source: ExchangeId) -> Level {
    Level { side: Side::Bid, price, amount, source }
}

fn ask(price: u64, amount: u64, source: ExchangeId) -> Level {
    Level { side: Side::Ask, price, amount, source }
}

fn tick(exchange: ExchangeId, bids: Vec<Level>, asks: Vec<Level>) -> NormalizedTick {
    NormalizedTick { exchange, bids, asks }
}

#[test]
fn cross_exchange_merge_orders_by_price() {
    let mut agg = Aggregator::new(10);
    let a = ExchangeId::Bitstamp;
    let b = ExchangeId::Binance;
    agg.ingest(tick(a, vec![bid(100, 2, a)], vec![]));
    let book = agg.ingest(tick(b, vec![bid(101, 1, b)], vec![]));
    let got: Vec<(u64, u64, ExchangeId)> =
        book.bids.iter().map(|l| (l.price, l.amount, l.source)).collect();
    assert_eq!(got, vec![(101, 1, b), (100, 2, a)]);
}

#[test]
fn reingesting_the_same_tick_gives_the_same_book() {
    let mut agg = Aggregator::new(10);
    let a = ExchangeId::Kraken;
    let b = ExchangeId::Gateio;
    agg.ingest(tick(b, vec![bid(99, 5, b)], vec![ask(102, 1, b)]));
    let t = tick(a, vec![bid(100, 2, a), bid(98, 4, a)], vec![ask(101, 3, a)]);
    let first = agg.ingest(t.clone());
    let second = agg.ingest(t);
    assert_eq!(first.bids, second.bids);
    assert_eq!(first.asks, second.asks);
}

#[test]
fn merged_sides_are_sorted_and_depth_limited() {
    let mut agg = Aggregator::new(10);
    let venues = [ExchangeId::Bitstamp, ExchangeId::Binance, ExchangeId::Kraken];
    let mut book = agg.ingest(tick(ExchangeId::Coinbase, vec![], vec![]));
    for (vi, &v) in venues.iter().enumerate() {
        let mut bids = Vec::new();
        let mut asks = Vec::new();
        for k in 0..10u64 {
            // Overlapping price ranges across venues, including exact ties.
            bids.push(bid(200 - k * 2 - vi as u64, 1 + k, v));
            asks.push(ask(300 + k * 2 + vi as u64, 1 + k, v));
        }
        book = agg.ingest(tick(v, bids, asks));
    }
    assert_eq!(book.bids.len(), 10);
    assert_eq!(book.asks.len(), 10);
    for w in book.bids.windows(2) {
        assert!(w[0].price >= w[1].price, "bid inversion: {:?}", w);
    }
    for w in book.asks.windows(2) {
        assert!(w[0].price <= w[1].price, "ask inversion: {:?}", w);
    }
    // With 30 live bids the cut keeps the 10 highest:
    // 200, 199, 198, 198, 197, 196, 196, 195, 194, 194.
    assert_eq!(book.bids[0].price, 200);
    assert_eq!(book.bids[9].price, 194);
    // And the 10 lowest asks: 300, 301, 302, 302, ..., 306, 306.
    assert_eq!(book.asks[0].price, 300);
    assert_eq!(book.asks[9].price, 306);
}

#[test]
fn equal_prices_keep_the_earliest_known_exchange_first() {
    let mut agg = Aggregator::new(10);
    let a = ExchangeId::Kraken;
    let b = ExchangeId::Binance;
    agg.ingest(tick(a, vec![bid(100, 2, a)], vec![]));
    let book = agg.ingest(tick(b, vec![bid(100, 3, b)], vec![]));
    let got: Vec<(u64, ExchangeId)> = book.bids.iter().map(|l| (l.price, l.source)).collect();
    assert_eq!(got, vec![(100, a), (100, b)]);
}

#[test]
fn empty_side_removes_that_exchanges_contribution() {
    let mut agg = Aggregator::new(10);
    let a = ExchangeId::Bitstamp;
    let b = ExchangeId::Binance;
    agg.ingest(tick(a, vec![bid(100, 2, a), bid(99, 1, a)], vec![ask(105, 1, a)]));
    agg.ingest(tick(b, vec![bid(98, 7, b)], vec![ask(106, 2, b)]));
    // A new tick from A with no bids: all of A's bids vanish, B's stay.
    let book = agg.ingest(tick(a, vec![], vec![ask(105, 1, a)]));
    assert!(book.bids.iter().all(|l| l.source != a));
    let got: Vec<(u64, u64, ExchangeId)> =
        book.bids.iter().map(|l| (l.price, l.amount, l.source)).collect();
    assert_eq!(got, vec![(98, 7, b)]);
    // A's asks were replaced by its new (identical) ask side.
    assert_eq!(book.asks.len(), 2);
}

#[test]
fn zero_amount_levels_never_reach_the_merged_book() {
    let mut agg = Aggregator::new(10);
    let a = ExchangeId::Gateio;
    let book = agg.ingest(tick(a, vec![bid(100, 0, a), bid(99, 4, a)], vec![ask(101, 0, a)]));
    let got: Vec<(u64, u64)> = book.bids.iter().map(|l| (l.price, l.amount)).collect();
    assert_eq!(got, vec![(99, 4)]);
    assert!(book.asks.is_empty());
}

#[test]
fn a_new_tick_fully_replaces_the_previous_one() {
    let mut agg = Aggregator::new(10);
    let a = ExchangeId::Coinbase;
    agg.ingest(tick(a, vec![bid(100, 2, a), bid(99, 1, a)], vec![]));
    let book = agg.ingest(tick(a, vec![bid(97, 9, a)], vec![]));
    let got: Vec<(u64, u64)> = book.bids.iter().map(|l| (l.price, l.amount)).collect();
    assert_eq!(got, vec![(97, 9)]);
}

#[test]
fn configurable_depth_caps_the_merged_book() {
    let mut agg = Aggregator::new(2);
    let a = ExchangeId::Bitstamp;
    let book =
        agg.ingest(tick(a, vec![bid(5, 1, a), bid(4, 1, a), bid(3, 1, a)], vec![]));
    assert_eq!(book.bids.len(), 2);
    assert_eq!(book.bids[0].price, 5);
    assert_eq!(book.bids[1].price, 4);
}
