use orderly::aggregator::{Aggregator, MergedBook};
use orderly::book::{ExchangeId, Level, NormalizedTick, Side};
use orderly::fanout::Distributor;

fn book_with_price(price: u64) -> MergedBook {
    let l = Level { side: Side::Bid, price, amount: 1, source: ExchangeId::Binance };
    MergedBook { bids: vec![l], asks: vec![] }
}

fn top_price(b: &MergedBook) -> u64 {
    b.bids[0].price
}

#[test]
fn saturated_subscriber_keeps_only_the_latest() {
    let mut dist = Distributor::new();
    dist.add_subscriber(3);
    // Five snapshots into a queue of three, never drained.
    for p in 1..=5u64 {
        dist.publish(&book_with_price(p));
    }
    // The queue holds the last three, oldest first.
    let mut seen = Vec::new();
    while let Some(b) = dist.next_snapshot(0) {
        seen.push(top_price(&b));
    }
    assert_eq!(seen, vec![3, 4, 5]);
    assert!(dist.next_snapshot(0).is_none());
}

#[test]
fn slow_subscriber_never_stalls_ingestion() {
    let mut agg = Aggregator::new(10);
    let mut dist = Distributor::new();
    dist.add_subscriber(1); // saturates immediately
    dist.add_subscriber(4);
    let v = ExchangeId::Kraken;
    for p in 1..=6u64 {
        let t = NormalizedTick {
            exchange: v,
            bids: vec![Level { side: Side::Bid, price: p, amount: 1, source: v }],
            asks: vec![],
        };
        // Ingestion proceeds regardless of the saturated queue.
        let book = agg.ingest(t);
        dist.publish(&book);
        assert_eq!(top_price(&book), p);
    }
    // The slow subscriber sees only the newest snapshot.
    let b = dist.next_snapshot(0).unwrap();
    assert_eq!(top_price(&b), 6);
    assert_eq!(dist.next_snapshot(0).is_none(), true);
    // The healthy subscriber holds the last four, oldest first.
    let mut seen = Vec::new();
    while let Some(b) = dist.next_snapshot(1) {
        seen.push(top_price(&b));
    }
    assert_eq!(seen, vec![3, 4, 5, 6]);
}

#[test]
fn removing_a_subscriber_leaves_the_others_alone() {
    let mut dist = Distributor::new();
    dist.add_subscriber(2);
    dist.add_subscriber(2);
    dist.publish(&book_with_price(7));
    // The first subscriber's channel failed: drop it from the fan-out.
    dist.remove_subscriber(0);
    dist.publish(&book_with_price(8));
    let mut seen = Vec::new();
    while let Some(b) = dist.next_snapshot(0) {
        seen.push(top_price(&b));
    }
    assert_eq!(seen, vec![7, 8]);
}

#[test]
fn empty_queue_hands_out_nothing() {
    let mut dist = Distributor::new();
    dist.add_subscriber(2);
    assert!(dist.next_snapshot(0).is_none());
}
