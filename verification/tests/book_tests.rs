use orderly::book::{copy_levels, insert_level_exec, sort_levels, ExchangeId, Level, Side};

fn lvl(side: Side, price: u64, amount: u64, source: ExchangeId) -> Level {
    Level { side, price, amount, source }
}

#[test]
fn level_new_attaches_side_and_source() {
    let l = Level::new(Side::Ask, 42, 7, ExchangeId::Kraken);
    assert_eq!(l, lvl(Side::Ask, 42, 7, ExchangeId::Kraken));
}

#[test]
fn sorted_insert_places_bids_by_descending_price() {
    let g = ExchangeId::Gateio;
    let mut v = vec![lvl(Side::Bid, 9, 1, g), lvl(Side::Bid, 5, 1, g), lvl(Side::Bid, 2, 1, g)];
    insert_level_exec(Side::Bid, &mut v, lvl(Side::Bid, 7, 3, g));
    let prices: Vec<u64> = v.iter().map(|l| l.price).collect();
    assert_eq!(prices, vec![9, 7, 5, 2]);
}

#[test]
fn sorted_insert_puts_a_tie_after_its_equals() {
    let a = ExchangeId::Bitstamp;
    let b = ExchangeId::Binance;
    let mut v = vec![lvl(Side::Ask, 3, 1, a), lvl(Side::Ask, 5, 1, a)];
    insert_level_exec(Side::Ask, &mut v, lvl(Side::Ask, 3, 2, b));
    assert_eq!(v[0], lvl(Side::Ask, 3, 1, a));
    assert_eq!(v[1], lvl(Side::Ask, 3, 2, b));
    assert_eq!(v[2], lvl(Side::Ask, 5, 1, a));
}

#[test]
fn sort_levels_is_stable_for_equal_prices() {
    let a = ExchangeId::Coinbase;
    let b = ExchangeId::Kraken;
    let src = vec![
        lvl(Side::Bid, 4, 1, a),
        lvl(Side::Bid, 8, 1, a),
        lvl(Side::Bid, 4, 2, b),
        lvl(Side::Bid, 8, 2, b),
    ];
    let sorted = sort_levels(Side::Bid, &src);
    let got: Vec<(u64, u64)> = sorted.iter().map(|l| (l.price, l.amount)).collect();
    assert_eq!(got, vec![(8, 1), (8, 2), (4, 1), (4, 2)]);
}

#[test]
fn copy_levels_preserves_every_level() {
    let g = ExchangeId::Gateio;
    let v = vec![lvl(Side::Bid, 10, 1, g), lvl(Side::Bid, 9, 2, g)];
    assert_eq!(copy_levels(&v), v);
}
