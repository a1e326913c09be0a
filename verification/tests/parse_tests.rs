use orderly::book::{ExchangeId, Side, DEPTH};
use orderly::error::FeedError;
use orderly::gateio::{
    frame_text, make_subscribe, maybe_to_tick, stream_url, Frame, RawLevel, VenueEvent,
};

fn raw(price: u64, amount: u64) -> RawLevel {
    RawLevel { price, amount }
}

#[test]
fn control_frames_produce_no_tick() {
    assert_eq!(frame_text(Frame::Ping(vec![1, 2])), None);
    assert_eq!(frame_text(Frame::Pong(vec![])), None);
    assert_eq!(frame_text(Frame::Binary(vec![0, 1])), None);
    assert_eq!(frame_text(Frame::Close), None);
    assert_eq!(frame_text(Frame::Raw(vec![9])), None);
}

#[test]
fn text_frame_yields_its_payload() {
    let payload = b"{\"event\":\"all\"}".to_vec();
    assert_eq!(frame_text(Frame::Text(payload.clone())), Some(payload));
}

#[test]
fn admin_events_produce_no_tick() {
    let raw_payload = vec![1u8];
    assert!(matches!(maybe_to_tick(&VenueEvent::Ack, &raw_payload), Ok(None)));
    assert!(matches!(maybe_to_tick(&VenueEvent::SubscribeEcho, &raw_payload), Ok(None)));
    let failure = VenueEvent::Failure { label: b"bad".to_vec(), message: b"oops".to_vec() };
    assert!(matches!(maybe_to_tick(&failure, &raw_payload), Ok(None)));
}

#[test]
fn depth_event_is_sorted_and_truncated() {
    // Twelve bids and eleven asks, deliberately out of order.
    let mut bids = Vec::new();
    let mut asks = Vec::new();
    for i in 0..12u64 {
        bids.push(raw(1 + (i * 7) % 12, 10 + i));
    }
    for i in 0..11u64 {
        asks.push(raw(100 + (i * 5) % 11, 20 + i));
    }
    let ev = VenueEvent::Depth { bids, asks };
    let tick = maybe_to_tick(&ev, &vec![]).unwrap().unwrap();
    assert_eq!(tick.exchange, ExchangeId::Gateio);
    assert_eq!(tick.bids.len(), DEPTH);
    assert_eq!(tick.asks.len(), DEPTH);
    // Bids keep the highest prices, descending: 12, 11, ..., 3.
    for (k, l) in tick.bids.iter().enumerate() {
        assert_eq!(l.price, 12 - k as u64);
        assert_eq!(l.side, Side::Bid);
        assert_eq!(l.source, ExchangeId::Gateio);
    }
    // Asks keep the lowest prices, ascending: 100, 101, ..., 109.
    for (k, l) in tick.asks.iter().enumerate() {
        assert_eq!(l.price, 100 + k as u64);
        assert_eq!(l.side, Side::Ask);
        assert_eq!(l.source, ExchangeId::Gateio);
    }
}

#[test]
fn depth_event_keeps_amounts_with_their_prices() {
    let ev = VenueEvent::Depth {
        bids: vec![raw(5, 50), raw(9, 90), raw(7, 70)],
        asks: vec![raw(30, 3), raw(10, 1), raw(20, 2)],
    };
    let tick = maybe_to_tick(&ev, &vec![]).unwrap().unwrap();
    let bid_pairs: Vec<(u64, u64)> = tick.bids.iter().map(|l| (l.price, l.amount)).collect();
    assert_eq!(bid_pairs, vec![(9, 90), (7, 70), (5, 50)]);
    let ask_pairs: Vec<(u64, u64)> = tick.asks.iter().map(|l| (l.price, l.amount)).collect();
    assert_eq!(ask_pairs, vec![(10, 1), (20, 2), (30, 3)]);
}

#[test]
fn empty_depth_event_yields_empty_tick() {
    let ev = VenueEvent::Depth { bids: vec![], asks: vec![] };
    let tick = maybe_to_tick(&ev, &vec![]).unwrap().unwrap();
    assert!(tick.bids.is_empty());
    assert!(tick.asks.is_empty());
}

#[test]
fn zero_price_is_a_protocol_error_with_payload() {
    let payload = b"{\"p\":\"0\"}".to_vec();
    let ev = VenueEvent::Depth { bids: vec![raw(0, 5)], asks: vec![] };
    match maybe_to_tick(&ev, &payload) {
        Err(FeedError::Protocol { payload: got }) => assert_eq!(got, payload),
        other => panic!("expected a protocol error, got {:?}", other),
    }
    let ev2 = VenueEvent::Depth { bids: vec![raw(3, 5)], asks: vec![raw(0, 1)] };
    assert!(matches!(
        maybe_to_tick(&ev2, &payload),
        Err(FeedError::Protocol { .. })
    ));
}

#[test]
fn stream_url_lowercases_the_quote_currency() {
    let url = stream_url(&b"ETH/BTC".to_vec());
    assert_eq!(url, b"wss://fx-ws.gateio.ws/v4/ws/btc".to_vec());
    let url2 = stream_url(&b"BTC/USDT".to_vec());
    assert_eq!(url2, b"wss://fx-ws.gateio.ws/v4/ws/usdt".to_vec());
}

#[test]
fn stream_url_without_slash_uses_the_whole_symbol() {
    let url = stream_url(&b"USDT".to_vec());
    assert_eq!(url, b"wss://fx-ws.gateio.ws/v4/ws/usdt".to_vec());
}

#[test]
fn subscribe_request_shape() {
    let req = make_subscribe(&b"eth/btc".to_vec(), 1_700_000_000_123);
    assert_eq!(req.time_ms, 1_700_000_000_123);
    assert_eq!(req.channel, b"futures.order_book".to_vec());
    assert_eq!(req.symbol, b"ETH_BTC".to_vec());
    assert_eq!(req.depth_limit, b"20".to_vec());
    assert_eq!(req.interval, b"0".to_vec());
}
