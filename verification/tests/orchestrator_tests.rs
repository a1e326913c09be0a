use orderly::book::ExchangeId;
use orderly::orchestrator::{ConnAction, ConnEvent, ConnState, Connector, Orchestrator};

#[test]
fn happy_path_reaches_streaming() {
    let mut c = Connector::new(ExchangeId::Gateio, true);
    assert_eq!(c.state, ConnState::Disconnected);
    assert_eq!(c.step(ConnEvent::BackoffElapsed), ConnAction::Dial);
    assert_eq!(c.state, ConnState::Connecting);
    assert_eq!(c.step(ConnEvent::ConnectOk), ConnAction::SendSubscribe);
    assert_eq!(c.state, ConnState::Subscribed);
    assert_eq!(c.step(ConnEvent::SubscribeAck), ConnAction::AwaitFrame);
    assert_eq!(c.state, ConnState::Streaming);
    assert_eq!(c.step(ConnEvent::FrameReceived), ConnAction::AwaitFrame);
    assert_eq!(c.state, ConnState::Streaming);
}

#[test]
fn a_protocol_fault_discards_the_frame_and_keeps_streaming() {
    let mut c = Connector::new(ExchangeId::Gateio, true);
    c.step(ConnEvent::BackoffElapsed);
    c.step(ConnEvent::ConnectOk);
    c.step(ConnEvent::SubscribeAck);
    assert_eq!(c.step(ConnEvent::ProtocolFault), ConnAction::AwaitFrame);
    assert_eq!(c.state, ConnState::Streaming);
}

#[test]
fn socket_closure_backs_off_with_growing_capped_delays() {
    let mut c = Connector::new(ExchangeId::Binance, true);
    let mut delays = Vec::new();
    for _ in 0..8 {
        // Reach Streaming is not needed: any failure disconnects.
        match c.step(ConnEvent::SocketClosed) {
            ConnAction::Backoff { delay_ms } => delays.push(delay_ms),
            other => panic!("expected a backoff, got {:?}", other),
        }
        assert_eq!(c.state, ConnState::Disconnected);
        assert_eq!(c.step(ConnEvent::BackoffElapsed), ConnAction::Dial);
        assert_eq!(c.state, ConnState::Connecting);
    }
    assert_eq!(delays, vec![1000, 2000, 4000, 8000, 16000, 30000, 30000, 30000]);
}

#[test]
fn a_healthy_subscription_resets_the_backoff() {
    let mut c = Connector::new(ExchangeId::Kraken, true);
    c.step(ConnEvent::SocketClosed);
    c.step(ConnEvent::SocketClosed);
    c.step(ConnEvent::BackoffElapsed);
    c.step(ConnEvent::ConnectOk);
    c.step(ConnEvent::SubscribeAck);
    assert_eq!(c.state, ConnState::Streaming);
    // The next failure starts the ladder over.
    match c.step(ConnEvent::IdleTimeout) {
        ConnAction::Backoff { delay_ms } => assert_eq!(delay_ms, 1000),
        other => panic!("expected a backoff, got {:?}", other),
    }
}

#[test]
fn a_disabled_connector_never_connects() {
    let mut c = Connector::new(ExchangeId::Coinbase, false);
    assert_eq!(c.step(ConnEvent::BackoffElapsed), ConnAction::Idle);
    assert_eq!(c.state, ConnState::Disconnected);
    assert_eq!(c.step(ConnEvent::SocketClosed), ConnAction::Idle);
    assert_eq!(c.state, ConnState::Disconnected);
}

#[test]
fn one_connectors_failure_leaves_the_others_untouched() {
    let mut orch = Orchestrator::new();
    orch.add_connector(ExchangeId::Bitstamp, true);
    orch.add_connector(ExchangeId::Binance, true);
    orch.add_connector(ExchangeId::Gateio, true);
    // Bring every connector to Streaming.
    for i in 0..3 {
        orch.on_event(i, ConnEvent::BackoffElapsed);
        orch.on_event(i, ConnEvent::ConnectOk);
        orch.on_event(i, ConnEvent::SubscribeAck);
    }
    // Close one socket: only that connector cycles.
    let a = orch.on_event(1, ConnEvent::SocketClosed);
    assert_eq!(a, ConnAction::Backoff { delay_ms: 1000 });
    assert_eq!(orch.connectors[0].state, ConnState::Streaming);
    assert_eq!(orch.connectors[1].state, ConnState::Disconnected);
    assert_eq!(orch.connectors[2].state, ConnState::Streaming);
    orch.on_event(1, ConnEvent::BackoffElapsed);
    assert_eq!(orch.connectors[1].state, ConnState::Connecting);
    assert_eq!(orch.connectors[0].state, ConnState::Streaming);
    assert_eq!(orch.connectors[2].state, ConnState::Streaming);
}

#[test]
fn idle_timeout_disconnects_like_a_closure() {
    let mut c = Connector::new(ExchangeId::Gateio, true);
    c.step(ConnEvent::BackoffElapsed);
    c.step(ConnEvent::ConnectOk);
    match c.step(ConnEvent::IdleTimeout) {
        ConnAction::Backoff { delay_ms } => assert_eq!(delay_ms, 1000),
        other => panic!("expected a backoff, got {:?}", other),
    }
    assert_eq!(c.state, ConnState::Disconnected);
}
