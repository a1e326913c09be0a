//! Connector supervision. Each exchange connection is driven through
//! `Disconnected → Connecting → Subscribed → Streaming` and back to
//! `Disconnected` on any failure, with an exponentially growing, capped
//! backoff before the next attempt. The decisions live here as a pure
//! state machine from state and event to next state and action; the I/O
//! layer performs the action (with jitter added to the backoff delay) and
//! hands the next event back. Connectors are independent values: an event
//! for one never touches another.

use vstd::prelude::*;

use crate::book::ExchangeId;

verus! {

/// Where one exchange connection stands.
#[derive(Clone, Copy, Debug, PartialEq, Eq, Structural)]
pub enum ConnState {
    Disconnected,
    Connecting,
    Subscribed,
    Streaming,
}

/// What the I/O layer reports back to the state machine.
#[derive(Clone, Copy, Debug, PartialEq, Eq, Structural)]
pub enum ConnEvent {
    /// The backoff delay has elapsed.
    BackoffElapsed,
    /// The socket was established and the subscribe request sent.
    ConnectOk,
    /// DNS, TLS or handshake failure.
    ConnectFailed,
    /// The venue acknowledged the subscription.
    SubscribeAck,
    /// A frame arrived and was handled.
    FrameReceived,
    /// A frame failed to decode; it was discarded and reported.
    ProtocolFault,
    /// The socket closed or erred.
    SocketClosed,
    /// No frame — not even a keepalive — within the idle interval.
    IdleTimeout,
}

/// What the I/O layer must do next.
#[derive(Clone, Copy, Debug, PartialEq, Eq, Structural)]
pub enum ConnAction {
    /// Resolve the stream URL and open the socket.
    Dial,
    /// Send the subscribe request.
    SendSubscribe,
    /// Wait for the next inbound frame.
    AwaitFrame,
    /// Sleep this long (plus jitter) before reconnecting.
    Backoff { delay_ms: u64 },
    /// Nothing to do.
    Idle,
}

/// The backoff before reconnect attempt `failures + 1`: doubling from
/// half a second, held at a thirty-second ceiling.
pub open spec fn backoff_spec(failures: u32) -> u64 {
    if failures == 0 {
        500
    } else if failures == 1 {
        1000
    } else if failures == 2 {
        2000
    } else if failures == 3 {
        4000
    } else if failures == 4 {
        8000
    } else if failures == 5 {
        16000
    } else {
        30000
    }
}

/// The failure counter after one more failure, saturating.
pub open spec fn bump(failures: u32) -> u32 {
    if failures == u32::MAX {
        failures
    } else {
        (failures + 1) as u32
    }
}

/// One supervised exchange connection.
#[derive(Clone, Copy, Debug, PartialEq, Eq, Structural)]
pub struct Connector {
    pub exchange: ExchangeId,
    /// A disabled connector never attempts to connect.
    pub enabled: bool,
    pub state: ConnState,
    /// Failures since the last healthy subscription.
    pub failures: u32,
}

impl Connector {
    /// The full transition table. Any failure event returns the
    /// connector to `Disconnected` with a backoff; there is no terminal
    /// failure state. A disabled connector ignores every event.
    pub open spec fn step_spec(self, ev: ConnEvent) -> (Connector, ConnAction) {
        if !self.enabled {
            (self, ConnAction::Idle)
        } else {
            match ev {
                ConnEvent::BackoffElapsed => if self.state is Disconnected {
                    (Connector { state: ConnState::Connecting, ..self }, ConnAction::Dial)
                } else {
                    (self, ConnAction::Idle)
                },
                ConnEvent::ConnectOk => if self.state is Connecting {
                    (Connector { state: ConnState::Subscribed, ..self }, ConnAction::SendSubscribe)
                } else {
                    (self, ConnAction::Idle)
                },
                ConnEvent::SubscribeAck => if self.state is Subscribed {
                    (
                        Connector { state: ConnState::Streaming, failures: 0, ..self },
                        ConnAction::AwaitFrame,
                    )
                } else {
                    (self, ConnAction::Idle)
                },
                ConnEvent::FrameReceived => if self.state is Streaming {
                    (self, ConnAction::AwaitFrame)
                } else {
                    (self, ConnAction::Idle)
                },
                ConnEvent::ProtocolFault => if self.state is Streaming {
                    (self, ConnAction::AwaitFrame)
                } else {
                    (self, ConnAction::Idle)
                },
                ConnEvent::ConnectFailed | ConnEvent::SocketClosed | ConnEvent::IdleTimeout => (
                    Connector {
                        state: ConnState::Disconnected,
                        failures: bump(self.failures),
                        ..self
                    },
                    ConnAction::Backoff { delay_ms: backoff_spec(bump(self.failures)) },
                ),
            }
        }
    }

    /// A fresh connector for one venue; a disabled one never leaves
    /// `Disconnected`.
    pub fn new(exchange: ExchangeId, enabled: bool) -> (r: Connector)
        ensures
            r == (Connector { exchange, enabled, state: ConnState::Disconnected, failures: 0 }),
    {
        Connector { exchange, enabled, state: ConnState::Disconnected, failures: 0 }
    }

    /// Computes the backoff for the current failure count.
    pub fn backoff_ms(&self) -> (r: u64)
        ensures
            r == backoff_spec(self.failures),
    {
        if self.failures == 0 {
            500
        } else if self.failures == 1 {
            1000
        } else if self.failures == 2 {
            2000
        } else if self.failures == 3 {
            4000
        } else if self.failures == 4 {
            8000
        } else if self.failures == 5 {
            16000
        } else {
            30000
        }
    }

    /// Advances the state machine by one event and says what to do next.
    pub fn step(&mut self, ev: ConnEvent) -> (a: ConnAction)
        ensures
            (*final(self), a) == old(self).step_spec(ev),
    {
        if !self.enabled {
            return ConnAction::Idle;
        }
        match ev {
            ConnEvent::BackoffElapsed => {
                if self.state == ConnState::Disconnected {
                    self.state = ConnState::Connecting;
                    ConnAction::Dial
                } else {
                    ConnAction::Idle
                }
            },
            ConnEvent::ConnectOk => {
                if self.state == ConnState::Connecting {
                    self.state = ConnState::Subscribed;
                    ConnAction::SendSubscribe
                } else {
                    ConnAction::Idle
                }
            },
            ConnEvent::SubscribeAck => {
                if self.state == ConnState::Subscribed {
                    self.state = ConnState::Streaming;
                    self.failures = 0;
                    ConnAction::AwaitFrame
                } else {
                    ConnAction::Idle
                }
            },
            ConnEvent::FrameReceived => {
                if self.state == ConnState::Streaming {
                    ConnAction::AwaitFrame
                } else {
                    ConnAction::Idle
                }
            },
            ConnEvent::ProtocolFault => {
                if self.state == ConnState::Streaming {
                    ConnAction::AwaitFrame
                } else {
                    ConnAction::Idle
                }
            },
            ConnEvent::ConnectFailed | ConnEvent::SocketClosed | ConnEvent::IdleTimeout => {
                self.state = ConnState::Disconnected;
                if self.failures < u32::MAX {
                    self.failures = self.failures + 1;
                }
                let d = self.backoff_ms();
                ConnAction::Backoff { delay_ms: d }
            },
        }
    }
}

/// Law: backoff delays never shrink as failures accumulate, never exceed
/// the thirty-second ceiling, and sit exactly at the ceiling from the
/// sixth consecutive failure on.
pub proof fn lemma_backoff_monotone_capped(f1: u32, f2: u32)
    ensures
        f1 <= f2 ==> backoff_spec(f1) <= backoff_spec(f2),
        backoff_spec(f1) <= 30000,
        f1 >= 6 ==> backoff_spec(f1) == 30000,
{
}

/// Law: a socket closure sends an enabled connector — whatever it was
/// doing — to `Disconnected` with a backoff at least as long as after its
/// previous failure and at most the ceiling, and the next elapsed backoff
/// moves that connector to `Connecting` again.
pub proof fn lemma_reconnect_cycle(c: Connector)
    requires
        c.enabled,
    ensures
        ({
            let (down, act) = c.step_spec(ConnEvent::SocketClosed);
            &&& down.state is Disconnected
            &&& down.exchange == c.exchange
            &&& act == (ConnAction::Backoff { delay_ms: backoff_spec(bump(c.failures)) })
            &&& backoff_spec(c.failures) <= backoff_spec(bump(c.failures)) <= 30000
            &&& down.step_spec(ConnEvent::BackoffElapsed).0.state is Connecting
            &&& down.step_spec(ConnEvent::BackoffElapsed).1 is Dial
        }),
{
    lemma_backoff_monotone_capped(c.failures, bump(c.failures));
}

/// The supervisor: one connector per configured exchange. It owns no
/// other state and never touches the aggregator; events for one
/// connector leave every other connector untouched.
pub struct Orchestrator {
    pub connectors: Vec<Connector>,
}

impl Orchestrator {
    /// A supervisor with no connectors yet.
    pub fn new() -> (r: Orchestrator)
        ensures
            r.connectors@.len() == 0,
    {
        Orchestrator { connectors: Vec::new() }
    }

    /// Registers one venue's connector.
    pub fn add_connector(&mut self, exchange: ExchangeId, enabled: bool)
        ensures
            final(self).connectors@ == old(self).connectors@.push(
                Connector { exchange, enabled, state: ConnState::Disconnected, failures: 0 },
            ),
    {
        let c = Connector::new(exchange, enabled);
        self.connectors.push(c);
    }

    /// Routes one event to one connector. Every other connector is left
    /// exactly as it was: connector failures are isolated.
    pub fn on_event(&mut self, i: usize, ev: ConnEvent) -> (a: ConnAction)
        requires
            i < old(self).connectors@.len(),
        ensures
            final(self).connectors@.len() == old(self).connectors@.len(),
            forall|k: int|
                0 <= k < old(self).connectors@.len() && k != i ==> final(self).connectors@[k]
                    == old(self).connectors@[k],
            (final(self).connectors@[i as int], a) == old(self).connectors@[i as int].step_spec(
                ev,
            ),
    {
        let ghost cs0 = self.connectors@;
        let mut c = self.connectors.remove(i);
        let a = c.step(ev);
        self.connectors.insert(i, c);
        proof {
            assert forall|k: int|
                0 <= k < cs0.len() && k != i implies #[trigger] self.connectors@[k] == cs0[k] by {
                if k < i {
                    assert(self.connectors@[k] == cs0.remove(i as int)[k]);
                } else {
                    assert(self.connectors@[k] == cs0.remove(i as int)[k - 1]);
                }
            }
        }
        a
    }
}

} // verus!
