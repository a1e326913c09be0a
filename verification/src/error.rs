//! Error taxonomy of the feed pipeline. Every variant is recovered
//! locally: a connection failure restarts one connector with backoff, a
//! protocol failure discards one frame, a distribution failure drops one
//! subscriber. None is fatal to the process.

use vstd::prelude::*;

verus! {

/// What went wrong while moving one exchange's data toward subscribers.
#[derive(Debug, Clone)]
pub enum FeedError {
    /// Socket or handshake failure for one exchange.
    Connection,
    /// One frame failed to decode into a tick; carries the offending
    /// payload so a venue protocol change can be diagnosed.
    Protocol { payload: Vec<u8> },
    /// A subscriber's outbound channel is closed or unreachable.
    Distribution,
}

} // verus!
