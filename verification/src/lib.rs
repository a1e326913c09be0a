//! Consolidated order-book library: normalizes per-exchange depth updates
//! into a common tick format, merges the latest tick of every exchange into
//! one depth-limited book, fans merged snapshots out to bounded subscriber
//! queues, and drives each exchange connection through a reconnecting
//! state machine.

pub mod aggregator;
pub mod book;
pub mod error;
pub mod fanout;
pub mod gateio;
pub mod orchestrator;
