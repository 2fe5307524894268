//! Matchmaking core for a three-participant group activity.
//!
//! Participants join one of three role queues attached to a session; the
//! moment a queue configuration can supply a full group of three, the group
//! is drafted in arrival order and handed to the caller. A membership store
//! records each committed match until settlement, blocking double-booking,
//! and a reputation ledger receives the settlement deltas.

pub mod commands;
pub mod engine;
pub mod laws;
pub mod queues;
