//! Two-player click-race matchmaking: the event dispatcher, the matchmaking
//! queue, the registry of games in progress and the registry of connections.
//!
//! Time is a plain `u64` count of milliseconds on a clock chosen by the caller;
//! outbound messages are returned as values for the caller to deliver.

pub mod protocol;
pub mod games;
pub mod queue;
pub mod connections;
pub mod server;
