//! A subject-based publish/subscribe message broker.
//!
//! The crate holds the three pieces that carry the broker's behaviour:
//! the incremental wire-protocol parsers, the subscription index with its
//! match-result cache, and the per-connection dispatch that fans published
//! payloads out to the matching subscribers. Sockets, tasks and timers are
//! left to the program that links the crate.

pub mod bench;
pub mod client;
pub mod error;
pub mod server;
pub mod subject;
pub mod text;
pub mod wire;
