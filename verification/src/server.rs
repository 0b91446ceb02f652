//! The broker: the parser of what clients send, the subscription index,
//! and the handling of connections.

pub mod cache;
pub mod client;
pub mod parser;
pub mod server;
pub mod simple_sublist;
pub mod sublist;
