//! A minimal message-passing networking layer: framed, ordered, bidirectional
//! byte-message exchange over a stream transport, for one persistent client
//! connection and one multi-client server.
//!
//! This crate holds the verified core: the length-prefixed framing codec, the
//! bounded FIFO queues, the per-connection lifecycle supervisor, the client
//! endpoint state, and the server endpoint with its live-connection registry.
//! The transport itself (sockets, task spawning, awaiting) lives outside the
//! crate and drives these state machines with the events it observes.

pub mod client;
pub mod codec;
pub mod conn;
pub mod errors;
pub mod queue;
pub mod server;
