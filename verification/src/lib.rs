//! A minimal UDP presence registry: clients connect to a rendezvous server,
//! are assigned a 128-bit identity, heartbeat periodically, and can discover
//! and query each other.
//!
//! The crate holds the protocol's logic: the wire codec for the tagged
//! message envelope and its payloads, the client registry with time-based
//! liveness eviction, the server's dispatch step, and the client session's
//! decision steps. Socket I/O, clocks and task scheduling live outside and
//! hand these functions plain values.

pub mod client;
pub mod codec;
pub mod protocol;
pub mod registry;
pub mod server;
