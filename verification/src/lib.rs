//! A minimal in-memory key-value server core in the style of Redis:
//! wire-protocol codec, TTL-aware store, role-aware command dispatch,
//! and leader/follower replication state machines.
//!
//! All I/O lives outside this crate; the functions here compute replies
//! and state transitions from plain bytes and instants.

pub mod cli;
pub mod codec;
pub mod decoder;
pub mod replica;
pub mod server;
pub mod session;
pub mod store;
