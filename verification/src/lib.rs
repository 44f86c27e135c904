//! Client-side JSON-RPC 2.0 correlation engine.
//!
//! The crate turns a frame transport into calls, notifications, subscriptions and batches.
//! It performs no I/O itself: every operation either changes in-memory state or tells the
//! caller what to put on the wire and which waiter to wake with which value.

pub mod error;
pub mod hyper_helpers;
pub mod json;
pub mod jsonrpc;
pub mod jsonrpc_transport;
pub mod manager;
pub mod manager_laws;
pub mod manager_state;
pub mod params;
