//! Core of a forwarding DNS resolver: wire-format codec, TTL cache,
//! upstream-reply validation, and the per-request handler state machine.
//! Socket I/O lives outside this crate; every function here is pure
//! computation on plain values.

pub mod msg;
pub mod codec;
pub mod cache;
pub mod handler;
