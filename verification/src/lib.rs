//! Daemon core for tracking and serving the most recently active media
//! players.
//!
//! The library holds the verified logic of a small desktop service: a
//! tracker that remembers the last non-empty set of "playing" sessions, a
//! length-prefixed framing layer, a tagged binary codec for the
//! request/response protocol spoken over a local socket, the per-connection
//! dispatch step, and the client-side rules that resolve a player selector
//! to concrete sessions. All I/O (the socket, the session registry, the
//! command line) stays outside, handing this library plain values.

pub mod tracker;
pub mod wire;
pub mod protocol;
pub mod select;
pub mod server;
