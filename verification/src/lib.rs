//! Verified core of a group-messaging relay: a credential store with
//! first-come enrollment, a bounded append-only message log, a broadcast hub
//! that fans messages out to every live session, and the per-connection
//! session state machine that ties them together.
//!
//! Transport plumbing (sockets, upgrades, task spawning) is deliberately kept
//! outside this crate; the types here work on plain values handed in by a
//! thin I/O shell.

pub mod auth;
pub mod frame;
pub mod gateway;
pub mod hub;
pub mod message_log;
