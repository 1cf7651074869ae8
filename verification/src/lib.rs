//! A minimal publish/subscribe message broker core in the style of NATS.
//!
//! Clients speak a line-oriented text protocol (`CONNECT`, `PING`, `SUB`,
//! `UNSUB`, `PUB`); the broker keeps a registry of subscribers per subject
//! and fans published payloads out to them. This crate holds the verified
//! core: the frame codec that re-assembles commands from a chunked byte
//! stream, the command parser, the subscription registry, and the session
//! dispatch logic. Transport I/O lives outside.

pub mod codec;
pub mod nats;
pub mod session;
pub mod store;
