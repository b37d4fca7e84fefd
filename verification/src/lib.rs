//! Core of a small broadcast chat service: the wire codec with its framing
//! round-trip laws, the connection registry with bounded per-peer outbound
//! queues, the per-connection handler state machine, and the client's editor
//! and session state. All I/O (sockets, terminal, argument parsing) lives in
//! the surrounding application, which hands this library plain values.

pub mod app;
pub mod codec;
pub mod datatypes;
pub mod server;
