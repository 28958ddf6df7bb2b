//! Core of a real-time MIDI collaboration fabric.
//!
//! Musicians run a client attached to local MIDI hardware; clients exchange
//! three-byte MIDI events through a central TCP broker so that every
//! participant's instruments mirror every other participant's playing.
//! This crate holds the verified core: wire framing, the payload grammar,
//! client identity and loopback suppression, the per-input debounce buffer,
//! the session and broker decision logic, and the port selection policy.
//! The unverified rim (sockets, threads, the OS MIDI subsystem, logging)
//! drives these functions and performs the I/O they decide on.

pub mod broker;
pub mod buffer;
pub mod cli;
pub mod codec;
pub mod ident;
pub mod message;
pub mod ports;
pub mod session;
pub mod text;
