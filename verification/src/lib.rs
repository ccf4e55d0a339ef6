//! Core of a decoy shared-terminal server.
//!
//! The server accepts interactive remote-shell connections, pretends to
//! authenticate them, and then mirrors every byte a connected party sends to
//! every *other* connected party, so that intruders watch each other instead
//! of a real shell.  This crate holds the verified heart of that design:
//!
//! - [`registry`]: a bounded, least-recently-used registry mapping a
//!   (session, channel) identity to the token of a writable channel handle;
//! - [`session`]: the per-connection state machine that decides on
//!   authentication attempts, registers channels, and plans the broadcast
//!   fan-out and echo for each inbound data event;
//! - [`dispatcher`]: allocation of unique session identities;
//! - [`model`]: the mathematical model of the registry's contents that all
//!   contracts are stated over.
//!
//! Transport, cryptography and actual socket writes live outside this crate;
//! the library computes, for each event, exactly what must be written where.

pub mod cache;
pub mod dispatcher;
pub mod model;
pub mod registry;
pub mod session;
