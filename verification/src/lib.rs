//! Core of a line-oriented chat relay.
//!
//! Clients announce a username with a bare alphanumeric line, then send
//! `recipients -> body` lines that are routed to the mailbox of every
//! currently logged-in recipient.  This crate holds the verified core:
//! decoding a protocol line against per-connection session state into an
//! [`decoder::Event`], and the serial dispatcher transition that owns the
//! routing table and decides, for each event, how the table changes and
//! which delivery actions are performed.  The I/O shell around it — the
//! socket listener, the line reader and the per-user delivery tasks —
//! submits events and performs the returned actions.

pub mod decoder;
pub mod dispatch;
pub mod laws;
pub mod text;

pub use decoder::decode;
pub use decoder::Event;
pub use decoder::SessionState;
pub use dispatch::Action;
pub use dispatch::RoutingTable;
