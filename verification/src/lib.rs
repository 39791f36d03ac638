//! Core logic of a multi-room, line-oriented chat service.
//!
//! The crate holds the parts of the service that are pure logic and proves
//! them correct: the wire codec that frames and parses the text protocol
//! ([`codec`]), the registry that owns room membership and routes
//! broadcasts ([`registry`]), the per-connection session state machine with
//! its heartbeat-based liveness rule ([`session`]), and the command mapping
//! of the console client ([`client`]). Socket handling and the actor
//! runtime live outside the crate and drive this logic with plain values.

pub mod client;
pub mod codec;
pub mod registry;
pub mod session;
