//! Core of a room-based broadcast gateway.
//!
//! Clients hold live connections, join named rooms, and send text messages
//! that are relayed to every current member of the target room. This crate
//! verifies the connection/room multiplexing core: the room registry (the
//! single source of truth for membership), the message router (join handling
//! and fan-out computation), and the connection lifecycle (registration and
//! disconnect cleanup). Transport, HTTP bootstrap and serialization live
//! outside the library.

pub mod clock;
pub mod gateway;
pub mod label;
pub mod model;
pub mod registry;
pub mod router;
pub mod seq_facts;
