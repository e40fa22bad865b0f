//! The speed daemon: wire format, ticketing and ticket routing.

pub mod cameras;
pub mod channel;
pub mod controller;
pub mod daemon;
pub mod dispatchers;
pub mod heartbeat;
pub mod octets;
pub mod session;
pub mod wire;
