//! Transport protocols.
pub mod laws;
pub mod udp;
