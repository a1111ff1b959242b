//! Stateless IPv4 packet handling: no routing, TCP, reassembly, or neighbour cache.
//! All parsing is done before anything is changed.
pub mod laws;
pub mod responder;
pub mod sum;

pub use responder::{LinkLayer, Reply, Responder};
pub use sum::{checksum, finish_sum, sum_words};
