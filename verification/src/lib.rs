//! A small single-core networking stack whose packet handling is verified.
use vstd::prelude::*;

pub mod addr;
pub mod api;
pub mod bytes;
pub mod device;
pub mod errno;
pub mod error;
pub mod net;
pub mod shared;
pub mod simulation;
pub mod table;
pub mod time;
pub mod transport;

verus! {

}
