//! Kernel-facing devices: what they decide and compute. The system calls themselves
//! are made by the application around the library.
pub mod af_xdp;
pub mod tun;
pub mod uring;
