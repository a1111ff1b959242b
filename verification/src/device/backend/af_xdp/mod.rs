//! AF_XDP: sockets whose frames the kernel and the application pass back and forth
//! over rings in shared memory.
pub mod device;
pub mod laws;
pub mod netlink;
pub mod prog;
pub mod socket;
pub mod sys;
pub mod umem;
