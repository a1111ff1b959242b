//! The error numbers of the system that this library tells apart.
use vstd::prelude::*;

verus! {

/// The numbers that the system gives to errors.
#[derive(Clone, Copy, Debug, PartialEq, Eq, Structural)]
pub struct Errno {
    /// Try again: the operation would block.
    pub again: i32,
    /// A signal came in between.
    pub interrupted: i32,
    /// It exists already.
    pub exists: i32,
    /// It is not supported.
    pub unsupported: i32,
    /// An argument is invalid.
    pub invalid: i32,
    /// It does not exist.
    pub missing: i32,
}

impl Errno {
    /// The numbers are different from each other and from success.
    pub open spec fn distinct(self) -> bool {
        &&& self.again != 0 && self.interrupted != 0 && self.exists != 0 && self.unsupported != 0
            && self.invalid != 0 && self.missing != 0
        &&& self.again != self.interrupted && self.again != self.exists && self.again
            != self.unsupported && self.again != self.invalid && self.again != self.missing
        &&& self.interrupted != self.exists && self.interrupted != self.unsupported
            && self.interrupted != self.invalid && self.interrupted != self.missing
        &&& self.exists != self.unsupported && self.exists != self.invalid && self.exists
            != self.missing
        &&& self.unsupported != self.invalid && self.unsupported != self.missing
        &&& self.invalid != self.missing
    }

    /// The numbers on the system that the library is built for.
    pub fn host() -> (errno: Errno)
        ensures
            errno.distinct(),
    {
        host_errno()
    }
}

/// The numbers on the system that the library is built for: the constants `EAGAIN`,
/// `EINTR`, `EEXIST`, `EOPNOTSUPP`, `EINVAL`, and `ENOENT` of libc. They differ between
/// systems; what is claimed is only that they are different from each other and not
/// zero.
#[verifier::external_body]
fn host_errno() -> (errno: Errno)
    ensures
        errno.distinct(),
{
    Errno {
        again: libc::EAGAIN,
        interrupted: libc::EINTR,
        exists: libc::EEXIST,
        unsupported: libc::EOPNOTSUPP,
        invalid: libc::EINVAL,
        missing: libc::ENOENT,
    }
}

} // verus!
