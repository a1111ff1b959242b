//! Errors of the stack: why an operation was refused.
use vstd::prelude::*;

verus! {

/// Coarse classification of an [`IoError`], for callers that only decide
/// whether to retry.
#[derive(Clone, Copy, Debug, PartialEq, Eq, Structural)]
pub enum ErrorKind {
    InvalidInput,
    InvalidData,
    WouldBlock,
    AddrInUse,
    AddrNotAvailable,
    AlreadyExists,
    Unsupported,
    WriteZero,
    Os,
    Other,
}

/// Why an operation failed. Each refusal has a variant of its own; `Os` carries
/// the error number of a failed system call.
#[derive(Clone, Copy, Debug, PartialEq, Eq, Structural)]
pub enum IoError {
    /// A pool or queue was given no room.
    ZeroCapacity,
    /// A bind address was not unicast, or its port was zero.
    BindAddress,
    /// The endpoint is bound already.
    EndpointBound,
    /// A datagram was to leave from an endpoint that is not bound.
    SourceNotBound,
    /// The transmit queue or the frame pool has no room right now.
    Blocked,
    /// Application time ran backwards.
    TimeBackwards,
    /// A datagram does not fit its frame.
    DatagramTooLong,
    /// The bytes are no UDP datagram over IPv4 that this stack supports.
    InvalidDatagram,
    /// A fabric port was given no room, or an address that is taken or not unicast.
    PortSpec,
    /// Two ports belong to different fabrics.
    ForeignPort,
    /// The fabric clock would overflow.
    ClockOverflow,
    /// The fabric carries IPv4 frames only.
    NotIpv4,
    /// A frame is longer than the slot that would hold it.
    FrameTooLong,
    /// A ring size is not a power of two in range.
    RingSize,
    /// The geometry of an AF_XDP device is inconsistent.
    XdpConfig,
    /// Bind flags are unknown or contradict each other.
    BindFlags,
    /// The kernel bound in copy mode although zero-copy was demanded.
    ZeroCopyRefused,
    /// Another XDP program is attached to the interface.
    ProgramAttached,
    /// Generic XDP cannot provide zero-copy.
    GenericZeroCopy,
    /// A frame to transmit is empty or belongs to another device.
    ForeignFrame,
    /// The arena size overflows.
    ArenaOverflow,
    /// The io_uring depths are inconsistent.
    UringDepth,
    /// The receive depth leaves no frame for transmission.
    UringReserve,
    /// A frame to transmit is empty or too long for a request.
    UringFrame,
    /// A read came back empty or filled its whole buffer.
    TruncatedRead,
    /// A datagram was written in part.
    ShortWrite,
    /// The kernel lacks a feature that io_uring needs here.
    UringUnsupported,
    /// A datagram filled its frame, so the interface's packets are too large.
    TruncatedDatagram,
    /// A datagram is too short to hold its address-family prefix.
    MissingPrefix,
    /// An empty datagram cannot be sent.
    EmptyDatagram,
    /// The first nibble is neither of the two IP versions.
    IpVersion,
    /// A system call failed with this error number.
    Os(i32),
}

impl IoError {
    /// The class of this error, as a specification.
    pub open spec fn spec_kind(self) -> ErrorKind {
        match self {
            IoError::ZeroCapacity | IoError::BindAddress | IoError::TimeBackwards
            | IoError::DatagramTooLong | IoError::PortSpec | IoError::ForeignPort
            | IoError::ClockOverflow | IoError::NotIpv4 | IoError::FrameTooLong
            | IoError::RingSize | IoError::XdpConfig | IoError::BindFlags
            | IoError::ForeignFrame | IoError::UringDepth | IoError::UringReserve
            | IoError::UringFrame => ErrorKind::InvalidInput,
            IoError::InvalidDatagram | IoError::TruncatedRead | IoError::TruncatedDatagram
            | IoError::MissingPrefix | IoError::EmptyDatagram
            | IoError::IpVersion => ErrorKind::InvalidData,
            IoError::EndpointBound => ErrorKind::AddrInUse,
            IoError::SourceNotBound => ErrorKind::AddrNotAvailable,
            IoError::Blocked => ErrorKind::WouldBlock,
            IoError::ProgramAttached => ErrorKind::AlreadyExists,
            IoError::ZeroCopyRefused | IoError::GenericZeroCopy
            | IoError::UringUnsupported => ErrorKind::Unsupported,
            IoError::ShortWrite => ErrorKind::WriteZero,
            IoError::ArenaOverflow => ErrorKind::Other,
            IoError::Os(_) => ErrorKind::Os,
        }
    }

    /// The class of this error.
    pub fn kind(&self) -> (kind: ErrorKind)
        ensures
            kind == self.spec_kind(),
    {
        match *self {
            IoError::ZeroCapacity | IoError::BindAddress | IoError::TimeBackwards
            | IoError::DatagramTooLong | IoError::PortSpec | IoError::ForeignPort
            | IoError::ClockOverflow | IoError::NotIpv4 | IoError::FrameTooLong
            | IoError::RingSize | IoError::XdpConfig | IoError::BindFlags
            | IoError::ForeignFrame | IoError::UringDepth | IoError::UringReserve
            | IoError::UringFrame => ErrorKind::InvalidInput,
            IoError::InvalidDatagram | IoError::TruncatedRead | IoError::TruncatedDatagram
            | IoError::MissingPrefix | IoError::EmptyDatagram
            | IoError::IpVersion => ErrorKind::InvalidData,
            IoError::EndpointBound => ErrorKind::AddrInUse,
            IoError::SourceNotBound => ErrorKind::AddrNotAvailable,
            IoError::Blocked => ErrorKind::WouldBlock,
            IoError::ProgramAttached => ErrorKind::AlreadyExists,
            IoError::ZeroCopyRefused | IoError::GenericZeroCopy
            | IoError::UringUnsupported => ErrorKind::Unsupported,
            IoError::ShortWrite => ErrorKind::WriteZero,
            IoError::ArenaOverflow => ErrorKind::Other,
            IoError::Os(_) => ErrorKind::Os,
        }
    }
}

/// Errors of opening and configuring a device.
#[derive(Debug)]
pub enum Error {
    /// An input or output error without a variant of its own.
    Io(IoError),
    CreateSocket(IoError),
    Bind(String),
    IoctlFailed(IoError),
    ConnectFailed(String),
    FCntl(IoError),
    SetSockOpt(IoError),
    GetSockOpt(IoError),
    InvalidTunnelName(String),
    IfconfigFailed(IoError),
    Platform(String),
}

impl From<IoError> for Error {
    fn from(error: IoError) -> (wrapped: Error) {
        Error::Io(error)
    }
}

impl vstd::std_specs::convert::FromSpecImpl<IoError> for Error {
    open spec fn obeys_from_spec() -> bool {
        true
    }

    open spec fn from_spec(error: IoError) -> Error {
        Error::Io(error)
    }
}

} // verus!
