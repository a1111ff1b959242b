//! IPv4 addresses and UDP endpoints.
use vstd::prelude::*;

verus! {

/// An IPv4 address, octet by octet.
#[derive(Clone, Copy, Debug, PartialEq, Eq, PartialOrd, Ord, Hash, Structural)]
pub struct Ipv4Addr {
    pub a: u8,
    pub b: u8,
    pub c: u8,
    pub d: u8,
}

impl Ipv4Addr {
    /// The four octets in network order.
    pub open spec fn view(self) -> Seq<u8> {
        seq![self.a, self.b, self.c, self.d]
    }

    /// The address `a.b.c.d`.
    pub fn new(a: u8, b: u8, c: u8, d: u8) -> (address: Ipv4Addr)
        ensures
            address == (Ipv4Addr { a, b, c, d }),
            address@ == seq![a, b, c, d],
    {
        Ipv4Addr { a, b, c, d }
    }

    /// The limited broadcast address, `255.255.255.255`.
    pub fn broadcast() -> (address: Ipv4Addr)
        ensures
            address.broadcasts(),
            address@ == seq![255u8, 255u8, 255u8, 255u8],
    {
        Ipv4Addr { a: 255, b: 255, c: 255, d: 255 }
    }

    /// The four octets in network order.
    pub fn octets(&self) -> (octets: [u8; 4])
        ensures
            octets@ == self@,
    {
        let octets: [u8; 4] = [self.a, self.b, self.c, self.d];
        assert(octets@ =~= self@);
        octets
    }

    /// The address whose octets these are.
    pub fn from_octets(octets: [u8; 4]) -> (address: Ipv4Addr)
        ensures
            address@ == octets@,
    {
        let address = Ipv4Addr { a: octets[0], b: octets[1], c: octets[2], d: octets[3] };
        assert(address@ =~= octets@);
        address
    }

    /// Addresses with the same octets are the same.
    pub proof fn lemma_same(x: Ipv4Addr, y: Ipv4Addr)
        requires
            x@ == y@,
        ensures
            x == y,
    {
        assert(x@[0] == x.a && x@[1] == x.b && x@[2] == x.c && x@[3] == x.d);
        assert(y@[0] == y.a && y@[1] == y.b && y@[2] == y.c && y@[3] == y.d);
    }

    /// Whether this is `0.0.0.0`.
    pub open spec fn unspecified(self) -> bool {
        self.a == 0 && self.b == 0 && self.c == 0 && self.d == 0
    }

    /// Whether this is the limited broadcast address.
    pub open spec fn broadcasts(self) -> bool {
        self.a == 255 && self.b == 255 && self.c == 255 && self.d == 255
    }

    /// Whether this lies in `224.0.0.0/4`.
    pub open spec fn multicasts(self) -> bool {
        224 <= self.a <= 239
    }

    /// Whether a single host can own this address.
    pub open spec fn unicasts(self) -> bool {
        !self.unspecified() && !self.broadcasts() && !self.multicasts()
    }

    /// Whether this is `0.0.0.0`.
    pub fn is_unspecified(&self) -> (yes: bool)
        ensures
            yes == self.unspecified(),
    {
        self.a == 0 && self.b == 0 && self.c == 0 && self.d == 0
    }

    /// Whether this is the limited broadcast address.
    pub fn is_broadcast(&self) -> (yes: bool)
        ensures
            yes == self.broadcasts(),
    {
        self.a == 255 && self.b == 255 && self.c == 255 && self.d == 255
    }

    /// Whether this lies in `224.0.0.0/4`.
    pub fn is_multicast(&self) -> (yes: bool)
        ensures
            yes == self.multicasts(),
    {
        224 <= self.a && self.a <= 239
    }
}

/// A UDP endpoint: an address and a port.
#[derive(Clone, Copy, Debug, PartialEq, Eq, PartialOrd, Ord, Hash, Structural)]
pub struct SocketAddrV4 {
    pub ip: Ipv4Addr,
    pub port: u16,
}

impl SocketAddrV4 {
    /// The endpoint `ip:port`.
    pub fn new(ip: Ipv4Addr, port: u16) -> (endpoint: SocketAddrV4)
        ensures
            endpoint == (SocketAddrV4 { ip, port }),
    {
        SocketAddrV4 { ip, port }
    }

    /// The address.
    pub fn ip(&self) -> (ip: &Ipv4Addr)
        ensures
            *ip == self.ip,
    {
        &self.ip
    }

    /// The port.
    pub fn port(&self) -> (port: u16)
        ensures
            port == self.port,
    {
        self.port
    }
}

} // verus!
