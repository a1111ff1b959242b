//! IPv4 UDP datagrams: building, checking, and parsing them.
use vstd::prelude::*;

use crate::addr::{Ipv4Addr, SocketAddrV4};
use crate::bytes::{
    be16, be16_bytes, bytes_of16, lemma_overwrite, lemma_overwrite_inside, overwrite,
    put16, put_run, read16,
};
use crate::device::PacketBuf;
use crate::error::IoError;
use crate::net::responder::{total_len, unfragmented};
use crate::net::sum::{checksum_of, complement, summed, word_sum};
use crate::net::{checksum, sum_words};

verus! {

broadcast use PacketBuf::lemma_same_frame;

/// The length of an IPv4 header without options and a UDP header.
pub const HEADERS: usize = 28;

/// The sum that a UDP checksum covers: addresses, protocol, length, and datagram.
pub open spec fn udp_sum(source: Seq<u8>, destination: Seq<u8>, datagram: Seq<u8>) -> nat {
    word_sum(source) + word_sum(destination) + 17 + datagram.len() + word_sum(datagram)
}

/// The checksum of a UDP datagram between two IPv4 addresses: zero when the datagram
/// carries a valid one.
pub fn ipv4_checksum(source: [u8; 4], destination: [u8; 4], datagram: &[u8]) -> (sum: u16)
    ensures
        sum == complement(udp_sum(source@, destination@, datagram@)),
{
    let all: u128 = sum_words(&source) + sum_words(&destination) + 17 + datagram.len() as u128
        + sum_words(datagram);
    crate::net::finish_sum(all)
}

/// An IPv4 header without its checksum: no options, not to be fragmented, 64 hops,
/// UDP.
pub open spec fn bare_header(
    source: Seq<u8>,
    destination: Seq<u8>,
    total: u16,
    identification: u16,
) -> Seq<u8> {
    seq![0x45u8, 0u8] + be16_bytes(total) + be16_bytes(identification) + seq![
        0x40u8,
        0u8,
        64u8,
        17u8,
        0u8,
        0u8,
    ] + source + destination
}

/// A UDP datagram without its checksum.
pub open spec fn bare_segment(source: u16, destination: u16, payload: Seq<u8>) -> Seq<u8> {
    be16_bytes(source) + be16_bytes(destination) + be16_bytes((payload.len() + 8) as u16) + seq![
        0u8,
        0u8,
    ] + payload
}

/// The checksum field of a UDP datagram: its checksum, with the all-ones word in
/// place of zero, which would say that there is none.
pub open spec fn checksum_field(
    source: Seq<u8>,
    destination: Seq<u8>,
    segment: Seq<u8>,
) -> u16 {
    let sum = complement(udp_sum(source, destination, segment));
    if sum == 0 {
        0xffff
    } else {
        sum as u16
    }
}

/// A UDP datagram.
pub open spec fn segment(
    source: (Seq<u8>, u16),
    destination: (Seq<u8>, u16),
    payload: Seq<u8>,
) -> Seq<u8> {
    let bare = bare_segment(source.1, destination.1, payload);
    overwrite(bare, 6, be16_bytes(checksum_field(source.0, destination.0, bare)))
}

/// A UDP datagram in an IPv4 packet.
pub open spec fn datagram(
    source: (Seq<u8>, u16),
    destination: (Seq<u8>, u16),
    payload: Seq<u8>,
    identification: u16,
) -> Seq<u8> {
    let total = (payload.len() + HEADERS) as u16;
    summed(bare_header(source.0, destination.0, total, identification), 10) + segment(
        source,
        destination,
        payload,
    )
}

/// Writes one complete UDP datagram with its IPv4 header into a frame.
pub fn build_ipv4(
    buf: &mut PacketBuf,
    source: ([u8; 4], u16),
    destination: ([u8; 4], u16),
    payload: &[u8],
    identification: u16,
) -> (r: Result<(), IoError>)
    requires
        old(buf).inv(),
    ensures
        r is Ok <==> payload@.len() + HEADERS <= u16::MAX && payload@.len() + HEADERS <= old(
            buf
        ).room(),
        r matches Err(e) ==> e == IoError::DatagramTooLong && *final(buf) == *old(buf),
        r is Ok ==> {
            &&& final(buf).inv()
            &&& final(buf)@ == datagram(
                (source.0@, source.1),
                (destination.0@, destination.1),
                payload@,
                identification,
            )
            &&& final(buf).offset() == old(buf).offset()
            &&& final(buf).same_frame(*old(buf))
            &&& final(buf).frame() == overwrite(
                old(buf).frame(),
                old(buf).offset() as int,
                final(buf)@,
            )
        },
{
    let ghost before = *buf;
    let n: usize = payload.len();
    let room: usize = buf.tail_capacity();
    if n > u16::MAX as usize - HEADERS || room < HEADERS || n > room - HEADERS {
        return Err(IoError::DatagramTooLong);
    }
    let total: usize = n + HEADERS;
    let t: [u8; 2] = bytes_of16(total as u16);
    let id: [u8; 2] = bytes_of16(identification);
    let s: [u8; 4] = source.0;
    let d: [u8; 4] = destination.0;
    let header: [u8; 20] = [
        0x45, 0, t[0], t[1], id[0], id[1], 0x40, 0, 64, 17, 0, 0,
        s[0], s[1], s[2], s[3], d[0], d[1], d[2], d[3],
    ];
    let ghost bare = bare_header(s@, d@, total as u16, identification);
    assert(header@ =~= bare);
    let ip_sum: u16 = checksum(&header);
    let sp: [u8; 2] = bytes_of16(source.1);
    let dp: [u8; 2] = bytes_of16(destination.1);
    let l: [u8; 2] = bytes_of16((total - 20) as u16);
    let ports: [u8; 8] = [sp[0], sp[1], dp[0], dp[1], l[0], l[1], 0, 0];
    buf.set_len(total);
    let ghost mid = *buf;
    let p = buf.as_mut_packet();
    let ghost p0 = p@;
    put_run(p, 0, &header);
    put16(p, 10, ip_sum);
    put_run(p, 20, &ports);
    put_run(p, 28, payload);
    let ghost head = summed(bare, 10);
    let ghost tail = bare_segment(source.1, destination.1, payload@);
    proof {
        lemma_overwrite(p0, 0, bare);
        lemma_overwrite_inside(p0, 0, bare, 10, be16_bytes(ip_sum));
        lemma_overwrite(p0, 0, head);
        lemma_overwrite(overwrite(p0, 0, head), 20, ports@);
        lemma_overwrite(overwrite(overwrite(p0, 0, head), 20, ports@), 28, payload@);
        assert(ports@ + payload@ =~= tail);
        assert(p@ =~= head + tail);
        assert(p@.subrange(20, total as int) =~= tail);
    }
    let sum: u16 = ipv4_checksum(source.0, destination.0, &p[20..total]);
    let field: u16 = if sum == 0 {
        0xffff
    } else {
        sum
    };
    put16(p, 26, field);
    proof {
        lemma_overwrite(head + tail, 26, be16_bytes(field));
        lemma_overwrite(tail, 6, be16_bytes(field));
        assert(p@ =~= head + overwrite(tail, 6, be16_bytes(field)));
    }
    proof {
        buf.lemma_frame_kept_twice(mid, before);
    }
    Ok(())
}

/// Whether `p` starts with a UDP datagram over IPv4 that this stack supports: no
/// options, no fragment, hops left, lengths that agree, and checksums that hold. A
/// zero UDP checksum field means that there is none.
pub open spec fn valid(p: Seq<u8>) -> bool {
    &&& p.len() >= HEADERS
    &&& p[0] == 0x45
    &&& p[9] == 17
    &&& p[8] != 0
    &&& HEADERS <= total_len(p) <= p.len()
    &&& unfragmented(p)
    &&& checksum_of(p.take(20)) == 0
    &&& be16(p, 24) == total_len(p) - 20
    &&& be16(p, 26) == 0 || complement(
        udp_sum(p.subrange(12, 16), p.subrange(16, 20), p.subrange(20, total_len(p))),
    ) == 0
}

/// A validated, borrowed UDP datagram. The caller removes Ethernet framing.
#[derive(Debug, Clone, Copy)]
pub struct Datagram<'a> {
    pub source: SocketAddrV4,
    pub destination: SocketAddrV4,
    pub payload: &'a [u8],
}

/// Where the datagram in `p` comes from.
pub open spec fn source_of(p: Seq<u8>) -> SocketAddrV4 {
    SocketAddrV4 {
        ip: Ipv4Addr { a: p[12], b: p[13], c: p[14], d: p[15] },
        port: be16(p, 20) as u16,
    }
}

/// Where the datagram in `p` goes to.
pub open spec fn destination_of(p: Seq<u8>) -> SocketAddrV4 {
    SocketAddrV4 {
        ip: Ipv4Addr { a: p[16], b: p[17], c: p[18], d: p[19] },
        port: be16(p, 22) as u16,
    }
}

/// What the datagram in `p` carries.
pub open spec fn payload_of(p: Seq<u8>) -> Seq<u8> {
    p.subrange(HEADERS as int, total_len(p))
}

/// Reads the UDP datagram at the start of a packet.
pub fn parse_ipv4(packet: &[u8]) -> (r: Result<Datagram<'_>, IoError>)
    ensures
        r is Ok <==> valid(packet@),
        r matches Err(e) ==> e == IoError::InvalidDatagram,
        r matches Ok(d) ==> {
            &&& d.source == source_of(packet@)
            &&& d.destination == destination_of(packet@)
            &&& d.payload@ == payload_of(packet@)
        },
{
    if packet.len() < HEADERS || packet[0] != 0x45 || packet[9] != 17 || packet[8] == 0 {
        return Err(IoError::InvalidDatagram);
    }
    let total: usize = read16(packet, 2) as usize;
    let flags: u16 = read16(packet, 6);
    assert(packet@.subrange(0, 20) =~= packet@.take(20));
    if total < HEADERS || total > packet.len() || (flags != 0 && flags != 0x4000) || checksum(
        &packet[0..20],
    ) != 0 {
        return Err(IoError::InvalidDatagram);
    }
    let source: [u8; 4] = [packet[12], packet[13], packet[14], packet[15]];
    let destination: [u8; 4] = [packet[16], packet[17], packet[18], packet[19]];
    assert(source@ =~= packet@.subrange(12, 16));
    assert(destination@ =~= packet@.subrange(16, 20));
    if read16(packet, 24) as usize != total - 20 || (read16(packet, 26) != 0 && ipv4_checksum(
        source,
        destination,
        &packet[20..total],
    ) != 0) {
        return Err(IoError::InvalidDatagram);
    }
    Ok(
        Datagram {
            source: SocketAddrV4::new(
                Ipv4Addr::new(source[0], source[1], source[2], source[3]),
                read16(packet, 20),
            ),
            destination: SocketAddrV4::new(
                Ipv4Addr::new(destination[0], destination[1], destination[2], destination[3]),
                read16(packet, 22),
            ),
            payload: &packet[HEADERS..total],
        },
    )
}

/// A datagram that was built is read back: it is valid and gives back its endpoints
/// and its payload, and its checksum field is never zero.
pub proof fn law_built_datagrams_parse(
    source: SocketAddrV4,
    destination: SocketAddrV4,
    payload: Seq<u8>,
    identification: u16,
)
    requires
        payload.len() + HEADERS <= u16::MAX,
    ensures
        ({
            let p = datagram(
                (source.ip@, source.port),
                (destination.ip@, destination.port),
                payload,
                identification,
            );
            &&& p.len() == payload.len() + HEADERS
            &&& total_len(p) == p.len()
            &&& valid(p)
            &&& source_of(p) == source
            &&& destination_of(p) == destination
            &&& payload_of(p) == payload
            &&& be16(p, 26) != 0
        }),
{
    let (s, d) = ((source.ip@, source.port), (destination.ip@, destination.port));
    let p = datagram(s, d, payload, identification);
    let total = (payload.len() + HEADERS) as u16;
    let bare = bare_header(s.0, d.0, total, identification);
    let head = summed(bare, 10);
    let bare_seg = bare_segment(s.1, d.1, payload);
    let field = checksum_field(s.0, d.0, bare_seg);
    let seg = segment(s, d, payload);
    crate::net::sum::lemma_complement_completes(word_sum(bare));
    crate::net::sum::lemma_checksum_completes(bare, 10);
    lemma_overwrite(bare, 10, be16_bytes(checksum_of(bare) as u16));
    lemma_overwrite(bare_seg, 6, be16_bytes(field));
    assert(p.take(20) =~= head);
    assert(p.subrange(12, 16) =~= s.0);
    assert(p.subrange(16, 20) =~= d.0);
    assert(p.subrange(20, total as int) =~= seg);
    assert(total_len(p) == total);
    assert(payload_of(p) =~= payload);
    assert(be16(p, 20) == s.1);
    assert(be16(p, 22) == d.1);
    assert(be16(p, 24) == payload.len() + 8);
    assert(be16(p, 26) == field);
    let sum = udp_sum(s.0, d.0, bare_seg);
    crate::net::sum::lemma_complement_completes(sum);
    crate::net::sum::lemma_valid(sum);
    assert(field != 0);
    crate::net::sum::lemma_word_sum_put(bare_seg, 6, field);
    assert(udp_sum(s.0, d.0, seg) == sum + field);
    if complement(sum) == 0 {
        crate::net::sum::lemma_negative_zero(sum);
    }
}

/// A datagram that was cut short is rejected, wherever it was cut.
pub proof fn law_truncated_datagrams_are_rejected(p: Seq<u8>, n: int)
    requires
        valid(p),
        0 <= n < total_len(p),
    ensures
        !valid(p.take(n)),
{
    let cut = p.take(n);
    if n >= HEADERS {
        assert(cut[2] == p[2] && cut[3] == p[3]);
    }
}

/// Bytes after the datagram make no difference.
pub proof fn law_trailing_bytes_are_ignored(p: Seq<u8>, more: Seq<u8>)
    requires
        valid(p),
    ensures
        valid(p + more),
        source_of(p + more) == source_of(p),
        destination_of(p + more) == destination_of(p),
        payload_of(p + more) == payload_of(p),
{
    let q = p + more;
    assert(q.take(20) =~= p.take(20));
    assert(q.subrange(12, 16) =~= p.subrange(12, 16));
    assert(q.subrange(16, 20) =~= p.subrange(16, 20));
    assert(q.subrange(20, total_len(p)) =~= p.subrange(20, total_len(p)));
    assert(payload_of(q) =~= payload_of(p));
}

} // verus!
