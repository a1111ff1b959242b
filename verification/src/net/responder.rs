//! A small in-place responder to ARP requests, pings, and UDP datagrams.
use vstd::prelude::*;

use super::sum::{checksum, checksum_of, complement, lemma_checksum_completes, summed};
use crate::bytes::{
    be16, be16_bytes, lemma_overwrite, lemma_overwrite_front, lemma_overwrite_inside, lemma_overwrite_join,
    overwrite, put16, put_run, read16, zeros,
};
use crate::device::PacketBuf;
use crate::transport::udp::{
    destination_of, ipv4_checksum, payload_of, source_of, udp_sum, valid,
};

verus! {

broadcast use PacketBuf::lemma_same_frame;

/// What a frame starts with.
#[derive(Clone, Copy, Debug, PartialEq, Eq, Structural)]
pub enum LinkLayer {
    Ip,
    Ethernet,
}

/// What became of a frame.
#[derive(Clone, Copy, Debug, PartialEq, Eq, Structural)]
pub enum Reply {
    Arp,
    Icmp,
    Udp,
    Ignored,
    Malformed,
}

impl Reply {
    /// Whether the frame was turned into an answer.
    pub open spec fn answers(self) -> bool {
        self is Arp || self is Icmp || self is Udp
    }

    /// Whether the frame was turned into an answer.
    pub fn is_reply(self) -> (yes: bool)
        ensures
            yes == self.answers(),
    {
        matches!(self, Reply::Arp | Reply::Icmp | Reply::Udp)
    }
}

/// The stack's IPv4 address, Ethernet address, and UDP echo port, if any. Unrelated
/// traffic is ignored.
#[derive(Clone, Copy, Debug)]
pub struct Responder {
    pub ipv4: [u8; 4],
    pub mac: [u8; 6],
    pub udp_port: Option<u16>,
}

/// The length of an Ethernet header without tags.
pub const ETHERNET: usize = 14;

/// The length of an IPv4 header without options.
pub const HEADER: usize = 20;

/// The length of an ARP message for IPv4 over Ethernet.
pub const ARP: usize = 28;

/// The least length of an Ethernet frame, checksum apart.
pub const SHORTEST: usize = 60;

pub const TYPE_IPV4: u16 = 0x0800;

pub const TYPE_ARP: u16 = 0x0806;

pub const TYPE_VLAN: u16 = 0x8100;

pub const TYPE_PROVIDER_VLAN: u16 = 0x88a8;

/// Whether `protocol` announces a VLAN tag.
pub open spec fn tagged(protocol: int) -> bool {
    protocol == TYPE_VLAN || protocol == TYPE_PROVIDER_VLAN
}

/// Where the payload starts and what protocol it has, after up to `tags` more VLAN
/// tags; `None` where the packet ends before that.
pub open spec fn past_tags(p: Seq<u8>, offset: int, protocol: int, tags: nat) -> Option<(int, int)>
    decreases tags,
{
    if tags == 0 || !tagged(protocol) {
        Some((offset, protocol))
    } else if p.len() < offset + 4 {
        None
    } else {
        past_tags(p, offset + 4, be16(p, offset + 2), (tags - 1) as nat)
    }
}

/// Where the payload of a packet starts and what protocol it has; `None` where the
/// link header is cut short. At most two VLAN tags are passed over.
pub open spec fn link_header(p: Seq<u8>, link: LinkLayer) -> Option<(int, int)> {
    match link {
        LinkLayer::Ip => Some((0, TYPE_IPV4 as int)),
        LinkLayer::Ethernet => if p.len() < ETHERNET {
            None
        } else {
            past_tags(p, ETHERNET as int, be16(p, 12), 2)
        },
    }
}

/// The length of an IPv4 header.
pub open spec fn header_len(ip: Seq<u8>) -> int {
    (ip[0] % 16) * 4
}

/// The length of an IPv4 packet.
pub open spec fn total_len(ip: Seq<u8>) -> int {
    be16(ip, 2)
}

/// Whether `ip` starts with an intact IPv4 header and holds the whole packet.
pub open spec fn intact(ip: Seq<u8>) -> bool {
    &&& ip.len() >= HEADER
    &&& ip[0] / 16 == 4
    &&& HEADER <= header_len(ip) <= total_len(ip) <= ip.len()
    &&& checksum_of(ip.take(header_len(ip))) == 0
}

/// Whether an IPv4 packet is whole: no fragment, and the reserved flag is clear. It
/// may ask not to be fragmented.
pub open spec fn unfragmented(ip: Seq<u8>) -> bool {
    be16(ip, 6) == 0 || be16(ip, 6) == 0x4000
}

impl Responder {
    /// Whether an ARP message asks for this stack's Ethernet address.
    pub open spec fn asked_by(self, a: Seq<u8>) -> bool {
        &&& be16(a, 0) == 1
        &&& be16(a, 2) == TYPE_IPV4
        &&& a[4] == 6
        &&& a[5] == 4
        &&& be16(a, 6) == 1
        &&& a.subrange(24, 28) == self.ipv4@
    }

    /// What becomes of an ARP message.
    pub open spec fn arp_verdict(self, a: Seq<u8>) -> Reply {
        if a.len() < ARP {
            Reply::Malformed
        } else if self.asked_by(a) {
            Reply::Arp
        } else {
            Reply::Ignored
        }
    }

    /// What becomes of the body of an ICMP packet.
    pub open spec fn ping_verdict(self, body: Seq<u8>) -> Reply {
        if body.len() < 8 || checksum_of(body) != 0 {
            Reply::Malformed
        } else if body[0] == 8 && body[1] == 0 {
            Reply::Icmp
        } else {
            Reply::Ignored
        }
    }

    /// What becomes of a UDP datagram. A zero checksum field means that there is
    /// none.
    pub open spec fn udp_verdict(self, source: Seq<u8>, body: Seq<u8>) -> Reply {
        if body.len() < 8 || be16(body, 4) != body.len() {
            Reply::Malformed
        } else if self.udp_port is None || self.udp_port->0 != be16(body, 2) {
            Reply::Ignored
        } else if be16(body, 6) != 0 && complement(udp_sum(source, self.ipv4@, body)) != 0 {
            Reply::Malformed
        } else {
            Reply::Udp
        }
    }

    /// What becomes of an IPv4 packet.
    pub open spec fn ip_verdict(self, ip: Seq<u8>) -> Reply {
        let body = ip.subrange(HEADER as int, total_len(ip));
        if !intact(ip) {
            Reply::Malformed
        } else if !unfragmented(ip) || ip.subrange(16, 20) != self.ipv4@ || ip[8] == 0
            || header_len(ip) != HEADER {
            Reply::Ignored
        } else if ip[9] == 1 {
            self.ping_verdict(body)
        } else if ip[9] == 17 {
            self.udp_verdict(ip.subrange(12, 16), body)
        } else {
            Reply::Ignored
        }
    }

    /// What becomes of a packet.
    pub open spec fn verdict(self, p: Seq<u8>, link: LinkLayer) -> Reply {
        match link_header(p, link) {
            None => Reply::Malformed,
            Some((offset, protocol)) => if protocol == TYPE_ARP {
                self.arp_verdict(p.skip(offset))
            } else if protocol == TYPE_IPV4 {
                self.ip_verdict(p.skip(offset))
            } else {
                Reply::Ignored
            },
        }
    }

    /// The answer to an ARP request.
    pub open spec fn arp_answer(self, a: Seq<u8>) -> Seq<u8> {
        a.take(6) + be16_bytes(2) + self.mac@ + self.ipv4@ + a.subrange(8, 14) + a.subrange(14, 18)
    }

    /// The header of the answer to an IPv4 packet, without its checksum.
    pub open spec fn bare_header(self, ip: Seq<u8>) -> Seq<u8> {
        ip.take(8) + seq![64u8, ip[9], 0u8, 0u8] + self.ipv4@ + ip.subrange(12, 16)
    }

    /// The header of the answer to an IPv4 packet.
    pub open spec fn answer_header(self, ip: Seq<u8>) -> Seq<u8> {
        summed(self.bare_header(ip), 10)
    }

    /// The answer to an IPv4 packet.
    pub open spec fn ip_answer(self, ip: Seq<u8>) -> Seq<u8> {
        let body = ip.subrange(HEADER as int, total_len(ip));
        self.answer_header(ip) + if ip[9] == 1 {
            echo_reply(body)
        } else {
            swapped_ports(body)
        }
    }

    /// The answer to a packet, before padding: the link header turned round, and the
    /// answer to what it carries.
    pub open spec fn answer(self, p: Seq<u8>, link: LinkLayer) -> Seq<u8> {
        let (offset, protocol) = link_header(p, link)->0;
        let rest = p.skip(offset);
        if protocol == TYPE_ARP {
            rest.subrange(8, 14) + self.mac@ + p.subrange(12, offset) + self.arp_answer(rest)
        } else if link == LinkLayer::Ethernet {
            p.subrange(6, 12) + self.mac@ + p.subrange(12, offset) + self.ip_answer(rest)
        } else {
            self.ip_answer(rest)
        }
    }
}

/// The reply to an ICMP echo request.
pub open spec fn echo_reply(body: Seq<u8>) -> Seq<u8> {
    summed(seq![0u8, body[1], 0u8, 0u8] + body.skip(4), 2)
}

/// A UDP datagram with source and destination port exchanged.
pub open spec fn swapped_ports(body: Seq<u8>) -> Seq<u8> {
    body.subrange(2, 4) + body.take(2) + body.skip(4)
}

/// A packet with the padding that its link asks for and its frame has room for.
pub open spec fn padded(p: Seq<u8>, link: LinkLayer, room: int) -> Seq<u8> {
    let wanted = if link == LinkLayer::Ethernet && p.len() < SHORTEST {
        if SHORTEST <= room {
            SHORTEST as int
        } else {
            room
        }
    } else {
        p.len() as int
    };
    p + zeros((wanted - p.len()) as nat)
}

/// Changing the first `len` bytes of a packet and then cutting or padding it changes
/// the frame only where the new packet lies.
proof fn lemma_finished(before: PacketBuf, mid: PacketBuf, after: PacketBuf, len: int)
    requires
        before.inv(),
        mid.inv(),
        after.inv(),
        mid.same_frame(before),
        after.same_frame(mid),
        mid.offset() == before.offset(),
        mid.size() == before.size(),
        after.offset() == before.offset(),
        mid.frame() == overwrite(before.frame(), before.offset() as int, mid@),
        after.frame() == overwrite(mid.frame(), before.offset() as int, after@),
        0 <= len <= before.size(),
        len <= after@.len(),
        mid@.skip(len) == before@.skip(len),
    ensures
        after.same_frame(before),
        after.frame() == overwrite(before.frame(), before.offset() as int, after@),
{
    after.lemma_frame_kept_twice(mid, before);
    let at = before.offset() as int;
    let want = overwrite(before.frame(), at, after@);
    lemma_overwrite(before.frame(), at, mid@);
    lemma_overwrite(mid.frame(), at, after@);
    lemma_overwrite(before.frame(), at, after@);
    assert forall|i: int| 0 <= i < before.frame().len() implies after.frame()[i] == want[i] by {
        if at + after@.len() <= i < at + before.size() {
            let k = i - at - len;
            assert(mid@.skip(len)[k] == before@.skip(len)[k]);
            assert(mid@.skip(len)[k] == mid@[k + len]);
            assert(before@.skip(len)[k] == before@[k + len]);
            assert(mid@[i - at] == before@[i - at]);
            assert(before@[i - at] == before.frame()[i]);
        }
        assert(mid.frame()[i] == if at <= i < at + before.size() {
            mid@[i - at]
        } else {
            before.frame()[i]
        });
    }
    assert(after.frame() =~= want);
}

/// Finds where the payload of a packet starts and what protocol it has.
fn find_payload(p: &[u8], link: LinkLayer) -> (found: Option<(usize, u16)>)
    ensures
        match found {
            None => link_header(p@, link) is None,
            Some((offset, protocol)) => link_header(p@, link) == Some(
                (offset as int, protocol as int),
            ) && offset <= p@.len() && (link == LinkLayer::Ethernet ==> offset >= ETHERNET),
        },
{
    match link {
        LinkLayer::Ip => Some((0, TYPE_IPV4)),
        LinkLayer::Ethernet => {
            if p.len() < ETHERNET {
                return None;
            }
            let mut offset: usize = ETHERNET;
            let mut protocol: u16 = read16(p, 12);
            let mut tags: usize = 2;
            while tags > 0 && (protocol == TYPE_VLAN || protocol == TYPE_PROVIDER_VLAN)
                invariant
                    tags <= 2,
                    ETHERNET <= offset <= p@.len(),
                    past_tags(p@, offset as int, protocol as int, tags as nat) == link_header(
                        p@,
                        link,
                    ),
                decreases tags,
            {
                if p.len() - offset < 4 {
                    return None;
                }
                protocol = read16(p, offset + 2);
                offset += 4;
                tags -= 1;
            }
            Some((offset, protocol))
        },
    }
}

/// Writes the reply to the ICMP echo request between `at` and `end` over it.
fn answer_ping(p: &mut [u8], at: usize, end: usize)
    requires
        at + 8 <= end <= old(p)@.len(),
    ensures
        final(p)@ == overwrite(
            old(p)@,
            at as int,
            echo_reply(old(p)@.subrange(at as int, end as int)),
        ),
        final(p)@.len() == old(p)@.len(),
{
    let ghost before = p@;
    let ghost body = p@.subrange(at as int, end as int);
    let ghost bare = seq![0u8, body[1], 0u8, 0u8] + body.skip(4);
    assert(end <= p.len());
    p[at] = 0;
    put16(p, at + 2, 0);
    assert(p@.subrange(at as int, end as int) =~= bare);
    let sum: u16 = checksum(&p[at..end]);
    put16(p, at + 2, sum);
    assert(p@ =~= overwrite(before, at as int, summed(bare, 2)));
}

/// Exchanges source and destination port of the UDP datagram between `at` and `end`.
fn swap_ports(p: &mut [u8], at: usize, end: usize)
    requires
        at + 8 <= end <= old(p)@.len(),
    ensures
        final(p)@ == overwrite(
            old(p)@,
            at as int,
            swapped_ports(old(p)@.subrange(at as int, end as int)),
        ),
        final(p)@.len() == old(p)@.len(),
{
    let ghost before = p@;
    assert(end <= p.len());
    let run: [u8; 4] = [p[at + 2], p[at + 3], p[at], p[at + 1]];
    put_run(p, at, &run);
    assert(p@ =~= overwrite(
        before,
        at as int,
        swapped_ports(before.subrange(at as int, end as int)),
    ));
}

impl Responder {
    /// What becomes of an ARP message.
    fn judge_arp(&self, a: &[u8]) -> (reply: Reply)
        ensures
            reply == self.arp_verdict(a@),
    {
        if a.len() < ARP {
            return Reply::Malformed;
        }
        if read16(a, 0) != 1 || read16(a, 2) != TYPE_IPV4 || a[4] != 6 || a[5] != 4 || read16(a, 6)
            != 1 || !crate::bytes::has_run(a, 24, &self.ipv4) {
            return Reply::Ignored;
        }
        Reply::Arp
    }

    /// What becomes of the body of an ICMP packet.
    fn judge_ping(&self, body: &[u8]) -> (reply: Reply)
        ensures
            reply == self.ping_verdict(body@),
    {
        if body.len() < 8 || checksum(body) != 0 {
            return Reply::Malformed;
        }
        if body[0] != 8 || body[1] != 0 {
            return Reply::Ignored;
        }
        Reply::Icmp
    }

    /// What becomes of a UDP datagram.
    fn judge_udp(&self, source: [u8; 4], body: &[u8]) -> (reply: Reply)
        ensures
            reply == self.udp_verdict(source@, body@),
    {
        if body.len() < 8 || read16(body, 4) as usize != body.len() {
            return Reply::Malformed;
        }
        match self.udp_port {
            None => Reply::Ignored,
            Some(port) => {
                if read16(body, 2) != port {
                    Reply::Ignored
                } else if read16(body, 6) != 0 && ipv4_checksum(source, self.ipv4, body) != 0 {
                    Reply::Malformed
                } else {
                    Reply::Udp
                }
            },
        }
    }

    /// What becomes of an IPv4 packet.
    fn judge_ip(&self, ip: &[u8]) -> (reply: Reply)
        ensures
            reply == self.ip_verdict(ip@),
    {
        if ip.len() < HEADER || ip[0] / 16 != 4 {
            return Reply::Malformed;
        }
        let ihl: usize = (ip[0] % 16) as usize * 4;
        let total: usize = read16(ip, 2) as usize;
        if ihl < HEADER || total < ihl || total > ip.len() {
            return Reply::Malformed;
        }
        assert(ip@.subrange(0, ihl as int) =~= ip@.take(ihl as int));
        if checksum(&ip[0..ihl]) != 0 {
            return Reply::Malformed;
        }
        let flags: u16 = read16(ip, 6);
        if flags != 0 && flags != 0x4000 {
            return Reply::Ignored;
        }
        if !crate::bytes::has_run(ip, 16, &self.ipv4) || ip[8] == 0 {
            return Reply::Ignored;
        }
        // Options can ask for routing, which this stack does not do.
        if ihl != HEADER {
            return Reply::Ignored;
        }
        let source: [u8; 4] = [ip[12], ip[13], ip[14], ip[15]];
        assert(source@ =~= ip@.subrange(12, 16));
        let body: &[u8] = &ip[ihl..total];
        if ip[9] == 1 {
            self.judge_ping(body)
        } else if ip[9] == 17 {
            self.judge_udp(source, body)
        } else {
            Reply::Ignored
        }
    }

    /// Writes the header of the answer over the IPv4 header at `at`.
    fn turn_header(&self, p: &mut [u8], at: usize)
        requires
            at + HEADER <= old(p)@.len(),
        ensures
            final(p)@ == overwrite(
                old(p)@,
                at as int,
                self.answer_header(old(p)@.skip(at as int)),
            ),
            final(p)@.len() == old(p)@.len(),
    {
        let ghost before = p@;
        let ghost bare = self.bare_header(p@.skip(at as int));
        assert(at + HEADER <= p.len());
        let header: [u8; 20] = [
            p[at], p[at + 1], p[at + 2], p[at + 3], p[at + 4], p[at + 5], p[at + 6], p[at + 7],
            64, p[at + 9], 0, 0,
            self.ipv4[0], self.ipv4[1], self.ipv4[2], self.ipv4[3],
            p[at + 12], p[at + 13], p[at + 14], p[at + 15],
        ];
        assert(header@ =~= bare);
        let sum: u16 = checksum(&header);
        put_run(p, at, &header);
        put16(p, at + 10, sum);
        proof {
            lemma_overwrite_inside(before, at as int, bare, 10, be16_bytes(sum));
        }
    }

    /// Sends an Ethernet frame back to where it came from.
    fn turn_link(&self, p: &mut [u8])
        requires
            ETHERNET <= old(p)@.len(),
        ensures
            final(p)@ == overwrite(old(p)@, 0, old(p)@.subrange(6, 12) + self.mac@),
            final(p)@.len() == old(p)@.len(),
    {
        let ghost before = p@;
        let source: [u8; 6] = [p[6], p[7], p[8], p[9], p[10], p[11]];
        put_run(p, 0, &source);
        put_run(p, 6, &self.mac);
        assert(p@ =~= overwrite(before, 0, before.subrange(6, 12) + self.mac@));
    }

    /// Cuts the packet to `len` bytes and pads it as its link asks.
    fn finish_frame(&self, frame: &mut PacketBuf, len: usize, link: LinkLayer)
        requires
            old(frame).inv(),
            len <= old(frame).size(),
        ensures
            final(frame).inv(),
            final(frame)@ == padded(old(frame)@.take(len as int), link, old(frame).room()),
            final(frame).offset() == old(frame).offset(),
            final(frame).same_frame(*old(frame)),
            final(frame).frame() == overwrite(
                old(frame).frame(),
                old(frame).offset() as int,
                final(frame)@,
            ),
    {
        let ghost before = *frame;
        let room: usize = frame.tail_capacity();
        let wanted: usize = if link == LinkLayer::Ethernet && len < SHORTEST {
            if SHORTEST <= room {
                SHORTEST
            } else {
                room
            }
        } else {
            len
        };
        frame.set_len(wanted);
        let ghost mid = *frame;
        crate::bytes::clear_run(frame.as_mut_packet(), len, wanted);
        proof {
            frame.lemma_frame_kept_twice(mid, before);
            assert(mid@.take(len as int) =~= before@.take(len as int));
            assert(frame@ =~= padded(before@.take(len as int), link, room as int));
            assert(frame.frame() =~= overwrite(
                before.frame(),
                before.offset() as int,
                frame@,
            ));
        }
    }

    /// Writes the answer over an Ethernet frame with an ARP request at `at`.
    fn turn_arp(&self, p: &mut [u8], at: usize)
        requires
            link_header(old(p)@, LinkLayer::Ethernet) == Some((at as int, TYPE_ARP as int)),
            ETHERNET <= at,
            at + ARP <= old(p)@.len(),
        ensures
            final(p)@.len() == old(p)@.len(),
            final(p)@.take(at + ARP) == self.answer(old(p)@, LinkLayer::Ethernet),
            final(p)@.skip(at + ARP) == old(p)@.skip(at + ARP),
    {
        let ghost p0 = p@;
        let ghost a = p0.skip(at as int);
        assert(at + ARP <= p.len());
        let answer: [u8; 28] = [
            p[at], p[at + 1], p[at + 2], p[at + 3], p[at + 4], p[at + 5],
            0, 2,
            self.mac[0], self.mac[1], self.mac[2], self.mac[3], self.mac[4], self.mac[5],
            self.ipv4[0], self.ipv4[1], self.ipv4[2], self.ipv4[3],
            p[at + 8], p[at + 9], p[at + 10], p[at + 11], p[at + 12], p[at + 13],
            p[at + 14], p[at + 15], p[at + 16], p[at + 17],
        ];
        let front: [u8; 12] = [
            p[at + 8], p[at + 9], p[at + 10], p[at + 11], p[at + 12], p[at + 13],
            self.mac[0], self.mac[1], self.mac[2], self.mac[3], self.mac[4], self.mac[5],
        ];
        proof {
            assert(answer@ =~= self.arp_answer(a));
            assert(front@ =~= a.subrange(8, 14) + self.mac@);
            lemma_overwrite_front(p0, at as int, answer@, front@);
        }
        put_run(p, at, &answer);
        put_run(p, 0, &front);
    }

    /// Writes the answer over a packet with an IPv4 packet of `total` bytes at `at`.
    fn turn_ip(&self, p: &mut [u8], at: usize, total: usize, link: LinkLayer)
        requires
            link_header(old(p)@, link) == Some((at as int, TYPE_IPV4 as int)),
            link == LinkLayer::Ethernet ==> ETHERNET <= at,
            link == LinkLayer::Ip ==> at == 0,
            HEADER + 8 <= total == total_len(old(p)@.skip(at as int)),
            at + total <= old(p)@.len(),
        ensures
            final(p)@.len() == old(p)@.len(),
            final(p)@.take(at + total) == self.answer(old(p)@, link),
            final(p)@.skip(at + total) == old(p)@.skip(at + total),
    {
        let ghost p0 = p@;
        let ghost ip = p0.skip(at as int);
        let ghost body = ip.subrange(HEADER as int, total as int);
        let ghost end = at + total;
        assert(at + total <= p.len());
        assert(p0.subrange(at + HEADER, end) =~= body);
        if p[at + 9] == 1 {
            answer_ping(p, at + HEADER, at + total);
        } else {
            swap_ports(p, at + HEADER, at + total);
        }
        let ghost p1 = p@;
        let ghost answered = if ip[9] == 1 {
            echo_reply(body)
        } else {
            swapped_ports(body)
        };
        let ghost header = self.answer_header(ip);
        proof {
            assert(answered.len() == body.len());
            lemma_overwrite(p0, at + HEADER, answered);
            let ip1 = p1.skip(at as int);
            assert(ip1.take(8) =~= ip.take(8));
            assert(ip1.subrange(12, 16) =~= ip.subrange(12, 16));
            assert(ip1[9] == ip[9]);
            assert(self.answer_header(ip1) == header);
            assert(header.len() == HEADER);
            lemma_overwrite_join(p0, at as int, header, answered);
        }
        self.turn_header(p, at);
        let ghost p2 = p@;
        assert(p2 == overwrite(p0, at as int, self.ip_answer(ip)));
        if link == LinkLayer::Ethernet {
            self.turn_link(p);
            proof {
                lemma_overwrite(p0, at as int, self.ip_answer(ip));
                assert(p2.subrange(6, 12) =~= p0.subrange(6, 12));
                lemma_overwrite_front(
                    p0,
                    at as int,
                    self.ip_answer(ip),
                    p0.subrange(6, 12) + self.mac@,
                );
            }
        } else {
            proof {
                lemma_overwrite_front(p0, 0, self.ip_answer(ip), Seq::empty());
                assert(p2 =~= overwrite(p2, 0, Seq::empty()));
                assert(Seq::<u8>::empty() + p0.subrange(0, 0) + self.ip_answer(ip)
                    =~= self.ip_answer(ip));
            }
        }
    }

    /// Answers an ARP request in place.
    fn arp(&self, frame: &mut PacketBuf, offset: usize) -> (reply: Reply)
        requires
            old(frame).inv(),
            link_header(old(frame)@, LinkLayer::Ethernet) == Some((offset as int, TYPE_ARP as int)),
            ETHERNET <= offset <= old(frame)@.len(),
        ensures
            reply == self.arp_verdict(old(frame)@.skip(offset as int)),
            self.outcome(*old(frame), LinkLayer::Ethernet, reply, *final(frame)),
    {
        let ghost before = *frame;
        let ghost p0 = frame@;
        let ghost rest = p0.skip(offset as int);
        let len: usize = frame.len();
        assert(p0.subrange(offset as int, len as int) =~= rest);
        let reply = self.judge_arp(&frame.as_slice()[offset..len]);
        if !reply.is_reply() {
            return reply;
        }
        self.turn_arp(frame.as_mut_packet(), offset);
        let ghost mid = *frame;
        self.finish_frame(frame, offset + ARP, LinkLayer::Ethernet);
        proof {
            lemma_finished(before, mid, *frame, offset + ARP);
        }
        reply
    }

    /// How the frame `after` has to follow from `before`: an answer stands in its
    /// place, and a frame that is not answered is as it was.
    pub open spec fn outcome(
        self,
        before: PacketBuf,
        link: LinkLayer,
        reply: Reply,
        after: PacketBuf,
    ) -> bool {
        if reply.answers() {
            &&& after.inv()
            &&& after@ == padded(self.answer(before@, link), link, before.room())
            &&& after.offset() == before.offset()
            &&& after.same_frame(before)
            &&& after.frame() == overwrite(before.frame(), before.offset() as int, after@)
        } else {
            after == before
        }
    }

    /// A packet that is answered is long enough.
    proof fn lemma_answered(self, ip: Seq<u8>)
        requires
            self.ip_verdict(ip).answers(),
        ensures
            HEADER + 8 <= total_len(ip) <= ip.len(),
    {
    }

    /// Answers a packet in place where it asks something of this stack.
    pub fn respond(&self, frame: &mut PacketBuf, link: LinkLayer) -> (reply: Reply)
        requires
            old(frame).inv(),
        ensures
            reply == self.verdict(old(frame)@, link),
            self.outcome(*old(frame), link, reply, *final(frame)),
    {
        let ghost before = *frame;
        let ghost p0 = frame@;
        let len: usize = frame.len();
        let (offset, protocol): (usize, u16) = match find_payload(frame.as_slice(), link) {
            None => {
                return Reply::Malformed;
            },
            Some(found) => found,
        };
        if protocol == TYPE_ARP {
            return self.arp(frame, offset);
        }
        if protocol != TYPE_IPV4 {
            return Reply::Ignored;
        }
        let ghost ip = p0.skip(offset as int);
        assert(p0.subrange(offset as int, len as int) =~= ip);
        let reply = self.judge_ip(&frame.as_slice()[offset..len]);
        if !reply.is_reply() {
            return reply;
        }
        let total: usize = read16(frame.as_slice(), offset + 2) as usize;
        proof {
            assert(be16(p0, offset + 2) == be16(ip, 2));
            self.lemma_answered(ip);
        }
        self.turn_ip(frame.as_mut_packet(), offset, total, link);
        let ghost mid = *frame;
        self.finish_frame(frame, offset + total, link);
        proof {
            lemma_finished(before, mid, *frame, offset + total);
        }
        reply
    }
}

/// The answer to an IPv4 packet is an intact packet of the same length that goes
/// back to where the packet came from.
pub proof fn law_answers_go_back(me: Responder, ip: Seq<u8>)
    requires
        me.ip_verdict(ip).answers(),
    ensures
        ({
            let answer = me.ip_answer(ip);
            &&& intact(answer)
            &&& unfragmented(answer)
            &&& answer.len() == total_len(ip)
            &&& total_len(answer) == total_len(ip)
            &&& header_len(answer) == HEADER
            &&& answer.subrange(12, 16) == me.ipv4@
            &&& answer.subrange(16, 20) == ip.subrange(12, 16)
            &&& answer[8] == 64
            &&& answer[9] == ip[9]
        }),
{
    let answer = me.ip_answer(ip);
    let bare = me.bare_header(ip);
    let header = me.answer_header(ip);
    lemma_checksum_completes(bare, 10);
    lemma_overwrite(bare, 10, be16_bytes(checksum_of(bare) as u16));
    lemma_body_kept(ip.subrange(HEADER as int, total_len(ip)));
    assert(header.len() == HEADER);
    assert(answer.take(HEADER as int) =~= header);
    assert forall|i: int| 0 <= i < 8 implies answer[i] == ip[i] by {}
    assert(answer.subrange(12, 16) =~= me.ipv4@);
    assert(answer.subrange(16, 20) =~= ip.subrange(12, 16));
}

/// An answer's body is as long as the body that is answered.
proof fn lemma_body_kept(body: Seq<u8>)
    requires
        body.len() >= 8,
    ensures
        echo_reply(body).len() == body.len(),
        swapped_ports(body).len() == body.len(),
{
    let bare = seq![0u8, body[1], 0u8, 0u8] + body.skip(4);
    lemma_overwrite(bare, 2, be16_bytes(checksum_of(bare) as u16));
}

/// The reply to an echo request is an echo reply whose checksum holds and that
/// carries what the request carried.
pub proof fn law_echo_replies_hold(body: Seq<u8>)
    requires
        body.len() >= 8,
    ensures
        echo_reply(body).len() == body.len(),
        echo_reply(body)[0] == 0,
        echo_reply(body)[1] == body[1],
        checksum_of(echo_reply(body)) == 0,
        echo_reply(body).skip(4) == body.skip(4),
{
    let bare = seq![0u8, body[1], 0u8, 0u8] + body.skip(4);
    lemma_overwrite(bare, 2, be16_bytes(checksum_of(bare) as u16));
    lemma_checksum_completes(bare, 2);
    assert(echo_reply(body).skip(4) =~= body.skip(4));
}

/// No responder answers the answer to a ping, so two of them do not keep each other
/// busy.
pub proof fn law_ping_replies_rest(me: Responder, other: Responder, ip: Seq<u8>)
    requires
        me.ip_verdict(ip) is Icmp,
    ensures
        other.ip_verdict(me.ip_answer(ip)) is Ignored,
{
    let answer = me.ip_answer(ip);
    let body = ip.subrange(20, total_len(ip));
    law_answers_go_back(me, ip);
    law_echo_replies_hold(body);
    assert(answer.subrange(20, total_len(ip)) =~= echo_reply(body)) by {
        assert(me.answer_header(ip).len() == 20) by {
            lemma_header_len(me, ip);
        }
    }
}

/// The header of an answer has no options.
pub proof fn lemma_header_len(me: Responder, ip: Seq<u8>)
    requires
        ip.len() >= HEADER,
    ensures
        me.answer_header(ip).len() == HEADER,
{
    let bare = me.bare_header(ip);
    lemma_overwrite(bare, 10, be16_bytes(checksum_of(bare) as u16));
}

/// The answer to an ARP request is an ARP reply that names this stack as the sender
/// and the asker as the target, and that no responder answers.
pub proof fn law_arp_answers(me: Responder, other: Responder, a: Seq<u8>)
    requires
        me.arp_verdict(a) is Arp,
    ensures
        ({
            let answer = me.arp_answer(a);
            &&& answer.len() == ARP
            &&& be16(answer, 6) == 2
            &&& answer.subrange(8, 14) == me.mac@
            &&& answer.subrange(14, 18) == me.ipv4@
            &&& answer.subrange(18, 28) == a.subrange(8, 18)
            &&& other.arp_verdict(answer) is Ignored
        }),
{
    let answer = me.arp_answer(a);
    assert(answer.subrange(8, 14) =~= me.mac@);
    assert(answer.subrange(14, 18) =~= me.ipv4@);
    assert(answer.subrange(18, 28) =~= a.subrange(8, 18));
}

/// A valid datagram to this stack's echo port is echoed.
pub proof fn law_datagrams_are_echoed(me: Responder, p: Seq<u8>)
    requires
        valid(p),
        destination_of(p).ip@ == me.ipv4@,
        me.udp_port == Some(destination_of(p).port),
    ensures
        me.ip_verdict(p) is Udp,
{
    assert(p.subrange(16, 20) =~= destination_of(p).ip@);
    assert(header_len(p) == HEADER);
}

/// The echo of a datagram is a valid datagram that goes back to where it came from
/// and carries the same payload. Exchanging the endpoints keeps the sum that the
/// checksum covers.
pub proof fn law_echoes_are_valid(me: Responder, ip: Seq<u8>)
    requires
        me.ip_verdict(ip) is Udp,
    ensures
        ({
            let echo = me.ip_answer(ip);
            &&& valid(echo)
            &&& source_of(echo) == destination_of(ip)
            &&& destination_of(echo) == source_of(ip)
            &&& payload_of(echo) == payload_of(ip)
        }),
{
    let echo = me.ip_answer(ip);
    let total = total_len(ip);
    let body = ip.subrange(HEADER as int, total);
    law_answers_go_back(me, ip);
    lemma_header_len(me, ip);
    let turned = swapped_ports(body);
    assert(echo.subrange(HEADER as int, total) =~= turned);
    assert(ip[0] == 0x45) by {
        assert(header_len(ip) == HEADER && ip[0] / 16 == 4);
    }
    assert(echo[0] == ip[0]) by {
        let bare = me.bare_header(ip);
        lemma_overwrite(bare, 10, be16_bytes(checksum_of(bare) as u16));
    }
    assert(echo.take(20) =~= echo.take(header_len(echo)));
    assert forall|i: int| 24 <= i < total implies echo[i] == ip[i] by {
        assert(echo[i] == turned[i - 20]);
    }
    assert(echo[20] == turned[0] && echo[21] == turned[1] && echo[22] == turned[2] && echo[23]
        == turned[3]);
    assert(payload_of(echo) =~= payload_of(ip));
    let (ports, rest) = (body.take(4), body.skip(4));
    let back = body.subrange(2, 4) + body.take(2);
    assert(body =~= ports + rest);
    assert(turned =~= back + rest);
    super::sum::lemma_word_sum_concat(ports, rest);
    super::sum::lemma_word_sum_concat(back, rest);
    super::sum::lemma_word_sum_two_words(ports);
    super::sum::lemma_word_sum_two_words(back);
    assert(be16(back, 0) == be16(ports, 2));
    assert(be16(back, 2) == be16(ports, 0));
    assert(udp_sum(me.ipv4@, ip.subrange(12, 16), turned) == udp_sum(
        ip.subrange(12, 16),
        me.ipv4@,
        body,
    ));
    assert(be16(echo, 26) == be16(body, 6));
    assert(be16(echo, 24) == be16(body, 4));
    let source = source_of(echo);
    assert(echo.subrange(12, 16)[0] == echo[12] && echo.subrange(12, 16)[1] == echo[13]
        && echo.subrange(12, 16)[2] == echo[14] && echo.subrange(12, 16)[3] == echo[15]);
    assert(ip.subrange(16, 20)[0] == ip[16] && ip.subrange(16, 20)[1] == ip[17]
        && ip.subrange(16, 20)[2] == ip[18] && ip.subrange(16, 20)[3] == ip[19]);
    assert(echo.subrange(16, 20)[0] == echo[16] && echo.subrange(16, 20)[1] == echo[17]
        && echo.subrange(16, 20)[2] == echo[18] && echo.subrange(16, 20)[3] == echo[19]);
    assert(ip.subrange(12, 16)[0] == ip[12] && ip.subrange(12, 16)[1] == ip[13]
        && ip.subrange(12, 16)[2] == ip[14] && ip.subrange(12, 16)[3] == ip[15]);
}

} // verus!
