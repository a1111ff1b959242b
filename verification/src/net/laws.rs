//! What holds of answers to packets, byte by byte.
use vstd::prelude::*;

use super::responder::{
    header_len, law_answers_go_back, law_echo_replies_hold, link_header, padded, past_tags,
    total_len, LinkLayer, Reply, Responder,
};
use super::sum::{lemma_valid, word_sum};
use crate::transport::udp::udp_sum;

verus! {

/// Whether two bytes announce a VLAN tag: `0x8100` or `0x88a8`.
pub open spec fn announces_tag(a: u8, b: u8) -> bool {
    a == 0x81 && b == 0x00 || a == 0x88 && b == 0xa8
}

/// A frame with a VLAN tag put in after its addresses.
pub open spec fn with_tag(p: Seq<u8>, tag: Seq<u8>) -> Seq<u8> {
    p.take(12) + tag + p.skip(12)
}

/// A VLAN tag makes no difference to what becomes of a frame that has less than two, and
/// the answer carries the same tag in the same place.
pub proof fn law_tags_are_passed_over(me: Responder, p: Seq<u8>, tag: Seq<u8>)
    requires
        p.len() >= 14,
        tag.len() == 4,
        announces_tag(tag[0], tag[1]),
        !(announces_tag(p[12], p[13]) && p.len() >= 18 && announces_tag(p[16], p[17])),
    ensures
        me.verdict(with_tag(p, tag), LinkLayer::Ethernet) == me.verdict(p, LinkLayer::Ethernet),
        me.verdict(p, LinkLayer::Ethernet).answers() ==> me.answer(
            with_tag(p, tag),
            LinkLayer::Ethernet,
        ) == with_tag(me.answer(p, LinkLayer::Ethernet), tag),
{
    reveal_with_fuel(past_tags, 4);
    let q = with_tag(p, tag);
    assert(q[12] == tag[0] && q[13] == tag[1]);
    assert(q[16] == p[12] && q[17] == p[13]);
    if p.len() >= 18 {
        assert(q[20] == p[16] && q[21] == p[17]);
    }
    match link_header(p, LinkLayer::Ethernet) {
        None => {},
        Some((offset, protocol)) => {
            assert(link_header(q, LinkLayer::Ethernet) == Some((offset + 4, protocol)));
            assert(q.skip(offset + 4) =~= p.skip(offset));
            assert(q.subrange(12, offset + 4) =~= tag + p.subrange(12, offset));
            assert(q.subrange(6, 12) =~= p.subrange(6, 12));
            if me.verdict(p, LinkLayer::Ethernet).answers() {
                let answer = me.answer(p, LinkLayer::Ethernet);
                let rest = p.skip(offset);
                if me.verdict(p, LinkLayer::Ethernet) is Arp {
                    assert(answer.take(12) =~= rest.subrange(8, 14) + me.mac@);
                } else {
                    assert(answer.take(12) =~= p.subrange(6, 12) + me.mac@);
                }
                assert(me.answer(q, LinkLayer::Ethernet) =~= with_tag(answer, tag));
            }
        },
    }
}

/// A frame with three VLAN tags is left alone.
pub proof fn law_three_tags_are_ignored(me: Responder, p: Seq<u8>)
    requires
        p.len() >= 22,
        announces_tag(p[12], p[13]),
        announces_tag(p[16], p[17]),
        announces_tag(p[20], p[21]),
    ensures
        me.verdict(p, LinkLayer::Ethernet) is Ignored,
{
    reveal_with_fuel(past_tags, 4);
}

/// A frame that ends before its header does is malformed, and one of a protocol that is
/// neither IPv4 nor ARP is left alone.
pub proof fn law_other_frames_are_not_answered(me: Responder, p: Seq<u8>)
    ensures
        p.len() < 14 ==> me.verdict(p, LinkLayer::Ethernet) is Malformed,
        p.len() >= 14 && !announces_tag(p[12], p[13]) && !(p[12] == 8 && (p[13] == 0 || p[13] == 6))
            ==> me.verdict(p, LinkLayer::Ethernet) is Ignored,
        14 <= p.len() < 18 && announces_tag(p[12], p[13]) ==> me.verdict(
            p,
            LinkLayer::Ethernet,
        ) is Malformed,
{
    reveal_with_fuel(past_tags, 4);
}

/// An ARP message is answered exactly if it asks, for IPv4 over Ethernet, who has this
/// stack's address. Who asks, and whom the frame is addressed to, makes no difference.
pub proof fn law_who_has_requests_are_answered(me: Responder, p: Seq<u8>)
    requires
        p.len() >= 14,
        p[12] == 8,
        p[13] == 6,
    ensures
        me.verdict(p, LinkLayer::Ethernet) == (if p.len() < 42 {
            Reply::Malformed
        } else if p.subrange(14, 22) == seq![0u8, 1, 8, 0, 6, 4, 0, 1] && p.subrange(38, 42)
            == me.ipv4@ {
            Reply::Arp
        } else {
            Reply::Ignored
        }),
{
    reveal_with_fuel(past_tags, 4);
    assert(link_header(p, LinkLayer::Ethernet) == Some((14int, 0x0806int)));
    let a = p.skip(14);
    if p.len() >= 42 {
        assert(a.subrange(24, 28) =~= p.subrange(38, 42));
        let lead = seq![0u8, 1, 8, 0, 6, 4, 0, 1];
        let s = p.subrange(14, 22);
        assert(forall|i: int| 0 <= i < 8 ==> s[i] == p[14 + i]);
        assert(forall|i: int| 0 <= i < 8 ==> a[i] == p[14 + i]);
        if me.asked_by(a) {
            assert(s[0] == 0 && s[1] == 1 && s[2] == 8 && s[3] == 0 && s[4] == 6 && s[5] == 4
                && s[6] == 0 && s[7] == 1);
            assert(s =~= lead);
        }
        if s == lead {
            assert(s[0] == 0 && s[1] == 1 && s[2] == 8 && s[3] == 0 && s[4] == 6 && s[5] == 4
                && s[6] == 0 && s[7] == 1);
        }
    }
}

/// The answer to who has this stack's address goes from this stack to who asked, in the
/// frame as in the message: it says that this stack has it.
pub proof fn law_arp_answers_say_who_has(me: Responder, p: Seq<u8>)
    requires
        me.verdict(p, LinkLayer::Ethernet) is Arp,
        p.len() >= 14,
        p[12] == 8,
        p[13] == 6,
    ensures
        ({
            let asker = p.subrange(22, 28);
            let asker_ip = p.subrange(28, 32);
            me.answer(p, LinkLayer::Ethernet) == asker + me.mac@ + seq![8u8, 6] + seq![
                0u8,
                1,
                8,
                0,
                6,
                4,
                0,
                2,
            ] + me.mac@ + me.ipv4@ + asker + asker_ip
        }),
{
    reveal_with_fuel(past_tags, 4);
    law_who_has_requests_are_answered(me, p);
    assert(link_header(p, LinkLayer::Ethernet) == Some((14int, 0x0806int)));
    let a = p.skip(14);
    let s = p.subrange(14, 22);
    assert(s[0] == 0 && s[1] == 1 && s[2] == 8 && s[3] == 0 && s[4] == 6 && s[5] == 4);
    assert(forall|i: int| 0 <= i < 8 ==> s[i] == p[14 + i]);
    assert(a.subrange(8, 14) =~= p.subrange(22, 28));
    assert(a.subrange(14, 18) =~= p.subrange(28, 32));
    assert(me.answer(p, LinkLayer::Ethernet) =~= p.subrange(22, 28) + me.mac@ + seq![8u8, 6] + seq![
        0u8,
        1,
        8,
        0,
        6,
        4,
        0,
        2,
    ] + me.mac@ + me.ipv4@ + p.subrange(22, 28) + p.subrange(28, 32));
}

/// The frame of every answer goes from this stack to who asked: for ARP the sender that
/// the message names, otherwise the sender of the frame. Tags and protocol stay, so
/// that the answer has as long a header.
pub proof fn law_answer_frames_go_to_the_asker(me: Responder, p: Seq<u8>)
    requires
        me.verdict(p, LinkLayer::Ethernet).answers(),
    ensures
        ({
            let answer = me.answer(p, LinkLayer::Ethernet);
            let start = answer.len() - 28;
            &&& answer.subrange(6, 12) == me.mac@
            &&& me.verdict(p, LinkLayer::Ethernet) is Arp ==> answer.take(6) == p.subrange(
                start + 8,
                start + 14,
            )
            &&& !(me.verdict(p, LinkLayer::Ethernet) is Arp) ==> answer.take(6) == p.subrange(6, 12)
            &&& answer.subrange(12, 14) == p.subrange(12, 14)
        }),
{
    reveal_with_fuel(past_tags, 4);
    let answer = me.answer(p, LinkLayer::Ethernet);
    let (offset, protocol) = link_header(p, LinkLayer::Ethernet)->0;
    let rest = p.skip(offset);
    assert(14 <= offset <= p.len());
    assert(p.subrange(12, offset).take(2) =~= p.subrange(12, 14));
    if me.verdict(p, LinkLayer::Ethernet) is Arp {
        assert(protocol == 0x0806);
        assert(answer.len() == offset + 28);
        assert(rest.subrange(8, 14) =~= p.subrange(offset + 8, offset + 14));
        assert(answer.take(6) =~= rest.subrange(8, 14));
    } else {
        assert(protocol == 0x0800);
        assert(answer.take(6) =~= p.subrange(6, 12));
    }
    assert(answer.subrange(6, 12) =~= me.mac@);
    assert(answer.subrange(12, 14) =~= p.subrange(12, 14));
}

/// An IPv4 packet in a frame is treated as one without: the same becomes of it, and the
/// answer is the same behind a header turned round.
pub proof fn law_frames_carry_packets(me: Responder, p: Seq<u8>)
    requires
        p.len() >= 14,
        p[12] == 8,
        p[13] == 0,
    ensures
        me.verdict(p, LinkLayer::Ethernet) == me.verdict(p.skip(14), LinkLayer::Ip),
        me.answer(p, LinkLayer::Ethernet) == p.subrange(6, 12) + me.mac@ + seq![8u8, 0] + me.answer(
            p.skip(14),
            LinkLayer::Ip,
        ),
{
    reveal_with_fuel(past_tags, 4);
    assert(p.skip(14).skip(0) =~= p.skip(14));
    assert(p.subrange(12, 14) =~= seq![8u8, 0]);
    assert(link_header(p, LinkLayer::Ethernet) == Some((14int, 0x0800int)));
}

/// A packet without an intact IPv4 header, or cut short, is malformed. One with options
/// is left alone.
pub proof fn law_headers_must_be_intact(me: Responder, ip: Seq<u8>)
    ensures
        ({
            let length = 4 * (ip[0] % 16);
            let total = 256 * ip[2] + ip[3];
            let intact = ip.len() >= 20 && ip[0] / 16 == 4 && 20 <= length <= total <= ip.len()
                && word_sum(ip.take(length)) % 65535 == 0;
            &&& !intact ==> me.verdict(ip, LinkLayer::Ip) is Malformed
            &&& intact && length > 20 ==> me.verdict(ip, LinkLayer::Ip) is Ignored
        }),
{
    assert(ip.skip(0) =~= ip);
    let length = 4 * (ip[0] % 16);
    if ip.len() >= 20 && ip[0] / 16 == 4 && length >= 20 && length <= ip.len() {
        lemma_valid(word_sum(ip.take(length)));
        assert(ip.take(length)[0] == ip[0]);
        assert(word_sum(ip.take(length).skip(2)) >= 0);
        assert(word_sum(ip.take(length)) > 0);
    }
}

/// A packet with an intact header and no options is answered exactly if it is for this
/// stack alone, has hops left and is no fragment, and is an echo request or a datagram
/// to the echo port, with a checksum that holds; a datagram may have none. Of a packet
/// for this stack that is neither, what is damaged is malformed and all else is left
/// alone.
pub proof fn law_intact_packets_are_answered(me: Responder, ip: Seq<u8>)
    requires
        ip.len() >= 20,
        ip[0] == 0x45,
        20 <= 256 * ip[2] + ip[3] <= ip.len(),
        word_sum(ip.take(20)) % 65535 == 0,
    ensures
        ({
            let total = 256 * ip[2] + ip[3];
            let body = ip.subrange(20, total);
            let mine = (ip[6] == 0 || ip[6] == 64) && ip[7] == 0 && ip[8] > 0 && ip.subrange(16, 20)
                == me.ipv4@;
            let whole_ping = total >= 28 && word_sum(body) > 0 && word_sum(body) % 65535 == 0;
            let fits = total >= 28 && 256 * ip[24] + ip[25] == total - 20;
            let wanted = me.udp_port is Some && me.udp_port->0 == 256 * ip[22] + ip[23];
            let summed = ip[26] == 0 && ip[27] == 0 || (word_sum(ip.subrange(12, 16)) + word_sum(
                me.ipv4@,
            ) + 17 + total - 20 + word_sum(body)) % 65535 == 0;
            me.verdict(ip, LinkLayer::Ip) == (if !mine {
                Reply::Ignored
            } else if ip[9] == 1 {
                if !whole_ping {
                    Reply::Malformed
                } else if ip[20] == 8 && ip[21] == 0 {
                    Reply::Icmp
                } else {
                    Reply::Ignored
                }
            } else if ip[9] == 17 {
                if !fits {
                    Reply::Malformed
                } else if !wanted {
                    Reply::Ignored
                } else if summed {
                    Reply::Udp
                } else {
                    Reply::Malformed
                }
            } else {
                Reply::Ignored
            })
        }),
{
    assert(ip.skip(0) =~= ip);
    let total = 256 * ip[2] + ip[3];
    let body = ip.subrange(20, total);
    lemma_valid(word_sum(ip.take(20)));
    assert(ip.take(20)[0] == ip[0]);
    assert(word_sum(ip.take(20).skip(2)) >= 0);
    assert(word_sum(ip.take(20)) > 0);
    lemma_valid(word_sum(body));
    lemma_valid(udp_sum(ip.subrange(12, 16), me.ipv4@, body));
    if total >= 28 {
        assert(body[0] == ip[20] && body[1] == ip[21] && body[2] == ip[22] && body[3] == ip[23]
            && body[4] == ip[24] && body[5] == ip[25] && body[6] == ip[26] && body[7] == ip[27]);
    }
}

/// The answer to a packet is as long, and goes back from this stack to where the packet
/// came from, with all its hops ahead of it. What else the header says stays, and it
/// adds up again.
pub proof fn law_answers_are_turned_round(me: Responder, ip: Seq<u8>)
    requires
        me.verdict(ip, LinkLayer::Ip).answers(),
    ensures
        ({
            let answer = me.answer(ip, LinkLayer::Ip);
            &&& answer.len() == 256 * ip[2] + ip[3]
            &&& answer.take(8) == ip.take(8)
            &&& answer[8] == 64
            &&& answer[9] == ip[9]
            &&& answer.subrange(12, 16) == me.ipv4@
            &&& answer.subrange(16, 20) == ip.subrange(12, 16)
            &&& word_sum(answer.take(20)) % 65535 == 0
        }),
{
    assert(ip.skip(0) =~= ip);
    let answer = me.ip_answer(ip);
    law_answers_go_back(me, ip);
    let bare = me.bare_header(ip);
    crate::bytes::lemma_overwrite(
        bare,
        10,
        crate::bytes::be16_bytes(super::sum::checksum_of(bare) as u16),
    );
    assert(answer.take(8) =~= ip.take(8));
    lemma_valid(word_sum(answer.take(20)));
}

/// The answer to a ping says what the ping said, as an echo reply whose checksum holds.
pub proof fn law_ping_answers_say_the_same(me: Responder, ip: Seq<u8>)
    requires
        me.verdict(ip, LinkLayer::Ip) is Icmp,
    ensures
        ({
            let answer = me.answer(ip, LinkLayer::Ip);
            let total = 256 * ip[2] + ip[3];
            &&& answer[20] == 0
            &&& answer[21] == 0
            &&& answer.skip(24) == ip.subrange(24, total)
            &&& word_sum(answer.skip(20)) % 65535 == 0
        }),
{
    assert(ip.skip(0) =~= ip);
    let answer = me.ip_answer(ip);
    let total = 256 * ip[2] + ip[3];
    let body = ip.subrange(20, total);
    law_answers_are_turned_round(me, ip);
    law_answers_go_back(me, ip);
    law_echo_replies_hold(body);
    super::responder::lemma_header_len(me, ip);
    let reply = super::responder::echo_reply(body);
    assert(answer.skip(20) =~= reply);
    lemma_valid(word_sum(reply));
    assert(answer.skip(24) =~= reply.skip(4));
    assert(body.skip(4) =~= ip.subrange(24, total));
}

/// The answer to a datagram has its ports exchanged, and is otherwise the same.
pub proof fn law_datagram_answers_exchange_ports(me: Responder, ip: Seq<u8>)
    requires
        me.verdict(ip, LinkLayer::Ip) is Udp,
    ensures
        ({
            let answer = me.answer(ip, LinkLayer::Ip);
            let total = 256 * ip[2] + ip[3];
            &&& answer.subrange(20, 22) == ip.subrange(22, 24)
            &&& answer.subrange(22, 24) == ip.subrange(20, 22)
            &&& answer.skip(24) == ip.subrange(24, total)
        }),
{
    assert(ip.skip(0) =~= ip);
    let answer = me.ip_answer(ip);
    let total = 256 * ip[2] + ip[3];
    let body = ip.subrange(20, total);
    law_answers_are_turned_round(me, ip);
    super::responder::lemma_header_len(me, ip);
    let turned = super::responder::swapped_ports(body);
    assert(answer.skip(20) =~= turned);
    assert forall|i: int| 20 <= i < total implies answer[i] == turned[i - 20] by {
        assert(answer.skip(20)[i - 20] == answer[i]);
    }
    assert(answer.subrange(20, 22) =~= ip.subrange(22, 24));
    assert(answer.subrange(22, 24) =~= ip.subrange(20, 22));
    assert(answer.skip(24) =~= ip.subrange(24, total));
}

/// An answer in an Ethernet frame is filled up with zeros to 60 bytes, as far as the
/// frame has room; any other answer stays as it is.
pub proof fn law_short_frames_are_filled_up(p: Seq<u8>, link: LinkLayer, room: int)
    requires
        p.len() <= room,
    ensures
        ({
            let q = padded(p, link, room);
            &&& q.take(p.len() as int) == p
            &&& forall|i: int| p.len() <= i < q.len() ==> #[trigger] q[i] == 0
            &&& link is Ip || p.len() >= 60 ==> q == p
            &&& link is Ethernet && p.len() < 60 ==> q.len() == (if room < 60 {
                room
            } else {
                60
            })
        }),
{
    let q = padded(p, link, room);
    assert(q.take(p.len() as int) =~= p);
    if link is Ip || p.len() >= 60 {
        assert(q =~= p);
    }
}

} // verus!
