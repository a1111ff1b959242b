//! What holds of checksums and datagrams.
use vstd::prelude::*;

use super::udp::{datagram, destination_of, payload_of, source_of, udp_sum, valid};
use crate::addr::{Ipv4Addr, SocketAddrV4};
use crate::net::sum::{
    checksum_of, complement, lemma_checksum_completes, lemma_word_sum_concat,
    lemma_word_sum_two_words, lemma_word_sum_word, summed, word_sum,
};

verus! {

/// The words of a message add up: two bytes are a number with the more significant one
/// first, what follows an even number of bytes adds its own words, and an odd last byte
/// counts as if a zero followed it.
pub proof fn law_words_add_up(a: u8, b: u8, front: Seq<u8>, back: Seq<u8>)
    requires
        front.len() % 2 == 0,
    ensures
        word_sum(Seq::empty()) == 0,
        word_sum(seq![a, b]) == 256 * a + b,
        word_sum(front + back) == word_sum(front) + word_sum(back),
        word_sum(front.push(a)) == word_sum(front.push(a).push(0)),
{
    lemma_word_sum_word(seq![a, b]);
    lemma_word_sum_concat(front, back);
    lemma_word_sum_concat(front, seq![a]);
    lemma_word_sum_concat(front, seq![a, 0u8]);
    lemma_word_sum_word(seq![a, 0u8]);
    assert(front.push(a) =~= front + seq![a]);
    assert(front.push(a).push(0) =~= front + seq![a, 0u8]);
    assert(word_sum(seq![a]) == 256 * a);
}

/// A checksum is the number of 16 bits that completes the sum to a multiple of 65535.
/// Only the sum of nothing but zeros is completed by the largest number; every other one
/// by a smaller one.
pub proof fn law_checksums_complete_sums(sum: nat)
    ensures
        0 <= complement(sum) <= 65535,
        (sum + complement(sum)) % 65535 == 0,
        complement(sum) == 65535 <==> sum == 0,
{
    crate::net::sum::lemma_complement_completes(sum);
    crate::net::sum::lemma_valid((sum + complement(sum)) as nat);
}

/// The sum of a UDP datagram covers what its receiver sees of where it came from: both
/// addresses, the protocol's number, the length, and the datagram itself, one after the
/// other.
pub proof fn law_datagrams_are_summed_with_their_addresses(
    source: Seq<u8>,
    destination: Seq<u8>,
    length: Seq<u8>,
    body: Seq<u8>,
)
    requires
        source.len() == 4,
        destination.len() == 4,
        length.len() == 2,
        length[0] * 256 + length[1] == body.len(),
    ensures
        udp_sum(source, destination, body) == word_sum(
            source + destination + seq![0u8, 17u8] + length + body,
        ),
{
    let kind = seq![0u8, 17u8];
    lemma_word_sum_concat(source + destination + kind + length, body);
    lemma_word_sum_concat(source + destination + kind, length);
    lemma_word_sum_concat(source + destination, kind);
    lemma_word_sum_concat(source, destination);
    lemma_word_sum_word(kind);
    lemma_word_sum_word(length);
}

/// Changing one byte changes the sum by as much, in its half of the word.
proof fn lemma_sum_of_changed(s: Seq<u8>, i: int, b: u8)
    requires
        0 <= i < s.len(),
    ensures
        word_sum(s.update(i, b)) - word_sum(s) == (b - s[i]) * (if i % 2 == 0 {
            256int
        } else {
            1
        }),
    decreases s.len(),
{
    let t = s.update(i, b);
    if i >= 2 {
        lemma_sum_of_changed(s.skip(2), i - 2, b);
        assert(t.skip(2) =~= s.skip(2).update(i - 2, b));
        assert(t[0] == s[0] && t[1] == s[1]);
    } else if s.len() >= 2 {
        assert(t.skip(2) =~= s.skip(2));
    }
}

/// A sum that is off by less than a full round is no multiple any more.
proof fn lemma_no_longer_whole(a: int, b: int)
    requires
        a % 65535 == 0,
        a != b,
        -65535 < b - a < 65535,
    ensures
        b % 65535 != 0,
{
    if b % 65535 == 0 {
        let d = b - a;
        vstd::arithmetic::div_mod::lemma_sub_mod_noop(b, a, 65535);
        assert(d % 65535 == 0);
        if d > 0 {
            vstd::arithmetic::div_mod::lemma_small_mod(d as nat, 65535);
        } else {
            vstd::arithmetic::div_mod::lemma_mod_multiples_vanish(1, d, 65535);
            vstd::arithmetic::div_mod::lemma_small_mod((d + 65535) as nat, 65535);
        }
    }
}

/// A message whose checksum holds does not survive the change of a single byte.
pub proof fn law_checksums_notice_damage(s: Seq<u8>, i: int, b: u8)
    requires
        checksum_of(s) == 0,
        0 <= i < s.len(),
        s[i] != b,
    ensures
        checksum_of(s.update(i, b)) != 0,
{
    crate::net::sum::lemma_valid(word_sum(s));
    crate::net::sum::lemma_valid(word_sum(s.update(i, b)));
    lemma_sum_of_changed(s, i, b);
    lemma_no_longer_whole(word_sum(s) as int, word_sum(s.update(i, b)) as int);
}

/// A datagram whose header lost a single byte to damage is rejected, whichever byte it
/// is.
pub proof fn law_header_damage_is_noticed(p: Seq<u8>, i: int, b: u8)
    requires
        valid(p),
        0 <= i < 20,
        p[i] != b,
    ensures
        !valid(p.update(i, b)),
{
    assert(p.update(i, b).take(20) =~= p.take(20).update(i, b));
    law_checksums_notice_damage(p.take(20), i, b);
}

/// A datagram with a checksum of its own whose ports, length or payload lost a single
/// byte to damage is rejected. Damage that clears the checksum field is not noticed, for
/// that says that there is none.
pub proof fn law_payload_damage_is_noticed(p: Seq<u8>, i: int, b: u8)
    requires
        valid(p),
        p[26] != 0 || p[27] != 0,
        20 <= i < 256 * p[2] + p[3],
        p[i] != b,
        !(i == 26 && b == 0 && p[27] == 0),
        !(i == 27 && b == 0 && p[26] == 0),
    ensures
        !valid(p.update(i, b)),
{
    let q = p.update(i, b);
    let total = 256 * p[2] + p[3];
    let (body, changed) = (p.subrange(20, total), q.subrange(20, total));
    assert(changed =~= body.update(i - 20, b));
    assert(q.subrange(12, 16) =~= p.subrange(12, 16));
    assert(q.subrange(16, 20) =~= p.subrange(16, 20));
    let (s, d) = (p.subrange(12, 16), p.subrange(16, 20));
    crate::net::sum::lemma_valid(udp_sum(s, d, body));
    crate::net::sum::lemma_valid(udp_sum(s, d, changed));
    lemma_sum_of_changed(body, i - 20, b);
    lemma_no_longer_whole(udp_sum(s, d, body) as int, udp_sum(s, d, changed) as int);
}

/// What the hop count, the kind of service, the identification and leave to fragment say
/// makes no difference: a packet that differs from a valid one in nothing else, and
/// whose header checksum holds, is valid if it has hops left, and is read the same.
pub proof fn law_other_header_fields_do_not_matter(p: Seq<u8>, q: Seq<u8>)
    requires
        valid(p),
        q.len() == p.len(),
        forall|i: int|
            0 <= i < p.len() && i != 1 && i != 4 && i != 5 && i != 6 && i != 8 && i != 10 && i != 11
                ==> #[trigger] q[i] == p[i],
        q[6] == 0 || q[6] == 64,
        q[8] >= 1,
        checksum_of(q.take(20)) == 0,
    ensures
        valid(q),
        source_of(q) == source_of(p),
        destination_of(q) == destination_of(p),
        payload_of(q) == payload_of(p),
{
    let total = 256 * p[2] + p[3];
    assert(q.subrange(12, 16) =~= p.subrange(12, 16));
    assert(q.subrange(16, 20) =~= p.subrange(16, 20));
    assert(q.subrange(20, total) =~= p.subrange(20, total));
    assert(payload_of(q) =~= payload_of(p));
}

/// A datagram on its way stays valid, and is read the same, while routers count its hops
/// down and put the header checksum right, until no hop is left.
pub proof fn law_hop_counts_do_not_matter(p: Seq<u8>, hops: u8)
    requires
        valid(p),
    ensures
        ({
            let bare = p.take(20).update(8, hops).update(10, 0).update(11, 0);
            let q = summed(bare, 10) + p.skip(20);
            &&& valid(q) <==> hops >= 1
            &&& source_of(q) == source_of(p)
            &&& destination_of(q) == destination_of(p)
            &&& payload_of(q) == payload_of(p)
        }),
{
    let bare = p.take(20).update(8, hops).update(10, 0).update(11, 0);
    let q = summed(bare, 10) + p.skip(20);
    lemma_checksum_completes(bare, 10);
    crate::net::sum::lemma_complement_completes(word_sum(bare));
    crate::bytes::lemma_overwrite(bare, 10, crate::bytes::be16_bytes(checksum_of(bare) as u16));
    assert(q.take(20) =~= summed(bare, 10));
    assert(payload_of(q) =~= payload_of(p));
    if hops >= 1 {
        law_other_header_fields_do_not_matter(p, q);
    }
}

/// A datagram may do without a checksum of its own.
pub proof fn law_datagrams_may_have_no_checksum(p: Seq<u8>)
    requires
        valid(p),
    ensures
        valid(p.update(26, 0).update(27, 0)),
        payload_of(p.update(26, 0).update(27, 0)) == payload_of(p),
{
    let q = p.update(26, 0).update(27, 0);
    assert(q.take(20) =~= p.take(20));
    assert(payload_of(q) =~= payload_of(p));
}

/// A datagram put together from its parts.
pub open spec fn assembled(
    service: u8,
    identification: (u8, u8),
    flags: u8,
    hops: u8,
    header_sum: (u8, u8),
    source: (Seq<u8>, u8, u8),
    destination: (Seq<u8>, u8, u8),
    sum: (u8, u8),
    payload: Seq<u8>,
) -> Seq<u8> {
    let total = payload.len() + 28;
    let own = payload.len() + 8;
    seq![
        0x45u8,
        service,
        (total / 256) as u8,
        (total % 256) as u8,
        identification.0,
        identification.1,
        flags,
        0u8,
        hops,
        17u8,
        header_sum.0,
        header_sum.1,
    ] + source.0 + destination.0 + seq![
        source.1,
        source.2,
        destination.1,
        destination.2,
        (own / 256) as u8,
        (own % 256) as u8,
        sum.0,
        sum.1,
    ] + payload
}

/// Every datagram that is put together properly is valid and read as what it was put
/// together from, whatever its ports, addresses and payload: it has hops left, says at
/// most that it is not to be fragmented, its header adds up, and so does the datagram
/// unless it has no checksum. Nothing else is valid.
pub proof fn law_proper_datagrams_are_valid(
    service: u8,
    identification: (u8, u8),
    flags: u8,
    hops: u8,
    header_sum: (u8, u8),
    source: (Ipv4Addr, u8, u8),
    destination: (Ipv4Addr, u8, u8),
    sum: (u8, u8),
    payload: Seq<u8>,
)
    requires
        payload.len() + 28 <= 65535,
    ensures
        ({
            let p = assembled(
                service,
                identification,
                flags,
                hops,
                header_sum,
                (source.0@, source.1, source.2),
                (destination.0@, destination.1, destination.2),
                sum,
                payload,
            );
            &&& valid(p) <==> {
                &&& hops > 0
                &&& flags == 0 || flags == 64
                &&& word_sum(p.take(20)) % 65535 == 0
                &&& sum.0 == 0 && sum.1 == 0 || (word_sum(source.0@) + word_sum(destination.0@) + 17
                    + payload.len() + 8 + word_sum(p.skip(20))) % 65535 == 0
            }
            &&& source_of(p) == (SocketAddrV4 {
                ip: source.0,
                port: (256 * source.1 + source.2) as u16,
            })
            &&& destination_of(p) == (SocketAddrV4 {
                ip: destination.0,
                port: (256 * destination.1 + destination.2) as u16,
            })
            &&& payload_of(p) == payload
        }),
{
    let p = assembled(
        service,
        identification,
        flags,
        hops,
        header_sum,
        (source.0@, source.1, source.2),
        (destination.0@, destination.1, destination.2),
        sum,
        payload,
    );
    let total = payload.len() + 28;
    let own = payload.len() + 8;
    assert(p.len() == total);
    assert(256 * p[2] + p[3] == total);
    assert(256 * p[24] + p[25] == own);
    assert(payload_of(p) =~= payload);
    assert(p.subrange(20, total as int) =~= p.skip(20));
    assert(p.subrange(12, 16) =~= source.0@);
    assert(p.subrange(16, 20) =~= destination.0@);
    crate::net::sum::lemma_valid(word_sum(p.take(20)));
    let all = udp_sum(source.0@, destination.0@, p.skip(20));
    crate::net::sum::lemma_valid(all);
    assert(word_sum(p.take(20)) > 0) by {
        assert(p.take(20)[0] == 0x45);
        assert(word_sum(p.take(20).skip(2)) >= 0);
    }
}

/// A valid datagram is one that was put together properly, and possibly bytes behind it.
pub proof fn law_valid_datagrams_are_proper(p: Seq<u8>)
    requires
        valid(p),
    ensures
        ({
            let total = 256 * p[2] + p[3];
            &&& 28 <= total <= p.len()
            &&& p.take(total) == assembled(
                p[1],
                (p[4], p[5]),
                p[6],
                p[8],
                (p[10], p[11]),
                (p.subrange(12, 16), p[20], p[21]),
                (p.subrange(16, 20), p[22], p[23]),
                (p[26], p[27]),
                p.subrange(28, total),
            )
            &&& p[8] > 0
            &&& p[6] == 0 || p[6] == 64
            &&& payload_of(p) == p.subrange(28, total)
        }),
{
    let total = 256 * p[2] + p[3];
    let q = assembled(
        p[1],
        (p[4], p[5]),
        p[6],
        p[8],
        (p[10], p[11]),
        (p.subrange(12, 16), p[20], p[21]),
        (p.subrange(16, 20), p[22], p[23]),
        (p[26], p[27]),
        p.subrange(28, total),
    );
    assert(p[7] == 0);
    assert forall|i: int| 0 <= i < total implies p.take(total)[i] == q[i] by {
        if 28 <= i {
            assert(q[i] == p.subrange(28, total)[i - 28]);
        }
    }
    assert(p.take(total) =~= q);
}

/// A datagram that is built is put together from what it was to be built from: it starts
/// with 64 hops, is not to be fragmented, and is summed.
pub proof fn law_built_datagrams_are_proper(
    source: SocketAddrV4,
    destination: SocketAddrV4,
    payload: Seq<u8>,
    identification: u16,
)
    requires
        payload.len() + 28 <= 65535,
    ensures
        ({
            let p = datagram(
                (source.ip@, source.port),
                (destination.ip@, destination.port),
                payload,
                identification,
            );
            &&& valid(p)
            &&& p.len() == payload.len() + 28
            &&& p == assembled(
                0,
                ((identification / 256) as u8, (identification % 256) as u8),
                64,
                64,
                (p[10], p[11]),
                (source.ip@, (source.port / 256) as u8, (source.port % 256) as u8),
                (destination.ip@, (destination.port / 256) as u8, (destination.port % 256) as u8),
                (p[26], p[27]),
                payload,
            )
            &&& p[26] != 0 || p[27] != 0
        }),
{
    let p = datagram(
        (source.ip@, source.port),
        (destination.ip@, destination.port),
        payload,
        identification,
    );
    super::udp::law_built_datagrams_parse(source, destination, payload, identification);
    lemma_built_bytes(source, destination, payload, identification);
    law_valid_datagrams_are_proper(p);
    let total = 256 * p[2] + p[3];
    assert(p.take(total) =~= p);
    assert(p.subrange(12, 16) =~= source.ip@);
    assert(p.subrange(16, 20) =~= destination.ip@);
}

/// The bytes of a datagram that is built.
proof fn lemma_built_bytes(
    source: SocketAddrV4,
    destination: SocketAddrV4,
    payload: Seq<u8>,
    identification: u16,
)
    requires
        payload.len() + 28 <= 65535,
    ensures
        ({
            let p = datagram(
                (source.ip@, source.port),
                (destination.ip@, destination.port),
                payload,
                identification,
            );
            &&& p.len() == payload.len() + 28
            &&& p[1] == 0
            &&& p[4] == identification / 256
            &&& p[5] == identification % 256
            &&& p[6] == 64
            &&& p[8] == 64
            &&& p[20] == source.port / 256
            &&& p[21] == source.port % 256
            &&& p[22] == destination.port / 256
            &&& p[23] == destination.port % 256
            &&& forall|i: int| 0 <= i < 4 ==> #[trigger] p[12 + i] == source.ip@[i]
            &&& forall|i: int| 0 <= i < 4 ==> #[trigger] p[16 + i] == destination.ip@[i]
        }),
{
    let total = (payload.len() + 28) as u16;
    let bare = super::udp::bare_header(source.ip@, destination.ip@, total, identification);
    let bare_seg = super::udp::bare_segment(source.port, destination.port, payload);
    let field = super::udp::checksum_field(source.ip@, destination.ip@, bare_seg);
    crate::bytes::lemma_overwrite(bare, 10, crate::bytes::be16_bytes(checksum_of(bare) as u16));
    crate::bytes::lemma_overwrite(bare_seg, 6, crate::bytes::be16_bytes(field));
}

} // verus!
