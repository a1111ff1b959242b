//! What holds of pools as a whole.
use vstd::prelude::*;

use super::endpoints::{
    discovery, echo_of, message, responder_at, service_id, Action, Meaning, Peer, PoolModel,
    Service, Supply, ADVERT, QUERY,
};
use crate::addr::SocketAddrV4;
use crate::error::IoError;
use crate::net::responder::{law_datagrams_are_echoed, law_echoes_are_valid};
use crate::time::Duration;
use crate::transport::udp::{
    datagram, destination_of, law_built_datagrams_parse, payload_of, source_of, valid,
    HEADERS,
};

verus! {

/// Whatever arrives, no more packets wait than were agreed, no more peers are kept,
/// and no peer was heard of in the future.
pub proof fn law_handling_keeps_bounds(m: PoolModel, p: Seq<u8>, now: Duration, supply: Supply)
    requires
        m.wf(),
        now@ <= m.now,
    ensures
        m.handled(p, now, supply).wf(),
        m.handled(p, now, supply).services == m.services,
        m.handled(p, now, supply).now == m.now,
{
    let noted = m.noted(p);
    match m.meaning(p) {
        Meaning::Query => {
            lemma_offers_keep_bounds(noted, p, supply.rooms, noted.services.len());
        },
        Meaning::Advert => {
            let after = noted.learned(p, now);
            let from = source_of(p);
            if noted.peers.len() < noted.peer_capacity || noted.peers.contains_key(from) {
                assert(after.peers.dom() =~= noted.peers.dom().insert(from));
                assert forall|a: SocketAddrV4| #[trigger] after.peers.contains_key(a) implies
                    after.peers[a].service.address == a && after.peers[a].last_seen@
                    <= after.now by {
                    if a != from {
                        assert(m.peers.contains_key(a));
                    }
                }
            }
        },
        _ => {},
    }
}

/// Answers to a query keep the bounds.
proof fn lemma_offers_keep_bounds(m: PoolModel, p: Seq<u8>, rooms: Seq<Option<int>>, n: nat)
    requires
        m.wf(),
    ensures
        m.offered_all(p, rooms, n).wf(),
        m.offered_all(p, rooms, n).services == m.services,
        m.offered_all(p, rooms, n).now == m.now,
    decreases n,
{
    if n > 0 {
        lemma_offers_keep_bounds(m, p, rooms, (n - 1) as nat);
    }
}

/// After time passed, exactly those peers are left that were heard of within the
/// lease.
pub proof fn law_leases_end(m: PoolModel, now: Duration, lease: nat, a: SocketAddrV4)
    requires
        m.wf(),
        m.now <= now@,
    ensures
        m.expired(now@, lease).peers.contains_key(a) <==> m.peers.contains_key(a) && now@
            - m.peers[a].last_seen@ < lease,
        m.expired(now@, lease).wf(),
{
    let after = m.expired(now@, lease);
    assert(after.peers.dom().subset_of(m.peers.dom()));
    vstd::set_lib::lemma_len_subset(after.peers.dom(), m.peers.dom());
    assert forall|b: SocketAddrV4| #[trigger] after.peers.contains_key(b) implies
        after.peers[b].service.address == b && after.peers[b].last_seen@ <= after.now by {
        assert(m.peers.contains_key(b));
    }
}

/// An advertisement of a known peer extends its lease, however many peers there are.
pub proof fn law_adverts_renew_leases(m: PoolModel, p: Seq<u8>, now: Duration)
    requires
        m.peers.contains_key(source_of(p)),
    ensures
        m.learned(p, now).peers[source_of(p)].last_seen == now,
        m.learned(p, now).peers.dom() =~= m.peers.dom(),
{
}

/// Payloads of the discovery protocol never reach the application.
pub proof fn law_discovery_is_reserved(m: PoolModel, p: Seq<u8>)
    requires
        discovery(payload_of(p)),
    ensures
        !(m.meaning(p) is Delivery),
{
}

/// A query for a service finds it: the worker takes it for a query that the service
/// answers, whether it was sent to the service alone or to all. Where the client is
/// bound to the endpoint that the query came from, it takes the answer for an
/// advertisement of just that service.
pub proof fn law_discovery_finds_services(
    worker: PoolModel,
    i: int,
    client: PoolModel,
    source: SocketAddrV4,
    seed: SocketAddrV4,
    now: Duration,
)
    requires
        worker.wf(),
        0 <= i < worker.services.len(),
        client.bound(source),
        client.peers.len() < client.peer_capacity,
        seed.port == worker.services[i].0.port,
        seed == worker.services[i].0 || seed.ip.broadcasts(),
    ensures
        ({
            let (address, id) = worker.services[i];
            let query = datagram(
                (source.ip@, source.port),
                (seed.ip@, seed.port),
                message(QUERY, id),
                0,
            );
            let answer = worker.advert(i, query);
            &&& worker.meaning(query) is Query
            &&& worker.answers(i, query)
            &&& client.meaning(answer) is Advert
            &&& client.learned(answer, now).peers == client.peers.insert(
                address,
                (Peer { service: Service { address, id }, last_seen: now }),
            )
        }),
{
    let (address, id) = worker.services[i];
    super::endpoints::law_messages_are_understood(QUERY, id);
    super::endpoints::law_messages_are_understood(ADVERT, id);
    law_built_datagrams_parse(source, seed, message(QUERY, id), 0);
    law_built_datagrams_parse(address, source, message(ADVERT, id), 0);
}

/// A datagram to a bound endpoint is for the application there, and where it is
/// echoed, the echo is for the application that sent it: the same payload, from the
/// endpoint it was sent to.
pub proof fn law_echoes_come_back(
    worker: PoolModel,
    client: PoolModel,
    a: SocketAddrV4,
    b: SocketAddrV4,
    payload: Seq<u8>,
)
    requires
        client.bound(a),
        worker.bound(b),
        !discovery(payload),
        payload.len() + HEADERS <= u16::MAX,
        !worker.full(),
    ensures
        ({
            let p = datagram((a.ip@, a.port), (b.ip@, b.port), payload, 0);
            let echo = echo_of(p);
            &&& worker.meaning(p) is Delivery
            &&& worker.decided(p, Action::Echo).tx == worker.tx.push(echo)
            &&& client.meaning(echo) is Delivery
            &&& source_of(echo) == b
            &&& destination_of(echo) == a
            &&& payload_of(echo) == payload
        }),
{
    let p = datagram((a.ip@, a.port), (b.ip@, b.port), payload, 0);
    law_built_datagrams_parse(a, b, payload, 0);
    let me = responder_at(b);
    assert(me.ipv4@ =~= b.ip@);
    law_datagrams_are_echoed(me, p);
    law_echoes_are_valid(me, p);
}

/// What the device does not accept keeps waiting, in order, and what it accepts is
/// counted.
pub proof fn law_flushing_takes_a_prefix(m: PoolModel, n: nat)
    requires
        n <= m.tx.len(),
        m.stats.submitted + n <= u64::MAX,
    ensures
        m.tx == m.tx.take(n as int) + m.flushed(n).tx,
        m.flushed(n).stats.submitted == m.stats.submitted + n,
{
    assert(m.tx =~= m.tx.take(n as int) + m.flushed(n).tx);
}

/// Answers to a query are not counted as received.
proof fn lemma_offers_keep_counts(m: PoolModel, p: Seq<u8>, rooms: Seq<Option<int>>, n: nat)
    ensures
        m.offered_all(p, rooms, n).stats.received == m.stats.received,
        m.offered_all(p, rooms, n).stats.invalid == m.stats.invalid,
    decreases n,
{
    if n > 0 {
        lemma_offers_keep_counts(m, p, rooms, (n - 1) as nat);
    }
}

/// Every packet that is handled is counted once, as received or as invalid; the counters
/// start over at zero when they are full.
pub proof fn law_packets_are_counted(
    m: PoolModel,
    ps: Seq<Seq<u8>>,
    now: Duration,
    supplies: Seq<Supply>,
    n: nat,
)
    ensures
        ({
            let after = m.handled_all(ps, now, supplies, n).stats;
            (after.received + after.invalid) % 0x1_0000_0000_0000_0000 == (m.stats.received
                + m.stats.invalid + n) % 0x1_0000_0000_0000_0000
        }),
    decreases n,
{
    if n > 0 {
        law_packets_are_counted(m, ps, now, supplies, (n - 1) as nat);
        let before = m.handled_all(ps, now, supplies, (n - 1) as nat);
        let p = ps[n - 1];
        let noted = before.noted(p);
        lemma_offers_keep_counts(noted, p, supplies[n - 1].rooms, noted.services.len());
    }
}

/// A discovery message is `ANSP`, the version, what it is, and the number of a service
/// with its most significant byte first.
pub proof fn law_messages_are_spelled_out(kind: u8, id: u32)
    ensures
        message(kind, id).len() == 10,
        message(kind, id).take(6) == seq![0x41u8, 0x4e, 0x53, 0x50, 1, kind],
        message(kind, id)[6] * 0x100_0000 + message(kind, id)[7] * 0x1_0000 + message(kind, id)[8]
            * 0x100 + message(kind, id)[9] == id,
        QUERY == 0,
        ADVERT == 1,
{
    super::endpoints::law_messages_are_understood(kind, id);
    assert(message(kind, id).take(6) =~= seq![0x41u8, 0x4e, 0x53, 0x50, 1, kind]);
}

/// An endpoint is bound exactly if a service stands at it.
pub proof fn law_bound_endpoints_have_a_service(m: PoolModel, endpoint: SocketAddrV4)
    requires
        m.wf(),
    ensures
        m.bound(endpoint) <==> exists|i: int|
            0 <= i < m.services.len() && (#[trigger] m.services[i]).0 == endpoint,
{
    assert forall|i: int| 0 <= i < m.services.len() && (#[trigger] m.services[i]).0
        == endpoint implies m.bound(endpoint) by {
        crate::table::lemma_entry(m.services, i);
    }
}

/// A service answers a query exactly if it is the one that was asked for, at the port
/// that was asked, and the query went to it or to all, be it the only one there or one of
/// many.
pub proof fn law_services_answer_what_was_asked(
    m: PoolModel,
    i: int,
    source: SocketAddrV4,
    seed: SocketAddrV4,
    id: u32,
)
    requires
        0 <= i < m.services.len(),
    ensures
        ({
            let query = datagram(
                (source.ip@, source.port),
                (seed.ip@, seed.port),
                message(QUERY, id),
                0,
            );
            let (address, offered) = m.services[i];
            m.answers(i, query) <==> {
                &&& offered == id
                &&& address.port == seed.port
                &&& address.ip == seed.ip || seed.ip@ == seq![255u8, 255, 255, 255]
            }
        }),
{
    super::endpoints::law_messages_are_understood(QUERY, id);
    law_built_datagrams_parse(source, seed, message(QUERY, id), 0);
    let all = seed.ip@;
    if all == seq![255u8, 255, 255, 255] {
        assert(all[0] == 255 && all[1] == 255 && all[2] == 255 && all[3] == 255);
    }
    if seed.ip.broadcasts() {
        assert(all =~= seq![255u8, 255, 255, 255]);
    }
}

/// Where no service answers, a query changes nothing but that it is counted: nothing is
/// sent, and nothing counts as dropped.
pub proof fn law_queries_for_others_are_not_answered(
    m: PoolModel,
    p: Seq<u8>,
    now: Duration,
    supply: Supply,
)
    requires
        m.meaning(p) is Query,
        forall|i: int|
            0 <= i < m.services.len() ==> (#[trigger] m.services[i]).1 != service_id(payload_of(p)),
    ensures
        ({
            let after = m.handled(p, now, supply);
            &&& after.tx == m.tx
            &&& after.peers == m.peers
            &&& after.services == m.services
            &&& after.stats.response_drops == m.stats.response_drops
        }),
{
    lemma_nobody_answers(m.noted(p), p, supply.rooms, m.services.len());
}

/// Services that were not asked for do nothing.
proof fn lemma_nobody_answers(m: PoolModel, p: Seq<u8>, rooms: Seq<Option<int>>, n: nat)
    requires
        n <= m.services.len(),
        forall|i: int|
            0 <= i < m.services.len() ==> (#[trigger] m.services[i]).1 != service_id(payload_of(p)),
    ensures
        m.offered_all(p, rooms, n) == m,
    decreases n,
{
    if n > 0 {
        lemma_nobody_answers(m, p, rooms, (n - 1) as nat);
        assert(m.services[n - 1].1 != service_id(payload_of(p)));
    }
}

/// A query for a service that nobody offers goes unanswered.
pub proof fn law_unknown_services_are_not_found(
    worker: PoolModel,
    source: SocketAddrV4,
    seed: SocketAddrV4,
    id: u32,
    now: Duration,
    supply: Supply,
)
    requires
        forall|i: int| 0 <= i < worker.services.len() ==> (#[trigger] worker.services[i]).1 != id,
    ensures
        ({
            let query = datagram(
                (source.ip@, source.port),
                (seed.ip@, seed.port),
                message(QUERY, id),
                0,
            );
            let after = worker.handled(query, now, supply);
            &&& after.tx == worker.tx
            &&& after.peers == worker.peers
        }),
{
    super::endpoints::law_messages_are_understood(QUERY, id);
    law_built_datagrams_parse(source, seed, message(QUERY, id), 0);
    let query = datagram((source.ip@, source.port), (seed.ip@, seed.port), message(QUERY, id), 0);
    law_queries_for_others_are_not_answered(worker, query, now, supply);
}

/// An answer to a query goes from the service to who asked, and says which service it is.
pub proof fn law_answers_say_which_service(m: PoolModel, i: int, p: Seq<u8>)
    requires
        0 <= i < m.services.len(),
    ensures
        ({
            let answer = m.advert(i, p);
            &&& valid(answer)
            &&& source_of(answer) == m.services[i].0
            &&& destination_of(answer) == source_of(p)
            &&& payload_of(answer) == message(ADVERT, m.services[i].1)
        }),
{
    let (address, id) = m.services[i];
    super::endpoints::law_messages_are_understood(ADVERT, id);
    law_built_datagrams_parse(address, source_of(p), message(ADVERT, id), 0);
}

/// The answers of those of the first `n` services that a query asks for, in order.
pub open spec fn asked_for(m: PoolModel, p: Seq<u8>, n: nat) -> Seq<Seq<u8>>
    decreases n,
{
    if n == 0 {
        Seq::empty()
    } else if m.answers(n - 1, p) {
        asked_for(m, p, (n - 1) as nat).push(m.advert(n - 1, p))
    } else {
        asked_for(m, p, (n - 1) as nat)
    }
}

/// Every service that a query asks for answers it, where the queue and the device have
/// room, and no other does. The answers wait behind what waited before, in the order of
/// the services, and none counts as dropped.
pub proof fn law_all_asked_for_answer(m: PoolModel, p: Seq<u8>, now: Duration, supply: Supply)
    requires
        m.meaning(p) is Query,
        m.tx.len() + m.services.len() <= m.capacity,
        forall|k: int| 0 <= k < m.services.len() ==> (#[trigger] supply.rooms[k]) is Some,
    ensures
        m.handled(p, now, supply).tx == m.tx + asked_for(m, p, m.services.len()),
        m.handled(p, now, supply).stats.response_drops == m.stats.response_drops,
        m.handled(p, now, supply).peers == m.peers,
{
    let noted = m.noted(p);
    lemma_all_offer(noted, p, supply.rooms, m.services.len());
    lemma_asked_for_noted(m, p, m.services.len());
}

/// Counting a packet makes no difference to who answers it.
proof fn lemma_asked_for_noted(m: PoolModel, p: Seq<u8>, n: nat)
    ensures
        asked_for(m.noted(p), p, n) == asked_for(m, p, n),
    decreases n,
{
    if n > 0 {
        lemma_asked_for_noted(m, p, (n - 1) as nat);
        assert(m.noted(p).answers(n - 1, p) == m.answers(n - 1, p));
        assert(m.noted(p).advert(n - 1, p) == m.advert(n - 1, p));
    }
}

/// What the first `n` services add.
proof fn lemma_all_offer(m: PoolModel, p: Seq<u8>, rooms: Seq<Option<int>>, n: nat)
    requires
        n <= m.services.len(),
        m.tx.len() + m.services.len() <= m.capacity,
        forall|k: int| 0 <= k < m.services.len() ==> (#[trigger] rooms[k]) is Some,
    ensures
        asked_for(m, p, n).len() <= n,
        m.offered_all(p, rooms, n) == (PoolModel { tx: m.tx + asked_for(m, p, n), ..m }),
    decreases n,
{
    if n == 0 {
        assert(m.tx + asked_for(m, p, 0) =~= m.tx);
    } else {
        let last = n - 1;
        lemma_all_offer(m, p, rooms, last as nat);
        let before = m.offered_all(p, rooms, last as nat);
        assert(rooms[last] is Some);
        assert(before.answers(last, p) == m.answers(last, p));
        assert(before.advert(last, p) == m.advert(last, p));
        if m.answers(last, p) {
            assert(before.tx.push(m.advert(last, p)) =~= m.tx + asked_for(m, p, n));
        }
    }
}

/// What a datagram means goes by its payload and by whether anybody is bound to its
/// destination. Queries are for all; other messages of the discovery protocol and all
/// that is for the application need somebody there.
pub proof fn law_datagrams_mean_what_they_say(
    m: PoolModel,
    source: SocketAddrV4,
    destination: SocketAddrV4,
    payload: Seq<u8>,
)
    requires
        payload.len() + HEADERS <= u16::MAX,
    ensures
        ({
            let p = datagram(
                (source.ip@, source.port),
                (destination.ip@, destination.port),
                payload,
                0,
            );
            let reserved = payload.len() == 10 && payload.take(4) == seq![0x41u8, 0x4e, 0x53, 0x50];
            m.meaning(p) == (if reserved && payload[4] == 1 && payload[5] == 0 {
                Meaning::Query
            } else if !m.bound(destination) {
                Meaning::Unbound
            } else if reserved && payload[4] == 1 && payload[5] == 1 {
                Meaning::Advert
            } else if reserved {
                Meaning::Reserved
            } else {
                Meaning::Delivery
            })
        }),
{
    law_built_datagrams_parse(source, destination, payload, 0);
    lemma_reserved(payload);
}

/// What the discovery protocol reserves.
proof fn lemma_reserved(payload: Seq<u8>)
    ensures
        discovery(payload) <==> payload.len() == 10 && payload.take(4) == seq![
            0x41u8,
            0x4e,
            0x53,
            0x50,
        ],
{
    let lead = payload.take(4);
    if payload.len() == 10 {
        assert(lead[0] == payload[0] && lead[1] == payload[1] && lead[2] == payload[2] && lead[3]
            == payload[3]);
        if discovery(payload) {
            assert(lead =~= seq![0x41u8, 0x4e, 0x53, 0x50]);
        }
    }
}

/// What is no datagram is counted as invalid, and nothing else happens.
pub proof fn law_invalid_packets_are_only_counted(
    m: PoolModel,
    p: Seq<u8>,
    now: Duration,
    supply: Supply,
)
    requires
        !valid(p),
        m.stats.invalid < u64::MAX,
    ensures
        m.handled(p, now, supply) == (PoolModel {
            stats: super::endpoints::PoolStats {
                invalid: (m.stats.invalid + 1) as u64,
                ..m.stats
            },
            ..m
        }),
{
}

/// A datagram that means nothing to the application leaves what waits, and who is known,
/// alone: one that nobody is bound to is counted as such, and reserved ones are not.
pub proof fn law_stray_datagrams_are_only_counted(
    m: PoolModel,
    p: Seq<u8>,
    now: Duration,
    supply: Supply,
)
    requires
        m.meaning(p) is Unbound || m.meaning(p) is Reserved,
        m.stats.received < u64::MAX,
        m.stats.unbound < u64::MAX,
    ensures
        m.handled(p, now, supply) == (PoolModel {
            stats: super::endpoints::PoolStats {
                received: (m.stats.received + 1) as u64,
                unbound: (m.stats.unbound + if m.meaning(p) is Unbound {
                    1int
                } else {
                    0
                }) as u64,
                ..m.stats
            },
            ..m
        }),
{
}

/// What the application ignores is gone; what it echoes waits to be sent, last in line,
/// unless nothing more can wait: then the echo is counted as dropped.
pub proof fn law_applications_decide(m: PoolModel, p: Seq<u8>, now: Duration, supply: Supply)
    requires
        m.meaning(p) is Delivery,
        m.stats.received < u64::MAX,
        m.stats.response_drops < u64::MAX,
    ensures
        ({
            let after = m.handled(p, now, supply);
            let echoes = supply.action == Action::Echo;
            &&& after.tx == (if echoes && m.tx.len() < m.capacity {
                m.tx.push(echo_of(p))
            } else {
                m.tx
            })
            &&& after.stats.response_drops == m.stats.response_drops + (if echoes && m.tx.len()
                >= m.capacity {
                1int
            } else {
                0
            })
            &&& after.stats.received == m.stats.received + 1
            &&& after.stats.invalid == m.stats.invalid
            &&& after.stats.unbound == m.stats.unbound
            &&& after.peers == m.peers
            &&& after.services == m.services
        }),
{
}

/// An advertisement makes its sender known, with the service that it offers and when it
/// was heard of. Nobody else is forgotten or changed. Where no more peers can be kept, a
/// new one is only counted.
pub proof fn law_advertisers_become_known(
    m: PoolModel,
    peer: SocketAddrV4,
    destination: SocketAddrV4,
    id: u32,
    now: Duration,
    supply: Supply,
)
    requires
        m.bound(destination),
        m.stats.peer_overflow < u64::MAX,
    ensures
        ({
            let p = datagram(
                (peer.ip@, peer.port),
                (destination.ip@, destination.port),
                message(ADVERT, id),
                0,
            );
            let after = m.handled(p, now, supply);
            let keeps = m.peers.contains_key(peer) || m.peers.len() < m.peer_capacity;
            &&& keeps ==> after.peers.contains_key(peer) && after.peers[peer].service.id == id
                && after.peers[peer].service.address == peer && after.peers[peer].last_seen == now
            &&& forall|a: SocketAddrV4|
                a != peer || !keeps ==> (#[trigger] after.peers.contains_key(a)
                    <==> m.peers.contains_key(a)) && after.peers[a] == m.peers[a]
            &&& after.stats.peer_overflow == m.stats.peer_overflow + (if keeps {
                0int
            } else {
                1
            })
            &&& after.tx == m.tx
        }),
{
    super::endpoints::law_messages_are_understood(ADVERT, id);
    law_built_datagrams_parse(peer, destination, message(ADVERT, id), 0);
}

/// When time passes, a peer is forgotten as soon as its lease has run out and not
/// before; whoever is kept is kept as known. Nothing else changes but the time.
pub proof fn law_time_only_ends_leases(m: PoolModel, now: nat, lease: nat, a: SocketAddrV4)
    ensures
        ({
            let after = m.expired(now, lease);
            &&& m.peers.contains_key(a) && now < m.peers[a].last_seen@ + lease
                ==> after.peers.contains_key(a) && after.peers[a] == m.peers[a]
            &&& m.peers.contains_key(a) && now >= m.peers[a].last_seen@ + lease
                ==> !after.peers.contains_key(a)
            &&& !m.peers.contains_key(a) ==> !after.peers.contains_key(a)
            &&& after.now == now
            &&& after.tx == m.tx
            &&& after.services == m.services
            &&& after.stats == m.stats
        }),
{
}

/// A datagram is queued exactly if its sender is bound, something more can wait, the
/// device gives a frame, and the datagram with its 28 bytes of headers fits the frame
/// and 16 bits of length.
pub proof fn law_datagrams_are_queued_where_they_fit(
    m: PoolModel,
    source: SocketAddrV4,
    len: nat,
    room: Option<int>,
)
    ensures
        m.sending(source, len, room) is Ok <==> {
            &&& m.bound(source)
            &&& m.tx.len() < m.capacity
            &&& room is Some
            &&& len + 28 <= room->0
            &&& len + 28 <= 65535
        },
        !m.bound(source) ==> m.sending(source, len, room) == Err::<(), IoError>(
            IoError::SourceNotBound,
        ),
        m.bound(source) && (m.tx.len() >= m.capacity || room is None) ==> m.sending(
            source,
            len,
            room,
        ) == Err::<(), IoError>(IoError::Blocked),
{
}

/// Packets are handled one after the other, in the order in which they came.
pub proof fn law_packets_are_handled_in_order(
    m: PoolModel,
    ps: Seq<Seq<u8>>,
    p: Seq<u8>,
    now: Duration,
    supplies: Seq<Supply>,
    supply: Supply,
)
    requires
        supplies.len() == ps.len(),
    ensures
        m.handled_all(Seq::empty(), now, Seq::empty(), 0) == m,
        m.handled_all(ps.push(p), now, supplies.push(supply), ps.len() + 1) == m.handled_all(
            ps,
            now,
            supplies,
            ps.len(),
        ).handled(p, now, supply),
{
    lemma_handled_prefix(m, ps, p, now, supplies, supply, ps.len());
}

/// What comes later makes no difference to what came before.
proof fn lemma_handled_prefix(
    m: PoolModel,
    ps: Seq<Seq<u8>>,
    p: Seq<u8>,
    now: Duration,
    supplies: Seq<Supply>,
    supply: Supply,
    n: nat,
)
    requires
        supplies.len() == ps.len(),
        n <= ps.len(),
    ensures
        m.handled_all(ps.push(p), now, supplies.push(supply), n) == m.handled_all(
            ps,
            now,
            supplies,
            n,
        ),
    decreases n,
{
    if n > 0 {
        lemma_handled_prefix(m, ps, p, now, supplies, supply, (n - 1) as nat);
    }
}

} // verus!
