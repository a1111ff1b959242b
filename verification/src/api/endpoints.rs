//! The state of a pool of UDP endpoints apart from its device: what is bound, who was
//! discovered, and what waits to be sent.
use vstd::prelude::*;

use crate::addr::SocketAddrV4;
use crate::bytes::{be32, be32_bytes, bytes_of32, read32};
use crate::device::{sound, PacketBuf};
use crate::error::IoError;
use crate::net::responder::{LinkLayer, Responder};
use crate::simulation::fabric::packets;
use crate::table::{ascending, entries_map, lemma_count, lemma_entry, lemma_kept, Key, Table};
use crate::time::Duration;
use crate::transport::udp::{
    build_ipv4, datagram, destination_of, parse_ipv4, payload_of, source_of, valid, HEADERS,
};

verus! {

broadcast use PacketBuf::lemma_same_frame;

/// A UDP service: its endpoint and what it offers.
#[derive(Clone, Copy, Debug, PartialEq, Eq, Structural)]
pub struct Service {
    pub address: SocketAddrV4,
    pub id: u32,
}

/// A service that was discovered, and when it was last heard of.
#[derive(Clone, Copy, Debug, PartialEq, Eq, Structural)]
pub struct Peer {
    pub service: Service,
    pub last_seen: Duration,
}

/// What has happened in a pool.
#[derive(Clone, Copy, Debug, PartialEq, Eq, Structural)]
pub struct PoolStats {
    pub received: u64,
    pub invalid: u64,
    pub unbound: u64,
    pub submitted: u64,
    pub response_drops: u64,
    pub peer_overflow: u64,
}

impl PoolStats {
    /// Nothing has happened.
    pub open spec fn none() -> PoolStats {
        PoolStats {
            received: 0,
            invalid: 0,
            unbound: 0,
            submitted: 0,
            response_drops: 0,
            peer_overflow: 0,
        }
    }
}

impl Default for PoolStats {
    /// Nothing has happened.
    fn default() -> (stats: PoolStats)
        ensures
            stats == PoolStats::none(),
    {
        PoolStats {
            received: 0,
            invalid: 0,
            unbound: 0,
            submitted: 0,
            response_drops: 0,
            peer_overflow: 0,
        }
    }
}

/// What an application does with a datagram. `Echo` sends the received frame back.
#[derive(Clone, Copy, Debug, PartialEq, Eq, Structural)]
pub enum Action {
    Ignore,
    Echo,
}

/// The length of a discovery message.
pub const MESSAGE: usize = 10;

/// A discovery message: `ANSP`, version 1, what it is, and a service number.
pub open spec fn message(kind: u8, id: u32) -> Seq<u8> {
    seq![0x41u8, 0x4eu8, 0x53u8, 0x50u8, 1u8, kind] + be32_bytes(id)
}

/// The kind of a discovery query.
pub const QUERY: u8 = 0;

/// The kind of a service advertisement.
pub const ADVERT: u8 = 1;

/// Whether a payload belongs to the discovery protocol.
pub open spec fn discovery(payload: Seq<u8>) -> bool {
    payload.len() == MESSAGE && payload[0] == 0x41 && payload[1] == 0x4e && payload[2] == 0x53
        && payload[3] == 0x50
}

/// Whether a payload is a discovery message of this kind.
pub open spec fn is_message(payload: Seq<u8>, kind: u8) -> bool {
    discovery(payload) && payload[4] == 1 && payload[5] == kind
}

/// The service number in a discovery message.
pub open spec fn service_id(payload: Seq<u8>) -> u32 {
    be32(payload, 6) as u32
}

/// A discovery message says what it was made to say.
pub proof fn law_messages_are_understood(kind: u8, id: u32)
    ensures
        message(kind, id).len() == MESSAGE,
        is_message(message(kind, id), kind),
        service_id(message(kind, id)) == id,
{
    crate::bytes::lemma_be32_bytes(id);
    let m = message(kind, id);
    assert(m[6] == be32_bytes(id)[0] && m[7] == be32_bytes(id)[1] && m[8] == be32_bytes(id)[2]
        && m[9] == be32_bytes(id)[3]);
}

/// What a packet means to a pool.
#[derive(Clone, Copy, Debug, PartialEq, Eq, Structural)]
pub enum Meaning {
    /// It is no datagram that this stack supports.
    Invalid,
    /// It asks for a service.
    Query,
    /// Nothing is bound to its destination.
    Unbound,
    /// It advertises a service.
    Advert,
    /// It belongs to the discovery protocol but means nothing.
    Reserved,
    /// It is for the application.
    Delivery,
}

/// What a pool holds.
#[verifier::ext_equal]
pub struct PoolModel {
    /// The bound endpoints and their services, in the order of their addresses.
    pub services: Seq<(SocketAddrV4, u32)>,
    pub peers: Map<SocketAddrV4, Peer>,
    /// The packets that wait to be sent.
    pub tx: Seq<Seq<u8>>,
    pub capacity: nat,
    pub peer_capacity: nat,
    pub now: nat,
    pub stats: PoolStats,
}

/// What the outside contributes to the handling of one packet: what the application
/// does with it, and how much room there is in the frame that the device gives for
/// the answer of each service, if it gives one.
pub struct Supply {
    pub action: Action,
    pub rooms: Seq<Option<int>>,
}

impl PoolModel {
    /// Whether an endpoint is bound.
    pub open spec fn bound(self, endpoint: SocketAddrV4) -> bool {
        entries_map(self.services).contains_key(endpoint)
    }

    /// Whether no further packet can wait.
    pub open spec fn full(self) -> bool {
        self.tx.len() >= self.capacity
    }

    /// Queues are bounded and nothing was heard of in the future.
    pub open spec fn wf(self) -> bool {
        &&& ascending(self.services)
        &&& self.tx.len() <= self.capacity
        &&& self.peers.dom().finite()
        &&& self.peers.len() <= self.peer_capacity
        &&& forall|a: SocketAddrV4| #[trigger]
            self.peers.contains_key(a) ==> self.peers[a].service.address == a
                && self.peers[a].last_seen@ <= self.now
    }

    /// What packet `p` means.
    pub open spec fn meaning(self, p: Seq<u8>) -> Meaning {
        let payload = payload_of(p);
        if !valid(p) {
            Meaning::Invalid
        } else if is_message(payload, QUERY) {
            Meaning::Query
        } else if !self.bound(destination_of(p)) {
            Meaning::Unbound
        } else if is_message(payload, ADVERT) {
            Meaning::Advert
        } else if discovery(payload) {
            Meaning::Reserved
        } else {
            Meaning::Delivery
        }
    }

    /// The pool with another count of what happened.
    pub open spec fn with_stats(self, stats: PoolStats) -> PoolModel {
        PoolModel { stats, ..self }
    }

    /// The pool after an answer found no room.
    pub open spec fn answer_dropped(self) -> PoolModel {
        self.with_stats(
            PoolStats {
                response_drops: self.stats.response_drops.wrapping_add(1),
                ..self.stats
            },
        )
    }

    /// The pool with one more packet to send.
    pub open spec fn queued(self, p: Seq<u8>) -> PoolModel {
        PoolModel { tx: self.tx.push(p), ..self }
    }

    /// Whether service number `i` answers query `p`: it is what was asked for, at the
    /// port that was asked, and the query was for it alone or for all.
    pub open spec fn answers(self, i: int, p: Seq<u8>) -> bool {
        let (address, id) = self.services[i];
        let to = destination_of(p);
        &&& id == service_id(payload_of(p))
        &&& address.port == to.port
        &&& address == to || to.ip.broadcasts()
    }

    /// The answer of service number `i` to query `p`.
    pub open spec fn advert(self, i: int, p: Seq<u8>) -> Seq<u8> {
        let (address, id) = self.services[i];
        let to = source_of(p);
        datagram((address.ip@, address.port), (to.ip@, to.port), message(ADVERT, id), 0)
    }

    /// Whether the answer of service number `i` does not fit the frame it was given.
    pub open spec fn misfit(self, i: int, p: Seq<u8>, room: Option<int>) -> bool {
        self.answers(i, p) && !self.full() && room is Some && room->0 < HEADERS + MESSAGE
    }

    /// The pool after service number `i` had its turn at query `p`.
    pub open spec fn offered(self, i: int, p: Seq<u8>, room: Option<int>) -> PoolModel {
        if !self.answers(i, p) {
            self
        } else if self.full() || room is None {
            self.answer_dropped()
        } else {
            self.queued(self.advert(i, p))
        }
    }

    /// The pool after the first `n` services had their turn at query `p`.
    pub open spec fn offered_all(self, p: Seq<u8>, rooms: Seq<Option<int>>, n: nat) -> PoolModel
        decreases n,
    {
        if n == 0 {
            self
        } else {
            self.offered_all(p, rooms, (n - 1) as nat).offered(n - 1, p, rooms[n - 1])
        }
    }

    /// Whether an answer to query `p` meets a frame that is too small.
    pub open spec fn stuck(self, p: Seq<u8>, rooms: Seq<Option<int>>) -> bool {
        exists|i: nat|
            i < self.services.len() && (#[trigger] self.offered_all(p, rooms, i)).misfit(
                i as int,
                p,
                rooms[i as int],
            )
    }

    /// The pool after advertisement `p` arrived.
    pub open spec fn learned(self, p: Seq<u8>, now: Duration) -> PoolModel {
        let from = source_of(p);
        if self.peers.len() < self.peer_capacity || self.peers.contains_key(from) {
            PoolModel {
                peers: self.peers.insert(
                    from,
                    (Peer {
                        service: Service { address: from, id: service_id(payload_of(p)) },
                        last_seen: now,
                    }),
                ),
                ..self
            }
        } else {
            self.with_stats(
                PoolStats { peer_overflow: self.stats.peer_overflow.wrapping_add(1), ..self.stats },
            )
        }
    }

    /// The pool after the application said what to do with packet `p`.
    pub open spec fn decided(self, p: Seq<u8>, action: Action) -> PoolModel {
        match action {
            Action::Ignore => self,
            Action::Echo => if self.full() {
                self.answer_dropped()
            } else {
                self.queued(echo_of(p))
            },
        }
    }

    /// The pool after packet `p` was counted.
    pub open spec fn counted(self, p: Seq<u8>) -> PoolModel {
        if valid(p) {
            self.with_stats(
                PoolStats { received: self.stats.received.wrapping_add(1), ..self.stats },
            )
        } else {
            self.with_stats(PoolStats { invalid: self.stats.invalid.wrapping_add(1), ..self.stats })
        }
    }

    /// The pool after packet `p` was counted, and its destination looked up.
    pub open spec fn noted(self, p: Seq<u8>) -> PoolModel {
        let m = self.counted(p);
        match self.meaning(p) {
            Meaning::Unbound => m.with_stats(
                PoolStats { unbound: m.stats.unbound.wrapping_add(1), ..m.stats },
            ),
            _ => m,
        }
    }

    /// The pool after packet `p` was handled at time `now`.
    pub open spec fn handled(self, p: Seq<u8>, now: Duration, supply: Supply) -> PoolModel {
        let m = self.noted(p);
        match self.meaning(p) {
            Meaning::Query => m.offered_all(p, supply.rooms, m.services.len()),
            Meaning::Advert => m.learned(p, now),
            Meaning::Delivery => m.decided(p, supply.action),
            Meaning::Invalid | Meaning::Unbound | Meaning::Reserved => m,
        }
    }

    /// The pool at a later time: peers that were not heard of for a lease are gone.
    pub open spec fn expired(self, now: nat, lease: nat) -> PoolModel {
        PoolModel {
            peers: Map::new(
                |a: SocketAddrV4|
                    self.peers.contains_key(a) && now - self.peers[a].last_seen@ < lease,
                |a: SocketAddrV4| self.peers[a],
            ),
            now,
            ..self
        }
    }

    /// The pool after its device accepted the first `n` packets that waited.
    pub open spec fn flushed(self, n: nat) -> PoolModel {
        PoolModel {
            tx: self.tx.skip(n as int),
            stats: PoolStats {
                submitted: self.stats.submitted.wrapping_add(n as u64),
                ..self.stats
            },
            ..self
        }
    }
}

/// The echo of datagram `p`: what a responder at its destination answers.
pub open spec fn echo_of(p: Seq<u8>) -> Seq<u8> {
    responder_at(destination_of(p)).ip_answer(p)
}

/// A responder at an endpoint.
pub open spec fn responder_at(endpoint: SocketAddrV4) -> Responder {
    Responder {
        ipv4: [endpoint.ip.a, endpoint.ip.b, endpoint.ip.c, endpoint.ip.d],
        mac: [0, 0, 0, 0, 0, 0],
        udp_port: Some(endpoint.port),
    }
}

/// A pool of endpoints apart from its device.
pub struct Endpoints {
    services: Table<SocketAddrV4, u32>,
    peers: Table<SocketAddrV4, Peer>,
    tx: Vec<PacketBuf>,
    capacity: usize,
    peer_capacity: usize,
    now: Duration,
    stats: PoolStats,
}

impl Endpoints {
    /// What the pool holds.
    pub closed spec fn view(self) -> PoolModel {
        PoolModel {
            services: self.services.entries(),
            peers: self.peers@,
            tx: packets(self.tx@),
            capacity: self.capacity as nat,
            peer_capacity: self.peer_capacity as nat,
            now: self.now@,
            stats: self.stats,
        }
    }

    /// The model is well-formed, and so is every frame.
    pub closed spec fn inv(self) -> bool {
        &&& self@.wf()
        &&& self.peers.inv()
        &&& sound(self.tx@)
    }

    /// What the invariant says of the model.
    pub broadcast proof fn lemma_inv(self)
        requires
            #[trigger] self.inv(),
        ensures
            self@.wf(),
            self@.capacity <= usize::MAX,
    {
    }

    /// A pool that can hold so many packets and so many peers.
    pub fn new(queue_capacity: usize, peer_capacity: usize) -> (r: Result<Endpoints, IoError>)
        ensures
            r is Ok <==> queue_capacity > 0 && peer_capacity > 0,
            r matches Err(e) ==> e == IoError::ZeroCapacity,
            r matches Ok(pool) ==> pool.inv() && pool@ == (PoolModel {
                services: Seq::empty(),
                peers: Map::empty(),
                tx: Seq::empty(),
                capacity: queue_capacity as nat,
                peer_capacity: peer_capacity as nat,
                now: 0,
                stats: PoolStats::none(),
            }),
    {
        if queue_capacity == 0 || peer_capacity == 0 {
            return Err(IoError::ZeroCapacity);
        }
        let pool = Endpoints {
            services: Table::new(),
            peers: Table::new(),
            tx: Vec::new(),
            capacity: queue_capacity,
            peer_capacity,
            now: Duration::zero(),
            stats: PoolStats::default(),
        };
        assert(pool@.tx =~= Seq::empty());
        Ok(pool)
    }

    /// Binds a service to its endpoint.
    pub fn bind(&mut self, service: Service) -> (r: Result<(), IoError>)
        requires
            old(self).inv(),
        ensures
            final(self).inv(),
            r == (if service.address.port == 0 || !service.address.ip.unicasts() {
                Err::<(), IoError>(IoError::BindAddress)
            } else if old(self)@.bound(service.address) {
                Err(IoError::EndpointBound)
            } else {
                Ok(())
            }),
            r is Err ==> final(self)@ == old(self)@,
            r is Ok ==> {
                &&& entries_map(final(self)@.services)
                    == entries_map(old(self)@.services).insert(
                    service.address,
                    service.id,
                )
                &&& final(self)@ == (PoolModel {
                    services: final(self)@.services,
                    ..old(self)@
                })
            },
    {
        if service.address.port == 0 || service.address.ip.is_unspecified()
            || service.address.ip.is_broadcast() || service.address.ip.is_multicast() {
            return Err(IoError::BindAddress);
        }
        if self.services.contains_key(service.address) {
            return Err(IoError::EndpointBound);
        }
        self.services.insert(service.address, service.id);
        Ok(())
    }

    /// The peers that are known, in the order of their addresses.
    pub fn peers(&self) -> (list: Vec<Peer>)
        requires
            self.inv(),
        ensures
            list@.len() == self@.peers.len(),
            forall|i: int|
                0 <= i < list@.len() ==> self@.peers.contains_key(
                    (#[trigger] list@[i]).service.address,
                ) && self@.peers[list@[i].service.address] == list@[i],
            forall|i: int, j: int|
                0 <= i < j < list@.len() ==> (#[trigger] list@[i]).service.address.rank() < (
                #[trigger] list@[j]).service.address.rank(),
    {
        let mut list: Vec<Peer> = Vec::new();
        let ghost entries = self.peers.entries();
        let mut i: usize = 0;
        proof {
            lemma_count(entries);
        }
        while i < self.peers.len()
            invariant
                self.inv(),
                entries == self.peers.entries(),
                i <= entries.len(),
                list@.len() == i,
                forall|j: int| 0 <= j < i ==> #[trigger] list@[j] == entries[j].1,
            decreases entries.len() - i,
        {
            list.push(self.peers.at(i).1);
            i += 1;
        }
        proof {
            assert forall|i: int| 0 <= i < list@.len() implies self@.peers.contains_key(
                (#[trigger] list@[i]).service.address,
            ) && self@.peers[list@[i].service.address] == list@[i] && list@[i].service.address
                == entries[i].0 by {
                lemma_entry(entries, i);
                assert(self@.peers.contains_key(entries[i].0));
            }
            assert forall|i: int, j: int| 0 <= i < j < list@.len() implies (
            #[trigger] list@[i]).service.address.rank() < (
            #[trigger] list@[j]).service.address.rank() by {
                assert(entries[i].0.rank() < entries[j].0.rank());
            }
        }
        list
    }

    /// What has happened.
    pub fn stats(&self) -> (stats: PoolStats)
        ensures
            stats == self@.stats,
    {
        self.stats
    }

    /// How many packets wait to be sent.
    pub fn pending(&self) -> (n: usize)
        ensures
            n == self@.tx.len(),
    {
        self.tx.len()
    }

    /// How many packets can wait.
    pub fn capacity(&self) -> (n: usize)
        ensures
            n == self@.capacity,
    {
        self.capacity
    }

    /// How many endpoints are bound.
    pub fn num_services(&self) -> (n: usize)
        ensures
            n == self@.services.len(),
    {
        self.services.len()
    }

    /// Whether a datagram from `source` can be queued now.
    pub fn may_send(&self, source: SocketAddrV4) -> (r: Result<(), IoError>)
        requires
            self.inv(),
        ensures
            r == (if !self@.bound(source) {
                Err::<(), IoError>(IoError::SourceNotBound)
            } else if self@.full() {
                Err(IoError::Blocked)
            } else {
                Ok(())
            }),
    {
        if !self.services.contains_key(source) {
            return Err(IoError::SourceNotBound);
        }
        if self.tx.len() >= self.capacity {
            return Err(IoError::Blocked);
        }
        Ok(())
    }

    /// Queues a packet.
    fn push(&mut self, frame: PacketBuf)
        requires
            old(self).inv(),
            !old(self)@.full(),
            frame.inv(),
        ensures
            final(self).inv(),
            final(self)@ == old(self)@.queued(frame@),
    {
        let ghost before = *self;
        self.tx.push(frame);
        assert(packets(self.tx@) =~= packets(before.tx@).push(frame@));
    }

    /// Builds a datagram in `frame`, if there is one, and queues it.
    pub fn queue_datagram(
        &mut self,
        frame: Option<PacketBuf>,
        source: SocketAddrV4,
        destination: SocketAddrV4,
        payload: &[u8],
    ) -> (r: Result<(), IoError>)
        requires
            old(self).inv(),
            !old(self)@.full(),
            frame matches Some(buf) ==> buf.inv(),
        ensures
            final(self).inv(),
            r == match frame {
                None => Err::<(), IoError>(IoError::Blocked),
                Some(buf) => if fits(payload@.len(), buf.room()) {
                    Ok(())
                } else {
                    Err(IoError::DatagramTooLong)
                },
            },
            r is Err ==> final(self)@ == old(self)@,
            r is Ok ==> final(self)@ == old(self)@.queued(
                datagram(
                    (source.ip@, source.port),
                    (destination.ip@, destination.port),
                    payload@,
                    0,
                ),
            ),
    {
        match frame {
            None => Err(IoError::Blocked),
            Some(mut buf) => {
                match build_ipv4(
                    &mut buf,
                    (source.ip.octets(), source.port),
                    (destination.ip.octets(), destination.port),
                    payload,
                    0,
                ) {
                    Err(e) => Err(e),
                    Ok(()) => {
                        self.push(buf);
                        Ok(())
                    },
                }
            },
        }
    }

    /// Lets time pass and forgets peers that were not heard of for a lease.
    pub fn expire(&mut self, now: Duration, lease: Duration) -> (r: Result<(), IoError>)
        requires
            old(self).inv(),
        ensures
            final(self).inv(),
            r is Err <==> now@ < old(self)@.now,
            r matches Err(e) ==> e == IoError::TimeBackwards && *final(self) == *old(self),
            r is Ok ==> final(self)@ == old(self)@.expired(now@, lease@),
    {
        if now.as_nanos() < self.now.as_nanos() {
            return Err(IoError::TimeBackwards);
        }
        let ghost before = *self;
        let ghost entries = self.peers.entries();
        let t: u128 = now.as_nanos();
        let l: u128 = lease.as_nanos();
        let ghost p = |entry: (SocketAddrV4, Peer)| t - entry.1.last_seen@ < l;
        let keep = |a: SocketAddrV4, peer: Peer| -> (b: bool)
            ensures
                b == (t - peer.last_seen@ < l),
            {
                let seen: u128 = peer.last_seen.as_nanos();
                seen > t || t - seen < l
            };
        proof {
            lemma_kept(entries, p);
            lemma_count(entries);
            lemma_count(entries.filter(p));
        }
        self.now = now;
        self.peers.retain(keep, Ghost(p));
        proof {
            assert(self.peers@ =~= before@.expired(now@, lease@).peers);
            assert(self@ =~= before@.expired(now@, lease@));
        }
        Ok(())
    }

    /// The frames that wait to be sent, for a device to take a prefix of.
    pub fn waiting(&mut self) -> (frames: &mut [PacketBuf])
        requires
            old(self).inv(),
        ensures
            sound(frames@),
            packets(frames@) == old(self)@.tx,
            final(frames)@.len() == frames@.len() && sound(final(frames)@) ==> {
                &&& final(self).inv()
                &&& final(self)@ == (PoolModel { tx: packets(final(frames)@), ..old(self)@ })
            },
    {
        self.tx.as_mut_slice()
    }

    /// Drops the first `n` frames that wait, which a device has taken.
    pub fn forget_sent(&mut self, n: usize)
        requires
            old(self).inv(),
            n <= old(self)@.tx.len(),
        ensures
            final(self).inv(),
            final(self)@ == old(self)@.flushed(n as nat),
    {
        let ghost before = *self;
        let mut rest = self.tx.split_off(n);
        std::mem::swap(&mut self.tx, &mut rest);
        self.stats.submitted = self.stats.submitted.wrapping_add(n as u64);
        proof {
            assert(packets(self.tx@) =~= packets(before.tx@).skip(n as int));
            assert(sound(self.tx@));
        }
    }
}

/// Whether a payload is a discovery message of this kind.
fn has_kind(payload: &[u8], kind: u8) -> (yes: bool)
    ensures
        yes == is_message(payload@, kind),
{
    reserved(payload) && payload[4] == 1 && payload[5] == kind
}

/// Whether a payload belongs to the discovery protocol.
fn reserved(payload: &[u8]) -> (yes: bool)
    ensures
        yes == discovery(payload@),
{
    payload.len() == MESSAGE && payload[0] == 0x41 && payload[1] == 0x4e && payload[2] == 0x53
        && payload[3] == 0x50
}

/// A discovery message.
pub fn make_message(kind: u8, id: u32) -> (bytes: [u8; 10])
    ensures
        bytes@ == message(kind, id),
{
    let n: [u8; 4] = bytes_of32(id);
    let bytes: [u8; 10] = [0x41, 0x4e, 0x53, 0x50, 1, kind, n[0], n[1], n[2], n[3]];
    assert(bytes@ =~= message(kind, id));
    bytes
}

impl Endpoints {
    /// What a packet means.
    pub fn meaning_of(&self, packet: &[u8]) -> (meaning: Meaning)
        requires
            self.inv(),
        ensures
            meaning == self@.meaning(packet@),
    {
        match parse_ipv4(packet) {
            Err(_) => Meaning::Invalid,
            Ok(d) => {
                if has_kind(d.payload, QUERY) {
                    Meaning::Query
                } else if !self.services.contains_key(d.destination) {
                    Meaning::Unbound
                } else if has_kind(d.payload, ADVERT) {
                    Meaning::Advert
                } else if reserved(d.payload) {
                    Meaning::Reserved
                } else {
                    Meaning::Delivery
                }
            },
        }
    }

    /// Counts a packet and says what it means.
    pub fn receive(&mut self, packet: &[u8]) -> (meaning: Meaning)
        requires
            old(self).inv(),
        ensures
            final(self).inv(),
            meaning == old(self)@.meaning(packet@),
            final(self)@ == old(self)@.noted(packet@),
    {
        let meaning = self.meaning_of(packet);
        match meaning {
            Meaning::Invalid => {
                self.stats.invalid = self.stats.invalid.wrapping_add(1);
            },
            Meaning::Unbound => {
                self.stats.received = self.stats.received.wrapping_add(1);
                self.stats.unbound = self.stats.unbound.wrapping_add(1);
            },
            _ => {
                self.stats.received = self.stats.received.wrapping_add(1);
            },
        }
        meaning
    }

    /// Whether service number `i` answers a query.
    pub fn answers(&self, i: usize, packet: &[u8]) -> (yes: bool)
        requires
            self.inv(),
            i < self@.services.len(),
            self@.meaning(packet@) is Query,
        ensures
            yes == self@.answers(i as int, packet@),
    {
        let (address, id): (SocketAddrV4, u32) = self.services.at(i);
        match parse_ipv4(packet) {
            Err(_) => false,
            Ok(d) => id == read32(d.payload, 6) && address.port == d.destination.port && (address
                == d.destination || d.destination.ip.is_broadcast()),
        }
    }

    /// Counts an answer that found no room.
    pub fn drop_answer(&mut self)
        requires
            old(self).inv(),
        ensures
            final(self).inv(),
            final(self)@ == old(self)@.answer_dropped(),
    {
        self.stats.response_drops = self.stats.response_drops.wrapping_add(1);
    }

    /// Queues the answer of service number `i` to a query in the frame that the device
    /// gave for it. Without a frame the answer is dropped; a frame that is too small is
    /// an error.
    pub fn offer(&mut self, i: usize, packet: &[u8], frame: Option<PacketBuf>) -> (r: Result<
        (),
        IoError,
    >)
        requires
            old(self).inv(),
            i < old(self)@.services.len(),
            old(self)@.meaning(packet@) is Query,
            old(self)@.answers(i as int, packet@),
            !old(self)@.full(),
            frame matches Some(buf) ==> buf.inv(),
        ensures
            final(self).inv(),
            ({
                let room = room_of(frame);
                if old(self)@.misfit(i as int, packet@, room) {
                    r == Err::<(), IoError>(IoError::DatagramTooLong) && final(self)@ == old(self)@
                } else {
                    r is Ok && final(self)@ == old(self)@.offered(i as int, packet@, room)
                }
            }),
    {
        if frame.is_none() {
            self.drop_answer();
            return Ok(());
        }
        let (address, id): (SocketAddrV4, u32) = self.services.at(i);
        match parse_ipv4(packet) {
            Err(_) => Ok(()),
            Ok(d) => {
                let payload: [u8; 10] = make_message(ADVERT, id);
                self.queue_datagram(frame, address, d.source, &payload)
            },
        }
    }

    /// Records the service that a packet advertises.
    pub fn learn(&mut self, packet: &[u8], now: Duration)
        requires
            old(self).inv(),
            old(self)@.meaning(packet@) is Advert,
            now@ <= old(self)@.now,
        ensures
            final(self).inv(),
            final(self)@ == old(self)@.learned(packet@, now),
    {
        let ghost before = *self;
        proof {
            lemma_count(self.peers.entries());
        }
        match parse_ipv4(packet) {
            Err(_) => {},
            Ok(d) => {
                if self.peers.len() < self.peer_capacity || self.peers.contains_key(d.source) {
                    let id: u32 = read32(d.payload, 6);
                    let peer = Peer {
                        service: Service { address: d.source, id },
                        last_seen: now,
                    };
                    self.peers.insert(d.source, peer);
                    proof {
                        lemma_count(self.peers.entries());
                        assert(self@ =~= before@.learned(packet@, now));
                        assert forall|a: SocketAddrV4| #[trigger] self@.peers.contains_key(a)
                            implies self@.peers[a].service.address == a
                            && self@.peers[a].last_seen@ <= self@.now by {
                            if a != d.source {
                                assert(before@.peers.contains_key(a));
                            }
                        }
                    }
                } else {
                    self.stats.peer_overflow = self.stats.peer_overflow.wrapping_add(1);
                }
            },
        }
    }

    /// Does with a received datagram what the application said.
    pub fn decide(&mut self, frame: PacketBuf, action: Action)
        requires
            old(self).inv(),
            frame.inv(),
            valid(frame@),
        ensures
            final(self).inv(),
            final(self)@ == old(self)@.decided(frame@, action),
    {
        match action {
            Action::Ignore => {},
            Action::Echo => {
                if self.tx.len() >= self.capacity {
                    self.drop_answer();
                    return;
                }
                let ghost p = frame@;
                let ghost me = responder_at(destination_of(p));
                let mut echo = frame;
                match parse_ipv4(echo.as_slice()) {
                    Err(_) => {},
                    Ok(d) => {
                        let responder = Responder {
                            ipv4: d.destination.ip.octets(),
                            mac: [0, 0, 0, 0, 0, 0],
                            udp_port: Some(d.destination.port),
                        };
                        proof {
                            lemma_responder(responder, destination_of(p), p);
                            assert(p.skip(0) =~= p);
                        }
                        let reply = responder.respond(&mut echo, LinkLayer::Ip);
                        assert(reply is Udp);
                        assert(echo@ =~= echo_of(p));
                        self.push(echo);
                    },
                }
            },
        }
    }
}

/// How much room a frame has, if there is one.
pub open spec fn room_of(frame: Option<PacketBuf>) -> Option<int> {
    match frame {
        None => None,
        Some(buf) => Some(buf.room()),
    }
}

/// A responder at the destination of a valid datagram echoes it.
proof fn lemma_responder(responder: Responder, endpoint: SocketAddrV4, p: Seq<u8>)
    requires
        valid(p),
        endpoint == destination_of(p),
        responder.ipv4@ == endpoint.ip@,
        responder.udp_port == Some(endpoint.port),
    ensures
        responder.ip_verdict(p) is Udp,
        responder.ip_answer(p) == echo_of(p),
{
    crate::net::responder::law_datagrams_are_echoed(responder, p);
    let me = responder_at(endpoint);
    assert(me.ipv4@ =~= endpoint.ip@);
    assert(me.bare_header(p) =~= responder.bare_header(p));
}

/// Whether a payload of `len` bytes makes a datagram that a frame with so much room
/// can hold.
pub open spec fn fits(len: nat, room: int) -> bool {
    len + HEADERS <= u16::MAX && len + HEADERS <= room
}

} // verus!
