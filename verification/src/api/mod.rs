//! Poll-based pools of IPv4 UDP endpoints over a device without link headers.
//!
//! A pool multiplexes many application addresses over one device. Queues are
//! bounded; `Blocked` means to retry after polling. This is best-effort UDP, not
//! reliable streams. What a pool does with what its device and its application
//! contribute is in [`endpoints`].
pub mod endpoints;
pub mod laws;

use vstd::prelude::*;

use crate::addr::SocketAddrV4;
use crate::device::free_list::least;
use crate::device::{sound, Device, PacketBuf};
use crate::error::IoError;
use crate::simulation::fabric::packets;
use crate::table::Key;
use crate::time::Duration;
use crate::transport::udp::{
    datagram, destination_of, parse_ipv4, payload_of, source_of, Datagram,
};

pub use endpoints::{Action, Peer, PoolStats, Service};
use endpoints::{
    fits, make_message, message, Endpoints, Meaning, PoolModel, Supply, MESSAGE, QUERY,
};

verus! {

/// What the outside contributes to one call of `poll`: what the device accepted, what
/// it received, and what the handling of each packet was supplied with.
pub struct Outside {
    pub flushed: Result<usize, IoError>,
    pub received: Result<Seq<Seq<u8>>, IoError>,
    pub supplies: Seq<Supply>,
}

impl PoolModel {
    /// Services answering a query change neither what is bound nor what a packet means.
    proof fn lemma_offered_keeps(self, p: Seq<u8>, rooms: Seq<Option<int>>, n: nat)
        ensures
            self.offered_all(p, rooms, n).services == self.services,
            self.offered_all(p, rooms, n).capacity == self.capacity,
            self.offered_all(p, rooms, n).meaning(p) == self.meaning(p),
            self.offered_all(p, rooms, n).now == self.now,
        decreases n,
    {
        if n > 0 {
            self.lemma_offered_keeps(p, rooms, (n - 1) as nat);
        }
    }

    /// The room for a later answer makes no difference to earlier ones.
    proof fn lemma_more_rooms(
        self,
        p: Seq<u8>,
        rooms: Seq<Option<int>>,
        more: Option<int>,
        n: nat,
    )
        requires
            n <= rooms.len(),
        ensures
            self.offered_all(p, rooms.push(more), n) == self.offered_all(p, rooms, n),
        decreases n,
    {
        if n > 0 {
            self.lemma_more_rooms(p, rooms, more, (n - 1) as nat);
        }
    }

    /// The pool after the first `n` packets were handled.
    pub open spec fn handled_all(
        self,
        ps: Seq<Seq<u8>>,
        now: Duration,
        supplies: Seq<Supply>,
        n: nat,
    ) -> PoolModel
        decreases n,
    {
        if n == 0 {
            self
        } else {
            self.handled_all(ps, now, supplies, (n - 1) as nat).handled(
                ps[n - 1],
                now,
                supplies[n - 1],
            )
        }
    }

    /// What becomes of a request to send a payload of `len` bytes, given how much room
    /// there is in the frame that the device gives, if it gives one.
    pub open spec fn sending(
        self,
        source: SocketAddrV4,
        len: nat,
        room: Option<int>,
    ) -> Result<(), IoError> {
        if !self.bound(source) {
            Err(IoError::SourceNotBound)
        } else if self.full() {
            Err(IoError::Blocked)
        } else {
            match room {
                None => Err(IoError::Blocked),
                Some(size) => if fits(len, size) {
                    Ok(())
                } else {
                    Err(IoError::DatagramTooLong)
                },
            }
        }
    }

    /// Whether the handling of packet `p` meets a frame that is too small.
    pub open spec fn breaks_on(self, p: Seq<u8>, supply: Supply) -> bool {
        self.meaning(p) is Query && self.noted(p).stuck(p, supply.rooms)
    }

    /// How answering query `p` ends: every service had its turn, or one of them met a
    /// frame that is too small, after those before it had theirs.
    pub open spec fn answering(
        self,
        p: Seq<u8>,
        rooms: Seq<Option<int>>,
        r: Result<(), IoError>,
        after: PoolModel,
    ) -> bool {
        match r {
            Ok(_) => {
                &&& rooms.len() == self.services.len()
                &&& !self.stuck(p, rooms)
                &&& after == self.offered_all(p, rooms, self.services.len())
            },
            Err(e) => {
                &&& e == IoError::DatagramTooLong
                &&& exists|i: nat|
                    {
                        &&& i < self.services.len()
                        &&& rooms.len() == i + 1
                        &&& after == #[trigger] self.offered_all(p, rooms, i)
                        &&& after.misfit(i as int, p, rooms[i as int])
                    }
            },
        }
    }

    /// Whether the first `n` packets are handled without meeting a frame that is too
    /// small.
    pub open spec fn smooth(
        self,
        ps: Seq<Seq<u8>>,
        now: Duration,
        supplies: Seq<Supply>,
        n: nat,
    ) -> bool {
        forall|i: nat|
            i < n ==> !(#[trigger] self.handled_all(ps, now, supplies, i)).breaks_on(
                ps[i as int],
                supplies[i as int],
            )
    }

    /// What a later packet is supplied with makes no difference to earlier ones.
    proof fn lemma_smooth(
        self,
        ps: Seq<Seq<u8>>,
        now: Duration,
        supplies: Seq<Supply>,
        more: Supply,
        n: nat,
    )
        requires
            n == supplies.len(),
            self.smooth(ps, now, supplies, n),
        ensures
            self.handled_all(ps, now, supplies.push(more), n) == self.handled_all(
                ps,
                now,
                supplies,
                n,
            ),
            self.smooth(ps, now, supplies.push(more), n),
    {
        self.lemma_more_supplies(ps, now, supplies, more, n);
        assert forall|i: nat| i < n implies !(#[trigger] self.handled_all(
            ps,
            now,
            supplies.push(more),
            i,
        )).breaks_on(ps[i as int], supplies.push(more)[i as int]) by {
            self.lemma_more_supplies(ps, now, supplies, more, i);
            assert(!self.handled_all(ps, now, supplies, i).breaks_on(
                ps[i as int],
                supplies[i as int],
            ));
        }
    }

    /// What a later packet is supplied with makes no difference to earlier ones.
    proof fn lemma_more_supplies(
        self,
        ps: Seq<Seq<u8>>,
        now: Duration,
        supplies: Seq<Supply>,
        more: Supply,
        n: nat,
    )
        requires
            n <= supplies.len(),
        ensures
            self.handled_all(ps, now, supplies.push(more), n) == self.handled_all(
                ps,
                now,
                supplies,
                n,
            ),
        decreases n,
    {
        if n > 0 {
            self.lemma_more_supplies(ps, now, supplies, more, (n - 1) as nat);
        }
    }

    /// How handling packets ends: all of them are handled, or one meets a frame that is
    /// too small and the rest is dropped.
    pub open spec fn handling(
        self,
        ps: Seq<Seq<u8>>,
        now: Duration,
        supplies: Seq<Supply>,
        r: Result<usize, IoError>,
        after: PoolModel,
    ) -> bool {
        match r {
            Ok(n) => {
                &&& n == ps.len()
                &&& n == supplies.len()
                &&& self.smooth(ps, now, supplies, n as nat)
                &&& after == self.handled_all(ps, now, supplies, n as nat)
            },
            Err(e) => {
                &&& e == IoError::DatagramTooLong
                &&& exists|k: nat|
                    {
                        let m = #[trigger] self.handled_all(ps, now, supplies, k);
                        let p = ps[k as int];
                        &&& k < ps.len()
                        &&& k < supplies.len()
                        &&& self.smooth(ps, now, supplies, k)
                        &&& m.meaning(p) is Query
                        &&& m.noted(p).answering(
                            p,
                            supplies[k as int].rooms,
                            Err(IoError::DatagramTooLong),
                            after,
                        )
                    }
            },
        }
    }

    /// What polling amounts to, given what the outside contributed.
    pub open spec fn polling(
        self,
        now: Duration,
        lease: nat,
        budget: nat,
        outside: Outside,
        r: Result<usize, IoError>,
        after: PoolModel,
    ) -> bool {
        let aged = self.expired(now@, lease);
        match outside.flushed {
            Err(e) => self.tx.len() > 0 && r == Err::<usize, IoError>(e) && after == aged,
            Ok(n) => n <= self.tx.len() && match outside.received {
                Err(e) => r == Err::<usize, IoError>(e) && after == aged.flushed(n as nat),
                Ok(ps) => ps.len() <= least(budget, self.capacity) && aged.flushed(
                    n as nat,
                ).handling(ps, now, outside.supplies, r, after),
            },
        }
    }
}

/// Whether the device goes from `from` to `to` while service number `i` has its turn at
/// query `p`: it is asked for a frame, if the service answers and the answer can wait,
/// and `room` is how much room there is in what it gives.
pub open spec fn serves<D: Device>(
    m: PoolModel,
    i: int,
    p: Seq<u8>,
    room: Option<int>,
    from: D,
    to: D,
) -> bool {
    if m.answers(i, p) && !m.full() {
        exists|frame: Option<PacketBuf>| #[trigger]
            from.gives(frame, &to) && room == endpoints::room_of(frame)
    } else {
        to == from
    }
}

/// Whether `steps` are what the device is between the turns of services at query `p`.
pub open spec fn drawn<D: Device>(
    m: PoolModel,
    p: Seq<u8>,
    rooms: Seq<Option<int>>,
    steps: Seq<D>,
) -> bool {
    &&& steps.len() == rooms.len() + 1
    &&& forall|i: int|
        0 <= i < rooms.len() ==> serves(
            m.offered_all(p, rooms, i as nat),
            i,
            p,
            rooms[i],
            #[trigger] steps[i],
            steps[i + 1],
        )
}

/// Whether the device goes from `from` to `to` while services have their turn at query
/// `p`, one for each of `rooms`.
pub open spec fn draws<D: Device>(
    m: PoolModel,
    p: Seq<u8>,
    rooms: Seq<Option<int>>,
    from: D,
    to: D,
) -> bool {
    exists|steps: Seq<D>|
        {
            &&& #[trigger] drawn(m, p, rooms, steps)
            &&& steps[0] == from
            &&& steps[rooms.len() as int] == to
        }
}

/// Another service has its turn.
proof fn lemma_drawn_more<D: Device>(
    m: PoolModel,
    p: Seq<u8>,
    rooms: Seq<Option<int>>,
    steps: Seq<D>,
    room: Option<int>,
    to: D,
)
    requires
        drawn(m, p, rooms, steps),
        serves(
            m.offered_all(p, rooms, rooms.len()),
            rooms.len() as int,
            p,
            room,
            steps[rooms.len() as int],
            to,
        ),
    ensures
        drawn(m, p, rooms.push(room), steps.push(to)),
{
    let all = rooms.push(room);
    let ends = steps.push(to);
    assert forall|i: int| 0 <= i < all.len() implies serves(
        m.offered_all(p, all, i as nat),
        i,
        p,
        all[i],
        #[trigger] ends[i],
        ends[i + 1],
    ) by {
        m.lemma_more_rooms(p, rooms, room, i as nat);
        if i < rooms.len() {
            assert(ends[i] == steps[i]);
            assert(ends[i + 1] == steps[i + 1]);
        }
    }
}

/// Whether the device goes from `from` to `to` while packet `p` is handled. A query is put
/// to every service, up to one that meets a frame that is too small.
pub open spec fn attends<D: Device>(
    m: PoolModel,
    p: Seq<u8>,
    rooms: Seq<Option<int>>,
    from: D,
    to: D,
) -> bool {
    if m.meaning(p) is Query {
        let n = rooms.len();
        &&& draws(m.noted(p), p, rooms, from, to)
        &&& n == m.services.len() || n > 0 && m.noted(p).offered_all(p, rooms, (n - 1) as nat).misfit(
            n - 1,
            p,
            rooms[n - 1],
        )
    } else {
        to == from
    }
}

/// Whether `steps` are what the device is between packets that are handled.
pub open spec fn followed<D: Device>(
    m: PoolModel,
    ps: Seq<Seq<u8>>,
    now: Duration,
    supplies: Seq<Supply>,
    steps: Seq<D>,
) -> bool {
    &&& steps.len() == supplies.len() + 1
    &&& forall|i: int|
        0 <= i < supplies.len() ==> attends(
            m.handled_all(ps, now, supplies, i as nat),
            ps[i],
            supplies[i].rooms,
            #[trigger] steps[i],
            steps[i + 1],
        )
}

/// Whether the device goes from `from` to `to` while packets are handled, one for each of
/// `supplies`.
pub open spec fn follows<D: Device>(
    m: PoolModel,
    ps: Seq<Seq<u8>>,
    now: Duration,
    supplies: Seq<Supply>,
    from: D,
    to: D,
) -> bool {
    exists|steps: Seq<D>|
        {
            &&& #[trigger] followed(m, ps, now, supplies, steps)
            &&& steps[0] == from
            &&& steps[supplies.len() as int] == to
        }
}

/// Another packet is handled.
proof fn lemma_followed_more<D: Device>(
    m: PoolModel,
    ps: Seq<Seq<u8>>,
    now: Duration,
    supplies: Seq<Supply>,
    steps: Seq<D>,
    supply: Supply,
    to: D,
)
    requires
        followed(m, ps, now, supplies, steps),
        attends(
            m.handled_all(ps, now, supplies, supplies.len()),
            ps[supplies.len() as int],
            supply.rooms,
            steps[supplies.len() as int],
            to,
        ),
    ensures
        followed(m, ps, now, supplies.push(supply), steps.push(to)),
{
    let all = supplies.push(supply);
    let ends = steps.push(to);
    assert forall|i: int| 0 <= i < all.len() implies attends(
        m.handled_all(ps, now, all, i as nat),
        ps[i],
        all[i].rooms,
        #[trigger] ends[i],
        ends[i + 1],
    ) by {
        m.lemma_more_supplies(ps, now, supplies, supply, i as nat);
        if i < supplies.len() {
            assert(ends[i] == steps[i]);
            assert(ends[i + 1] == steps[i + 1]);
        }
    }
}

/// Whether `r` is what becomes of a request to send a payload of `len` bytes, and the
/// device goes from `from` to `to`: it is asked for a frame, if the sender is bound and
/// the datagram can wait.
pub open spec fn asks<D: Device>(
    m: PoolModel,
    source: SocketAddrV4,
    len: nat,
    r: Result<(), IoError>,
    from: D,
    to: D,
) -> bool {
    if m.bound(source) && !m.full() {
        exists|frame: Option<PacketBuf>| #[trigger]
            from.gives(frame, &to) && r == m.sending(source, len, endpoints::room_of(frame))
    } else {
        r == m.sending(source, len, None) && to == from
    }
}

/// Whether the device was given everything that waits and answered `flushed`. Where
/// nothing waits, it is left alone.
pub open spec fn offers<D: Device>(
    m: PoolModel,
    flushed: Result<usize, IoError>,
    from: D,
    to: D,
) -> bool {
    if m.tx.len() > 0 {
        from.sends(m.tx, flushed, &to)
    } else {
        flushed is Ok && flushed->Ok_0 == 0 && to == from
    }
}

/// Whether the device was asked for up to `max` packets, and this is what came of it.
pub open spec fn fetches<D: Device>(
    max: nat,
    received: Result<Seq<Seq<u8>>, IoError>,
    from: D,
    to: D,
) -> bool {
    match received {
        Ok(ps) => from.receives(max, Ok(ps.len() as usize), ps, &to),
        Err(e) => exists|ps: Seq<Seq<u8>>| #[trigger] from.receives(max, Err(e), ps, &to),
    }
}

/// Whether the device goes from `from` to `to` while the pool polls, and what the outside
/// contributed came from it: it is given what waits, asked for as many packets as may be
/// handled, whether it took anything or not, and asked for frames to answer queries in.
pub open spec fn engages<D: Device>(
    m: PoolModel,
    now: Duration,
    lease: nat,
    budget: nat,
    outside: Outside,
    from: D,
    to: D,
) -> bool {
    match outside.flushed {
        Err(_) => offers(m, outside.flushed, from, to),
        Ok(n) => exists|sent: D, got: D|
            {
                &&& #[trigger] offers(m, outside.flushed, from, sent)
                &&& #[trigger] fetches(least(budget, m.capacity), outside.received, sent, got)
                &&& match outside.received {
                    Err(_) => to == got,
                    Ok(ps) => follows(
                        m.expired(now@, lease).flushed(n as nat),
                        ps,
                        now,
                        outside.supplies,
                        got,
                        to,
                    ),
                }
            },
    }
}

/// Whether `action` is what the application says to the datagram in `p`.
pub open spec fn said<F: FnMut(Datagram<'_>) -> Action>(
    handler: F,
    p: Seq<u8>,
    action: Action,
) -> bool {
    exists|d: Datagram<'_>| #[trigger]
        handler.ensures((d,), action) && d.source == source_of(p) && d.destination
            == destination_of(p) && d.payload@ == payload_of(p)
}

/// Whether the application was asked about each of the first `n` packets that are for
/// it, and its answers are what the packets were handled with.
pub open spec fn heeded<F: FnMut(Datagram<'_>) -> Action>(
    handler: F,
    m: PoolModel,
    ps: Seq<Seq<u8>>,
    now: Duration,
    supplies: Seq<Supply>,
    n: nat,
) -> bool {
    forall|i: nat|
        i < n && (#[trigger] m.handled_all(ps, now, supplies, i)).meaning(ps[i as int]) is Delivery
            ==> said(handler, ps[i as int], supplies[i as int].action)
}

/// Whether the application's answers are what polling went by.
pub open spec fn consulted<F: FnMut(Datagram<'_>) -> Action>(
    handler: F,
    m: PoolModel,
    now: Duration,
    lease: nat,
    outside: Outside,
) -> bool {
    outside.flushed is Ok && outside.received is Ok ==> heeded(
        handler,
        m.expired(now@, lease).flushed(outside.flushed->Ok_0 as nat),
        outside.received->Ok_0,
        now,
        outside.supplies,
        outside.supplies.len(),
    )
}

/// A pool of UDP endpoints on a device.
pub struct UdpPool<D> {
    device: D,
    endpoints: Endpoints,
}

impl<D: Device> UdpPool<D> {
    /// What the pool holds apart from its device.
    pub closed spec fn view(self) -> PoolModel {
        self.endpoints@
    }

    /// The device.
    pub closed spec fn device(self) -> D {
        self.device
    }

    /// The pool and its device are well-formed.
    pub closed spec fn inv(self) -> bool {
        self.device.inv() && self.endpoints.inv()
    }

    /// What the invariant says of the model.
    pub broadcast proof fn lemma_inv(self)
        requires
            #[trigger] self.inv(),
        ensures
            self@.wf(),
            self.device().inv(),
    {
        self.endpoints.lemma_inv();
    }

    /// A pool that can hold so many packets and so many peers.
    pub fn new(device: D, queue_capacity: usize, peer_capacity: usize) -> (r: Result<Self, IoError>)
        requires
            device.inv(),
        ensures
            r is Ok <==> queue_capacity > 0 && peer_capacity > 0,
            r matches Err(e) ==> e == IoError::ZeroCapacity,
            r matches Ok(pool) ==> pool.inv() && pool.device() == device && pool@ == (PoolModel {
                services: Seq::empty(),
                peers: Map::empty(),
                tx: Seq::empty(),
                capacity: queue_capacity as nat,
                peer_capacity: peer_capacity as nat,
                now: 0,
                stats: PoolStats::none(),
            }),
    {
        match Endpoints::new(queue_capacity, peer_capacity) {
            Err(e) => Err(e),
            Ok(endpoints) => Ok(UdpPool { device, endpoints }),
        }
    }

    /// Binds a service to its endpoint.
    pub fn bind(&mut self, service: Service) -> (r: Result<(), IoError>)
        requires
            old(self).inv(),
        ensures
            final(self).inv(),
            final(self).device() == old(self).device(),
            r == (if service.address.port == 0 || !service.address.ip.unicasts() {
                Err::<(), IoError>(IoError::BindAddress)
            } else if old(self)@.bound(service.address) {
                Err(IoError::EndpointBound)
            } else {
                Ok(())
            }),
            r is Err ==> final(self)@ == old(self)@,
            r is Ok ==> {
                &&& crate::table::entries_map(final(self)@.services)
                    == crate::table::entries_map(old(self)@.services).insert(
                    service.address,
                    service.id,
                )
                &&& final(self)@ == (PoolModel {
                    services: final(self)@.services,
                    ..old(self)@
                })
            },
    {
        self.endpoints.bind(service)
    }

    /// The peers that are known, in the order of their addresses.
    pub fn peers(&self) -> (list: Vec<Peer>)
        requires
            self.inv(),
        ensures
            list@.len() == self@.peers.len(),
            forall|i: int|
                0 <= i < list@.len() ==> self@.peers.contains_key(
                    (#[trigger] list@[i]).service.address,
                ) && self@.peers[list@[i].service.address] == list@[i],
            forall|i: int, j: int|
                0 <= i < j < list@.len() ==> (#[trigger] list@[i]).service.address.rank() < (
                #[trigger] list@[j]).service.address.rank(),
    {
        self.endpoints.peers()
    }

    /// What has happened.
    pub fn stats(&self) -> (stats: PoolStats)
        ensures
            stats == self@.stats,
    {
        self.endpoints.stats()
    }

    /// How many packets wait to be sent.
    pub fn pending(&self) -> (n: usize)
        ensures
            n == self@.tx.len(),
    {
        self.endpoints.pending()
    }

    /// The device.
    pub fn device_mut(&mut self) -> (device: &mut D)
        requires
            old(self).inv(),
        ensures
            *device == old(self).device(),
            final(self).device() == *final(device),
            final(self)@ == old(self)@,
            final(device).inv() ==> final(self).inv(),
    {
        &mut self.device
    }

    /// Queues a datagram. Success means queued, not delivered; on failure nothing is
    /// queued.
    pub fn send_to(
        &mut self,
        source: SocketAddrV4,
        destination: SocketAddrV4,
        payload: &[u8],
    ) -> (r: Result<(), IoError>)
        requires
            old(self).inv(),
        ensures
            final(self).inv(),
            asks(
                old(self)@,
                source,
                payload@.len(),
                r,
                old(self).device(),
                final(self).device(),
            ),
            r is Err ==> final(self)@ == old(self)@,
            r is Ok ==> final(self)@ == old(self)@.queued(
                datagram(
                    (source.ip@, source.port),
                    (destination.ip@, destination.port),
                    payload@,
                    0,
                ),
            ),
    {
        match self.endpoints.may_send(source) {
            Err(e) => Err(e),
            Ok(()) => {
                let frame = self.device.allocate();
                let ghost given = frame;
                let r = self.endpoints.queue_datagram(frame, source, destination, payload);
                proof {
                    let room = endpoints::room_of(given);
                    assert(old(self).device().gives(given, &self.device()));
                    assert(r == old(self)@.sending(source, payload@.len(), room));
                }
                r
            },
        }
    }

    /// Asks for a service at a unicast seed, or of all at `255.255.255.255`. Repeated
    /// queries keep leases alive. Nothing of this is authenticated.
    pub fn discover(
        &mut self,
        source: SocketAddrV4,
        seed: SocketAddrV4,
        service_id: u32,
    ) -> (r: Result<(), IoError>)
        requires
            old(self).inv(),
        ensures
            final(self).inv(),
            asks(
                old(self)@,
                source,
                MESSAGE as nat,
                r,
                old(self).device(),
                final(self).device(),
            ),
            r is Err ==> final(self)@ == old(self)@,
            r is Ok ==> final(self)@ == old(self)@.queued(
                datagram(
                    (source.ip@, source.port),
                    (seed.ip@, seed.port),
                    message(QUERY, service_id),
                    0,
                ),
            ),
    {
        let payload: [u8; 10] = make_message(QUERY, service_id);
        self.send_to(source, seed, &payload)
    }

    /// Hands the device what waits to be sent; what it does not accept keeps waiting.
    pub fn flush(&mut self) -> (r: Result<usize, IoError>)
        requires
            old(self).inv(),
        ensures
            final(self).inv(),
            old(self)@.tx.len() == 0 ==> r == Ok::<usize, IoError>(0) && *final(self) == *old(self),
            r matches Ok(n) ==> n <= old(self)@.tx.len() && final(self)@ == old(self)@.flushed(
                n as nat,
            ),
            r is Err ==> final(self)@ == old(self)@,
            old(self)@.tx.len() > 0 ==> old(self).device().sends(
                old(self)@.tx,
                r,
                &final(self).device(),
            ),
    {
        if self.endpoints.pending() == 0 {
            proof {
                assert(self@.tx.skip(0) =~= self@.tx);
                assert(self@ =~= self@.flushed(0));
            }
            return Ok(0);
        }
        let ghost before = self@;
        let frames = self.endpoints.waiting();
        let ghost given = frames@;
        let r = self.device.send(frames);
        match r {
            Err(e) => Err(e),
            Ok(n) => {
                proof {
                    assert(self.endpoints@.tx.skip(n as int) =~= before.tx.skip(n as int));
                }
                self.endpoints.forget_sent(n);
                Ok(n)
            },
        }
    }

    /// Lets every service that a query asks for answer it.
    fn answer_query(&mut self, packet: &[u8]) -> (r: Result<(), IoError>)
        requires
            old(self).inv(),
            old(self)@.meaning(packet@) is Query,
        ensures
            final(self).inv(),
            final(self)@.now == old(self)@.now,
            exists|rooms: Seq<Option<int>>| #[trigger]
                old(self)@.answering(packet@, rooms, r, final(self)@) && draws(
                    old(self)@,
                    packet@,
                    rooms,
                    old(self).device(),
                    final(self).device(),
                ),
    {
        let ghost m = self@;
        let ghost p = packet@;
        let ghost mut rooms: Seq<Option<int>> = Seq::empty();
        let ghost mut steps: Seq<D> = seq![self.device];
        let n: usize = self.endpoints.num_services();
        let mut i: usize = 0;
        while i < n
            invariant
                self.inv(),
                m == old(self)@,
                p == packet@,
                m.meaning(p) is Query,
                n == m.services.len(),
                i <= n,
                rooms.len() == i,
                self@ == m.offered_all(p, rooms, i as nat),
                drawn(m, p, rooms, steps),
                steps[0] == old(self).device,
                steps[i as int] == self.device,
                forall|j: nat|
                    j < i ==> !(#[trigger] m.offered_all(p, rooms, j)).misfit(
                        j as int,
                        p,
                        rooms[j as int],
                    ),
            decreases n - i,
        {
            let ghost told = rooms;
            let ghost before = self@;
            let ghost device = self.device;
            proof {
                m.lemma_offered_keeps(p, rooms, i as nat);
            }
            let mut room: Ghost<Option<int>> = Ghost(None);
            let mut failed: bool = false;
            if self.endpoints.answers(i, packet) {
                if self.endpoints.pending() >= self.endpoints.capacity() {
                    self.endpoints.drop_answer();
                } else {
                    let frame = self.device.allocate();
                    proof {
                        room@ = endpoints::room_of(frame);
                        assert(device.gives(frame, &self.device));
                    }
                    match self.endpoints.offer(i, packet, frame) {
                        Ok(()) => {},
                        Err(_) => {
                            failed = true;
                        },
                    }
                }
            }
            proof {
                rooms = told.push(room@);
                m.lemma_more_rooms(p, told, room@, i as nat);
                lemma_drawn_more(m, p, told, steps, room@, self.device);
                steps = steps.push(self.device);
                assert forall|j: nat| j < i implies !(#[trigger] m.offered_all(
                    p,
                    rooms,
                    j,
                )).misfit(j as int, p, rooms[j as int]) by {
                    m.lemma_more_rooms(p, told, room@, j);
                    assert(!m.offered_all(p, told, j).misfit(j as int, p, told[j as int]));
                }
            }
            if failed {
                proof {
                    let t = m.offered_all(p, rooms, i as nat);
                    m.lemma_offered_keeps(p, rooms, i as nat);
                    assert(t.misfit(i as int, p, rooms[i as int]));
                    assert(m.answering(p, rooms, Err(IoError::DatagramTooLong), self@));
                    assert(draws(m, p, rooms, old(self).device(), self.device()));
                }
                return Err(IoError::DatagramTooLong);
            }
            i += 1;
        }
        proof {
            m.lemma_offered_keeps(p, rooms, n as nat);
            assert(m.answering(p, rooms, Ok(()), self@));
            assert(draws(m, p, rooms, old(self).device(), self.device()));
        }
        Ok(())
    }

    /// Moves monotonic application time on, forgets peers whose lease is over, hands
    /// the device what waits, and handles at most `budget` packets. Answers go out on
    /// the next call. Packets are received even while sending is blocked. Payloads of
    /// the discovery protocol do not reach `handler`.
    pub fn poll<F: FnMut(Datagram<'_>) -> Action>(
        &mut self,
        now: Duration,
        lease: Duration,
        budget: usize,
        handler: F,
    ) -> (r: Result<usize, IoError>)
        requires
            old(self).inv(),
            forall|d: Datagram<'_>| handler.requires((d,)),
        ensures
            final(self).inv(),
            now@ < old(self)@.now ==> r == Err::<usize, IoError>(IoError::TimeBackwards)
                && *final(self) == *old(self),
            now@ >= old(self)@.now ==> exists|outside: Outside| #[trigger]
                old(self)@.polling(now, lease@, budget as nat, outside, r, final(self)@)
                    && consulted(handler, old(self)@, now, lease@, outside) && engages(
                    old(self)@,
                    now,
                    lease@,
                    budget as nat,
                    outside,
                    old(self).device(),
                    final(self).device(),
                ),
    {
        match self.endpoints.expire(now, lease) {
            Err(e) => {
                return Err(e);
            },
            Ok(()) => {},
        }
        let ghost aged = self@;
        let flushed = self.flush();
        let ghost sent = self.device;
        let ghost max = least(budget as nat, old(self)@.capacity);
        assert(offers(old(self)@, flushed, old(self).device(), sent));
        match flushed {
            Err(e) => {
                proof {
                    let o = Outside {
                        flushed,
                        received: Err(e),
                        supplies: Seq::empty(),
                    };
                    assert(old(self)@.polling(now, lease@, budget as nat, o, Err(e), self@));
                    assert(engages(
                        old(self)@,
                        now,
                        lease@,
                        budget as nat,
                        o,
                        old(self).device(),
                        self.device(),
                    ));
                }
                return Err(e);
            },
            Ok(_) => {},
        }
        let ghost m = self@;
        let limit: usize = if budget < self.endpoints.capacity() {
            budget
        } else {
            self.endpoints.capacity()
        };
        let mut rx: Vec<PacketBuf> = Vec::new();
        match self.device.recv(limit, &mut rx) {
            Err(e) => {
                proof {
                    let o = Outside { flushed, received: Err(e), supplies: Seq::empty() };
                    assert(old(self)@.polling(now, lease@, budget as nat, o, Err(e), self@));
                    assert(sent.receives(max, Err(e), packets(rx@), &self.device));
                    assert(fetches(max, o.received, sent, self.device));
                    assert(engages(
                        old(self)@,
                        now,
                        lease@,
                        budget as nat,
                        o,
                        old(self).device(),
                        self.device(),
                    ));
                }
                return Err(e);
            },
            Ok(_) => {},
        }
        let count: usize = rx.len();
        let ghost ps = packets(rx@);
        let ghost got = self.device;
        assert(fetches(max, Ok(ps), sent, got));
        let ghost mut steps: Seq<D> = seq![got];
        let ghost mut supplies: Seq<Supply> = Seq::empty();
        let mut ask = handler;
        let mut i: usize = 0;
        while i < count
            invariant
                self.inv(),
                now@ >= old(self)@.now,
                aged == old(self)@.expired(now@, lease@),
                flushed matches Ok(n) && n <= old(self)@.tx.len() && m == aged.flushed(n as nat),
                ps.len() <= least(budget as nat, old(self)@.capacity),
                count == ps.len(),
                rx@.len() == count,
                i <= count,
                supplies.len() == i,
                forall|d: Datagram<'_>| ask.requires((d,)),
                sound(rx@),
                forall|j: int| i <= j < count ==> (#[trigger] rx@[j])@ == ps[j],
                self@.now == now@,
                self@ == m.handled_all(ps, now, supplies, i as nat),
                m.smooth(ps, now, supplies, i as nat),
                offers(old(self)@, flushed, old(self).device(), sent),
                fetches(max, Ok(ps), sent, got),
                max == least(budget as nat, old(self)@.capacity),
                followed(m, ps, now, supplies, steps),
                steps[0] == got,
                steps[i as int] == self.device,
                ask == handler,
                heeded(handler, m, ps, now, supplies, i as nat),
            decreases count - i,
        {
            let mut frame = PacketBuf::default();
            std::mem::swap(&mut frame, &mut rx[i]);
            let ghost p = frame@;
            let ghost t = self@;
            let ghost told = supplies;
            let ghost device = self.device;
            let ghost mut supply = Supply { action: Action::Ignore, rooms: Seq::empty() };
            let meaning = self.endpoints.receive(frame.as_slice());
            let mut failed: bool = false;
            match meaning {
                Meaning::Query => {
                    let ghost noted = self@;
                    let r = self.answer_query(frame.as_slice());
                    proof {
                        let rooms = choose|rooms: Seq<Option<int>>| #[trigger]
                            noted.answering(p, rooms, r, self@) && draws(
                                noted,
                                p,
                                rooms,
                                device,
                                self.device(),
                            );
                        supply = Supply { action: Action::Ignore, rooms };
                    }
                    failed = r.is_err();
                },
                Meaning::Advert => {
                    self.endpoints.learn(frame.as_slice(), now);
                },
                Meaning::Delivery => {
                    match parse_ipv4(frame.as_slice()) {
                        Err(_) => {},
                        Ok(d) => {
                            let action = ask(d);
                            proof {
                                supply = Supply { action, rooms: Seq::empty() };
                                assert(said(handler, p, action));
                            }
                            self.endpoints.decide(frame, action);
                        },
                    }
                },
                _ => {},
            }
            proof {
                supplies = told.push(supply);
                m.lemma_smooth(ps, now, told, supply, i as nat);
                assert(attends(t, p, supply.rooms, device, self.device));
                lemma_followed_more(m, ps, now, told, steps, supply, self.device);
                steps = steps.push(self.device);
                assert forall|j: nat|
                    j < i + 1 && (#[trigger] m.handled_all(ps, now, supplies, j)).meaning(
                        ps[j as int],
                    ) is Delivery implies said(handler, ps[j as int], supplies[j as int].action) by {
                    m.lemma_more_supplies(ps, now, told, supply, j);
                    if j < i {
                        assert(m.handled_all(ps, now, told, j).meaning(ps[j as int]) is Delivery);
                    }
                }
            }
            if failed {
                proof {
                    let o = Outside { flushed, received: Ok(ps), supplies };
                    let e = IoError::DatagramTooLong;
                    assert(m.handled_all(ps, now, supplies, i as nat) == t);
                    assert(follows(m, ps, now, supplies, got, self.device));
                    assert(heeded(handler, m, ps, now, supplies, supplies.len()));
                    assert(consulted(handler, old(self)@, now, lease@, o));
                    assert(m.handling(ps, now, supplies, Err(e), self@));
                    assert(old(self)@.polling(now, lease@, budget as nat, o, Err(e), self@));
                    assert(engages(
                        old(self)@,
                        now,
                        lease@,
                        budget as nat,
                        o,
                        old(self).device(),
                        self.device(),
                    ));
                }
                return Err(IoError::DatagramTooLong);
            }
            i += 1;
        }
        proof {
            let o = Outside { flushed, received: Ok(ps), supplies };
            assert(m.handling(ps, now, supplies, Ok(count), self@));
            assert(follows(m, ps, now, supplies, got, self.device));
            assert(old(self)@.polling(now, lease@, budget as nat, o, Ok(count), self@));
            assert(engages(
                old(self)@,
                now,
                lease@,
                budget as nat,
                o,
                old(self).device(),
                self.device(),
            ));
        }
        Ok(count)
    }
}

} // verus!
