//! The fabric itself: ports, routes, and links with faults, all of it deterministic.
//! Unicast moves a frame without copying it; broadcast copies into the frames of
//! each recipient.
use vstd::prelude::*;

use super::order::{
    arrived, by_deadline, frames_sound, parcels, sort_by_deadline, Parcel, Pending,
};
use crate::addr::Ipv4Addr;
use crate::device::buffer_pool::{full_pool, Back, FramePool, PoolState};
use crate::device::free_list::least;
use crate::device::{sound, PacketBuf};
use crate::error::IoError;
use crate::table::{Edge, Table};
use crate::time::{capped_sum, Duration};

verus! {

broadcast use {PacketBuf::lemma_same_frame, Duration::lemma_none};

/// How large a frame of the fabric is.
pub const FRAME: usize = 2048;

/// The alignment of the frames.
pub const ALIGN: usize = 4096;

/// A directed link, changed live to reproduce partitions and healing.
#[derive(Clone, Copy, Debug)]
pub struct Link {
    pub delay: Duration,
    /// Further delay of every second packet, so that packets overtake each other.
    pub alternating_delay: Duration,
    /// Drops every so many accepted packets; zero drops none.
    pub drop_every: u64,
    pub partitioned: bool,
    /// Silently drops longer packets; zero means no limit.
    pub mtu: usize,
}

impl Link {
    /// A link without faults.
    pub open spec fn clear() -> Link {
        Link {
            delay: Duration::none(),
            alternating_delay: Duration::none(),
            drop_every: 0,
            partitioned: false,
            mtu: 0,
        }
    }

    /// Whether the link loses a packet of `len` bytes that is the `sequence`th.
    pub open spec fn loses(self, len: nat, sequence: u64) -> bool {
        ||| self.partitioned
        ||| self.mtu != 0 && len > self.mtu
        ||| self.drop_every != 0 && sequence % self.drop_every == 0
    }

    /// When a packet that is the `sequence`th and sent at `now` arrives.
    pub open spec fn arrival(self, now: nat, sequence: u64) -> nat {
        capped_sum(
            now,
            capped_sum(
                self.delay@,
                if sequence % 2 == 0 {
                    self.alternating_delay@
                } else {
                    0
                },
            ),
        )
    }
}

impl Default for Link {
    /// A link without faults.
    fn default() -> (link: Link)
        ensures
            link == Link::clear(),
    {
        Link {
            delay: Duration::zero(),
            alternating_delay: Duration::zero(),
            drop_every: 0,
            partitioned: false,
            mtu: 0,
        }
    }
}

/// What has happened on the fabric.
#[derive(Clone, Copy, Debug, PartialEq, Eq, Structural)]
pub struct FabricStats {
    pub delivered: u64,
    pub fault_drops: u64,
    pub queue_drops: u64,
    pub unroutable: u64,
    pub backpressure: u64,
}

impl FabricStats {
    /// Nothing has happened.
    pub open spec fn none() -> FabricStats {
        FabricStats { delivered: 0, fault_drops: 0, queue_drops: 0, unroutable: 0, backpressure: 0 }
    }
}

impl Default for FabricStats {
    /// Nothing has happened.
    fn default() -> (stats: FabricStats)
        ensures
            stats == FabricStats::none(),
    {
        FabricStats { delivered: 0, fault_drops: 0, queue_drops: 0, unroutable: 0, backpressure: 0 }
    }
}

/// What a port holds.
#[verifier::ext_equal]
pub struct PortState {
    pub pool: PoolState,
    pub queue: Seq<Parcel>,
    pub capacity: nat,
    pub active: bool,
}

/// What the fabric holds.
#[verifier::ext_equal]
pub struct FabricState {
    pub now: nat,
    pub ports: Seq<PortState>,
    pub routes: Map<Ipv4Addr, usize>,
    pub links: Map<Edge, (Link, u64)>,
    pub stats: FabricStats,
}

/// What becomes of a frame that is sent.
#[derive(Clone, Copy, Debug, PartialEq, Eq, Structural)]
pub enum Fate {
    /// It is no IPv4 packet that a frame of the fabric can hold.
    Refused,
    /// The recipient's queue is full; it can be tried again.
    Held,
    /// The fabric has it, whether it arrives or not.
    Taken,
}

/// The destination address of an IPv4 packet.
pub open spec fn destination(p: Seq<u8>) -> Ipv4Addr {
    Ipv4Addr { a: p[16], b: p[17], c: p[18], d: p[19] }
}

/// Whether the fabric carries packet `p`: an IPv4 packet that a frame can hold.
pub open spec fn carries(p: Seq<u8>) -> bool {
    p.len() >= 20 && p[0] / 16 == 4 && p.len() <= FRAME
}

/// Whether the fabric carries the packet in `frame`.
pub fn is_carried(frame: &PacketBuf) -> (yes: bool)
    requires
        frame.inv(),
    ensures
        yes == carries(frame@),
{
    let len: usize = frame.len();
    assert(frame@.len() == len);
    len >= 20 && frame.as_slice()[0] / 16 == 4 && len <= FRAME
}

/// Whether the fabric carries every packet in a queue.
pub open spec fn all_carried(q: Seq<Parcel>) -> bool {
    forall|k: int| 0 <= k < q.len() ==> carries((#[trigger] q[k]).packet)
}

impl FabricState {
    /// A fabric without ports, on which nothing has happened.
    pub open spec fn empty() -> FabricState {
        FabricState {
            now: 0,
            ports: Seq::empty(),
            routes: Map::empty(),
            links: Map::empty(),
            stats: FabricStats::none(),
        }
    }

    /// Every port is well-formed, only packets that are carried wait, and routes lead to active ports.
    pub open spec fn wf(self) -> bool {
        &&& self.now <= crate::time::MAX_NANOS
        &&& forall|i: int|
            0 <= i < self.ports.len() ==> (#[trigger] self.ports[i]).pool.wf()
                && self.ports[i].pool.frame_size == FRAME && self.ports[i].queue.len()
                <= self.ports[i].capacity
        &&& forall|i: int| 0 <= i < self.ports.len() ==> all_carried((#[trigger] self.ports[i]).queue)
        &&& forall|a: Ipv4Addr| #[trigger]
            self.routes.contains_key(a) ==> self.routes[a] < self.ports.len()
                && self.ports[self.routes[a] as int].active
    }

    /// What becomes of packet `p`.
    pub open spec fn fate(self, p: Seq<u8>) -> Fate {
        let to = destination(p);
        if !carries(p) {
            Fate::Refused
        } else if !to.broadcasts() && self.routes.contains_key(to) && self.full(self.routes[to]) {
            Fate::Held
        } else {
            Fate::Taken
        }
    }

    /// Whether the queue of port `id` is full.
    pub open spec fn full(self, id: usize) -> bool {
        self.ports[id as int].queue.len() == self.ports[id as int].capacity
    }

    /// The link from `from` to `to` and how many packets have crossed it.
    pub open spec fn edge(self, from: usize, to: usize) -> (Link, u64) {
        let e = Edge { from, to };
        if self.links.contains_key(e) {
            self.links[e]
        } else {
            (Link::clear(), 0)
        }
    }

    /// The number of the next packet on a link.
    pub open spec fn sequence(self, from: usize, to: usize) -> u64 {
        self.edge(from, to).1.wrapping_add(1)
    }

    /// Whether the next packet on a link is lost.
    pub open spec fn loses(self, from: usize, to: usize, len: nat) -> bool {
        self.edge(from, to).0.loses(len, self.sequence(from, to))
    }

    /// When the next packet on a link arrives.
    pub open spec fn arrival(self, from: usize, to: usize) -> nat {
        self.edge(from, to).0.arrival(self.now, self.sequence(from, to))
    }

    /// The fabric after a packet was counted on a link.
    pub open spec fn crossed(self, from: usize, to: usize) -> FabricState {
        FabricState {
            links: self.links.insert(
                (Edge { from, to }),
                (self.edge(from, to).0, self.sequence(from, to)),
            ),
            ..self
        }
    }

    /// The fabric with another state of port `id`.
    pub open spec fn with_port(self, id: usize, port: PortState) -> FabricState {
        FabricState { ports: self.ports.update(id as int, port), ..self }
    }

    /// The fabric with a parcel at the end of the queue of port `id`.
    pub open spec fn queued(self, id: usize, parcel: Parcel) -> FabricState {
        let port = self.ports[id as int];
        self.with_port(id, (PortState { queue: port.queue.push(parcel), ..port }))
    }

    /// The fabric after a fault lost a packet.
    pub open spec fn fault(self) -> FabricState {
        FabricState {
            stats: FabricStats {
                fault_drops: self.stats.fault_drops.wrapping_add(1),
                ..self.stats
            },
            ..self
        }
    }

    /// The fabric after a copy found no room.
    pub open spec fn overflow(self) -> FabricState {
        FabricState {
            stats: FabricStats {
                queue_drops: self.stats.queue_drops.wrapping_add(1),
                ..self.stats
            },
            ..self
        }
    }

    /// The fabric after a packet found no route.
    pub open spec fn lost(self) -> FabricState {
        FabricState {
            stats: FabricStats { unroutable: self.stats.unroutable.wrapping_add(1), ..self.stats },
            ..self
        }
    }

    /// The fabric after a sender was told to wait.
    pub open spec fn pushed_back(self) -> FabricState {
        FabricState {
            stats: FabricStats {
                backpressure: self.stats.backpressure.wrapping_add(1),
                ..self.stats
            },
            ..self
        }
    }

    /// The fabric after packet `p` went from port `from` to port `to`, which has room.
    pub open spec fn moved(self, from: usize, to: usize, p: Seq<u8>) -> FabricState {
        if self.loses(from, to, p.len()) {
            self.crossed(from, to).fault()
        } else {
            self.crossed(from, to).queued(to, (Parcel { at: self.arrival(from, to), packet: p }))
        }
    }

    /// The fabric after a frame of port `id` was taken for a copy.
    pub open spec fn frame_taken(self, id: usize) -> FabricState {
        let port = self.ports[id as int];
        self.with_port(
            id,
            (PortState { pool: port.pool.without(1).handed(port.pool.free.last()), ..port }),
        )
    }

    /// The fabric after a copy of the broadcast packet `p` of port `from` was made for
    /// port `to`, if it is another one and active. A copy needs room in the queue and
    /// a free frame.
    pub open spec fn copied(self, from: usize, to: usize, p: Seq<u8>) -> FabricState {
        if to == from || !self.ports[to as int].active {
            self
        } else if self.loses(from, to, p.len()) {
            self.crossed(from, to).fault()
        } else if self.full(to) || self.ports[to as int].pool.free.len() == 0 {
            self.crossed(from, to).overflow()
        } else {
            self.crossed(from, to).frame_taken(to).queued(
                to,
                (Parcel { at: self.arrival(from, to), packet: p }),
            )
        }
    }

    /// The fabric after copies for the first `n` ports.
    pub open spec fn spread(self, from: usize, n: nat, p: Seq<u8>) -> FabricState
        decreases n,
    {
        if n == 0 {
            self
        } else {
            self.spread(from, (n - 1) as nat, p).copied(from, (n - 1) as usize, p)
        }
    }

    /// The fabric after it took packet `p` from port `from`.
    pub open spec fn took(self, from: usize, p: Seq<u8>) -> FabricState {
        let to = destination(p);
        if to.broadcasts() {
            self.spread(from, self.ports.len(), p)
        } else if self.routes.contains_key(to) {
            self.moved(from, self.routes[to], p)
        } else {
            self.lost()
        }
    }

    /// How many packets port `id` receives when it asks for up to `max`.
    pub open spec fn ready(self, id: usize, max: nat) -> nat {
        least(max, arrived(by_deadline(self.ports[id as int].queue), self.now))
    }

    /// The fabric after port `id` received up to `max` packets.
    pub open spec fn received(self, id: usize, max: nat) -> FabricState {
        let port = self.ports[id as int];
        let n = self.ready(id, max);
        FabricState {
            stats: FabricStats {
                delivered: self.stats.delivered.wrapping_add(n as u64),
                ..self.stats
            },
            ..self.with_port(
                id,
                (PortState { queue: by_deadline(port.queue).skip(n as int), ..port }),
            )
        }
    }

    /// The fabric after port `id` was shut.
    pub open spec fn closed(self, id: usize) -> FabricState {
        let port = self.ports[id as int];
        FabricState {
            routes: Map::new(
                |a: Ipv4Addr| self.routes.contains_key(a) && self.routes[a] != id,
                |a: Ipv4Addr| self.routes[a],
            ),
            ..self.with_port(id, (PortState { queue: Seq::empty(), active: false, ..port }))
        }
    }

    /// The fabric after those of the ports `ids` that it has were shut, one by one.
    pub open spec fn all_closed(self, ids: Seq<usize>) -> FabricState
        decreases ids.len(),
    {
        if ids.len() == 0 {
            self
        } else if ids[0] < self.ports.len() {
            self.closed(ids[0]).all_closed(ids.skip(1))
        } else {
            self.all_closed(ids.skip(1))
        }
    }

    /// How many packets wait for port `id` or are on their way to it; none, where there
    /// is no such port.
    pub open spec fn waiting(self, id: usize) -> nat {
        if id < self.ports.len() {
            self.ports[id as int].queue.len()
        } else {
            0
        }
    }

    /// Whether `frame` is what port `id` gives when it is asked for an empty frame and
    /// `back` has come back to its pool, and the fabric is `after` then. Where there is no
    /// such port, there is no frame.
    pub open spec fn supplies(
        self,
        id: usize,
        back: Seq<Back>,
        frame: Option<PacketBuf>,
        after: FabricState,
    ) -> bool {
        if id < self.ports.len() {
            let port = self.ports[id as int];
            let pool = after.ports[id as int].pool;
            &&& port.pool.gives(back, frame, pool)
            &&& after == self.with_port(id, (PortState { pool, ..port }))
        } else {
            frame is None && after == self
        }
    }

    /// Whether `ps` are the packets that port `id` receives when it asks for up to `max`,
    /// and the fabric is `after` then. Where there is no such port, there are none.
    pub open spec fn hands_over(
        self,
        id: usize,
        max: nat,
        ps: Seq<Seq<u8>>,
        after: FabricState,
    ) -> bool {
        if id < self.ports.len() {
            &&& ps == contents(
                by_deadline(self.ports[id as int].queue).take(self.ready(id, max) as int),
            )
            &&& after == self.received(id, max)
        } else {
            ps.len() == 0 && after == self
        }
    }

    /// Whether `r` is the answer to port `id` when it sends `ps`, and the fabric is `after`
    /// then. Where there is no such port, nothing is taken.
    pub open spec fn accepts(
        self,
        id: usize,
        ps: Seq<Seq<u8>>,
        back: Seq<Seq<Seq<Back>>>,
        r: Result<usize, IoError>,
        after: FabricState,
    ) -> bool {
        if id < self.ports.len() {
            self.sending(id, ps, back, r, after)
        } else {
            &&& after == self
            &&& if ps.len() > 0 && !carries(ps[0]) {
                r == Err::<usize, IoError>(IoError::NotIpv4)
            } else {
                r is Ok && r->Ok_0 == 0
            }
        }
    }

    /// The fabric with another port.
    pub open spec fn opened(
        self,
        addresses: Seq<Ipv4Addr>,
        frames: nat,
        queue: nat,
    ) -> FabricState {
        FabricState {
            ports: self.ports.push(new_port(frames, queue)),
            routes: routed(self.routes, addresses, self.ports.len() as usize),
            ..self
        }
    }

    /// The fabric with another link between two ports, its sequence begun anew.
    pub open spec fn linked(self, from: usize, to: usize, link: Link) -> FabricState {
        FabricState { links: self.links.insert((Edge { from, to }), (link, 0)), ..self }
    }

    /// The fabric after time passed.
    pub open spec fn later(self, elapsed: nat) -> FabricState {
        FabricState { now: self.now + elapsed, ..self }
    }

    /// The fabric after frames came back to its pools.
    pub open spec fn settled(self, back: Seq<Seq<Back>>) -> FabricState {
        FabricState {
            ports: Seq::new(
                self.ports.len(),
                |i: int|
                    (PortState { pool: self.ports[i].pool.settled(back[i]), ..self.ports[i] }),
            ),
            ..self
        }
    }
}

impl FabricState {
    /// The fabric after it took the first `n` packets from port `from`, where frames
    /// came back to the pools before each of them.
    pub open spec fn sent(
        self,
        from: usize,
        ps: Seq<Seq<u8>>,
        back: Seq<Seq<Seq<Back>>>,
        n: nat,
    ) -> FabricState
        decreases n,
    {
        if n == 0 {
            self
        } else {
            self.sent(from, ps, back, (n - 1) as nat).settled(back[n - 1]).took(from, ps[n - 1])
        }
    }

    /// The fabric that packet number `n` meets.
    pub open spec fn facing(
        self,
        from: usize,
        ps: Seq<Seq<u8>>,
        back: Seq<Seq<Seq<Back>>>,
        n: nat,
    ) -> FabricState {
        self.sent(from, ps, back, n).settled(back[n as int])
    }

    /// Whether the fabric takes each of the first `n` packets.
    pub open spec fn all_taken(
        self,
        from: usize,
        ps: Seq<Seq<u8>>,
        back: Seq<Seq<Seq<Back>>>,
        n: nat,
    ) -> bool {
        forall|i: nat| i < n ==> (#[trigger] self.facing(from, ps, back, i)).fate(ps[i as int]) is Taken
    }

    /// What sending amounts to: how many packets are taken, why the next one is not,
    /// and what the fabric holds then.
    pub open spec fn sending(
        self,
        from: usize,
        ps: Seq<Seq<u8>>,
        back: Seq<Seq<Seq<Back>>>,
        r: Result<usize, IoError>,
        after: FabricState,
    ) -> bool {
        let n: nat = match r {
            Ok(n) => n as nat,
            Err(_) => 0,
        };
        let last = self.facing(from, ps, back, n);
        &&& n <= ps.len()
        &&& self.all_taken(from, ps, back, n)
        &&& n == ps.len() ==> r is Ok && after == self.sent(from, ps, back, n)
        &&& n < ps.len() ==> match last.fate(ps[n as int]) {
            Fate::Taken => false,
            Fate::Held => r is Ok && after == last.pushed_back(),
            Fate::Refused => after == last && if n == 0 {
                r == Err::<usize, IoError>(IoError::NotIpv4)
            } else {
                r is Ok
            },
        }
    }

    /// What comes back later changes nothing before.
    proof fn lemma_more_back(
        self,
        from: usize,
        ps: Seq<Seq<u8>>,
        back: Seq<Seq<Seq<Back>>>,
        more: Seq<Seq<Back>>,
        n: nat,
    )
        requires
            n <= back.len(),
        ensures
            self.sent(from, ps, back.push(more), n) == self.sent(from, ps, back, n),
        decreases n,
    {
        if n > 0 {
            self.lemma_more_back(from, ps, back, more, (n - 1) as nat);
        }
    }

    /// Packets that were taken stay taken.
    proof fn lemma_stopped(
        self,
        from: usize,
        ps: Seq<Seq<u8>>,
        told: Seq<Seq<Seq<Back>>>,
        back: Seq<Seq<Seq<Back>>>,
        n: nat,
    )
        requires
            told.len() == n,
            back.len() == n + 1,
            back.drop_last() == told,
            self.all_taken(from, ps, told, n),
        ensures
            self.all_taken(from, ps, back, n),
    {
        assert(back =~= told.push(back.last()));
        assert forall|i: nat| i < n implies (#[trigger] self.facing(from, ps, back, i)).fate(
            ps[i as int],
        ) is Taken by {
            self.lemma_more_back(from, ps, told, back.last(), i);
            assert(self.facing(from, ps, told, i).fate(ps[i as int]) is Taken);
        }
    }

    /// One more packet was taken.
    proof fn lemma_all_taken(
        self,
        from: usize,
        ps: Seq<Seq<u8>>,
        told: Seq<Seq<Seq<Back>>>,
        back: Seq<Seq<Seq<Back>>>,
        n: nat,
    )
        requires
            told.len() == n,
            back.len() == n + 1,
            back.drop_last() == told,
            self.all_taken(from, ps, told, n),
            self.facing(from, ps, back, n).fate(ps[n as int]) is Taken,
        ensures
            self.all_taken(from, ps, back, n + 1),
    {
        self.lemma_stopped(from, ps, told, back, n);
    }
}

/// The packets in buffers.
pub open spec fn packets(frames: Seq<PacketBuf>) -> Seq<Seq<u8>> {
    Seq::new(frames.len(), |i: int| frames[i]@)
}

/// The packets in parcels.
pub open spec fn contents(q: Seq<Parcel>) -> Seq<Seq<u8>> {
    Seq::new(q.len(), |i: int| q[i].packet)
}

/// Whether a port can be made: it has room, and its addresses are unicast and free.
pub open spec fn admissible(
    s: FabricState,
    addresses: Seq<Ipv4Addr>,
    frames: nat,
    queue: nat,
) -> bool {
    &&& frames > 0
    &&& queue > 0
    &&& addresses.len() > 0
    &&& forall|i: int|
        0 <= i < addresses.len() ==> (#[trigger] addresses[i]).unicasts()
            && !s.routes.contains_key(addresses[i])
}

/// The routes after each of the addresses was led to port `id`.
pub open spec fn routed(
    routes: Map<Ipv4Addr, usize>,
    addresses: Seq<Ipv4Addr>,
    id: usize,
) -> Map<Ipv4Addr, usize>
    decreases addresses.len(),
{
    if addresses.len() == 0 {
        routes
    } else {
        routed(routes, addresses.drop_last(), id).insert(addresses.last(), id)
    }
}

/// A new port: zeroed frames, all free, and an empty queue.
pub open spec fn new_port(frames: nat, queue: nat) -> PortState {
    PortState {
        pool: full_pool(frames, FRAME as nat),
        queue: Seq::empty(),
        capacity: queue,
        active: true,
    }
}

/// Sorting a queue brings nothing into it.
proof fn lemma_still_carried(q: Seq<Parcel>)
    requires
        all_carried(q),
    ensures
        all_carried(by_deadline(q)),
{
    broadcast use vstd::seq_lib::group_to_multiset_ensures;

    let sorted = by_deadline(q);
    super::order::law_arrivals_follow_deadlines(q);
    assert forall|k: int| 0 <= k < sorted.len() implies carries((#[trigger] sorted[k]).packet) by {
        assert(sorted.contains(sorted[k]));
        assert(sorted.to_multiset().contains(sorted[k]));
        assert(q.contains(sorted[k]));
        let j = choose|j: int| 0 <= j < q.len() && q[j] == sorted[k];
        assert(carries(q[j].packet));
    }
}

/// A port of the fabric.
struct Port {
    pool: FramePool,
    queue: Vec<Pending>,
    capacity: usize,
    active: bool,
}

impl Port {
    spec fn view(self) -> PortState {
        PortState {
            pool: self.pool@,
            queue: parcels(self.queue@),
            capacity: self.capacity as nat,
            active: self.active,
        }
    }

    spec fn inv(self) -> bool {
        &&& self.pool.inv()
        &&& self.pool@.frame_size == FRAME
        &&& frames_sound(self.queue@)
        &&& self.queue@.len() <= self.capacity
        &&& all_carried(parcels(self.queue@))
    }

    /// Moves up to `max` packets that have arrived by `now` into `out`.
    fn take_ready(&mut self, now: Duration, max: usize, out: &mut Vec<PacketBuf>) -> (n: usize)
        requires
            old(self).inv(),
            old(out)@.len() == 0,
        ensures
            final(self).inv(),
            sound(final(out)@),
            n == final(out)@.len(),
            ({
                let q = by_deadline(old(self)@.queue);
                &&& n == least(max as nat, arrived(q, now@))
                &&& packets(final(out)@) == contents(q.take(n as int))
                &&& final(self)@ == (PortState { queue: q.skip(n as int), ..old(self)@ })
            }),
    {
        let ghost q = by_deadline(parcels(self.queue@));
        let ghost before = self@;
        proof {
            super::order::law_arrivals_follow_deadlines(parcels(self.queue@));
            lemma_still_carried(parcels(self.queue@));
        }
        sort_by_deadline(&mut self.queue);
        let mut n: usize = 0;
        assert(q.skip(0) =~= q);
        assert(packets(out@) =~= contents(q.take(0)));
        proof {
            super::order::lemma_arrived(q, now@);
        }
        while n < max && self.queue.len() > 0 && self.queue[0].at.as_nanos() <= now.as_nanos()
            invariant
                self.inv(),
                all_carried(q),
                n <= max,
                n <= q.len(),
                n <= arrived(q, now@),
                arrived(q, now@) <= q.len(),
                forall|i: int| 0 <= i < arrived(q, now@) ==> (#[trigger] q[i]).at <= now@,
                arrived(q, now@) < q.len() ==> q[arrived(q, now@) as int].at > now@,
                out@.len() == n,
                sound(out@),
                parcels(self.queue@) == q.skip(n as int),
                packets(out@) == contents(q.take(n as int)),
                self@ == (PortState { queue: q.skip(n as int), ..before }),
            decreases max - n,
        {
            let ghost waiting = self.queue@;
            let ghost so_far = out@;
            proof {
                assert(parcels(waiting).len() == waiting.len());
                assert(q.skip(n as int)[0] == q[n as int]);
                assert(parcels(waiting)[0] == q[n as int]);
                assert(waiting[0].at@ == parcels(waiting)[0].at);
            }
            let Pending { at: _, frame } = self.queue.remove(0);
            out.push(frame);
            proof {
                assert(n < arrived(q, now@));
                assert(parcels(self.queue@) =~= q.skip(n + 1)) by {
                    assert forall|i: int| 0 <= i < self.queue@.len() implies parcels(
                        self.queue@,
                    )[i] == q.skip(n + 1)[i] by {
                        assert(self.queue@[i] == waiting[i + 1]);
                        assert(parcels(waiting)[i + 1] == q.skip(n as int)[i + 1]);
                    }
                }
                assert forall|i: int| 0 <= i < self.queue@.len() implies (
                #[trigger] self.queue@[i]).frame.inv() by {
                    assert(self.queue@[i] == waiting[i + 1]);
                }
                assert forall|i: int| 0 <= i < parcels(self.queue@).len() implies carries(
                    (#[trigger] parcels(self.queue@)[i]).packet,
                ) by {
                    assert(parcels(self.queue@)[i] == q[n + 1 + i]);
                }
                assert(packets(out@) =~= contents(q.take(n + 1))) by {
                    assert forall|i: int| 0 <= i < out@.len() implies packets(out@)[i] == contents(
                        q.take(n + 1),
                    )[i] by {
                        if i < n {
                            assert(packets(so_far)[i] == contents(q.take(n as int))[i]);
                        }
                    }
                }
            }
            n += 1;
        }
        proof {
            if n < max && self.queue@.len() > 0 {
                assert(parcels(self.queue@).len() == self.queue@.len());
                assert(q.skip(n as int)[0] == q[n as int]);
                assert(parcels(self.queue@)[0].at == self.queue@[0].at@);
            }
        }
        n
    }
}

/// A fabric of ports, routes, and links.
pub struct Fabric {
    now: Duration,
    ports: Vec<Port>,
    routes: Table<Ipv4Addr, usize>,
    links: Table<Edge, (Link, u64)>,
    stats: FabricStats,
}

impl Fabric {
    /// What the fabric holds.
    pub closed spec fn view(self) -> FabricState {
        FabricState {
            now: self.now@,
            ports: Seq::new(self.ports@.len(), |i: int| self.ports@[i]@),
            routes: self.routes@,
            links: self.links@,
            stats: self.stats,
        }
    }

    /// The fabric is well-formed, and so is every frame in it.
    pub closed spec fn inv(self) -> bool {
        &&& self@.wf()
        &&& self.routes.inv()
        &&& self.links.inv()
        &&& self.ports@.len() <= usize::MAX
        &&& forall|i: int| 0 <= i < self.ports@.len() ==> (#[trigger] self.ports@[i]).inv()
    }

    /// Whether `back` are the frames that the pool of port `id` finds returned when it
    /// looks.
    pub closed spec fn finds(self, id: int, back: Seq<Back>) -> bool {
        self.ports@[id].pool.finds(back)
    }

    /// Whether the pools of all ports find what they would have found before.
    pub open spec fn same_pools(self, before: Fabric) -> bool {
        forall|id: int, back: Seq<Back>|
            0 <= id < before@.ports.len() ==> #[trigger] self.finds(id, back) == before.finds(
                id,
                back,
            )
    }

    /// Keeping the pools twice is keeping them.
    proof fn lemma_pools_kept_twice(self, mid: Fabric, before: Fabric)
        requires
            self.same_pools(mid),
            mid.same_pools(before),
            mid@.ports.len() == before@.ports.len(),
        ensures
            self.same_pools(before),
    {
        assert forall|id: int, back: Seq<Back>| 0 <= id < before@.ports.len() implies
            #[trigger] self.finds(id, back) == before.finds(id, back) by {
            assert(self.finds(id, back) == mid.finds(id, back));
        }
    }

    /// Whether each of `back` is what the pools of all ports find returned at some time.
    pub open spec fn found(self, back: Seq<Seq<Back>>) -> bool {
        &&& back.len() == self@.ports.len()
        &&& forall|id: int| 0 <= id < back.len() ==> self.finds(id, #[trigger] back[id])
    }

    /// What the invariant says of the model.
    pub broadcast proof fn lemma_inv(self)
        requires
            #[trigger] self.inv(),
        ensures
            self@.wf(),
            self@.ports.len() <= usize::MAX,
    {
    }

    /// A fabric without ports.
    pub fn new() -> (fabric: Fabric)
        ensures
            fabric.inv(),
            fabric@ == FabricState::empty(),
    {
        let fabric = Fabric {
            now: Duration::zero(),
            ports: Vec::new(),
            routes: Table::new(),
            links: Table::new(),
            stats: FabricStats::default(),
        };
        assert(fabric@.ports =~= Seq::empty());
        fabric
    }

    /// A port for these addresses, with `frames` frames and room for `queue` packets,
    /// ready and delayed ones alike: its number.
    pub fn port(&mut self, addresses: &[Ipv4Addr], frames: usize, queue: usize) -> (r: Result<
        usize,
        IoError,
    >)
        requires
            old(self).inv(),
            old(self)@.ports.len() < usize::MAX,
            frames * FRAME + ALIGN - 1 <= isize::MAX,
        ensures
            final(self).inv(),
            r is Ok <==> admissible(old(self)@, addresses@, frames as nat, queue as nat),
            r matches Err(e) ==> e == IoError::PortSpec && final(self)@ == old(self)@,
            r matches Ok(id) ==> id == old(self)@.ports.len() && final(self)@ == old(self)@.opened(
                addresses@,
                frames as nat,
                queue as nat,
            ),
    {
        if frames == 0 || queue == 0 || addresses.len() == 0 {
            return Err(IoError::PortSpec);
        }
        let mut i: usize = 0;
        while i < addresses.len()
            invariant
                i <= addresses@.len(),
                self.inv(),
                self@ == old(self)@,
                forall|j: int|
                    0 <= j < i ==> (#[trigger] addresses@[j]).unicasts()
                        && !old(self)@.routes.contains_key(addresses@[j]),
            decreases addresses@.len() - i,
        {
            let a: Ipv4Addr = addresses[i];
            if a.is_unspecified() || a.is_broadcast() || a.is_multicast()
                || self.routes.contains_key(a) {
                assert(!(addresses@[i as int].unicasts() && !old(self)@.routes.contains_key(
                    addresses@[i as int],
                )));
                return Err(IoError::PortSpec);
            }
            i += 1;
        }
        let ghost before = self@;
        let id: usize = self.ports.len();
        assert(vstd::arithmetic::power2::is_pow2(ALIGN as int)) by {
            reveal_with_fuel(vstd::arithmetic::power2::is_pow2, 13);
        }
        let pool = FramePool::new(frames, FRAME, ALIGN);
        let port = Port { pool, queue: Vec::new(), capacity: queue, active: true };
        proof {
            assert(port@ =~= new_port(frames as nat, queue as nat));
        }
        self.ports.push(port);
        proof {
            let fresh_port = new_port(frames as nat, queue as nat);
            assert(before.wf());
            assert(self@.ports =~= before.ports.push(fresh_port));
            assert forall|i: int| 0 <= i < self@.ports.len() implies (
            #[trigger] self@.ports[i]).pool.wf() && self@.ports[i].pool.frame_size == FRAME
                && self@.ports[i].queue.len() <= self@.ports[i].capacity by {
                if i < before.ports.len() {
                    assert(self@.ports[i] == before.ports[i]);
                }
            }
            assert forall|a: Ipv4Addr| #[trigger] self@.routes.contains_key(a) implies self@.routes[a]
                < self@.ports.len() && self@.ports[self@.routes[a] as int].active by {
                assert(before.routes.contains_key(a));
            }
        }
        self.add_routes(addresses, id);
        Ok(id)
    }

    /// Leads each of the addresses to port `id`.
    fn add_routes(&mut self, addresses: &[Ipv4Addr], id: usize)
        requires
            old(self).inv(),
            id < old(self)@.ports.len(),
            old(self)@.ports[id as int].active,
        ensures
            final(self).inv(),
            final(self)@ == (FabricState {
                routes: routed(old(self)@.routes, addresses@, id),
                ..old(self)@
            }),
    {
        let ghost before = self@;
        let mut i: usize = 0;
        assert(addresses@.take(0) =~= Seq::<Ipv4Addr>::empty());
        while i < addresses.len()
            invariant
                i <= addresses@.len(),
                self.inv(),
                id < before.ports.len(),
                before.ports[id as int].active,
                self@ == (FabricState {
                    routes: routed(before.routes, addresses@.take(i as int), id),
                    ..before
                }),
            decreases addresses@.len() - i,
        {
            let ghost so_far = self@;
            self.routes.insert(addresses[i], id);
            proof {
                let next = addresses@.take(i + 1);
                assert(next.drop_last() =~= addresses@.take(i as int));
                assert(next.last() == addresses@[i as int]);
                assert(self@.ports =~= so_far.ports);
                assert(self@ =~= FabricState {
                    routes: routed(before.routes, next, id),
                    ..before
                });
                assert forall|a: Ipv4Addr| #[trigger] self@.routes.contains_key(a) implies
                    self@.routes[a] < self@.ports.len()
                    && self@.ports[self@.routes[a] as int].active by {
                    if a != addresses@[i as int] {
                        assert(so_far.routes.contains_key(a));
                    }
                }
            }
            i += 1;
        }
        assert(addresses@.take(addresses@.len() as int) =~= addresses@);
    }

    /// Changes the link from one port to another and starts its fault sequence anew.
    /// Packets that are on their way keep their time of arrival.
    pub fn set_link(&mut self, from: usize, to: usize, link: Link)
        requires
            old(self).inv(),
        ensures
            final(self).inv(),
            final(self)@ == old(self)@.linked(from, to, link),
    {
        let ghost before = self@;
        self.links.insert(Edge { from, to }, (link, 0));
        proof {
            assert(before.wf());
            assert(self@.ports =~= before.ports);
            assert forall|a: Ipv4Addr| #[trigger] self@.routes.contains_key(a) implies self@.routes[a]
                < self@.ports.len() && self@.ports[self@.routes[a] as int].active by {
                assert(before.routes.contains_key(a));
            }
        }
    }

    /// Lets time pass.
    pub fn advance(&mut self, elapsed: Duration) -> (r: Result<(), IoError>)
        requires
            old(self).inv(),
        ensures
            final(self).inv(),
            r is Ok <==> old(self)@.now + elapsed@ <= crate::time::MAX_NANOS,
            r matches Err(e) ==> e == IoError::ClockOverflow && final(self)@ == old(self)@,
            r is Ok ==> final(self)@ == old(self)@.later(elapsed@),
    {
        let ghost before = self@;
        match self.now.checked_add(elapsed) {
            None => Err(IoError::ClockOverflow),
            Some(now) => {
                self.now = now;
                proof {
                    assert(before.wf());
                    assert(self@.ports =~= before.ports);
                    assert forall|a: Ipv4Addr| #[trigger] self@.routes.contains_key(a) implies self@.routes[a]
                        < self@.ports.len() && self@.ports[self@.routes[a] as int].active by {
                        assert(before.routes.contains_key(a));
                    }
                }
                Ok(())
            },
        }
    }

    /// What time it is.
    pub fn now(&self) -> (now: Duration)
        ensures
            now@ == self@.now,
    {
        self.now
    }

    /// What has happened.
    pub fn stats(&self) -> (stats: FabricStats)
        ensures
            stats == self@.stats,
    {
        self.stats
    }

    /// How many ports there have been.
    pub fn num_ports(&self) -> (n: usize)
        ensures
            n == self@.ports.len(),
    {
        self.ports.len()
    }

    /// How many packets wait at port `id` or are on their way to it.
    pub fn queued(&self, id: usize) -> (n: usize)
        requires
            id < self@.ports.len(),
        ensures
            n == self@.ports[id as int].queue.len(),
    {
        self.ports[id].queue.len()
    }

    /// The model after one port changed.
    proof fn lemma_one_port(self, before: Fabric, id: usize)
        requires
            before.inv(),
            id < before.ports@.len(),
            self.ports@.len() == before.ports@.len(),
            self.ports@[id as int].inv(),
            self.ports@ == before.ports@.update(id as int, self.ports@[id as int]),
            self.now == before.now,
            self.routes == before.routes,
            self.links.inv(),
            before.ports@[id as int].active ==> self.ports@[id as int].active,
        ensures
            self.inv(),
            self@ == (FabricState {
                links: self.links@,
                stats: self.stats,
                ..before@.with_port(id, self.ports@[id as int]@)
            }),
    {
        assert(self@.ports =~= before@.ports.update(id as int, self.ports@[id as int]@));
        assert forall|i: int| 0 <= i < self.ports@.len() implies (
        #[trigger] self.ports@[i]).inv() by {
            if i != id {
                assert(self.ports@[i] == before.ports@[i]);
            }
        }
        assert forall|i: int| 0 <= i < self@.ports.len() implies (
        #[trigger] self@.ports[i]).pool.wf() && self@.ports[i].pool.frame_size == FRAME
            && self@.ports[i].queue.len() <= self@.ports[i].capacity by {
            self.ports@[i].pool.lemma_inv();
        }
        assert forall|a: Ipv4Addr| #[trigger] self@.routes.contains_key(a) implies self@.routes[a]
            < self@.ports.len() && self@.ports[self@.routes[a] as int].active by {
            assert(before@.routes.contains_key(a));
        }
    }

    /// Shuts port `id`: what waits there is lost, and its addresses become free.
    pub fn close(&mut self, id: usize)
        requires
            old(self).inv(),
            id < old(self)@.ports.len(),
        ensures
            final(self).inv(),
            final(self)@ == old(self)@.closed(id),
    {
        let ghost before = *self;
        let ghost p = |entry: (Ipv4Addr, usize)| entry.1 != id;
        let ghost entries = self.routes.entries();
        let keep = |a: Ipv4Addr, to: usize| -> (b: bool)
            ensures
                b == (to != id),
            { to != id };
        self.routes.retain(keep, Ghost(p));
        let port = &mut self.ports[id];
        port.active = false;
        port.queue = Vec::new();
        proof {
            crate::table::lemma_kept(entries, p);
            assert(self.routes@ =~= before@.closed(id).routes);
            assert(self.ports@[id as int]@ =~= (PortState {
                queue: Seq::empty(),
                active: false,
                ..before@.ports[id as int]
            }));
            assert(self@.ports =~= before@.closed(id).ports);
            assert forall|i: int| 0 <= i < self.ports@.len() implies (
            #[trigger] self.ports@[i]).inv() by {
                if i != id {
                    assert(self.ports@[i] == before.ports@[i]);
                } else {
                    assert(before.ports@[i].inv());
                }
            }
            assert forall|i: int| 0 <= i < self@.ports.len() implies (
            #[trigger] self@.ports[i]).pool.wf() && self@.ports[i].pool.frame_size == FRAME
                && self@.ports[i].queue.len() <= self@.ports[i].capacity by {
                self.ports@[i].pool.lemma_inv();
            }
            assert forall|a: Ipv4Addr| #[trigger] self@.routes.contains_key(a) implies
                self@.routes[a] < self@.ports.len()
                && self@.ports[self@.routes[a] as int].active by {
                assert(before@.routes.contains_key(a));
            }
        }
    }

    /// An empty frame of port `id`, if one is free.
    pub fn allocate(&mut self, id: usize) -> (frame: Option<PacketBuf>)
        requires
            old(self).inv(),
            id < old(self)@.ports.len(),
        ensures
            final(self).inv(),
            final(self).same_pools(*old(self)),
            exists|back: Seq<Back>|
                old(self).finds(id as int, back) && #[trigger] old(self)@.supplies(
                    id,
                    back,
                    frame,
                    final(self)@,
                ),
            old(self)@.ports[id as int].pool.free.len() > 0 ==> frame is Some,
            frame matches Some(buf) ==> buf.inv() && buf.live() && buf.size() == 0
                && buf.frame().len() == FRAME,
    {
        let ghost before = *self;
        assert(before.ports@[id as int].inv());
        let port = &mut self.ports[id];
        port.pool.reclaim();
        let ghost reclaimed = port.pool;
        let ghost pool = port.pool@;
        proof {
            port.pool.lemma_inv();
            if pool.free.len() > 0 {
                assert(pool.free[pool.free.len() - 1] < pool.slots.len());
                assert(pool.slots[pool.free.last() as int] is Some);
            }
        }
        let frame = port.pool.take(0);
        proof {
            let back = choose|back: Seq<Back>|
                before.ports@[id as int].pool.finds(back) && pool
                    == #[trigger] before.ports@[id as int].pool@.settled(back);
            assert(before@.ports[id as int].pool.settled(back) == pool);
            reclaimed.lemma_same_finds(before.ports@[id as int].pool);
            self.ports@[id as int].pool.lemma_same_finds(reclaimed);
            assert forall|i: int, b: Seq<Back>| 0 <= i < before@.ports.len() implies
                #[trigger] self.finds(i, b) == before.finds(i, b) by {
                assert(self.ports@[i].pool.finds(b) == before.ports@[i].pool.finds(b));
            }
            assert(self.ports@[id as int].queue == before.ports@[id as int].queue);
            self.lemma_one_port(before, id);
            before.ports@[id as int].pool.lemma_inv();
            assert(pool.taken(0) == pool);
            assert(before@.supplies(id, back, frame, self@));
        }
        frame
    }

    /// Receives up to `max` packets that have arrived at port `id`, in the order of
    /// their arrival.
    pub fn recv(&mut self, id: usize, max: usize, out: &mut Vec<PacketBuf>) -> (n: usize)
        requires
            old(self).inv(),
            id < old(self)@.ports.len(),
        ensures
            final(self).inv(),
            sound(final(out)@),
            n == final(out)@.len(),
            n == old(self)@.ready(id, max as nat),
            packets(final(out)@) == contents(
                by_deadline(old(self)@.ports[id as int].queue).take(n as int),
            ),
            final(self)@ == old(self)@.received(id, max as nat),
            forall|i: int| 0 <= i < n ==> carries((#[trigger] final(out)@[i])@),
    {
        out.clear();
        let ghost before = *self;
        assert(before.ports@[id as int].inv());
        let now = self.now;
        let port = &mut self.ports[id];
        let n: usize = port.take_ready(now, max, out);
        self.stats.delivered = self.stats.delivered.wrapping_add(n as u64);
        proof {
            self.lemma_one_port(before, id);
            let q = by_deadline(before@.ports[id as int].queue);
            lemma_still_carried(before@.ports[id as int].queue);
            super::order::lemma_arrived(q, before@.now);
            assert forall|i: int| 0 <= i < n implies carries((#[trigger] out@[i])@) by {
                assert(packets(out@)[i] == contents(q.take(n as int))[i]);
                assert(q.take(n as int)[i] == q[i]);
            }
        }
        n
    }

    /// Counts a packet of `len` bytes on a link: whether it is lost, and when it
    /// arrives.
    fn cross(&mut self, from: usize, to: usize, len: usize) -> (r: (bool, Duration))
        requires
            old(self).inv(),
        ensures
            final(self).inv(),
            final(self)@ == old(self)@.crossed(from, to),
            final(self).same_pools(*old(self)),
            r.0 == old(self)@.loses(from, to, len as nat),
            r.1@ == old(self)@.arrival(from, to),
    {
        let ghost before = self@;
        let edge = Edge { from, to };
        let (link, count): (Link, u64) = match self.links.get(edge) {
            Some(found) => found,
            None => (Link::default(), 0),
        };
        let sequence: u64 = count.wrapping_add(1);
        self.links.insert(edge, (link, sequence));
        let lost: bool = link.partitioned || (link.mtu != 0 && len > link.mtu) || (link.drop_every
            != 0 && sequence % link.drop_every == 0);
        let extra = if sequence % 2 == 0 {
            link.alternating_delay
        } else {
            Duration::zero()
        };
        let at = self.now.saturating_add(link.delay.saturating_add(extra));
        assert(self@.ports =~= before.ports);
        assert(self@ =~= before.crossed(from, to));
        (lost, at)
    }

    /// Puts a frame at the end of the queue of port `to`, which has room.
    fn enqueue(&mut self, to: usize, at: Duration, frame: PacketBuf)
        requires
            old(self).inv(),
            to < old(self)@.ports.len(),
            !old(self)@.full(to),
            frame.inv(),
            carries(frame@),
        ensures
            final(self).inv(),
            final(self)@ == old(self)@.queued(to, (Parcel { at: at@, packet: frame@ })),
            final(self).same_pools(*old(self)),
    {
        let ghost before = *self;
        let ghost parcel = Parcel { at: at@, packet: frame@ };
        assert(before.ports@[to as int].inv());
        assert(before@.ports[to as int] == before.ports@[to as int]@);
        let port = &mut self.ports[to];
        let ghost waiting = port.queue@;
        port.queue.push(Pending { at, frame });
        proof {
            assert(parcels(port.queue@) =~= parcels(waiting).push(parcel));
        }
        proof {
            self.lemma_one_port(before, to);
            assert(self@ =~= before@.queued(to, parcel));
        }
    }

    /// Makes a copy of a broadcast packet for port `to`.
    fn copy_to(&mut self, from: usize, to: usize, packet: &[u8])
        requires
            old(self).inv(),
            to < old(self)@.ports.len(),
            carries(packet@),
        ensures
            final(self).inv(),
            final(self)@ == old(self)@.copied(from, to, packet@),
            final(self).same_pools(*old(self)),
    {
        let ghost start = self@;
        if to == from || !self.ports[to].active {
            return;
        }
        let ghost first = *self;
        let (lost, at) = self.cross(from, to, packet.len());
        let ghost before = *self;
        if lost {
            self.stats.fault_drops = self.stats.fault_drops.wrapping_add(1);
            proof {
                assert(self@.ports =~= before@.ports);
                assert(self.same_pools(before));
                self.lemma_pools_kept_twice(before, first);
            }
            return;
        }
        assert(before.ports@[to as int].inv());
        assert(before@.ports[to as int] == before.ports@[to as int]@);
        let port = &mut self.ports[to];
        if port.queue.len() == port.capacity || port.pool.free_now() == 0 {
            self.stats.queue_drops = self.stats.queue_drops.wrapping_add(1);
            proof {
                assert(self@.ports =~= before@.ports);
                assert(self.same_pools(before));
                self.lemma_pools_kept_twice(before, first);
            }
            return;
        }
        proof {
            port.pool.lemma_inv();
            let pool = port.pool@;
            assert(pool.free[pool.free.len() - 1] < pool.slots.len());
            assert(pool.slots[pool.free.last() as int] is Some);
        }
        let taken = port.pool.take(0);
        proof {
            self.lemma_one_port(before, to);
            assert(self@ =~= before@.frame_taken(to));
            self.ports@[to as int].pool.lemma_same_finds(before.ports@[to as int].pool);
            assert(self.same_pools(before)) by {
                assert forall|i: int, b: Seq<Back>| 0 <= i < before@.ports.len() implies
                    #[trigger] self.finds(i, b) == before.finds(i, b) by {
                    assert(self.ports@[i].pool.finds(b) == before.ports@[i].pool.finds(b));
                }
            }
            self.lemma_pools_kept_twice(before, first);
        }
        let ghost ready = *self;
        match taken {
            None => {},
            Some(mut copy) => {
                copy.set_headroom(0);
                copy.set_len(packet.len());
                crate::bytes::put_run(copy.as_mut_packet(), 0, packet);
                assert(copy@ =~= packet@);
                self.enqueue(to, at, copy);
                proof {
                    self.lemma_pools_kept_twice(ready, first);
                }
            },
        }
    }

    /// Takes a frame from port `from`, if it is an IPv4 packet and its recipient has
    /// room. What is taken leaves an empty slot; what is not stays as it was. Frames
    /// that were returned and not yet looked for do not count as free.
    pub fn transmit(&mut self, from: usize, frame: &mut PacketBuf) -> (fate: Fate)
        requires
            old(self).inv(),
            from < old(self)@.ports.len(),
            old(frame).inv(),
        ensures
            final(self).inv(),
            final(self)@.ports.len() == old(self)@.ports.len(),
            final(self).same_pools(*old(self)),
            fate == old(self)@.fate(old(frame)@),
            fate is Taken ==> final(self)@ == old(self)@.took(from, old(frame)@)
                && final(frame).vacant() && final(frame).inv(),
            fate is Held ==> final(self)@ == old(self)@.pushed_back() && *final(frame) == *old(
                frame,
            ),
            fate is Refused ==> final(self)@ == old(self)@ && *final(frame) == *old(frame),
    {
        let ghost start = *self;
        let ghost p = frame@;
        if !is_carried(frame) {
            return Fate::Refused;
        }
        let len: usize = frame.len();
        let packet: &[u8] = frame.as_slice();
        let to = Ipv4Addr::new(packet[16], packet[17], packet[18], packet[19]);
        if to.is_broadcast() {
            let n: usize = self.ports.len();
            let mut target: usize = 0;
            while target < n
                invariant
                    self.inv(),
                    start.inv(),
                    target <= n,
                    n == start@.ports.len(),
                    n == self@.ports.len(),
                    packet@ == p,
                    carries(p),
                    self@ == start@.spread(from, target as nat, p),
                    self.same_pools(start),
                decreases n - target,
            {
                let ghost mid = *self;
                self.copy_to(from, target, packet);
                proof {
                    self.lemma_pools_kept_twice(mid, start);
                }
                target += 1;
            }
            *frame = PacketBuf::default();
            return Fate::Taken;
        }
        match self.routes.get(to) {
            None => {
                self.stats.unroutable = self.stats.unroutable.wrapping_add(1);
                assert(self@.ports =~= start@.ports);
                assert(self.same_pools(start));
                *frame = PacketBuf::default();
                Fate::Taken
            },
            Some(target) => {
                assert(start@.routes.contains_key(to));
                assert(start@.ports[target as int] == start.ports@[target as int]@);
                if self.ports[target].queue.len() == self.ports[target].capacity {
                    self.stats.backpressure = self.stats.backpressure.wrapping_add(1);
                    assert(self@.ports =~= start@.ports);
                    assert(self.same_pools(start));
                    return Fate::Held;
                }
                let (lost, at) = self.cross(from, target, len);
                let ghost mid = *self;
                if lost {
                    self.stats.fault_drops = self.stats.fault_drops.wrapping_add(1);
                    assert(self@.ports =~= mid@.ports);
                    assert(self.same_pools(mid));
                    *frame = PacketBuf::default();
                } else {
                    let mut moved = PacketBuf::default();
                    std::mem::swap(&mut moved, frame);
                    self.enqueue(target, at, moved);
                }
                proof {
                    self.lemma_pools_kept_twice(mid, start);
                }
                Fate::Taken
            },
        }
    }

    /// Takes back the frames that were returned to the pools of all ports.
    pub fn settle(&mut self)
        requires
            old(self).inv(),
        ensures
            final(self).inv(),
            exists|back: Seq<Seq<Back>>|
                old(self).found(back) && final(self)@ == #[trigger] old(self)@.settled(back),
            final(self)@.ports.len() == old(self)@.ports.len(),
            final(self).same_pools(*old(self)),
    {
        let ghost start = *self;
        let ghost mut back: Seq<Seq<Back>> = Seq::empty();
        let mut i: usize = 0;
        while i < self.ports.len()
            invariant
                self.inv(),
                start.inv(),
                i <= self.ports@.len(),
                self.ports@.len() == start.ports@.len(),
                back.len() == i,
                self.same_pools(start),
                forall|j: int| 0 <= j < i ==> start.finds(j, #[trigger] back[j]),
                self@ == (FabricState { ports: self@.ports, ..start@ }),
                forall|j: int|
                    0 <= j < i ==> #[trigger] self@.ports[j] == (PortState {
                        pool: start@.ports[j].pool.settled(back[j]),
                        ..start@.ports[j]
                    }),
                forall|j: int|
                    i <= j < start@.ports.len() ==> #[trigger] self@.ports[j] == start@.ports[j],
            decreases self.ports@.len() - i,
        {
            let ghost before = *self;
            assert(before.ports@[i as int].inv());
            assert(before@.ports[i as int] == before.ports@[i as int]@);
            let port = &mut self.ports[i];
            let ghost pool = port.pool@;
            port.pool.reclaim();
            proof {
                let b = choose|b: Seq<Back>|
                    before.ports@[i as int].pool.finds(b) && port.pool@ == #[trigger] pool.settled(
                        b,
                    );
                assert(before.finds(i as int, b));
                assert(start.finds(i as int, b));
                back = back.push(b);
                port.pool.lemma_same_finds(before.ports@[i as int].pool);
            }
            proof {
                self.lemma_one_port(before, i);
                assert(self.same_pools(before)) by {
                    assert forall|k: int, b: Seq<Back>| 0 <= k < before@.ports.len() implies
                        #[trigger] self.finds(k, b) == before.finds(k, b) by {
                        assert(self.ports@[k].pool.finds(b) == before.ports@[k].pool.finds(b));
                    }
                }
                self.lemma_pools_kept_twice(before, start);
                assert forall|j: int| 0 <= j < i + 1 implies #[trigger] self@.ports[j] == (
                PortState {
                    pool: start@.ports[j].pool.settled(back[j]),
                    ..start@.ports[j]
                }) by {
                    if j < i {
                        assert(self@.ports[j] == before@.ports[j]);
                    } else {
                        assert(before@.ports[j] == start@.ports[j]);
                    }
                }
            }
            i += 1;
        }
        proof {
            assert(self@ =~= start@.settled(back)) by {
                assert(self@.ports =~= start@.settled(back).ports);
            }
        }
    }

    /// Sends a prefix of the frames from port `from`. The fabric takes frames up to the
    /// first one whose recipient has no room or that is no IPv4 packet; an error means
    /// that the first frame is none.
    pub fn send(&mut self, from: usize, frames: &mut [PacketBuf]) -> (r: Result<usize, IoError>)
        requires
            old(self).inv(),
            from < old(self)@.ports.len(),
            sound(old(frames)@),
        ensures
            final(self).inv(),
            final(self)@.ports.len() == old(self)@.ports.len(),
            r matches Ok(n) ==> crate::device::consumed(old(frames)@, final(frames)@, n as int),
            r is Err ==> final(frames)@ == old(frames)@,
            final(self).same_pools(*old(self)),
            exists|back: Seq<Seq<Seq<Back>>>|
                {
                    &&& #[trigger] old(self)@.sending(
                        from,
                        packets(old(frames)@),
                        back,
                        r,
                        final(self)@,
                    )
                    &&& back.len() == least(
                        if r is Ok {
                            r->Ok_0 as nat + 1
                        } else {
                            1
                        },
                        old(frames)@.len(),
                    )
                    &&& forall|k: int| 0 <= k < back.len() ==> old(self).found(#[trigger] back[k])
                },
            r == Err::<usize, IoError>(IoError::NotIpv4) <==> old(frames)@.len() > 0 && !carries(
                old(frames)@[0]@,
            ),
            r is Err ==> r == Err::<usize, IoError>(IoError::NotIpv4),
            r matches Ok(n) ==> forall|i: int|
                0 <= i < n ==> carries((#[trigger] old(frames)@[i])@),
    {
        let ghost start = self@;
        let ghost given = frames@;
        let ghost ps = packets(given);
        let ghost mut back: Seq<Seq<Seq<Back>>> = Seq::empty();
        let mut n: usize = 0;
        while n < frames.len()
            invariant
                self.inv(),
                start == old(self)@,
                given == old(frames)@,
                from < self@.ports.len(),
                self@.ports.len() == start.ports.len(),
                n <= given.len(),
                given.len() == frames@.len(),
                ps == packets(given),
                sound(given),
                crate::device::consumed(given, frames@, n as int),
                back.len() == n,
                self.same_pools(*old(self)),
                forall|k: int| 0 <= k < back.len() ==> old(self).found(#[trigger] back[k]),
                self@ == start.sent(from, ps, back, n as nat),
                start.all_taken(from, ps, back, n as nat),
                forall|i: int| 0 <= i < n ==> carries((#[trigger] given[i])@),
            decreases given.len() - n,
        {
            let ghost before = self@;
            let ghost told = back;
            let ghost held = *self;
            self.settle();
            let ghost facing = self@;
            proof {
                let b = choose|b: Seq<Seq<Back>>|
                    held.found(b) && facing == #[trigger] before.settled(b);
                assert(old(self).found(b)) by {
                    assert forall|id: int| 0 <= id < b.len() implies old(self).finds(
                        id,
                        #[trigger] b[id],
                    ) by {
                        assert(held.finds(id, b[id]));
                    }
                }
                back = told.push(b);
                assert(back.drop_last() =~= told);
                start.lemma_more_back(from, ps, told, b, n as nat);
                assert(ps[n as int] == given[n as int]@);
                assert(facing == start.facing(from, ps, back, n as nat));
            }
            match self.transmit(from, &mut frames[n]) {
                Fate::Taken => {
                    proof {
                        start.lemma_all_taken(from, ps, told, back, n as nat);
                    }
                    n += 1;
                },
                Fate::Held => {
                    proof {
                        start.lemma_stopped(from, ps, told, back, n as nat);
                        assert(start.sending(from, ps, back, Ok(n), self@));
                    }
                    return Ok(n);
                },
                Fate::Refused => {
                    proof {
                        start.lemma_stopped(from, ps, told, back, n as nat);
                    }
                    if n == 0 {
                        assert(frames@ =~= given);
                        assert(start.sending(from, ps, back, Err(IoError::NotIpv4), self@));
                        return Err(IoError::NotIpv4);
                    }
                    assert(start.sending(from, ps, back, Ok(n), self@));
                    return Ok(n);
                },
            }
        }
        assert(start.sending(from, ps, back, Ok(n), self@));
        Ok(n)
    }
}

} // verus!
