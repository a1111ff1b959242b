//! In-memory loopback device.
//!
//! Sending copies a packet into a slot of a fixed-size arena and consumes the
//! frame; receiving copies it into a fresh frame and frees the slot.
use std::collections::VecDeque;

use vstd::prelude::*;

use super::buffer_pool::{
    full_pool, lemma_settled, lemma_taken, Back, FramePool, PacketBuf, PoolState,
};
use super::free_list::{least, FreeList};
use super::Device;
use crate::error::IoError;

verus! {

broadcast use PacketBuf::lemma_same_frame;

/// How many frames and slots a device has by default.
pub const FRAME_COUNT: usize = 256;

/// How large a frame and a slot of the arena are.
pub const FRAME_SIZE: usize = 2048;

/// The alignment of the frames.
pub const FRAME_ALIGN: usize = 4096;

/// A device that receives what was sent on it, in order.
pub struct LoopbackDevice {
    pool: FramePool,
    arena: Vec<u8>,
    slots: FreeList,
    rx: VecDeque<(usize, usize)>,
}

/// The bytes of a queued packet.
spec fn stored(arena: Seq<u8>, entry: (usize, usize)) -> Seq<u8> {
    arena.subrange(entry.0 * FRAME_SIZE, entry.0 * FRAME_SIZE + entry.1)
}

impl LoopbackDevice {
    /// The packets that wait to be received, the oldest one first.
    pub closed spec fn queue(self) -> Seq<Seq<u8>> {
        Seq::new(self.rx@.len(), |i: int| stored(self.arena@, self.rx@[i]))
    }

    /// How many packets can wait.
    pub closed spec fn slots(self) -> nat {
        self.slots.frames()
    }

    /// The pool of frames.
    pub closed spec fn pool(self) -> PoolState {
        self.pool@
    }

    /// Whether `back` are the frames that the device finds returned when it looks.
    pub closed spec fn finds(self, back: Seq<Back>) -> bool {
        self.pool.finds(back)
    }

    /// Every slot is free or holds exactly one queued packet.
    pub closed spec fn valid(self) -> bool {
        &&& self.pool.inv()
        &&& self.pool@.frame_size == FRAME_SIZE
        &&& self.slots.inv()
        &&& self.arena@.len() == self.slots.frames() * FRAME_SIZE
        &&& self.arena@.len() <= usize::MAX
        &&& self.rx@.len() + self.slots@.len() == self.slots.frames()
        &&& forall|i: int|
            0 <= i < self.rx@.len() ==> self.slots.used((#[trigger] self.rx@[i]).0)
                && self.rx@[i].1 <= FRAME_SIZE
        &&& forall|i: int, j: int|
            0 <= i < j < self.rx@.len() ==> (#[trigger] self.rx@[i]).0 != (
            #[trigger] self.rx@[j]).0
    }

    /// A device with 256 frames and as many slots.
    pub fn new() -> (device: LoopbackDevice)
        ensures
            device.valid(),
            device.queue() == Seq::<Seq<u8>>::empty(),
            device.slots() == FRAME_COUNT,
            device.pool() == full_pool(FRAME_COUNT as nat, FRAME_SIZE as nat),
    {
        assert(vstd::arithmetic::power2::is_pow2(FRAME_ALIGN as int)) by {
            reveal_with_fuel(vstd::arithmetic::power2::is_pow2, 13);
        }
        Self::with_capacity(FRAME_COUNT, FRAME_COUNT)
    }

    /// A device with `pool_frames` frames and `kernel_slots` slots.
    pub fn with_capacity(pool_frames: usize, kernel_slots: usize) -> (device: LoopbackDevice)
        requires
            0 < pool_frames,
            pool_frames * FRAME_SIZE + FRAME_ALIGN - 1 <= isize::MAX,
            0 < kernel_slots,
            kernel_slots * FRAME_SIZE <= isize::MAX,
        ensures
            device.valid(),
            device.queue() == Seq::<Seq<u8>>::empty(),
            device.slots() == kernel_slots,
            device.pool() == full_pool(pool_frames as nat, FRAME_SIZE as nat),
    {
        assert(vstd::arithmetic::power2::is_pow2(FRAME_ALIGN as int)) by {
            reveal_with_fuel(vstd::arithmetic::power2::is_pow2, 13);
        }
        let pool = FramePool::new(pool_frames, FRAME_SIZE, FRAME_ALIGN);
        let mut arena: Vec<u8> = Vec::new();
        arena.resize(kernel_slots * FRAME_SIZE, 0);
        let slots = FreeList::new(kernel_slots);
        let device = LoopbackDevice {
            pool,
            arena,
            slots,
            rx: VecDeque::with_capacity(kernel_slots),
        };
        assert(device.queue() =~= Seq::<Seq<u8>>::empty());
        device
    }

    /// How many packets wait to be received.
    pub fn queued(&self) -> (n: usize)
        ensures
            n == self.queue().len(),
    {
        self.rx.len()
    }

    /// How many frames were dropped because there was no slot: none ever is, since a frame
    /// that finds no slot stays with the sender.
    pub fn dropped(&self) -> (n: u64)
        ensures
            n == 0,
    {
        0
    }
}

impl Default for LoopbackDevice {
    /// A device with 256 frames and as many slots.
    fn default() -> (device: LoopbackDevice)
        ensures
            device.valid(),
            device.queue() == Seq::<Seq<u8>>::empty(),
            device.slots() == FRAME_COUNT,
            device.pool() == full_pool(FRAME_COUNT as nat, FRAME_SIZE as nat),
    {
        Self::new()
    }
}

/// The packets in the first `n` frames.
pub open spec fn packets(frames: Seq<PacketBuf>, n: nat) -> Seq<Seq<u8>> {
    Seq::new(n, |i: int| frames[i]@)
}

/// Whether `n` is how many of the frames a device with `room` free slots accepts:
/// up to the first one for which there is no slot or that is longer than a slot.
pub open spec fn accepts(frames: Seq<PacketBuf>, room: nat, n: nat) -> bool {
    &&& n <= frames.len()
    &&& n <= room
    &&& forall|i: int| 0 <= i < n ==> (#[trigger] frames[i]).size() <= FRAME_SIZE
    &&& n == frames.len() || n == room || frames[n as int].size() > FRAME_SIZE
}

impl LoopbackDevice {
    /// Queues a packet in a free slot, if there is one.
    fn enqueue(&mut self, packet: &[u8]) -> (done: bool)
        requires
            old(self).valid(),
            packet@.len() <= FRAME_SIZE,
        ensures
            final(self).valid(),
            final(self).slots() == old(self).slots(),
            final(self).pool() == old(self).pool(),
            done == (old(self).queue().len() < old(self).slots()),
            done ==> final(self).queue() == old(self).queue().push(packet@),
            !done ==> final(self).queue() == old(self).queue(),
    {
        let ghost before = *self;
        match self.slots.allocate() {
            None => false,
            Some(slot) => {
                let base: usize = slot * FRAME_SIZE;
                crate::bytes::put_run(self.arena.as_mut_slice(), base, packet);
                self.rx.push_back((slot, packet.len()));
                proof {
                    assert(!before.slots.used(slot));
                    assert forall|i: int| 0 <= i < before.rx@.len() implies stored(
                        self.arena@,
                        before.rx@[i],
                    ) == stored(before.arena@, before.rx@[i]) by {
                        let other = before.rx@[i];
                        assert(before.slots.used(other.0));
                        assert(other.0 != slot);
                        assert(stored(self.arena@, other) =~= stored(before.arena@, other));
                    }
                    assert(stored(self.arena@, (slot, packet@.len() as usize)) =~= packet@);
                    assert(self.queue() =~= before.queue().push(packet@));
                    assert forall|i: int| 0 <= i < self.rx@.len() implies self.slots.used(
                        (#[trigger] self.rx@[i]).0,
                    ) && self.rx@[i].1 <= FRAME_SIZE by {
                        if i < before.rx@.len() {
                            assert(self.rx@[i] == before.rx@[i]);
                            assert(before.slots.used(before.rx@[i].0));
                            self.lemma_still_used(before.slots, before.rx@[i].0);
                        }
                    }
                }
                true
            },
        }
    }

    /// What was in use stays in use when a slot is taken.
    proof fn lemma_still_used(self, before: FreeList, idx: usize)
        requires
            before.used(idx),
            before@.len() > 0,
            self.slots@ == before@.drop_last(),
            self.slots.frames() == before.frames(),
        ensures
            self.slots.used(idx),
    {
        if self.slots@.contains(idx) {
            let k = choose|k: int| 0 <= k < self.slots@.len() && self.slots@[k] == idx;
            assert(before@[k] == idx);
        }
    }

    /// Takes the oldest packet off the queue and copies it into a frame, if there
    /// are both. Frames that were returned and not yet looked for do not count.
    fn dequeue(&mut self) -> (frame: Option<PacketBuf>)
        requires
            old(self).valid(),
        ensures
            final(self).valid(),
            final(self).slots() == old(self).slots(),
            frame is Some <==> old(self).queue().len() > 0 && old(self).pool().free.len() > 0,
            frame is None ==> *final(self) == *old(self),
            frame matches Some(buf) ==> {
                &&& buf.inv()
                &&& buf.live()
                &&& buf@ == old(self).queue()[0]
                &&& final(self).queue() == old(self).queue().skip(1)
                &&& final(self).pool() == old(self).pool().taken(1)
            },
    {
        let ghost before = *self;
        assert(before.pool().taken(0) == before.pool());
        if self.rx.len() == 0 || self.pool.free_now() == 0 {
            return None;
        }
        match self.rx.pop_front() {
            None => None,
            Some(entry) => {
                let slot: usize = entry.0;
                let len: usize = entry.1;
                assert(before.rx@[0] == entry);
                assert(before.slots.used(slot));
                let base: usize = slot * FRAME_SIZE;
                match self.pool.take(len) {
                    None => None,
                    Some(mut buf) => {
                        crate::bytes::put_run(
                            buf.as_mut_packet(),
                            0,
                            &self.arena[base..base + len],
                        );
                        self.slots.free(slot);
                        proof {
                            assert(buf@ =~= stored(before.arena@, entry));
                            assert(self.queue() =~= before.queue().skip(1));
                            assert forall|i: int| 0 <= i < self.rx@.len() implies self.slots.used(
                                (#[trigger] self.rx@[i]).0,
                            ) && self.rx@[i].1 <= FRAME_SIZE by {
                                let other = before.rx@[i + 1];
                                assert(self.rx@[i] == other);
                                assert(before.slots.used(other.0));
                                assert(other.0 != slot);
                                if self.slots@.contains(other.0) {
                                    let k = choose|k: int|
                                        0 <= k < self.slots@.len() && self.slots@[k] == other.0;
                                    assert(before.slots@[k] == other.0);
                                }
                            }
                        }
                        Some(buf)
                    },
                }
            },
        }
    }
}

impl Device for LoopbackDevice {
    open spec fn inv(&self) -> bool {
        self.valid()
    }

    open spec fn space(&self) -> nat {
        FRAME_SIZE as nat
    }

    /// As many packets are received as were asked for, wait, and find a free frame, once
    /// frames that were returned have come back.
    open spec fn receives(
        &self,
        max: nat,
        r: Result<usize, IoError>,
        ps: Seq<Seq<u8>>,
        after: &Self,
    ) -> bool {
        exists|back: Seq<Back>|
            {
                let pool = #[trigger] self.pool().settled(back);
                let n = ps.len();
                &&& self.finds(back)
                &&& n == least(max, least(self.queue().len(), pool.free.len()))
                &&& r is Ok && r->Ok_0 == n
                &&& ps == self.queue().take(n as int)
                &&& after.queue() == self.queue().skip(n as int)
                &&& after.pool() == pool.taken(n)
                &&& after.slots() == self.slots()
            }
    }

    /// The topmost free frame is given, if there is one.
    open spec fn gives(&self, frame: Option<PacketBuf>, after: &Self) -> bool {
        &&& exists|back: Seq<Back>|
            self.finds(back) && #[trigger] self.pool().gives(back, frame, after.pool())
        &&& frame matches Some(buf) ==> buf.frame().len() == FRAME_SIZE
        &&& after.queue() == self.queue()
        &&& after.slots() == self.slots()
    }

    open spec fn dry(&self) -> bool {
        self.pool().free.len() == 0
    }

    /// Packets are queued up to the first one for which there is no slot, or that is
    /// longer than a slot: an error, if it is the very first.
    open spec fn sends(
        &self,
        ps: Seq<Seq<u8>>,
        r: Result<usize, IoError>,
        after: &Self,
    ) -> bool {
        let room = self.slots() - self.queue().len();
        match r {
            Err(e) => {
                &&& e == IoError::FrameTooLong
                &&& ps.len() > 0 && room > 0 && ps[0].len() > FRAME_SIZE
                &&& *after == *self
            },
            Ok(n) => {
                &&& n <= ps.len()
                &&& n <= room
                &&& forall|i: int| 0 <= i < n ==> (#[trigger] ps[i]).len() <= FRAME_SIZE
                &&& n == ps.len() || n == room || n > 0 && ps[n as int].len() > FRAME_SIZE
                &&& after.queue() == self.queue() + ps.take(n as int)
                &&& after.pool() == self.pool()
                &&& after.slots() == self.slots()
            },
        }
    }

    /// Receives as many packets as were asked for, wait, and find a free frame.
    fn recv(&mut self, max: usize, out: &mut Vec<PacketBuf>) -> (r: Result<usize, IoError>)
        ensures
            r is Ok,
            ({
                let n = final(out)@.len();
                &&& packets(final(out)@, n) == old(self).queue().take(n as int)
                &&& final(self).queue() == old(self).queue().skip(n as int)
                &&& n <= old(self).queue().len()
                &&& n == max || n == old(self).queue().len() || final(self).pool().free.len() == 0
                &&& n == max || n == old(self).queue().len() || n >= old(self).pool().free.len()
            }),
            final(self).slots() == old(self).slots(),
    {
        out.clear();
        let ghost start = *self;
        self.pool.reclaim();
        let ghost ready = self.pool@;
        let ghost back = choose|back: Seq<Back>|
            start.pool.finds(back) && ready == #[trigger] start.pool@.settled(back);
        proof {
            self.pool.lemma_inv();
            start.pool.lemma_inv();
        }
        let mut more: bool = true;
        assert(start.queue().skip(0) =~= start.queue());
        while out.len() < max && more
            invariant
                self.valid(),
                start.valid(),
                self.slots() == start.slots(),
                out@.len() <= max,
                out@.len() <= start.queue().len(),
                self.queue() == start.queue().skip(out@.len() as int),
                packets(out@, out@.len()) == start.queue().take(out@.len() as int),
                super::sound(out@),
                ready.wf(),
                out@.len() <= ready.free.len(),
                self.pool@ == ready.taken(out@.len()),
                !more ==> out@.len() == start.queue().len() || self.pool@.free.len() == 0,
            decreases
                max - out@.len(),
                if more {
                    1int
                } else {
                    0
                },
        {
            let ghost so_far = out@;
            let ghost waiting = self.queue();
            proof {
                lemma_taken(ready, so_far.len());
            }
            match self.dequeue() {
                None => {
                    more = false;
                },
                Some(buf) => {
                    out.push(buf);
                    proof {
                        let n = so_far.len() as int;
                        let was = ready.taken(so_far.len());
                        assert(was.taken(0) == was);
                        assert(ready.taken((n + 1) as nat) == was.taken(1));
                        assert(waiting[0] == start.queue()[n]);
                        assert(waiting.skip(1) =~= start.queue().skip(n + 1));
                        assert(packets(out@, out@.len()) =~= packets(so_far, so_far.len()).push(
                            buf@,
                        ));
                        assert(start.queue().take(n + 1) =~= start.queue().take(n).push(
                            start.queue()[n],
                        ));
                    }
                },
            }
        }
        proof {
            lemma_taken(ready, out@.len());
            let ps = crate::simulation::fabric::packets(out@);
            assert(ps =~= packets(out@, out@.len()));
            assert(start.pool().settled(back) == ready);
            lemma_settled(start.pool(), back);
        }
        Ok(out.len())
    }

    /// Queues the packets for which there are slots. A packet that is longer than a
    /// slot is refused.
    fn send(&mut self, frames: &mut [PacketBuf]) -> (r: Result<usize, IoError>)
        ensures
            r matches Err(e) ==> e == IoError::FrameTooLong && *final(self) == *old(self),
            r is Err <==> old(frames)@.len() > 0 && old(self).queue().len() < old(self).slots()
                && old(frames)@[0].size() > FRAME_SIZE,
            r matches Ok(n) ==> {
                let room = (old(self).slots() - old(self).queue().len()) as nat;
                &&& accepts(old(frames)@, room, n as nat)
                &&& final(self).queue() == old(self).queue() + packets(old(frames)@, n as nat)
                &&& final(self).pool() == old(self).pool()
                &&& final(self).slots() == old(self).slots()
            },
    {
        let ghost start = *self;
        let ghost given = frames@;
        let mut sent: usize = 0;
        let mut more: bool = true;
        assert(start.queue() + packets(given, 0) =~= start.queue());
        while sent < frames.len() && more
            invariant
                self.valid(),
                start.valid(),
                self.slots() == start.slots(),
                self.pool() == start.pool(),
                frames@ == given,
                super::sound(given),
                sent <= given.len(),
                self.queue().len() <= self.slots(),
                self.queue() == start.queue() + packets(given, sent as nat),
                sent == 0 ==> *self == start,
                forall|i: int| 0 <= i < sent ==> (#[trigger] given[i]).size() <= FRAME_SIZE,
                !more ==> sent < given.len() && (self.queue().len() == self.slots()
                    || given[sent as int].size() > FRAME_SIZE),
            decreases
                given.len() - sent,
                if more {
                    1int
                } else {
                    0
                },
        {
            if self.rx.len() == self.slots.num_frames() {
                more = false;
            } else if frames[sent].len() > FRAME_SIZE {
                more = false;
            } else {
                let ghost waiting = self.queue();
                self.enqueue(frames[sent].as_slice());
                proof {
                    assert(packets(given, (sent + 1) as nat) =~= packets(given, sent as nat).push(
                        given[sent as int]@,
                    ));
                    assert(self.queue() =~= start.queue() + packets(given, (sent + 1) as nat));
                }
                sent += 1;
            }
        }
        if sent == 0 && !more && self.rx.len() < self.slots.num_frames() {
            return Err(IoError::FrameTooLong);
        }
        super::recycle_frames(frames, sent);
        proof {
            let ps = crate::simulation::fabric::packets(given);
            assert(ps.take(sent as int) =~= packets(given, sent as nat));
            assert forall|i: int| 0 <= i < sent implies (#[trigger] ps[i]).len() <= FRAME_SIZE by {
                assert(given[i].size() <= FRAME_SIZE);
            }
        }
        Ok(sent)
    }

    /// An empty frame, if one is free.
    fn allocate(&mut self) -> (frame: Option<PacketBuf>)
        ensures
            old(self).pool().free.len() > 0 ==> frame is Some,
            frame is None ==> final(self).pool().free.len() == 0,
            final(self).queue() == old(self).queue(),
            final(self).slots() == old(self).slots(),
    {
        self.pool.reclaim();
        let ghost s = self.pool@;
        let ghost back = choose|back: Seq<Back>|
            old(self).pool.finds(back) && s == #[trigger] old(self).pool@.settled(back);
        proof {
            self.pool.lemma_inv();
            assert(s.taken(0) == s);
            assert(s.free.len() > 0 ==> s.free[s.free.len() - 1] < s.slots.len());
        }
        let frame = self.pool.take(0);
        assert(old(self).pool().gives(back, frame, self.pool()));
        frame
    }

    fn frame_size(&self) -> (n: usize) {
        self.pool.frame_size()
    }
}

/// Packets come out in the order in which they went in, whole: where `waiting` were
/// queued, `n` frames were accepted and all was received, the frames' packets follow
/// what had waited.
pub proof fn law_first_in_first_out(
    waiting: Seq<Seq<u8>>,
    sent: Seq<PacketBuf>,
    n: nat,
    received: Seq<PacketBuf>,
)
    requires
        n <= sent.len(),
        received.len() == waiting.len() + n,
        packets(received, received.len()) == (waiting + packets(sent, n)).take(
            received.len() as int,
        ),
    ensures
        forall|i: int| 0 <= i < waiting.len() ==> (#[trigger] received[i])@ == waiting[i],
        forall|i: int|
            0 <= i < n ==> (#[trigger] received[waiting.len() + i])@ == sent[i]@,
{
    let all = packets(received, received.len());
    assert forall|i: int| 0 <= i < waiting.len() implies (#[trigger] received[i])@
        == waiting[i] by {
        assert(all[i] == (waiting + packets(sent, n))[i]);
    }
    assert forall|i: int| 0 <= i < n implies (#[trigger] received[waiting.len() + i])@
        == sent[i]@ by {
        assert(all[waiting.len() + i] == (waiting + packets(sent, n))[waiting.len() + i]);
    }
}

/// What is sent is received: where frames are free and nothing is too long, sending takes
/// as many packets as there are slots for, and receiving then gives what waited and what
/// was taken, whole and in order, as many as are asked for.
pub proof fn law_what_is_sent_is_received(
    before: LoopbackDevice,
    ps: Seq<Seq<u8>>,
    sent: Result<usize, IoError>,
    mid: LoopbackDevice,
    max: nat,
    got: Result<usize, IoError>,
    qs: Seq<Seq<u8>>,
    after: LoopbackDevice,
)
    requires
        before.valid(),
        before.sends(ps, sent, &mid),
        mid.receives(max, got, qs, &after),
        forall|i: int| 0 <= i < ps.len() ==> (#[trigger] ps[i]).len() <= 2048,
    ensures
        ({
            let room = before.slots() - before.queue().len();
            let n = if ps.len() < room {
                ps.len() as int
            } else {
                room
            };
            let all = before.queue() + ps.take(n);
            &&& sent is Ok && sent->Ok_0 == n
            &&& qs.len() <= max
            &&& qs == all.take(qs.len() as int)
            &&& after.queue() == all.skip(qs.len() as int)
            &&& qs.len() == max || qs.len() == all.len() || after.pool().free.len() == 0
        }),
{
    let room = before.slots() - before.queue().len();
    assert(before.queue().len() <= before.slots());
    if sent is Err {
        assert(ps[0].len() <= 2048);
    } else {
        let n = sent->Ok_0 as int;
        if n < ps.len() && n < room {
            assert(ps[n].len() <= 2048);
        }
    }
    let back = choose|back: Seq<Back>|
        {
            let pool = #[trigger] mid.pool().settled(back);
            let n = qs.len();
            &&& mid.finds(back)
            &&& n == least(max, least(mid.queue().len(), pool.free.len()))
            &&& got is Ok && got->Ok_0 == n
            &&& qs == mid.queue().take(n as int)
            &&& after.queue() == mid.queue().skip(n as int)
            &&& after.pool() == pool.taken(n)
            &&& after.slots() == mid.slots()
        };
    before.pool.lemma_inv();
    lemma_settled(mid.pool(), back);
    lemma_taken(mid.pool().settled(back), qs.len());
}

} // verus!
