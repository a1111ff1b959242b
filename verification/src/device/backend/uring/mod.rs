//! Batched io_uring reads and writes on a TUN device: the table of requests under
//! way, and what becomes of each when it completes. One request is one datagram. The
//! kernel writes into the frame of a read behind this code's back, so what bytes it
//! leaves there is not stated; which frame a received packet lies in, where, and how
//! long it is, is.
pub mod laws;
pub mod ring;

use std::collections::VecDeque;

use vstd::prelude::*;

use crate::device::backend::af_xdp::umem::{
    ahead, is_pow2, lemma_moved_twice, lemma_pow2_positive, lemma_slots_differ, moved, pow2,
};
use crate::device::buffer_pool::{
    appended, batch, fresh, headroom, lemma_batch, lemma_handed_all, lemma_settled, lemma_taken,
    Back, FramePool, PoolState,
};
use crate::device::free_list::least;
use crate::device::{consumed, sound, supplied, PacketBuf};
use crate::errno::Errno;
use crate::error::IoError;
use ring::{make_request, request, Cqe, Ring, Sqe};

verus! {

broadcast use PacketBuf::lemma_same_frame;

/// How many requests there can be.
#[derive(Clone, Copy, Debug, PartialEq, Eq, Structural)]
pub struct UringConfig {
    /// Reads and writes under way, all together: a power of two from 2 to 4096.
    pub entries: usize,
    /// Reads under way and packets that wait to be taken; zero makes a device that only
    /// sends.
    pub rx_depth: usize,
}

impl Default for UringConfig {
    fn default() -> (cfg: UringConfig)
        ensures
            cfg == (UringConfig { entries: 128, rx_depth: 64 }),
    {
        UringConfig { entries: 128, rx_depth: 64 }
    }
}

impl UringConfig {
    /// Whether the numbers are consistent.
    pub open spec fn consistent(self) -> bool {
        pow2(self.entries as nat) && 2 <= self.entries <= 4096 && self.rx_depth < self.entries
    }

    /// Refuses numbers that are not consistent.
    pub fn validate(self) -> (r: Result<(), IoError>)
        ensures
            r == (if self.consistent() {
                Ok(())
            } else {
                Err(IoError::UringDepth)
            }),
    {
        if !is_pow2(self.entries) || self.entries < 2 || self.entries > 4096 || self.rx_depth
            >= self.entries {
            return Err(IoError::UringDepth);
        }
        Ok(())
    }
}

/// What has happened.
#[derive(Clone, Copy, Debug, PartialEq, Eq, Structural)]
pub struct UringStats {
    pub enter_calls: u64,
    pub rx_submitted: u64,
    pub rx_completed: u64,
    pub tx_submitted: u64,
    pub tx_completed: u64,
    pub tx_completed_bytes: u64,
    pub rx_errors: u64,
    pub tx_errors: u64,
    pub submit_errors: u64,
    pub last_errno: Option<i32>,
}

impl UringStats {
    /// Nothing has happened.
    pub open spec fn none() -> UringStats {
        UringStats {
            enter_calls: 0,
            rx_submitted: 0,
            rx_completed: 0,
            tx_submitted: 0,
            tx_completed: 0,
            tx_completed_bytes: 0,
            rx_errors: 0,
            tx_errors: 0,
            submit_errors: 0,
            last_errno: None,
        }
    }
}

impl Default for UringStats {
    fn default() -> (stats: UringStats)
        ensures
            stats == UringStats::none(),
    {
        UringStats {
            enter_calls: 0,
            rx_submitted: 0,
            rx_completed: 0,
            tx_submitted: 0,
            tx_completed: 0,
            tx_completed_bytes: 0,
            rx_errors: 0,
            tx_errors: 0,
            submit_errors: 0,
            last_errno: None,
        }
    }
}

/// A request under way, and the frame that the kernel has for it.
struct Pending {
    buf: PacketBuf,
    read: bool,
}

/// A request under way: whether it reads, how much room its frame has, and how long its
/// packet is.
pub struct Request {
    pub read: bool,
    pub room: int,
    pub size: nat,
}

/// What a device holds apart from its frames and its ring.
#[verifier::ext_equal]
pub struct UringModel {
    pub pending: Seq<Option<Request>>,
    /// The numbers that no request has; the last one is used next.
    pub free: Seq<usize>,
    /// The lengths of the packets that were received and wait to be taken.
    pub ready: Seq<nat>,
    pub stats: UringStats,
    /// An error that is still to be reported.
    pub error: Option<IoError>,
}

/// How many requests under way read, or write.
pub open spec fn under_way(pending: Seq<Option<Request>>, read: bool) -> nat
    decreases pending.len(),
{
    if pending.len() == 0 {
        0
    } else {
        under_way(pending.drop_last(), read) + (if pending.last() is Some && pending.last()->0.read
            == read {
            1nat
        } else {
            0
        })
    }
}

/// When a number gets or loses its request, the counts follow.
pub proof fn lemma_under_way_update(
    pending: Seq<Option<Request>>,
    i: int,
    to: Option<Request>,
    read: bool,
)
    requires
        0 <= i < pending.len(),
    ensures
        under_way(pending.update(i, to), read) == under_way(pending, read) - (if pending[i] is Some
            && pending[i]->0.read == read {
            1int
        } else {
            0
        }) + (if to is Some && to->0.read == read {
            1int
        } else {
            0
        }),
        under_way(pending, read) <= pending.len(),
    decreases pending.len(),
{
    let next = pending.update(i, to);
    if i == pending.len() - 1 {
        assert(next.drop_last() =~= pending.drop_last());
        if pending.len() > 1 {
            lemma_under_way_update(pending.drop_last(), 0, None, read);
        }
    } else {
        lemma_under_way_update(pending.drop_last(), i, to, read);
        assert(next.drop_last() =~= pending.drop_last().update(i, to));
    }
}

/// An error number as it comes back: negated.
pub open spec fn negated(result: i32) -> i32 {
    if result == i32::MIN {
        result
    } else {
        (-result) as i32
    }
}

impl UringModel {
    /// A number is free or has a request.
    pub open spec fn wf(self) -> bool {
        &&& self.pending.len() <= usize::MAX
        &&& self.free.no_duplicates()
        &&& forall|i: int|
            0 <= i < self.free.len() ==> #[trigger] self.free[i] < self.pending.len()
        &&& forall|id: usize|
            id < self.pending.len() ==> (#[trigger] self.pending[id as int] is None
                <==> self.free.contains(id))
        &&& forall|i: int|
            0 <= i < self.pending.len() && (#[trigger] self.pending[i]) is Some
                ==> 0 <= self.pending[i]->0.size <= self.pending[i]->0.room
    }

    /// Whether `id` is the number of a request under way.
    pub open spec fn live(self, id: u64) -> bool {
        id < self.pending.len() && self.pending[id as int] is Some
    }

    /// The device after the request with this number ended.
    pub open spec fn ended(self, id: usize) -> UringModel {
        UringModel {
            pending: self.pending.update(id as int, None),
            free: self.free.push(id),
            ..self
        }
    }

    /// The device with an error to report, unless one is to be reported already.
    pub open spec fn failing(self, error: IoError) -> UringModel {
        UringModel {
            stats: UringStats {
                last_errno: match error {
                    IoError::Os(e) => Some(e),
                    _ => None,
                },
                ..self.stats
            },
            error: match self.error {
                Some(first) => Some(first),
                None => Some(error),
            },
            ..self
        }
    }

    /// The device after a read, or a write, went wrong.
    pub open spec fn faulted(self, read: bool) -> UringModel {
        UringModel {
            stats: if read {
                UringStats { rx_errors: self.stats.rx_errors.wrapping_add(1), ..self.stats }
            } else {
                UringStats { tx_errors: self.stats.tx_errors.wrapping_add(1), ..self.stats }
            },
            ..self
        }
    }

    /// The device after a completion. A read that has nothing to read, or that a signal
    /// interrupted, just ends. A read that came back empty or filled all its room may
    /// have lost bytes. A write must have written everything.
    pub open spec fn completed(self, cqe: Cqe, errno: Errno) -> UringModel {
        let id = cqe.user_data as usize;
        let op = self.pending[id as int]->0;
        let m = self.ended(id);
        if cqe.result < 0 {
            let e = negated(cqe.result);
            if op.read && (e == errno.again || e == errno.interrupted) {
                m
            } else {
                m.faulted(op.read).failing(IoError::Os(e))
            }
        } else if op.read {
            if cqe.result == 0 || cqe.result >= op.room {
                m.faulted(true).failing(IoError::TruncatedRead)
            } else {
                UringModel {
                    stats: UringStats {
                        rx_completed: m.stats.rx_completed.wrapping_add(1),
                        ..m.stats
                    },
                    ready: m.ready.push(cqe.result as nat),
                    ..m
                }
            }
        } else if cqe.result != op.size {
            m.faulted(false).failing(IoError::ShortWrite)
        } else {
            UringModel {
                stats: UringStats {
                    tx_completed: m.stats.tx_completed.wrapping_add(1),
                    tx_completed_bytes: m.stats.tx_completed_bytes.wrapping_add(cqe.result as u64),
                    ..m.stats
                },
                ..m
            }
        }
    }

    /// The device after a request was queued.
    pub open spec fn queued(self, op: Request) -> UringModel {
        UringModel {
            pending: self.pending.update(self.free.last() as int, Some(op)),
            free: self.free.drop_last(),
            stats: if op.read {
                UringStats { rx_submitted: self.stats.rx_submitted.wrapping_add(1), ..self.stats }
            } else {
                UringStats { tx_submitted: self.stats.tx_submitted.wrapping_add(1), ..self.stats }
            },
            ..self
        }
    }

    /// Reads under way and packets that wait to be taken.
    pub open spec fn rx_load(self) -> nat {
        under_way(self.pending, true) + self.ready.len()
    }
}

/// Ending a request keeps the table well-formed.
proof fn lemma_ended(m: UringModel, id: usize)
    requires
        m.wf(),
        id < m.pending.len(),
        m.pending[id as int] is Some,
    ensures
        m.ended(id).wf(),
{
    let after = m.ended(id);
    assert(!m.free.contains(id));
    assert(after.free.no_duplicates()) by {
        assert forall|i: int, j: int|
            0 <= i < after.free.len() && 0 <= j < after.free.len() && i != j implies after.free[i]
                != after.free[j] by {
            if i == m.free.len() {
                assert(m.free[j] == after.free[j]);
            } else if j == m.free.len() {
                assert(m.free[i] == after.free[i]);
            } else {
                assert(m.free[i] != m.free[j]);
            }
        }
    }
    assert forall|i: int| 0 <= i < after.free.len() implies #[trigger] after.free[i]
        < after.pending.len() by {
        if i < m.free.len() {
            assert(m.free[i] < m.pending.len());
        }
    }
    assert forall|x: usize| x < after.pending.len() implies (#[trigger] after.pending[x as int]
        is None <==> after.free.contains(x)) by {
        if x == id {
            assert(after.free[m.free.len() as int] == id);
        } else {
            assert(after.pending[x as int] == m.pending[x as int]);
            if m.free.contains(x) {
                let k = choose|k: int| 0 <= k < m.free.len() && m.free[k] == x;
                assert(after.free[k] == x);
            }
            if after.free.contains(x) {
                let k = choose|k: int| 0 <= k < after.free.len() && after.free[k] == x;
                assert(m.free[k] == x);
            }
        }
    }
    assert forall|i: int| 0 <= i < after.pending.len() && (#[trigger] after.pending[i]) is Some
        implies 0 <= after.pending[i]->0.size <= after.pending[i]->0.room by {
        assert(after.pending[i] == m.pending[i]);
    }
}

/// Queueing a request keeps the table well-formed.
proof fn lemma_queued(m: UringModel, op: Request)
    requires
        m.wf(),
        m.free.len() > 0,
        op.size <= op.room,
    ensures
        m.queued(op).wf(),
{
    let id = m.free.last();
    let after = m.queued(op);
    assert(m.free[m.free.len() - 1] == id);
    assert forall|i: int| 0 <= i < after.free.len() implies #[trigger] after.free[i]
        < after.pending.len() by {
        assert(m.free[i] < m.pending.len());
    }
    assert(after.free.no_duplicates());
    assert forall|x: usize| x < after.pending.len() implies (#[trigger] after.pending[x as int]
        is None <==> after.free.contains(x)) by {
        assert(m.pending[x as int] is None <==> m.free.contains(x));
        if m.free.contains(x) && x != id {
            let k = choose|k: int| 0 <= k < m.free.len() && m.free[k] == x;
            assert(after.free[k] == x);
        }
        if after.free.contains(x) {
            let k = choose|k: int| 0 <= k < after.free.len() && after.free[k] == x;
            assert(m.free[k] == x);
            assert(m.free[k] != m.free[m.free.len() - 1]);
        }
    }
    assert forall|i: int| 0 <= i < after.pending.len() && (#[trigger] after.pending[i]) is Some
        implies 0 <= after.pending[i]->0.size <= after.pending[i]->0.room by {
        if i != id {
            assert(after.pending[i] == m.pending[i]);
        }
    }
}

/// A buffer that the kernel may have written into: the standard library's
/// `std::hint::black_box`, which hands back what it is given and of which the compiler
/// is asked to make no guess. The frame is the same one, with the packet in the same
/// place; that its bytes are what they were is not claimed.
#[verifier::external_body]
fn written_behind(buf: PacketBuf) -> (after: PacketBuf)
    ensures
        after.same_frame(buf),
        after.offset() == buf.offset(),
        after.size() == buf.size(),
{
    std::hint::black_box(buf)
}

/// A buffer that the kernel filled with a packet of `len` bytes: the packet is what the
/// frame holds.
pub fn filled(buf: PacketBuf, len: usize) -> (after: PacketBuf)
    requires
        buf.inv(),
        len <= buf.room(),
    ensures
        after.inv(),
        after.same_frame(buf),
        after.offset() == buf.offset(),
        after.frame() == buf.frame(),
        after.size() == len,
        after@ == buf.frame().subrange(buf.offset() as int, buf.offset() + len),
{
    let mut after = buf;
    after.set_len(len);
    assert(after@ =~= after.frame().subrange(after.offset() as int, after.offset() + len));
    after
}

/// Whether `buf` is what the kernel left of `held`, with the packet that it put there and
/// nothing else changed.
pub closed spec fn left_in(buf: PacketBuf, held: PacketBuf) -> bool {
    &&& buf.inv()
    &&& buf.same_frame(held)
    &&& buf.offset() == held.offset()
    &&& exists|left: PacketBuf| #[trigger]
        call_ensures(written_behind, (held,), left) && buf.frame() == left.frame()
}

/// A received packet lies in the frame of its request, and begins where it was to begin.
pub broadcast proof fn lemma_left_in(buf: PacketBuf, held: PacketBuf)
    requires
        #[trigger] left_in(buf, held),
    ensures
        buf.inv(),
        buf.same_frame(held),
        buf.offset() == held.offset(),
{
}

/// What to do next.
#[derive(Clone, Copy, Debug, PartialEq, Eq, Structural)]
pub enum Step {
    /// Hand the queued requests to the kernel.
    Submit,
    /// Nothing.
    Done,
    /// Report this error.
    Fail(IoError),
    /// The kernel completed a request with this number, and there is none.
    Broken(u64),
}

/// A TUN device on an io_uring, apart from its descriptors. The application keeps these
/// and hands requests and completions to and fro.
pub struct UringTunDevice {
    ring: Ring,
    name: String,
    pool: FramePool,
    pending: Vec<Option<Pending>>,
    free: Vec<usize>,
    ready: VecDeque<PacketBuf>,
    cfg: UringConfig,
    rx_pending: usize,
    tx_pending: usize,
    stats: UringStats,
    error: Option<IoError>,
}

/// What a slot of the table says.
spec fn described(slot: Option<Pending>) -> Option<Request> {
    match slot {
        None => None,
        Some(op) => Some(Request { read: op.read, room: op.buf.room(), size: op.buf.size() }),
    }
}

/// The completions that wait, the oldest one first.
pub open spec fn completions(ring: Ring) -> Seq<Cqe> {
    Seq::new(
        ring.waiting(),
        |i: int| ring.cqes@[moved(ring.cq_head, i) as int % ring.cqes@.len() as int],
    )
}

impl UringModel {
    /// The device after several completions.
    pub open spec fn completed_all(self, cqes: Seq<Cqe>, errno: Errno) -> UringModel
        decreases cqes.len(),
    {
        if cqes.len() == 0 {
            self
        } else {
            self.completed_all(cqes.drop_last(), errno).completed(cqes.last(), errno)
        }
    }

    /// Whether each of the completions is of a request under way.
    pub open spec fn expects(self, cqes: Seq<Cqe>, errno: Errno) -> bool {
        forall|i: int|
            0 <= i < cqes.len() ==> self.completed_all(#[trigger] cqes.take(i), errno).live(
                cqes[i].user_data,
            )
    }

    /// Whether the completion is of a read that received a packet.
    pub open spec fn reads(self, cqe: Cqe) -> bool {
        let op = self.pending[cqe.user_data as int]->0;
        op.read && 0 < cqe.result < op.room
    }

    /// The numbers of those of the completed requests that received a packet, in order.
    pub open spec fn arrivals(self, cqes: Seq<Cqe>, errno: Errno) -> Seq<usize>
        decreases cqes.len(),
    {
        if cqes.len() == 0 {
            Seq::empty()
        } else {
            let before = self.arrivals(cqes.drop_last(), errno);
            if self.completed_all(cqes.drop_last(), errno).reads(cqes.last()) {
                before.push(cqes.last().user_data as usize)
            } else {
                before
            }
        }
    }

    /// The device once its error was reported.
    pub open spec fn reported(self) -> UringModel {
        UringModel { error: None, ..self }
    }
}

impl UringTunDevice {
    /// What the device holds apart from its frames and its ring.
    pub closed spec fn view(self) -> UringModel {
        UringModel {
            pending: Seq::new(self.pending@.len(), |i: int| described(self.pending@[i])),
            free: self.free@,
            ready: Seq::new(self.ready@.len(), |i: int| self.ready@[i].size()),
            stats: self.stats,
            error: self.error,
        }
    }

    /// The queues.
    pub closed spec fn queues(self) -> Ring {
        self.ring
    }

    /// The pool of frames.
    pub closed spec fn frames(self) -> PoolState {
        self.pool@
    }

    /// Whether `back` are the frames that the device finds returned when it looks.
    pub closed spec fn finds(self, back: Seq<Back>) -> bool {
        self.pool.finds(back)
    }

    /// What the device was made with.
    pub closed spec fn config(self) -> UringConfig {
        self.cfg
    }

    /// The name of the interface.
    pub closed spec fn title(self) -> Seq<char> {
        self.name@
    }

    /// The frame of the request with this number.
    pub closed spec fn buffer(self, id: int) -> PacketBuf {
        self.pending@[id]->0.buf
    }

    /// The received packets that wait to be taken.
    pub closed spec fn received(self) -> Seq<PacketBuf> {
        self.ready@
    }

    /// The table is well-formed, the counts are right, and no more is received than was
    /// asked for.
    pub closed spec fn inv(self) -> bool {
        &&& self.ring.inv()
        &&& self.pool.inv()
        &&& self@.wf()
        &&& self.pending@.len() == self.ring.sqes@.len()
        &&& self.rx_pending == under_way(self@.pending, true)
        &&& self.tx_pending == under_way(self@.pending, false)
        &&& self@.rx_load() <= self.cfg.rx_depth
        &&& self.cfg.consistent()
        &&& self.cfg.rx_depth < self.pool@.slots.len()
        &&& forall|i: int|
            0 <= i < self.pending@.len() && (#[trigger] self.pending@[i]) is Some
                ==> self.pending@[i]->0.buf.inv()
        &&& sound(self.ready@)
    }

    /// What the invariant says: requests under way and packets that wait stay within the
    /// budget for receiving, which leaves frames to send.
    pub proof fn lemma_inv(self)
        requires
            self.inv(),
        ensures
            self@.wf(),
            self@.rx_load() <= self.config().rx_depth,
            self.config().consistent(),
            self.config().rx_depth < self.frames().slots.len(),
            self@.pending.len() == self.queues().sqes@.len(),
            self.queues().inv(),
            self@.ready.len() == self.received().len(),
            forall|id: int|
                0 <= id < self@.pending.len() && self@.pending[id] is Some ==> request_of(
                    #[trigger] self.buffer(id),
                    self@.pending[id]->0.read,
                ) == self@.pending[id]->0,
            forall|i: int|
                0 <= i < self@.ready.len() ==> self@.ready[i] == (
                #[trigger] self.received()[i]).size(),
    {
        assert forall|id: int| 0 <= id < self@.pending.len() && self@.pending[id] is Some implies
            request_of(#[trigger] self.buffer(id), self@.pending[id]->0.read)
            == self@.pending[id]->0 by {
            assert(self@.pending[id] == described(self.pending@[id]));
        }
    }

    /// Whether such a device can be made with so many frames.
    pub fn check(cfg: UringConfig, num_frames: usize) -> (r: Result<(), IoError>)
        ensures
            r == (if !cfg.consistent() {
                Err(IoError::UringDepth)
            } else if cfg.rx_depth >= num_frames {
                Err(IoError::UringReserve)
            } else {
                Ok(())
            }),
    {
        match cfg.validate() {
            Err(e) => Err(e),
            Ok(()) => {
                if cfg.rx_depth >= num_frames {
                    Err(IoError::UringReserve)
                } else {
                    Ok(())
                }
            },
        }
    }

    /// A device whose ring the kernel gave so many entries.
    pub fn from_parts(
        name: String,
        pool: FramePool,
        cfg: UringConfig,
        sq_entries: u32,
        cq_entries: u32,
    ) -> (r: Result<UringTunDevice, IoError>)
        requires
            pool.inv(),
            pow2(sq_entries as nat),
            pow2(cq_entries as nat),
        ensures
            r is Ok <==> cfg.consistent() && cfg.rx_depth < pool@.slots.len(),
            r matches Err(e) ==> e == (if !cfg.consistent() {
                IoError::UringDepth
            } else {
                IoError::UringReserve
            }),
            r matches Ok(device) ==> {
                &&& device.inv()
                &&& device.title() == name@
                &&& device.config() == cfg
                &&& device.frames() == pool@
                &&& device.queues().sqes@.len() == sq_entries
                &&& device.queues().cqes@.len() == cq_entries
                &&& device.queues().sq_head == 0
                &&& device.queues().sq_tail == 0
                &&& device.queues().cq_head == 0
                &&& device.queues().cq_tail == 0
                &&& under_way(device@.pending, true) == 0
                &&& under_way(device@.pending, false) == 0
                &&& device@ == (UringModel {
                    pending: Seq::new(sq_entries as nat, |i: int| None),
                    free: Seq::new(sq_entries as nat, |i: int| (sq_entries - 1 - i) as usize),
                    ready: Seq::empty(),
                    stats: UringStats::none(),
                    error: None,
                })
            },
    {
        match Self::check(cfg, pool.num_frames()) {
            Err(e) => {
                return Err(e);
            },
            Ok(()) => {},
        }
        let ring = Ring::new(sq_entries, cq_entries);
        let entries: usize = ring.entries();
        let mut pending: Vec<Option<Pending>> = Vec::with_capacity(entries);
        let mut free: Vec<usize> = Vec::with_capacity(entries);
        let mut left: usize = entries;
        while left > 0
            invariant
                left <= entries,
                pending@.len() == entries - left,
                forall|i: int| 0 <= i < pending@.len() ==> (#[trigger] pending@[i]) is None,
                free@ == Seq::new((entries - left) as nat, |i: int| (entries - 1 - i) as usize),
            decreases left,
        {
            left -= 1;
            pending.push(None);
            free.push(left);
            assert(free@ =~= Seq::new((entries - left) as nat, |i: int| (entries - 1 - i) as usize));
        }
        let device = UringTunDevice {
            ring,
            name,
            pool,
            pending,
            free,
            ready: VecDeque::with_capacity(cfg.rx_depth),
            cfg,
            rx_pending: 0,
            tx_pending: 0,
            stats: UringStats::default(),
            error: None,
        };
        proof {
            let m = device@;
            assert(m.pending =~= Seq::new(sq_entries as nat, |i: int| None));
            assert(m.ready =~= Seq::<nat>::empty());
            lemma_none_under_way(m.pending, true);
            lemma_none_under_way(m.pending, false);
            assert forall|id: usize| id < m.pending.len() implies (#[trigger] m.pending[id as int]
                is None <==> m.free.contains(id)) by {
                assert(m.free[m.free.len() - 1 - id] == id);
            }
        }
        Ok(device)
    }

    /// The name of the interface.
    pub fn name(&self) -> (name: &str)
        ensures
            name@ == self.title(),
    {
        self.name.as_str()
    }

    /// What has happened.
    pub fn stats(&self) -> (stats: UringStats)
        ensures
            stats == self@.stats,
    {
        self.stats
    }

    /// How many writes are under way.
    pub fn pending_tx(&self) -> (n: usize)
        requires
            self.inv(),
        ensures
            n == under_way(self@.pending, false),
    {
        self.tx_pending
    }

    /// The queues, to be mirrored.
    pub fn ring_mut(&mut self) -> (ring: &mut Ring)
        requires
            old(self).inv(),
        ensures
            *ring == old(self).queues(),
            final(self).queues() == *final(ring),
            final(self)@ == old(self)@,
            final(self).config() == old(self).config(),
            final(self).title() == old(self).title(),
            final(self).frames() == old(self).frames(),
            final(self).undisturbed(*old(self)),
            final(ring).inv() && final(ring).sqes@.len() == ring.sqes@.len() ==> final(self).inv(),
    {
        &mut self.ring
    }
}

/// Nothing is under way in an empty table.
proof fn lemma_none_under_way(pending: Seq<Option<Request>>, read: bool)
    requires
        forall|i: int| 0 <= i < pending.len() ==> (#[trigger] pending[i]) is None,
    ensures
        under_way(pending, read) == 0,
    decreases pending.len(),
{
    if pending.len() > 0 {
        lemma_none_under_way(pending.drop_last(), read);
    }
}

impl UringTunDevice {
    /// Whether all but the model is as it was before.
    pub open spec fn kept(self, before: UringTunDevice) -> bool {
        &&& self.config() == before.config()
        &&& self.title() == before.title()
        &&& self.frames() == before.frames()
    }

    /// Whether requests under way have their frames, and packets wait, as before.
    pub open spec fn undisturbed(self, before: UringTunDevice) -> bool {
        &&& self.received() == before.received()
        &&& forall|k: int|
            0 <= k < before@.pending.len() ==> #[trigger] self.buffer(k) == before.buffer(k)
    }

    /// Keeps an error to be reported, unless one is kept already.
    fn record_error(&mut self, error: IoError)
        requires
            old(self).inv(),
        ensures
            final(self).inv(),
            final(self)@ == old(self)@.failing(error),
            final(self).queues() == old(self).queues(),
            final(self).kept(*old(self)),
            final(self).undisturbed(*old(self)),
    {
        self.stats.last_errno = match error {
            IoError::Os(e) => Some(e),
            _ => None,
        };
        if self.error.is_none() {
            self.error = Some(error);
        }
        assert(self@.pending =~= old(self)@.pending);
        assert(self@.ready =~= old(self)@.ready);
    }

    /// Counts a read, or a write, that went wrong.
    fn count_fault(&mut self, read: bool)
        requires
            old(self).inv(),
        ensures
            final(self).inv(),
            final(self)@ == old(self)@.faulted(read),
            final(self).queues() == old(self).queues(),
            final(self).kept(*old(self)),
            final(self).undisturbed(*old(self)),
    {
        if read {
            self.stats.rx_errors = self.stats.rx_errors.wrapping_add(1);
        } else {
            self.stats.tx_errors = self.stats.tx_errors.wrapping_add(1);
        }
        assert(self@.pending =~= old(self)@.pending);
        assert(self@.ready =~= old(self)@.ready);
    }

    /// Takes the request with this number out of the table.
    fn end(&mut self, id: usize) -> (op: Pending)
        requires
            old(self).inv(),
            old(self)@.live(id as u64),
        ensures
            final(self).inv(),
            final(self)@ == old(self)@.ended(id),
            final(self).queues() == old(self).queues(),
            final(self).kept(*old(self)),
            op.buf.inv(),
            op.buf == old(self).buffer(id as int),
            described(Some(op)) == old(self)@.pending[id as int],
            final(self).received() == old(self).received(),
            forall|k: int|
                0 <= k < old(self)@.pending.len() && k != id ==> #[trigger] final(self).buffer(k)
                    == old(self).buffer(k),
            final(self)@.rx_load() == old(self)@.rx_load() - (if op.read {
                1int
            } else {
                0
            }),
    {
        let ghost m = self@;
        let mut slot: Option<Pending> = None;
        std::mem::swap(&mut slot, &mut self.pending[id]);
        self.free.push(id);
        proof {
            assert(m.pending[id as int] == described(slot));
            assert(self@ =~= m.ended(id));
            lemma_ended(m, id);
            lemma_under_way_update(m.pending, id as int, None, true);
            lemma_under_way_update(m.pending, id as int, None, false);
        }
        match slot {
            Some(op) => {
                if op.read {
                    self.rx_pending = self.rx_pending - 1;
                } else {
                    self.tx_pending = self.tx_pending - 1;
                }
                assert(self@ =~= m.ended(id));
                op
            },
            None => {
                assert(false);
                Pending { buf: PacketBuf::default(), read: true }
            },
        }
    }

    /// Handles a completion of a request under way.
    pub fn complete(&mut self, cqe: Cqe, errno: Errno)
        requires
            old(self).inv(),
            old(self)@.live(cqe.user_data),
        ensures
            final(self).inv(),
            final(self)@ == old(self)@.completed(cqe, errno),
            final(self).queues() == old(self).queues(),
            final(self).kept(*old(self)),
            delivers(
                *old(self),
                *final(self),
                if old(self)@.reads(cqe) {
                    seq![cqe.user_data as usize]
                } else {
                    Seq::empty()
                },
            ),
    {
        let id: usize = cqe.user_data as usize;
        let Pending { buf, read } = self.end(id);
        let ghost m = self@;
        let ghost mid = *self;
        let ghost start = *old(self);
        let ghost received = start@.reads(cqe);
        proof {
            lemma_nothing_delivered(start, mid);
        }
        if cqe.result < 0 {
            let e: i32 = if cqe.result == i32::MIN {
                cqe.result
            } else {
                -cqe.result
            };
            if read && (e == errno.again || e == errno.interrupted) {
                return;
            }
            self.count_fault(read);
            self.record_error(IoError::Os(e));
            proof {
                lemma_delivery_kept(start, mid, *self, Seq::empty());
            }
        } else if read {
            if cqe.result == 0 || cqe.result as u64 >= buf.tail_capacity() as u64 {
                self.count_fault(true);
                self.record_error(IoError::TruncatedRead);
                proof {
                    lemma_delivery_kept(start, mid, *self, Seq::empty());
                }
            } else {
                let ghost held = buf;
                let left = written_behind(buf);
                let ghost as_left = left;
                let packet = filled(left, cqe.result as usize);
                proof {
                    packet.lemma_frame_kept_twice(as_left, held);
                }
                let ghost arrived = packet;
                self.stats.rx_completed = self.stats.rx_completed.wrapping_add(1);
                self.ready.push_back(packet);
                proof {
                    assert(self@.ready =~= m.ready.push(cqe.result as nat));
                    assert(self@.pending =~= m.pending);
                    assert(self.received() =~= start.received().push(arrived));
                    assert(left_in(arrived, start.buffer(id as int)));
                    assert(self.received().take(start.received().len() as int)
                        =~= start.received());
                    assert forall|k: int|
                        0 <= k < start@.pending.len() && self@.pending[k] is Some implies
                        #[trigger] self.buffer(k) == start.buffer(k) by {
                        assert(self.buffer(k) == mid.buffer(k));
                    }
                    let ids = seq![cqe.user_data as usize];
                    assert(received);
                    assert(delivers(start, *self, ids));
                }
            }
        } else if cqe.result as u64 != buf.len() as u64 {
            self.count_fault(false);
            self.record_error(IoError::ShortWrite);
            proof {
                lemma_delivery_kept(start, mid, *self, Seq::empty());
            }
        } else {
            self.stats.tx_completed = self.stats.tx_completed.wrapping_add(1);
            self.stats.tx_completed_bytes = self.stats.tx_completed_bytes.wrapping_add(
                cqe.result as u64,
            );
            proof {
                assert(self@.ready =~= m.ready);
                assert(self@.pending =~= m.pending);
                assert(self.undisturbed(mid));
                lemma_delivery_kept(start, mid, *self, Seq::empty());
            }
        }
    }

    /// Handles the completions that wait. Where one is of no request under way, stops
    /// there and gives its number.
    pub fn reap(&mut self, errno: Errno) -> (r: Result<(), u64>)
        requires
            old(self).inv(),
        ensures
            final(self).inv(),
            final(self).kept(*old(self)),
            ({
                let cqes = completions(old(self).queues());
                &&& r is Ok <==> old(self)@.expects(cqes, errno)
                &&& r is Ok ==> {
                    &&& final(self)@ == old(self)@.completed_all(cqes, errno)
                    &&& delivers(*old(self), *final(self), old(self)@.arrivals(cqes, errno))
                    &&& final(self).queues() == (Ring {
                        cq_head: old(self).queues().cq_tail,
                        ..old(self).queues()
                    })
                }
                &&& r matches Err(id) ==> stopped(*old(self), *final(self), cqes, errno, id)
            }),
            final(self).queues().sqes == old(self).queues().sqes,
            final(self).queues().sq_head == old(self).queues().sq_head,
            final(self).queues().sq_tail == old(self).queues().sq_tail,
    {
        let ghost start = *self;
        let ghost cqes = completions(start.ring);
        let ghost mut n: int = 0;
        proof {
            assert(cqes.take(0) =~= Seq::<Cqe>::empty());
            lemma_nothing_delivered(start, *self);
        }
        loop
            invariant
                start == *old(self),
                self.inv(),
                start.inv(),
                self.kept(start),
                cqes == completions(start.ring),
                0 <= n <= cqes.len(),
                n + self.ring.waiting() == cqes.len(),
                self@ == start@.completed_all(cqes.take(n), errno),
                delivers(start, *self, start@.arrivals(cqes.take(n), errno)),
                self.ring.cq_head == moved(start.ring.cq_head, n),
                self.ring == (Ring { cq_head: self.ring.cq_head, ..start.ring }),
                forall|i: int|
                    0 <= i < n ==> start@.completed_all(#[trigger] cqes.take(i), errno).live(
                        cqes[i].user_data,
                    ),
            ensures
                n == cqes.len(),
                self.ring.waiting() == 0,
            decreases self.ring.waiting(),
        {
            let ghost held = *self;
            match self.ring.pop() {
                None => {
                    break;
                },
                Some(cqe) => {
                    proof {
                        assert(cqe == cqes[n]);
                        assert(cqes.take(n + 1).drop_last() =~= cqes.take(n));
                        lemma_moved_twice(start.ring.cq_head, n as nat, 1);
                        assert(self@ =~= start@.completed_all(cqes.take(n), errno));
                        lemma_delivery_kept(
                            start,
                            held,
                            *self,
                            start@.arrivals(cqes.take(n), errno),
                        );
                    }
                    if !self.is_live(cqe.user_data) {
                        assert(!start@.completed_all(cqes.take(n), errno).live(cqes[n].user_data));
                        assert forall|i: int| 0 <= i < n implies start@.completed_all(
                            #[trigger] cqes.take(n).take(i),
                            errno,
                        ).live(cqes.take(n)[i].user_data) by {
                            assert(cqes.take(n).take(i) =~= cqes.take(i));
                        }
                        assert(stopped_at(start@, self@, cqes, errno, cqe.user_data, n));
                        return Err(cqe.user_data);
                    }
                    let ghost mid = *self;
                    self.complete(cqe, errno);
                    proof {
                        let ids = start@.arrivals(cqes.take(n), errno);
                        let more = if mid@.reads(cqe) {
                            seq![cqe.user_data as usize]
                        } else {
                            Seq::empty()
                        };
                        lemma_delivered_more(start, mid, *self, ids, more, cqe, errno);
                        assert(ids + more =~= start@.arrivals(cqes.take(n + 1), errno));
                        n = n + 1;
                    }
                },
            }
        }
        assert(cqes.take(cqes.len() as int) =~= cqes);
        assert(self.ring.cq_head == self.ring.cq_tail) by {
            reveal(ahead);
        }
        Ok(())
    }

    /// Whether `id` is the number of a request under way.
    fn is_live(&self, id: u64) -> (yes: bool)
        ensures
            yes == self@.live(id),
    {
        if id < self.pending.len() as u64 {
            self.pending[id as usize].is_some()
        } else {
            false
        }
    }
}

/// Whether the first `k` completions were handled, and the next one has the number `id`,
/// which no request has.
pub open spec fn stopped_at(
    before: UringModel,
    after: UringModel,
    cqes: Seq<Cqe>,
    errno: Errno,
    id: u64,
    k: int,
) -> bool {
    &&& 0 <= k < cqes.len()
    &&& before.expects(cqes.take(k), errno)
    &&& after == before.completed_all(cqes.take(k), errno)
    &&& id == cqes[k].user_data
    &&& !after.live(id)
}

/// Whether the completions were handled up to the first one of no request, number `id`.
pub open spec fn stopped(
    before: UringTunDevice,
    after: UringTunDevice,
    cqes: Seq<Cqe>,
    errno: Errno,
    id: u64,
) -> bool {
    exists|k: int| #[trigger]
        stopped_at(before@, after@, cqes, errno, id, k) && delivers(
            before,
            after,
            before@.arrivals(cqes.take(k), errno),
        ) && after.queues() == (Ring {
            cq_head: moved(before.queues().cq_head, k + 1),
            ..before.queues()
        })
}

/// Whether the packets that the requests with the numbers `ids` received wait behind
/// those that waited before, and requests still under way have their frames.
pub open spec fn delivers(before: UringTunDevice, after: UringTunDevice, ids: Seq<usize>) -> bool {
    let n = before.received().len();
    &&& after.received().len() == n + ids.len()
    &&& after.received().take(n as int) == before.received()
    &&& forall|j: int|
        0 <= j < ids.len() ==> left_in(
            after.received()[n + j],
            before.buffer(#[trigger] ids[j] as int),
        )
    &&& forall|k: int|
        0 <= k < before@.pending.len() && after@.pending[k] is Some ==> #[trigger] after.buffer(k)
            == before.buffer(k)
}

/// Where nothing was received, nothing is delivered.
proof fn lemma_nothing_delivered(before: UringTunDevice, after: UringTunDevice)
    requires
        after.received() == before.received(),
        forall|k: int|
            0 <= k < before@.pending.len() && after@.pending[k] is Some ==> #[trigger] after.buffer(
                k,
            ) == before.buffer(k),
    ensures
        delivers(before, after, Seq::empty()),
{
    assert(after.received().take(before.received().len() as int) =~= before.received());
}

/// What was delivered stays so while nothing is disturbed.
proof fn lemma_delivery_kept(
    before: UringTunDevice,
    mid: UringTunDevice,
    after: UringTunDevice,
    ids: Seq<usize>,
)
    requires
        delivers(before, mid, ids),
        after.undisturbed(mid),
        after@.pending == mid@.pending,
        mid@.pending.len() == before@.pending.len(),
    ensures
        delivers(before, after, ids),
{
    assert forall|k: int|
        0 <= k < before@.pending.len() && after@.pending[k] is Some implies #[trigger] after.buffer(k)
        == before.buffer(k) by {
        assert(after.buffer(k) == mid.buffer(k));
    }
}

/// What a completion delivers comes behind what was delivered before.
proof fn lemma_delivered_more(
    start: UringTunDevice,
    mid: UringTunDevice,
    end: UringTunDevice,
    ids: Seq<usize>,
    more: Seq<usize>,
    cqe: Cqe,
    errno: Errno,
)
    requires
        delivers(start, mid, ids),
        delivers(mid, end, more),
        mid@.live(cqe.user_data),
        end@ == mid@.completed(cqe, errno),
        mid@.pending.len() == start@.pending.len(),
        forall|j: int| 0 <= j < more.len() ==> #[trigger] more[j] == cqe.user_data,
    ensures
        delivers(start, end, ids + more),
{
    let n = start.received().len() as int;
    let m = mid.received().len() as int;
    assert(end.received().take(n) =~= start.received()) by {
        assert forall|i: int| 0 <= i < n implies end.received()[i] == start.received()[i] by {
            assert(end.received().take(m)[i] == mid.received()[i]);
            assert(mid.received().take(n)[i] == start.received()[i]);
        }
    }
    let all = ids + more;
    assert forall|j: int| 0 <= j < all.len() implies left_in(
        end.received()[n + j],
        start.buffer(#[trigger] all[j] as int),
    ) by {
        if j < ids.len() {
            assert(end.received().take(m)[n + j] == mid.received()[n + j]);
            assert(left_in(mid.received()[n + j], start.buffer(ids[j] as int)));
        } else {
            let i = j - ids.len();
            assert(left_in(end.received()[m + i], mid.buffer(more[i] as int)));
            assert(mid.buffer(cqe.user_data as int) == start.buffer(cqe.user_data as int));
        }
    }
    assert forall|k: int|
        0 <= k < start@.pending.len() && end@.pending[k] is Some implies #[trigger] end.buffer(k)
        == start.buffer(k) by {
        assert(mid@.pending[k] is Some);
        assert(mid.buffer(k) == start.buffer(k));
    }
}

impl UringTunDevice {
    /// Handles the completions that wait and takes the error that is to be reported.
    pub fn settle(&mut self, errno: Errno) -> (step: Step)
        requires
            old(self).inv(),
        ensures
            final(self).inv(),
            final(self).kept(*old(self)),
            settles(*old(self), *final(self), errno, step),
            final(self).queues().sqes == old(self).queues().sqes,
            final(self).queues().sq_head == old(self).queues().sq_head,
            final(self).queues().sq_tail == old(self).queues().sq_tail,
    {
        match self.reap(errno) {
            Err(id) => Step::Broken(id),
            Ok(()) => {
                let ghost mid = *self;
                let mut error: Option<IoError> = None;
                std::mem::swap(&mut error, &mut self.error);
                proof {
                    assert(self@ =~= mid@.reported());
                    old(self).lemma_inv();
                    mid.lemma_inv();
                    lemma_delivery_kept(
                        *old(self),
                        mid,
                        *self,
                        old(self)@.arrivals(completions(old(self).queues()), errno),
                    );
                }
                match error {
                    Some(e) => Step::Fail(e),
                    None => Step::Done,
                }
            },
        }
    }

    /// Makes progress: handles the completions that wait, and says whether there are
    /// requests to submit.
    pub fn begin_progress(&mut self, errno: Errno) -> (step: Step)
        requires
            old(self).inv(),
        ensures
            final(self).inv(),
            final(self).kept(*old(self)),
            ({
                let m = old(self)@.completed_all(completions(old(self).queues()), errno);
                let submit = m.error is None && m.free.len() < m.pending.len();
                if old(self)@.expects(completions(old(self).queues()), errno) && submit {
                    &&& step == Step::Submit
                    &&& final(self)@ == m.entering()
                    &&& delivers(
                        *old(self),
                        *final(self),
                        old(self)@.arrivals(completions(old(self).queues()), errno),
                    )
                    &&& final(self).queues() == old(self).queues().drained()
                } else {
                    settles(*old(self), *final(self), errno, step)
                }
            }),
            final(self).queues().sqes == old(self).queues().sqes,
            final(self).queues().sq_head == old(self).queues().sq_head,
            final(self).queues().sq_tail == old(self).queues().sq_tail,
    {
        let step: Step = self.settle(errno);
        let ghost mid = *self;
        if step == Step::Done && self.free.len() < self.pending.len() {
            self.stats.enter_calls = self.stats.enter_calls.wrapping_add(1);
            proof {
                assert(self@ =~= mid@.entering());
                old(self).lemma_inv();
                mid.lemma_inv();
                lemma_delivery_kept(
                    *old(self),
                    mid,
                    *self,
                    old(self)@.arrivals(completions(old(self).queues()), errno),
                );
            }
            return Step::Submit;
        }
        step
    }

    /// Goes on after requests were submitted with this outcome.
    pub fn finish_progress(&mut self, outcome: Result<(), IoError>, errno: Errno) -> (step: Step)
        requires
            old(self).inv(),
        ensures
            final(self).inv(),
            final(self).kept(*old(self)),
            outcome is Ok ==> settles(*old(self), *final(self), errno, step),
            outcome matches Err(e) ==> {
                &&& step == Step::Fail(e)
                &&& final(self)@ == old(self)@.refused(e)
                &&& final(self).queues() == old(self).queues()
                &&& final(self).undisturbed(*old(self))
            },
            final(self).queues().sqes == old(self).queues().sqes,
            final(self).queues().sq_head == old(self).queues().sq_head,
            final(self).queues().sq_tail == old(self).queues().sq_tail,
    {
        match outcome {
            Ok(()) => self.settle(errno),
            Err(e) => {
                self.stats.submit_errors = self.stats.submit_errors.wrapping_add(1);
                self.stats.last_errno = match e {
                    IoError::Os(code) => Some(code),
                    _ => None,
                };
                assert(self@ =~= old(self)@.refused(e));
                Step::Fail(e)
            },
        }
    }

    /// Keeps an error to be reported by the next call, in place of one that is kept.
    pub fn defer(&mut self, error: IoError)
        requires
            old(self).inv(),
        ensures
            final(self).inv(),
            final(self).kept(*old(self)),
            final(self).queues() == old(self).queues(),
            final(self).undisturbed(*old(self)),
            final(self)@ == (UringModel { error: Some(error), ..old(self)@ }),
    {
        self.error = Some(error);
        assert(self@ =~= (UringModel { error: Some(error), ..old(self)@ }));
    }
}

impl Ring {
    /// The queues once the completions that wait were taken.
    pub open spec fn drained(self) -> Ring {
        Ring { cq_head: self.cq_tail, ..self }
    }
}

impl UringModel {
    /// The device as it goes to submit requests.
    pub open spec fn entering(self) -> UringModel {
        UringModel {
            stats: UringStats { enter_calls: self.stats.enter_calls.wrapping_add(1), ..self.stats },
            ..self
        }
    }

    /// The device after submitting requests failed.
    pub open spec fn refused(self, error: IoError) -> UringModel {
        UringModel {
            stats: UringStats {
                submit_errors: self.stats.submit_errors.wrapping_add(1),
                last_errno: match error {
                    IoError::Os(e) => Some(e),
                    _ => None,
                },
                ..self.stats
            },
            ..self
        }
    }
}

/// Whether the completions that waited were handled and the error that was to be
/// reported was taken.
pub open spec fn settles(
    before: UringTunDevice,
    after: UringTunDevice,
    errno: Errno,
    step: Step,
) -> bool {
    let cqes = completions(before.queues());
    let m = before@.completed_all(cqes, errno);
    if before@.expects(cqes, errno) {
        &&& after@ == m.reported()
        &&& delivers(before, after, before@.arrivals(cqes, errno))
        &&& after.queues() == before.queues().drained()
        &&& step == match m.error {
            Some(e) => Step::Fail(e),
            None => Step::Done,
        }
    } else {
        step matches Step::Broken(id) && stopped(before, after, cqes, errno, id)
    }
}

impl UringModel {
    /// The device after several requests were queued.
    pub open spec fn queued_all(self, ops: Seq<Request>) -> UringModel
        decreases ops.len(),
    {
        if ops.len() == 0 {
            self
        } else {
            self.queued_all(ops.drop_last()).queued(ops.last())
        }
    }

    /// The number that the request gets that is queued after `i` others.
    pub open spec fn number(self, i: int) -> usize {
        self.free[self.free.len() - 1 - i]
    }
}

/// The request for the packet in `buf`, or for one to be read into it.
pub open spec fn request_of(buf: PacketBuf, read: bool) -> Request {
    Request { read, room: buf.room(), size: buf.size() }
}

/// Whether the kernel finds a request where and as it should: `buf` holds its packet,
/// and its address is where `locate` says.
pub open spec fn posted<F: Fn(&PacketBuf) -> u64>(
    sqe: Sqe,
    read: bool,
    buf: PacketBuf,
    id: usize,
    locate: F,
) -> bool {
    let len = if read {
        buf.room() as u32
    } else {
        buf.size() as u32
    };
    &&& sqe == request(read, sqe.address, len, id as u64)
    &&& locate.ensures((&buf,), sqe.address)
}

/// Whether `n` requests were queued, each posted for the kernel.
pub open spec fn posted_all<F: Fn(&PacketBuf) -> u64>(
    before: UringTunDevice,
    after: UringTunDevice,
    n: nat,
    read: bool,
    locate: F,
) -> bool {
    &&& after.queues().sqes@.len() == before.queues().sqes@.len()
    &&& after.queues().sq_head == before.queues().sq_head
    &&& after.queues().sq_tail == moved(before.queues().sq_tail, n as int)
    &&& after.queues().cqes == before.queues().cqes
    &&& after.queues().cq_head == before.queues().cq_head
    &&& after.queues().cq_tail == before.queues().cq_tail
    &&& forall|j: int|
        0 <= j < before.queues().queued() ==> {
            let slot = #[trigger] moved(before.queues().sq_head, j) as int
                % before.queues().sqes@.len() as int;
            after.queues().sqes@[slot] == before.queues().sqes@[slot]
        }
    &&& forall|k: int|
        0 <= k < before@.pending.len() && before@.pending[k] is Some ==> #[trigger] after.buffer(k)
            == before.buffer(k)
    &&& forall|i: int|
        0 <= i < n ==> #[trigger] posted(
            after.queues().sqes@[moved(before.queues().sq_tail, i) as int
                % before.queues().sqes@.len() as int],
            read,
            after.buffer(before@.number(i) as int),
            before@.number(i),
            locate,
        )
}

impl UringTunDevice {
    /// Queues a request.
    fn queue(&mut self, buf: PacketBuf, read: bool, address: u64)
        requires
            old(self).inv(),
            old(self)@.free.len() > 0,
            old(self).queues().room() > 0,
            buf.inv(),
            read ==> old(self)@.rx_load() < old(self).config().rx_depth,
        ensures
            final(self).inv(),
            final(self).kept(*old(self)),
            final(self)@ == old(self)@.queued(request_of(buf, read)),
            final(self).received() == old(self).received(),
            final(self).buffer(old(self)@.number(0) as int) == buf,
            forall|k: int|
                0 <= k < old(self)@.pending.len() && k != old(self)@.number(0)
                    ==> #[trigger] final(self).buffer(k) == old(self).buffer(k),
            final(self).queues().sqes@ == old(self).queues().sqes@.update(
                old(self).queues().sq_tail as int % old(self).queues().sqes@.len() as int,
                request(
                    read,
                    address,
                    if read {
                        buf.room() as u32
                    } else {
                        buf.size() as u32
                    },
                    old(self)@.number(0) as u64,
                ),
            ),
            final(self).queues().sq_tail == moved(old(self).queues().sq_tail, 1),
            final(self).queues().room() == old(self).queues().room() - 1,
            final(self).queues().sq_head == old(self).queues().sq_head,
            final(self).queues().cqes == old(self).queues().cqes,
            final(self).queues().cq_head == old(self).queues().cq_head,
            final(self).queues().cq_tail == old(self).queues().cq_tail,
            final(self)@.rx_load() == old(self)@.rx_load() + (if read {
                1int
            } else {
                0
            }),
    {
        let ghost m = self@;
        let ghost op = request_of(buf, read);
        let id: usize = match self.free.pop() {
            Some(id) => id,
            None => {
                assert(false);
                0
            },
        };
        assert(m.free[m.free.len() - 1] == id);
        let len: usize = if read {
            buf.tail_capacity()
        } else {
            buf.len()
        };
        self.ring.push(make_request(read, address, len as u32, id as u64));
        self.pending[id] = Some(Pending { buf, read });
        proof {
            lemma_queued(m, op);
            assert(m.pending[id as int] is None) by {
                assert(m.free.contains(id));
            }
            lemma_under_way_update(m.pending, id as int, Some(op), true);
            lemma_under_way_update(m.pending, id as int, Some(op), false);
            lemma_under_way_update(m.pending.update(id as int, Some(op)), id as int, None, read);
        }
        if read {
            self.rx_pending = self.rx_pending + 1;
            self.stats.rx_submitted = self.stats.rx_submitted.wrapping_add(1);
        } else {
            self.tx_pending = self.tx_pending + 1;
            self.stats.tx_submitted = self.stats.tx_submitted.wrapping_add(1);
        }
        assert(self@ =~= m.queued(op));
    }
}

/// One more request is queued.
proof fn lemma_posted_next<F: Fn(&PacketBuf) -> u64>(
    start: UringTunDevice,
    mid: UringTunDevice,
    after: UringTunDevice,
    n: nat,
    read: bool,
    buf: PacketBuf,
    address: u64,
    locate: F,
)
    requires
        start.inv(),
        mid.inv(),
        n < start.queues().sqes@.len(),
        n < start@.free.len(),
        n < start.queues().room(),
        posted_all(start, mid, n, read, locate),
        mid@.free == start@.free.take(start@.free.len() - n),
        mid@.pending.len() == start@.pending.len(),
        after.buffer(mid@.number(0) as int) == buf,
        forall|k: int|
            0 <= k < mid@.pending.len() && k != mid@.number(0) ==> #[trigger] after.buffer(k)
                == mid.buffer(k),
        locate.ensures((&buf,), address),
        after.queues().sqes@ == mid.queues().sqes@.update(
            mid.queues().sq_tail as int % mid.queues().sqes@.len() as int,
            request(
                read,
                address,
                if read {
                    buf.room() as u32
                } else {
                    buf.size() as u32
                },
                mid@.number(0) as u64,
            ),
        ),
        after.queues().sq_tail == moved(mid.queues().sq_tail, 1),
        after.queues().sq_head == mid.queues().sq_head,
        after.queues().cqes == mid.queues().cqes,
        after.queues().cq_head == mid.queues().cq_head,
        after.queues().cq_tail == mid.queues().cq_tail,
    ensures
        posted_all(start, after, n + 1, read, locate),
{
    let len = start.queues().sqes@.len();
    let tail = start.queues().sq_tail;
    let head = start.queues().sq_head;
    let queued = start.queues().queued();
    assert(moved(head, queued as int) == tail) by {
        reveal(ahead);
    }
    assert forall|j: int| 0 <= j < queued implies {
        let slot = #[trigger] moved(head, j) as int % len as int;
        after.queues().sqes@[slot] == start.queues().sqes@[slot]
    } by {
        lemma_moved_twice(head, queued, n);
        lemma_slots_differ(len, head, j, (queued + n) as int);
    }
    assert forall|k: int| 0 <= k < start@.pending.len() && start@.pending[k] is Some implies
        #[trigger] after.buffer(k) == start.buffer(k) by {
        let id = mid@.number(0);
        assert(id == start@.free[start@.free.len() - 1 - n]);
        assert(start@.free.contains(id));
        assert(start@.pending[id as int] is None);
        assert(mid.buffer(k) == start.buffer(k));
    }
    lemma_pow2_positive(len);
    lemma_moved_twice(tail, n, 1);
    assert(mid@.number(0) == start@.number(n as int));
    assert forall|i: int| 0 <= i < n + 1 implies #[trigger] posted(
        after.queues().sqes@[moved(tail, i) as int % len as int],
        read,
        after.buffer(start@.number(i) as int),
        start@.number(i),
        locate,
    ) by {
        assert(start@.free[start@.free.len() - 1 - i] < start@.pending.len());
        if i < n {
            lemma_slots_differ(len, tail, i, n as int);
            assert(start@.number(i) != start@.number(n as int));
            assert(posted(
                mid.queues().sqes@[moved(tail, i) as int % len as int],
                read,
                mid.buffer(start@.number(i) as int),
                start@.number(i),
                locate,
            ));
        }
    }
}

/// Requests stay posted while ring and table stay.
proof fn lemma_posted_still<F: Fn(&PacketBuf) -> u64>(
    start: UringTunDevice,
    mid: UringTunDevice,
    after: UringTunDevice,
    n: nat,
    read: bool,
    locate: F,
)
    requires
        posted_all(start, mid, n, read, locate),
        after.queues() == mid.queues(),
        forall|k: int| #[trigger] after.buffer(k) == mid.buffer(k),
    ensures
        posted_all(start, after, n, read, locate),
{
    assert forall|k: int| 0 <= k < start@.pending.len() && start@.pending[k] is Some implies
        #[trigger] after.buffer(k) == start.buffer(k) by {
        assert(after.buffer(k) == mid.buffer(k));
    }
    let len = start.queues().sqes@.len();
    assert forall|i: int| 0 <= i < n implies #[trigger] posted(
        after.queues().sqes@[moved(start.queues().sq_tail, i) as int % len as int],
        read,
        after.buffer(start@.number(i) as int),
        start@.number(i),
        locate,
    ) by {
        assert(posted(
            mid.queues().sqes@[moved(start.queues().sq_tail, i) as int % len as int],
            read,
            mid.buffer(start@.number(i) as int),
            start@.number(i),
            locate,
        ));
    }
}

/// How many reads could be queued.
pub open spec fn wanted(device: UringTunDevice) -> nat {
    least(
        least(
            (device.config().rx_depth - device@.rx_load()) as nat,
            device@.free.len(),
        ),
        device.queues().room(),
    )
}

/// A read into a fresh frame.
pub open spec fn fresh_read(space: nat) -> Request {
    Request { read: true, room: space - headroom(space, 0), size: 0 }
}

impl UringTunDevice {
    /// Queues as many reads as the budget, the ring and the frames allow; says how many.
    /// `locate` gives the address at which the packet in a buffer starts.
    pub fn fill_reads<F: Fn(&PacketBuf) -> u64>(&mut self, locate: F) -> (n: usize)
        requires
            old(self).inv(),
            forall|buf: PacketBuf| buf.inv() ==> #[trigger] locate.requires((&buf,)),
        ensures
            final(self).inv(),
            final(self).config() == old(self).config(),
            final(self).title() == old(self).title(),
            final(self).received() == old(self).received(),
            final(self).frames().frame_size == old(self).frames().frame_size,
            final(self).frames().slots.len() == old(self).frames().slots.len(),
            final(self)@ == old(self)@.queued_all(
                Seq::new(n as nat, |i: int| fresh_read(old(self).frames().frame_size)),
            ),
            posted_all(*old(self), *final(self), n as nat, true, locate),
            exists|back: Seq<Back>|
                {
                    let pool = #[trigger] old(self).frames().settled(back);
                    &&& old(self).finds(back)
                    &&& n == least(wanted(*old(self)), pool.free.len())
                    &&& final(self).frames() == pool.taken(n as nat)
                    &&& read_into(*old(self), *final(self), pool, n as nat)
                },
            n <= wanted(*old(self)),
            n < wanted(*old(self)) ==> final(self).frames().free.len() == 0,
            n >= least(wanted(*old(self)), old(self).frames().free.len()),
    {
        let ghost start = *self;
        let ghost space = self.pool@.frame_size;
        self.pool.reclaim();
        let ghost ready = self.pool@;
        let ghost back = choose|back: Seq<Back>|
            start.pool.finds(back) && ready == #[trigger] start.pool@.settled(back);
        proof {
            self.pool.lemma_inv();
            lemma_taken(ready, 0);
        }
        let ghost op = fresh_read(space);
        let mut n: usize = 0;
        let mut more: bool = true;
        proof {
            assert(self@ =~= start@);
            assert(Seq::new(0, |i: int| op) =~= Seq::<Request>::empty());
            assert(start@.free.take(start@.free.len() as int) =~= start@.free);
            lemma_pow2_positive(start.ring.sqes@.len());
        }
        while more && self.rx_pending + self.ready.len() < self.cfg.rx_depth && self.free.len() > 0
            && self.ring.free_slots() > 0
            invariant
                start == *old(self),
                start.inv(),
                self.inv(),
                self.config() == start.config(),
                self.title() == start.title(),
                self.received() == start.received(),
                space == start.pool@.frame_size,
                self.pool@.frame_size == space,
                self.pool@.slots.len() == start.pool@.slots.len(),
                op == fresh_read(space),
                n <= wanted(start),
                n <= self.cfg.rx_depth,
                wanted(start) <= self.cfg.rx_depth,
                wanted(*self) == wanted(start) - n,
                self@.rx_load() == start@.rx_load() + n,
                self.ring.room() == start.ring.room() - n,
                ready.wf(),
                n <= ready.free.len(),
                ready.free.len() >= start.pool@.free.len(),
                ready.frame_size == space,
                self.pool@ == ready.taken(n as nat),
                read_into(start, *self, ready, n as nat),
                self@ == start@.queued_all(Seq::new(n as nat, |i: int| op)),
                self@.free == start@.free.take(start@.free.len() - n),
                self@.pending.len() == start@.pending.len(),
                posted_all(start, *self, n as nat, true, locate),
                forall|buf: PacketBuf| buf.inv() ==> #[trigger] locate.requires((&buf,)),
                !more ==> self.pool@.free.len() == 0,
            decreases
                wanted(*self),
                if more {
                    1int
                } else {
                    0
                },
        {
            let ghost mid0 = *self;
            proof {
                lemma_taken(ready, n as nat);
                lemma_wanted(start);
            }
            match self.pool.take(0) {
                None => {
                    more = false;
                    proof {
                        lemma_read_still(start, mid0, *self, ready, n as nat);
                        assert(self@ =~= mid0@);
                        lemma_posted_still(start, mid0, *self, n as nat, true, locate);
                    }
                },
                Some(buf) => {
                    let ghost mid = *self;
                    proof {
                        lemma_posted_still(start, mid0, mid, n as nat, true, locate);
                        lemma_read_still(start, mid0, mid, ready, n as nat);
                        mid0.pool.lemma_inv();
                        assert(mid@ =~= mid0@);
                        assert(request_of(buf, true) == op);
                    }
                    let address: u64 = locate(&buf);
                    let ghost given = buf;
                    self.queue(buf, true, address);
                    proof {
                        lemma_read_next(start, mid, *self, ready, n as nat, given);
                        lemma_posted_next(
                            start,
                            mid,
                            *self,
                            n as nat,
                            true,
                            buf,
                            address,
                            locate,
                        );
                        let ops = Seq::new((n + 1) as nat, |i: int| op);
                        assert(ops.drop_last() =~= Seq::new(n as nat, |i: int| op));
                        assert(self@.free =~= start@.free.take(start@.free.len() - (n + 1)));
                    }
                    n += 1;
                },
            }
        }
        proof {
            lemma_taken(ready, n as nat);
            assert(old(self).frames().settled(back) == ready);
        }
        n
    }
}

/// Whether the `n` reads that were queued got the topmost free frames of `pool`.
pub open spec fn read_into(
    before: UringTunDevice,
    after: UringTunDevice,
    pool: PoolState,
    n: nat,
) -> bool {
    forall|i: int|
        0 <= i < n ==> fresh(
            after.buffer(#[trigger] before@.number(i) as int),
            pool.taken(i as nat),
            pool.free[pool.free.len() - 1 - i],
            0,
        )
}

/// No more reads are wanted than there are numbers for them.
proof fn lemma_wanted(device: UringTunDevice)
    ensures
        wanted(device) <= device@.free.len(),
        wanted(device) <= device.queues().room(),
{
}

/// Reads keep their frames while the table stays.
proof fn lemma_read_still(
    start: UringTunDevice,
    mid: UringTunDevice,
    after: UringTunDevice,
    pool: PoolState,
    n: nat,
)
    requires
        read_into(start, mid, pool, n),
        forall|k: int| #[trigger] after.buffer(k) == mid.buffer(k),
    ensures
        read_into(start, after, pool, n),
{
    assert forall|i: int| 0 <= i < n implies fresh(
        after.buffer(#[trigger] start@.number(i) as int),
        pool.taken(i as nat),
        pool.free[pool.free.len() - 1 - i],
        0,
    ) by {
        assert(after.buffer(start@.number(i) as int) == mid.buffer(start@.number(i) as int));
    }
}

/// The next read gets the next frame.
proof fn lemma_read_next(
    start: UringTunDevice,
    mid: UringTunDevice,
    after: UringTunDevice,
    pool: PoolState,
    n: nat,
    buf: PacketBuf,
)
    requires
        start.inv(),
        n < start@.free.len(),
        read_into(start, mid, pool, n),
        mid@.free == start@.free.take(start@.free.len() - n),
        mid@.pending.len() == start@.pending.len(),
        fresh(buf, pool.taken(n), pool.free[pool.free.len() - 1 - n], 0),
        after.buffer(mid@.number(0) as int) == buf,
        forall|k: int|
            0 <= k < mid@.pending.len() && k != mid@.number(0) ==> #[trigger] after.buffer(k)
                == mid.buffer(k),
    ensures
        read_into(start, after, pool, n + 1),
{
    assert(mid@.number(0) == start@.number(n as int));
    assert forall|i: int| 0 <= i < n + 1 implies fresh(
        after.buffer(#[trigger] start@.number(i) as int),
        pool.taken(i as nat),
        pool.free[pool.free.len() - 1 - i],
        0,
    ) by {
        if i < n {
            assert(start@.free[start@.free.len() - 1 - i] < start@.pending.len());
            assert(start@.number(i) != start@.number(n as int));
            assert(after.buffer(start@.number(i) as int) == mid.buffer(start@.number(i) as int));
        }
    }
}

/// How many writes can be queued.
pub open spec fn acceptable(device: UringTunDevice, frames: nat) -> nat {
    least(least(frames, device@.free.len()), device.queues().room())
}

/// Whether the packet in a buffer can be written.
pub open spec fn writable(buf: PacketBuf) -> bool {
    0 < buf.size() <= u32::MAX
}

impl UringTunDevice {
    /// Queues writes of as many frames as numbers and ring allow; says how many. An empty
    /// frame among them is refused, and then nothing is queued. `locate` gives the
    /// address at which the packet in a buffer starts.
    pub fn queue_writes<F: Fn(&PacketBuf) -> u64>(
        &mut self,
        frames: &mut [PacketBuf],
        locate: F,
    ) -> (r: Result<usize, IoError>)
        requires
            old(self).inv(),
            sound(old(frames)@),
            forall|buf: PacketBuf| buf.inv() ==> #[trigger] locate.requires((&buf,)),
        ensures
            final(self).inv(),
            final(self).kept(*old(self)),
            final(self).received() == old(self).received(),
            ({
                let n = acceptable(*old(self), old(frames)@.len());
                if forall|i: int| 0 <= i < n ==> writable(#[trigger] old(frames)@[i]) {
                    &&& r == Ok::<usize, IoError>(n as usize)
                    &&& consumed(old(frames)@, final(frames)@, n as int)
                    &&& final(self)@ == old(self)@.queued_all(
                        Seq::new(n, |i: int| request_of(old(frames)@[i], false)),
                    )
                    &&& posted_all(*old(self), *final(self), n, false, locate)
                    &&& forall|i: int|
                        0 <= i < n ==> #[trigger] final(self).buffer(
                            old(self)@.number(i) as int,
                        ) == old(frames)@[i]
                } else {
                    &&& r == Err::<usize, IoError>(IoError::UringFrame)
                    &&& final(frames)@ == old(frames)@
                    &&& *final(self) == *old(self)
                }
            }),
    {
        let ghost start = *self;
        let ghost given = frames@;
        let mut n: usize = frames.len();
        if self.free.len() < n {
            n = self.free.len();
        }
        if self.ring.free_slots() < n {
            n = self.ring.free_slots();
        }
        let mut i: usize = 0;
        while i < n
            invariant
                start == *old(self),
                *self == start,
                start.inv(),
                given == old(frames)@,
                frames@ == given,
                n == acceptable(start, given.len()),
                forall|j: int| 0 <= j < i ==> writable(#[trigger] given[j]),
            decreases n - i,
        {
            if frames[i].is_empty() || frames[i].len() as u64 > u32::MAX as u64 {
                assert(!writable(given[i as int]));
                return Err(IoError::UringFrame);
            }
            i += 1;
        }
        let mut sent: usize = 0;
        proof {
            assert(Seq::new(0, |i: int| request_of(given[i], false)) =~= Seq::<Request>::empty());
            assert(start@.free.take(start@.free.len() as int) =~= start@.free);
            lemma_pow2_positive(start.ring.sqes@.len());
        }
        while sent < n
            invariant
                start == *old(self),
                start.inv(),
                self.inv(),
                self.kept(start),
                given == old(frames)@,
                sound(given),
                sent <= n,
                n == acceptable(start, given.len()),
                consumed(given, frames@, sent as int),
                self.received() == start.received(),
                self.ring.room() == start.ring.room() - sent,
                self@ == start@.queued_all(
                    Seq::new(sent as nat, |i: int| request_of(given[i], false)),
                ),
                self@.free == start@.free.take(start@.free.len() - sent),
                self@.pending.len() == start@.pending.len(),
                posted_all(start, *self, sent as nat, false, locate),
                forall|j: int|
                    0 <= j < sent ==> #[trigger] self.buffer(start@.number(j) as int) == given[j],
                forall|buf: PacketBuf| buf.inv() ==> #[trigger] locate.requires((&buf,)),
            decreases n - sent,
        {
            let ghost mid = *self;
            let mut frame = PacketBuf::default();
            std::mem::swap(&mut frame, &mut frames[sent]);
            assert(frame == given[sent as int]);
            let address: u64 = locate(&frame);
            let ghost buf = frame;
            self.queue(frame, false, address);
            proof {
                lemma_posted_next(start, mid, *self, sent as nat, false, buf, address, locate);
                let ops = Seq::new((sent + 1) as nat, |i: int| request_of(given[i], false));
                assert(ops.drop_last() =~= Seq::new(
                    sent as nat,
                    |i: int| request_of(given[i], false),
                ));
                assert(self@.free =~= start@.free.take(start@.free.len() - (sent + 1)));
                assert(mid@.number(0) == start@.number(sent as int));
                assert forall|j: int| 0 <= j < sent + 1 implies #[trigger] self.buffer(
                    start@.number(j) as int,
                ) == given[j] by {
                    assert(start@.free[start@.free.len() - 1 - j] < start@.pending.len());
                    if j < sent {
                        assert(start@.number(j) != start@.number(sent as int));
                        assert(mid.buffer(start@.number(j) as int) == given[j]);
                    }
                }
            }
            sent += 1;
        }
        Ok(n)
    }

    /// Hands out up to `max` of the packets that were received, the oldest one first;
    /// says how many.
    pub fn hand_out(&mut self, max: usize, out: &mut Vec<PacketBuf>) -> (n: usize)
        requires
            old(self).inv(),
        ensures
            final(self).inv(),
            final(self).kept(*old(self)),
            final(self).queues() == old(self).queues(),
            n == least(max as nat, old(self).received().len()),
            final(out)@ == old(out)@ + old(self).received().take(n as int),
            final(self).received() == old(self).received().skip(n as int),
            final(self)@ == (UringModel { ready: old(self)@.ready.skip(n as int), ..old(self)@ }),
            forall|k: int|
                0 <= k < old(self)@.pending.len() ==> #[trigger] final(self).buffer(k) == old(
                    self,
                ).buffer(k),
            sound(old(self).received()),
    {
        let ghost start = *self;
        let ghost before = out@;
        let mut n: usize = 0;
        proof {
            assert(start.ready@.take(0) =~= Seq::<PacketBuf>::empty());
            assert(start.ready@.skip(0) =~= start.ready@);
            assert(before + start.ready@.take(0) =~= before);
        }
        while n < max && self.ready.len() > 0
            invariant
                start == *old(self),
                start.inv(),
                self.inv(),
                self.kept(start),
                self.ring == start.ring,
                n <= max,
                n <= start.ready@.len(),
                self.ready@ == start.ready@.skip(n as int),
                out@ == before + start.ready@.take(n as int),
                self@.pending == start@.pending,
                self.pending == start.pending,
                self.free == start.free,
                self.stats == start.stats,
                self.error == start.error,
            decreases max - n,
        {
            match self.ready.pop_front() {
                None => {},
                Some(buf) => {
                    assert(buf == start.ready@[n as int]);
                    out.push(buf);
                    proof {
                        assert(self.ready@ =~= start.ready@.skip(n + 1));
                        assert(start.ready@.take(n + 1) =~= start.ready@.take(n as int).push(buf));
                        assert(out@ =~= before + start.ready@.take(n + 1));
                        assert(self@.pending =~= start@.pending);
                    }
                },
            }
            n += 1;
        }
        assert(self@.ready =~= start@.ready.skip(n as int));
        n
    }

    /// An empty frame to be filled and sent, if one is free.
    pub fn allocate(&mut self) -> (frame: Option<PacketBuf>)
        requires
            old(self).inv(),
        ensures
            final(self).inv(),
            final(self)@ == old(self)@,
            final(self).queues() == old(self).queues(),
            final(self).config() == old(self).config(),
            final(self).title() == old(self).title(),
            final(self).undisturbed(*old(self)),
            final(self).frames().frame_size == old(self).frames().frame_size,
            exists|back: Seq<Back>|
                old(self).finds(back) && #[trigger] old(self).frames().gives(
                    back,
                    frame,
                    final(self).frames(),
                ),
            frame matches Some(buf) ==> buf.inv() && buf.live() && buf.size() == 0
                && buf.frame().len() == old(self).frames().frame_size,
            old(self).frames().free.len() > 0 ==> frame is Some,
            frame is None ==> final(self).frames().free.len() == 0,
    {
        self.pool.reclaim();
        let ghost s = self.pool@;
        let ghost back = choose|back: Seq<Back>|
            old(self).pool.finds(back) && s == #[trigger] old(self).pool@.settled(back);
        proof {
            self.pool.lemma_inv();
            assert(s.taken(0) == s);
            assert(s.free.len() > 0 ==> s.free[s.free.len() - 1] < s.slots.len());
        }
        let frame = self.pool.take(0);
        assert(self@ =~= old(self)@);
        assert(old(self).frames().gives(back, frame, self.frames()));
        frame
    }

    /// Appends up to `max` empty frames; says how many.
    #[verifier::spinoff_prover]
    pub fn alloc_batch(&mut self, max: usize, out: &mut Vec<PacketBuf>) -> (n: usize)
        requires
            old(self).inv(),
        ensures
            final(self).inv(),
            final(self)@ == old(self)@,
            final(self).queues() == old(self).queues(),
            final(self).config() == old(self).config(),
            final(self).title() == old(self).title(),
            final(self).undisturbed(*old(self)),
            final(self).frames().frame_size == old(self).frames().frame_size,
            exists|back: Seq<Back>|
                {
                    let s = #[trigger] old(self).frames().settled(back);
                    let indices = batch(s.free, max as nat);
                    &&& old(self).finds(back)
                    &&& n == indices.len()
                    &&& appended(old(out)@, final(out)@, s, indices)
                    &&& final(self).frames() == s.without(n as nat).handed_all(indices)
                },
            supplied(old(out)@, final(out)@, n as int),
            least(max as nat, old(self).frames().free.len()) <= n <= max,
    {
        let ghost s0 = self.pool@;
        proof {
            self.pool.lemma_inv();
        }
        let n: usize = self.pool.alloc_batch(max, out);
        proof {
            assert(self@ =~= old(self)@);
            let back = choose|back: Seq<Back>|
                {
                    let s = #[trigger] s0.settled(back);
                    let indices = batch(s.free, max as nat);
                    &&& old(self).finds(back)
                    &&& n == indices.len()
                    &&& appended(old(out)@, out@, s, indices)
                    &&& self.pool@ == s.without(n as nat).handed_all(indices)
                };
            let s = s0.settled(back);
            let indices = batch(s.free, max as nat);
            assert(s == old(self).frames().settled(back));
            assert(appended(old(out)@, out@, s, indices));
            assert(self.frames() == s.without(n as nat).handed_all(indices));
            lemma_settled(s0, back);
            lemma_batch(s.free, max as nat);
            assert forall|i: int| 0 <= i < indices.len() implies #[trigger] indices[i]
                < s.slots.len() by {
                let top = s.free.skip(s.free.len() - indices.len());
                assert(top.contains(indices[i]));
                let k = choose|k: int| 0 <= k < top.len() && top[k] == indices[i];
                assert(s.free[s.free.len() - indices.len() + k] == indices[i]);
            }
            lemma_handed_all(s.without(n as nat), indices);
            assert forall|i: int| old(out)@.len() <= i < out@.len() implies (
            #[trigger] out@[i]).inv() && out@[i].live() && out@[i].size() == 0 by {
                let k = i - old(out)@.len();
                assert(fresh(out@[old(out)@.len() + k], s, indices[k], 0));
            }
        }
        n
    }

    /// How large a frame is, headroom and all.
    pub fn frame_size(&self) -> (n: usize)
        ensures
            n == self.frames().frame_size,
    {
        self.pool.frame_size()
    }
}

/// The frames of the requests under way among the first `n` numbers.
pub open spec fn outstanding(device: UringTunDevice, n: nat) -> Seq<PacketBuf>
    decreases n,
{
    if n == 0 {
        Seq::empty()
    } else {
        let before = outstanding(device, (n - 1) as nat);
        if device@.pending[n - 1] is Some {
            before.push(device.buffer(n - 1))
        } else {
            before
        }
    }
}

impl UringTunDevice {
    /// Gives up all requests under way and hands out their frames. Where they could not
    /// be cancelled the kernel may still use these, so they must never be used again.
    pub fn abandon(&mut self) -> (frames: Vec<PacketBuf>)
        requires
            old(self).inv(),
        ensures
            final(self).inv(),
            final(self).kept(*old(self)),
            final(self).queues() == old(self).queues(),
            final(self).received() == old(self).received(),
            frames@ == outstanding(*old(self), old(self)@.pending.len()),
            final(self)@ == (UringModel {
                pending: Seq::new(old(self)@.pending.len(), |i: int| None),
                free: Seq::new(
                    old(self)@.pending.len(),
                    |i: int| (old(self)@.pending.len() - 1 - i) as usize,
                ),
                ..old(self)@
            }),
    {
        let ghost start = *self;
        let entries: usize = self.pending.len();
        let mut frames: Vec<PacketBuf> = Vec::new();
        let mut pending: Vec<Option<Pending>> = Vec::new();
        std::mem::swap(&mut pending, &mut self.pending);
        let mut id: usize = 0;
        while id < entries
            invariant
                start == *old(self),
                id <= entries,
                entries == start.pending@.len(),
                pending@.len() == entries,
                forall|i: int| 0 <= i < id ==> (#[trigger] pending@[i]) is None,
                forall|i: int| id <= i < entries ==> #[trigger] pending@[i] == start.pending@[i],
                frames@ == outstanding(start, id as nat),
            decreases entries - id,
        {
            let mut slot: Option<Pending> = None;
            std::mem::swap(&mut slot, &mut pending[id]);
            match slot {
                None => {},
                Some(op) => {
                    let Pending { buf, read: _ } = op;
                    frames.push(buf);
                },
            }
            assert(start@.pending[id as int] == described(start.pending@[id as int]));
            id += 1;
        }
        let mut free: Vec<usize> = Vec::with_capacity(entries);
        let mut left: usize = entries;
        while left > 0
            invariant
                left <= entries,
                free@ == Seq::new((entries - left) as nat, |i: int| (entries - 1 - i) as usize),
            decreases left,
        {
            left -= 1;
            free.push(left);
            assert(free@ =~= Seq::new((entries - left) as nat, |i: int| (entries - 1 - i) as usize));
        }
        self.pending = pending;
        self.free = free;
        self.rx_pending = 0;
        self.tx_pending = 0;
        proof {
            let m = self@;
            assert(m.pending =~= Seq::new(start@.pending.len(), |i: int| None));
            assert(m.free =~= Seq::new(entries as nat, |i: int| (entries - 1 - i) as usize));
            assert(m.ready =~= start@.ready);
            lemma_none_under_way(m.pending, true);
            lemma_none_under_way(m.pending, false);
            assert forall|id: usize| id < m.pending.len() implies (#[trigger] m.pending[id as int]
                is None <==> m.free.contains(id)) by {
                assert(m.free[m.free.len() - 1 - id] == id);
            }
        }
        frames
    }
}

/// A completion gives its number back: a request that was queued and then completed
/// leaves the table as it was, and its number is the next one to be used.
pub proof fn law_completing_undoes_queueing(
    m: UringModel,
    op: Request,
    result: i32,
    flags: u32,
    errno: Errno,
)
    requires
        m.wf(),
        m.free.len() > 0,
        op.size <= op.room,
    ensures
        ({
            let cqe = Cqe { user_data: m.number(0) as u64, result, flags };
            let after = m.queued(op).completed(cqe, errno);
            &&& m.queued(op).live(cqe.user_data)
            &&& after.pending == m.pending
            &&& after.free == m.free
            &&& after.ready.len() <= m.ready.len() + 1
        }),
{
    let id = m.number(0);
    let cqe = Cqe { user_data: id as u64, result, flags };
    let after = m.queued(op).completed(cqe, errno);
    assert(m.free[m.free.len() - 1] == id);
    assert(m.pending[id as int] is None) by {
        assert(m.free.contains(id));
    }
    assert(after.pending =~= m.pending);
    assert(after.free =~= m.free);
}

/// Every completion is counted once: as a packet received or sent, or as a fault. Only
/// a read that found nothing, or that a signal interrupted, is not counted.
pub proof fn law_completions_are_counted(m: UringModel, cqe: Cqe, errno: Errno)
    requires
        m.wf(),
        m.live(cqe.user_data),
        m.stats.rx_completed < u64::MAX,
        m.stats.tx_completed < u64::MAX,
        m.stats.rx_errors < u64::MAX,
        m.stats.tx_errors < u64::MAX,
    ensures
        ({
            let op = m.pending[cqe.user_data as int]->0;
            let s = m.stats;
            let t = m.completed(cqe, errno).stats;
            let counted = if op.read && cqe.result < 0 && (negated(cqe.result) == errno.again
                || negated(cqe.result) == errno.interrupted) {
                0int
            } else {
                1
            };
            if op.read {
                &&& t.rx_completed + t.rx_errors == s.rx_completed + s.rx_errors + counted
                &&& t.tx_completed == s.tx_completed
                &&& t.tx_errors == s.tx_errors
            } else {
                &&& t.tx_completed + t.tx_errors == s.tx_completed + s.tx_errors + counted
                &&& t.rx_completed == s.rx_completed
                &&& t.rx_errors == s.rx_errors
            }
        }),
{
}

/// The first error is the one that is reported.
pub proof fn law_first_error_is_kept(m: UringModel, first: IoError, second: IoError)
    requires
        m.error is None,
    ensures
        m.failing(first).failing(second).error == Some(first),
{
}

/// No completion asks for more packets to be received than were asked for: the requests
/// to read and the packets that wait do not become more.
pub proof fn law_completions_keep_the_budget(m: UringModel, cqe: Cqe, errno: Errno)
    requires
        m.wf(),
        m.live(cqe.user_data),
    ensures
        m.completed(cqe, errno).rx_load() <= m.rx_load(),
        m.completed(cqe, errno).wf(),
{
    let id = cqe.user_data as usize;
    lemma_ended(m, id);
    lemma_under_way_update(m.pending, id as int, None, true);
}

/// Every accepted request is under way until it completes, and is counted once: queueing
/// requests adds each of them to those under way and to those submitted, and nothing
/// completes by it.
pub proof fn law_accepted_requests_are_under_way(m: UringModel, ops: Seq<Request>)
    requires
        m.wf(),
        ops.len() <= m.free.len(),
        forall|i: int| 0 <= i < ops.len() ==> (#[trigger] ops[i]).size <= ops[i].room,
        m.stats.rx_submitted + ops.len() <= u64::MAX,
        m.stats.tx_submitted + ops.len() <= u64::MAX,
    ensures
        ({
            let after = m.queued_all(ops);
            &&& after.wf()
            &&& after.free == m.free.take(m.free.len() - ops.len())
            &&& after.ready == m.ready
            &&& after.error == m.error
            &&& under_way(after.pending, true) + under_way(after.pending, false) == under_way(
                m.pending,
                true,
            ) + under_way(m.pending, false) + ops.len()
            &&& after.stats.rx_submitted + after.stats.tx_submitted == m.stats.rx_submitted
                + m.stats.tx_submitted + ops.len()
            &&& m.stats.rx_submitted <= after.stats.rx_submitted
            &&& m.stats.tx_submitted <= after.stats.tx_submitted
            &&& after.stats.rx_completed == m.stats.rx_completed
            &&& after.stats.tx_completed == m.stats.tx_completed
        }),
    decreases ops.len(),
{
    if ops.len() == 0 {
        assert(m.free.take(m.free.len() as int) =~= m.free);
    } else {
        let front = ops.drop_last();
        assert forall|i: int| 0 <= i < front.len() implies (#[trigger] front[i]).size
            <= front[i].room by {
            assert(front[i] == ops[i]);
        }
        law_accepted_requests_are_under_way(m, front);
        let mid = m.queued_all(front);
        let op = ops.last();
        assert(ops[ops.len() - 1].size <= ops[ops.len() - 1].room);
        lemma_queued(mid, op);
        let id = mid.free.last();
        assert(mid.free[mid.free.len() - 1] == id);
        assert(mid.pending[id as int] is None) by {
            assert(mid.free.contains(id));
        }
        lemma_under_way_update(mid.pending, id as int, Some(op), true);
        lemma_under_way_update(mid.pending, id as int, Some(op), false);
        assert(mid.free.drop_last() =~= m.free.take(m.free.len() - ops.len()));
    }
}

} // verus!
