//! One AF_XDP queue with bounded batches and explicit ownership of frames.
use vstd::prelude::*;

use super::prog::AttachMode;
use super::socket::XskSocket;
use super::sys::{SockAddrXdp, XDP_COPY, XDP_USE_NEED_WAKEUP, XDP_ZEROCOPY};
use super::umem::{is_pow2, moved, pow2, ring_size, validate_ring_size, Producer, Ring, UMem};
use crate::device::free_list::{least, FreeList};
use crate::error::IoError;

verus! {

/// How packets are moved. `Auto` lets the kernel fall back; `ZeroCopy` is strict.
#[derive(Clone, Copy, Debug, PartialEq, Eq, Structural)]
pub enum XdpMode {
    Auto,
    Copy,
    ZeroCopy,
}

impl Default for XdpMode {
    fn default() -> (mode: XdpMode)
        ensures
            mode == XdpMode::Auto,
    {
        XdpMode::Auto
    }
}

/// The geometry of a device.
#[derive(Clone, Copy, Debug, PartialEq, Eq, Structural)]
pub struct XdpConfig {
    pub frames: usize,
    pub chunk_size: usize,
    /// Further headroom of each frame; a received packet lies where its descriptor
    /// says, which can be after the kernel's own headroom.
    pub headroom: usize,
    pub fill_entries: usize,
    pub cq_entries: usize,
    pub rx_entries: usize,
    pub tx_entries: usize,
    pub attach: bool,
    /// Forces the generic path, in which `Auto` means to copy.
    pub attach_generic: bool,
    pub max_queues: u32,
    pub mode: XdpMode,
    /// How many packets one operation handles at most.
    pub batch_size: usize,
    /// Free frames withheld from reception so that sending makes progress.
    pub tx_reserve: usize,
}

impl Default for XdpConfig {
    fn default() -> (cfg: XdpConfig)
        ensures
            cfg == (XdpConfig {
                frames: 4096,
                chunk_size: 4096,
                headroom: 0,
                fill_entries: 2048,
                cq_entries: 2048,
                rx_entries: 1024,
                tx_entries: 1024,
                attach: true,
                attach_generic: false,
                max_queues: 64,
                mode: XdpMode::Auto,
                batch_size: 64,
                tx_reserve: 512,
            }),
    {
        XdpConfig {
            frames: 4096,
            chunk_size: 4096,
            headroom: 0,
            fill_entries: 2048,
            cq_entries: 2048,
            rx_entries: 1024,
            tx_entries: 1024,
            attach: true,
            attach_generic: false,
            max_queues: 64,
            mode: XdpMode::Auto,
            batch_size: 64,
            tx_reserve: 512,
        }
    }
}

impl XdpConfig {
    /// Whether every ring has a size that rings can have.
    pub open spec fn rings_fit(self) -> bool {
        ring_size(self.fill_entries as nat) && ring_size(self.cq_entries as nat) && ring_size(
            self.rx_entries as nat,
        ) && ring_size(self.tx_entries as nat)
    }

    /// Whether the rest of the geometry is consistent, for this queue.
    pub open spec fn consistent(self, queue: u32) -> bool {
        &&& self.frames >= 2
        &&& self.tx_reserve < self.frames
        &&& 0 < self.batch_size <= 4096
        &&& pow2(self.chunk_size as nat)
        &&& 2048 <= self.chunk_size <= u32::MAX
        &&& self.headroom <= self.chunk_size - 256
        &&& self.frames * self.chunk_size <= usize::MAX
        &&& queue < self.max_queues
        &&& !(self.attach_generic && self.mode == XdpMode::ZeroCopy)
    }

    /// Refuses a geometry that is not consistent.
    pub fn validate(&self, queue: u32) -> (r: Result<(), IoError>)
        ensures
            r is Ok <==> self.rings_fit() && self.consistent(queue),
            r matches Err(e) ==> e == (if self.rings_fit() {
                IoError::XdpConfig
            } else {
                IoError::RingSize
            }),
    {
        if validate_ring_size(self.fill_entries).is_err() || validate_ring_size(
            self.cq_entries,
        ).is_err() || validate_ring_size(self.rx_entries).is_err() || validate_ring_size(
            self.tx_entries,
        ).is_err() {
            return Err(IoError::RingSize);
        }
        if self.frames < 2 || self.tx_reserve >= self.frames || self.batch_size == 0
            || self.batch_size > 4096 || !is_pow2(self.chunk_size) || self.chunk_size < 2048
            || self.chunk_size as u64 > u32::MAX as u64 || self.headroom > self.chunk_size - 256
            || self.frames.checked_mul(self.chunk_size).is_none() || queue >= self.max_queues || (
        self.attach_generic && self.mode == XdpMode::ZeroCopy) {
            return Err(IoError::XdpConfig);
        }
        Ok(())
    }

    /// The flags to bind with once the program is attached in this way.
    pub open spec fn flags(self, attach_mode: AttachMode) -> u16 {
        XDP_USE_NEED_WAKEUP | (match self.mode {
            XdpMode::ZeroCopy => XDP_ZEROCOPY,
            XdpMode::Copy => XDP_COPY,
            XdpMode::Auto => if attach_mode == AttachMode::Generic {
                XDP_COPY
            } else {
                0
            },
        })
    }

    /// Decides how to bind. Another program's map is not this device's, and the generic
    /// path cannot do without copying.
    pub fn bind_request(&self, attach_mode: AttachMode) -> (r: Result<u16, IoError>)
        ensures
            r == (if attach_mode == AttachMode::AlreadyAttached {
                Err(IoError::ProgramAttached)
            } else if attach_mode == AttachMode::Generic && self.mode == XdpMode::ZeroCopy {
                Err(IoError::GenericZeroCopy)
            } else {
                Ok(self.flags(attach_mode))
            }),
    {
        if attach_mode == AttachMode::AlreadyAttached {
            return Err(IoError::ProgramAttached);
        }
        if attach_mode == AttachMode::Generic && self.mode == XdpMode::ZeroCopy {
            return Err(IoError::GenericZeroCopy);
        }
        let how: u16 = match self.mode {
            XdpMode::ZeroCopy => XDP_ZEROCOPY,
            XdpMode::Copy => XDP_COPY,
            XdpMode::Auto => if attach_mode == AttachMode::Generic {
                XDP_COPY
            } else {
                0
            },
        };
        Ok(XDP_USE_NEED_WAKEUP | how)
    }

    /// Whether arena and rings are as large as configured.
    pub open spec fn shapes(self, umem: UMem, xsk: XskSocket) -> bool {
        &&& umem.num_frames == self.frames
        &&& umem.chunk_size == self.chunk_size
        &&& umem.fq.ring.entries == self.fill_entries
        &&& umem.cq.ring.entries == self.cq_entries
        &&& xsk.rx.ring.entries == self.rx_entries
        &&& xsk.tx.ring.entries == self.tx_entries
    }

    /// How many frames the kernel may hold to receive into.
    pub open spec fn rx_target(self) -> nat {
        least(self.fill_entries as nat, (self.frames - self.tx_reserve) as nat)
    }
}

/// What a device has counted.
#[derive(Clone, Copy, Debug, PartialEq, Eq, Structural)]
pub struct XdpCounters {
    pub rx_packets: u64,
    pub tx_submitted: u64,
    pub tx_completed: u64,
    pub tx_backpressure: u64,
    pub invalid_descriptors: u64,
}

impl XdpCounters {
    /// Nothing was counted.
    pub open spec fn none() -> XdpCounters {
        XdpCounters {
            rx_packets: 0,
            tx_submitted: 0,
            tx_completed: 0,
            tx_backpressure: 0,
            invalid_descriptors: 0,
        }
    }
}

impl Default for XdpCounters {
    fn default() -> (counters: XdpCounters)
        ensures
            counters == XdpCounters::none(),
    {
        XdpCounters {
            rx_packets: 0,
            tx_submitted: 0,
            tx_completed: 0,
            tx_backpressure: 0,
            invalid_descriptors: 0,
        }
    }
}

/// Who has a frame.
#[derive(Clone, Copy, Debug, PartialEq, Eq, Structural)]
pub enum Owner {
    Free,
    /// The kernel, to receive into.
    RxKernel,
    /// The application.
    App,
    /// The kernel, to send.
    TxKernel,
}

/// A packet in a frame that the application has.
#[derive(Clone, Copy, Debug, PartialEq, Eq, Structural)]
pub struct Lease {
    pub idx: usize,
    pub offset: usize,
    pub len: usize,
}

/// Where a descriptor lies: the frame and the offset in it, if it names a packet inside
/// one frame of the arena.
pub open spec fn place(addr: u64, len: u32, chunk: nat, frames: nat) -> Option<(int, int)> {
    let idx = addr as int / chunk as int;
    let offset = addr as int % chunk as int;
    if addr <= usize::MAX && idx < frames && len > 0 && len <= chunk - offset {
        Some((idx, offset))
    } else {
        None
    }
}

/// Finds the frame and the offset in it that a descriptor names.
pub fn decode_rx(addr: u64, len: u32, chunk: usize, frames: usize) -> (found: Option<(usize, usize)>)
    requires
        chunk > 0,
    ensures
        match found {
            None => place(addr, len, chunk as nat, frames as nat) is None,
            Some((idx, offset)) => place(addr, len, chunk as nat, frames as nat) == Some(
                (idx as int, offset as int),
            ),
        },
{
    if addr > usize::MAX as u64 {
        return None;
    }
    let a: usize = addr as usize;
    let idx: usize = a / chunk;
    let offset: usize = a % chunk;
    if idx < frames && len > 0 && len as u64 <= (chunk - offset) as u64 {
        Some((idx, offset))
    } else {
        None
    }
}

/// How many frames `who` has.
pub open spec fn count(owner: Seq<Owner>, who: Owner) -> nat
    decreases owner.len(),
{
    if owner.len() == 0 {
        0
    } else {
        count(owner.drop_last(), who) + (if owner.last() == who {
            1nat
        } else {
            0
        })
    }
}

/// When a frame changes hands, one count falls and another rises.
pub proof fn lemma_count_update(owner: Seq<Owner>, i: int, to: Owner, who: Owner)
    requires
        0 <= i < owner.len(),
    ensures
        count(owner.update(i, to), who) == count(owner, who) - (if owner[i] == who {
            1int
        } else {
            0
        }) + (if to == who {
            1int
        } else {
            0
        }),
    decreases owner.len(),
{
    let next = owner.update(i, to);
    if i == owner.len() - 1 {
        assert(next.drop_last() =~= owner.drop_last());
    } else {
        lemma_count_update(owner.drop_last(), i, to, who);
        assert(next.drop_last() =~= owner.drop_last().update(i, to));
    }
}

/// Nobody has more frames than there are, and together they have all.
pub proof fn law_frames_are_conserved(owner: Seq<Owner>)
    ensures
        count(owner, Owner::Free) + count(owner, Owner::RxKernel) + count(owner, Owner::App)
            + count(owner, Owner::TxKernel) == owner.len(),
    decreases owner.len(),
{
    if owner.len() > 0 {
        law_frames_are_conserved(owner.drop_last());
    }
}

/// What a device holds apart from its rings.
#[verifier::ext_equal]
pub struct XdpModel {
    /// The free frames; the last one is handed out next.
    pub free: Seq<usize>,
    pub owner: Seq<Owner>,
    pub counters: XdpCounters,
}

impl XdpModel {
    /// Every frame has one owner, and the free ones are those on the free list.
    pub open spec fn wf(self) -> bool {
        &&& self.free.no_duplicates()
        &&& forall|i: int| 0 <= i < self.free.len() ==> #[trigger] self.free[i] < self.owner.len()
        &&& forall|idx: usize|
            idx < self.owner.len() ==> (#[trigger] self.owner[idx as int] == Owner::Free
                <==> self.free.contains(idx))
    }

    /// The device after a malformed or unexpected descriptor.
    pub open spec fn rejected(self) -> XdpModel {
        XdpModel {
            counters: XdpCounters {
                invalid_descriptors: self.counters.invalid_descriptors.wrapping_add(1),
                ..self.counters
            },
            ..self
        }
    }

    /// The device after frame `idx` became free.
    pub open spec fn freed(self, idx: usize) -> XdpModel {
        XdpModel {
            free: self.free.push(idx),
            owner: self.owner.update(idx as int, Owner::Free),
            ..self
        }
    }

    /// The device after frame `idx` changed hands, the free list apart.
    pub open spec fn given(self, idx: usize, to: Owner) -> XdpModel {
        XdpModel { owner: self.owner.update(idx as int, to), ..self }
    }

    /// The device after the kernel reported that what lies at `addr` was sent. The
    /// address leads to the frame that contains it.
    pub open spec fn completed(self, addr: u64, chunk: nat) -> XdpModel {
        let idx = addr as int / chunk as int;
        if idx < self.owner.len() && self.owner[idx] == Owner::TxKernel {
            let m = self.freed(idx as usize);
            XdpModel {
                counters: XdpCounters {
                    tx_completed: m.counters.tx_completed.wrapping_add(1),
                    ..m.counters
                },
                ..m
            }
        } else {
            self.rejected()
        }
    }

    /// The device after the kernel reported the first `n` of these.
    pub open spec fn completed_all(self, descs: Seq<(u64, u32)>, chunk: nat, n: nat) -> XdpModel
        decreases n,
    {
        if n == 0 {
            self
        } else {
            self.completed_all(descs, chunk, (n - 1) as nat).completed(descs[n - 1].0, chunk)
        }
    }

    /// What a descriptor of a received packet gives the application, if it names a
    /// packet in a frame that the kernel has to receive into.
    pub open spec fn lease(self, d: (u64, u32), chunk: nat) -> Option<Lease> {
        match place(d.0, d.1, chunk, self.owner.len()) {
            None => None,
            Some((idx, offset)) => if self.owner[idx] == Owner::RxKernel {
                Some(Lease { idx: idx as usize, offset: offset as usize, len: d.1 as usize })
            } else {
                None
            },
        }
    }

    /// The device after a descriptor of a received packet.
    pub open spec fn received(self, d: (u64, u32), chunk: nat) -> XdpModel {
        match self.lease(d, chunk) {
            None => self.rejected(),
            Some(lease) => self.given(lease.idx, Owner::App),
        }
    }

    /// The device after the first `n` descriptors of received packets.
    pub open spec fn received_all(self, descs: Seq<(u64, u32)>, chunk: nat, n: nat) -> XdpModel
        decreases n,
    {
        if n == 0 {
            self
        } else {
            self.received_all(descs, chunk, (n - 1) as nat).received(descs[n - 1], chunk)
        }
    }

    /// What the application gets of the first `n` descriptors.
    pub open spec fn leases(self, descs: Seq<(u64, u32)>, chunk: nat, n: nat) -> Seq<Lease>
        decreases n,
    {
        if n == 0 {
            Seq::empty()
        } else {
            let so_far = self.leases(descs, chunk, (n - 1) as nat);
            match self.received_all(descs, chunk, (n - 1) as nat).lease(descs[n - 1], chunk) {
                None => so_far,
                Some(lease) => so_far.push(lease),
            }
        }
    }
}

/// A packet to send: where it lies, and whether its frame is one of this device's.
#[derive(Clone, Copy, Debug, PartialEq, Eq, Structural)]
pub struct Outgoing {
    pub lease: Lease,
    pub mine: bool,
}

/// The frames of packets to send.
pub open spec fn tx_indices(frames: Seq<Outgoing>) -> Seq<usize> {
    Seq::new(frames.len(), |i: int| frames[i].lease.idx)
}

/// The descriptors of packets to send.
pub open spec fn tx_descs(frames: Seq<Outgoing>, chunk: nat) -> Seq<(u64, u32)> {
    Seq::new(
        frames.len(),
        |i: int|
            (
                (frames[i].lease.idx * chunk + frames[i].lease.offset) as u64,
                frames[i].lease.len as u32,
            ),
    )
}

impl XdpModel {
    /// The device after packets were received.
    pub open spec fn counted_rx(self, n: nat) -> XdpModel {
        XdpModel {
            counters: XdpCounters {
                rx_packets: self.counters.rx_packets.wrapping_add(n as u64),
                ..self.counters
            },
            ..self
        }
    }

    /// The device after a sender may have been told to wait.
    pub open spec fn counted_wait(self, waits: bool) -> XdpModel {
        if waits {
            XdpModel {
                counters: XdpCounters {
                    tx_backpressure: self.counters.tx_backpressure.wrapping_add(1),
                    ..self.counters
                },
                ..self
            }
        } else {
            self
        }
    }

    /// Whether a packet can be sent: it is not empty, and lies in a frame of this device
    /// that the application has.
    pub open spec fn usable(self, f: Outgoing, chunk: nat) -> bool {
        &&& f.mine
        &&& f.lease.len > 0
        &&& f.lease.idx < self.owner.len()
        &&& self.owner[f.lease.idx as int] == Owner::App
        &&& f.lease.offset + f.lease.len <= chunk
    }

    /// Whether every one of the packets can be sent.
    pub open spec fn sendable(self, frames: Seq<Outgoing>, chunk: nat) -> bool {
        forall|i: int| 0 <= i < frames.len() ==> self.usable(#[trigger] frames[i], chunk)
    }

    /// The device after packets were handed to the kernel to send.
    pub open spec fn submitted(self, frames: Seq<Outgoing>) -> XdpModel {
        XdpModel {
            owner: marked(self.owner, tx_indices(frames), Owner::TxKernel),
            counters: XdpCounters {
                tx_submitted: self.counters.tx_submitted.wrapping_add(frames.len() as u64),
                ..self.counters
            },
            ..self
        }
    }

    /// The device after the application got the frame that was freed last.
    pub open spec fn taken(self) -> XdpModel {
        XdpModel {
            free: self.free.drop_last(),
            owner: self.owner.update(self.free.last() as int, Owner::App),
            ..self
        }
    }
}

/// A frame that changes hands between others stays off the free list.
proof fn lemma_given(m: XdpModel, idx: usize, to: Owner)
    requires
        m.wf(),
        idx < m.owner.len(),
        m.owner[idx as int] != Owner::Free,
        to != Owner::Free,
    ensures
        m.given(idx, to).wf(),
{
    let after = m.given(idx, to);
    assert forall|x: usize| x < after.owner.len() implies (#[trigger] after.owner[x as int]
        == Owner::Free <==> after.free.contains(x)) by {
        assert(m.owner[x as int] == Owner::Free <==> m.free.contains(x));
    }
}

/// Frames that change hands between others stay off the free list.
proof fn lemma_marked_wf(m: XdpModel, indices: Seq<usize>, from: Owner, to: Owner)
    requires
        m.wf(),
        indices.no_duplicates(),
        from != to,
        from != Owner::Free,
        to != Owner::Free,
        forall|i: int|
            0 <= i < indices.len() ==> #[trigger] indices[i] < m.owner.len()
                && m.owner[indices[i] as int] == from,
    ensures
        (XdpModel { owner: marked(m.owner, indices, to), ..m }).wf(),
{
    lemma_marked(m.owner, indices, from, to);
    let after = XdpModel { owner: marked(m.owner, indices, to), ..m };
    assert forall|x: usize| x < after.owner.len() implies (#[trigger] after.owner[x as int]
        == Owner::Free <==> after.free.contains(x)) by {
        assert(m.owner[x as int] == Owner::Free <==> m.free.contains(x));
        if indices.contains(x) {
            let k = choose|k: int| 0 <= k < indices.len() && indices[k] == x;
            assert(m.owner[indices[k] as int] == from);
        }
    }
}

/// Taking the frame that was freed last keeps the model well-formed.
proof fn lemma_taken(m: XdpModel)
    requires
        m.wf(),
        m.free.len() > 0,
    ensures
        m.taken().wf(),
{
    let idx = m.free.last();
    let after = m.taken();
    assert(m.free[m.free.len() - 1] == idx);
    assert forall|i: int| 0 <= i < after.free.len() implies #[trigger] after.free[i]
        < after.owner.len() by {
        assert(m.free[i] < m.owner.len());
    }
    assert(after.free.no_duplicates());
    assert forall|x: usize| x < after.owner.len() implies (#[trigger] after.owner[x as int]
        == Owner::Free <==> after.free.contains(x)) by {
        assert(m.owner[x as int] == Owner::Free <==> m.free.contains(x));
        if m.free.contains(x) && x != idx {
            let k = choose|k: int| 0 <= k < m.free.len() && m.free[k] == x;
            assert(after.free[k] == x);
        }
        if after.free.contains(x) {
            let k = choose|k: int| 0 <= k < after.free.len() && after.free[k] == x;
            assert(m.free[k] == x);
            assert(m.free[k] != m.free[m.free.len() - 1]);
        }
    }
}

/// Taking the topmost frames keeps the model well-formed.
proof fn lemma_batch_wf(m: XdpModel, picked: Seq<usize>, n: int)
    requires
        m.wf(),
        0 <= n <= m.free.len(),
        picked == m.free.skip(m.free.len() - n),
        picked.no_duplicates(),
    ensures
        (XdpModel {
            free: m.free.take(m.free.len() - n),
            owner: marked(m.owner, picked, Owner::App),
            ..m
        }).wf(),
{
    let base = m.free.len() - n;
    assert forall|i: int| 0 <= i < picked.len() implies #[trigger] picked[i] < m.owner.len()
        && m.owner[picked[i] as int] == Owner::Free by {
        assert(m.free[base + i] == picked[i]);
        assert(m.free[base + i] < m.owner.len());
        assert(m.free.contains(picked[i]));
    }
    lemma_marked(m.owner, picked, Owner::Free, Owner::App);
    let after = XdpModel {
        free: m.free.take(base),
        owner: marked(m.owner, picked, Owner::App),
        ..m
    };
    assert forall|i: int| 0 <= i < after.free.len() implies #[trigger] after.free[i]
        < after.owner.len() by {
        assert(m.free[i] < m.owner.len());
    }
    assert(after.free.no_duplicates());
    assert forall|x: usize| x < after.owner.len() implies (#[trigger] after.owner[x as int]
        == Owner::Free <==> after.free.contains(x)) by {
        assert(m.owner[x as int] == Owner::Free <==> m.free.contains(x));
        if m.free.contains(x) {
            let k = choose|k: int| 0 <= k < m.free.len() && m.free[k] == x;
            if k < base {
                assert(after.free[k] == x);
                if picked.contains(x) {
                    let g = choose|g: int| 0 <= g < picked.len() && picked[g] == x;
                    assert(m.free[base + g] == m.free[k]);
                }
            } else {
                assert(picked[k - base] == x);
                if after.free.contains(x) {
                    let g = choose|g: int| 0 <= g < after.free.len() && after.free[g] == x;
                    assert(m.free[g] == m.free[k]);
                }
            }
        } else if after.free.contains(x) {
            let g = choose|g: int| 0 <= g < after.free.len() && after.free[g] == x;
            assert(m.free[g] == x);
        } else if picked.contains(x) {
            let g = choose|g: int| 0 <= g < picked.len() && picked[g] == x;
            assert(m.free[base + g] == x);
        }
    }
}

/// However many frames the kernel is given to receive into, those reserved for sending
/// stay free where there were as many.
pub proof fn law_reserve_is_kept(m: XdpModel, cfg: XdpConfig, given: Seq<usize>, after: XdpModel)
    requires
        m.refilled(given, after),
        given.len() <= m.refill_budget(cfg),
    ensures
        after.free.len() >= least(m.free.len(), cfg.tx_reserve as nat),
{
}

/// A descriptor that names a frame that the kernel does not have changes nothing but
/// the count of such descriptors: no frame ever gets a second owner.
pub proof fn law_bad_descriptors_are_quarantined(m: XdpModel, d: (u64, u32), chunk: nat)
    requires
        m.lease(d, chunk) is None,
    ensures
        m.received(d, chunk).owner == m.owner,
        m.received(d, chunk).free == m.free,
{
}

/// A completed frame is free, and completing it again changes nothing but a count.
pub proof fn law_completions_count_once(m: XdpModel, addr: u64, chunk: nat)
    requires
        m.wf(),
        m.owner.len() <= usize::MAX,
        chunk > 0,
    ensures
        m.completed(addr, chunk).completed(addr, chunk).owner == m.completed(addr, chunk).owner,
        m.completed(addr, chunk).completed(addr, chunk).free == m.completed(addr, chunk).free,
{
    vstd::arithmetic::div_mod::lemma_div_pos_is_pos(addr as int, chunk as int);
}

/// A device: who has which frame, and the rings over which frames change hands.
pub struct XdpDevice {
    list: FreeList,
    owner: Vec<Owner>,
    rx_owned: usize,
    rx_target: usize,
    tx_pending: usize,
    counters: XdpCounters,
    cfg: XdpConfig,
    attach_mode: AttachMode,
    umem: UMem,
    xsk: XskSocket,
}

impl XdpDevice {
    /// What the device holds apart from its rings.
    pub closed spec fn view(self) -> XdpModel {
        XdpModel { free: self.list@, owner: self.owner@, counters: self.counters }
    }

    pub closed spec fn config(self) -> XdpConfig {
        self.cfg
    }

    pub closed spec fn attached(self) -> AttachMode {
        self.attach_mode
    }

    pub closed spec fn arena(self) -> UMem {
        self.umem
    }

    pub closed spec fn socket(self) -> XskSocket {
        self.xsk
    }

    /// Every frame has one owner, the counts of frames that the kernel has are right,
    /// it has no more of them to receive into than it may, and arena and rings are as
    /// large as was configured.
    pub closed spec fn inv(self) -> bool {
        &&& self.list.inv()
        &&& self.list.frames() == self.owner@.len()
        &&& self.owner@.len() == self.cfg.frames
        &&& self@.wf()
        &&& self.rx_owned == count(self.owner@, Owner::RxKernel)
        &&& self.tx_pending == count(self.owner@, Owner::TxKernel)
        &&& self.rx_target == self.cfg.rx_target()
        &&& self.rx_owned <= self.rx_target
        &&& sane(self.cfg)
        &&& self.umem.inv()
        &&& self.xsk.inv()
        &&& self.cfg.shapes(self.umem, self.xsk)
    }

    /// What the invariant says of the model and the rings.
    pub broadcast proof fn lemma_inv(self)
        requires
            #[trigger] self.inv(),
        ensures
            self@.wf(),
            self@.owner.len() == self.config().frames,
            count(self@.owner, Owner::RxKernel) <= self.config().rx_target(),
            sane(self.config()),
            self.arena().inv(),
            self.socket().inv(),
            self.config().shapes(self.arena(), self.socket()),
    {
    }

    /// A device on a queue of an interface whose program is attached in this way, and
    /// the address to bind its socket to.
    pub fn with_config(
        ifindex: u32,
        queue_id: u32,
        cfg: &XdpConfig,
        attach_mode: AttachMode,
    ) -> (r: Result<(XdpDevice, SockAddrXdp), IoError>)
        ensures
            r is Ok <==> cfg.rings_fit() && cfg.consistent(queue_id) && attach_mode
                != AttachMode::AlreadyAttached && !(attach_mode == AttachMode::Generic && cfg.mode
                == XdpMode::ZeroCopy),
            r matches Err(e) ==> e == (if !cfg.rings_fit() {
                IoError::RingSize
            } else if !cfg.consistent(queue_id) {
                IoError::XdpConfig
            } else if attach_mode == AttachMode::AlreadyAttached {
                IoError::ProgramAttached
            } else {
                IoError::GenericZeroCopy
            }),
            r matches Ok((device, address)) ==> {
                &&& device.inv()
                &&& device.config() == *cfg
                &&& device.attached() == attach_mode
                &&& device@ == (XdpModel {
                    free: Seq::new(cfg.frames as nat, |i: int| (cfg.frames - 1 - i) as usize),
                    owner: Seq::new(cfg.frames as nat, |i: int| Owner::Free),
                    counters: XdpCounters::none(),
                })
                &&& device.arena().num_frames == cfg.frames
                &&& device.arena().chunk_size == cfg.chunk_size
                &&& device.arena().fq.ring.blank(cfg.fill_entries as nat)
                &&& device.arena().fq.cached_producer == 0
                &&& device.arena().fq.cached_consumer == cfg.fill_entries
                &&& device.arena().cq.ring.blank(cfg.cq_entries as nat)
                &&& device.arena().cq.cached_consumer == 0
                &&& device.socket().rx.ring.blank(cfg.rx_entries as nat)
                &&& device.socket().rx.cached_consumer == 0
                &&& device.socket().tx.ring.blank(cfg.tx_entries as nat)
                &&& device.socket().tx.cached_producer == 0
                &&& device.socket().tx.cached_consumer == cfg.tx_entries
                &&& device.socket().bind_flags == cfg.flags(attach_mode)
                &&& address == (SockAddrXdp {
                    family: 44,
                    flags: cfg.flags(attach_mode),
                    ifindex,
                    queue_id,
                    shared_umem_fd: 0,
                })
            },
    {
        match cfg.validate(queue_id) {
            Err(e) => {
                return Err(e);
            },
            Ok(()) => {},
        }
        let flags: u16 = match cfg.bind_request(attach_mode) {
            Err(e) => {
                return Err(e);
            },
            Ok(flags) => flags,
        };
        proof {
            assert(8u16 | 0u16 == 8u16 && 8u16 | 2u16 == 10u16 && 8u16 | 4u16 == 12u16)
                by (bit_vector);
            super::socket::law_bindable_flags(flags);
        }
        let umem = match UMem::new(
            cfg.frames,
            cfg.chunk_size,
            cfg.fill_entries,
            cfg.cq_entries,
            0,
        ) {
            Err(e) => {
                return Err(e);
            },
            Ok(umem) => umem,
        };
        let (xsk, address) = match XskSocket::new(
            ifindex,
            queue_id,
            cfg.rx_entries,
            cfg.tx_entries,
            flags,
        ) {
            Err(e) => {
                return Err(e);
            },
            Ok(pair) => pair,
        };
        let mut owner: Vec<Owner> = Vec::new();
        owner.resize(cfg.frames, Owner::Free);
        let spare: usize = cfg.frames - cfg.tx_reserve;
        let rx_target: usize = if cfg.fill_entries < spare {
            cfg.fill_entries
        } else {
            spare
        };
        let device = XdpDevice {
            list: FreeList::new(cfg.frames),
            owner,
            rx_owned: 0,
            rx_target,
            tx_pending: 0,
            counters: XdpCounters::default(),
            cfg: *cfg,
            attach_mode,
            umem,
            xsk,
        };
        proof {
            device.list.lemma_free();
            assert(device@.owner =~= Seq::new(cfg.frames as nat, |i: int| Owner::Free));
            lemma_count_same(device.owner@, Owner::Free, Owner::RxKernel);
            lemma_count_same(device.owner@, Owner::Free, Owner::TxKernel);
            assert forall|idx: usize| idx < device.owner@.len() implies (
            #[trigger] device@.owner[idx as int] == Owner::Free <==> device@.free.contains(
                idx,
            )) by {
                assert(device@.free[cfg.frames - 1 - idx] == idx);
            }
        }
        Ok((device, address))
    }

    pub fn bind_flags(&self) -> (flags: u16)
        ensures
            flags == self.socket().bind_flags,
    {
        self.xsk.bind_flags()
    }

    pub fn need_wakeup_enabled(&self) -> (yes: bool)
        ensures
            yes == self.socket().wakes(),
    {
        self.xsk.need_wakeup_enabled()
    }

    pub fn counters(&self) -> (counters: XdpCounters)
        ensures
            counters == self@.counters,
    {
        self.counters
    }

    pub fn attach_mode(&self) -> (mode: AttachMode)
        ensures
            mode == self.attached(),
    {
        self.attach_mode
    }

    pub fn is_zero_copy(&self) -> (yes: bool)
        ensures
            yes == (self.socket().bind_flags & XDP_ZEROCOPY != 0),
    {
        self.xsk.bind_flags() & XDP_ZEROCOPY != 0
    }

    /// How many packets the kernel has to send.
    pub fn pending_tx(&self) -> (n: usize)
        requires
            self.inv(),
        ensures
            n == count(self@.owner, Owner::TxKernel),
    {
        self.tx_pending
    }

    /// How many frames are free.
    pub fn available(&self) -> (n: usize)
        ensures
            n == self@.free.len(),
    {
        self.list.available()
    }

    /// How large a frame is.
    pub fn frame_size(&self) -> (n: usize)
        ensures
            n == self.config().chunk_size,
    {
        self.cfg.chunk_size
    }

    /// The rings of the arena, to be mirrored.
    pub fn umem_mut(&mut self) -> (umem: &mut UMem)
        requires
            old(self).inv(),
        ensures
            *umem == old(self).arena(),
            final(self).arena() == *final(umem),
            final(self)@ == old(self)@,
            final(self).config() == old(self).config(),
            final(self).attached() == old(self).attached(),
            final(self).socket() == old(self).socket(),
            final(umem).inv() && final(umem).shaped_like(*umem) ==> final(self).inv(),
    {
        &mut self.umem
    }

    /// The rings of the socket, to be mirrored.
    pub fn socket_mut(&mut self) -> (xsk: &mut XskSocket)
        requires
            old(self).inv(),
        ensures
            *xsk == old(self).socket(),
            final(self).socket() == *final(xsk),
            final(self)@ == old(self)@,
            final(self).config() == old(self).config(),
            final(self).attached() == old(self).attached(),
            final(self).arena() == old(self).arena(),
            final(xsk).inv() && final(xsk).shaped_like(*xsk) ==> final(self).inv(),
    {
        &mut self.xsk
    }

    /// Takes back the frame of one packet that was sent.
    fn complete(&mut self, addr: u64)
        requires
            old(self).inv(),
        ensures
            final(self).inv(),
            final(self)@ == old(self)@.completed(addr, old(self).config().chunk_size as nat),
            final(self).same_rings(*old(self)),
    {
        let ghost before = *self;
        let wide: u64 = addr / self.cfg.chunk_size as u64;
        if wide >= self.owner.len() as u64 {
            self.counters.invalid_descriptors = self.counters.invalid_descriptors.wrapping_add(1);
            return;
        }
        let idx: usize = wide as usize;
        if self.owner[idx] != Owner::TxKernel {
            self.counters.invalid_descriptors = self.counters.invalid_descriptors.wrapping_add(1);
            return;
        }
        proof {
            lemma_count_update(self.owner@, idx as int, Owner::Free, Owner::TxKernel);
            lemma_count_update(self.owner@, idx as int, Owner::Free, Owner::RxKernel);
        }
        self.owner[idx] = Owner::Free;
        self.list.free(idx);
        self.tx_pending = self.tx_pending - 1;
        self.counters.tx_completed = self.counters.tx_completed.wrapping_add(1);
        proof {
            lemma_freed(before@, idx);
            assert(self@ =~= before@.completed(addr, before.cfg.chunk_size as nat));
        }
    }

    /// Whether the rings and the settings are those of `before`.
    pub closed spec fn same_rings(self, before: XdpDevice) -> bool {
        &&& self.umem == before.umem
        &&& self.xsk == before.xsk
        &&& self.cfg == before.cfg
        &&& self.attach_mode == before.attach_mode
    }

    /// Takes back the frames of packets that were sent, one batch of them; says how
    /// many descriptors there were.
    pub fn drain_cq(&mut self) -> (n: usize)
        requires
            old(self).inv(),
        ensures
            final(self).inv(),
            n == old(self).sent_batch().len(),
            final(self)@ == old(self)@.completed_all(
                old(self).sent_batch(),
                old(self).config().chunk_size as nat,
                n as nat,
            ),
            final(self).socket() == old(self).socket(),
            final(self).config() == old(self).config(),
            final(self).attached() == old(self).attached(),
            final(self).arena().fq == old(self).arena().fq,
            final(self).arena().cq.cached_consumer == moved(
                old(self).arena().cq.cached_consumer,
                n as int,
            ),
            final(self).arena().cq.ring == (Ring {
                consumer: if n > 0 {
                    final(self).arena().cq.cached_consumer
                } else {
                    old(self).arena().cq.ring.consumer
                },
                ..old(self).arena().cq.ring
            }),
    {
        let ghost start = *self;
        let mut descs: Vec<(u64, u32)> = Vec::new();
        let batch: usize = self.cfg.batch_size;
        let n: usize = self.umem.cq_pop(&mut descs, batch);
        assert(descs@ =~= start.sent_batch());
        let ghost popped = *self;
        let mut i: usize = 0;
        while i < n
            invariant
                self.inv(),
                i <= n,
                n == descs@.len(),
                descs@ == start.sent_batch(),
                self.same_rings(popped),
                popped.cfg == start.cfg,
                self@ == start@.completed_all(descs@, start.cfg.chunk_size as nat, i as nat),
            decreases n - i,
        {
            self.complete(descs[i].0);
            i += 1;
        }
        n
    }

    /// The descriptors of one batch of packets that were sent.
    pub open spec fn sent_batch(self) -> Seq<(u64, u32)> {
        self.arena().cq.ring.read(
            self.arena().cq.cached_consumer,
            least(self.config().batch_size as nat, self.arena().cq.waiting()),
        )
    }

    /// Gives the kernel free frames to receive into, as long as it has fewer than it may
    /// and there is room in the ring. Only frames that nobody else has are given away.
    pub fn refill(&mut self)
        requires
            old(self).inv(),
        ensures
            final(self).inv(),
            final(self).socket() == old(self).socket(),
            final(self).config() == old(self).config(),
            final(self).attached() == old(self).attached(),
            final(self).arena().cq == old(self).arena().cq,
            exists|given: Seq<usize>| #[trigger]
                old(self)@.refilled(given, final(self)@) && old(self).published(
                    given,
                    *final(self),
                ),
    {
        let ghost start = *self;
        let ghost chunk = self.cfg.chunk_size as nat;
        let want: usize = self.rx_target - self.rx_owned;
        let free: usize = self.list.available();
        let spare: usize = if free > self.cfg.tx_reserve {
            free - self.cfg.tx_reserve
        } else {
            0
        };
        let budget: usize = if want < spare {
            want
        } else {
            spare
        };
        let mut left: usize = budget;
        let mut more: bool = true;
        let ghost mut given: Seq<usize> = Seq::empty();
        proof {
            assert(marked(start.owner@, given, Owner::RxKernel) == start.owner@);
            assert(start.umem.fq.ring.written(start.umem.fq.cached_producer, addresses(given, chunk))
                == start.umem.fq.ring.desc@) by {
                assert(addresses(given, chunk) =~= Seq::empty());
            }
            assert(moved(start.umem.fq.cached_producer, 0) == start.umem.fq.cached_producer);
            assert(budget == start@.refill_budget(start.cfg));
            super::umem::lemma_limit(start.umem.fq, 0);
        }
        let ghost step = self.cfg.batch_size as nat;
        let ghost all = refill_order(start.list@, budget as nat, step, start.umem.fq.space());
        assert(given + all.0 =~= all.0);
        while left > 0 && more
            invariant
                self.inv(),
                start.inv(),
                chunk == start.cfg.chunk_size,
                self.xsk == start.xsk,
                self.cfg == start.cfg,
                self.attach_mode == start.attach_mode,
                self.umem.cq == start.umem.cq,
                left + given.len() == budget,
                left <= self.list@.len(),
                budget <= start.rx_target - start.rx_owned,
                start@.refilled(given, self@),
                self.rx_owned == start.rx_owned + given.len(),
                self.umem.fq.cached_producer == moved(
                    start.umem.fq.cached_producer,
                    given.len() as int,
                ),
                self.umem.fq.ring.entries == start.umem.fq.ring.entries,
                self.umem.fq.ring.consumer == start.umem.fq.ring.consumer,
                self.umem.fq.ring.flags == start.umem.fq.ring.flags,
                self.umem.fq.ring.desc@ == start.umem.fq.ring.written(
                    start.umem.fq.cached_producer,
                    addresses(given, chunk),
                ),
                step == start.cfg.batch_size,
                self.umem.fq.under_way() == start.umem.fq.under_way() + given.len(),
                start.umem.fq.under_way() <= start.umem.fq.ring.entries,
                self.umem.fq.cached_consumer == start.umem.fq.cached_consumer
                    || self.umem.fq.cached_consumer == moved(
                    start.umem.fq.ring.consumer,
                    start.umem.fq.ring.entries as int,
                ),
                all == refill_order(start.list@, budget as nat, step, start.umem.fq.space()),
                more ==> ({
                    let rest = refill_order(self.list@, left as nat, step, self.umem.fq.space());
                    given + rest.0 == all.0 && rest.1 == all.1
                }),
                !more ==> given == all.0 && self.list@ == all.1,
                given.len() > 0 ==> self.umem.fq.ring.producer == self.umem.fq.cached_producer,
                given.len() == 0 ==> self.umem.fq.ring.producer == start.umem.fq.ring.producer,
            decreases
                left,
                if more {
                    1int
                } else {
                    0
                },
        {
            let limit: usize = if left < self.cfg.batch_size {
                left
            } else {
                self.cfg.batch_size
            };
            let ghost taken = given;
            let ghost before = *self;
            let pushed: usize = self.refill_step(limit, Ghost(start), Ghost(given));
            proof {
                let top = topmost(before.list@, limit as nat);
                let rest = refill_order(before.list@, left as nat, step, before.umem.fq.space());
                super::umem::lemma_limit(before.umem.fq, 0);
                given = taken + top.take(pushed as int);
                if pushed == limit {
                    let next = refill_order(
                        self.list@,
                        (left - pushed) as nat,
                        step,
                        self.umem.fq.space(),
                    );
                    assert(top.take(pushed as int) =~= top);
                    assert(self.list@ =~= before.list@.take(before.list@.len() - limit));
                    assert(rest.0 == top + next.0 && rest.1 == next.1);
                    assert(given + next.0 =~= taken + rest.0);
                } else {
                    assert(rest.0 == top.take(pushed as int));
                }
                super::umem::lemma_moved_twice(
                    start.umem.fq.cached_producer,
                    taken.len(),
                    pushed as nat,
                );
            }
            left = left - pushed;
            if pushed < limit {
                more = false;
            }
        }
        proof {
            if more {
                assert(given + Seq::<usize>::empty() =~= given);
            }
            lemma_refill_order(start.list@, budget as nat, step, start.umem.fq.space());
            assert(start.published(given, *self));
        }
    }

    /// Gives the kernel up to `limit` more frames; says how many found room.
    fn refill_step(&mut self, limit: usize, start: Ghost<XdpDevice>, given: Ghost<Seq<usize>>)
        -> (pushed: usize)
        requires
            old(self).inv(),
            start@.inv(),
            0 < limit <= old(self).list@.len(),
            limit <= old(self).rx_target - old(self).rx_owned,
            old(self).cfg == start@.cfg,
            start@@.refilled(given@, old(self)@),
            old(self).umem.fq.ring.entries == start@.umem.fq.ring.entries,
            old(self).umem.fq.cached_producer == moved(
                start@.umem.fq.cached_producer,
                given@.len() as int,
            ),
            old(self).umem.fq.ring.desc@ == start@.umem.fq.ring.written(
                start@.umem.fq.cached_producer,
                addresses(given@, start@.cfg.chunk_size as nat),
            ),
        ensures
            final(self).inv(),
            pushed <= limit,
            final(self).xsk == old(self).xsk,
            final(self).cfg == old(self).cfg,
            final(self).attach_mode == old(self).attach_mode,
            final(self).umem.cq == old(self).umem.cq,
            final(self).rx_owned == old(self).rx_owned + pushed,
            final(self).list@.len() == old(self).list@.len() - pushed,
            final(self).umem.fq.ring.entries == old(self).umem.fq.ring.entries,
            final(self).umem.fq.ring.consumer == old(self).umem.fq.ring.consumer,
            final(self).umem.fq.ring.flags == old(self).umem.fq.ring.flags,
            final(self).umem.fq.cached_producer == moved(
                old(self).umem.fq.cached_producer,
                pushed as int,
            ),
            pushed == least(limit as nat, old(self).umem.fq.space()),
            final(self).umem.fq.under_way() == old(self).umem.fq.under_way() + pushed,
            final(self).umem.fq.cached_consumer == old(self).umem.fq.limit(limit as nat),
            final(self).list@ == old(self).list@.take(old(self).list@.len() - limit) + topmost(
                old(self).list@,
                limit as nat,
            ).skip(pushed as int),
            pushed > 0 ==> final(self).umem.fq.ring.producer == final(
                self
            ).umem.fq.cached_producer,
            pushed == 0 ==> final(self).umem.fq.ring.producer == old(self).umem.fq.ring.producer,
            ({
                let more = given@ + topmost(old(self).list@, limit as nat).take(pushed as int);
                &&& start@@.refilled(more, final(self)@)
                &&& final(self).umem.fq.ring.desc@ == start@.umem.fq.ring.written(
                    start@.umem.fq.cached_producer,
                    addresses(more, start@.cfg.chunk_size as nat),
                )
            }),
    {
        let ghost before = *self;
        let ghost chunk = self.cfg.chunk_size as nat;
        let mut indices: Vec<usize> = Vec::new();
        indices.resize(limit, 0);
        let n: usize = self.list.alloc_n(indices.as_mut_slice());
        let ghost picked = indices@;
        proof {
            assert(picked.take(limit as int) =~= picked);
            assert(picked == before.list@.skip(before.list@.len() - limit));
            before.list.lemma_free();
            assert forall|i: int| 0 <= i < limit implies #[trigger] picked[i] < before.owner@.len()
                && before.owner@[picked[i] as int] == Owner::Free by {
                assert(picked[i] == before.list@[before.list@.len() - limit + i]);
                assert(before.list@.contains(picked[i]));
            }
            assert(picked.no_duplicates()) by {
                assert forall|i: int, j: int|
                    0 <= i < picked.len() && 0 <= j < picked.len() && i != j implies picked[i]
                        != picked[j] by {
                    assert(picked[i] == before.list@[before.list@.len() - limit + i]);
                    assert(picked[j] == before.list@[before.list@.len() - limit + j]);
                }
            }
        }
        let mut addrs: Vec<(u64, u32)> = Vec::new();
        let mut i: usize = 0;
        while i < limit
            invariant
                i <= limit,
                limit == indices@.len(),
                indices@ == picked,
                self.cfg == before.cfg,
                sane(before.cfg),
                chunk == before.cfg.chunk_size,
                before.owner@.len() == before.cfg.frames,
                forall|j: int| 0 <= j < limit ==> #[trigger] picked[j] < before.owner@.len(),
                addrs@ == addresses(picked.take(i as int), chunk),
            decreases limit - i,
        {
            let idx: usize = indices[i];
            assert(idx * self.cfg.chunk_size <= self.cfg.frames * self.cfg.chunk_size)
                by (nonlinear_arith)
                requires
                    idx <= self.cfg.frames,
            ;
            addrs.push(((idx * self.cfg.chunk_size) as u64, 0));
            assert(addrs@ =~= addresses(picked.take(i + 1), chunk));
            i += 1;
        }
        assert(picked.take(limit as int) =~= picked);
        proof {
            super::umem::lemma_room(before.umem.fq, limit as nat);
            super::umem::lemma_limit(before.umem.fq, limit as nat);
        }
        let pushed: usize = self.umem.fill_push(addrs.as_slice());
        proof {
            let fq = before.umem.fq;
            super::umem::lemma_pushed(
                Producer { cached_consumer: fq.limit(limit as nat), ..fq },
                pushed as nat,
            );
        }
        let ghost gone = picked.take(pushed as int);
        proof {
            assert(addrs@.take(pushed as int) =~= addresses(gone, chunk));
            assert forall|i: int| 0 <= i < gone.len() implies #[trigger] gone[i]
                < before.owner@.len() && before.owner@[gone[i] as int] == Owner::Free by {
                assert(picked[i] < before.owner@.len());
            }
            lemma_marked(before.owner@, gone, Owner::Free, Owner::RxKernel);
        }
        mark_all(&mut self.owner, indices.as_slice(), pushed, Owner::RxKernel);
        let rest: &[usize] = &indices[pushed..limit];
        proof {
            assert(rest@ =~= picked.skip(pushed as int));
            assert forall|i: int| 0 <= i < rest@.len() implies self.list.used(
                #[trigger] rest@[i],
            ) by {
                assert(rest@[i] == picked[pushed + i]);
                if self.list@.contains(rest@[i]) {
                    let k = choose|k: int| 0 <= k < self.list@.len() && self.list@[k] == rest@[i];
                    assert(before.list@[k] == before.list@[before.list@.len() - limit + pushed + i]);
                }
            }
        }
        self.list.free_n(rest);
        self.rx_owned = self.rx_owned + pushed;
        proof {
            let kept = before.list@.take(before.list@.len() - limit);
            assert(self.list@ == kept + picked.skip(pushed as int));
            lemma_refill_step(before@, self@, picked, pushed as int);
            let more = given@ + gone;
            lemma_refilled_more(start@@, given@, before@, gone, self@);
            assert(addresses(given@, chunk) + addresses(gone, chunk) =~= addresses(more, chunk));
            super::umem::lemma_written_twice(
                start@.umem.fq.ring,
                start@.umem.fq.cached_producer,
                addresses(given@, chunk),
                before.umem.fq.ring,
                addresses(gone, chunk),
            );
            assert(addresses(given@, chunk).len() == given@.len());
        }
        pushed
    }

    /// Whether the frames `given` were published for the kernel to receive into: as many
    /// as are due and find room in the ring, and the topmost free frames in the order in
    /// which they are taken off.
    pub open spec fn published(self, given: Seq<usize>, after: XdpDevice) -> bool {
        let fq = self.arena().fq;
        let end = after.arena().fq;
        let budget = self@.refill_budget(self.config());
        &&& given.len() == least(budget, fq.space())
        &&& (given, after@.free) == refill_order(
            self@.free,
            budget,
            self.config().batch_size as nat,
            fq.space(),
        )
        &&& given.len() < budget ==> end.under_way() == end.ring.entries
        &&& end.under_way() == fq.under_way() + given.len()
        &&& end.cached_consumer == fq.cached_consumer || end.cached_consumer == moved(
            fq.ring.consumer,
            fq.ring.entries as int,
        )
        &&& end.cached_producer == moved(fq.cached_producer, given.len() as int)
        &&& end.ring.desc@ == fq.ring.written(
            fq.cached_producer,
            addresses(given, self.config().chunk_size as nat),
        )
        &&& end.ring.entries == fq.ring.entries
        &&& end.ring.consumer == fq.ring.consumer
        &&& end.ring.flags == fq.ring.flags
        &&& given.len() > 0 ==> end.ring.producer == end.cached_producer
        &&& given.len() == 0 ==> end.ring.producer == fq.ring.producer
    }

    /// Takes back what was sent and gives the kernel frames to receive into; says how
    /// many packets were sent. Nothing of it waits.
    pub fn progress(&mut self) -> (n: usize)
        requires
            old(self).inv(),
        ensures
            final(self).inv(),
            n == old(self).sent_batch().len(),
            old(self).progressed(*final(self)),
            final(self).socket() == old(self).socket(),
            final(self).config() == old(self).config(),
            final(self).attached() == old(self).attached(),
    {
        let n: usize = self.drain_cq();
        let ghost mid = *self;
        self.refill();
        proof {
            let given = choose|given: Seq<usize>| #[trigger]
                mid@.refilled(given, self@) && mid.published(given, *self);
            assert(old(self).has_drained(mid));
            assert(mid@.refilled(given, self@));
        }
        n
    }

    /// Whether `after` is the device after it took back what was sent and gave the kernel
    /// frames to receive into: as many as are due, unless the ring has no room for them.
    pub open spec fn progressed(self, after: XdpDevice) -> bool {
        exists|mid: XdpDevice, given: Seq<usize>|
            {
                &&& self.has_drained(mid)
                &&& #[trigger] mid@.refilled(given, after@)
                &&& mid.published(given, after)
                &&& after.arena().cq == mid.arena().cq
            }
    }

    /// Whether `after` is the device after it took back what was sent.
    pub open spec fn has_drained(self, after: XdpDevice) -> bool {
        let n = self.sent_batch().len();
        let cq = self.arena().cq;
        let end = after.arena().cq;
        &&& after@ == self.drained()
        &&& after.config() == self.config()
        &&& after.arena().fq == self.arena().fq
        &&& end.cached_consumer == moved(cq.cached_consumer, n as int)
        &&& end.ring == (Ring {
            consumer: if n > 0 {
                end.cached_consumer
            } else {
                cq.ring.consumer
            },
            ..cq.ring
        })
    }

    /// What the device holds after it took back what was sent.
    pub open spec fn drained(self) -> XdpModel {
        self@.completed_all(
            self.sent_batch(),
            self.config().chunk_size as nat,
            self.sent_batch().len(),
        )
    }

    /// Whether the kernel has to be polled so that it receives.
    pub fn rx_needs_poll(&self) -> (yes: bool)
        ensures
            yes == (!self.socket().wakes() || (self.arena().fq.ring.flags matches Some(flags)
                && flags & super::sys::XDP_RING_NEED_WAKEUP != 0)),
    {
        !self.xsk.need_wakeup_enabled() || self.umem.fill_needs_wakeup()
    }

    /// Whether the kernel has to be told of packets to send.
    pub fn tx_needs_kick(&self) -> (yes: bool)
        requires
            self.inv(),
        ensures
            yes == (count(self@.owner, Owner::TxKernel) > 0 && (!self.socket().wakes()
                || self.socket().tx.ring.flags->0 & super::sys::XDP_RING_NEED_WAKEUP != 0)),
    {
        self.tx_pending > 0 && self.xsk.tx_needs_kick()
    }

    /// The descriptors of up to `max` packets that were received.
    pub open spec fn rx_batch(self, max: nat) -> Seq<(u64, u32)> {
        self.socket().rx.ring.read(
            self.socket().rx.cached_consumer,
            least(least(max, self.config().batch_size as nat), self.socket().rx.waiting()),
        )
    }

    /// Takes one received packet, if its descriptor is in order.
    fn accept(&mut self, d: (u64, u32)) -> (lease: Option<Lease>)
        requires
            old(self).inv(),
        ensures
            final(self).inv(),
            lease == old(self)@.lease(d, old(self).config().chunk_size as nat),
            final(self)@ == old(self)@.received(d, old(self).config().chunk_size as nat),
            final(self).same_rings(*old(self)),
    {
        let ghost before = *self;
        match decode_rx(d.0, d.1, self.cfg.chunk_size, self.cfg.frames) {
            None => {
                self.counters.invalid_descriptors = self.counters.invalid_descriptors.wrapping_add(
                    1,
                );
                None
            },
            Some((idx, offset)) => {
                if self.owner[idx] != Owner::RxKernel {
                    self.counters.invalid_descriptors =
                        self.counters.invalid_descriptors.wrapping_add(1);
                    return None;
                }
                proof {
                    lemma_count_update(self.owner@, idx as int, Owner::App, Owner::RxKernel);
                    lemma_count_update(self.owner@, idx as int, Owner::App, Owner::TxKernel);
                }
                self.rx_owned = self.rx_owned - 1;
                self.owner[idx] = Owner::App;
                proof {
                    assert(self@ =~= before@.given(idx, Owner::App));
                    lemma_given(before@, idx, Owner::App);
                }
                Some(Lease { idx, offset, len: d.1 as usize })
            },
        }
    }

    /// Receives up to `max` packets, one batch at most. A malformed descriptor, or one of
    /// a frame that the kernel does not have, is counted and passed over.
    pub fn recv(&mut self, max: usize) -> (leases: Vec<Lease>)
        requires
            old(self).inv(),
        ensures
            final(self).inv(),
            final(self).config() == old(self).config(),
            final(self).attached() == old(self).attached(),
            final(self).socket().tx == old(self).socket().tx,
            final(self).socket().bind_flags == old(self).socket().bind_flags,
            final(self).socket().rx.ring == (Ring {
                consumer: if old(self).rx_batch(max as nat).len() > 0 {
                    final(self).socket().rx.cached_consumer
                } else {
                    old(self).socket().rx.ring.consumer
                },
                ..old(self).socket().rx.ring
            }),
            exists|ready: XdpDevice|
                {
                    let descs = old(self).rx_batch(max as nat);
                    let chunk = old(self).config().chunk_size as nat;
                    &&& #[trigger] old(self).progressed(ready)
                    &&& leases@ == ready@.leases(descs, chunk, descs.len())
                    &&& final(self)@ == ready@.received_all(descs, chunk, descs.len()).counted_rx(
                        leases@.len(),
                    )
                    &&& final(self).arena() == ready.arena()
                },
            final(self).socket().rx.cached_consumer == moved(
                old(self).socket().rx.cached_consumer,
                old(self).rx_batch(max as nat).len() as int,
            ),
    {
        let ghost start = *self;
        self.progress();
        let ghost mid = *self;
        let ghost ready = self@;
        let ghost chunk = self.cfg.chunk_size as nat;
        let limit: usize = if max < self.cfg.batch_size {
            max
        } else {
            self.cfg.batch_size
        };
        let mut descs: Vec<(u64, u32)> = Vec::new();
        let n: usize = self.xsk.rx_pop(&mut descs, limit);
        assert(descs@ =~= start.rx_batch(max as nat));
        let ghost popped = *self;
        let mut leases: Vec<Lease> = Vec::new();
        let mut i: usize = 0;
        while i < n
            invariant
                self.inv(),
                i <= n,
                n == descs@.len(),
                self.same_rings(popped),
                popped.cfg == start.cfg,
                chunk == start.cfg.chunk_size,
                self@ == ready.received_all(descs@, chunk, i as nat),
                leases@ == ready.leases(descs@, chunk, i as nat),
            decreases n - i,
        {
            match self.accept(descs[i]) {
                None => {},
                Some(lease) => {
                    leases.push(lease);
                },
            }
            i += 1;
        }
        self.counters.rx_packets = self.counters.rx_packets.wrapping_add(leases.len() as u64);
        assert(start.progressed(mid));
        leases
    }

    /// Hands one batch of frames to the kernel to send, as far as there is room. An error
    /// means that one of them is empty, or not a frame of this device that the
    /// application has; nothing is sent then.
    pub fn send(&mut self, frames: &[Outgoing]) -> (r: Result<usize, IoError>)
        requires
            old(self).inv(),
            forall|i: int, j: int|
                0 <= i < j < frames@.len() && (#[trigger] frames@[i]).mine && (
                #[trigger] frames@[j]).mine ==> frames@[i].lease.idx != frames@[j].lease.idx,
        ensures
            final(self).inv(),
            final(self).config() == old(self).config(),
            final(self).attached() == old(self).attached(),
            final(self).socket().rx == old(self).socket().rx,
            final(self).socket().bind_flags == old(self).socket().bind_flags,
            final(self).socket().tx.ring.consumer == old(self).socket().tx.ring.consumer,
            final(self).socket().tx.ring.flags == old(self).socket().tx.ring.flags,
            final(self).socket().tx.ring.entries == old(self).socket().tx.ring.entries,
            final(self).socket().tx.cached_consumer == old(self).socket().tx.limit(
                least(frames@.len(), old(self).config().batch_size as nat),
            ),
            exists|mid: XdpDevice| #[trigger]
                old(self).has_drained(mid) && final(self).arena() == mid.arena(),
            ({
                let requested = least(frames@.len(), old(self).config().batch_size as nat);
                let n = least(requested, old(self).socket().tx.free_for(requested));
                let chunk = old(self).config().chunk_size as nat;
                let ready = old(self).drained().counted_wait(n < requested);
                let sent = frames@.take(n as int);
                if ready.sendable(sent, chunk) {
                    &&& r == Ok::<usize, IoError>(n as usize)
                    &&& final(self)@ == ready.submitted(sent)
                    &&& final(self).socket().tx.cached_producer == moved(
                        old(self).socket().tx.cached_producer,
                        n as int,
                    )
                    &&& final(self).socket().tx.ring.desc@ == old(self).socket().tx.ring.written(
                        old(self).socket().tx.cached_producer,
                        tx_descs(sent, chunk),
                    )
                    &&& final(self).socket().tx.ring.producer == (if n > 0 {
                        final(self).socket().tx.cached_producer
                    } else {
                        old(self).socket().tx.ring.producer
                    })
                } else {
                    &&& r == Err::<usize, IoError>(IoError::ForeignFrame)
                    &&& final(self)@ == ready
                    &&& final(self).socket().tx.ring == old(self).socket().tx.ring
                    &&& final(self).socket().tx.cached_producer == old(
                        self,
                    ).socket().tx.cached_producer
                }
            }),
    {
        let ghost start = *self;
        let ghost chunk = self.cfg.chunk_size as nat;
        self.drain_cq();
        let ghost mid = *self;
        assert(old(self).has_drained(mid));
        let requested: usize = if frames.len() < self.cfg.batch_size {
            frames.len()
        } else {
            self.cfg.batch_size
        };
        let free: usize = self.xsk.tx_free_slots(requested);
        let n: usize = if requested < free {
            requested
        } else {
            free
        };
        if n < requested {
            self.counters.tx_backpressure = self.counters.tx_backpressure.wrapping_add(1);
        }
        let ghost ready = *self;
        let ghost sent = frames@.take(n as int);
        assert(ready@ == start.drained().counted_wait(n < requested));
        let mut i: usize = 0;
        while i < n
            invariant
                *self == ready,
                ready.inv(),
                start == *old(self),
                ready.cfg == start.cfg,
                requested == least(frames@.len(), start.cfg.batch_size as nat),
                n == least(requested as nat, start.xsk.tx.free_for(requested as nat)),
                ready@ == start.drained().counted_wait(n < requested),
                ready.xsk.tx.ring == start.xsk.tx.ring,
                ready.xsk.rx == start.xsk.rx,
                ready.xsk.bind_flags == start.xsk.bind_flags,
                ready.xsk.tx.cached_producer == start.xsk.tx.cached_producer,
                ready.xsk.tx.cached_consumer == start.xsk.tx.limit(requested as nat),
                ready.attach_mode == start.attach_mode,
                ready.umem == mid.umem,
                start.has_drained(mid),
                chunk == ready.cfg.chunk_size,
                i <= n <= frames@.len(),
                sent == frames@.take(n as int),
                ready@.sendable(frames@.take(i as int), chunk),
            decreases n - i,
        {
            let f: Outgoing = frames[i];
            proof {
                assert(sent[i as int] == f);
            }
            if !f.mine || f.lease.len == 0 || f.lease.idx >= self.owner.len() || f.lease.offset
                > self.cfg.chunk_size || f.lease.len > self.cfg.chunk_size - f.lease.offset {
                assert(!ready@.usable(sent[i as int], chunk));
                return Err(IoError::ForeignFrame);
            }
            if self.owner[f.lease.idx] != Owner::App {
                assert(!ready@.usable(sent[i as int], chunk));
                return Err(IoError::ForeignFrame);
            }
            proof {
                let next = frames@.take(i + 1);
                assert forall|j: int| 0 <= j < next.len() implies ready@.usable(
                    #[trigger] next[j],
                    chunk,
                ) by {
                    if j < i {
                        assert(frames@.take(i as int)[j] == next[j]);
                    }
                }
            }
            i += 1;
        }
        let mut descs: Vec<(u64, u32)> = Vec::new();
        let mut indices: Vec<usize> = Vec::new();
        let mut j: usize = 0;
        while j < n
            invariant
                *self == ready,
                ready.inv(),
                chunk == ready.cfg.chunk_size,
                j <= n <= frames@.len(),
                sent == frames@.take(n as int),
                ready@.sendable(sent, chunk),
                descs@ == tx_descs(sent.take(j as int), chunk),
                indices@ == tx_indices(sent.take(j as int)),
            decreases n - j,
        {
            let f: Outgoing = frames[j];
            proof {
                assert(sent[j as int] == f);
                assert(ready@.usable(sent[j as int], chunk));
                assert(f.lease.idx * self.cfg.chunk_size + self.cfg.chunk_size <= self.cfg.frames
                    * self.cfg.chunk_size) by (nonlinear_arith)
                    requires
                        f.lease.idx + 1 <= self.cfg.frames,
                ;
            }
            let at: usize = f.lease.idx * self.cfg.chunk_size + f.lease.offset;
            descs.push((at as u64, f.lease.len as u32));
            indices.push(f.lease.idx);
            proof {
                assert(descs@ =~= tx_descs(sent.take(j + 1), chunk));
                assert(indices@ =~= tx_indices(sent.take(j + 1)));
            }
            j += 1;
        }
        proof {
            assert(sent.take(n as int) =~= sent);
            let picked = tx_indices(sent);
            assert forall|i: int| 0 <= i < picked.len() implies #[trigger] picked[i]
                < ready.owner@.len() && ready.owner@[picked[i] as int] == Owner::App by {
                assert(ready@.usable(sent[i], chunk));
            }
            assert(picked.no_duplicates()) by {
                assert forall|i: int, j: int|
                    0 <= i < picked.len() && 0 <= j < picked.len() && i != j implies picked[i]
                        != picked[j] by {
                    assert(ready@.usable(sent[i], chunk) && ready@.usable(sent[j], chunk));
                    assert(frames@[i].mine && frames@[j].mine);
                    if i < j {
                        assert(frames@[i].lease.idx != frames@[j].lease.idx);
                    } else {
                        assert(frames@[j].lease.idx != frames@[i].lease.idx);
                    }
                }
            }
            lemma_marked(ready.owner@, picked, Owner::App, Owner::TxKernel);
            lemma_marked_wf(ready@, picked, Owner::App, Owner::TxKernel);
            assert(picked.take(n as int) =~= picked);
        }
        mark_all(&mut self.owner, indices.as_slice(), n, Owner::TxKernel);
        let pushed: usize = self.xsk.tx_push(descs.as_slice());
        proof {
            assert(pushed == n);
            assert(descs@.take(n as int) =~= descs@);
            law_frames_are_conserved(self.owner@);
        }
        self.tx_pending = self.tx_pending + n;
        self.counters.tx_submitted = self.counters.tx_submitted.wrapping_add(n as u64);
        Ok(n)
    }

    /// A free frame for the application. Where none is free, what was sent is taken back
    /// first.
    pub fn allocate(&mut self) -> (frame: Option<usize>)
        requires
            old(self).inv(),
        ensures
            final(self).inv(),
            final(self).config() == old(self).config(),
            final(self).attached() == old(self).attached(),
            final(self).socket() == old(self).socket(),
            old(self)@.free.len() > 0 ==> frame == Some(old(self)@.free.last()) && final(self)@
                == old(self)@.taken(),
            old(self)@.free.len() > 0 ==> final(self).arena() == old(self).arena(),
            old(self)@.free.len() == 0 ==> exists|ready: XdpDevice|
                {
                    &&& #[trigger] old(self).progressed(ready)
                    &&& if ready@.free.len() > 0 {
                        frame == Some(ready@.free.last()) && final(self)@ == ready@.taken()
                    } else {
                        frame is None && final(self)@ == ready@
                    }
                    &&& final(self).arena() == ready.arena()
                },
    {
        if self.list.available() == 0 {
            self.progress();
        }
        let ghost ready = *self;
        match self.list.allocate() {
            None => None,
            Some(idx) => {
                proof {
                    assert(ready@.free[ready@.free.len() - 1] == idx);
                    assert(ready@.free.contains(idx));
                    lemma_count_update(self.owner@, idx as int, Owner::App, Owner::RxKernel);
                    lemma_count_update(self.owner@, idx as int, Owner::App, Owner::TxKernel);
                    lemma_taken(ready@);
                }
                self.owner[idx] = Owner::App;
                assert(self@ =~= ready@.taken());
                Some(idx)
            },
        }
    }

    /// Up to `max` free frames for the application, one batch at most, in the order of
    /// the free list. What was sent is taken back first.
    pub fn alloc_batch(&mut self, max: usize) -> (frames: Vec<usize>)
        requires
            old(self).inv(),
        ensures
            final(self).inv(),
            final(self).config() == old(self).config(),
            final(self).attached() == old(self).attached(),
            final(self).socket() == old(self).socket(),
            exists|mid: XdpDevice| #[trigger]
                old(self).has_drained(mid) && final(self).arena() == mid.arena(),
            ({
                let ready = old(self).drained();
                let n = least(
                    least(max as nat, old(self).config().batch_size as nat),
                    ready.free.len(),
                );
                &&& frames@ == ready.free.skip(ready.free.len() - n)
                &&& final(self)@ == (XdpModel {
                    free: ready.free.take(ready.free.len() - n),
                    owner: marked(ready.owner, frames@, Owner::App),
                    ..ready
                })
            }),
    {
        self.drain_cq();
        let ghost ready = *self;
        assert(old(self).has_drained(ready));
        let limit: usize = if max < self.cfg.batch_size {
            max
        } else {
            self.cfg.batch_size
        };
        let mut frames: Vec<usize> = Vec::new();
        frames.resize(limit, 0);
        let n: usize = self.list.alloc_n(frames.as_mut_slice());
        frames.truncate(n);
        proof {
            let picked = frames@;
            assert(picked =~= ready.list@.skip(ready.list@.len() - n));
            assert forall|i: int| 0 <= i < picked.len() implies #[trigger] picked[i]
                < ready.owner@.len() && ready.owner@[picked[i] as int] == Owner::Free by {
                assert(picked[i] == ready.list@[ready.list@.len() - n + i]);
                assert(ready@.free[ready.list@.len() - n + i] < ready@.owner.len());
                assert(ready@.free.contains(picked[i]));
            }
            assert(picked.no_duplicates()) by {
                assert forall|i: int, j: int|
                    0 <= i < picked.len() && 0 <= j < picked.len() && i != j implies picked[i]
                        != picked[j] by {
                    assert(picked[i] == ready@.free[ready.list@.len() - n + i]);
                    assert(picked[j] == ready@.free[ready.list@.len() - n + j]);
                }
            }
            lemma_marked(ready.owner@, picked, Owner::Free, Owner::App);
            lemma_batch_wf(ready@, picked, n as int);
            assert(picked.take(n as int) =~= picked);
        }
        mark_all(&mut self.owner, frames.as_slice(), n, Owner::App);
        frames
    }

    /// Takes back a frame that the application has.
    pub fn release(&mut self, idx: usize)
        requires
            old(self).inv(),
            idx < old(self)@.owner.len(),
            old(self)@.owner[idx as int] == Owner::App,
        ensures
            final(self).inv(),
            final(self)@ == old(self)@.freed(idx),
            final(self).same_rings(*old(self)),
    {
        let ghost before = *self;
        proof {
            lemma_count_update(self.owner@, idx as int, Owner::Free, Owner::TxKernel);
            lemma_count_update(self.owner@, idx as int, Owner::Free, Owner::RxKernel);
            lemma_freed(before@, idx);
        }
        self.owner[idx] = Owner::Free;
        self.list.free(idx);
        assert(self@ =~= before@.freed(idx));
    }

    /// Whether the application has frame `idx`.
    pub fn has(&self, idx: usize) -> (yes: bool)
        ensures
            yes == (idx < self@.owner.len() && self@.owner[idx as int] == Owner::App),
    {
        idx < self.owner.len() && self.owner[idx] == Owner::App
    }
}

/// The owners after `to` got each of the frames.
pub open spec fn marked(owner: Seq<Owner>, indices: Seq<usize>, to: Owner) -> Seq<Owner>
    decreases indices.len(),
{
    if indices.len() == 0 {
        owner
    } else {
        marked(owner, indices.drop_last(), to).update(indices.last() as int, to)
    }
}

/// Who has what after several frames went from `from` to `to`.
proof fn lemma_marked(owner: Seq<Owner>, indices: Seq<usize>, from: Owner, to: Owner)
    requires
        indices.no_duplicates(),
        from != to,
        forall|i: int|
            0 <= i < indices.len() ==> #[trigger] indices[i] < owner.len()
                && owner[indices[i] as int] == from,
    ensures
        marked(owner, indices, to).len() == owner.len(),
        forall|x: usize|
            x < owner.len() ==> #[trigger] marked(owner, indices, to)[x as int] == (
            if indices.contains(x) {
                to
            } else {
                owner[x as int]
            }),
        count(marked(owner, indices, to), to) == count(owner, to) + indices.len(),
        count(marked(owner, indices, to), from) == count(owner, from) - indices.len(),
        forall|who: Owner|
            who != from && who != to ==> #[trigger] count(marked(owner, indices, to), who) == count(
                owner,
                who,
            ),
    decreases indices.len(),
{
    if indices.len() > 0 {
        let front = indices.drop_last();
        let last = indices.last();
        assert forall|i: int| 0 <= i < front.len() implies #[trigger] front[i] < owner.len()
            && owner[front[i] as int] == from by {
            assert(indices[i] < owner.len());
        }
        lemma_marked(owner, front, from, to);
        let mid = marked(owner, front, to);
        assert(indices[indices.len() - 1] == last);
        assert(!front.contains(last)) by {
            if front.contains(last) {
                let k = choose|k: int| 0 <= k < front.len() && front[k] == last;
                assert(indices[k] == indices[indices.len() - 1]);
            }
        }
        assert(mid[last as int] == from);
        assert forall|who: Owner| true implies #[trigger] count(mid.update(last as int, to), who)
            == count(mid, who) - (if from == who {
            1int
        } else {
            0
        }) + (if to == who {
            1int
        } else {
            0
        }) by {
            lemma_count_update(mid, last as int, to, who);
        }
        assert forall|x: usize| x < owner.len() implies #[trigger] marked(owner, indices, to)[x as int]
            == (if indices.contains(x) {
            to
        } else {
            owner[x as int]
        }) by {
            if x == last {
                assert(indices.contains(x));
            } else {
                if indices.contains(x) {
                    let k = choose|k: int| 0 <= k < indices.len() && indices[k] == x;
                    assert(front[k] == x);
                }
                if front.contains(x) {
                    let k = choose|k: int| 0 <= k < front.len() && front[k] == x;
                    assert(indices[k] == x);
                }
            }
        }
    }
}

/// Gives the first `n` of the frames to `to`.
fn mark_all(owner: &mut Vec<Owner>, indices: &[usize], n: usize, to: Owner)
    requires
        n <= indices@.len(),
        forall|i: int| 0 <= i < n ==> #[trigger] indices@[i] < old(owner)@.len(),
    ensures
        final(owner)@ == marked(old(owner)@, indices@.take(n as int), to),
        final(owner)@.len() == old(owner)@.len(),
{
    let ghost before = owner@;
    let mut i: usize = 0;
    while i < n
        invariant
            i <= n <= indices@.len(),
            owner@.len() == before.len(),
            forall|j: int| 0 <= j < n ==> #[trigger] indices@[j] < before.len(),
            owner@ == marked(before, indices@.take(i as int), to),
        decreases n - i,
    {
        assert(indices@.take(i + 1).drop_last() =~= indices@.take(i as int));
        let idx: usize = indices[i];
        owner[idx] = to;
        i += 1;
    }
}

/// What one step of a refill does to the model.
proof fn lemma_refill_step(before: XdpModel, after: XdpModel, picked: Seq<usize>, pushed: int)
    requires
        before.wf(),
        0 <= pushed <= picked.len() <= before.free.len(),
        picked == before.free.skip(before.free.len() - picked.len()),
        picked.no_duplicates(),
        after.free == before.free.take(before.free.len() - picked.len()) + picked.skip(pushed),
        after.owner == marked(before.owner, picked.take(pushed), Owner::RxKernel),
        after.counters == before.counters,
    ensures
        before.refilled(picked.take(pushed), after),
{
    let gone = picked.take(pushed);
    let base = before.free.len() - picked.len();
    assert forall|i: int| 0 <= i < gone.len() implies before.free.contains(#[trigger] gone[i]) by {
        assert(before.free[base + i] == gone[i]);
    }
    assert forall|i: int| 0 <= i < gone.len() implies #[trigger] gone[i] < before.owner.len()
        && before.owner[gone[i] as int] == Owner::Free by {
        assert(before.free[base + i] == gone[i]);
        assert(before.free.contains(gone[i]));
    }
    lemma_marked(before.owner, gone, Owner::Free, Owner::RxKernel);
    assert forall|i: int| 0 <= i < after.free.len() implies #[trigger] after.free[i]
        < after.owner.len() && after.free[i] == (if i < base {
        before.free[i]
    } else {
        before.free[i + pushed]
    }) by {
        if i < base {
            assert(before.free[i] < before.owner.len());
        } else {
            assert(after.free[i] == picked[i - base + pushed]);
            assert(before.free[i + pushed] < before.owner.len());
        }
    }
    assert(after.free.no_duplicates()) by {
        assert forall|i: int, j: int|
            0 <= i < after.free.len() && 0 <= j < after.free.len() && i != j implies after.free[i]
                != after.free[j] by {
            let a = if i < base {
                i
            } else {
                i + pushed
            };
            let b = if j < base {
                j
            } else {
                j + pushed
            };
            assert(before.free[a] != before.free[b]);
        }
    }
    assert forall|x: usize| x < after.owner.len() implies (#[trigger] after.owner[x as int]
        == Owner::Free <==> after.free.contains(x)) by {
        if gone.contains(x) {
            let g = choose|g: int| 0 <= g < gone.len() && gone[g] == x;
            if after.free.contains(x) {
                let k = choose|k: int| 0 <= k < after.free.len() && after.free[k] == x;
                let a = if k < base {
                    k
                } else {
                    k + pushed
                };
                assert(before.free[a] == before.free[base + g]);
            }
        } else if before.free.contains(x) {
            let k = choose|k: int| 0 <= k < before.free.len() && before.free[k] == x;
            if k < base {
                assert(after.free[k] == x);
            } else if k < base + pushed {
                assert(gone[k - base] == x);
            } else {
                assert(after.free[k - pushed] == x);
            }
        } else if after.free.contains(x) {
            let k = choose|k: int| 0 <= k < after.free.len() && after.free[k] == x;
            let a = if k < base {
                k
            } else {
                k + pushed
            };
            assert(before.free[a] == x);
        }
    }
}

/// Two refills are one.
proof fn lemma_refilled_more(
    start: XdpModel,
    given: Seq<usize>,
    mid: XdpModel,
    gone: Seq<usize>,
    after: XdpModel,
)
    requires
        start.wf(),
        mid.wf(),
        start.refilled(given, mid),
        mid.refilled(gone, after),
    ensures
        start.refilled(given + gone, after),
{
    let all = given + gone;
    assert forall|i: int| 0 <= i < given.len() implies #[trigger] given[i] < start.owner.len()
        && start.owner[given[i] as int] == Owner::Free by {
        assert(start.free.contains(given[i]));
        let k = choose|k: int| 0 <= k < start.free.len() && start.free[k] == given[i];
        assert(start.free[k] < start.owner.len());
    }
    lemma_marked(start.owner, given, Owner::Free, Owner::RxKernel);
    assert forall|i: int| 0 <= i < gone.len() implies #[trigger] gone[i] < start.owner.len()
        && start.owner[gone[i] as int] == Owner::Free && !given.contains(gone[i]) by {
        assert(mid.free.contains(gone[i]));
        let k = choose|k: int| 0 <= k < mid.free.len() && mid.free[k] == gone[i];
        assert(mid.free[k] < mid.owner.len());
        assert(mid.owner[gone[i] as int] == Owner::Free);
    }
    assert(all.no_duplicates()) by {
        assert forall|i: int, j: int|
            0 <= i < all.len() && 0 <= j < all.len() && i != j implies all[i] != all[j] by {
            if i < given.len() && j >= given.len() {
                assert(!given.contains(gone[j - given.len()]));
                assert(given[i] == all[i]);
            } else if j < given.len() && i >= given.len() {
                assert(!given.contains(gone[i - given.len()]));
                assert(given[j] == all[j]);
            } else if i < given.len() {
                assert(given[i] != given[j]);
            } else {
                assert(gone[i - given.len()] != gone[j - given.len()]);
            }
        }
    }
    assert forall|i: int| 0 <= i < all.len() implies start.free.contains(#[trigger] all[i]) by {
        if i < given.len() {
            assert(start.free.contains(given[i]));
        } else {
            let x = gone[i - given.len()];
            assert(start.owner[x as int] == Owner::Free);
        }
    }
    lemma_marked_concat(start.owner, given, gone, Owner::RxKernel);
}

/// Marking two groups is marking both.
proof fn lemma_marked_concat(owner: Seq<Owner>, a: Seq<usize>, b: Seq<usize>, to: Owner)
    ensures
        marked(marked(owner, a, to), b, to) == marked(owner, a + b, to),
    decreases b.len(),
{
    if b.len() == 0 {
        assert(a + b =~= a);
    } else {
        lemma_marked_concat(owner, a, b.drop_last(), to);
        assert((a + b).drop_last() =~= a + b.drop_last());
    }
}

/// The `n` topmost frames of a stack.
pub open spec fn topmost(free: Seq<usize>, n: nat) -> Seq<usize> {
    free.skip(free.len() - n)
}

/// Which of the frames on the stack `free` are given away, and which stay on it, where
/// `budget` are due, `room` find room, and up to `step` at a time are taken off. Those
/// that find no room are put back as they were.
pub open spec fn refill_order(free: Seq<usize>, budget: nat, step: nat, room: nat) -> (
    Seq<usize>,
    Seq<usize>,
)
    decreases budget,
{
    let limit = least(budget, step);
    let n = least(limit, room);
    let base = free.take(free.len() - limit);
    let top = topmost(free, limit);
    if limit == 0 {
        (Seq::empty(), free)
    } else if n < limit {
        (top.take(n as int), base + top.skip(n as int))
    } else {
        let rest = refill_order(base, (budget - n) as nat, step, (room - n) as nat);
        (top + rest.0, rest.1)
    }
}

/// As many frames are given away as are due and find room.
pub proof fn lemma_refill_order(free: Seq<usize>, budget: nat, step: nat, room: nat)
    requires
        budget <= free.len(),
        step > 0,
    ensures
        refill_order(free, budget, step, room).0.len() == least(budget, room),
    decreases budget,
{
    let limit = least(budget, step);
    let n = least(limit, room);
    if limit > 0 && n == limit {
        let base = free.take(free.len() - limit);
        lemma_refill_order(base, (budget - n) as nat, step, (room - n) as nat);
    }
}

/// The addresses of frames.
pub open spec fn addresses(indices: Seq<usize>, chunk: nat) -> Seq<(u64, u32)> {
    Seq::new(indices.len(), |i: int| ((indices[i] * chunk) as u64, 0u32))
}

impl XdpModel {
    /// How many more frames the kernel is given to receive into: up to the target, and
    /// not those that are reserved for sending.
    pub open spec fn refill_budget(self, cfg: XdpConfig) -> nat {
        let spare = if self.free.len() > cfg.tx_reserve {
            (self.free.len() - cfg.tx_reserve) as nat
        } else {
            0
        };
        least((cfg.rx_target() - count(self.owner, Owner::RxKernel)) as nat, spare)
    }

    /// Whether `after` is the device after the kernel was given `given` to receive
    /// into: frames that were free, and no other.
    pub open spec fn refilled(self, given: Seq<usize>, after: XdpModel) -> bool {
        &&& given.no_duplicates()
        &&& forall|i: int| 0 <= i < given.len() ==> self.free.contains(#[trigger] given[i])
        &&& after.owner == marked(self.owner, given, Owner::RxKernel)
        &&& after.free.len() == self.free.len() - given.len()
        &&& after.wf()
        &&& after.counters == self.counters
    }
}

/// What of a geometry the handling of packets relies on.
pub open spec fn sane(cfg: XdpConfig) -> bool {
    &&& 0 < cfg.chunk_size <= u32::MAX
    &&& cfg.frames * cfg.chunk_size <= usize::MAX
    &&& 0 < cfg.batch_size
    &&& cfg.tx_reserve < cfg.frames
    &&& cfg.headroom <= cfg.chunk_size
}

/// How many frames `who` has where all belong to another.
proof fn lemma_count_same(owner: Seq<Owner>, all: Owner, who: Owner)
    requires
        forall|i: int| 0 <= i < owner.len() ==> #[trigger] owner[i] == all,
        all != who,
    ensures
        count(owner, who) == 0,
    decreases owner.len(),
{
    if owner.len() > 0 {
        assert forall|i: int| 0 <= i < owner.drop_last().len() implies
            #[trigger] owner.drop_last()[i] == all by {
            assert(owner[i] == all);
        }
        assert(owner[owner.len() - 1] == all);
        lemma_count_same(owner.drop_last(), all, who);
    }
}

/// Freeing a frame keeps the model well-formed.
proof fn lemma_freed(m: XdpModel, idx: usize)
    requires
        m.wf(),
        idx < m.owner.len(),
        m.owner[idx as int] != Owner::Free,
    ensures
        m.freed(idx).wf(),
{
    let after = m.freed(idx);
    assert(!m.free.contains(idx));
    assert(after.free.no_duplicates()) by {
        assert forall|i: int, j: int|
            0 <= i < after.free.len() && 0 <= j < after.free.len() && i != j implies after.free[i]
                != after.free[j] by {
            if i == m.free.len() {
                assert(m.free[j] == after.free[j]);
            } else if j == m.free.len() {
                assert(m.free[i] == after.free[i]);
            } else {
                assert(m.free[i] != m.free[j]);
            }
        }
    }
    assert forall|i: int| 0 <= i < after.free.len() implies #[trigger] after.free[i]
        < after.owner.len() by {
        if i < m.free.len() {
            assert(m.free[i] < m.owner.len());
        }
    }
    assert forall|x: usize| x < after.owner.len() implies (#[trigger] after.owner[x as int]
        == Owner::Free <==> after.free.contains(x)) by {
        if x == idx {
            assert(after.free[m.free.len() as int] == idx);
        } else {
            assert(after.owner[x as int] == m.owner[x as int]);
            if m.free.contains(x) {
                let k = choose|k: int| 0 <= k < m.free.len() && m.free[k] == x;
                assert(after.free[k] == x);
            }
            if after.free.contains(x) {
                let k = choose|k: int| 0 <= k < after.free.len() && after.free[k] == x;
                assert(k < m.free.len());
                assert(m.free[k] == x);
            }
        }
    }
}

} // verus!
