//! What holds of an AF_XDP queue as a whole.
use vstd::prelude::*;

use super::device::{
    addresses, count, marked, place, refill_order, tx_descs, Lease, Outgoing, Owner, XdpConfig,
    XdpModel, XdpMode,
};
use super::prog::AttachMode;
use super::umem::{
    law_ring_keeps_what_is_written, lemma_ahead, ring_size, Consumer, Producer,
};
use crate::device::free_list::least;

verus! {

/// A descriptor names the packet that lies at its address: `offset` bytes into frame
/// `idx`, and inside it. Nothing else names a packet.
pub proof fn law_places(addr: u64, len: u32, chunk: nat, frames: nat, idx: int, offset: int)
    requires
        chunk > 0,
        frames * chunk <= usize::MAX,
    ensures
        place(addr, len, chunk, frames) == Some((idx, offset)) <==> {
            &&& addr == idx * chunk + offset
            &&& 0 <= idx < frames
            &&& 0 <= offset
            &&& 0 < len
            &&& offset + len <= chunk
        },
{
    let a = addr as int;
    let c = chunk as int;
    vstd::arithmetic::div_mod::lemma_fundamental_div_mod(a, c);
    vstd::arithmetic::div_mod::lemma_mod_bound(a, c);
    vstd::arithmetic::div_mod::lemma_div_pos_is_pos(a, c);
    vstd::arithmetic::mul::lemma_mul_is_commutative(c, a / c);
    if addr == idx * chunk + offset && 0 <= idx < frames && 0 <= offset && 0 < len && offset + len
        <= chunk {
        vstd::arithmetic::div_mod::lemma_fundamental_div_mod_converse(a, c, idx, offset);
        assert(idx * c + c <= frames * c) by (nonlinear_arith)
            requires
                idx + 1 <= frames,
                c > 0,
        ;
    }
}

/// A descriptor for sending names the packet that it was made for: its address is that
/// of the packet's first byte, it is as long as the packet, and who decodes it finds
/// the packet's frame and where in the frame it begins.
pub proof fn law_descriptors_name_their_packets(
    m: XdpModel,
    frames: Seq<Outgoing>,
    chunk: nat,
    i: int,
)
    requires
        m.sendable(frames, chunk),
        0 <= i < frames.len(),
        0 < chunk <= u32::MAX,
        m.owner.len() * chunk <= usize::MAX,
    ensures
        ({
            let lease = frames[i].lease;
            let d = tx_descs(frames, chunk)[i];
            &&& tx_descs(frames, chunk).len() == frames.len()
            &&& d.0 == lease.idx * chunk + lease.offset
            &&& d.1 == lease.len
            &&& place(d.0, d.1, chunk, m.owner.len()) == Some(
                (lease.idx as int, lease.offset as int),
            )
        }),
{
    let lease = frames[i].lease;
    assert(m.usable(frames[i], chunk));
    assert(lease.idx * chunk + chunk <= m.owner.len() * chunk) by (nonlinear_arith)
        requires
            lease.idx + 1 <= m.owner.len(),
            chunk > 0,
    ;
    assert(0 <= lease.idx * chunk) by (nonlinear_arith)
        requires
            lease.idx >= 0,
            chunk > 0,
    ;
    let d = tx_descs(frames, chunk)[i];
    assert(d.0 == lease.idx * chunk + lease.offset);
    law_places(d.0, d.1, chunk, m.owner.len(), lease.idx as int, lease.offset as int);
}

/// The addresses that the kernel is given to receive into are where its frames begin.
pub proof fn law_receive_addresses_name_their_frames(
    given: Seq<usize>,
    chunk: nat,
    frames: nat,
    i: int,
    len: u32,
)
    requires
        0 <= i < given.len(),
        given[i] < frames,
        frames * chunk <= usize::MAX,
        0 < len <= chunk,
    ensures
        addresses(given, chunk).len() == given.len(),
        addresses(given, chunk)[i].0 == given[i] * chunk,
        place(addresses(given, chunk)[i].0, len, chunk, frames) == Some((given[i] as int, 0int)),
{
    assert(given[i] * chunk + chunk <= frames * chunk) by (nonlinear_arith)
        requires
            given[i] + 1 <= frames,
            chunk > 0,
    ;
    assert(0 <= given[i] * chunk) by (nonlinear_arith)
        requires
            given[i] >= 0,
            chunk > 0,
    ;
    law_places(addresses(given, chunk)[i].0, len, chunk, frames, given[i] as int, 0);
}

/// A packet that the kernel received into a frame of its own is handed to the
/// application: where it lies and as long as it is. The frame changes hands, and
/// nothing else does.
pub proof fn law_received_packets_are_handed_over(
    m: XdpModel,
    idx: usize,
    offset: usize,
    len: u32,
    chunk: nat,
)
    requires
        chunk > 0,
        m.owner.len() * chunk <= usize::MAX,
        idx < m.owner.len(),
        m.owner[idx as int] == Owner::RxKernel,
        0 < len,
        offset + len <= chunk,
    ensures
        ({
            let d = ((idx * chunk + offset) as u64, len);
            let after = m.received(d, chunk);
            &&& m.lease(d, chunk) == Some(Lease { idx, offset, len: len as usize })
            &&& after.owner.len() == m.owner.len()
            &&& after.owner[idx as int] == Owner::App
            &&& forall|k: int|
                0 <= k < m.owner.len() && k != idx ==> #[trigger] after.owner[k] == m.owner[k]
            &&& after.free == m.free
            &&& after.counters == m.counters
        }),
{
    assert(idx * chunk + chunk <= m.owner.len() * chunk) by (nonlinear_arith)
        requires
            idx + 1 <= m.owner.len(),
            chunk > 0,
    ;
    assert(0 <= idx * chunk) by (nonlinear_arith)
        requires
            idx >= 0,
            chunk > 0,
    ;
    let addr = (idx * chunk + offset) as u64;
    law_places(addr, len, chunk, m.owner.len(), idx as int, offset as int);
}

/// What the application is handed lies where the descriptor says, in a frame that the
/// kernel had to receive into.
pub proof fn law_leases_come_from_the_kernel(m: XdpModel, d: (u64, u32), chunk: nat)
    requires
        chunk > 0,
        m.owner.len() * chunk <= usize::MAX,
        m.owner.len() <= usize::MAX,
        m.lease(d, chunk) is Some,
    ensures
        ({
            let lease = m.lease(d, chunk)->0;
            &&& d.0 == lease.idx * chunk + lease.offset
            &&& d.1 == lease.len
            &&& 0 < lease.len
            &&& lease.offset + lease.len <= chunk
            &&& lease.idx < m.owner.len()
            &&& m.owner[lease.idx as int] == Owner::RxKernel
        }),
{
    let (idx, offset) = place(d.0, d.1, chunk, m.owner.len())->0;
    law_places(d.0, d.1, chunk, m.owner.len(), idx, offset);
    assert(chunk <= usize::MAX) by (nonlinear_arith)
        requires
            m.owner.len() * chunk <= usize::MAX,
            m.owner.len() > 0,
    ;
}

/// A packet that was sent gives its frame back, wherever in the frame it lay: the frame
/// is free, next in line, and counted; no other frame changes hands.
pub proof fn law_sent_frames_are_freed(m: XdpModel, idx: usize, offset: nat, chunk: nat)
    requires
        offset < chunk,
        m.owner.len() * chunk <= usize::MAX,
        idx < m.owner.len(),
        m.owner[idx as int] == Owner::TxKernel,
        m.counters.tx_completed < u64::MAX,
    ensures
        ({
            let after = m.completed((idx * chunk + offset) as u64, chunk);
            &&& after.owner.len() == m.owner.len()
            &&& after.owner[idx as int] == Owner::Free
            &&& forall|k: int|
                0 <= k < m.owner.len() && k != idx ==> #[trigger] after.owner[k] == m.owner[k]
            &&& after.free == m.free.push(idx)
            &&& after.counters.tx_completed == m.counters.tx_completed + 1
            &&& after.counters.invalid_descriptors == m.counters.invalid_descriptors
        }),
{
    assert(idx * chunk + chunk <= m.owner.len() * chunk) by (nonlinear_arith)
        requires
            idx + 1 <= m.owner.len(),
            chunk > 0,
    ;
    assert(0 <= idx * chunk) by (nonlinear_arith)
        requires
            idx >= 0,
            chunk > 0,
    ;
    vstd::arithmetic::div_mod::lemma_fundamental_div_mod_converse(
        idx * chunk + offset,
        chunk as int,
        idx as int,
        offset as int,
    );
}

/// A completion of a frame that the kernel does not have to send changes no frame's
/// owner, and is counted as invalid.
pub proof fn law_unexpected_completions_free_nothing(m: XdpModel, idx: nat, offset: nat, chunk: nat)
    requires
        offset < chunk,
        idx * chunk + offset <= u64::MAX,
        idx >= m.owner.len() || m.owner[idx as int] != Owner::TxKernel,
        m.counters.invalid_descriptors < u64::MAX,
    ensures
        ({
            let after = m.completed((idx * chunk + offset) as u64, chunk);
            &&& after.owner == m.owner
            &&& after.free == m.free
            &&& after.counters.tx_completed == m.counters.tx_completed
            &&& after.counters.invalid_descriptors == m.counters.invalid_descriptors + 1
        }),
{
    assert(0 <= idx * chunk) by (nonlinear_arith)
        requires
            idx >= 0,
            chunk > 0,
    ;
    vstd::arithmetic::div_mod::lemma_fundamental_div_mod_converse(
        (idx * chunk + offset) as int,
        chunk as int,
        idx as int,
        offset as int,
    );
}

/// Frames that are marked belong to whom they are marked for; the others keep their
/// owner.
proof fn lemma_marked_each(owner: Seq<Owner>, indices: Seq<usize>, to: Owner)
    requires
        forall|i: int| 0 <= i < indices.len() ==> #[trigger] indices[i] < owner.len(),
    ensures
        marked(owner, indices, to).len() == owner.len(),
        forall|k: int|
            0 <= k < owner.len() && k <= usize::MAX ==> #[trigger] marked(owner, indices, to)[k] == (
            if indices.contains(k as usize) {
                to
            } else {
                owner[k]
            }),
    decreases indices.len(),
{
    if indices.len() > 0 {
        let front = indices.drop_last();
        lemma_marked_each(owner, front, to);
        let last = indices.last();
        assert(indices[indices.len() - 1] == last);
        assert forall|k: int| 0 <= k < owner.len() && k <= usize::MAX implies #[trigger] marked(
            owner,
            indices,
            to,
        )[k] == (if indices.contains(k as usize) {
            to
        } else {
            owner[k]
        }) by {
            if front.contains(k as usize) {
                let j = choose|j: int| 0 <= j < front.len() && front[j] == k as usize;
                assert(indices[j] == k as usize);
            }
            if indices.contains(k as usize) && k != last {
                let j = choose|j: int| 0 <= j < indices.len() && indices[j] == k as usize;
                assert(front[j] == k as usize);
            }
        }
    }
}

/// Sending gives the kernel the frames of the packets that are sent, and no other; each
/// packet is counted.
pub proof fn law_sending_hands_frames_over(m: XdpModel, frames: Seq<Outgoing>, chunk: nat, k: usize)
    requires
        m.sendable(frames, chunk),
        m.counters.tx_submitted + frames.len() <= u64::MAX,
        k < m.owner.len(),
    ensures
        ({
            let after = m.submitted(frames);
            let sent = exists|i: int| 0 <= i < frames.len() && (#[trigger] frames[i]).lease.idx == k;
            &&& after.owner[k as int] == (if sent {
                Owner::TxKernel
            } else {
                m.owner[k as int]
            })
            &&& after.owner.len() == m.owner.len()
            &&& after.free == m.free
            &&& after.counters.tx_submitted == m.counters.tx_submitted + frames.len()
        }),
{
    let indices = super::device::tx_indices(frames);
    assert forall|i: int| 0 <= i < indices.len() implies #[trigger] indices[i] < m.owner.len() by {
        assert(m.usable(frames[i], chunk));
    }
    lemma_marked_each(m.owner, indices, Owner::TxKernel);
    if indices.contains(k) {
        let i = choose|i: int| 0 <= i < indices.len() && indices[i] == k;
        assert(frames[i].lease.idx == k);
    }
    assert forall|i: int| 0 <= i < frames.len() && (#[trigger] frames[i]).lease.idx == k implies
        indices.contains(k) by {
        assert(indices[i] == k);
    }
}

/// A packet can be sent exactly if the application has its frame, and it is not empty
/// and ends inside the frame.
pub proof fn law_whole_packets_can_be_sent(m: XdpModel, lease: Lease, mine: bool, chunk: nat)
    ensures
        m.sendable(seq![Outgoing { lease, mine }], chunk) <==> {
            &&& mine
            &&& lease.idx < m.owner.len()
            &&& m.owner[lease.idx as int] == Owner::App
            &&& 0 < lease.len
            &&& lease.offset + lease.len <= chunk
        },
{
    let one = seq![Outgoing { lease, mine }];
    assert(one[0] == Outgoing { lease, mine });
}

/// Sending a packet and having it completed gives its frame back to the free list.
pub proof fn law_completing_undoes_sending(m: XdpModel, lease: Lease, chunk: nat)
    requires
        lease.idx < m.owner.len(),
        m.owner[lease.idx as int] == Owner::App,
        0 < lease.len,
        lease.offset + lease.len <= chunk <= u32::MAX,
        m.owner.len() * chunk <= usize::MAX,
        m.counters.tx_submitted < u64::MAX,
        m.counters.tx_completed < u64::MAX,
    ensures
        ({
            let frames = seq![Outgoing { lease, mine: true }];
            let after = m.submitted(frames).completed(tx_descs(frames, chunk)[0].0, chunk);
            &&& after.owner == m.owner.update(lease.idx as int, Owner::Free)
            &&& after.free == m.free.push(lease.idx)
            &&& after.counters.tx_submitted == m.counters.tx_submitted + 1
            &&& after.counters.tx_completed == m.counters.tx_completed + 1
        }),
{
    let frames = seq![Outgoing { lease, mine: true }];
    assert(frames[0] == Outgoing { lease, mine: true });
    law_whole_packets_can_be_sent(m, lease, true, chunk);
    law_descriptors_name_their_packets(m, frames, chunk, 0);
    law_sending_hands_frames_over(m, frames, chunk, lease.idx);
    let mid = m.submitted(frames);
    law_sent_frames_are_freed(mid, lease.idx, lease.offset as nat, chunk);
    let after = mid.completed(tx_descs(frames, chunk)[0].0, chunk);
    assert forall|k: int| 0 <= k < m.owner.len() implies after.owner[k] == m.owner.update(
        lease.idx as int,
        Owner::Free,
    )[k] by {
        assert(m.owner.len() <= m.owner.len() * chunk) by (nonlinear_arith)
            requires
                chunk > 0,
        ;
        law_sending_hands_frames_over(m, frames, chunk, k as usize);
        if k != lease.idx {
            assert(mid.owner[k] == m.owner[k]);
        }
    }
    assert(after.owner =~= m.owner.update(lease.idx as int, Owner::Free));
}

/// The application gets the frame that was freed last, and it alone changes hands.
pub proof fn law_the_last_free_frame_is_taken(m: XdpModel)
    requires
        m.wf(),
        m.free.len() > 0,
    ensures
        m.taken().free.push(m.free.last()) == m.free,
        m.taken().owner == m.owner.update(m.free.last() as int, Owner::App),
        m.taken().counters == m.counters,
{
    assert(m.taken().free.push(m.free.last()) =~= m.free);
}

/// The kernel gets frames to receive into up to the size of the fill ring, as long as
/// those reserved for sending stay free: as many as both allow.
pub proof fn law_frames_are_due_up_to_the_target(m: XdpModel, cfg: XdpConfig)
    requires
        cfg.tx_reserve < cfg.frames,
        count(m.owner, Owner::RxKernel) <= cfg.fill_entries,
        count(m.owner, Owner::RxKernel) <= cfg.frames - cfg.tx_reserve,
    ensures
        ({
            let due = m.refill_budget(cfg);
            let have = count(m.owner, Owner::RxKernel);
            &&& have + due <= cfg.fill_entries
            &&& have + due <= cfg.frames - cfg.tx_reserve
            &&& due > 0 ==> due + cfg.tx_reserve <= m.free.len()
            &&& have + due == cfg.fill_entries || have + due == cfg.frames - cfg.tx_reserve
                || m.free.len() <= due + cfg.tx_reserve
        }),
{
}

/// Giving frames away loses none and gives none twice: those that are given and those
/// that stay are the free frames, and as many are given as are due and find room.
pub proof fn law_refilling_splits_the_free_frames(
    free: Seq<usize>,
    budget: nat,
    step: nat,
    room: nat,
)
    requires
        budget <= free.len(),
        step > 0,
    ensures
        ({
            let (given, rest) = refill_order(free, budget, step, room);
            &&& given.len() <= budget && given.len() <= room
            &&& given.len() == budget || given.len() == room
            &&& given.to_multiset().add(rest.to_multiset()) =~= free.to_multiset()
        }),
    decreases budget,
{
    broadcast use vstd::seq_lib::group_to_multiset_ensures;

    let limit = least(budget, step);
    let n = least(limit, room);
    let base = free.take(free.len() - limit);
    let top = free.skip(free.len() - limit);
    assert(base + top =~= free);
    vstd::seq_lib::lemma_multiset_commutative(base, top);
    if limit == 0 {
        assert(Seq::<usize>::empty().to_multiset().len() == 0);
        assert(Seq::<usize>::empty().to_multiset() =~= vstd::multiset::Multiset::empty());
    } else if n < limit {
        let (gone, kept) = (top.take(n as int), top.skip(n as int));
        assert(gone + kept =~= top);
        vstd::seq_lib::lemma_multiset_commutative(gone, kept);
        vstd::seq_lib::lemma_multiset_commutative(base, kept);
    } else {
        law_refilling_splits_the_free_frames(base, (budget - n) as nat, step, (room - n) as nat);
        let (g, r) = refill_order(base, (budget - n) as nat, step, (room - n) as nat);
        vstd::seq_lib::lemma_multiset_commutative(top, g);
    }
}

/// The flags that a device binds with always ask the kernel to say when it has to be
/// woken. Zero-copy and copying are demanded where they are configured; otherwise the
/// kernel picks, unless the generic path leaves it no choice.
pub proof fn law_bind_flags_say_what_is_configured(cfg: XdpConfig, attach_mode: AttachMode)
    ensures
        cfg.flags(attach_mode) == (if cfg.mode == XdpMode::ZeroCopy {
            12u16
        } else if cfg.mode == XdpMode::Copy || attach_mode == AttachMode::Generic {
            10u16
        } else {
            8u16
        }),
{
    assert(8u16 | 0u16 == 8u16 && 8u16 | 2u16 == 10u16 && 8u16 | 4u16 == 12u16) by (bit_vector);
}

/// What one side pushes, the other side pops: all of it, unchanged and in order.
pub proof fn law_what_is_pushed_is_popped(p: Producer, run: Seq<(u64, u32)>, after: Consumer)
    requires
        p.inv(),
        run.len() <= p.ring.entries,
        after.ring.entries == p.ring.entries,
        after.ring.desc@ == p.ring.written(p.cached_producer, run),
        after.ring.producer == (p.cached_producer + run.len()) % 0x1_0000_0000,
        after.cached_consumer == p.cached_producer,
    ensures
        after.waiting() == run.len(),
        after.ring.read(after.cached_consumer, after.waiting()) == run,
{
    lemma_ahead(after.ring.producer, after.cached_consumer);
    assert(after.waiting() == run.len());
    law_ring_keeps_what_is_written(p.ring, p.cached_producer, run, after.ring);
}

/// Rings can have one entry, or twice as many as another ring within 32 bits; no other
/// number will do, none of all.
pub proof fn law_ring_sizes(n: nat)
    ensures
        !ring_size(0),
        ring_size(1),
        n > 1 && n % 2 == 1 ==> !ring_size(n),
        0 < n && 2 * n <= u32::MAX ==> (ring_size(2 * n) <==> ring_size(n)),
        n > u32::MAX ==> !ring_size(n),
{
    reveal(vstd::arithmetic::power2::is_pow2);
    assert((2 * n) as int / 2 == n);
    assert((2 * n) as int % 2 == 0);
}

} // verus!
