//! Fixed arenas with exclusive packet handles. A handle carries the bytes of its
//! frame, may outlive the pool, and hands the frame back when it is dropped.
use std::cell::Cell;
use std::rc::Rc;

use vstd::prelude::*;

use super::free_list::FreeList;
use crate::shared::{exchange, new_cell, same};

verus! {

broadcast use vstd::seq::group_seq_axioms;

/// A frame without a handle, and a link of the list of returned frames.
struct Frame {
    idx: usize,
    kept: bool,
    bytes: Vec<u8>,
    next: Option<Box<Frame>>,
}

impl Drop for Frame {
    /// Unlinks the rest of the list one frame at a time, so that a long list needs
    /// no deep recursion.
    fn drop(&mut self)
        opens_invariants none
        no_unwind
    {
        let mut rest: Option<Box<Frame>> = None;
        std::mem::swap(&mut rest, &mut self.next);
        loop
            decreases rest,
        {
            match rest {
                None => {
                    break;
                },
                Some(mut frame) => {
                    let mut next: Option<Box<Frame>> = None;
                    std::mem::swap(&mut next, &mut frame.next);
                    rest = next;
                },
            }
        }
    }
}

/// The place where handles leave the frames they return.
type Bin = Rc<Cell<Option<Box<Frame>>>>;

/// What a handle gave back: its frame, with the bytes as they were left, and
/// whether the frame stays allocated.
pub struct Back {
    pub idx: usize,
    pub kept: bool,
    pub bytes: Seq<u8>,
}

/// The frames of a list, the one returned first at the front.
spec fn backs(list: Option<Box<Frame>>) -> Seq<Back>
    decreases list,
{
    match list {
        None => Seq::empty(),
        Some(frame) => backs(frame.next).push(
            (Back { idx: frame.idx, kept: frame.kept, bytes: frame.bytes@ }),
        ),
    }
}

/// The frames of a stack, the one on top at the front.
spec fn backs_of(stack: Seq<Box<Frame>>) -> Seq<Back> {
    Seq::new(
        stack.len(),
        |i: int|
            {
                let frame = stack[stack.len() - 1 - i];
                (Back { idx: frame.idx, kept: frame.kept, bytes: frame.bytes@ })
            },
    )
}

/// What a pool holds.
#[verifier::ext_equal]
pub struct PoolState {
    /// The free frames; the last one is handed out next.
    pub free: Seq<usize>,
    /// The bytes of each frame, or `None` while a handle has them.
    pub slots: Seq<Option<Seq<u8>>>,
    pub frame_size: nat,
}

impl PoolState {
    /// Frames are free once; a free frame has its bytes; all are of one size.
    pub open spec fn wf(self) -> bool {
        &&& self.free.no_duplicates()
        &&& forall|i: int|
            0 <= i < self.free.len() ==> #[trigger] self.free[i] < self.slots.len()
                && self.slots[self.free[i] as int] is Some
        &&& forall|i: int|
            0 <= i < self.slots.len() ==> (#[trigger] self.slots[i] matches Some(bytes)
                ==> bytes.len() == self.frame_size)
    }

    /// Whether frame `idx` is allocated.
    pub open spec fn used(self, idx: usize) -> bool {
        idx < self.slots.len() && !self.free.contains(idx)
    }

    /// Whether frame `idx` is allocated and no handle has it.
    pub open spec fn held(self, idx: usize) -> bool {
        self.used(idx) && self.slots[idx as int] is Some
    }

    /// The pool after a handle gave a frame back.
    pub open spec fn with_back(self, back: Back) -> PoolState {
        if self.used(back.idx) && self.slots[back.idx as int] is None && back.bytes.len()
            == self.frame_size {
            PoolState {
                free: if back.kept {
                    self.free
                } else {
                    self.free.push(back.idx)
                },
                slots: self.slots.update(back.idx as int, Some(back.bytes)),
                frame_size: self.frame_size,
            }
        } else {
            self
        }
    }

    /// The pool after handles gave frames back, the first of them first.
    pub open spec fn settled(self, back: Seq<Back>) -> PoolState
        decreases back.len(),
    {
        if back.len() == 0 {
            self
        } else {
            self.settled(back.drop_last()).with_back(back.last())
        }
    }

    /// The pool without its `n` topmost free frames.
    pub open spec fn without(self, n: nat) -> PoolState {
        PoolState { free: self.free.take(self.free.len() - n), ..self }
    }

    /// The pool with frames freed.
    pub open spec fn with_free(self, indices: Seq<usize>) -> PoolState {
        PoolState { free: self.free + indices, ..self }
    }

    /// The pool after frame `idx` went into a handle.
    pub open spec fn handed(self, idx: usize) -> PoolState {
        PoolState { slots: self.slots.update(idx as int, None), ..self }
    }

    /// The pool after its `n` topmost free frames went into handles, one by one.
    pub open spec fn taken(self, n: nat) -> PoolState
        decreases n,
    {
        if n == 0 {
            self
        } else {
            let before = self.taken((n - 1) as nat);
            before.without(1).handed(before.free.last())
        }
    }

    /// Whether `frame` is what is given when an empty frame is asked for: once `back` has
    /// come back, the topmost free frame, if there is one. The pool is `after` then.
    pub open spec fn gives(
        self,
        back: Seq<Back>,
        frame: Option<PacketBuf>,
        after: PoolState,
    ) -> bool {
        let pool = self.settled(back);
        match frame {
            None => pool.free.len() == 0 && after == pool,
            Some(buf) => {
                &&& pool.free.len() > 0
                &&& fresh(buf, pool, pool.free.last(), 0)
                &&& after == pool.taken(1)
            },
        }
    }

    /// The pool after several frames went into handles.
    pub open spec fn handed_all(self, indices: Seq<usize>) -> PoolState
        decreases indices.len(),
    {
        if indices.len() == 0 {
            self
        } else {
            self.handed_all(indices.drop_last()).handed(indices.last())
        }
    }
}

/// Returned frames keep the pool well-formed, add to what is free, and leave
/// allocated frames alone that no handle has.
pub proof fn lemma_settled(s: PoolState, back: Seq<Back>)
    requires
        s.wf(),
    ensures
        s.settled(back).wf(),
        s.settled(back).slots.len() == s.slots.len(),
        s.settled(back).frame_size == s.frame_size,
        s.free.len() <= s.settled(back).free.len(),
        s.settled(back).free.take(s.free.len() as int) == s.free,
        forall|idx: usize| s.held(idx) ==> #[trigger] s.settled(back).held(idx),
        forall|i: int|
            0 <= i < s.slots.len() && s.slots[i] is Some ==> #[trigger] s.settled(back).slots[i]
                == s.slots[i],
    decreases back.len(),
{
    if back.len() == 0 {
        assert(s.free.take(s.free.len() as int) =~= s.free);
    } else {
        let before = s.settled(back.drop_last());
        let b = back.last();
        lemma_settled(s, back.drop_last());
        let after = before.with_back(b);
        if before.used(b.idx) && before.slots[b.idx as int] is None && b.bytes.len()
            == before.frame_size && !b.kept {
            assert(after.free.no_duplicates()) by {
                assert forall|i: int, j: int|
                    0 <= i < after.free.len() && 0 <= j < after.free.len() && i
                        != j implies after.free[i] != after.free[j] by {
                    if i == before.free.len() {
                        assert(before.free[j] == after.free[j]);
                    } else if j == before.free.len() {
                        assert(before.free[i] == after.free[i]);
                    } else {
                        assert(before.free[i] == after.free[i]);
                        assert(before.free[j] == after.free[j]);
                    }
                }
            }
            assert(after.free.take(s.free.len() as int) =~= before.free.take(s.free.len() as int));
            assert forall|idx: usize| s.held(idx) implies #[trigger] after.held(idx) by {
                assert(before.held(idx));
                assert(idx != b.idx);
                if after.free.contains(idx) {
                    let k = choose|k: int| 0 <= k < after.free.len() && after.free[k] == idx;
                    assert(before.free[k] == idx);
                    assert(before.free.contains(idx));
                }
            }
            assert forall|i: int| 0 <= i < after.free.len() implies #[trigger] after.free[i]
                < after.slots.len() && after.slots[after.free[i] as int] is Some by {
                if i < before.free.len() {
                    assert(before.free[i] < before.slots.len());
                }
            }
        } else {
            assert forall|idx: usize| s.held(idx) implies #[trigger] after.held(idx) by {
                assert(before.held(idx));
            }
        }
    }
}

/// Taking the topmost free frames leaves the others, and the pool well-formed.
pub proof fn lemma_taken(s: PoolState, n: nat)
    requires
        s.wf(),
        n <= s.free.len(),
    ensures
        s.taken(n).wf(),
        s.taken(n).free == s.free.take(s.free.len() - n),
        s.taken(n).slots.len() == s.slots.len(),
        s.taken(n).frame_size == s.frame_size,
    decreases n,
{
    if n == 0 {
        assert(s.free.take(s.free.len() as int) =~= s.free);
    } else {
        lemma_taken(s, (n - 1) as nat);
        let before = s.taken((n - 1) as nat);
        let after = s.taken(n);
        assert(after.free =~= s.free.take(s.free.len() - n));
        assert(before.free[before.free.len() - 1] == before.free.last());
        assert forall|i: int| 0 <= i < after.free.len() implies #[trigger] after.free[i]
            < after.slots.len() && after.slots[after.free[i] as int] is Some by {
            assert(after.free[i] == before.free[i]);
            assert(before.free[i] != before.free[before.free.len() - 1]);
        }
    }
}

/// While nothing comes back, every free frame is given, each of them once, and then no
/// more: after `n` frames, a further one is given exactly if `n` is less than were free.
pub proof fn law_every_frame_is_given(
    s: PoolState,
    n: nat,
    frame: Option<PacketBuf>,
    after: PoolState,
)
    requires
        s.wf(),
        n <= s.free.len(),
        s.taken(n).gives(Seq::empty(), frame, after),
    ensures
        frame is Some <==> n < s.free.len(),
        frame matches Some(buf) ==> buf.index() == s.free[s.free.len() - 1 - n] && after == s.taken(
            n + 1,
        ),
        frame is None ==> after == s.taken(n),
{
    lemma_taken(s, n);
    let t = s.taken(n);
    assert(t.settled(Seq::empty()) == t);
    assert(t.taken(0) == t);
    assert(t.taken(1) == t.without(1).handed(t.free.last()));
    assert(s.taken(n + 1) == t.without(1).handed(t.free.last()));
}

/// A handle that is dropped gives its frame back: the frame is free again, next in
/// line, and holds what the handle left in it.
pub proof fn law_dropping_returns_the_frame(s: PoolState, bytes: Seq<u8>)
    requires
        s.wf(),
        s.free.len() > 0,
        bytes.len() == s.frame_size,
    ensures
        ({
            let idx = s.free.last();
            let back = Back { idx, kept: false, bytes };
            let after = s.without(1).handed(idx).with_back(back);
            &&& after.wf()
            &&& after.free == s.free
            &&& after.slots == s.slots.update(idx as int, Some(bytes))
        }),
{
    let idx = s.free.last();
    assert(s.free[s.free.len() - 1] == idx);
    let out = s.without(1).handed(idx);
    assert(!out.free.contains(idx)) by {
        if out.free.contains(idx) {
            let k = choose|k: int| 0 <= k < out.free.len() && out.free[k] == idx;
            assert(s.free[k] == s.free[s.free.len() - 1]);
        }
    }
    let after = out.with_back(Back { idx, kept: false, bytes });
    assert(after.free =~= s.free);
    assert(after.slots =~= s.slots.update(idx as int, Some(bytes)));
}

/// What a pool does not miss changes nothing: a frame comes back at most once.
pub proof fn law_frames_come_back_once(s: PoolState, back: Back)
    ensures
        s.with_back(back).with_back(back) == s.with_back(back),
{
}

/// Taking a header off undoes putting it on.
pub proof fn law_pulling_undoes_pushing(header: Seq<u8>, packet: Seq<u8>)
    ensures
        (header + packet).skip(header.len() as int) == packet,
{
    assert((header + packet).skip(header.len() as int) =~= packet);
}

/// A pool of which nothing was handed out yet: frames of zeros, the first of them to be
/// taken first.
pub open spec fn full_pool(frames: nat, size: nat) -> PoolState {
    PoolState {
        free: Seq::new(frames, |i: int| (frames - 1 - i) as usize),
        slots: Seq::new(frames, |i: int| Some(crate::bytes::zeros(size))),
        frame_size: size,
    }
}

/// Whether an arena of this geometry can be laid out in memory.
pub open spec fn valid_arena(num_frames: nat, frame_size: nat, alignment: nat) -> bool {
    &&& num_frames > 0
    &&& frame_size > 0
    &&& vstd::arithmetic::power2::is_pow2(alignment as int)
    &&& num_frames * frame_size + alignment - 1 <= isize::MAX
}

/// The way back of a frame that a handle has.
struct Home {
    frame: Box<Frame>,
    bin: Bin,
}

/// Exclusive packet storage. A handle is neither `Send` nor `Sync`, may outlive its
/// device, and returns its frame on drop. A consumed slot becomes an empty buffer
/// of capacity zero, which remains safe to inspect and drop.
pub struct PacketBuf {
    bytes: Vec<u8>,
    data_offset: usize,
    len: usize,
    home: Option<Home>,
}

impl Drop for PacketBuf {
    /// Leaves the frame, if there is one, for the pool to find.
    fn drop(&mut self)
        ensures
            !final(self).live(),
            old(self).live() ==> old(self).gives_back(
                (Back { idx: old(self).index(), kept: false, bytes: old(self).frame() }),
            ),
        opens_invariants none
        no_unwind
    {
        self.leave(false);
    }
}

impl Default for PacketBuf {
    /// An empty buffer of capacity zero.
    fn default() -> (buf: PacketBuf)
        ensures
            buf.vacant(),
            buf.inv(),
            buf@ == Seq::<u8>::empty(),
            buf.index() == 0,
    {
        PacketBuf { bytes: Vec::new(), data_offset: 0, len: 0, home: None }
    }
}

impl PacketBuf {
    /// The packet.
    pub open spec fn view(self) -> Seq<u8> {
        self.frame().subrange(self.offset() as int, self.offset() as int + self.size())
    }

    /// All bytes of the frame, headroom and unused tail among them.
    pub closed spec fn frame(self) -> Seq<u8> {
        self.bytes@
    }

    /// Where in the frame the packet starts.
    pub closed spec fn offset(self) -> nat {
        self.data_offset as nat
    }

    /// How long the packet is.
    pub closed spec fn size(self) -> nat {
        self.len as nat
    }

    /// The number of the frame in its pool.
    pub closed spec fn index(self) -> usize {
        match self.home {
            Some(home) => home.frame.idx,
            None => 0,
        }
    }

    /// Whether `back` is left for the pool to find: put before what had been left there,
    /// none of which is lost.
    pub closed spec fn gives_back(self, back: Back) -> bool {
        exists|left: Box<Frame>, rest: Option<Box<Frame>>, got: Option<Box<Frame>>|
            {
                &&& #[trigger] call_ensures(
                    exchange::<Option<Box<Frame>>>,
                    (&*self.home->0.bin, None),
                    rest,
                )
                &&& #[trigger] call_ensures(
                    exchange::<Option<Box<Frame>>>,
                    (&*self.home->0.bin, Some(left)),
                    got,
                )
                &&& backs(Some(left)) == backs(rest).push(back)
            }
    }

    /// Leaves the frame, if there is one, for the pool to find. It stays allocated if it
    /// is `kept`.
    fn leave(&mut self, kept: bool)
        ensures
            !final(self).live(),
            old(self).live() ==> old(self).gives_back(
                (Back { idx: old(self).index(), kept, bytes: old(self).frame() }),
            ),
        opens_invariants none
        no_unwind
    {
        let mut home: Option<Home> = None;
        std::mem::swap(&mut home, &mut self.home);
        match home {
            None => {},
            Some(home) => {
                let Home { mut frame, bin } = home;
                std::mem::swap(&mut frame.bytes, &mut self.bytes);
                frame.kept = kept;
                frame.next = exchange(&bin, None);
                let ghost left = frame;
                exchange(&bin, Some(frame));
                assert(backs(Some(left)) == backs(left.next).push(
                    (Back { idx: left.idx, kept, bytes: left.bytes@ }),
                ));
            },
        }
    }

    /// Whether the buffer returns a frame when it is dropped.
    pub closed spec fn live(self) -> bool {
        self.home is Some
    }

    /// Whether the buffer returns its frame to `pool`.
    pub closed spec fn returns_to(self, pool: FramePool) -> bool {
        self.home is Some && self.home->0.bin == pool.bin
    }

    /// The packet lies inside the frame.
    pub open spec fn inv(self) -> bool {
        self.offset() + self.size() <= self.frame().len() <= usize::MAX
    }

    /// Whether this is a consumed slot.
    pub open spec fn vacant(self) -> bool {
        &&& !self.live()
        &&& self.frame().len() == 0
        &&& self.offset() == 0
        &&& self.size() == 0
    }

    /// How long a packet at the present offset can be.
    pub open spec fn room(self) -> int {
        self.frame().len() - self.offset()
    }

    /// Whether `self` is the buffer `before` with another packet in it: the same
    /// frame with the same way back.
    pub closed spec fn same_frame(self, before: PacketBuf) -> bool {
        &&& self.home == before.home
        &&& self.bytes@.len() == before.bytes@.len()
    }

    /// What `same_frame` keeps.
    pub broadcast proof fn lemma_same_frame(self, before: PacketBuf)
        requires
            #[trigger] self.same_frame(before),
        ensures
            self.index() == before.index(),
            self.live() == before.live(),
            self.frame().len() == before.frame().len(),
            forall|pool: FramePool| #[trigger]
                self.returns_to(pool) == before.returns_to(pool),
    {
    }

    /// Keeping the frame twice is keeping it.
    pub proof fn lemma_frame_kept_twice(self, mid: PacketBuf, before: PacketBuf)
        requires
            self.same_frame(mid),
            mid.same_frame(before),
        ensures
            self.same_frame(before),
    {
    }

    /// The packet.
    #[inline]
    pub fn as_slice(&self) -> (s: &[u8])
        requires
            self.inv(),
        ensures
            s@ == self@,
    {
        &self.bytes[self.data_offset..self.data_offset + self.len]
    }

    /// The whole frame.
    #[inline]
    pub fn as_mut_slice(&mut self) -> (s: &mut [u8])
        requires
            old(self).inv(),
        ensures
            s@ == old(self).frame(),
            final(s)@.len() == s@.len() ==> {
                &&& final(self).inv()
                &&& final(self).frame() == final(s)@
                &&& final(self).offset() == old(self).offset()
                &&& final(self).size() == old(self).size()
                &&& final(self).same_frame(*old(self))
            },
    {
        self.bytes.as_mut_slice()
    }

    /// The packet, to be changed in place.
    #[inline]
    pub fn as_mut_packet(&mut self) -> (s: &mut [u8])
        requires
            old(self).inv(),
        ensures
            s@ == old(self)@,
            final(s)@.len() == s@.len() ==> {
                &&& final(self).inv()
                &&& final(self)@ == final(s)@
                &&& final(self).offset() == old(self).offset()
                &&& final(self).size() == old(self).size()
                &&& final(self).same_frame(*old(self))
                &&& final(self).frame() == crate::bytes::overwrite(
                    old(self).frame(),
                    old(self).offset() as int,
                    final(s)@,
                )
            },
    {
        let at: usize = self.data_offset;
        let n: usize = self.len;
        let (_, tail) = self.bytes.as_mut_slice().split_at_mut(at);
        let (packet, _) = tail.split_at_mut(n);
        packet
    }

    /// Moves the start of the packet; its length stays.
    pub fn set_headroom(&mut self, headroom: usize)
        requires
            old(self).inv(),
            headroom + old(self).size() <= old(self).frame().len(),
        ensures
            final(self).inv(),
            final(self).offset() == headroom,
            final(self).size() == old(self).size(),
            final(self).frame() == old(self).frame(),
            final(self).same_frame(*old(self)),
    {
        self.data_offset = headroom;
    }

    /// Sets the length of the packet; its start stays.
    #[inline]
    pub fn set_len(&mut self, len: usize)
        requires
            old(self).inv(),
            len <= old(self).room(),
        ensures
            final(self).inv(),
            final(self).offset() == old(self).offset(),
            final(self).size() == len,
            final(self).frame() == old(self).frame(),
            final(self).same_frame(*old(self)),
    {
        self.len = len;
    }

    /// Puts a header in front of the packet.
    pub fn push_header(&mut self, bytes: &[u8])
        requires
            old(self).inv(),
            bytes@.len() <= old(self).offset(),
        ensures
            final(self).inv(),
            final(self).offset() == old(self).offset() - bytes@.len(),
            final(self)@ == bytes@ + old(self)@,
            final(self).frame() == crate::bytes::overwrite(
                old(self).frame(),
                old(self).offset() - bytes@.len(),
                bytes@,
            ),
            final(self).same_frame(*old(self)),
    {
        let n: usize = bytes.len();
        self.data_offset = self.data_offset - n;
        self.len = self.len + n;
        let at: usize = self.data_offset;
        crate::bytes::put_run(self.bytes.as_mut_slice(), at, bytes);
        assert(self@ =~= bytes@ + old(self)@);
    }

    /// Takes `n` bytes off the front of the packet.
    pub fn pull_header(&mut self, n: usize)
        requires
            old(self).inv(),
            n <= old(self).size(),
        ensures
            final(self).inv(),
            final(self).offset() == old(self).offset() + n,
            final(self).size() == old(self).size() - n,
            final(self)@ == old(self)@.skip(n as int),
            final(self).frame() == old(self).frame(),
            final(self).same_frame(*old(self)),
    {
        self.data_offset = self.data_offset + n;
        self.len = self.len - n;
        assert(self@ =~= old(self)@.skip(n as int));
    }

    /// Where in the frame the packet starts.
    pub fn data_offset(&self) -> (n: usize)
        ensures
            n == self.offset(),
    {
        self.data_offset
    }

    /// How long the packet is.
    pub fn len(&self) -> (n: usize)
        ensures
            n == self.size(),
    {
        self.len
    }

    /// Whether the packet has no bytes.
    pub fn is_empty(&self) -> (yes: bool)
        ensures
            yes == (self.size() == 0),
    {
        self.len == 0
    }

    /// Entire frame size, headroom and all. See `tail_capacity` for the payload.
    pub fn capacity(&self) -> (n: usize)
        ensures
            n == self.frame().len(),
    {
        self.bytes.len()
    }

    /// How long a packet at the present offset can be.
    pub fn tail_capacity(&self) -> (n: usize)
        requires
            self.inv(),
        ensures
            n == self.room(),
    {
        self.bytes.len() - self.data_offset
    }

    /// Returns the frame to its pool, as dropping the buffer does.
    pub fn recycle(self)
        ensures
            self.live() ==> self.gives_back(
                (Back { idx: self.index(), kept: false, bytes: self.frame() }),
            ),
    {
        let mut buf = self;
        buf.leave(false);
    }

    /// Whether the frame is one of `pool`'s: whether dropping the buffer returns it there.
    pub fn belongs_to(&self, pool: &FramePool) -> (yes: bool)
        ensures
            yes == self.returns_to(*pool),
            yes ==> self.live(),
    {
        match &self.home {
            None => false,
            Some(home) => same(&home.bin, &pool.bin),
        }
    }

    /// The number of the frame in its pool.
    pub fn frame_index(&self) -> (idx: usize)
        ensures
            idx == self.index(),
    {
        match &self.home {
            Some(home) => home.frame.idx,
            None => 0,
        }
    }

    /// Gives up the handle but keeps the frame allocated: frame number and length.
    pub fn into_parts(self) -> (parts: (usize, usize))
        ensures
            parts.0 == self.index(),
            parts.1 == self.size(),
            self.live() ==> self.gives_back(
                (Back { idx: self.index(), kept: true, bytes: self.frame() }),
            ),
    {
        let mut buf = self;
        let idx: usize = buf.frame_index();
        let len: usize = buf.len;
        buf.leave(true);
        (idx, len)
    }
}

/// How many frames one step of a batch hands out at most.
pub const BATCH: usize = 64;

/// The frames that a batch of up to `max` takes off the stack `free`, in order:
/// steps of `BATCH`, each of them in the order of the stack.
pub open spec fn batch(free: Seq<usize>, max: nat) -> Seq<usize>
    decreases max,
{
    let limit = super::free_list::least(BATCH as nat, max);
    let n = super::free_list::least(limit, free.len());
    let step = free.skip(free.len() - n);
    if max == 0 {
        Seq::empty()
    } else if n < limit {
        step
    } else {
        step + batch(free.take(free.len() - n), (max - n) as nat)
    }
}

/// A batch has as many frames as were asked for and are free, and they are the
/// topmost of the stack.
pub proof fn lemma_batch(free: Seq<usize>, max: nat)
    ensures
        batch(free, max).len() == super::free_list::least(max, free.len()),
        forall|i: int|
            0 <= i < batch(free, max).len() ==> free.skip(
                free.len() - batch(free, max).len(),
            ).contains(#[trigger] batch(free, max)[i]),
        free.no_duplicates() ==> batch(free, max).no_duplicates(),
    decreases max,
{
    let limit = super::free_list::least(BATCH as nat, max);
    let n = super::free_list::least(limit, free.len());
    let step = free.skip(free.len() - n);
    let all = batch(free, max);
    if max > 0 && n == limit {
        let below = free.take(free.len() - n);
        let more = batch(below, (max - n) as nat);
        lemma_batch(below, (max - n) as nat);
        let top = free.skip(free.len() - all.len());
        assert forall|i: int| 0 <= i < all.len() implies top.contains(#[trigger] all[i]) by {
            if i < n {
                assert(top[all.len() - n + i] == all[i]);
            } else {
                let rest = below.skip(below.len() - more.len());
                assert(rest.contains(more[i - n]));
                let k = choose|k: int| 0 <= k < rest.len() && rest[k] == more[i - n];
                assert(top[k] == all[i]);
            }
        }
        if free.no_duplicates() {
            assert(below.no_duplicates());
            assert forall|i: int, j: int|
                0 <= i < all.len() && 0 <= j < all.len() && i != j implies all[i] != all[j] by {
                if i < n && j < n {
                    assert(all[i] == free[free.len() - n + i]);
                    assert(all[j] == free[free.len() - n + j]);
                } else if i >= n && j >= n {
                    assert(more[i - n] != more[j - n]);
                } else {
                    let (a, b) = if i < n {
                        (i, j)
                    } else {
                        (j, i)
                    };
                    let rest = below.skip(below.len() - more.len());
                    assert(rest.contains(more[b - n]));
                    let k = choose|k: int| 0 <= k < rest.len() && rest[k] == more[b - n];
                    assert(all[a] == free[free.len() - n + a]);
                    assert(all[b] == free[below.len() - more.len() + k]);
                }
            }
        }
    } else if max > 0 {
        assert(all =~= step);
        assert forall|i: int| 0 <= i < all.len() implies free.skip(
            free.len() - all.len(),
        ).contains(#[trigger] all[i]) by {
            assert(free.skip(free.len() - all.len())[i] == all[i]);
        }
    }
}

/// Whether `buf` is a fresh handle of frame `idx` of pool `s`, with a packet of
/// `len` bytes: after headroom of a quarter of the frame and at most 128 bytes, and
/// less where the packet needs the room.
pub open spec fn fresh(buf: PacketBuf, s: PoolState, idx: usize, len: nat) -> bool {
    &&& buf.inv()
    &&& buf.live()
    &&& buf.index() == idx
    &&& Some(buf.frame()) == s.slots[idx as int]
    &&& buf.size() == len
    &&& buf.offset() == headroom(s.frame_size, len)
}

/// The headroom of a fresh packet of `len` bytes.
pub open spec fn headroom(frame_size: nat, len: nat) -> nat {
    super::free_list::least(
        super::free_list::least(frame_size / 4, 128),
        (frame_size - len) as nat,
    )
}

/// Whether `after` is `before` and fresh empty handles of the frames `indices`.
pub open spec fn appended(
    before: Seq<PacketBuf>,
    after: Seq<PacketBuf>,
    s: PoolState,
    indices: Seq<usize>,
) -> bool {
    &&& after.len() == before.len() + indices.len()
    &&& after.take(before.len() as int) == before
    &&& forall|i: int|
        0 <= i < indices.len() ==> fresh(
            #[trigger] after[before.len() + i],
            s,
            indices[i],
            0,
        )
}

/// Handing frames out changes their slots only.
pub proof fn lemma_handed_all(s: PoolState, indices: Seq<usize>)
    requires
        forall|i: int| 0 <= i < indices.len() ==> #[trigger] indices[i] < s.slots.len(),
    ensures
        s.handed_all(indices).free == s.free,
        s.handed_all(indices).frame_size == s.frame_size,
        s.handed_all(indices).slots.len() == s.slots.len(),
        forall|i: int|
            0 <= i < s.slots.len() && !(i <= usize::MAX && indices.contains(i as usize))
                ==> #[trigger] s.handed_all(indices).slots[i] == s.slots[i],
    decreases indices.len(),
{
    if indices.len() > 0 {
        let front = indices.drop_last();
        lemma_handed_all(s, front);
        assert forall|i: int|
            0 <= i < s.slots.len() && !(i <= usize::MAX && indices.contains(i as usize)) implies
            #[trigger] s.handed_all(indices).slots[i] == s.slots[i] by {
            if i <= usize::MAX && front.contains(i as usize) {
                let k = choose|k: int| 0 <= k < front.len() && front[k] == i as usize;
                assert(indices[k] == i as usize);
            }
            if i == indices.last() {
                assert(indices[indices.len() - 1] == i as usize);
            }
        }
    }
}

/// What becomes of the slots does not depend on what is free.
proof fn lemma_handed_slots(a: PoolState, b: PoolState, indices: Seq<usize>)
    requires
        a.slots == b.slots,
    ensures
        a.handed_all(indices).slots == b.handed_all(indices).slots,
    decreases indices.len(),
{
    if indices.len() > 0 {
        lemma_handed_slots(a, b, indices.drop_last());
    }
}

/// Handing out two groups is handing out both.
proof fn lemma_handed_concat(s: PoolState, a: Seq<usize>, b: Seq<usize>)
    ensures
        s.handed_all(a).handed_all(b) == s.handed_all(a + b),
    decreases b.len(),
{
    if b.len() == 0 {
        assert(a + b =~= a);
    } else {
        lemma_handed_concat(s, a, b.drop_last());
        assert((a + b).drop_last() =~= a + b.drop_last());
    }
}

/// The topmost free frames exist.
proof fn lemma_topmost(s: PoolState, taken: Seq<usize>)
    requires
        s.wf(),
        taken.len() <= s.free.len(),
        forall|i: int|
            0 <= i < taken.len() ==> s.free.skip(s.free.len() - taken.len()).contains(
                #[trigger] taken[i],
            ),
    ensures
        forall|i: int| 0 <= i < taken.len() ==> #[trigger] taken[i] < s.slots.len(),
{
    let top = s.free.skip(s.free.len() - taken.len());
    assert forall|i: int| 0 <= i < taken.len() implies #[trigger] taken[i] < s.slots.len() by {
        assert(top.contains(taken[i]));
        let k = choose|k: int| 0 <= k < top.len() && top[k] == taken[i];
        assert(taken[i] == s.free[s.free.len() - taken.len() + k]);
    }
}

/// One step of a batch: its handles are fresh for the pool that the batch began with.
proof fn lemma_batch_step(
    s: PoolState,
    taken: Seq<usize>,
    step: Seq<usize>,
    out0: Seq<PacketBuf>,
    mid: Seq<PacketBuf>,
    end: Seq<PacketBuf>,
    ready: PoolState,
)
    requires
        s.wf(),
        taken.len() + step.len() <= s.free.len(),
        step == s.free.subrange(
            s.free.len() - taken.len() - step.len(),
            s.free.len() - taken.len(),
        ),
        taken.no_duplicates(),
        forall|i: int|
            0 <= i < taken.len() ==> s.free.skip(s.free.len() - taken.len()).contains(
                #[trigger] taken[i],
            ),
        ready.slots == s.without(taken.len()).handed_all(taken).slots,
        ready.frame_size == s.frame_size,
        appended(out0, mid, s, taken),
        appended(mid, end, ready, step),
    ensures
        appended(out0, end, s, taken + step),
        (taken + step).no_duplicates(),
        forall|i: int|
            0 <= i < taken.len() + step.len() ==> s.free.skip(
                s.free.len() - taken.len() - step.len(),
            ).contains(#[trigger] (taken + step)[i]),
{
    let all = taken + step;
    let top = s.free.skip(s.free.len() - taken.len());
    let wide = s.free.skip(s.free.len() - all.len());
    let from = s.free.len() - taken.len() - step.len();
    lemma_topmost(s, taken);
    lemma_handed_all(s.without(taken.len()), taken);
    assert forall|i: int, j: int| 0 <= i < taken.len() && 0 <= j < step.len() implies taken[i]
        != step[j] by {
        assert(top.contains(taken[i]));
        let k = choose|k: int| 0 <= k < top.len() && top[k] == taken[i];
        assert(taken[i] == s.free[s.free.len() - taken.len() + k]);
        assert(step[j] == s.free[from + j]);
    }
    assert forall|i: int| 0 <= i < all.len() implies wide.contains(#[trigger] all[i]) by {
        if i < taken.len() {
            assert(top.contains(taken[i]));
            let k = choose|k: int| 0 <= k < top.len() && top[k] == taken[i];
            assert(wide[step.len() + k] == all[i]);
        } else {
            assert(wide[i - taken.len()] == all[i]);
        }
    }
    assert(all.no_duplicates()) by {
        assert forall|i: int, j: int|
            0 <= i < all.len() && 0 <= j < all.len() && i != j implies all[i] != all[j] by {
            if i >= taken.len() && j >= taken.len() {
                assert(all[i] == s.free[from + i - taken.len()]);
                assert(all[j] == s.free[from + j - taken.len()]);
            } else if i < taken.len() && j < taken.len() {
                assert(taken[i] != taken[j]);
            } else if i < taken.len() {
                assert(taken[i] != step[j - taken.len()]);
            } else {
                assert(taken[j] != step[i - taken.len()]);
            }
        }
    }
    assert(end.take(out0.len() as int) =~= mid.take(out0.len() as int)) by {
        assert(end.take(mid.len() as int) == mid);
        assert forall|i: int| 0 <= i < out0.len() implies end[i] == mid[i] by {
            assert(end.take(mid.len() as int)[i] == mid[i]);
        }
    }
    assert forall|i: int| 0 <= i < all.len() implies fresh(
        #[trigger] end[out0.len() + i],
        s,
        all[i],
        0,
    ) by {
        if i < taken.len() {
            assert(end.take(mid.len() as int)[out0.len() + i] == mid[out0.len() + i]);
        } else {
            let j = i - taken.len();
            assert(fresh(end[mid.len() + j], ready, step[j], 0));
            assert(!taken.contains(step[j]));
            assert(s.free[from + j] == step[j]);
        }
    }
}

/// A fixed arena of frames of one size.
pub struct FramePool {
    list: FreeList,
    frames: Vec<Option<Box<Frame>>>,
    frame_size: usize,
    total: usize,
    bin: Bin,
}

impl FramePool {
    /// Whether this is the pool `before`, whatever has become of its frames: buffers
    /// return to it that would have returned to that.
    pub closed spec fn same_pool(self, before: FramePool) -> bool {
        self.bin == before.bin
    }

    /// Whether `back` is what the pool finds when it looks for frames that handles have
    /// returned. What that is at any time depends on all handles.
    pub closed spec fn finds(self, back: Seq<Back>) -> bool {
        exists|list: Option<Box<Frame>>|
            #[trigger] call_ensures(exchange::<Option<Box<Frame>>>, (&*self.bin, None), list)
                && back == backs(list)
    }

    /// Wherever this is the same pool, it finds the same.
    pub proof fn lemma_same_finds(self, before: FramePool)
        requires
            self.same_pool(before),
        ensures
            forall|back: Seq<Back>| #[trigger] self.finds(back) == before.finds(back),
    {
    }

    /// What the pool holds, apart from what was returned and not yet looked for.
    pub closed spec fn view(self) -> PoolState {
        PoolState {
            free: self.list@,
            slots: Seq::new(
                self.frames@.len(),
                |i: int|
                    match self.frames@[i] {
                        Some(frame) => Some(frame.bytes@),
                        None => None,
                    },
            ),
            frame_size: self.frame_size as nat,
        }
    }

    /// The model is well-formed and every frame knows its number.
    pub closed spec fn inv(self) -> bool {
        &&& self.list.inv()
        &&& self.list.frames() == self.frames@.len()
        &&& self@.wf()
        &&& self.frame_size > 0
        &&& self.frames@.len() <= usize::MAX
        &&& self.total == self.frames@.len() * self.frame_size
        &&& forall|i: int|
            0 <= i < self.frames@.len() ==> (#[trigger] self.frames@[i] matches Some(frame)
                ==> frame.idx == i && frame.next is None)
    }

    /// What the invariant says of the model.
    pub broadcast proof fn lemma_inv(self)
        requires
            #[trigger] self.inv(),
        ensures
            self@.wf(),
            0 < self@.frame_size <= usize::MAX,
            self@.slots.len() <= usize::MAX,
            self@.slots.len() * self@.frame_size <= usize::MAX,
    {
    }

    /// An arena of `num_frames` zeroed frames of `frame_size` bytes, all free. The
    /// alignment only bounds the size of the arena.
    pub fn new(num_frames: usize, frame_size: usize, alignment: usize) -> (pool: FramePool)
        requires
            valid_arena(num_frames as nat, frame_size as nat, alignment as nat),
        ensures
            pool.inv(),
            pool@ == full_pool(num_frames as nat, frame_size as nat),
    {
        let mut frames: Vec<Option<Box<Frame>>> = Vec::with_capacity(num_frames);
        let mut idx: usize = 0;
        while idx < num_frames
            invariant
                idx <= num_frames,
                frames@.len() == idx,
                forall|i: int|
                    0 <= i < idx ==> (#[trigger] frames@[i] matches Some(frame) && frame.idx == i
                        && frame.next is None && frame.bytes@ == crate::bytes::zeros(
                        frame_size as nat,
                    )),
            decreases num_frames - idx,
        {
            let mut bytes: Vec<u8> = Vec::new();
            bytes.resize(frame_size, 0);
            assert(bytes@ =~= crate::bytes::zeros(frame_size as nat));
            frames.push(Some(Box::new(Frame { idx, kept: false, bytes, next: None })));
            idx += 1;
        }
        assert(alignment > 0) by {
            reveal(vstd::arithmetic::power2::is_pow2);
        }
        let total: usize = num_frames * frame_size;
        let pool = FramePool {
            list: FreeList::new(num_frames),
            frames,
            frame_size,
            total,
            bin: Rc::new(new_cell(None)),
        };
        proof {
            pool.list.lemma_free();
            let full = full_pool(num_frames as nat, frame_size as nat);
            assert(pool@.slots =~= full.slots);
            assert(pool@.free =~= full.free);
        }
        pool
    }

    /// Takes back one returned frame. A frame that the pool does not miss, or of the
    /// wrong size, is dropped.
    fn absorb_one(&mut self, mut frame: Box<Frame>)
        requires
            old(self).inv(),
        ensures
            final(self).inv(),
            final(self).same_pool(*old(self)),
            final(self)@ == old(self)@.with_back(
                (Back { idx: frame.idx, kept: frame.kept, bytes: frame.bytes@ }),
            ),
    {
        let idx: usize = frame.idx;
        let kept: bool = frame.kept;
        let ghost before = self@;
        let ghost back = Back { idx: frame.idx, kept: frame.kept, bytes: frame.bytes@ };
        proof {
            let one = seq![back];
            assert(one.drop_last() =~= Seq::<Back>::empty());
            lemma_settled(before, one);
            assert(before.settled(one.drop_last()) == before);
            assert(before.settled(one) == before.with_back(back));
        }
        if self.list.is_used(idx) && self.frames[idx].is_none() && frame.bytes.len()
            == self.frame_size {
            frame.kept = false;
            frame.next = None;
            self.frames[idx] = Some(frame);
            if !kept {
                self.list.free(idx);
            }
            assert(self@ =~= before.with_back(back));
        }
    }

    /// Takes back the frames of a list, the one that was returned first first.
    fn absorb(&mut self, list: Option<Box<Frame>>)
        requires
            old(self).inv(),
        ensures
            final(self).inv(),
            final(self).same_pool(*old(self)),
            final(self)@ == old(self)@.settled(backs(list)),
    {
        let mut rest: Option<Box<Frame>> = list;
        let mut stack: Vec<Box<Frame>> = Vec::new();
        assert(backs(rest) + backs_of(stack@) =~= backs(list));
        loop
            invariant_except_break
                backs(rest) + backs_of(stack@) == backs(list),
            ensures
                backs_of(stack@) == backs(list),
            decreases rest,
        {
            match rest {
                None => {
                    assert(backs(None) + backs_of(stack@) =~= backs_of(stack@));
                    break;
                },
                Some(mut frame) => {
                    let mut next: Option<Box<Frame>> = None;
                    let ghost all = backs(Some(frame));
                    let ghost above = stack@;
                    std::mem::swap(&mut next, &mut frame.next);
                    stack.push(frame);
                    assert(all + backs_of(above) =~= backs(next) + backs_of(stack@));
                    rest = next;
                },
            }
        }
        let ghost all = backs(list);
        let ghost before = self@;
        assert(all.take(0) =~= Seq::<Back>::empty());
        while stack.len() > 0
            invariant
                self.inv(),
                self.same_pool(*old(self)),
                stack@.len() <= all.len(),
                backs_of(stack@) == all.skip(all.len() - stack@.len()),
                self@ == before.settled(all.take(all.len() - stack@.len())),
            decreases stack@.len(),
        {
            let ghost above = stack@;
            let ghost done = (all.len() - stack@.len()) as int;
            match stack.pop() {
                None => {},
                Some(frame) => {
                    let ghost back = Back {
                        idx: frame.idx,
                        kept: frame.kept,
                        bytes: frame.bytes@,
                    };
                    assert(backs_of(above)[0] == back);
                    assert(all[done] == back);
                    self.absorb_one(frame);
                    assert(all.take(done + 1).drop_last() =~= all.take(done));
                    assert(backs_of(stack@) =~= all.skip(done + 1)) by {
                        assert forall|i: int| 0 <= i < stack@.len() implies backs_of(stack@)[i]
                            == all.skip(done + 1)[i] by {
                            assert(backs_of(above)[i + 1] == all.skip(done)[i + 1]);
                        }
                    }
                },
            }
        }
        assert(all.take(all.len() as int) =~= all);
    }

    /// Takes back what handles have returned.
    pub fn reclaim(&mut self)
        requires
            old(self).inv(),
        ensures
            final(self).inv(),
            final(self).same_pool(*old(self)),
            exists|back: Seq<Back>| old(self).finds(back) && final(self)@ == #[trigger] old(
                self,
            )@.settled(back),
            old(self)@.free.len() <= final(self)@.free.len(),
            final(self)@.frame_size == old(self)@.frame_size,
            final(self)@.slots.len() == old(self)@.slots.len(),
    {
        let list = exchange(&self.bin, None);
        proof {
            lemma_settled(self@, backs(list));
        }
        self.absorb(list);
    }

    /// Hands out the frame that was freed last, if one is free.
    #[inline]
    pub fn allocate(&mut self) -> (frame: Option<usize>)
        requires
            old(self).inv(),
        ensures
            final(self).inv(),
            final(self).same_pool(*old(self)),
            exists|back: Seq<Back>|
                {
                    let s = #[trigger] old(self)@.settled(back);
                    &&& old(self).finds(back)
                    &&& if s.free.len() == 0 {
                        frame is None && final(self)@ == s
                    } else {
                        frame == Some(s.free.last()) && final(self)@ == s.without(1)
                    }
                },
            old(self)@.free.len() > 0 ==> frame is Some,
            frame matches Some(idx) ==> final(self)@.held(idx),
    {
        let ghost start = self@;
        self.reclaim();
        let ghost s = self@;
        proof {
            let back = choose|back: Seq<Back>|
                old(self).finds(back) && s == #[trigger] start.settled(back);
            lemma_settled(start, back);
        }
        let frame = self.list.allocate();
        proof {
            self.lemma_view_of_list(s);
            if frame is Some {
                assert(self@ =~= s.without(1));
                assert(s.free[s.free.len() - 1] == frame->0);
            }
            assert(self@.wf());
        }
        frame
    }

    /// The model follows the free list.
    proof fn lemma_view_of_list(self, before: PoolState)
        requires
            self.list.inv(),
            self.list.frames() == self.frames@.len(),
            before.slots == self@.slots,
            before.frame_size == self.frame_size,
            before.wf(),
            forall|i: int|
                0 <= i < self.list@.len() ==> self@.slots[#[trigger] self.list@[i] as int] is Some,
        ensures
            self@.wf(),
            self@ == (PoolState { free: self.list@, ..before }),
            forall|idx: usize| self@.used(idx) <==> self.list.used(idx),
    {
        self.list.lemma_free();
    }

    /// Takes back frame `idx`, to be handed out next.
    #[inline]
    pub fn free(&mut self, idx: usize)
        requires
            old(self).inv(),
            old(self)@.held(idx),
        ensures
            final(self).inv(),
            final(self).same_pool(*old(self)),
            exists|back: Seq<Back>|
                old(self).finds(back) && final(self)@ == (#[trigger] old(self)@.settled(
                    back,
                )).with_free(seq![idx]),
    {
        let ghost start = self@;
        self.reclaim();
        let ghost s = self@;
        proof {
            let back = choose|back: Seq<Back>|
                old(self).finds(back) && s == #[trigger] start.settled(back);
            lemma_settled(start, back);
            assert(s.held(idx));
        }
        self.list.free(idx);
        proof {
            assert(self.list@ =~= s.free + seq![idx]);
            self.lemma_view_of_list(s);
            assert(self@ =~= s.with_free(seq![idx]));
        }
    }

    /// Hands out as many frames as `out` can hold and the pool has, in the order of
    /// the stack.
    pub fn alloc_n(&mut self, out: &mut [usize]) -> (n: usize)
        requires
            old(self).inv(),
        ensures
            final(self).inv(),
            final(self).same_pool(*old(self)),
            final(out)@.len() == old(out)@.len(),
            final(out)@.skip(n as int) == old(out)@.skip(n as int),
            exists|back: Seq<Back>|
                {
                    let s = #[trigger] old(self)@.settled(back);
                    &&& old(self).finds(back)
                    &&& n == super::free_list::least(old(out)@.len(), s.free.len())
                    &&& final(out)@.take(n as int) == s.free.skip(s.free.len() - n)
                    &&& final(self)@ == s.without(n as nat)
                },
            super::free_list::least(old(out)@.len(), old(self)@.free.len()) <= n,
            final(out)@.take(n as int).no_duplicates(),
            forall|i: int| 0 <= i < n ==> final(self)@.held(#[trigger] final(out)@[i]),
    {
        let ghost start = self@;
        self.reclaim();
        let ghost s = self@;
        proof {
            let back = choose|back: Seq<Back>|
                old(self).finds(back) && s == #[trigger] start.settled(back);
            lemma_settled(start, back);
        }
        let n: usize = self.list.alloc_n(out);
        proof {
            assert(self.list@ =~= s.free.take(s.free.len() - n));
            self.lemma_view_of_list(s);
            assert(self@ =~= s.without(n as nat));
            assert forall|i: int| 0 <= i < n implies self@.held(#[trigger] out@[i]) by {
                assert(out@.take(n as int)[i] == s.free[s.free.len() - n + i]);
                if self.list@.contains(out@[i]) {
                    let k = choose|k: int| 0 <= k < self.list@.len() && self.list@[k] == out@[i];
                    assert(s.free[k] == s.free[s.free.len() - n + i]);
                }
            }
            assert(out@.take(n as int).no_duplicates());
        }
        n
    }

    /// Takes back several frames, none of them twice.
    pub fn free_n(&mut self, indices: &[usize])
        requires
            old(self).inv(),
            indices@.no_duplicates(),
            forall|i: int| 0 <= i < indices@.len() ==> old(self)@.held(#[trigger] indices@[i]),
        ensures
            final(self).inv(),
            final(self).same_pool(*old(self)),
            exists|back: Seq<Back>|
                old(self).finds(back) && final(self)@ == (#[trigger] old(self)@.settled(
                    back,
                )).with_free(indices@),
    {
        let ghost start = self@;
        self.reclaim();
        let ghost s = self@;
        proof {
            let back = choose|back: Seq<Back>|
                old(self).finds(back) && s == #[trigger] start.settled(back);
            lemma_settled(start, back);
            assert forall|i: int| 0 <= i < indices@.len() implies s.held(#[trigger] indices@[i]) by {
                assert(start.held(indices@[i]));
            }
        }
        assert forall|i: int| 0 <= i < indices@.len() implies self.list.used(
            #[trigger] indices@[i],
        ) by {
            assert(s.held(indices@[i]));
        }
        self.list.free_n(indices);
        proof {
            assert forall|i: int| 0 <= i < self.list@.len() implies self@.slots[#[trigger] self.list@[i] as int] is Some by {
                if i < s.free.len() {
                    assert(s.free[i] == self.list@[i]);
                } else {
                    assert(s.held(indices@[i - s.free.len()]));
                }
            }
            self.lemma_view_of_list(s);
            assert(self@ =~= s.with_free(indices@));
        }
    }

    /// A handle of frame `idx`, with a packet of `len` bytes, those that the frame
    /// holds there.
    pub fn packet_buf(&mut self, idx: usize, len: usize) -> (buf: PacketBuf)
        requires
            old(self).inv(),
            old(self)@.held(idx),
            len <= old(self)@.frame_size,
        ensures
            final(self).inv(),
            final(self).same_pool(*old(self)),
            fresh(buf, old(self)@, idx, len as nat),
            buf.returns_to(*final(self)),
            final(self)@ == old(self)@.handed(idx),
    {
        let ghost s = self@;
        let mut slot: Option<Box<Frame>> = None;
        std::mem::swap(&mut slot, &mut self.frames[idx]);
        let quarter: usize = self.frame_size / 4;
        let wanted: usize = if quarter < 128 {
            quarter
        } else {
            128
        };
        let data_offset: usize = if wanted < self.frame_size - len {
            wanted
        } else {
            self.frame_size - len
        };
        proof {
            assert(self@ =~= s.handed(idx));
            assert(s.slots[idx as int] is Some);
            assert forall|i: int| 0 <= i < self@.free.len() implies #[trigger] self@.free[i]
                < self@.slots.len() && self@.slots[self@.free[i] as int] is Some by {
                assert(s.free[i] == self@.free[i]);
                assert(self@.free[i] != idx);
            }
        }
        match slot {
            Some(mut frame) => {
                let mut bytes: Vec<u8> = Vec::new();
                std::mem::swap(&mut bytes, &mut frame.bytes);
                let bin = self.bin.clone();
                PacketBuf { bytes, data_offset, len, home: Some(Home { frame, bin }) }
            },
            None => {
                assert(false);
                PacketBuf::default()
            },
        }
    }

    /// A handle of the frame that was freed last, with a packet of `len` bytes, if a
    /// frame is free. Frames that were returned and not yet looked for do not count.
    pub fn take(&mut self, len: usize) -> (buf: Option<PacketBuf>)
        requires
            old(self).inv(),
            len <= old(self)@.frame_size,
        ensures
            final(self).inv(),
            final(self).same_pool(*old(self)),
            old(self)@.free.len() == 0 ==> buf is None && final(self)@ == old(self)@,
            old(self)@.free.len() > 0 ==> {
                let idx = old(self)@.free.last();
                &&& buf is Some
                &&& fresh(buf->0, old(self)@, idx, len as nat)
                &&& buf->0.returns_to(*final(self))
                &&& final(self)@ == old(self)@.without(1).handed(idx)
            },
    {
        let ghost s = self@;
        match self.list.allocate() {
            None => None,
            Some(idx) => {
                assert(s.free[s.free.len() - 1] == idx);
                proof {
                    self.lemma_view_of_list(s);
                    assert(self@ =~= s.without(1));
                }
                Some(self.packet_buf(idx, len))
            },
        }
    }

    /// Appends handles of the given frames, with empty packets.
    fn hand_out(&mut self, indices: &[usize], out: &mut Vec<PacketBuf>)
        requires
            old(self).inv(),
            indices@.no_duplicates(),
            forall|i: int| 0 <= i < indices@.len() ==> old(self)@.held(#[trigger] indices@[i]),
        ensures
            final(self).inv(),
            final(self).same_pool(*old(self)),
            final(self)@ == old(self)@.handed_all(indices@),
            appended(old(out)@, final(out)@, old(self)@, indices@),
    {
        let ghost s = self@;
        let ghost start = out@;
        let mut i: usize = 0;
        assert(indices@.take(0) =~= Seq::<usize>::empty());
        assert(start.take(start.len() as int) =~= start);
        while i < indices.len()
            invariant
                i <= indices@.len(),
                self.inv(),
                self.same_pool(*old(self)),
                s.wf(),
                indices@.no_duplicates(),
                forall|j: int| 0 <= j < indices@.len() ==> s.held(#[trigger] indices@[j]),
                self@ == s.handed_all(indices@.take(i as int)),
                appended(start, out@, s, indices@.take(i as int)),
            decreases indices@.len() - i,
        {
            let ghost done = indices@.take(i as int);
            let ghost next = indices@.take(i + 1);
            let idx: usize = indices[i];
            proof {
                assert forall|j: int| 0 <= j < done.len() implies #[trigger] done[j]
                    < s.slots.len() by {
                    assert(s.held(indices@[j]));
                }
                lemma_handed_all(s, done);
                assert(s.held(indices@[i as int]));
                assert(!done.contains(idx));
                assert(next.drop_last() =~= done);
            }
            let buf = self.packet_buf(idx, 0);
            let ghost so_far = out@;
            out.push(buf);
            assert(out@.take(start.len() as int) =~= so_far.take(start.len() as int));
            i += 1;
        }
        assert(indices@.take(indices@.len() as int) =~= indices@);
    }

    /// Appends up to `max` handles with empty packets; says how many.
    pub fn alloc_batch(&mut self, max: usize, out: &mut Vec<PacketBuf>) -> (n: usize)
        requires
            old(self).inv(),
        ensures
            final(self).inv(),
            final(self).same_pool(*old(self)),
            exists|back: Seq<Back>|
                {
                    let s = #[trigger] old(self)@.settled(back);
                    let indices = batch(s.free, max as nat);
                    &&& old(self).finds(back)
                    &&& n == indices.len()
                    &&& appended(old(out)@, final(out)@, s, indices)
                    &&& final(self)@ == s.without(n as nat).handed_all(indices)
                },
            n >= super::free_list::least(max as nat, old(self)@.free.len()),
    {
        let ghost start = self@;
        let ghost out0 = out@;
        self.reclaim();
        let ghost s = self@;
        proof {
            let back = choose|back: Seq<Back>|
                old(self).finds(back) && s == #[trigger] start.settled(back);
            lemma_settled(start, back);
            lemma_batch(s.free, max as nat);
        }
        let ghost mut done: Seq<usize> = Seq::empty();
        let mut total: usize = 0;
        let mut low: bool = false;
        proof {
            assert(out0.take(out0.len() as int) =~= out0);
            assert(s.without(0).handed_all(done) =~= s);
            assert(done + batch(s.free, max as nat) =~= batch(s.free, max as nat));
        }
        while total < max && !low
            invariant
                self.inv(),
                self.same_pool(*old(self)),
                s.wf(),
                total <= max,
                total == done.len(),
                done.len() <= s.free.len(),
                done.no_duplicates(),
                forall|i: int|
                    0 <= i < done.len() ==> s.free.skip(s.free.len() - done.len()).contains(
                        #[trigger] done[i],
                    ),
                self@ == s.without(done.len()).handed_all(done),
                appended(out0, out@, s, done),
                !low ==> done + batch(s.free.take(s.free.len() - total), (max - total) as nat)
                    == batch(s.free, max as nat),
                low ==> done == batch(s.free, max as nat),
            decreases
                max - total,
                if low {
                    0int
                } else {
                    1
                },
        {
            let ghost now = self@;
            let ghost taken = done;
            let limit: usize = if max - total < BATCH {
                max - total
            } else {
                BATCH
            };
            let mut indices: Vec<usize> = Vec::new();
            indices.resize(limit, 0);
            proof {
                lemma_topmost(s, done);
                lemma_handed_all(s.without(done.len()), done);
            }
            let n: usize = self.list.alloc_n(indices.as_mut_slice());
            indices.truncate(n);
            let ghost step = indices@;
            let ghost ready = self@;
            proof {
                assert(now.free == s.free.take(s.free.len() - total));
                assert(step =~= now.free.skip(now.free.len() - n));
                assert(self.list@ =~= now.free.take(now.free.len() - n));
                self.lemma_view_of_list(now);
                assert forall|i: int| 0 <= i < step.len() implies ready.held(#[trigger] step[i])
                    by {
                    assert(step[i] == now.free[now.free.len() - n + i]);
                    if ready.free.contains(step[i]) {
                        let k = choose|k: int|
                            0 <= k < ready.free.len() && ready.free[k] == step[i];
                        assert(now.free[k] == step[i]);
                    }
                }
                assert(step.no_duplicates());
            }
            let ghost so_far = out@;
            self.hand_out(indices.as_slice(), out);
            proof {
                done = done + step;
                let base = s.without(done.len());
                assert(step =~= s.free.subrange(
                    s.free.len() - taken.len() - step.len(),
                    s.free.len() - taken.len(),
                ));
                lemma_batch_step(s, taken, step, out0, so_far, out@, ready);
                assert(base.handed_all(taken) =~= ready) by {
                    lemma_handed_all(base, taken);
                    lemma_handed_all(s.without(taken.len()), taken);
                    lemma_handed_slots(base, s.without(taken.len()), taken);
                    assert(ready.free =~= base.free);
                }
                lemma_handed_concat(base, taken, step);
                let left = s.free.take(s.free.len() - total);
                assert(left.skip(left.len() - n) =~= step);
                assert(left.take(left.len() - n) =~= s.free.take(s.free.len() - total - n));
                if n < limit {
                    assert(taken + step =~= batch(s.free, max as nat));
                } else {
                    assert(taken + (step + batch(
                        s.free.take(s.free.len() - total - n),
                        (max - total - n) as nat,
                    )) =~= (taken + step) + batch(
                        s.free.take(s.free.len() - total - n),
                        (max - total - n) as nat,
                    ));
                }
            }
            total += n;
            if n < limit {
                low = true;
            }
        }
        proof {
            if !low {
                assert(done + Seq::<usize>::empty() =~= done);
            }
        }
        total
    }

    /// How many frames are free, those among them that handles have returned.
    pub fn available(&mut self) -> (n: usize)
        requires
            old(self).inv(),
        ensures
            final(self).inv(),
            final(self).same_pool(*old(self)),
            exists|back: Seq<Back>| old(self).finds(back) && final(self)@ == #[trigger] old(
                self,
            )@.settled(back),
            n == final(self)@.free.len(),
    {
        self.reclaim();
        self.list.available()
    }

    /// How many frames are free, without those that were returned and not yet looked
    /// for.
    pub fn free_now(&self) -> (n: usize)
        ensures
            n == self@.free.len(),
    {
        self.list.available()
    }

    /// How many frames there are.
    pub fn num_frames(&self) -> (n: usize)
        requires
            self.inv(),
        ensures
            n == self@.slots.len(),
    {
        self.frames.len()
    }

    /// How large a frame is.
    pub fn frame_size(&self) -> (n: usize)
        ensures
            n == self@.frame_size,
    {
        self.frame_size
    }

    /// How large the arena is.
    pub fn total_bytes(&self) -> (n: usize)
        requires
            self.inv(),
        ensures
            n == self@.slots.len() * self@.frame_size,
    {
        self.total
    }
}

/// A buffer keeps its pool: whatever the pool does, and whatever packet the buffer gets,
/// it returns its frame to where it came from.
pub proof fn law_buffers_keep_their_pool(
    before: FramePool,
    pool: FramePool,
    first: PacketBuf,
    buf: PacketBuf,
)
    requires
        pool.same_pool(before),
        buf.same_frame(first),
    ensures
        buf.returns_to(pool) == first.returns_to(before),
{
}

/// A fresh packet starts a quarter of the frame in, but no more than 128 bytes, and no
/// further than leaves room for it.
pub proof fn law_fresh_packets_have_headroom(frame_size: nat, len: nat)
    requires
        len <= frame_size,
    ensures
        headroom(frame_size, len) <= 128,
        4 * headroom(frame_size, len) <= frame_size,
        headroom(frame_size, len) + len <= frame_size,
        headroom(frame_size, len) == 128 || 4 * headroom(frame_size, len) + 4 > frame_size
            || headroom(frame_size, len) + len == frame_size,
{
}

/// A frame whose handle was given up, but not the frame, comes back with its bytes and
/// stays allocated: it is not given to anyone else.
pub proof fn law_kept_frames_stay_allocated(s: PoolState, idx: usize, bytes: Seq<u8>)
    requires
        s.used(idx),
        s.slots[idx as int] is None,
        bytes.len() == s.frame_size,
    ensures
        ({
            let after = s.with_back(Back { idx, kept: true, bytes });
            &&& after.free == s.free
            &&& after.held(idx)
            &&& after.slots[idx as int] == Some(bytes)
        }),
{
}

/// Frames that come back leave each other alone: each brings back its own bytes only.
pub proof fn law_returns_touch_one_frame(s: PoolState, back: Back, i: int)
    requires
        0 <= i < s.slots.len(),
        i != back.idx,
    ensures
        s.with_back(back).slots.len() == s.slots.len(),
        s.with_back(back).slots[i] == s.slots[i],
        s.with_back(back).frame_size == s.frame_size,
{
}

} // verus!
