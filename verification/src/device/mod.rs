//! Network devices and the frames they exchange.
pub mod backend;
pub mod buffer_pool;
pub mod free_list;
pub mod loopback;
pub mod tun_reactor;

use vstd::prelude::*;

use crate::error::IoError;
use crate::simulation::fabric::packets;

pub use crate::error::Error;
pub use backend::af_xdp::device::{XdpConfig, XdpCounters, XdpDevice, XdpMode};
pub use backend::af_xdp::prog::AttachMode;
pub use backend::af_xdp::socket::XskSocket;
pub use backend::af_xdp::sys::{
    XdpStatistics, XDP_COPY, XDP_SHARED_UMEM, XDP_UMEM_UNALIGNED_CHUNK_FLAG, XDP_USE_NEED_WAKEUP,
    XDP_ZEROCOPY,
};
pub use backend::af_xdp::umem::UMem;
pub use backend::uring::{UringConfig, UringStats, UringTunDevice};
pub use buffer_pool::PacketBuf;
pub use loopback::LoopbackDevice;
pub use tun_reactor::UtunReactor;

verus! {

/// Whether every buffer is well-formed.
pub open spec fn sound(frames: Seq<PacketBuf>) -> bool {
    forall|i: int| 0 <= i < frames.len() ==> (#[trigger] frames[i]).inv()
}

/// Whether `after` is what `before` is once its first `n` frames were consumed:
/// empty slots, and then the rest as it was.
pub open spec fn consumed(before: Seq<PacketBuf>, after: Seq<PacketBuf>, n: int) -> bool {
    &&& 0 <= n <= before.len()
    &&& after.len() == before.len()
    &&& forall|i: int| 0 <= i < n ==> (#[trigger] after[i]).vacant() && after[i].inv()
    &&& forall|i: int| n <= i < before.len() ==> #[trigger] after[i] == before[i]
}

/// Whether `after` is `before` and `n` more buffers, ready to be filled.
pub open spec fn supplied(before: Seq<PacketBuf>, after: Seq<PacketBuf>, n: int) -> bool {
    &&& after.len() == before.len() + n
    &&& after.take(before.len() as int) == before
    &&& forall|i: int|
        before.len() <= i < after.len() ==> (#[trigger] after[i]).inv() && after[i].live()
            && after[i].size() == 0
}

/// A network device.
pub trait Device {
    /// Whether the device is in a valid state; always, unless the device says otherwise.
    open spec fn inv(&self) -> bool {
        true
    }

    /// How large a frame is, headroom and all; unknown, unless the device says otherwise.
    open spec fn space(&self) -> nat {
        vstd::pervasive::arbitrary()
    }

    /// Whether the device may answer `r` when it is given `packets` to send, and be
    /// `after` then; always, unless the device says otherwise.
    open spec fn sends(
        &self,
        packets: Seq<Seq<u8>>,
        r: Result<usize, IoError>,
        after: &Self,
    ) -> bool {
        true
    }

    /// Whether the device may answer `r` when it is asked for up to `max` packets, give
    /// `packets` with it, and be `after` then; always, unless the device says otherwise.
    open spec fn receives(
        &self,
        max: nat,
        r: Result<usize, IoError>,
        packets: Seq<Seq<u8>>,
        after: &Self,
    ) -> bool {
        true
    }

    /// Whether the device may give `frame` when it is asked for an empty frame, and be
    /// `after` then; always, unless the device says otherwise.
    open spec fn gives(&self, frame: Option<PacketBuf>, after: &Self) -> bool {
        true
    }

    /// Whether the device has no empty frame left; unknown, unless the device says
    /// otherwise.
    open spec fn dry(&self) -> bool {
        true
    }

    /// Drops what `out` held, then receives up to `max` frames into it.
    fn recv(&mut self, max: usize, out: &mut Vec<PacketBuf>) -> (r: Result<usize, IoError>)
        requires
            old(self).inv(),
        ensures
            final(self).inv(),
            final(self).space() == old(self).space(),
            sound(final(out)@),
            final(out)@.len() <= max,
            r matches Ok(n) ==> n == final(out)@.len(),
            old(self).receives(max as nat, r, packets(final(out)@), final(self)),
    ;

    /// Submits a prefix of the frames, without waiting for room. `Ok(n)` leaves empty
    /// slots in place of the first `n` frames; the rest stays with the caller and can
    /// be tried again. An error consumes nothing. Acceptance is not delivery.
    fn send(&mut self, frames: &mut [PacketBuf]) -> (r: Result<usize, IoError>)
        requires
            old(self).inv(),
            sound(old(frames)@),
        ensures
            final(self).inv(),
            final(self).space() == old(self).space(),
            r matches Ok(n) ==> consumed(old(frames)@, final(frames)@, n as int),
            r is Err ==> final(frames)@ == old(frames)@,
            old(self).sends(packets(old(frames)@), r, final(self)),
    ;

    /// An empty frame to be filled and sent, if the device has one left.
    fn allocate(&mut self) -> (frame: Option<PacketBuf>)
        requires
            old(self).inv(),
        ensures
            final(self).inv(),
            final(self).space() == old(self).space(),
            frame matches Some(buf) ==> buf.inv() && buf.live() && buf.size() == 0,
            frame is None ==> final(self).dry(),
            old(self).gives(frame, final(self)),
    ;

    /// Appends up to `max` empty frames, as many as the device gives one after another;
    /// says how many.
    fn alloc_batch(&mut self, max: usize, out: &mut Vec<PacketBuf>) -> (n: usize) where
        Self: Sized,

        requires
            old(self).inv(),
        ensures
            final(self).inv(),
            final(self).space() == old(self).space(),
            n <= max,
            supplied(old(out)@, final(out)@, n as int),
            n < max ==> final(self).dry(),
            exists|steps: Seq<Self>|
                {
                    &&& steps.len() == n + 1
                    &&& #[trigger] steps[0] == *old(self)
                    &&& forall|i: int|
                        0 <= i < n ==> (#[trigger] steps[i]).gives(
                            Some(final(out)@[old(out)@.len() + i]),
                            &steps[i + 1],
                        )
                    &&& if n == max {
                        steps[n as int] == *final(self)
                    } else {
                        steps[n as int].gives(None, final(self))
                    }
                },
    {
        let ghost start = out@;
        let ghost space = self.space();
        let ghost mut steps: Seq<Self> = seq![*self];
        let mut n: usize = 0;
        let mut more: bool = true;
        assert(start.take(start.len() as int) =~= start);
        while n < max && more
            invariant
                self.inv(),
                self.space() == space,
                n <= max,
                supplied(start, out@, n as int),
                steps.len() == n + 1,
                steps[0] == *old(self),
                forall|i: int|
                    0 <= i < n ==> (#[trigger] steps[i]).gives(
                        Some(out@[start.len() + i]),
                        &steps[i + 1],
                    ),
                more ==> steps[n as int] == *self,
                !more ==> n < max && self.dry() && steps[n as int].gives(None, &*self),
            decreases
                max - n,
                if more {
                    1int
                } else {
                    0
                },
        {
            match self.allocate() {
                None => {
                    more = false;
                },
                Some(buf) => {
                    let ghost so_far = out@;
                    out.push(buf);
                    assert(out@.take(start.len() as int) =~= so_far.take(start.len() as int));
                    proof {
                        steps = steps.push(*self);
                    }
                    n += 1;
                },
            }
        }
        n
    }

    /// How large a frame is, headroom and all.
    fn frame_size(&self) -> (n: usize)
        requires
            self.inv(),
        ensures
            n == self.space(),
    ;
}


/// Consumes the first `n` frames, leaving safe empty slots.
pub fn recycle_frames(frames: &mut [PacketBuf], n: usize)
    requires
        n <= old(frames)@.len(),
    ensures
        consumed(old(frames)@, final(frames)@, n as int),
{
    let mut i: usize = 0;
    let ghost start = frames@;
    while i < n
        invariant
            i <= n <= start.len(),
            consumed(start, frames@, i as int),
        decreases n - i,
    {
        frames[i] = PacketBuf::default();
        i += 1;
    }
}

} // verus!
