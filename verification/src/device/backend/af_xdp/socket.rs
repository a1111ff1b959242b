//! An AF_XDP socket: its rings, how it is bound, and when the kernel has to be woken.
use vstd::prelude::*;

use super::sys::{
    SockAddrXdp, XDP_COPY, XDP_OPTIONS_ZEROCOPY, XDP_RING_NEED_WAKEUP, XDP_USE_NEED_WAKEUP,
    XDP_ZEROCOPY,
};
use super::umem::{moved, ring_size, validate_ring_size, Consumer, Producer, Ring};
use crate::device::free_list::least;
use crate::error::IoError;

verus! {

/// Every flag but those that a bind request may have.
pub const OTHER_FLAGS: u16 = 0xfff1;

/// The flags that ask for a way of moving packets.
pub const MODE_FLAGS: u16 = 6;

/// Every flag but those that ask for a way of moving packets.
pub const BUT_MODE_FLAGS: u16 = 0xfff9;

/// Whether a bind request makes sense: known flags only, and not both ways of moving
/// packets.
pub open spec fn bindable(flags: u16) -> bool {
    flags & OTHER_FLAGS == 0 && flags & MODE_FLAGS != MODE_FLAGS
}

/// A bind request makes sense exactly where it is made of the wish to be woken and at
/// most one way of moving packets.
pub proof fn law_bindable_flags(flags: u16)
    ensures
        bindable(flags) <==> flags == 0 || flags == XDP_COPY || flags == XDP_ZEROCOPY || flags
            == XDP_USE_NEED_WAKEUP || flags == XDP_USE_NEED_WAKEUP + XDP_COPY || flags
            == XDP_USE_NEED_WAKEUP + XDP_ZEROCOPY,
{
    assert((flags & 0xfff1 == 0 && flags & 6 != 6) <==> (flags == 0 || flags == 2 || flags == 4
        || flags == 8 || flags == 10 || flags == 12)) by (bit_vector);
}

/// The way of moving packets that the kernel reports.
pub open spec fn active_mode(options: u32) -> u16 {
    if options & XDP_OPTIONS_ZEROCOPY != 0 {
        XDP_ZEROCOPY
    } else {
        XDP_COPY
    }
}

/// A socket.
pub struct XskSocket {
    pub rx: Consumer,
    pub tx: Producer,
    pub bind_flags: u16,
}

impl XskSocket {
    pub open spec fn inv(self) -> bool {
        self.rx.inv() && self.tx.inv()
    }

    /// Whether the kernel says when it has to be woken.
    pub open spec fn wakes(self) -> bool {
        self.bind_flags & XDP_USE_NEED_WAKEUP != 0 && self.tx.ring.flags is Some
    }

    /// Whether the rings are as large as those of `other`.
    pub open spec fn shaped_like(self, other: XskSocket) -> bool {
        &&& self.rx.ring.entries == other.rx.ring.entries
        &&& self.tx.ring.entries == other.tx.ring.entries
    }

    /// A socket with fresh rings, and the address to bind it to. Without a flag for a
    /// way of moving packets the kernel picks the best that it supports; with one it
    /// must provide just that.
    pub fn new(
        ifindex: u32,
        queue_id: u32,
        rx_entries: usize,
        tx_entries: usize,
        bind_flags: u16,
    ) -> (r: Result<(XskSocket, SockAddrXdp), IoError>)
        ensures
            r is Ok <==> ring_size(rx_entries as nat) && ring_size(tx_entries as nat) && bindable(
                bind_flags,
            ),
            r matches Err(e) ==> e == (if !ring_size(rx_entries as nat) || !ring_size(
                tx_entries as nat,
            ) {
                IoError::RingSize
            } else {
                IoError::BindFlags
            }),
            r matches Ok((socket, address)) ==> {
                &&& socket.inv()
                &&& socket.bind_flags == bind_flags
                &&& socket.rx.ring.blank(rx_entries as nat)
                &&& socket.tx.ring.blank(tx_entries as nat)
                &&& socket.rx.cached_consumer == 0
                &&& socket.tx.cached_producer == 0
                &&& socket.tx.cached_consumer == tx_entries
                &&& address == (SockAddrXdp {
                    family: 44,
                    flags: bind_flags,
                    ifindex,
                    queue_id,
                    shared_umem_fd: 0,
                })
            },
    {
        match validate_ring_size(rx_entries) {
            Err(e) => {
                return Err(e);
            },
            Ok(()) => {},
        }
        match validate_ring_size(tx_entries) {
            Err(e) => {
                return Err(e);
            },
            Ok(()) => {},
        }
        if bind_flags & OTHER_FLAGS != 0 || bind_flags & MODE_FLAGS == MODE_FLAGS {
            return Err(IoError::BindFlags);
        }
        let socket = XskSocket {
            rx: Consumer::new(Ring::simulated(rx_entries as u32)),
            tx: Producer::new(Ring::simulated(tx_entries as u32)),
            bind_flags,
        };
        let address = SockAddrXdp {
            family: 44,
            flags: bind_flags,
            ifindex,
            queue_id,
            shared_umem_fd: 0,
        };
        Ok((socket, address))
    }

    /// Records the way of moving packets that the kernel reports once the socket is
    /// bound, or refuses it where zero-copy was demanded and not granted.
    pub fn confirm(&mut self, options: u32) -> (r: Result<(), IoError>)
        requires
            old(self).inv(),
        ensures
            final(self).inv(),
            r is Err <==> old(self).bind_flags & XDP_ZEROCOPY != 0 && active_mode(options)
                != XDP_ZEROCOPY,
            r matches Err(e) ==> e == IoError::ZeroCopyRefused && *final(self) == *old(self),
            r is Ok ==> *final(self) == (XskSocket {
                bind_flags: (old(self).bind_flags & BUT_MODE_FLAGS) | active_mode(options),
                ..*old(self)
            }),
    {
        let active: u16 = if options & XDP_OPTIONS_ZEROCOPY != 0 {
            XDP_ZEROCOPY
        } else {
            XDP_COPY
        };
        if self.bind_flags & XDP_ZEROCOPY != 0 && active != XDP_ZEROCOPY {
            return Err(IoError::ZeroCopyRefused);
        }
        self.bind_flags = (self.bind_flags & BUT_MODE_FLAGS) | active;
        Ok(())
    }

    pub fn bind_flags(&self) -> (flags: u16)
        ensures
            flags == self.bind_flags,
    {
        self.bind_flags
    }

    /// Whether the kernel says when it has to be woken.
    pub fn need_wakeup_enabled(&self) -> (yes: bool)
        ensures
            yes == self.wakes(),
    {
        self.bind_flags & XDP_USE_NEED_WAKEUP != 0 && self.tx.ring.flags.is_some()
    }

    /// Whether the kernel has to be told of packets to send.
    pub fn tx_needs_kick(&self) -> (yes: bool)
        ensures
            yes == (!self.wakes() || self.tx.ring.flags->0 & XDP_RING_NEED_WAKEUP != 0),
    {
        !self.need_wakeup_enabled() || self.tx.ring.flags_load() & XDP_RING_NEED_WAKEUP != 0
    }

    /// How many packets can be handed to the kernel to send.
    pub fn tx_free_slots(&mut self, needed: usize) -> (n: usize)
        requires
            old(self).inv(),
        ensures
            final(self).inv(),
            n == old(self).tx.free_for(needed as nat),
            *final(self) == (XskSocket {
                tx: Producer {
                    cached_consumer: old(self).tx.limit(needed as nat),
                    ..old(self).tx
                },
                ..*old(self)
            }),
    {
        self.tx.free_slots(needed)
    }

    /// Takes up to `max` descriptors of received packets.
    pub fn rx_pop(&mut self, out: &mut Vec<(u64, u32)>, max: usize) -> (n: usize)
        requires
            old(self).inv(),
        ensures
            final(self).inv(),
            n == least(max as nat, old(self).rx.waiting()),
            final(out)@ == old(out)@ + old(self).rx.ring.read(
                old(self).rx.cached_consumer,
                n as nat,
            ),
            final(self).rx.cached_consumer == moved(old(self).rx.cached_consumer, n as int),
            final(self).rx.ring == (Ring {
                consumer: if n > 0 {
                    final(self).rx.cached_consumer
                } else {
                    old(self).rx.ring.consumer
                },
                ..old(self).rx.ring
            }),
            final(self).tx == old(self).tx,
            final(self).bind_flags == old(self).bind_flags,
    {
        self.rx.pop(out, max)
    }

    /// Hands packets to the kernel to send; says how many fit.
    pub fn tx_push(&mut self, descs: &[(u64, u32)]) -> (n: usize)
        requires
            old(self).inv(),
        ensures
            final(self).inv(),
            n == least(descs@.len(), old(self).tx.free_for(descs@.len())),
            final(self).tx.cached_consumer == old(self).tx.limit(descs@.len()),
            final(self).tx.cached_producer == moved(old(self).tx.cached_producer, n as int),
            final(self).tx.ring.desc@ == old(self).tx.ring.written(
                old(self).tx.cached_producer,
                descs@.take(n as int),
            ),
            final(self).tx.ring.producer == (if n > 0 {
                final(self).tx.cached_producer
            } else {
                old(self).tx.ring.producer
            }),
            final(self).tx.ring.consumer == old(self).tx.ring.consumer,
            final(self).tx.ring.flags == old(self).tx.ring.flags,
            final(self).tx.ring.entries == old(self).tx.ring.entries,
            final(self).rx == old(self).rx,
            final(self).bind_flags == old(self).bind_flags,
    {
        self.tx.push(descs)
    }
}

/// A confirmed socket has exactly one way of moving packets, and keeps its wish to be
/// woken.
pub proof fn law_confirmed_flags(flags: u16, options: u32)
    requires
        bindable(flags),
    ensures
        ({
            let confirmed = (flags & BUT_MODE_FLAGS) | active_mode(options);
            &&& confirmed & MODE_FLAGS == active_mode(options)
            &&& confirmed & XDP_USE_NEED_WAKEUP == flags & XDP_USE_NEED_WAKEUP
        }),
{
    let active = active_mode(options);
    assert(((flags & 0xfff9) | active) & 6 == active && ((flags & 0xfff9) | active) & 8 == flags
        & 8) by (bit_vector)
        requires
            active == 2 || active == 4,
    ;
}

} // verus!
