//! TUN devices: IP datagrams to and from the kernel, one to a call. On some systems a
//! datagram is prefixed by the number of its address family, most significant byte
//! first; callers see plain IP packets either way.
use vstd::prelude::*;

use crate::bytes::{be32_bytes, bytes_of32, overwrite, put_run};
use crate::device::buffer_pool::{full_pool, valid_arena, Back, FramePool, PoolState};
use crate::device::{consumed, recycle_frames, sound, PacketBuf};
use crate::errno::Errno;
use crate::error::{Error, IoError};

verus! {

broadcast use PacketBuf::lemma_same_frame;

/// The size of packets that a device has frames for, unless another one is asked for.
pub const DEFAULT_MTU: usize = 1500;

/// How many frames a device has.
pub const FRAME_COUNT: usize = 256;

/// The alignment of the frames.
pub const FRAME_ALIGN: usize = 4096;

/// The address-family prefix, the headroom and some margin.
pub const OVERHEAD: usize = 196;

/// The size of a frame is a multiple of this.
pub const STRIDE: usize = 512;

/// The size of the frames for packets of `mtu` bytes: the least multiple of the stride
/// that holds a packet and what surrounds it.
pub open spec fn frame_size(mtu: nat) -> nat {
    (mtu + OVERHEAD as nat + STRIDE as nat - 1) as nat / STRIDE as nat * STRIDE as nat
}

/// The size of the frames for packets of `mtu` bytes.
pub fn frame_size_for_mtu(mtu: usize) -> (n: usize)
    requires
        frame_size(mtu as nat) <= usize::MAX,
    ensures
        n == frame_size(mtu as nat),
        mtu + OVERHEAD <= n < mtu + OVERHEAD + STRIDE,
{
    let wide: u128 = (mtu as u128 + OVERHEAD as u128 + STRIDE as u128 - 1) / STRIDE as u128
        * STRIDE as u128;
    wide as usize
}

/// Writes the name of an interface into the field that the kernel expects it in, and a
/// zero behind it.
pub fn set_ifname(dst: &mut [u8], name: &[u8])
    requires
        name@.len() < old(dst)@.len(),
    ensures
        final(dst)@ == overwrite(old(dst)@, 0, name@.push(0)),
        final(dst)@.len() == old(dst)@.len(),
{
    put_run(dst, 0, name);
    dst[name.len()] = 0;
    assert(dst@ =~= overwrite(old(dst)@, 0, name@.push(0)));
}

/// How long the field for the name of an interface is: libc's constant `IFNAMSIZ`, which
/// is 16 on most systems, Linux and macOS among them, 32 on Haiku and 44 on Cygwin.
#[verifier::external_body]
fn host_name_field() -> (n: usize)
    ensures
        n == 16 || n == 32 || n == 44,
{
    libc::IFNAMSIZ
}

/// How long the field for the name of an interface is on this system.
pub fn name_field() -> (n: usize)
    ensures
        n == 16 || n == 32 || n == 44,
{
    host_name_field()
}

/// Refuses a name that does not fit a field of `field` bytes with a zero behind it.
pub fn check_name(name: &str, field: usize) -> (r: Result<(), Error>)
    ensures
        r is Ok <==> name.len() < field,
        r matches Err(e) ==> e matches Error::InvalidTunnelName(refused) && refused@ == name@,
{
    if name.len() >= field {
        return Err(Error::InvalidTunnelName(name.to_owned()));
    }
    Ok(())
}

/// The numbers of the address families.
#[derive(Clone, Copy, Debug, PartialEq, Eq, Structural)]
pub struct Families {
    pub v4: u32,
    pub v6: u32,
}

impl Families {
    /// The numbers on the system that the library is built for.
    pub fn host() -> (families: Families)
        ensures
            families.v4 != families.v6,
    {
        host_families()
    }
}

/// The numbers on the system that the library is built for: the constants `AF_INET` and
/// `AF_INET6` of libc. They differ between systems; what is claimed is only that they
/// are not the same.
#[verifier::external_body]
fn host_families() -> (families: Families)
    ensures
        families.v4 != families.v6,
{
    Families { v4: libc::AF_INET as u32, v6: libc::AF_INET6 as u32 }
}

/// The family of a packet: that of the IP version in its first four bits.
pub open spec fn family(packet: Seq<u8>, families: Families) -> Result<u32, IoError> {
    if packet.len() == 0 {
        Err(IoError::EmptyDatagram)
    } else if packet[0] / 16 == 4 {
        Ok(families.v4)
    } else if packet[0] / 16 == 6 {
        Ok(families.v6)
    } else {
        Err(IoError::IpVersion)
    }
}

/// The family of the packet in `buf`.
pub fn family_for(buf: &PacketBuf, families: Families) -> (r: Result<u32, IoError>)
    requires
        buf.inv(),
    ensures
        r == family(buf@, families),
{
    let packet = buf.as_slice();
    if packet.len() == 0 {
        return Err(IoError::EmptyDatagram);
    }
    match packet[0] / 16 {
        4 => Ok(families.v4),
        6 => Ok(families.v6),
        _ => Err(IoError::IpVersion),
    }
}

/// What stands before a packet on the way to the kernel.
pub open spec fn prefix(packet: Seq<u8>, families: Option<Families>) -> Result<
    Option<Seq<u8>>,
    IoError,
> {
    match families {
        None => Ok(None),
        Some(families) => match family(packet, families) {
            Ok(number) => Ok(Some(be32_bytes(number))),
            Err(e) => Err(e),
        },
    }
}

/// What a prefix is.
pub open spec fn seen(bytes: Option<[u8; 4]>) -> Option<Seq<u8>> {
    match bytes {
        None => None,
        Some(bytes) => Some(bytes@),
    }
}

/// What stands before the packet in `buf` on the way to the kernel.
pub fn prefix_for(buf: &PacketBuf, families: Option<Families>) -> (r: Result<
    Option<[u8; 4]>,
    IoError,
>)
    requires
        buf.inv(),
    ensures
        match prefix(buf@, families) {
            Ok(bytes) => r is Ok && seen(r->Ok_0) == bytes,
            Err(e) => r == Err::<Option<[u8; 4]>, IoError>(e),
        },
{
    match families {
        None => Ok(None),
        Some(families) => match family_for(buf, families) {
            Ok(number) => Ok(Some(bytes_of32(number))),
            Err(e) => Err(e),
        },
    }
}

/// How long an address-family prefix is.
pub const PREFIX: usize = 4;

/// What reading came to.
#[derive(Clone, Copy, Debug, PartialEq, Eq, Structural)]
pub enum Reading {
    /// A datagram of so many bytes.
    Datagram(usize),
    /// There is nothing to read.
    Nothing,
    Fail(IoError),
}

/// What reading into `room` bytes came to: the kernel gave a number of bytes, or an
/// error. A datagram that fills the room may have lost its end.
pub open spec fn reading(
    outcome: Result<usize, i32>,
    room: nat,
    prefixed: bool,
    errno: Errno,
) -> Reading {
    match outcome {
        Err(e) => if e == errno.again {
            Reading::Nothing
        } else {
            Reading::Fail(IoError::Os(e))
        },
        Ok(n) => if n == 0 {
            Reading::Nothing
        } else if n == room {
            Reading::Fail(IoError::TruncatedDatagram)
        } else if prefixed && n < PREFIX {
            Reading::Fail(IoError::MissingPrefix)
        } else {
            Reading::Datagram(n)
        },
    }
}

/// Tells what reading into `room` bytes came to.
pub fn after_read(outcome: Result<usize, i32>, room: usize, prefixed: bool, errno: Errno) -> (r:
    Reading)
    ensures
        r == reading(outcome, room as nat, prefixed, errno),
{
    match outcome {
        Err(e) => {
            if e == errno.again {
                Reading::Nothing
            } else {
                Reading::Fail(IoError::Os(e))
            }
        },
        Ok(n) => {
            if n == 0 {
                Reading::Nothing
            } else if n == room {
                Reading::Fail(IoError::TruncatedDatagram)
            } else if prefixed && n < PREFIX {
                Reading::Fail(IoError::MissingPrefix)
            } else {
                Reading::Datagram(n)
            }
        },
    }
}

/// Whether `read` reads into the buffer that it is given: it hands it back, with the
/// packet where it was, and says how many bytes from there on are new.
pub open spec fn reads<R: Fn(PacketBuf) -> (PacketBuf, Result<usize, i32>)>(read: R) -> bool {
    &&& forall|buf: PacketBuf| buf.inv() ==> #[trigger] read.requires((buf,))
    &&& forall|buf: PacketBuf, got: (PacketBuf, Result<usize, i32>)|
        buf.inv() && #[trigger] read.ensures((buf,), got) ==> {
            &&& got.0.same_frame(buf)
            &&& got.0.offset() == buf.offset()
            &&& got.0.size() == buf.size()
            &&& got.1 matches Ok(n) ==> n <= buf.room()
        }
}

/// Whether `buf` is the frame that reading handed back, with the datagram in it and
/// without its prefix.
pub open spec fn extracted(
    buf: PacketBuf,
    got: (PacketBuf, Result<usize, i32>),
    prefixed: bool,
    errno: Errno,
) -> bool {
    let skip: int = if prefixed {
        PREFIX as int
    } else {
        0
    };
    &&& reading(got.1, got.0.room() as nat, prefixed, errno) matches Reading::Datagram(n)
    &&& buf.inv()
    &&& buf.same_frame(got.0)
    &&& buf.frame() == got.0.frame()
    &&& buf.offset() == got.0.offset() + skip
    &&& buf.size() == n - skip
}

/// Whether receiving went through these `calls` of `read`, each with a frame that the
/// device gave and what came of it, and the device was `steps` in between. Datagrams are
/// handed out in the order in which they were read, until there are `max` of them, the
/// device gives no frame, there is nothing to read, or reading fails.
pub open spec fn received_by<R: Fn(PacketBuf) -> (PacketBuf, Result<usize, i32>)>(
    steps: Seq<TunDevice>,
    calls: Seq<(PacketBuf, (PacketBuf, Result<usize, i32>))>,
    read: R,
    errno: Errno,
    max: nat,
    out: Seq<PacketBuf>,
    r: Result<usize, IoError>,
    after: TunDevice,
) -> bool {
    let prefixed = steps[0].prefixed() is Some;
    let n = out.len() as int;
    &&& steps.len() == calls.len() + 1
    &&& n <= calls.len()
    &&& forall|i: int|
        0 <= i < calls.len() ==> (#[trigger] steps[i]).gives(Some(calls[i].0), steps[i + 1])
            && read.ensures((calls[i].0,), calls[i].1)
    &&& forall|i: int| 0 <= i < n ==> extracted(#[trigger] out[i], calls[i].1, prefixed, errno)
    &&& if calls.len() == n {
        &&& r is Ok && r->Ok_0 == n
        &&& if n == max {
            after == steps[n]
        } else {
            steps[n].gives(None, after)
        }
    } else {
        let got = calls[n].1;
        &&& calls.len() == n + 1
        &&& n < max
        &&& after == steps[n + 1]
        &&& match reading(got.1, got.0.room() as nat, prefixed, errno) {
            Reading::Datagram(_) => false,
            Reading::Nothing => r is Ok && r->Ok_0 == n,
            Reading::Fail(e) => r == Err::<usize, IoError>(e),
        }
    }
}

/// The error in a result.
pub open spec fn failure(r: Result<(), i32>) -> Option<i32> {
    match r {
        Ok(_) => None,
        Err(e) => Some(e),
    }
}

/// Whether some call of `write` with this prefix and packet ended with this error, or
/// without one.
pub open spec fn wrote<W: Fn(Option<[u8; 4]>, &[u8]) -> Result<(), i32>>(
    write: W,
    before: Option<Seq<u8>>,
    packet: Seq<u8>,
    error: Option<i32>,
) -> bool {
    exists|bytes: Option<[u8; 4]>, data: &[u8], r: Result<(), i32>|
        seen(bytes) == before && data@ == packet && #[trigger] write.ensures((bytes, data), r)
            && failure(r) == error
}

/// A TUN device, apart from its descriptor. The application keeps this and makes the
/// calls.
pub struct TunDevice {
    name: String,
    pool: FramePool,
    families: Option<Families>,
}

impl TunDevice {
    /// The name of the interface.
    pub closed spec fn title(self) -> Seq<char> {
        self.name@
    }

    /// The pool of frames.
    pub closed spec fn frames(self) -> PoolState {
        self.pool@
    }

    /// Whether `back` are the frames that the device finds returned when it looks.
    pub closed spec fn finds(self, back: Seq<Back>) -> bool {
        self.pool.finds(back)
    }

    /// The numbers of the families where datagrams are prefixed.
    pub closed spec fn prefixed(self) -> Option<Families> {
        self.families
    }

    /// The pool is valid.
    pub closed spec fn inv(self) -> bool {
        self.pool.inv()
    }

    /// Whether all but the pool's frames is as it was before.
    pub open spec fn kept(self, before: TunDevice) -> bool {
        &&& self.title() == before.title()
        &&& self.prefixed() == before.prefixed()
        &&& self.frames().frame_size == before.frames().frame_size
        &&& self.frames().slots.len() == before.frames().slots.len()
    }

    /// Whether `frame` is what the device gives when it is asked for an empty frame, and it
    /// is `after` then.
    pub open spec fn gives(self, frame: Option<PacketBuf>, after: TunDevice) -> bool {
        &&& exists|back: Seq<Back>|
            self.finds(back) && #[trigger] self.frames().gives(back, frame, after.frames())
        &&& after.title() == self.title()
        &&& after.prefixed() == self.prefixed()
    }

    /// Whether there can be frames for packets of `mtu` bytes.
    pub fn supports_mtu(mtu: usize) -> (yes: bool)
        ensures
            yes == (FRAME_COUNT * frame_size(mtu as nat) + FRAME_ALIGN - 1 <= isize::MAX),
    {
        let wide: u128 = (mtu as u128 + OVERHEAD as u128 + STRIDE as u128 - 1) / STRIDE as u128
            * STRIDE as u128;
        let limit: u128 = isize::MAX as u128 + 1 - FRAME_ALIGN as u128;
        let count: u128 = FRAME_COUNT as u128;
        let most: u128 = limit / count;
        assert(256 * most <= limit < 256 * most + 256) by (nonlinear_arith)
            requires
                count == 256,
                most == limit / count,
        ;
        assert(FRAME_COUNT * frame_size(mtu as nat) == 256 * wide) by (nonlinear_arith)
            requires
                FRAME_COUNT == 256,
                frame_size(mtu as nat) == wide,
        ;
        wide <= most
    }

    /// A device with frames for packets of up to `mtu` bytes. Where `families` are given,
    /// datagrams are prefixed.
    pub fn new_with_mtu(name: String, mtu: usize, families: Option<Families>) -> (device: TunDevice)
        requires
            FRAME_COUNT * frame_size(mtu as nat) + FRAME_ALIGN - 1 <= isize::MAX,
        ensures
            device.inv(),
            device.title() == name@,
            device.prefixed() == families,
            device.frames() == full_pool(FRAME_COUNT as nat, frame_size(mtu as nat)),
    {
        let size: usize = frame_size_for_mtu(mtu);
        assert(vstd::arithmetic::power2::is_pow2(FRAME_ALIGN as int)) by {
            reveal_with_fuel(vstd::arithmetic::power2::is_pow2, 13);
        }
        assert(valid_arena(FRAME_COUNT as nat, size as nat, FRAME_ALIGN as nat));
        TunDevice { name, pool: FramePool::new(FRAME_COUNT, size, FRAME_ALIGN), families }
    }

    /// The name of the interface.
    pub fn name(&self) -> (name: &str)
        ensures
            name@ == self.title(),
    {
        self.name.as_str()
    }

    /// The name and the frames, for another kind of device on the same interface.
    pub fn into_io_parts(self) -> (parts: (String, FramePool))
        requires
            self.inv(),
        ensures
            parts.0@ == self.title(),
            parts.1@ == self.frames(),
            parts.1.inv(),
    {
        (self.name, self.pool)
    }

    /// An empty frame to be filled and sent, if one is free.
    pub fn allocate(&mut self) -> (frame: Option<PacketBuf>)
        requires
            old(self).inv(),
        ensures
            final(self).inv(),
            final(self).kept(*old(self)),
            old(self).gives(frame, *final(self)),
            frame matches Some(buf) ==> buf.inv() && buf.live() && buf.size() == 0
                && buf.frame().len() == old(self).frames().frame_size,
            old(self).frames().free.len() > 0 ==> frame is Some,
            frame is None ==> final(self).frames().free.len() == 0,
    {
        self.pool.reclaim();
        let ghost s = self.pool@;
        let ghost back = choose|back: Seq<Back>|
            old(self).pool.finds(back) && s == #[trigger] old(self).pool@.settled(back);
        proof {
            self.pool.lemma_inv();
            assert(s.taken(0) == s);
            assert(s.free.len() > 0 ==> s.free[s.free.len() - 1] < s.slots.len());
        }
        let frame = self.pool.take(0);
        assert(old(self).frames().gives(back, frame, self.frames()));
        frame
    }

    /// How large a frame is, headroom and all.
    pub fn frame_size(&self) -> (n: usize)
        ensures
            n == self.frames().frame_size,
    {
        self.pool.frame_size()
    }

    /// Drops what `out` held, then receives up to `max` packets: reads one datagram after
    /// another until there is nothing to read, no frame is free, or reading fails.
    pub fn recv<R: Fn(PacketBuf) -> (PacketBuf, Result<usize, i32>)>(
        &mut self,
        max: usize,
        out: &mut Vec<PacketBuf>,
        read: R,
        errno: Errno,
    ) -> (r: Result<usize, IoError>)
        requires
            old(self).inv(),
            reads(read),
        ensures
            final(self).inv(),
            final(self).kept(*old(self)),
            sound(final(out)@),
            final(out)@.len() <= max,
            exists|
                steps: Seq<TunDevice>,
                calls: Seq<(PacketBuf, (PacketBuf, Result<usize, i32>))>,
            |
                steps[0] == *old(self) && #[trigger] received_by(
                    steps,
                    calls,
                    read,
                    errno,
                    max as nat,
                    final(out)@,
                    r,
                    *final(self),
                ),
    {
        out.clear();
        let ghost start = *self;
        let prefixed: bool = self.families.is_some();
        let ghost mut steps: Seq<TunDevice> = seq![*self];
        let ghost mut calls: Seq<(PacketBuf, (PacketBuf, Result<usize, i32>))> = Seq::empty();
        while out.len() < max
            invariant
                start == *old(self),
                prefixed == (start.prefixed() is Some),
                self.inv(),
                self.kept(start),
                reads(read),
                sound(out@),
                out@.len() <= max,
                calls.len() == out@.len(),
                steps.len() == calls.len() + 1,
                steps[0] == start,
                steps[calls.len() as int] == *self,
                forall|i: int|
                    0 <= i < calls.len() ==> (#[trigger] steps[i]).gives(
                        Some(calls[i].0),
                        steps[i + 1],
                    ) && read.ensures((calls[i].0,), calls[i].1),
                forall|i: int|
                    0 <= i < out@.len() ==> extracted(
                        #[trigger] out@[i],
                        calls[i].1,
                        prefixed,
                        errno,
                    ),
            decreases max - out@.len(),
        {
            match self.allocate() {
                None => {
                    let n: usize = out.len();
                    assert(received_by(
                        steps,
                        calls,
                        read,
                        errno,
                        max as nat,
                        out@,
                        Ok(n),
                        *self,
                    ));
                    return Ok(n);
                },
                Some(buf) => {
                    let ghost given = buf;
                    let ghost so_far = out@;
                    let (mut got, outcome) = read(buf);
                    let ghost first = got;
                    proof {
                        calls = calls.push((given, (first, outcome)));
                        steps = steps.push(*self);
                    }
                    let room: usize = got.tail_capacity();
                    match after_read(outcome, room, prefixed, errno) {
                        Reading::Nothing => {
                            let n: usize = out.len();
                            assert(received_by(
                                steps,
                                calls,
                                read,
                                errno,
                                max as nat,
                                out@,
                                Ok(n),
                                *self,
                            ));
                            return Ok(n);
                        },
                        Reading::Fail(e) => {
                            assert(received_by(
                                steps,
                                calls,
                                read,
                                errno,
                                max as nat,
                                out@,
                                Err(e),
                                *self,
                            ));
                            return Err(e);
                        },
                        Reading::Datagram(n) => {
                            got.set_len(n);
                            let ghost whole = got;
                            if prefixed {
                                got.pull_header(PREFIX);
                                proof {
                                    got.lemma_frame_kept_twice(whole, first);
                                }
                            }
                            assert(extracted(got, (first, outcome), prefixed, errno));
                            out.push(got);
                        },
                    }
                },
            }
        }
        let n: usize = out.len();
        assert(received_by(steps, calls, read, errno, max as nat, out@, Ok(n), *self));
        Ok(n)
    }

    /// Sends packets until one finds no room or cannot be sent. Consumes those that were
    /// sent. An error of the first one is reported; a later one waits until its packet
    /// is tried again.
    pub fn send<W: Fn(Option<[u8; 4]>, &[u8]) -> Result<(), i32>>(
        &mut self,
        frames: &mut [PacketBuf],
        write: W,
        errno: Errno,
    ) -> (r: Result<usize, IoError>)
        requires
            old(self).inv(),
            sound(old(frames)@),
            forall|bytes: Option<[u8; 4]>, data: &[u8]| #[trigger] write.requires((bytes, data)),
        ensures
            *final(self) == *old(self),
            r matches Ok(n) ==> {
                &&& consumed(old(frames)@, final(frames)@, n as int)
                &&& all_sent(write, old(self).prefixed(), old(frames)@, n as int)
                &&& n == old(frames)@.len() || refused(
                    write,
                    old(self).prefixed(),
                    errno,
                    old(frames)@[n as int]@,
                    None,
                ) || n > 0 && exists|e: IoError| #[trigger]
                    refused(write, old(self).prefixed(), errno, old(frames)@[n as int]@, Some(e))
            },
            r matches Err(e) ==> {
                &&& final(frames)@ == old(frames)@
                &&& old(frames)@.len() > 0
                &&& refused(write, old(self).prefixed(), errno, old(frames)@[0]@, Some(e))
            },
    {
        let ghost given = frames@;
        let ghost families = self.families;
        let mut sent: usize = 0;
        let mut error: Option<IoError> = None;
        let mut more: bool = true;
        while more && sent < frames.len()
            invariant
                families == self.families,
                *self == *old(self),
                frames@ == given,
                given == old(frames)@,
                sound(given),
                sent <= given.len(),
                all_sent(write, families, given, sent as int),
                forall|bytes: Option<[u8; 4]>, data: &[u8]| #[trigger]
                    write.requires((bytes, data)),
                more ==> error is None,
                !more ==> sent < given.len() && refused(
                    write,
                    families,
                    errno,
                    given[sent as int]@,
                    error,
                ),
            decreases
                given.len() - sent,
                if more {
                    1int
                } else {
                    0
                },
        {
            match prefix_for(&frames[sent], self.families) {
                Err(e) => {
                    error = Some(e);
                    more = false;
                },
                Ok(bytes) => {
                    let data = frames[sent].as_slice();
                    let outcome: Result<(), i32> = write(bytes, data);
                    assert(wrote(write, seen(bytes), given[sent as int]@, failure(outcome)));
                    match outcome {
                        Ok(()) => {
                            let ghost now = given[sent as int]@;
                            assert(prefix(now, families) == Ok::<Option<Seq<u8>>, IoError>(
                                seen(bytes),
                            ));
                            sent += 1;
                        },
                        Err(e) => {
                            if e != errno.again {
                                error = Some(IoError::Os(e));
                            }
                            more = false;
                        },
                    }
                },
            }
        }
        if sent == 0 {
            match error {
                Some(e) => {
                    return Err(e);
                },
                None => {},
            }
        }
        recycle_frames(frames, sent);
        Ok(sent)
    }
}

/// Whether each of the first `n` packets was written, with its prefix.
pub open spec fn all_sent<W: Fn(Option<[u8; 4]>, &[u8]) -> Result<(), i32>>(
    write: W,
    families: Option<Families>,
    frames: Seq<PacketBuf>,
    n: int,
) -> bool {
    forall|i: int|
        0 <= i < n ==> (prefix((#[trigger] frames[i])@, families) matches Ok(before) && wrote(
            write,
            before,
            frames[i]@,
            None,
        ))
}

/// Whether a packet was not sent: with an error, or without one where the kernel had no
/// room.
pub open spec fn refused<W: Fn(Option<[u8; 4]>, &[u8]) -> Result<(), i32>>(
    write: W,
    families: Option<Families>,
    errno: Errno,
    packet: Seq<u8>,
    error: Option<IoError>,
) -> bool {
    match prefix(packet, families) {
        Err(e) => error == Some(e),
        Ok(before) => match error {
            None => wrote(write, before, packet, Some(errno.again)),
            Some(IoError::Os(e)) => e != errno.again && wrote(write, before, packet, Some(e)),
            Some(_) => false,
        },
    }
}

/// A frame for packets of `mtu` bytes holds a packet of that size with its prefix behind
/// the headroom of a fresh frame, and is never filled by one.
pub proof fn law_frames_hold_the_mtu(mtu: nat)
    ensures
        crate::device::buffer_pool::headroom(frame_size(mtu), 0) + PREFIX + mtu < frame_size(mtu),
        frame_size(mtu) % STRIDE as nat == 0,
{
}

/// A frame is as small as it can be: 512 bytes less would not hold a packet of `mtu`
/// bytes with 196 bytes around it.
pub proof fn law_frames_are_no_larger_than_needed(mtu: nat)
    ensures
        frame_size(mtu) % 512 == 0,
        mtu + 196 <= frame_size(mtu) < mtu + 196 + 512,
{
}

/// A packet goes by the version in the upper half of its first byte, and by nothing else:
/// 4 or 6. Without a first byte, or with another version, it is refused.
pub proof fn law_families_go_by_the_version(packet: Seq<u8>, families: Families)
    ensures
        packet.len() == 0 ==> family(packet, families) == Err::<u32, IoError>(
            IoError::EmptyDatagram,
        ),
        packet.len() > 0 && 64 <= packet[0] < 80 ==> family(packet, families) == Ok::<
            u32,
            IoError,
        >(families.v4),
        packet.len() > 0 && 96 <= packet[0] < 112 ==> family(packet, families) == Ok::<
            u32,
            IoError,
        >(families.v6),
        packet.len() > 0 && !(64 <= packet[0] < 80) && !(96 <= packet[0] < 112) ==> family(
            packet,
            families,
        ) == Err::<u32, IoError>(IoError::IpVersion),
{
}

/// Where datagrams are prefixed, the prefix is the number of the family with its most
/// significant byte first; elsewhere there is none.
pub proof fn law_prefixes_name_the_family(packet: Seq<u8>, families: Families)
    requires
        packet.len() > 0,
        64 <= packet[0] < 80 || 96 <= packet[0] < 112,
    ensures
        prefix(packet, None) == Ok::<Option<Seq<u8>>, IoError>(None),
        ({
            let number = if packet[0] < 80 {
                families.v4
            } else {
                families.v6
            };
            let bytes = prefix(packet, Some(families))->Ok_0->0;
            &&& prefix(packet, Some(families)) is Ok
            &&& prefix(packet, Some(families))->Ok_0 is Some
            &&& bytes.len() == 4
            &&& bytes[0] * 0x100_0000 + bytes[1] * 0x1_0000 + bytes[2] * 0x100 + bytes[3] == number
        }),
{
    crate::bytes::lemma_be32_bytes(families.v4);
    crate::bytes::lemma_be32_bytes(families.v6);
}

/// What the kernel read is a datagram exactly if it is not empty, leaves room in the
/// frame, and is at least as long as the prefix, where there is one. Nothing to read is
/// no error; any other error is reported with its number.
pub proof fn law_readings(n: usize, error: i32, room: nat, prefixed: bool, errno: Errno)
    ensures
        reading(Ok(n), room, prefixed, errno) is Datagram <==> n > 0 && n != room && (prefixed ==> n
            >= 4),
        reading(Ok(n), room, prefixed, errno) matches Reading::Datagram(len) ==> len == n,
        reading(Ok(0), room, prefixed, errno) is Nothing,
        n > 0 && n == room ==> reading(Ok(n), room, prefixed, errno) == Reading::Fail(
            IoError::TruncatedDatagram,
        ),
        prefixed && 0 < n < 4 && n != room ==> reading(Ok(n), room, prefixed, errno)
            == Reading::Fail(IoError::MissingPrefix),
        reading(Err(error), room, prefixed, errno) == (if error == errno.again {
            Reading::Nothing
        } else {
            Reading::Fail(IoError::Os(error))
        }),
{
}

} // verus!
