//! TUN devices and their reactor, with the kernel played by closures.
use async_net_stack_rs::device::backend::tun::{
    after_read, check_name, family_for, frame_size_for_mtu, name_field, prefix_for, set_ifname,
    Families, Reading, TunDevice,
};
use async_net_stack_rs::device::buffer_pool::FramePool;
use async_net_stack_rs::device::tun_reactor::{
    affinity_tag, after_wait, keep_first, preferred_core, ShardStep,
};
use async_net_stack_rs::device::{Error, PacketBuf, UtunReactor};
use async_net_stack_rs::errno::Errno;
use async_net_stack_rs::error::{ErrorKind, IoError};
use std::cell::{Cell, RefCell};

#[test]
fn frame_size_fits_default_and_jumbo_mtu() {
    assert_eq!(frame_size_for_mtu(1500), 2048);
    assert_eq!(frame_size_for_mtu(9000), 9216);

    // Always leave room for the 4-byte family prefix + 128-byte headroom.
    for mtu in [64usize, 1500, 9000, 9216] {
        assert!(frame_size_for_mtu(mtu) >= mtu + 4 + 128);
    }
}

#[test]
fn family_for_detects_ip_version() {
    let mut pool = FramePool::new(1, 256, 4096);
    let idx = pool.allocate().unwrap();
    let mut buf = pool.packet_buf(idx, 0);
    let off = buf.data_offset();
    let families = Families::host();

    buf.as_mut_slice()[off] = 0x45; // IPv4: version nibble = 4
    buf.set_len(20);
    assert_eq!(family_for(&buf, families).unwrap(), libc::AF_INET as u32);

    buf.as_mut_slice()[off] = 0x60; // IPv6: version nibble = 6
    assert_eq!(family_for(&buf, families).unwrap(), libc::AF_INET6 as u32);
}

#[test]
fn packets_of_no_version_have_no_family() {
    let mut pool = FramePool::new(1, 256, 4096);
    let idx = pool.allocate().unwrap();
    let mut buf = pool.packet_buf(idx, 0);
    let families = Families { v4: 2, v6: 30 };
    assert_eq!(family_for(&buf, families), Err(IoError::EmptyDatagram));
    buf.set_len(1);
    buf.as_mut_packet()[0] = 0x50;
    assert_eq!(family_for(&buf, families), Err(IoError::IpVersion));
    assert_eq!(IoError::IpVersion.kind(), ErrorKind::InvalidData);
    buf.as_mut_packet()[0] = 0x6f;
    assert_eq!(prefix_for(&buf, Some(families)), Ok(Some([0, 0, 0, 30])));
    assert_eq!(prefix_for(&buf, None), Ok(None));
}

#[test]
fn the_system_constants_are_those_of_libc() {
    let errno = Errno::host();
    assert_eq!(errno.again, libc::EAGAIN);
    assert_eq!(errno.interrupted, libc::EINTR);
    assert_eq!(errno.exists, libc::EEXIST);
    assert_eq!(errno.unsupported, libc::EOPNOTSUPP);
    assert_eq!(errno.invalid, libc::EINVAL);
    assert_eq!(errno.missing, libc::ENOENT);
    assert_eq!(name_field(), libc::IFNAMSIZ);
}

#[test]
fn names_need_room_for_their_end() {
    assert!(check_name("tun0", 16).is_ok());
    assert!(check_name("fifteen_letters", 16).is_ok());
    assert!(matches!(
        check_name("sixteen_letters_", 16),
        Err(Error::InvalidTunnelName(name)) if name == "sixteen_letters_"
    ));
    let mut field = [7u8; 8];
    set_ifname(&mut field, b"tun0");
    assert_eq!(&field, b"tun0\0\x07\x07\x07");
}

#[test]
fn readings_tell_packets_from_the_rest() {
    let errno = Errno::host();
    assert_eq!(after_read(Ok(60), 100, false, errno), Reading::Datagram(60));
    assert_eq!(after_read(Ok(0), 100, false, errno), Reading::Nothing);
    assert_eq!(
        after_read(Err(errno.again), 100, false, errno),
        Reading::Nothing
    );
    assert_eq!(
        after_read(Err(errno.invalid), 100, false, errno),
        Reading::Fail(IoError::Os(errno.invalid))
    );
    assert_eq!(
        after_read(Ok(100), 100, false, errno),
        Reading::Fail(IoError::TruncatedDatagram)
    );
    assert_eq!(
        after_read(Ok(3), 100, true, errno),
        Reading::Fail(IoError::MissingPrefix)
    );
    assert_eq!(after_read(Ok(4), 100, true, errno), Reading::Datagram(4));
}

fn device(families: Option<Families>) -> TunDevice {
    TunDevice::new_with_mtu(String::from("tun0"), 1500, families)
}

/// A kernel that has these datagrams to read, and then this outcome.
fn source(
    datagrams: Vec<Vec<u8>>,
    last: Result<usize, i32>,
) -> impl Fn(PacketBuf) -> (PacketBuf, Result<usize, i32>) {
    let next = Cell::new(0);
    move |mut buf: PacketBuf| {
        let i = next.get();
        next.set(i + 1);
        if i < datagrams.len() {
            let bytes = &datagrams[i];
            let at = buf.data_offset();
            buf.as_mut_slice()[at..at + bytes.len()].copy_from_slice(bytes);
            (buf, Ok(bytes.len()))
        } else {
            (buf, last)
        }
    }
}

#[test]
fn plain_datagrams_are_received_as_they_are() {
    let errno = Errno::host();
    let mut dev = device(None);
    assert_eq!(dev.name(), "tun0");
    assert_eq!(dev.frame_size(), 2048);
    let mut out = Vec::new();
    let read = source(vec![vec![0x45, 1], vec![0x60]], Err(errno.again));
    assert_eq!(dev.recv(8, &mut out, read, errno), Ok(2));
    assert_eq!(out[0].as_slice(), &[0x45, 1]);
    assert_eq!(out[1].as_slice(), &[0x60]);
    let read = source(vec![vec![1], vec![2]], Ok(0));
    assert_eq!(dev.recv(1, &mut out, read, errno), Ok(1));
    assert_eq!(out[0].as_slice(), &[1]);
}

#[test]
fn prefixes_are_taken_off() {
    let errno = Errno::host();
    let mut dev = device(Some(Families { v4: 2, v6: 30 }));
    let mut out = Vec::new();
    let read = source(vec![vec![0, 0, 0, 2, 0x45, 9]], Ok(0));
    assert_eq!(dev.recv(8, &mut out, read, errno), Ok(1));
    assert_eq!(out[0].as_slice(), &[0x45, 9]);
    let read = source(vec![vec![0, 0]], Ok(0));
    assert_eq!(
        dev.recv(8, &mut out, read, errno),
        Err(IoError::MissingPrefix)
    );
}

#[test]
fn reading_errors_are_reported() {
    let errno = Errno::host();
    let mut dev = device(None);
    let mut out = Vec::new();
    let read = source(vec![], Err(errno.invalid));
    assert_eq!(
        dev.recv(8, &mut out, read, errno),
        Err(IoError::Os(errno.invalid))
    );
    let room = 2048 - 128;
    let read = source(vec![vec![1; room]], Ok(0));
    assert_eq!(
        dev.recv(8, &mut out, read, errno),
        Err(IoError::TruncatedDatagram)
    );
}

fn packet(dev: &mut TunDevice, bytes: &[u8]) -> PacketBuf {
    let mut buf = dev.allocate().unwrap();
    buf.set_len(bytes.len());
    buf.as_mut_packet().copy_from_slice(bytes);
    buf
}

#[test]
fn only_what_was_written_is_consumed() {
    let errno = Errno::host();
    let mut dev = device(None);
    let written = RefCell::new(Vec::new());
    let write = |prefix: Option<[u8; 4]>, data: &[u8]| {
        if written.borrow().len() == 1 {
            return Err(errno.again);
        }
        written.borrow_mut().push((prefix, data.to_vec()));
        Ok(())
    };
    let mut frames = vec![packet(&mut dev, &[0x45]), packet(&mut dev, &[0x46])];
    assert_eq!(dev.send(&mut frames, write, errno), Ok(1));
    assert!(frames[0].is_empty());
    assert_eq!(frames[0].capacity(), 0);
    assert_eq!(frames[1].as_slice(), &[0x46]);
    assert_eq!(written.into_inner(), vec![(None, vec![0x45])]);
}

#[test]
fn prefixes_are_put_in_front() {
    let errno = Errno::host();
    let mut dev = device(Some(Families { v4: 2, v6: 30 }));
    let written = RefCell::new(Vec::new());
    let write = |prefix: Option<[u8; 4]>, data: &[u8]| {
        written.borrow_mut().push((prefix, data.to_vec()));
        Ok(())
    };
    let mut frames = vec![packet(&mut dev, &[0x45]), packet(&mut dev, &[0x60, 1])];
    assert_eq!(dev.send(&mut frames, write, errno), Ok(2));
    assert_eq!(
        written.into_inner(),
        vec![
            (Some([0, 0, 0, 2]), vec![0x45]),
            (Some([0, 0, 0, 30]), vec![0x60, 1])
        ]
    );
}

#[test]
fn an_error_of_the_first_packet_is_reported() {
    let errno = Errno::host();
    let mut dev = device(Some(Families { v4: 2, v6: 30 }));
    let broken = |_: Option<[u8; 4]>, _: &[u8]| Err(errno.invalid);
    let mut frames = vec![packet(&mut dev, &[0x45])];
    assert_eq!(
        dev.send(&mut frames, broken, errno),
        Err(IoError::Os(errno.invalid))
    );
    assert_eq!(frames[0].as_slice(), &[0x45]);
    let full = |_: Option<[u8; 4]>, _: &[u8]| Err(errno.again);
    assert_eq!(dev.send(&mut frames, full, errno), Ok(0));
    let fine = |_: Option<[u8; 4]>, _: &[u8]| Ok(());
    let mut odd = vec![packet(&mut dev, &[0x45]), packet(&mut dev, &[0x10])];
    assert_eq!(dev.send(&mut odd, fine, errno), Ok(1));
    assert_eq!(dev.send(&mut odd[1..], fine, errno), Err(IoError::IpVersion));
    let (name, pool) = dev.into_io_parts();
    assert_eq!(name, "tun0");
    assert_eq!(pool.num_frames(), 256);
}

#[test]
fn frames_are_bounded_by_memory() {
    assert!(TunDevice::supports_mtu(1500));
    assert!(TunDevice::supports_mtu(65_535));
    assert!(!TunDevice::supports_mtu(usize::MAX));
    assert!(!TunDevice::supports_mtu(usize::MAX / 256));
}

#[test]
fn reactors_open_one_device_for_each_shard() {
    let opened = Cell::new(0);
    let open = |mtu: usize| {
        opened.set(opened.get() + 1);
        let name = if opened.get() == 1 { "utun0" } else { "utun1" };
        Ok((mtu, String::from(name)))
    };
    let mut reactor = UtunReactor::sharded(2, 1500, open).ok().unwrap();
    assert_eq!(reactor.names(), ["utun0", "utun1"]);
    assert_eq!(reactor.take_devices(), vec![1500, 1500]);
    assert!(reactor.take_devices().is_empty());
    assert_eq!(reactor.names().len(), 2);
}

#[test]
fn reactors_report_a_device_that_does_not_open() {
    let refuse = |_: usize| -> Result<((), String), Error> {
        Err(Error::CreateSocket(IoError::Os(1)))
    };
    assert!(matches!(
        UtunReactor::single(1500, refuse),
        Err(Error::CreateSocket(IoError::Os(1)))
    ));
}

#[test]
fn workers_wait_drain_and_stop() {
    assert_eq!(after_wait(false, 0), ShardStep::Wait);
    assert_eq!(after_wait(true, 0), ShardStep::Stop);
    assert_eq!(after_wait(true, 1), ShardStep::Drain);
    assert_eq!(preferred_core(5, 4), 1);
    assert_eq!(affinity_tag(0), 1);
    assert_eq!(affinity_tag(u32::MAX), 0);
    let first = keep_first(None, IoError::ShortWrite);
    assert_eq!(keep_first(first, IoError::Blocked), Some(IoError::ShortWrite));
}
