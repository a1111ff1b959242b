//! AF_XDP: instructions, rings, sockets and frames, without a kernel.
use async_net_stack_rs::device::backend::af_xdp::device::{decode_rx, Lease, Outgoing};
use async_net_stack_rs::device::backend::af_xdp::netlink::{
    ack_result, find_ack, release_message, setlink_message, ByteOrder,
};
use async_net_stack_rs::device::backend::af_xdp::prog::{
    default_program, AttachStep, Attaching, Attempt,
};
use async_net_stack_rs::device::backend::af_xdp::sys::{
    program_name, BpfInsn, SockAddrXdp, XdpDesc, XdpMmapOffsets, XdpUmemReg, BPF_REDIRECT_MAP,
    XDP_FLAGS_DRV_MODE, XDP_FLAGS_SKB_MODE,
};
use async_net_stack_rs::device::backend::af_xdp::umem::{
    is_pow2, mapping_len, validate_ring_size, Consumer, Producer, Ring,
};
use async_net_stack_rs::device::{
    AttachMode, UMem, XdpConfig, XdpDevice, XdpMode, XdpStatistics, XskSocket, XDP_COPY,
    XDP_USE_NEED_WAKEUP, XDP_ZEROCOPY,
};
use async_net_stack_rs::errno::Errno;
use async_net_stack_rs::error::{ErrorKind, IoError};
use std::mem;

#[test]
fn rx_offset_comes_from_descriptor() {
    assert_eq!(decode_rx(4096 + 256, 1500, 4096, 4), Some((1, 256)));
    assert_eq!(decode_rx(4000, 200, 4096, 4), None);
    assert_eq!(decode_rx(u64::MAX, 1, 4096, 4), None);
}

#[test]
fn descriptors_name_packets_inside_one_frame() {
    assert_eq!(decode_rx(0, 4096, 4096, 4), Some((0, 0)));
    assert_eq!(decode_rx(0, 4097, 4096, 4), None);
    assert_eq!(decode_rx(0, 0, 4096, 4), None);
    assert_eq!(decode_rx(4 * 4096, 1, 4096, 4), None);
    assert_eq!(decode_rx(4 * 4096 - 1, 1, 4096, 4), Some((3, 4095)));
}

#[test]
fn configuration_rejects_invalid_geometry_before_syscalls() {
    let mut cfg = XdpConfig::default();
    assert!(cfg.validate(0).is_ok());
    cfg.tx_reserve = cfg.frames;
    assert!(cfg.validate(0).is_err());
    cfg.tx_reserve = 0;
    cfg.fill_entries = 3;
    assert!(cfg.validate(0).is_err());
}

#[test]
fn configuration_errors_say_what_is_wrong() {
    let cfg = XdpConfig::default();
    assert_eq!(cfg.validate(cfg.max_queues), Err(IoError::XdpConfig));
    let rings = XdpConfig { rx_entries: 3, ..cfg };
    assert_eq!(rings.validate(0), Err(IoError::RingSize));
    let chunk = XdpConfig { chunk_size: 3000, ..cfg };
    assert_eq!(chunk.validate(0).unwrap_err().kind(), ErrorKind::InvalidInput);
}

#[test]
fn the_mode_decides_the_bind_flags() {
    let cfg = XdpConfig::default();
    let zero_copy = XdpConfig { mode: XdpMode::ZeroCopy, ..cfg };
    let copy = XdpConfig { mode: XdpMode::Copy, ..cfg };
    assert_eq!(cfg.bind_request(AttachMode::Driver), Ok(XDP_USE_NEED_WAKEUP));
    assert_eq!(
        cfg.bind_request(AttachMode::Generic),
        Ok(XDP_USE_NEED_WAKEUP | XDP_COPY)
    );
    assert_eq!(
        zero_copy.bind_request(AttachMode::Driver),
        Ok(XDP_USE_NEED_WAKEUP | XDP_ZEROCOPY)
    );
    assert_eq!(
        copy.bind_request(AttachMode::Driver),
        Ok(XDP_USE_NEED_WAKEUP | XDP_COPY)
    );
    assert_eq!(
        zero_copy.bind_request(AttachMode::Generic),
        Err(IoError::GenericZeroCopy)
    );
    assert_eq!(
        cfg.bind_request(AttachMode::AlreadyAttached),
        Err(IoError::ProgramAttached)
    );
}

#[test]
fn insn_encoding_matches_uapi() {
    assert_eq!(
        BpfInsn::mov64_imm(0, 2),
        BpfInsn { code: 0xB7, dst_src: 0x00, off: 0, imm: 2 }
    );
    assert_eq!(
        BpfInsn::ld_map_fd(1, 0x0000_0042),
        [
            BpfInsn { code: 0x18, dst_src: 0x11, off: 0, imm: 0x42 },
            BpfInsn { code: 0x00, dst_src: 0x00, off: 0, imm: 0 },
        ]
    );
    assert_eq!(
        BpfInsn::jeq_imm(2, 0, 5),
        BpfInsn { code: 0x15, dst_src: 0x02, off: 5, imm: 0 }
    );
    assert_eq!(
        BpfInsn::call(BPF_REDIRECT_MAP),
        BpfInsn { code: 0x85, dst_src: 0, off: 0, imm: 51 }
    );
    assert_eq!(
        BpfInsn::exit(),
        BpfInsn { code: 0x95, dst_src: 0, off: 0, imm: 0 }
    );
    assert_eq!(
        BpfInsn::ldx_w(2, 1, 16),
        BpfInsn { code: 0x61, dst_src: 0x12, off: 16, imm: 0 }
    );
}

#[test]
fn abi_sizes_match_uapi() {
    assert_eq!(mem::size_of::<XdpDesc>(), 16);
    assert_eq!(mem::size_of::<XdpUmemReg>(), 32);
    assert_eq!(mem::size_of::<XdpMmapOffsets>(), 128);
    assert_eq!(mem::size_of::<XdpStatistics>(), 48);
    assert_eq!(mem::size_of::<SockAddrXdp>(), 16);
    assert_eq!(mem::size_of::<BpfInsn>(), 8);
}

#[test]
fn the_default_program_passes_what_it_does_not_redirect() {
    let insns = default_program(7, 9);
    assert_eq!(insns[insns.len() - 1], BpfInsn::exit());
    assert!(insns.contains(&BpfInsn::call(BPF_REDIRECT_MAP)));
    assert!(insns.contains(&BpfInsn::mov64_imm(3, 2)));
    let map = BpfInsn::ld_map_fd(1, 9);
    assert!(insns.contains(&map[0]));
    let value = BpfInsn::ld_map_value(2, 7, 0);
    assert!(insns.contains(&value[0]));
}

#[test]
fn program_names_fill_their_field() {
    assert_eq!(&program_name(b"xdp"), b"xdp\0\0\0\0\0\0\0\0\0\0\0\0\0");
    assert_eq!(&program_name(b"a name that is too long"), b"a name that is t");
}

#[test]
fn tx_full_returns_immediately_and_wraps() {
    let mut socket = XskSocket {
        rx: Consumer::new(Ring::simulated(4)),
        tx: Producer {
            ring: Ring::simulated(4),
            cached_producer: u32::MAX - 1,
            cached_consumer: 2,
        },
        bind_flags: XDP_COPY,
    };
    socket.tx.ring.consumer_store(u32::MAX - 1);
    assert_eq!(socket.tx_push(&[(256, 60); 5]), 4);
    assert_eq!(socket.tx_push(&[(256, 60)]), 0);
    assert_eq!(socket.tx.ring.producer_load(), 2);
    socket.tx.ring.consumer_store(1);
    assert_eq!(socket.tx_push(&[(512, 100); 4]), 3);
    assert_eq!(socket.tx.ring.producer_load(), 5);
}

#[test]
fn rings_keep_what_is_written_across_the_wrap() {
    let mut ring = Ring::simulated(4);
    let run = [(1, 10), (2, 20), (3, 30)];
    ring.write_run(u32::MAX, &run, 3);
    let mut out = Vec::new();
    ring.read_run(u32::MAX, 3, &mut out);
    assert_eq!(out, run);
    assert_eq!(ring.desc_at(0), (2, 20));
    assert_eq!(ring.index(u32::MAX), 3);
}

#[test]
fn consumers_take_what_waits() {
    let mut consumer = Consumer::new(Ring::simulated(4));
    consumer.ring.write_desc(0, (5, 0));
    consumer.ring.write_desc(1, (6, 0));
    consumer.ring.producer_store(2);
    let mut out = Vec::new();
    assert_eq!(consumer.pop(&mut out, 1), 1);
    assert_eq!(consumer.ring.consumer_load(), 1);
    assert_eq!(consumer.pop(&mut out, 8), 1);
    assert_eq!(consumer.pop(&mut out, 8), 0);
    assert_eq!(out, [(5, 0), (6, 0)]);
}

#[test]
fn ring_sizes_are_powers_of_two() {
    assert!(is_pow2(1) && is_pow2(64) && is_pow2(1 << 31));
    assert!(!is_pow2(0) && !is_pow2(3) && !is_pow2(96));
    assert_eq!(validate_ring_size(64), Ok(()));
    assert_eq!(validate_ring_size(0), Err(IoError::RingSize));
    assert_eq!(validate_ring_size(1 << 33), Err(IoError::RingSize));
    assert_eq!(mapping_len(320, 64, 16), Some(1344));
    assert_eq!(mapping_len(u64::MAX, 1, 8), None);
}

#[test]
fn arenas_must_fit_memory() {
    let umem = UMem::new(128, 4096, 64, 32, 0).ok().unwrap();
    assert_eq!(umem.len_bytes(), 128 * 4096);
    let reg = umem.registration(0x1000, 256, 0);
    assert_eq!(reg.len, 128 * 4096);
    assert_eq!(reg.chunk_size, 4096);
    assert_eq!(reg.headroom, 256);
    assert!(matches!(
        UMem::new(usize::MAX, 4096, 64, 64, 0),
        Err(IoError::ArenaOverflow)
    ));
    assert!(matches!(
        UMem::new(128, 4096, 63, 64, 0),
        Err(IoError::RingSize)
    ));
}

#[test]
fn sockets_refuse_flags_that_contradict() {
    assert!(matches!(
        XskSocket::new(1, 0, 64, 64, XDP_COPY | XDP_ZEROCOPY),
        Err(IoError::BindFlags)
    ));
    assert!(matches!(
        XskSocket::new(1, 0, 64, 64, 0x8000),
        Err(IoError::BindFlags)
    ));
    let (mut socket, address) = XskSocket::new(7, 3, 64, 64, XDP_USE_NEED_WAKEUP)
        .ok()
        .unwrap();
    assert_eq!((address.family, address.ifindex, address.queue_id), (44, 7, 3));
    assert_eq!(socket.confirm(1), Ok(()));
    assert_eq!(socket.bind_flags(), XDP_USE_NEED_WAKEUP | XDP_ZEROCOPY);
    assert_eq!(socket.confirm(0), Err(IoError::ZeroCopyRefused));
    let (mut other, _) = XskSocket::new(7, 3, 64, 64, 0).ok().unwrap();
    assert_eq!(other.confirm(0), Ok(()));
    assert_eq!(other.bind_flags(), XDP_COPY);
    assert_eq!(IoError::ZeroCopyRefused.kind(), ErrorKind::Unsupported);
}

#[test]
fn attaching_tries_links_before_netlink() {
    let errno = Errno::host();
    let mut attaching = Attaching::begin(false);
    assert_eq!(attaching.next_attempt(), Attempt::Link(XDP_FLAGS_DRV_MODE));
    assert_eq!(
        attaching.answer(Err(errno.unsupported), errno),
        AttachStep::Try(Attempt::Link(XDP_FLAGS_SKB_MODE))
    );
    assert_eq!(
        attaching.answer(Err(errno.invalid), errno),
        AttachStep::Try(Attempt::Netlink(XDP_FLAGS_DRV_MODE))
    );
    assert_eq!(
        attaching.answer(Err(errno.missing), errno),
        AttachStep::Try(Attempt::Netlink(XDP_FLAGS_SKB_MODE))
    );
    assert_eq!(
        attaching.answer(Ok(()), errno),
        AttachStep::Done(AttachMode::Generic, Some(XDP_FLAGS_SKB_MODE))
    );
}

#[test]
fn attaching_ends_on_success_refusal_and_failure() {
    let errno = Errno::host();
    let mut attaching = Attaching::begin(false);
    assert_eq!(
        attaching.answer(Ok(()), errno),
        AttachStep::Done(AttachMode::Driver, None)
    );
    assert_eq!(
        attaching.answer(Err(errno.exists), errno),
        AttachStep::Done(AttachMode::AlreadyAttached, None)
    );
    assert_eq!(
        attaching.answer(Err(errno.missing), errno),
        AttachStep::Failed(IoError::Os(errno.missing))
    );
    let mut generic = Attaching::begin(true);
    assert_eq!(generic.next_attempt(), Attempt::Link(XDP_FLAGS_SKB_MODE));
    assert_eq!(
        generic.answer(Err(errno.invalid), errno),
        AttachStep::Try(Attempt::Netlink(XDP_FLAGS_SKB_MODE))
    );
    assert_eq!(
        generic.answer(Err(errno.invalid), errno),
        AttachStep::Failed(IoError::Os(errno.invalid))
    );
}

#[test]
fn netlink_messages_carry_their_length() {
    for order in [ByteOrder::Little, ByteOrder::Big] {
        for (fd, flags, len) in [(5, 0, 44), (5, 4, 52), (5, 3, 60), (-1, 3, 52)] {
            let message = setlink_message(order, 9, fd, flags, 77);
            assert_eq!(message.len(), len);
            let field = [message[0], message[1], message[2], message[3]];
            let stated = match order {
                ByteOrder::Little => u32::from_le_bytes(field),
                ByteOrder::Big => u32::from_be_bytes(field),
            };
            assert_eq!(stated as usize, len);
        }
    }
}

#[test]
fn cleaning_up_names_the_own_program() {
    let message = release_message(ByteOrder::Little, 9, 5, XDP_FLAGS_SKB_MODE, 77);
    assert_eq!(message.len(), 60);
    assert_eq!(&message[20..24], &[9, 0, 0, 0]);
    assert_eq!(&message[36..44], &[8, 0, 1, 0, 0xff, 0xff, 0xff, 0xff]);
    assert_eq!(&message[44..52], &[8, 0, 3, 0, 18, 0, 0, 0]);
    assert_eq!(&message[52..60], &[8, 0, 6, 0, 5, 0, 0, 0]);
}

fn message(kind: u16, sequence: u32, body: &[u8]) -> Vec<u8> {
    let mut m = Vec::new();
    m.extend_from_slice(&(16 + body.len() as u32).to_le_bytes());
    m.extend_from_slice(&kind.to_le_bytes());
    m.extend_from_slice(&[0, 0]);
    m.extend_from_slice(&sequence.to_le_bytes());
    m.extend_from_slice(&[0; 4]);
    m.extend_from_slice(body);
    m
}

#[test]
fn acknowledgements_are_found_among_other_messages() {
    let mut reply = message(3, 77, &[0; 4]);
    reply.extend(message(2, 76, &(-1i32).to_le_bytes()));
    reply.extend(message(2, 77, &(-17i32).to_le_bytes()));
    let n = reply.len();
    assert_eq!(find_ack(ByteOrder::Little, &reply, n, 77), Some(-17));
    assert_eq!(find_ack(ByteOrder::Little, &reply, n, 76), Some(-1));
    assert_eq!(find_ack(ByteOrder::Little, &reply, n, 75), None);
    assert_eq!(find_ack(ByteOrder::Little, &reply, 20, 77), None);
    assert_eq!(find_ack(ByteOrder::Little, &[0; 16], 16, 0), None);
    assert_eq!(ack_result(0), Ok(()));
    assert_eq!(ack_result(-17), Err(IoError::Os(17)));
}

fn device() -> XdpDevice {
    let cfg = XdpConfig {
        frames: 8,
        fill_entries: 4,
        cq_entries: 8,
        rx_entries: 4,
        tx_entries: 4,
        batch_size: 4,
        tx_reserve: 2,
        ..XdpConfig::default()
    };
    XdpDevice::with_config(1, 0, &cfg, AttachMode::Driver)
        .ok()
        .unwrap()
        .0
}

/// Lets the kernel receive a packet at `addr`.
fn deliver(dev: &mut XdpDevice, addr: u64, len: u32) {
    let ring = &mut dev.socket_mut().rx.ring;
    let at = ring.producer_load();
    ring.write_desc(at, (addr, len));
    ring.producer_store(at.wrapping_add(1));
}

/// Lets the kernel complete the packet at `addr`.
fn complete(dev: &mut XdpDevice, addr: u64) {
    let ring = &mut dev.umem_mut().cq.ring;
    let at = ring.producer_load();
    ring.write_desc(at, (addr, 0));
    ring.producer_store(at.wrapping_add(1));
}

fn mine(lease: Lease) -> Outgoing {
    Outgoing { lease, mine: true }
}

#[test]
fn reception_leaves_a_reserve_to_send() {
    let mut dev = device();
    assert_eq!(dev.available(), 8);
    dev.refill();
    assert_eq!(dev.available(), 4);
    let mut frames = Vec::new();
    while let Some(idx) = dev.allocate() {
        frames.push(idx);
    }
    assert_eq!(frames.len(), 4);
    assert!(dev.allocate().is_none());
    for idx in frames {
        assert!(dev.has(idx));
        dev.release(idx);
        assert!(!dev.has(idx));
    }
    assert_eq!(dev.available(), 4);
    assert_eq!(dev.frame_size(), 4096);
}

#[test]
fn received_packets_lie_where_their_descriptor_says() {
    let mut dev = device();
    dev.refill();
    let mut posted = Vec::new();
    dev.umem_mut().fq.ring.read_run(0, 4, &mut posted);
    let (addr, _) = posted[0];
    deliver(&mut dev, addr + 256, 60);
    let leases = dev.recv(8);
    assert_eq!(leases.len(), 1);
    assert_eq!(leases[0].idx as u64, addr / 4096);
    assert_eq!((leases[0].offset, leases[0].len), (256, 60));
    assert_eq!(dev.counters().rx_packets, 1);
    assert!(dev.has(leases[0].idx));
}

#[test]
fn invalid_descriptors_are_counted_and_not_delivered() {
    let mut dev = device();
    dev.refill();
    deliver(&mut dev, 1 << 40, 60);
    deliver(&mut dev, 7 * 4096, 60);
    assert!(dev.recv(8).is_empty());
    assert_eq!(dev.counters().invalid_descriptors, 2);
    assert_eq!(dev.counters().rx_packets, 0);
}

#[test]
fn sent_frames_come_back_once() {
    let mut dev = device();
    let idx = dev.allocate().unwrap();
    let lease = Lease { idx, offset: 128, len: 60 };
    assert_eq!(dev.send(&[mine(lease)]), Ok(1));
    assert_eq!(dev.pending_tx(), 1);
    assert!(!dev.has(idx));
    complete(&mut dev, idx as u64 * 4096 + 128);
    complete(&mut dev, idx as u64 * 4096 + 128);
    dev.progress();
    assert_eq!(dev.pending_tx(), 0);
    assert_eq!(dev.counters().tx_submitted, 1);
    assert_eq!(dev.counters().tx_completed, 1);
    assert_eq!(dev.counters().invalid_descriptors, 1);
}

#[test]
fn a_full_ring_takes_a_prefix() {
    let mut dev = device();
    let mut frames = dev.alloc_batch(6);
    assert_eq!(frames.len(), 4);
    frames.extend(dev.alloc_batch(2));
    assert_eq!(frames.len(), 6);
    let out: Vec<Outgoing> = frames
        .iter()
        .map(|&idx| mine(Lease { idx, offset: 0, len: 64 }))
        .collect();
    assert_eq!(dev.send(&out), Ok(4));
    assert_eq!(dev.counters().tx_submitted, 4);
    assert!(dev.has(frames[4]));
    assert_eq!(dev.send(&out[4..]), Ok(0));
    assert!(dev.counters().tx_backpressure > 0);
}

#[test]
fn empty_and_foreign_frames_are_refused() {
    let mut dev = device();
    let idx = dev.allocate().unwrap();
    let empty = Lease { idx, offset: 0, len: 0 };
    assert_eq!(dev.send(&[mine(empty)]), Err(IoError::ForeignFrame));
    let other = Outgoing { lease: Lease { idx, offset: 0, len: 60 }, mine: false };
    assert_eq!(dev.send(&[other]), Err(IoError::ForeignFrame));
    assert!(dev.has(idx));
    assert_eq!(dev.pending_tx(), 0);
}

#[test]
fn devices_remember_how_they_are_bound() {
    let mut dev = device();
    assert_eq!(dev.attach_mode(), AttachMode::Driver);
    assert_eq!(dev.bind_flags(), XDP_USE_NEED_WAKEUP);
    assert!(!dev.is_zero_copy());
    dev.socket_mut().confirm(1).unwrap();
    assert!(dev.is_zero_copy());
    assert!(matches!(
        XdpDevice::with_config(1, 0, &XdpConfig::default(), AttachMode::AlreadyAttached),
        Err(IoError::ProgramAttached)
    ));
}

#[test]
fn counters_that_make_no_sense_are_not_taken_over() {
    let mut producer = Producer::new(Ring::simulated(4));
    assert_eq!(producer.push(&[(1, 0), (2, 0), (3, 0)]), 3);
    assert!(producer.see_consumed(2));
    assert!(!producer.see_consumed(1));
    assert!(!producer.see_consumed(4));
    assert_eq!(producer.ring.consumer_load(), 2);
    assert_eq!(producer.free_slots(4), 3);
    assert_eq!(producer.push(&[(4, 0), (5, 0), (6, 0), (7, 0)]), 3);
    assert_eq!(producer.ring.desc_at(2), (3, 0));
}

#[test]
fn arena_and_rings_are_as_large_as_configured() {
    let cfg = XdpConfig {
        frames: 64,
        chunk_size: 2048,
        fill_entries: 32,
        cq_entries: 16,
        rx_entries: 8,
        tx_entries: 4,
        batch_size: 4,
        tx_reserve: 2,
        ..XdpConfig::default()
    };
    let (mut dev, _) = XdpDevice::with_config(1, 0, &cfg, AttachMode::Driver).ok().unwrap();
    let umem = dev.umem_mut();
    assert_eq!((umem.num_frames, umem.chunk_size), (64, 2048));
    assert_eq!(umem.len_bytes(), 64 * 2048);
    assert_eq!((umem.fq.ring.entries, umem.cq.ring.entries), (32, 16));
    let xsk = dev.socket_mut();
    assert_eq!((xsk.rx.ring.entries, xsk.tx.ring.entries), (8, 4));
    assert_eq!((xsk.rx.ring.producer_load(), xsk.rx.ring.consumer_load()), (0, 0));
}

#[test]
fn frames_are_given_as_soon_as_the_kernel_has_made_room() {
    let mut dev = device();
    dev.refill();
    let mut posted = Vec::new();
    dev.umem_mut().fq.ring.read_run(0, 4, &mut posted);
    assert_eq!(posted, [(3 * 4096, 0), (2 * 4096, 0), (4096, 0), (0, 0)]);
    deliver(&mut dev, 3 * 4096, 60);
    assert_eq!(dev.recv(1).len(), 1);
    assert_eq!(dev.socket_mut().rx.ring.consumer_load(), 1);
    dev.progress();
    assert_eq!(dev.umem_mut().fq.ring.producer_load(), 4);
    assert_eq!(dev.available(), 4);
    assert!(dev.umem_mut().fq.see_consumed(1));
    dev.progress();
    assert_eq!(dev.umem_mut().fq.ring.producer_load(), 5);
    assert_eq!(dev.umem_mut().fq.ring.desc_at(4), (4 * 4096, 0));
    assert_eq!(dev.available(), 3);
}
