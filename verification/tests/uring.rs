//! The io_uring device, with the kernel's side of the ring played here.
use async_net_stack_rs::device::backend::uring::ring::{
    after_cancel, after_enter, cancel_everything, make_request, plan_mappings, Cancel, CancelStep,
    Cqe, Offsets, Params, Ring, Sqe,
};
use async_net_stack_rs::device::backend::uring::{filled, Step};
use async_net_stack_rs::device::buffer_pool::FramePool;
use async_net_stack_rs::device::{PacketBuf, UringConfig, UringStats, UringTunDevice};
use async_net_stack_rs::errno::Errno;
use async_net_stack_rs::error::IoError;
use std::mem;

#[test]
fn abi_sizes() {
    assert_eq!(mem::size_of::<Params>(), 120);
    assert_eq!(mem::size_of::<Offsets>(), 40);
    assert_eq!(mem::size_of::<Sqe>(), 64);
    assert_eq!(mem::size_of::<Cqe>(), 16);
    assert_eq!(mem::size_of::<Cancel>(), 64);
}

#[test]
fn depths_must_be_consistent() {
    let cfg = UringConfig::default();
    assert_eq!((cfg.entries, cfg.rx_depth), (128, 64));
    assert_eq!(cfg.validate(), Ok(()));
    for (entries, rx_depth) in [(1, 0), (3, 1), (8192, 1), (16, 16)] {
        let cfg = UringConfig { entries, rx_depth };
        assert_eq!(cfg.validate(), Err(IoError::UringDepth));
    }
    assert_eq!(
        UringTunDevice::check(UringConfig { entries: 16, rx_depth: 8 }, 8),
        Err(IoError::UringReserve)
    );
}

#[test]
fn requests_name_registered_files() {
    let read = make_request(true, 0x1000, 64, 3);
    assert_eq!((read.opcode, read.flags, read.fd), (22, 1, 0));
    assert_eq!((read.address, read.len, read.user_data), (0x1000, 64, 3));
    assert_eq!(make_request(false, 0, 0, 0).opcode, 23);
    let cancel = cancel_everything();
    assert_eq!((cancel.fd, cancel.flags, cancel.seconds), (-1, 5, 1));
}

#[test]
fn signals_are_no_failures() {
    let errno = Errno::host();
    assert_eq!(after_enter(Ok(()), errno), Ok(()));
    assert_eq!(after_enter(Err(errno.interrupted), errno), Ok(()));
    assert_eq!(after_enter(Err(errno.again), errno), Ok(()));
    assert_eq!(
        after_enter(Err(errno.invalid), errno),
        Err(IoError::Os(errno.invalid))
    );
    assert_eq!(after_cancel(Ok(()), errno), CancelStep::Done);
    assert_eq!(after_cancel(Err(errno.missing), errno), CancelStep::Done);
    assert_eq!(after_cancel(Err(errno.interrupted), errno), CancelStep::Again);
    assert_eq!(
        after_cancel(Err(errno.invalid), errno),
        CancelStep::Failed(IoError::Os(errno.invalid))
    );
}

#[test]
fn mappings_cover_their_queues() {
    let mut params = Params::default();
    params.sq_entries = 16;
    params.cq_entries = 32;
    params.sq.array_or_flags = 100;
    params.cq.dropped_or_cqes = 200;
    assert_eq!(plan_mappings(&params), Err(IoError::UringUnsupported));
    params.features = 2;
    let lens = plan_mappings(&params).unwrap();
    assert_eq!((lens.sq, lens.cq, lens.sqes), (164, 712, 1024));
}

#[test]
fn rings_fill_and_drain() {
    let mut ring = Ring::new(2, 4);
    assert_eq!((ring.entries(), ring.free_slots()), (2, 2));
    ring.sq_tail = u32::MAX;
    ring.sq_head = u32::MAX;
    ring.push(make_request(true, 1, 1, 1));
    ring.push(make_request(true, 2, 2, 2));
    assert_eq!(ring.free_slots(), 0);
    assert_eq!(ring.sq_tail, 1);
    assert_eq!(ring.sqes[1].user_data, 1);
    assert_eq!(ring.sqes[0].user_data, 2);
    assert!(ring.pop().is_none());
    ring.cqes[0] = Cqe { user_data: 9, result: 5, flags: 0 };
    ring.cq_tail = 1;
    assert_eq!(ring.pop().unwrap().user_data, 9);
    assert!(ring.pop().is_none());
}

fn device(entries: usize, rx_depth: usize, frames: usize) -> UringTunDevice {
    UringTunDevice::from_parts(
        String::from("tun0"),
        FramePool::new(frames, 2048, 4096),
        UringConfig { entries, rx_depth },
        entries as u32,
        2 * entries as u32,
    )
    .ok()
    .unwrap()
}

fn locate(buf: &PacketBuf) -> u64 {
    buf.as_slice().as_ptr() as u64
}

/// Lets the kernel complete a request.
fn complete(dev: &mut UringTunDevice, user_data: u64, result: i32) {
    let ring = dev.ring_mut();
    let at = ring.cq_tail as usize % ring.cqes.len();
    ring.cqes[at] = Cqe { user_data, result, flags: 0 };
    ring.cq_tail = ring.cq_tail.wrapping_add(1);
}

fn frame(dev: &mut UringTunDevice, len: usize) -> PacketBuf {
    let mut buf = dev.allocate().unwrap();
    buf.set_len(len);
    buf
}

#[test]
fn reads_stay_within_the_budget() {
    let mut dev = device(8, 3, 16);
    assert_eq!(dev.name(), "tun0");
    assert_eq!(dev.fill_reads(locate), 3);
    assert_eq!(dev.fill_reads(locate), 0);
    assert_eq!(dev.stats().rx_submitted, 3);
    let sqes = dev.ring_mut().sqes.clone();
    for i in 0..3 {
        assert_eq!(sqes[i].opcode, 22);
        assert_eq!(sqes[i].user_data, i as u64);
        assert_eq!(sqes[i].len, 2048 - 128);
        assert_ne!(sqes[i].address, 0);
    }
    assert_eq!(dev.ring_mut().sq_tail, 3);
}

#[test]
fn reads_need_frames() {
    let mut dev = device(8, 3, 4);
    let mut held = Vec::new();
    assert_eq!(dev.alloc_batch(3, &mut held), 3);
    assert_eq!(dev.fill_reads(locate), 1);
    drop(held);
    assert_eq!(dev.fill_reads(locate), 2);
}

#[test]
fn packets_that_were_read_are_handed_out_in_order() {
    let errno = Errno::host();
    let mut dev = device(8, 3, 16);
    dev.fill_reads(locate);
    complete(&mut dev, 1, 60);
    complete(&mut dev, 0, 40);
    assert_eq!(dev.settle(errno), Step::Done);
    assert_eq!(dev.stats().rx_completed, 2);
    assert_eq!(dev.fill_reads(locate), 0);
    let mut out = Vec::new();
    assert_eq!(dev.hand_out(1, &mut out), 1);
    assert_eq!(dev.hand_out(8, &mut out), 1);
    assert_eq!((out[0].len(), out[1].len()), (60, 40));
    assert_eq!(dev.fill_reads(locate), 2);
}

#[test]
fn writes_are_queued_until_the_ring_is_full() {
    let errno = Errno::host();
    let mut dev = device(2, 1, 16);
    let mut frames = vec![
        frame(&mut dev, 10),
        frame(&mut dev, 20),
        frame(&mut dev, 30),
    ];
    assert_eq!(dev.queue_writes(&mut frames, locate), Ok(2));
    assert_eq!(dev.pending_tx(), 2);
    assert!(frames[0].is_empty() && frames[1].is_empty());
    assert_eq!(frames[2].len(), 30);
    assert_eq!(dev.ring_mut().sqes[0].opcode, 23);
    assert_eq!(dev.ring_mut().sqes[1].len, 20);
    assert_eq!(dev.begin_progress(errno), Step::Submit);
    dev.ring_mut().sq_head = 2;
    complete(&mut dev, 0, 10);
    assert_eq!(dev.finish_progress(Ok(()), errno), Step::Done);
    assert_eq!(dev.pending_tx(), 1);
    let stats = dev.stats();
    assert_eq!((stats.tx_completed, stats.tx_completed_bytes), (1, 10));
    assert_eq!(stats.enter_calls, 1);
    assert_eq!(dev.queue_writes(&mut frames[2..], locate), Ok(1));
}

#[test]
fn empty_frames_are_refused_and_nothing_is_queued() {
    let mut dev = device(4, 1, 16);
    let mut frames = vec![frame(&mut dev, 10), frame(&mut dev, 0)];
    assert_eq!(
        dev.queue_writes(&mut frames, locate),
        Err(IoError::UringFrame)
    );
    assert_eq!(frames[0].len(), 10);
    assert_eq!(dev.pending_tx(), 0);
}

#[test]
fn each_completion_is_counted_once() {
    let errno = Errno::host();
    let mut dev = device(8, 4, 16);
    dev.fill_reads(locate);
    let mut frames = vec![frame(&mut dev, 10), frame(&mut dev, 20)];
    assert_eq!(dev.queue_writes(&mut frames, locate), Ok(2));
    complete(&mut dev, 0, -errno.again);
    complete(&mut dev, 1, -errno.interrupted);
    assert_eq!(dev.settle(errno), Step::Done);
    assert_eq!(dev.stats().rx_errors, 0);
    complete(&mut dev, 2, 0);
    assert_eq!(dev.settle(errno), Step::Fail(IoError::TruncatedRead));
    complete(&mut dev, 3, 2048 - 128);
    complete(&mut dev, 4, 9);
    complete(&mut dev, 5, -errno.invalid);
    assert_eq!(dev.settle(errno), Step::Fail(IoError::TruncatedRead));
    assert_eq!(dev.settle(errno), Step::Done);
    let stats = dev.stats();
    assert_eq!((stats.rx_errors, stats.tx_errors), (2, 2));
    assert_eq!(stats.last_errno, Some(errno.invalid));
    let mut more = vec![frame(&mut dev, 10)];
    assert_eq!(dev.queue_writes(&mut more, locate), Ok(1));
    complete(&mut dev, 5, 9);
    assert_eq!(dev.settle(errno), Step::Fail(IoError::ShortWrite));
    assert_eq!(dev.stats().last_errno, None);
}

#[test]
fn completions_of_no_request_are_noticed() {
    let errno = Errno::host();
    let mut dev = device(8, 4, 16);
    complete(&mut dev, 0, 5);
    assert_eq!(dev.settle(errno), Step::Broken(0));
    let mut other = device(8, 4, 16);
    complete(&mut other, 99, 5);
    assert_eq!(other.reap(errno), Err(99));
}

#[test]
fn failed_submissions_keep_their_requests() {
    let errno = Errno::host();
    let mut dev = device(8, 4, 16);
    let mut frames = vec![frame(&mut dev, 10)];
    assert_eq!(dev.queue_writes(&mut frames, locate), Ok(1));
    assert_eq!(dev.begin_progress(errno), Step::Submit);
    let failure = IoError::Os(errno.invalid);
    assert_eq!(
        dev.finish_progress(Err(failure), errno),
        Step::Fail(failure)
    );
    assert_eq!(dev.stats().submit_errors, 1);
    assert_eq!(dev.stats().last_errno, Some(errno.invalid));
    assert_eq!(dev.pending_tx(), 1);
    dev.defer(failure);
    assert_eq!(dev.begin_progress(errno), Step::Fail(failure));
}

#[test]
fn abandoned_requests_hand_out_their_frames() {
    let mut dev = device(8, 2, 16);
    dev.fill_reads(locate);
    let mut frames = vec![frame(&mut dev, 10)];
    assert_eq!(dev.queue_writes(&mut frames, locate), Ok(1));
    let outstanding = dev.abandon();
    assert_eq!(outstanding.len(), 3);
    assert_eq!(outstanding[2].len(), 10);
    assert_eq!(dev.pending_tx(), 0);
    assert!(dev.abandon().is_empty());
    assert_eq!(dev.frame_size(), 2048);
    assert_eq!(UringStats::default().enter_calls, 0);
}

#[test]
fn a_filled_frame_holds_what_the_kernel_left() {
    let mut pool = FramePool::new(1, 64, 64);
    let mut buf = pool.take(0).unwrap();
    let at = buf.data_offset();
    buf.as_mut_slice()[at..at + 3].copy_from_slice(b"abc");
    let packet = filled(buf, 3);
    assert_eq!(packet.as_slice(), b"abc");
    assert_eq!(packet.data_offset(), at);
    assert_eq!(packet.frame_index(), 0);
    assert!(packet.belongs_to(&pool));
}
