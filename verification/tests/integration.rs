//! The device interface, end to end over the in-memory device.

use async_net_stack_rs::device::buffer_pool::FramePool;
use async_net_stack_rs::device::{Device, LoopbackDevice, PacketBuf};
use async_net_stack_rs::error::IoError;

#[test]
fn public_api_send_recv_roundtrip() {
    let mut dev = LoopbackDevice::with_capacity(16, 16);

    let mut tx = Vec::new();
    for i in 0..8u8 {
        let mut buf = dev.allocate().unwrap();
        let off = buf.data_offset();
        let payload = [i; 1500];
        buf.as_mut_slice()[off..off + payload.len()].copy_from_slice(&payload);
        buf.set_len(payload.len());
        tx.push(buf);
    }

    assert_eq!(dev.send(&mut tx).unwrap(), 8);

    let mut rx: Vec<PacketBuf> = Vec::new();
    assert_eq!(dev.recv(8, &mut rx).unwrap(), 8);

    for (i, buf) in rx.iter().enumerate() {
        assert_eq!(buf.len(), 1500);
        assert!(buf.as_slice().iter().all(|&b| b == i as u8));
    }
}

#[test]
fn public_api_alloc_recycles_on_drop() {
    let mut dev = LoopbackDevice::with_capacity(2, 2);

    let a = dev.allocate().unwrap();
    let b = dev.allocate().unwrap();
    assert!(dev.allocate().is_none(), "pool should be exhausted");

    drop(a);
    drop(b);
    assert!(dev.allocate().is_some(), "dropped buffers should be recycled");
}

#[test]
fn packets_survive_device_move_and_drop() {
    let mut dev = LoopbackDevice::new();
    let mut packet = dev.allocate().unwrap();
    packet.set_len(5);
    packet.as_mut_packet().copy_from_slice(b"alive");
    let mut moved = Box::new(dev);
    let another = moved.allocate().unwrap();
    drop(moved);
    assert_eq!(packet.as_slice(), b"alive");
    drop(another);
    drop(packet);
}

#[test]
fn partial_send_can_be_retried_and_slots_are_safe() {
    let mut dev = LoopbackDevice::with_capacity(4, 1);
    let mut tx = Vec::new();
    for value in [7, 9] {
        let mut buf = dev.allocate().unwrap();
        buf.set_len(1);
        buf.as_mut_packet()[0] = value;
        tx.push(buf);
    }
    assert_eq!(dev.send(&mut tx).unwrap(), 1);
    assert!(tx[0].as_slice().is_empty());
    assert!(tx[0].as_mut_slice().is_empty());
    assert_eq!(tx[1].as_slice(), &[9]);
    let mut rx = Vec::new();
    assert_eq!(dev.recv(1, &mut rx).unwrap(), 1);
    assert_eq!(rx[0].as_slice(), &[7]);
    assert_eq!(dev.send(&mut tx[1..]).unwrap(), 1);
    assert_eq!(dev.recv(1, &mut rx).unwrap(), 1);
    assert_eq!(rx[0].as_slice(), &[9]);
}

#[test]
fn exhausted_receive_does_not_lose_queued_packets() {
    let mut dev = LoopbackDevice::with_capacity(1, 1);
    let mut tx = vec![dev.allocate().unwrap()];
    tx[0].set_len(1);
    tx[0].as_mut_packet()[0] = 42;
    dev.send(&mut tx).unwrap();
    let held = dev.allocate().unwrap();
    let mut rx = Vec::new();
    assert_eq!(dev.recv(1, &mut rx).unwrap(), 0);
    assert_eq!(dev.queued(), 1);
    drop(held);
    assert_eq!(dev.recv(1, &mut rx).unwrap(), 1);
    assert_eq!(rx[0].as_slice(), &[42]);
}

fn frame(dev: &mut LoopbackDevice, payload: &[u8]) -> PacketBuf {
    let mut buf = dev.allocate().unwrap();
    buf.set_len(payload.len());
    buf.as_mut_packet().copy_from_slice(payload);
    buf
}

#[test]
fn packets_come_out_in_the_order_they_went_in() {
    let mut dev = LoopbackDevice::with_capacity(8, 8);
    let mut tx = vec![frame(&mut dev, b"first"), frame(&mut dev, b"")];
    assert_eq!(dev.send(&mut tx).unwrap(), 2);
    let mut more = vec![frame(&mut dev, b"third")];
    assert_eq!(dev.send(&mut more).unwrap(), 1);
    assert_eq!(dev.queued(), 3);
    let mut rx = Vec::new();
    assert_eq!(dev.recv(2, &mut rx).unwrap(), 2);
    assert_eq!(rx[0].as_slice(), b"first");
    assert_eq!(rx[1].as_slice(), b"");
    assert_eq!(dev.recv(2, &mut rx).unwrap(), 1);
    assert_eq!(rx[0].as_slice(), b"third");
}

#[test]
fn frames_without_a_slot_stay_with_the_sender() {
    let mut dev = LoopbackDevice::with_capacity(4, 1);
    let mut tx = vec![
        frame(&mut dev, b"a"),
        frame(&mut dev, b"b"),
        frame(&mut dev, b"c"),
    ];
    assert_eq!(dev.dropped(), 0);
    assert_eq!(dev.send(&mut tx).unwrap(), 1);
    assert_eq!(dev.dropped(), 0);
    assert_eq!(tx[1].as_slice(), b"b");
    assert_eq!(dev.send(&mut tx[1..]).unwrap(), 0);
    assert_eq!(dev.dropped(), 0);
    assert_eq!(tx[2].as_slice(), b"c");
    let mut rx = Vec::new();
    assert_eq!(dev.recv(1, &mut rx).unwrap(), 1);
    assert_eq!(dev.send(&mut tx[1..]).unwrap(), 1);
}

#[test]
fn a_frame_longer_than_a_slot_is_refused() {
    let mut pool = FramePool::new(1, 4096, 4096);
    let idx = pool.allocate().unwrap();
    let mut tx = vec![pool.packet_buf(idx, 2049)];
    let mut dev = LoopbackDevice::new();
    assert_eq!(dev.send(&mut tx).unwrap_err(), IoError::FrameTooLong);
    assert_eq!(tx[0].len(), 2049);
    assert_eq!(dev.queued(), 0);
    tx[0].set_len(2048);
    assert_eq!(dev.send(&mut tx).unwrap(), 1);
}

#[test]
fn batches_append_empty_frames() {
    let mut dev = LoopbackDevice::with_capacity(3, 1);
    let mut out = vec![frame(&mut dev, b"kept")];
    assert_eq!(dev.alloc_batch(8, &mut out), 2);
    assert_eq!(out.len(), 3);
    assert_eq!(out[0].as_slice(), b"kept");
    assert!(out[1].is_empty() && out[2].is_empty());
    assert_eq!(dev.frame_size(), 2048);
}

#[test]
fn a_device_gives_each_of_its_frames_and_then_none() {
    let mut dev = LoopbackDevice::with_capacity(3, 1);
    let mut held = Vec::new();
    for _ in 0..3 {
        let buf = dev.allocate().unwrap();
        assert_eq!(buf.capacity(), 2048);
        assert_eq!(buf.data_offset(), 128);
        assert_eq!(buf.tail_capacity(), 2048 - 128);
        held.push(buf);
    }
    let numbers: Vec<usize> = held.iter().map(|buf| buf.frame_index()).collect();
    assert_eq!(numbers, [0, 1, 2]);
    assert!(dev.allocate().is_none());
    held.remove(1);
    assert_eq!(dev.allocate().unwrap().frame_index(), 1);
}

#[test]
fn batches_stop_only_when_nothing_is_left() {
    let mut dev = LoopbackDevice::with_capacity(5, 1);
    let mut out = Vec::new();
    assert_eq!(dev.alloc_batch(2, &mut out), 2);
    assert_eq!(dev.alloc_batch(9, &mut out), 3);
    assert_eq!(out.len(), 5);
    assert_eq!(dev.alloc_batch(9, &mut out), 0);
    assert!(dev.allocate().is_none());
}
