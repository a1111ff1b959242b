use async_net_stack_rs::device::buffer_pool::FramePool;
use async_net_stack_rs::device::PacketBuf;

#[test]
fn alloc_free_roundtrip_exhausts_and_reuses() {
    let mut pool = FramePool::new(4, 256, 4096);
    assert_eq!(pool.frame_size(), 256);
    assert_eq!(pool.num_frames(), 4);

    let mut got = Vec::new();
    for _ in 0..4 {
        got.push(pool.allocate().unwrap());
    }
    assert!(pool.allocate().is_none(), "pool should be exhausted");

    // All four indices should be distinct.
    let mut sorted = got.clone();
    sorted.sort_unstable();
    sorted.dedup();
    assert_eq!(sorted.len(), 4);

    // Free two, then realloc them.
    pool.free(got[1]);
    pool.free(got[3]);
    let a = pool.allocate().unwrap();
    let b = pool.allocate().unwrap();
    let mut reuse = vec![a, b];
    reuse.sort_unstable();
    let mut expected = vec![got[1], got[3]];
    expected.sort_unstable();
    assert_eq!(reuse, expected);
    assert!(pool.allocate().is_none());
}

#[test]
fn packet_buf_reads_writes_and_recycles() {
    let mut pool = FramePool::new(2, 64, 4096);
    let idx = pool.allocate().unwrap();

    {
        let mut buf: PacketBuf = pool.packet_buf(idx, 0);
        assert!(buf.is_empty());
        assert_eq!(buf.capacity(), 64);

        let data = b"hello zero-copy";
        let off = buf.data_offset();
        buf.as_mut_slice()[off..off + data.len()].copy_from_slice(data);
        buf.set_len(data.len());

        assert_eq!(buf.len(), data.len());
        assert_eq!(buf.as_slice(), data);
    } // dropped here -> recycled

    // The same frame must be allocatable again after the buffer dropped.
    let idx2 = pool.allocate().unwrap();
    assert_eq!(idx, idx2);
}

#[test]
fn explicit_recycle_and_drop_are_idempotent() {
    let mut pool = FramePool::new(2, 64, 4096);

    let idx = pool.allocate().unwrap();
    let buf = pool.packet_buf(idx, 4);
    buf.recycle(); // explicit recycle

    let idx2 = pool.allocate().unwrap();
    assert_eq!(idx, idx2);

    let buf = pool.packet_buf(idx2, 4);
    drop(buf); // Drop path
    let idx3 = pool.allocate().unwrap();
    assert_eq!(idx2, idx3);
}

#[test]
fn packet_buf_with_headroom() {
    let mut pool = FramePool::new(2, 256, 4096);
    let idx = pool.allocate().unwrap();

    {
        let mut buf = pool.packet_buf(idx, 0);
        // Default headroom was reserved; payload starts after it.
        let headroom = buf.data_offset();
        assert!(headroom > 0);
        assert_eq!(buf.len(), 0);
        assert_eq!(buf.as_slice(), &[]);

        // Write payload into the middle of the frame.
        let payload = b"hello zero-copy";
        let off = buf.data_offset();
        buf.as_mut_slice()[off..off + payload.len()].copy_from_slice(payload);
        buf.set_len(payload.len());

        assert_eq!(buf.as_slice(), payload);
        assert_eq!(buf.as_mut_packet(), payload);
    }
}

#[test]
fn push_and_pull_headers() {
    let mut pool = FramePool::new(2, 256, 4096);
    let idx = pool.allocate().unwrap();

    let mut buf = pool.packet_buf(idx, 0);

    // Simulate receiving an Ethernet+IP+TCP frame from a backend.
    // Start with TCP payload.
    let payload = b"HTTP/1.1 200 OK\r\n";
    buf.set_headroom(128); // reserve 128 bytes for headers
    let off = buf.data_offset();
    buf.as_mut_slice()[off..off + payload.len()].copy_from_slice(payload);
    buf.set_len(payload.len());

    // Now prepend headers as the packet moves up the stack.
    let ip_hdr = [0x45, 0x00, 0x00, 0x30]; // fake IPv4 header
    buf.push_header(&ip_hdr);
    assert_eq!(buf.len(), payload.len() + ip_hdr.len());
    assert_eq!(&buf.as_slice()[..ip_hdr.len()], &ip_hdr[..]);
    assert_eq!(&buf.as_slice()[ip_hdr.len()..], payload);

    let eth_hdr = [0xAA, 0xBB, 0xCC, 0xDD, 0xEE, 0xFF, 0x11, 0x22];
    buf.push_header(&eth_hdr);
    assert_eq!(buf.len(), payload.len() + ip_hdr.len() + eth_hdr.len());

    // Now parse it back: pull headers off as we go down the stack.
    buf.pull_header(eth_hdr.len());
    assert_eq!(&buf.as_slice()[..ip_hdr.len()], &ip_hdr[..]);

    buf.pull_header(ip_hdr.len());
    assert_eq!(buf.as_slice(), payload);

    // After pulling all headers, we're back to clean payload-only state.
    assert_eq!(buf.data_offset(), 128);
    assert_eq!(buf.len(), payload.len());

    // The full packet is still in frame memory if we look at the raw bytes.
    let full_packet: Vec<u8> = [eth_hdr.as_slice(), ip_hdr.as_slice(), payload.as_slice()].concat();

    assert_eq!(
        &buf.as_mut_slice()[116..116 + full_packet.len()],
        &full_packet[..]
    );
}

#[test]
fn into_parts_preserves_offset_and_len() {
    let mut pool = FramePool::new(2, 256, 4096);
    let idx = pool.allocate().unwrap();

    let mut buf = pool.packet_buf(idx, 0);
    let payload = b"test data";
    let off = buf.data_offset();
    buf.as_mut_slice()[off..off + payload.len()].copy_from_slice(payload);
    buf.set_len(payload.len());

    let (returned_idx, returned_len) = buf.into_parts();
    assert_eq!(returned_idx, idx);
    assert_eq!(returned_len, payload.len());
}

#[test]
fn alloc_n_returns_requested_frames() {
    let mut pool = FramePool::new(8, 64, 4096);
    let mut out = [0usize; 4];

    let n = pool.alloc_n(&mut out);
    assert_eq!(n, 4);

    // All distinct and in valid range.
    let mut sorted = out.to_vec();
    sorted.sort_unstable();
    sorted.dedup();
    assert_eq!(sorted.len(), 4);
    for &idx in &out {
        assert!(idx < 8);
    }
}

#[test]
fn alloc_n_partial_when_pool_low() {
    let mut pool = FramePool::new(3, 64, 4096);
    let mut out = [0usize; 5];

    // Only 3 available; returns what it can.
    let n = pool.alloc_n(&mut out);
    assert_eq!(n, 3);

    for i in 0..n {
        assert!(out[i] < 3);
    }
}

#[test]
fn alloc_n_zero_when_exhausted() {
    let mut pool = FramePool::new(2, 64, 4096);
    let mut out = [0usize; 2];

    pool.alloc_n(&mut out); // drain
    let mut out2 = [0usize; 1];
    assert_eq!(pool.alloc_n(&mut out2), 0);
}

#[test]
fn free_n_roundtrip_reuse() {
    let mut pool = FramePool::new(4, 64, 4096);
    let mut out = [0usize; 4];

    pool.alloc_n(&mut out);
    let saved = out; // [3, 2, 1, 0] if built in reverse order

    pool.free_n(&saved);

    let mut out2 = [0usize; 4];
    let n = pool.alloc_n(&mut out2);
    assert_eq!(n, 4);

    // LIFO: we should get the same indices back in reverse order.
    let mut first = saved.to_vec();
    first.sort_unstable();
    let mut second = out2.to_vec();
    second.sort_unstable();
    assert_eq!(first, second);
}

#[test]
fn alloc_n_then_free_n_idempotent() {
    let mut pool = FramePool::new(4, 64, 4096);
    let mut out = [0usize; 4];

    pool.alloc_n(&mut out);
    pool.free_n(&out);

    // Should be able to alloc all 4 again
    let mut out2 = [0usize; 4];
    assert_eq!(pool.alloc_n(&mut out2), 4);
}

#[test]
fn batch_alloc_to_packet_bufs_and_recycle() {
    let mut pool = FramePool::new(4, 256, 4096);
    let mut indices = [0usize; 4];

    let n = pool.alloc_n(&mut indices);
    assert_eq!(n, 4);

    let mut bufs: Vec<PacketBuf> = indices[..n]
        .iter()
        .map(|&idx| pool.packet_buf(idx, 0))
        .collect();

    // Use them
    for (i, buf) in bufs.iter_mut().enumerate() {
        let data = format!("frame-{}", i).into_bytes();
        let off = buf.data_offset();

        buf.as_mut_slice()[off..(off + data.len())].copy_from_slice(&data);
        buf.set_len(data.len());
    }

    // Drop all -> automatic recycle
    drop(bufs);

    // All frames back in pool
    let mut indices2 = [0usize; 4];
    assert_eq!(pool.alloc_n(&mut indices2), 4);

    // Verify reuse (same set, order may differ)
    let mut a = indices.to_vec();
    let mut b = indices2.to_vec();
    a.sort_unstable();
    b.sort_unstable();
    assert_eq!(a, b);
}

/// Five frames: one alone, four at once, and three of them come back.
#[test]
fn single_and_batch_allocation_share_the_pool() {
    let mut pool = FramePool::new(5, 64, 4096);
    let a = pool.allocate().unwrap();
    let mut batch = [0usize; 4];
    assert_eq!(pool.alloc_n(&mut batch), 4);
    assert!(pool.allocate().is_none());
    pool.free(a);
    pool.free_n(&[batch[0], batch[1]]);
    let mut reclaim = [0usize; 3];
    assert_eq!(pool.alloc_n(&mut reclaim), 3);
    assert_eq!(reclaim, [a, batch[0], batch[1]]);
    assert_eq!(pool.allocate(), None);
}

#[test]
fn frames_come_back_in_the_order_of_their_return() {
    let mut pool = FramePool::new(3, 32, 64);
    let a = pool.take(0).unwrap();
    let b = pool.take(0).unwrap();
    let c = pool.take(0).unwrap();
    assert_eq!((a.frame_index(), b.frame_index(), c.frame_index()), (0, 1, 2));
    drop(b);
    drop(c);
    drop(a);
    assert_eq!(pool.free_now(), 0);
    assert_eq!(pool.available(), 3);
    assert_eq!(pool.allocate(), Some(0));
    assert_eq!(pool.allocate(), Some(2));
    assert_eq!(pool.allocate(), Some(1));
    assert_eq!(pool.total_bytes(), 96);
}

#[test]
fn frames_keep_their_bytes() {
    let mut pool = FramePool::new(1, 8, 8);
    let mut buf = pool.take(8).unwrap();
    assert_eq!(buf.as_slice(), &[0; 8]);
    buf.as_mut_slice().copy_from_slice(&[1, 2, 3, 4, 5, 6, 7, 8]);
    drop(buf);
    pool.reclaim();
    let buf = pool.take(8).unwrap();
    assert_eq!(buf.as_slice(), &[1, 2, 3, 4, 5, 6, 7, 8]);
}

#[test]
fn a_kept_frame_stays_allocated_until_it_is_freed() {
    let mut pool = FramePool::new(1, 16, 16);
    let buf = pool.take(3).unwrap();
    let (idx, len) = buf.into_parts();
    assert_eq!((idx, len), (0, 3));
    assert_eq!(pool.available(), 0);
    pool.free(idx);
    assert_eq!(pool.available(), 1);
}

#[test]
fn pools_know_their_own_frames() {
    let mut a = FramePool::new(1, 16, 16);
    let b = FramePool::new(1, 16, 16);
    let buf = a.take(0).unwrap();
    assert!(buf.belongs_to(&a));
    assert!(!buf.belongs_to(&b));
    assert!(!PacketBuf::default().belongs_to(&a));
}

#[test]
fn packets_outlive_their_pool() {
    let mut pool = FramePool::new(2, 16, 16);
    let mut buf = pool.take(2).unwrap();
    buf.as_mut_packet().copy_from_slice(&[7, 9]);
    drop(pool);
    assert_eq!(buf.as_slice(), &[7, 9]);
}

#[test]
fn headroom_is_a_quarter_but_at_most_128_and_yields_to_the_packet() {
    let mut small = FramePool::new(3, 64, 64);
    assert_eq!(small.take(0).unwrap().data_offset(), 16);
    let mut large = FramePool::new(3, 2048, 64);
    assert_eq!(large.take(0).unwrap().data_offset(), 128);
    assert_eq!(large.take(2000).unwrap().data_offset(), 48);
    let full = large.take(2048).unwrap();
    assert_eq!((full.data_offset(), full.tail_capacity()), (0, 2048));
}

#[test]
fn batches_come_in_steps_of_sixty_four() {
    let mut pool = FramePool::new(70, 16, 16);
    let mut out = vec![PacketBuf::default()];
    assert_eq!(pool.alloc_batch(66, &mut out), 66);
    assert_eq!(out.len(), 67);
    // The stack is 69, 68, .., 0: the first step is its top, in stack order.
    assert_eq!(out[1].frame_index(), 63);
    assert_eq!(out[64].frame_index(), 0);
    assert_eq!(out[65].frame_index(), 65);
    assert_eq!(out[66].frame_index(), 64);
    assert_eq!(pool.alloc_batch(10, &mut out), 4);
    assert_eq!(pool.alloc_batch(10, &mut out), 0);
}

#[test]
fn long_lists_of_returned_frames_are_taken_back() {
    let mut pool = FramePool::new(50_000, 1, 1);
    let mut out = Vec::new();
    assert_eq!(pool.alloc_batch(50_000, &mut out), 50_000);
    drop(out);
    assert_eq!(pool.available(), 50_000);
    assert_eq!(pool.alloc_batch(50_000, &mut Vec::new()), 50_000);
    drop(pool);
}

#[test]
fn recycled_frames_are_free_and_kept_ones_are_not() {
    let mut pool = FramePool::new(3, 64, 64);
    let a = pool.take(0).unwrap();
    let b = pool.take(0).unwrap();
    let c = pool.take(0).unwrap();
    assert_eq!((a.frame_index(), b.frame_index(), c.frame_index()), (0, 1, 2));
    a.recycle();
    assert_eq!(b.into_parts(), (1, 0));
    drop(c);
    assert_eq!(pool.available(), 2);
    assert_eq!(pool.take(0).unwrap().frame_index(), 2);
    pool.free(1);
    assert_eq!(pool.available(), 3);
}
