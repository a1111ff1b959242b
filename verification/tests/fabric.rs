//! The simulated fabric, seen from its ports.
use async_net_stack_rs::addr::Ipv4Addr;
use async_net_stack_rs::device::buffer_pool::FramePool;
use async_net_stack_rs::device::{Device, PacketBuf};
use async_net_stack_rs::error::{ErrorKind, IoError};
use async_net_stack_rs::simulation::fabric::Fate;
use async_net_stack_rs::simulation::{Fabric, Link, Network};
use async_net_stack_rs::time::Duration;
use async_net_stack_rs::transport::udp::{build_ipv4, parse_ipv4};

fn ip(n: u8) -> Ipv4Addr {
    Ipv4Addr::new(10, 0, 0, n)
}

/// A fabric with ports 10.0.0.1 and so on, each with this room.
fn fabric(ports: u8, queue: usize) -> Fabric {
    let mut fabric = Fabric::new();
    for n in 1..=ports {
        assert_eq!(fabric.port(&[ip(n)], 16, queue), Ok(n as usize - 1));
    }
    fabric
}

fn packet(fabric: &mut Fabric, from: usize, to: Ipv4Addr, payload: &[u8]) -> PacketBuf {
    let mut buf = fabric.allocate(from).unwrap();
    build_ipv4(
        &mut buf,
        (ip(from as u8 + 1).octets(), 1),
        (to.octets(), 2),
        payload,
        0,
    )
    .unwrap();
    buf
}

fn received(fabric: &mut Fabric, at: usize) -> Vec<Vec<u8>> {
    let mut out = Vec::new();
    fabric.recv(at, 64, &mut out);
    out.iter()
        .map(|buf| parse_ipv4(buf.as_slice()).unwrap().payload.to_vec())
        .collect()
}

#[test]
fn ports_need_room_and_addresses_of_their_own() {
    let mut fabric = fabric(1, 4);
    for (addresses, frames, queue) in [
        (vec![], 1, 1),
        (vec![ip(2)], 0, 1),
        (vec![ip(2)], 1, 0),
        (vec![ip(1)], 1, 1),
        (vec![Ipv4Addr::broadcast()], 1, 1),
        (vec![Ipv4Addr::new(224, 0, 0, 1)], 1, 1),
        (vec![Ipv4Addr::new(0, 0, 0, 0)], 1, 1),
    ] {
        assert_eq!(
            fabric.port(&addresses, frames, queue),
            Err(IoError::PortSpec)
        );
    }
    assert_eq!(fabric.port(&[ip(2), ip(3), ip(2)], 1, 1), Ok(1));
    assert_eq!(fabric.num_ports(), 2);
}

#[test]
fn unicast_reaches_its_recipient_alone() {
    let mut fabric = fabric(3, 4);
    let mut frames = [packet(&mut fabric, 0, ip(2), b"hi")];
    assert_eq!(fabric.send(0, &mut frames), Ok(1));
    assert_eq!(fabric.queued(1), 1);
    assert_eq!(fabric.queued(2), 0);
    assert_eq!(received(&mut fabric, 1), [b"hi"]);
    assert!(received(&mut fabric, 2).is_empty());
    assert_eq!(fabric.stats().delivered, 1);
}

#[test]
fn unknown_destinations_are_counted() {
    let mut fabric = fabric(2, 4);
    let mut frames = [packet(&mut fabric, 0, ip(9), b"hi")];
    assert_eq!(fabric.send(0, &mut frames), Ok(1));
    assert_eq!(fabric.stats().unroutable, 1);
}

#[test]
fn a_full_queue_changes_nothing_but_a_count() {
    let mut fabric = fabric(2, 1);
    let mut frames = [
        packet(&mut fabric, 0, ip(2), b"a"),
        packet(&mut fabric, 0, ip(2), b"b"),
    ];
    assert_eq!(fabric.send(0, &mut frames), Ok(1));
    assert!(frames[0].is_empty());
    assert_eq!(fabric.stats().backpressure, 1);
    assert_eq!(fabric.transmit(0, &mut frames[1]), Fate::Held);
    assert_eq!(parse_ipv4(frames[1].as_slice()).unwrap().payload, b"b");
    assert_eq!(fabric.queued(1), 1);
    assert_eq!(received(&mut fabric, 1), [b"a"]);
    assert_eq!(fabric.transmit(0, &mut frames[1]), Fate::Taken);
    assert_eq!(received(&mut fabric, 1), [b"b"]);
}

#[test]
fn only_ipv4_packets_are_carried() {
    let mut fabric = fabric(2, 4);
    let mut buf = fabric.allocate(0).unwrap();
    buf.set_len(20);
    buf.as_mut_packet()[0] = 0x60;
    let mut frames = [buf];
    assert_eq!(fabric.send(0, &mut frames), Err(IoError::NotIpv4));
    assert_eq!(frames[0].len(), 20);
    frames[0].as_mut_packet()[0] = 0x45;
    frames[0].set_len(19);
    assert_eq!(fabric.transmit(0, &mut frames[0]), Fate::Refused);
}

#[test]
fn partitions_lose_everything_until_they_heal() {
    let mut fabric = fabric(2, 8);
    let cut = Link { partitioned: true, ..Link::default() };
    fabric.set_link(0, 1, cut);
    for _ in 0..3 {
        let mut frames = [packet(&mut fabric, 0, ip(2), b"lost")];
        assert_eq!(fabric.send(0, &mut frames), Ok(1));
    }
    assert_eq!(fabric.stats().fault_drops, 3);
    let mut back = [packet(&mut fabric, 1, ip(1), b"back")];
    assert_eq!(fabric.send(1, &mut back), Ok(1));
    assert_eq!(received(&mut fabric, 0), [b"back"]);
    fabric.set_link(0, 1, Link::default());
    let mut frames = [packet(&mut fabric, 0, ip(2), b"ok")];
    assert_eq!(fabric.send(0, &mut frames), Ok(1));
    assert_eq!(received(&mut fabric, 1), [b"ok"]);
}

#[test]
fn every_third_packet_is_lost() {
    let mut fabric = fabric(2, 16);
    fabric.set_link(0, 1, Link { drop_every: 3, ..Link::default() });
    for n in 1..=7u8 {
        let mut frames = [packet(&mut fabric, 0, ip(2), &[n])];
        assert_eq!(fabric.send(0, &mut frames), Ok(1));
    }
    assert_eq!(
        received(&mut fabric, 1),
        [vec![1], vec![2], vec![4], vec![5], vec![7]]
    );
    assert_eq!(fabric.stats().fault_drops, 2);
}

#[test]
fn delayed_packets_arrive_when_they_are_due() {
    let mut fabric = fabric(2, 8);
    let slow = Link { delay: Duration::from_millis(10), ..Link::default() };
    fabric.set_link(0, 1, slow);
    let mut first = [packet(&mut fabric, 0, ip(2), b"slow")];
    fabric.send(0, &mut first).unwrap();
    fabric.set_link(0, 1, Link::default());
    let mut second = [packet(&mut fabric, 0, ip(2), b"fast")];
    fabric.send(0, &mut second).unwrap();
    assert_eq!(fabric.queued(1), 2);
    assert_eq!(received(&mut fabric, 1), [b"fast"]);
    fabric.advance(Duration::from_nanos(9_999_999)).unwrap();
    assert!(received(&mut fabric, 1).is_empty());
    fabric.advance(Duration::from_nanos(1)).unwrap();
    assert_eq!(fabric.now(), Duration::from_millis(10));
    assert_eq!(received(&mut fabric, 1), [b"slow"]);
}

#[test]
fn packets_due_together_keep_their_order() {
    let mut fabric = fabric(2, 8);
    fabric.set_link(0, 1, Link { delay: Duration::from_secs(1), ..Link::default() });
    for n in 0..4u8 {
        let mut frames = [packet(&mut fabric, 0, ip(2), &[n])];
        fabric.send(0, &mut frames).unwrap();
    }
    fabric.advance(Duration::from_secs(2)).unwrap();
    assert_eq!(
        received(&mut fabric, 1),
        [vec![0], vec![1], vec![2], vec![3]]
    );
}

#[test]
fn broadcasts_reach_everyone_else_once() {
    let mut fabric = fabric(3, 4);
    let mut frames = [packet(&mut fabric, 0, Ipv4Addr::broadcast(), b"all")];
    assert_eq!(fabric.send(0, &mut frames), Ok(1));
    assert!(received(&mut fabric, 0).is_empty());
    assert_eq!(received(&mut fabric, 1), [b"all"]);
    assert_eq!(received(&mut fabric, 2), [b"all"]);
    assert_eq!(fabric.stats().delivered, 2);
}

#[test]
fn closed_ports_receive_nothing() {
    let mut fabric = fabric(2, 4);
    fabric.close(1);
    let mut frames = [packet(&mut fabric, 0, ip(2), b"hi")];
    assert_eq!(fabric.send(0, &mut frames), Ok(1));
    assert_eq!(fabric.stats().unroutable, 1);
    assert_eq!(fabric.queued(1), 0);
    assert_eq!(fabric.port(&[ip(2)], 1, 1), Ok(2));
}

#[test]
fn the_clock_does_not_overflow() {
    let mut fabric = fabric(1, 1);
    assert_eq!(fabric.advance(Duration::from_secs(u64::MAX)), Ok(()));
    assert_eq!(
        fabric.advance(Duration::from_secs(1)),
        Err(IoError::ClockOverflow)
    );
    assert_eq!(fabric.now(), Duration::from_secs(u64::MAX));
}

#[test]
fn devices_belong_to_one_network() {
    let net = Network::default();
    let other = Network::default();
    let a = net.port(&[ip(1)], 4, 4).unwrap();
    let b = other.port(&[ip(2)], 4, 4).unwrap();
    assert_eq!(
        net.set_link(&a, &b, Link::default()),
        Err(IoError::ForeignPort)
    );
    assert_eq!(IoError::ForeignPort.kind(), ErrorKind::InvalidInput);
    let twin = net.clone();
    let c = twin.port(&[ip(2)], 4, 4).unwrap();
    assert_eq!(net.set_link(&a, &c, Link::default()), Ok(()));
    assert!(matches!(net.port(&[ip(2)], 4, 4), Err(IoError::PortSpec)));
}

#[test]
fn dropping_a_device_frees_its_address() {
    let net = Network::default();
    let mut a = net.port(&[ip(1)], 4, 4).unwrap();
    let b = net.port(&[ip(2)], 4, 4).unwrap();
    assert_eq!(b.queued(), 0);
    drop(b);
    let mut buf = a.allocate().unwrap();
    build_ipv4(&mut buf, ([10, 0, 0, 1], 1), ([10, 0, 0, 2], 2), b"x", 0).unwrap();
    assert_eq!(a.send(&mut [buf]).unwrap(), 1);
    assert_eq!(net.stats().unroutable, 1);
    assert!(net.port(&[ip(2)], 4, 4).is_ok());
    assert_eq!(a.frame_size(), 2048);
}

#[test]
fn frames_of_another_pool_can_be_sent() {
    let mut fabric = fabric(2, 4);
    let mut pool = FramePool::new(1, 256, 4096);
    let idx = pool.allocate().unwrap();
    let mut buf = pool.packet_buf(idx, 0);
    build_ipv4(&mut buf, ([10, 0, 0, 1], 1), ([10, 0, 0, 2], 2), b"x", 0).unwrap();
    assert_eq!(fabric.transmit(0, &mut buf), Fate::Taken);
    assert_eq!(received(&mut fabric, 1), [b"x"]);
    assert!(pool.allocate().is_some());
}
