//! The endpoint pool: discovery, leases and delivery.
use async_net_stack_rs::addr::{Ipv4Addr, SocketAddrV4};
use async_net_stack_rs::api::endpoints::{make_message, Endpoints, Meaning, ADVERT, QUERY};
use async_net_stack_rs::api::{Action, Service, UdpPool};
use async_net_stack_rs::device::buffer_pool::FramePool;
use async_net_stack_rs::device::{Device, LoopbackDevice, PacketBuf};
use async_net_stack_rs::error::{ErrorKind, IoError};
use async_net_stack_rs::time::Duration;
use async_net_stack_rs::transport::udp::{build_ipv4, parse_ipv4};

fn at(n: u8, port: u16) -> SocketAddrV4 {
    SocketAddrV4::new(Ipv4Addr::new(10, 0, 0, n), port)
}

fn service(n: u8, id: u32) -> Service {
    Service { address: at(n, 9000), id }
}

fn secs(n: u64) -> Duration {
    Duration::from_secs(n)
}

fn frame(source: SocketAddrV4, destination: SocketAddrV4, payload: &[u8]) -> PacketBuf {
    let mut pool = FramePool::new(1, 2048, 4096);
    let idx = pool.allocate().unwrap();
    let mut buf = pool.packet_buf(idx, 0);
    build_ipv4(
        &mut buf,
        (source.ip().octets(), source.port()),
        (destination.ip().octets(), destination.port()),
        payload,
        0,
    )
    .unwrap();
    buf
}

/// A pool over a device that receives what it sends.
fn pool(queue: usize, peers: usize) -> UdpPool<LoopbackDevice> {
    UdpPool::new(LoopbackDevice::new(), queue, peers).ok().unwrap()
}

#[test]
fn pools_need_room() {
    assert!(matches!(
        UdpPool::new(LoopbackDevice::new(), 0, 1),
        Err(IoError::ZeroCapacity)
    ));
    assert!(matches!(
        UdpPool::new(LoopbackDevice::new(), 1, 0),
        Err(IoError::ZeroCapacity)
    ));
}

#[test]
fn endpoints_are_bound_once() {
    let mut pool = pool(4, 4);
    assert_eq!(pool.bind(service(1, 7)), Ok(()));
    assert_eq!(pool.bind(service(1, 8)), Err(IoError::EndpointBound));
    assert_eq!(IoError::EndpointBound.kind(), ErrorKind::AddrInUse);
    for address in [
        at(1, 0),
        SocketAddrV4::new(Ipv4Addr::broadcast(), 9000),
        SocketAddrV4::new(Ipv4Addr::new(0, 0, 0, 0), 9000),
        SocketAddrV4::new(Ipv4Addr::new(224, 0, 0, 1), 9000),
    ] {
        assert_eq!(
            pool.bind(Service { address, id: 1 }),
            Err(IoError::BindAddress)
        );
    }
}

#[test]
fn sending_needs_a_bound_source() {
    let mut pool = pool(1, 1);
    assert_eq!(
        pool.send_to(at(1, 9000), at(2, 9000), b"x"),
        Err(IoError::SourceNotBound)
    );
    assert_eq!(IoError::SourceNotBound.kind(), ErrorKind::AddrNotAvailable);
    pool.bind(service(1, 7)).unwrap();
    assert_eq!(pool.send_to(at(1, 9000), at(2, 9000), b"x"), Ok(()));
    assert_eq!(pool.pending(), 1);
    assert_eq!(
        pool.send_to(at(1, 9000), at(2, 9000), b"x"),
        Err(IoError::Blocked)
    );
    assert_eq!(pool.flush(), Ok(1));
    assert_eq!(pool.pending(), 0);
    assert_eq!(pool.stats().submitted, 1);
    assert_eq!(
        pool.send_to(at(1, 9000), at(2, 9000), &[0; 4000]),
        Err(IoError::DatagramTooLong)
    );
}

#[test]
fn messages_say_what_they_were_made_to_say() {
    assert_eq!(
        make_message(ADVERT, 0x01020304),
        [0x41, 0x4e, 0x53, 0x50, 1, 1, 1, 2, 3, 4]
    );
    assert_eq!(make_message(QUERY, 7)[5], 0);
}

#[test]
fn packets_mean_one_thing() {
    let mut pool = Endpoints::new(4, 4).ok().unwrap();
    pool.bind(service(1, 7)).unwrap();
    let them = at(2, 5);
    let us = at(1, 9000);
    let everyone = SocketAddrV4::new(Ipv4Addr::broadcast(), 9000);
    let meaning = |destination, payload: &[u8]| {
        pool.meaning_of(frame(them, destination, payload).as_slice())
    };
    assert_eq!(pool.meaning_of(&[0; 40]), Meaning::Invalid);
    assert_eq!(meaning(us, &make_message(QUERY, 7)), Meaning::Query);
    assert_eq!(meaning(everyone, &make_message(QUERY, 7)), Meaning::Query);
    assert_eq!(meaning(us, &make_message(ADVERT, 7)), Meaning::Advert);
    assert_eq!(meaning(us, &make_message(9, 7)), Meaning::Reserved);
    assert_eq!(meaning(us, b"hello"), Meaning::Delivery);
    assert_eq!(meaning(at(9, 9000), b"hello"), Meaning::Unbound);
}

#[test]
fn echoes_go_back_to_where_they_came_from() {
    let mut pool = Endpoints::new(4, 4).ok().unwrap();
    pool.bind(service(1, 7)).unwrap();
    pool.decide(frame(at(2, 5), at(1, 9000), b"hello"), Action::Echo);
    pool.decide(frame(at(2, 5), at(1, 9000), b"again"), Action::Ignore);
    assert_eq!(pool.pending(), 1);
    let waiting = pool.waiting();
    let d = parse_ipv4(waiting[0].as_slice()).unwrap();
    assert_eq!(d.source, at(1, 9000));
    assert_eq!(d.destination, at(2, 5));
    assert_eq!(d.payload, b"hello");
}

#[test]
fn leases_end_unless_they_are_renewed() {
    let mut pool = Endpoints::new(4, 4).ok().unwrap();
    pool.bind(service(1, 7)).unwrap();
    let advert = make_message(ADVERT, 3);
    pool.learn(frame(at(2, 9000), at(1, 9000), &advert).as_slice(), secs(0));
    pool.learn(frame(at(3, 9000), at(1, 9000), &advert).as_slice(), secs(0));
    assert_eq!(pool.peers().len(), 2);
    pool.learn(frame(at(3, 9000), at(1, 9000), &advert).as_slice(), secs(5));
    assert_eq!(pool.peers().len(), 2);
    assert_eq!(pool.expire(secs(10), secs(10)), Ok(()));
    let peers = pool.peers();
    assert_eq!(peers.len(), 1);
    assert_eq!(peers[0].service, service(3, 3));
    assert_eq!(peers[0].last_seen, secs(5));
    assert_eq!(pool.expire(secs(9), secs(10)), Err(IoError::TimeBackwards));
}

#[test]
fn peers_beyond_the_capacity_are_counted() {
    let mut pool = Endpoints::new(4, 1).ok().unwrap();
    let advert = make_message(ADVERT, 3);
    for n in 2..5 {
        let packet = frame(at(n, 9000), at(1, 9000), &advert);
        pool.learn(packet.as_slice(), secs(0));
    }
    assert_eq!(pool.peers().len(), 1);
    assert_eq!(pool.stats().peer_overflow, 2);
}

#[test]
fn discovery_finds_the_services_that_are_asked_for() {
    let mut pool = pool(8, 8);
    pool.bind(service(1, 7)).unwrap();
    pool.bind(service(2, 8)).unwrap();
    let everyone = SocketAddrV4::new(Ipv4Addr::broadcast(), 9000);
    pool.discover(at(1, 9000), everyone, 8).unwrap();
    pool.flush().unwrap();
    pool.poll(secs(0), secs(9), 8, |_| panic!("a query reached the handler"))
        .unwrap();
    assert_eq!(pool.pending(), 1);
    pool.flush().unwrap();
    pool.poll(secs(0), secs(9), 8, |_| panic!("an advert reached the handler"))
        .unwrap();
    let peers = pool.peers();
    assert_eq!(peers.len(), 1);
    assert_eq!(peers[0].service, service(2, 8));
}

#[test]
fn invalid_and_unbound_packets_are_counted() {
    let mut pool = pool(8, 8);
    pool.bind(service(1, 7)).unwrap();
    pool.send_to(at(1, 9000), at(9, 9000), b"nobody").unwrap();
    pool.send_to(at(1, 9000), at(1, 9000), b"us").unwrap();
    pool.flush().unwrap();
    let mut stray = pool.device_mut().allocate().unwrap();
    stray.set_len(5);
    pool.device_mut().send(&mut [stray]).unwrap();
    let mut heard = Vec::new();
    let n = pool
        .poll(secs(1), secs(9), 8, |d| {
            heard.push(d.payload.to_vec());
            Action::Ignore
        })
        .unwrap();
    assert_eq!(n, 3);
    assert_eq!(heard, [b"us"]);
    let stats = pool.stats();
    assert_eq!((stats.received, stats.invalid, stats.unbound), (2, 1, 1));
    assert_eq!(
        pool.poll(secs(0), secs(9), 8, |_| Action::Ignore),
        Err(IoError::TimeBackwards)
    );
}

#[test]
fn flushing_takes_a_prefix() {
    let mut pool = UdpPool::new(LoopbackDevice::with_capacity(8, 2), 8, 8)
        .ok()
        .unwrap();
    pool.bind(service(1, 7)).unwrap();
    for n in 0..3u8 {
        pool.send_to(at(1, 9000), at(1, 9000), &[n]).unwrap();
    }
    assert_eq!(pool.flush(), Ok(2));
    assert_eq!(pool.pending(), 1);
    let mut heard = Vec::new();
    let mut listen = |pool: &mut UdpPool<LoopbackDevice>| {
        pool.poll(secs(0), secs(9), 8, |d| {
            heard.push(d.payload[0]);
            Action::Ignore
        })
        .unwrap();
    };
    listen(&mut pool);
    assert_eq!(pool.flush(), Ok(1));
    listen(&mut pool);
    assert_eq!(heard, [0, 1, 2]);
}

/// A device that takes nothing and keeps a record of what it is asked.
struct Recorder {
    calls: Vec<(&'static str, usize)>,
    inner: LoopbackDevice,
}

impl Device for Recorder {
    fn recv(&mut self, max: usize, out: &mut Vec<PacketBuf>) -> Result<usize, IoError> {
        self.calls.push(("recv", max));
        self.inner.recv(max, out)
    }

    fn send(&mut self, frames: &mut [PacketBuf]) -> Result<usize, IoError> {
        self.calls.push(("send", frames.len()));
        Ok(0)
    }

    fn allocate(&mut self) -> Option<PacketBuf> {
        self.calls.push(("allocate", 1));
        self.inner.allocate()
    }

    fn frame_size(&self) -> usize {
        self.inner.frame_size()
    }
}

#[test]
fn polling_asks_the_device_even_while_sending_is_blocked() {
    let device = Recorder { calls: Vec::new(), inner: LoopbackDevice::new() };
    let mut pool = UdpPool::new(device, 4, 4).unwrap();
    pool.bind(service(1, 7)).unwrap();
    pool.send_to(at(1, 9000), at(1, 9000), b"out").unwrap();
    let mut rx = vec![frame(at(2, 9000), at(1, 9000), b"in")];
    assert_eq!(pool.device_mut().inner.send(&mut rx), Ok(1));
    pool.device_mut().calls.clear();
    let mut seen = 0;
    assert_eq!(
        pool.poll(secs(5), secs(9), 100, |d| {
            assert_eq!(d.payload, b"in");
            seen += 1;
            Action::Ignore
        }),
        Ok(1)
    );
    assert_eq!(seen, 1);
    assert_eq!(pool.device_mut().calls, [("send", 1), ("recv", 4)]);
    assert_eq!(pool.stats().received + pool.stats().invalid, 1);
    assert_eq!(pool.poll(secs(6), secs(9), 2, |_| Action::Ignore), Ok(0));
    assert_eq!(pool.device_mut().calls[2..], [("send", 1), ("recv", 2)]);
}

#[test]
fn a_poll_back_in_time_leaves_the_device_alone() {
    let device = Recorder { calls: Vec::new(), inner: LoopbackDevice::new() };
    let mut pool = UdpPool::new(device, 4, 4).unwrap();
    assert_eq!(pool.poll(secs(5), secs(9), 1, |_| Action::Ignore), Ok(0));
    pool.device_mut().calls.clear();
    assert_eq!(
        pool.poll(secs(4), secs(9), 1, |_| Action::Ignore),
        Err(IoError::TimeBackwards)
    );
    assert!(pool.device_mut().calls.is_empty());
    assert_eq!(pool.poll(secs(5), secs(9), 1, |_| Action::Ignore), Ok(0));
}
