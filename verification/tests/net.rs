use async_net_stack_rs::device::{Device, LoopbackDevice};
use async_net_stack_rs::error::IoError;
use async_net_stack_rs::net::{checksum, finish_sum, sum_words, LinkLayer, Reply, Responder};
use async_net_stack_rs::transport::udp::{build_ipv4, ipv4_checksum, parse_ipv4};

#[test]
fn checksum_handles_odd_lengths() {
    assert_eq!(checksum(&[0, 1, 0xf2, 3, 0xf4, 0xf5, 0xf6, 0xf7]), 0x220d);
    assert_eq!(checksum(&[1, 2, 3]), 0xfbfd);
}

#[test]
fn arp_reply_and_truncated_input() {
    let responder = Responder {
        ipv4: [10, 0, 0, 2],
        mac: [2, 0, 0, 0, 0, 2],
        udp_port: None,
    };
    let mut dev = LoopbackDevice::new();
    let mut buf = dev.allocate().unwrap();
    buf.set_len(42);
    let p = buf.as_mut_packet();
    p.fill(0);
    p[..6].fill(0xff);
    p[6..12].copy_from_slice(&[2, 0, 0, 0, 0, 1]);
    p[12..22].copy_from_slice(&[8, 6, 0, 1, 8, 0, 6, 4, 0, 1]);
    p[22..28].copy_from_slice(&[2, 0, 0, 0, 0, 1]);
    p[28..32].copy_from_slice(&[10, 0, 0, 1]);
    p[38..42].copy_from_slice(&responder.ipv4);
    assert_eq!(responder.respond(&mut buf, LinkLayer::Ethernet), Reply::Arp);
    assert_eq!(buf.len(), 60);
    assert_eq!(&buf.as_slice()[20..22], &[0, 2]);
    assert_eq!(&buf.as_slice()[28..32], &responder.ipv4);
    assert!(buf.as_slice()[42..].iter().all(|&b| b == 0));
    for len in 0..42 {
        buf.set_len(len);
        assert!(!responder.respond(&mut buf, LinkLayer::Ethernet).is_reply());
    }
}

#[test]
fn icmp_reply_has_valid_checksums() {
    let mut dev = LoopbackDevice::new();
    let mut buf = dev.allocate().unwrap();
    buf.set_len(33);
    let p = buf.as_mut_packet();
    p.fill(0);
    p[0] = 0x45;
    p[2..4].copy_from_slice(&33u16.to_be_bytes());
    p[8] = 30;
    p[9] = 1;
    p[12..16].copy_from_slice(&[10, 0, 0, 1]);
    p[16..20].copy_from_slice(&[10, 0, 0, 2]);
    p[20] = 8;
    p[28..].copy_from_slice(b"hello");
    let c = checksum(&p[20..]);
    p[22..24].copy_from_slice(&c.to_be_bytes());
    let c = checksum(&p[..20]);
    p[10..12].copy_from_slice(&c.to_be_bytes());
    let responder = Responder {
        ipv4: [10, 0, 0, 2],
        mac: [0; 6],
        udp_port: None,
    };
    assert_eq!(responder.respond(&mut buf, LinkLayer::Ip), Reply::Icmp);
    assert_eq!(checksum(&buf.as_slice()[..20]), 0);
    assert_eq!(checksum(&buf.as_slice()[20..]), 0);
    assert_eq!(&buf.as_slice()[16..20], &[10, 0, 0, 1]);
    assert_eq!(buf.as_slice()[20], 0);
}

#[test]
fn udp_echo_preserves_odd_payload_and_checksum() {
    let mut dev = LoopbackDevice::new();
    let mut buf = dev.allocate().unwrap();
    let a = [10, 0, 0, 1];
    let b = [10, 0, 0, 2];
    build_ipv4(&mut buf, (a, 12345), (b, 9000), b"hello", 3).unwrap();
    let responder = Responder {
        ipv4: b,
        mac: [0; 6],
        udp_port: Some(9000),
    };
    assert_eq!(responder.respond(&mut buf, LinkLayer::Ip), Reply::Udp);
    let p = buf.as_slice();
    assert_eq!(&p[20..24], &[0x23, 0x28, 0x30, 0x39]);
    assert_eq!(&p[28..], b"hello");
    assert_eq!(checksum(&p[..20]), 0);
    assert_eq!(ipv4_checksum(b, a, &p[20..]), 0);
}

#[test]
fn corrupt_and_fragmented_udp_are_not_replied_to() {
    let mut dev = LoopbackDevice::new();
    let mut buf = dev.allocate().unwrap();
    let a = [10, 0, 0, 1];
    let b = [10, 0, 0, 2];
    let responder = Responder {
        ipv4: b,
        mac: [0; 6],
        udp_port: Some(9000),
    };
    build_ipv4(&mut buf, (a, 12345), (b, 9000), b"hello", 3).unwrap();
    buf.as_mut_packet()[28] ^= 1;
    assert_eq!(responder.respond(&mut buf, LinkLayer::Ip), Reply::Malformed);
    build_ipv4(&mut buf, (a, 12345), (b, 9000), b"hello", 3).unwrap();
    let p = buf.as_mut_packet();
    p[6] = 0x20;
    p[10..12].fill(0);
    let c = checksum(&p[..20]);
    p[10..12].copy_from_slice(&c.to_be_bytes());
    assert_eq!(responder.respond(&mut buf, LinkLayer::Ip), Reply::Ignored);
}

const US: [u8; 4] = [10, 0, 0, 2];
const THEM: [u8; 4] = [10, 0, 0, 1];
const OUR_MAC: [u8; 6] = [2, 0, 0, 0, 0, 2];
const THEIR_MAC: [u8; 6] = [2, 0, 0, 0, 0, 1];

fn responder() -> Responder {
    Responder {
        ipv4: US,
        mac: OUR_MAC,
        udp_port: Some(9000),
    }
}

/// An echo request with these bytes of data.
fn ping(data: &[u8]) -> Vec<u8> {
    let total = 28 + data.len();
    let mut p = vec![0; total];
    p[0] = 0x45;
    p[2..4].copy_from_slice(&(total as u16).to_be_bytes());
    p[8] = 30;
    p[9] = 1;
    p[12..16].copy_from_slice(&THEM);
    p[16..20].copy_from_slice(&US);
    p[20] = 8;
    p[28..].copy_from_slice(data);
    let c = checksum(&p[20..]);
    p[22..24].copy_from_slice(&c.to_be_bytes());
    seal(&mut p);
    p
}

/// Sets the checksum of the header.
fn seal(p: &mut [u8]) {
    p[10..12].fill(0);
    let c = checksum(&p[..20]);
    p[10..12].copy_from_slice(&c.to_be_bytes());
}

fn respond_to(packet: &[u8], link: LinkLayer) -> (Reply, Vec<u8>) {
    let mut dev = LoopbackDevice::new();
    let mut buf = dev.allocate().unwrap();
    buf.set_len(packet.len());
    buf.as_mut_packet().copy_from_slice(packet);
    let reply = responder().respond(&mut buf, link);
    (reply, buf.as_slice().to_vec())
}

#[test]
fn answers_go_back_to_the_sender() {
    let (reply, p) = respond_to(&ping(b"data"), LinkLayer::Ip);
    assert_eq!(reply, Reply::Icmp);
    assert_eq!(&p[12..16], &US);
    assert_eq!(&p[16..20], &THEM);
    assert_eq!(p[8], 64);
    assert_eq!(&p[28..], b"data");
}

#[test]
fn what_is_not_answered_stays_as_it_was() {
    let mut fragment = ping(b"data");
    fragment[6] = 0x20;
    seal(&mut fragment);
    let mut elsewhere = ping(b"data");
    elsewhere[19] = 9;
    seal(&mut elsewhere);
    let mut expired = ping(b"data");
    expired[8] = 0;
    seal(&mut expired);
    let mut other = ping(b"data");
    other[9] = 6;
    seal(&mut other);
    let mut answer = ping(b"data");
    answer[20] = 0;
    answer[22..24].fill(0);
    let c = checksum(&answer[20..]);
    answer[22..24].copy_from_slice(&c.to_be_bytes());
    for packet in [fragment, elsewhere, expired, other, answer] {
        assert_eq!(
            respond_to(&packet, LinkLayer::Ip),
            (Reply::Ignored, packet.clone())
        );
    }
}

#[test]
fn malformed_packets_stay_as_they_were() {
    let good = ping(b"data");
    let mut version = good.clone();
    version[0] = 0x65;
    let mut header = good.clone();
    header[10] ^= 1;
    let mut body = good.clone();
    body[30] ^= 1;
    let mut length = good.clone();
    length[3] += 1;
    seal(&mut length);
    let mut short = good.clone();
    short[0] = 0x44;
    for packet in [version, header, body, length, short] {
        assert_eq!(
            respond_to(&packet, LinkLayer::Ip),
            (Reply::Malformed, packet.clone())
        );
    }
    for n in 0..good.len() {
        assert_eq!(
            respond_to(&good[..n], LinkLayer::Ip).0,
            Reply::Malformed
        );
    }
}

fn tagged(tags: &[[u8; 4]], protocol: u16, packet: &[u8]) -> Vec<u8> {
    let mut frame = Vec::new();
    frame.extend_from_slice(&OUR_MAC);
    frame.extend_from_slice(&THEIR_MAC);
    for tag in tags {
        frame.extend_from_slice(tag);
    }
    frame.extend_from_slice(&protocol.to_be_bytes());
    frame.extend_from_slice(packet);
    frame
}

#[test]
fn tags_are_kept_and_addresses_swapped() {
    let tags = [[0x88, 0xa8, 0, 1], [0x81, 0, 0, 2]];
    for n in 0..3 {
        let (reply, p) = respond_to(
            &tagged(&tags[..n], 0x0800, &ping(b"0123456789012345678901")),
            LinkLayer::Ethernet,
        );
        assert_eq!(reply, Reply::Icmp);
        assert_eq!(&p[..6], &THEIR_MAC);
        assert_eq!(&p[6..12], &OUR_MAC);
        assert_eq!(p.len(), 64 + 4 * n);
        if n > 0 {
            assert_eq!(&p[12..16], &tags[0]);
        }
    }
    let three = [tags[0], tags[1], tags[1]];
    let (reply, _) = respond_to(&tagged(&three, 0x0800, &ping(b"")), LinkLayer::Ethernet);
    assert_eq!(reply, Reply::Ignored);
}

#[test]
fn short_frames_are_padded_with_zeros() {
    let mut frame = tagged(&[], 0x0800, &ping(b"x"));
    frame.extend_from_slice(&[0xee; 30]);
    let (reply, p) = respond_to(&frame, LinkLayer::Ethernet);
    assert_eq!(reply, Reply::Icmp);
    assert_eq!(p.len(), 60);
    assert!(p[43..].iter().all(|&b| b == 0));
}

#[test]
fn other_protocols_are_ignored() {
    let frame = tagged(&[], 0x86dd, &ping(b""));
    assert_eq!(
        respond_to(&frame, LinkLayer::Ethernet),
        (Reply::Ignored, frame.clone())
    );
    assert_eq!(
        respond_to(&frame[..13], LinkLayer::Ethernet).0,
        Reply::Malformed
    );
    let cut = tagged(&[], 0x8100, &[0]);
    assert_eq!(respond_to(&cut, LinkLayer::Ethernet).0, Reply::Malformed);
}

#[test]
fn sums_fold_their_carries() {
    assert_eq!(sum_words(&[0xff, 0xff, 0, 1]), 0x10000);
    assert_eq!(sum_words(&[1]), 0x100);
    assert_eq!(finish_sum(0x10000), 0xfffe);
    assert_eq!(finish_sum(0x1_ffff), 0xfffe);
    assert_eq!(finish_sum(0), 0xffff);
    assert_eq!(checksum(&[]), 0xffff);
}

#[test]
fn echoes_parse_with_their_ends_swapped() {
    let mut dev = LoopbackDevice::new();
    let mut buf = dev.allocate().unwrap();
    build_ipv4(&mut buf, (THEM, 1234), (US, 9000), b"payload", 7).unwrap();
    assert_eq!(responder().respond(&mut buf, LinkLayer::Ip), Reply::Udp);
    let d = parse_ipv4(buf.as_slice()).unwrap();
    assert_eq!(d.source.ip().octets(), US);
    assert_eq!(d.source.port(), 9000);
    assert_eq!(d.destination.ip().octets(), THEM);
    assert_eq!(d.destination.port(), 1234);
    assert_eq!(d.payload, b"payload");
}

#[test]
fn datagrams_for_another_port_are_ignored() {
    let mut dev = LoopbackDevice::new();
    let mut buf = dev.allocate().unwrap();
    build_ipv4(&mut buf, (THEM, 1234), (US, 9001), b"", 7).unwrap();
    assert_eq!(responder().respond(&mut buf, LinkLayer::Ip), Reply::Ignored);
}

#[test]
fn built_datagrams_parse() {
    let mut dev = LoopbackDevice::new();
    let mut buf = dev.allocate().unwrap();
    for payload in [&b""[..], b"x", b"odd", b"even"] {
        build_ipv4(&mut buf, (THEM, 1), (US, 65535), payload, 0xabcd).unwrap();
        assert_eq!(buf.len(), 28 + payload.len());
        assert_eq!(buf.as_slice()[0], 0x45);
        assert_eq!(&buf.as_slice()[4..6], &[0xab, 0xcd]);
        let d = parse_ipv4(buf.as_slice()).unwrap();
        assert_eq!(d.payload, payload);
        assert_eq!(d.source.port(), 1);
        assert_eq!(d.destination.port(), 65535);
    }
}

#[test]
fn trailing_bytes_are_not_part_of_a_datagram() {
    let mut dev = LoopbackDevice::new();
    let mut buf = dev.allocate().unwrap();
    build_ipv4(&mut buf, (THEM, 1), (US, 2), b"abc", 0).unwrap();
    let n = buf.len();
    buf.set_len(n + 5);
    assert_eq!(parse_ipv4(buf.as_slice()).unwrap().payload, b"abc");
}

#[test]
fn long_datagrams_are_refused() {
    let mut dev = LoopbackDevice::new();
    let mut buf = dev.allocate().unwrap();
    let room = buf.tail_capacity();
    let payload = vec![0; room - 27];
    assert_eq!(
        build_ipv4(&mut buf, (THEM, 1), (US, 2), &payload, 0),
        Err(IoError::DatagramTooLong)
    );
    assert!(buf.is_empty());
    assert!(build_ipv4(&mut buf, (THEM, 1), (US, 2), &payload[1..], 0).is_ok());
    assert!(matches!(
        parse_ipv4(&[0; 28]),
        Err(IoError::InvalidDatagram)
    ));
}

#[test]
fn a_datagram_may_do_without_a_checksum() {
    let mut dev = LoopbackDevice::new();
    let mut buf = dev.allocate().unwrap();
    build_ipv4(&mut buf, (THEM, 1), (US, 9000), b"abc", 0).unwrap();
    buf.as_mut_packet()[26..28].fill(0);
    assert_eq!(parse_ipv4(buf.as_slice()).unwrap().payload, b"abc");
    assert_eq!(responder().respond(&mut buf, LinkLayer::Ip), Reply::Udp);
}
