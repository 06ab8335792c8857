use netstack::arp::{build_request_frame, ArpCache};
use netstack::datalink::{
    build_datagram, deliver_ip_payload, enqueue_fragment, handle_frame, process_frame,
    protocol_name, Delivery, FrameDispatch, FrameOutcome, SendError,
};
use netstack::frame::{build_frame, crc32, BROADCAST_MAC, ETHER_TYPE_IPV4};
use netstack::icmp::IcmpAction;
use netstack::ipv4::{build_ipv4_packets, IdentCounter, Ipv4BuildParams, Ipv4Error};
use netstack::queue::SendQueue;
use netstack::reassembly::Ipv4Reassembler;
use netstack::udp::{build_udp_segment, recvfrom, SocketTable, UdpReceive};

const LOCAL_MAC: [u8; 6] = [0x02, 0, 0, 0, 0, 1];
const LOCAL_IP: [u8; 4] = [192, 168, 1, 10];
const PEER_MAC: [u8; 6] = [0x02, 0, 0, 0, 0, 2];
const PEER_IP: [u8; 4] = [192, 168, 1, 20];

fn params(protocol: u8, dst: [u8; 4]) -> Ipv4BuildParams {
    Ipv4BuildParams { src: PEER_IP, dst, protocol, ttl: 64, tos: 0, df: false, identification: Some(77) }
}

#[test]
fn ipv4_frames_are_passed_on_without_crc() {
    let mut cache = ArpCache::default();
    let payload = vec![0x11u8; 60];
    let frame = build_frame(&LOCAL_MAC, &PEER_MAC, ETHER_TYPE_IPV4, &payload);
    match handle_frame(&frame, &LOCAL_MAC, &LOCAL_IP, &mut cache) {
        FrameDispatch::DeliverIpv4(f) => assert_eq!(f, &frame[..frame.len() - 4]),
        other => panic!("unexpected {:?}", other),
    }
}

#[test]
fn frames_failing_checks_are_ignored() {
    let mut cache = ArpCache::default();
    let payload = vec![0x11u8; 60];
    let to_other = build_frame(&[9; 6], &PEER_MAC, ETHER_TYPE_IPV4, &payload);
    assert!(matches!(handle_frame(&to_other, &LOCAL_MAC, &LOCAL_IP, &mut cache), FrameDispatch::Ignore));
    let mut corrupt = build_frame(&LOCAL_MAC, &PEER_MAC, ETHER_TYPE_IPV4, &payload);
    corrupt[20] ^= 1;
    assert!(matches!(handle_frame(&corrupt, &LOCAL_MAC, &LOCAL_IP, &mut cache), FrameDispatch::Ignore));
    assert!(matches!(handle_frame(&[0u8; 40], &LOCAL_MAC, &LOCAL_IP, &mut cache), FrameDispatch::Ignore));
    let other_type = build_frame(&LOCAL_MAC, &PEER_MAC, 0x86DD, &payload);
    assert!(matches!(handle_frame(&other_type, &LOCAL_MAC, &LOCAL_IP, &mut cache), FrameDispatch::Ignore));
}

fn arp_frame(target_ip: [u8; 4]) -> Vec<u8> {
    build_request_frame(PEER_MAC, PEER_IP, target_ip)
}

#[test]
fn arp_requests_get_a_reply_dispatch() {
    let mut cache = ArpCache::default();
    match handle_frame(&arp_frame(LOCAL_IP), &LOCAL_MAC, &LOCAL_IP, &mut cache) {
        FrameDispatch::Reply(r) => assert_eq!(&r[..6], &PEER_MAC),
        other => panic!("unexpected {:?}", other),
    }
    assert_eq!(cache.lookup(&PEER_IP), Some(PEER_MAC));
    let not_us = arp_frame([192, 168, 1, 99]);
    assert!(matches!(handle_frame(&not_us, &LOCAL_MAC, &LOCAL_IP, &mut cache), FrameDispatch::Ignore));
}

#[test]
fn built_arp_requests_pass_the_receive_checks() {
    // Short payloads are padded before the CRC, so a 28-byte ARP request is accepted.
    let mut cache = ArpCache::default();
    let req = build_request_frame(PEER_MAC, PEER_IP, LOCAL_IP);
    assert_eq!(req.len(), 64);
    assert_eq!(&req[60..], &crc32(&req[..60]).to_be_bytes());
    assert!(matches!(handle_frame(&req, &LOCAL_MAC, &LOCAL_IP, &mut cache), FrameDispatch::Reply(_)));
    assert_eq!(cache.lookup(&PEER_IP), Some(PEER_MAC));
}

fn frame_of(packet: &[u8]) -> Vec<u8> {
    let f = build_frame(&LOCAL_MAC, &PEER_MAC, ETHER_TYPE_IPV4, packet);
    let padded_len = f.len() - 4;
    assert_eq!(crc32(&f[..padded_len]).to_be_bytes(), f[padded_len..]);
    f[..14 + packet.len()].to_vec()
}

#[test]
fn process_frame_reassembles_and_delivers_udp() {
    let mut sockets = SocketTable::new();
    let sock = sockets.register_socket("eth0", LOCAL_IP, LOCAL_MAC, 9999);
    let data: Vec<u8> = (0..2000u32).map(|i| (i % 200) as u8).collect();
    let seg = build_udp_segment(&PEER_IP, &LOCAL_IP, 4444, 9999, &data);
    let packets = build_ipv4_packets(&seg, &params(17, LOCAL_IP), &mut IdentCounter::new()).unwrap();
    assert_eq!(packets.len(), 2);
    let mut r = Ipv4Reassembler::new();
    let (_, first) = process_frame(&frame_of(&packets[0].bytes), &LOCAL_IP, &mut r);
    assert!(matches!(first, FrameOutcome::Pending(_)));
    let (_, second) = process_frame(&frame_of(&packets[1].bytes), &LOCAL_IP, &mut r);
    let (packet, peer) = match second {
        FrameOutcome::Complete { packet, peer_mac } => (packet, peer_mac),
        other => panic!("unexpected {:?}", other),
    };
    assert_eq!(peer, PEER_MAC);
    assert_eq!(packet.payload, seg);
    let mut counter = IdentCounter::new();
    let d = deliver_ip_payload(&packet, LOCAL_MAC, LOCAL_IP, peer, &mut sockets, &mut counter);
    assert!(matches!(d, Delivery::Udp(UdpReceive::Delivered { len: 2000, .. })));
    let mut buf = vec![0u8; 2048];
    let (n, from) = recvfrom(&mut sockets, sock, &mut buf, 0).unwrap();
    assert_eq!(&buf[..n], &data[..]);
    assert_eq!(from.port, 4444);
}

#[test]
fn process_frame_rejections() {
    let mut r = Ipv4Reassembler::new();
    let (_, o) = process_frame(&[0u8; 10], &LOCAL_IP, &mut r);
    assert!(matches!(o, FrameOutcome::NotIpv4));
    let mut arp = vec![0u8; 60];
    arp[12] = 0x08;
    arp[13] = 0x06;
    assert!(matches!(process_frame(&arp, &LOCAL_IP, &mut r).1, FrameOutcome::NotIpv4));
    let mut junk = vec![0u8; 40];
    junk[12] = 0x08;
    assert!(matches!(process_frame(&junk, &LOCAL_IP, &mut r).1, FrameOutcome::Malformed(Ipv4Error::UnsupportedVersion(0))));
    let packets = build_ipv4_packets(b"x", &params(6, [192, 168, 1, 99]), &mut IdentCounter::new()).unwrap();
    assert!(matches!(process_frame(&frame_of(&packets[0].bytes), &LOCAL_IP, &mut r).1, FrameOutcome::NotForUs(_)));
    let bcast = build_ipv4_packets(b"x", &params(6, [255, 255, 255, 255]), &mut IdentCounter::new()).unwrap();
    assert!(matches!(process_frame(&frame_of(&bcast[0].bytes), &LOCAL_IP, &mut r).1, FrameOutcome::Complete { .. }));
}

#[test]
fn delivery_by_protocol() {
    let mut sockets = SocketTable::new();
    let mut counter = IdentCounter::new();
    let packets = build_ipv4_packets(b"tcp bytes", &params(6, LOCAL_IP), &mut IdentCounter::new()).unwrap();
    let mut r = Ipv4Reassembler::new();
    let (_, o) = process_frame(&frame_of(&packets[0].bytes), &LOCAL_IP, &mut r);
    let packet = match o {
        FrameOutcome::Complete { packet, .. } => packet,
        other => panic!("unexpected {:?}", other),
    };
    assert!(matches!(deliver_ip_payload(&packet, LOCAL_MAC, LOCAL_IP, PEER_MAC, &mut sockets, &mut counter), Delivery::Other));

    let mut echo = vec![8u8, 0, 0, 0, 0, 1, 0, 1];
    let c = netstack::icmp::icmp_checksum(&echo);
    echo[2..4].copy_from_slice(&c.to_be_bytes());
    let icmp = build_ipv4_packets(&echo, &params(1, LOCAL_IP), &mut IdentCounter::new()).unwrap();
    let (_, o) = process_frame(&frame_of(&icmp[0].bytes), &LOCAL_IP, &mut r);
    let packet = match o {
        FrameOutcome::Complete { packet, .. } => packet,
        other => panic!("unexpected {:?}", other),
    };
    match deliver_ip_payload(&packet, LOCAL_MAC, LOCAL_IP, PEER_MAC, &mut sockets, &mut counter) {
        Delivery::Icmp(IcmpAction::Reply(frames)) => assert_eq!(frames.len(), 1),
        other => panic!("unexpected {:?}", other),
    }
}

#[test]
fn protocol_names() {
    assert_eq!(protocol_name(1), "ICMPv4");
    assert_eq!(protocol_name(2), "IGMPv4");
    assert_eq!(protocol_name(6), "TCP");
    assert_eq!(protocol_name(17), "UDP");
    assert_eq!(protocol_name(99), "未知");
}

#[test]
fn datagram_building_and_send_queue() {
    let mut counter = IdentCounter::new();
    assert_eq!(build_datagram(&[], LOCAL_IP, PEER_IP, 17, &mut counter).err(), Some(SendError::EmptyInput));
    let packets = build_datagram(&vec![3u8; 3000], LOCAL_IP, PEER_IP, 17, &mut counter).unwrap();
    assert_eq!(packets.len(), 3);
    assert_eq!(packets[0].header.ttl, 64);
    assert!(!packets[0].header.df);
    let mut q = SendQueue::new(2);
    let mut queued = 0;
    for p in packets {
        let expected = build_frame(&PEER_MAC, &LOCAL_MAC, ETHER_TYPE_IPV4, &p.bytes);
        let n = enqueue_fragment(p, &mut q, &LOCAL_MAC, &PEER_MAC);
        if n == 1 {
            assert_eq!(q.len(), queued + 1);
            let _ = expected;
        }
        queued += n;
    }
    assert_eq!(queued, 2);
    let first = q.pop().unwrap();
    assert_eq!(&first[..6], &PEER_MAC);
    q.close();
    let more = build_datagram(b"x", LOCAL_IP, PEER_IP, 17, &mut counter).unwrap();
    assert_eq!(enqueue_fragment(more.into_iter().next().unwrap(), &mut q, &LOCAL_MAC, &PEER_MAC), 0);
}
