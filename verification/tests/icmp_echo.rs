use netstack::checksum::internet_checksum_exec;
use netstack::icmp::{handle_icmpv4, icmp_checksum, icmp_checksum_valid, IcmpAction};
use netstack::ipv4::{parse_ipv4_packet, IdentCounter, Ipv4Header};

fn echo_request(id: u16, seq: u16, data: &[u8]) -> Vec<u8> {
    let mut m = vec![8, 0, 0, 0];
    m.extend_from_slice(&id.to_be_bytes());
    m.extend_from_slice(&seq.to_be_bytes());
    m.extend_from_slice(data);
    let c = icmp_checksum(&m);
    m[2..4].copy_from_slice(&c.to_be_bytes());
    m
}

fn header(src: [u8; 4], dst: [u8; 4]) -> Ipv4Header {
    Ipv4Header {
        version: 4,
        ihl: 5,
        tos: 0x10,
        total_length: 0,
        identification: 1,
        df: false,
        mf: false,
        fragment_offset: 0,
        ttl: 64,
        protocol: 1,
        checksum: 0,
        src,
        dst,
    }
}

#[test]
fn icmp_checksum_example() {
    let m = [8, 0, 0, 0, 0x12, 0x34, 0x00, 0x01];
    // 0x0800 + 0x1234 + 0x0001 = 0x1A35, complemented.
    assert_eq!(icmp_checksum(&m), 0xE5CA);
    assert_eq!(icmp_checksum(&[0x01]), 0xFEFF);
    assert!(icmp_checksum_valid(&echo_request(1, 2, b"abc")));
    assert!(!icmp_checksum_valid(&[8, 0, 0, 0, 0, 0, 0]));
}

#[test]
fn echo_request_is_answered() {
    let local_mac = [0xAA; 6];
    let local_ip = [10, 0, 0, 1];
    let peer_mac = [0xBB; 6];
    let peer_ip = [10, 0, 0, 2];
    let req = echo_request(0x1234, 7, b"ping-data");
    let mut counter = IdentCounter::new();
    let action = handle_icmpv4(local_mac, local_ip, peer_mac, &header(peer_ip, local_ip), &req, &mut counter);
    let frames = match action {
        IcmpAction::Reply(f) => f,
        other => panic!("expected a reply, got {:?}", other),
    };
    assert_eq!(frames.len(), 1);
    let f = &frames[0];
    assert_eq!(&f[..6], &peer_mac);
    assert_eq!(&f[6..12], &local_mac);
    let ip_len = f.len() - 14 - 4;
    let parsed = parse_ipv4_packet(&f[14..14 + ip_len]).unwrap();
    assert_eq!(parsed.header.src, local_ip);
    assert_eq!(parsed.header.dst, peer_ip);
    assert_eq!(parsed.header.tos, 0x10);
    assert_eq!(parsed.header.ttl, 64);
    let reply = parsed.payload;
    assert_eq!(reply[0], 0);
    assert_eq!(reply[1], 0);
    assert_eq!(&reply[4..], &req[4..]);
    assert!(icmp_checksum_valid(reply));
    assert_eq!(internet_checksum_exec(reply), 0);
}

#[test]
fn non_requests_are_ignored() {
    let mut counter = IdentCounter::new();
    let local_ip = [10, 0, 0, 1];
    let h = header([10, 0, 0, 2], local_ip);
    let mut reply = echo_request(1, 1, b"x");
    reply[0] = 0;
    assert!(matches!(handle_icmpv4([1; 6], local_ip, [2; 6], &h, &reply, &mut counter), IcmpAction::Ignore));
    let req = echo_request(1, 1, b"x");
    assert!(matches!(handle_icmpv4([1; 6], local_ip, [0xFF; 6], &h, &req, &mut counter), IcmpAction::Ignore));
    let other = header([10, 0, 0, 2], [10, 0, 0, 3]);
    assert!(matches!(handle_icmpv4([1; 6], local_ip, [2; 6], &other, &req, &mut counter), IcmpAction::Ignore));
    assert!(matches!(handle_icmpv4([1; 6], local_ip, [2; 6], &h, &req[..7], &mut counter), IcmpAction::Ignore));
    let mut bad = req.clone();
    bad[8] ^= 0x55;
    assert!(matches!(handle_icmpv4([1; 6], local_ip, [2; 6], &h, &bad, &mut counter), IcmpAction::BadChecksum));
}
