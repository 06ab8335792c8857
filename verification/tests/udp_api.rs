use netstack::config::NetworkProfile;
use netstack::ipv4::{parse_ipv4_packet, IdentCounter, Ipv4Header};
use netstack::udp::{
    bind, build_udp_segment, datagram_frames, check_socket_args, closesocket, find_socket, handle_udp_packet,
    recvfrom, sendto, socket, socket_on_iface, udp_checksum, SockAddrIn, SocketTable, UdpError,
    UdpReceive, AF_INET, IPPROTO_IP, IPPROTO_UDP, SOCK_DGRAM, UDP_HEADER_LEN,
};

fn segment_with_checksum(
    src_ip: [u8; 4],
    src_port: u16,
    dst_ip: [u8; 4],
    dst_port: u16,
    payload: &[u8],
) -> Vec<u8> {
    let udp_len = UDP_HEADER_LEN + payload.len();
    let mut segment = Vec::with_capacity(udp_len);
    segment.extend_from_slice(&src_port.to_be_bytes());
    segment.extend_from_slice(&dst_port.to_be_bytes());
    segment.extend_from_slice(&(udp_len as u16).to_be_bytes());
    segment.extend_from_slice(&0u16.to_be_bytes());
    segment.extend_from_slice(payload);
    let csum = udp_checksum(&src_ip, &dst_ip, &segment);
    segment[6..8].copy_from_slice(&csum.to_be_bytes());
    segment
}

fn udp_header(src: [u8; 4], dst: [u8; 4], udp_len: usize, identification: u16) -> Ipv4Header {
    Ipv4Header {
        version: 4,
        ihl: 5,
        tos: 0,
        total_length: (20 + udp_len) as u16,
        identification,
        df: true,
        mf: false,
        fragment_offset: 0,
        ttl: 64,
        protocol: IPPROTO_UDP,
        checksum: 0,
        src,
        dst,
    }
}

#[test]
fn api_bind_updates_local_info() {
    let mut table = SocketTable::new();
    let local_ip = [10, 0, 0, 10];
    let local_port = 40_001u16;
    let id = table.register_socket("lo", local_ip, [1, 2, 3, 4, 5, 6], 30_000);

    let new_addr = SockAddrIn { ip: local_ip, port: local_port };
    bind(&mut table, id, new_addr).expect("bind");
    let (ip, port) = table.local_info(id).unwrap();

    assert_eq!(ip, local_ip);
    assert_eq!(port, local_port);

    closesocket(&mut table, id).ok();
}

#[test]
fn api_recvfrom_after_handle_udp() {
    let mut table = SocketTable::new();
    let local_ip = [10, 0, 0, 20];
    let local_port = 40_002u16;
    let id = table.register_socket("lo", local_ip, [1, 1, 1, 1, 1, 1], local_port);

    let remote_ip = [10, 0, 0, 30];
    let remote_port = 60_002u16;
    let payload = b"api-recv-test";
    let segment = segment_with_checksum(remote_ip, remote_port, local_ip, local_port, payload);
    let ipv4 = udp_header(remote_ip, local_ip, segment.len(), 0x2222);

    let r = handle_udp_packet(&mut table, &ipv4, &segment);
    assert!(matches!(r, UdpReceive::Delivered { .. }), "udp handle");

    let mut buf = [0u8; 64];
    let (n, src) = recvfrom(&mut table, id, &mut buf, 0).expect("recv");
    assert_eq!(&buf[..n], payload);
    assert_eq!(src.ip, remote_ip);
    assert_eq!(src.port, remote_port);

    closesocket(&mut table, id).ok();
}

#[test]
fn api_udp_checksum_matches() {
    let src = [1, 1, 1, 1];
    let dst = [2, 2, 2, 2];
    let payload = b"checksum";
    let udp_len = UDP_HEADER_LEN + payload.len();
    let mut segment = Vec::with_capacity(udp_len);
    segment.extend_from_slice(&1234u16.to_be_bytes());
    segment.extend_from_slice(&4321u16.to_be_bytes());
    segment.extend_from_slice(&(udp_len as u16).to_be_bytes());
    segment.extend_from_slice(&0u16.to_be_bytes());
    segment.extend_from_slice(payload);
    let csum = udp_checksum(&src, &dst, &segment);
    segment[6..8].copy_from_slice(&csum.to_be_bytes());
    let calc = udp_checksum(&src, &dst, &segment);

    assert_eq!(calc, 0);
}

#[test]
fn api_closesocket_removes_entry() {
    let mut table = SocketTable::new();
    let id = table.register_socket("lo", [10, 0, 0, 40], [9, 9, 9, 9, 9, 9], 40_003);
    closesocket(&mut table, id).expect("close");
    assert!(!table.contains(id), "socket should be removed after close");
    assert_eq!(closesocket(&mut table, id), Err(UdpError::InvalidSocket(id)));
}

#[test]
fn api_server_client_roundtrip() {
    let mut table = SocketTable::new();
    let srv_ip = [10, 0, 1, 10];
    let cli_ip = [10, 0, 1, 20];
    let srv_port = 41_000u16;
    let cli_port = 42_000u16;

    let srv_id = table.register_socket("lo", srv_ip, [0xAA, 1, 1, 1, 1, 1], srv_port);
    bind(&mut table, srv_id, SockAddrIn { ip: srv_ip, port: srv_port }).expect("srv bind");

    let cli_id = table.register_socket("lo", cli_ip, [0xBB, 2, 2, 2, 2, 2], cli_port);

    let req_payload = b"service-request";
    send_udp_segment(&mut table, cli_ip, cli_port, srv_ip, srv_port, req_payload);

    let mut buf = [0u8; 128];
    let (n_req, src_req) = recvfrom(&mut table, srv_id, &mut buf, 0).expect("srv recv request");
    assert_eq!(&buf[..n_req], req_payload);
    assert_eq!(src_req.ip, cli_ip);
    assert_eq!(src_req.port, cli_port);

    let resp_payload = b"service-response";
    send_udp_segment(&mut table, srv_ip, srv_port, cli_ip, cli_port, resp_payload);

    let mut buf2 = [0u8; 128];
    let (n_resp, src_resp) = recvfrom(&mut table, cli_id, &mut buf2, 0).expect("cli recv response");
    assert_eq!(&buf2[..n_resp], resp_payload);
    assert_eq!(src_resp.ip, srv_ip);
    assert_eq!(src_resp.port, srv_port);

    closesocket(&mut table, cli_id).ok();
    closesocket(&mut table, srv_id).ok();
}

fn send_udp_segment(
    table: &mut SocketTable,
    src_ip: [u8; 4],
    src_port: u16,
    dst_ip: [u8; 4],
    dst_port: u16,
    payload: &[u8],
) {
    let segment = segment_with_checksum(src_ip, src_port, dst_ip, dst_port, payload);
    let ipv4 = udp_header(src_ip, dst_ip, segment.len(), 0xBEEF);
    let r = handle_udp_packet(table, &ipv4, &segment);
    assert!(matches!(r, UdpReceive::Delivered { .. }), "udp handle");
}

#[test]
fn simulate_udp_delivery_like_real_world() {
    let mut table = SocketTable::new();
    let local_ip = [192, 168, 56, 10];
    let local_port = 50_501u16;
    let sock_id = table.register_socket("lo", local_ip, [0x02, 0x00, 0x00, 0x00, 0x00, 0x01], local_port);

    let remote_ip = [192, 168, 56, 99];
    let remote_port = 60_001u16;
    let payload = b"realistic-udp-payload";
    let segment = segment_with_checksum(remote_ip, remote_port, local_ip, local_port, payload);
    let ipv4 = udp_header(remote_ip, local_ip, segment.len(), 0x1234);

    let r = handle_udp_packet(&mut table, &ipv4, &segment);
    assert!(matches!(r, UdpReceive::Delivered { .. }), "udp handle");

    let mut buf = [0u8; 128];
    let (n, src) = recvfrom(&mut table, sock_id, &mut buf, 0).expect("recv");
    assert_eq!(&buf[..n], payload);
    assert_eq!(src.ip, remote_ip);
    assert_eq!(src.port, remote_port);

    closesocket(&mut table, sock_id).ok();
}

#[test]
fn socket_arguments_are_checked() {
    assert_eq!(check_socket_args(AF_INET, SOCK_DGRAM, IPPROTO_IP), Ok(()));
    assert_eq!(check_socket_args(AF_INET, SOCK_DGRAM, 17), Ok(()));
    assert_eq!(check_socket_args(10, SOCK_DGRAM, 0), Err(UdpError::UnsupportedFamily));
    assert_eq!(check_socket_args(AF_INET, 1, 0), Err(UdpError::UnsupportedType));
    assert_eq!(check_socket_args(AF_INET, SOCK_DGRAM, 6), Err(UdpError::UnsupportedProtocol));
    let mut table = SocketTable::new();
    assert_eq!(socket(&mut table, 10, SOCK_DGRAM, 0, "eth0", [1; 4], [2; 6]), Err(UdpError::UnsupportedFamily));
    assert!(!table.contains(1));
}

#[test]
fn sockets_get_sequential_ids_and_ephemeral_ports() {
    let mut table = SocketTable::new();
    let a = socket(&mut table, AF_INET, SOCK_DGRAM, IPPROTO_IP, "eth0", [10, 0, 0, 1], [2; 6]).unwrap();
    let b = socket_on_iface(&mut table, "eth0", [10, 0, 0, 1], [2; 6]).unwrap();
    assert_eq!((a, b), (1, 2));
    assert_eq!(table.local_info(a), Some(([10, 0, 0, 1], 49_152)));
    assert_eq!(table.local_info(b), Some(([10, 0, 0, 1], 49_153)));
}

#[test]
fn new_sockets_skip_ports_and_ids_in_use() {
    let mut table = SocketTable::new();
    // Socket 1 holds the first ephemeral port, socket 2 the next one.
    let a = table.register_socket("lo", [10, 0, 0, 1], [1; 6], 49_152);
    let b = table.register_socket("lo", [10, 0, 0, 1], [1; 6], 49_153);
    assert_eq!((a, b), (1, 2));
    let c = socket_on_iface(&mut table, "eth0", [10, 0, 0, 1], [2; 6]).unwrap();
    assert_eq!(c, 3);
    assert_eq!(table.local_info(c), Some(([10, 0, 0, 1], 49_154)));
    let d = socket_on_iface(&mut table, "eth0", [10, 0, 0, 1], [2; 6]).unwrap();
    assert_eq!(table.local_info(d), Some(([10, 0, 0, 1], 49_155)));
    // A freed port is found again once the counter wraps round the range.
    assert_eq!(closesocket(&mut table, a), Ok(()));
    for _ in 49_156..=65_535u32 {
        socket_on_iface(&mut table, "eth0", [10, 0, 0, 1], [2; 6]).unwrap();
    }
    let e = socket_on_iface(&mut table, "eth0", [10, 0, 0, 1], [2; 6]).unwrap();
    assert_eq!(table.local_info(e), Some(([10, 0, 0, 1], 49_152)));
    assert_eq!(socket_on_iface(&mut table, "eth0", [10, 0, 0, 1], [2; 6]), Err(UdpError::NoFreePort));
}

#[test]
fn bind_refuses_a_well_known_port_in_use() {
    let mut table = SocketTable::new();
    let a = table.register_socket("lo", [10, 0, 0, 1], [1; 6], 53);
    let b = table.register_socket("lo", [10, 0, 0, 1], [1; 6], 6000);
    assert_eq!(bind(&mut table, b, SockAddrIn { ip: [0, 0, 0, 0], port: 53 }), Err(UdpError::AddressInUse));
    assert_eq!(table.local_info(b), Some(([10, 0, 0, 1], 6000)));
    // Rebinding a socket to its own port is fine.
    assert_eq!(bind(&mut table, a, SockAddrIn { ip: [0, 0, 0, 0], port: 53 }), Ok(()));
    assert_eq!(table.local_info(a), Some(([0, 0, 0, 0], 53)));
    // Ports from 1024 up are bound as asked, even when another socket has them.
    let c = table.register_socket("lo", [10, 0, 0, 1], [1; 6], 7000);
    assert_eq!(bind(&mut table, c, SockAddrIn { ip: [10, 0, 0, 1], port: 6000 }), Ok(()));
    assert_eq!(table.local_info(c), Some(([10, 0, 0, 1], 6000)));
}

#[test]
fn datagram_frames_carry_each_packet() {
    let mut table = SocketTable::new();
    let id = table.register_socket("eth0", [192, 168, 1, 5], [2; 6], 5555);
    let profile = NetworkProfile {
        subnet_mask: [255, 255, 255, 0],
        gateway_ip: [192, 168, 1, 1],
        dns_servers: [[8, 8, 8, 8], [8, 8, 4, 4]],
        dhcp_enabled: false,
    };
    let payload: Vec<u8> = (0..3000u32).map(|i| (i % 256) as u8).collect();
    let mut counter = IdentCounter::new();
    let d = sendto(&mut table, id, &payload, 0, SockAddrIn { ip: [192, 168, 1, 9], port: 7 }, &profile, &mut counter)
        .unwrap();
    let frames = datagram_frames(&d, &[9; 6]);
    assert_eq!(frames.len(), d.packets.len());
    for (f, p) in frames.iter().zip(d.packets.iter()) {
        assert_eq!(&f[..6], &[9; 6]);
        assert_eq!(&f[6..12], &[2; 6]);
        assert_eq!(&f[12..14], &[0x08, 0x00]);
        assert_eq!(&f[14..14 + p.bytes.len()], &p.bytes[..]);
        assert_eq!(f.len(), 14 + p.bytes.len().max(46) + 4);
    }
}

#[test]
fn recvfrom_errors() {
    let mut table = SocketTable::new();
    let mut buf = [0u8; 4];
    assert_eq!(recvfrom(&mut table, 7, &mut buf, 0), Err(UdpError::InvalidSocket(7)));
    let id = table.register_socket("lo", [10, 0, 0, 1], [1; 6], 5000);
    assert_eq!(recvfrom(&mut table, id, &mut buf, 0), Err(UdpError::WouldBlock));
    let seg = segment_with_checksum([10, 0, 0, 2], 6000, [10, 0, 0, 1], 5000, b"too long");
    handle_udp_packet(&mut table, &udp_header([10, 0, 0, 2], [10, 0, 0, 1], seg.len(), 1), &seg);
    assert_eq!(table.queue_len(id), Some(1));
    // A datagram longer than the buffer is cut to the buffer's length.
    assert_eq!(recvfrom(&mut table, id, &mut buf, 0), Ok((4, SockAddrIn { ip: [10, 0, 0, 2], port: 6000 })));
    assert_eq!(&buf, b"too ");
    assert_eq!(table.queue_len(id), Some(0));
}

#[test]
fn datagrams_queue_in_order() {
    let mut table = SocketTable::new();
    let id = table.register_socket("lo", [0, 0, 0, 0], [1; 6], 7000);
    for (i, text) in [&b"one"[..], &b"two"[..], &b"three"[..]].iter().enumerate() {
        let seg = segment_with_checksum([10, 0, 0, 2], 6000 + i as u16, [10, 9, 9, 9], 7000, text);
        let r = handle_udp_packet(&mut table, &udp_header([10, 0, 0, 2], [10, 9, 9, 9], seg.len(), 1), &seg);
        assert_eq!(r, UdpReceive::Delivered { socket: id, len: text.len() });
    }
    let mut buf = [0u8; 16];
    for (i, text) in [&b"one"[..], &b"two"[..], &b"three"[..]].iter().enumerate() {
        let (n, src) = recvfrom(&mut table, id, &mut buf, 0).unwrap();
        assert_eq!(&buf[..n], *text);
        assert_eq!(src.port, 6000 + i as u16);
    }
}

#[test]
fn invalid_segments_are_dropped() {
    let mut table = SocketTable::new();
    let id = table.register_socket("lo", [10, 0, 0, 1], [1; 6], 5000);
    let hdr = udp_header([10, 0, 0, 2], [10, 0, 0, 1], 20, 1);
    assert_eq!(handle_udp_packet(&mut table, &hdr, &[0; 7]), UdpReceive::TooShort);
    let mut seg = segment_with_checksum([10, 0, 0, 2], 6000, [10, 0, 0, 1], 5000, b"data");
    let mut bad_len = seg.clone();
    bad_len[5] = 200;
    assert_eq!(handle_udp_packet(&mut table, &hdr, &bad_len), UdpReceive::BadLength);
    let mut bad_sum = seg.clone();
    bad_sum[8] ^= 1;
    assert!(matches!(handle_udp_packet(&mut table, &hdr, &bad_sum), UdpReceive::BadChecksum { .. }));
    let other_port = segment_with_checksum([10, 0, 0, 2], 6000, [10, 0, 0, 1], 5001, b"data");
    assert_eq!(handle_udp_packet(&mut table, &hdr, &other_port), UdpReceive::NoSocket);
    // A zero checksum field means "no checksum": accepted as is.
    seg[6] = 0;
    seg[7] = 0;
    assert_eq!(handle_udp_packet(&mut table, &hdr, &seg), UdpReceive::Delivered { socket: id, len: 4 });
    assert_eq!(table.queue_len(id), Some(1));
}

#[test]
fn sendto_builds_packets_for_next_hop() {
    let mut table = SocketTable::new();
    let id = table.register_socket("eth0", [192, 168, 1, 5], [2; 6], 5555);
    let profile = NetworkProfile::load(None, None, None, None, None);
    let mut counter = IdentCounter::new();
    let d = sendto(&mut table, id, b"hello", 0, SockAddrIn { ip: [192, 168, 1, 9], port: 53 }, &profile, &mut counter).unwrap();
    assert_eq!(d.next_hop, [192, 168, 1, 9]);
    assert_eq!(d.sent, 5);
    assert_eq!(d.iface, "eth0");
    assert_eq!(d.packets.len(), 1);
    let parsed = parse_ipv4_packet(&d.packets[0].bytes).unwrap();
    assert_eq!(parsed.header.protocol, 17);
    assert_eq!(parsed.header.ttl, 64);
    assert_eq!(parsed.payload, &build_udp_segment(&[192, 168, 1, 5], &[192, 168, 1, 9], 5555, 53, b"hello")[..]);
    assert_eq!(udp_checksum(&[192, 168, 1, 5], &[192, 168, 1, 9], parsed.payload), 0);

    let far = sendto(&mut table, id, b"x", 0, SockAddrIn { ip: [8, 8, 8, 8], port: 53 }, &profile, &mut counter).unwrap();
    assert_eq!(far.next_hop, [192, 168, 1, 1]);
    let empty = sendto(&mut table, id, b"", 0, SockAddrIn { ip: [8, 8, 8, 8], port: 53 }, &profile, &mut counter).unwrap();
    assert_eq!(empty.sent, 0);
    let header_only = parse_ipv4_packet(&empty.packets[0].bytes).unwrap().payload.to_vec();
    assert_eq!(header_only.len(), 8);
    assert_eq!(&header_only[4..6], &[0, 8]);
    assert_eq!(udp_checksum(&[192, 168, 1, 5], &[8, 8, 8, 8], &header_only), 0);
    let big = vec![0u8; 65_528];
    assert_eq!(sendto(&mut table, id, &big, 0, SockAddrIn { ip: [8, 8, 8, 8], port: 53 }, &profile, &mut counter).err(), Some(UdpError::SegmentTooLong));
    assert_eq!(sendto(&mut table, 99, b"x", 0, SockAddrIn { ip: [8, 8, 8, 8], port: 53 }, &profile, &mut counter).err(), Some(UdpError::InvalidSocket(99)));
}

#[test]
fn sent_segment_is_received_by_peer() {
    let mut table = SocketTable::new();
    let srv = table.register_socket("lo", [10, 0, 0, 1], [1; 6], 9000);
    let seg = build_udp_segment(&[10, 0, 0, 2], &[10, 0, 0, 1], 1234, 9000, b"ping");
    let hdr = udp_header([10, 0, 0, 2], [10, 0, 0, 1], seg.len(), 3);
    assert_eq!(find_socket(&table, &[10, 0, 0, 1], 9000), Some(srv));
    assert_eq!(handle_udp_packet(&mut table, &hdr, &seg), UdpReceive::Delivered { socket: srv, len: 4 });
    let mut buf = [0u8; 8];
    let (n, from) = recvfrom(&mut table, srv, &mut buf, 0).unwrap();
    assert_eq!(&buf[..n], b"ping");
    assert_eq!(from, SockAddrIn { ip: [10, 0, 0, 2], port: 1234 });
}

