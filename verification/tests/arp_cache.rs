use netstack::arp::{
    build_arp_payload, build_reply_frame, build_request_frame, handle_incoming, network_address,
    parse_arp_frame, parse_arp_payload, same_subnet, ArpCache, ArpEntryState, ArpResolver,
    ResolveAction, ARP_MAX_RETRIES, CACHE_TTL_NANOS, OPERATION_REPLY, OPERATION_REQUEST,
};
use netstack::frame::BROADCAST_MAC;

#[test]
fn subnet_detection() {
    let mask = [255, 255, 255, 0];
    let a = [192, 168, 1, 10];
    let b = [192, 168, 1, 200];
    let c = [192, 168, 2, 1];
    assert!(same_subnet(&a, &b, &mask));
    assert!(!same_subnet(&a, &c, &mask));
}

#[test]
fn network_address_masks_each_byte() {
    assert_eq!(network_address(&[10, 1, 2, 3], &[255, 255, 0, 0]), [10, 1, 0, 0]);
    assert_eq!(network_address(&[192, 168, 77, 130], &[255, 255, 255, 128]), [192, 168, 77, 128]);
}

#[test]
fn cache_answers_what_was_inserted() {
    let mut cache = ArpCache::default();
    let ip = [10, 0, 0, 7];
    let mac = [1, 2, 3, 4, 5, 6];
    assert_eq!(cache.lookup(&ip), None);
    cache.insert(ip, mac, ArpEntryState::Dynamic);
    assert_eq!(cache.lookup(&ip), Some(mac));
    assert_eq!(cache.lookup(&[10, 0, 0, 8]), None);
    cache.insert(ip, [9; 6], ArpEntryState::Static);
    assert_eq!(cache.lookup(&ip), Some([9; 6]));
}

#[test]
fn log_entries_give_no_address() {
    let mut cache = ArpCache::default();
    cache.insert([1, 1, 1, 1], [7; 6], ArpEntryState::Log);
    assert_eq!(cache.lookup(&[1, 1, 1, 1]), None);
}

#[test]
fn dynamic_entries_expire_after_ttl() {
    let mut cache = ArpCache::default();
    cache.insert_at([5, 5, 5, 5], [5; 6], ArpEntryState::Dynamic, 1_000);
    cache.insert_at([6, 6, 6, 6], [6; 6], ArpEntryState::Static, 1_000);
    assert_eq!(cache.lookup_at(&[5, 5, 5, 5], 1_000 + CACHE_TTL_NANOS), Some([5; 6]));
    assert_eq!(cache.lookup_at(&[5, 5, 5, 5], 1_001 + CACHE_TTL_NANOS), None);
    // The expired entry is gone even when the clock reads earlier again.
    assert_eq!(cache.lookup_at(&[5, 5, 5, 5], 1_000), None);
    assert_eq!(cache.lookup_at(&[6, 6, 6, 6], u64::MAX), Some([6; 6]));
}

#[test]
fn payload_roundtrip() {
    let p = build_arp_payload(OPERATION_REQUEST, [1, 2, 3, 4, 5, 6], [10, 0, 0, 1], [0; 6], [10, 0, 0, 2]);
    assert_eq!(p.len(), 28);
    assert_eq!(&p[..8], &[0, 1, 8, 0, 6, 4, 0, 1]);
    let q = parse_arp_payload(&p).unwrap();
    assert_eq!(q.operation, OPERATION_REQUEST);
    assert_eq!(q.sender_mac, [1, 2, 3, 4, 5, 6]);
    assert_eq!(q.sender_ip, [10, 0, 0, 1]);
    assert_eq!(q.target_mac, [0; 6]);
    assert_eq!(q.target_ip, [10, 0, 0, 2]);
    assert!(parse_arp_payload(&p[..27]).is_none());
}

#[test]
fn request_frame_is_broadcast_and_parses() {
    let f = build_request_frame([2; 6], [10, 0, 0, 1], [10, 0, 0, 9]);
    assert_eq!(f.len(), 64);
    assert_eq!(&f[..6], &BROADCAST_MAC);
    assert_eq!(&f[12..14], &[0x08, 0x06]);
    let p = parse_arp_frame(&f).unwrap();
    assert_eq!(p.operation, OPERATION_REQUEST);
    assert_eq!(p.target_ip, [10, 0, 0, 9]);
    assert!(parse_arp_frame(&f[..45]).is_none());
}

#[test]
fn request_for_local_address_is_answered() {
    let mut cache = ArpCache::default();
    let local_mac = [0xAA; 6];
    let local_ip = [192, 168, 1, 5];
    let peer_mac = [0xBB; 6];
    let peer_ip = [192, 168, 1, 9];
    let req = build_arp_payload(OPERATION_REQUEST, peer_mac, peer_ip, [0; 6], local_ip);
    let reply = handle_incoming(&mut cache, &req, local_mac, local_ip).unwrap().expect("reply");
    assert_eq!(reply, build_reply_frame(local_mac, local_ip, peer_mac, peer_ip));
    assert_eq!(&reply[..6], &peer_mac);
    let parsed = parse_arp_frame(&reply).unwrap();
    assert_eq!(parsed.operation, OPERATION_REPLY);
    assert_eq!(parsed.sender_mac, local_mac);
    assert_eq!(parsed.sender_ip, local_ip);
    // The requester was learned.
    assert_eq!(cache.lookup(&peer_ip), Some(peer_mac));
}

#[test]
fn other_requests_and_short_packets_get_no_reply() {
    let mut cache = ArpCache::default();
    let req = build_arp_payload(OPERATION_REQUEST, [3; 6], [10, 0, 0, 3], [0; 6], [10, 0, 0, 99]);
    assert_eq!(handle_incoming(&mut cache, &req, [1; 6], [10, 0, 0, 1]).unwrap(), None);
    assert_eq!(cache.lookup(&[10, 0, 0, 3]), Some([3; 6]));
    let mut empty = ArpCache::default();
    assert_eq!(handle_incoming(&mut empty, &req[..20], [1; 6], [10, 0, 0, 1]).unwrap(), None);
    assert_eq!(empty.lookup(&[10, 0, 0, 3]), None);
}

#[test]
fn resolver_hits_cache_or_retries_then_fails() {
    let mut cache = ArpCache::default();
    cache.insert([10, 0, 0, 2], [4; 6], ArpEntryState::Dynamic);
    let (_, action) = ArpResolver::start(&mut cache, [1; 6], [10, 0, 0, 1], [10, 0, 0, 2]);
    assert!(matches!(action, ResolveAction::Resolved(m) if m == [4; 6]));

    let (mut r, action) = ArpResolver::start(&mut cache, [1; 6], [10, 0, 0, 1], [10, 0, 0, 3]);
    match action {
        ResolveAction::SendRequest(frame, 1) => {
            assert_eq!(frame, build_request_frame([1; 6], [10, 0, 0, 1], [10, 0, 0, 3]))
        }
        other => panic!("unexpected {:?}", other),
    }
    for attempt in 2..=ARP_MAX_RETRIES {
        assert!(matches!(r.on_timeout(), ResolveAction::SendRequest(_, n) if n == attempt));
    }
    assert!(matches!(r.on_timeout(), ResolveAction::Failed));
}

#[test]
fn resolver_accepts_reply_from_target() {
    let mut cache = ArpCache::default();
    let (r, _) = ArpResolver::start(&mut cache, [1; 6], [10, 0, 0, 1], [10, 0, 0, 3]);
    let other = build_reply_frame([7; 6], [10, 0, 0, 4], [1; 6], [10, 0, 0, 1]);
    assert_eq!(r.on_frame(&mut cache, &other), None);
    assert_eq!(cache.lookup(&[10, 0, 0, 4]), Some([7; 6]));
    let reply = build_reply_frame([8; 6], [10, 0, 0, 3], [1; 6], [10, 0, 0, 1]);
    assert_eq!(r.on_frame(&mut cache, &reply), Some([8; 6]));
    assert_eq!(r.on_frame(&mut cache, &[0u8; 10]), None);
}
