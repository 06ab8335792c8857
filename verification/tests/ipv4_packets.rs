use netstack::checksum::internet_checksum_exec;
use netstack::ipv4::{
    build_ipv4_packets, ipv4_checksum, parse_ipv4_packet, IdentCounter, Ipv4BuildParams,
    Ipv4Error, MAX_FRAGMENT_PAYLOAD,
};
use netstack::reassembly::Ipv4Reassembler;

fn base_params() -> Ipv4BuildParams {
    Ipv4BuildParams {
        src: [10, 0, 0, 1],
        dst: [10, 0, 0, 2],
        protocol: 17,
        ttl: 64,
        tos: 0,
        df: false,
        identification: Some(0x1234),
    }
}

#[test]
fn ipv4_build_and_parse_single_fragment() -> Result<(), Ipv4Error> {
    let payload = b"hello ipv4".as_ref();
    let packets = build_ipv4_packets(payload, &base_params(), &mut IdentCounter::new())?;
    assert_eq!(packets.len(), 1);
    let parsed = parse_ipv4_packet(&packets[0].bytes)?;
    assert_eq!(parsed.payload, payload);
    Ok(())
}

#[test]
fn ipv4_reassemble_two_fragments() -> Result<(), Ipv4Error> {
    let payload = vec![0xAB; MAX_FRAGMENT_PAYLOAD + 100];
    let packets = build_ipv4_packets(&payload, &base_params(), &mut IdentCounter::new())?;
    assert_eq!(packets.len(), 2);

    let mut reassembler = Ipv4Reassembler::new();
    let mut assembled = None;
    for pkt in packets {
        let out = reassembler.push_fragment(pkt.header.clone(), &pkt.bytes[pkt.header.header_len_bytes()..]);
        if out.is_some() {
            assembled = out;
        }
    }
    let result = assembled.expect("fragments should reassemble");
    assert_eq!(result.payload, payload);
    Ok(())
}

#[test]
fn tests_build_and_parse_single_fragment() -> Result<(), Ipv4Error> {
    let payload = b"hello ipv4".as_ref();
    let packets = build_ipv4_packets(payload, &base_params(), &mut IdentCounter::new())?;
    assert_eq!(packets.len(), 1);

    let parsed = parse_ipv4_packet(&packets[0].bytes)?;
    assert_eq!(parsed.payload, payload);
    Ok(())
}

#[test]
fn tests_reassemble_two_fragments() -> Result<(), Ipv4Error> {
    let payload = vec![0xAB; MAX_FRAGMENT_PAYLOAD + 100];
    let packets = build_ipv4_packets(&payload, &base_params(), &mut IdentCounter::new())?;
    assert_eq!(packets.len(), 2);

    let mut reassembler = Ipv4Reassembler::new();
    let mut assembled = None;

    for pkt in packets {
        let header = pkt.header.clone();
        let payload_slice = &pkt.bytes[pkt.header.header_len_bytes()..];
        if let Some(packet) = reassembler.push_fragment(header, payload_slice) {
            assembled = Some(packet);
        }
    }

    let result = assembled.expect("fragments should reassemble");
    assert_eq!(result.payload, payload);
    Ok(())
}

#[test]
fn fragment_headers_carry_offsets_and_more_fragments() {
    let payload: Vec<u8> = (0..3000u32).map(|i| (i % 251) as u8).collect();
    let packets = build_ipv4_packets(&payload, &base_params(), &mut IdentCounter::new()).unwrap();
    assert_eq!(packets.len(), 3);
    let offsets: Vec<usize> = packets.iter().map(|p| p.header.fragment_offset_bytes()).collect();
    assert_eq!(offsets, vec![0, 1400, 2800]);
    assert!(packets[0].header.mf && packets[1].header.mf && !packets[2].header.mf);
    assert_eq!(packets[0].header.total_length, 60 + 1400);
    assert_eq!(packets[2].header.total_length, 60 + 200);
    assert_eq!(packets[0].header.ihl, 15);
    assert_eq!(packets[0].header.header_len_bytes(), 60);
    for p in &packets {
        assert_eq!(p.header.identification, 0x1234);
        let parsed = parse_ipv4_packet(&p.bytes).unwrap();
        assert_eq!(parsed.options, &[0u8; 40][..]);
        assert_eq!(parsed.header.checksum, p.header.checksum);
    }
}

#[test]
fn header_checksum_verifies_to_zero() {
    let packets = build_ipv4_packets(b"abc", &base_params(), &mut IdentCounter::new()).unwrap();
    let header = &packets[0].bytes[..60];
    assert_eq!(ipv4_checksum(header), 0);
    assert_eq!(internet_checksum_exec(header), 0);
}

#[test]
fn dont_fragment_refuses_large_payload() {
    let mut params = base_params();
    params.df = true;
    let payload = vec![1u8; MAX_FRAGMENT_PAYLOAD + 1];
    let mut counter = IdentCounter::new();
    let r = build_ipv4_packets(&payload, &params, &mut counter);
    assert_eq!(r.err(), Some(Ipv4Error::DontFragmentTooLarge));
    let ok = build_ipv4_packets(&payload[..MAX_FRAGMENT_PAYLOAD], &params, &mut counter).unwrap();
    assert_eq!(ok.len(), 1);
    assert!(ok[0].header.df);
}

#[test]
fn identification_counter_numbers_datagrams() {
    let mut params = base_params();
    params.identification = None;
    let mut counter = IdentCounter::new();
    let a = build_ipv4_packets(b"x", &params, &mut counter).unwrap();
    let b = build_ipv4_packets(b"y", &params, &mut counter).unwrap();
    assert_eq!(a[0].header.identification, 0);
    assert_eq!(b[0].header.identification, 1);
}

#[test]
fn empty_payload_gives_one_packet() {
    let packets = build_ipv4_packets(&[], &base_params(), &mut IdentCounter::new()).unwrap();
    assert_eq!(packets.len(), 1);
    assert_eq!(packets[0].bytes.len(), 60);
    let parsed = parse_ipv4_packet(&packets[0].bytes).unwrap();
    assert!(parsed.payload.is_empty());
}

#[test]
fn parse_rejections() {
    assert_eq!(parse_ipv4_packet(&[0x45; 19]).err(), Some(Ipv4Error::TooShort));
    let packets = build_ipv4_packets(b"data", &base_params(), &mut IdentCounter::new()).unwrap();
    let good = packets[0].bytes.clone();

    let mut v6 = good.clone();
    v6[0] = 0x6F;
    assert_eq!(parse_ipv4_packet(&v6).err(), Some(Ipv4Error::UnsupportedVersion(6)));

    let mut low_ihl = good.clone();
    low_ihl[0] = 0x44;
    assert_eq!(parse_ipv4_packet(&low_ihl).err(), Some(Ipv4Error::InvalidIhl(4)));

    assert_eq!(parse_ipv4_packet(&good[..40]).err(), Some(Ipv4Error::HeaderTruncated));

    let mut small_total = good.clone();
    small_total[2] = 0;
    small_total[3] = 10;
    assert_eq!(parse_ipv4_packet(&small_total).err(), Some(Ipv4Error::TotalLengthTooSmall));

    assert_eq!(parse_ipv4_packet(&good[..62]).err(), Some(Ipv4Error::Incomplete));

    let mut bad_sum = good.clone();
    bad_sum[11] ^= 0xFF;
    match parse_ipv4_packet(&bad_sum) {
        Err(Ipv4Error::BadChecksum { expected, .. }) => {
            assert_eq!(expected, u16::from_be_bytes([bad_sum[10], bad_sum[11]]));
        }
        other => panic!("expected a checksum error, got {:?}", other.map(|p| p.header)),
    }
}

#[test]
fn bytes_past_total_length_are_ignored() {
    let packets = build_ipv4_packets(b"payload", &base_params(), &mut IdentCounter::new()).unwrap();
    let mut longer = packets[0].bytes.clone();
    longer.extend_from_slice(&[9, 9, 9]);
    let parsed = parse_ipv4_packet(&longer).unwrap();
    assert_eq!(parsed.payload, b"payload");
}

#[test]
fn reassembly_out_of_order_and_duplicates() {
    let payload: Vec<u8> = (0..2900u32).map(|i| (i * 7 % 256) as u8).collect();
    let packets = build_ipv4_packets(&payload, &base_params(), &mut IdentCounter::new()).unwrap();
    assert_eq!(packets.len(), 3);
    let mut r = Ipv4Reassembler::new();
    let hl = 60;
    assert!(r.push_fragment(packets[2].header, &packets[2].bytes[hl..]).is_none());
    assert!(r.push_fragment(packets[0].header, &packets[0].bytes[hl..]).is_none());
    assert!(r.push_fragment(packets[0].header, &packets[0].bytes[hl..]).is_none());
    let done = r.push_fragment(packets[1].header, &packets[1].bytes[hl..]).expect("complete");
    assert_eq!(done.payload, payload);
    assert!(!done.header.mf);
    assert_eq!(done.header.fragment_offset, 0);
    assert_eq!(done.header.total_length as usize, 60 + payload.len());
    assert_eq!(done.header.checksum, 0);
}

#[test]
fn unfragmented_packet_is_released_at_once() {
    let packets = build_ipv4_packets(b"single", &base_params(), &mut IdentCounter::new()).unwrap();
    let mut r = Ipv4Reassembler::new();
    let out = r.push_fragment(packets[0].header, &packets[0].bytes[60..]).unwrap();
    assert_eq!(out.payload, b"single");
    assert_eq!(out.header.checksum, packets[0].header.checksum);
    assert!(r.remove_expired().is_empty());
}

#[test]
fn fragments_reassemble_in_any_order() {
    let payload: Vec<u8> = (0..3500u32).map(|i| (i * 7 % 251) as u8).collect();
    let packets = build_ipv4_packets(&payload, &base_params(), &mut IdentCounter::new()).unwrap();
    assert_eq!(packets.len(), 3);
    for order in [[2usize, 0, 1], [1, 2, 0], [2, 1, 0], [0, 2, 1]] {
        let mut r = Ipv4Reassembler::new();
        for (step, &i) in order.iter().enumerate() {
            let out = r.push_fragment(packets[i].header.clone(), &packets[i].bytes[60..]);
            if step + 1 < order.len() {
                assert!(out.is_none());
            } else {
                let p = out.expect("the last fragment completes the datagram");
                assert_eq!(p.payload, payload);
                assert!(!p.header.mf);
                assert_eq!(p.header.fragment_offset, 0);
                assert_eq!(p.header.total_length as usize, 60 + payload.len());
                assert_eq!(p.header.checksum, 0);
                assert_eq!(p.header.identification, 0x1234);
                assert_eq!(p.header.src, [10, 0, 0, 1]);
            }
        }
        // The buffer is gone: the same fragments start a new datagram.
        assert!(r.push_fragment(packets[0].header.clone(), &packets[0].bytes[60..]).is_none());
    }
}

#[test]
fn parsed_fragment_payloads_join_to_the_payload() {
    let payload: Vec<u8> = (0..3000u32).map(|i| (i % 253) as u8).collect();
    let packets = build_ipv4_packets(&payload, &base_params(), &mut IdentCounter::new()).unwrap();
    let mut joined = Vec::new();
    for p in &packets {
        let parsed = parse_ipv4_packet(&p.bytes).unwrap();
        assert_eq!(parsed.options, &[0u8; 40][..]);
        joined.extend_from_slice(parsed.payload);
    }
    assert_eq!(joined, payload);
}
