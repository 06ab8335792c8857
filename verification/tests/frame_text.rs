use netstack::frame::{build_frame, build_frame_from_payload, crc32, BROADCAST_MAC, ETHER_TYPE_IPV4};
use netstack::text::{fmt_ipv4, fmt_mac, parse_mac, MacParseError};

#[test]
fn crc32_known_value() {
    // CRC-32 without reflection (poly 0x04C11DB7, init and final xor all ones).
    assert_eq!(crc32(b"123456789"), 0xFC89_1918);
    assert_eq!(crc32(b""), 0);
}

#[test]
fn short_payloads_are_padded_before_the_crc() {
    let f = build_frame(&[1; 6], &[2; 6], ETHER_TYPE_IPV4, b"hi");
    assert_eq!(f.len(), 64);
    assert_eq!(&f[..6], &[1; 6]);
    assert_eq!(&f[6..12], &[2; 6]);
    assert_eq!(&f[12..14], &[0x08, 0x00]);
    assert_eq!(&f[14..16], b"hi");
    assert!(f[16..60].iter().all(|&b| b == 0));
    let crc = crc32(&f[..60]);
    assert_eq!(&f[60..64], &crc.to_be_bytes());
}

#[test]
fn full_frames_end_with_their_crc() {
    let payload = vec![0x5Au8; 100];
    let f = build_frame_from_payload(&payload, &[2; 6], &BROADCAST_MAC);
    assert_eq!(f.len(), 14 + 100 + 4);
    assert_eq!(&f[..6], &BROADCAST_MAC);
    let crc = crc32(&f[..114]);
    assert_eq!(&f[114..], &crc.to_be_bytes());
}

#[test]
fn mac_and_ipv4_text() {
    assert_eq!(fmt_mac(&[0x00, 0x1A, 0xFF, 0x0B, 0x10, 0x9C]), "00:1A:FF:0B:10:9C");
    assert_eq!(fmt_mac(&[]), "");
    assert_eq!(fmt_ipv4(&[192, 168, 0, 1]), "192.168.0.1");
    assert_eq!(fmt_ipv4(&[0, 10, 100, 255]), "0.10.100.255");
}

#[test]
fn mac_parsing() {
    assert_eq!(parse_mac("11:22:33:44:55:66"), Ok([0x11, 0x22, 0x33, 0x44, 0x55, 0x66]));
    assert_eq!(parse_mac("aa:BB:c:0d:e:F"), Ok([0xAA, 0xBB, 0x0C, 0x0D, 0x0E, 0x0F]));
    assert_eq!(parse_mac("11:22:33:44:55"), Err(MacParseError::WrongLength));
    assert_eq!(parse_mac("11:22:33:44:55:66:77"), Err(MacParseError::WrongLength));
    assert_eq!(parse_mac("11:22:33:44:55:zz"), Err(MacParseError::InvalidFormat));
    assert_eq!(parse_mac("11:22:33:44:55:100"), Err(MacParseError::InvalidFormat));
    assert_eq!(parse_mac(""), Err(MacParseError::InvalidFormat));
    let m = [0xDE, 0xAD, 0xBE, 0xEF, 0x00, 0x01];
    assert_eq!(parse_mac(&fmt_mac(&m)), Ok(m));
}

#[test]
fn ipv4_text_roundtrip() {
    for a in [[0u8, 0, 0, 0], [255, 255, 255, 255], [10, 20, 30, 40], [192, 168, 1, 100]] {
        let t = fmt_ipv4(&a);
        assert_eq!(netstack::config::parse_ipv4(&t), Some(a));
        assert_eq!(netstack::cli::parse_ipv4(&t), Ok(a));
        assert!(netstack::cli::looks_like_ipv4(&t));
        assert!(!netstack::cli::looks_like_mac(&t));
    }
}
