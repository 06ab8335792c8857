use netstack::config::{parse_dhcp_flag, parse_ipv4, NetworkProfile};
use netstack::frame::{crc32, ETHER_TYPE_IPV4};
use netstack::link::{handle_frame, link_frames, parse_cli, LinkCliError, LinkCliStep, LinkSendError, Mode};
use netstack::text::MacParseError;

#[test]
fn profile_defaults_and_overrides() {
    let p = NetworkProfile::load(None, None, None, None, None);
    assert_eq!(p.subnet_mask, [255, 255, 255, 0]);
    assert_eq!(p.gateway_ip, [192, 168, 1, 1]);
    assert_eq!(p.dns_servers, [[114, 114, 114, 114], [8, 8, 8, 8]]);
    assert!(p.dhcp_enabled);
    let q = NetworkProfile::load(Some("255.255.0.0"), Some(" 10 . 0 . 0 . 1 "), Some("bad"), Some("1.1.1.1"), Some(" No "));
    assert_eq!(q.subnet_mask, [255, 255, 0, 0]);
    assert_eq!(q.gateway_ip, [10, 0, 0, 1]);
    assert_eq!(q.dns_servers, [[114, 114, 114, 114], [1, 1, 1, 1]]);
    assert!(!q.dhcp_enabled);
}

#[test]
fn profile_text_values() {
    assert_eq!(parse_ipv4("1.2.3.4"), Some([1, 2, 3, 4]));
    assert_eq!(parse_ipv4("1.2.3"), None);
    assert_eq!(parse_ipv4("1.2.3.999"), None);
    assert!(parse_dhcp_flag("TRUE"));
    assert!(parse_dhcp_flag(" yes\n"));
    assert!(parse_dhcp_flag("1"));
    assert!(!parse_dhcp_flag("0"));
    assert!(!parse_dhcp_flag("on"));
}

#[test]
fn link_tool_command_line() {
    let a = |l: &[&str]| l.iter().map(|s| s.to_string()).collect::<Vec<String>>();
    assert!(matches!(parse_cli(&a(&["tool"]), None, None), LinkCliStep::Failed(LinkCliError::MissingMode)));
    assert!(matches!(parse_cli(&a(&["tool", "send"]), None, None), LinkCliStep::ChooseInterface));
    assert!(matches!(parse_cli(&a(&["tool", "send", "eth0"]), None, None), LinkCliStep::AskDestMac));
    match parse_cli(&a(&["tool", "send", "eth0"]), None, Some(" 01:02:03:04:05:06\n")) {
        LinkCliStep::Ready(r) => {
            assert_eq!(r.iface, "eth0");
            assert!(matches!(r.mode, Mode::Send { dest_mac: [1, 2, 3, 4, 5, 6] }));
        }
        other => panic!("unexpected {:?}", other),
    }
    assert!(matches!(
        parse_cli(&a(&["tool", "send", "eth0", "01:02"]), None, None),
        LinkCliStep::Failed(LinkCliError::BadMac(MacParseError::WrongLength))
    ));
    match parse_cli(&a(&["tool", "RECV"]), Some("wlan0"), None) {
        LinkCliStep::Ready(r) => {
            assert_eq!(r.iface, "wlan0");
            assert!(matches!(r.mode, Mode::Recv));
        }
        other => panic!("unexpected {:?}", other),
    }
    assert!(matches!(parse_cli(&a(&["tool", "x", "eth0"]), None, None), LinkCliStep::Failed(LinkCliError::UnknownMode)));
}

#[test]
fn link_tool_frames() {
    assert_eq!(link_frames(&[], &[1; 6], &[2; 6]), Err(LinkSendError::EmptyInput));
    let frames = link_frames(b"hello", &[1; 6], &[2; 6]).unwrap();
    assert_eq!(frames.len(), 1);
    let f = &frames[0];
    assert_eq!(f.len(), 64);
    assert_eq!(&f[..6], &[2; 6]);
    assert_eq!(u16::from_be_bytes([f[12], f[13]]), ETHER_TYPE_IPV4);
    assert_eq!(&f[14..19], b"hello");
    assert!(f[19..60].iter().all(|&b| b == 0));
    assert_eq!(&f[60..], &crc32(&f[..60]).to_be_bytes());
    assert_eq!(handle_frame(f, &[2; 6]), Some(f.clone()));
    assert_eq!(handle_frame(f, &[3; 6]), None);

    let data: Vec<u8> = (0..3010u32).map(|i| (i % 256) as u8).collect();
    let frames = link_frames(&data, &[1; 6], &[0xFF; 6]).unwrap();
    assert_eq!(frames.len(), 3);
    assert_eq!(frames[0].len(), 1518);
    assert_eq!(&frames[1][14..1514], &data[1500..3000]);
    assert_eq!(&frames[2][14..24], &data[3000..]);
    assert_eq!(frames[2].len(), 64);
    for f in &frames {
        assert_eq!(handle_frame(f, &[3; 6]), Some(f.clone()));
    }
}
