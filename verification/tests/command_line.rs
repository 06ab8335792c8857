use netstack::cli::{
    interface_choice, looks_like_ipv4, looks_like_mac, parse_cli, parse_ipv4, parse_port,
    parse_protocol, CliAnswers, CliError, CliStep, Mode,
};
use netstack::text::MacParseError;

fn args(list: &[&str]) -> Vec<String> {
    list.iter().map(|s| s.to_string()).collect()
}

fn none() -> CliAnswers {
    CliAnswers { iface: None, dest_ip: None, protocol: None }
}

#[test]
fn argument_shapes() {
    assert!(looks_like_mac("aa:bb"));
    assert!(!looks_like_mac("eth0"));
    assert!(looks_like_ipv4("1.2.3.4"));
    assert!(looks_like_ipv4("a.b.c.d"));
    assert!(!looks_like_ipv4("1.2.3"));
    assert_eq!(parse_ipv4("10.0.0.1"), Ok([10, 0, 0, 1]));
    assert_eq!(parse_ipv4("10.0.0"), Err(CliError::BadIpv4Format));
    assert_eq!(parse_ipv4("10.0.0.256"), Err(CliError::BadIpv4Piece));
    assert_eq!(parse_ipv4(" 10.0.0.1"), Err(CliError::BadIpv4Piece));
    assert_eq!(parse_protocol("17"), Ok(17));
    assert_eq!(parse_protocol("+6"), Ok(6));
    assert_eq!(parse_protocol("300"), Err(CliError::BadProtocol));
    assert_eq!(parse_port("65535"), Some(65535));
    assert_eq!(parse_port("65536"), None);
    assert_eq!(parse_port(""), None);
}

#[test]
fn interface_choice_lines() {
    assert_eq!(interface_choice(" 2\n", 3), Ok(1));
    assert_eq!(interface_choice("0", 3), Err(CliError::ChoiceOutOfRange));
    assert_eq!(interface_choice("4", 3), Err(CliError::ChoiceOutOfRange));
    assert_eq!(interface_choice("99999999999", 3), Err(CliError::ChoiceOutOfRange));
    assert_eq!(interface_choice("two", 3), Err(CliError::InvalidChoice));
}

#[test]
fn send_mode_fills_slots() {
    let step = parse_cli(&args(&["net", "SEND", "eth0", "10.0.0.2", "17", "11:22:33:44:55:66"]), &none());
    match step {
        CliStep::Ready(a) => {
            assert_eq!(a.iface, "eth0");
            match a.mode {
                Mode::Send { dest_ip, protocol, manual_dest_mac } => {
                    assert_eq!(dest_ip, [10, 0, 0, 2]);
                    assert_eq!(protocol, 17);
                    assert_eq!(manual_dest_mac, Some([0x11, 0x22, 0x33, 0x44, 0x55, 0x66]));
                }
                other => panic!("unexpected {:?}", other),
            }
        }
        other => panic!("unexpected {:?}", other),
    }
}

#[test]
fn send_mode_asks_for_what_is_missing() {
    let a = args(&["net", "send"]);
    assert!(matches!(parse_cli(&a, &none()), CliStep::ChooseInterface));
    let mut ans = CliAnswers { iface: Some("en0".to_string()), dest_ip: None, protocol: None };
    assert!(matches!(parse_cli(&a, &ans), CliStep::AskDestIp));
    ans.dest_ip = Some(" 192.168.0.7 \n".to_string());
    assert!(matches!(parse_cli(&a, &ans), CliStep::AskProtocol));
    ans.protocol = Some("   ".to_string());
    match parse_cli(&a, &ans) {
        CliStep::Ready(r) => {
            assert_eq!(r.iface, "en0");
            assert!(matches!(r.mode, Mode::Send { dest_ip: [192, 168, 0, 7], protocol: 0, manual_dest_mac: None }));
        }
        other => panic!("unexpected {:?}", other),
    }
    ans.protocol = Some("x".to_string());
    assert!(matches!(parse_cli(&a, &ans), CliStep::Failed(CliError::BadProtocol)));
    // An address as the first argument means the interface must be chosen.
    let b = args(&["net", "send", "10.0.0.2", "6"]);
    assert!(matches!(parse_cli(&b, &none()), CliStep::ChooseInterface));
}

#[test]
fn send_mode_errors() {
    let too_many = args(&["net", "send", "eth0", "1", "2", "3", "4", "5"]);
    assert!(matches!(parse_cli(&too_many, &none()), CliStep::Failed(CliError::TooManyArgs)));
    let bad_mac = args(&["net", "send", "eth0", "zz:11"]);
    assert!(matches!(parse_cli(&bad_mac, &none()), CliStep::Failed(CliError::BadMac(MacParseError::InvalidFormat))));
    let extra = args(&["net", "send", "eth0", "6", "7"]);
    assert!(matches!(parse_cli(&extra, &none()), CliStep::Failed(CliError::UnexpectedArg)));
}

#[test]
fn other_modes() {
    assert!(matches!(parse_cli(&args(&["net"]), &none()), CliStep::Failed(CliError::MissingMode)));
    assert!(matches!(parse_cli(&args(&["net", "fly", "eth0"]), &none()), CliStep::Failed(CliError::UnknownMode)));
    match parse_cli(&args(&["net", "Recv", "eth1"]), &none()) {
        CliStep::Ready(a) => {
            assert_eq!(a.iface, "eth1");
            assert!(matches!(a.mode, Mode::Recv));
        }
        other => panic!("unexpected {:?}", other),
    }
    match parse_cli(&args(&["net", "udp-send", "eth0", "10.0.0.9", "9000", "f.bin", "1234"]), &none()) {
        CliStep::Ready(a) => match a.mode {
            Mode::UdpSendFile { dest_ip, dest_port, src_port, file } => {
                assert_eq!(dest_ip, [10, 0, 0, 9]);
                assert_eq!(dest_port, 9000);
                assert_eq!(src_port, Some(1234));
                assert_eq!(file, "f.bin");
            }
            other => panic!("unexpected {:?}", other),
        },
        other => panic!("unexpected {:?}", other),
    }
    assert!(matches!(parse_cli(&args(&["net", "udp-send", "eth0", "10.0.0.9", "9000"]), &none()), CliStep::Failed(CliError::UdpSendUsage)));
    assert!(matches!(parse_cli(&args(&["net", "udp-send", "eth0", "10.0.0.9", "x", "f"]), &none()), CliStep::Failed(CliError::BadPort)));
    match parse_cli(&args(&["net", "udp-recv", "eth0", "9000", "out.bin"]), &none()) {
        CliStep::Ready(a) => assert!(matches!(a.mode, Mode::UdpRecvFile { listen_port: 9000, ref output } if output == "out.bin")),
        other => panic!("unexpected {:?}", other),
    }
    assert!(matches!(parse_cli(&args(&["net", "udp-recv", "eth0", "9000"]), &none()), CliStep::Failed(CliError::UdpRecvUsage)));
}
