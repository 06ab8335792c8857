//! The command line of the stack: `<send|recv|udp-send|udp-recv> [iface] ...`. Parsing is
//! a step function over the arguments and the answers given so far; when something is
//! missing it asks for it (the interface, the destination address, the protocol).
use vstd::prelude::*;

use crate::text::{
    dec_text, dotted_text, lemma_dec_text, lemma_split_dotted_text,
    ascii_lower, chars_equal, contains_char, mac_parse_spec, parse_mac, parse_unsigned,
    parse_unsigned_spec, parse_usize, split_chars, split_on, str_chars, to_ascii_lower, trim_chars,
    trimmed, MacParseError,
};

verus! {

/// What to run.
#[derive(Debug)]
pub enum Mode {
    /// Send the input file as one IPv4 datagram.
    Send { dest_ip: [u8; 4], protocol: u8, manual_dest_mac: Option<[u8; 6]> },
    /// Receive frames and deliver them.
    Recv,
    /// Send a file over UDP.
    UdpSendFile { dest_ip: [u8; 4], dest_port: u16, src_port: Option<u16>, file: String },
    /// Receive a file over UDP.
    UdpRecvFile { listen_port: u16, output: String },
}

/// The parsed command line.
#[derive(Debug)]
pub struct CliArgs {
    pub mode: Mode,
    pub iface: String,
}

/// Why the command line was refused.
#[derive(Debug, Clone, Copy, PartialEq, Eq)]
pub enum CliError {
    /// No mode was given.
    MissingMode,
    /// The mode is not one of the four.
    UnknownMode,
    /// `send` was given more than four arguments.
    TooManyArgs,
    /// A `send` argument fits none of the remaining slots.
    UnexpectedArg,
    /// A MAC address did not parse.
    BadMac(MacParseError),
    /// An IPv4 address does not have four pieces.
    BadIpv4Format,
    /// A piece of an IPv4 address is not a byte.
    BadIpv4Piece,
    /// The protocol is not a number from 0 to 255.
    BadProtocol,
    /// A port is not a number from 0 to 65535.
    BadPort,
    /// `udp-send` needs `<iface> <dest-ip> <dest-port> <file> [src-port]`.
    UdpSendUsage,
    /// `udp-recv` needs `<iface> <listen-port> <output-file>`.
    UdpRecvUsage,
    /// The interface choice is not a number.
    InvalidChoice,
    /// The interface choice is not in the list.
    ChoiceOutOfRange,
}

/// What parsing needs next.
#[derive(Debug)]
pub enum CliStep {
    /// Parsing is complete.
    Ready(CliArgs),
    /// No interface was given: let the user choose one.
    ChooseInterface,
    /// Ask for the destination address (a line of text).
    AskDestIp,
    /// Ask for the protocol number (a line of text; empty means 0).
    AskProtocol,
    /// The command line is refused.
    Failed(CliError),
}

/// The answers given so far: the chosen interface and the lines typed for the destination
/// address and the protocol.
#[derive(Debug)]
pub struct CliAnswers {
    pub iface: Option<String>,
    pub dest_ip: Option<String>,
    pub protocol: Option<String>,
}

/// A mode as plain values.
pub enum ModeModel {
    Send { dest_ip: Seq<u8>, protocol: u8, manual_dest_mac: Option<Seq<u8>> },
    Recv,
    UdpSendFile { dest_ip: Seq<u8>, dest_port: u16, src_port: Option<u16>, file: Seq<char> },
    UdpRecvFile { listen_port: u16, output: Seq<char> },
}

/// A parsing step as plain values.
pub enum StepModel {
    Ready(ModeModel, Seq<char>),
    ChooseInterface,
    AskDestIp,
    AskProtocol,
    Failed(CliError),
}

/// The plain values of a mode.
pub open spec fn mode_model(m: Mode) -> ModeModel {
    match m {
        Mode::Send { dest_ip, protocol, manual_dest_mac } => ModeModel::Send {
            dest_ip: dest_ip@,
            protocol,
            manual_dest_mac: match manual_dest_mac {
                Some(mac) => Some(mac@),
                None => None,
            },
        },
        Mode::Recv => ModeModel::Recv,
        Mode::UdpSendFile { dest_ip, dest_port, src_port, file } => ModeModel::UdpSendFile {
            dest_ip: dest_ip@,
            dest_port,
            src_port,
            file: file@,
        },
        Mode::UdpRecvFile { listen_port, output } => ModeModel::UdpRecvFile {
            listen_port,
            output: output@,
        },
    }
}

/// The plain values of a step.
pub open spec fn step_model(s: CliStep) -> StepModel {
    match s {
        CliStep::Ready(a) => StepModel::Ready(mode_model(a.mode), a.iface@),
        CliStep::ChooseInterface => StepModel::ChooseInterface,
        CliStep::AskDestIp => StepModel::AskDestIp,
        CliStep::AskProtocol => StepModel::AskProtocol,
        CliStep::Failed(e) => StepModel::Failed(e),
    }
}

/// An argument looks like a MAC address when it contains a colon.
pub open spec fn mac_like(s: Seq<char>) -> bool {
    s.contains(':')
}

/// An argument looks like an IPv4 address when it has four dot-separated pieces.
pub open spec fn ipv4_like(s: Seq<char>) -> bool {
    split_on(s, '.').len() == 4
}

/// A strict dotted-quad address: four pieces, each a decimal byte (no spaces allowed).
pub open spec fn cli_ipv4_spec(s: Seq<char>) -> Result<Seq<u8>, CliError> {
    let parts = split_on(s, '.');
    if parts.len() != 4 {
        Err(CliError::BadIpv4Format)
    } else if exists|i: int| 0 <= i < 4 && #[trigger] parse_unsigned_spec(parts[i], 10, 255) is None {
        Err(CliError::BadIpv4Piece)
    } else {
        Ok(Seq::new(4, |i: int| parse_unsigned_spec(parts[i], 10, 255)->0 as u8))
    }
}

/// A port number.
pub open spec fn port_spec(s: Seq<char>) -> Option<u16> {
    match parse_unsigned_spec(s, 10, 65535) {
        Some(v) => Some(v as u16),
        None => None,
    }
}

/// A protocol number.
pub open spec fn protocol_spec(s: Seq<char>) -> Result<u8, CliError> {
    match parse_unsigned_spec(s, 10, 255) {
        Some(v) => Ok(v as u8),
        None => Err(CliError::BadProtocol),
    }
}

/// Whether an argument contains a colon.
pub fn looks_like_mac(input: &str) -> (r: bool)
    ensures
        r == mac_like(input@),
{
    let chars: Vec<char> = str_chars(input);
    contains_char(chars.as_slice(), ':')
}

/// Whether an argument has four dot-separated pieces.
pub fn looks_like_ipv4(input: &str) -> (r: bool)
    ensures
        r == ipv4_like(input@),
{
    let chars: Vec<char> = str_chars(input);
    let parts: Vec<Vec<char>> = split_chars(chars.as_slice(), '.');
    proof {
        assert(parts@.map_values(|p: Vec<char>| p@).len() == parts@.len());
    }
    parts.len() == 4
}

/// Reads a strict dotted-quad address.
pub fn parse_ipv4(input: &str) -> (r: Result<[u8; 4], CliError>)
    ensures
        r matches Ok(a) ==> cli_ipv4_spec(input@) == Ok::<Seq<u8>, CliError>(a@),
        r matches Err(e) ==> cli_ipv4_spec(input@) == Err::<Seq<u8>, CliError>(e),
{
    let chars: Vec<char> = str_chars(input);
    parse_ipv4_chars(chars.as_slice())
}

/// Reads a protocol number (0 to 255).
pub fn parse_protocol(input: &str) -> (r: Result<u8, CliError>)
    ensures
        r matches Ok(p) ==> protocol_spec(input@) == Ok::<u8, CliError>(p),
        r matches Err(e) ==> protocol_spec(input@) == Err::<u8, CliError>(e),
{
    let chars: Vec<char> = str_chars(input);
    match parse_unsigned(chars.as_slice(), 10, 255) {
        Some(v) => Ok(v as u8),
        None => Err(CliError::BadProtocol),
    }
}

/// Reads a port number (0 to 65535).
pub fn parse_port(input: &str) -> (r: Option<u16>)
    ensures
        r == port_spec(input@),
{
    let chars: Vec<char> = str_chars(input);
    match parse_unsigned(chars.as_slice(), 10, 65535) {
        Some(v) => Some(v as u16),
        None => None,
    }
}

/// The interface a typed choice selects among `count` listed ones: the 1-based number,
/// surrounding whitespace ignored.
pub open spec fn interface_choice_spec(line: Seq<char>, count: nat) -> Result<nat, CliError> {
    match parse_unsigned_spec(trimmed(line), 10, usize::MAX as int) {
        None => Err(CliError::InvalidChoice),
        Some(c) => if c == 0 || c > count {
            Err(CliError::ChoiceOutOfRange)
        } else {
            Ok((c - 1) as nat)
        },
    }
}

/// The index (from 0) of the interface a typed choice selects among `count` listed ones.
pub fn interface_choice(line: &str, count: usize) -> (r: Result<usize, CliError>)
    ensures
        r matches Ok(i) ==> interface_choice_spec(line@, count as nat) == Ok::<nat, CliError>(
            i as nat,
        ),
        r matches Err(e) ==> interface_choice_spec(line@, count as nat) == Err::<nat, CliError>(e),
{
    let chars: Vec<char> = str_chars(line);
    let t: Vec<char> = trim_chars(chars.as_slice());
    match parse_usize(t.as_slice()) {
        None => Err(CliError::InvalidChoice),
        Some(c) => {
            if c == 0 || c > count {
                Err(CliError::ChoiceOutOfRange)
            } else {
                Ok(c - 1)
            }
        },
    }
}

/// The `send` slots filled so far: manual MAC, destination address, protocol.
pub struct SendSlots {
    pub mac: Option<Seq<u8>>,
    pub ip: Option<Seq<u8>>,
    pub proto: Option<u8>,
}

/// One `send` argument fills the first free slot it fits: a MAC-like one the MAC, an
/// IPv4-like one the address, anything else the protocol.
pub open spec fn send_token_step(st: SendSlots, t: Seq<char>) -> Result<SendSlots, CliError> {
    if mac_like(t) && st.mac is None {
        match mac_parse_spec(t) {
            Ok(m) => Ok(SendSlots { mac: Some(m), ..st }),
            Err(e) => Err(CliError::BadMac(e)),
        }
    } else if ipv4_like(t) && st.ip is None {
        match cli_ipv4_spec(t) {
            Ok(a) => Ok(SendSlots { ip: Some(a), ..st }),
            Err(e) => Err(e),
        }
    } else if st.proto is None {
        match protocol_spec(t) {
            Ok(p) => Ok(SendSlots { proto: Some(p), ..st }),
            Err(e) => Err(e),
        }
    } else {
        Err(CliError::UnexpectedArg)
    }
}

/// The `send` slots after all of `tokens`, or the first error.
pub open spec fn send_tokens_spec(tokens: Seq<Seq<char>>) -> Result<SendSlots, CliError>
    decreases tokens.len(),
{
    if tokens.len() == 0 {
        Ok(SendSlots { mac: None, ip: None, proto: None })
    } else {
        match send_tokens_spec(tokens.drop_last()) {
            Err(e) => Err(e),
            Ok(st) => send_token_step(st, tokens.last()),
        }
    }
}

/// The `send` mode from its slots and the answers typed at the prompts.
pub open spec fn send_step(
    st: SendSlots,
    iface: Seq<char>,
    ans_ip: Option<Seq<char>>,
    ans_proto: Option<Seq<char>>,
) -> StepModel {
    let ip: Result<Option<Seq<u8>>, CliError> = match st.ip {
        Some(a) => Ok(Some(a)),
        None => match ans_ip {
            Some(line) => match cli_ipv4_spec(trimmed(line)) {
                Ok(a) => Ok(Some(a)),
                Err(e) => Err(e),
            },
            None => Ok(None),
        },
    };
    match ip {
        Err(e) => StepModel::Failed(e),
        Ok(None) => StepModel::AskDestIp,
        Ok(Some(a)) => match st.proto {
            Some(p) => StepModel::Ready(
                ModeModel::Send { dest_ip: a, protocol: p, manual_dest_mac: st.mac },
                iface,
            ),
            None => match ans_proto {
                None => StepModel::AskProtocol,
                Some(line) => if trimmed(line).len() == 0 {
                    StepModel::Ready(
                        ModeModel::Send { dest_ip: a, protocol: 0, manual_dest_mac: st.mac },
                        iface,
                    )
                } else {
                    match protocol_spec(trimmed(line)) {
                        Ok(p) => StepModel::Ready(
                            ModeModel::Send { dest_ip: a, protocol: p, manual_dest_mac: st.mac },
                            iface,
                        ),
                        Err(e) => StepModel::Failed(e),
                    }
                },
            },
        },
    }
}

/// The `udp-send` mode from its arguments.
pub open spec fn udp_send_step(rest: Seq<Seq<char>>, iface: Seq<char>) -> StepModel {
    if rest.len() < 3 || rest.len() > 4 {
        StepModel::Failed(CliError::UdpSendUsage)
    } else {
        match cli_ipv4_spec(rest[0]) {
            Err(e) => StepModel::Failed(e),
            Ok(a) => match port_spec(rest[1]) {
                None => StepModel::Failed(CliError::BadPort),
                Some(dp) => if rest.len() == 4 {
                    match port_spec(rest[3]) {
                        None => StepModel::Failed(CliError::BadPort),
                        Some(sp) => StepModel::Ready(
                            ModeModel::UdpSendFile {
                                dest_ip: a,
                                dest_port: dp,
                                src_port: Some(sp),
                                file: rest[2],
                            },
                            iface,
                        ),
                    }
                } else {
                    StepModel::Ready(
                        ModeModel::UdpSendFile { dest_ip: a, dest_port: dp, src_port: None, file: rest[2] },
                        iface,
                    )
                },
            },
        }
    }
}

/// The `udp-recv` mode from its arguments.
pub open spec fn udp_recv_step(rest: Seq<Seq<char>>, iface: Seq<char>) -> StepModel {
    if rest.len() < 2 {
        StepModel::Failed(CliError::UdpRecvUsage)
    } else {
        match port_spec(rest[0]) {
            None => StepModel::Failed(CliError::BadPort),
            Some(p) => StepModel::Ready(ModeModel::UdpRecvFile { listen_port: p, output: rest[1] }, iface),
        }
    }
}

/// The first argument after the mode names the interface unless it looks like a MAC or an
/// IPv4 address.
pub open spec fn iface_given(args: Seq<Seq<char>>) -> bool {
    args.len() > 2 && !(mac_like(args[2]) || ipv4_like(args[2]))
}

/// What parsing `args` (the program name first) gives with the answers so far. The
/// interface is settled first, then the mode, compared ignoring ASCII case.
pub open spec fn cli_spec(
    args: Seq<Seq<char>>,
    ans_iface: Option<Seq<char>>,
    ans_ip: Option<Seq<char>>,
    ans_proto: Option<Seq<char>>,
) -> StepModel {
    if args.len() < 2 {
        StepModel::Failed(CliError::MissingMode)
    } else if !iface_given(args) && ans_iface is None {
        StepModel::ChooseInterface
    } else {
        let iface = if iface_given(args) {
            args[2]
        } else {
            ans_iface->0
        };
        let rest = if iface_given(args) {
            args.skip(3)
        } else {
            args.skip(2)
        };
        let mode = ascii_lower(args[1]);
        if mode == seq!['s', 'e', 'n', 'd'] {
            if rest.len() > 4 {
                StepModel::Failed(CliError::TooManyArgs)
            } else {
                match send_tokens_spec(rest) {
                    Err(e) => StepModel::Failed(e),
                    Ok(st) => send_step(st, iface, ans_ip, ans_proto),
                }
            }
        } else if mode == seq!['r', 'e', 'c', 'v'] {
            StepModel::Ready(ModeModel::Recv, iface)
        } else if mode == seq!['u', 'd', 'p', '-', 's', 'e', 'n', 'd'] {
            udp_send_step(rest, iface)
        } else if mode == seq!['u', 'd', 'p', '-', 'r', 'e', 'c', 'v'] {
            udp_recv_step(rest, iface)
        } else {
            StepModel::Failed(CliError::UnknownMode)
        }
    }
}

/// The text of each argument.
pub open spec fn arg_texts(args: Seq<String>) -> Seq<Seq<char>> {
    args.map_values(|a: String| a@)
}

/// The text of an optional answer.
pub open spec fn answer_text(a: Option<String>) -> Option<Seq<char>> {
    match a {
        Some(s) => Some(s@),
        None => None,
    }
}

/// Exec state of the `send` slots.
struct SendParsed {
    mac: Option<[u8; 6]>,
    ip: Option<[u8; 4]>,
    proto: Option<u8>,
}

spec fn slots_of(p: SendParsed) -> SendSlots {
    SendSlots {
        mac: match p.mac {
            Some(m) => Some(m@),
            None => None,
        },
        ip: match p.ip {
            Some(a) => Some(a@),
            None => None,
        },
        proto: p.proto,
    }
}

proof fn lemma_send_tokens_error(tokens: Seq<Seq<char>>, k: int, e: CliError)
    requires
        0 <= k <= tokens.len(),
        send_tokens_spec(tokens.subrange(0, k)) == Err::<SendSlots, CliError>(e),
    ensures
        send_tokens_spec(tokens) == Err::<SendSlots, CliError>(e),
    decreases tokens.len() - k,
{
    if k == tokens.len() {
        assert(tokens.subrange(0, k) =~= tokens);
    } else {
        let next = tokens.subrange(0, k + 1);
        assert(next.drop_last() =~= tokens.subrange(0, k));
        lemma_send_tokens_error(tokens, k + 1, e);
    }
}

fn send_tokens(tokens: &[String]) -> (r: Result<SendParsed, CliError>)
    ensures
        r matches Ok(p) ==> send_tokens_spec(arg_texts(tokens@)) == Ok::<SendSlots, CliError>(
            slots_of(p),
        ),
        r matches Err(e) ==> send_tokens_spec(arg_texts(tokens@)) == Err::<SendSlots, CliError>(e),
{
    let mut st = SendParsed { mac: None, ip: None, proto: None };
    let n: usize = tokens.len();
    let mut i: usize = 0;
    while i < n
        invariant
            n == tokens@.len(),
            i <= n,
            send_tokens_spec(arg_texts(tokens@).subrange(0, i as int)) == Ok::<SendSlots, CliError>(
                slots_of(st),
            ),
        decreases n - i,
    {
        let ghost pre = arg_texts(tokens@).subrange(0, i as int);
        let ghost post = arg_texts(tokens@).subrange(0, i + 1);
        assert(post.drop_last() =~= pre);
        assert(post.last() == tokens@[i as int]@);
        let t: &str = tokens[i].as_str();
        if looks_like_mac(t) && st.mac.is_none() {
            match parse_mac(t) {
                Ok(m) => {
                    st.mac = Some(m);
                },
                Err(e) => {
                    proof {
                        lemma_send_tokens_error(arg_texts(tokens@), i + 1, CliError::BadMac(e));
                    }
                    return Err(CliError::BadMac(e));
                },
            }
        } else if looks_like_ipv4(t) && st.ip.is_none() {
            match parse_ipv4(t) {
                Ok(a) => {
                    st.ip = Some(a);
                },
                Err(e) => {
                    proof {
                        lemma_send_tokens_error(arg_texts(tokens@), i + 1, e);
                    }
                    return Err(e);
                },
            }
        } else if st.proto.is_none() {
            match parse_protocol(t) {
                Ok(p) => {
                    st.proto = Some(p);
                },
                Err(e) => {
                    proof {
                        lemma_send_tokens_error(arg_texts(tokens@), i + 1, e);
                    }
                    return Err(e);
                },
            }
        } else {
            proof {
                lemma_send_tokens_error(arg_texts(tokens@), i + 1, CliError::UnexpectedArg);
            }
            return Err(CliError::UnexpectedArg);
        }
        i = i + 1;
    }
    assert(arg_texts(tokens@).subrange(0, n as int) =~= arg_texts(tokens@));
    Ok(st)
}

fn mode_is(mode: &[char], word: &[char]) -> (r: bool)
    ensures
        r == (ascii_lower(mode@) == word@),
{
    let lower: Vec<char> = to_ascii_lower(mode);
    chars_equal(lower.as_slice(), word)
}

/// Parses the command line `args` (the program name first) with the answers given so far:
/// either the arguments, or what is still needed, or why they are refused.
pub fn parse_cli(args: &[String], answers: &CliAnswers) -> (r: CliStep)
    ensures
        step_model(r) == cli_spec(
            arg_texts(args@),
            answer_text(answers.iface),
            answer_text(answers.dest_ip),
            answer_text(answers.protocol),
        ),
{
    let ghost a = arg_texts(args@);
    if args.len() < 2 {
        return CliStep::Failed(CliError::MissingMode);
    }
    let given: bool = args.len() > 2 && !(looks_like_mac(args[2].as_str()) || looks_like_ipv4(
        args[2].as_str(),
    ));
    assert(given == iface_given(a));
    let iface: String = if given {
        args[2].clone()
    } else {
        match &answers.iface {
            Some(name) => name.clone(),
            None => {
                return CliStep::ChooseInterface;
            },
        }
    };
    let first_rest: usize = if given { 3 } else { 2 };
    let rest: &[String] = &args[first_rest..args.len()];
    assert(arg_texts(rest@) =~= a.skip(first_rest as int));
    let mode_chars: Vec<char> = str_chars(args[1].as_str());
    let send_word: [char; 4] = ['s', 'e', 'n', 'd'];
    let recv_word: [char; 4] = ['r', 'e', 'c', 'v'];
    let udp_send_word: [char; 8] = ['u', 'd', 'p', '-', 's', 'e', 'n', 'd'];
    let udp_recv_word: [char; 8] = ['u', 'd', 'p', '-', 'r', 'e', 'c', 'v'];
    assert(send_word@ =~= seq!['s', 'e', 'n', 'd']);
    assert(recv_word@ =~= seq!['r', 'e', 'c', 'v']);
    assert(udp_send_word@ =~= seq!['u', 'd', 'p', '-', 's', 'e', 'n', 'd']);
    assert(udp_recv_word@ =~= seq!['u', 'd', 'p', '-', 'r', 'e', 'c', 'v']);
    if mode_is(mode_chars.as_slice(), &send_word) {
        if rest.len() > 4 {
            return CliStep::Failed(CliError::TooManyArgs);
        }
        let st = match send_tokens(rest) {
            Ok(st) => st,
            Err(e) => {
                return CliStep::Failed(e);
            },
        };
        let dest_ip: [u8; 4] = match st.ip {
            Some(ip) => ip,
            None => match &answers.dest_ip {
                Some(line) => {
                    let line_chars: Vec<char> = str_chars(line.as_str());
                    let t: Vec<char> = trim_chars(line_chars.as_slice());
                    match parse_ipv4_chars(t.as_slice()) {
                        Ok(ip) => ip,
                        Err(e) => {
                            return CliStep::Failed(e);
                        },
                    }
                },
                None => {
                    return CliStep::AskDestIp;
                },
            },
        };
        let protocol: u8 = match st.proto {
            Some(p) => p,
            None => match &answers.protocol {
                Some(line) => {
                    let line_chars: Vec<char> = str_chars(line.as_str());
                    let t: Vec<char> = trim_chars(line_chars.as_slice());
                    if t.len() == 0 {
                        0
                    } else {
                        match parse_unsigned(t.as_slice(), 10, 255) {
                            Some(v) => v as u8,
                            None => {
                                return CliStep::Failed(CliError::BadProtocol);
                            },
                        }
                    }
                },
                None => {
                    return CliStep::AskProtocol;
                },
            },
        };
        CliStep::Ready(
            CliArgs { mode: Mode::Send { dest_ip, protocol, manual_dest_mac: st.mac }, iface },
        )
    } else if mode_is(mode_chars.as_slice(), &recv_word) {
        CliStep::Ready(CliArgs { mode: Mode::Recv, iface })
    } else if mode_is(mode_chars.as_slice(), &udp_send_word) {
        if rest.len() < 3 || rest.len() > 4 {
            return CliStep::Failed(CliError::UdpSendUsage);
        }
        let dest_ip: [u8; 4] = match parse_ipv4(rest[0].as_str()) {
            Ok(ip) => ip,
            Err(e) => {
                return CliStep::Failed(e);
            },
        };
        let dest_port: u16 = match parse_port(rest[1].as_str()) {
            Some(p) => p,
            None => {
                return CliStep::Failed(CliError::BadPort);
            },
        };
        let file: String = rest[2].clone();
        let src_port: Option<u16> = if rest.len() == 4 {
            match parse_port(rest[3].as_str()) {
                Some(p) => Some(p),
                None => {
                    return CliStep::Failed(CliError::BadPort);
                },
            }
        } else {
            None
        };
        CliStep::Ready(
            CliArgs { mode: Mode::UdpSendFile { dest_ip, dest_port, src_port, file }, iface },
        )
    } else if mode_is(mode_chars.as_slice(), &udp_recv_word) {
        if rest.len() < 2 {
            return CliStep::Failed(CliError::UdpRecvUsage);
        }
        let listen_port: u16 = match parse_port(rest[0].as_str()) {
            Some(p) => p,
            None => {
                return CliStep::Failed(CliError::BadPort);
            },
        };
        let output: String = rest[1].clone();
        CliStep::Ready(CliArgs { mode: Mode::UdpRecvFile { listen_port, output }, iface })
    } else {
        CliStep::Failed(CliError::UnknownMode)
    }
}

/// Reads a strict dotted-quad address from characters.
fn parse_ipv4_chars(chars: &[char]) -> (r: Result<[u8; 4], CliError>)
    ensures
        r matches Ok(a) ==> cli_ipv4_spec(chars@) == Ok::<Seq<u8>, CliError>(a@),
        r matches Err(e) ==> cli_ipv4_spec(chars@) == Err::<Seq<u8>, CliError>(e),
{
    let parts: Vec<Vec<char>> = split_chars(chars, '.');
    let ghost pv = parts@.map_values(|p: Vec<char>| p@);
    if parts.len() != 4 {
        return Err(CliError::BadIpv4Format);
    }
    let mut addr: [u8; 4] = [0; 4];
    let mut i: usize = 0;
    while i < 4
        invariant
            parts@.len() == 4,
            pv == parts@.map_values(|p: Vec<char>| p@),
            pv == split_on(chars@, '.'),
            i <= 4,
            forall|j: int|
                0 <= j < i ==> parse_unsigned_spec(#[trigger] pv[j], 10, 255) == Some(
                    addr@[j] as int,
                ),
        decreases 4 - i,
    {
        match parse_unsigned(parts[i].as_slice(), 10, 255) {
            Some(v) => {
                addr[i] = v as u8;
            },
            None => {
                assert(parse_unsigned_spec(pv[i as int], 10, 255) is None);
                return Err(CliError::BadIpv4Piece);
            },
        }
        i = i + 1;
    }
    proof {
        assert(!(exists|k: int| 0 <= k < 4 && #[trigger] parse_unsigned_spec(pv[k], 10, 255) is None));
        assert(addr@ =~= Seq::new(4, |k: int| parse_unsigned_spec(pv[k], 10, 255)->0 as u8));
    }
    Ok(addr)
}

/// Law (format, then parse an address): the text `fmt_ipv4` produces for an address is
/// accepted by the strict command-line parser as that address.
pub proof fn law_cli_ipv4_roundtrip(a: [u8; 4])
    ensures
        cli_ipv4_spec(dotted_text(a@)) == Ok::<Seq<u8>, CliError>(a@),
        ipv4_like(dotted_text(a@)),
        !mac_like(dotted_text(a@)),
{
    lemma_split_dotted_text(a@);
    let t = dotted_text(a@);
    let parts = split_on(t, '.');
    assert forall|i: int| 0 <= i < 4 implies #[trigger] parse_unsigned_spec(parts[i], 10, 255) == Some(
        a@[i] as int,
    ) by {
        lemma_dec_text(a@[i] as nat);
    }
    assert(Seq::new(4, |i: int| parse_unsigned_spec(parts[i], 10, 255)->0 as u8) =~= a@);
    lemma_dotted_text_no_colon(a@);
}

proof fn lemma_dotted_text_no_colon(a: Seq<u8>)
    ensures
        !dotted_text(a).contains(':'),
    decreases a.len(),
{
    if a.len() >= 1 {
        lemma_dec_digits(a.last() as nat);
    }
    if a.len() > 1 {
        lemma_dotted_text_no_colon(a.drop_last());
        let x = dotted_text(a.drop_last());
        let y = dec_text(a.last() as nat);
        assert forall|j: int| 0 <= j < (x + seq!['.'] + y).len() implies (x + seq!['.'] + y)[j] != ':' by {
            if j < x.len() {
                assert(!x.contains(':'));
                assert((x + seq!['.'] + y)[j] == x[j]);
            } else if j > x.len() {
                assert((x + seq!['.'] + y)[j] == y[j - x.len() - 1]);
            }
        }
    }
}

proof fn lemma_dec_digits(n: nat)
    ensures
        !dec_text(n).contains(':'),
    decreases n,
{
    if n >= 10 {
        lemma_dec_digits(n / 10);
        let x = dec_text(n / 10);
        assert forall|j: int| 0 <= j < dec_text(n).len() implies dec_text(n)[j] != ':' by {
            if j < x.len() {
                assert(dec_text(n)[j] == x[j]);
            }
        }
    }
}

} // verus!
