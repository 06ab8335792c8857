//! The plain Ethernet tool: `<send|recv> [iface] [dest-mac]`. Sending cuts the input data
//! into pieces of at most 1500 bytes, each zero-padded to 46 and sent in an IPv4-typed
//! frame; receiving keeps the frames that pass the size, destination and CRC checks.
use vstd::prelude::*;

use crate::bytes::{bytes_equal, bytes_to_vec, push_zeros, read_u32_be};
use crate::frame::{
    build_frame, crc32, encode_frame, frame_accepted, BROADCAST_MAC, CRC_LEN, ETHER_TYPE_IPV4,
    HEADER_LEN, MAX_FRAME_SIZE, MAX_PAYLOAD_LEN, MIN_FRAME_SIZE, MIN_PAYLOAD_LEN,
};
use crate::text::{
    ascii_lower, chars_equal, mac_parse_spec, parse_mac, str_chars, to_ascii_lower, trim_chars,
    trimmed, MacParseError,
};

verus! {

/// What to run.
#[derive(Debug)]
pub enum Mode {
    /// Send the input data to `dest_mac`.
    Send { dest_mac: [u8; 6] },
    /// Receive frames.
    Recv,
}

/// The parsed command line.
#[derive(Debug)]
pub struct CliArgs {
    pub mode: Mode,
    pub iface: String,
}

/// Why the command line was refused.
#[derive(Debug, Clone, Copy, PartialEq, Eq)]
pub enum LinkCliError {
    /// No mode was given.
    MissingMode,
    /// The mode is neither `send` nor `recv`.
    UnknownMode,
    /// The destination MAC address did not parse.
    BadMac(MacParseError),
}

/// What parsing needs next.
#[derive(Debug)]
pub enum LinkCliStep {
    /// Parsing is complete.
    Ready(CliArgs),
    /// No interface was given: let the user choose one.
    ChooseInterface,
    /// Ask for the destination MAC address (a line of text).
    AskDestMac,
    /// The command line is refused.
    Failed(LinkCliError),
}

/// A step as plain values: the mode (with the destination MAC for `send`) and interface.
pub enum LinkStepModel {
    Ready(Option<Seq<u8>>, Seq<char>),
    ChooseInterface,
    AskDestMac,
    Failed(LinkCliError),
}

/// The plain values of a step (`Ready(None, _)` is `recv`).
pub open spec fn link_step_model(s: LinkCliStep) -> LinkStepModel {
    match s {
        LinkCliStep::Ready(a) => LinkStepModel::Ready(
            match a.mode {
                Mode::Send { dest_mac } => Some(dest_mac@),
                Mode::Recv => None,
            },
            a.iface@,
        ),
        LinkCliStep::ChooseInterface => LinkStepModel::ChooseInterface,
        LinkCliStep::AskDestMac => LinkStepModel::AskDestMac,
        LinkCliStep::Failed(e) => LinkStepModel::Failed(e),
    }
}

/// What parsing `args` (program name first) gives with the chosen interface and the line
/// typed for the destination MAC so far. The interface is the second argument or chosen;
/// the mode is compared ignoring ASCII case; `send` takes its MAC from the third argument
/// or from the typed line (trimmed).
pub open spec fn link_cli_spec(
    args: Seq<Seq<char>>,
    ans_iface: Option<Seq<char>>,
    ans_mac: Option<Seq<char>>,
) -> LinkStepModel {
    if args.len() < 2 {
        LinkStepModel::Failed(LinkCliError::MissingMode)
    } else if args.len() < 3 && ans_iface is None {
        LinkStepModel::ChooseInterface
    } else {
        let iface = if args.len() >= 3 {
            args[2]
        } else {
            ans_iface->0
        };
        let mode = ascii_lower(args[1]);
        if mode == seq!['s', 'e', 'n', 'd'] {
            let mac_text: Option<Seq<char>> = if args.len() >= 4 {
                Some(args[3])
            } else {
                match ans_mac {
                    Some(line) => Some(trimmed(line)),
                    None => None,
                }
            };
            match mac_text {
                None => LinkStepModel::AskDestMac,
                Some(t) => match mac_parse_spec(t) {
                    Ok(m) => LinkStepModel::Ready(Some(m), iface),
                    Err(e) => LinkStepModel::Failed(LinkCliError::BadMac(e)),
                },
            }
        } else if mode == seq!['r', 'e', 'c', 'v'] {
            LinkStepModel::Ready(None, iface)
        } else {
            LinkStepModel::Failed(LinkCliError::UnknownMode)
        }
    }
}

fn mode_is(mode: &[char], word: &[char]) -> (r: bool)
    ensures
        r == (ascii_lower(mode@) == word@),
{
    let lower: Vec<char> = to_ascii_lower(mode);
    chars_equal(lower.as_slice(), word)
}

/// Parses the command line of the Ethernet tool with the answers given so far.
pub fn parse_cli(args: &[String], iface_answer: Option<&str>, mac_answer: Option<&str>) -> (r:
    LinkCliStep)
    ensures
        link_step_model(r) == link_cli_spec(
            args@.map_values(|a: String| a@),
            match iface_answer {
                Some(s) => Some(s@),
                None => None,
            },
            match mac_answer {
                Some(s) => Some(s@),
                None => None,
            },
        ),
{
    if args.len() < 2 {
        return LinkCliStep::Failed(LinkCliError::MissingMode);
    }
    let iface: String = if args.len() >= 3 {
        args[2].clone()
    } else {
        match iface_answer {
            Some(name) => name.to_owned(),
            None => {
                return LinkCliStep::ChooseInterface;
            },
        }
    };
    let mode_chars: Vec<char> = str_chars(args[1].as_str());
    let send_word: [char; 4] = ['s', 'e', 'n', 'd'];
    let recv_word: [char; 4] = ['r', 'e', 'c', 'v'];
    assert(send_word@ =~= seq!['s', 'e', 'n', 'd']);
    assert(recv_word@ =~= seq!['r', 'e', 'c', 'v']);
    if mode_is(mode_chars.as_slice(), &send_word) {
        let parsed = if args.len() >= 4 {
            parse_mac(args[3].as_str())
        } else {
            match mac_answer {
                Some(line) => {
                    let line_chars: Vec<char> = str_chars(line);
                    let t: Vec<char> = trim_chars(line_chars.as_slice());
                    parse_mac_chars(t.as_slice())
                },
                None => {
                    return LinkCliStep::AskDestMac;
                },
            }
        };
        match parsed {
            Ok(dest_mac) => LinkCliStep::Ready(CliArgs { mode: Mode::Send { dest_mac }, iface }),
            Err(e) => LinkCliStep::Failed(LinkCliError::BadMac(e)),
        }
    } else if mode_is(mode_chars.as_slice(), &recv_word) {
        LinkCliStep::Ready(CliArgs { mode: Mode::Recv, iface })
    } else {
        LinkCliStep::Failed(LinkCliError::UnknownMode)
    }
}

/// Parses a MAC address given as characters.
fn parse_mac_chars(chars: &[char]) -> (r: Result<[u8; 6], MacParseError>)
    ensures
        r matches Ok(m) ==> mac_parse_spec(chars@) == Ok::<Seq<u8>, MacParseError>(m@),
        r matches Err(e) ==> mac_parse_spec(chars@) == Err::<Seq<u8>, MacParseError>(e),
{
    crate::text::parse_mac_from_chars(chars)
}

/// Why the input could not be sent.
#[derive(Debug, Clone, Copy, PartialEq, Eq)]
pub enum LinkSendError {
    /// The input is empty.
    EmptyInput,
}

/// A payload padded with zeros to the 46-byte minimum.
pub open spec fn padded_payload(data: Seq<u8>) -> Seq<u8> {
    if data.len() < 46 {
        data + Seq::new((46 - data.len()) as nat, |_i: int| 0u8)
    } else {
        data
    }
}

/// Number of frames for `len` bytes of input: one per 1500 bytes (rounded up).
pub open spec fn link_chunk_count(len: nat) -> nat {
    ((len + 1499) / 1500) as nat
}

/// The `k`-th 1500-byte piece of the input.
pub open spec fn link_chunk(data: Seq<u8>, k: nat) -> Seq<u8> {
    let end = if (k + 1) * 1500 <= data.len() {
        (k + 1) * 1500
    } else {
        data.len()
    };
    data.subrange((k * 1500) as int, end as int)
}

/// The frames that carry the input: it is cut into pieces of at most 1500 bytes, each
/// padded to 46 bytes and sent in its own frame with EtherType IPv4.
pub fn link_frames(data: &[u8], src_mac: &[u8; 6], dest_mac: &[u8; 6]) -> (r: Result<
    Vec<Vec<u8>>,
    LinkSendError,
>)
    ensures
        data@.len() == 0 ==> r == Err::<Vec<Vec<u8>>, LinkSendError>(LinkSendError::EmptyInput),
        data@.len() > 0 ==> (r matches Ok(frames) && frames@.len() == link_chunk_count(data@.len())
            && forall|k: int|
            0 <= k < frames@.len() ==> (#[trigger] frames@[k])@ == encode_frame(
                dest_mac@,
                src_mac@,
                ETHER_TYPE_IPV4,
                padded_payload(link_chunk(data@, k as nat)),
            )),
{
    if data.len() == 0 {
        return Err(LinkSendError::EmptyInput);
    }
    let len: usize = data.len();
    let n: usize = len / MAX_PAYLOAD_LEN + if len % MAX_PAYLOAD_LEN == 0 { 0 } else { 1 };
    assert(n == link_chunk_count(len as nat)) by (nonlinear_arith)
        requires
            n == len / 1500 + if len % 1500 == 0 { 0int } else { 1int },
    ;
    let mut frames: Vec<Vec<u8>> = Vec::new();
    let mut k: usize = 0;
    while k < n
        invariant
            len == data@.len(),
            n == link_chunk_count(len as nat),
            k <= n,
            frames@.len() == k,
            forall|j: int|
                0 <= j < k ==> (#[trigger] frames@[j])@ == encode_frame(
                    dest_mac@,
                    src_mac@,
                    ETHER_TYPE_IPV4,
                    padded_payload(link_chunk(data@, j as nat)),
                ),
        decreases n - k,
    {
        assert(k * 1500 < len && (k + 1) * 1500 == k * 1500 + 1500) by (nonlinear_arith)
            requires
                k < n,
                n == (len + 1499) / 1500,
        ;
        let start: usize = k * MAX_PAYLOAD_LEN;
        let end: usize = if len - start >= MAX_PAYLOAD_LEN { start + MAX_PAYLOAD_LEN } else { len };
        let mut payload: Vec<u8> = bytes_to_vec(&data[start..end]);
        assert(payload@ == link_chunk(data@, k as nat));
        if payload.len() < MIN_PAYLOAD_LEN {
            let missing: usize = MIN_PAYLOAD_LEN - payload.len();
            push_zeros(&mut payload, missing);
        }
        assert(payload@ =~= padded_payload(link_chunk(data@, k as nat)));
        frames.push(build_frame(dest_mac, src_mac, ETHER_TYPE_IPV4, payload.as_slice()));
        k = k + 1;
    }
    Ok(frames)
}

/// Keeps a captured frame (whole, CRC included) if it passes the size, destination and
/// CRC checks.
pub fn handle_frame(data: &[u8], local_mac: &[u8; 6]) -> (r: Option<Vec<u8>>)
    ensures
        frame_accepted(data@, local_mac@) ==> (r matches Some(f) && f@ == data@),
        !frame_accepted(data@, local_mac@) ==> r is None,
{
    if data.len() < HEADER_LEN + CRC_LEN {
        return None;
    }
    if data.len() < MIN_FRAME_SIZE || data.len() > MAX_FRAME_SIZE {
        return None;
    }
    let dest: &[u8] = &data[0..6];
    if !bytes_equal(dest, local_mac) && !bytes_equal(dest, &BROADCAST_MAC) {
        return None;
    }
    let payload_end: usize = data.len() - CRC_LEN;
    let crc_expect: u32 = read_u32_be(data, payload_end);
    let crc_calc: u32 = crc32(&data[0..payload_end]);
    if crc_calc != crc_expect {
        return None;
    }
    Some(bytes_to_vec(data))
}

} // verus!
