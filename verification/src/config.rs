//! The static network profile used for routing and ARP decisions: subnet mask, gateway,
//! DNS servers and the DHCP flag, each overridable by a configured text value.
use vstd::prelude::*;

use crate::text::{
    dotted_text, lemma_dec_text, lemma_split_dotted_text,
    parse_unsigned, parse_unsigned_spec, split_chars, split_on, str_chars, to_ascii_lower,
    trim_chars, trimmed, ascii_lower, chars_equal,
};

verus! {

/// 255.255.255.0
pub const DEFAULT_SUBNET_MASK: [u8; 4] = [255, 255, 255, 0];

/// 192.168.1.1
pub const DEFAULT_GATEWAY_IP: [u8; 4] = [192, 168, 1, 1];

/// 114.114.114.114
pub const DEFAULT_DNS1: [u8; 4] = [114, 114, 114, 114];

/// 8.8.8.8
pub const DEFAULT_DNS2: [u8; 4] = [8, 8, 8, 8];

pub const DEFAULT_DHCP_ENABLED: bool = true;

/// Subnet mask, gateway, DNS servers and DHCP flag of the local network.
#[derive(Debug, Clone, Copy)]
pub struct NetworkProfile {
    pub subnet_mask: [u8; 4],
    pub gateway_ip: [u8; 4],
    pub dns_servers: [[u8; 4]; 2],
    pub dhcp_enabled: bool,
}

/// Piece `i` of a split address, trimmed of whitespace if `trim`.
pub open spec fn quad_piece(parts: Seq<Seq<char>>, i: int, trim: bool) -> Seq<char> {
    if trim {
        trimmed(parts[i])
    } else {
        parts[i]
    }
}

/// The address a dotted-quad text denotes: exactly four `.`-separated pieces, each an
/// unsigned byte in decimal; with `trim`, whitespace around each piece is ignored.
pub open spec fn dotted_quad(s: Seq<char>, trim: bool) -> Option<Seq<u8>> {
    let parts = split_on(s, '.');
    if parts.len() == 4 && (forall|i: int|
        0 <= i < 4 ==> #[trigger] parse_unsigned_spec(quad_piece(parts, i, trim), 10, 255) is Some) {
        Some(Seq::new(4, |i: int| parse_unsigned_spec(quad_piece(parts, i, trim), 10, 255)->0 as u8))
    } else {
        None
    }
}

/// Reads a dotted-quad address, ignoring whitespace around each piece.
pub fn parse_ipv4(input: &str) -> (r: Option<[u8; 4]>)
    ensures
        r matches Some(a) ==> dotted_quad(input@, true) == Some(a@),
        r is None ==> dotted_quad(input@, true) is None,
{
    let chars: Vec<char> = str_chars(input);
    let parts: Vec<Vec<char>> = split_chars(chars.as_slice(), '.');
    let ghost pv = parts@.map_values(|p: Vec<char>| p@);
    if parts.len() != 4 {
        return None;
    }
    let mut bytes: [u8; 4] = [0; 4];
    let mut i: usize = 0;
    while i < 4
        invariant
            parts@.len() == 4,
            pv == parts@.map_values(|p: Vec<char>| p@),
            pv == split_on(input@, '.'),
            i <= 4,
            forall|j: int|
                0 <= j < i ==> parse_unsigned_spec(trimmed(#[trigger] pv[j]), 10, 255) == Some(
                    bytes@[j] as int,
                ),
        decreases 4 - i,
    {
        let piece: Vec<char> = trim_chars(parts[i].as_slice());
        match parse_unsigned(piece.as_slice(), 10, 255) {
            Some(v) => {
                bytes[i] = v as u8;
            },
            None => {
                assert(parse_unsigned_spec(quad_piece(pv, i as int, true), 10, 255) is None);
                return None;
            },
        }
        i = i + 1;
    }
    proof {
        assert forall|k: int| 0 <= k < 4 implies #[trigger] parse_unsigned_spec(
            quad_piece(pv, k, true),
            10,
            255,
        ) is Some by {
            assert(parse_unsigned_spec(trimmed(pv[k]), 10, 255) == Some(bytes@[k] as int));
        }
        assert(bytes@ =~= Seq::new(
            4,
            |k: int| parse_unsigned_spec(quad_piece(pv, k, true), 10, 255)->0 as u8,
        ));
    }
    Some(bytes)
}

/// The DHCP flag a text denotes: `1`, `true` or `yes`, ignoring surrounding whitespace and
/// ASCII case.
pub open spec fn dhcp_flag(s: Seq<char>) -> bool {
    let w = ascii_lower(trimmed(s));
    w == seq!['1'] || w == seq!['t', 'r', 'u', 'e'] || w == seq!['y', 'e', 's']
}

/// Reads the DHCP flag.
pub fn parse_dhcp_flag(raw: &str) -> (r: bool)
    ensures
        r == dhcp_flag(raw@),
{
    let chars: Vec<char> = str_chars(raw);
    let t: Vec<char> = trim_chars(chars.as_slice());
    let w: Vec<char> = to_ascii_lower(t.as_slice());
    let one: [char; 1] = ['1'];
    let yes_true: [char; 4] = ['t', 'r', 'u', 'e'];
    let yes: [char; 3] = ['y', 'e', 's'];
    assert(one@ =~= seq!['1']);
    assert(yes_true@ =~= seq!['t', 'r', 'u', 'e']);
    assert(yes@ =~= seq!['y', 'e', 's']);
    chars_equal(w.as_slice(), one.as_slice()) || chars_equal(w.as_slice(), yes_true.as_slice())
        || chars_equal(w.as_slice(), yes.as_slice())
}

/// A configured address, or the default when there is no value or it does not parse.
pub open spec fn address_or(value: Option<Seq<char>>, default: [u8; 4]) -> Seq<u8> {
    match value {
        Some(s) => match dotted_quad(s, true) {
            Some(a) => a,
            None => default@,
        },
        None => default@,
    }
}

fn address_or_default(value: Option<&str>, default: [u8; 4]) -> (r: [u8; 4])
    ensures
        r@ == address_or(
            match value {
                Some(s) => Some(s@),
                None => None,
            },
            default,
        ),
{
    match value {
        Some(s) => match parse_ipv4(s) {
            Some(a) => a,
            None => default,
        },
        None => default,
    }
}

impl NetworkProfile {
    /// The profile from configured values (mask, gateway, first and second DNS server,
    /// DHCP flag); each value that is missing or does not parse takes its default.
    pub fn load(
        subnet_mask: Option<&str>,
        gateway_ip: Option<&str>,
        dns1: Option<&str>,
        dns2: Option<&str>,
        dhcp: Option<&str>,
    ) -> (p: NetworkProfile)
        ensures
            p.subnet_mask@ == address_or(
                match subnet_mask {
                    Some(s) => Some(s@),
                    None => None,
                },
                DEFAULT_SUBNET_MASK,
            ),
            p.gateway_ip@ == address_or(
                match gateway_ip {
                    Some(s) => Some(s@),
                    None => None,
                },
                DEFAULT_GATEWAY_IP,
            ),
            p.dns_servers[0]@ == address_or(
                match dns1 {
                    Some(s) => Some(s@),
                    None => None,
                },
                DEFAULT_DNS1,
            ),
            p.dns_servers[1]@ == address_or(
                match dns2 {
                    Some(s) => Some(s@),
                    None => None,
                },
                DEFAULT_DNS2,
            ),
            p.dhcp_enabled == match dhcp {
                Some(s) => dhcp_flag(s@),
                None => DEFAULT_DHCP_ENABLED,
            },
    {
        let mask: [u8; 4] = address_or_default(subnet_mask, DEFAULT_SUBNET_MASK);
        let gateway: [u8; 4] = address_or_default(gateway_ip, DEFAULT_GATEWAY_IP);
        let d1: [u8; 4] = address_or_default(dns1, DEFAULT_DNS1);
        let d2: [u8; 4] = address_or_default(dns2, DEFAULT_DNS2);
        let dhcp_enabled: bool = match dhcp {
            Some(s) => parse_dhcp_flag(s),
            None => DEFAULT_DHCP_ENABLED,
        };
        NetworkProfile {
            subnet_mask: mask,
            gateway_ip: gateway,
            dns_servers: [d1, d2],
            dhcp_enabled,
        }
    }
}

/// Law (format, then parse an address): the text `fmt_ipv4` produces for an address
/// reads back as that address, with or without trimming the pieces.
pub proof fn law_ipv4_text_roundtrip(a: [u8; 4])
    ensures
        dotted_quad(dotted_text(a@), true) == Some(a@),
        dotted_quad(dotted_text(a@), false) == Some(a@),
{
    lemma_split_dotted_text(a@);
    let parts = split_on(dotted_text(a@), '.');
    assert forall|i: int| 0 <= i < 4 implies parse_unsigned_spec(#[trigger] quad_piece(parts, i, true), 10, 255)
        == Some(a@[i] as int) && parse_unsigned_spec(quad_piece(parts, i, false), 10, 255) == Some(
        a@[i] as int,
    ) by {
        lemma_dec_text(a@[i] as nat);
    }
    assert(Seq::new(4, |i: int| parse_unsigned_spec(quad_piece(parts, i, true), 10, 255)->0 as u8)
        =~= a@);
    assert(Seq::new(4, |i: int| parse_unsigned_spec(quad_piece(parts, i, false), 10, 255)->0 as u8)
        =~= a@);
}

} // verus!
