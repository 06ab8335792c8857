//! IPv4 datagrams: header layout, fragmentation of an upper-layer payload into
//! packets, and validation/parsing of received packets.
use vstd::prelude::*;

use crate::bytes::{append_bytes, be16, push_u16_be, push_zeros, read_u16_be, u16_be_bytes};
use crate::checksum::{internet_checksum, internet_checksum_exec};

verus! {

pub const IPV4_VERSION: u8 = 4;

pub const BASE_HEADER_LEN: usize = 20;

/// Every packet built here carries 40 bytes of zeroed options.
pub const OPTIONS_LEN: usize = 40;

pub const FIXED_HEADER_LEN: usize = 60;

pub const MAX_TOTAL_LENGTH: usize = 65_535;

/// Largest payload carried by one fragment; a multiple of 8.
pub const MAX_FRAGMENT_PAYLOAD: usize = 1_400;

/// Header length of the packets built here, in 32-bit words.
pub const BUILD_IHL: u8 = 15;

/// A decoded IPv4 header.
#[derive(Debug, Clone, Copy)]
pub struct Ipv4Header {
    pub version: u8,
    pub ihl: u8,
    pub tos: u8,
    pub total_length: u16,
    pub identification: u16,
    pub df: bool,
    pub mf: bool,
    pub fragment_offset: u16,
    pub ttl: u8,
    pub protocol: u8,
    pub checksum: u16,
    pub src: [u8; 4],
    pub dst: [u8; 4],
}

impl Ipv4Header {
    /// Header length in bytes (`ihl` counts 32-bit words).
    pub fn header_len_bytes(&self) -> (r: usize)
        ensures
            r == self.ihl as nat * 4,
    {
        (self.ihl as usize) * 4
    }

    /// Fragment offset in bytes (the field counts 8-byte units).
    pub fn fragment_offset_bytes(&self) -> (r: usize)
        ensures
            r == self.fragment_offset as nat * 8,
    {
        (self.fragment_offset as usize) * 8
    }
}

/// What the sender chooses for every fragment of one datagram.
#[derive(Debug, Clone, Copy)]
pub struct Ipv4BuildParams {
    pub src: [u8; 4],
    pub dst: [u8; 4],
    pub protocol: u8,
    pub ttl: u8,
    pub tos: u8,
    pub df: bool,
    /// `None` takes the next value of the sender's identification counter.
    pub identification: Option<u16>,
}

/// One built fragment: its header and its complete wire bytes.
#[derive(Debug)]
pub struct Ipv4Packet {
    pub header: Ipv4Header,
    pub bytes: Vec<u8>,
}

/// A validated packet: the header and views of the options and payload bytes.
#[derive(Debug)]
pub struct ParsedIpv4<'a> {
    pub header: Ipv4Header,
    pub options: &'a [u8],
    pub payload: &'a [u8],
}

/// A datagram whose fragments have all arrived.
#[derive(Debug, Clone)]
pub struct ReassembledPacket {
    pub header: Ipv4Header,
    pub payload: Vec<u8>,
}

/// Why a datagram could not be built or a packet was rejected.
#[derive(Debug, Clone, Copy, PartialEq, Eq)]
pub enum Ipv4Error {
    /// DF is set but the payload needs more than one fragment.
    DontFragmentTooLarge,
    /// A fragment size could not be aligned to 8 bytes.
    UnalignedFragment,
    /// A fragment would exceed 65535 bytes.
    FragmentTooLong,
    /// Fewer than 20 bytes.
    TooShort,
    /// The version nibble is not 4.
    UnsupportedVersion(u8),
    /// IHL below 5.
    InvalidIhl(u8),
    /// The data is shorter than the header length.
    HeaderTruncated,
    /// The total length is smaller than the header length.
    TotalLengthTooSmall,
    /// The data is shorter than the total length.
    Incomplete,
    /// The header checksum does not match.
    BadChecksum { computed: u16, expected: u16 },
}

/// The identification counter that numbers datagrams sent without an explicit
/// identification. It wraps around after 65535.
pub struct IdentCounter {
    next: u16,
}

impl View for IdentCounter {
    type V = u16;

    closed spec fn view(&self) -> u16 {
        self.next
    }
}

/// The value after `x` in a wrapping 16-bit counter.
pub open spec fn next_ident(x: u16) -> u16 {
    if x == 0xFFFF {
        0
    } else {
        (x + 1) as u16
    }
}

impl IdentCounter {
    /// A counter whose first value is 0.
    pub fn new() -> (c: Self)
        ensures
            c@ == 0,
    {
        IdentCounter { next: 0 }
    }

    /// Returns the current value and advances the counter.
    pub fn take(&mut self) -> (v: u16)
        ensures
            v == old(self)@,
            final(self)@ == next_ident(old(self)@),
    {
        let v: u16 = self.next;
        self.next = self.next.wrapping_add(1);
        v
    }
}

/// The 16-bit flags/fragment-offset word: DF is bit 14, MF bit 13, the offset the low 13 bits.
pub open spec fn flags_word(df: bool, mf: bool, fragment_offset: u16) -> u16 {
    ((if df { 0x4000int } else { 0 }) + (if mf { 0x2000int } else { 0 }) + fragment_offset
        % 0x2000) as u16
}

/// Forty zero option bytes.
pub open spec fn zero_options() -> Seq<u8> {
    Seq::new(40, |_i: int| 0u8)
}

/// The 60 wire bytes of a built header: the 20-byte base header followed by 40 zero option bytes.
pub open spec fn encode_header(h: Ipv4Header) -> Seq<u8> {
    seq![(h.version * 16 + h.ihl) as u8, h.tos] + u16_be_bytes(h.total_length) + u16_be_bytes(
        h.identification,
    ) + u16_be_bytes(flags_word(h.df, h.mf, h.fragment_offset)) + seq![h.ttl, h.protocol]
        + u16_be_bytes(h.checksum) + h.src@ + h.dst@ + zero_options()
}

/// `h` with a zero checksum field: what the checksum is computed over.
pub open spec fn without_checksum(h: Ipv4Header) -> Ipv4Header {
    Ipv4Header { checksum: 0, ..h }
}

/// The header of fragment `k` of a datagram built from `payload_len` bytes.
pub open spec fn fragment_header(
    params: Ipv4BuildParams,
    ident: u16,
    payload_len: nat,
    k: nat,
) -> Ipv4Header {
    let h0 = Ipv4Header {
        version: 4,
        ihl: 15,
        tos: params.tos,
        total_length: (60 + fragment_len(payload_len, k)) as u16,
        identification: ident,
        df: params.df,
        mf: k + 1 < fragment_count(payload_len),
        fragment_offset: ((k * 1400 / 8) % 0x1_0000) as u16,
        ttl: params.ttl,
        protocol: params.protocol,
        checksum: 0,
        src: params.src,
        dst: params.dst,
    };
    Ipv4Header { checksum: internet_checksum(encode_header(h0)), ..h0 }
}

/// Number of fragments of a payload of `len` bytes (an empty payload still makes one packet).
pub open spec fn fragment_count(len: nat) -> nat {
    if len == 0 {
        1
    } else {
        ((len + 1399) / 1400) as nat
    }
}

/// Start of fragment `k`'s data in the payload.
pub open spec fn fragment_start(k: nat) -> nat {
    k * 1400
}

/// Length of fragment `k`'s data.
pub open spec fn fragment_len(len: nat, k: nat) -> nat {
    if len >= (k + 1) * 1400 {
        1400
    } else if len >= k * 1400 {
        (len - k * 1400) as nat
    } else {
        0
    }
}

/// The data bytes of fragment `k` of `payload`.
pub open spec fn fragment_data(payload: Seq<u8>, k: nat) -> Seq<u8> {
    payload.subrange(fragment_start(k) as int, (fragment_start(k) + fragment_len(payload.len(), k)) as int)
}

/// The identification a datagram gets: the explicit one, or the counter's current value.
pub open spec fn chosen_ident(params: Ipv4BuildParams, counter: u16) -> u16 {
    match params.identification {
        Some(i) => i,
        None => counter,
    }
}

/// Whether `packets` are exactly the fragments of `payload` under `params` and `ident`.
pub open spec fn are_fragments_of(
    packets: Seq<Ipv4Packet>,
    payload: Seq<u8>,
    params: Ipv4BuildParams,
    ident: u16,
) -> bool {
    &&& packets.len() == fragment_count(payload.len())
    &&& forall|k: int|
        0 <= k < packets.len() ==> {
            &&& (#[trigger] packets[k]).header == fragment_header(
                params,
                ident,
                payload.len(),
                k as nat,
            )
            &&& packets[k].bytes@ == encode_header(packets[k].header) + fragment_data(
                payload,
                k as nat,
            )
        }
}

/// Wire bytes of a header, exactly `encode_header(h)`.
pub fn encode_header_exec(h: &Ipv4Header) -> (v: Vec<u8>)
    requires
        h.version < 16,
        h.ihl < 16,
    ensures
        v@ == encode_header(*h),
{
    let mut v: Vec<u8> = Vec::new();
    v.push(h.version * 16 + h.ihl);
    v.push(h.tos);
    push_u16_be(&mut v, h.total_length);
    push_u16_be(&mut v, h.identification);
    let df_bits: u16 = if h.df { 0x4000 } else { 0 };
    let mf_bits: u16 = if h.mf { 0x2000 } else { 0 };
    push_u16_be(&mut v, df_bits + mf_bits + h.fragment_offset % 0x2000);
    v.push(h.ttl);
    v.push(h.protocol);
    push_u16_be(&mut v, h.checksum);
    append_bytes(&mut v, &h.src);
    append_bytes(&mut v, &h.dst);
    push_zeros(&mut v, OPTIONS_LEN);
    assert(v@ =~= encode_header(*h));
    v
}

/// Builds one fragment carrying `data`.
fn build_single_fragment(
    data: &[u8],
    params: &Ipv4BuildParams,
    identification: u16,
    ihl: u8,
    mf: bool,
    fragment_offset: u16,
) -> (r: Result<Ipv4Packet, Ipv4Error>)
    requires
        ihl < 16,
    ensures
        ihl as nat * 4 + data@.len() > MAX_TOTAL_LENGTH ==> r == Err::<Ipv4Packet, Ipv4Error>(
            Ipv4Error::FragmentTooLong,
        ),
        ihl as nat * 4 + data@.len() <= MAX_TOTAL_LENGTH ==> (r matches Ok(p) && {
            let h0 = Ipv4Header {
                version: 4,
                ihl: ihl,
                tos: params.tos,
                total_length: (ihl as nat * 4 + data@.len()) as u16,
                identification: identification,
                df: params.df,
                mf: mf,
                fragment_offset: fragment_offset,
                ttl: params.ttl,
                protocol: params.protocol,
                checksum: 0,
                src: params.src,
                dst: params.dst,
            };
            &&& p.header == Ipv4Header { checksum: internet_checksum(encode_header(h0)), ..h0 }
            &&& p.bytes@ == encode_header(p.header) + data@
        }),
{
    let header_len: usize = (ihl as usize) * 4;
    if data.len() > MAX_TOTAL_LENGTH - header_len {
        return Err(Ipv4Error::FragmentTooLong);
    }
    let total_length: usize = header_len + data.len();
    let h0 = Ipv4Header {
        version: IPV4_VERSION,
        ihl,
        tos: params.tos,
        total_length: total_length as u16,
        identification,
        df: params.df,
        mf,
        fragment_offset,
        ttl: params.ttl,
        protocol: params.protocol,
        checksum: 0,
        src: params.src,
        dst: params.dst,
    };
    let unsummed: Vec<u8> = encode_header_exec(&h0);
    let checksum: u16 = internet_checksum_exec(unsummed.as_slice());
    let header = Ipv4Header { checksum, ..h0 };
    let mut bytes: Vec<u8> = encode_header_exec(&header);
    append_bytes(&mut bytes, data);
    Ok(Ipv4Packet { header, bytes })
}

/// Splits `payload` into IPv4 fragments of at most 1400 bytes each (an empty payload
/// gives one empty packet). Fails when DF is set and the payload exceeds one fragment.
/// Without an explicit identification the counter supplies one and advances.
pub fn build_ipv4_packets(
    payload: &[u8],
    params: &Ipv4BuildParams,
    counter: &mut IdentCounter,
) -> (r: Result<Vec<Ipv4Packet>, Ipv4Error>)
    ensures
        params.df && payload@.len() > MAX_FRAGMENT_PAYLOAD ==> {
            &&& r == Err::<Vec<Ipv4Packet>, Ipv4Error>(Ipv4Error::DontFragmentTooLarge)
            &&& final(counter)@ == old(counter)@
        },
        !(params.df && payload@.len() > MAX_FRAGMENT_PAYLOAD) ==> {
            &&& (r matches Ok(packets) && are_fragments_of(
                packets@,
                payload@,
                *params,
                chosen_ident(*params, old(counter)@),
            ))
            &&& final(counter)@ == if params.identification is Some {
                old(counter)@
            } else {
                next_ident(old(counter)@)
            }
        },
{
    if params.df && payload.len() > MAX_FRAGMENT_PAYLOAD {
        return Err(Ipv4Error::DontFragmentTooLarge);
    }
    let ihl: u8 = (FIXED_HEADER_LEN / 4) as u8;
    let identification: u16 = match params.identification {
        Some(i) => i,
        None => counter.take(),
    };
    let ghost len = payload@.len();
    if payload.len() == 0 {
        let first = build_single_fragment(&[], params, identification, ihl, false, 0);
        let packet = match first {
            Ok(p) => p,
            Err(e) => return Err(e),
        };
        let mut fragments: Vec<Ipv4Packet> = Vec::new();
        fragments.push(packet);
        proof {
            let h = fragment_header(*params, identification, 0, 0);
            assert(fragments@[0].header == h);
            assert(fragment_data(payload@, 0) =~= Seq::<u8>::empty());
            assert(fragments@[0].bytes@ =~= encode_header(h) + fragment_data(payload@, 0));
        }
        return Ok(fragments);
    }
    let mut fragments: Vec<Ipv4Packet> = Vec::new();
    let mut offset: usize = 0;
    let n: usize = payload.len();
    while offset < n
        invariant
            n == payload@.len(),
            n == len,
            len > 0,
            ihl == 15,
            offset <= n,
            offset < n ==> offset == fragments@.len() * 1400,
            offset == n ==> fragments@.len() == fragment_count(len),
            forall|k: int|
                0 <= k < fragments@.len() ==> {
                    &&& (#[trigger] fragments@[k]).header == fragment_header(
                        *params,
                        identification,
                        len,
                        k as nat,
                    )
                    &&& fragments@[k].bytes@ == encode_header(fragments@[k].header)
                        + fragment_data(payload@, k as nat)
                },
        decreases n - offset,
    {
        let remaining: usize = n - offset;
        let mut current: usize = if remaining < MAX_FRAGMENT_PAYLOAD {
            remaining
        } else {
            MAX_FRAGMENT_PAYLOAD
        };
        let is_last: bool = current == remaining;
        if !is_last {
            current = current - current % 8;
            if current == 0 {
                return Err(Ipv4Error::UnalignedFragment);
            }
        }
        let slice: &[u8] = &payload[offset..offset + current];
        let fragment_offset: u16 = ((offset / 8) % 0x1_0000) as u16;
        let mf: bool = !is_last;
        let ghost k: nat = fragments@.len();
        proof {
            if is_last {
                assert(fragment_count(len) == k + 1) by (nonlinear_arith)
                    requires
                        len == offset + remaining,
                        0 < remaining <= 1400,
                        offset == k * 1400,
                        fragment_count(len) == (len + 1399) / 1400,
                ;
            } else {
                assert(fragment_count(len) > k + 1) by (nonlinear_arith)
                    requires
                        len == offset + remaining,
                        remaining > 1400,
                        offset == k * 1400,
                        fragment_count(len) == (len + 1399) / 1400,
                ;
            }
            assert(fragment_len(len, k) == current);
            assert(fragment_offset == ((k * 1400 / 8) % 0x1_0000) as u16);
            assert(slice@ =~= fragment_data(payload@, k));
        }
        let packet = match build_single_fragment(
            slice,
            params,
            identification,
            ihl,
            mf,
            fragment_offset,
        ) {
            Ok(p) => p,
            Err(e) => return Err(e),
        };
        fragments.push(packet);
        offset = offset + current;
    }
    Ok(fragments)
}

/// The bytes the header checksum is verified over: the first `hl` bytes with the
/// checksum field (bytes 10 and 11) zeroed.
pub open spec fn checksum_input(data: Seq<u8>, hl: int) -> Seq<u8> {
    data.subrange(0, hl).update(10, 0).update(11, 0)
}

/// Header length in bytes announced by the first byte.
pub open spec fn announced_header_len(data: Seq<u8>) -> int {
    (data[0] % 16) as int * 4
}

/// Total length announced by bytes 2 and 3.
pub open spec fn announced_total_len(data: Seq<u8>) -> int {
    be16(data[2], data[3])
}

/// The first check a received packet fails, in the order they are made; `None` when it passes them all.
pub open spec fn ipv4_rejection(data: Seq<u8>) -> Option<Ipv4Error> {
    if data.len() < 20 {
        Some(Ipv4Error::TooShort)
    } else if data[0] / 16 != 4 {
        Some(Ipv4Error::UnsupportedVersion(data[0] / 16))
    } else if data[0] % 16 < 5 {
        Some(Ipv4Error::InvalidIhl(data[0] % 16))
    } else if data.len() < announced_header_len(data) {
        Some(Ipv4Error::HeaderTruncated)
    } else if announced_total_len(data) < announced_header_len(data) {
        Some(Ipv4Error::TotalLengthTooSmall)
    } else if data.len() < announced_total_len(data) {
        Some(Ipv4Error::Incomplete)
    } else if internet_checksum(checksum_input(data, announced_header_len(data))) != be16(
        data[10],
        data[11],
    ) {
        Some(
            Ipv4Error::BadChecksum {
                computed: internet_checksum(checksum_input(data, announced_header_len(data))),
                expected: be16(data[10], data[11]) as u16,
            },
        )
    } else {
        None
    }
}

/// The header fields read from the first 20 bytes of `data`.
pub open spec fn decoded_header(data: Seq<u8>) -> Ipv4Header {
    let flags = be16(data[6], data[7]);
    Ipv4Header {
        version: data[0] / 16,
        ihl: data[0] % 16,
        tos: data[1],
        total_length: be16(data[2], data[3]) as u16,
        identification: be16(data[4], data[5]) as u16,
        df: (flags / 0x4000) % 2 == 1,
        mf: (flags / 0x2000) % 2 == 1,
        fragment_offset: (flags % 0x2000) as u16,
        ttl: data[8],
        protocol: data[9],
        checksum: be16(data[10], data[11]) as u16,
        src: [data[12], data[13], data[14], data[15]],
        dst: [data[16], data[17], data[18], data[19]],
    }
}

/// Validates a received packet (length, version, IHL, total length, header checksum)
/// and splits it into header, options and payload; bytes past the total length are ignored.
pub fn parse_ipv4_packet(data: &[u8]) -> (r: Result<ParsedIpv4<'_>, Ipv4Error>)
    ensures
        r is Err <==> ipv4_rejection(data@) is Some,
        r matches Err(e) ==> ipv4_rejection(data@) == Some(e),
        r matches Ok(p) ==> {
            &&& p.header == decoded_header(data@)
            &&& p.options@ == data@.subrange(20, announced_header_len(data@))
            &&& p.payload@ == data@.subrange(
                announced_header_len(data@),
                announced_total_len(data@),
            )
        },
{
    if data.len() < BASE_HEADER_LEN {
        return Err(Ipv4Error::TooShort);
    }
    let version: u8 = data[0] / 16;
    if version != IPV4_VERSION {
        return Err(Ipv4Error::UnsupportedVersion(version));
    }
    let ihl: u8 = data[0] % 16;
    if ihl < 5 {
        return Err(Ipv4Error::InvalidIhl(ihl));
    }
    let header_len: usize = (ihl as usize) * 4;
    if data.len() < header_len {
        return Err(Ipv4Error::HeaderTruncated);
    }
    let total_length: usize = read_u16_be(data, 2) as usize;
    if total_length < header_len {
        return Err(Ipv4Error::TotalLengthTooSmall);
    }
    if data.len() < total_length {
        return Err(Ipv4Error::Incomplete);
    }
    let flags_fragment: u16 = read_u16_be(data, 6);
    let df: bool = (flags_fragment / 0x4000) % 2 == 1;
    let mf: bool = (flags_fragment / 0x2000) % 2 == 1;
    let fragment_offset: u16 = flags_fragment % 0x2000;
    let checksum: u16 = read_u16_be(data, 10);
    let mut header_copy: Vec<u8> = Vec::new();
    append_bytes(&mut header_copy, &data[0..header_len]);
    header_copy.set(10, 0);
    header_copy.set(11, 0);
    proof {
        assert(header_copy@ =~= checksum_input(data@, header_len as int));
    }
    let calc: u16 = internet_checksum_exec(header_copy.as_slice());
    if calc != checksum {
        return Err(Ipv4Error::BadChecksum { computed: calc, expected: checksum });
    }
    let header = Ipv4Header {
        version,
        ihl,
        tos: data[1],
        total_length: total_length as u16,
        identification: read_u16_be(data, 4),
        df,
        mf,
        fragment_offset,
        ttl: data[8],
        protocol: data[9],
        checksum,
        src: [data[12], data[13], data[14], data[15]],
        dst: [data[16], data[17], data[18], data[19]],
    };
    let options: &[u8] = &data[BASE_HEADER_LEN..header_len];
    let payload: &[u8] = &data[header_len..total_length];
    Ok(ParsedIpv4 { header, options, payload })
}

/// The IPv4 header checksum of `header` (Internet checksum).
pub fn ipv4_checksum(header: &[u8]) -> (c: u16)
    ensures
        c == internet_checksum(header@),
{
    internet_checksum_exec(header)
}

/// Decoding a big-endian pair gives back the 16-bit value.
pub proof fn lemma_be16_roundtrip(x: u16)
    ensures
        be16(u16_be_bytes(x)[0], u16_be_bytes(x)[1]) == x,
{
}

/// A header's encoding with the checksum field zeroed is the encoding of the header
/// without its checksum.
pub proof fn lemma_checksum_input_of_encoding(h: Ipv4Header, tail: Seq<u8>)
    requires
        h.version * 16 + h.ihl < 256,
    ensures
        checksum_input(encode_header(h) + tail, 60) == encode_header(without_checksum(h)),
{
    let b = encode_header(h) + tail;
    assert(encode_header(h).len() == 60);
    assert(b.subrange(0, 60) =~= encode_header(h));
    assert(checksum_input(b, 60) =~= encode_header(without_checksum(h)));
}

/// The flags word decodes back to DF, MF and the 13-bit offset.
pub proof fn lemma_flags_roundtrip(df: bool, mf: bool, fragment_offset: u16)
    ensures
        ({
            let w = flags_word(df, mf, fragment_offset) as int;
            &&& ((w / 0x4000) % 2 == 1) == df
            &&& ((w / 0x2000) % 2 == 1) == mf
            &&& w % 0x2000 == fragment_offset % 0x2000
        }),
{
    let r = fragment_offset % 0x2000;
    assert(0 <= r < 0x2000);
}

/// Law (build, then parse): each packet that `build_ipv4_packets` produces passes every
/// check of `parse_ipv4_packet`; the decoded header is the built one with its fragment
/// offset reduced to the 13 bits the wire carries, and the parsed payload is exactly that
/// fragment's share of the whole payload.
pub proof fn law_built_fragment_parses(payload: Seq<u8>, params: Ipv4BuildParams, ident: u16, k: nat)
    requires
        k < fragment_count(payload.len()),
    ensures
        ({
            let h = fragment_header(params, ident, payload.len(), k);
            let bytes = encode_header(h) + fragment_data(payload, k);
            &&& ipv4_rejection(bytes) is None
            &&& decoded_header(bytes) == Ipv4Header {
                fragment_offset: h.fragment_offset % 0x2000,
                ..h
            }
            &&& bytes.subrange(announced_header_len(bytes), announced_total_len(bytes))
                == fragment_data(payload, k)
            &&& bytes.subrange(20, announced_header_len(bytes)) == zero_options()
        }),
{
    let h = fragment_header(params, ident, payload.len(), k);
    let data = fragment_data(payload, k);
    let bytes = encode_header(h) + data;
    let fl = fragment_len(payload.len(), k);
    assert(fl <= 1400);
    if payload.len() >= (k + 1) * 1400 {
    } else if payload.len() >= k * 1400 {
    } else {
        assert(fragment_count(payload.len()) <= k) by (nonlinear_arith)
            requires
                payload.len() < k * 1400,
                fragment_count(payload.len()) == if payload.len() == 0 {
                    1
                } else {
                    (payload.len() + 1399) / 1400
                },
                k >= 1 || payload.len() < 0,
        ;
    }
    assert(data.len() == fl) by {
        if payload.len() >= (k + 1) * 1400 {
            assert(fragment_start(k) + 1400 <= payload.len()) by (nonlinear_arith)
                requires
                    payload.len() >= (k + 1) * 1400,
                    fragment_start(k) == k * 1400,
            ;
        }
    }
    assert(encode_header(h).len() == 60);
    assert(bytes.len() == 60 + fl);
    assert(bytes[0] == 79);
    lemma_be16_roundtrip(h.total_length);
    assert(bytes[2] == u16_be_bytes(h.total_length)[0]);
    assert(bytes[3] == u16_be_bytes(h.total_length)[1]);
    assert(announced_total_len(bytes) == 60 + fl);
    lemma_checksum_input_of_encoding(h, data);
    lemma_be16_roundtrip(h.checksum);
    assert(bytes[10] == u16_be_bytes(h.checksum)[0]);
    assert(bytes[11] == u16_be_bytes(h.checksum)[1]);
    let h0 = without_checksum(h);
    assert(h0 == Ipv4Header { checksum: 0, ..h });
    assert(ipv4_rejection(bytes) is None);
    lemma_be16_roundtrip(h.identification);
    assert(bytes[4] == u16_be_bytes(h.identification)[0]);
    assert(bytes[5] == u16_be_bytes(h.identification)[1]);
    let w = flags_word(h.df, h.mf, h.fragment_offset);
    lemma_be16_roundtrip(w);
    lemma_flags_roundtrip(h.df, h.mf, h.fragment_offset);
    assert(bytes[6] == u16_be_bytes(w)[0]);
    assert(bytes[7] == u16_be_bytes(w)[1]);
    let d = decoded_header(bytes);
    assert(d.src@ =~= h.src@);
    assert(d.dst@ =~= h.dst@);
    assert(d.src == h.src);
    assert(d.dst == h.dst);
    assert(bytes.subrange(60, 60 + fl as int) =~= data);
    assert(bytes.subrange(20, 60) =~= zero_options());
}

/// The payload a received packet carries: the bytes between its header and its total length.
pub open spec fn carried_payload(bytes: Seq<u8>) -> Seq<u8> {
    bytes.subrange(announced_header_len(bytes), announced_total_len(bytes))
}

/// The payloads the first `k` packets carry, joined in order.
pub open spec fn joined_payloads(packets: Seq<Ipv4Packet>, k: nat) -> Seq<u8>
    decreases k,
{
    if k == 0 || k > packets.len() {
        Seq::empty()
    } else {
        joined_payloads(packets, (k - 1) as nat) + carried_payload(packets[k - 1].bytes@)
    }
}

/// Fragment `k` starts where the payload has not ended yet (or at 0), and ends at the
/// next multiple of 1400 or at the payload's end, whichever comes first.
proof fn lemma_fragment_bounds(len: nat, k: nat)
    requires
        k < fragment_count(len),
    ensures
        k * 1400 <= len,
        k * 1400 + fragment_len(len, k) == if len >= (k + 1) * 1400 {
            ((k + 1) * 1400) as int
        } else {
            len as int
        },
        fragment_count(len) * 1400 >= len,
{
    if len > 0 {
        assert(k * 1400 < len) by (nonlinear_arith)
            requires
                k < fragment_count(len),
                fragment_count(len) == (len + 1399) / 1400,
        ;
        assert(fragment_count(len) * 1400 >= len) by (nonlinear_arith)
            requires
                fragment_count(len) == (len + 1399) / 1400,
        ;
    }
}

/// The payload built packet `i` carries is fragment `i`'s share.
proof fn lemma_carried_fragment(packets: Seq<Ipv4Packet>, payload: Seq<u8>, params: Ipv4BuildParams, ident: u16, i: nat)
    requires
        are_fragments_of(packets, payload, params, ident),
        i < packets.len(),
    ensures
        carried_payload(packets[i as int].bytes@) == fragment_data(payload, i),
{
    law_built_fragment_parses(payload, params, ident, i);
    assert(packets[i as int].header == fragment_header(params, ident, payload.len(), i));
}

/// The payloads of the first `k` built fragments, joined, are the payload up to fragment
/// `k`'s start.
proof fn lemma_joined_prefix(packets: Seq<Ipv4Packet>, payload: Seq<u8>, params: Ipv4BuildParams, ident: u16, k: nat)
    requires
        are_fragments_of(packets, payload, params, ident),
        k <= packets.len(),
    ensures
        joined_payloads(packets, k) == payload.subrange(
            0,
            if k * 1400 <= payload.len() {
                (k * 1400) as int
            } else {
                payload.len() as int
            },
        ),
    decreases k,
{
    if k > 0 {
        let i = (k - 1) as nat;
        let len = payload.len();
        lemma_joined_prefix(packets, payload, params, ident, i);
        lemma_carried_fragment(packets, payload, params, ident, i);
        lemma_fragment_bounds(len, i);
        let start: int = (i * 1400) as int;
        let end: int = if k * 1400 <= len {
            (k * 1400) as int
        } else {
            len as int
        };
        assert(fragment_data(payload, i) == payload.subrange(start, end));
        assert(joined_payloads(packets, i) == payload.subrange(0, start));
        assert(joined_payloads(packets, k) == joined_payloads(packets, i) + carried_payload(
            packets[i as int].bytes@,
        ));
        assert(payload.subrange(0, start) + payload.subrange(start, end) =~= payload.subrange(0, end));
    }
}

/// Law (build, then parse) over the whole result of `build_ipv4_packets`: every packet
/// passes the receive checks, its decoded header is the built one (fragment offset in the
/// 13 bits the wire carries), its options are the 40 zero bytes, its payload is its
/// fragment's share, and the payloads of all packets joined in order are the payload.
pub proof fn law_built_packets_parse(
    packets: Seq<Ipv4Packet>,
    payload: Seq<u8>,
    params: Ipv4BuildParams,
    ident: u16,
)
    requires
        are_fragments_of(packets, payload, params, ident),
    ensures
        forall|k: int|
            0 <= k < packets.len() ==> {
                &&& ipv4_rejection(#[trigger] packets[k].bytes@) is None
                &&& decoded_header(packets[k].bytes@) == Ipv4Header {
                    fragment_offset: packets[k].header.fragment_offset % 0x2000,
                    ..packets[k].header
                }
                &&& packets[k].bytes@.subrange(20, announced_header_len(packets[k].bytes@))
                    == zero_options()
                &&& carried_payload(packets[k].bytes@) == fragment_data(payload, k as nat)
            },
        joined_payloads(packets, packets.len()) == payload,
{
    assert forall|k: int| 0 <= k < packets.len() implies {
        &&& ipv4_rejection(#[trigger] packets[k].bytes@) is None
        &&& decoded_header(packets[k].bytes@) == Ipv4Header {
            fragment_offset: packets[k].header.fragment_offset % 0x2000,
            ..packets[k].header
        }
        &&& packets[k].bytes@.subrange(20, announced_header_len(packets[k].bytes@))
            == zero_options()
        &&& carried_payload(packets[k].bytes@) == fragment_data(payload, k as nat)
    } by {
        law_built_fragment_parses(payload, params, ident, k as nat);
    }
    lemma_joined_prefix(packets, payload, params, ident, packets.len());
    lemma_fragment_bounds(payload.len(), 0);
    assert(payload.subrange(0, payload.len() as int) =~= payload);
}

/// A built header has the requested addresses and protocol and a 60-byte encoding.
proof fn lemma_header_fields(params: Ipv4BuildParams, ident: u16, len: nat, k: nat)
    ensures
        fragment_header(params, ident, len, k).src == params.src,
        fragment_header(params, ident, len, k).dst == params.dst,
        fragment_header(params, ident, len, k).protocol == params.protocol,
        encode_header(fragment_header(params, ident, len, k)).len() == 60,
{
}

/// Built packet `k` carries the requested addresses and protocol, in its header and in
/// its decoded bytes.
#[verifier::spinoff_prover]
proof fn lemma_fragment_addressed(
    packets: Seq<Ipv4Packet>,
    payload: Seq<u8>,
    params: Ipv4BuildParams,
    ident: u16,
    k: int,
)
    requires
        are_fragments_of(packets, payload, params, ident),
        0 <= k < packets.len(),
    ensures
        packets[k].header.src == params.src,
        packets[k].header.dst == params.dst,
        packets[k].header.protocol == params.protocol,
        packets[k].bytes@.len() >= 60,
        ipv4_rejection(packets[k].bytes@) is None,
        decoded_header(packets[k].bytes@).src == params.src,
        decoded_header(packets[k].bytes@).dst == params.dst,
        decoded_header(packets[k].bytes@).protocol == params.protocol,
{
    let h = fragment_header(params, ident, payload.len(), k as nat);
    let p = packets[k];
    assert(p.header == h && p.bytes@ == encode_header(h) + fragment_data(payload, k as nat));
    lemma_header_fields(params, ident, payload.len(), k as nat);
    law_built_fragment_parses(payload, params, ident, k as nat);
}

/// Law (built packets are addressed as asked): every packet that `build_ipv4_packets`
/// made carries the requested source address, destination address and protocol, both in
/// its header and in its bytes as a receiver decodes them; its bytes pass the receive
/// checks and hold the 60-byte header.
pub proof fn law_fragments_addressed(
    packets: Seq<Ipv4Packet>,
    payload: Seq<u8>,
    params: Ipv4BuildParams,
    ident: u16,
)
    requires
        are_fragments_of(packets, payload, params, ident),
    ensures
        forall|k: int|
            0 <= k < packets.len() ==> {
                &&& (#[trigger] packets[k]).header.src == params.src
                &&& packets[k].header.dst == params.dst
                &&& packets[k].header.protocol == params.protocol
                &&& packets[k].bytes@.len() >= 60
                &&& ipv4_rejection(packets[k].bytes@) is None
                &&& decoded_header(packets[k].bytes@).src == params.src
                &&& decoded_header(packets[k].bytes@).dst == params.dst
                &&& decoded_header(packets[k].bytes@).protocol == params.protocol
            },
{
    assert forall|k: int| 0 <= k < packets.len() implies {
        &&& (#[trigger] packets[k]).header.src == params.src
        &&& packets[k].header.dst == params.dst
        &&& packets[k].header.protocol == params.protocol
        &&& packets[k].bytes@.len() >= 60
        &&& ipv4_rejection(packets[k].bytes@) is None
        &&& decoded_header(packets[k].bytes@).src == params.src
        &&& decoded_header(packets[k].bytes@).dst == params.dst
        &&& decoded_header(packets[k].bytes@).protocol == params.protocol
    } by {
        lemma_fragment_addressed(packets, payload, params, ident, k);
    }
}

} // verus!
