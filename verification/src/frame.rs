//! Ethernet frames: header layout, the CRC-32 trailer, minimum-size padding, and the
//! receive-side checks (size, destination, CRC).
use vstd::prelude::*;

use crate::bytes::{append_bytes, be32, push_u16_be, push_u32_be, push_zeros, u16_be_bytes, u32_be_bytes};

verus! {

pub const BROADCAST_MAC: [u8; 6] = [0xFF, 0xFF, 0xFF, 0xFF, 0xFF, 0xFF];

pub const ETHER_TYPE_IPV4: u16 = 0x0800;

pub const ETHER_TYPE_ARP: u16 = 0x0806;

pub const MIN_PAYLOAD_LEN: usize = 46;

pub const MAX_PAYLOAD_LEN: usize = 1500;

pub const MIN_FRAME_SIZE: usize = 64;

pub const MAX_FRAME_SIZE: usize = 1518;

pub const HEADER_LEN: usize = 14;

pub const CRC_LEN: usize = 4;

pub const IPV4_BROADCAST: [u8; 4] = [255, 255, 255, 255];

/// One bit step of the MSB-first CRC-32 with polynomial 0x04C11DB7.
pub open spec fn crc_step(c: u32) -> u32 {
    if c & 0x8000_0000 != 0 {
        (c << 1) ^ 0x04C1_1DB7
    } else {
        c << 1
    }
}

/// `k` bit steps.
pub open spec fn crc_steps(c: u32, k: nat) -> u32
    decreases k,
{
    if k == 0 {
        c
    } else {
        crc_step(crc_steps(c, (k - 1) as nat))
    }
}

/// The register after feeding `data` into register `c`, one byte (most significant bit
/// first) at a time.
pub open spec fn crc_feed(c: u32, data: Seq<u8>) -> u32
    decreases data.len(),
{
    if data.len() == 0 {
        c
    } else {
        crc_steps(crc_feed(c, data.drop_last()) ^ ((data.last() as u32) << 24), 8)
    }
}

/// CRC-32 (MSB first, polynomial 0x04C11DB7, initial value all ones, result inverted).
pub open spec fn crc32_spec(data: Seq<u8>) -> u32 {
    !crc_feed(0xFFFF_FFFF, data)
}

/// CRC-32 of `data`.
pub fn crc32(data: &[u8]) -> (r: u32)
    ensures
        r == crc32_spec(data@),
{
    let mut crc: u32 = 0xFFFF_FFFF;
    let n: usize = data.len();
    let mut i: usize = 0;
    while i < n
        invariant
            n == data@.len(),
            i <= n,
            crc == crc_feed(0xFFFF_FFFF, data@.subrange(0, i as int)),
        decreases n - i,
    {
        crc = crc ^ ((data[i] as u32) << 24);
        let ghost start = crc;
        let mut bit: usize = 0;
        while bit < 8
            invariant
                bit <= 8,
                crc == crc_steps(start, bit as nat),
            decreases 8 - bit,
        {
            crc = if crc & 0x8000_0000 != 0 {
                (crc << 1) ^ 0x04C1_1DB7
            } else {
                crc << 1
            };
            bit = bit + 1;
        }
        proof {
            let next = data@.subrange(0, i + 1);
            assert(next.drop_last() =~= data@.subrange(0, i as int));
            assert(next.last() == data@[i as int]);
        }
        i = i + 1;
    }
    assert(data@.subrange(0, n as int) =~= data@);
    !crc
}

/// Header and payload of a frame: destination, source, EtherType, payload.
pub open spec fn frame_body(dest: Seq<u8>, src: Seq<u8>, ether_type: u16, payload: Seq<u8>) -> Seq<
    u8,
> {
    dest + src + u16_be_bytes(ether_type) + payload
}

/// `f` padded with zeros up to 60 bytes: a header and a payload of at least 46 bytes.
pub open spec fn padded(f: Seq<u8>) -> Seq<u8> {
    if f.len() < 60 {
        f + Seq::new((60 - f.len()) as nat, |_i: int| 0u8)
    } else {
        f
    }
}

/// A complete frame: header and payload, the payload padded with zeros to 46 bytes,
/// then the CRC-32 (big-endian) of everything before it.
pub open spec fn encode_frame(dest: Seq<u8>, src: Seq<u8>, ether_type: u16, payload: Seq<u8>) -> Seq<
    u8,
> {
    let body = padded(frame_body(dest, src, ether_type, payload));
    body + u32_be_bytes(crc32_spec(body))
}

/// Builds an Ethernet frame carrying `payload`.
pub fn build_frame(dest_mac: &[u8; 6], src_mac: &[u8; 6], ether_type: u16, payload: &[u8]) -> (f:
    Vec<u8>)
    ensures
        f@ == encode_frame(dest_mac@, src_mac@, ether_type, payload@),
{
    let mut frame: Vec<u8> = Vec::new();
    append_bytes(&mut frame, dest_mac);
    append_bytes(&mut frame, src_mac);
    push_u16_be(&mut frame, ether_type);
    append_bytes(&mut frame, payload);
    if frame.len() < HEADER_LEN + MIN_PAYLOAD_LEN {
        let missing: usize = HEADER_LEN + MIN_PAYLOAD_LEN - frame.len();
        push_zeros(&mut frame, missing);
    }
    proof {
        assert(frame@ =~= padded(frame_body(dest_mac@, src_mac@, ether_type, payload@)));
    }
    let crc: u32 = crc32(frame.as_slice());
    push_u32_be(&mut frame, crc);
    frame
}

/// Builds an IPv4 Ethernet frame around an IPv4 packet.
pub fn build_frame_from_payload(payload: &[u8], src_mac: &[u8; 6], dest_mac: &[u8; 6]) -> (f: Vec<
    u8,
>)
    ensures
        f@ == encode_frame(dest_mac@, src_mac@, ETHER_TYPE_IPV4, payload@),
{
    build_frame(dest_mac, src_mac, ETHER_TYPE_IPV4, payload)
}

/// The CRC-32 a received frame carries in its last four bytes.
pub open spec fn carried_crc(data: Seq<u8>) -> int {
    be32(data[data.len() - 4], data[data.len() - 3], data[data.len() - 2], data[data.len() - 1])
}

/// The receive-side checks: size between 64 and 1518 bytes, addressed to `local_mac` or
/// to broadcast, and a CRC-32 over everything before the last four bytes that matches them.
pub open spec fn frame_accepted(data: Seq<u8>, local_mac: Seq<u8>) -> bool {
    &&& 64 <= data.len() <= 1518
    &&& (data.subrange(0, 6) == local_mac || data.subrange(0, 6) == BROADCAST_MAC@)
    &&& crc32_spec(data.subrange(0, data.len() - 4)) == carried_crc(data)
}

/// Law (build, then check): a frame built around a payload of at most 1500 bytes passes
/// the receive checks at its destination; everything before its CRC is the header and the
/// payload, padded with zeros to 46 bytes.
pub proof fn law_built_frame_accepted(dest: Seq<u8>, src: Seq<u8>, ether_type: u16, payload: Seq<u8>)
    requires
        dest.len() == 6,
        src.len() == 6,
        payload.len() <= 1500,
    ensures
        ({
            let f = encode_frame(dest, src, ether_type, payload);
            &&& frame_accepted(f, dest)
            &&& f.subrange(0, f.len() - 4) == padded(frame_body(dest, src, ether_type, payload))
        }),
{
    let body = padded(frame_body(dest, src, ether_type, payload));
    let c = crc32_spec(body);
    let f = encode_frame(dest, src, ether_type, payload);
    assert(f == body + u32_be_bytes(c));
    assert(60 <= body.len() <= 1514);
    assert(f.subrange(0, f.len() - 4) =~= body);
    assert(f.subrange(0, 6) =~= dest);
    assert(f[f.len() - 4] == u32_be_bytes(c)[0]);
    assert(f[f.len() - 3] == u32_be_bytes(c)[1]);
    assert(f[f.len() - 2] == u32_be_bytes(c)[2]);
    assert(f[f.len() - 1] == u32_be_bytes(c)[3]);
    assert(carried_crc(f) == c);
}

/// A frame around a payload of at least 46 bytes is not padded: it is the destination,
/// the source, the EtherType, the payload and the four CRC bytes.
pub proof fn lemma_frame_carries(dest: Seq<u8>, src: Seq<u8>, ether_type: u16, payload: Seq<u8>)
    requires
        dest.len() == 6,
        src.len() == 6,
        payload.len() >= 46,
    ensures
        ({
            let f = encode_frame(dest, src, ether_type, payload);
            &&& f.len() == payload.len() + 18
            &&& f.subrange(0, 6) == dest
            &&& f.subrange(6, 12) == src
            &&& f.subrange(14, f.len() - 4) == payload
        }),
{
    let body = frame_body(dest, src, ether_type, payload);
    let f = encode_frame(dest, src, ether_type, payload);
    assert(padded(body) == body);
    assert(f.subrange(0, 6) =~= dest);
    assert(f.subrange(6, 12) =~= src);
    assert(f.subrange(14, f.len() - 4) =~= payload);
}

} // verus!
