//! ICMPv4 echo: checksum validation of received messages and the echo reply to a request
//! addressed to this host.
use vstd::prelude::*;

use crate::arp::ip_equal;
use crate::bytes::{be16, bytes_equal, bytes_to_vec, read_u16_be, set_u16_be};
use crate::checksum::{
    internet_checksum, internet_checksum_exec, law_checksum_field_verifies, lemma_word_sum_bound,
    ones_sum,
};
use crate::frame::{build_frame, encode_frame, lemma_frame_carries, BROADCAST_MAC, ETHER_TYPE_IPV4};
use crate::ipv4::{
    are_fragments_of, build_ipv4_packets, decoded_header, ipv4_rejection, law_fragments_addressed,
    next_ident, IdentCounter, Ipv4BuildParams, Ipv4Header,
};

verus! {

pub const ICMP_TYPE_ECHO_REPLY: u8 = 0;

pub const ICMP_TYPE_ECHO_REQUEST: u8 = 8;

pub const ICMP_HEADER_LEN: usize = 8;

/// Time to live of the replies.
pub const DEFAULT_TTL: u8 = 64;

/// The ICMP checksum (the Internet checksum) of `data`.
pub fn icmp_checksum(data: &[u8]) -> (c: u16)
    ensures
        c == internet_checksum(data@),
{
    internet_checksum_exec(data)
}

/// A message carries a correct checksum: at least 8 bytes, and bytes 2 and 3 hold the
/// checksum of the message with those two bytes zeroed.
pub open spec fn icmp_valid(p: Seq<u8>) -> bool {
    p.len() >= 8 && internet_checksum(p.update(2, 0).update(3, 0)) == be16(p[2], p[3])
}

/// Whether a received message carries a correct checksum.
pub fn icmp_checksum_valid(payload: &[u8]) -> (r: bool)
    ensures
        r == icmp_valid(payload@),
{
    if payload.len() < ICMP_HEADER_LEN {
        return false;
    }
    let mut buf: Vec<u8> = bytes_to_vec(payload);
    buf.set(2, 0);
    buf.set(3, 0);
    icmp_checksum(buf.as_slice()) == read_u16_be(payload, 2)
}

/// The echo reply to a request: type and code 0, the checksum recomputed, identifier,
/// sequence number and data unchanged.
pub open spec fn echo_reply_message(request: Seq<u8>) -> Seq<u8> {
    let z = request.update(0, 0).update(1, 0).update(2, 0).update(3, 0);
    let c = internet_checksum(z);
    z.update(2, (c / 256) as u8).update(3, (c % 256) as u8)
}

/// The IPv4 parameters of the reply to a request carried in `h`.
pub open spec fn reply_params(local_ip: [u8; 4], h: Ipv4Header) -> Ipv4BuildParams {
    Ipv4BuildParams {
        src: local_ip,
        dst: h.src,
        protocol: h.protocol,
        ttl: DEFAULT_TTL,
        tos: h.tos,
        df: false,
        identification: None,
    }
}

/// What to do with a received ICMP message.
#[derive(Debug)]
pub enum IcmpAction {
    /// Not an echo request for this host (or from a broadcast address): nothing.
    Ignore,
    /// An echo request for this host with a wrong checksum: dropped.
    BadChecksum,
    /// Send these Ethernet frames, which carry the echo reply.
    Reply(Vec<Vec<u8>>),
}

/// The message is an echo request (type 8, code 0) to `local_ip`, of at least 8 bytes and
/// not from the broadcast MAC address.
pub open spec fn is_echo_request_for(
    local_ip: [u8; 4],
    peer_mac: [u8; 6],
    h: Ipv4Header,
    p: Seq<u8>,
) -> bool {
    &&& p.len() >= 8
    &&& peer_mac@ != BROADCAST_MAC@
    &&& p[0] == ICMP_TYPE_ECHO_REQUEST
    &&& p[1] == 0
    &&& h.dst@ == local_ip@
}

/// What answering the ICMP message `p` (from `peer_mac`, in a packet with header `h`)
/// gives, with the identification counter going from `c0` to `c1`: nothing for anything
/// but an echo request to this host, a drop for a bad checksum, otherwise the frames of
/// the echo reply.
pub open spec fn icmp_answered(
    local_mac: [u8; 6],
    local_ip: [u8; 4],
    peer_mac: [u8; 6],
    h: Ipv4Header,
    p: Seq<u8>,
    c0: u16,
    c1: u16,
    r: IcmpAction,
) -> bool {
    if !is_echo_request_for(local_ip, peer_mac, h, p) {
        r is Ignore && c1 == c0
    } else if !icmp_valid(p) {
        r is BadChecksum && c1 == c0
    } else {
        &&& c1 == next_ident(c0)
        &&& exists|packets: Seq<crate::ipv4::Ipv4Packet>|
            {
                &&& #[trigger] are_fragments_of(
                    packets,
                    echo_reply_message(p),
                    reply_params(local_ip, h),
                    c0,
                )
                &&& r matches IcmpAction::Reply(frames) && frames@.len() == packets.len()
                    && forall|k: int|
                    0 <= k < packets.len() ==> (#[trigger] frames@[k])@ == encode_frame(
                        peer_mac@,
                        local_mac@,
                        ETHER_TYPE_IPV4,
                        packets[k].bytes@,
                    )
            }
    }
}

/// Answers an echo request addressed to this host: the reply message is put into IPv4
/// packets back to the sender (the request's protocol and ToS, TTL 64, DF clear) and each
/// packet into a frame from `local_mac` to `peer_mac`.
pub fn handle_icmpv4(
    local_mac: [u8; 6],
    local_ip: [u8; 4],
    peer_mac: [u8; 6],
    ipv4_header: &Ipv4Header,
    payload: &[u8],
    counter: &mut IdentCounter,
) -> (r: IcmpAction)
    ensures
        icmp_answered(
            local_mac,
            local_ip,
            peer_mac,
            *ipv4_header,
            payload@,
            old(counter)@,
            final(counter)@,
            r,
        ),
        r matches IcmpAction::Reply(frames) ==> forall|k: int|
            0 <= k < frames@.len() ==> {
                let f = (#[trigger] frames@[k])@;
                let pkt = f.subrange(14, f.len() - 4);
                &&& f.subrange(0, 6) == peer_mac@
                &&& f.subrange(6, 12) == local_mac@
                &&& ipv4_rejection(pkt) is None
                &&& decoded_header(pkt).protocol == ipv4_header.protocol
                &&& decoded_header(pkt).src == local_ip
                &&& decoded_header(pkt).dst == ipv4_header.src
            },
{
    if payload.len() < ICMP_HEADER_LEN {
        return IcmpAction::Ignore;
    }
    if bytes_equal(&peer_mac, &BROADCAST_MAC) {
        return IcmpAction::Ignore;
    }
    if payload[0] != ICMP_TYPE_ECHO_REQUEST || payload[1] != 0 {
        return IcmpAction::Ignore;
    }
    if !ip_equal(&ipv4_header.dst, &local_ip) {
        return IcmpAction::Ignore;
    }
    if !icmp_checksum_valid(payload) {
        return IcmpAction::BadChecksum;
    }
    let mut reply: Vec<u8> = bytes_to_vec(payload);
    reply.set(0, ICMP_TYPE_ECHO_REPLY);
    reply.set(1, 0);
    reply.set(2, 0);
    reply.set(3, 0);
    let checksum: u16 = icmp_checksum(reply.as_slice());
    set_u16_be(&mut reply, 2, checksum);
    assert(reply@ =~= echo_reply_message(payload@));
    let params = Ipv4BuildParams {
        src: local_ip,
        dst: ipv4_header.src,
        protocol: ipv4_header.protocol,
        ttl: DEFAULT_TTL,
        tos: ipv4_header.tos,
        df: false,
        identification: None,
    };
    assert(params == reply_params(local_ip, *ipv4_header));
    let packets = match build_ipv4_packets(reply.as_slice(), &params, counter) {
        Ok(p) => p,
        Err(_) => return IcmpAction::Ignore,
    };
    let mut frames: Vec<Vec<u8>> = Vec::new();
    let n: usize = packets.len();
    let mut i: usize = 0;
    while i < n
        invariant
            n == packets@.len(),
            i <= n,
            frames@.len() == i,
            forall|k: int|
                0 <= k < i ==> (#[trigger] frames@[k])@ == encode_frame(
                    peer_mac@,
                    local_mac@,
                    ETHER_TYPE_IPV4,
                    packets@[k].bytes@,
                ),
        decreases n - i,
    {
        let frame = build_frame(&peer_mac, &local_mac, ETHER_TYPE_IPV4, packets[i].bytes.as_slice());
        frames.push(frame);
        i = i + 1;
    }
    let r = IcmpAction::Reply(frames);
    proof {
        assert(are_fragments_of(
            packets@,
            echo_reply_message(payload@),
            reply_params(local_ip, *ipv4_header),
            old(counter)@,
        ));
        law_echo_reply_addressed(
            local_mac,
            local_ip,
            peer_mac,
            *ipv4_header,
            payload@,
            old(counter)@,
            counter@,
            r,
        );
    }
    r
}

/// Law (an echo reply goes back to the asker): every frame of the answer to an echo
/// request goes from `local_mac` to the requester's MAC address and carries an IPv4
/// packet that passes the receiver's checks, from `local_ip` back to the request's source
/// address, with the request's protocol (ICMP).
pub proof fn law_echo_reply_addressed(
    local_mac: [u8; 6],
    local_ip: [u8; 4],
    peer_mac: [u8; 6],
    h: Ipv4Header,
    p: Seq<u8>,
    c0: u16,
    c1: u16,
    r: IcmpAction,
)
    requires
        icmp_answered(local_mac, local_ip, peer_mac, h, p, c0, c1, r),
    ensures
        r matches IcmpAction::Reply(frames) ==> forall|k: int|
            0 <= k < frames@.len() ==> {
                let f = (#[trigger] frames@[k])@;
                let pkt = f.subrange(14, f.len() - 4);
                &&& f.subrange(0, 6) == peer_mac@
                &&& f.subrange(6, 12) == local_mac@
                &&& ipv4_rejection(pkt) is None
                &&& decoded_header(pkt).protocol == h.protocol
                &&& decoded_header(pkt).src == local_ip
                &&& decoded_header(pkt).dst == h.src
            },
{
    if r is Reply {
        let packets = choose|packets: Seq<crate::ipv4::Ipv4Packet>|
            {
                &&& #[trigger] are_fragments_of(
                    packets,
                    echo_reply_message(p),
                    reply_params(local_ip, h),
                    c0,
                )
                &&& r matches IcmpAction::Reply(frames) && frames@.len() == packets.len()
                    && forall|k: int|
                    0 <= k < packets.len() ==> (#[trigger] frames@[k])@ == encode_frame(
                        peer_mac@,
                        local_mac@,
                        ETHER_TYPE_IPV4,
                        packets[k].bytes@,
                    )
            };
        law_fragments_addressed(packets, echo_reply_message(p), reply_params(local_ip, h), c0);
        let frames = r->Reply_0;
        assert forall|k: int| 0 <= k < frames@.len() implies {
            let f = (#[trigger] frames@[k])@;
            let pkt = f.subrange(14, f.len() - 4);
            &&& f.subrange(0, 6) == peer_mac@
            &&& f.subrange(6, 12) == local_mac@
            &&& ipv4_rejection(pkt) is None
            &&& decoded_header(pkt).protocol == h.protocol
            &&& decoded_header(pkt).src == local_ip
            &&& decoded_header(pkt).dst == h.src
        } by {
            assert(packets[k].bytes@.len() >= 60);
            lemma_frame_carries(peer_mac@, local_mac@, ETHER_TYPE_IPV4, packets[k].bytes@);
        }
    }
}

/// Law (echo reply): the reply to an echo request of 8 to 65535 bytes is an echo reply
/// (type and code 0) with the request's identifier, sequence number and data, its
/// checksum passes the receiver's validation, and the checksum over the whole reply is 0.
pub proof fn law_echo_reply_valid(request: Seq<u8>)
    requires
        8 <= request.len() <= 0xFFFF,
    ensures
        ({
            let reply = echo_reply_message(request);
            &&& reply.len() == request.len()
            &&& reply[0] == ICMP_TYPE_ECHO_REPLY
            &&& reply[1] == 0
            &&& reply.skip(4) == request.skip(4)
            &&& icmp_valid(reply)
            &&& internet_checksum(reply) == 0
        }),
{
    let z = request.update(0, 0).update(1, 0).update(2, 0).update(3, 0);
    let reply = echo_reply_message(request);
    assert(reply.update(2, 0).update(3, 0) =~= z);
    assert(reply.skip(4) =~= request.skip(4));
    lemma_word_sum_bound(z, z.len() / 2);
    assert(0xFFFF * (z.len() / 2) <= 0xFFFF * 0x8000) by (nonlinear_arith)
        requires
            z.len() <= 0xFFFF,
    ;
    law_checksum_field_verifies(z, 0, 2);
    assert(0 + ones_sum(z) == ones_sum(z));
}

} // verus!
