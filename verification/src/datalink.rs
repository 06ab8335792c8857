//! The link layer of the stack: checking received frames and answering ARP, handing IPv4
//! frames through parsing and reassembly, delivering complete datagrams by protocol, and
//! framing outgoing IPv4 packets into the send queue.
use vstd::prelude::*;

use crate::arp::{arp_handled, handle_incoming, ip_equal, ArpCache};
use crate::bytes::{be16, bytes_equal, bytes_to_vec, read_u16_be};
use crate::frame::{
    build_frame_from_payload, crc32, encode_frame, frame_accepted, BROADCAST_MAC,
    CRC_LEN, ETHER_TYPE_ARP, ETHER_TYPE_IPV4, HEADER_LEN, IPV4_BROADCAST, MAX_FRAME_SIZE,
    MIN_FRAME_SIZE,
};
use crate::icmp::{handle_icmpv4, icmp_answered, IcmpAction};
use crate::ipv4::{
    are_fragments_of, build_ipv4_packets, law_fragments_addressed, decoded_header, announced_header_len,
    announced_total_len, ipv4_rejection, next_ident, parse_ipv4_packet, IdentCounter,
    Ipv4BuildParams, Ipv4Error, Ipv4Header, Ipv4Packet, ReassembledPacket,
};
use crate::queue::{SendQueue, SendQueueError};
use crate::reassembly::{
    lists_expired, packet_model, push_spec, push_would_overflow, unexpired, BufferView,
    Ipv4Reassembler,
};
use crate::udp::{handle_udp_packet, udp_handled, SocketTable, UdpReceive};

verus! {

/// Time to live of the datagrams this stack sends.
pub const DEFAULT_TTL: u8 = 64;

/// Type of service of the datagrams this stack sends.
pub const DEFAULT_TOS: u8 = 0;

/// What the receive loop does with a captured frame.
#[derive(Debug)]
pub enum FrameDispatch {
    /// Queue the frame (without its CRC) for IPv4 processing.
    DeliverIpv4(Vec<u8>),
    /// Send this ARP reply.
    Reply(Vec<u8>),
    /// Nothing.
    Ignore,
}

/// The EtherType of a frame.
pub open spec fn frame_ether_type(data: Seq<u8>) -> int {
    be16(data[12], data[13])
}

/// A frame without its four CRC bytes.
pub open spec fn frame_without_crc(data: Seq<u8>) -> Seq<u8> {
    data.subrange(0, data.len() - 4)
}

/// The reply frame a dispatch sends, if any.
pub open spec fn dispatch_reply(d: FrameDispatch) -> Option<Seq<u8>> {
    match d {
        FrameDispatch::Reply(f) => Some(f@),
        _ => None,
    }
}

/// Checks a captured frame (size, destination `local_mac` or broadcast, CRC): an IPv4
/// frame is passed on without its CRC; an ARP frame updates the cache and may produce a
/// reply; anything else is ignored.
pub fn handle_frame(data: &[u8], local_mac: &[u8; 6], local_ip: &[u8; 4], cache: &mut ArpCache) -> (r:
    FrameDispatch)
    ensures
        !frame_accepted(data@, local_mac@) ==> r is Ignore && final(cache)@ == old(cache)@,
        frame_accepted(data@, local_mac@) && frame_ether_type(data@) == 0x0800 ==> (r matches FrameDispatch::DeliverIpv4(f)
            && f@ == frame_without_crc(data@)) && final(cache)@ == old(cache)@,
        frame_accepted(data@, local_mac@) && frame_ether_type(data@) == 0x0806 ==> {
            &&& (r is Reply || r is Ignore)
            &&& arp_handled(
                old(cache)@,
                final(cache)@,
                frame_without_crc(data@).skip(14),
                *local_mac,
                *local_ip,
                dispatch_reply(r),
            )
        },
        frame_accepted(data@, local_mac@) && frame_ether_type(data@) != 0x0800
            && frame_ether_type(data@) != 0x0806 ==> r is Ignore && final(cache)@ == old(cache)@,
{
    if data.len() < HEADER_LEN + CRC_LEN {
        return FrameDispatch::Ignore;
    }
    if data.len() < MIN_FRAME_SIZE || data.len() > MAX_FRAME_SIZE {
        return FrameDispatch::Ignore;
    }
    let dest: &[u8] = &data[0..6];
    if !bytes_equal(dest, local_mac) && !bytes_equal(dest, &BROADCAST_MAC) {
        return FrameDispatch::Ignore;
    }
    let ether_type: u16 = read_u16_be(data, 12);
    let payload_end: usize = data.len() - CRC_LEN;
    let crc_expect: u32 = crate::bytes::read_u32_be(data, payload_end);
    let crc_calc: u32 = crc32(&data[0..payload_end]);
    if crc_calc != crc_expect {
        return FrameDispatch::Ignore;
    }
    assert(frame_accepted(data@, local_mac@));
    let frame: Vec<u8> = bytes_to_vec(&data[0..payload_end]);
    if ether_type == ETHER_TYPE_IPV4 {
        FrameDispatch::DeliverIpv4(frame)
    } else if ether_type == ETHER_TYPE_ARP {
        let payload: &[u8] = &frame.as_slice()[HEADER_LEN..frame.len()];
        assert(payload@ == frame_without_crc(data@).skip(14));
        match handle_incoming(cache, payload, *local_mac, *local_ip) {
            Ok(Some(reply)) => FrameDispatch::Reply(reply),
            Ok(None) => FrameDispatch::Ignore,
            Err(_) => FrameDispatch::Ignore,
        }
    } else {
        FrameDispatch::Ignore
    }
}

/// What became of a received IPv4 frame.
#[derive(Debug)]
pub enum FrameOutcome {
    /// Shorter than an Ethernet header, or not IPv4.
    NotIpv4,
    /// The IPv4 packet was rejected.
    Malformed(Ipv4Error),
    /// Addressed to another host (neither the local address nor broadcast).
    NotForUs(Ipv4Header),
    /// Storing this fragment would complete a datagram whose 16-bit total length
    /// overflows; nothing was stored.
    LengthOverflow(Ipv4Header),
    /// Stored; its datagram is not complete yet.
    Pending(Ipv4Header),
    /// A complete datagram, with the MAC address of the host that sent the last frame.
    Complete { packet: ReassembledPacket, peer_mac: [u8; 6] },
}

/// The IPv4 packet inside a frame (the frame has no CRC here).
pub open spec fn frame_packet(frame: Seq<u8>) -> Seq<u8> {
    frame.skip(14)
}

/// The payload bytes of a valid IPv4 packet.
pub open spec fn packet_payload(ip: Seq<u8>) -> Seq<u8> {
    ip.subrange(announced_header_len(ip), announced_total_len(ip))
}

/// The packet is for this host: addressed to `local_ip` or to 255.255.255.255.
pub open spec fn addressed_to(h: Ipv4Header, local_ip: [u8; 4]) -> bool {
    h.dst@ == local_ip@ || h.dst@ == IPV4_BROADCAST@
}

/// What processing `frame` at time `now` does to the reassembly state `before` (first
/// dropping expired buffers, whose headers are `expired`), giving `after` and `outcome`.
pub open spec fn frame_processed(
    before: Map<u128, BufferView>,
    after: Map<u128, BufferView>,
    frame: Seq<u8>,
    local_ip: [u8; 4],
    now: u64,
    expired: Seq<Ipv4Header>,
    outcome: FrameOutcome,
) -> bool {
    if frame.len() < 14 || frame_ether_type(frame) != 0x0800 {
        outcome is NotIpv4 && after == before && expired.len() == 0
    } else {
        let mid = unexpired(before, now);
        let ip = frame_packet(frame);
        &&& exists|ks: Seq<u128>| #[trigger] lists_expired(before, now, ks, expired)
        &&& match ipv4_rejection(ip) {
            Some(e) => outcome == FrameOutcome::Malformed(e) && after == mid,
            None => {
                let h = decoded_header(ip);
                let p = packet_payload(ip);
                if !addressed_to(h, local_ip) {
                    outcome == FrameOutcome::NotForUs(h) && after == mid
                } else if push_would_overflow(mid, h, p) {
                    outcome == FrameOutcome::LengthOverflow(h) && after == mid
                } else {
                    match outcome {
                        FrameOutcome::Pending(h2) => h2 == h && push_spec(
                            mid,
                            h,
                            p,
                            now,
                            None,
                            after,
                        ),
                        FrameOutcome::Complete { packet, peer_mac } => {
                            &&& peer_mac@ == frame.subrange(6, 12)
                            &&& push_spec(mid, h, p, now, packet_model(Some(packet)), after)
                        },
                        _ => false,
                    }
                }
            },
        }
    }
}

fn read_mac_at(data: &[u8], i: usize) -> (m: [u8; 6])
    requires
        i + 6 <= data@.len(),
    ensures
        m@ == data@.subrange(i as int, i + 6),
{
    let m: [u8; 6] = [data[i], data[i + 1], data[i + 2], data[i + 3], data[i + 4], data[i + 5]];
    assert(m@ =~= data@.subrange(i as int, i + 6));
    m
}

/// Processes a queued IPv4 frame at time `now`: expired reassembly buffers are dropped
/// (their headers returned), the packet is parsed, checked to be for this host and added
/// to reassembly.
pub fn process_frame_at(
    frame: &[u8],
    local_ip: &[u8; 4],
    reassembler: &mut Ipv4Reassembler,
    now: u64,
) -> (r: (Vec<Ipv4Header>, FrameOutcome))
    requires
        old(reassembler).wf(),
    ensures
        final(reassembler).wf(),
        frame_processed(old(reassembler)@, final(reassembler)@, frame@, *local_ip, now, r.0@, r.1),
{
    if frame.len() < HEADER_LEN {
        return (Vec::new(), FrameOutcome::NotIpv4);
    }
    let ether_type: u16 = read_u16_be(frame, 12);
    if ether_type != ETHER_TYPE_IPV4 {
        return (Vec::new(), FrameOutcome::NotIpv4);
    }
    let peer_mac: [u8; 6] = read_mac_at(frame, 6);
    let expired: Vec<Ipv4Header> = reassembler.remove_expired_at(now);
    let ghost mid = reassembler@;
    let ipv4_bytes: &[u8] = &frame[HEADER_LEN..frame.len()];
    assert(ipv4_bytes@ == frame_packet(frame@));
    let parsed = match parse_ipv4_packet(ipv4_bytes) {
        Ok(p) => p,
        Err(e) => {
            return (expired, FrameOutcome::Malformed(e));
        },
    };
    let header: Ipv4Header = parsed.header;
    if !ip_equal(&header.dst, local_ip) && !ip_equal(&header.dst, &IPV4_BROADCAST) {
        return (expired, FrameOutcome::NotForUs(header));
    }
    assert(header.fragment_offset < 0x2000);
    if reassembler.push_would_overflow_exec(&header, parsed.payload) {
        return (expired, FrameOutcome::LengthOverflow(header));
    }
    match reassembler.push_fragment_at(header, parsed.payload, now) {
        Some(packet) => (expired, FrameOutcome::Complete { packet, peer_mac }),
        None => (expired, FrameOutcome::Pending(header)),
    }
}

/// Processes a queued IPv4 frame, reading the time from the reassembler's clock.
pub fn process_frame(frame: &[u8], local_ip: &[u8; 4], reassembler: &mut Ipv4Reassembler) -> (r: (
    Vec<Ipv4Header>,
    FrameOutcome,
))
    requires
        old(reassembler).wf(),
    ensures
        final(reassembler).wf(),
        exists|now: u64|
            #[trigger] frame_processed(
                old(reassembler)@,
                final(reassembler)@,
                frame@,
                *local_ip,
                now,
                r.0@,
                r.1,
            ),
{
    let now: u64 = reassembler.now();
    process_frame_at(frame, local_ip, reassembler, now)
}

/// The name of an IPv4 protocol number.
pub open spec fn protocol_name_spec(protocol: u8) -> Seq<char> {
    if protocol == 1 {
        "ICMPv4"@
    } else if protocol == 2 {
        "IGMPv4"@
    } else if protocol == 6 {
        "TCP"@
    } else if protocol == 17 {
        "UDP"@
    } else {
        "未知"@
    }
}

/// The name of an IPv4 protocol number, for the log.
pub fn protocol_name(protocol: u8) -> (r: &'static str)
    ensures
        r@ == protocol_name_spec(protocol),
{
    if protocol == 1 {
        "ICMPv4"
    } else if protocol == 2 {
        "IGMPv4"
    } else if protocol == 6 {
        "TCP"
    } else if protocol == 17 {
        "UDP"
    } else {
        "未知"
    }
}

/// How a complete datagram was delivered.
#[derive(Debug)]
pub enum Delivery {
    /// ICMP: answered (or not) as the action says; the payload also goes to the output file.
    Icmp(IcmpAction),
    /// UDP: handed to the socket layer; nothing goes to the output file.
    Udp(UdpReceive),
    /// Any other protocol: the payload goes to the output file.
    Other,
}

/// Whether a delivered datagram's payload is written to the output file: all but UDP.
pub open spec fn writes_output(d: Delivery) -> bool {
    !(d is Udp)
}

/// Delivers a complete datagram by protocol: ICMP to the echo responder, UDP to the
/// sockets, anything else to the output file.
pub fn deliver_ip_payload(
    packet: &ReassembledPacket,
    local_mac: [u8; 6],
    local_ip: [u8; 4],
    peer_mac: [u8; 6],
    sockets: &mut SocketTable,
    counter: &mut IdentCounter,
) -> (r: Delivery)
    ensures
        final(sockets).next_id() == old(sockets).next_id(),
        final(sockets).next_port() == old(sockets).next_port(),
        writes_output(r) == (packet.header.protocol != 17),
        packet.header.protocol == 1 ==> final(sockets)@ == old(sockets)@ && (r matches Delivery::Icmp(a)
            && icmp_answered(
            local_mac,
            local_ip,
            peer_mac,
            packet.header,
            packet.payload@,
            old(counter)@,
            final(counter)@,
            a,
        )),
        packet.header.protocol == 17 ==> final(counter)@ == old(counter)@ && (r matches Delivery::Udp(u)
            && udp_handled(old(sockets)@, final(sockets)@, packet.header, packet.payload@, u)),
        packet.header.protocol != 1 && packet.header.protocol != 17 ==> r is Other && final(sockets)@ == old(sockets)@ && final(counter)@ == old(counter)@,
{
    if packet.header.protocol == 1 {
        let a = handle_icmpv4(
            local_mac,
            local_ip,
            peer_mac,
            &packet.header,
            packet.payload.as_slice(),
            counter,
        );
        Delivery::Icmp(a)
    } else if packet.header.protocol == 17 {
        Delivery::Udp(handle_udp_packet(sockets, &packet.header, packet.payload.as_slice()))
    } else {
        Delivery::Other
    }
}

/// The IPv4 parameters of a datagram this stack sends.
pub open spec fn send_params(src_ip: [u8; 4], dest_ip: [u8; 4], protocol: u8) -> Ipv4BuildParams {
    Ipv4BuildParams {
        src: src_ip,
        dst: dest_ip,
        protocol,
        ttl: DEFAULT_TTL,
        tos: DEFAULT_TOS,
        df: false,
        identification: None,
    }
}

/// Why a datagram could not be sent.
#[derive(Debug, Clone, Copy, PartialEq, Eq)]
pub enum SendError {
    /// There is no data to send.
    EmptyInput,
    /// The IPv4 layer refused the datagram.
    Ipv4(Ipv4Error),
}

/// Splits the data to send into IPv4 packets from `src_ip` to `dest_ip` with the given
/// protocol (TTL 64, ToS 0, DF clear, identification from the counter).
pub fn build_datagram(
    payload: &[u8],
    src_ip: [u8; 4],
    dest_ip: [u8; 4],
    protocol: u8,
    counter: &mut IdentCounter,
) -> (r: Result<Vec<Ipv4Packet>, SendError>)
    ensures
        payload@.len() == 0 ==> r == Err::<Vec<Ipv4Packet>, SendError>(SendError::EmptyInput)
            && final(counter)@ == old(counter)@,
        payload@.len() > 0 ==> final(counter)@ == next_ident(old(counter)@) && (r matches Ok(
            packets,
        ) && are_fragments_of(
            packets@,
            payload@,
            send_params(src_ip, dest_ip, protocol),
            old(counter)@,
        )),
        r matches Ok(packets) ==> forall|k: int|
            0 <= k < packets@.len() ==> {
                &&& (#[trigger] packets@[k]).header.src == src_ip
                &&& packets@[k].header.dst == dest_ip
                &&& packets@[k].header.protocol == protocol
            },
{
    if payload.len() == 0 {
        return Err(SendError::EmptyInput);
    }
    let ghost c0 = old(counter)@;
    let params = Ipv4BuildParams {
        src: src_ip,
        dst: dest_ip,
        protocol,
        ttl: DEFAULT_TTL,
        tos: DEFAULT_TOS,
        df: false,
        identification: None,
    };
    assert(params == send_params(src_ip, dest_ip, protocol));
    match build_ipv4_packets(payload, &params, counter) {
        Ok(p) => {
            proof {
                law_datagram_addressed(p@, payload@, src_ip, dest_ip, protocol, c0);
            }
            Ok(p)
        },
        Err(e) => Err(SendError::Ipv4(e)),
    }
}

/// Law (a datagram goes where it is sent): every packet built to send data from `src_ip`
/// to `dest_ip` with a protocol carries `src_ip` as its source, `dest_ip` as its
/// destination and that protocol, in its header and in its bytes as the receiver decodes
/// them, and its bytes pass the receiver's checks.
pub proof fn law_datagram_addressed(
    packets: Seq<Ipv4Packet>,
    payload: Seq<u8>,
    src_ip: [u8; 4],
    dest_ip: [u8; 4],
    protocol: u8,
    ident: u16,
)
    requires
        are_fragments_of(packets, payload, send_params(src_ip, dest_ip, protocol), ident),
    ensures
        forall|k: int|
            0 <= k < packets.len() ==> {
                &&& (#[trigger] packets[k]).header.src == src_ip
                &&& packets[k].header.dst == dest_ip
                &&& packets[k].header.protocol == protocol
                &&& ipv4_rejection(packets[k].bytes@) is None
                &&& decoded_header(packets[k].bytes@).src == src_ip
                &&& decoded_header(packets[k].bytes@).dst == dest_ip
                &&& decoded_header(packets[k].bytes@).protocol == protocol
            },
{
    law_fragments_addressed(packets, payload, send_params(src_ip, dest_ip, protocol), ident);
}

/// Frames one IPv4 packet from `src_mac` to `dest_mac` and puts the frame into the send
/// queue; returns 1 if it was queued and 0 if the queue was full or closed (the frame is
/// then dropped).
pub fn enqueue_fragment(
    fragment: Ipv4Packet,
    queue: &mut SendQueue,
    src_mac: &[u8; 6],
    dest_mac: &[u8; 6],
) -> (r: usize)
    ensures
        final(queue).capacity() == old(queue).capacity(),
        final(queue).is_open() == old(queue).is_open(),
        old(queue).is_open() && old(queue)@.len() < old(queue).capacity() ==> {
            &&& r == 1
            &&& final(queue)@ == old(queue)@.push(
                encode_frame(dest_mac@, src_mac@, ETHER_TYPE_IPV4, fragment.bytes@),
            )
        },
        !old(queue).is_open() || old(queue)@.len() >= old(queue).capacity() ==> r == 0
            && final(queue)@ == old(queue)@,
{
    let frame = build_frame_from_payload(fragment.bytes.as_slice(), src_mac, dest_mac);
    match queue.push(frame) {
        Ok(()) => 1,
        Err(SendQueueError::Full) => 0,
        Err(SendQueueError::Closed) => 0,
    }
}

} // verus!
