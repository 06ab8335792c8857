//! ARP over Ethernet/IPv4: packet layout, the address cache with its expiry rule,
//! answering requests for the local address, and the request/retry decisions of
//! address resolution.
use vstd::prelude::*;

use std::collections::HashMap;
use std::time::Instant;

use crate::bytes::{append_bytes, be16, push_u16_be, read_u16_be, u16_be_bytes, u32_be_bytes};
use crate::clock::{instant_now, nanos_since};
use crate::frame::{build_frame, crc32_spec, encode_frame, frame_body, padded, BROADCAST_MAC, CRC_LEN, ETHER_TYPE_ARP, HEADER_LEN};

verus! {

broadcast use vstd::std_specs::hash::group_hash_axioms;

pub const HARDWARE_TYPE_ETHERNET: u16 = 0x0001;

pub const PROTOCOL_TYPE_IPV4: u16 = 0x0800;

pub const HARDWARE_ADDR_LEN: u8 = 6;

pub const PROTOCOL_ADDR_LEN: u8 = 4;

pub const OPERATION_REQUEST: u16 = 1;

pub const OPERATION_REPLY: u16 = 2;

pub const ARP_PACKET_LEN: usize = 28;

/// Dynamic entries are kept for ten minutes.
pub const CACHE_TTL_NANOS: u64 = 600_000_000_000;

/// Requests sent before resolution gives up.
pub const ARP_MAX_RETRIES: usize = 3;

/// How an entry got into the cache.
#[derive(Debug, Clone, Copy, PartialEq, Eq)]
pub enum ArpEntryState {
    /// Configured; never expires.
    Static,
    /// Learned from traffic; expires after the TTL.
    Dynamic,
    /// Recorded for the log only; carries no usable address.
    Log,
}

/// A cache entry: the address, how it was learned, and when (nanoseconds on the cache's clock).
#[derive(Debug, Clone, Copy)]
pub struct CacheEntry {
    pub mac: [u8; 6],
    pub state: ArpEntryState,
    pub updated_at: u64,
}

/// The cache key of an IPv4 address: its 32-bit value.
pub open spec fn ip_key(ip: [u8; 4]) -> u32 {
    (ip[0] as int * 0x100_0000 + ip[1] as int * 0x1_0000 + ip[2] as int * 256 + ip[3] as int) as u32
}

fn ip_key_exec(ip: &[u8; 4]) -> (k: u32)
    ensures
        k == ip_key(*ip),
{
    (ip[0] as u32) * 0x100_0000 + (ip[1] as u32) * 0x1_0000 + (ip[2] as u32) * 256 + ip[3] as u32
}

/// The entry recorded for `mac` with `state` at time `now`.
pub open spec fn entry_at(mac: [u8; 6], state: ArpEntryState, now: u64) -> CacheEntry {
    CacheEntry { mac, state, updated_at: now }
}

/// An entry is still usable at `now`: dynamic entries for at most the TTL, others always.
pub open spec fn entry_live(e: CacheEntry, now: u64) -> bool {
    match e.state {
        ArpEntryState::Dynamic => now as int - e.updated_at as int <= CACHE_TTL_NANOS,
        _ => true,
    }
}

/// The entries still usable at `now`.
pub open spec fn live_entries(state: Map<u32, CacheEntry>, now: u64) -> Map<u32, CacheEntry> {
    Map::new(|k: u32| state.contains_key(k) && entry_live(state[k], now), |k: u32| state[k])
}

/// What a lookup of `ip` answers from the cache `state`: the address of its entry, unless
/// there is none or it is a log entry.
pub open spec fn lookup_answer(state: Map<u32, CacheEntry>, ip: [u8; 4]) -> Option<[u8; 6]> {
    if state.contains_key(ip_key(ip)) && state[ip_key(ip)].state != ArpEntryState::Log {
        Some(state[ip_key(ip)].mac)
    } else {
        None
    }
}

/// The IPv4 to MAC address cache.
pub struct ArpCache {
    entries: HashMap<u32, CacheEntry>,
    epoch: Instant,
}

impl View for ArpCache {
    type V = Map<u32, CacheEntry>;

    closed spec fn view(&self) -> Map<u32, CacheEntry> {
        self.entries@
    }
}

impl Default for ArpCache {
    /// An empty cache whose clock starts now.
    fn default() -> (c: Self)
        ensures
            c@ == Map::<u32, CacheEntry>::empty(),
    {
        ArpCache { entries: HashMap::new(), epoch: instant_now() }
    }
}

impl ArpCache {
    fn entry_keys(&self) -> (keys: Vec<u32>)
        ensures
            keys@.no_duplicates(),
            forall|k: u32| keys@.contains(k) <==> self.entries@.contains_key(k),
    {
        let mut keys: Vec<u32> = Vec::new();
        let ghost all = vstd::std_specs::iter::IteratorSpec::remaining(
            &vstd::std_specs::hash::spec_keys_iter(&self.entries),
        );
        proof {
            vstd::std_specs::hash::axiom_spec_keys_iter(&self.entries);
        }
        for k in it: self.entries.keys()
            invariant
                it.seq() == all,
                keys@.len() == it.index(),
                forall|j: int| 0 <= j < it.index() ==> keys@[j] == *all[j],
        {
            keys.push(*k);
        }
        proof {
            assert(keys@ =~= all.map_values(|r: &u32| *r));
            assert(all.unref() =~= all.map_values(|r: &u32| *r));
            assert forall|k: u32| keys@.contains(k) <==> self.entries@.contains_key(k) by {
                if keys@.contains(k) {
                    assert(all.unref().to_set().contains(k));
                }
                if self.entries@.contains_key(k) {
                    assert(all.unref().to_set().contains(k));
                }
            }
            assert forall|a: int, b: int| 0 <= a < keys@.len() && 0 <= b < keys@.len() && a != b
                implies keys@[a] != keys@[b] by {
                assert(all[a] != all[b]);
            }
        }
        keys
    }

    /// Drops expired dynamic entries, then answers the address of `ip` (time `now`).
    pub fn lookup_at(&mut self, ip: &[u8; 4], now: u64) -> (r: Option<[u8; 6]>)
        ensures
            final(self)@ == live_entries(old(self)@, now),
            r == lookup_answer(live_entries(old(self)@, now), *ip),
    {
        let keys: Vec<u32> = self.entry_keys();
        let ghost old_entries = self.entries@;
        let n: usize = keys.len();
        let mut i: usize = 0;
        while i < n
            invariant
                n == keys@.len(),
                i <= n,
                keys@.no_duplicates(),
                forall|k: u32| keys@.contains(k) <==> old_entries.contains_key(k),
                self.entries@ == Map::new(
                    |k: u32|
                        old_entries.contains_key(k) && !(keys@.subrange(0, i as int).contains(k)
                            && !entry_live(old_entries[k], now)),
                    |k: u32| old_entries[k],
                ),
            decreases n - i,
        {
            let k: u32 = keys[i];
            assert(keys@.contains(k));
            assert(!keys@.subrange(0, i as int).contains(k));
            let ghost prefix = keys@.subrange(0, i as int);
            let ghost next_prefix = keys@.subrange(0, i + 1);
            assert(next_prefix =~= prefix.push(k));
            assert forall|x: u32| next_prefix.contains(x) <==> (prefix.contains(x) || x == k) by {
                if next_prefix.contains(x) {
                    let j = choose|j: int| 0 <= j < next_prefix.len() && next_prefix[j] == x;
                    if j < prefix.len() {
                        assert(prefix[j] == x);
                    }
                }
                if prefix.contains(x) {
                    let j = choose|j: int| 0 <= j < prefix.len() && prefix[j] == x;
                    assert(next_prefix[j] == x);
                }
                if x == k {
                    assert(next_prefix[i as int] == x);
                }
            }
            let ghost before = self.entries@;
            let expired: bool = match self.entries.get(&k) {
                Some(e) => match e.state {
                    ArpEntryState::Dynamic => now >= e.updated_at && now - e.updated_at
                        > CACHE_TTL_NANOS,
                    _ => false,
                },
                None => false,
            };
            assert(expired == !entry_live(old_entries[k], now));
            if expired {
                self.entries.remove(&k);
            }
            i = i + 1;
            proof {
                if expired {
                    assert(self.entries@ == before.remove(k));
                }
                assert(self.entries@ =~= Map::new(
                    |k: u32|
                        old_entries.contains_key(k) && !(keys@.subrange(0, i as int).contains(k)
                            && !entry_live(old_entries[k], now)),
                    |k: u32| old_entries[k],
                ));
            }
        }
        proof {
            assert(keys@.subrange(0, n as int) =~= keys@);
            assert(self@ =~= live_entries(old(self)@, now));
        }
        let key: u32 = ip_key_exec(ip);
        match self.entries.get(&key) {
            Some(e) => match e.state {
                ArpEntryState::Log => None,
                _ => Some(e.mac),
            },
            None => None,
        }
    }

    /// Records `ip -> mac` with the given state at time `now`, replacing any entry for `ip`.
    pub fn insert_at(&mut self, ip: [u8; 4], mac: [u8; 6], state: ArpEntryState, now: u64)
        ensures
            final(self)@ == old(self)@.insert(
                ip_key(ip),
                CacheEntry { mac, state, updated_at: now },
            ),
    {
        let key: u32 = ip_key_exec(&ip);
        self.entries.insert(key, CacheEntry { mac, state, updated_at: now });
    }

    /// Drops expired dynamic entries, then answers the address of `ip`, reading the time
    /// from the cache's clock.
    pub fn lookup(&mut self, ip: &[u8; 4]) -> (r: Option<[u8; 6]>)
        ensures
            exists|now: u64|
                #![trigger live_entries(old(self)@, now)]
                final(self)@ == live_entries(old(self)@, now) && r == lookup_answer(
                    live_entries(old(self)@, now),
                    *ip,
                ),
    {
        let now: u64 = nanos_since(&self.epoch);
        self.lookup_at(ip, now)
    }

    /// Records `ip -> mac`, stamped with the cache's clock.
    pub fn insert(&mut self, ip: [u8; 4], mac: [u8; 6], state: ArpEntryState)
        ensures
            exists|now: u64|
                final(self)@ == old(self)@.insert(
                    ip_key(ip),
                    #[trigger] entry_at(mac, state, now),
                ),
    {
        let now: u64 = nanos_since(&self.epoch);
        self.insert_at(ip, mac, state, now);
        assert(self@ == old(self)@.insert(ip_key(ip), entry_at(mac, state, now)));
    }
}

/// The network part of `ip` under `mask` (bitwise AND).
pub open spec fn network_of(ip: [u8; 4], mask: [u8; 4]) -> Seq<u8> {
    seq![ip[0] & mask[0], ip[1] & mask[1], ip[2] & mask[2], ip[3] & mask[3]]
}

/// The network address: each byte of `ip` ANDed with the mask.
pub fn network_address(ip: &[u8; 4], mask: &[u8; 4]) -> (r: [u8; 4])
    ensures
        r@ == network_of(*ip, *mask),
{
    let r: [u8; 4] = [ip[0] & mask[0], ip[1] & mask[1], ip[2] & mask[2], ip[3] & mask[3]];
    assert(r@ =~= network_of(*ip, *mask));
    r
}

/// Whether `a` and `b` have the same network address under `mask`.
pub fn same_subnet(a: &[u8; 4], b: &[u8; 4], mask: &[u8; 4]) -> (r: bool)
    ensures
        r == (network_of(*a, *mask) == network_of(*b, *mask)),
{
    let na = network_address(a, mask);
    let nb = network_address(b, mask);
    let r: bool = na[0] == nb[0] && na[1] == nb[1] && na[2] == nb[2] && na[3] == nb[3];
    proof {
        if r {
            assert(network_of(*a, *mask) =~= network_of(*b, *mask));
        } else {
            if network_of(*a, *mask) == network_of(*b, *mask) {
                assert(network_of(*a, *mask)[0] == network_of(*b, *mask)[0]);
                assert(network_of(*a, *mask)[1] == network_of(*b, *mask)[1]);
                assert(network_of(*a, *mask)[2] == network_of(*b, *mask)[2]);
                assert(network_of(*a, *mask)[3] == network_of(*b, *mask)[3]);
            }
        }
    }
    r
}

/// The 28 bytes of an Ethernet/IPv4 ARP packet.
pub open spec fn arp_payload(
    operation: u16,
    sender_mac: Seq<u8>,
    sender_ip: Seq<u8>,
    target_mac: Seq<u8>,
    target_ip: Seq<u8>,
) -> Seq<u8> {
    u16_be_bytes(1) + u16_be_bytes(0x0800) + seq![6u8, 4u8] + u16_be_bytes(operation) + sender_mac
        + sender_ip + target_mac + target_ip
}

/// Builds an ARP packet for Ethernet/IPv4.
pub fn build_arp_payload(
    operation: u16,
    sender_mac: [u8; 6],
    sender_ip: [u8; 4],
    target_mac: [u8; 6],
    target_ip: [u8; 4],
) -> (buf: Vec<u8>)
    ensures
        buf@ == arp_payload(operation, sender_mac@, sender_ip@, target_mac@, target_ip@),
{
    let mut buf: Vec<u8> = Vec::new();
    push_u16_be(&mut buf, HARDWARE_TYPE_ETHERNET);
    push_u16_be(&mut buf, PROTOCOL_TYPE_IPV4);
    buf.push(HARDWARE_ADDR_LEN);
    buf.push(PROTOCOL_ADDR_LEN);
    push_u16_be(&mut buf, operation);
    append_bytes(&mut buf, &sender_mac);
    append_bytes(&mut buf, &sender_ip);
    append_bytes(&mut buf, &target_mac);
    append_bytes(&mut buf, &target_ip);
    assert(buf@ =~= arp_payload(operation, sender_mac@, sender_ip@, target_mac@, target_ip@));
    buf
}

/// The fields of an ARP packet.
#[derive(Debug, Clone, Copy)]
pub struct ArpPacket {
    pub hardware_type: u16,
    pub protocol_type: u16,
    pub hardware_len: u8,
    pub protocol_len: u8,
    pub operation: u16,
    pub sender_mac: [u8; 6],
    pub sender_ip: [u8; 4],
    pub target_mac: [u8; 6],
    pub target_ip: [u8; 4],
}

/// The packet the first 28 bytes of `p` describe.
pub open spec fn arp_fields(p: Seq<u8>, packet: ArpPacket) -> bool {
    &&& packet.hardware_type == be16(p[0], p[1])
    &&& packet.protocol_type == be16(p[2], p[3])
    &&& packet.hardware_len == p[4]
    &&& packet.protocol_len == p[5]
    &&& packet.operation == be16(p[6], p[7])
    &&& packet.sender_mac@ == p.subrange(8, 14)
    &&& packet.sender_ip@ == p.subrange(14, 18)
    &&& packet.target_mac@ == p.subrange(18, 24)
    &&& packet.target_ip@ == p.subrange(24, 28)
}

fn read_mac(p: &[u8], i: usize) -> (m: [u8; 6])
    requires
        i + 6 <= p@.len(),
    ensures
        m@ == p@.subrange(i as int, i + 6),
{
    let m: [u8; 6] = [p[i], p[i + 1], p[i + 2], p[i + 3], p[i + 4], p[i + 5]];
    assert(m@ =~= p@.subrange(i as int, i + 6));
    m
}

fn read_ip(p: &[u8], i: usize) -> (a: [u8; 4])
    requires
        i + 4 <= p@.len(),
    ensures
        a@ == p@.subrange(i as int, i + 4),
{
    let a: [u8; 4] = [p[i], p[i + 1], p[i + 2], p[i + 3]];
    assert(a@ =~= p@.subrange(i as int, i + 4));
    a
}

/// Reads the fields of an ARP packet; `None` if fewer than 28 bytes.
pub fn parse_arp_payload(payload: &[u8]) -> (r: Option<ArpPacket>)
    ensures
        payload@.len() < 28 ==> r is None,
        payload@.len() >= 28 ==> (r matches Some(packet) && arp_fields(payload@, packet)),
{
    if payload.len() < ARP_PACKET_LEN {
        return None;
    }
    Some(
        ArpPacket {
            hardware_type: read_u16_be(payload, 0),
            protocol_type: read_u16_be(payload, 2),
            hardware_len: payload[4],
            protocol_len: payload[5],
            operation: read_u16_be(payload, 6),
            sender_mac: read_mac(payload, 8),
            sender_ip: read_ip(payload, 14),
            target_mac: read_mac(payload, 18),
            target_ip: read_ip(payload, 24),
        },
    )
}

/// An ARP frame: at least header, packet and CRC long, with EtherType 0x0806.
pub open spec fn is_arp_frame(data: Seq<u8>) -> bool {
    data.len() >= 14 + 28 + 4 && be16(data[12], data[13]) == 0x0806
}

/// Reads the ARP packet of a received frame (its payload starts after the 14-byte header).
pub fn parse_arp_frame(data: &[u8]) -> (r: Option<ArpPacket>)
    ensures
        !is_arp_frame(data@) ==> r is None,
        is_arp_frame(data@) ==> (r matches Some(packet) && arp_fields(
            data@.subrange(14, data@.len() as int),
            packet,
        )),
{
    if data.len() < HEADER_LEN + ARP_PACKET_LEN + CRC_LEN {
        return None;
    }
    let ether_type: u16 = read_u16_be(data, 12);
    if ether_type != ETHER_TYPE_ARP {
        return None;
    }
    let payload: &[u8] = &data[HEADER_LEN..data.len() - CRC_LEN];
    let r = parse_arp_payload(&payload[0..ARP_PACKET_LEN]);
    proof {
        let whole = data@.subrange(14, data@.len() as int);
        let p28 = payload@.subrange(0, 28);
        assert(p28 =~= whole.subrange(0, 28));
        assert(whole.subrange(8, 14) =~= p28.subrange(8, 14));
        assert(whole.subrange(14, 18) =~= p28.subrange(14, 18));
        assert(whole.subrange(18, 24) =~= p28.subrange(18, 24));
        assert(whole.subrange(24, 28) =~= p28.subrange(24, 28));
    }
    r
}

/// A broadcast request from `src` asking for the address of `target_ip`.
pub fn build_request_frame(src_mac: [u8; 6], src_ip: [u8; 4], target_ip: [u8; 4]) -> (f: Vec<u8>)
    ensures
        f@ == encode_frame(
            BROADCAST_MAC@,
            src_mac@,
            0x0806,
            arp_payload(1, src_mac@, src_ip@, seq![0u8, 0u8, 0u8, 0u8, 0u8, 0u8], target_ip@),
        ),
{
    let zero: [u8; 6] = [0, 0, 0, 0, 0, 0];
    assert(zero@ =~= seq![0u8, 0u8, 0u8, 0u8, 0u8, 0u8]);
    let payload = build_arp_payload(OPERATION_REQUEST, src_mac, src_ip, zero, target_ip);
    build_frame(&BROADCAST_MAC, &src_mac, ETHER_TYPE_ARP, payload.as_slice())
}

/// A reply to `target`, telling it that `local_ip` is at `local_mac`.
pub fn build_reply_frame(
    local_mac: [u8; 6],
    local_ip: [u8; 4],
    target_mac: [u8; 6],
    target_ip: [u8; 4],
) -> (f: Vec<u8>)
    ensures
        f@ == encode_frame(
            target_mac@,
            local_mac@,
            0x0806,
            arp_payload(2, local_mac@, local_ip@, target_mac@, target_ip@),
        ),
{
    let payload = build_arp_payload(OPERATION_REPLY, local_mac, local_ip, target_mac, target_ip);
    build_frame(&target_mac, &local_mac, ETHER_TYPE_ARP, payload.as_slice())
}

/// Why an ARP packet could not be handled.
#[derive(Debug, Clone, Copy, PartialEq, Eq)]
pub enum ArpError {
    /// Fewer than 28 bytes.
    ShortPacket,
}

/// Whether two IPv4 addresses are equal.
pub fn ip_equal(a: &[u8; 4], b: &[u8; 4]) -> (r: bool)
    ensures
        r == (a@ == b@),
{
    let r: bool = a[0] == b[0] && a[1] == b[1] && a[2] == b[2] && a[3] == b[3];
    proof {
        if r {
            assert(a@ =~= b@);
        } else if a@ == b@ {
            assert(a@[0] == b@[0] && a@[1] == b@[1] && a@[2] == b@[2] && a@[3] == b@[3]);
        }
    }
    r
}

/// The cache after `before` learned the sender of `packet` as a dynamic entry at `now`,
/// `packet` being what the first 28 bytes of `payload` say.
pub open spec fn arp_learned(
    before: Map<u32, CacheEntry>,
    after: Map<u32, CacheEntry>,
    payload: Seq<u8>,
    packet: ArpPacket,
    now: u64,
) -> bool {
    &&& arp_fields(payload, packet)
    &&& after == before.insert(
        ip_key(packet.sender_ip),
        entry_at(packet.sender_mac, ArpEntryState::Dynamic, now),
    )
}

/// The reply frame owed for `packet`: one for a request asking for `local_ip`, none otherwise.
pub open spec fn reply_for(packet: ArpPacket, local_mac: [u8; 6], local_ip: [u8; 4]) -> Option<
    Seq<u8>,
> {
    if packet.operation == 1 && packet.target_ip@ == local_ip@ {
        Some(
            encode_frame(
                packet.sender_mac@,
                local_mac@,
                0x0806,
                arp_payload(2, local_mac@, local_ip@, packet.sender_mac@, packet.sender_ip@),
            ),
        )
    } else {
        None
    }
}

/// What handling the ARP packet `payload` does: shorter than 28 bytes, nothing; otherwise
/// the sender is learned and the owed reply (if any) is produced.
pub open spec fn arp_handled(
    before: Map<u32, CacheEntry>,
    after: Map<u32, CacheEntry>,
    payload: Seq<u8>,
    local_mac: [u8; 6],
    local_ip: [u8; 4],
    reply: Option<Seq<u8>>,
) -> bool {
    if payload.len() < 28 {
        after == before && reply is None
    } else {
        exists|packet: ArpPacket, now: u64|
            #[trigger] arp_learned(before, after, payload, packet, now) && reply == reply_for(
                packet,
                local_mac,
                local_ip,
            )
    }
}

/// The bytes of an optional frame.
pub open spec fn frame_bytes(f: Option<Vec<u8>>) -> Option<Seq<u8>> {
    match f {
        Some(v) => Some(v@),
        None => None,
    }
}

/// Handles a received ARP packet: the sender's address is learned as a dynamic entry,
/// and a request for `local_ip` is answered with a reply frame to the sender. Packets
/// shorter than 28 bytes are ignored.
pub fn handle_incoming(
    cache: &mut ArpCache,
    payload: &[u8],
    local_mac: [u8; 6],
    local_ip: [u8; 4],
) -> (r: Result<Option<Vec<u8>>, ArpError>)
    ensures
        r matches Ok(reply) && arp_handled(
            old(cache)@,
            final(cache)@,
            payload@,
            local_mac,
            local_ip,
            frame_bytes(reply),
        ),
{
    if payload.len() < ARP_PACKET_LEN {
        return Ok(None);
    }
    let packet = match parse_arp_payload(&payload[0..ARP_PACKET_LEN]) {
        Some(p) => p,
        None => return Err(ArpError::ShortPacket),
    };
    proof {
        let p28 = payload@.subrange(0, 28);
        assert(p28.subrange(8, 14) =~= payload@.subrange(8, 14));
        assert(p28.subrange(14, 18) =~= payload@.subrange(14, 18));
        assert(p28.subrange(18, 24) =~= payload@.subrange(18, 24));
        assert(p28.subrange(24, 28) =~= payload@.subrange(24, 28));
    }
    cache.insert(packet.sender_ip, packet.sender_mac, ArpEntryState::Dynamic);
    let ghost now = choose|now: u64|
        cache@ == old(cache)@.insert(
            ip_key(packet.sender_ip),
            #[trigger] entry_at(packet.sender_mac, ArpEntryState::Dynamic, now),
        );
    assert(arp_learned(old(cache)@, cache@, payload@, packet, now));
    if packet.operation == OPERATION_REQUEST && ip_equal(&packet.target_ip, &local_ip) {
        let frame = build_reply_frame(local_mac, local_ip, packet.sender_mac, packet.sender_ip);
        Ok(Some(frame))
    } else {
        Ok(None)
    }
}

/// What address resolution does next.
#[derive(Debug)]
pub enum ResolveAction {
    /// The address is known.
    Resolved([u8; 6]),
    /// Send this request frame (attempt number given) and wait for replies.
    SendRequest(Vec<u8>, usize),
    /// Every attempt timed out.
    Failed,
}

/// The state of one resolution: who asks, for which address, and how many requests were sent.
pub struct ArpResolver {
    pub src_mac: [u8; 6],
    pub src_ip: [u8; 4],
    pub target_ip: [u8; 4],
    pub attempt: usize,
}

/// The request frame a resolver sends.
pub open spec fn request_frame_of(src_mac: [u8; 6], src_ip: [u8; 4], target_ip: [u8; 4]) -> Seq<u8> {
    encode_frame(
        BROADCAST_MAC@,
        src_mac@,
        0x0806,
        arp_payload(1, src_mac@, src_ip@, seq![0u8, 0u8, 0u8, 0u8, 0u8, 0u8], target_ip@),
    )
}

impl ArpResolver {
    /// Starts resolving `target_ip`: a cache hit answers at once; otherwise the first
    /// request is sent.
    pub fn start(cache: &mut ArpCache, src_mac: [u8; 6], src_ip: [u8; 4], target_ip: [u8; 4]) -> (r: (
        ArpResolver,
        ResolveAction,
    ))
        ensures
            r.0.src_mac == src_mac && r.0.src_ip == src_ip && r.0.target_ip == target_ip,
            exists|now: u64|
                #![trigger live_entries(old(cache)@, now)]
                {
                    &&& final(cache)@ == live_entries(old(cache)@, now)
                    &&& match lookup_answer(live_entries(old(cache)@, now), target_ip) {
                        Some(mac) => r.0.attempt == 0 && r.1 == ResolveAction::Resolved(mac),
                        None => r.0.attempt == 1 && (r.1 matches ResolveAction::SendRequest(
                            frame,
                            1,
                        ) && frame@ == request_frame_of(src_mac, src_ip, target_ip)),
                    }
                },
    {
        let resolver = ArpResolver { src_mac, src_ip, target_ip, attempt: 0 };
        match cache.lookup(&target_ip) {
            Some(mac) => (resolver, ResolveAction::Resolved(mac)),
            None => {
                let frame = build_request_frame(src_mac, src_ip, target_ip);
                (ArpResolver { attempt: 1, ..resolver }, ResolveAction::SendRequest(frame, 1))
            },
        }
    }

    /// A frame arrived while waiting: any ARP packet in it teaches the cache its
    /// sender's address; a reply from the target resolves it.
    pub fn on_frame(&self, cache: &mut ArpCache, data: &[u8]) -> (r: Option<[u8; 6]>)
        ensures
            !is_arp_frame(data@) ==> r is None && final(cache)@ == old(cache)@,
            is_arp_frame(data@) ==> exists|packet: ArpPacket, now: u64|
                {
                    &&& arp_fields(data@.subrange(14, data@.len() as int), packet)
                    &&& final(cache)@ == old(cache)@.insert(
                        ip_key(packet.sender_ip),
                        #[trigger] entry_at(packet.sender_mac, ArpEntryState::Dynamic, now),
                    )
                    &&& r == if packet.operation == 2 && packet.sender_ip@ == self.target_ip@ {
                        Some(packet.sender_mac)
                    } else {
                        None
                    }
                },
    {
        match parse_arp_frame(data) {
            Some(parsed) => {
                cache.insert(parsed.sender_ip, parsed.sender_mac, ArpEntryState::Dynamic);
                if parsed.operation == OPERATION_REPLY && ip_equal(&parsed.sender_ip, &self.target_ip) {
                    Some(parsed.sender_mac)
                } else {
                    None
                }
            },
            None => None,
        }
    }

    /// The wait for a reply timed out: send the next request, or give up after three.
    pub fn on_timeout(&mut self) -> (r: ResolveAction)
        requires
            old(self).attempt <= ARP_MAX_RETRIES,
        ensures
            final(self).src_mac == old(self).src_mac,
            final(self).src_ip == old(self).src_ip,
            final(self).target_ip == old(self).target_ip,
            old(self).attempt < ARP_MAX_RETRIES ==> {
                &&& final(self).attempt == old(self).attempt + 1
                &&& r matches ResolveAction::SendRequest(frame, n) && n == final(self).attempt
                    && frame@ == request_frame_of(
                    old(self).src_mac,
                    old(self).src_ip,
                    old(self).target_ip,
                )
            },
            old(self).attempt == ARP_MAX_RETRIES ==> final(self).attempt == old(self).attempt && r
                is Failed,
    {
        if self.attempt < ARP_MAX_RETRIES {
            self.attempt = self.attempt + 1;
            let frame = build_request_frame(self.src_mac, self.src_ip, self.target_ip);
            ResolveAction::SendRequest(frame, self.attempt)
        } else {
            ResolveAction::Failed
        }
    }
}


/// Two addresses with the same cache key are the same address.
pub proof fn lemma_ip_key_injective(a: [u8; 4], b: [u8; 4])
    requires
        ip_key(a) == ip_key(b),
    ensures
        a@ == b@,
{
    let va: int = a[0] as int * 0x100_0000 + a[1] as int * 0x1_0000 + a[2] as int * 256 + a[3] as int;
    let vb: int = b[0] as int * 0x100_0000 + b[1] as int * 0x1_0000 + b[2] as int * 256 + b[3] as int;
    assert(0 <= va < 0x1_0000_0000) by (nonlinear_arith)
        requires
            va == a[0] as int * 0x100_0000 + a[1] as int * 0x1_0000 + a[2] as int * 256 + a[3] as int,
            0 <= a[0] < 256, 0 <= a[1] < 256, 0 <= a[2] < 256, 0 <= a[3] < 256;
    assert(0 <= vb < 0x1_0000_0000) by (nonlinear_arith)
        requires
            vb == b[0] as int * 0x100_0000 + b[1] as int * 0x1_0000 + b[2] as int * 256 + b[3] as int,
            0 <= b[0] < 256, 0 <= b[1] < 256, 0 <= b[2] < 256, 0 <= b[3] < 256;
    assert(va == vb);
    assert(a[0] == b[0] && a[1] == b[1] && a[2] == b[2] && a[3] == b[3]) by (nonlinear_arith)
        requires
            va == a[0] as int * 0x100_0000 + a[1] as int * 0x1_0000 + a[2] as int * 256 + a[3] as int,
            vb == b[0] as int * 0x100_0000 + b[1] as int * 0x1_0000 + b[2] as int * 256 + b[3] as int,
            va == vb,
            0 <= a[0] < 256, 0 <= a[1] < 256, 0 <= a[2] < 256, 0 <= a[3] < 256,
            0 <= b[0] < 256, 0 <= b[1] < 256, 0 <= b[2] < 256, 0 <= b[3] < 256;
    assert(a@ =~= b@);
}

/// Law (cache read after write): right after `ip -> mac` is recorded at time `t`, a lookup
/// at a time `now` answers `mac`, unless the entry is a log entry (no answer) or a dynamic
/// entry older than the TTL (expired, no answer); a lookup of any other address answers
/// what it answered before the write.
pub proof fn law_lookup_after_insert(
    state: Map<u32, CacheEntry>,
    ip: [u8; 4],
    mac: [u8; 6],
    st: ArpEntryState,
    t: u64,
    now: u64,
    other: [u8; 4],
)
    ensures
        ({
            let after = live_entries(state.insert(ip_key(ip), entry_at(mac, st, t)), now);
            &&& lookup_answer(after, ip) == if st == ArpEntryState::Log || (st
                == ArpEntryState::Dynamic && now as int - t as int > CACHE_TTL_NANOS) {
                None::<[u8; 6]>
            } else {
                Some(mac)
            }
            &&& other@ != ip@ ==> lookup_answer(after, other) == lookup_answer(
                live_entries(state, now),
                other,
            )
        }),
{
    if other@ != ip@ {
        if ip_key(other) == ip_key(ip) {
            lemma_ip_key_injective(other, ip);
        }
    }
}

/// Law (ARP codec): the 28 bytes built for an ARP packet read back as the same fields.
pub proof fn law_arp_payload_roundtrip(
    operation: u16,
    sender_mac: [u8; 6],
    sender_ip: [u8; 4],
    target_mac: [u8; 6],
    target_ip: [u8; 4],
    packet: ArpPacket,
)
    requires
        arp_fields(arp_payload(operation, sender_mac@, sender_ip@, target_mac@, target_ip@), packet),
    ensures
        arp_payload(operation, sender_mac@, sender_ip@, target_mac@, target_ip@).len() == 28,
        packet.hardware_type == HARDWARE_TYPE_ETHERNET,
        packet.protocol_type == PROTOCOL_TYPE_IPV4,
        packet.hardware_len == 6,
        packet.protocol_len == 4,
        packet.operation == operation,
        packet.sender_mac@ == sender_mac@,
        packet.sender_ip@ == sender_ip@,
        packet.target_mac@ == target_mac@,
        packet.target_ip@ == target_ip@,
{
    let p = arp_payload(operation, sender_mac@, sender_ip@, target_mac@, target_ip@);
    assert(p.subrange(8, 14) =~= sender_mac@);
    assert(p.subrange(14, 18) =~= sender_ip@);
    assert(p.subrange(18, 24) =~= target_mac@);
    assert(p.subrange(24, 28) =~= target_ip@);
    assert(packet.operation == operation) by {
        assert(p[6] == u16_be_bytes(operation)[0]);
        assert(p[7] == u16_be_bytes(operation)[1]);
    }
}

/// Law (request answered, then resolved): the reply that `handle_incoming` sends for a
/// request is an ARP frame that a resolver waiting for `local_ip` accepts as the answer
/// `local_mac`.
pub proof fn law_reply_resolves(
    local_mac: [u8; 6],
    local_ip: [u8; 4],
    target_mac: [u8; 6],
    target_ip: [u8; 4],
    packet: ArpPacket,
)
    requires
        arp_fields(
            encode_frame(
                target_mac@,
                local_mac@,
                0x0806,
                arp_payload(2, local_mac@, local_ip@, target_mac@, target_ip@),
            ).subrange(
                14,
                encode_frame(
                    target_mac@,
                    local_mac@,
                    0x0806,
                    arp_payload(2, local_mac@, local_ip@, target_mac@, target_ip@),
                ).len() as int,
            ),
            packet,
        ),
    ensures
        is_arp_frame(
            encode_frame(
                target_mac@,
                local_mac@,
                0x0806,
                arp_payload(2, local_mac@, local_ip@, target_mac@, target_ip@),
            ),
        ),
        packet.operation == OPERATION_REPLY,
        packet.sender_ip@ == local_ip@,
        packet.sender_mac == local_mac,
{
    let payload = arp_payload(2, local_mac@, local_ip@, target_mac@, target_ip@);
    let body = frame_body(target_mac@, local_mac@, 0x0806, payload);
    let f = encode_frame(target_mac@, local_mac@, 0x0806, payload);
    assert(body.len() == 42);
    let padded_body = padded(body);
    assert(padded_body.len() == 60);
    assert(f == padded_body + u32_be_bytes(crc32_spec(padded_body)));
    assert(f.len() == 64);
    assert forall|i: int| 0 <= i < 42 implies f[i] == body[i] by {
        assert(f[i] == padded_body[i]);
    }
    assert(f[12] == body[12] && f[13] == body[13]);
    assert(body[12] == u16_be_bytes(0x0806)[0] && body[13] == u16_be_bytes(0x0806)[1]);
    let rest = f.subrange(14, f.len() as int);
    assert forall|i: int| 0 <= i < 28 implies rest[i] == payload[i] by {
        assert(rest[i] == f[14 + i]);
        assert(f[14 + i] == body[14 + i]);
    }
    assert(rest.subrange(0, 28) =~= payload);
    assert(rest.subrange(8, 14) =~= payload.subrange(8, 14));
    assert(rest.subrange(14, 18) =~= payload.subrange(14, 18));
    assert(payload.subrange(8, 14) =~= local_mac@);
    assert(payload.subrange(14, 18) =~= local_ip@);
    assert(packet.sender_mac@ =~= local_mac@);
    assert(packet.sender_mac == local_mac);
    assert(rest[6] == payload[6] && rest[7] == payload[7]);
    assert(payload[6] == u16_be_bytes(2)[0] && payload[7] == u16_be_bytes(2)[1]);
}

} // verus!
