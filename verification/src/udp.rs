//! UDP on top of IPv4: the pseudo-header checksum, the segment layout, and a table of
//! datagram sockets (create, bind, receive queue, close), the delivery of received
//! segments to the matching socket, and the preparation of outgoing datagrams.
use vstd::prelude::*;

use std::collections::HashMap;
use std::collections::VecDeque;

use crate::arp::{ip_equal, network_of, same_subnet};
use crate::bytes::{append_bytes, be16, bytes_to_vec, push_u16_be, read_u16_be, u16_be_bytes};
use crate::checksum::{
    internet_checksum, lemma_ones_sum_append, word_sum, accumulate_words, acc_modulus, checksum_of_sum, fold_and_complement, law_checksum_field_verifies,
    lemma_word_sum_bound, ones_sum,
};
use crate::config::NetworkProfile;
use crate::frame::{build_frame, encode_frame, ETHER_TYPE_IPV4};
use crate::ipv4::{
    are_fragments_of, build_ipv4_packets, decoded_header, ipv4_rejection, law_fragments_addressed, fragment_count, fragment_header, next_ident,
    IdentCounter, Ipv4BuildParams, Ipv4Error, Ipv4Header, Ipv4Packet, };
use crate::reassembly::{
    completed_header, law_reassembles_built_fragments, pushes_built_fragments, reassembly_key,
    BufferView,
};

verus! {

broadcast use vstd::std_specs::hash::group_hash_axioms;

/// Socket handles are small integers; 0 is never handed out first.
pub type SocketId = u32;

pub const INVALID_SOCKET: SocketId = 0;

pub const AF_INET: i32 = 2;

pub const SOCK_DGRAM: i32 = 2;

pub const IPPROTO_IP: i32 = 0;

pub const IPPROTO_UDP: u8 = 17;

pub const UDP_HEADER_LEN: usize = 8;

pub const DEFAULT_TTL: u8 = 64;

pub const DEFAULT_TOS: u8 = 0;

/// The first socket id handed out.
pub const FIRST_SOCKET_ID: SocketId = 1;

/// Ports below this are well-known server ports, which `bind` keeps to one socket each.
pub const WELL_KNOWN_PORT_END: u16 = 1024;

/// The first local port handed out to a new socket.
pub const FIRST_EPHEMERAL_PORT: u16 = 49_152;

/// An IPv4 socket address.
#[derive(Clone, Copy, Debug, PartialEq, Eq)]
pub struct SockAddrIn {
    pub ip: [u8; 4],
    pub port: u16,
}

/// A received datagram waiting in a socket's queue, with its sender.
#[derive(Debug)]
pub struct Incoming {
    pub data: Vec<u8>,
    pub src: SockAddrIn,
}

/// One datagram socket.
#[derive(Debug)]
pub struct UdpSocket {
    id: SocketId,
    iface: String,
    local_mac: [u8; 6],
    local_ip: [u8; 4],
    local_port: u16,
    remote: Option<SockAddrIn>,
    queue: VecDeque<Incoming>,
}

/// What a socket holds: its interface, local address, last destination and the
/// datagrams waiting in its queue (oldest first) with their senders.
pub struct SocketView {
    pub id: SocketId,
    pub iface: Seq<char>,
    pub local_mac: [u8; 6],
    pub local_ip: [u8; 4],
    pub local_port: u16,
    pub remote: Option<SockAddrIn>,
    pub queue: Seq<(Seq<u8>, SockAddrIn)>,
}

/// A queued datagram as its bytes and sender.
pub open spec fn incoming_model(p: Incoming) -> (Seq<u8>, SockAddrIn) {
    (p.data@, p.src)
}

impl UdpSocket {
    pub closed spec fn model(&self) -> SocketView {
        SocketView {
            id: self.id,
            iface: self.iface@,
            local_mac: self.local_mac,
            local_ip: self.local_ip,
            local_port: self.local_port,
            remote: self.remote,
            queue: self.queue@.map_values(|p: Incoming| incoming_model(p)),
        }
    }
}

/// The sockets of this stack, with the counters that number new sockets and pick their
/// local ports.
pub struct SocketTable {
    sockets: HashMap<SocketId, UdpSocket>,
    next_id: SocketId,
    next_port: u16,
}

/// Why a socket operation failed.
#[derive(Debug, Clone, Copy, PartialEq, Eq)]
pub enum UdpError {
    /// The address family is not `AF_INET`.
    UnsupportedFamily,
    /// The socket type is not `SOCK_DGRAM`.
    UnsupportedType,
    /// The protocol is neither `IPPROTO_IP` nor UDP.
    UnsupportedProtocol,
    /// No socket has this id.
    InvalidSocket(SocketId),
    /// The receive queue is empty.
    WouldBlock,
    /// Header and payload exceed 65535 bytes.
    SegmentTooLong,
    /// The IPv4 layer refused the datagram.
    Ipv4(Ipv4Error),
    /// Every socket id is taken.
    NoFreeSocketId,
    /// Every ephemeral port (49152 to 65535) is taken.
    NoFreePort,
    /// Another socket already has this well-known local port.
    AddressInUse,
}

impl View for SocketTable {
    type V = Map<SocketId, SocketView>;

    closed spec fn view(&self) -> Map<SocketId, SocketView> {
        Map::new(|k: SocketId| self.sockets@.contains_key(k), |k: SocketId| self.sockets@[k].model())
    }
}

/// The value after `x` in a wrapping 32-bit counter.
pub open spec fn next_id_after(x: u32) -> u32 {
    if x == 0xFFFF_FFFF {
        0
    } else {
        (x + 1) as u32
    }
}

/// A fresh socket with an empty queue.
pub open spec fn fresh_socket(
    id: SocketId,
    iface: Seq<char>,
    local_ip: [u8; 4],
    local_mac: [u8; 6],
    local_port: u16,
) -> SocketView {
    SocketView { id, iface, local_mac, local_ip, local_port, remote: None, queue: Seq::empty() }
}

/// A socket accepts datagrams for `ip:port` if its port is `port` and it is bound to `ip`
/// or to the wildcard address 0.0.0.0.
pub open spec fn socket_matches(s: SocketView, ip: [u8; 4], port: u16) -> bool {
    s.local_port == port && (s.local_ip@ == ip@ || s.local_ip@ == seq![0u8, 0u8, 0u8, 0u8])
}

/// Some socket other than `except` has local port `port`.
pub open spec fn port_held(m: Map<SocketId, SocketView>, port: u16, except: Option<SocketId>) -> bool {
    exists|k: SocketId| #[trigger] m.contains_key(k) && Some(k) != except && m[k].local_port == port
}

/// Binding socket `id` to `port` conflicts: the port is a well-known server port (below
/// 1024) that another socket already has.
pub open spec fn bind_conflict(m: Map<SocketId, SocketView>, id: SocketId, port: u16) -> bool {
    port < WELL_KNOWN_PORT_END && port_held(m, port, Some(id))
}

/// Some socket has local port `port`.
pub open spec fn port_in_use(m: Map<SocketId, SocketView>, port: u16) -> bool {
    port_held(m, port, None)
}

/// The `j`-th ephemeral port tried when the search starts at `start`: the range 49152 to
/// 65535 walked upwards from `start` (from 49152 when `start` lies below the range),
/// wrapping round to 49152.
pub open spec fn port_candidate(start: u16, j: int) -> u16 {
    let off: int = if start >= 49152 { start - 49152 } else { 0 };
    (49152 + (off + j) % 16384) as u16
}

/// `port` is the first unused ephemeral port of the search that starts at `start`.
pub open spec fn first_free_port(m: Map<SocketId, SocketView>, start: u16, port: u16) -> bool {
    exists|j: int|
        0 <= j < 16384 && port == #[trigger] port_candidate(start, j) && !port_in_use(m, port)
            && forall|i: int| 0 <= i < j ==> port_in_use(m, #[trigger] port_candidate(start, i))
}

/// Every ephemeral port is in use.
pub open spec fn all_ports_used(m: Map<SocketId, SocketView>) -> bool {
    forall|p: u16| 49152 <= p ==> #[trigger] port_in_use(m, p)
}

/// The port the search starts from after `port` was handed out.
pub open spec fn port_after(port: u16) -> u16 {
    if port >= 0xFFFF {
        49152
    } else {
        (port + 1) as u16
    }
}

/// The `j`-th socket id tried when the search starts at `start`: the ids 1 to `u32::MAX`
/// walked upwards from `start` (from 1 when `start` is 0), wrapping round to 1.
pub open spec fn id_candidate(start: SocketId, j: int) -> SocketId {
    let off: int = if start >= 1 { start - 1 } else { 0 };
    (1 + (off + j) % 0xFFFF_FFFF) as SocketId
}

/// `id` is the first unused socket id of the search that starts at `start`.
pub open spec fn first_free_id(m: Map<SocketId, SocketView>, start: SocketId, id: SocketId) -> bool {
    exists|j: int|
        0 <= j < 0xFFFF_FFFF && id == #[trigger] id_candidate(start, j) && !m.contains_key(id)
            && forall|i: int| 0 <= i < j ==> m.contains_key(#[trigger] id_candidate(start, i))
}

/// Every socket id but 0 is in use.
pub open spec fn all_ids_used(m: Map<SocketId, SocketView>) -> bool {
    forall|id: SocketId| id != 0 ==> #[trigger] m.contains_key(id)
}

/// The id the search starts from after `id` was handed out.
pub open spec fn id_after(id: SocketId) -> SocketId {
    if id >= 0xFFFF_FFFF {
        1
    } else {
        (id + 1) as SocketId
    }
}

proof fn lemma_port_candidates_cover(start: u16, p: u16)
    requires
        49152 <= p,
    ensures
        ({
            let off: int = if start >= 49152 { start - 49152 } else { 0 };
            let j: int = if p - 49152 >= off { p - 49152 - off } else { p - 49152 - off + 16384 };
            0 <= j < 16384 && port_candidate(start, j) == p
        }),
{
    let off: int = if start >= 49152 { start - 49152 } else { 0 };
    let j: int = if p - 49152 >= off { p - 49152 - off } else { p - 49152 - off + 16384 };
    assert(off + j == p - 49152 || off + j == p - 49152 + 16384);
    assert((off + j) % 16384 == p - 49152);
}

proof fn lemma_id_candidates_cover(start: SocketId, id: SocketId)
    requires
        id != 0,
    ensures
        ({
            let off: int = if start >= 1 { start - 1 } else { 0 };
            let j: int = if id - 1 >= off { id - 1 - off } else { id - 1 - off + 0xFFFF_FFFF };
            0 <= j < 0xFFFF_FFFF && id_candidate(start, j) == id
        }),
{
    let off: int = if start >= 1 { start - 1 } else { 0 };
    let j: int = if id - 1 >= off { id - 1 - off } else { id - 1 - off + 0xFFFF_FFFF };
    assert(off + j == id - 1 || off + j == id - 1 + 0xFFFF_FFFF);
    assert((off + j) % 0xFFFF_FFFF == id - 1);
}

impl SocketTable {
    /// The id the next new socket gets.
    pub closed spec fn next_id(&self) -> SocketId {
        self.next_id
    }

    /// The local port the next new socket gets.
    pub closed spec fn next_port(&self) -> u16 {
        self.next_port
    }

    /// An empty table; ids start at 1 and local ports at 49152.
    pub fn new() -> (t: Self)
        ensures
            t@ == Map::<SocketId, SocketView>::empty(),
            t.next_id() == FIRST_SOCKET_ID,
            t.next_port() == FIRST_EPHEMERAL_PORT,
    {
        let t = SocketTable { sockets: HashMap::new(), next_id: FIRST_SOCKET_ID, next_port: FIRST_EPHEMERAL_PORT };
        assert(t@ =~= Map::<SocketId, SocketView>::empty());
        t
    }

    /// Adds a socket with the given local address under the next id (the port counter is
    /// left alone).
    pub fn register_socket(
        &mut self,
        iface: &str,
        local_ip: [u8; 4],
        local_mac: [u8; 6],
        local_port: u16,
    ) -> (id: SocketId)
        ensures
            id == old(self).next_id(),
            final(self).next_id() == next_id_after(old(self).next_id()),
            final(self).next_port() == old(self).next_port(),
            final(self)@ == old(self)@.insert(
                id,
                fresh_socket(id, iface@, local_ip, local_mac, local_port),
            ),
    {
        let id: SocketId = self.next_id;
        self.next_id = self.next_id.wrapping_add(1);
        self.insert_socket(id, iface, local_ip, local_mac, local_port);
        id
    }

    /// Whether a socket has this id.
    pub fn contains(&self, id: SocketId) -> (r: bool)
        ensures
            r == self@.contains_key(id),
    {
        self.sockets.contains_key(&id)
    }

    /// The local address of a socket.
    pub fn local_info(&self, id: SocketId) -> (r: Option<([u8; 4], u16)>)
        ensures
            !self@.contains_key(id) ==> r is None,
            self@.contains_key(id) ==> r == Some((self@[id].local_ip, self@[id].local_port)),
    {
        match self.sockets.get(&id) {
            Some(s) => Some((s.local_ip, s.local_port)),
            None => None,
        }
    }

    /// How many datagrams wait in a socket's queue.
    pub fn queue_len(&self, id: SocketId) -> (r: Option<usize>)
        ensures
            !self@.contains_key(id) ==> r is None,
            self@.contains_key(id) ==> r == Some(self@[id].queue.len() as usize),
    {
        match self.sockets.get(&id) {
            Some(s) => Some(s.queue.len()),
            None => None,
        }
    }

    /// The ids of all sockets, each once, in the map's iteration order.
    fn socket_ids(&self) -> (ids: Vec<SocketId>)
        ensures
            ids@.no_duplicates(),
            forall|k: SocketId| ids@.contains(k) <==> self@.contains_key(k),
    {
        let mut ids: Vec<SocketId> = Vec::new();
        let ghost all = vstd::std_specs::iter::IteratorSpec::remaining(
            &vstd::std_specs::hash::spec_keys_iter(&self.sockets),
        );
        proof {
            vstd::std_specs::hash::axiom_spec_keys_iter(&self.sockets);
        }
        for k in it: self.sockets.keys()
            invariant
                it.seq() == all,
                ids@.len() == it.index(),
                forall|j: int| 0 <= j < it.index() ==> ids@[j] == *all[j],
        {
            ids.push(*k);
        }
        proof {
            assert(ids@ =~= all.map_values(|r: &SocketId| *r));
            assert(all.unref() =~= all.map_values(|r: &SocketId| *r));
            assert forall|k: SocketId| ids@.contains(k) <==> self@.contains_key(k) by {
                if ids@.contains(k) {
                    assert(all.unref().to_set().contains(k));
                }
                if self.sockets@.contains_key(k) {
                    assert(all.unref().to_set().contains(k));
                }
            }
            assert forall|a: int, b: int| 0 <= a < ids@.len() && 0 <= b < ids@.len() && a != b
                implies ids@[a] != ids@[b] by {
                assert(all[a] != all[b]);
            }
        }
        ids
    }

    /// Whether some socket other than `except` has local port `port`.
    fn port_taken(&self, port: u16, except: Option<SocketId>) -> (r: bool)
        ensures
            r == port_held(self@, port, except),
    {
        let ids = self.socket_ids();
        let n: usize = ids.len();
        let mut i: usize = 0;
        while i < n
            invariant
                n == ids@.len(),
                i <= n,
                forall|k: SocketId| ids@.contains(k) <==> self@.contains_key(k),
                forall|j: int|
                    0 <= j < i ==> !(Some(#[trigger] ids@[j]) != except
                        && self@[ids@[j]].local_port == port),
            decreases n - i,
        {
            let k: SocketId = ids[i];
            assert(ids@.contains(k));
            let held: bool = match self.sockets.get(&k) {
                Some(s) => s.local_port == port,
                None => false,
            };
            let other: bool = match except {
                Some(e) => e != k,
                None => true,
            };
            if held && other {
                return true;
            }
            i = i + 1;
        }
        proof {
            if port_held(self@, port, except) {
                let k = choose|k: SocketId|
                    #[trigger] self@.contains_key(k) && Some(k) != except && self@[k].local_port == port;
                assert(ids@.contains(k));
                let j = ids@.index_of(k);
                assert(ids@[j] == k);
            }
        }
        false
    }

    /// The first unused ephemeral port, searching upwards from the port counter.
    fn find_free_port(&self) -> (r: Option<u16>)
        ensures
            r matches Some(p) ==> first_free_port(self@, self.next_port(), p),
            r is None ==> all_ports_used(self@),
    {
        let start: u16 = self.next_port;
        let off: u32 = if start >= FIRST_EPHEMERAL_PORT {
            (start - FIRST_EPHEMERAL_PORT) as u32
        } else {
            0
        };
        let mut j: u32 = 0;
        while j < 16384
            invariant
                off < 16384,
                start == self.next_port(),
                off == (if start >= 49152 { start - 49152 } else { 0int }),
                j <= 16384,
                forall|i: int| 0 <= i < j ==> port_in_use(self@, #[trigger] port_candidate(start, i)),
            decreases 16384 - j,
        {
            let p: u16 = (FIRST_EPHEMERAL_PORT as u32 + (off + j) % 16384) as u16;
            assert(p == port_candidate(start, j as int));
            if !self.port_taken(p, None) {
                assert(first_free_port(self@, start, p));
                return Some(p);
            }
            j = j + 1;
        }
        proof {
            assert forall|p: u16| 49152 <= p implies #[trigger] port_in_use(self@, p) by {
                lemma_port_candidates_cover(start, p);
                let jj: int = if p - 49152 >= off { p - 49152 - off } else { p - 49152 - off + 16384 };
                assert(port_in_use(self@, port_candidate(start, jj)));
            }
        }
        None
    }

    /// The first unused socket id, searching upwards from the id counter.
    fn find_free_id(&self) -> (r: Option<SocketId>)
        ensures
            r matches Some(id) ==> first_free_id(self@, self.next_id(), id),
            r is None ==> all_ids_used(self@),
    {
        let start: SocketId = self.next_id;
        let off: u64 = if start >= 1 {
            (start - 1) as u64
        } else {
            0
        };
        let mut j: u64 = 0;
        while j < 0xFFFF_FFFF
            invariant
                off < 0xFFFF_FFFF,
                start == self.next_id(),
                off == (if start >= 1 { start - 1 } else { 0int }),
                j <= 0xFFFF_FFFF,
                forall|i: int| 0 <= i < j ==> self@.contains_key(#[trigger] id_candidate(start, i)),
            decreases 0xFFFF_FFFF - j,
        {
            let id: SocketId = (1 + (off + j) % 0xFFFF_FFFF) as SocketId;
            assert(id == id_candidate(start, j as int));
            if !self.sockets.contains_key(&id) {
                assert(first_free_id(self@, start, id));
                return Some(id);
            }
            j = j + 1;
        }
        proof {
            assert forall|id: SocketId| id != 0 implies #[trigger] self@.contains_key(id) by {
                lemma_id_candidates_cover(start, id);
                let jj: int = if id - 1 >= off { id - 1 - off } else { id - 1 - off + 0xFFFF_FFFF };
                assert(self@.contains_key(id_candidate(start, jj)));
            }
        }
        None
    }

    /// Adds a fresh socket under `id`, leaving the counters alone.
    fn insert_socket(
        &mut self,
        id: SocketId,
        iface: &str,
        local_ip: [u8; 4],
        local_mac: [u8; 6],
        local_port: u16,
    )
        ensures
            final(self).next_id() == old(self).next_id(),
            final(self).next_port() == old(self).next_port(),
            final(self)@ == old(self)@.insert(
                id,
                fresh_socket(id, iface@, local_ip, local_mac, local_port),
            ),
    {
        let sock = UdpSocket {
            id,
            iface: iface.to_owned(),
            local_mac,
            local_ip,
            local_port,
            remote: None,
            queue: VecDeque::new(),
        };
        self.sockets.insert(id, sock);
        proof {
            assert(sock.model().queue =~= Seq::<(Seq<u8>, SockAddrIn)>::empty());
            assert(self@ =~= old(self)@.insert(
                id,
                fresh_socket(id, iface@, local_ip, local_mac, local_port),
            ));
        }
    }

    /// Appends a datagram to a socket's queue.
    fn enqueue(&mut self, id: SocketId, packet: Incoming)
        requires
            old(self)@.contains_key(id),
        ensures
            final(self).next_id() == old(self).next_id(),
            final(self).next_port() == old(self).next_port(),
            final(self)@ == old(self)@.insert(
                id,
                SocketView {
                    queue: old(self)@[id].queue.push(incoming_model(packet)),
                    ..old(self)@[id]
                },
            ),
    {
        let ghost m = incoming_model(packet);
        match self.sockets.remove(&id) {
            Some(s) => {
                let mut s = s;
                let ghost before = s.model();
                s.queue.push_back(packet);
                assert(s.model().queue =~= before.queue.push(m));
                self.sockets.insert(id, s);
                assert(self@ =~= old(self)@.insert(
                    id,
                    SocketView { queue: old(self)@[id].queue.push(m), ..old(self)@[id] },
                ));
            },
            None => {},
        }
    }
}

/// Checks the arguments of `socket`: only IPv4 datagram sockets for UDP are supported.
pub fn check_socket_args(af: i32, sock_type: i32, protocol: i32) -> (r: Result<(), UdpError>)
    ensures
        af != AF_INET ==> r == Err::<(), UdpError>(UdpError::UnsupportedFamily),
        af == AF_INET && sock_type != SOCK_DGRAM ==> r == Err::<(), UdpError>(
            UdpError::UnsupportedType,
        ),
        af == AF_INET && sock_type == SOCK_DGRAM && protocol != IPPROTO_IP && protocol != 17
            ==> r == Err::<(), UdpError>(UdpError::UnsupportedProtocol),
        af == AF_INET && sock_type == SOCK_DGRAM && (protocol == IPPROTO_IP || protocol == 17)
            ==> r is Ok,
{
    if af != AF_INET {
        return Err(UdpError::UnsupportedFamily);
    }
    if sock_type != SOCK_DGRAM {
        return Err(UdpError::UnsupportedType);
    }
    if protocol != IPPROTO_IP && protocol != IPPROTO_UDP as i32 {
        return Err(UdpError::UnsupportedProtocol);
    }
    Ok(())
}

/// What `socket_on_iface` does to `before`, giving `after` and returning `r`: it refuses
/// when every socket id or every ephemeral port is taken; otherwise the new socket gets the
/// first unused id from the id counter on and the first unused ephemeral port from the
/// port counter on, and both counters move past what was handed out.
pub open spec fn socket_created(
    before: Map<SocketId, SocketView>,
    next_id: SocketId,
    next_port: u16,
    after: Map<SocketId, SocketView>,
    after_next_id: SocketId,
    after_next_port: u16,
    iface: Seq<char>,
    local_ip: [u8; 4],
    local_mac: [u8; 6],
    r: Result<SocketId, UdpError>,
) -> bool {
    if all_ids_used(before) {
        &&& r == Err::<SocketId, UdpError>(UdpError::NoFreeSocketId)
        &&& after == before && after_next_id == next_id && after_next_port == next_port
    } else if all_ports_used(before) {
        &&& r == Err::<SocketId, UdpError>(UdpError::NoFreePort)
        &&& after == before && after_next_id == next_id && after_next_port == next_port
    } else {
        &&& r is Ok
        &&& first_free_id(before, next_id, r->Ok_0)
        &&& after.contains_key(r->Ok_0)
        &&& first_free_port(before, next_port, after[r->Ok_0].local_port)
        &&& after == before.insert(
            r->Ok_0,
            fresh_socket(r->Ok_0, iface, local_ip, local_mac, after[r->Ok_0].local_port),
        )
        &&& after_next_id == id_after(r->Ok_0)
        &&& after_next_port == port_after(after[r->Ok_0].local_port)
    }
}

/// Creates a socket on an interface with the given address. It gets an id other than 0
/// that no socket has, and an ephemeral port (49152 or above) that no socket uses: the
/// first free ones from the counters on.
pub fn socket_on_iface(
    table: &mut SocketTable,
    iface: &str,
    local_ip: [u8; 4],
    local_mac: [u8; 6],
) -> (r: Result<SocketId, UdpError>)
    ensures
        socket_created(
            old(table)@,
            old(table).next_id(),
            old(table).next_port(),
            final(table)@,
            final(table).next_id(),
            final(table).next_port(),
            iface@,
            local_ip,
            local_mac,
            r,
        ),
        r matches Ok(id) ==> {
            &&& id != INVALID_SOCKET
            &&& !old(table)@.contains_key(id)
            &&& FIRST_EPHEMERAL_PORT <= final(table)@[id].local_port
            &&& !port_in_use(old(table)@, final(table)@[id].local_port)
        },
{
    let id: SocketId = match table.find_free_id() {
        Some(id) => id,
        None => {
            return Err(UdpError::NoFreeSocketId);
        },
    };
    let port: u16 = match table.find_free_port() {
        Some(p) => p,
        None => {
            return Err(UdpError::NoFreePort);
        },
    };
    proof {
        let jid = choose|j: int|
            0 <= j < 0xFFFF_FFFF && id == #[trigger] id_candidate(old(table).next_id(), j)
                && !old(table)@.contains_key(id) && forall|i: int|
                0 <= i < j ==> old(table)@.contains_key(#[trigger] id_candidate(old(table).next_id(), i));
        assert(id != 0);
        let jp = choose|j: int|
            0 <= j < 16384 && port == #[trigger] port_candidate(old(table).next_port(), j)
                && !port_in_use(old(table)@, port) && forall|i: int|
                0 <= i < j ==> port_in_use(old(table)@, #[trigger] port_candidate(old(table).next_port(), i));
        assert(49152 <= port);
    }
    table.insert_socket(id, iface, local_ip, local_mac, port);
    table.next_id = if id == 0xFFFF_FFFF { 1 } else { id + 1 };
    table.next_port = if port == 0xFFFF { FIRST_EPHEMERAL_PORT } else { port + 1 };
    Ok(id)
}

/// Creates an IPv4 UDP socket on the given interface, after checking the arguments.
pub fn socket(
    table: &mut SocketTable,
    af: i32,
    sock_type: i32,
    protocol: i32,
    iface: &str,
    local_ip: [u8; 4],
    local_mac: [u8; 6],
) -> (r: Result<SocketId, UdpError>)
    ensures
        (check_socket_args_spec(af, sock_type, protocol) is Some) ==> {
            &&& r == Err::<SocketId, UdpError>(check_socket_args_spec(af, sock_type, protocol)->0)
            &&& final(table)@ == old(table)@
            &&& final(table).next_id() == old(table).next_id()
            &&& final(table).next_port() == old(table).next_port()
        },
        (check_socket_args_spec(af, sock_type, protocol) is None) ==> socket_created(
            old(table)@,
            old(table).next_id(),
            old(table).next_port(),
            final(table)@,
            final(table).next_id(),
            final(table).next_port(),
            iface@,
            local_ip,
            local_mac,
            r,
        ),
{
    match check_socket_args(af, sock_type, protocol) {
        Err(e) => Err(e),
        Ok(()) => socket_on_iface(table, iface, local_ip, local_mac),
    }
}

/// The error `socket` refuses its arguments with, if any.
pub open spec fn check_socket_args_spec(af: i32, sock_type: i32, protocol: i32) -> Option<UdpError> {
    if af != AF_INET {
        Some(UdpError::UnsupportedFamily)
    } else if sock_type != SOCK_DGRAM {
        Some(UdpError::UnsupportedType)
    } else if protocol != IPPROTO_IP && protocol != 17 {
        Some(UdpError::UnsupportedProtocol)
    } else {
        None
    }
}

/// Sets the local address of a socket. A well-known server port (below 1024) that another
/// socket already has is refused, so that two sockets never serve one such port; other
/// ports are bound as asked.
pub fn bind(table: &mut SocketTable, id: SocketId, addr: SockAddrIn) -> (r: Result<(), UdpError>)
    ensures
        final(table).next_id() == old(table).next_id(),
        final(table).next_port() == old(table).next_port(),
        !old(table)@.contains_key(id) ==> r == Err::<(), UdpError>(UdpError::InvalidSocket(id))
            && final(table)@ == old(table)@,
        old(table)@.contains_key(id) && bind_conflict(old(table)@, id, addr.port) ==> r
            == Err::<(), UdpError>(UdpError::AddressInUse) && final(table)@ == old(table)@,
        old(table)@.contains_key(id) && !bind_conflict(old(table)@, id, addr.port) ==> r is Ok
            && final(table)@ == old(table)@.insert(
            id,
            SocketView { local_ip: addr.ip, local_port: addr.port, ..old(table)@[id] },
        ),
{
    if !table.sockets.contains_key(&id) {
        return Err(UdpError::InvalidSocket(id));
    }
    if addr.port < WELL_KNOWN_PORT_END && table.port_taken(addr.port, Some(id)) {
        return Err(UdpError::AddressInUse);
    }
    match table.sockets.remove(&id) {
        Some(s) => {
            let mut s = s;
            s.local_ip = addr.ip;
            s.local_port = addr.port;
            table.sockets.insert(id, s);
            assert(table@ =~= old(table)@.insert(
                id,
                SocketView { local_ip: addr.ip, local_port: addr.port, ..old(table)@[id] },
            ));
            Ok(())
        },
        None => {
            assert(table@ =~= old(table)@);
            Err(UdpError::InvalidSocket(id))
        },
    }
}

/// Takes the oldest datagram of a socket's queue and copies as much of it as fits to the
/// front of `buf` (the rest of a longer datagram is lost), returning the number of bytes
/// copied and the sender. The queue being empty is `WouldBlock` (a caller that wants to
/// wait tries again later).
pub fn recvfrom(table: &mut SocketTable, id: SocketId, buf: &mut [u8], flags: u32) -> (r: Result<
    (usize, SockAddrIn),
    UdpError,
>)
    ensures
        final(table).next_id() == old(table).next_id(),
        final(table).next_port() == old(table).next_port(),
        !old(table)@.contains_key(id) ==> {
            &&& r == Err::<(usize, SockAddrIn), UdpError>(UdpError::InvalidSocket(id))
            &&& final(table)@ == old(table)@
            &&& final(buf)@ == old(buf)@
        },
        old(table)@.contains_key(id) && old(table)@[id].queue.len() == 0 ==> {
            &&& r == Err::<(usize, SockAddrIn), UdpError>(UdpError::WouldBlock)
            &&& final(table)@ == old(table)@
            &&& final(buf)@ == old(buf)@
        },
        old(table)@.contains_key(id) && old(table)@[id].queue.len() > 0 ==> {
            let s = old(table)@[id];
            let (data, src) = s.queue[0];
            let n = if data.len() <= old(buf)@.len() {
                data.len()
            } else {
                old(buf)@.len()
            };
            &&& final(table)@ == old(table)@.insert(
                id,
                SocketView { queue: s.queue.drop_first(), ..s },
            )
            &&& r == Ok::<(usize, SockAddrIn), UdpError>((n as usize, src))
            &&& final(buf)@ == data.subrange(0, n as int) + old(buf)@.subrange(
                n as int,
                old(buf)@.len() as int,
            )
        },
{
    match table.sockets.remove(&id) {
        None => {
            assert(table@ =~= old(table)@);
            Err(UdpError::InvalidSocket(id))
        },
        Some(s) => {
            let mut s = s;
            let ghost before = s.model();
            match s.queue.pop_front() {
                None => {
                    table.sockets.insert(id, s);
                    assert(table@ =~= old(table)@);
                    Err(UdpError::WouldBlock)
                },
                Some(pkt) => {
                    assert(s.model().queue =~= before.queue.drop_first());
                    assert(incoming_model(pkt) == before.queue[0]);
                    table.sockets.insert(id, s);
                    assert(table@ =~= old(table)@.insert(
                        id,
                        SocketView { queue: before.queue.drop_first(), ..before },
                    ));
                    let n: usize = if pkt.data.len() <= buf.len() {
                        pkt.data.len()
                    } else {
                        buf.len()
                    };
                    let mut i: usize = 0;
                    while i < n
                        invariant
                            n <= pkt.data@.len(),
                            n <= buf@.len(),
                            buf@.len() == old(buf)@.len(),
                            i <= n,
                            forall|j: int| 0 <= j < i ==> buf@[j] == pkt.data@[j],
                            forall|j: int| n <= j < buf@.len() ==> buf@[j] == old(buf)@[j],
                        decreases n - i,
                    {
                        buf[i] = pkt.data[i];
                        i = i + 1;
                    }
                    assert(buf@ =~= pkt.data@.subrange(0, n as int) + old(buf)@.subrange(
                        n as int,
                        old(buf)@.len() as int,
                    ));
                    Ok((n, pkt.src))
                },
            }
        },
    }
}

/// Removes a socket; its queued datagrams are discarded.
pub fn closesocket(table: &mut SocketTable, id: SocketId) -> (r: Result<(), UdpError>)
    ensures
        final(table).next_id() == old(table).next_id(),
        final(table).next_port() == old(table).next_port(),
        !old(table)@.contains_key(id) ==> r == Err::<(), UdpError>(UdpError::InvalidSocket(id))
            && final(table)@ == old(table)@,
        old(table)@.contains_key(id) ==> r is Ok && final(table)@ == old(table)@.remove(id),
{
    match table.sockets.remove(&id) {
        Some(_s) => {
            assert(table@ =~= old(table)@.remove(id));
            Ok(())
        },
        None => {
            assert(table@ =~= old(table)@);
            Err(UdpError::InvalidSocket(id))
        },
    }
}

/// A socket that accepts datagrams for `dst_ip:dst_port`, if there is one (which one,
/// when several do, follows the map's iteration order).
pub fn find_socket(table: &SocketTable, dst_ip: &[u8; 4], dst_port: u16) -> (r: Option<SocketId>)
    ensures
        r matches Some(id) ==> table@.contains_key(id) && socket_matches(table@[id], *dst_ip, dst_port),
        r is None ==> forall|id: SocketId|
            table@.contains_key(id) ==> !socket_matches(#[trigger] table@[id], *dst_ip, dst_port),
{
    let ids: Vec<SocketId> = table.socket_ids();
    let wildcard: [u8; 4] = [0, 0, 0, 0];
    assert(wildcard@ =~= seq![0u8, 0u8, 0u8, 0u8]);
    let n: usize = ids.len();
    let mut i: usize = 0;
    while i < n
        invariant
            n == ids@.len(),
            i <= n,
            forall|k: SocketId| ids@.contains(k) <==> table@.contains_key(k),
            forall|j: int| 0 <= j < i ==> !socket_matches(table@[#[trigger] ids@[j]], *dst_ip, dst_port),
            wildcard@ == seq![0u8, 0u8, 0u8, 0u8],
        decreases n - i,
    {
        let id: SocketId = ids[i];
        assert(ids@.contains(id));
        match table.sockets.get(&id) {
            Some(s) => {
                if s.local_port == dst_port && (ip_equal(&s.local_ip, dst_ip) || ip_equal(&s.local_ip, &wildcard)) {
                    return Some(id);
                }
            },
            None => {},
        }
        i = i + 1;
    }
    proof {
        assert forall|id: SocketId| table@.contains_key(id) implies !socket_matches(
            #[trigger] table@[id],
            *dst_ip,
            dst_port,
        ) by {
            assert(ids@.contains(id));
            let j = choose|j: int| 0 <= j < ids@.len() && ids@[j] == id;
            assert(!socket_matches(table@[ids@[j]], *dst_ip, dst_port));
        }
    }
    None
}

/// The pseudo-header words: source and destination address, protocol 17 and the segment
/// length (taken modulo 2^16).
pub open spec fn pseudo_sum(src: [u8; 4], dst: [u8; 4], len: nat) -> nat {
    (be16(src[0], src[1]) + be16(src[2], src[3]) + be16(dst[0], dst[1]) + be16(dst[2], dst[3])
        + 17 + len % 0x1_0000) as nat
}

/// The UDP checksum of `segment` sent from `src` to `dst`.
pub open spec fn udp_checksum_spec(src: [u8; 4], dst: [u8; 4], segment: Seq<u8>) -> u16 {
    checksum_of_sum(pseudo_sum(src, dst, segment.len()) + ones_sum(segment))
}

/// Law (UDP checksum, RFC 768): the UDP checksum of a segment is the Internet checksum
/// of the pseudo-header (source address, destination address, a zero byte, protocol 17,
/// the segment length in 16 bits) followed by the segment.
pub proof fn law_udp_checksum_pseudo_header(src: [u8; 4], dst: [u8; 4], segment: Seq<u8>)
    ensures
        udp_checksum_spec(src, dst, segment) == internet_checksum(
            src@ + dst@ + seq![0u8, 17u8] + u16_be_bytes((segment.len() % 0x1_0000) as u16)
                + segment,
        ),
{
    let lenb = u16_be_bytes((segment.len() % 0x1_0000) as u16);
    let ph = src@ + dst@ + seq![0u8, 17u8] + lenb;
    assert(ph.len() == 12);
    lemma_ones_sum_append(ph, segment);
    assert(ph[0] == src[0] && ph[1] == src[1] && ph[2] == src[2] && ph[3] == src[3]);
    assert(ph[4] == dst[0] && ph[5] == dst[1] && ph[6] == dst[2] && ph[7] == dst[3]);
    assert(ph[8] == 0 && ph[9] == 17 && ph[10] == lenb[0] && ph[11] == lenb[1]);
    assert(be16(lenb[0], lenb[1]) == segment.len() % 0x1_0000);
    assert(word_sum(ph, 0) == 0);
    assert(word_sum(ph, 1) == be16(src[0], src[1]));
    assert(word_sum(ph, 2) == be16(src[0], src[1]) + be16(src[2], src[3]));
    assert(word_sum(ph, 3) == word_sum(ph, 2) + be16(dst[0], dst[1]));
    assert(word_sum(ph, 4) == word_sum(ph, 3) + be16(dst[2], dst[3]));
    assert(word_sum(ph, 5) == word_sum(ph, 4) + 17);
    assert(word_sum(ph, 6) == word_sum(ph, 5) + segment.len() % 0x1_0000);
    assert(ones_sum(ph) == pseudo_sum(src, dst, segment.len()));
}

/// UDP checksum over the pseudo-header and the segment.
pub fn udp_checksum(src_ip: &[u8; 4], dst_ip: &[u8; 4], segment: &[u8]) -> (c: u16)
    ensures
        c == udp_checksum_spec(*src_ip, *dst_ip, segment@),
        c == internet_checksum(
            src_ip@ + dst_ip@ + seq![0u8, 17u8] + u16_be_bytes((segment@.len() % 0x1_0000) as u16)
                + segment@,
        ),
{
    proof {
        law_udp_checksum_pseudo_header(*src_ip, *dst_ip, segment@);
    }
    let pseudo_len: u32 = (segment.len() % 0x1_0000) as u32;
    let init: u32 = (src_ip[0] as u32) * 256 + (src_ip[1] as u32) + (src_ip[2] as u32) * 256
        + (src_ip[3] as u32) + (dst_ip[0] as u32) * 256 + (dst_ip[1] as u32) + (dst_ip[2] as u32)
        * 256 + (dst_ip[3] as u32) + (IPPROTO_UDP as u32) + pseudo_len;
    assert(init == pseudo_sum(*src_ip, *dst_ip, segment@.len()));
    let sum: u32 = accumulate_words(segment, init);
    proof {
        vstd::arithmetic::div_mod::lemma_mod_twice(
            (init + ones_sum(segment@)) as int,
            acc_modulus(),
        );
    }
    fold_and_complement(sum)
}

/// Header of a segment with a zero checksum field: source port, destination port, length.
pub open spec fn udp_header_bytes(src_port: u16, dst_port: u16, len: nat) -> Seq<u8> {
    u16_be_bytes(src_port) + u16_be_bytes(dst_port) + u16_be_bytes(len as u16) + seq![0u8, 0u8]
}

/// A segment whose checksum field is still zero.
pub open spec fn unsummed_segment(src_port: u16, dst_port: u16, payload: Seq<u8>) -> Seq<u8> {
    udp_header_bytes(src_port, dst_port, payload.len() + 8) + payload
}

/// `seg` with the 16-bit value `c` written into the checksum field (bytes 6 and 7).
pub open spec fn with_checksum(seg: Seq<u8>, c: u16) -> Seq<u8> {
    seg.update(6, (c / 256) as u8).update(7, (c % 256) as u8)
}

/// The segment sent from `src_ip:src_port` to `dst_ip:dst_port` carrying `payload`.
pub open spec fn udp_segment(
    src_ip: [u8; 4],
    dst_ip: [u8; 4],
    src_port: u16,
    dst_port: u16,
    payload: Seq<u8>,
) -> Seq<u8> {
    let s = unsummed_segment(src_port, dst_port, payload);
    with_checksum(s, udp_checksum_spec(src_ip, dst_ip, s))
}

/// Builds the segment for `payload`, checksum included.
pub fn build_udp_segment(
    src_ip: &[u8; 4],
    dst_ip: &[u8; 4],
    src_port: u16,
    dst_port: u16,
    payload: &[u8],
) -> (seg: Vec<u8>)
    requires
        payload@.len() + 8 <= 0xFFFF,
    ensures
        seg@ == udp_segment(*src_ip, *dst_ip, src_port, dst_port, payload@),
{
    let udp_len: u16 = (UDP_HEADER_LEN + payload.len()) as u16;
    let mut segment: Vec<u8> = Vec::new();
    push_u16_be(&mut segment, src_port);
    push_u16_be(&mut segment, dst_port);
    push_u16_be(&mut segment, udp_len);
    push_u16_be(&mut segment, 0);
    append_bytes(&mut segment, payload);
    assert(segment@ =~= unsummed_segment(src_port, dst_port, payload@));
    let c: u16 = udp_checksum(src_ip, dst_ip, segment.as_slice());
    segment.set(6, (c / 256) as u8);
    segment.set(7, (c % 256) as u8);
    segment
}

/// The length field of a received segment.
pub open spec fn udp_len_field(p: Seq<u8>) -> int {
    be16(p[4], p[5])
}

/// The first `len` bytes of `p` with the checksum field zeroed.
pub open spec fn zeroed_checksum(p: Seq<u8>, len: int) -> Seq<u8> {
    p.subrange(0, len).update(6, 0).update(7, 0)
}

/// What became of a received segment.
#[derive(Debug, Clone, Copy, PartialEq, Eq)]
pub enum UdpReceive {
    /// Shorter than the 8-byte header.
    TooShort,
    /// The length field is below 8 or beyond the received bytes.
    BadLength,
    /// A nonzero checksum field that does not match.
    BadChecksum { computed: u16, expected: u16 },
    /// No socket accepts the destination address.
    NoSocket,
    /// Queued at this socket with this many data bytes.
    Delivered { socket: SocketId, len: usize },
}

/// Why a segment is dropped before the socket lookup, if it is.
pub open spec fn udp_rejection(header: Ipv4Header, p: Seq<u8>) -> Option<UdpReceive> {
    if p.len() < 8 {
        Some(UdpReceive::TooShort)
    } else if udp_len_field(p) < 8 || udp_len_field(p) > p.len() {
        Some(UdpReceive::BadLength)
    } else if be16(p[6], p[7]) != 0 && udp_checksum_spec(
        header.src,
        header.dst,
        zeroed_checksum(p, udp_len_field(p)),
    ) != be16(p[6], p[7]) {
        Some(
            UdpReceive::BadChecksum {
                computed: udp_checksum_spec(
                    header.src,
                    header.dst,
                    zeroed_checksum(p, udp_len_field(p)),
                ),
                expected: be16(p[6], p[7]) as u16,
            },
        )
    } else {
        None
    }
}

/// The datagram a valid segment carries, with its sender.
pub open spec fn carried_datagram(header: Ipv4Header, p: Seq<u8>) -> (Seq<u8>, SockAddrIn) {
    (p.subrange(8, udp_len_field(p)), SockAddrIn { ip: header.src, port: be16(p[0], p[1]) as u16 })
}

/// What handling a received segment `p` (in a packet with header `header`) does to the
/// sockets `before`, giving `after` and the outcome `r`: a segment that fails a check is
/// dropped with that reason; a valid one is queued at a socket accepting its destination,
/// or dropped when there is none.
pub open spec fn udp_handled(
    before: Map<SocketId, SocketView>,
    after: Map<SocketId, SocketView>,
    header: Ipv4Header,
    p: Seq<u8>,
    r: UdpReceive,
) -> bool {
    match udp_rejection(header, p) {
        Some(e) => r == e && after == before,
        None => {
            let dst_port = be16(p[2], p[3]) as u16;
            match r {
                UdpReceive::NoSocket => {
                    &&& after == before
                    &&& forall|id: SocketId|
                        before.contains_key(id) ==> !socket_matches(
                            #[trigger] before[id],
                            header.dst,
                            dst_port,
                        )
                },
                UdpReceive::Delivered { socket, len } => {
                    let d = carried_datagram(header, p);
                    &&& before.contains_key(socket)
                    &&& socket_matches(before[socket], header.dst, dst_port)
                    &&& len == d.0.len()
                    &&& after == before.insert(
                        socket,
                        SocketView { queue: before[socket].queue.push(d), ..before[socket] },
                    )
                },
                _ => false,
            }
        },
    }
}

/// Handles a received UDP segment: after the length and checksum checks, its data is
/// queued at a socket that accepts its destination address.
pub fn handle_udp_packet(table: &mut SocketTable, ip_header: &Ipv4Header, payload: &[u8]) -> (r:
    UdpReceive)
    ensures
        final(table).next_id() == old(table).next_id(),
        final(table).next_port() == old(table).next_port(),
        udp_handled(old(table)@, final(table)@, *ip_header, payload@, r),
{
    if payload.len() < UDP_HEADER_LEN {
        return UdpReceive::TooShort;
    }
    let src_port: u16 = read_u16_be(payload, 0);
    let dst_port: u16 = read_u16_be(payload, 2);
    let udp_len: usize = read_u16_be(payload, 4) as usize;
    if udp_len < UDP_HEADER_LEN || udp_len > payload.len() {
        return UdpReceive::BadLength;
    }
    let recv_checksum: u16 = read_u16_be(payload, 6);
    let mut seg: Vec<u8> = bytes_to_vec(&payload[0..udp_len]);
    seg.set(6, 0);
    seg.set(7, 0);
    assert(seg@ =~= zeroed_checksum(payload@, udp_len as int));
    let calc: u16 = udp_checksum(&ip_header.src, &ip_header.dst, seg.as_slice());
    if recv_checksum != 0 && calc != recv_checksum {
        return UdpReceive::BadChecksum { computed: calc, expected: recv_checksum };
    }
    match find_socket(table, &ip_header.dst, dst_port) {
        None => UdpReceive::NoSocket,
        Some(id) => {
            let data: Vec<u8> = bytes_to_vec(&payload[UDP_HEADER_LEN..udp_len]);
            let len: usize = data.len();
            let incoming = Incoming { data, src: SockAddrIn { ip: ip_header.src, port: src_port } };
            assert(incoming_model(incoming) == carried_datagram(*ip_header, payload@));
            table.enqueue(id, incoming);
            UdpReceive::Delivered { socket: id, len }
        },
    }
}

/// An outgoing datagram ready for the link layer: its IPv4 packets, the next hop whose
/// MAC address they are sent to, and the sending socket's interface and address.
#[derive(Debug)]
pub struct UdpDatagram {
    pub packets: Vec<Ipv4Packet>,
    pub next_hop: [u8; 4],
    pub iface: String,
    pub local_mac: [u8; 6],
    pub local_ip: [u8; 4],
    pub local_port: u16,
    pub sent: usize,
}

/// The Ethernet frames that carry a prepared datagram to the next hop at `dest_mac`: one
/// IPv4 frame per packet, in the packets' order, sent from the socket's MAC address.
pub fn datagram_frames(d: &UdpDatagram, dest_mac: &[u8; 6]) -> (frames: Vec<Vec<u8>>)
    ensures
        frames@.len() == d.packets@.len(),
        forall|k: int|
            0 <= k < frames@.len() ==> (#[trigger] frames@[k])@ == encode_frame(
                dest_mac@,
                d.local_mac@,
                ETHER_TYPE_IPV4,
                d.packets@[k].bytes@,
            ),
{
    let mut frames: Vec<Vec<u8>> = Vec::new();
    let n: usize = d.packets.len();
    let mut i: usize = 0;
    while i < n
        invariant
            n == d.packets@.len(),
            i <= n,
            frames@.len() == i,
            forall|k: int|
                0 <= k < i ==> (#[trigger] frames@[k])@ == encode_frame(
                    dest_mac@,
                    d.local_mac@,
                    ETHER_TYPE_IPV4,
                    d.packets@[k].bytes@,
                ),
        decreases n - i,
    {
        let frame = build_frame(dest_mac, &d.local_mac, ETHER_TYPE_IPV4, d.packets[i].bytes.as_slice());
        frames.push(frame);
        i = i + 1;
    }
    frames
}

/// The parameters of the IPv4 datagram that carries a segment from `src` to `dst`.
pub open spec fn udp_params(src: [u8; 4], dst: [u8; 4]) -> Ipv4BuildParams {
    Ipv4BuildParams {
        src,
        dst,
        protocol: 17,
        ttl: DEFAULT_TTL,
        tos: DEFAULT_TOS,
        df: false,
        identification: None,
    }
}

/// Law (a UDP datagram goes where it is sent): every packet built to carry a segment from
/// `src` to `dst` carries `src` as its source, `dst` as its destination and protocol 17
/// (UDP), in its header and in its bytes as the receiver decodes them, and its bytes pass
/// the receiver's checks.
pub proof fn law_udp_datagram_addressed(
    packets: Seq<Ipv4Packet>,
    segment: Seq<u8>,
    src: [u8; 4],
    dst: [u8; 4],
    ident: u16,
)
    requires
        are_fragments_of(packets, segment, udp_params(src, dst), ident),
    ensures
        forall|k: int|
            0 <= k < packets.len() ==> {
                &&& (#[trigger] packets[k]).header.src == src
                &&& packets[k].header.dst == dst
                &&& packets[k].header.protocol == IPPROTO_UDP
                &&& ipv4_rejection(packets[k].bytes@) is None
                &&& decoded_header(packets[k].bytes@).src == src
                &&& decoded_header(packets[k].bytes@).dst == dst
                &&& decoded_header(packets[k].bytes@).protocol == IPPROTO_UDP
            },
{
    law_fragments_addressed(packets, segment, udp_params(src, dst), ident);
}

/// The next hop for `dst`: itself on the local subnet, the gateway otherwise.
pub open spec fn next_hop_for(local_ip: [u8; 4], dst: [u8; 4], profile: NetworkProfile) -> [u8; 4] {
    if network_of(local_ip, profile.subnet_mask) == network_of(dst, profile.subnet_mask) {
        dst
    } else {
        profile.gateway_ip
    }
}

/// Prepares `buf` for sending from socket `id` to `dest`: the destination becomes the
/// socket's remote address, and the segment is built, checksummed and split into IPv4
/// packets addressed to the next hop (an empty buffer gives a header-only segment). Fails
/// for an unknown socket or a segment over 65535 bytes.
pub fn sendto(
    table: &mut SocketTable,
    id: SocketId,
    buf: &[u8],
    flags: u32,
    dest: SockAddrIn,
    profile: &NetworkProfile,
    counter: &mut IdentCounter,
) -> (r: Result<UdpDatagram, UdpError>)
    ensures
        r matches Ok(d) ==> forall|k: int|
            0 <= k < d.packets@.len() ==> {
                &&& (#[trigger] d.packets@[k]).header.src == d.local_ip
                &&& d.packets@[k].header.dst == dest.ip
                &&& d.packets@[k].header.protocol == IPPROTO_UDP
            },
        final(table).next_id() == old(table).next_id(),
        final(table).next_port() == old(table).next_port(),
        !old(table)@.contains_key(id) ==> {
            &&& r == Err::<UdpDatagram, UdpError>(UdpError::InvalidSocket(id))
            &&& final(table)@ == old(table)@
            &&& final(counter)@ == old(counter)@
        },
        old(table)@.contains_key(id) ==> {
            let s = old(table)@[id];
            &&& final(table)@ == old(table)@.insert(id, SocketView { remote: Some(dest), ..s })
            &&& buf@.len() + 8 > 0xFFFF ==> r == Err::<UdpDatagram, UdpError>(
                UdpError::SegmentTooLong,
            ) && final(counter)@ == old(counter)@
            &&& buf@.len() + 8 <= 0xFFFF ==> {
                &&& final(counter)@ == next_ident(old(counter)@)
                &&& r matches Ok(d) && {
                    &&& d.sent == buf@.len()
                    &&& d.local_ip == s.local_ip
                    &&& d.local_mac == s.local_mac
                    &&& d.local_port == s.local_port
                    &&& d.iface@ == s.iface
                    &&& d.next_hop == next_hop_for(s.local_ip, dest.ip, *profile)
                    &&& are_fragments_of(
                        d.packets@,
                        udp_segment(s.local_ip, dest.ip, s.local_port, dest.port, buf@),
                        udp_params(s.local_ip, dest.ip),
                        old(counter)@,
                    )
                }
            }
        },
{
    let (local_ip, local_mac, local_port, iface) = match table.sockets.remove(&id) {
        None => {
            assert(table@ =~= old(table)@);
            return Err(UdpError::InvalidSocket(id));
        },
        Some(s) => {
            let mut s = s;
            s.remote = Some(dest);
            let info = (s.local_ip, s.local_mac, s.local_port, s.iface.clone());
            table.sockets.insert(id, s);
            assert(table@ =~= old(table)@.insert(id, SocketView { remote: Some(dest), ..old(table)@[id] }));
            info
        },
    };
    if buf.len() > 0xFFFF - UDP_HEADER_LEN {
        return Err(UdpError::SegmentTooLong);
    }
    let segment: Vec<u8> = build_udp_segment(&local_ip, &dest.ip, local_port, dest.port, buf);
    let params = Ipv4BuildParams {
        src: local_ip,
        dst: dest.ip,
        protocol: IPPROTO_UDP,
        ttl: DEFAULT_TTL,
        tos: DEFAULT_TOS,
        df: false,
        identification: None,
    };
    assert(params == udp_params(local_ip, dest.ip));
    let ghost c0 = counter@;
    let packets = match build_ipv4_packets(segment.as_slice(), &params, counter) {
        Ok(p) => p,
        Err(e) => return Err(UdpError::Ipv4(e)),
    };
    proof {
        law_udp_datagram_addressed(packets@, segment@, local_ip, dest.ip, c0);
    }
    let next_hop: [u8; 4] = if same_subnet(&local_ip, &dest.ip, &profile.subnet_mask) {
        dest.ip
    } else {
        profile.gateway_ip
    };
    Ok(UdpDatagram { packets, next_hop, iface, local_mac, local_ip, local_port, sent: buf.len() })
}



/// A segment of at most 65535 bytes sums to far less than 2^32.
proof fn lemma_segment_sum_small(src: [u8; 4], dst: [u8; 4], seg: Seq<u8>)
    requires
        seg.len() <= 0xFFFF,
    ensures
        pseudo_sum(src, dst, seg.len()) + ones_sum(seg) + 0xFFFF < acc_modulus(),
{
    lemma_word_sum_bound(seg, seg.len() / 2);
    assert(0xFFFF * (seg.len() / 2) <= 0xFFFF * 0x8000) by (nonlinear_arith)
        requires
            seg.len() <= 0xFFFF,
    ;
}

/// Law (checksum check): the checksum computed over a built segment, checksum field
/// included, is 0.
pub proof fn law_udp_checksum_verifies(
    src_ip: [u8; 4],
    dst_ip: [u8; 4],
    src_port: u16,
    dst_port: u16,
    payload: Seq<u8>,
)
    requires
        payload.len() + 8 <= 0xFFFF,
    ensures
        udp_checksum_spec(src_ip, dst_ip, udp_segment(src_ip, dst_ip, src_port, dst_port, payload))
            == 0,
{
    let s = unsummed_segment(src_port, dst_port, payload);
    assert(s[6] == 0 && s[7] == 0);
    lemma_segment_sum_small(src_ip, dst_ip, s);
    law_checksum_field_verifies(s, pseudo_sum(src_ip, dst_ip, s.len()), 6);
}

/// Law (send, then receive): a segment built from `src_ip:src_port` to `dst_ip:dst_port`
/// and received in a packet with those addresses passes the length and checksum checks,
/// is addressed to `dst_port`, and carries `payload` from `src_ip:src_port`.
pub proof fn law_segment_received(
    src_ip: [u8; 4],
    dst_ip: [u8; 4],
    src_port: u16,
    dst_port: u16,
    payload: Seq<u8>,
    header: Ipv4Header,
)
    requires
        payload.len() + 8 <= 0xFFFF,
        header.src == src_ip,
        header.dst == dst_ip,
    ensures
        ({
            let seg = udp_segment(src_ip, dst_ip, src_port, dst_port, payload);
            &&& udp_rejection(header, seg) is None
            &&& be16(seg[2], seg[3]) == dst_port
            &&& carried_datagram(header, seg) == (payload, SockAddrIn { ip: src_ip, port: src_port })
        }),
{
    let s = unsummed_segment(src_port, dst_port, payload);
    let c = udp_checksum_spec(src_ip, dst_ip, s);
    let seg = with_checksum(s, c);
    assert(seg.len() == payload.len() + 8);
    assert(seg[4] == s[4] && seg[5] == s[5]);
    assert(s[4] == u16_be_bytes((payload.len() + 8) as u16)[0]);
    assert(s[5] == u16_be_bytes((payload.len() + 8) as u16)[1]);
    assert(udp_len_field(seg) == payload.len() + 8);
    assert(zeroed_checksum(seg, udp_len_field(seg)) =~= s);
    assert(be16(seg[6], seg[7]) == c);
    assert(seg[2] == s[2] && seg[3] == s[3]);
    assert(seg[0] == s[0] && seg[1] == s[1]);
    assert(seg.subrange(8, udp_len_field(seg)) =~= payload);
}

/// Law (send through IPv4, then receive): the segment that `sendto` builds, split into
/// the IPv4 fragments it sends, and those fragments pushed in order into a reassembler
/// with no buffer for that datagram, comes out of the last push whole, in a datagram from
/// the sender to the destination; the UDP checks then accept it, it is addressed to the
/// destination port, and it carries the payload from the sender's address. (The segment
/// must fit the reassembler's bound of 65475 bytes.)
pub proof fn law_sent_datagram_received(
    src_ip: [u8; 4],
    dst_ip: [u8; 4],
    src_port: u16,
    dst_port: u16,
    payload: Seq<u8>,
    ident: u16,
    states: Seq<Map<u128, BufferView>>,
    times: Seq<u64>,
    released: Seq<Option<(Ipv4Header, Seq<u8>)>>,
)
    requires
        payload.len() + 8 <= 65475,
        pushes_built_fragments(
            udp_segment(src_ip, dst_ip, src_port, dst_port, payload),
            udp_params(src_ip, dst_ip),
            ident,
            states,
            times,
            released,
        ),
        !states[0].contains_key(
            reassembly_key(
                fragment_header(
                    udp_params(src_ip, dst_ip),
                    ident,
                    udp_segment(src_ip, dst_ip, src_port, dst_port, payload).len(),
                    0,
                ),
            ),
        ),
    ensures
        ({
            let seg = udp_segment(src_ip, dst_ip, src_port, dst_port, payload);
            let n = fragment_count(seg.len());
            &&& forall|i: int| 0 <= i < n - 1 ==> released[i] is None
            &&& released[n - 1] matches Some((h, data)) && {
                &&& data == seg
                &&& h.src == src_ip
                &&& h.dst == dst_ip
                &&& h.protocol == IPPROTO_UDP
                &&& udp_rejection(h, data) is None
                &&& be16(data[2], data[3]) == dst_port
                &&& carried_datagram(h, data) == (payload, SockAddrIn { ip: src_ip, port: src_port })
            }
        }),
{
    let seg = udp_segment(src_ip, dst_ip, src_port, dst_port, payload);
    let params = udp_params(src_ip, dst_ip);
    assert(seg.len() == payload.len() + 8);
    law_reassembles_built_fragments(seg, params, ident, states, times, released);
    let n = fragment_count(seg.len());
    let h0 = fragment_header(params, ident, seg.len(), 0);
    let h = if n == 1 {
        h0
    } else {
        completed_header(h0, seg.len())
    };
    assert(released[n - 1] == Some((h, seg)));
    assert(h.src == src_ip && h.dst == dst_ip && h.protocol == IPPROTO_UDP);
    law_segment_received(src_ip, dst_ip, src_port, dst_port, payload, h);
}

} // verus!
