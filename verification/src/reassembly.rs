//! Reassembly of fragmented IPv4 datagrams. Fragments are grouped by
//! (source, destination, identification, protocol), kept in offset order, and the
//! datagram is released once its last fragment has arrived and the fragments leave
//! no gap; buffers older than the timeout are dropped.
use vstd::prelude::*;

use std::collections::HashMap;
use std::time::Instant;

use crate::bytes::{be32, bytes_to_vec, push_zeros};
use crate::clock::{instant_now, nanos_since};
use crate::ipv4::{
    fragment_count, fragment_data, fragment_header, fragment_len, Ipv4BuildParams,
    Ipv4Header, ReassembledPacket,
};

verus! {

broadcast use vstd::std_specs::hash::group_hash_axioms;

/// A buffer is dropped once it has waited this long (30 s) for its missing fragments.
pub const FRAGMENT_TIMEOUT_NANOS: u64 = 30_000_000_000;

/// One stored fragment: its byte offset in the datagram and its data.
pub struct FragmentView {
    pub offset: nat,
    pub data: Seq<u8>,
}

/// The state of one datagram being reassembled.
pub struct BufferView {
    /// When the first fragment arrived (nanoseconds on the reassembler's clock).
    pub start: u64,
    /// The header the reassembled datagram will carry.
    pub header: Ipv4Header,
    /// Fragments received so far, in increasing offset order.
    pub fragments: Seq<FragmentView>,
    /// Payload length, known once the last fragment (MF clear) has arrived.
    pub total: Option<nat>,
}

/// The 32-bit value of an IPv4 address.
pub open spec fn ip_value(a: [u8; 4]) -> int {
    be32(a[0], a[1], a[2], a[3])
}

/// The key that groups fragments of one datagram: source, destination, identification, protocol.
pub open spec fn reassembly_key(h: Ipv4Header) -> u128 {
    (ip_value(h.src) * 0x100_0000_0000_0000 + ip_value(h.dst) * 0x100_0000 + h.identification
        * 256 + h.protocol) as u128
}

/// End of a fragment's data in the datagram.
pub open spec fn frag_end(x: FragmentView) -> nat {
    x.offset + x.data.len()
}

/// Fragments are stored in strictly increasing offset order (so no offset occurs twice).
pub open spec fn offsets_increasing(f: Seq<FragmentView>) -> bool {
    forall|i: int, j: int| 0 <= i < j < f.len() ==> f[i].offset < f[j].offset
}

/// Some stored fragment starts at `offset`.
pub open spec fn has_fragment_at(f: Seq<FragmentView>, offset: nat) -> bool {
    exists|i: int| 0 <= i < f.len() && f[i].offset == offset
}

/// Every fragment starts at 0 or where an earlier fragment has already reached.
pub open spec fn gap_free(f: Seq<FragmentView>) -> bool {
    forall|i: int|
        0 <= i < f.len() ==> f[i].offset == 0 || exists|j: int|
            0 <= j < i && frag_end(f[j]) >= f[i].offset
}

/// No fragment reaches past `total`, and one reaches exactly to it.
pub open spec fn ends_exactly_at(f: Seq<FragmentView>, total: nat) -> bool {
    &&& forall|i: int| 0 <= i < f.len() ==> frag_end(f[i]) <= total
    &&& exists|i: int| 0 <= i < f.len() && frag_end(f[i]) == total
}

/// A buffer can be released: the length is known and is zero, or the fragments cover
/// it without a gap.
pub open spec fn is_complete(b: BufferView) -> bool {
    match b.total {
        None => false,
        Some(t) => t == 0 || (gap_free(b.fragments) && ends_exactly_at(b.fragments, t)),
    }
}

/// Whether fragment `x` covers byte `p` of the datagram.
pub open spec fn covers(x: FragmentView, p: int) -> bool {
    x.offset <= p < frag_end(x)
}

/// Byte `p` after laying down the first `k` fragments in offset order on a zeroed
/// buffer, each later fragment overwriting earlier ones.
pub open spec fn painted(f: Seq<FragmentView>, k: nat, p: int) -> u8
    decreases k,
{
    if k == 0 {
        0
    } else if k <= f.len() && covers(f[k - 1], p) {
        f[k - 1].data[p - f[k - 1].offset]
    } else {
        painted(f, (k - 1) as nat, p)
    }
}

/// The reassembled payload of `total` bytes.
pub open spec fn assembled_payload(f: Seq<FragmentView>, total: nat) -> Seq<u8> {
    Seq::new(total, |p: int| painted(f, f.len(), p))
}

/// The header of a released datagram: unfragmented, total length updated, checksum cleared.
pub open spec fn completed_header(h: Ipv4Header, total: nat) -> Ipv4Header {
    Ipv4Header {
        mf: false,
        fragment_offset: 0,
        total_length: (h.ihl as nat * 4 + total % 0x1_0000) as u16,
        checksum: 0,
        ..h
    }
}

/// Releasing a buffer computes the total length in 16 bits; this says it does not overflow.
pub open spec fn total_length_fits(b: BufferView) -> bool {
    match b.total {
        None => true,
        Some(t) => t == 0 || b.header.ihl as nat * 4 + t % 0x1_0000 <= 0xFFFF,
    }
}

/// Largest fragment end among the first `k` fragments (0 when there are none).
pub open spec fn max_end(f: Seq<FragmentView>, k: nat) -> nat
    decreases k,
{
    if k == 0 || k > f.len() {
        0
    } else {
        let m = max_end(f, (k - 1) as nat);
        if frag_end(f[k - 1]) > m {
            frag_end(f[k - 1])
        } else {
            m
        }
    }
}

proof fn lemma_max_end(f: Seq<FragmentView>, k: nat)
    requires
        k <= f.len(),
    ensures
        forall|j: int| 0 <= j < k ==> frag_end(f[j]) <= max_end(f, k),
        max_end(f, k) == 0 || exists|j: int| 0 <= j < k && frag_end(f[j]) == max_end(f, k),
    decreases k,
{
    if k > 0 {
        lemma_max_end(f, (k - 1) as nat);
    }
}

/// A stored fragment.
struct Fragment {
    offset: usize,
    data: Vec<u8>,
}

impl Fragment {
    spec fn model(&self) -> FragmentView {
        FragmentView { offset: self.offset as nat, data: self.data@ }
    }
}

/// The fragments of one datagram received so far.
struct FragmentBuffer {
    start: u64,
    header: Ipv4Header,
    fragments: Vec<Fragment>,
    total_payload_len: Option<usize>,
}

spec fn fragments_model(v: Seq<Fragment>) -> Seq<FragmentView> {
    v.map_values(|x: Fragment| x.model())
}

impl FragmentBuffer {
    spec fn model(&self) -> BufferView {
        BufferView {
            start: self.start,
            header: self.header,
            fragments: fragments_model(self.fragments@),
            total: match self.total_payload_len {
                Some(t) => Some(t as nat),
                None => None,
            },
        }
    }

    /// Offsets increase and every fragment end fits in `usize`.
    spec fn wf(&self) -> bool {
        &&& offsets_increasing(self.model().fragments)
        &&& forall|i: int|
            0 <= i < self.fragments@.len() ==> frag_end(self.model().fragments[i]) <= usize::MAX
    }

    fn new(header: Ipv4Header, start: u64) -> (b: Self)
        ensures
            b.wf(),
            b.model() == (BufferView { start, header, fragments: Seq::empty(), total: None }),
    {
        let b = FragmentBuffer { start, header, fragments: Vec::new(), total_payload_len: None };
        assert(b.model().fragments =~= Seq::<FragmentView>::empty());
        b
    }

    /// A copy of this buffer.
    fn duplicate(&self) -> (r: Self)
        requires
            self.wf(),
        ensures
            r.wf(),
            r.model() == self.model(),
    {
        let mut fragments: Vec<Fragment> = Vec::new();
        let n: usize = self.fragments.len();
        let mut i: usize = 0;
        while i < n
            invariant
                n == self.fragments@.len(),
                i <= n,
                fragments@.len() == i,
                forall|j: int| 0 <= j < i ==> (#[trigger] fragments@[j]).model() == self.fragments@[j].model(),
            decreases n - i,
        {
            let f = &self.fragments[i];
            fragments.push(Fragment { offset: f.offset, data: bytes_to_vec(f.data.as_slice()) });
            i = i + 1;
        }
        let r = FragmentBuffer {
            start: self.start,
            header: self.header,
            fragments,
            total_payload_len: self.total_payload_len,
        };
        assert(r.model().fragments =~= self.model().fragments);
        r
    }

    /// Whether a stored fragment starts at `offset`.
    fn has_offset(&self, offset: usize) -> (r: bool)
        ensures
            r == has_fragment_at(self.model().fragments, offset as nat),
    {
        let n: usize = self.fragments.len();
        let mut i: usize = 0;
        while i < n
            invariant
                n == self.fragments@.len(),
                i <= n,
                forall|j: int| 0 <= j < i ==> self.fragments@[j].offset != offset,
            decreases n - i,
        {
            if self.fragments[i].offset == offset {
                assert(self.model().fragments[i as int].offset == offset);
                return true;
            }
            i = i + 1;
        }
        false
    }

    /// Stores `x` at its place in offset order.
    fn insert_fragment(&mut self, x: Fragment)
        requires
            old(self).wf(),
            !has_fragment_at(old(self).model().fragments, x.offset as nat),
            x.offset + x.data@.len() <= usize::MAX,
        ensures
            final(self).wf(),
            final(self).start == old(self).start,
            final(self).header == old(self).header,
            final(self).total_payload_len == old(self).total_payload_len,
            stored_in_order(old(self).model().fragments, final(self).model().fragments, x.model()),
    {
        let n: usize = self.fragments.len();
        let mut i: usize = 0;
        loop
            invariant
                n == self.fragments@.len(),
                self.wf(),
                !has_fragment_at(self.model().fragments, x.offset as nat),
                i <= n,
                forall|j: int| 0 <= j < i ==> self.fragments@[j].offset < x.offset,
            ensures
                i <= n,
                forall|j: int| 0 <= j < i ==> self.fragments@[j].offset < x.offset,
                forall|j: int| i <= j < n ==> self.fragments@[j].offset > x.offset,
            decreases n - i,
        {
            if i == n {
                break;
            }
            if self.fragments[i].offset > x.offset {
                proof {
                    assert forall|j: int| i <= j < n implies self.fragments@[j].offset
                        > x.offset by {
                        if j > i {
                            assert(self.model().fragments[i as int].offset
                                < self.model().fragments[j].offset);
                        }
                    }
                }
                break;
            }
            assert(self.model().fragments[i as int].offset != x.offset);
            i = i + 1;
        }
        let ghost before = self.fragments@;
        let ghost xm = x.model();
        self.fragments.insert(i, x);
        proof {
            let old_m = fragments_model(before);
            let new_m = fragments_model(self.fragments@);
            assert(new_m =~= old_m.insert(i as int, xm));
            assert forall|a: int, b: int| 0 <= a < b < new_m.len() implies new_m[a].offset
                < new_m[b].offset by {
                if b < i {
                } else if b == i {
                } else if a < i {
                } else if a == i {
                } else {
                    assert(new_m[a] == old_m[a - 1]);
                    assert(new_m[b] == old_m[b - 1]);
                }
            }
        }
    }

    /// Walks the fragments in offset order with a cursor at the furthest byte reached:
    /// `None` at the first fragment that starts beyond the cursor, otherwise the
    /// furthest end.
    fn scan_coverage(&self) -> (r: Option<usize>)
        requires
            self.wf(),
        ensures
            r is Some <==> gap_free(self.model().fragments),
            r matches Some(c) ==> c == max_end(
                self.model().fragments,
                self.model().fragments.len(),
            ),
    {
        let ghost f = self.model().fragments;
        let n: usize = self.fragments.len();
        let mut cursor: usize = 0;
        let mut i: usize = 0;
        while i < n
            invariant
                n == self.fragments@.len(),
                n == f.len(),
                f == self.model().fragments,
                self.wf(),
                i <= n,
                cursor == max_end(f, i as nat),
                forall|k: int|
                    0 <= k < i ==> f[k].offset == 0 || exists|j: int|
                        0 <= j < k && frag_end(f[j]) >= f[k].offset,
            decreases n - i,
        {
            let off: usize = self.fragments[i].offset;
            assert(f[i as int].offset == off);
            proof {
                lemma_max_end(f, i as nat);
            }
            if off > cursor {
                proof {
                    assert forall|j: int| 0 <= j < i implies frag_end(f[j]) < f[i as int].offset by {
                    }
                    assert(!(f[i as int].offset == 0 || exists|j: int|
                        0 <= j < i && frag_end(f[j]) >= f[i as int].offset));
                }
                return None;
            }
            let end: usize = off + self.fragments[i].data.len();
            if end > cursor {
                cursor = end;
            }
            i = i + 1;
        }
        Some(cursor)
    }

    /// Lays the fragments, in offset order, on `total` zero bytes.
    fn paint(&self, total: usize) -> (payload: Vec<u8>)
        requires
            self.wf(),
            forall|k: int|
                0 <= k < self.model().fragments.len() ==> frag_end(self.model().fragments[k])
                    <= total,
        ensures
            payload@ == assembled_payload(self.model().fragments, total as nat),
    {
        let ghost f = self.model().fragments;
        let n: usize = self.fragments.len();
        let mut payload: Vec<u8> = Vec::new();
        push_zeros(&mut payload, total);
        assert(payload@ =~= Seq::new(total as nat, |p: int| painted(f, 0, p)));
        let mut i: usize = 0;
        while i < n
            invariant
                n == self.fragments@.len(),
                n == f.len(),
                f == self.model().fragments,
                i <= n,
                forall|k: int| 0 <= k < n ==> frag_end(f[k]) <= total,
                payload@ == Seq::new(total as nat, |p: int| painted(f, i as nat, p)),
            decreases n - i,
        {
            let frag = &self.fragments[i];
            let off: usize = frag.offset;
            let len: usize = frag.data.len();
            assert(frag_end(f[i as int]) <= total);
            let ghost prev = payload@;
            let mut t: usize = 0;
            while t < len
                invariant
                    len == frag.data@.len(),
                    i < n,
                    n == f.len(),
                    off + len <= total,
                    off == f[i as int].offset,
                    frag.data@ == f[i as int].data,
                    t <= len,
                    prev == Seq::new(total as nat, |p: int| painted(f, i as nat, p)),
                    payload@.len() == total,
                    forall|p: int|
                        0 <= p < total ==> payload@[p] == if off <= p < off + t {
                            f[i as int].data[p - off]
                        } else {
                            prev[p]
                        },
                decreases len - t,
            {
                payload.set(off + t, frag.data[t]);
                t = t + 1;
            }
            i = i + 1;
            assert(payload@ =~= Seq::new(total as nat, |p: int| painted(f, i as nat, p)));
        }
        assert(payload@ =~= assembled_payload(f, total as nat));
        payload
    }

    /// The datagram, if every fragment is present: the length is known and either zero
    /// or covered without gaps by fragments none of which reaches past it.
    fn try_assemble(&self) -> (r: Option<ReassembledPacket>)
        requires
            self.wf(),
            is_complete(self.model()) ==> total_length_fits(self.model()),
        ensures
            r is Some <==> is_complete(self.model()),
            r matches Some(p) ==> {
                let t = self.model().total->0;
                &&& p.header == completed_header(self.header, t)
                &&& p.payload@ == assembled_payload(self.model().fragments, t)
            },
    {
        let total: usize = match self.total_payload_len {
            None => return None,
            Some(t) => t,
        };
        let ghost f = self.model().fragments;
        let header_len: u16 = self.header.header_len_bytes() as u16;
        if total == 0 {
            let header = Ipv4Header {
                mf: false,
                fragment_offset: 0,
                total_length: header_len,
                checksum: 0,
                ..self.header
            };
            let payload: Vec<u8> = Vec::new();
            assert(payload@ =~= assembled_payload(f, 0));
            return Some(ReassembledPacket { header, payload });
        }
        let cursor: usize = match self.scan_coverage() {
            None => return None,
            Some(c) => c,
        };
        proof {
            lemma_max_end(f, f.len());
        }
        if cursor != total {
            return None;
        }
        let payload: Vec<u8> = self.paint(total);
        let header = Ipv4Header {
            mf: false,
            fragment_offset: 0,
            total_length: header_len + (total % 0x1_0000) as u16,
            checksum: 0,
            ..self.header
        };
        Some(ReassembledPacket { header, payload })
    }
}

/// `after` is `before` with `x` inserted where it keeps offsets increasing.
pub open spec fn stored_in_order(
    before: Seq<FragmentView>,
    after: Seq<FragmentView>,
    x: FragmentView,
) -> bool {
    exists|i: int|
        0 <= i <= before.len() && after == before.insert(i, x) && (forall|j: int|
            0 <= j < i ==> before[j].offset < x.offset) && (forall|j: int|
            i <= j < before.len() ==> before[j].offset > x.offset)
}

/// A header that is not a fragment at all (offset 0, MF clear) is delivered at once.
pub open spec fn is_unfragmented(h: Ipv4Header) -> bool {
    h.fragment_offset == 0 && !h.mf
}

/// The fragment a header and its payload describe.
pub open spec fn fragment_of(h: Ipv4Header, payload: Seq<u8>) -> FragmentView {
    FragmentView { offset: h.fragment_offset as nat * 8, data: payload }
}

/// The fragment repeats an offset already stored for its datagram.
pub open spec fn is_duplicate(state: Map<u128, BufferView>, h: Ipv4Header) -> bool {
    &&& state.contains_key(reassembly_key(h))
    &&& has_fragment_at(state[reassembly_key(h)].fragments, h.fragment_offset as nat * 8)
}

/// The datagram's buffer once `h` has arrived, before its fragment is stored: the first
/// fragment of a new datagram opens one at `now`; the fragment at offset 0 supplies the
/// header of the reassembled datagram.
pub open spec fn opened_buffer(state: Map<u128, BufferView>, h: Ipv4Header, now: u64) -> BufferView {
    let key = reassembly_key(h);
    if state.contains_key(key) {
        if h.fragment_offset == 0 {
            BufferView { header: h, ..state[key] }
        } else {
            state[key]
        }
    } else {
        BufferView { start: now, header: h, fragments: Seq::empty(), total: None }
    }
}

/// The buffer with the new fragment stored (as `fragments`) and, for the last fragment
/// (MF clear), the datagram length set to the fragment's end.
pub open spec fn grown_buffer(
    base: BufferView,
    h: Ipv4Header,
    payload: Seq<u8>,
    fragments: Seq<FragmentView>,
) -> BufferView {
    BufferView {
        fragments,
        total: if h.mf {
            base.total
        } else {
            Some(h.fragment_offset as nat * 8 + payload.len())
        },
        ..base
    }
}

/// Storing this fragment would release a datagram whose 16-bit total length overflows.
pub open spec fn push_would_overflow(
    state: Map<u128, BufferView>,
    h: Ipv4Header,
    payload: Seq<u8>,
) -> bool {
    let base = opened_buffer(state, h, 0);
    &&& !is_unfragmented(h)
    &&& !is_duplicate(state, h)
    &&& !total_length_fits(grown_buffer(base, h, payload, base.fragments))
    &&& exists|nf: Seq<FragmentView>|
        stored_in_order(base.fragments, nf, fragment_of(h, payload)) && is_complete(
            grown_buffer(base, h, payload, nf),
        )
}

/// The buffer has waited at least the timeout at time `now`.
pub open spec fn is_expired(b: BufferView, now: u64) -> bool {
    now as int - b.start as int >= FRAGMENT_TIMEOUT_NANOS
}

/// A released datagram as header and payload bytes.
pub open spec fn packet_model(r: Option<ReassembledPacket>) -> Option<(Ipv4Header, Seq<u8>)> {
    match r {
        Some(p) => Some((p.header, p.payload@)),
        None => None,
    }
}

/// Storing a new fragment yields the fragment list `nf`; the datagram is released (and
/// its buffer dropped) if that completes it, otherwise the grown buffer is kept.
pub open spec fn store_outcome(
    state: Map<u128, BufferView>,
    h: Ipv4Header,
    payload: Seq<u8>,
    now: u64,
    nf: Seq<FragmentView>,
    released: Option<(Ipv4Header, Seq<u8>)>,
    after: Map<u128, BufferView>,
) -> bool {
    let base = opened_buffer(state, h, now);
    let nb = grown_buffer(base, h, payload, nf);
    &&& stored_in_order(base.fragments, nf, fragment_of(h, payload))
    &&& if is_complete(nb) {
        &&& released == Some((completed_header(nb.header, nb.total->0), assembled_payload(nf, nb.total->0)))
        &&& after == state.remove(reassembly_key(h))
    } else {
        &&& released is None
        &&& after == state.insert(reassembly_key(h), nb)
    }
}

/// What adding a fragment at time `now` does: an unfragmented packet is released at
/// once and the state is unchanged; a repeated offset releases nothing (a repeated
/// offset-0 fragment still replaces the stored header); otherwise the fragment is stored.
pub open spec fn push_spec(
    state: Map<u128, BufferView>,
    h: Ipv4Header,
    payload: Seq<u8>,
    now: u64,
    released: Option<(Ipv4Header, Seq<u8>)>,
    after: Map<u128, BufferView>,
) -> bool {
    if is_unfragmented(h) {
        &&& released == Some((h, payload))
        &&& after == state
    } else if is_duplicate(state, h) {
        &&& released is None
        &&& after == state.insert(reassembly_key(h), opened_buffer(state, h, now))
    } else {
        exists|nf: Seq<FragmentView>| #[trigger]
            store_outcome(state, h, payload, now, nf, released, after)
    }
}

/// A fragment that passes the overflow precondition cannot complete a datagram whose
/// total length overflows, whatever time the buffer was opened at.
proof fn lemma_no_overflow(
    state: Map<u128, BufferView>,
    h: Ipv4Header,
    payload: Seq<u8>,
    now: u64,
    nf: Seq<FragmentView>,
)
    requires
        !push_would_overflow(state, h, payload),
        !is_unfragmented(h),
        !is_duplicate(state, h),
        stored_in_order(opened_buffer(state, h, now).fragments, nf, fragment_of(h, payload)),
        is_complete(grown_buffer(opened_buffer(state, h, now), h, payload, nf)),
    ensures
        total_length_fits(grown_buffer(opened_buffer(state, h, now), h, payload, nf)),
{
    let b0 = opened_buffer(state, h, 0);
    let bn = opened_buffer(state, h, now);
    assert(b0.fragments == bn.fragments);
    assert(b0.header == bn.header);
    assert(b0.total == bn.total);
    assert(is_complete(grown_buffer(b0, h, payload, nf)));
    assert(stored_in_order(b0.fragments, nf, fragment_of(h, payload)));
}

/// `headers` lists the headers of exactly the buffers expired at `now`, one per buffer,
/// in the order of the distinct keys `ks`.
pub open spec fn lists_expired(
    state: Map<u128, BufferView>,
    now: u64,
    ks: Seq<u128>,
    headers: Seq<Ipv4Header>,
) -> bool {
    &&& ks.no_duplicates()
    &&& forall|k: u128| ks.contains(k) <==> state.contains_key(k) && is_expired(state[k], now)
    &&& headers == ks.map_values(|k: u128| state[k].header)
}

/// The buffers that have not expired at `now`.
pub open spec fn unexpired(state: Map<u128, BufferView>, now: u64) -> Map<u128, BufferView> {
    Map::new(|k: u128| state.contains_key(k) && !is_expired(state[k], now), |k: u128| state[k])
}

/// There is only one place that keeps offsets increasing.
proof fn lemma_stored_in_order_unique(
    before: Seq<FragmentView>,
    a: Seq<FragmentView>,
    b: Seq<FragmentView>,
    x: FragmentView,
)
    requires
        stored_in_order(before, a, x),
        stored_in_order(before, b, x),
    ensures
        a == b,
{
    let i = choose|i: int|
        0 <= i <= before.len() && a == before.insert(i, x) && (forall|j: int|
            0 <= j < i ==> before[j].offset < x.offset) && (forall|j: int|
            i <= j < before.len() ==> before[j].offset > x.offset);
    let k = choose|k: int|
        0 <= k <= before.len() && b == before.insert(k, x) && (forall|j: int|
            0 <= j < k ==> before[j].offset < x.offset) && (forall|j: int|
            k <= j < before.len() ==> before[j].offset > x.offset);
    if i < k {
        assert(before[i].offset > x.offset);
        assert(before[i].offset < x.offset);
    } else if k < i {
        assert(before[k].offset > x.offset);
        assert(before[k].offset < x.offset);
    }
}

/// The first `k` fragments of `payload`, as the reassembler stores them.
pub open spec fn built_views(
    payload: Seq<u8>,
    params: Ipv4BuildParams,
    ident: u16,
    k: nat,
) -> Seq<FragmentView> {
    Seq::new(
        k,
        |i: int|
            fragment_of(
                fragment_header(params, ident, payload.len(), i as nat),
                fragment_data(payload, i as nat),
            ),
    )
}

proof fn lemma_built_view(payload: Seq<u8>, params: Ipv4BuildParams, ident: u16, i: nat)
    requires
        payload.len() <= 65475,
        i < fragment_count(payload.len()),
    ensures
        fragment_of(
            fragment_header(params, ident, payload.len(), i),
            fragment_data(payload, i),
        ).offset == i * 1400,
        fragment_data(payload, i).len() == fragment_len(payload.len(), i),
        i + 1 < fragment_count(payload.len()) ==> fragment_len(payload.len(), i) == 1400,
        i + 1 == fragment_count(payload.len()) ==> i * 1400 + fragment_len(payload.len(), i)
            == payload.len(),
        fragment_len(payload.len(), i) > 0 || payload.len() == 0,
{
    let len = payload.len();
    let n = fragment_count(len);
    if len > 0 {
        assert(i * 1400 < len) by (nonlinear_arith)
            requires
                i < n,
                n == (len + 1399) / 1400,
        ;
        if i + 1 < n {
            assert((i + 1) * 1400 <= len) by (nonlinear_arith)
                requires
                    i + 1 < n,
                    n == (len + 1399) / 1400,
            ;
        } else {
            assert(len <= (i + 1) * 1400) by (nonlinear_arith)
                requires
                    i + 1 == n,
                    n == (len + 1399) / 1400,
            ;
        }
        assert(i < 47) by (nonlinear_arith)
            requires
                i * 1400 < len,
                len <= 65475,
        ;
    }
    assert(i * 1400 / 8 == i * 175) by (nonlinear_arith);
    assert(i * 175 < 0x1_0000) by (nonlinear_arith)
        requires
            i < 47 || len == 0,
            i < n,
            len == 0 ==> n == 1,
    ;
}

/// Laying down the first `k` built fragments paints the payload's first bytes.
proof fn lemma_painted_built(
    payload: Seq<u8>,
    params: Ipv4BuildParams,
    ident: u16,
    f: Seq<FragmentView>,
    k: nat,
    p: int,
)
    requires
        payload.len() <= 65475,
        f == built_views(payload, params, ident, fragment_count(payload.len())),
        k <= f.len(),
        0 <= p < payload.len(),
        p < k * 1400,
    ensures
        painted(f, k, p) == payload[p],
    decreases k,
{
    let i = (k - 1) as nat;
    lemma_built_view(payload, params, ident, i);
    if covers(f[i as int], p) {
        assert(f[i as int].data[p - f[i as int].offset] == payload[p]);
    } else {
        if i + 1 < fragment_count(payload.len()) {
        }
        lemma_painted_built(payload, params, ident, f, i, p);
    }
}

/// The datagram's buffer holds exactly the first `j` built fragments, with the first
/// fragment's header and no length yet.
pub open spec fn holds_built_prefix(
    state: Map<u128, BufferView>,
    payload: Seq<u8>,
    params: Ipv4BuildParams,
    ident: u16,
    j: nat,
) -> bool {
    let h0 = fragment_header(params, ident, payload.len(), 0);
    &&& state.contains_key(reassembly_key(h0))
    &&& state[reassembly_key(h0)].fragments == built_views(payload, params, ident, j)
    &&& state[reassembly_key(h0)].total is None
    &&& state[reassembly_key(h0)].header == h0
}

/// The successive pushes of the built fragments of `payload`.
pub open spec fn pushes_built_fragments(
    payload: Seq<u8>,
    params: Ipv4BuildParams,
    ident: u16,
    states: Seq<Map<u128, BufferView>>,
    times: Seq<u64>,
    released: Seq<Option<(Ipv4Header, Seq<u8>)>>,
) -> bool {
    let n = fragment_count(payload.len());
    &&& states.len() == n + 1
    &&& times.len() == n
    &&& released.len() == n
    &&& forall|j: int|
        0 <= j < n ==> #[trigger] push_spec(
            states[j],
            fragment_header(params, ident, payload.len(), j as nat),
            fragment_data(payload, j as nat),
            times[j],
            released[j],
            states[j + 1 as int],
        )
}

proof fn lemma_built_key(payload: Seq<u8>, params: Ipv4BuildParams, ident: u16, j: nat)
    ensures
        reassembly_key(fragment_header(params, ident, payload.len(), j)) == reassembly_key(
            fragment_header(params, ident, payload.len(), 0),
        ),
{
}

proof fn lemma_append_in_order(before: Seq<FragmentView>, x: FragmentView)
    requires
        forall|j: int| 0 <= j < before.len() ==> before[j].offset < x.offset,
    ensures
        stored_in_order(before, before.push(x), x),
{
    assert(before.push(x) =~= before.insert(before.len() as int, x));
}

/// One push of a non-final built fragment: nothing is released and the buffer grows by it.
#[verifier::spinoff_prover]
proof fn lemma_push_middle(
    payload: Seq<u8>,
    params: Ipv4BuildParams,
    ident: u16,
    states: Seq<Map<u128, BufferView>>,
    times: Seq<u64>,
    released: Seq<Option<(Ipv4Header, Seq<u8>)>>,
    j: nat,
)
    requires
        payload.len() <= 65475,
        pushes_built_fragments(payload, params, ident, states, times, released),
        j + 1 < fragment_count(payload.len()),
        j == 0 ==> !states[0].contains_key(
            reassembly_key(fragment_header(params, ident, payload.len(), 0)),
        ),
        j > 0 ==> holds_built_prefix(states[j as int], payload, params, ident, j),
    ensures
        holds_built_prefix(states[j + 1 as int], payload, params, ident, j + 1),
        released[j as int] is None,
        !push_would_overflow(
            states[j as int],
            fragment_header(params, ident, payload.len(), j),
            fragment_data(payload, j),
        ),
{
    let len = payload.len();
    let h = fragment_header(params, ident, len, j);
    let d = fragment_data(payload, j);
    let h0 = fragment_header(params, ident, len, 0);
    let key = reassembly_key(h0);
    let state = states[j as int];
    lemma_built_key(payload, params, ident, j);
    lemma_built_view(payload, params, ident, j);
    assert(push_spec(state, h, d, times[j as int], released[j as int], states[j + 1 as int]));
    let x = fragment_of(h, d);
    let prev = built_views(payload, params, ident, j);
    assert forall|i: int| 0 <= i < prev.len() implies prev[i].offset < x.offset by {
        lemma_built_view(payload, params, ident, i as nat);
    }
    assert(!is_unfragmented(h));
    if j > 0 {
        assert(!has_fragment_at(state[key].fragments, x.offset));
    }
    assert(!is_duplicate(state, h));
    let base = opened_buffer(state, h, times[j as int]);
    assert(base.fragments == prev) by {
        if j == 0 {
            assert(prev =~= Seq::<FragmentView>::empty());
        }
    }
    let nf = choose|nf: Seq<FragmentView>|
        #[trigger] store_outcome(state, h, d, times[j as int], nf, released[j as int], states[j + 1 as int]);
    lemma_append_in_order(prev, x);
    lemma_stored_in_order_unique(prev, nf, prev.push(x), x);
    assert(built_views(payload, params, ident, j + 1) =~= prev.push(x));
    let nb = grown_buffer(base, h, d, nf);
    assert(nb.total is None);
    assert(!is_complete(nb));
    assert(states[j + 1 as int] == state.insert(key, nb));
    let b0 = opened_buffer(state, h, 0);
    assert(total_length_fits(grown_buffer(b0, h, d, b0.fragments)));
}

#[verifier::spinoff_prover]
proof fn lemma_prefix_pushes(
    payload: Seq<u8>,
    params: Ipv4BuildParams,
    ident: u16,
    states: Seq<Map<u128, BufferView>>,
    times: Seq<u64>,
    released: Seq<Option<(Ipv4Header, Seq<u8>)>>,
    j: nat,
)
    requires
        payload.len() <= 65475,
        pushes_built_fragments(payload, params, ident, states, times, released),
        1 <= j < fragment_count(payload.len()),
        !states[0].contains_key(reassembly_key(fragment_header(params, ident, payload.len(), 0))),
    ensures
        holds_built_prefix(states[j as int], payload, params, ident, j),
        forall|i: int| 0 <= i < j ==> released[i] is None,
        forall|i: int|
            0 <= i < j ==> !push_would_overflow(
                states[i],
                fragment_header(params, ident, payload.len(), i as nat),
                fragment_data(payload, i as nat),
            ),
    decreases j,
{
    if j > 1 {
        lemma_prefix_pushes(payload, params, ident, states, times, released, (j - 1) as nat);
    }
    lemma_push_middle(payload, params, ident, states, times, released, (j - 1) as nat);
}

/// All built fragments, laid out in order, cover the payload without gaps and end at its length.
proof fn lemma_built_complete(payload: Seq<u8>, params: Ipv4BuildParams, ident: u16)
    requires
        payload.len() <= 65475,
        payload.len() > 0,
    ensures
        ({
            let all = built_views(payload, params, ident, fragment_count(payload.len()));
            &&& gap_free(all)
            &&& ends_exactly_at(all, payload.len())
            &&& assembled_payload(all, payload.len()) == payload
        }),
{
    let len = payload.len();
    let n = fragment_count(len);
    let last = (n - 1) as nat;
    let all = built_views(payload, params, ident, n);
    lemma_built_view(payload, params, ident, last);
    assert forall|i: int| 0 <= i < all.len() implies frag_end(all[i]) <= len && (all[i].offset
        == 0 || exists|k: int| 0 <= k < i && frag_end(all[k]) >= all[i].offset) by {
        lemma_built_view(payload, params, ident, i as nat);
        if i > 0 {
            lemma_built_view(payload, params, ident, (i - 1) as nat);
            assert(frag_end(all[i - 1]) >= all[i].offset);
        }
    }
    assert(frag_end(all[last as int]) == len);
    assert forall|p: int| 0 <= p < len implies assembled_payload(all, len)[p] == payload[p] by {
        assert(p < n * 1400) by (nonlinear_arith)
            requires
                p < len,
                len == last * 1400 + fragment_len(len, last),
                fragment_len(len, last) <= 1400,
                n == last + 1,
        ;
        lemma_painted_built(payload, params, ident, all, n, p);
    }
    assert(assembled_payload(all, len) =~= payload);
}

/// The built fragments before the last, in order, then the last one: the offsets grow.
proof fn lemma_last_after_prefix(payload: Seq<u8>, params: Ipv4BuildParams, ident: u16)
    requires
        payload.len() <= 65475,
        fragment_count(payload.len()) >= 2,
    ensures
        ({
            let len = payload.len();
            let last = (fragment_count(len) - 1) as nat;
            let x = fragment_of(fragment_header(params, ident, len, last), fragment_data(payload, last));
            let prev = built_views(payload, params, ident, last);
            &&& forall|i: int| 0 <= i < prev.len() ==> prev[i].offset < x.offset
            &&& built_views(payload, params, ident, fragment_count(len)) == prev.push(x)
            &&& !has_fragment_at(prev, x.offset)
        }),
{
    let len = payload.len();
    let n = fragment_count(len);
    let last = (n - 1) as nat;
    let x = fragment_of(fragment_header(params, ident, len, last), fragment_data(payload, last));
    let prev = built_views(payload, params, ident, last);
    lemma_built_view(payload, params, ident, last);
    assert forall|i: int| 0 <= i < prev.len() implies prev[i].offset < x.offset by {
        lemma_built_view(payload, params, ident, i as nat);
    }
    assert(built_views(payload, params, ident, n) =~= prev.push(x));
}

/// Before the last built fragment is stored, its datagram's buffer is the one holding
/// the others: the fragment is new and the buffer keeps the first fragment's header.
proof fn lemma_last_base(
    payload: Seq<u8>,
    params: Ipv4BuildParams,
    ident: u16,
    state: Map<u128, BufferView>,
    t: u64,
)
    requires
        payload.len() <= 65475,
        fragment_count(payload.len()) >= 2,
        holds_built_prefix(state, payload, params, ident, (fragment_count(payload.len()) - 1) as nat),
    ensures
        ({
            let len = payload.len();
            let last = (fragment_count(len) - 1) as nat;
            let h = fragment_header(params, ident, len, last);
            &&& !is_unfragmented(h)
            &&& !h.mf
            &&& !is_duplicate(state, h)
            &&& opened_buffer(state, h, t).header == fragment_header(params, ident, len, 0)
            &&& opened_buffer(state, h, t).fragments == built_views(payload, params, ident, last)
            &&& opened_buffer(state, h, t).total is None
        }),
{
    let len = payload.len();
    let last = (fragment_count(len) - 1) as nat;
    lemma_built_view(payload, params, ident, last);
    lemma_built_key(payload, params, ident, last);
    lemma_last_after_prefix(payload, params, ident);
}

/// Storing the last built fragment sets the datagram length to the payload length, which
/// fits in a 16-bit total length.
proof fn lemma_last_total(
    payload: Seq<u8>,
    params: Ipv4BuildParams,
    ident: u16,
    base: BufferView,
    fragments: Seq<FragmentView>,
)
    requires
        payload.len() <= 65475,
        fragment_count(payload.len()) >= 2,
        base.header == fragment_header(params, ident, payload.len(), 0),
    ensures
        ({
            let len = payload.len();
            let last = (fragment_count(len) - 1) as nat;
            let nb = grown_buffer(
                base,
                fragment_header(params, ident, len, last),
                fragment_data(payload, last),
                fragments,
            );
            &&& nb.header == base.header
            &&& nb.fragments == fragments
            &&& nb.total == Some(len)
            &&& total_length_fits(nb)
        }),
{
    let len = payload.len();
    let last = (fragment_count(len) - 1) as nat;
    lemma_built_view(payload, params, ident, last);
    assert(base.header.ihl == 15);
}

/// All built fragments together make a complete buffer holding the payload.
proof fn lemma_all_complete(payload: Seq<u8>, params: Ipv4BuildParams, ident: u16, nb: BufferView)
    requires
        payload.len() <= 65475,
        payload.len() > 0,
        nb.total == Some(payload.len()),
        nb.fragments == built_views(payload, params, ident, fragment_count(payload.len())),
    ensures
        is_complete(nb),
        assembled_payload(nb.fragments, payload.len()) == payload,
{
    lemma_built_complete(payload, params, ident);
}

/// Storing the last built fragment into a buffer that holds all the others completes the
/// datagram with the whole payload, and cannot overflow.
#[verifier::spinoff_prover]
proof fn lemma_last_push_releases(
    payload: Seq<u8>,
    params: Ipv4BuildParams,
    ident: u16,
    state: Map<u128, BufferView>,
    t: u64,
    rel: Option<(Ipv4Header, Seq<u8>)>,
    after: Map<u128, BufferView>,
)
    requires
        payload.len() <= 65475,
        fragment_count(payload.len()) >= 2,
        holds_built_prefix(state, payload, params, ident, (fragment_count(payload.len()) - 1) as nat),
        push_spec(
            state,
            fragment_header(params, ident, payload.len(), (fragment_count(payload.len()) - 1) as nat),
            fragment_data(payload, (fragment_count(payload.len()) - 1) as nat),
            t,
            rel,
            after,
        ),
    ensures
        rel == Some(
            (completed_header(fragment_header(params, ident, payload.len(), 0), payload.len()), payload),
        ),
        !push_would_overflow(
            state,
            fragment_header(params, ident, payload.len(), (fragment_count(payload.len()) - 1) as nat),
            fragment_data(payload, (fragment_count(payload.len()) - 1) as nat),
        ),
{
    let len = payload.len();
    let n = fragment_count(len);
    let last = (n - 1) as nat;
    let h = fragment_header(params, ident, len, last);
    let d = fragment_data(payload, last);
    let x = fragment_of(h, d);
    let prev = built_views(payload, params, ident, last);
    let all = built_views(payload, params, ident, n);
    lemma_last_base(payload, params, ident, state, t);
    lemma_last_base(payload, params, ident, state, 0);
    lemma_last_after_prefix(payload, params, ident);
    let base = opened_buffer(state, h, t);
    let b0 = opened_buffer(state, h, 0);
    let nf = choose|nf: Seq<FragmentView>| #[trigger] store_outcome(state, h, d, t, nf, rel, after);
    assert(stored_in_order(prev, nf, x));
    lemma_append_in_order(prev, x);
    lemma_stored_in_order_unique(prev, nf, prev.push(x), x);
    assert(nf == all);
    lemma_last_total(payload, params, ident, base, nf);
    lemma_last_total(payload, params, ident, b0, b0.fragments);
    lemma_all_complete(payload, params, ident, grown_buffer(base, h, d, nf));
}

/// The push of the final built fragment (when there are several) releases the payload.
#[verifier::spinoff_prover]
proof fn lemma_push_last(
    payload: Seq<u8>,
    params: Ipv4BuildParams,
    ident: u16,
    states: Seq<Map<u128, BufferView>>,
    times: Seq<u64>,
    released: Seq<Option<(Ipv4Header, Seq<u8>)>>,
)
    requires
        payload.len() <= 65475,
        pushes_built_fragments(payload, params, ident, states, times, released),
        fragment_count(payload.len()) >= 2,
        holds_built_prefix(
            states[fragment_count(payload.len()) - 1],
            payload,
            params,
            ident,
            (fragment_count(payload.len()) - 1) as nat,
        ),
    ensures
        ({
            let n = fragment_count(payload.len());
            &&& released[n - 1] == Some(
                (completed_header(fragment_header(params, ident, payload.len(), 0), payload.len()), payload),
            )
            &&& !push_would_overflow(
                states[n - 1],
                fragment_header(params, ident, payload.len(), (n - 1) as nat),
                fragment_data(payload, (n - 1) as nat),
            )
        }),
{
    let len = payload.len();
    let n = fragment_count(len);
    let last = (n - 1) as nat;
    assert(push_spec(
        states[last as int],
        fragment_header(params, ident, len, last),
        fragment_data(payload, last),
        times[last as int],
        released[last as int],
        states[last + 1 as int],
    ));
    lemma_last_push_releases(
        payload,
        params,
        ident,
        states[last as int],
        times[last as int],
        released[last as int],
        states[last + 1 as int],
    );
}

/// Law (fragment, then reassemble): pushing the fragments that `build_ipv4_packets` made
/// from a payload of at most 65475 bytes, in order, into a reassembler with no buffer for
/// that datagram releases nothing until the last push, which releases exactly the
/// payload (with the first fragment's header, or the completed header when there was
/// more than one fragment); and no push meets the overflow condition.
#[verifier::spinoff_prover]
pub proof fn law_reassembles_built_fragments(
    payload: Seq<u8>,
    params: Ipv4BuildParams,
    ident: u16,
    states: Seq<Map<u128, BufferView>>,
    times: Seq<u64>,
    released: Seq<Option<(Ipv4Header, Seq<u8>)>>,
)
    requires
        payload.len() <= 65475,
        pushes_built_fragments(payload, params, ident, states, times, released),
        !states[0].contains_key(reassembly_key(fragment_header(params, ident, payload.len(), 0))),
    ensures
        ({
            let n = fragment_count(payload.len());
            let h0 = fragment_header(params, ident, payload.len(), 0);
            &&& forall|i: int| 0 <= i < n - 1 ==> released[i] is None
            &&& released[n - 1] == Some(
                (
                    if n == 1 {
                        h0
                    } else {
                        completed_header(h0, payload.len())
                    },
                    payload,
                ),
            )
            &&& forall|i: int|
                0 <= i < n ==> !push_would_overflow(
                    states[i],
                    fragment_header(params, ident, payload.len(), i as nat),
                    fragment_data(payload, i as nat),
                )
        }),
{
    let len = payload.len();
    let n = fragment_count(len);
    if n == 1 {
        let h = fragment_header(params, ident, len, 0);
        let d = fragment_data(payload, 0);
        lemma_built_view(payload, params, ident, 0);
        assert(push_spec(states[0], h, d, times[0], released[0], states[1]));
        assert(is_unfragmented(h));
        assert(d =~= payload);
    } else {
        let last = (n - 1) as nat;
        lemma_prefix_pushes(payload, params, ident, states, times, released, last);
        lemma_push_last(payload, params, ident, states, times, released);
    }
}

/// The indices below `k` that lie in `s`, in increasing order.
pub open spec fn chosen_indices(s: Set<int>, k: nat) -> Seq<int>
    decreases k,
{
    if k == 0 {
        Seq::empty()
    } else if s.contains(k - 1) {
        chosen_indices(s, (k - 1) as nat).push(k - 1)
    } else {
        chosen_indices(s, (k - 1) as nat)
    }
}

proof fn lemma_chosen_indices(s: Set<int>, k: nat)
    ensures
        forall|j: int|
            0 <= j < chosen_indices(s, k).len() ==> 0 <= #[trigger] chosen_indices(s, k)[j] < k
                && s.contains(chosen_indices(s, k)[j]),
        forall|a: int, b: int|
            0 <= a < b < chosen_indices(s, k).len() ==> chosen_indices(s, k)[a] < chosen_indices(
                s,
                k,
            )[b],
        forall|i: int| 0 <= i < k && s.contains(i) ==> chosen_indices(s, k).contains(i),
        forall|x: nat| x <= k ==> chosen_indices(s, x).len() <= chosen_indices(s, k).len(),
    decreases k,
{
    if k > 0 {
        lemma_chosen_indices(s, (k - 1) as nat);
        let prev = chosen_indices(s, (k - 1) as nat);
        let cur = chosen_indices(s, k);
        if s.contains(k - 1) {
            assert(cur == prev.push(k - 1));
            assert forall|i: int| 0 <= i < k && s.contains(i) implies cur.contains(i) by {
                if i < k - 1 {
                    let j = choose|j: int| 0 <= j < prev.len() && prev[j] == i;
                    assert(cur[j] == i);
                } else {
                    assert(cur[prev.len() as int] == i);
                }
            }
        }
    }
}

proof fn lemma_chosen_all(s: Set<int>, k: nat)
    requires
        forall|i: int| 0 <= i < k ==> s.contains(i),
    ensures
        chosen_indices(s, k) == Seq::new(k, |i: int| i),
    decreases k,
{
    if k > 0 {
        lemma_chosen_all(s, (k - 1) as nat);
        assert(chosen_indices(s, k) =~= Seq::new(k, |i: int| i));
    }
}

proof fn lemma_chosen_empty(k: nat)
    ensures
        chosen_indices(Set::<int>::empty(), k) == Seq::<int>::empty(),
    decreases k,
{
    if k > 0 {
        lemma_chosen_empty((k - 1) as nat);
    }
}

/// Adding an index `x` to the chosen set inserts it where it keeps the indices increasing.
proof fn lemma_chosen_insert(s: Set<int>, x: int, k: nat)
    requires
        !s.contains(x),
        0 <= x,
    ensures
        k <= x ==> chosen_indices(s.insert(x), k) == chosen_indices(s, k),
        k > x ==> chosen_indices(s.insert(x), k) == chosen_indices(s, k).insert(
            chosen_indices(s, x as nat).len() as int,
            x,
        ),
    decreases k,
{
    if k > 0 {
        lemma_chosen_insert(s, x, (k - 1) as nat);
        lemma_chosen_indices(s, (k - 1) as nat);
        let a = chosen_indices(s, (k - 1) as nat);
        let p = chosen_indices(s, x as nat).len() as int;
        if k - 1 > x {
            assert(p <= a.len());
            if s.contains(k - 1) {
                assert(a.insert(p, x).push(k - 1) =~= a.push(k - 1).insert(p, x));
            }
        } else if k - 1 == x {
            assert(a.insert(p, x) =~= a.push(x));
        }
    }
}

/// The built fragment with index `i`, as the reassembler stores it.
pub open spec fn built_view(payload: Seq<u8>, params: Ipv4BuildParams, ident: u16, i: int) -> FragmentView {
    fragment_of(
        fragment_header(params, ident, payload.len(), i as nat),
        fragment_data(payload, i as nat),
    )
}

/// The built fragments whose indices lie in `s`, in increasing offset order.
pub open spec fn chosen_views(payload: Seq<u8>, params: Ipv4BuildParams, ident: u16, s: Set<int>) -> Seq<
    FragmentView,
> {
    let idx = chosen_indices(s, fragment_count(payload.len()));
    Seq::new(idx.len(), |j: int| built_view(payload, params, ident, idx[j]))
}

/// Each built fragment's offset is its index times 1400.
proof fn lemma_view_offsets(payload: Seq<u8>, params: Ipv4BuildParams, ident: u16)
    requires
        payload.len() <= 65475,
    ensures
        forall|i: int|
            0 <= i < fragment_count(payload.len()) ==> (#[trigger] built_view(
                payload,
                params,
                ident,
                i,
            )).offset == i * 1400,
{
    assert forall|i: int| 0 <= i < fragment_count(payload.len()) implies (#[trigger] built_view(
        payload,
        params,
        ident,
        i,
    )).offset == i * 1400 by {
        lemma_built_view(payload, params, ident, i as nat);
    }
}

/// Storing built fragment `x` into the chosen fragments of `s` gives those of `s` with `x`;
/// its offset was not stored before.
proof fn lemma_views_insert(payload: Seq<u8>, params: Ipv4BuildParams, ident: u16, s: Set<int>, x: int)
    requires
        payload.len() <= 65475,
        forall|i: int| s.contains(i) ==> 0 <= i < fragment_count(payload.len()),
        0 <= x < fragment_count(payload.len()),
        !s.contains(x),
    ensures
        stored_in_order(
            chosen_views(payload, params, ident, s),
            chosen_views(payload, params, ident, s.insert(x)),
            built_view(payload, params, ident, x),
        ),
        !has_fragment_at(chosen_views(payload, params, ident, s), (x * 1400) as nat),
{
    let n = fragment_count(payload.len());
    let idx = chosen_indices(s, n);
    let idx2 = chosen_indices(s.insert(x), n);
    let p = chosen_indices(s, x as nat).len() as int;
    lemma_chosen_insert(s, x, n);
    lemma_chosen_indices(s, n);
    lemma_chosen_indices(s.insert(x), n);
    lemma_chosen_indices(s, x as nat);
    lemma_view_offsets(payload, params, ident);
    assert(idx2 == idx.insert(p, x));
    let v = chosen_views(payload, params, ident, s);
    let v2 = chosen_views(payload, params, ident, s.insert(x));
    let vx = built_view(payload, params, ident, x);
    assert(v2 =~= v.insert(p, vx));
    assert forall|j: int| 0 <= j < p implies v[j].offset < vx.offset by {
        assert(idx[j] == idx2[j]);
        assert(idx2[j] < idx2[p]);
    }
    assert forall|j: int| p <= j < v.len() implies v[j].offset > vx.offset by {
        assert(idx[j] == idx2[j + 1]);
        assert(idx2[p] < idx2[j + 1]);
    }
    if has_fragment_at(v, (x * 1400) as nat) {
        let j = choose|j: int| 0 <= j < v.len() && v[j].offset == (x * 1400) as nat;
        assert(idx[j] == x);
    }
}

/// In an increasing sequence without `i` that has an element above `i`, some element is
/// above `i` while the one before it (if any) is below `i`.
proof fn lemma_first_above(idx: Seq<int>, i: int, hi: int) -> (q: int)
    requires
        0 <= hi < idx.len(),
        idx[hi] > i,
        forall|a: int, b: int| 0 <= a < b < idx.len() ==> idx[a] < idx[b],
        !idx.contains(i),
    ensures
        0 <= q <= hi,
        idx[q] > i,
        q == 0 || idx[q - 1] < i,
    decreases hi,
{
    if hi == 0 {
        0
    } else if idx[hi - 1] < i {
        hi
    } else {
        assert(idx[hi - 1] != i);
        lemma_first_above(idx, i, hi - 1)
    }
}

/// When a fragment other than the last is missing, the stored ones leave a gap.
proof fn lemma_views_gap(payload: Seq<u8>, params: Ipv4BuildParams, ident: u16, s: Set<int>, m: int)
    requires
        payload.len() <= 65475,
        forall|i: int| s.contains(i) ==> 0 <= i < fragment_count(payload.len()),
        0 <= m < fragment_count(payload.len()) - 1,
        !s.contains(m),
        s.contains(fragment_count(payload.len()) - 1),
    ensures
        !gap_free(chosen_views(payload, params, ident, s)),
{
    let n = fragment_count(payload.len());
    let idx = chosen_indices(s, n);
    let v = chosen_views(payload, params, ident, s);
    lemma_chosen_indices(s, n);
    lemma_view_offsets(payload, params, ident);
    assert(idx.contains(n - 1));
    let hi = choose|hi: int| 0 <= hi < idx.len() && idx[hi] == n - 1;
    assert(!idx.contains(m));
    let q = lemma_first_above(idx, m, hi);
    assert(v[q].offset == idx[q] * 1400);
    assert(v[q].offset != 0);
    assert forall|j: int| 0 <= j < q implies frag_end(v[j]) < v[q].offset by {
        if j < q - 1 {
            assert(idx[j] < idx[q - 1]);
        }
        assert(idx[j] < m);
        lemma_built_view(payload, params, ident, idx[j] as nat);
        assert(frag_end(v[j]) == idx[j] * 1400 + 1400);
    }
}

/// The datagram's buffer holds the built fragments whose indices lie in `s`. Its length is
/// known once the last fragment is in; its header is the first fragment's once fragment 0
/// is in, and before that the header of fragment `first`, the one that opened the buffer.
pub open spec fn holds_chosen(
    state: Map<u128, BufferView>,
    payload: Seq<u8>,
    params: Ipv4BuildParams,
    ident: u16,
    s: Set<int>,
    first: int,
) -> bool {
    let n = fragment_count(payload.len());
    let h0 = fragment_header(params, ident, payload.len(), 0);
    let key = reassembly_key(h0);
    &&& state.contains_key(key)
    &&& state[key].fragments == chosen_views(payload, params, ident, s)
    &&& state[key].total == if s.contains(n - 1) {
        Some(payload.len())
    } else {
        None::<nat>
    }
    &&& state[key].header == if s.contains(0) {
        h0
    } else {
        fragment_header(params, ident, payload.len(), first as nat)
    }
}

/// Before built fragment `x` (of several) is stored into a buffer holding the fragments
/// in `s` (or into no buffer, when `fresh`): it is a new fragment of that datagram, the
/// buffer it opens or finds holds `s`, and storing it cannot overflow.
#[verifier::spinoff_prover]
proof fn lemma_push_chosen_base(
    payload: Seq<u8>,
    params: Ipv4BuildParams,
    ident: u16,
    state: Map<u128, BufferView>,
    s: Set<int>,
    fresh: bool,
    first: int,
    x: int,
    t: u64,
)
    requires
        payload.len() <= 65475,
        fragment_count(payload.len()) >= 2,
        forall|i: int| s.contains(i) ==> 0 <= i < fragment_count(payload.len()),
        0 <= x < fragment_count(payload.len()),
        !s.contains(x),
        0 <= first < fragment_count(payload.len()),
        fresh ==> s == Set::<int>::empty() && first == x && !state.contains_key(
            reassembly_key(fragment_header(params, ident, payload.len(), 0)),
        ),
        !fresh ==> holds_chosen(state, payload, params, ident, s, first),
    ensures
        ({
            let len = payload.len();
            let n = fragment_count(len);
            let h0 = fragment_header(params, ident, len, 0);
            let h = fragment_header(params, ident, len, x as nat);
            let d = fragment_data(payload, x as nat);
            let s2 = s.insert(x);
            let nb = grown_buffer(
                opened_buffer(state, h, t),
                h,
                d,
                chosen_views(payload, params, ident, s2),
            );
            &&& reassembly_key(h) == reassembly_key(h0)
            &&& !is_unfragmented(h)
            &&& !is_duplicate(state, h)
            &&& !push_would_overflow(state, h, d)
            &&& fragment_of(h, d) == built_view(payload, params, ident, x)
            &&& stored_in_order(
                opened_buffer(state, h, t).fragments,
                chosen_views(payload, params, ident, s2),
                fragment_of(h, d),
            )
            &&& nb.total == if s2.contains(n - 1) {
                Some(len)
            } else {
                None::<nat>
            }
            &&& nb.header == if s2.contains(0) {
                h0
            } else {
                fragment_header(params, ident, len, first as nat)
            }
        }),
{
    let len = payload.len();
    let n = fragment_count(len);
    let h0 = fragment_header(params, ident, len, 0);
    let h = fragment_header(params, ident, len, x as nat);
    let d = fragment_data(payload, x as nat);
    lemma_built_key(payload, params, ident, x as nat);
    lemma_built_view(payload, params, ident, x as nat);
    lemma_built_view(payload, params, ident, (n - 1) as nat);
    lemma_views_insert(payload, params, ident, s, x);
    assert(h.fragment_offset as nat * 8 == x * 1400);
    if fresh {
        lemma_chosen_empty(n);
        assert(chosen_views(payload, params, ident, s) =~= Seq::<FragmentView>::empty());
    }
    let b0 = opened_buffer(state, h, 0);
    assert(b0.header.ihl == 15);
    assert(total_length_fits(grown_buffer(b0, h, d, b0.fragments)));
}

/// One push of built fragment `x` (of several) into a buffer holding the fragments in `s`
/// (or into no buffer, when `fresh`): it releases the payload if that completes the
/// datagram and drops the buffer; otherwise it releases nothing and the buffer holds `s`
/// with `x`. No push meets the overflow condition.
#[verifier::spinoff_prover]
proof fn lemma_push_chosen(
    payload: Seq<u8>,
    params: Ipv4BuildParams,
    ident: u16,
    state: Map<u128, BufferView>,
    s: Set<int>,
    fresh: bool,
    first: int,
    x: int,
    t: u64,
    rel: Option<(Ipv4Header, Seq<u8>)>,
    after: Map<u128, BufferView>,
)
    requires
        payload.len() <= 65475,
        fragment_count(payload.len()) >= 2,
        forall|i: int| s.contains(i) ==> 0 <= i < fragment_count(payload.len()),
        0 <= x < fragment_count(payload.len()),
        !s.contains(x),
        0 <= first < fragment_count(payload.len()),
        fresh ==> s == Set::<int>::empty() && first == x && !state.contains_key(
            reassembly_key(fragment_header(params, ident, payload.len(), 0)),
        ),
        !fresh ==> holds_chosen(state, payload, params, ident, s, first),
        push_spec(
            state,
            fragment_header(params, ident, payload.len(), x as nat),
            fragment_data(payload, x as nat),
            t,
            rel,
            after,
        ),
    ensures
        !push_would_overflow(
            state,
            fragment_header(params, ident, payload.len(), x as nat),
            fragment_data(payload, x as nat),
        ),
        (forall|i: int| 0 <= i < fragment_count(payload.len()) ==> s.insert(x).contains(i)) ==> {
            &&& rel == Some(
                (completed_header(fragment_header(params, ident, payload.len(), 0), payload.len()), payload),
            )
            &&& after == state.remove(reassembly_key(fragment_header(params, ident, payload.len(), 0)))
        },
        !(forall|i: int| 0 <= i < fragment_count(payload.len()) ==> s.insert(x).contains(i)) ==> {
            &&& rel is None
            &&& holds_chosen(after, payload, params, ident, s.insert(x), first)
            &&& after == state.insert(
                reassembly_key(fragment_header(params, ident, payload.len(), 0)),
                after[reassembly_key(fragment_header(params, ident, payload.len(), 0))],
            )
        },
{
    let len = payload.len();
    let n = fragment_count(len);
    let h0 = fragment_header(params, ident, len, 0);
    let key = reassembly_key(h0);
    let h = fragment_header(params, ident, len, x as nat);
    let d = fragment_data(payload, x as nat);
    let s2 = s.insert(x);
    let v2 = chosen_views(payload, params, ident, s2);
    lemma_push_chosen_base(payload, params, ident, state, s, fresh, first, x, t);
    let base = opened_buffer(state, h, t);
    let nf = choose|nf: Seq<FragmentView>| #[trigger] store_outcome(state, h, d, t, nf, rel, after);
    lemma_stored_in_order_unique(base.fragments, nf, v2, fragment_of(h, d));
    let nb = grown_buffer(base, h, d, nf);
    if forall|i: int| 0 <= i < n ==> s2.contains(i) {
        lemma_chosen_all(s2, n);
        assert(nf =~= built_views(payload, params, ident, n));
        lemma_built_view(payload, params, ident, (n - 1) as nat);
        lemma_all_complete(payload, params, ident, nb);
    } else {
        let m = choose|m: int| 0 <= m < n && !s2.contains(m);
        if s2.contains(n - 1) {
            lemma_views_gap(payload, params, ident, s2, m);
        }
        assert(!is_complete(nb));
        assert(after[key] == nb);
    }
}

/// `perm` lists each index below `n` exactly once.
pub open spec fn is_permutation(perm: Seq<int>, n: nat) -> bool {
    &&& perm.len() == n
    &&& perm.no_duplicates()
    &&& forall|k: int| 0 <= k < n ==> 0 <= #[trigger] perm[k] < n
    &&& forall|i: int| 0 <= i < n ==> perm.contains(i)
}

/// The indices among the first `j` entries of `perm`.
pub open spec fn pushed_set(perm: Seq<int>, j: int) -> Set<int> {
    Set::new(|i: int| exists|k: int| 0 <= k < j && perm[k] == i)
}

/// The successive pushes of the built fragments of `payload`, fragment `perm[j]` at step `j`.
pub open spec fn pushes_built_fragments_in(
    payload: Seq<u8>,
    params: Ipv4BuildParams,
    ident: u16,
    perm: Seq<int>,
    states: Seq<Map<u128, BufferView>>,
    times: Seq<u64>,
    released: Seq<Option<(Ipv4Header, Seq<u8>)>>,
) -> bool {
    let n = fragment_count(payload.len());
    &&& states.len() == n + 1
    &&& times.len() == n
    &&& released.len() == n
    &&& forall|j: int|
        0 <= j < n ==> #[trigger] push_spec(
            states[j],
            fragment_header(params, ident, payload.len(), perm[j] as nat),
            fragment_data(payload, perm[j] as nat),
            times[j],
            released[j],
            states[j + 1 as int],
        )
}

proof fn lemma_pushed_set_step(perm: Seq<int>, n: nat, j: int)
    requires
        is_permutation(perm, n),
        0 <= j < n,
    ensures
        pushed_set(perm, j).insert(perm[j]) == pushed_set(perm, j + 1),
        !pushed_set(perm, j).contains(perm[j]),
        forall|i: int| pushed_set(perm, j).contains(i) ==> 0 <= i < n,
        j == 0 ==> pushed_set(perm, j) == Set::<int>::empty(),
        j + 1 < n ==> !pushed_set(perm, j + 1).contains(perm[j + 1]),
        j + 1 == n ==> forall|i: int| 0 <= i < n ==> #[trigger] pushed_set(perm, j + 1).contains(i),
{
    let a = pushed_set(perm, j);
    let b = pushed_set(perm, j + 1);
    assert forall|i: int| a.insert(perm[j]).contains(i) <==> b.contains(i) by {
        if b.contains(i) {
            let k = choose|k: int| 0 <= k < j + 1 && perm[k] == i;
            if k < j {
                assert(a.contains(i));
            }
        }
        if a.contains(i) {
            let k = choose|k: int| 0 <= k < j && perm[k] == i;
            assert(b.contains(i));
        }
    }
    assert(a.insert(perm[j]) =~= b);
    if a.contains(perm[j]) {
        let k = choose|k: int| 0 <= k < j && #[trigger] perm[k] == perm[j];
        assert(perm[k] != perm[j]);
    }
    assert forall|i: int| a.contains(i) implies 0 <= i < n by {
        let k = choose|k: int| 0 <= k < j && perm[k] == i;
    }
    if j == 0 {
        assert(a =~= Set::<int>::empty());
    }
    if j + 1 < n {
        if b.contains(perm[j + 1]) {
            let k = choose|k: int| 0 <= k < j + 1 && #[trigger] perm[k] == perm[j + 1];
            assert(perm[k] != perm[j + 1]);
        }
    }
    if j + 1 == n {
        assert forall|i: int| 0 <= i < n implies b.contains(i) by {
            assert(perm.contains(i));
            let k = choose|k: int| 0 <= k < perm.len() && perm[k] == i;
        }
    }
}

/// After the first `j` pushes (not yet all of them), the buffer holds exactly the pushed
/// fragments, nothing else changed, nothing was released and no push could overflow.
#[verifier::spinoff_prover]
proof fn lemma_pushes_in_prefix(
    payload: Seq<u8>,
    params: Ipv4BuildParams,
    ident: u16,
    perm: Seq<int>,
    states: Seq<Map<u128, BufferView>>,
    times: Seq<u64>,
    released: Seq<Option<(Ipv4Header, Seq<u8>)>>,
    j: int,
)
    requires
        payload.len() <= 65475,
        fragment_count(payload.len()) >= 2,
        is_permutation(perm, fragment_count(payload.len())),
        pushes_built_fragments_in(payload, params, ident, perm, states, times, released),
        !states[0].contains_key(reassembly_key(fragment_header(params, ident, payload.len(), 0))),
        1 <= j < fragment_count(payload.len()),
    ensures
        holds_chosen(states[j], payload, params, ident, pushed_set(perm, j), perm[0]),
        states[j] == states[0].insert(
            reassembly_key(fragment_header(params, ident, payload.len(), 0)),
            states[j][reassembly_key(fragment_header(params, ident, payload.len(), 0))],
        ),
        forall|i: int| 0 <= i < j ==> released[i] is None,
        forall|i: int|
            0 <= i < j ==> !push_would_overflow(
                states[i],
                fragment_header(params, ident, payload.len(), perm[i] as nat),
                fragment_data(payload, perm[i] as nat),
            ),
    decreases j,
{
    let n = fragment_count(payload.len());
    let key = reassembly_key(fragment_header(params, ident, payload.len(), 0));
    let k = j - 1;
    if k > 0 {
        lemma_pushes_in_prefix(payload, params, ident, perm, states, times, released, k);
    }
    lemma_pushed_set_step(perm, n, k);
    assert(push_spec(
        states[k],
        fragment_header(params, ident, payload.len(), perm[k] as nat),
        fragment_data(payload, perm[k] as nat),
        times[k],
        released[k],
        states[k + 1],
    ));
    lemma_push_chosen(
        payload,
        params,
        ident,
        states[k],
        pushed_set(perm, k),
        k == 0,
        perm[0],
        perm[k],
        times[k],
        released[k],
        states[k + 1],
    );
    assert(!pushed_set(perm, j).contains(perm[j]));
    if k > 0 {
        assert(states[j] =~= states[0].insert(key, states[j][key]));
    }
}

/// Law (fragment, then reassemble in any order): pushing the fragments that
/// `build_ipv4_packets` made from a payload of at most 65475 bytes, one by one in any
/// order, into a reassembler with no buffer for that datagram releases nothing until the
/// last push, which releases exactly the payload (with the first fragment's header, or
/// the completed header when there was more than one fragment); the reassembler is then
/// as it was before the first push, and no push meets the overflow condition.
#[verifier::spinoff_prover]
pub proof fn law_reassembles_in_any_order(
    payload: Seq<u8>,
    params: Ipv4BuildParams,
    ident: u16,
    perm: Seq<int>,
    states: Seq<Map<u128, BufferView>>,
    times: Seq<u64>,
    released: Seq<Option<(Ipv4Header, Seq<u8>)>>,
)
    requires
        payload.len() <= 65475,
        is_permutation(perm, fragment_count(payload.len())),
        pushes_built_fragments_in(payload, params, ident, perm, states, times, released),
        !states[0].contains_key(reassembly_key(fragment_header(params, ident, payload.len(), 0))),
    ensures
        ({
            let n = fragment_count(payload.len());
            let h0 = fragment_header(params, ident, payload.len(), 0);
            &&& forall|i: int| 0 <= i < n - 1 ==> released[i] is None
            &&& released[n - 1] == Some(
                (
                    if n == 1 {
                        h0
                    } else {
                        completed_header(h0, payload.len())
                    },
                    payload,
                ),
            )
            &&& states[n as int] == states[0]
            &&& forall|i: int|
                0 <= i < n ==> !push_would_overflow(
                    states[i],
                    fragment_header(params, ident, payload.len(), perm[i] as nat),
                    fragment_data(payload, perm[i] as nat),
                )
        }),
{
    let len = payload.len();
    let n = fragment_count(len);
    let key = reassembly_key(fragment_header(params, ident, len, 0));
    if n == 1 {
        assert(0 <= perm[0] < 1);
        let h = fragment_header(params, ident, len, 0);
        let d = fragment_data(payload, 0);
        lemma_built_view(payload, params, ident, 0);
        assert(push_spec(states[0], h, d, times[0], released[0], states[1]));
        assert(is_unfragmented(h));
        assert(d =~= payload);
    } else {
        let k = n - 1;
        lemma_pushes_in_prefix(payload, params, ident, perm, states, times, released, k);
        lemma_pushed_set_step(perm, n, k);
        assert(push_spec(
            states[k],
            fragment_header(params, ident, len, perm[k] as nat),
            fragment_data(payload, perm[k] as nat),
            times[k],
            released[k],
            states[k + 1],
        ));
        lemma_push_chosen(
            payload,
            params,
            ident,
            states[k],
            pushed_set(perm, k),
            false,
            perm[0],
            perm[k],
            times[k],
            released[k],
            states[k + 1],
        );
        assert(states[n as int] =~= states[0]);
    }
}

/// Collects datagram fragments and releases each datagram once complete.
pub struct Ipv4Reassembler {
    buffers: HashMap<u128, FragmentBuffer>,
    epoch: Instant,
}

impl View for Ipv4Reassembler {
    type V = Map<u128, BufferView>;

    closed spec fn view(&self) -> Map<u128, BufferView> {
        self.buffers@.map_values(|b: FragmentBuffer| b.model())
    }
}

/// The exact key of a header.
fn key_of(h: &Ipv4Header) -> (k: u128)
    ensures
        k == reassembly_key(*h),
{
    let s: u128 = (h.src[0] as u128) * 0x100_0000 + (h.src[1] as u128) * 0x1_0000
        + (h.src[2] as u128) * 256 + h.src[3] as u128;
    let d: u128 = (h.dst[0] as u128) * 0x100_0000 + (h.dst[1] as u128) * 0x1_0000
        + (h.dst[2] as u128) * 256 + h.dst[3] as u128;
    s * 0x100_0000_0000_0000 + d * 0x100_0000 + (h.identification as u128) * 256
        + h.protocol as u128
}

impl Ipv4Reassembler {
    /// Every buffer is well formed and stored under its datagram's key.
    pub closed spec fn wf(&self) -> bool {
        forall|k: u128|
            #![trigger self.buffers@[k]]
            self.buffers@.contains_key(k) ==> {
                &&& self.buffers@[k].wf()
                &&& reassembly_key(self.buffers@[k].header) == k
            }
    }

    /// An empty reassembler whose clock starts now.
    pub fn new() -> (r: Self)
        ensures
            r.wf(),
            r@ == Map::<u128, BufferView>::empty(),
    {
        let r = Ipv4Reassembler { buffers: HashMap::new(), epoch: instant_now() };
        assert(r@ =~= Map::<u128, BufferView>::empty());
        r
    }

    /// Adds a fragment at time `now` (nanoseconds on this reassembler's clock) and
    /// returns the datagram if this fragment completes it. An unfragmented packet is
    /// returned at once; a repeated offset is ignored (though a repeated offset-0
    /// fragment still replaces the stored header).
    pub fn push_fragment_at(&mut self, header: Ipv4Header, payload: &[u8], now: u64) -> (r:
        Option<ReassembledPacket>)
        requires
            old(self).wf(),
            header.fragment_offset as nat * 8 + payload@.len() <= usize::MAX,
            !push_would_overflow(old(self)@, header, payload@),
        ensures
            final(self).wf(),
            push_spec(old(self)@, header, payload@, now, packet_model(r), final(self)@),
    {
        if header.fragment_offset == 0 && !header.mf {
            return Some(ReassembledPacket { header, payload: bytes_to_vec(payload) });
        }
        let key: u128 = key_of(&header);
        let offset: usize = header.fragment_offset_bytes();
        let ghost old_buffers = self.buffers@;
        let ghost base = opened_buffer(self@, header, now);
        let removed = self.buffers.remove(&key);
        let mut buffer = match removed {
            Some(b) => {
                let mut b = b;
                assert(b == old_buffers[key]);
                if header.fragment_offset == 0 {
                    b.header = header;
                }
                assert(b.model() == base);
                if b.has_offset(offset) {
                    self.buffers.insert(key, b);
                    proof {
                        assert(self.buffers@ == old_buffers.insert(key, b));
                        assert(self@ =~= old(self)@.insert(key, base));
                    }
                    return None;
                }
                b
            },
            None => {
                let b = FragmentBuffer::new(header, now);
                assert(b.model() == base);
                b
            },
        };
        assert(!has_fragment_at(buffer.model().fragments, offset as nat));
        let ghost before_insert = buffer.model();
        buffer.insert_fragment(Fragment { offset, data: bytes_to_vec(payload) });
        if !header.mf {
            buffer.total_payload_len = Some(offset + payload.len());
        }
        let ghost nf = buffer.model().fragments;
        assert(buffer.model() == grown_buffer(base, header, payload@, nf));
        proof {
            if is_complete(buffer.model()) {
                lemma_no_overflow(old(self)@, header, payload@, now, nf);
            }
        }
        let assembled = buffer.try_assemble();
        match assembled {
            Some(p) => {
                proof {
                    assert(self@ =~= old(self)@.remove(key));
                    assert(store_outcome(old(self)@, header, payload@, now, nf, packet_model(Some(p)), self@));
                }
                Some(p)
            },
            None => {
                self.buffers.insert(key, buffer);
                proof {
                    assert(self@ =~= old(self)@.insert(key, buffer.model()));
                    assert(store_outcome(old(self)@, header, payload@, now, nf, packet_model(None), self@));
                }
                None
            },
        }
    }

    /// The keys of all buffers, each once, in the map's iteration order.
    fn buffer_keys(&self) -> (keys: Vec<u128>)
        ensures
            keys@.no_duplicates(),
            forall|k: u128| keys@.contains(k) <==> self.buffers@.contains_key(k),
    {
        let mut keys: Vec<u128> = Vec::new();
        let ghost all = vstd::std_specs::iter::IteratorSpec::remaining(
            &vstd::std_specs::hash::spec_keys_iter(&self.buffers),
        );
        proof {
            vstd::std_specs::hash::axiom_spec_keys_iter(&self.buffers);
        }
        for k in it: self.buffers.keys()
            invariant
                it.seq() == all,
                keys@.len() == it.index(),
                forall|j: int| 0 <= j < it.index() ==> keys@[j] == *all[j],
        {
            keys.push(*k);
        }
        proof {
            assert(keys@ =~= all.map_values(|r: &u128| *r));
            assert(all.unref() =~= all.map_values(|r: &u128| *r));
            assert(all.unref().to_set() == self.buffers@.dom());
            assert forall|k: u128| keys@.contains(k) <==> self.buffers@.contains_key(k) by {
                if keys@.contains(k) {
                    assert(all.unref().to_set().contains(k));
                }
                if self.buffers@.contains_key(k) {
                    assert(all.unref().to_set().contains(k));
                }
            }
            assert(all.no_duplicates());
            assert forall|a: int, b: int| 0 <= a < keys@.len() && 0 <= b < keys@.len() && a != b
                implies keys@[a] != keys@[b] by {
                assert(all[a] != all[b]);
            }
        }
        keys
    }

    /// Drops the buffers that have waited at least the timeout at time `now` and returns
    /// their headers (in the map's iteration order).
    pub fn remove_expired_at(&mut self, now: u64) -> (expired: Vec<Ipv4Header>)
        requires
            old(self).wf(),
        ensures
            final(self).wf(),
            final(self)@ == unexpired(old(self)@, now),
            exists|ks: Seq<u128>| #[trigger] lists_expired(old(self)@, now, ks, expired@),
    {
        let keys: Vec<u128> = self.buffer_keys();
        let ghost old_buffers = self.buffers@;
        let ghost old_view = self@;
        let mut expired: Vec<Ipv4Header> = Vec::new();
        let ghost mut ks: Seq<u128> = Seq::empty();
        let n: usize = keys.len();
        let mut i: usize = 0;
        while i < n
            invariant
                n == keys@.len(),
                i <= n,
                keys@.no_duplicates(),
                forall|k: u128| keys@.contains(k) <==> old_buffers.contains_key(k),
                old_view == old_buffers.map_values(|b: FragmentBuffer| b.model()),
                self.wf(),
                ks.no_duplicates(),
                forall|k: u128|
                    ks.contains(k) <==> keys@.subrange(0, i as int).contains(k)
                        && is_expired(old_view[k], now),
                expired@ == ks.map_values(|k: u128| old_view[k].header),
                self.buffers@ == Map::new(
                    |k: u128|
                        old_buffers.contains_key(k) && !(keys@.subrange(0, i as int).contains(k)
                            && is_expired(old_view[k], now)),
                    |k: u128| old_buffers[k],
                ),
            decreases n - i,
        {
            let k: u128 = keys[i];
            assert(keys@.contains(k));
            assert(!keys@.subrange(0, i as int).contains(k));
            assert(self.buffers@.contains_key(k));
            let start: u64 = match self.buffers.get(&k) {
                Some(b) => b.start,
                None => 0,
            };
            assert(start == old_view[k].start);
            let ghost prefix = keys@.subrange(0, i as int);
            let ghost next_prefix = keys@.subrange(0, i + 1);
            assert(next_prefix =~= prefix.push(k));
            assert forall|x: u128| next_prefix.contains(x) <==> (prefix.contains(x) || x == k) by {
                if next_prefix.contains(x) {
                    let j = choose|j: int| 0 <= j < next_prefix.len() && next_prefix[j] == x;
                    if j < prefix.len() {
                        assert(prefix[j] == x);
                    }
                }
                if prefix.contains(x) {
                    let j = choose|j: int| 0 <= j < prefix.len() && prefix[j] == x;
                    assert(next_prefix[j] == x);
                }
                if x == k {
                    assert(next_prefix[i as int] == x);
                }
            }
            let ghost before_buffers = self.buffers@;
            let is_old: bool = now >= start && now - start >= FRAGMENT_TIMEOUT_NANOS;
            assert(is_old == is_expired(old_view[k], now));
            if is_old && now - start >= FRAGMENT_TIMEOUT_NANOS {
                let removed = self.buffers.remove(&k);
                match removed {
                    Some(b) => {
                        expired.push(b.header);
                    },
                    None => {},
                }
                proof {
                    let old_ks = ks;
                    assert(!old_ks.contains(k));
                    ks = old_ks.push(k);
                    assert forall|x: u128| ks.contains(x) <==> (old_ks.contains(x) || x == k) by {
                        if ks.contains(x) {
                            let j = choose|j: int| 0 <= j < ks.len() && ks[j] == x;
                            if j < old_ks.len() {
                                assert(old_ks[j] == x);
                            }
                        }
                        if old_ks.contains(x) {
                            let j = choose|j: int| 0 <= j < old_ks.len() && old_ks[j] == x;
                            assert(ks[j] == x);
                        }
                        if x == k {
                            assert(ks[old_ks.len() as int] == x);
                        }
                    }
                    assert(ks.no_duplicates()) by {
                        assert forall|a: int, b: int| 0 <= a < b < ks.len() implies ks[a] != ks[b] by {
                            assert(ks[a] == old_ks[a]);
                            if b == ks.len() - 1 {
                                assert(old_ks.contains(old_ks[a]));
                            } else {
                                assert(ks[b] == old_ks[b]);
                            }
                        }
                    }
                    assert(expired@ =~= ks.map_values(|k: u128| old_view[k].header));
                }
            }
            proof {
                if is_old {
                    assert(self.buffers@ == before_buffers.remove(k));
                } else {
                    assert(self.buffers@ == before_buffers);
                }
            }
            i = i + 1;
            proof {
                assert(self.buffers@ =~= Map::new(
                    |k: u128|
                        old_buffers.contains_key(k) && !(keys@.subrange(0, i as int).contains(k)
                            && is_expired(old_view[k], now)),
                    |k: u128| old_buffers[k],
                ));
            }
        }
        proof {
            assert(keys@.subrange(0, n as int) =~= keys@);
            assert(self@ =~= unexpired(old(self)@, now));
            assert(lists_expired(old(self)@, now, ks, expired@));
        }
        expired
    }

    /// The time on this reassembler's clock, in nanoseconds since it was created.
    pub fn now(&self) -> u64 {
        nanos_since(&self.epoch)
    }

    /// Drops expired buffers, reading the time from this reassembler's clock.
    pub fn remove_expired(&mut self) -> (expired: Vec<Ipv4Header>)
        requires
            old(self).wf(),
        ensures
            final(self).wf(),
            exists|now: u64, ks: Seq<u128>|
                final(self)@ == unexpired(old(self)@, now) && #[trigger] lists_expired(
                    old(self)@,
                    now,
                    ks,
                    expired@,
                ),
    {
        let now: u64 = nanos_since(&self.epoch);
        self.remove_expired_at(now)
    }

    /// Whether storing this fragment would complete a datagram whose 16-bit total length
    /// overflows: the condition `push_fragment` cannot be called under.
    pub fn push_would_overflow_exec(&self, header: &Ipv4Header, payload: &[u8]) -> (r: bool)
        requires
            self.wf(),
            header.fragment_offset as nat * 8 + payload@.len() <= usize::MAX,
        ensures
            r == push_would_overflow(self@, *header, payload@),
    {
        if header.fragment_offset == 0 && !header.mf {
            return false;
        }
        let key: u128 = key_of(header);
        let offset: usize = header.fragment_offset_bytes();
        let mut copy = match self.buffers.get(&key) {
            Some(b) => {
                if b.has_offset(offset) {
                    return false;
                }
                let mut c = b.duplicate();
                if header.fragment_offset == 0 {
                    c.header = *header;
                }
                c
            },
            None => FragmentBuffer::new(*header, 0),
        };
        let ghost base = opened_buffer(self@, *header, 0);
        assert(copy.model() == base);
        let total: Option<usize> = if header.mf {
            copy.total_payload_len
        } else {
            Some(offset + payload.len())
        };
        let t: usize = match total {
            None => return false,
            Some(t) => t,
        };
        let header_len: usize = copy.header.header_len_bytes();
        if t == 0 || header_len + t % 0x1_0000 <= 0xFFFF {
            return false;
        }
        copy.insert_fragment(Fragment { offset, data: bytes_to_vec(payload) });
        copy.total_payload_len = total;
        let ghost nf = copy.model().fragments;
        assert(copy.model() == grown_buffer(base, *header, payload@, nf));
        proof {
            assert forall|other: Seq<FragmentView>|
                stored_in_order(base.fragments, other, fragment_of(*header, payload@)) implies other
                == nf by {
                lemma_stored_in_order_unique(base.fragments, other, nf, fragment_of(*header, payload@));
            }
        }
        let complete: bool = match copy.scan_coverage() {
            None => false,
            Some(c) => c == t,
        };
        proof {
            lemma_max_end(nf, nf.len());
            if complete {
                assert(is_complete(copy.model()));
            } else {
                assert(!is_complete(copy.model()));
            }
        }
        complete
    }

    /// Adds a fragment, reading the time from this reassembler's clock.
    pub fn push_fragment(&mut self, header: Ipv4Header, payload: &[u8]) -> (r: Option<
        ReassembledPacket,
    >)
        requires
            old(self).wf(),
            header.fragment_offset as nat * 8 + payload@.len() <= usize::MAX,
            !push_would_overflow(old(self)@, header, payload@),
        ensures
            final(self).wf(),
            exists|now: u64| #[trigger]
                push_spec(old(self)@, header, payload@, now, packet_model(r), final(self)@),
    {
        let now: u64 = nanos_since(&self.epoch);
        let r = self.push_fragment_at(header, payload, now);
        assert(push_spec(old(self)@, header, payload@, now, packet_model(r), self@));
        r
    }
}

} // verus!
