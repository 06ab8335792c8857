//! File transfer over UDP: the sender cuts the file into chunks of 1200 bytes, each sent
//! as one datagram with a 12-byte header (chunk count, chunk index, chunk length, all
//! big-endian 32-bit); the receiver files chunks by index and rebuilds the file once it
//! holds every one.
use vstd::prelude::*;

use crate::bytes::{append_bytes, be32, push_u32_be, read_u32_be, u32_be_bytes};

verus! {

/// Data bytes per chunk.
pub const UDP_CHUNK: usize = 1200;

/// Bytes of the chunk header.
pub const CHUNK_HEADER_LEN: usize = 12;

/// Number of chunks of a file of `len` bytes.
pub open spec fn chunk_total(len: nat) -> nat {
    ((len + 1199) / 1200) as nat
}

/// Chunk `k` of `data`.
pub open spec fn chunk_of(data: Seq<u8>, k: nat) -> Seq<u8> {
    let start = k * 1200;
    let end = if (k + 1) * 1200 <= data.len() {
        (k + 1) * 1200
    } else {
        data.len()
    };
    data.subrange(start as int, end as int)
}

/// The datagram carrying one chunk: count, index and length (32-bit big-endian), then
/// the chunk.
pub open spec fn chunk_message(total: u32, index: u32, chunk: Seq<u8>) -> Seq<u8> {
    u32_be_bytes(total) + u32_be_bytes(index) + u32_be_bytes(chunk.len() as u32) + chunk
}

/// The datagrams that carry `data`, in order (count and index taken modulo 2^32).
pub open spec fn file_messages(data: Seq<u8>) -> Seq<Seq<u8>> {
    Seq::new(
        chunk_total(data.len()),
        |k: int| chunk_message(chunk_total(data.len()) as u32, k as u32, chunk_of(data, k as nat)),
    )
}

/// Why a file cannot be sent.
#[derive(Debug, Clone, Copy, PartialEq, Eq)]
pub enum TransferError {
    /// The file is empty.
    EmptyFile,
}

/// The chunk count of a file, as sent in every header.
pub fn chunk_count(len: usize) -> (n: u32)
    ensures
        n == chunk_total(len as nat) as u32,
{
    let n: usize = len / UDP_CHUNK + if len % UDP_CHUNK == 0 { 0 } else { 1 };
    assert(n == chunk_total(len as nat)) by (nonlinear_arith)
        requires
            n == len / 1200 + if len % 1200 == 0 { 0int } else { 1int },
    ;
    n as u32
}

/// The datagrams that carry a non-empty file, one per chunk.
pub fn chunk_messages(data: &[u8]) -> (r: Result<Vec<Vec<u8>>, TransferError>)
    ensures
        data@.len() == 0 ==> r == Err::<Vec<Vec<u8>>, TransferError>(TransferError::EmptyFile),
        data@.len() > 0 ==> (r matches Ok(msgs) && msgs@.map_values(|m: Vec<u8>| m@)
            == file_messages(data@)),
{
    if data.len() == 0 {
        return Err(TransferError::EmptyFile);
    }
    let len: usize = data.len();
    let total: u32 = chunk_count(len);
    let n: usize = len / UDP_CHUNK + if len % UDP_CHUNK == 0 { 0 } else { 1 };
    assert(n == chunk_total(len as nat)) by (nonlinear_arith)
        requires
            n == len / 1200 + if len % 1200 == 0 { 0int } else { 1int },
    ;
    let mut msgs: Vec<Vec<u8>> = Vec::new();
    let mut k: usize = 0;
    while k < n
        invariant
            len == data@.len(),
            n == chunk_total(len as nat),
            total == n as u32,
            k <= n,
            msgs@.len() == k,
            forall|j: int|
                0 <= j < k ==> (#[trigger] msgs@[j])@ == chunk_message(
                    total,
                    j as u32,
                    chunk_of(data@, j as nat),
                ),
        decreases n - k,
    {
        assert(k * 1200 < len && (k + 1) * 1200 == k * 1200 + 1200) by (nonlinear_arith)
            requires
                k < n,
                n == (len + 1199) / 1200,
        ;
        let start: usize = k * UDP_CHUNK;
        let end: usize = if len - start >= UDP_CHUNK { start + UDP_CHUNK } else { len };
        let chunk: &[u8] = &data[start..end];
        assert(chunk@ == chunk_of(data@, k as nat));
        let mut m: Vec<u8> = Vec::new();
        push_u32_be(&mut m, total);
        push_u32_be(&mut m, k as u32);
        push_u32_be(&mut m, chunk.len() as u32);
        append_bytes(&mut m, chunk);
        assert(m@ =~= chunk_message(total, k as u32, chunk_of(data@, k as nat)));
        msgs.push(m);
        k = k + 1;
    }
    assert(msgs@.map_values(|m: Vec<u8>| m@) =~= file_messages(data@));
    Ok(msgs)
}

/// What the receiver holds: the announced chunk count (once the first valid datagram has
/// arrived) and, per index, the chunk received for it.
pub struct ReceiverView {
    pub total: Option<nat>,
    pub received: Seq<Option<Seq<u8>>>,
}

/// What a received datagram did, as plain values.
pub enum ChunkOutcome {
    TooShort,
    LengthMismatch { index: u32, chunk_len: nat },
    OutOfRange { index: u32, total: nat },
    Stored { index: u32, have: nat, total: nat },
    Complete { index: u32, file: Seq<u8> },
}

/// What a received datagram did.
#[derive(Debug)]
pub enum ChunkEvent {
    /// Shorter than the 12-byte header; dropped.
    TooShort,
    /// The announced chunk length runs past the datagram; dropped.
    LengthMismatch { index: u32, chunk_len: usize },
    /// The index is not below the chunk count; dropped.
    OutOfRange { index: u32, total: usize },
    /// Filed (unless that index was already held); `have` chunks of `total` are held.
    Stored { index: u32, have: usize, total: usize },
    /// Every chunk is held (this datagram, with chunk `index`, brought the last missing
    /// one, or repeated one): the whole file.
    Complete { index: u32, file: Vec<u8> },
}

/// An event as plain values.
pub open spec fn event_model(e: ChunkEvent) -> ChunkOutcome {
    match e {
        ChunkEvent::TooShort => ChunkOutcome::TooShort,
        ChunkEvent::LengthMismatch { index, chunk_len } => ChunkOutcome::LengthMismatch {
            index,
            chunk_len: chunk_len as nat,
        },
        ChunkEvent::OutOfRange { index, total } => ChunkOutcome::OutOfRange {
            index,
            total: total as nat,
        },
        ChunkEvent::Stored { index, have, total } => ChunkOutcome::Stored {
            index,
            have: have as nat,
            total: total as nat,
        },
        ChunkEvent::Complete { index, file } => ChunkOutcome::Complete { index, file: file@ },
    }
}

/// How many indices hold a chunk.
pub open spec fn count_present(s: Seq<Option<Seq<u8>>>) -> nat
    decreases s.len(),
{
    if s.len() == 0 {
        0
    } else {
        count_present(s.drop_last()) + if s.last() is Some {
            1nat
        } else {
            0nat
        }
    }
}

/// The held chunks joined in index order (absent ones contribute nothing).
pub open spec fn joined(s: Seq<Option<Seq<u8>>>) -> Seq<u8>
    decreases s.len(),
{
    if s.len() == 0 {
        Seq::empty()
    } else {
        joined(s.drop_last()) + match s.last() {
            Some(c) => c,
            None => Seq::empty(),
        }
    }
}

/// The count field of a datagram.
pub open spec fn msg_total(m: Seq<u8>) -> int {
    be32(m[0], m[1], m[2], m[3])
}

/// The index field of a datagram.
pub open spec fn msg_index(m: Seq<u8>) -> int {
    be32(m[4], m[5], m[6], m[7])
}

/// The length field of a datagram.
pub open spec fn msg_len(m: Seq<u8>) -> int {
    be32(m[8], m[9], m[10], m[11])
}

/// What the receiver in state `s` does with datagram `m`: the announcement it makes
/// (the chunk count, when this datagram starts the transfer), the outcome, and the new
/// state. The first valid datagram fixes the chunk count; later counts are ignored.
pub open spec fn receive_spec(s: ReceiverView, m: Seq<u8>) -> (Option<u32>, ChunkOutcome, ReceiverView) {
    if m.len() < 12 {
        (None, ChunkOutcome::TooShort, s)
    } else if 12 + msg_len(m) > m.len() {
        (
            None,
            ChunkOutcome::LengthMismatch { index: msg_index(m) as u32, chunk_len: msg_len(m) as nat },
            s,
        )
    } else {
        let started = s.total is None;
        let total: nat = match s.total {
            Some(t) => t,
            None => msg_total(m) as nat,
        };
        let base = if started {
            Seq::new(total, |_i: int| None::<Seq<u8>>)
        } else {
            s.received
        };
        let announced = if started {
            Some(msg_total(m) as u32)
        } else {
            None
        };
        let idx = msg_index(m);
        if idx >= total {
            (
                announced,
                ChunkOutcome::OutOfRange { index: idx as u32, total },
                ReceiverView { total: Some(total), received: base },
            )
        } else {
            let rec = if base[idx] is None {
                base.update(idx, Some(m.subrange(12, 12 + msg_len(m))))
            } else {
                base
            };
            let next = ReceiverView { total: Some(total), received: rec };
            if count_present(rec) == total {
                (announced, ChunkOutcome::Complete { index: idx as u32, file: joined(rec) }, next)
            } else {
                (
                    announced,
                    ChunkOutcome::Stored { index: idx as u32, have: count_present(rec), total },
                    next,
                )
            }
        }
    }
}

/// The receiving side of a file transfer.
pub struct FileReceiver {
    total: Option<usize>,
    received: Vec<Option<Vec<u8>>>,
}

/// A held chunk as plain bytes.
pub open spec fn chunk_view(c: Option<Vec<u8>>) -> Option<Seq<u8>> {
    match c {
        Some(v) => Some(v@),
        None => None,
    }
}

impl View for FileReceiver {
    type V = ReceiverView;

    closed spec fn view(&self) -> ReceiverView {
        ReceiverView {
            total: match self.total {
                Some(t) => Some(t as nat),
                None => None,
            },
            received: self.received@.map_values(|c: Option<Vec<u8>>| chunk_view(c)),
        }
    }
}

proof fn lemma_count_present_step(s: Seq<Option<Seq<u8>>>, k: int)
    requires
        0 <= k < s.len(),
    ensures
        count_present(s.subrange(0, k + 1)) == count_present(s.subrange(0, k)) + if s[k] is Some {
            1nat
        } else {
            0nat
        },
        joined(s.subrange(0, k + 1)) == joined(s.subrange(0, k)) + match s[k] {
            Some(c) => c,
            None => Seq::empty(),
        },
{
    assert(s.subrange(0, k + 1).drop_last() =~= s.subrange(0, k));
}

proof fn lemma_count_bound(s: Seq<Option<Seq<u8>>>)
    ensures
        count_present(s) <= s.len(),
        count_present(s) == s.len() ==> forall|i: int| 0 <= i < s.len() ==> s[i] is Some,
    decreases s.len(),
{
    if s.len() > 0 {
        lemma_count_bound(s.drop_last());
        if count_present(s) == s.len() {
            assert forall|i: int| 0 <= i < s.len() implies s[i] is Some by {
                if i < s.len() - 1 {
                    assert(s.drop_last()[i] == s[i]);
                }
            }
        }
    }
}

impl FileReceiver {
    /// A receiver that has not seen any datagram.
    pub fn new() -> (r: Self)
        ensures
            r.wf(),
            r@.total is None,
            r@.received == Seq::<Option<Seq<u8>>>::empty(),
    {
        let r = FileReceiver { total: None, received: Vec::new() };
        assert(r@.received =~= Seq::<Option<Seq<u8>>>::empty());
        r
    }

    /// The chunk count is fixed and the table has one slot per chunk.
    pub closed spec fn wf(&self) -> bool {
        match self.total {
            Some(t) => self.received@.len() == t,
            None => self.received@.len() == 0,
        }
    }

    /// Files a received datagram (`msg` holds exactly the received bytes).
    pub fn on_datagram(&mut self, msg: &[u8]) -> (r: (Option<u32>, ChunkEvent))
        requires
            old(self).wf(),
        ensures
            final(self).wf(),
            (r.0, event_model(r.1), final(self)@) == receive_spec(old(self)@, msg@),
    {
        let n: usize = msg.len();
        if n < CHUNK_HEADER_LEN {
            return (None, ChunkEvent::TooShort);
        }
        let recv_total: u32 = read_u32_be(msg, 0);
        let idx: u32 = read_u32_be(msg, 4);
        let chunk_len: usize = read_u32_be(msg, 8) as usize;
        if chunk_len > n - CHUNK_HEADER_LEN {
            return (None, ChunkEvent::LengthMismatch { index: idx, chunk_len });
        }
        let payload: &[u8] = &msg[CHUNK_HEADER_LEN..CHUNK_HEADER_LEN + chunk_len];
        let ghost old_view = self@;
        let mut announced: Option<u32> = None;
        if self.total.is_none() {
            let t: usize = recv_total as usize;
            self.total = Some(t);
            let mut table: Vec<Option<Vec<u8>>> = Vec::new();
            let mut i: usize = 0;
            while i < t
                invariant
                    i <= t,
                    table@.len() == i,
                    forall|j: int| 0 <= j < i ==> (#[trigger] table@[j]) is None,
                decreases t - i,
            {
                table.push(None);
                i = i + 1;
            }
            self.received = table;
            announced = Some(recv_total);
            assert(self@.received =~= Seq::new(t as nat, |_i: int| None::<Seq<u8>>));
        }
        let total: usize = match self.total {
            Some(t) => t,
            None => 0,
        };
        let ghost base = self@.received;
        if idx as usize >= total {
            return (announced, ChunkEvent::OutOfRange { index: idx, total });
        }
        let k: usize = idx as usize;
        let held: bool = match &self.received[k] {
            Some(_) => true,
            None => false,
        };
        if !held {
            let chunk: Vec<u8> = crate::bytes::bytes_to_vec(payload);
            self.received.set(k, Some(chunk));
            assert(self@.received =~= base.update(k as int, Some(msg@.subrange(12, 12 + chunk_len))));
        }
        let ghost rec = self@.received;
        let mut have: usize = 0;
        let mut i: usize = 0;
        while i < total
            invariant
                total == self.received@.len(),
                rec == self@.received,
                i <= total,
                have == count_present(rec.subrange(0, i as int)),
                have <= i,
            decreases total - i,
        {
            proof {
                lemma_count_present_step(rec, i as int);
            }
            match &self.received[i] {
                Some(_) => {
                    have = have + 1;
                },
                None => {},
            }
            i = i + 1;
        }
        assert(rec.subrange(0, total as int) =~= rec);
        if have == total {
            proof {
                lemma_count_bound(rec);
            }
            let mut file_data: Vec<u8> = Vec::new();
            let mut j: usize = 0;
            while j < total
                invariant
                    total == self.received@.len(),
                    rec == self@.received,
                    j <= total,
                    forall|q: int| 0 <= q < total ==> rec[q] is Some,
                    file_data@ == joined(rec.subrange(0, j as int)),
                decreases total - j,
            {
                proof {
                    lemma_count_present_step(rec, j as int);
                }
                match &self.received[j] {
                    Some(c) => {
                        append_bytes(&mut file_data, c.as_slice());
                    },
                    None => {},
                }
                j = j + 1;
            }
            return (announced, ChunkEvent::Complete { index: idx, file: file_data });
        }
        (announced, ChunkEvent::Stored { index: idx, have, total })
    }
}

/// Decoding four big-endian bytes gives back the 32-bit value.
pub proof fn lemma_be32_roundtrip(x: u32)
    ensures
        be32(u32_be_bytes(x)[0], u32_be_bytes(x)[1], u32_be_bytes(x)[2], u32_be_bytes(x)[3]) == x,
{
    let b = u32_be_bytes(x);
    assert(b[0] == x / 0x100_0000 && b[1] == (x / 0x1_0000) % 256 && b[2] == (x / 256) % 256 && b[3]
        == x % 256);
    assert(x == (x / 0x100_0000) * 0x100_0000 + ((x / 0x1_0000) % 256) * 0x1_0000 + ((x / 256)
        % 256) * 256 + x % 256) by (nonlinear_arith);
}

/// The receiver's table after the first `k` chunks of `data` arrived in order.
pub open spec fn prefix_received(data: Seq<u8>, k: nat) -> Seq<Option<Seq<u8>>> {
    Seq::new(
        chunk_total(data.len()),
        |j: int|
            if j < k {
                Some(chunk_of(data, j as nat))
            } else {
                None
            },
    )
}

/// The state after feeding the first `k` datagrams of `msgs` to a fresh receiver.
pub open spec fn receive_all(msgs: Seq<Seq<u8>>, k: nat) -> ReceiverView
    decreases k,
{
    if k == 0 {
        ReceiverView { total: None, received: Seq::empty() }
    } else {
        receive_spec(receive_all(msgs, (k - 1) as nat), msgs[k - 1]).2
    }
}

proof fn lemma_chunk_facts(data: Seq<u8>, k: nat)
    requires
        k < chunk_total(data.len()),
    ensures
        k * 1200 < data.len(),
        chunk_of(data, k).len() <= 1200,
        chunk_of(data, k).len() > 0,
        k + 1 == chunk_total(data.len()) ==> k * 1200 + chunk_of(data, k).len() == data.len(),
        k + 1 < chunk_total(data.len()) ==> chunk_of(data, k).len() == 1200,
{
    let len = data.len();
    let n = chunk_total(len);
    assert(k * 1200 < len) by (nonlinear_arith)
        requires
            k < n,
            n == (len + 1199) / 1200,
    ;
    if k + 1 < n {
        assert((k + 1) * 1200 <= len) by (nonlinear_arith)
            requires
                k + 1 < n,
                n == (len + 1199) / 1200,
        ;
    } else {
        assert(len <= (k + 1) * 1200) by (nonlinear_arith)
            requires
                k + 1 == n,
                n == (len + 1199) / 1200,
        ;
    }
    assert((k + 1) * 1200 == k * 1200 + 1200) by (nonlinear_arith);
}

proof fn lemma_prefix_count(data: Seq<u8>, k: nat, m: nat)
    requires
        k <= chunk_total(data.len()),
        m <= chunk_total(data.len()),
    ensures
        count_present(prefix_received(data, k).subrange(0, m as int)) == if k < m {
            k
        } else {
            m
        },
    decreases m,
{
    let s = prefix_received(data, k);
    if m > 0 {
        lemma_prefix_count(data, k, (m - 1) as nat);
        assert(s.subrange(0, m as int).drop_last() =~= s.subrange(0, m - 1));
    }
}

proof fn lemma_prefix_joined(data: Seq<u8>, m: nat)
    requires
        0 < data.len(),
        m <= chunk_total(data.len()),
    ensures
        joined(prefix_received(data, chunk_total(data.len())).subrange(0, m as int)) == data.subrange(
            0,
            if m == chunk_total(data.len()) {
                data.len() as int
            } else {
                (m * 1200) as int
            },
        ),
    decreases m,
{
    let n = chunk_total(data.len());
    let s = prefix_received(data, n);
    if m == 0 {
        assert(s.subrange(0, 0) =~= Seq::<Option<Seq<u8>>>::empty());
        assert(data.subrange(0, 0) =~= Seq::<u8>::empty());
    } else {
        let j = (m - 1) as nat;
        lemma_prefix_joined(data, j);
        lemma_chunk_facts(data, j);
        assert(s.subrange(0, m as int).drop_last() =~= s.subrange(0, j as int));
        assert(s.subrange(0, m as int).last() == Some(chunk_of(data, j)));
        assert(j * 1200 + 1200 == m * 1200) by (nonlinear_arith)
            requires
                j == m - 1,
        ;
        assert(data.subrange(0, (j * 1200) as int) + chunk_of(data, j) =~= data.subrange(
            0,
            if m == n {
                data.len() as int
            } else {
                (m * 1200) as int
            },
        ));
    }
}

/// Feeding the `k`-th datagram of the file (all earlier ones having arrived in order).
#[verifier::spinoff_prover]
proof fn lemma_receive_step(data: Seq<u8>, k: nat)
    requires
        0 < data.len(),
        chunk_total(data.len()) < 0x1_0000_0000,
        k < chunk_total(data.len()),
        receive_all(file_messages(data), k) == (if k == 0 {
            ReceiverView { total: None, received: Seq::empty() }
        } else {
            ReceiverView {
                total: Some(chunk_total(data.len())),
                received: prefix_received(data, k),
            }
        }),
    ensures
        receive_all(file_messages(data), k + 1) == (ReceiverView {
            total: Some(chunk_total(data.len())),
            received: prefix_received(data, k + 1),
        }),
        receive_spec(receive_all(file_messages(data), k), file_messages(data)[k as int]).1 == if k
            + 1 < chunk_total(data.len()) {
            ChunkOutcome::Stored {
                index: k as u32,
                have: k + 1,
                total: chunk_total(data.len()),
            }
        } else {
            ChunkOutcome::Complete { index: k as u32, file: data }
        },
{
    let n = chunk_total(data.len());
    let msgs = file_messages(data);
    let m = msgs[k as int];
    let c = chunk_of(data, k);
    lemma_chunk_facts(data, k);
    lemma_message_fields(data, k as int);
    let s = receive_all(msgs, k);
    let base = if k == 0 {
        Seq::new(n, |_i: int| None::<Seq<u8>>)
    } else {
        s.received
    };
    assert(base[k as int] is None);
    assert(base.update(k as int, Some(c)) =~= prefix_received(data, k + 1));
    lemma_prefix_count(data, k + 1, n);
    assert(prefix_received(data, k + 1).subrange(0, n as int) =~= prefix_received(data, k + 1));
    if k + 1 == n {
        lemma_prefix_joined(data, n);
        assert(prefix_received(data, n).subrange(0, n as int) =~= prefix_received(data, n));
        assert(data.subrange(0, data.len() as int) =~= data);
    }
}

/// Law (file transfer round trip): feeding the datagrams that carry a non-empty file to a
/// fresh receiver, in order, files each chunk and reports how many are held, until the
/// last one, which yields exactly the file. (The chunk count must fit the 32-bit header
/// field; a file of 1200 * 2^32 bytes or more is announced with a wrapped count.)
pub proof fn law_transfer_roundtrip(data: Seq<u8>)
    requires
        0 < data.len(),
        chunk_total(data.len()) < 0x1_0000_0000,
    ensures
        forall|k: nat|
            k < chunk_total(data.len()) ==> #[trigger] receive_spec(
                receive_all(file_messages(data), k),
                file_messages(data)[k as int],
            ).1 == if k + 1 < chunk_total(data.len()) {
                ChunkOutcome::Stored { index: k as u32, have: k + 1, total: chunk_total(data.len()) }
            } else {
                ChunkOutcome::Complete { index: k as u32, file: data }
            },
{
    assert forall|k: nat| k < chunk_total(data.len()) implies #[trigger] receive_spec(
        receive_all(file_messages(data), k),
        file_messages(data)[k as int],
    ).1 == if k + 1 < chunk_total(data.len()) {
        ChunkOutcome::Stored { index: k as u32, have: k + 1, total: chunk_total(data.len()) }
    } else {
        ChunkOutcome::Complete { index: k as u32, file: data }
    } by {
        lemma_receive_prefix(data, k);
        lemma_receive_step(data, k);
    }
}

/// After the first `k` datagrams, the receiver holds exactly the first `k` chunks.
proof fn lemma_receive_prefix(data: Seq<u8>, k: nat)
    requires
        0 < data.len(),
        chunk_total(data.len()) < 0x1_0000_0000,
        k <= chunk_total(data.len()),
    ensures
        receive_all(file_messages(data), k) == (if k == 0 {
            ReceiverView { total: None, received: Seq::empty() }
        } else {
            ReceiverView {
                total: Some(chunk_total(data.len())),
                received: prefix_received(data, k),
            }
        }),
    decreases k,
{
    if k > 0 {
        lemma_receive_prefix(data, (k - 1) as nat);
        lemma_receive_step(data, (k - 1) as nat);
    }
}

/// The chunk indices among the first `j` entries of `order`.
pub open spec fn arrived_set(order: Seq<int>, j: int) -> Set<int> {
    Set::new(|i: int| exists|k: int| 0 <= k < j && order[k] == i)
}

/// Every chunk index of a file of `n` chunks is among the first `j` entries of `order`.
pub open spec fn all_arrived(order: Seq<int>, j: int, n: nat) -> bool {
    forall|i: int| 0 <= i < n ==> #[trigger] arrived_set(order, j).contains(i)
}

/// The receiver's table holding the chunks of `data` whose indices lie in `s`.
pub open spec fn held_chunks(data: Seq<u8>, s: Set<int>) -> Seq<Option<Seq<u8>>> {
    Seq::new(
        chunk_total(data.len()),
        |i: int|
            if s.contains(i) {
                Some(chunk_of(data, i as nat))
            } else {
                None
            },
    )
}

/// The datagrams of `data` in the order given by the chunk indices `order` (an index may
/// repeat, as a datagram that arrives twice).
pub open spec fn messages_in(data: Seq<u8>, order: Seq<int>) -> Seq<Seq<u8>> {
    Seq::new(order.len(), |j: int| file_messages(data)[order[j]])
}

proof fn lemma_arrived_step(order: Seq<int>, j: int)
    requires
        0 <= j < order.len(),
    ensures
        arrived_set(order, j).insert(order[j]) == arrived_set(order, j + 1),
        j == 0 ==> arrived_set(order, j) == Set::<int>::empty(),
{
    let a = arrived_set(order, j);
    let b = arrived_set(order, j + 1);
    assert forall|i: int| a.insert(order[j]).contains(i) <==> b.contains(i) by {
        if b.contains(i) {
            let k = choose|k: int| 0 <= k < j + 1 && order[k] == i;
            if k < j {
                assert(a.contains(i));
            }
        }
        if a.contains(i) {
            let k = choose|k: int| 0 <= k < j && order[k] == i;
            assert(b.contains(i));
        }
    }
    assert(a.insert(order[j]) =~= b);
    if j == 0 {
        assert(a =~= Set::<int>::empty());
    }
}

/// The datagram carrying chunk `x` announces the chunk count, the index `x` and the
/// chunk's length, and carries the chunk.
proof fn lemma_message_fields(data: Seq<u8>, x: int)
    requires
        0 < data.len(),
        chunk_total(data.len()) < 0x1_0000_0000,
        0 <= x < chunk_total(data.len()),
    ensures
        ({
            let m = file_messages(data)[x];
            let c = chunk_of(data, x as nat);
            &&& m.len() >= 12
            &&& msg_total(m) == chunk_total(data.len())
            &&& msg_index(m) == x
            &&& msg_len(m) == c.len()
            &&& 12 + msg_len(m) <= m.len()
            &&& m.subrange(12, 12 + msg_len(m)) == c
        }),
{
    let n = chunk_total(data.len());
    let m = file_messages(data)[x];
    let c = chunk_of(data, x as nat);
    lemma_chunk_facts(data, x as nat);
    assert(m == chunk_message(n as u32, x as u32, c));
    lemma_be32_roundtrip(n as u32);
    lemma_be32_roundtrip(x as u32);
    lemma_be32_roundtrip(c.len() as u32);
    assert(m.subrange(12, 12 + msg_len(m)) =~= c);
}

/// Feeding datagram `j` of any arrival order: the receiver holds the chunks that have
/// arrived so far, and reports the whole file once every chunk has arrived, otherwise
/// the chunk it filed.
#[verifier::spinoff_prover]
proof fn lemma_receive_any_step(data: Seq<u8>, order: Seq<int>, j: int)
    requires
        0 < data.len(),
        chunk_total(data.len()) < 0x1_0000_0000,
        0 <= j < order.len(),
        forall|k: int| 0 <= k < order.len() ==> 0 <= #[trigger] order[k] < chunk_total(data.len()),
        receive_all(messages_in(data, order), j as nat) == (if j == 0 {
            ReceiverView { total: None, received: Seq::empty() }
        } else {
            ReceiverView {
                total: Some(chunk_total(data.len())),
                received: held_chunks(data, arrived_set(order, j)),
            }
        }),
    ensures
        receive_all(messages_in(data, order), (j + 1) as nat) == (ReceiverView {
            total: Some(chunk_total(data.len())),
            received: held_chunks(data, arrived_set(order, j + 1)),
        }),
        ({
            let out = receive_spec(
                receive_all(messages_in(data, order), j as nat),
                messages_in(data, order)[j],
            ).1;
            if all_arrived(order, j + 1, chunk_total(data.len())) {
                out == ChunkOutcome::Complete { index: order[j] as u32, file: data }
            } else {
                out matches ChunkOutcome::Stored { index, have, total } && index == order[j]
                    && total == chunk_total(data.len()) && have < total
            }
        }),
{
    let n = chunk_total(data.len());
    let msgs = messages_in(data, order);
    let x = order[j];
    let m = msgs[j];
    let c = chunk_of(data, x as nat);
    assert(m == file_messages(data)[x]);
    lemma_message_fields(data, x);
    lemma_arrived_step(order, j);
    let s = arrived_set(order, j);
    let s2 = arrived_set(order, j + 1);
    let base = if j == 0 {
        Seq::new(n, |_i: int| None::<Seq<u8>>)
    } else {
        held_chunks(data, s)
    };
    assert(base == held_chunks(data, s)) by {
        if j == 0 {
            assert(held_chunks(data, s) =~= Seq::new(n, |_i: int| None::<Seq<u8>>));
        }
    }
    let rec = if base[x] is None {
        base.update(x, Some(c))
    } else {
        base
    };
    assert(rec =~= held_chunks(data, s2));
    if all_arrived(order, j + 1, n) {
        assert(rec =~= prefix_received(data, n));
        lemma_prefix_count(data, n, n);
        assert(prefix_received(data, n).subrange(0, n as int) =~= prefix_received(data, n));
        lemma_prefix_joined(data, n);
        assert(data.subrange(0, data.len() as int) =~= data);
    } else {
        let miss = choose|i: int| 0 <= i < n && !#[trigger] s2.contains(i);
        lemma_count_bound(rec);
        assert(rec[miss] is None);
    }
}

proof fn lemma_receive_any_prefix(data: Seq<u8>, order: Seq<int>, j: int)
    requires
        0 < data.len(),
        chunk_total(data.len()) < 0x1_0000_0000,
        0 <= j <= order.len(),
        forall|k: int| 0 <= k < order.len() ==> 0 <= #[trigger] order[k] < chunk_total(data.len()),
    ensures
        receive_all(messages_in(data, order), j as nat) == (if j == 0 {
            ReceiverView { total: None, received: Seq::empty() }
        } else {
            ReceiverView {
                total: Some(chunk_total(data.len())),
                received: held_chunks(data, arrived_set(order, j)),
            }
        }),
    decreases j,
{
    if j > 0 {
        lemma_receive_any_prefix(data, order, j - 1);
        lemma_receive_any_step(data, order, j - 1);
    }
}

/// Law (file transfer in any order): the datagrams that carry a non-empty file may arrive
/// in any order and any of them more than once. Fed to a fresh receiver, each datagram
/// that leaves a chunk missing is filed and reported as stored (with its index, the chunk
/// count, and fewer chunks held than the count); the datagram that brings the last
/// missing chunk, and any after it, yields exactly the file. (The chunk count must fit
/// the 32-bit header field.)
pub proof fn law_transfer_any_order(data: Seq<u8>, order: Seq<int>)
    requires
        0 < data.len(),
        chunk_total(data.len()) < 0x1_0000_0000,
        forall|k: int| 0 <= k < order.len() ==> 0 <= #[trigger] order[k] < chunk_total(data.len()),
    ensures
        forall|j: int|
            0 <= j < order.len() ==> {
                let out = #[trigger] receive_spec(
                    receive_all(messages_in(data, order), j as nat),
                    messages_in(data, order)[j],
                ).1;
                if all_arrived(order, j + 1, chunk_total(data.len())) {
                    out == ChunkOutcome::Complete { index: order[j] as u32, file: data }
                } else {
                    out matches ChunkOutcome::Stored { index, have, total } && index == order[j]
                        && total == chunk_total(data.len()) && have < total
                }
            },
{
    assert forall|j: int| 0 <= j < order.len() implies {
        let out = #[trigger] receive_spec(
            receive_all(messages_in(data, order), j as nat),
            messages_in(data, order)[j],
        ).1;
        if all_arrived(order, j + 1, chunk_total(data.len())) {
            out == ChunkOutcome::Complete { index: order[j] as u32, file: data }
        } else {
            out matches ChunkOutcome::Stored { index, have, total } && index == order[j]
                && total == chunk_total(data.len()) && have < total
        }
    } by {
        lemma_receive_any_prefix(data, order, j);
        lemma_receive_any_step(data, order, j);
    }
}

} // verus!
