//! Bounded FIFO queues of frames between the capture or framing side and the worker side:
//! pushes fail when the queue is full or closed, pops take the oldest frame, and closing
//! lets the consumer drain what is left.
use vstd::prelude::*;

use std::collections::VecDeque;

verus! {

/// A bounded FIFO of frames that can be closed.
struct FrameQueue {
    capacity: usize,
    closed: bool,
    data: VecDeque<Vec<u8>>,
}

/// Why a push failed.
enum PushRefusal {
    Closed,
    Full,
}

impl FrameQueue {
    spec fn frames(&self) -> Seq<Seq<u8>> {
        self.data@.map_values(|f: Vec<u8>| f@)
    }

    fn new(capacity: usize) -> (q: Self)
        ensures
            q.frames() == Seq::<Seq<u8>>::empty(),
            q.capacity == capacity,
            !q.closed,
    {
        let q = FrameQueue { capacity, closed: false, data: VecDeque::with_capacity(capacity) };
        assert(q.frames() =~= Seq::<Seq<u8>>::empty());
        q
    }

    fn push(&mut self, frame: Vec<u8>) -> (r: Result<(), PushRefusal>)
        ensures
            final(self).capacity == old(self).capacity,
            final(self).closed == old(self).closed,
            old(self).closed ==> (r matches Err(PushRefusal::Closed)) && final(self).frames()
                == old(self).frames(),
            !old(self).closed && old(self).frames().len() >= old(self).capacity ==> (r matches Err(
                PushRefusal::Full,
            )) && final(self).frames() == old(self).frames(),
            !old(self).closed && old(self).frames().len() < old(self).capacity ==> r is Ok
                && final(self).frames() == old(self).frames().push(frame@),
    {
        if self.closed {
            return Err(PushRefusal::Closed);
        }
        if self.data.len() >= self.capacity {
            return Err(PushRefusal::Full);
        }
        let ghost before = self.frames();
        let ghost f = frame@;
        self.data.push_back(frame);
        assert(self.frames() =~= before.push(f));
        Ok(())
    }

    fn pop(&mut self) -> (r: Option<Vec<u8>>)
        ensures
            final(self).capacity == old(self).capacity,
            final(self).closed == old(self).closed,
            old(self).frames().len() == 0 ==> r is None && final(self).frames() == old(self).frames(),
            old(self).frames().len() > 0 ==> (r matches Some(f) && f@ == old(self).frames()[0])
                && final(self).frames() == old(self).frames().drop_first(),
    {
        let ghost before = self.frames();
        let r = self.data.pop_front();
        assert(self.frames() =~= if before.len() == 0 { before } else { before.drop_first() });
        r
    }
}

/// Why a frame could not be put into the receive queue.
#[derive(Debug, Clone, Copy, PartialEq, Eq)]
pub enum QueueError {
    /// The queue was closed.
    Closed,
    /// The queue holds as many frames as its capacity.
    Full,
}

/// The queue between the capture loop and the delivery worker.
pub struct RecvQueue {
    inner: FrameQueue,
}

impl View for RecvQueue {
    type V = Seq<Seq<u8>>;

    closed spec fn view(&self) -> Seq<Seq<u8>> {
        self.inner.frames()
    }
}

impl RecvQueue {
    /// The most frames the queue holds.
    pub closed spec fn capacity(&self) -> usize {
        self.inner.capacity
    }

    /// The queue still accepts frames.
    pub closed spec fn is_open(&self) -> bool {
        !self.inner.closed
    }

    /// An empty, open queue holding at most `capacity` frames.
    pub fn new(capacity: usize) -> (q: Self)
        ensures
            q@ == Seq::<Seq<u8>>::empty(),
            q.capacity() == capacity,
            q.is_open(),
    {
        RecvQueue { inner: FrameQueue::new(capacity) }
    }

    /// Appends a frame, unless the queue is closed or full.
    pub fn push(&mut self, frame: Vec<u8>) -> (r: Result<(), QueueError>)
        ensures
            final(self).capacity() == old(self).capacity(),
            final(self).is_open() == old(self).is_open(),
            !old(self).is_open() ==> r == Err::<(), QueueError>(QueueError::Closed) && final(self)@
                == old(self)@,
            old(self).is_open() && old(self)@.len() >= old(self).capacity() ==> r == Err::<
                (),
                QueueError,
            >(QueueError::Full) && final(self)@ == old(self)@,
            old(self).is_open() && old(self)@.len() < old(self).capacity() ==> r is Ok && final(self)@ == old(self)@.push(frame@),
    {
        match self.inner.push(frame) {
            Ok(()) => Ok(()),
            Err(PushRefusal::Closed) => Err(QueueError::Closed),
            Err(PushRefusal::Full) => Err(QueueError::Full),
        }
    }

    /// Takes the oldest frame without waiting: `None` at once when the queue is empty,
    /// open or closed. Waiting is the caller's: a consumer that finds the queue empty waits
    /// on a condition variable while the queue is open, and stops once it is
    /// closed.
    pub fn pop(&mut self) -> (r: Option<Vec<u8>>)
        ensures
            final(self).capacity() == old(self).capacity(),
            final(self).is_open() == old(self).is_open(),
            old(self)@.len() == 0 ==> r is None && final(self)@ == old(self)@,
            old(self)@.len() > 0 ==> (r matches Some(f) && f@ == old(self)@[0]) && final(self)@
                == old(self)@.drop_first(),
    {
        self.inner.pop()
    }

    /// Closes the queue: later pushes fail; queued frames can still be taken.
    pub fn close(&mut self)
        ensures
            final(self)@ == old(self)@,
            final(self).capacity() == old(self).capacity(),
            !final(self).is_open(),
    {
        self.inner.closed = true;
    }

    /// Whether the queue has been closed.
    pub fn is_closed(&self) -> (r: bool)
        ensures
            r == !self.is_open(),
    {
        self.inner.closed
    }

    /// The number of queued frames.
    pub fn len(&self) -> (r: usize)
        ensures
            r == self@.len(),
    {
        self.inner.data.len()
    }
}

/// Why a frame could not be put into the send queue.
#[derive(Debug, Clone, Copy, PartialEq, Eq)]
pub enum SendQueueError {
    /// The queue was closed.
    Closed,
    /// The queue holds as many frames as its capacity.
    Full,
}

/// The queue between framing and the send worker.
pub struct SendQueue {
    inner: FrameQueue,
}

impl View for SendQueue {
    type V = Seq<Seq<u8>>;

    closed spec fn view(&self) -> Seq<Seq<u8>> {
        self.inner.frames()
    }
}

impl SendQueue {
    /// The most frames the queue holds.
    pub closed spec fn capacity(&self) -> usize {
        self.inner.capacity
    }

    /// The queue still accepts frames.
    pub closed spec fn is_open(&self) -> bool {
        !self.inner.closed
    }

    /// An empty, open queue holding at most `capacity` frames.
    pub fn new(capacity: usize) -> (q: Self)
        ensures
            q@ == Seq::<Seq<u8>>::empty(),
            q.capacity() == capacity,
            q.is_open(),
    {
        SendQueue { inner: FrameQueue::new(capacity) }
    }

    /// Appends a frame, unless the queue is closed or full.
    pub fn push(&mut self, frame: Vec<u8>) -> (r: Result<(), SendQueueError>)
        ensures
            final(self).capacity() == old(self).capacity(),
            final(self).is_open() == old(self).is_open(),
            !old(self).is_open() ==> r == Err::<(), SendQueueError>(SendQueueError::Closed)
                && final(self)@ == old(self)@,
            old(self).is_open() && old(self)@.len() >= old(self).capacity() ==> r == Err::<
                (),
                SendQueueError,
            >(SendQueueError::Full) && final(self)@ == old(self)@,
            old(self).is_open() && old(self)@.len() < old(self).capacity() ==> r is Ok && final(self)@ == old(self)@.push(frame@),
    {
        match self.inner.push(frame) {
            Ok(()) => Ok(()),
            Err(PushRefusal::Closed) => Err(SendQueueError::Closed),
            Err(PushRefusal::Full) => Err(SendQueueError::Full),
        }
    }

    /// Takes the oldest frame without waiting: `None` at once when the queue is empty,
    /// open or closed. Waiting is the caller's: a consumer that finds the queue empty waits
    /// on a condition variable while the queue is open, and stops once it is
    /// closed.
    pub fn pop(&mut self) -> (r: Option<Vec<u8>>)
        ensures
            final(self).capacity() == old(self).capacity(),
            final(self).is_open() == old(self).is_open(),
            old(self)@.len() == 0 ==> r is None && final(self)@ == old(self)@,
            old(self)@.len() > 0 ==> (r matches Some(f) && f@ == old(self)@[0]) && final(self)@
                == old(self)@.drop_first(),
    {
        self.inner.pop()
    }

    /// Closes the queue: later pushes fail; queued frames can still be taken.
    pub fn close(&mut self)
        ensures
            final(self)@ == old(self)@,
            final(self).capacity() == old(self).capacity(),
            !final(self).is_open(),
    {
        self.inner.closed = true;
    }

    /// Whether the queue has been closed.
    pub fn is_closed(&self) -> (r: bool)
        ensures
            r == !self.is_open(),
    {
        self.inner.closed
    }

    /// The number of queued frames.
    pub fn len(&self) -> (r: usize)
        ensures
            r == self@.len(),
    {
        self.inner.data.len()
    }
}

/// One operation on a queue's frames, as `RecvQueue` and `SendQueue` state them: an
/// accepted push (`Some(frame)`) appends the frame and gives nothing back; a pop (`None`)
/// takes the oldest frame, or gives nothing back and changes nothing on an empty queue.
pub open spec fn queue_step(
    before: Seq<Seq<u8>>,
    op: Option<Seq<u8>>,
    out: Option<Seq<u8>>,
    after: Seq<Seq<u8>>,
) -> bool {
    match op {
        Some(f) => after == before.push(f) && out is None,
        None => if before.len() == 0 {
            out is None && after == before
        } else {
            out == Some(before[0]) && after == before.drop_first()
        },
    }
}

/// The frames pushed by the first `k` operations, in order.
pub open spec fn pushed_frames(ops: Seq<Option<Seq<u8>>>, k: nat) -> Seq<Seq<u8>>
    decreases k,
{
    if k == 0 || k > ops.len() {
        Seq::empty()
    } else {
        match ops[k - 1] {
            Some(f) => pushed_frames(ops, (k - 1) as nat).push(f),
            None => pushed_frames(ops, (k - 1) as nat),
        }
    }
}

/// The frames taken by the first `k` pops, in order.
pub open spec fn taken_frames(outs: Seq<Option<Seq<u8>>>, k: nat) -> Seq<Seq<u8>>
    decreases k,
{
    if k == 0 || k > outs.len() {
        Seq::empty()
    } else {
        match outs[k - 1] {
            Some(f) => taken_frames(outs, (k - 1) as nat).push(f),
            None => taken_frames(outs, (k - 1) as nat),
        }
    }
}

/// Law (first in, first out): starting from an empty queue, after any run of accepted
/// pushes and pops, the frames taken so far are the first frames pushed, in the order
/// they were pushed (none reordered, repeated, altered or lost), and the queue holds the
/// rest of the pushed frames in order. A pop gives nothing back exactly when every pushed
/// frame has been taken.
pub proof fn law_queue_fifo(
    ops: Seq<Option<Seq<u8>>>,
    outs: Seq<Option<Seq<u8>>>,
    views: Seq<Seq<Seq<u8>>>,
)
    requires
        outs.len() == ops.len(),
        views.len() == ops.len() + 1,
        views[0] == Seq::<Seq<u8>>::empty(),
        forall|i: int| 0 <= i < ops.len() ==> #[trigger] queue_step(views[i], ops[i], outs[i], views[i + 1]),
    ensures
        forall|k: nat|
            k <= ops.len() ==> {
                let p = #[trigger] pushed_frames(ops, k);
                let q = taken_frames(outs, k);
                &&& q.len() <= p.len()
                &&& q == p.take(q.len() as int)
                &&& views[k as int] == p.skip(q.len() as int)
            },
        forall|i: int|
            0 <= i < ops.len() && ops[i] is None ==> (outs[i] is None <==> taken_frames(
                outs,
                i as nat,
            ).len() == pushed_frames(ops, i as nat).len()),
{
    assert forall|k: nat| k <= ops.len() implies {
        let p = #[trigger] pushed_frames(ops, k);
        let q = taken_frames(outs, k);
        &&& q.len() <= p.len()
        &&& q == p.take(q.len() as int)
        &&& views[k as int] == p.skip(q.len() as int)
    } by {
        lemma_fifo_prefix(ops, outs, views, k);
    }
    assert forall|i: int| 0 <= i < ops.len() && ops[i] is None implies (outs[i] is None
        <==> taken_frames(outs, i as nat).len() == pushed_frames(ops, i as nat).len()) by {
        lemma_fifo_prefix(ops, outs, views, i as nat);
        assert(queue_step(views[i], ops[i], outs[i], views[i + 1]));
    }
}

proof fn lemma_fifo_prefix(
    ops: Seq<Option<Seq<u8>>>,
    outs: Seq<Option<Seq<u8>>>,
    views: Seq<Seq<Seq<u8>>>,
    k: nat,
)
    requires
        outs.len() == ops.len(),
        views.len() == ops.len() + 1,
        views[0] == Seq::<Seq<u8>>::empty(),
        forall|i: int| 0 <= i < ops.len() ==> #[trigger] queue_step(views[i], ops[i], outs[i], views[i + 1]),
        k <= ops.len(),
    ensures
        ({
            let p = pushed_frames(ops, k);
            let q = taken_frames(outs, k);
            &&& q.len() <= p.len()
            &&& q == p.take(q.len() as int)
            &&& views[k as int] == p.skip(q.len() as int)
        }),
    decreases k,
{
    if k == 0 {
        assert(pushed_frames(ops, 0).skip(0) =~= Seq::<Seq<u8>>::empty());
        assert(pushed_frames(ops, 0).take(0) =~= Seq::<Seq<u8>>::empty());
    } else {
        let i = (k - 1) as nat;
        lemma_fifo_prefix(ops, outs, views, i);
        assert(queue_step(views[i as int], ops[i as int], outs[i as int], views[i as int + 1]));
        assert(views[i as int + 1] == views[k as int]);
        let p = pushed_frames(ops, i);
        let q = taken_frames(outs, i);
        let p2 = pushed_frames(ops, k);
        let q2 = taken_frames(outs, k);
        match ops[i as int] {
            Some(f) => {
                assert(p2 == p.push(f));
                assert(q2 == q);
                assert(q2 =~= p2.take(q2.len() as int));
                assert(views[k as int] =~= p2.skip(q2.len() as int));
            },
            None => {
                assert(p2 == p);
                if views[i as int].len() == 0 {
                    assert(q2 == q);
                } else {
                    assert(q2 == q.push(views[i as int][0]));
                    assert(q2 =~= p2.take(q2.len() as int));
                    assert(views[k as int] =~= p2.skip(q2.len() as int));
                }
            },
        }
    }
}

} // verus!
