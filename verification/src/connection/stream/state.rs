//! The streams of a connection: which are open, their state in each
//! direction, and which have data waiting to be sent.
use std::collections::{HashMap, HashSet};

use vstd::prelude::*;

use crate::common::{Dir, Side, StreamId, spec_stream_id};
use crate::connection::Event;
use crate::connection::space::{Retransmits, ThinRetransmits};
use crate::error::{TransportError, TransportErrorCode};
use crate::frame::{ResetStream, StopSending, Stream, StreamMeta};
use crate::buf::bytes_view;
use crate::varint::{VARINT_MAX, lemma_varint_len};

use super::recv::{Recv, RecvState, ingest_effect, reset_effect};
use super::send::{Send, SendState};

verus! {

#[derive(Debug, Copy, Clone, PartialEq, Eq, Structural)]
pub enum StreamEvent {
    /// A stream likely has data or errors waiting to be read
    Readable(StreamId),
    /// A finished stream has been fully acknowledged or stopped
    Finished(StreamId),
    /// The peer asked us to stop sending on an outgoing stream
    Stopped {
        /// Which stream has been stopped
        id: StreamId,
        /// Error code supplied by the peer
        error_code: u64,
    },
}

/// The [`StreamId`] of a stream with pending data queued, ordered by its
/// priority and recency
#[derive(Debug, Copy, Clone, PartialEq, Eq, Structural)]
pub struct PendingStream {
    /// The priority of the stream
    pub priority: i32,
    /// A tie-breaker for streams of the same priority, used to improve fairness
    /// by implementing round-robin scheduling: Larger values are prioritized,
    /// so it is initialised to `u64::MAX`, and when a stream writes data, we
    /// know that it currently has the highest recency value, so it is
    /// deprioritized by setting its recency to 1 less than the previous lowest
    /// recency value, such that all other streams of this priority will get
    /// processed once before we get back round to this one
    pub recency: u64,
    /// The ID of the stream
    pub id: StreamId,
}

/// Whether `a` comes at or before `b` in the order of priority, then
/// recency, then ID.
pub open spec fn pending_le(a: PendingStream, b: PendingStream) -> bool {
    a.priority < b.priority || (a.priority == b.priority && (a.recency < b.recency || (a.recency
        == b.recency && a.id.0 <= b.id.0)))
}

/// Whether `a` comes strictly after `b` in that order.
fn pending_greater(a: &PendingStream, b: &PendingStream) -> (r: bool)
    ensures
        r == !pending_le(*a, *b),
{
    if a.priority != b.priority {
        a.priority > b.priority
    } else if a.recency != b.recency {
        a.recency > b.recency
    } else {
        a.id.0 > b.id.0
    }
}

/// A queue of streams with pending outgoing data, sorted by priority
pub struct PendingStreamsQueue {
    streams: Vec<PendingStream>,
    /// The next stream to write out. This is `Some` when writing a stream is
    /// interrupted while the stream still has some pending data.
    next: Option<PendingStream>,
    /// A monotonically decreasing counter, used to implement round-robin
    /// scheduling for streams of the same priority.
    recency: u64,
}

impl PendingStreamsQueue {
    /// The queued streams, in no order.
    pub closed spec fn queued(&self) -> Seq<PendingStream> {
        self.streams@
    }

    /// The stream put back to be written out first, if any.
    pub closed spec fn spec_next(&self) -> Option<PendingStream> {
        self.next
    }

    /// The recency the next pushed stream gets, plus one.
    pub closed spec fn spec_recency(&self) -> u64 {
        self.recency
    }

    /// The recency the next pushed stream gets, plus one.
    pub fn recency(&self) -> (r: u64)
        ensures
            r == self.spec_recency(),
    {
        self.recency
    }

    /// All the streams: the one put back first, then the queued ones.
    pub open spec fn all(&self) -> Seq<PendingStream> {
        match self.spec_next() {
            Some(p) => seq![p] + self.queued(),
            None => self.queued(),
        }
    }

    /// Every queued stream got a recency no lower than the next one to be
    /// pushed: streams pushed later have lower recencies.
    pub open spec fn fair(&self) -> bool {
        forall|j: int| 0 <= j < self.queued().len() ==> #[trigger] self.queued()[j].recency >= self.spec_recency()
    }

    /// What `pop` does: the stream put back, if any, else a queued stream
    /// that no other queued stream comes after in the order of priority,
    /// recency and ID, which leaves the queue; nothing if the queue is empty.
    pub open spec fn pop_effect(old: PendingStreamsQueue, new: PendingStreamsQueue, r: Option<PendingStream>) -> bool {
        &&& new.spec_recency() == old.spec_recency()
        &&& new.spec_next() is None
        &&& match old.spec_next() {
            Some(p) => r == Some(p) && new.queued() == old.queued(),
            None => if old.queued().len() == 0 {
                r is None && new.queued() == old.queued()
            } else {
                exists|i: int|
                    #![trigger old.queued()[i]]
                    0 <= i < old.queued().len() && r == Some(old.queued()[i]) && new.queued()
                        == old.queued().remove(i) && forall|j: int|
                        #![trigger old.queued()[j]]
                        0 <= j < old.queued().len() ==> pending_le(old.queued()[j], old.queued()[i])
            },
        }
    }

    /// What `push_pending` does: the stream is queued with a recency one
    /// below the counter, which moves down to it.
    pub open spec fn push_effect(old: PendingStreamsQueue, new: PendingStreamsQueue, id: StreamId, priority: i32) -> bool {
        &&& new.spec_recency() == old.spec_recency() - 1
        &&& new.queued() == old.queued().push(PendingStream { priority, recency: new.spec_recency(), id })
        &&& new.spec_next() == old.spec_next()
    }

    pub fn new() -> (r: Self)
        ensures
            r.queued().len() == 0,
            r.spec_next() is None,
            r.spec_recency() == u64::MAX,
            r.fair(),
    {
        PendingStreamsQueue { streams: Vec::new(), next: None, recency: u64::MAX }
    }

    /// Reinsert a stream that was pending and still contains unsent data.
    pub fn reinsert_pending(&mut self, id: StreamId, priority: i32)
        requires
            old(self).spec_next() is None,
        ensures
            final(self).spec_next() == Some(
                PendingStream { priority, recency: old(self).spec_recency(), id },
            ),
            final(self).queued() == old(self).queued(),
            final(self).spec_recency() == old(self).spec_recency(),
    {
        self.next = Some(PendingStream { priority, recency: self.recency, id });
    }

    /// Push a pending stream ID with the given priority, queued after any
    /// already-queued streams for the priority
    pub fn push_pending(&mut self, id: StreamId, priority: i32)
        requires
            old(self).spec_recency() > 0,
        ensures
            final(self).spec_recency() == old(self).spec_recency() - 1,
            final(self).queued() == old(self).queued().push(
                PendingStream { priority, recency: final(self).spec_recency(), id },
            ),
            final(self).spec_next() == old(self).spec_next(),
            old(self).fair() ==> final(self).fair(),
            Self::push_effect(*old(self), *final(self), id, priority),
    {
        // As the recency counter is monotonically decreasing, we know that using its
        // value to sort this stream will queue it after all other queued streams of the
        // same priority.
        let ghost q0 = self.streams@;
        self.recency = self.recency - 1;
        self.streams.push(PendingStream { priority, recency: self.recency, id });
        proof {
            if old(self).fair() {
                assert forall|j: int| 0 <= j < self.queued().len() implies #[trigger] self.queued()[j].recency
                    >= self.spec_recency() by {
                    if j < q0.len() {
                        assert(self.queued()[j] == old(self).queued()[j]);
                    }
                }
            }
        }
    }

    /// Takes the stream put back, if any, else the queued stream that comes
    /// last in the order of priority, recency and ID.
    pub fn pop(&mut self) -> (r: Option<PendingStream>)
        ensures
            Self::pop_effect(*old(self), *final(self), r),
            old(self).fair() ==> final(self).fair(),
            old(self).spec_next() is None ==> (r matches Some(x) ==> forall|j: int|
                0 <= j < old(self).queued().len() ==> (#[trigger] old(self).queued()[j]).priority
                    <= x.priority && (old(self).queued()[j].priority == x.priority ==> old(
                    self,
                ).queued()[j].recency <= x.recency)),
    {
        if let Some(p) = self.next {
            self.next = None;
            return Some(p);
        }
        let n = self.streams.len();
        if n == 0 {
            return None;
        }
        let mut best: usize = 0;
        let mut i: usize = 1;
        while i < n
            invariant
                n == self.streams@.len(),
                self.streams@ == old(self).streams@,
                0 <= best < i <= n,
                forall|j: int|
                    #![trigger self.streams@[j]]
                    0 <= j < i ==> pending_le(self.streams@[j], self.streams@[best as int]),
            decreases n - i,
        {
            if pending_greater(&self.streams[i], &self.streams[best]) {
                best = i;
            }
            i += 1;
        }
        let p = self.streams.remove(best);
        Some(p)
    }

    /// The streams, the one put back first, then the queued ones.
    pub fn iter(&self) -> (r: Vec<PendingStream>)
        ensures
            r@ == self.all(),
    {
        let mut out: Vec<PendingStream> = Vec::new();
        if let Some(p) = self.next {
            out.push(p);
        }
        let ghost start = out@;
        let mut i: usize = 0;
        while i < self.streams.len()
            invariant
                i <= self.streams@.len(),
                out@ == start + self.streams@.take(i as int),
            decreases self.streams@.len() - i,
        {
            out.push(self.streams[i]);
            i += 1;
            assert(self.streams@.take(i as int) == self.streams@.take(i - 1) + seq![
                self.streams@[i - 1],
            ]);
        }
        assert(self.streams@.take(i as int) == self.streams@);
        out
    }
}


/// Round robin among streams of one priority: a stream pushed onto the
/// queue goes after every stream already queued with its priority, so the
/// next pop takes it only when every other queued stream has a lower
/// priority.
pub proof fn lemma_push_then_pop(
    q0: PendingStreamsQueue,
    q1: PendingStreamsQueue,
    q2: PendingStreamsQueue,
    id: StreamId,
    priority: i32,
    r: Option<PendingStream>,
)
    requires
        q0.fair(),
        q0.spec_next() is None,
        PendingStreamsQueue::push_effect(q0, q1, id, priority),
        PendingStreamsQueue::pop_effect(q1, q2, r),
    ensures
        r == Some(PendingStream { priority, recency: q1.spec_recency(), id }) ==> forall|j: int|
            0 <= j < q0.queued().len() ==> (#[trigger] q0.queued()[j]).priority < priority,
{
    let x = PendingStream { priority, recency: q1.spec_recency(), id };
    if r == Some(x) {
        let i = choose|i: int|
            #![trigger q1.queued()[i]]
            0 <= i < q1.queued().len() && r == Some(q1.queued()[i]) && q2.queued() == q1.queued().remove(i)
                && forall|j: int|
                #![trigger q1.queued()[j]]
                0 <= j < q1.queued().len() ==> pending_le(q1.queued()[j], q1.queued()[i]);
        assert forall|j: int| 0 <= j < q0.queued().len() implies (#[trigger] q0.queued()[j]).priority
            < priority by {
            assert(q1.queued()[j] == q0.queued()[j]);
            assert(pending_le(q1.queued()[j], q1.queued()[i]));
        }
    }
}

/// Of two streams pushed one after the other with the same priority, the
/// one pushed later is not the next popped: the earlier one still comes
/// after it in the queue's order.
pub proof fn lemma_earlier_push_first(
    q0: PendingStreamsQueue,
    q1: PendingStreamsQueue,
    q2: PendingStreamsQueue,
    q3: PendingStreamsQueue,
    a: StreamId,
    b: StreamId,
    priority: i32,
    r: Option<PendingStream>,
)
    requires
        q0.spec_next() is None,
        PendingStreamsQueue::push_effect(q0, q1, a, priority),
        PendingStreamsQueue::push_effect(q1, q2, b, priority),
        PendingStreamsQueue::pop_effect(q2, q3, r),
    ensures
        r != Some(PendingStream { priority, recency: q2.spec_recency(), id: b }),
        r is Some,
{
    let n = q0.queued().len() as int;
    assert(q2.queued()[n] == PendingStream { priority, recency: q1.spec_recency(), id: a });
    if r == Some(PendingStream { priority, recency: q2.spec_recency(), id: b }) {
        let i = choose|i: int|
            #![trigger q2.queued()[i]]
            0 <= i < q2.queued().len() && r == Some(q2.queued()[i]) && q3.queued() == q2.queued().remove(i)
                && forall|j: int|
                #![trigger q2.queued()[j]]
                0 <= j < q2.queued().len() ==> pending_le(q2.queued()[j], q2.queued()[i]);
        assert(pending_le(q2.queued()[n], q2.queued()[i]));
    }
}

/// Streams that were reset, or whose sending half is gone, never make the
/// data space sendable: with every pending stream in that state there is
/// no stream data to send.
pub proof fn lemma_reset_streams_send_nothing(st: StreamsState)
    requires
        forall|i: int|
            0 <= i < st.pending.all().len() ==> !st.send@.contains_key(
                (#[trigger] st.pending.all()[i]).id.0,
            ) || st.send@[st.pending.all()[i].id.0].state == SendState::ResetSent,
    ensures
        !st.spec_can_send_stream_data(),
{
    assert forall|i: int| 0 <= i < st.pending.all().len() implies !(#[trigger] st.sendable(
        st.pending.all()[i],
    )) by {
        assert(st.pending.all()[i] == st.pending.all()[i]);
    }
}

/// The last `a` items of `v`, the last first: the items `pop` gives.
pub open spec fn popped<T>(v: Seq<T>, a: nat) -> Seq<T>
    decreases a,
{
    if a == 0 {
        Seq::empty()
    } else {
        popped(v, (a - 1) as nat).push(v[v.len() - a])
    }
}

/// The RESET_STREAM frame written for a queued reset of stream `id` with
/// `code`, if the stream still has a sending half.
pub open spec fn reset_frame(entry: (StreamId, u64), send: Map<u64, Send>) -> Seq<u8> {
    if send.contains_key(entry.0.0) {
        ResetStream {
            id: entry.0,
            error_code: entry.1,
            final_offset: send[entry.0.0].pending.spec_offset(),
        }.spec_encoding()
    } else {
        Seq::empty()
    }
}

/// The RESET_STREAM frames written for the queued resets `entries`, in
/// order.
pub open spec fn reset_frames(entries: Seq<(StreamId, u64)>, send: Map<u64, Send>) -> Seq<u8>
    decreases entries.len(),
{
    if entries.len() == 0 {
        Seq::empty()
    } else {
        reset_frames(entries.drop_last(), send) + reset_frame(entries.last(), send)
    }
}

/// The queued resets whose stream still has a sending half.
pub open spec fn resets_sent(entries: Seq<(StreamId, u64)>, send: Map<u64, Send>) -> Seq<(StreamId, u64)>
    decreases entries.len(),
{
    if entries.len() == 0 {
        Seq::empty()
    } else if send.contains_key(entries.last().0.0) {
        resets_sent(entries.drop_last(), send).push(entries.last())
    } else {
        resets_sent(entries.drop_last(), send)
    }
}

/// The STOP_SENDING frames written for `entries`, in order.
pub open spec fn stop_frames(entries: Seq<StopSending>) -> Seq<u8>
    decreases entries.len(),
{
    if entries.len() == 0 {
        Seq::empty()
    } else {
        stop_frames(entries.drop_last()) + entries.last().spec_encoding()
    }
}

/// The retransmission queue `x` holds the frames of `base` (an empty
/// queue when there was none) followed by `resets` and `stops`.
pub open spec fn records(
    x: Retransmits,
    base: Option<Retransmits>,
    resets: Seq<(StreamId, u64)>,
    stops: Seq<StopSending>,
) -> bool {
    match base {
        Some(b) => {
            &&& x.reset_stream@ == b.reset_stream@ + resets
            &&& x.stop_sending@ == b.stop_sending@ + stops
            &&& x.hello == b.hello
            &&& x.ack_frequency == b.ack_frequency
            &&& x.handshake_done == b.handshake_done
        },
        None => {
            &&& x.reset_stream@ == resets
            &&& x.stop_sending@ == stops
            &&& !x.hello
            &&& !x.ack_frequency
            &&& !x.handshake_done
        },
    }
}

pub struct StreamsState {
    pub side: Side,
    /// The sending halves, by stream ID
    pub send: HashMap<u64, Send>,
    /// The receiving halves, by stream ID
    pub recv: HashMap<u64, Recv>,
    /// The index of the next stream to open, bidirectional then
    /// unidirectional
    pub next: [u64; 2],
    /// Streams with outgoing data queued, sorted by priority
    pub pending: PendingStreamsQueue,
    /// Events for the application, oldest first
    pub events: Vec<Event>,
    /// The streams whose reset was reported to the application: their
    /// receiving halves are gone for good, and frames for them are ignored
    pub forgotten: HashSet<u64>,
}

/// Whether a STREAM frame for `id` opens the sending half of a stream the
/// peer opened: a bidirectional stream of the peer's, seen for the first
/// time.
pub open spec fn opens_send(a: StreamsState, id: StreamId) -> bool {
    &&& id.spec_initiator() != a.side
    &&& id.spec_dir() == Dir::Bi
    &&& !a.recv@.contains_key(id.0)
    &&& !a.send@.contains_key(id.0)
    &&& !a.forgotten@.contains(id.0)
}

/// A sending half that was just opened.
pub open spec fn send_is_fresh(s: Send) -> bool {
    &&& s.pending.wf()
    &&& s.state == SendState::Ready
    &&& s.pending.unacked() == Seq::<u8>::empty()
    &&& s.pending.spec_offset() == 0
    &&& s.pending.spec_unsent() == 0
    &&& s.pending.lost().len() == 0
    &&& s.priority == 0
    &&& s.fin_pending == false
    &&& s.stop_reason is None
}

/// A receiving half that was just opened.
pub open spec fn recv_is_fresh(r: Recv) -> bool {
    &&& r.wf()
    &&& r.state == (RecvState::Recv { size: None })
    &&& r.assembler.segments().len() == 0
    &&& r.assembler.spec_bytes_read() == 0
    &&& r.assembler.spec_buffered() == 0
    &&& r.assembler.spec_allocated() == 0
    &&& r.end == 0
    &&& r.stopped == false
}

/// A RESET_STREAM frame takes at most `ResetStream::SIZE_BOUND` bytes.
proof fn lemma_reset_frame_len(f: ResetStream)
    ensures
        f.spec_encoding().len() <= ResetStream::SIZE_BOUND,
{
    lemma_varint_len(0x04);
    lemma_varint_len(f.id.0);
    lemma_varint_len(f.error_code);
    lemma_varint_len(f.final_offset);
}

/// A STOP_SENDING frame takes at most `StopSending::SIZE_BOUND` bytes.
proof fn lemma_stop_frame_len(f: StopSending)
    ensures
        f.spec_encoding().len() <= StopSending::SIZE_BOUND,
{
    lemma_varint_len(0x05);
    lemma_varint_len(f.id.0);
    lemma_varint_len(f.error_code);
}

impl StreamsState {
    /// Each half is well formed.
    pub open spec fn wf(&self) -> bool {
        &&& forall|k: u64| #[trigger] self.send@.contains_key(k) ==> self.send@[k].pending.wf()
        &&& forall|k: u64| #[trigger] self.recv@.contains_key(k) ==> self.recv@[k].wf()
    }

    /// No streams, and none opened yet.
    pub fn new(side: Side) -> (r: Self)
        ensures
            r.wf(),
            r.side == side,
            r.send@ == Map::<u64, Send>::empty(),
            r.recv@ == Map::<u64, Recv>::empty(),
            r.next@ == seq![0u64, 0u64],
            r.pending.queued().len() == 0,
            r.pending.spec_next() is None,
            r.pending.spec_recency() == u64::MAX,
            r.events@.len() == 0,
            r.forgotten@ == Set::<u64>::empty(),
    {
        let r = StreamsState {
            side,
            send: HashMap::new(),
            recv: HashMap::new(),
            next: [0, 0],
            pending: PendingStreamsQueue::new(),
            events: Vec::new(),
            forgotten: HashSet::new(),
        };
        assert(r.next@ =~= seq![0u64, 0u64]);
        r
    }

    /// Queues an event for the application.
    pub fn send_event(&mut self, event: StreamEvent)
        ensures
            final(self).events@ == old(self).events@.push(Event::Stream(event)),
            final(self).side == old(self).side,
            final(self).send@ == old(self).send@,
            final(self).recv@ == old(self).recv@,
            final(self).next == old(self).next,
            final(self).pending == old(self).pending,
            final(self).forgotten == old(self).forgotten,
    {
        self.events.push(Event::Stream(event));
    }


    /// The reason the peer may not send on `id`, if it may not: a
    /// unidirectional stream this side opened, or a bidirectional one this
    /// side has not opened yet.
    pub open spec fn receive_id_error(&self, id: StreamId) -> Option<Seq<char>> {
        if self.side == id.spec_initiator() {
            if id.spec_dir() == Dir::Uni {
                Some("illegal operation on send-only stream"@)
            } else if id.spec_index() >= self.next@[0] {
                Some("operation on unopened stream"@)
            } else {
                None
            }
        } else {
            None
        }
    }

    /// Check for errors entailed by the peer's use of `id` as a send stream
    pub fn validate_receive_id(&self, id: StreamId) -> (r: Result<(), TransportError>)
        ensures
            match self.receive_id_error(id) {
                Some(reason) => r matches Err(e) && e.code == TransportErrorCode::STREAM_STATE_ERROR()
                    && e.frame is None && e.reason@ == reason,
                None => r is Ok,
            },
    {
        if self.side == id.initiator() {
            match id.dir() {
                Dir::Uni => {
                    return Err(
                        TransportError::STREAM_STATE_ERROR("illegal operation on send-only stream"),
                    );
                },
                Dir::Bi => {
                    if id.index() >= self.next[0] {
                        return Err(TransportError::STREAM_STATE_ERROR("operation on unopened stream"));
                    }
                },
            }
        }
        Ok(())
    }

    /// Whether `Recv::ingest` can take `frame` on the receiving half `rs`.
    pub open spec fn ingest_ok(rs: Recv, frame: Stream, payload_len: usize) -> bool {
        !rs.stopped ==> {
            &&& rs.assembler.spec_buffered() + bytes_view(frame.data).len() <= usize::MAX
            &&& rs.assembler.spec_allocated() + payload_len <= usize::MAX
        }
    }

    /// What `received` does to the receiving half `rs0` found (or made) for
    /// the frame's stream.
    pub open spec fn received_effect(
        rs0: Recv,
        old: StreamsState,
        new: StreamsState,
        frame: Stream,
        r: Result<(), TransportError>,
    ) -> bool {
        let id = frame.id.0;
        if !(rs0.state is Recv) {
            r is Ok && new.recv@ == old.recv@.insert(id, rs0) && new.events == old.events
        } else {
            exists|rs1: Recv, ir: Result<(u64, bool), TransportError>|
                #![trigger ingest_effect(rs0, rs1, frame, ir)]
                ingest_effect(rs0, rs1, frame, ir) && rs1.wf() && match ir {
                    Err(e) => r == Err::<(), TransportError>(e) && new.recv@ == old.recv@.insert(
                        id,
                        rs0,
                    ) && new.events == old.events,
                    Ok((_, closed)) => r is Ok && if !rs1.stopped {
                        new.recv@ == old.recv@.insert(id, rs1) && new.events@ == old.events@.push(
                            Event::Stream(StreamEvent::Readable(frame.id)),
                        )
                    } else if closed {
                        new.recv@ == old.recv@.remove(id) && new.events == old.events
                    } else {
                        new.recv@ == old.recv@.insert(id, rs1) && new.events == old.events
                    },
                }
        }
    }

    /// What `received` does to the streams `a` for the STREAM frame `frame`, giving `b` and `r`.
    pub open spec fn received_outcome(a: StreamsState, b: StreamsState, frame: Stream, r: Result<(), TransportError>) -> bool {
        &&& b.side == a.side
        &&& b.next == a.next
        &&& b.pending == a.pending
        &&& b.forgotten@ == a.forgotten@
        &&& match a.receive_id_error(frame.id) {
                    Some(reason) => r matches Err(e) && e.code == TransportErrorCode::STREAM_STATE_ERROR()
                        && e.frame is None && e.reason@ == reason && b.recv@ == a.recv@ && b.events == a.events
                        && b.send@ == a.send@,
                    None => (if opens_send(a, frame.id) {
                        exists|s: Send| send_is_fresh(s) && b.send@ == #[trigger] a.send@.insert(frame.id.0, s)
                    } else {
                        b.send@ == a.send@
                    }) && if a.forgotten@.contains(frame.id.0) {
                        r is Ok && b.recv@ == a.recv@ && b.events == a.events
                    } else if a.recv@.contains_key(frame.id.0) {
                        Self::received_effect(
                            a.recv@[frame.id.0],
                            a,
                            b,
                            frame,
                            r,
                        )
                    } else {
                        exists|rs0: Recv|
                            recv_is_fresh(rs0) && #[trigger] Self::received_effect(
                                rs0,
                                a,
                                b,
                                frame,
                                r,
                            )
                    }
        }
    }

    /// What `received` needs of the STREAM frame `frame`, read from a
    /// payload of `payload_len` bytes: its end fits in 64 bits, its data in
    /// the payload, and its stream, if it has one here, can take it.
    pub open spec fn received_safe(a: StreamsState, frame: Stream, payload_len: usize) -> bool {
        &&& frame.offset + bytes_view(frame.data).len() <= u64::MAX
        &&& bytes_view(frame.data).len() <= payload_len
        &&& a.recv@.contains_key(frame.id.0) ==> Self::ingest_ok(a.recv@[frame.id.0], frame, payload_len)
    }

    /// Process incoming stream frame
    pub fn received(&mut self, frame: Stream, payload_len: usize) -> (r: Result<(), TransportError>)
        requires
            old(self).wf(),
            Self::received_safe(*old(self), frame, payload_len),
        ensures
            final(self).wf(),
            Self::received_outcome(*old(self), *final(self), frame, r),
    {
        let id = frame.id;
        let ghost fr = frame;
        self.validate_receive_id(id)?;
        if self.forgotten.contains(&id.0) {
            // Frames for a stream whose reset was reported are ignored.
            return Ok(());
        }
        if id.initiator() != self.side && id.dir() == Dir::Bi && !self.recv.contains_key(&id.0)
            && !self.send.contains_key(&id.0) {
            // The peer opened a bidirectional stream: its sending half opens
            // with it.
            let fresh = Send::new();
            self.send.insert(id.0, fresh);
        }
        let ghost a1 = *self;
        let mut rs = match self.recv.remove(&id.0) {
            Some(x) => x,
            None => Recv::new(),
        };
        let ghost rs0 = rs;
        let ghost removed = self.recv@;
        if !rs.is_receiving() {
            self.recv.insert(id.0, rs);
            assert(self.recv@ =~= old(self).recv@.insert(id.0, rs0));
            return Ok(());
        }
        let res = rs.ingest(frame, payload_len);
        match res {
            Err(e) => {
                self.recv.insert(id.0, rs);
                assert(self.recv@ =~= old(self).recv@.insert(id.0, rs0));
                assert(Self::received_effect(rs0, *old(self), *self, fr, Err(e)));
                Err(e)
            },
            Ok((n, closed)) => {
                let ghost rs1 = rs;
                if !rs.stopped {
                    self.recv.insert(id.0, rs);
                    assert(self.recv@ =~= old(self).recv@.insert(id.0, rs1));
                    self.send_event(StreamEvent::Readable(id));
                    assert(ingest_effect(rs0, rs1, fr, Ok((n, closed))));
                    assert(fr.id == id);
                    assert(Self::received_effect(rs0, *old(self), *self, fr, Ok(())));
                    return Ok(());
                }
                if !closed {
                    self.recv.insert(id.0, rs);
                    assert(self.recv@ =~= old(self).recv@.insert(id.0, rs1));
                } else {
                    assert(self.recv@ =~= old(self).recv@.remove(id.0));
                }
                assert(ingest_effect(rs0, rs1, fr, Ok((n, closed))));
                Ok(())
            },
        }
    }


    /// What `received_reset` does to the receiving half `rs0` found (or
    /// made) for the frame's stream.
    pub open spec fn received_reset_effect(
        rs0: Recv,
        old: StreamsState,
        new: StreamsState,
        frame: ResetStream,
        r: Result<(), TransportError>,
    ) -> bool {
        let id = frame.id.0;
        exists|rs1: Recv, rr: Result<bool, TransportError>|
            #![trigger reset_effect(rs0, rs1, frame.error_code, frame.final_offset, rr)]
            reset_effect(rs0, rs1, frame.error_code, frame.final_offset, rr) && rs1.wf() && match rr {
                Err(e) => r == Err::<(), TransportError>(e) && new.recv@ == old.recv@.insert(id, rs0)
                    && new.events == old.events,
                Ok(false) => r is Ok && new.recv@ == old.recv@.insert(id, rs1) && new.events
                    == old.events,
                Ok(true) => r is Ok && if rs1.stopped {
                    new.recv@ == old.recv@.remove(id) && new.events == old.events
                } else {
                    new.recv@ == old.recv@.insert(id, rs1) && new.events@ == old.events@.push(
                        Event::Stream(StreamEvent::Readable(frame.id)),
                    )
                },
            }
    }

    /// What `received_reset` does to the streams `a` for the RESET_STREAM frame `frame`, giving `b` and `r`.
    pub open spec fn reset_outcome(a: StreamsState, b: StreamsState, frame: ResetStream, r: Result<(), TransportError>) -> bool {
        &&& b.side == a.side
        &&& b.send@ == a.send@
        &&& b.next == a.next
        &&& b.pending == a.pending
        &&& b.forgotten@ == a.forgotten@
        &&& match a.receive_id_error(frame.id) {
                    Some(reason) => r matches Err(e) && e.code == TransportErrorCode::STREAM_STATE_ERROR()
                        && e.frame is None && e.reason@ == reason && b.recv@ == a.recv@ && b.events == a.events,
                    None => if a.forgotten@.contains(frame.id.0) {
                        r is Ok && b.recv@ == a.recv@ && b.events == a.events
                    } else if a.recv@.contains_key(frame.id.0) {
                        Self::received_reset_effect(
                            a.recv@[frame.id.0],
                            a,
                            b,
                            frame,
                            r,
                        )
                    } else {
                        exists|rs0: Recv|
                            recv_is_fresh(rs0) && #[trigger] Self::received_reset_effect(
                                rs0,
                                a,
                                b,
                                frame,
                                r,
                            )
                    }
        }
    }

    /// Process incoming RESET_STREAM frame
    pub fn received_reset(&mut self, frame: ResetStream) -> (r: Result<(), TransportError>)
        requires
            old(self).wf(),
        ensures
            final(self).wf(),
            Self::reset_outcome(*old(self), *final(self), frame, r),
    {
        let id = frame.id;
        self.validate_receive_id(id)?;
        if self.forgotten.contains(&id.0) {
            // A reset already reported is not reported again.
            return Ok(());
        }
        let mut rs = match self.recv.remove(&id.0) {
            Some(x) => x,
            None => Recv::new(),
        };
        let ghost rs0 = rs;
        // State transition
        let res = rs.reset(frame.error_code, frame.final_offset);
        let ghost rs1 = rs;
        match res {
            Err(e) => {
                self.recv.insert(id.0, rs);
                assert(self.recv@ =~= old(self).recv@.insert(id.0, rs0));
                assert(reset_effect(rs0, rs1, frame.error_code, frame.final_offset, Err(e)));
                Err(e)
            },
            Ok(false) => {
                // Redundant reset
                self.recv.insert(id.0, rs);
                assert(self.recv@ =~= old(self).recv@.insert(id.0, rs1));
                assert(reset_effect(rs0, rs1, frame.error_code, frame.final_offset, Ok(false)));
                Ok(())
            },
            Ok(true) => {
                assert(reset_effect(rs0, rs1, frame.error_code, frame.final_offset, Ok(true)));
                if rs.stopped {
                    // Stopped streams should be disposed immediately on reset
                    assert(self.recv@ =~= old(self).recv@.remove(id.0));
                } else {
                    self.recv.insert(id.0, rs);
                    assert(self.recv@ =~= old(self).recv@.insert(id.0, rs1));
                    self.send_event(StreamEvent::Readable(id));
                    assert(Self::received_reset_effect(rs0, *old(self), *self, frame, Ok(())));
                }
                Ok(())
            },
        }
    }

    /// What `received_stop_sending` does to the streams `a` for the STOP_SENDING frame `frame`, giving `b` and `r`.
    pub open spec fn stop_outcome(a: StreamsState, b: StreamsState, frame: StopSending, r: Result<(), TransportError>) -> bool {
        &&& b.side == a.side
        &&& b.recv@ == a.recv@
        &&& b.next == a.next
        &&& b.pending == a.pending
        &&& ({
                    let id = frame.id;
                    if id.spec_initiator() != a.side && id.spec_dir() == Dir::Uni {
                        &&& r matches Err(e) && e.code == TransportErrorCode::STREAM_STATE_ERROR()
                            && e.frame is None && e.reason@ == "STOP_SENDING on recv-only stream"@
                        &&& b.send@ == a.send@
                        &&& b.events == a.events
                    } else if id.spec_initiator() == a.side && id.spec_index() >= a.next@[id.spec_dir().spec_bit() as int] {
                        &&& r matches Err(e) && e.code == TransportErrorCode::STREAM_STATE_ERROR()
                            && e.frame is None && e.reason@ == "STOP_SENDING on unopened stream"@
                        &&& b.send@ == a.send@
                        &&& b.events == a.events
                    } else if !a.send@.contains_key(id.0) {
                        &&& r is Ok
                        &&& b.send@ == a.send@
                        &&& b.events@ == a.events@.push(
                            Event::Stream(StreamEvent::Stopped { id, error_code: frame.error_code }),
                        )
                    } else if a.send@[id.0].stop_reason is None {
                        &&& r is Ok
                        &&& b.send@ == a.send@.insert(
                            id.0,
                            Send { stop_reason: Some(frame.error_code), ..a.send@[id.0] },
                        )
                        &&& b.events@ == a.events@.push(
                            Event::Stream(StreamEvent::Stopped { id, error_code: frame.error_code }),
                        )
                    } else {
                        &&& r is Ok
                        &&& b.send@ == a.send@
                        &&& b.events == a.events
                    }
        })
    }

    /// Process incoming `STOP_SENDING` frame
    pub fn received_stop_sending(&mut self, frame: StopSending) -> (r: Result<(), TransportError>)
        requires
            old(self).wf(),
        ensures
            final(self).wf(),
            Self::stop_outcome(*old(self), *final(self), frame, r),
    {
        let id = frame.id;
        let error_code = frame.error_code;
        if id.initiator() != self.side {
            if id.dir() == Dir::Uni {
                return Err(TransportError::STREAM_STATE_ERROR("STOP_SENDING on recv-only stream"));
            }
        } else if id.index() >= self.next[id.dir().index()] {
            return Err(TransportError::STREAM_STATE_ERROR("STOP_SENDING on unopened stream"));
        }
        let mut ss = match self.send.remove(&id.0) {
            Some(x) => x,
            None => {
                assert(self.send@ =~= old(self).send@);
                self.send_event(StreamEvent::Stopped { id, error_code });
                return Ok(());
            },
        };
        let stopped = ss.try_stop(error_code);
        self.send.insert(id.0, ss);
        if stopped {
            assert(self.send@ =~= old(self).send@.insert(
                id.0,
                Send { stop_reason: Some(frame.error_code), ..old(self).send@[id.0] },
            ));
            self.send_event(StreamEvent::Stopped { id, error_code });
        } else {
            assert(self.send@ =~= old(self).send@);
        }
        Ok(())
    }

    /// Forgets the sending half of `id` once its reset was acknowledged.
    pub fn reset_acked(&mut self, id: StreamId)
        requires
            old(self).wf(),
        ensures
            final(self).wf(),
            final(self).send@ == if old(self).send@.contains_key(id.0) && old(self).send@[id.0].state
                == SendState::ResetSent {
                old(self).send@.remove(id.0)
            } else {
                old(self).send@
            },
            final(self).recv@ == old(self).recv@,
            final(self).side == old(self).side,
            final(self).next == old(self).next,
            final(self).pending == old(self).pending,
            final(self).events == old(self).events,
    {
        match self.send.remove(&id.0) {
            None => {},
            Some(s) => {
                if s.state == SendState::ResetSent {
                } else {
                    self.send.insert(id.0, s);
                    assert(self.send@ =~= old(self).send@);
                }
            },
        }
    }

    /// Whether a pending stream can produce stream data.
    pub open spec fn sendable(&self, p: PendingStream) -> bool {
        self.send@.contains_key(p.id.0) && self.send@[p.id.0].state != SendState::ResetSent
    }

    /// Whether a queued stream can produce stream data.
    pub open spec fn spec_can_send_stream_data(&self) -> bool {
        exists|i: int|
            0 <= i < self.pending.all().len() && #[trigger] self.sendable(self.pending.all()[i])
    }

    /// Whether any stream data is queued, regardless of control frames
    pub fn can_send_stream_data(&self) -> (r: bool)
        ensures
            r == self.spec_can_send_stream_data(),
            r <==> exists|i: int|
                0 <= i < self.pending.all().len() && self.send@.contains_key(
                    (#[trigger] self.pending.all()[i]).id.0,
                ) && self.send@[self.pending.all()[i].id.0].state != SendState::ResetSent,
    {
        // Reset streams may linger in the pending stream list, but will never produce
        // stream frames
        let items = self.pending.iter();
        let mut i: usize = 0;
        while i < items.len()
            invariant
                items@ == self.pending.all(),
                i <= items@.len(),
                forall|j: int| 0 <= j < i ==> !(#[trigger] self.sendable(items@[j])),
            decreases items@.len() - i,
        {
            let p = items[i];
            match self.send.get(&p.id.0) {
                Some(s) => {
                    if !s.is_reset() {
                        assert(self.sendable(items@[i as int]));
                        assert(self.pending.all()[i as int] == items@[i as int]);
                        return true;
                    }
                },
                None => {},
            }
            i += 1;
        }
        proof {
            assert forall|j: int| 0 <= j < self.pending.all().len() implies !(self.send@.contains_key(
                (#[trigger] self.pending.all()[j]).id.0,
            ) && self.send@[self.pending.all()[j].id.0].state != SendState::ResetSent) by {
                assert(!self.sendable(items@[j]));
            }
        }
        false
    }

    /// Writes the queued RESET_STREAM frames, the most recently queued
    /// first, while more than `ResetStream::SIZE_BOUND` bytes are left of
    /// `max_len`, then the queued STOP_SENDING frames while more than
    /// `StopSending::SIZE_BOUND` are left; records what was written for
    /// retransmission. A reset of a stream without a sending half is dropped.
    pub fn write_control_frames(
        &mut self,
        buf: &mut Vec<u8>,
        max_len: usize,
        pending: &mut Retransmits,
        retransmits: &mut ThinRetransmits,
    )
        requires
            old(self).wf(),
            old(buf)@.len() <= max_len,
            forall|i: int|
                0 <= i < old(pending).reset_stream@.len() ==> (#[trigger] old(
                    pending,
                ).reset_stream@[i]).0.0 <= VARINT_MAX && old(pending).reset_stream@[i].1
                    <= VARINT_MAX,
            forall|i: int|
                0 <= i < old(pending).stop_sending@.len() ==> (#[trigger] old(
                    pending,
                ).stop_sending@[i]).id.0 <= VARINT_MAX && old(pending).stop_sending@[i].error_code
                    <= VARINT_MAX,
            forall|k: u64| #[trigger]
                old(self).send@.contains_key(k) ==> old(self).send@[k].pending.spec_offset()
                    <= VARINT_MAX,
        ensures
            *final(self) == *old(self),
            final(pending).hello == old(pending).hello,
            final(pending).ack_frequency == old(pending).ack_frequency,
            final(pending).handshake_done == old(pending).handshake_done,
            exists|a: nat, b: nat|
                #![trigger popped(old(pending).reset_stream@, a), popped(old(pending).stop_sending@, b)]
                {
                    let rs = old(pending).reset_stream@;
                    let ss = old(pending).stop_sending@;
                    let resets = popped(rs, a);
                    let stops = popped(ss, b);
                    let mid = old(buf)@.len() + reset_frames(resets, old(self).send@).len();
                    &&& a <= rs.len()
                    &&& b <= ss.len()
                    &&& final(pending).reset_stream@ == rs.take(rs.len() - a)
                    &&& final(pending).stop_sending@ == ss.take(ss.len() - b)
                    &&& final(buf)@ == old(buf)@ + reset_frames(resets, old(self).send@)
                        + stop_frames(stops)
                    &&& final(buf)@.len() <= max_len
                    &&& a < rs.len() ==> max_len - mid <= ResetStream::SIZE_BOUND
                    &&& b < ss.len() ==> max_len - final(buf)@.len() <= StopSending::SIZE_BOUND
                    &&& if resets_sent(resets, old(self).send@).len() == 0 && b == 0 {
                        final(retransmits).spec_get() == old(retransmits).spec_get()
                    } else {
                        final(retransmits).spec_get() matches Some(x) && records(
                            x,
                            old(retransmits).spec_get(),
                            resets_sent(resets, old(self).send@),
                            stops,
                        )
                    }
                },
    {
        let ghost rs = pending.reset_stream@;
        let ghost ss = pending.stop_sending@;
        let ghost t0 = retransmits.spec_get();
        let ghost mut a: nat = 0;
        let mut more = true;
        // RESET_STREAM
        while more
            invariant
                self.wf(),
                a <= rs.len(),
                pending.reset_stream@ == rs.take(rs.len() - a),
                pending.stop_sending@ == ss,
                pending.hello == old(pending).hello,
                pending.ack_frequency == old(pending).ack_frequency,
                pending.handshake_done == old(pending).handshake_done,
                rs == old(pending).reset_stream@,
                ss == old(pending).stop_sending@,
                t0 == old(retransmits).spec_get(),
                *self == *old(self),
                buf@ == old(buf)@ + reset_frames(popped(rs, a), self.send@),
                buf@.len() <= max_len,
                !more ==> a == rs.len() || max_len - buf@.len() <= ResetStream::SIZE_BOUND,
                resets_sent(popped(rs, a), self.send@).len() == 0 ==> retransmits.spec_get() == t0,
                resets_sent(popped(rs, a), self.send@).len() > 0 ==> (retransmits.spec_get() matches Some(
                    x,
                ) && records(x, t0, resets_sent(popped(rs, a), self.send@), Seq::empty())),
                forall|i: int|
                    0 <= i < rs.len() ==> (#[trigger] rs[i]).0.0 <= VARINT_MAX && rs[i].1
                        <= VARINT_MAX,
                forall|k: u64| #[trigger]
                    self.send@.contains_key(k) ==> self.send@[k].pending.spec_offset() <= VARINT_MAX,
            decreases rs.len() - a + (if more {
                1int
            } else {
                0int
            }),
        {
            if max_len - buf.len() <= ResetStream::SIZE_BOUND {
                more = false;
            } else {
                match pending.reset_stream.pop() {
                    None => {
                        more = false;
                    },
                    Some((id, error_code)) => {
                        let ghost before_buf = buf@;
                        let ghost before_t = retransmits.spec_get();
                        assert(rs[rs.len() - a - 1] == (id, error_code));
                        assert(popped(rs, a + 1) == popped(rs, a).push((id, error_code)));
                        assert(popped(rs, a + 1).drop_last() == popped(rs, a));
                        match self.send.get(&id.0) {
                            Some(stream) => {
                                let ghost sent_before = resets_sent(popped(rs, a), self.send@);
                                let rt = retransmits.get_or_create();
                                rt.reset_stream.push((id, error_code));
                                proof {
                                    assert(resets_sent(popped(rs, a + 1), self.send@) == sent_before.push(
                                        (id, error_code),
                                    ));
                                    let x = retransmits.spec_get()->0;
                                    if sent_before.len() == 0 {
                                        assert(x.reset_stream@ =~= match t0 {
                                            Some(b) => b.reset_stream@ + sent_before.push((id, error_code)),
                                            None => sent_before.push((id, error_code)),
                                        });
                                    } else {
                                        assert(x.reset_stream@ =~= match t0 {
                                            Some(b) => b.reset_stream@ + sent_before.push((id, error_code)),
                                            None => sent_before.push((id, error_code)),
                                        });
                                    }
                                    assert(x.stop_sending@ =~= match t0 {
                                        Some(b) => b.stop_sending@ + Seq::<StopSending>::empty(),
                                        None => Seq::<StopSending>::empty(),
                                    });
                                }
                                let frame = ResetStream { id, error_code, final_offset: stream.offset() };
                                proof {
                                    lemma_reset_frame_len(frame);
                                }
                                frame.encode(buf);
                            },
                            None => {},
                        }
                        proof {
                            assert(pending.reset_stream@ =~= rs.take(rs.len() - (a + 1)));
                            a = a + 1;
                        }
                    },
                }
            }
        }
        let ghost mut b: nat = 0;
        let ghost resets = popped(rs, a);
        let ghost sent = resets_sent(resets, self.send@);
        let ghost mid = buf@;
        more = true;
        // STOP_SENDING
        while more
            invariant
                b <= ss.len(),
                pending.reset_stream@ == rs.take(rs.len() - a),
                pending.stop_sending@ == ss.take(ss.len() - b),
                pending.hello == old(pending).hello,
                pending.ack_frequency == old(pending).ack_frequency,
                pending.handshake_done == old(pending).handshake_done,
                ss == old(pending).stop_sending@,
                *self == *old(self),
                buf@ == mid + stop_frames(popped(ss, b)),
                buf@.len() <= max_len,
                !more ==> b == ss.len() || max_len - buf@.len() <= StopSending::SIZE_BOUND,
                sent.len() == 0 && b == 0 ==> retransmits.spec_get() == t0,
                !(sent.len() == 0 && b == 0) ==> (retransmits.spec_get() matches Some(x) && records(
                    x,
                    t0,
                    sent,
                    popped(ss, b),
                )),
                forall|i: int|
                    0 <= i < ss.len() ==> (#[trigger] ss[i]).id.0 <= VARINT_MAX && ss[i].error_code
                        <= VARINT_MAX,
            decreases ss.len() - b + (if more {
                1int
            } else {
                0int
            }),
        {
            if max_len - buf.len() <= StopSending::SIZE_BOUND {
                more = false;
            } else {
                match pending.stop_sending.pop() {
                    None => {
                        more = false;
                    },
                    Some(frame) => {
                        assert(ss[ss.len() - b - 1] == frame);
                        proof {
                            lemma_stop_frame_len(frame);
                        }
                        frame.encode(buf);
                        assert(popped(ss, b + 1) == popped(ss, b).push(frame));
                        assert(popped(ss, b + 1).drop_last() == popped(ss, b));
                        let ghost stops_before = popped(ss, b);
                        let rt = retransmits.get_or_create();
                        rt.stop_sending.push(frame);
                        proof {
                            let x = retransmits.spec_get()->0;
                            assert(x.stop_sending@ =~= match t0 {
                                Some(bb) => bb.stop_sending@ + stops_before.push(frame),
                                None => stops_before.push(frame),
                            });
                            assert(x.reset_stream@ =~= match t0 {
                                Some(bb) => bb.reset_stream@ + sent,
                                None => sent,
                            });
                            assert(pending.stop_sending@ =~= ss.take(ss.len() - (b + 1)));
                            b = b + 1;
                        }
                    },
                }
            }
        }
    }

    /// Handles the acknowledgement of a STREAM frame of a stream whose
    /// sending half was forgotten or reset: there is nothing to do.
    pub fn received_ack_of(&mut self, frame: StreamMeta)
        requires
            !(old(self).send@.contains_key(frame.id.0) && old(self).send@[frame.id.0].state
                != SendState::ResetSent),
        ensures
            *final(self) == *old(self),
    {
        match self.send.get(&frame.id.0) {
            None => {},
            Some(stream) => {
                if stream.is_reset() {
                    // We account for outstanding data on reset streams at time of reset
                }
            },
        }
    }

    /// Open a new stream for the given directionality
    pub fn open(&mut self, dir: Dir) -> (r: StreamId)
        requires
            old(self).wf(),
            old(self).next@[dir.spec_bit() as int] < u64::MAX,
        ensures
            final(self).wf(),
            r.0 == spec_stream_id(old(self).side, dir, old(self).next@[dir.spec_bit() as int]),
            final(self).next@ == old(self).next@.update(
                dir.spec_bit() as int,
                (old(self).next@[dir.spec_bit() as int] + 1) as u64,
            ),
            final(self).send@.dom() == old(self).send@.dom().insert(r.0),
            send_is_fresh(final(self).send@[r.0]),
            forall|k: u64|
                k != r.0 && #[trigger] old(self).send@.contains_key(k) ==> final(self).send@[k]
                    == old(self).send@[k],
            dir == Dir::Bi ==> final(self).recv@.dom() == old(self).recv@.dom().insert(r.0)
                && recv_is_fresh(final(self).recv@[r.0]) && forall|k: u64|
                k != r.0 && #[trigger] old(self).recv@.contains_key(k) ==> final(self).recv@[k]
                    == old(self).recv@[k],
            dir == Dir::Uni ==> final(self).recv@ == old(self).recv@,
            final(self).side == old(self).side,
            final(self).pending == old(self).pending,
            final(self).events == old(self).events,
    {
        let d = dir.index();
        let index = self.next[d];
        self.next[d] = index + 1;
        let id = StreamId::new(self.side, dir, index);
        self.send.insert(id.0, Send::new());
        if matches!(dir, Dir::Bi) {
            self.recv.insert(id.0, Recv::new());
        }
        id
    }
}

} // verus!
