//! The client side of the test programs.
use vstd::prelude::*;

use crate::buf::{bytes_from_vec, bytes_view};
use crate::common::{Dir, StreamId};
use crate::connection::stream::state::StreamEvent;
use crate::connection::stream::send::write_fits;
use crate::connection::{Connection, Event, TIME_LIMIT};

use super::{
    chunks_len, send_open, may_send, Call, HandlerError, ReadEnd, ReadSummary, Reply, close_with, may_recv, open_on, prioritize_on, read_chunks,
    recv_half, repeated, reset_on, stop_on, write_on,
};

verus! {

/// "ping", the message a stream starts with.
pub fn ping() -> (r: Vec<u8>)
    ensures
        r@ == seq![0x70u8, 0x69, 0x6e, 0x67],
{
    vec![0x70u8, 0x69, 0x6e, 0x67]
}

/// "ping ping", the message of the second stream of ping-pong-stop.
pub fn ping_ping() -> (r: Vec<u8>)
    ensures
        r@ == seq![0x70u8, 0x69, 0x6e, 0x67, 0x20, 0x70, 0x69, 0x6e, 0x67],
{
    vec![0x70u8, 0x69, 0x6e, 0x67, 0x20, 0x70, 0x69, 0x6e, 0x67]
}

/// "byebye", the reason a finished program closes with.
fn byebye() -> (r: Vec<u8>)
    ensures
        r@ == seq![0x62u8, 0x79, 0x65, 0x62, 0x79, 0x65],
{
    vec![0x62u8, 0x79, 0x65, 0x62, 0x79, 0x65]
}

/// The stream this side opens next in direction `dir`.
pub open spec fn next_stream(conn: Connection, dir: Dir) -> StreamId {
    StreamId(crate::common::spec_stream_id(conn.side, dir, conn.streams.next@[dir.spec_bit() as int]))
}

/// Whether a bidirectional stream can be opened and written at once: the
/// connection is open, has stream indices left, and its round-robin
/// counter has room.
pub open spec fn can_open(conn: Connection) -> bool {
    &&& !conn.state.spec_is_closed()
    &&& conn.streams.next@[0] < u64::MAX
    &&& conn.streams.pending.spec_recency() > 0
}

/// Opens a bidirectional stream and writes `data` on it, which must
/// succeed.
fn open_and_write(conn: &mut Connection, data: &[u8]) -> (r: Result<StreamId, HandlerError>)
    requires
        old(conn).wf(),
    ensures
        final(conn).wf(),
        old(conn).state.spec_is_closed() ==> r == Err::<StreamId, HandlerError>(
            HandlerError::ClosedConnection,
        ),
        r matches Ok(id) ==> id == next_stream(*old(conn), Dir::Bi),
        can_open(*old(conn)) ==> r is Ok,
        r != Err::<StreamId, HandlerError>(HandlerError::Refused),
        r != Err::<StreamId, HandlerError>(HandlerError::Unexpected),
        r != Err::<StreamId, HandlerError>(HandlerError::WrongDirection),
{
    let id = match open_on(conn, Dir::Bi) {
        Ok(id) => id,
        Err(e) => {
            return Err(e);
        },
    };
    proof {
        crate::common::lemma_stream_id_parts(old(conn).side, Dir::Bi, old(conn).streams.next@[0]);
    }
    let ghost c1 = *conn;
    let data_len = data.len();
    assert(data@.len() == data_len);
    let w = write_on(conn, id, data);
    proof {
        if can_open(*old(conn)) {
            assert(may_send(c1, id));
            assert(write_fits(c1, id, data@.len()));
            if let Ok(x) = w {
                let s0 = c1.streams.send@[id.0];
                let s1 = choose|s1: crate::connection::stream::send::Send|
                    #![trigger crate::connection::stream::send::write_effect(s0, s1, data@, x)]
                    crate::connection::stream::send::write_effect(s0, s1, data@, x)
                        && s1.pending.wf() && conn.streams.send@ == c1.streams.send@.insert(id.0, s1)
                        && if x is Ok && !crate::connection::stream::send::send_pending(s0) {
                        conn.streams.pending.queued() == c1.streams.pending.queued().push(
                            crate::connection::stream::state::PendingStream {
                                priority: s0.priority,
                                recency: (c1.streams.pending.spec_recency() - 1) as u64,
                                id,
                            },
                        ) && conn.streams.pending.spec_recency() == c1.streams.pending.spec_recency()
                            - 1 && conn.streams.pending.spec_next() == c1.streams.pending.spec_next()
                    } else {
                        conn.streams.pending == c1.streams.pending
                    };
                assert(x is Ok);
            }
        }
    }
    match w {
        Ok(Ok(())) => Ok(id),
        Ok(Err(_)) => Err(HandlerError::Refused),
        Err(e) => Err(e),
    }
}

/// Whether the sending half of stream `id` takes `n` more writes of `len`
/// bytes each and a finish: the connection is open, this side writes on
/// the stream, the stream takes data, and the counters have room.
pub open spec fn room_for(conn: Connection, id: StreamId, n: nat, len: nat) -> bool {
    &&& !conn.state.spec_is_closed()
    &&& may_send(conn, id)
    &&& send_open(conn, id)
    &&& conn.streams.send@[id.0].pending.unacked().len() + n * len <= usize::MAX
    &&& conn.streams.send@[id.0].pending.spec_offset() + n * len <= u64::MAX
    &&& conn.streams.pending.spec_recency() > n
}

/// The number of answers the ping-pong client has left to send.
pub open spec fn answers_left(p: PingPong) -> nat {
    if p.remaining <= 0 {
        0
    } else {
        p.remaining as nat
    }
}

/// The ping-pong client: once connected it opens a stream with "ping";
/// each chunk read back is answered with "ping" until nineteen answers were
/// sent, and the stream is then finished; once the server finished the
/// stream, the connection is closed.
#[derive(Debug, Clone, Copy, PartialEq, Eq, Structural)]
pub struct PingPong {
    /// How many answers are left to send.
    pub remaining: i32,
}

impl PingPong {
    pub fn new() -> (r: Self)
        ensures
            r.remaining == 19,
    {
        PingPong { remaining: 19 }
    }

    /// What the client does on stream `id` once it read `n` chunks and the
    /// read ended with `end`: its next state and its operations, or why it
    /// gives up.
    pub open spec fn read_step(self, id: StreamId, n: nat, end: ReadEnd) -> Result<
        (Self, Seq<Call>),
        HandlerError,
    > {
        if end == ReadEnd::Limit {
            Err(HandlerError::Exhausted)
        } else if end == ReadEnd::Finished {
            Ok((self, seq![Call::Closed(0)]))
        } else if n == 0 {
            Ok((self, Seq::empty()))
        } else {
            let k: nat = if self.remaining <= 0 {
                0
            } else if n <= self.remaining {
                n
            } else {
                self.remaining as nat
            };
            let left = self.remaining - k;
            Ok(
                (
                    PingPong { remaining: left as i32 },
                    repeated(Call::Wrote(id, 4), k) + if left == 0 {
                        seq![Call::Finished(id)]
                    } else {
                        Seq::empty()
                    },
                ),
            )
        }
    }

    /// Handles one event at time `now`.
    #[verifier::loop_isolation(false)]
    pub fn handle(&mut self, conn: &mut Connection, now: u64, event: Event) -> (r: Result<
        Reply,
        HandlerError,
    >)
        requires
            old(conn).wf(),
            now < TIME_LIMIT,
        ensures
            final(conn).wf(),
            match event {
                Event::Connected => {
                    &&& old(conn).state.spec_is_closed() ==> r == Err::<Reply, HandlerError>(
                        HandlerError::ClosedConnection,
                    )
                    &&& can_open(*old(conn)) ==> r is Ok
                    &&& r matches Ok(rep) ==> {
                        let id = next_stream(*old(conn), Dir::Bi);
                        rep.read is None && rep.calls@ == seq![Call::Opened(id), Call::Wrote(id, 4)]
                            && *final(self) == *old(self)
                    }
                },
                Event::Stream(StreamEvent::Readable(id)) => {
                    &&& !may_recv(*old(conn), id) ==> r == Err::<Reply, HandlerError>(
                        HandlerError::WrongDirection,
                    )
                    &&& may_recv(*old(conn), id) && (!old(conn).streams.recv@.contains_key(id.0)
                        || old(conn).streams.recv@[id.0].stopped) ==> r == Err::<
                        Reply,
                        HandlerError,
                    >(HandlerError::Refused)
                    &&& r == Err::<Reply, HandlerError>(HandlerError::Refused) ==> !old(
                        conn,
                    ).streams.recv@.contains_key(id.0) || old(conn).streams.recv@[id.0].stopped || old(
                        conn,
                    ).state.spec_is_closed() || !send_open(*old(conn), id)
                    &&& r == Err::<Reply, HandlerError>(HandlerError::WrongDirection) ==> !may_recv(
                        *old(conn),
                        id,
                    ) || !may_send(*old(conn), id)
                    &&& r == Err::<Reply, HandlerError>(HandlerError::Exhausted) ==> old(
                        conn,
                    ).streams.recv@[id.0].assembler.spec_buffered() == usize::MAX || !room_for(
                        *old(conn),
                        id,
                        answers_left(*old(self)),
                        4,
                    )
                    &&& r is Err ==> r == Err::<Reply, HandlerError>(HandlerError::Refused) || r == Err::<
                        Reply,
                        HandlerError,
                    >(HandlerError::WrongDirection) || r == Err::<Reply, HandlerError>(
                        HandlerError::Exhausted,
                    )
                    &&& r matches Ok(rep) ==> rep.read matches Some(s) && old(self).read_step(
                        id,
                        s.chunks@.len(),
                        s.end,
                    ) == Ok::<(Self, Seq<Call>), HandlerError>((*final(self), rep.calls@))
                        && forall|i: int|
                        0 <= i < s.chunks@.len() ==> bytes_view(#[trigger] s.chunks@[i].bytes).len()
                            <= 4
                },
                _ => r matches Ok(rep) && rep.read is None && rep.calls@.len() == 0
                    && *final(conn) == *old(conn) && *final(self) == *old(self),
            },
    {
        match event {
            Event::Connected => {
                let message = ping();
                let id = match open_and_write(conn, message.as_slice()) {
                    Ok(id) => id,
                    Err(e) => {
                        return Err(e);
                    },
                };
                let mut calls: Vec<Call> = Vec::new();
                calls.push(Call::Opened(id));
                calls.push(Call::Wrote(id, 4));
                assert(calls@ =~= seq![Call::Opened(id), Call::Wrote(id, 4)]);
                Ok(Reply { read: None, calls })
            },
            Event::Stream(StreamEvent::Readable(id)) => {
                let stream = match recv_half(conn, id) {
                    Ok(s) => s,
                    Err(e) => {
                        return Err(e);
                    },
                };
                let summary = match read_chunks(conn, &stream, 4, usize::MAX) {
                    Ok(s) => s,
                    Err(_) => {
                        return Err(HandlerError::Refused);
                    },
                };
                let mut calls: Vec<Call> = Vec::new();
                match summary.end {
                    ReadEnd::Limit => {
                        return Err(HandlerError::Exhausted);
                    },
                    ReadEnd::Finished => {
                        close_with(conn, now, 0, bytes_from_vec(byebye()));
                        calls.push(Call::Closed(0));
                        assert(calls@ =~= seq![Call::Closed(0)]);
                        return Ok(Reply { read: Some(summary), calls });
                    },
                    _ => {},
                }
                let mut cnt = summary.chunks.len();
                if cnt == 0 {
                    assert(calls@ =~= Seq::<Call>::empty());
                    return Ok(Reply { read: Some(summary), calls });
                }
                let message = ping();
                let ghost k0: nat = if old(self).remaining <= 0 {
                    0
                } else if cnt <= old(self).remaining {
                    cnt as nat
                } else {
                    old(self).remaining as nat
                };
                let ghost n = cnt;
                let ghost c0 = *conn;
                while cnt > 0 && self.remaining > 0
                    invariant
                        conn.wf(),
                        !old(conn).state.spec_is_closed() && send_open(*old(conn), id) ==> !conn.state.spec_is_closed()
                            && send_open(*conn, id),
                        conn.side == c0.side,
                        room_for(c0, id, answers_left(*old(self)), 4) ==> {
                            &&& conn.streams.send@[id.0].pending.unacked().len() == c0.streams.send@[id.0].pending.unacked().len()
                                + 4 * (n - cnt)
                            &&& conn.streams.send@[id.0].pending.spec_offset() == c0.streams.send@[id.0].pending.spec_offset()
                                + 4 * (n - cnt)
                            &&& conn.streams.pending.spec_recency() + (n - cnt) >= c0.streams.pending.spec_recency()
                        },
                        message@.len() == 4,
                        cnt <= n,
                        self.remaining <= old(self).remaining,
                        n - cnt == old(self).remaining - self.remaining,
                        old(self).remaining > 0 ==> self.remaining >= 0,
                        old(self).remaining <= 0 ==> self.remaining == old(self).remaining,
                        calls@ == repeated(Call::Wrote(id, 4), (n - cnt) as nat),
                    decreases cnt,
                {
                    match write_on(conn, id, message.as_slice()) {
                        Ok(Ok(())) => {},
                        Ok(Err(_)) => {
                            return Err(HandlerError::Refused);
                        },
                        Err(e) => {
                            return Err(e);
                        },
                    }
                    calls.push(Call::Wrote(id, 4));
                    cnt = cnt - 1;
                    self.remaining = self.remaining - 1;
                    assert(calls@ =~= repeated(Call::Wrote(id, 4), (n - cnt) as nat));
                }
                assert((n - cnt) as nat == k0);
                if self.remaining == 0 {
                    match super::finish_on(conn, id) {
                        Ok(Ok(())) => {},
                        Ok(Err(_)) => {
                            return Err(HandlerError::Refused);
                        },
                        Err(e) => {
                            return Err(e);
                        },
                    }
                    calls.push(Call::Finished(id));
                }
                assert(calls@ =~= repeated(Call::Wrote(id, 4), k0) + if self.remaining == 0 {
                    seq![Call::Finished(id)]
                } else {
                    Seq::<Call>::empty()
                });
                Ok(Reply { read: Some(summary), calls })
            },
            _ => Ok(Reply { read: None, calls: Vec::new() }),
        }
    }
}

/// `rand::rng().next_u32()`: a number drawn from the thread's random
/// generator; nothing is promised of it. The generator stops the program
/// with a panic if the system's source of randomness fails, which no
/// clause here rules out.
#[verifier::external_body]
fn random_u32() -> (r: u32) {
    rand::RngCore::next_u32(&mut rand::rng())
}

/// What the ping-pong-stop client knows of one of its streams.
#[derive(Debug, Clone, Copy, PartialEq, Eq, Structural)]
pub struct StreamState {
    pub id: StreamId,
    /// Whether the stream carries "ping ping" rather than "ping".
    pub double: bool,
    /// How many more answers may be sent before the stream is reset, if
    /// it is ever reset.
    pub send_remain: Option<usize>,
    pub finished: bool,
}

/// The length of the message of a stream.
pub open spec fn message_len(st: StreamState) -> usize {
    if st.double {
        9
    } else {
        4
    }
}

/// How many of the streams are finished.
pub open spec fn count_finished(s: Seq<StreamState>) -> nat
    decreases s.len(),
{
    if s.len() == 0 {
        0
    } else {
        count_finished(s.drop_last()) + if s.last().finished {
            1nat
        } else {
            0nat
        }
    }
}

/// Whether `i` is the first stream of `s` with ID `id`.
pub open spec fn is_first(s: Seq<StreamState>, id: StreamId, i: int) -> bool {
    &&& 0 <= i < s.len()
    &&& s[i].id == id
    &&& forall|j: int| 0 <= j < i ==> s[j].id != id
}

/// How many of `n` chunks read on a stream are answered.
pub open spec fn answers(st: StreamState, n: nat) -> nat {
    match st.send_remain {
        Some(r) => if n <= r {
            n
        } else {
            r as nat
        },
        None => n,
    }
}

/// Whether `n` chunks read on a stream make the client reset it: more came
/// than it answers.
pub open spec fn resets(st: StreamState, n: nat) -> bool {
    st.send_remain matches Some(r) && n > r
}

/// A stream once `n` chunks were read from it and the read ended with
/// `end`: fewer answers are left, and it is finished once the server
/// finished it.
pub open spec fn read_update(st: StreamState, n: nat, end: ReadEnd) -> StreamState {
    StreamState {
        send_remain: match st.send_remain {
            Some(r) => Some((r - answers(st, n)) as usize),
            None => None,
        },
        finished: st.finished || end == ReadEnd::Finished,
        ..st
    }
}

/// What the client does once an event brought its streams to `states`,
/// after the operations `before`: with both streams finished it closes the
/// connection; else it sends the answers `sent` and, if `reset` names a
/// stream, resets it with `code` and, while it has a single stream, opens
/// one with "ping ping". `out` and `calls` are the streams and operations
/// that result.
pub open spec fn after_event(
    states: Seq<StreamState>,
    code: u64,
    before: Seq<Call>,
    sent: Seq<Call>,
    reset: Option<StreamId>,
    out: Seq<StreamState>,
    calls: Seq<Call>,
) -> bool {
    if count_finished(states) == 2 {
        out == states && calls == before + seq![Call::Closed(0)]
    } else {
        match reset {
            None => out == states && calls == before + sent,
            Some(id) => {
                let k: int = (before.len() + sent.len()) as int;
                &&& calls.subrange(0, k + 1) == before + sent + seq![Call::Reset(id, code)]
                &&& if states.len() >= 2 {
                    out == states && calls.len() == k + 1
                } else {
                    &&& calls.len() == k + 3
                    &&& calls[k + 1] matches Call::Opened(i2)
                    &&& calls[k + 2] == Call::Wrote(i2, 9)
                    &&& out == states.push(
                        StreamState { id: i2, double: true, send_remain: None, finished: false },
                    )
                }
            },
        }
    }
}

/// The ping-pong-stop client: once connected it opens a stream with
/// "ping" and answers nine chunks with "ping"; at the next one it resets
/// that stream with its random code and opens a second one with "ping
/// ping", answered without end. The server is to stop the second stream
/// with the same code; once both streams are finished the connection is
/// closed.
pub struct PingPongStop {
    pub random_error_code: u64,
    pub stream_states: Vec<StreamState>,
}

/// The number of finished streams in `v`.
fn finished_streams(v: &Vec<StreamState>) -> (r: usize)
    ensures
        r == count_finished(v@),
{
    let mut k: usize = 0;
    let mut c: usize = 0;
    while k < v.len()
        invariant
            k <= v@.len(),
            c == count_finished(v@.take(k as int)),
            c <= k,
        decreases v.len() - k,
    {
        assert(v@.take(k as int + 1).drop_last() =~= v@.take(k as int));
        if v[k].finished {
            c = c + 1;
        }
        k = k + 1;
    }
    assert(v@.take(k as int) =~= v@);
    c
}

impl PingPongStop {
    /// A client whose error code is drawn at random.
    pub fn new() -> (r: Self)
        ensures
            0x3000 <= r.random_error_code <= 0x3fff,
            r.stream_states@.len() == 0,
    {
        let random = random_u32();
        assert(random & 0xfff <= 0xfff) by (bit_vector);
        Self::with_random(random)
    }

    /// A client whose error code is the low twelve bits of `random` above
    /// 0x3000.
    pub fn with_random(random: u32) -> (r: Self)
        ensures
            r.random_error_code == (random & 0xfff) + 0x3000,
            r.stream_states@.len() == 0,
    {
        PingPongStop { random_error_code: (random & 0xfff) as u64 + 0x3000, stream_states: Vec::new() }
    }

    /// Handles one event at time `now`.
    #[verifier::spinoff_prover]
    pub fn handle(&mut self, conn: &mut Connection, now: u64, event: Event) -> (r: Result<
        Reply,
        HandlerError,
    >)
        requires
            old(conn).wf(),
            now < TIME_LIMIT,
        ensures
            final(conn).wf(),
            r is Ok ==> final(self).random_error_code == old(self).random_error_code,
            match event {
                Event::Connected => {
                    &&& old(conn).state.spec_is_closed() ==> r == Err::<Reply, HandlerError>(
                        HandlerError::ClosedConnection,
                    )
                    &&& can_open(*old(conn)) ==> r is Ok
                    &&& r matches Ok(rep) ==> {
                        let id = next_stream(*old(conn), Dir::Bi);
                        &&& rep.read is None
                        &&& after_event(
                            old(self).stream_states@.push(
                                StreamState { id, double: false, send_remain: Some(9), finished: false },
                            ),
                            old(self).random_error_code,
                            seq![Call::Opened(id), Call::Wrote(id, 4)],
                            Seq::empty(),
                            None,
                            final(self).stream_states@,
                            rep.calls@,
                        )
                    }
                },
                Event::Stream(StreamEvent::Readable(id)) => {
                    &&& !may_recv(*old(conn), id) ==> r == Err::<Reply, HandlerError>(
                        HandlerError::WrongDirection,
                    )
                    &&& may_recv(*old(conn), id) && (forall|i: int|
                        0 <= i < old(self).stream_states@.len()
                            ==> #[trigger] old(self).stream_states@[i].id != id) ==> r == Err::<
                        Reply,
                        HandlerError,
                    >(HandlerError::Unexpected)
                    &&& r == Err::<Reply, HandlerError>(HandlerError::Refused) ==> !old(
                        conn,
                    ).streams.recv@.contains_key(id.0) || old(conn).streams.recv@[id.0].stopped || old(
                        conn,
                    ).state.spec_is_closed() || !send_open(*old(conn), id)
                    &&& r == Err::<Reply, HandlerError>(HandlerError::Unexpected) ==> forall|i: int|
                        0 <= i < old(self).stream_states@.len()
                            ==> #[trigger] old(self).stream_states@[i].id != id
                    &&& r == Err::<Reply, HandlerError>(HandlerError::WrongDirection) ==> !may_recv(
                        *old(conn),
                        id,
                    ) || !may_send(*old(conn), id)
                    &&& r == Err::<Reply, HandlerError>(HandlerError::Exhausted) ==> old(
                        conn,
                    ).streams.recv@[id.0].assembler.spec_buffered() == usize::MAX || !room_for(
                        *old(conn),
                        id,
                        old(conn).streams.recv@[id.0].assembler.spec_buffered() as nat,
                        9,
                    ) || old(conn).streams.next@[0] == u64::MAX
                    &&& r matches Ok(rep) ==> exists|i: int|
                        #![trigger is_first(old(self).stream_states@, id, i)]
                        is_first(old(self).stream_states@, id, i) && (rep.read matches Some(s) && {
                            let st = old(self).stream_states@[i];
                            let n = s.chunks@.len();
                            &&& s.end != ReadEnd::Limit
                            &&& forall|j: int|
                                0 <= j < n ==> bytes_view(#[trigger] s.chunks@[j].bytes).len()
                                    <= message_len(st)
                            &&& after_event(
                                old(self).stream_states@.update(i, read_update(st, n, s.end)),
                                old(self).random_error_code,
                                Seq::empty(),
                                repeated(Call::Wrote(id, message_len(st)), answers(st, n)),
                                if resets(st, n) {
                                    Some(id)
                                } else {
                                    None
                                },
                                final(self).stream_states@,
                                rep.calls@,
                            )
                        })
                },
                Event::Stream(StreamEvent::Stopped { id, error_code }) => {
                    &&& (old(self).stream_states@.len() < 2 || old(self).stream_states@[1].id != id
                        || error_code != old(self).random_error_code) ==> r == Err::<
                        Reply,
                        HandlerError,
                    >(HandlerError::Unexpected)
                    &&& old(self).stream_states@.len() >= 2 && old(self).stream_states@[1].id == id
                        && error_code == old(self).random_error_code ==> r is Ok
                    &&& r matches Ok(rep) ==> rep.read is None && after_event(
                        old(self).stream_states@.update(
                            1,
                            StreamState { finished: true, ..old(self).stream_states@[1] },
                        ),
                        old(self).random_error_code,
                        Seq::empty(),
                        Seq::empty(),
                        None,
                        final(self).stream_states@,
                        rep.calls@,
                    )
                },
                _ => r matches Ok(rep) && rep.read is None && after_event(
                    old(self).stream_states@,
                    old(self).random_error_code,
                    Seq::empty(),
                    Seq::empty(),
                    None,
                    final(self).stream_states@,
                    rep.calls@,
                ),
            },
    {
        let ghost ev = event;
        let p = match self.absorb(conn, event) {
            Ok(p) => p,
            Err(e) => {
                return Err(e);
            },
        };
        let ghost c1 = *conn;
        let ghost to_send = p.to_send;
        let r = self.respond(conn, now, p);
        proof {
            if let Event::Stream(StreamEvent::Readable(id)) = ev {
                let b = old(conn).streams.recv@[id.0].assembler.spec_buffered() as nat;
                if let Some(t) = to_send {
                    if room_for(*old(conn), id, b, 9) {
                        let len: nat = if t.1 {
                            9
                        } else {
                            4
                        };
                        assert(t.2 as nat * len <= b * 9) by (nonlinear_arith)
                            requires
                                t.2 <= b,
                                len <= 9,
                        ;
                        assert(room_for(c1, t.0, t.2 as nat, len));
                    }
                }
            }
        }
        r
    }

    /// The first half of an event: the streams are updated, and what is
    /// left to do is noted.
    fn absorb(&mut self, conn: &mut Connection, event: Event) -> (r: Result<Pending, HandlerError>)
        requires
            old(conn).wf(),
        ensures
            final(conn).wf(),
            final(self).random_error_code == old(self).random_error_code,
            !(event is Connected) ==> final(conn).state == old(conn).state && final(conn).streams.send@
                == old(conn).streams.send@ && final(conn).side == old(conn).side
                && final(conn).streams.pending == old(conn).streams.pending && final(conn).streams.next
                == old(conn).streams.next,
            r matches Ok(p) ==> (p.to_send matches Some(t) ==> t.2 <= old(
                conn,
            ).streams.recv@[t.0.0].assembler.spec_buffered()),
            r == Err::<Pending, HandlerError>(HandlerError::Exhausted) ==> event is Connected || (
            event matches Event::Stream(StreamEvent::Readable(id))
                && old(conn).streams.recv@[id.0].assembler.spec_buffered() == usize::MAX),
            r matches Ok(p) ==> (p.to_send matches Some(t) ==> event == Event::Stream(
                StreamEvent::Readable(t.0),
            )),
            r matches Ok(p) ==> (p.to_reset matches Some(i) ==> event == Event::Stream(
                StreamEvent::Readable(i),
            )),
            r == Err::<Pending, HandlerError>(HandlerError::WrongDirection) ==> (event matches Event::Stream(
                StreamEvent::Readable(id),
            ) && !may_recv(*old(conn), id)),
            r == Err::<Pending, HandlerError>(HandlerError::Refused) ==> (event matches Event::Stream(
                StreamEvent::Readable(id),
            ) && (!old(conn).streams.recv@.contains_key(id.0) || old(conn).streams.recv@[id.0].stopped)),
            match event {
                Event::Connected => {
                    &&& old(conn).state.spec_is_closed() ==> r == Err::<Pending, HandlerError>(
                        HandlerError::ClosedConnection,
                    )
                    &&& can_open(*old(conn)) ==> r is Ok
                    &&& r matches Ok(p) ==> {
                        let id = next_stream(*old(conn), Dir::Bi);
                        &&& p.read is None
                        &&& p.calls@ == seq![Call::Opened(id), Call::Wrote(id, 4)]
                        &&& p.to_send is None
                        &&& p.to_reset is None
                        &&& final(self).stream_states@ == old(self).stream_states@.push(
                            StreamState { id, double: false, send_remain: Some(9), finished: false },
                        )
                    }
                },
                Event::Stream(StreamEvent::Readable(id)) => {
                    &&& !may_recv(*old(conn), id) ==> r == Err::<Pending, HandlerError>(
                        HandlerError::WrongDirection,
                    )
                    &&& may_recv(*old(conn), id) && (forall|i: int|
                        0 <= i < old(self).stream_states@.len()
                            ==> #[trigger] old(self).stream_states@[i].id != id) ==> r == Err::<
                        Pending,
                        HandlerError,
                    >(HandlerError::Unexpected)
                    &&& r == Err::<Pending, HandlerError>(HandlerError::Unexpected) ==> forall|i: int|
                        0 <= i < old(self).stream_states@.len()
                            ==> #[trigger] old(self).stream_states@[i].id != id
                    &&& r matches Ok(p) ==> exists|i: int|
                        #![trigger is_first(old(self).stream_states@, id, i)]
                        is_first(old(self).stream_states@, id, i) && (p.read matches Some(s) && {
                            let st = old(self).stream_states@[i];
                            let n = s.chunks@.len();
                            &&& s.end != ReadEnd::Limit
                            &&& forall|j: int|
                                0 <= j < n ==> bytes_view(#[trigger] s.chunks@[j].bytes).len()
                                    <= message_len(st)
                            &&& p.calls@.len() == 0
                            &&& final(self).stream_states@ == old(self).stream_states@.update(
                                i,
                                read_update(st, n, s.end),
                            )
                            &&& sent_of(p.to_send) == repeated(
                                Call::Wrote(id, message_len(st)),
                                answers(st, n),
                            )
                            &&& p.to_reset == if resets(st, n) {
                                Some(id)
                            } else {
                                None
                            }
                        })
                },
                Event::Stream(StreamEvent::Stopped { id, error_code }) => {
                    &&& (old(self).stream_states@.len() < 2 || old(self).stream_states@[1].id != id
                        || error_code != old(self).random_error_code) ==> r == Err::<
                        Pending,
                        HandlerError,
                    >(HandlerError::Unexpected)
                    &&& old(self).stream_states@.len() >= 2 && old(self).stream_states@[1].id == id
                        && error_code == old(self).random_error_code ==> r is Ok
                    &&& r matches Ok(p) ==> p.read is None && p.calls@.len() == 0
                        && p.to_send is None && p.to_reset is None
                        && final(self).stream_states@ == old(self).stream_states@.update(
                        1,
                        StreamState { finished: true, ..old(self).stream_states@[1] },
                    )
                },
                _ => r matches Ok(p) && p.read is None && p.calls@.len() == 0 && p.to_send is None
                    && p.to_reset is None && final(self).stream_states@ == old(self).stream_states@,
            },
    {
        let mut calls: Vec<Call> = Vec::new();
        match event {
            Event::Connected => {
                let message = ping();
                let id = match open_and_write(conn, message.as_slice()) {
                    Ok(id) => id,
                    Err(e) => {
                        return Err(e);
                    },
                };
                calls.push(Call::Opened(id));
                calls.push(Call::Wrote(id, 4));
                self.stream_states.push(
                    StreamState { id, double: false, send_remain: Some(9), finished: false },
                );
                assert(calls@ =~= seq![Call::Opened(id), Call::Wrote(id, 4)]);
                Ok(Pending { read: None, calls, to_send: None, to_reset: None })
            },
            Event::Stream(StreamEvent::Readable(id)) => {
                let stream = match recv_half(conn, id) {
                    Ok(s) => s,
                    Err(e) => {
                        return Err(e);
                    },
                };
                let mut i: usize = 0;
                while i < self.stream_states.len() && self.stream_states[i].id != id
                    invariant
                        i <= self.stream_states@.len(),
                        forall|j: int| 0 <= j < i ==> self.stream_states@[j].id != id,
                    decreases self.stream_states.len() - i,
                {
                    i = i + 1;
                }
                if i == self.stream_states.len() {
                    return Err(HandlerError::Unexpected);
                }
                let st = self.stream_states[i];
                let len: usize = if st.double {
                    9
                } else {
                    4
                };
                let summary = match read_chunks(conn, &stream, len, usize::MAX) {
                    Ok(s) => s,
                    Err(_) => {
                        return Err(HandlerError::Refused);
                    },
                };
                if summary.end == ReadEnd::Limit {
                    return Err(HandlerError::Exhausted);
                }
                let n = summary.chunks.len();
                let (sends, reset, remain) = match st.send_remain {
                    Some(r) => if n <= r {
                        (n, false, Some(r - n))
                    } else {
                        (r, true, Some(0))
                    },
                    None => (n, false, None),
                };
                let finished = st.finished || summary.end == ReadEnd::Finished;
                self.stream_states.set(i, StreamState { send_remain: remain, finished, ..st });
                let to_send = if sends > 0 {
                    Some((id, st.double, sends))
                } else {
                    None
                };
                let to_reset = if reset {
                    Some(id)
                } else {
                    None
                };
                proof {
                    let nn = summary.chunks@.len();
                    assert(self.stream_states@ =~= old(self).stream_states@.update(
                        i as int,
                        read_update(st, nn, summary.end),
                    ));
                    if sends == 0 {
                        assert(sent_of(to_send) =~= repeated(
                            Call::Wrote(id, message_len(st)),
                            answers(st, nn),
                        ));
                    }
                    assert(is_first(old(self).stream_states@, id, i as int));
                }
                Ok(Pending { read: Some(summary), calls, to_send, to_reset })
            },
            Event::Stream(StreamEvent::Stopped { id, error_code }) => {
                if self.stream_states.len() < 2 || self.stream_states[1].id != id || error_code
                    != self.random_error_code {
                    return Err(HandlerError::Unexpected);
                }
                let st = self.stream_states[1];
                self.stream_states.set(1, StreamState { finished: true, ..st });
                Ok(Pending { read: None, calls, to_send: None, to_reset: None })
            },
            _ => Ok(Pending { read: None, calls, to_send: None, to_reset: None }),
        }
    }

    /// The second half of an event: with both streams finished the
    /// connection is closed; else the answers are sent and a stream to
    /// reset is reset, a second stream being opened in its place.
    #[verifier::loop_isolation(false)]
    #[verifier::spinoff_prover]
    #[verifier::rlimit(40)]
    fn respond(&mut self, conn: &mut Connection, now: u64, p: Pending) -> (r: Result<
        Reply,
        HandlerError,
    >)
        requires
            old(conn).wf(),
            now < TIME_LIMIT,
        ensures
            final(conn).wf(),
            r matches Ok(rep) ==> {
                &&& rep.read == p.read
                &&& final(self).random_error_code == old(self).random_error_code
                &&& after_event(
                    old(self).stream_states@,
                    old(self).random_error_code,
                    p.calls@,
                    sent_of(p.to_send),
                    p.to_reset,
                    final(self).stream_states@,
                    rep.calls@,
                )
            },
            count_finished(old(self).stream_states@) == 2 ==> r is Ok,
            r != Err::<Reply, HandlerError>(HandlerError::Unexpected),
            r == Err::<Reply, HandlerError>(HandlerError::Exhausted) ==> (p.to_send matches Some(t)
                && !room_for(*old(conn), t.0, t.2 as nat, if t.1 {
                9
            } else {
                4
            })) || (p.to_reset is Some && old(conn).streams.next@[0] == u64::MAX) || (p.to_send is None
                && old(conn).streams.pending.spec_recency() == 0),
            r == Err::<Reply, HandlerError>(HandlerError::WrongDirection) ==> (p.to_send matches Some(t)
                && !may_send(*old(conn), t.0)) || (p.to_reset matches Some(i) && !may_send(
                *old(conn),
                i,
            )),
            r == Err::<Reply, HandlerError>(HandlerError::Refused) ==> (p.to_send matches Some(t) && (
            old(conn).state.spec_is_closed() || !send_open(*old(conn), t.0))),
            count_finished(old(self).stream_states@) != 2 && p.to_send is None && p.to_reset is None
                ==> r is Ok,
            count_finished(old(self).stream_states@) != 2 ==> (p.to_send matches Some(t) && t.2 > 0
                && !may_send(*old(conn), t.0) ==> r == Err::<Reply, HandlerError>(
                HandlerError::WrongDirection,
            )),
            count_finished(old(self).stream_states@) != 2 && p.to_send is None ==> (
            p.to_reset matches Some(id) ==> {
                &&& !may_send(*old(conn), id) ==> r == Err::<Reply, HandlerError>(
                    HandlerError::WrongDirection,
                )
                &&& may_send(*old(conn), id) && old(self).stream_states@.len() >= 2 ==> r is Ok
                &&& may_send(*old(conn), id) && old(self).stream_states@.len() < 2 && old(
                    conn,
                ).state.spec_is_closed() ==> r == Err::<Reply, HandlerError>(
                    HandlerError::ClosedConnection,
                )
            }),
    {
        let Pending { read, mut calls, to_send, to_reset } = p;
        let ghost before = calls@;
        if finished_streams(&self.stream_states) == 2 {
            close_with(conn, now, 0, bytes_from_vec(byebye()));
            calls.push(Call::Closed(0));
            assert(calls@ =~= before + seq![Call::Closed(0)]);
            return Ok(Reply { read, calls });
        }
        if let Some((id, double, cnt)) = to_send {
            let message = if double {
                ping_ping()
            } else {
                ping()
            };
            let mut k: usize = 0;
            while k < cnt
                invariant
                    conn.wf(),
                    k <= cnt,
                    k == 0 ==> *conn == *old(conn),
                    !old(conn).state.spec_is_closed() && send_open(*old(conn), id) ==> !conn.state.spec_is_closed()
                        && send_open(*conn, id),
                    conn.side == old(conn).side,
                    conn.state == old(conn).state,
                    conn.streams.next == old(conn).streams.next,
                    room_for(*old(conn), id, cnt as nat, message@.len() as nat) ==> {
                        &&& conn.streams.send@[id.0].pending.unacked().len() == old(conn).streams.send@[id.0].pending.unacked().len()
                            + message@.len() * k
                        &&& conn.streams.send@[id.0].pending.spec_offset() == old(conn).streams.send@[id.0].pending.spec_offset()
                            + message@.len() * k
                        &&& conn.streams.pending.spec_recency() + k >= old(conn).streams.pending.spec_recency()
                    },
                    k > 0 ==> may_send(*old(conn), id),
                    message@.len() == if double {
                        9usize
                    } else {
                        4usize
                    },
                    calls@ == before + repeated(Call::Wrote(id, message@.len() as usize), k as nat),
                decreases cnt - k,
            {
                match write_on(conn, id, message.as_slice()) {
                    Ok(Ok(())) => {},
                    Ok(Err(_)) => {
                        return Err(HandlerError::Refused);
                    },
                    Err(e) => {
                        return Err(e);
                    },
                }
                calls.push(Call::Wrote(id, message.len()));
                k = k + 1;
                assert(calls@ =~= before + repeated(Call::Wrote(id, message@.len() as usize), k as nat));
            }
        } else {
            assert(calls@ =~= before + sent_of(to_send));
        }
        let ghost sent = sent_of(to_send);
        assert(calls@ =~= before + sent);
        if let Some(id) = to_reset {
            match reset_on(conn, id, self.random_error_code) {
                Ok(_) => {},
                Err(e) => {
                    return Err(e);
                },
            }
            calls.push(Call::Reset(id, self.random_error_code));
            let ghost k: int = (before.len() + sent.len()) as int;
            assert(calls@ =~= before + sent + seq![Call::Reset(id, self.random_error_code)]);
            assert(calls@.subrange(0, k + 1) =~= calls@);
            if self.stream_states.len() >= 2 {
                return Ok(Reply { read, calls });
            }
            let message = ping_ping();
            let id2 = match open_and_write(conn, message.as_slice()) {
                Ok(id) => id,
                Err(e) => {
                    return Err(e);
                },
            };
            calls.push(Call::Opened(id2));
            calls.push(Call::Wrote(id2, 9));
            self.stream_states.push(
                StreamState { id: id2, double: true, send_remain: None, finished: false },
            );
            assert(calls@.subrange(0, k + 1) =~= before + sent + seq![
                Call::Reset(id, self.random_error_code),
            ]);
        }
        Ok(Reply { read, calls })
    }
}

/// What an event leaves the ping-pong-stop client to do: the chunks it
/// read, the operations made so far, the answers to send (the stream,
/// whether its message is "ping ping", how many) and the stream to reset.
pub struct Pending {
    pub read: Option<ReadSummary>,
    pub calls: Vec<Call>,
    pub to_send: Option<(StreamId, bool, usize)>,
    pub to_reset: Option<StreamId>,
}

/// The answers noted in `to_send`.
pub open spec fn sent_of(to_send: Option<(StreamId, bool, usize)>) -> Seq<Call> {
    match to_send {
        Some((id, double, cnt)) => repeated(
            Call::Wrote(
                id,
                if double {
                    9usize
                } else {
                    4usize
                },
            ),
            cnt as nat,
        ),
        None => Seq::empty(),
    }
}

/// "finished", the reason the file-transfer client closes with.
fn finished_reason() -> (r: Vec<u8>)
    ensures
        r@ == seq![0x66u8, 0x69, 0x6e, 0x69, 0x73, 0x68, 0x65, 0x64],
{
    vec![0x66u8, 0x69, 0x6e, 0x69, 0x73, 0x68, 0x65, 0x64]
}

/// The file-transfer client: it reads every chunk ready on a readable
/// stream, which the program around it writes to its file in order, and
/// closes the connection once the stream is finished. Other events are
/// ignored.
pub fn cc(conn: &mut Connection, now: u64, event: Event) -> (r: Result<Reply, HandlerError>)
    requires
        old(conn).wf(),
        now < TIME_LIMIT,
    ensures
        final(conn).wf(),
        match event {
            Event::Stream(StreamEvent::Readable(id)) => {
                &&& !may_recv(*old(conn), id) ==> r == Err::<Reply, HandlerError>(
                    HandlerError::WrongDirection,
                )
                &&& may_recv(*old(conn), id) && (!old(conn).streams.recv@.contains_key(id.0)
                    || old(conn).streams.recv@[id.0].stopped) ==> (r matches Ok(rep)
                    && rep.read is None && rep.calls@.len() == 0)
                &&& r matches Ok(rep) ==> (rep.read matches Some(s) ==> s.end != ReadEnd::Limit
                    && rep.calls@ == if s.end == ReadEnd::Finished {
                    seq![Call::Closed(0)]
                } else {
                    Seq::empty()
                })
            },
            _ => r matches Ok(rep) && rep.read is None && rep.calls@.len() == 0 && *final(conn)
                == *old(conn),
        },
{
    let mut calls: Vec<Call> = Vec::new();
    let id = match event {
        Event::Stream(StreamEvent::Readable(id)) => id,
        _ => {
            return Ok(Reply { read: None, calls });
        },
    };
    let stream = match recv_half(conn, id) {
        Ok(s) => s,
        Err(e) => {
            return Err(e);
        },
    };
    let summary = match read_chunks(conn, &stream, usize::MAX, usize::MAX) {
        Ok(s) => s,
        Err(_) => {
            return Ok(Reply { read: None, calls });
        },
    };
    if summary.end == ReadEnd::Limit {
        return Err(HandlerError::Exhausted);
    }
    if summary.end == ReadEnd::Finished {
        close_with(conn, now, 0, bytes_from_vec(finished_reason()));
        calls.push(Call::Closed(0));
        assert(calls@ =~= seq![Call::Closed(0)]);
    }
    Ok(Reply { read: Some(summary), calls })
}

/// What the echo client knows of one of its streams.
#[derive(Debug, Clone, Copy, PartialEq, Eq, Structural)]
pub struct EchoState {
    pub id: StreamId,
    /// How many bytes were read back.
    pub bytes: usize,
    pub finished: bool,
}

/// The total length of the chunks.
pub open spec fn total_len(chunks: Seq<crate::connection::stream::recv::Chunk>) -> nat
    decreases chunks.len(),
{
    if chunks.len() == 0 {
        0
    } else {
        total_len(chunks.drop_last()) + bytes_view(chunks.last().bytes).len()
    }
}

/// Counting the bytes of chunks from the end gives what counting from the
/// start gives.
proof fn lemma_total_len_chunks_len(c: Seq<crate::connection::stream::recv::Chunk>)
    ensures
        total_len(c) == chunks_len(c),
    decreases c.len(),
{
    if c.len() > 0 {
        lemma_chunks_len_last(c);
        lemma_total_len_chunks_len(c.drop_last());
    }
}

/// The bytes of chunks are those of all but the last, and the last's.
proof fn lemma_chunks_len_last(c: Seq<crate::connection::stream::recv::Chunk>)
    requires
        c.len() > 0,
    ensures
        chunks_len(c) == chunks_len(c.drop_last()) + bytes_view(c.last().bytes).len(),
    decreases c.len(),
{
    if c.len() == 1 {
        assert(c.drop_first() =~= Seq::<crate::connection::stream::recv::Chunk>::empty());
        assert(c.drop_last() =~= Seq::<crate::connection::stream::recv::Chunk>::empty());
    } else {
        lemma_chunks_len_last(c.drop_first());
        assert(c.drop_first().drop_last() =~= c.drop_last().drop_first());
        assert(c.drop_last()[0] == c[0]);
    }
}

/// The bytes of the first chunks are no more than those of all of them.
proof fn lemma_total_len_prefix(c: Seq<crate::connection::stream::recv::Chunk>, j: int)
    requires
        0 <= j <= c.len(),
    ensures
        total_len(c.take(j)) <= total_len(c),
    decreases c.len(),
{
    if j < c.len() {
        lemma_total_len_prefix(c.drop_last(), j);
        assert(c.drop_last().take(j) =~= c.take(j));
    } else {
        assert(c.take(j) =~= c);
    }
}

/// What the echo client does after each event, given its streams and the
/// length of its message: while the first stream is not finished, it
/// resets it once more than a sixteenth of the message came back; then,
/// while the second is not finished, it stops it once more than a quarter
/// came back; then it closes the connection. Without the streams it gives
/// up.
pub open spec fn echo_tail(ss: Seq<EchoState>, large: nat) -> Result<Seq<Call>, HandlerError> {
    if ss.len() == 0 {
        Err(HandlerError::Unexpected)
    } else if !ss[0].finished {
        if ss[0].bytes > large / 16 {
            Ok(seq![Call::Reset(ss[0].id, 0x1337)])
        } else {
            Ok(Seq::empty())
        }
    } else if ss.len() < 2 {
        Err(HandlerError::Unexpected)
    } else if !ss[1].finished {
        if ss[1].bytes > large / 4 {
            Ok(seq![Call::Stopped(ss[1].id, 0x7331)])
        } else {
            Ok(Seq::empty())
        }
    } else {
        Ok(seq![Call::Closed(0)])
    }
}

/// Whether the step `echo_tail` gives can be made on `conn`: the streams
/// are there, and a stream to reset is one this side writes, a stream to
/// stop one it reads.
pub open spec fn tail_ok(conn: Connection, ss: Seq<EchoState>, large: nat) -> bool {
    &&& echo_tail(ss, large) is Ok
    &&& !ss[0].finished && ss[0].bytes > large / 16 ==> may_send(conn, ss[0].id)
    &&& ss[0].finished && !ss[1].finished && ss[1].bytes > large / 4 ==> may_recv(conn, ss[1].id)
}

/// The echo client: once connected it opens two streams, with priorities
/// two and one, and writes its whole message on each and finishes them; it
/// counts the bytes each reads back. The server is to stop the second
/// stream with code 0x7331; see `echo_tail` for what follows each event.
pub struct Echo {
    pub ss: Vec<EchoState>,
    pub large_message: Vec<u8>,
}

impl Echo {
    pub fn new() -> (r: Self)
        ensures
            r.ss@.len() == 0,
            r.large_message@.len() == 1024000,
    {
        let mut large_message: Vec<u8> = Vec::new();
        let mut k: usize = 0;
        while k < 1024000
            invariant
                k <= 1024000,
                large_message@.len() == k,
            decreases 1024000 - k,
        {
            large_message.push(0);
            k = k + 1;
        }
        Echo { ss: Vec::new(), large_message }
    }

    /// Opens a stream with priority `priority`, writes the message on it
    /// and finishes it, each of which must succeed.
    fn open_one(&self, conn: &mut Connection, priority: i32, calls: &mut Vec<Call>) -> (r: Result<
        StreamId,
        HandlerError,
    >)
        requires
            old(conn).wf(),
        ensures
            final(conn).wf(),
            old(conn).state.spec_is_closed() ==> r == Err::<StreamId, HandlerError>(
                HandlerError::ClosedConnection,
            ),
            !old(conn).state.spec_is_closed() && old(conn).streams.next@[0] < u64::MAX && old(
                conn,
            ).streams.pending.spec_recency() >= 2 ==> r is Ok,
            r is Ok ==> final(conn).state == old(conn).state && final(conn).side == old(conn).side
                && final(conn).streams.next@ == old(conn).streams.next@.update(
                0,
                (old(conn).streams.next@[0] + 1) as u64,
            ) && final(conn).streams.pending.spec_recency() + 2 >= old(
                conn,
            ).streams.pending.spec_recency(),
            r matches Ok(id) ==> id == next_stream(*old(conn), Dir::Bi) && final(calls)@ == old(
                calls,
            )@ + seq![
                Call::Opened(id),
                Call::Prioritized(id, priority),
                Call::Wrote(id, self.large_message@.len() as usize),
                Call::Finished(id),
            ],
    {
        let id = match open_on(conn, Dir::Bi) {
            Ok(id) => id,
            Err(e) => {
                return Err(e);
            },
        };
        proof {
            crate::common::lemma_stream_id_parts(old(conn).side, Dir::Bi, old(conn).streams.next@[0]);
        }
        let message_len = self.large_message.len();
        assert(self.large_message@.len() == message_len);
        match prioritize_on(conn, id, priority) {
            Ok(Ok(())) => {},
            Ok(Err(_)) => {
                return Err(HandlerError::Refused);
            },
            Err(e) => {
                return Err(e);
            },
        }
        match write_on(conn, id, self.large_message.as_slice()) {
            Ok(Ok(())) => {},
            Ok(Err(_)) => {
                return Err(HandlerError::Refused);
            },
            Err(e) => {
                return Err(e);
            },
        }
        match super::finish_on(conn, id) {
            Ok(Ok(())) => {},
            Ok(Err(_)) => {
                return Err(HandlerError::Refused);
            },
            Err(e) => {
                return Err(e);
            },
        }
        calls.push(Call::Opened(id));
        calls.push(Call::Prioritized(id, priority));
        calls.push(Call::Wrote(id, self.large_message.len()));
        calls.push(Call::Finished(id));
        assert(calls@ =~= old(calls)@ + seq![
            Call::Opened(id),
            Call::Prioritized(id, priority),
            Call::Wrote(id, self.large_message@.len() as usize),
            Call::Finished(id),
        ]);
        Ok(id)
    }

    /// Handles one event at time `now`.
    #[verifier::loop_isolation(false)]
    pub fn handle(&mut self, conn: &mut Connection, now: u64, event: Event) -> (r: Result<
        Reply,
        HandlerError,
    >)
        requires
            old(conn).wf(),
            now < TIME_LIMIT,
        ensures
            final(conn).wf(),
            r is Ok ==> final(self).large_message@ == old(self).large_message@,
            match event {
                Event::Connected => {
                    &&& old(conn).state.spec_is_closed() ==> r == Err::<Reply, HandlerError>(
                        HandlerError::ClosedConnection,
                    )
                    &&& old(self).ss@.len() == 0 && !old(conn).state.spec_is_closed() && old(
                        conn,
                    ).streams.next@[0] + 1 < u64::MAX && old(conn).streams.pending.spec_recency() >= 4
                        ==> r is Ok
                    &&& r matches Ok(rep) ==> {
                        let a = next_stream(*old(conn), Dir::Bi);
                        let len = old(self).large_message@.len() as usize;
                        &&& rep.read is None
                        &&& final(self).ss@.len() == old(self).ss@.len() + 2
                        &&& final(self).ss@.take(old(self).ss@.len() as int + 1) == old(self).ss@.push(
                            EchoState { id: a, bytes: 0, finished: false },
                        )
                        &&& final(self).ss@.last().bytes == 0 && !final(self).ss@.last().finished
                        &&& rep.calls@.subrange(0, 8) == seq![
                            Call::Opened(a),
                            Call::Prioritized(a, 2),
                            Call::Wrote(a, len),
                            Call::Finished(a),
                            Call::Opened(final(self).ss@.last().id),
                            Call::Prioritized(final(self).ss@.last().id, 1),
                            Call::Wrote(final(self).ss@.last().id, len),
                            Call::Finished(final(self).ss@.last().id),
                        ]
                        &&& echo_tail(final(self).ss@, len as nat) == Ok::<Seq<Call>, HandlerError>(
                            rep.calls@.skip(8),
                        )
                    }
                },
                Event::Stream(StreamEvent::Readable(id)) => {
                    &&& !may_recv(*old(conn), id) ==> r == Err::<Reply, HandlerError>(
                        HandlerError::WrongDirection,
                    )
                    &&& may_recv(*old(conn), id) && (forall|i: int|
                        0 <= i < old(self).ss@.len() ==> #[trigger] old(self).ss@[i].id != id)
                        ==> r == Err::<Reply, HandlerError>(HandlerError::Unexpected)
                    &&& r == Err::<Reply, HandlerError>(HandlerError::Unexpected) ==> old(self).ss@.len()
                        < 2 || forall|i: int|
                        0 <= i < old(self).ss@.len() ==> #[trigger] old(self).ss@[i].id != id
                    &&& r is Err ==> r == Err::<Reply, HandlerError>(HandlerError::WrongDirection) || r
                        == Err::<Reply, HandlerError>(HandlerError::Unexpected) || r == Err::<
                        Reply,
                        HandlerError,
                    >(HandlerError::Exhausted)
                    &&& r == Err::<Reply, HandlerError>(HandlerError::Exhausted) ==> old(
                        conn,
                    ).streams.recv@[id.0].assembler.spec_buffered() == usize::MAX || exists|i: int|
                        #![trigger old(self).ss@[i]]
                        0 <= i < old(self).ss@.len() && old(self).ss@[i].id == id && old(self).ss@[i].bytes
                            + old(conn).streams.recv@[id.0].assembler.spec_buffered() > usize::MAX
                    &&& r matches Ok(rep) ==> exists|i: int|
                        #![trigger old(self).ss@[i]]
                        0 <= i < old(self).ss@.len() && old(self).ss@[i].id == id && (forall|j: int|
                            0 <= j < i ==> old(self).ss@[j].id != id) && match rep.read {
                            Some(s) => {
                                let st = old(self).ss@[i];
                                &&& s.end != ReadEnd::Limit
                                &&& final(self).ss@ == old(self).ss@.update(
                                    i,
                                    EchoState {
                                        bytes: (st.bytes + total_len(s.chunks@)) as usize,
                                        finished: st.finished || s.end == ReadEnd::Finished,
                                        ..st
                                    },
                                )
                                &&& echo_tail(final(self).ss@, old(self).large_message@.len())
                                    == Ok::<Seq<Call>, HandlerError>(rep.calls@)
                            },
                            None => final(self).ss@ == old(self).ss@ && echo_tail(
                                final(self).ss@,
                                old(self).large_message@.len(),
                            ) == Ok::<Seq<Call>, HandlerError>(rep.calls@),
                        }
                },
                Event::Stream(StreamEvent::Stopped { id, error_code }) => {
                    &&& (old(self).ss@.len() < 2 || old(self).ss@[1].id != id || error_code
                        != 0x7331) ==> r == Err::<Reply, HandlerError>(HandlerError::Unexpected)
                    &&& old(self).ss@.len() >= 2 && old(self).ss@[1].id == id && error_code == 0x7331
                        && tail_ok(
                        *old(conn),
                        old(self).ss@.update(1, EchoState { finished: true, ..old(self).ss@[1] }),
                        old(self).large_message@.len(),
                    ) ==> r is Ok
                    &&& r matches Ok(rep) ==> rep.read is None && final(self).ss@ == old(
                        self,
                    ).ss@.update(1, EchoState { finished: true, ..old(self).ss@[1] }) && echo_tail(
                        final(self).ss@,
                        old(self).large_message@.len(),
                    ) == Ok::<Seq<Call>, HandlerError>(rep.calls@)
                },
                _ => {
                    &&& echo_tail(old(self).ss@, old(self).large_message@.len()) is Err ==> r
                        == Err::<Reply, HandlerError>(HandlerError::Unexpected)
                    &&& tail_ok(*old(conn), old(self).ss@, old(self).large_message@.len()) ==> r is Ok
                    &&& r matches Ok(rep) ==> rep.read is None && final(self).ss@ == old(self).ss@
                        && echo_tail(old(self).ss@, old(self).large_message@.len()) == Ok::<
                        Seq<Call>,
                        HandlerError,
                    >(rep.calls@)
                },
            },
    {
        let mut calls: Vec<Call> = Vec::new();
        let mut read = None;
        match event {
            Event::Connected => {
                let a = match self.open_one(conn, 2, &mut calls) {
                    Ok(id) => id,
                    Err(e) => {
                        return Err(e);
                    },
                };
                self.ss.push(EchoState { id: a, bytes: 0, finished: false });
                let b = match self.open_one(conn, 1, &mut calls) {
                    Ok(id) => id,
                    Err(e) => {
                        return Err(e);
                    },
                };
                self.ss.push(EchoState { id: b, bytes: 0, finished: false });
                assert(self.ss@.take(old(self).ss@.len() as int + 1) =~= old(self).ss@.push(
                    EchoState { id: a, bytes: 0, finished: false },
                ));
                assert(calls@ =~= seq![
                    Call::Opened(a),
                    Call::Prioritized(a, 2),
                    Call::Wrote(a, self.large_message@.len() as usize),
                    Call::Finished(a),
                    Call::Opened(b),
                    Call::Prioritized(b, 1),
                    Call::Wrote(b, self.large_message@.len() as usize),
                    Call::Finished(b),
                ]);
            },
            Event::Stream(StreamEvent::Readable(id)) => {
                let stream = match recv_half(conn, id) {
                    Ok(s) => s,
                    Err(e) => {
                        return Err(e);
                    },
                };
                let mut i: usize = 0;
                while i < self.ss.len() && self.ss[i].id != id
                    invariant
                        i <= self.ss@.len(),
                        forall|j: int| 0 <= j < i ==> self.ss@[j].id != id,
                    decreases self.ss.len() - i,
                {
                    i = i + 1;
                }
                if i == self.ss.len() {
                    return Err(HandlerError::Unexpected);
                }
                assert(old(self).ss@[i as int].id == id);
                if let Ok(summary) = read_chunks(conn, &stream, usize::MAX, usize::MAX) {
                    if summary.end == ReadEnd::Limit {
                        return Err(HandlerError::Exhausted);
                    }
                    let st = self.ss[i];
                    let mut bytes = st.bytes;
                    let mut k: usize = 0;
                    while k < summary.chunks.len()
                        invariant
                            k <= summary.chunks@.len(),
                            bytes == st.bytes + total_len(summary.chunks@.take(k as int)),
                        decreases summary.chunks.len() - k,
                    {
                        assert(summary.chunks@.take(k as int + 1).drop_last() =~= summary.chunks@.take(
                            k as int,
                        ));
                        let l = crate::buf::bytes_len(&summary.chunks[k].bytes);
                        if bytes > usize::MAX - l {
                            proof {
                                lemma_total_len_prefix(summary.chunks@, k as int + 1);
                                lemma_total_len_chunks_len(summary.chunks@);
                                assert(old(self).ss@[i as int] == st);
                            }
                            return Err(HandlerError::Exhausted);
                        }
                        bytes = bytes + l;
                        k = k + 1;
                    }
                    assert(summary.chunks@.take(k as int) =~= summary.chunks@);
                    let finished = st.finished || summary.end == ReadEnd::Finished;
                    self.ss.set(i, EchoState { bytes, finished, ..st });
                    read = Some(summary);
                }
            },
            Event::Stream(StreamEvent::Stopped { id, error_code }) => {
                if self.ss.len() < 2 || self.ss[1].id != id || error_code != 0x7331 {
                    return Err(HandlerError::Unexpected);
                }
                let st = self.ss[1];
                self.ss.set(1, EchoState { finished: true, ..st });
            },
            _ => {},
        }
        let ghost before = calls@;
        if self.ss.len() == 0 {
            return Err(HandlerError::Unexpected);
        }
        let large = self.large_message.len();
        if !self.ss[0].finished {
            if self.ss[0].bytes > large / 16 {
                let id = self.ss[0].id;
                match reset_on(conn, id, 0x1337) {
                    Ok(_) => {},
                    Err(e) => {
                        return Err(e);
                    },
                }
                calls.push(Call::Reset(id, 0x1337));
            }
        } else if self.ss.len() < 2 {
            return Err(HandlerError::Unexpected);
        } else if !self.ss[1].finished {
            if self.ss[1].bytes > large / 4 {
                let id = self.ss[1].id;
                match stop_on(conn, id, 0x7331) {
                    Ok(_) => {},
                    Err(e) => {
                        return Err(e);
                    },
                }
                calls.push(Call::Stopped(id, 0x7331));
            }
        } else {
            close_with(conn, now, 0, bytes_from_vec(byebye()));
            calls.push(Call::Closed(0));
        }
        let ghost t = match echo_tail(self.ss@, large as nat) {
            Ok(t) => t,
            Err(_) => Seq::empty(),
        };
        assert(echo_tail(self.ss@, large as nat) == Ok::<Seq<Call>, HandlerError>(t));
        assert(calls@ =~= before + t);
        assert(calls@.subrange(0, before.len() as int) =~= before);
        assert(calls@.skip(before.len() as int) =~= t);
        Ok(Reply { read, calls })
    }
}

} // verus!
