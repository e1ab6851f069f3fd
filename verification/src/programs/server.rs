//! The server side of the test programs.
use vstd::prelude::*;

use crate::buf::{bytes_as_slice, bytes_view};
use crate::common::StreamId;
use crate::connection::stream::state::StreamEvent;
use crate::connection::{Connection, Event};
use super::client::room_for;

use super::{
    Call, HandlerError, ReadEnd, Reply, finish_on, may_recv, may_send, open_on, read_chunks, recv_half, send_open,
    repeated, stop_on, write_on,
};

verus! {

/// "pong", the answer to a "ping".
pub fn pong() -> (r: Vec<u8>)
    ensures
        r@ == seq![0x70u8, 0x6f, 0x6e, 0x67],
{
    vec![0x70u8, 0x6f, 0x6e, 0x67]
}

/// "pong pong", the answer to a "ping ping".
pub fn pong_pong() -> (r: Vec<u8>)
    ensures
        r@ == seq![0x70u8, 0x6f, 0x6e, 0x67, 0x20, 0x70, 0x6f, 0x6e, 0x67],
{
    vec![0x70u8, 0x6f, 0x6e, 0x67, 0x20, 0x70, 0x6f, 0x6e, 0x67]
}

/// What the ping-pong server does on stream `id` once it read `n` chunks
/// and the read ended with `end`: a "pong" for each chunk and, if any came
/// and the stream is finished, the stream finished back.
pub open spec fn pingpong_calls(id: StreamId, n: nat, end: ReadEnd) -> Seq<Call> {
    if n == 0 {
        Seq::empty()
    } else {
        repeated(Call::Wrote(id, 4), n) + if end == ReadEnd::Finished {
            seq![Call::Finished(id)]
        } else {
            Seq::empty()
        }
    }
}

/// The ping-pong server: each chunk of at most four bytes read from a
/// readable stream is answered with "pong" on it; once the stream is
/// finished, it is finished back. Other events are ignored.
#[verifier::loop_isolation(false)]
pub fn pingpong(conn: &mut Connection, event: Event) -> (r: Result<Reply, HandlerError>)
    requires
        old(conn).wf(),
    ensures
        final(conn).wf(),
        match event {
            Event::Stream(StreamEvent::Readable(id)) => {
                &&& !may_recv(*old(conn), id) ==> r == Err::<Reply, HandlerError>(
                    HandlerError::WrongDirection,
                )
                &&& may_recv(*old(conn), id) && (!old(conn).streams.recv@.contains_key(id.0)
                    || old(conn).streams.recv@[id.0].stopped) ==> r == Err::<Reply, HandlerError>(
                    HandlerError::Refused,
                )
                &&& r matches Ok(rep) ==> rep.read matches Some(s) && s.end != ReadEnd::Limit
                    && rep.calls@ == pingpong_calls(id, s.chunks@.len(), s.end) && forall|i: int|
                    0 <= i < s.chunks@.len() ==> bytes_view(#[trigger] s.chunks@[i].bytes).len()
                        <= 4
            },
            _ => r matches Ok(rep) && rep.read is None && rep.calls@.len() == 0 && *final(conn)
                == *old(conn),
        },
{
    let id = match event {
        Event::Stream(StreamEvent::Readable(id)) => id,
        _ => {
            return Ok(Reply { read: None, calls: Vec::new() });
        },
    };
    let stream = match recv_half(conn, id) {
        Ok(s) => s,
        Err(e) => {
            return Err(e);
        },
    };
    let summary = match read_chunks(conn, &stream, 4, usize::MAX) {
        Ok(s) => s,
        Err(_) => {
            return Err(HandlerError::Refused);
        },
    };
    if summary.end == ReadEnd::Limit {
        return Err(HandlerError::Exhausted);
    }
    let n = summary.chunks.len();
    let mut calls: Vec<Call> = Vec::new();
    if n > 0 {
        let answer = pong();
        let mut k: usize = 0;
        while k < n
            invariant
                conn.wf(),
                k <= n,
                answer@.len() == 4,
                calls@ == repeated(Call::Wrote(id, 4), k as nat),
            decreases n - k,
        {
            match write_on(conn, id, answer.as_slice()) {
                Ok(Ok(())) => {},
                Ok(Err(_)) => {
                    return Err(HandlerError::Refused);
                },
                Err(e) => {
                    return Err(e);
                },
            }
            calls.push(Call::Wrote(id, 4));
            k = k + 1;
            assert(calls@ =~= repeated(Call::Wrote(id, 4), k as nat));
        }
        if summary.end == ReadEnd::Finished {
            match finish_on(conn, id) {
                Ok(Ok(())) => {},
                Ok(Err(_)) => {
                    return Err(HandlerError::Refused);
                },
                Err(e) => {
                    return Err(e);
                },
            }
            calls.push(Call::Finished(id));
        }
    }
    assert(calls@ =~= pingpong_calls(id, n as nat, summary.end));
    Ok(Reply { read: Some(summary), calls })
}

/// The ping-pong-stop server: it answers "ping" on stream 0 with "pong" and
/// "ping ping" on other streams with "pong pong", and after the tenth
/// "ping ping" stops and finishes that stream; it finishes a stream the
/// client reset, remembering the client's code, and stops a stream the
/// client stopped.
#[derive(Debug, Clone, Copy, PartialEq, Eq, Structural)]
pub struct PingPongStop {
    /// The code the client reset a stream with, if it did.
    pub client_error_code: Option<u64>,
    /// How many "ping ping" chunks were read.
    pub ping_ping_cnt: i32,
}

/// The length of the answer on stream `id`.
pub open spec fn answer_len(id: StreamId) -> usize {
    if id.0 == 0 {
        4
    } else {
        9
    }
}

/// After how many chunks the server stops reading a stream, given how many
/// "ping ping" chunks it read before: with "pong pong" answers, at the one
/// that makes ten, or at the first once ten were read; with "pong" answers,
/// at the first once ten "ping ping" were read, else never.
pub open spec fn stop_after(cnt: i32, double: bool) -> Option<nat> {
    if double {
        if cnt >= 9 {
            Some(1)
        } else {
            Some((10 - cnt) as nat)
        }
    } else if cnt >= 10 {
        Some(1)
    } else {
        None
    }
}

impl PingPongStop {
    pub fn new() -> (r: Self)
        ensures
            r.client_error_code is None,
            r.ping_ping_cnt == 0,
    {
        PingPongStop { client_error_code: None, ping_ping_cnt: 0 }
    }

    /// What the server does on stream `id` once it read `n` chunks and the
    /// read ended with `end`: its next state and its operations, or why it
    /// gives up.
    pub open spec fn read_step(self, id: StreamId, n: nat, end: ReadEnd) -> Result<
        (Self, Seq<Call>),
        HandlerError,
    > {
        let double = id.0 != 0;
        let len = answer_len(id);
        let cnt = if double {
            self.ping_ping_cnt + n
        } else {
            self.ping_ping_cnt as int
        };
        if cnt > i32::MAX {
            Err(HandlerError::Exhausted)
        } else if end == ReadEnd::Limit {
            if stop_after(self.ping_ping_cnt, double) is None {
                Err(HandlerError::Exhausted)
            } else {
                Ok(
                    (
                        PingPongStop { ping_ping_cnt: cnt as i32, ..self },
                        repeated(Call::Wrote(id, len), (n - 1) as nat) + seq![
                            Call::Stopped(id, self.client_error_code.unwrap_or(0)),
                            Call::Finished(id),
                        ],
                    ),
                )
            }
        } else {
            match end {
                ReadEnd::Finished => Err(HandlerError::Unexpected),
                ReadEnd::Reset(code) => Ok(
                    (
                        PingPongStop { ping_ping_cnt: cnt as i32, client_error_code: Some(code) },
                        repeated(Call::Wrote(id, len), n) + seq![Call::Finished(id)],
                    ),
                ),
                _ => Ok(
                    (
                        PingPongStop { ping_ping_cnt: cnt as i32, ..self },
                        repeated(Call::Wrote(id, len), n),
                    ),
                ),
            }
        }
    }

    /// Handles one event: a readable stream is read and answered, a stopped
    /// stream is stopped back; other events are ignored.
    pub fn handle(&mut self, conn: &mut Connection, event: Event) -> (r: Result<Reply, HandlerError>)
        requires
            old(conn).wf(),
        ensures
            final(conn).wf(),
            match event {
                Event::Stream(StreamEvent::Readable(id)) => {
                    &&& !may_recv(*old(conn), id) ==> r == Err::<Reply, HandlerError>(
                        HandlerError::WrongDirection,
                    )
                    &&& may_recv(*old(conn), id) && (!old(conn).streams.recv@.contains_key(id.0)
                        || old(conn).streams.recv@[id.0].stopped) ==> r == Err::<
                        Reply,
                        HandlerError,
                    >(HandlerError::Refused)
                    &&& r == Err::<Reply, HandlerError>(HandlerError::Refused) ==> !old(
                        conn,
                    ).streams.recv@.contains_key(id.0) || old(conn).streams.recv@[id.0].stopped
                    &&& r == Err::<Reply, HandlerError>(HandlerError::WrongDirection) ==> !may_recv(
                        *old(conn),
                        id,
                    ) || !may_send(*old(conn), id)
                    &&& r == Err::<Reply, HandlerError>(HandlerError::Exhausted) ==> old(
                        self,
                    ).ping_ping_cnt == i32::MAX || old(conn).streams.recv@[id.0].assembler.spec_buffered()
                        == usize::MAX || !room_for(
                        *old(conn),
                        id,
                        old(conn).streams.recv@[id.0].assembler.spec_buffered() as nat,
                        9,
                    )
                    &&& r matches Ok(rep) ==> rep.read matches Some(s) && old(self).read_step(
                        id,
                        s.chunks@.len(),
                        s.end,
                    ) == Ok::<(Self, Seq<Call>), HandlerError>((*final(self), rep.calls@))
                        && (stop_after(old(self).ping_ping_cnt, id.0 != 0) matches Some(k)
                        ==> s.chunks@.len() <= k) && forall|i: int|
                        0 <= i < s.chunks@.len() ==> bytes_view(#[trigger] s.chunks@[i].bytes).len()
                            <= answer_len(id)
                },
                Event::Stream(StreamEvent::Stopped { id, error_code }) => {
                    &&& (r is Ok <==> may_recv(*old(conn), id))
                    &&& !may_recv(*old(conn), id) ==> r == Err::<Reply, HandlerError>(
                        HandlerError::WrongDirection,
                    )
                    &&& r matches Ok(rep) ==> rep.read is None && rep.calls@ == seq![
                        Call::Stopped(id, error_code),
                    ] && *final(self) == *old(self)
                },
                _ => r matches Ok(rep) && rep.read is None && rep.calls@.len() == 0
                    && *final(conn) == *old(conn) && *final(self) == *old(self),
            },
    {
        match event {
            Event::Stream(StreamEvent::Readable(id)) => self.on_readable(conn, id),
            Event::Stream(StreamEvent::Stopped { id, error_code }) => {
                match stop_on(conn, id, error_code) {
                    Ok(_) => {},
                    Err(e) => {
                        return Err(e);
                    },
                }
                let mut calls: Vec<Call> = Vec::new();
                calls.push(Call::Stopped(id, error_code));
                Ok(Reply { read: None, calls })
            },
            _ => Ok(Reply { read: None, calls: Vec::new() }),
        }
    }

    #[verifier::loop_isolation(false)]
    #[verifier::spinoff_prover]
    #[verifier::rlimit(30)]
    fn on_readable(&mut self, conn: &mut Connection, id: StreamId) -> (r: Result<Reply, HandlerError>)
        requires
            old(conn).wf(),
        ensures
            final(conn).wf(),
            !may_recv(*old(conn), id) ==> r == Err::<Reply, HandlerError>(HandlerError::WrongDirection),
            may_recv(*old(conn), id) && (!old(conn).streams.recv@.contains_key(id.0)
                || old(conn).streams.recv@[id.0].stopped) ==> r == Err::<Reply, HandlerError>(
                HandlerError::Refused,
            ),
            r == Err::<Reply, HandlerError>(HandlerError::Refused) ==> !old(
                conn,
            ).streams.recv@.contains_key(id.0) || old(conn).streams.recv@[id.0].stopped,
            r == Err::<Reply, HandlerError>(HandlerError::WrongDirection) ==> !may_recv(*old(conn), id)
                || !may_send(*old(conn), id),
            r == Err::<Reply, HandlerError>(HandlerError::Exhausted) ==> old(self).ping_ping_cnt
                == i32::MAX || old(conn).streams.recv@[id.0].assembler.spec_buffered() == usize::MAX
                || !room_for(
                *old(conn),
                id,
                old(conn).streams.recv@[id.0].assembler.spec_buffered() as nat,
                9,
            ),
            r matches Ok(rep) ==> rep.read matches Some(s) && old(self).read_step(
                id,
                s.chunks@.len(),
                s.end,
            ) == Ok::<(Self, Seq<Call>), HandlerError>((*final(self), rep.calls@)) && (stop_after(
                old(self).ping_ping_cnt,
                id.0 != 0,
            ) matches Some(k) ==> s.chunks@.len() <= k) && forall|i: int|
                0 <= i < s.chunks@.len() ==> bytes_view(#[trigger] s.chunks@[i].bytes).len()
                    <= answer_len(id),
    {
        let double = id.0 != 0;
        let stream = match recv_half(conn, id) {
            Ok(s) => s,
            Err(e) => {
                return Err(e);
            },
        };
        let answer = if double {
            pong_pong()
        } else {
            pong()
        };
        let cnt = self.ping_ping_cnt;
        let limit: usize = if double {
            if cnt >= 9 {
                1
            } else {
                (10i64 - cnt as i64) as usize
            }
        } else if cnt >= 10 {
            1
        } else {
            usize::MAX
        };
        let summary = match read_chunks(conn, &stream, answer.len(), limit) {
            Ok(s) => s,
            Err(_) => {
                return Err(HandlerError::Refused);
            },
        };
        let n = summary.chunks.len();
        let new_cnt = if double {
            let total: i64 = cnt as i64 + n as i64;
            if total > i32::MAX as i64 {
                return Err(HandlerError::Exhausted);
            }
            total as i32
        } else {
            cnt
        };
        let stopping = summary.end == ReadEnd::Limit;
        if stopping && !double && cnt < 10 {
            return Err(HandlerError::Exhausted);
        }
        let sends = if stopping {
            n - 1
        } else {
            n
        };
        let mut calls: Vec<Call> = Vec::new();
        let mut k: usize = 0;
        let ghost c0 = *conn;
        let ghost b = old(conn).streams.recv@[id.0].assembler.spec_buffered() as nat;
        proof {
            if room_for(*old(conn), id, b, 9) {
                assert(answer_len(id) * sends <= 9 * b) by (nonlinear_arith)
                    requires
                        sends <= b,
                        answer_len(id) <= 9,
                ;
            }
        }
        while k < sends
            invariant
                conn.wf(),
                k <= sends,
                conn.side == c0.side,
                conn.state == c0.state,
                conn.streams.next == c0.streams.next,
                room_for(c0, id, b, 9) ==> {
                    &&& !conn.state.spec_is_closed() && send_open(*conn, id)
                    &&& conn.streams.send@[id.0].pending.unacked().len() == c0.streams.send@[id.0].pending.unacked().len()
                        + answer_len(id) * k
                    &&& conn.streams.send@[id.0].pending.spec_offset() == c0.streams.send@[id.0].pending.spec_offset()
                        + answer_len(id) * k
                    &&& conn.streams.pending.spec_recency() + k >= c0.streams.pending.spec_recency()
                    &&& answer_len(id) * sends <= 9 * b
                    &&& sends <= b
                },
                answer@.len() == answer_len(id),
                calls@ == repeated(Call::Wrote(id, answer_len(id)), k as nat),
            decreases sends - k,
        {
            match write_on(conn, id, answer.as_slice()) {
                Ok(_) => {},
                Err(e) => {
                    return Err(e);
                },
            }
            calls.push(Call::Wrote(id, answer.len()));
            k = k + 1;
            assert(calls@ =~= repeated(Call::Wrote(id, answer_len(id)), k as nat));
        }
        match summary.end {
            ReadEnd::Limit => {
                let code = match self.client_error_code {
                    Some(c) => c,
                    None => 0,
                };
                match stop_on(conn, id, code) {
                    Ok(_) => {},
                    Err(e) => {
                        return Err(e);
                    },
                }
                calls.push(Call::Stopped(id, code));
                match finish_on(conn, id) {
                    Ok(_) => {},
                    Err(e) => {
                        return Err(e);
                    },
                }
                calls.push(Call::Finished(id));
                self.ping_ping_cnt = new_cnt;
                assert(calls@ =~= repeated(Call::Wrote(id, answer_len(id)), (n - 1) as nat) + seq![
                    Call::Stopped(id, old(self).client_error_code.unwrap_or(0)),
                    Call::Finished(id),
                ]);
            },
            ReadEnd::Finished => {
                return Err(HandlerError::Unexpected);
            },
            ReadEnd::Reset(code) => {
                match finish_on(conn, id) {
                    Ok(_) => {},
                    Err(e) => {
                        return Err(e);
                    },
                }
                calls.push(Call::Finished(id));
                self.ping_ping_cnt = new_cnt;
                self.client_error_code = Some(code);
                assert(calls@ =~= repeated(Call::Wrote(id, answer_len(id)), n as nat) + seq![
                    Call::Finished(id),
                ]);
            },
            ReadEnd::Blocked => {
                self.ping_ping_cnt = new_cnt;
            },
        }
        Ok(Reply { read: Some(summary), calls })
    }
}

/// The file-transfer server: once connected, it sends `content` on a new
/// unidirectional stream and finishes it.
pub struct Cc {
    pub content: Vec<u8>,
}

impl Cc {
    /// Handles one event: on `Connected` the content is sent; other events
    /// are ignored.
    pub fn handle(&self, conn: &mut Connection, event: Event) -> (r: Result<Reply, HandlerError>)
        requires
            old(conn).wf(),
        ensures
            final(conn).wf(),
            event is Connected ==> {
                &&& old(conn).state.spec_is_closed() ==> r == Err::<Reply, HandlerError>(
                    HandlerError::ClosedConnection,
                )
                &&& !old(conn).state.spec_is_closed() && old(conn).streams.next@[1] < u64::MAX
                    && old(conn).streams.pending.spec_recency() >= 2 ==> r is Ok
                &&& r matches Ok(rep) ==> (rep.read is None && rep.calls@.len() == 3
                    && (rep.calls@[0] matches Call::Opened(id) && id.0 == crate::common::spec_stream_id(
                    old(conn).side,
                    crate::common::Dir::Uni,
                    old(conn).streams.next@[1],
                ) && rep.calls@[1] == Call::Wrote(id, self.content@.len() as usize) && rep.calls@[2]
                    == Call::Finished(id)))
            },
            !(event is Connected) ==> (r matches Ok(rep) && rep.read is None && rep.calls@.len() == 0
                && *final(conn) == *old(conn)),
    {
        if !matches!(event, Event::Connected) {
            return Ok(Reply { read: None, calls: Vec::new() });
        }
        let id = match open_on(conn, crate::common::Dir::Uni) {
            Ok(id) => id,
            Err(e) => {
                return Err(e);
            },
        };
        let mut calls: Vec<Call> = Vec::new();
        calls.push(Call::Opened(id));
        proof {
            crate::common::lemma_stream_id_parts(old(conn).side, crate::common::Dir::Uni, old(conn).streams.next@[1]);
        }
        let content_len = self.content.len();
        assert(self.content@.len() == content_len);
        match write_on(conn, id, self.content.as_slice()) {
            Ok(Ok(())) => {},
            Ok(Err(_)) => {
                return Err(HandlerError::Refused);
            },
            Err(e) => {
                return Err(e);
            },
        }
        calls.push(Call::Wrote(id, self.content.len()));
        match finish_on(conn, id) {
            Ok(Ok(())) => {},
            Ok(Err(_)) => {
                return Err(HandlerError::Refused);
            },
            Err(e) => {
                return Err(e);
            },
        }
        calls.push(Call::Finished(id));
        Ok(Reply { read: None, calls })
    }
}

/// The echo server: the first chunk ready on a readable stream is written
/// back on it; a stream the client reset is finished, and one it stopped
/// is stopped back. Other events are ignored.
pub fn echo(conn: &mut Connection, event: Event) -> (r: Result<Reply, HandlerError>)
    requires
        old(conn).wf(),
    ensures
        final(conn).wf(),
        match event {
            Event::Stream(StreamEvent::Readable(id)) => {
                &&& !may_recv(*old(conn), id) ==> r == Err::<Reply, HandlerError>(
                    HandlerError::WrongDirection,
                )
                &&& may_recv(*old(conn), id) && (!old(conn).streams.recv@.contains_key(id.0)
                    || old(conn).streams.recv@[id.0].stopped) ==> (r matches Ok(rep) && rep.read is None
                    && rep.calls@.len() == 0)
                &&& r matches Ok(rep) ==> (rep.read matches Some(s) ==> {
                    &&& s.chunks@.len() <= 1
                    &&& s.chunks@.len() == 1 ==> rep.calls@ == seq![
                        Call::Wrote(id, bytes_view(s.chunks@[0].bytes).len() as usize),
                    ]
                    &&& s.chunks@.len() == 0 ==> s.end != ReadEnd::Finished && rep.calls@ == if s.end is Reset {
                        seq![Call::Finished(id)]
                    } else {
                        Seq::empty()
                    }
                })
            },
            Event::Stream(StreamEvent::Stopped { id, error_code }) => {
                &&& (r is Ok <==> may_recv(*old(conn), id) && old(conn).streams.recv@.contains_key(id.0)
                    && !old(conn).streams.recv@[id.0].stopped)
                &&& !may_recv(*old(conn), id) ==> r == Err::<Reply, HandlerError>(
                    HandlerError::WrongDirection,
                )
                &&& may_recv(*old(conn), id) && !(old(conn).streams.recv@.contains_key(id.0)
                    && !old(conn).streams.recv@[id.0].stopped) ==> r == Err::<Reply, HandlerError>(
                    HandlerError::Refused,
                )
                &&& r matches Ok(rep) ==> rep.read is None && rep.calls@ == seq![
                    Call::Stopped(id, error_code),
                ]
            },
            _ => r matches Ok(rep) && rep.read is None && rep.calls@.len() == 0 && *final(conn)
                == *old(conn),
        },
{
    let mut calls: Vec<Call> = Vec::new();
    match event {
        Event::Stream(StreamEvent::Readable(id)) => {
            let stream = match recv_half(conn, id) {
                Ok(s) => s,
                Err(e) => {
                    return Err(e);
                },
            };
            let summary = match read_chunks(conn, &stream, usize::MAX, 1) {
                Ok(s) => s,
                Err(_) => {
                    return Ok(Reply { read: None, calls });
                },
            };
            if summary.chunks.len() == 1 {
                let bytes = bytes_as_slice(&summary.chunks[0].bytes);
                match write_on(conn, id, bytes) {
                    Ok(_) => {},
                    Err(e) => {
                        return Err(e);
                    },
                }
                calls.push(Call::Wrote(id, bytes.len()));
            } else {
                match summary.end {
                    ReadEnd::Finished => {
                        return Err(HandlerError::Unexpected);
                    },
                    ReadEnd::Reset(_) => {
                        match finish_on(conn, id) {
                            Ok(Ok(())) => {},
                            Ok(Err(_)) => {
                                return Err(HandlerError::Refused);
                            },
                            Err(e) => {
                                return Err(e);
                            },
                        }
                        calls.push(Call::Finished(id));
                    },
                    _ => {},
                }
            }
            Ok(Reply { read: Some(summary), calls })
        },
        Event::Stream(StreamEvent::Stopped { id, error_code }) => {
            match stop_on(conn, id, error_code) {
                Ok(Ok(())) => {},
                Ok(Err(_)) => {
                    return Err(HandlerError::Refused);
                },
                Err(e) => {
                    return Err(e);
                },
            }
            calls.push(Call::Stopped(id, error_code));
            Ok(Reply { read: None, calls })
        },
        _ => Ok(Reply { read: None, calls }),
    }
}

} // verus!
