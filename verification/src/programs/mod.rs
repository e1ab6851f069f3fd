//! The test programs built on the library: what a client and a server do
//! with each event of a connection. Each program reads the streams it is
//! told about and answers through the stream operations; where a program
//! insists on an operation that fails, it gives up with a `HandlerError`,
//! and the program around it stops.
pub mod client;
pub mod server;

use bytes::Bytes;
use vstd::prelude::*;

use crate::buf::bytes_view;
use crate::common::{Dir, StreamId};
use crate::connection::stream::recv::{
    segs_len, Assembler, Chunk, ChunksState, ReadError, ReadableError, Recv, RecvState, RecvStream,
    read_effect,
};
use crate::connection::stream::send::{FinishError, SendStream, WriteError, write_fits};
use crate::connection::stream::ClosedStream;
use crate::connection::stream::state::send_is_fresh;
use crate::connection::{Connection, TIME_LIMIT, same_but_recv};

verus! {

/// Why a program gives up on its connection.
#[derive(Debug, Clone, Copy, PartialEq, Eq, Structural)]
pub enum HandlerError {
    /// A stream half was asked for that the stream does not have on this
    /// side.
    WrongDirection,
    /// A stream was to be opened on a closed connection.
    ClosedConnection,
    /// A counter ran out: stream indices, buffered bytes, or a program's own.
    Exhausted,
    /// A stream operation the program relies on failed.
    Refused,
    /// An event or a stream came that the program does not expect.
    Unexpected,
}

/// How reading a stream ended.
#[derive(Debug, Clone, Copy, PartialEq, Eq, Structural)]
pub enum ReadEnd {
    /// The stream is finished: all of it was read.
    Finished,
    /// No more data is ready for now.
    Blocked,
    /// The peer reset the stream with this code.
    Reset(u64),
    /// As many chunks were read as were asked for.
    Limit,
}

/// The chunks read from a stream, in order, and how the reading ended.
pub struct ReadSummary {
    pub chunks: Vec<Chunk>,
    pub end: ReadEnd,
}

/// One operation a program made on its connection.
#[derive(Debug, Clone, Copy, PartialEq, Eq, Structural)]
pub enum Call {
    /// A stream was opened.
    Opened(StreamId),
    /// So many bytes were written on a stream.
    Wrote(StreamId, usize),
    /// A stream was finished.
    Finished(StreamId),
    /// A stream's sending half was reset with a code.
    Reset(StreamId, u64),
    /// A stream's receiving half was stopped with a code.
    Stopped(StreamId, u64),
    /// A stream's priority was set.
    Prioritized(StreamId, i32),
    /// The connection was closed with a code.
    Closed(u64),
}

/// What a program did with one event: the chunks it read, if it read a
/// stream, and the operations it made on the connection, in order.
pub struct Reply {
    pub read: Option<ReadSummary>,
    pub calls: Vec<Call>,
}

/// `n` times the same operation.
pub open spec fn repeated(c: Call, n: nat) -> Seq<Call> {
    Seq::new(n, |i: int| c)
}

/// Whether this side may read stream `id`: it is bidirectional, or the peer
/// opened it.
pub open spec fn may_recv(conn: Connection, id: StreamId) -> bool {
    id.spec_dir() == Dir::Bi || id.spec_initiator() != conn.side
}

/// Whether this side may write on stream `id`: it is bidirectional, or this
/// side opened it.
pub open spec fn may_send(conn: Connection, id: StreamId) -> bool {
    id.spec_dir() == Dir::Bi || id.spec_initiator() == conn.side
}

/// Whether the sending half of stream `id` takes data: it exists, is
/// ready, and the peer did not ask to stop it.
pub open spec fn send_open(conn: Connection, id: StreamId) -> bool {
    &&& conn.streams.send@.contains_key(id.0)
    &&& conn.streams.send@[id.0].state == crate::connection::stream::send::SendState::Ready
    &&& conn.streams.send@[id.0].stop_reason is None
}

/// The receiving half of stream `id`, which must be one this side reads.
pub fn recv_half(conn: &mut Connection, id: StreamId) -> (r: Result<RecvStream, HandlerError>)
    ensures
        *final(conn) == *old(conn),
        may_recv(*old(conn), id) ==> r == Ok::<RecvStream, HandlerError>(RecvStream { id }),
        !may_recv(*old(conn), id) ==> r == Err::<RecvStream, HandlerError>(
            HandlerError::WrongDirection,
        ),
{
    if id.dir() == Dir::Bi || id.initiator() != conn.side {
        Ok(conn.recv_stream(id))
    } else {
        Err(HandlerError::WrongDirection)
    }
}

/// The sending half of stream `id`, which must be one this side writes.
pub fn send_half(conn: &mut Connection, id: StreamId) -> (r: Result<SendStream, HandlerError>)
    ensures
        *final(conn) == *old(conn),
        may_send(*old(conn), id) ==> r == Ok::<SendStream, HandlerError>(SendStream { id }),
        !may_send(*old(conn), id) ==> r == Err::<SendStream, HandlerError>(
            HandlerError::WrongDirection,
        ),
{
    if id.dir() == Dir::Bi || id.initiator() == conn.side {
        Ok(conn.send_stream(id))
    } else {
        Err(HandlerError::WrongDirection)
    }
}

/// Whether reading `chunks` one after the other, each of at most
/// `max_length` bytes, takes assembler `a0` to `a1`.
pub open spec fn reads(a0: Assembler, max_length: usize, chunks: Seq<Chunk>, a1: Assembler) -> bool
    decreases chunks.len(),
{
    if chunks.len() == 0 {
        a1 == a0
    } else {
        exists|am: Assembler|
            #![trigger read_effect(a0, am, max_length, Some(chunks[0]))]
            read_effect(a0, am, max_length, Some(chunks[0])) && reads(
                am,
                max_length,
                chunks.drop_first(),
                a1,
            )
    }
}

/// One more chunk read after `chunks` extends the reading.
proof fn lemma_reads_push(
    a0: Assembler,
    max_length: usize,
    chunks: Seq<Chunk>,
    a1: Assembler,
    c: Chunk,
    a2: Assembler,
)
    requires
        reads(a0, max_length, chunks, a1),
        read_effect(a1, a2, max_length, Some(c)),
    ensures
        reads(a0, max_length, chunks.push(c), a2),
    decreases chunks.len(),
{
    if chunks.len() == 0 {
        assert(chunks.push(c).drop_first() =~= Seq::<Chunk>::empty());
        assert(reads(a2, max_length, Seq::<Chunk>::empty(), a2));
        assert(chunks.push(c)[0] == c);
        assert(read_effect(a0, a2, max_length, Some(chunks.push(c)[0])));
    } else {
        let am = choose|am: Assembler|
            #![trigger read_effect(a0, am, max_length, Some(chunks[0]))]
            read_effect(a0, am, max_length, Some(chunks[0])) && reads(
                am,
                max_length,
                chunks.drop_first(),
                a1,
            );
        lemma_reads_push(am, max_length, chunks.drop_first(), a1, c, a2);
        assert(chunks.push(c).drop_first() =~= chunks.drop_first().push(c));
        assert(chunks.push(c)[0] == chunks[0]);
        assert(read_effect(a0, am, max_length, Some(chunks.push(c)[0])));
    }
}

/// The number of bytes in the chunks.
pub open spec fn chunks_len(chunks: Seq<Chunk>) -> nat
    decreases chunks.len(),
{
    if chunks.len() == 0 {
        0
    } else {
        bytes_view(chunks[0].bytes).len() + chunks_len(chunks.drop_first())
    }
}

/// Successive reads hand out the stream in order: the first chunk starts
/// where reading stood, each next one where the one before ended, and what
/// was read grows by the chunks' lengths.
pub proof fn lemma_reads_in_order(a0: Assembler, max_length: usize, chunks: Seq<Chunk>, a1: Assembler)
    requires
        reads(a0, max_length, chunks, a1),
    ensures
        chunks.len() > 0 ==> chunks[0].offset == a0.spec_bytes_read(),
        forall|i: int|
            0 <= i < chunks.len() - 1 ==> (#[trigger] chunks[i + 1]).offset == chunks[i].offset
                + bytes_view(chunks[i].bytes).len(),
        a1.spec_bytes_read() == a0.spec_bytes_read() + chunks_len(chunks),
    decreases chunks.len(),
{
    if chunks.len() > 0 {
        let am = choose|am: Assembler|
            #![trigger read_effect(a0, am, max_length, Some(chunks[0]))]
            read_effect(a0, am, max_length, Some(chunks[0])) && reads(
                am,
                max_length,
                chunks.drop_first(),
                a1,
            );
        lemma_reads_in_order(am, max_length, chunks.drop_first(), a1);
        let segs = a0.segments();
        if max_length < segs[0].1.len() {
            assert(bytes_view(chunks[0].bytes).len() == max_length);
        }
        assert forall|i: int| 0 <= i < chunks.len() - 1 implies (#[trigger] chunks[i + 1]).offset
            == chunks[i].offset + bytes_view(chunks[i].bytes).len() by {
            if i > 0 {
                assert(chunks.drop_first()[i - 1] == chunks[i]);
                assert(chunks.drop_first()[i] == chunks[i + 1]);
            } else {
                assert(chunks.drop_first()[0] == chunks[1]);
            }
        }
    }
}

/// The bytes of segments are those of the first and those of the rest.
proof fn lemma_segs_len_first(segs: Seq<(u64, Seq<u8>)>)
    requires
        segs.len() > 0,
    ensures
        segs_len(segs) == segs[0].1.len() + segs_len(segs.drop_first()),
    decreases segs.len(),
{
    if segs.len() > 1 {
        lemma_segs_len_first(segs.drop_last());
        assert(segs.drop_last().drop_first() =~= segs.drop_first().drop_last());
        assert(segs.drop_last()[0] == segs[0]);
    } else {
        assert(segs.drop_first() =~= Seq::<(u64, Seq<u8>)>::empty());
        assert(segs.drop_last() =~= Seq::<(u64, Seq<u8>)>::empty());
    }
}

/// Each chunk read takes at least one byte out of the buffered segments,
/// so no more chunks are read than bytes were buffered.
proof fn lemma_reads_count(a0: Assembler, max_length: usize, chunks: Seq<Chunk>, a1: Assembler)
    requires
        reads(a0, max_length, chunks, a1),
        max_length >= 1,
        forall|i: int| 0 <= i < a0.segments().len() ==> #[trigger] a0.segments()[i].1.len() > 0,
    ensures
        chunks.len() + segs_len(a1.segments()) <= segs_len(a0.segments()),
        chunks_len(chunks) + segs_len(a1.segments()) == segs_len(a0.segments()),
    decreases chunks.len(),
{
    if chunks.len() > 0 {
        let am = choose|am: Assembler|
            #![trigger read_effect(a0, am, max_length, Some(chunks[0]))]
            read_effect(a0, am, max_length, Some(chunks[0])) && reads(
                am,
                max_length,
                chunks.drop_first(),
                a1,
            );
        let segs = a0.segments();
        lemma_segs_len_first(segs);
        if max_length < segs[0].1.len() {
            let ns = am.segments();
            assert(bytes_view(chunks[0].bytes).len() == max_length);
            lemma_segs_len_first(ns);
            assert(ns.drop_first() =~= segs.drop_first());
            assert forall|i: int| 0 <= i < ns.len() implies #[trigger] ns[i].1.len() > 0 by {
                if i > 0 {
                    assert(ns[i] == segs[i]);
                }
            }
        } else {
            assert forall|i: int| 0 <= i < am.segments().len() implies #[trigger] am.segments()[i].1.len()
                > 0 by {
                assert(am.segments()[i] == segs[i + 1]);
            }
        }
        lemma_reads_count(am, max_length, chunks.drop_first(), a1);
    }
}

/// Reads stream `stream` in order, chunks of at most `max_length` bytes,
/// until it has nothing ready, is finished or reset, or `limit` chunks were
/// read; the stream is then put back. A stream that is gone or stopped
/// cannot be read.
pub fn read_chunks(conn: &mut Connection, stream: &RecvStream, max_length: usize, limit: usize) -> (r:
    Result<ReadSummary, ReadableError>)
    requires
        old(conn).wf(),
    ensures
        final(conn).wf(),
        same_but_recv(*final(conn), *old(conn)),
        (!old(conn).streams.recv@.contains_key(stream.id.0) || old(conn).streams.recv@[stream.id.0].stopped)
            <==> r is Err,
        r is Err ==> r == Err::<ReadSummary, ReadableError>(ReadableError::ClosedStream)
            && final(conn).streams.recv@ == old(conn).streams.recv@,
        r matches Ok(s) ==> (max_length >= 1 ==> s.chunks@.len() <= old(
            conn,
        ).streams.recv@[stream.id.0].assembler.spec_buffered() && chunks_len(s.chunks@) <= old(
            conn,
        ).streams.recv@[stream.id.0].assembler.spec_buffered()),
        r matches Ok(s) ==> {
            let rs = old(conn).streams.recv@[stream.id.0];
            &&& s.chunks@.len() <= limit
            &&& (s.end == ReadEnd::Limit <==> s.chunks@.len() == limit)
            &&& forall|i: int|
                0 <= i < s.chunks@.len() ==> bytes_view(#[trigger] s.chunks@[i].bytes).len()
                    <= max_length
            &&& exists|a1: Assembler|
                #![trigger reads(rs.assembler, max_length, s.chunks@, a1)]
                reads(rs.assembler, max_length, s.chunks@, a1) && match s.end {
                    ReadEnd::Finished => !final(conn).streams.recv@.contains_key(stream.id.0)
                        && rs.state is Recv,
                    ReadEnd::Reset(code) => !final(conn).streams.recv@.contains_key(stream.id.0)
                        && (rs.state matches RecvState::ResetRecvd { error_code, .. } && error_code
                        == code),
                    _ => final(conn).streams.recv@ == old(conn).streams.recv@.insert(
                        stream.id.0,
                        Recv { assembler: a1, ..rs },
                    ),
                }
        },
{
    let mut chunks = match stream.read(conn, true) {
        Ok(c) => c,
        Err(e) => {
            return Err(e);
        },
    };
    let ghost c1 = *conn;
    let ghost rs0 = old(conn).streams.recv@[stream.id.0];
    let mut out: Vec<Chunk> = Vec::new();
    let mut end = ReadEnd::Limit;
    proof {
        assert(reads(rs0.assembler, max_length, out@, rs0.assembler));
    }
    while out.len() < limit
        invariant_except_break
            end == ReadEnd::Limit,
            chunks.state matches ChunksState::Readable(rs) && rs == (Recv {
                assembler: rs.assembler,
                ..rs0
            }) && reads(rs0.assembler, max_length, out@, rs.assembler),
        invariant
            chunks.wf(),
            chunks.id == stream.id,
            *conn == c1,
            conn.wf(),
            out@.len() <= limit,
            forall|i: int|
                0 <= i < out@.len() ==> bytes_view(#[trigger] out@[i].bytes).len() <= max_length,
        ensures
            end == ReadEnd::Limit <==> out@.len() == limit,
            out@.len() <= limit,
            exists|a1: Assembler|
                #![trigger reads(rs0.assembler, max_length, out@, a1)]
                reads(rs0.assembler, max_length, out@, a1) && match end {
                    ReadEnd::Finished => chunks.state is Finished && rs0.state is Recv,
                    ReadEnd::Reset(code) => chunks.state == ChunksState::Reset(code) && (
                    rs0.state matches RecvState::ResetRecvd { error_code, .. } && error_code
                        == code),
                    _ => chunks.state == ChunksState::Readable(Recv { assembler: a1, ..rs0 }),
                },
        decreases limit - out@.len(),
    {
        let ghost before = chunks;
        let ghost out0 = out@;
        match chunks.next(max_length) {
            Ok(Some(c)) => {
                proof {
                    let st0 = before.state;
                    if let ChunksState::Readable(rs) = st0 {
                        let segs = rs.assembler.segments();
                        if max_length < segs[0].1.len() {
                            assert(bytes_view(c.bytes).len() == max_length);
                        }
                        let after = chunks.state;
                        if let ChunksState::Readable(rs1) = after {
                            lemma_reads_push(
                                rs0.assembler,
                                max_length,
                                out0,
                                rs.assembler,
                                c,
                                rs1.assembler,
                            );
                        }
                    }
                }
                out.push(c);
            },
            Ok(None) => {
                end = ReadEnd::Finished;
                proof {
                    let st0 = before.state;
                    if let ChunksState::Readable(rs) = st0 {
                        assert(reads(rs0.assembler, max_length, out@, rs.assembler));
                    }
                }
                break ;
            },
            Err(ReadError::Blocked) => {
                end = ReadEnd::Blocked;
                proof {
                    let st0 = before.state;
                    if let ChunksState::Readable(rs) = st0 {
                        assert(reads(rs0.assembler, max_length, out@, rs.assembler));
                    }
                }
                break ;
            },
            Err(ReadError::Reset(code)) => {
                end = ReadEnd::Reset(code);
                proof {
                    let st0 = before.state;
                    if let ChunksState::Readable(rs) = st0 {
                        assert(reads(rs0.assembler, max_length, out@, rs.assembler));
                    }
                }
                break ;
            },
        }
    }
    let ghost cs = chunks;
    chunks.finalize(&mut conn.streams);
    proof {
        let a1 = choose|a1: Assembler|
            #![trigger reads(rs0.assembler, max_length, out@, a1)]
            reads(rs0.assembler, max_length, out@, a1) && match end {
                ReadEnd::Finished => cs.state is Finished && rs0.state is Recv,
                ReadEnd::Reset(code) => cs.state == ChunksState::Reset(code) && (
                rs0.state matches RecvState::ResetRecvd { error_code, .. } && error_code == code),
                _ => cs.state == ChunksState::Readable(Recv { assembler: a1, ..rs0 }),
            };
        assert(reads(rs0.assembler, max_length, out@, a1));
        assert(rs0 == old(conn).streams.recv@[stream.id.0]);
        match end {
            ReadEnd::Finished => {
                assert(!conn.streams.recv@.contains_key(stream.id.0));
                assert(rs0.state is Recv);
            },
            ReadEnd::Reset(code) => {
                assert(!conn.streams.recv@.contains_key(stream.id.0));
                assert(rs0.state matches RecvState::ResetRecvd { error_code, .. } && error_code == code);
            },
            _ => {
                assert(conn.streams.recv@ =~= old(conn).streams.recv@.insert(
                    stream.id.0,
                    Recv { assembler: a1, ..rs0 },
                ));
            },
        }
    }
    let summary = ReadSummary { chunks: out, end };
    proof {
        let a1 = choose|a1: Assembler|
            #![trigger reads(rs0.assembler, max_length, summary.chunks@, a1)]
            reads(rs0.assembler, max_length, summary.chunks@, a1) && match summary.end {
                ReadEnd::Finished => !conn.streams.recv@.contains_key(stream.id.0)
                    && rs0.state is Recv,
                ReadEnd::Reset(code) => !conn.streams.recv@.contains_key(stream.id.0) && (
                rs0.state matches RecvState::ResetRecvd { error_code, .. } && error_code == code),
                _ => conn.streams.recv@ == old(conn).streams.recv@.insert(
                    stream.id.0,
                    Recv { assembler: a1, ..rs0 },
                ),
            };
        assert(reads(rs0.assembler, max_length, summary.chunks@, a1));
        if max_length >= 1 {
            rs0.assembler.lemma_buffered();
            lemma_reads_count(rs0.assembler, max_length, summary.chunks@, a1);
        }
    }
    Ok(summary)
}

/// Writes `data` on stream `id`, once it is known that this side writes on
/// it and that its counters have room for `data`.
pub fn write_on(conn: &mut Connection, id: StreamId, data: &[u8]) -> (r: Result<
    Result<(), WriteError>,
    HandlerError,
>)
    requires
        old(conn).wf(),
    ensures
        final(conn).wf(),
        !may_send(*old(conn), id) ==> r == Err::<Result<(), WriteError>, HandlerError>(
            HandlerError::WrongDirection,
        ),
        may_send(*old(conn), id) && !write_fits(*old(conn), id, data@.len()) ==> r == Err::<
            Result<(), WriteError>,
            HandlerError,
        >(HandlerError::Exhausted),
        r is Err ==> *final(conn) == *old(conn),
        r is Ok <==> may_send(*old(conn), id) && write_fits(*old(conn), id, data@.len()),
        r matches Ok(w) ==> {
            &&& final(conn).side == old(conn).side
            &&& final(conn).streams.next == old(conn).streams.next
            &&& !old(conn).state.spec_is_closed() && send_open(*old(conn), id) ==> w is Ok
                && send_open(*final(conn), id) && final(conn).streams.pending.spec_recency() + 1
                >= old(conn).streams.pending.spec_recency() && final(conn).streams.send@[id.0].pending.unacked().len()
                == old(conn).streams.send@[id.0].pending.unacked().len() + data@.len()
                && final(conn).streams.send@[id.0].pending.spec_offset()
                == old(conn).streams.send@[id.0].pending.spec_offset() + data@.len()
            &&& final(conn).state == old(conn).state
            &&& final(conn).spaces == old(conn).spaces
            &&& final(conn).streams.recv@ == old(conn).streams.recv@
            &&& old(conn).state.spec_is_closed() ==> w == Err::<(), WriteError>(WriteError::Blocked)
                && *final(conn) == *old(conn)
            &&& !old(conn).state.spec_is_closed() && old(conn).streams.send@.contains_key(id.0)
                ==> SendStream::write_done(
                id,
                old(conn).streams.send@[id.0],
                *old(conn),
                *final(conn),
                data@,
                w,
            )
        },
{
    let stream = match send_half(conn, id) {
        Ok(s) => s,
        Err(e) => {
            return Err(e);
        },
    };
    if !stream.can_write(conn, data.len()) {
        return Err(HandlerError::Exhausted);
    }
    let w = stream.write(conn, data);
    proof {
        if !old(conn).state.spec_is_closed() && send_open(*old(conn), id) {
            let s0 = old(conn).streams.send@[id.0];
            let s1 = choose|s1: crate::connection::stream::send::Send|
                #![trigger crate::connection::stream::send::write_effect(s0, s1, data@, w)]
                crate::connection::stream::send::write_effect(s0, s1, data@, w) && s1.pending.wf()
                    && conn.streams.send@ == old(conn).streams.send@.insert(id.0, s1) && if w is Ok
                    && !crate::connection::stream::send::send_pending(s0) {
                    conn.streams.pending.queued() == old(conn).streams.pending.queued().push(
                        crate::connection::stream::state::PendingStream {
                            priority: s0.priority,
                            recency: (old(conn).streams.pending.spec_recency() - 1) as u64,
                            id,
                        },
                    ) && conn.streams.pending.spec_recency() == old(conn).streams.pending.spec_recency()
                        - 1 && conn.streams.pending.spec_next() == old(
                        conn,
                    ).streams.pending.spec_next()
                } else {
                    conn.streams.pending == old(conn).streams.pending
                };
            assert(w is Ok);
            assert(conn.streams.send@[id.0] == s1);
        }
    }
    Ok(w)
}

/// Finishes stream `id`, once it is known that this side writes on it and
/// that the connection's round-robin counter has room.
pub fn finish_on(conn: &mut Connection, id: StreamId) -> (r: Result<Result<(), FinishError>, HandlerError>)
    requires
        old(conn).wf(),
    ensures
        final(conn).wf(),
        !may_send(*old(conn), id) ==> r == Err::<Result<(), FinishError>, HandlerError>(
            HandlerError::WrongDirection,
        ),
        may_send(*old(conn), id) && old(conn).streams.pending.spec_recency() == 0 ==> r == Err::<
            Result<(), FinishError>,
            HandlerError,
        >(HandlerError::Exhausted),
        r is Err ==> *final(conn) == *old(conn),
        r is Ok <==> may_send(*old(conn), id) && old(conn).streams.pending.spec_recency() > 0,
        r matches Ok(f) ==> {
            &&& final(conn).side == old(conn).side
            &&& final(conn).streams.next == old(conn).streams.next
            &&& final(conn).streams.pending.spec_recency() + 1 >= old(conn).streams.pending.spec_recency()
            &&& final(conn).state == old(conn).state
            &&& final(conn).spaces == old(conn).spaces
            &&& final(conn).streams.recv@ == old(conn).streams.recv@
            &&& !old(conn).streams.send@.contains_key(id.0) ==> f == Err::<(), FinishError>(
                FinishError::ClosedStream,
            ) && *final(conn) == *old(conn)
            &&& old(conn).streams.send@.contains_key(id.0) ==> {
                let s0 = old(conn).streams.send@[id.0];
                &&& s0.stop_reason matches Some(code) ==> f == Err::<(), FinishError>(
                    FinishError::Stopped(code),
                )
                &&& s0.stop_reason is None ==> (f is Ok <==> s0.state
                    == crate::connection::stream::send::SendState::Ready)
            }
        },
{
    let stream = match send_half(conn, id) {
        Ok(s) => s,
        Err(e) => {
            return Err(e);
        },
    };
    if conn.streams.pending.recency() == 0 {
        return Err(HandlerError::Exhausted);
    }
    Ok(stream.finish(conn))
}

/// Opens a stream of direction `dir`, on a connection that is not closed
/// and has stream indices left.
pub fn open_on(conn: &mut Connection, dir: Dir) -> (r: Result<StreamId, HandlerError>)
    requires
        old(conn).wf(),
    ensures
        final(conn).wf(),
        old(conn).state.spec_is_closed() ==> r == Err::<StreamId, HandlerError>(
            HandlerError::ClosedConnection,
        ),
        !old(conn).state.spec_is_closed() && old(conn).streams.next@[dir.spec_bit() as int]
            == u64::MAX ==> r == Err::<StreamId, HandlerError>(HandlerError::Exhausted),
        r is Err ==> *final(conn) == *old(conn),
        r matches Ok(id) ==> {
            &&& !old(conn).state.spec_is_closed()
            &&& old(conn).streams.next@[dir.spec_bit() as int] < u64::MAX
            &&& id.0 == crate::common::spec_stream_id(
                old(conn).side,
                dir,
                old(conn).streams.next@[dir.spec_bit() as int],
            )
            &&& final(conn).streams.send@.contains_key(id.0)
            &&& send_is_fresh(final(conn).streams.send@[id.0])
            &&& dir == Dir::Bi ==> final(conn).streams.recv@.contains_key(id.0)
            &&& final(conn).state == old(conn).state
            &&& final(conn).streams.pending == old(conn).streams.pending
            &&& final(conn).side == old(conn).side
            &&& final(conn).streams.next@ == old(conn).streams.next@.update(
                dir.spec_bit() as int,
                (old(conn).streams.next@[dir.spec_bit() as int] + 1) as u64,
            )
        },
        !old(conn).state.spec_is_closed() && old(conn).streams.next@[dir.spec_bit() as int]
            < u64::MAX ==> r is Ok,
{
    if conn.state.is_closed() {
        return Err(HandlerError::ClosedConnection);
    }
    let next = match dir {
        Dir::Bi => conn.streams.next[0],
        Dir::Uni => conn.streams.next[1],
    };
    if next == u64::MAX {
        return Err(HandlerError::Exhausted);
    }
    Ok(conn.open_stream(dir))
}

/// Resets the sending half of stream `id` with `error_code`, once it is
/// known that this side writes on it.
pub fn reset_on(conn: &mut Connection, id: StreamId, error_code: u64) -> (r: Result<
    Result<(), ClosedStream>,
    HandlerError,
>)
    requires
        old(conn).wf(),
    ensures
        final(conn).wf(),
        r is Ok <==> may_send(*old(conn), id),
        r is Err ==> r == Err::<Result<(), ClosedStream>, HandlerError>(HandlerError::WrongDirection)
            && *final(conn) == *old(conn),
        r matches Ok(x) ==> {
            &&& final(conn).state == old(conn).state
            &&& final(conn).streams.recv@ == old(conn).streams.recv@
            &&& final(conn).streams.pending == old(conn).streams.pending
            &&& final(conn).streams.next == old(conn).streams.next
            &&& final(conn).side == old(conn).side
            &&& (x is Ok <==> old(conn).streams.send@.contains_key(id.0)
                && old(conn).streams.send@[id.0].state
                != crate::connection::stream::send::SendState::ResetSent)
            &&& x is Ok ==> final(conn).spaces@[2].pending.reset_stream@ == old(
                conn,
            ).spaces@[2].pending.reset_stream@.push((id, error_code))
        },
{
    let stream = match send_half(conn, id) {
        Ok(s) => s,
        Err(e) => {
            return Err(e);
        },
    };
    Ok(stream.reset(conn, error_code))
}

/// Stops the receiving half of stream `id` with `error_code`, once it is
/// known that this side reads it.
pub fn stop_on(conn: &mut Connection, id: StreamId, error_code: u64) -> (r: Result<
    Result<(), ClosedStream>,
    HandlerError,
>)
    requires
        old(conn).wf(),
    ensures
        final(conn).wf(),
        r is Ok <==> may_recv(*old(conn), id),
        r is Err ==> r == Err::<Result<(), ClosedStream>, HandlerError>(HandlerError::WrongDirection)
            && *final(conn) == *old(conn),
        r matches Ok(x) ==> {
            &&& final(conn).state == old(conn).state
            &&& final(conn).streams.send@ == old(conn).streams.send@
            &&& final(conn).streams.pending == old(conn).streams.pending
            &&& final(conn).streams.next == old(conn).streams.next
            &&& final(conn).side == old(conn).side
            &&& (x is Ok <==> old(conn).streams.recv@.contains_key(id.0)
                && !old(conn).streams.recv@[id.0].stopped)
        },
{
    let stream = match recv_half(conn, id) {
        Ok(s) => s,
        Err(e) => {
            return Err(e);
        },
    };
    Ok(stream.stop(conn, error_code))
}

/// Sets the priority of stream `id`, once it is known that this side writes
/// on it.
pub fn prioritize_on(conn: &mut Connection, id: StreamId, priority: i32) -> (r: Result<
    Result<(), ClosedStream>,
    HandlerError,
>)
    requires
        old(conn).wf(),
    ensures
        final(conn).wf(),
        r is Ok <==> may_send(*old(conn), id),
        r is Err ==> r == Err::<Result<(), ClosedStream>, HandlerError>(HandlerError::WrongDirection)
            && *final(conn) == *old(conn),
        r matches Ok(x) ==> {
            &&& final(conn).state == old(conn).state
            &&& final(conn).streams.recv@ == old(conn).streams.recv@
            &&& final(conn).streams.pending == old(conn).streams.pending
            &&& (x is Ok <==> old(conn).streams.send@.contains_key(id.0))
            &&& x is Ok ==> final(conn).streams.send@ == old(conn).streams.send@.insert(
                id.0,
                crate::connection::stream::send::Send { priority, ..old(conn).streams.send@[id.0] },
            )
            &&& final(conn).side == old(conn).side
            &&& final(conn).streams.next == old(conn).streams.next
            &&& send_open(*old(conn), id) ==> send_open(*final(conn), id)
        },
{
    let stream = match send_half(conn, id) {
        Ok(s) => s,
        Err(e) => {
            return Err(e);
        },
    };
    Ok(stream.set_priority(conn, priority))
}

/// Closes the connection with `error_code` and `reason`, at `now`.
pub fn close_with(conn: &mut Connection, now: u64, error_code: u64, reason: Bytes)
    requires
        old(conn).wf(),
        now < TIME_LIMIT,
    ensures
        final(conn).wf(),
        final(conn).state.spec_is_closed(),
        old(conn).state.spec_is_closed() ==> *final(conn) == *old(conn),
        !old(conn).state.spec_is_closed() ==> final(conn).state
            == crate::connection::State::Closed(
            crate::frame::ConnectionClose::Application(
                crate::frame::ApplicationClose { error_code, reason },
            ),
        ),
{
    conn.close(now, error_code, reason);
}

} // verus!
