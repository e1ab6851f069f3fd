//! The sending half of a stream: its state and its buffer of outgoing data.
use core::ops::Range;
use std::collections::VecDeque;

use bytes::Bytes;
use vstd::prelude::*;

use crate::buf::{bytes_copy_from_slice, bytes_len, bytes_view};
use crate::range_set::{RangeSet, ranges_contain};
use crate::common::StreamId;
use crate::connection::Connection;
use crate::varint::{VARINT_MAX, spec_varint_len, varint_len};

use super::ClosedStream;
use super::state::PendingStream;

verus! {

#[derive(Debug, Copy, Clone, Eq, PartialEq, Structural)]
pub enum SendState {
    /// Sending new data
    Ready,
    /// Stream was finished; now sending retransmits only
    DataSent { finish_acked: bool },
    /// Sent RESET
    ResetSent,
}

impl Default for SendState {
    fn default() -> (r: Self)
        ensures
            r == SendState::Ready,
    {
        SendState::Ready
    }
}

/// The bytes of a sequence of buffers, one after the other.
pub open spec fn concat_bytes(segs: Seq<Bytes>) -> Seq<u8>
    decreases segs.len(),
{
    if segs.len() == 0 {
        Seq::empty()
    } else {
        concat_bytes(segs.drop_last()) + bytes_view(segs.last())
    }
}

/// Buffer of outgoing retransmittable stream data
pub struct SendBuffer {
    /// Data queued by the application but not yet acknowledged. May or may not
    /// have been sent.
    unacked_segments: VecDeque<Bytes>,
    /// Total size of `unacked_segments`
    unacked_len: usize,
    /// The first offset that hasn't been written by the application, i.e. the
    /// offset past the end of `unacked`
    offset: u64,
    /// The first offset that hasn't been sent
    unsent: u64,
    /// Acknowledged ranges which couldn't be discarded yet as they don't
    /// include the earliest offset in `unacked`
    acks: RangeSet,
    /// Previously transmitted ranges deemed lost
    retransmits: RangeSet,
}

impl SendBuffer {
    /// The counters agree with the buffered data, nothing unwritten was
    /// sent, and the range sets are well formed.
    pub closed spec fn wf(&self) -> bool {
        &&& self.unacked_len == concat_bytes(self.unacked_segments@).len()
        &&& self.unsent <= self.offset
        &&& self.acks.wf()
        &&& self.retransmits.wf()
    }

    /// The data queued and not yet acknowledged.
    pub closed spec fn unacked(&self) -> Seq<u8> {
        concat_bytes(self.unacked_segments@)
    }

    /// The first offset not written by the application.
    pub closed spec fn spec_offset(&self) -> u64 {
        self.offset
    }

    /// The first offset not yet sent.
    pub closed spec fn spec_unsent(&self) -> u64 {
        self.unsent
    }

    /// The ranges sent but deemed lost.
    pub closed spec fn lost(&self) -> Seq<(u64, u64)> {
        self.retransmits@
    }

    /// An empty buffer.
    pub fn new() -> (r: Self)
        ensures
            r.wf(),
            r.unacked() == Seq::<u8>::empty(),
            r.spec_offset() == 0,
            r.spec_unsent() == 0,
            r.lost().len() == 0,
    {
        SendBuffer {
            unacked_segments: VecDeque::new(),
            unacked_len: 0,
            offset: 0,
            unsent: 0,
            acks: RangeSet::new(),
            retransmits: RangeSet::new(),
        }
    }

    /// Append application data to the end of the stream
    pub fn write(&mut self, data: Bytes)
        requires
            old(self).wf(),
            old(self).unacked().len() + bytes_view(data).len() <= usize::MAX,
            old(self).spec_offset() + bytes_view(data).len() <= u64::MAX,
        ensures
            final(self).wf(),
            final(self).unacked() == old(self).unacked() + bytes_view(data),
            final(self).spec_offset() == old(self).spec_offset() + bytes_view(data).len(),
            final(self).spec_unsent() == old(self).spec_unsent(),
            final(self).lost() == old(self).lost(),
    {
        let n = bytes_len(&data);
        self.unacked_len = self.unacked_len + n;
        self.offset = self.offset + n as u64;
        let ghost segs = self.unacked_segments@;
        self.unacked_segments.push_back(data);
        assert(self.unacked_segments@.drop_last() == segs);
    }

    /// Compute the next range of new data to transmit on this stream and
    /// update state to account for that transmission.
    ///
    /// `max_len` here includes the space which is available to transmit the
    /// offset and length of the data to send. The caller has to guarantee that
    /// there is at least enough space available to write maximum-sized metadata
    /// (8 byte offset + 8 byte length). Sending again data deemed lost is not
    /// supported: no lost range may be queued.
    ///
    /// The method returns a tuple:
    /// - The first return value indicates the range of data to send
    /// - The second return value indicates whether the length needs to be
    ///   encoded in the STREAM frames metadata (`true`), or whether it can be
    ///   omitted since the selected range will fill the whole packet.
    pub fn poll_transmit(&mut self, max_len: usize) -> (r: (Range<u64>, bool))
        requires
            old(self).wf(),
            max_len >= 16,
            old(self).lost().len() == 0,
            old(self).spec_unsent() <= VARINT_MAX,
        ensures
            final(self).wf(),
            ({
                let unsent = old(self).spec_unsent();
                let offset = old(self).spec_offset();
                let room = if unsent != 0 {
                    max_len - spec_varint_len(unsent)
                } else {
                    max_len as int
                };
                let encode_length = offset - unsent < room;
                let room2 = if encode_length {
                    room - 8
                } else {
                    room
                };
                let end = if offset < room2 + unsent {
                    offset as int
                } else {
                    room2 + unsent
                };
                &&& r.1 == encode_length
                &&& r.0.start == unsent
                &&& r.0.end == end
            }),
            old(self).spec_unsent() <= r.0.end <= old(self).spec_offset(),
            final(self).spec_unsent() == r.0.end,
            final(self).spec_offset() == old(self).spec_offset(),
            final(self).unacked() == old(self).unacked(),
            final(self).lost() == old(self).lost(),
    {
        let mut max_len = max_len;
        let mut encode_length = false;
        // Transmit new data
        // When the offset is known, we know how many bytes are required to encode it.
        // Offset 0 requires no space
        if self.unsent != 0 {
            max_len -= varint_len(self.unsent);
        }
        if self.offset - self.unsent < max_len as u64 {
            encode_length = true;
            max_len -= 8;
        }
        let room = (max_len as u64).saturating_add(self.unsent);
        let end = if self.offset < room {
            self.offset
        } else {
            room
        };
        let result = self.unsent..end;
        self.unsent = end;
        (result, encode_length)
    }

    /// Queue a range of sent but unacknowledged data to be retransmitted;
    /// an empty range queues nothing.
    pub fn retransmit(&mut self, range: Range<u64>)
        requires
            old(self).wf(),
            range.end <= old(self).spec_unsent(),
        ensures
            final(self).wf(),
            forall|x: int| #[trigger]
                ranges_contain(final(self).lost(), x) <==> (ranges_contain(old(self).lost(), x)
                    || range.start <= x < range.end),
            final(self).unacked() == old(self).unacked(),
            final(self).spec_offset() == old(self).spec_offset(),
            final(self).spec_unsent() == old(self).spec_unsent(),
    {
        if range.start < range.end {
            self.retransmits.insert(range.start, range.end);
            assert forall|x: int| #[trigger]
                ranges_contain(self.lost(), x) <==> (ranges_contain(old(self).lost(), x)
                    || range.start <= x < range.end) by {
                assert(self.retransmits.contains(x) <==> (old(self).retransmits.contains(x)
                    || range.start <= x < range.end));
            }
        }
    }

    /// First stream offset unwritten by the application, i.e. the offset that
    /// the next write will begin at
    pub fn offset(&self) -> (r: u64)
        ensures
            r == self.spec_offset(),
    {
        self.offset
    }

    /// Whether all sent data has been acknowledged
    pub fn is_fully_acked(&self) -> (r: bool)
        requires
            self.wf(),
        ensures
            r == (self.unacked().len() == 0),
    {
        self.unacked_len == 0
    }

    /// Whether there's data to send
    ///
    /// There may be sent unacknowledged data even when this is false.
    pub fn has_unsent_data(&self) -> (r: bool)
        ensures
            r == (self.spec_unsent() != self.spec_offset() || self.lost().len() != 0),
    {
        self.unsent != self.offset || !self.retransmits.is_empty()
    }
}

/// What `Send::write` does: a stream no longer ready, or stopped, refuses
/// the data and is left as it was; otherwise the data is queued after what
/// was written.
pub open spec fn write_effect(old: Send, new: Send, data: Seq<u8>, r: Result<(), WriteError>) -> bool {
    if old.state != SendState::Ready {
        r == Err::<(), WriteError>(WriteError::ClosedStream) && new == old
    } else {
        match old.stop_reason {
            Some(code) => r == Err::<(), WriteError>(WriteError::Stopped(code)) && new == old,
            None => {
                &&& r is Ok
                &&& new.pending.unacked() == old.pending.unacked() + data
                &&& new.pending.spec_offset() == old.pending.spec_offset() + data.len()
                &&& new.pending.spec_unsent() == old.pending.spec_unsent()
                &&& new.pending.lost() == old.pending.lost()
                &&& new.state == old.state
                &&& new.priority == old.priority
                &&& new.fin_pending == old.fin_pending
                &&& new.stop_reason == old.stop_reason
            },
        }
    }
}

pub struct Send {
    pub state: SendState,
    pub pending: SendBuffer,
    pub priority: i32,
    /// Whether a frame containing a FIN bit must be transmitted, even if we
    /// don't have any new data
    pub fin_pending: bool,
    /// The reason the peer wants us to stop, if `STOP_SENDING` was received
    pub stop_reason: Option<u64>,
}

impl Send {
    /// A stream ready to send, with nothing written.
    pub fn new() -> (r: Self)
        ensures
            r.pending.wf(),
            r.state == SendState::Ready,
            r.pending.unacked() == Seq::<u8>::empty(),
            r.pending.spec_offset() == 0,
            r.pending.spec_unsent() == 0,
            r.pending.lost().len() == 0,
            r.priority == 0,
            r.fin_pending == false,
            r.stop_reason is None,
    {
        Send {
            state: SendState::Ready,
            pending: SendBuffer::new(),
            priority: 0,
            fin_pending: false,
            stop_reason: None,
        }
    }

    /// Whether the stream has been reset
    pub fn is_reset(&self) -> (r: bool)
        ensures
            r == (self.state == SendState::ResetSent),
    {
        matches!(self.state, SendState::ResetSent)
    }

    /// Finishes the stream: no more data will be written.
    pub fn finish(&mut self) -> (r: Result<(), FinishError>)
        ensures
            match old(self).stop_reason {
                Some(code) => r == Err::<(), FinishError>(FinishError::Stopped(code))
                    && *final(self) == *old(self),
                None => if old(self).state == SendState::Ready {
                    &&& r is Ok
                    &&& *final(self) == (Send {
                        state: SendState::DataSent { finish_acked: false },
                        fin_pending: true,
                        ..*old(self)
                    })
                } else {
                    r == Err::<(), FinishError>(FinishError::ClosedStream) && *final(self)
                        == *old(self)
                },
            },
    {
        if let Some(error_code) = self.stop_reason {
            Err(FinishError::Stopped(error_code))
        } else if self.state == SendState::Ready {
            self.state = SendState::DataSent { finish_acked: false };
            self.fin_pending = true;
            Ok(())
        } else {
            Err(FinishError::ClosedStream)
        }
    }

    /// Queues a copy of `data` at the end of the stream.
    pub fn write(&mut self, data: &[u8]) -> (r: Result<(), WriteError>)
        requires
            old(self).pending.wf(),
            old(self).pending.unacked().len() + data@.len() <= usize::MAX,
            old(self).pending.spec_offset() + data@.len() <= u64::MAX,
        ensures
            final(self).pending.wf(),
            write_effect(*old(self), *final(self), data@, r),
    {
        if !self.is_writable() {
            return Err(WriteError::ClosedStream);
        }
        if let Some(error_code) = self.stop_reason {
            return Err(WriteError::Stopped(error_code));
        }
        let chunk = bytes_copy_from_slice(data);
        self.pending.write(chunk);
        Ok(())
    }

    /// Update stream state due to a reset sent by the local application
    pub fn reset(&mut self)
        ensures
            *final(self) == (Send {
                state: match old(self).state {
                    SendState::DataSent { .. } | SendState::Ready => SendState::ResetSent,
                    s => s,
                },
                ..*old(self)
            }),
    {
        match self.state {
            SendState::DataSent { .. } | SendState::Ready => {
                self.state = SendState::ResetSent;
            },
            _ => {},
        }
    }

    /// Handle STOP_SENDING
    ///
    /// Returns true if the stream was stopped due to this frame, and false
    /// if it had been stopped before
    pub fn try_stop(&mut self, error_code: u64) -> (r: bool)
        ensures
            r == old(self).stop_reason is None,
            r ==> *final(self) == (Send { stop_reason: Some(error_code), ..*old(self) }),
            !r ==> *final(self) == *old(self),
    {
        if self.stop_reason.is_none() {
            self.stop_reason = Some(error_code);
            true
        } else {
            false
        }
    }

    pub fn offset(&self) -> (r: u64)
        ensures
            r == self.pending.spec_offset(),
    {
        self.pending.offset()
    }

    /// Whether the stream has data or a FIN to send.
    pub fn is_pending(&self) -> (r: bool)
        ensures
            r == (self.pending.spec_unsent() != self.pending.spec_offset()
                || self.pending.lost().len() != 0 || self.fin_pending),
    {
        self.pending.has_unsent_data() || self.fin_pending
    }

    pub fn is_writable(&self) -> (r: bool)
        ensures
            r == (self.state == SendState::Ready),
    {
        matches!(self.state, SendState::Ready)
    }
}

/// Errors triggered while writing to a send stream
#[derive(Debug, Clone, Copy, Eq, PartialEq, Structural)]
pub enum WriteError {
    /// The peer is not able to accept additional data, or the connection is
    /// congested.
    Blocked,
    /// The peer is no longer accepting data on this stream, and it has been
    /// implicitly reset. The stream cannot be finished or further written
    /// to.
    ///
    /// Carries an application-defined error code.
    Stopped(u64),
    /// The stream has not been opened or has already been finished or reset
    ClosedStream,
}

/// Reasons why attempting to finish a stream might fail
#[derive(Debug, Clone, Copy, Eq, PartialEq, Structural)]
pub enum FinishError {
    /// The peer is no longer accepting data on this stream. No
    /// [`StreamEvent::Finished`] event will be emitted for this stream.
    ///
    /// Carries an application-defined error code.
    Stopped(u64),
    /// The stream has not been opened or was already finished or reset
    ClosedStream,
}

/// Whether a pending stream's sending half is fresh: ready, empty, not
/// stopped.
pub open spec fn send_fresh(s: Send) -> bool {
    &&& s.pending.wf()
    &&& s.state == SendState::Ready
    &&& s.pending.unacked() == Seq::<u8>::empty()
    &&& s.pending.spec_offset() == 0
    &&& s.pending.spec_unsent() == 0
    &&& s.pending.lost().len() == 0
    &&& s.priority == 0
    &&& s.fin_pending == false
    &&& s.stop_reason is None
}

/// Whether the sending half has something to send.
pub open spec fn send_pending(s: Send) -> bool {
    s.pending.spec_unsent() != s.pending.spec_offset() || s.pending.lost().len() != 0
        || s.fin_pending
}

/// Access to the sending half of a stream of a connection.
pub struct SendStream {
    pub id: StreamId,
}

/// Whether writing `len` bytes on stream `id` keeps the counters in range:
/// the bytes the stream buffers and has written, and the connection's
/// round-robin counter.
pub open spec fn write_fits(conn: Connection, id: StreamId, len: nat) -> bool {
    &&& conn.streams.send@.contains_key(id.0) ==> {
        let s = conn.streams.send@[id.0];
        &&& s.pending.unacked().len() + len <= usize::MAX
        &&& s.pending.spec_offset() + len <= u64::MAX
    }
    &&& conn.streams.pending.spec_recency() > 0
}

impl SendStream {
    /// Whether a write of `len` bytes keeps the counters in range.
    pub fn can_write(&self, conn: &Connection, len: usize) -> (r: bool)
        requires
            conn.wf(),
        ensures
            r == write_fits(*conn, self.id, len as nat),
    {
        if conn.streams.pending.recency() == 0 {
            return false;
        }
        match conn.streams.send.get(&self.id.0) {
            None => true,
            Some(s) => s.pending.unacked_len <= usize::MAX - len && s.pending.offset <= u64::MAX - len as u64,
        }
    }

    /// What `write` does once the stream's sending half `s0` is found, or
    /// made fresh.
    pub open spec fn write_done(
        id: StreamId,
        s0: Send,
        old: Connection,
        new: Connection,
        data: Seq<u8>,
        r: Result<(), WriteError>,
    ) -> bool {
        exists|s1: Send|
            #![trigger write_effect(s0, s1, data, r)]
            write_effect(s0, s1, data, r) && s1.pending.wf() && new.streams.send@
                == old.streams.send@.insert(id.0, s1) && if r is Ok && !send_pending(s0) {
                new.streams.pending.queued() == old.streams.pending.queued().push(
                    PendingStream {
                        priority: s0.priority,
                        recency: (old.streams.pending.spec_recency() - 1) as u64,
                        id,
                    },
                ) && new.streams.pending.spec_recency() == old.streams.pending.spec_recency() - 1
                    && new.streams.pending.spec_next() == old.streams.pending.spec_next()
            } else {
                new.streams.pending == old.streams.pending
            }
    }

    /// Send data on the given stream: a copy of `data` is queued after what
    /// was written, and the stream queued for sending if it had nothing to
    /// send. A closed connection refuses it as blocked, a stream never
    /// opened, or forgotten, as closed.
    pub fn write(&self, conn: &mut Connection, data: &[u8]) -> (r: Result<(), WriteError>)
        requires
            old(conn).wf(),
            old(conn).streams.send@.contains_key(self.id.0) ==> {
                let s = old(conn).streams.send@[self.id.0];
                &&& s.pending.unacked().len() + data@.len() <= usize::MAX
                &&& s.pending.spec_offset() + data@.len() <= u64::MAX
            },
            old(conn).streams.pending.spec_recency() > 0,
        ensures
            final(conn).wf(),
            final(conn).state == old(conn).state,
            final(conn).spaces == old(conn).spaces,
            final(conn).streams.recv@ == old(conn).streams.recv@,
            final(conn).streams.events == old(conn).streams.events,
            final(conn).side == old(conn).side,
            final(conn).streams.next == old(conn).streams.next,
            old(conn).state.spec_is_closed() ==> r == Err::<(), WriteError>(WriteError::Blocked)
                && *final(conn) == *old(conn),
            !old(conn).state.spec_is_closed() && !old(conn).streams.send@.contains_key(self.id.0)
                ==> r == Err::<(), WriteError>(WriteError::ClosedStream) && *final(conn) == *old(conn),
            !old(conn).state.spec_is_closed() && old(conn).streams.send@.contains_key(self.id.0)
                ==> Self::write_done(
                self.id,
                old(conn).streams.send@[self.id.0],
                *old(conn),
                *final(conn),
                data@,
                r,
            ),
    {
        if conn.state.is_closed() {
            return Err(WriteError::Blocked);
        }
        let id = self.id;
        if !conn.streams.send.contains_key(&id.0) {
            return Err(WriteError::ClosedStream);
        }
        let mut stream = conn.streams.send.remove(&id.0).unwrap();
        let ghost s0 = stream;
        let was_pending = stream.is_pending();
        let res = stream.write(data);
        let priority = stream.priority;
        conn.streams.send.insert(id.0, stream);
        assert(conn.streams.send@ =~= old(conn).streams.send@.insert(id.0, stream));
        match res {
            Err(e) => {
                assert(write_effect(s0, stream, data@, Err(e)));
                assert(Self::write_done(id, s0, *old(conn), *conn, data@, Err(e)));
                Err(e)
            },
            Ok(()) => {
                if !was_pending {
                    conn.streams.pending.push_pending(id, priority);
                }
                assert(write_effect(s0, stream, data@, Ok(())));
                assert(Self::write_done(id, s0, *old(conn), *conn, data@, Ok(())));
                Ok(())
            },
        }
    }

    /// Check if this stream was stopped, get the reason if it was
    pub fn stopped(&self, conn: &Connection) -> (r: Result<Option<u64>, ClosedStream>)
        ensures
            r == if conn.streams.send@.contains_key(self.id.0) {
                Ok::<Option<u64>, ClosedStream>(conn.streams.send@[self.id.0].stop_reason)
            } else {
                Err(ClosedStream)
            },
    {
        match conn.streams.send.get(&self.id.0) {
            Some(s) => Ok(s.stop_reason),
            None => Err(ClosedStream),
        }
    }

    /// Finish a send stream, signalling that no more data will be sent.
    pub fn finish(&self, conn: &mut Connection) -> (r: Result<(), FinishError>)
        requires
            old(conn).wf(),
            old(conn).streams.pending.spec_recency() > 0,
        ensures
            final(conn).wf(),
            final(conn).state == old(conn).state,
            final(conn).spaces == old(conn).spaces,
            final(conn).streams.recv@ == old(conn).streams.recv@,
            final(conn).streams.events == old(conn).streams.events,
            final(conn).side == old(conn).side,
            final(conn).streams.next == old(conn).streams.next,
            final(conn).streams.pending.spec_recency() + 1 >= old(conn).streams.pending.spec_recency(),
            !old(conn).streams.send@.contains_key(self.id.0) ==> r == Err::<(), FinishError>(
                FinishError::ClosedStream,
            ) && *final(conn) == *old(conn),
            old(conn).streams.send@.contains_key(self.id.0) ==> {
                let s0 = old(conn).streams.send@[self.id.0];
                match s0.stop_reason {
                    Some(code) => r == Err::<(), FinishError>(FinishError::Stopped(code))
                        && final(conn).streams.send@ == old(conn).streams.send@
                        && final(conn).streams.pending == old(conn).streams.pending,
                    None => if s0.state == SendState::Ready {
                        &&& r is Ok
                        &&& final(conn).streams.send@ == old(conn).streams.send@.insert(
                            self.id.0,
                            Send {
                                state: SendState::DataSent { finish_acked: false },
                                fin_pending: true,
                                ..s0
                            },
                        )
                        &&& !send_pending(s0) ==> final(conn).streams.pending.queued() == old(
                            conn,
                        ).streams.pending.queued().push(
                            PendingStream {
                                priority: s0.priority,
                                recency: (old(conn).streams.pending.spec_recency() - 1) as u64,
                                id: self.id,
                            },
                        )
                        &&& send_pending(s0) ==> final(conn).streams.pending == old(
                            conn,
                        ).streams.pending
                    } else {
                        r == Err::<(), FinishError>(FinishError::ClosedStream)
                            && final(conn).streams.send@ == old(conn).streams.send@
                            && final(conn).streams.pending == old(conn).streams.pending
                    },
                }
            },
    {
        let id = self.id;
        if !conn.streams.send.contains_key(&id.0) {
            return Err(FinishError::ClosedStream);
        }
        let mut stream = conn.streams.send.remove(&id.0).unwrap();
        let was_pending = stream.is_pending();
        let res = stream.finish();
        let priority = stream.priority;
        conn.streams.send.insert(id.0, stream);
        match res {
            Err(e) => {
                assert(conn.streams.send@ =~= old(conn).streams.send@);
                Err(e)
            },
            Ok(()) => {
                if !was_pending {
                    conn.streams.pending.push_pending(id, priority);
                }
                Ok(())
            },
        }
    }

    /// Abandon transmitting data on a stream: the stream is reset and a
    /// RESET_STREAM with `error_code` queued.
    pub fn reset(&self, conn: &mut Connection, error_code: u64) -> (r: Result<(), ClosedStream>)
        requires
            old(conn).wf(),
        ensures
            final(conn).wf(),
            final(conn).state == old(conn).state,
            final(conn).streams.recv@ == old(conn).streams.recv@,
            final(conn).streams.pending == old(conn).streams.pending,
            final(conn).streams.events == old(conn).streams.events,
            final(conn).side == old(conn).side,
            final(conn).streams.next == old(conn).streams.next,
            (!old(conn).streams.send@.contains_key(self.id.0) || old(conn).streams.send@[self.id.0].state
                == SendState::ResetSent) ==> r == Err::<(), ClosedStream>(ClosedStream) && *final(conn)
                == *old(conn),
            (old(conn).streams.send@.contains_key(self.id.0) && old(conn).streams.send@[self.id.0].state
                != SendState::ResetSent) ==> {
                &&& r is Ok
                &&& final(conn).streams.send@ == old(conn).streams.send@.insert(
                    self.id.0,
                    Send { state: SendState::ResetSent, ..old(conn).streams.send@[self.id.0] },
                )
                &&& final(conn).spaces@[2].pending.reset_stream@ == old(
                    conn,
                ).spaces@[2].pending.reset_stream@.push((self.id, error_code))
            },
    {
        let id = self.id;
        if !conn.streams.send.contains_key(&id.0) {
            return Err(ClosedStream);
        }
        if conn.streams.send.get(&id.0).unwrap().is_reset() {
            // Redundant reset call
            return Err(ClosedStream);
        }
        let mut stream = conn.streams.send.remove(&id.0).unwrap();
        stream.reset();
        conn.streams.send.insert(id.0, stream);
        conn.spaces[2].pending.reset_stream.push((id, error_code));
        Ok(())
    }

    /// Set the priority of a stream
    pub fn set_priority(&self, conn: &mut Connection, priority: i32) -> (r: Result<(), ClosedStream>)
        requires
            old(conn).wf(),
        ensures
            final(conn).wf(),
            final(conn).state == old(conn).state,
            final(conn).spaces == old(conn).spaces,
            final(conn).streams.recv@ == old(conn).streams.recv@,
            final(conn).streams.pending == old(conn).streams.pending,
            final(conn).streams.events == old(conn).streams.events,
            final(conn).side == old(conn).side,
            final(conn).streams.next == old(conn).streams.next,
            !old(conn).streams.send@.contains_key(self.id.0) ==> r == Err::<(), ClosedStream>(
                ClosedStream,
            ) && *final(conn) == *old(conn),
            old(conn).streams.send@.contains_key(self.id.0) ==> r is Ok && final(conn).streams.send@
                == old(conn).streams.send@.insert(
                self.id.0,
                Send { priority, ..old(conn).streams.send@[self.id.0] },
            ),
    {
        let id = self.id;
        if !conn.streams.send.contains_key(&id.0) {
            return Err(ClosedStream);
        }
        let mut stream = conn.streams.send.remove(&id.0).unwrap();
        stream.priority = priority;
        conn.streams.send.insert(id.0, stream);
        Ok(())
    }

    /// Get the priority of a stream
    pub fn priority(&self, conn: &Connection) -> (r: Result<i32, ClosedStream>)
        ensures
            r == if conn.streams.send@.contains_key(self.id.0) {
                Ok::<i32, ClosedStream>(conn.streams.send@[self.id.0].priority)
            } else {
                Err(ClosedStream)
            },
    {
        match conn.streams.send.get(&self.id.0) {
            Some(s) => Ok(s.priority),
            None => Err(ClosedStream),
        }
    }
}

} // verus!
