//! The receiving side of a connection: the frames of a packet, read in
//! order, and what each does to the connection.
use vstd::prelude::*;

use crate::buf::{bytes_clone, bytes_len, bytes_slice, bytes_view};
use crate::frame::{ConnectionClose, utf8_bytes};
use crate::packet::{DecodeFailure, Header, HeaderModel, LongType, PacketNumber, spec_decode_header};
use bytes::Bytes;
use crate::error::{TransportError, TransportErrorCode};
use crate::frame::{Ack, Frame, FrameModel, FrameParser, FrameType, ParseFailure, Stream, failure_reason, spec_parse_frame};
use crate::packet::{Packet, SpaceId};
use crate::varint::spec_parse_varint;

use super::{CLOSE_TIMEOUT, Connection, ConnectionError, Event, State, TIME_LIMIT, fake_cid, supported_versions};
use super::timer::Timer;
use super::space::{PacketSpace, PendingAcks, dedup_after, dedup_marked, lemma_dedup_insert, lemma_dedup_marked_insert};
use super::stream::state::StreamsState;

verus! {

/// Why an ACK frame that names `largest` is refused by a space whose next
/// packet number is `next`; `None` if it is not refused. Only an ACK for a
/// packet not sent yet is refused: an older ACK, arriving out of order
/// below the largest one acknowledged, is processed like any other.
pub open spec fn ack_refusal(next: u64, largest: u64) -> Option<Seq<char>> {
    if largest >= next {
        Some("ACK for unsent packet"@)
    } else {
        None
    }
}

/// `r` is a PROTOCOL_VIOLATION error for `reason`, naming no frame.
pub open spec fn is_violation(r: Result<(), TransportError>, reason: Seq<char>) -> bool {
    r matches Err(e) && e.code == TransportErrorCode::PROTOCOL_VIOLATION() && e.frame is None
        && e.reason@ == reason
}

/// The type of the frame at the start of `s`, if its type can be read;
/// `last` otherwise.
pub open spec fn type_read(s: Seq<u8>, last: Option<FrameType>) -> Option<FrameType> {
    match spec_parse_varint(s) {
        Some((t, _)) => Some(FrameType(t)),
        None => last,
    }
}

/// How the reading of the frames of an Initial or Handshake packet ends.
pub enum EarlyEnd {
    /// Every frame was read.
    Done,
    /// A CONNECTION_CLOSE frame was read.
    Close(FrameModel),
    /// An ACK frame was refused, for this reason.
    AckRefused(Seq<char>),
    /// A frame that may not stand in such a packet was read.
    Illegal,
    /// A frame could not be read; the last frame type that was read.
    Malformed(ParseFailure, Option<FrameType>),
    /// The reading cannot go on here: an ACK frame that is not refused, whose
    /// packets this library does not confirm, or a connection ID too long.
    Stuck,
}

/// Reads the frames in `s`, the rest of the payload of an Initial or
/// Handshake packet of a space whose next packet number is `next`; `last`
/// is the type of the frame read before. Gives whether a CRYPTO frame was read before the reading ended,
/// and how it ended.
pub open spec fn early_scan(s: Seq<u8>, last: Option<FrameType>, next: u64) -> (bool, EarlyEnd)
    decreases s.len(),
{
    if s.len() == 0 {
        (false, EarlyEnd::Done)
    } else {
        let last2 = type_read(s, last);
        match spec_parse_frame(s) {
            Err(ParseFailure::CidTooLong) => (false, EarlyEnd::Stuck),
            Err(k) => (false, EarlyEnd::Malformed(k, last2)),
            Ok((f, n)) => if !(0 < n <= s.len()) {
                (false, EarlyEnd::Stuck)
            } else {
                match f {
                    FrameModel::Padding => early_scan(s.skip(n as int), last2, next),
                    FrameModel::Ping => early_scan(s.skip(n as int), last2, next),
                    FrameModel::Ack { largest, .. } => match ack_refusal(next, largest) {
                        Some(reason) => (false, EarlyEnd::AckRefused(reason)),
                        None => (false, EarlyEnd::Stuck),
                    },
                    FrameModel::Crypto { .. } => (
                        true,
                        early_scan(s.skip(n as int), last2, next).1,
                    ),
                    FrameModel::TransportClose { .. } => (false, EarlyEnd::Close(f)),
                    FrameModel::ApplicationClose { .. } => (false, EarlyEnd::Close(f)),
                    _ => (false, EarlyEnd::Illegal),
                }
            },
        }
    }
}

/// The event that tells the application the connection was lost to the
/// close frame `f`.
pub open spec fn lost_to_close(e: Event, f: FrameModel) -> bool {
    match f {
        FrameModel::TransportClose { error_code, frame_type, reason } => e matches Event::ConnectionLost(
            ConnectionError::TransportClosed(t),
        ) && t.error_code.0 == error_code && t.frame_type == frame_type && bytes_view(t.reason)
            == reason,
        FrameModel::ApplicationClose { error_code, reason } => e matches Event::ConnectionLost(
            ConnectionError::ApplicationClosed(a),
        ) && a.error_code == error_code && bytes_view(a.reason) == reason,
        _ => false,
    }
}

/// Whether the CRYPTO frames of a packet of space `i`, if one was read,
/// establish the connection: a Handshake packet, read in the handshake.
pub open spec fn crypto_establishes(a: Connection, i: int, crypto: bool) -> bool {
    crypto && i == 1 && a.state is Handshake
}

/// The spaces after the CRYPTO frames of a packet of space `i`, if one was
/// read: the space saw the handshake.
pub open spec fn crypto_spaces(a: Connection, i: int, crypto: bool) -> Seq<PacketSpace> {
    if crypto {
        a.spaces@.update(i, PacketSpace { hi: true, ..a.spaces@[i] })
    } else {
        a.spaces@
    }
}

/// The highest space reached after the CRYPTO frames of a packet of space
/// `i`, if one was read: it rises to `i`.
pub open spec fn crypto_highest(a: Connection, i: int, crypto: bool) -> SpaceId {
    if crypto && i > a.highest_space.spec_index() {
        if i == 1 {
            SpaceId::Handshake
        } else {
            SpaceId::Data
        }
    } else {
        a.highest_space
    }
}

/// The events queued after the CRYPTO frames of a packet of space `i`: the
/// application is told when they establish the connection.
pub open spec fn crypto_events(a: Connection, i: int, crypto: bool) -> Seq<Event> {
    if crypto_establishes(a, i, crypto) {
        a.streams.events@.push(Event::Connected)
    } else {
        a.streams.events@
    }
}

/// The connection `b` differs from `a` in nothing but its spaces, highest
/// space, state, timers and events.
pub open spec fn same_else(a: Connection, b: Connection) -> bool {
    &&& b.streams.send@ == a.streams.send@
    &&& b.streams.recv@ == a.streams.recv@
    &&& b.streams.next == a.streams.next
    &&& b.streams.pending == a.streams.pending
    &&& b.streams.side == a.streams.side
    &&& b.path == a.path
    &&& b.side == a.side
    &&& b.pending_close == a.pending_close
    &&& b.app_limited == a.app_limited
}

/// What the CRYPTO frames of a packet of space `i` do, if one was read: the
/// space saw the handshake, the highest space reached rises to it, and a
/// Handshake packet establishes a connection still in its handshake, which
/// the application is told.
pub open spec fn crypto_effect(a: Connection, b: Connection, i: int, crypto: bool) -> bool {
    &&& b.spaces@ == crypto_spaces(a, i, crypto)
    &&& b.highest_space == crypto_highest(a, i, crypto)
    &&& b.state == if crypto_establishes(a, i, crypto) {
        State::Established
    } else {
        a.state
    }
    &&& b.streams.events@ == crypto_events(a, i, crypto)
    &&& b.timers == a.timers
    &&& same_else(a, b)
}

/// What the payload `s` of an Initial or Handshake packet of space `i`,
/// read frame by frame, does to the connection `a`, giving `b` and the
/// result `r`.
pub open spec fn early_outcome(a: Connection, b: Connection, i: int, s: Seq<u8>, r: Result<(), TransportError>) -> bool {
    let np = a.spaces@[i].next_packet_number;
    let (crypto, end) = early_scan(s, None, np);
    if s.len() == 0 {
        &&& b == a
        &&& r matches Err(e) && e.code == TransportErrorCode::PROTOCOL_VIOLATION() && e.frame is None
            && e.reason@ == "packet payload is empty"@
    } else {
        match end {
            EarlyEnd::Close(f) => {
                // the close is read after the CRYPTO frames before it
                let events = crypto_events(a, i, crypto);
                &&& r is Ok
                &&& b.state is Drained
                &&& forall|t: int| 0 <= t < 9 ==> (#[trigger] b.timers.data@[t]) is None
                &&& b.streams.events@.len() == events.len() + 1
                &&& b.streams.events@.drop_last() == events
                &&& lost_to_close(b.streams.events@.last(), f)
                &&& b.spaces@ == crypto_spaces(a, i, crypto)
                &&& b.highest_space == crypto_highest(a, i, crypto)
                &&& same_else(a, b)
            },
            _ => {
                &&& crypto_effect(a, b, i, crypto)
                &&& match end {
                    EarlyEnd::Done => r is Ok,
                    EarlyEnd::AckRefused(reason) => r matches Err(e) && e.code
                        == TransportErrorCode::PROTOCOL_VIOLATION() && e.frame is None && e.reason@
                        == reason,
                    EarlyEnd::Illegal => r matches Err(e) && e.code
                        == TransportErrorCode::PROTOCOL_VIOLATION() && e.frame is None && e.reason@
                        == "illegal frame in Initial/Handshake packet"@,
                    EarlyEnd::Malformed(k, last) => r matches Err(e) && e.code
                        == TransportErrorCode::FRAME_ENCODING_ERROR() && e.frame == last && e.reason@
                        == failure_reason(k),
                    _ => false,
                }
            },
        }
    }
}

/// `r` is the FRAME_ENCODING_ERROR for a frame that could not be read for
/// `k`, after frames of type `last`.
pub open spec fn is_malformed(r: Result<(), TransportError>, k: ParseFailure, last: Option<FrameType>) -> bool {
    r matches Err(e) && e.code == TransportErrorCode::FRAME_ENCODING_ERROR() && e.frame == last
        && e.reason@ == failure_reason(k)
}

/// The STREAM frame `fr` reads as `f`.
pub open spec fn stream_is(fr: Stream, f: FrameModel) -> bool {
    f == FrameModel::Stream { id: fr.id, offset: fr.offset, fin: fr.fin, data: bytes_view(fr.data) }
}

/// `m` is `a` with only its streams changed.
pub open spec fn with_streams(a: Connection, m: Connection) -> bool {
    &&& m.spaces == a.spaces
    &&& m.highest_space == a.highest_space
    &&& m.state == a.state
    &&& m.timers == a.timers
    &&& m.path == a.path
    &&& m.side == a.side
    &&& m.pending_close == a.pending_close
    &&& m.app_limited == a.app_limited
}

/// `m` is `a` asked to acknowledge the data space at once.
pub open spec fn immediate_set(a: Connection, m: Connection) -> bool {
    &&& m.spaces@ == a.spaces@.update(
        2,
        PacketSpace {
            pending_acks: PendingAcks { immediate_ack_required: true, ..a.spaces@[2].pending_acks },
            ..a.spaces@[2]
        },
    )
    &&& m.streams == a.streams
    &&& m.highest_space == a.highest_space
    &&& m.state == a.state
    &&& m.timers == a.timers
    &&& m.path == a.path
    &&& m.side == a.side
    &&& m.pending_close == a.pending_close
    &&& m.app_limited == a.app_limited
}

/// What the stream frame `f` may do to `a`, giving `m` and `x`.
pub open spec fn stream_step(a: Connection, m: Connection, f: FrameModel, x: Result<(), TransportError>) -> bool {
    &&& with_streams(a, m)
    &&& match f {
        FrameModel::Stream { .. } => exists|fr: Stream|
            stream_is(fr, f) && #[trigger] StreamsState::received_outcome(a.streams, m.streams, fr, x),
        FrameModel::ResetStream(fr) => StreamsState::reset_outcome(a.streams, m.streams, fr, x),
        FrameModel::StopSending(fr) => StreamsState::stop_outcome(a.streams, m.streams, fr, x),
        _ => false,
    }
}

/// Whether `f` is a frame that the streams handle.
pub open spec fn is_stream_frame(f: FrameModel) -> bool {
    f is Stream || f is ResetStream || f is StopSending
}

/// The runs of the frames in `s`, the rest of the payload, `pl` bytes long,
/// of a 1-RTT packet, on the connection `a`, after frames of type `last`:
/// each frame read in turn, the streams taking STREAM, RESET_STREAM and
/// STOP_SENDING frames, until the end, a close, or an error; giving `b`
/// and `r`.
pub open spec fn payload_run(
    a: Connection,
    s: Seq<u8>,
    last: Option<FrameType>,
    pl: usize,
    b: Connection,
    r: Result<(), TransportError>,
) -> bool
    decreases s.len(),
{
    if s.len() == 0 {
        b == a && r is Ok
    } else {
        let last2 = type_read(s, last);
        match spec_parse_frame(s) {
            Err(ParseFailure::CidTooLong) => false,
            Err(k) => b == a && is_malformed(r, k, last2),
            Ok((f, n)) => if !(0 < n <= s.len()) {
                false
            } else {
                let rest = s.skip(n as int);
                if is_stream_frame(f) {
                    exists|m: Connection, x: Result<(), TransportError>|
                        #[trigger] stream_step(a, m, f, x) && if x is Err {
                            b == m && r == x
                        } else {
                            payload_run(m, rest, last2, pl, b, r)
                        }
                } else {
                    match f {
                        FrameModel::ImmediateAck => exists|m: Connection|
                            #[trigger] immediate_set(a, m) && payload_run(m, rest, last2, pl, b, r),
                        FrameModel::Ack { largest, .. } => match ack_refusal(a.spaces@[2].next_packet_number, largest) {
                            Some(reason) => b == a && is_violation(r, reason),
                            None => false,
                        },
                        FrameModel::TransportClose { .. } => r is Ok && killed(a, b, f),
                        FrameModel::ApplicationClose { .. } => r is Ok && killed(a, b, f),
                        _ => payload_run(a, rest, last2, pl, b, r),
                    }
                }
            },
        }
    }
}

/// Whether every run of the frames in `s` on `a` can be carried out here:
/// it meets no connection ID too long, no ACK that is not refused, and no
/// STREAM frame that its stream cannot take.
pub open spec fn payload_safe(a: Connection, s: Seq<u8>, last: Option<FrameType>, pl: usize) -> bool
    decreases s.len(),
{
    if s.len() == 0 {
        true
    } else {
        let last2 = type_read(s, last);
        match spec_parse_frame(s) {
            Err(ParseFailure::CidTooLong) => false,
            Err(_) => true,
            Ok((f, n)) => 0 < n <= s.len() && {
                let rest = s.skip(n as int);
                if is_stream_frame(f) {
                    &&& f is Stream ==> forall|fr: Stream|
                        stream_is(fr, f) ==> #[trigger] StreamsState::received_safe(a.streams, fr, pl)
                    &&& forall|m: Connection|
                        #[trigger] stream_step(a, m, f, Ok(())) ==> payload_safe(m, rest, last2, pl)
                } else {
                    match f {
                        FrameModel::ImmediateAck => forall|m: Connection|
                            #[trigger] immediate_set(a, m) ==> payload_safe(m, rest, last2, pl),
                        FrameModel::Ack { largest, .. } => ack_refusal(a.spaces@[2].next_packet_number, largest) is Some,
                        FrameModel::TransportClose { .. } => true,
                        FrameModel::ApplicationClose { .. } => true,
                        _ => payload_safe(a, rest, last2, pl),
                    }
                }
            },
        }
    }
}

/// `m` is `a` after the packet number `number`, if any, was noted in the
/// deduplicator of space `i`.
pub open spec fn dedup_step(a: Connection, m: Connection, i: int, number: Option<u64>) -> bool {
    match number {
        None => m == a,
        Some(pn) => {
            &&& m.spaces@ == a.spaces@.update(i, PacketSpace { dedup: m.spaces@[i].dedup, ..a.spaces@[i] })
            &&& m.spaces@[i].dedup@ == dedup_after(a.spaces@[i].dedup@, pn)
            &&& m.streams == a.streams
            &&& m.highest_space == a.highest_space
            &&& m.state == a.state
            &&& m.timers == a.timers
            &&& m.path == a.path
            &&& m.side == a.side
            &&& m.pending_close == a.pending_close
            &&& m.app_limited == a.app_limited
        },
    }
}

/// Whether the packet number `number`, if any, was seen before in space
/// `i` of `a`.
pub open spec fn is_duplicate(a: Connection, i: int, number: Option<u64>) -> bool {
    number matches Some(pn) && dedup_marked(a.spaces@[i].dedup@, pn)
}

/// The transport error a connection error carries, as a result.
pub open spec fn lower(r: Result<(), ConnectionError>) -> Result<(), TransportError> {
    match r {
        Err(ConnectionError::TransportError(e)) => Err(e),
        _ => Ok(()),
    }
}

/// The result holds no error but a transport error.
pub open spec fn transport_only(r: Result<(), ConnectionError>) -> bool {
    r is Ok || r matches Err(ConnectionError::TransportError(_))
}

/// What the frames of a packet of space `i`, payload `s`, numbered `number`,
/// do to the connection `m`, giving `b` and `r`.
pub open spec fn frames_outcome(
    m: Connection,
    b: Connection,
    i: int,
    number: Option<u64>,
    s: Seq<u8>,
    r: Result<(), ConnectionError>,
) -> bool {
    &&& transport_only(r)
    &&& if i < 2 {
        early_outcome(m, b, i, s, lower(r))
    } else if number is None {
        b == m && is_violation(lower(r), "missing packet number"@)
    } else if s.len() == 0 {
        b == m && is_violation(lower(r), "packet payload is empty"@)
    } else {
        payload_run(m, s, None, s.len() as usize, b, lower(r))
    }
}

/// The header of the datagram `s`, as this side reads it: connection IDs of
/// 20 bytes, version 1.
pub open spec fn datagram_header(s: Seq<u8>) -> Result<(HeaderModel, nat), DecodeFailure> {
    spec_decode_header(s, 20, seq![1u32])
}

/// The packet number space of a packet with header `h`.
pub open spec fn model_space(h: HeaderModel) -> int {
    match h {
        HeaderModel::Short { .. } => 2,
        HeaderModel::Long { ty: LongType::ZeroRtt, .. } => 2,
        HeaderModel::Long { ty: LongType::Handshake, .. } => 1,
        _ => 0,
    }
}

/// The truncated packet number of a header, if it has one.
pub open spec fn model_number(h: HeaderModel) -> Option<PacketNumber> {
    match h {
        HeaderModel::Initial { number, .. } => Some(number),
        HeaderModel::Long { number, .. } => Some(number),
        HeaderModel::Short { number, .. } => Some(number),
        _ => None,
    }
}

/// The full number of a packet with header `h` received by `a`: the
/// truncated number expanded around the number after the highest received.
pub open spec fn full_number(a: Connection, h: HeaderModel) -> Option<u64> {
    match model_number(h) {
        Some(pn) => Some(pn.spec_expand((a.spaces@[model_space(h)].rx_packet + 1) as u64) as u64),
        None => None,
    }
}

/// Whether `handle_data` can read the datagram `s` here: its header has no
/// connection ID too long; a numbered packet is a duplicate, a short packet
/// in the handshake or one for a closed connection, as noting a numbered
/// packet for the acknowledgements to send is not part of this library; the
/// frames of a packet without a number can be read.
pub open spec fn data_ok(a: Connection, s: Seq<u8>) -> bool {
    match datagram_header(s) {
        Err(f) => !(f is CidTooLong),
        Ok((h, n)) => {
            let i = model_space(h);
            match full_number(a, h) {
                Some(pn) => dedup_marked(a.spaces@[i].dedup@, pn) || (a.state is Handshake && h is Short)
                    || a.state.spec_is_closed(),
                None => !(early_scan(s.skip(n as int), None, a.spaces@[i].next_packet_number).1 is Stuck),
            }
        },
    }
}

/// What follows a packet read by a connection that was closed or drained
/// before it, giving `m` and `r`, to make `b`: an
/// error is told to the application and closes the connection, and a
/// connection that becomes closed stops its timers, then waits for the
/// close timeout unless it is drained.
pub open spec fn after_packet(
    was_closed: bool,
    was_drained: bool,
    m: Connection,
    b: Connection,
    r: Result<(), ConnectionError>,
    now: u64,
) -> bool {
    let closed = r is Err || m.state.spec_is_closed();
    let drained = r is Ok && m.state is Drained;
    let closes = !was_closed && closed;
    let drains = !was_drained && drained;
    &&& match r {
        Ok(_) => b.state == m.state && b.streams == m.streams,
        Err(ConnectionError::TransportError(e)) => {
            &&& b.state matches State::Closed(ConnectionClose::Transport(t)) && t.error_code == e.code
                && t.frame_type == e.frame && bytes_view(t.reason) == utf8_bytes(e.reason@)
            &&& b.streams.events@ == m.streams.events@.push(
                Event::ConnectionLost(ConnectionError::TransportError(e)),
            )
            &&& b.streams.send@ == m.streams.send@
            &&& b.streams.recv@ == m.streams.recv@
            &&& b.streams.next == m.streams.next
            &&& b.streams.pending == m.streams.pending
            &&& b.streams.side == m.streams.side
        },
        Err(_) => false,
    }
    &&& !closes && !drains ==> b.timers == m.timers
    &&& forall|t: int|
        0 <= t < 9 ==> #[trigger] b.timers.data@[t] == if closes && t == 2 && !drained {
            Some((now + CLOSE_TIMEOUT) as u64)
        } else if closes || (drains && t == 2) {
            None
        } else {
            m.timers.data@[t]
        }
    &&& b.spaces == m.spaces
    &&& b.highest_space == m.highest_space
    &&& b.path == m.path
    &&& b.side == m.side
    &&& b.pending_close == m.pending_close
    &&& b.app_limited == m.app_limited
}

/// What `handle_data` does with the datagram `s` on `a`, giving `b`: a
/// header that cannot be read drops it; a numbered packet is noted as seen
/// and, being a duplicate, a short packet in the handshake or one for a
/// closed connection, goes no further; the frames of a packet without a
/// number are read, and what follows them is done.
pub open spec fn data_outcome(a: Connection, b: Connection, s: Seq<u8>, now: u64) -> bool {
    match datagram_header(s) {
        Err(_) => b == a,
        Ok((h, n)) => {
            let i = model_space(h);
            match full_number(a, h) {
                Some(pn) => dedup_step(a, b, i, Some(pn)),
                None => exists|m: Connection, r: Result<(), ConnectionError>|
                    #[trigger] frames_outcome(a, m, i, None, s.skip(n as int), r) && after_packet(
                        a.state.spec_is_closed(),
                        a.state is Drained,
                        m,
                        b,
                        r,
                        now,
                    ),
            }
        },
    }
}

/// Whether the frames of `payload`, read as those of an Initial or
/// Handshake packet of a space whose next packet number is `next`, can be
/// read here.
pub fn early_readable(payload: &Bytes, next: u64) -> (r: bool)
    ensures
        r == !(early_scan(bytes_view(*payload), None, next).1 is Stuck),
{
    let mut parser = FrameParser { bytes: bytes_clone(payload), last_ty: None };
    let ghost s0 = bytes_view(*payload);
    loop
        invariant
            s0 == bytes_view(*payload),
            (early_scan(s0, None, next).1 is Stuck) == (early_scan(bytes_view(parser.bytes), parser.last_ty, next).1 is Stuck),
        decreases bytes_view(parser.bytes).len(),
    {
        let ghost rest = bytes_view(parser.bytes);
        let ghost last = parser.last_ty;
        proof {
            lemma_early_stuck_step(rest, last, next);
        }
        if !parser.can_read() {
            return false;
        }
        let frame = match parser.next() {
            None => {
                return true;
            },
            Some(Err(_)) => {
                return true;
            },
            Some(Ok(frame)) => frame,
        };
        match frame {
            Frame::Padding => {},
            Frame::Ping => {},
            Frame::Crypto(_) => {},
            Frame::Ack(ack) => {
                return ack.largest >= next;
            },
            _ => {
                return true;
            },
        }
    }
}

impl Connection {
    /// Processes an ACK frame received in space `space_id`. An ACK for a
    /// packet not sent yet is refused. The ACKs that are not refused,
    /// older ones arriving out of order among them, are left out:
    /// confirming the packets they name is not part of this library.
    pub fn on_ack_received(&mut self, now: u64, space_id: SpaceId, ack: Ack) -> (r: Result<(), TransportError>)
        requires
            ack_refusal(old(self).spaces@[space_id.spec_index() as int].next_packet_number, ack.largest) is Some,
        ensures
            *final(self) == *old(self),
            r matches Err(e) && e.code == TransportErrorCode::PROTOCOL_VIOLATION() && e.frame is None
                && Some(e.reason@) == ack_refusal(old(self).spaces@[space_id.spec_index() as int].next_packet_number, ack.largest),
    {
        let i = space_id.index();
        // Reject ACKs that acknowledge packets we have not sent yet.
        if ack.largest >= self.spaces[i].next_packet_number {
            return Err(TransportError::PROTOCOL_VIOLATION("ACK for unsent packet"));
        }
        proof {
            assert(false);
        }
        Err(TransportError::PROTOCOL_VIOLATION("ACK for unsent packet"))
    }

    /// Handles one frame of an Initial or Handshake packet of space
    /// `space_id`; gives the result of the packet if the frame ends its
    /// reading, `None` if the reading goes on.
    fn early_frame(&mut self, now: u64, space_id: SpaceId, frame: Frame) -> (r: Option<Result<(), TransportError>>)
        requires
            old(self).wf(),
            space_id.spec_index() < 2,
            frame@ matches FrameModel::Ack { largest, .. } ==> ack_refusal(old(self).spaces@[space_id.spec_index() as int].next_packet_number, largest) is Some,
        ensures
            final(self).wf(),
            ({
                let i = space_id.spec_index() as int;
                match frame@ {
                    FrameModel::Padding => r is None && *final(self) == *old(self),
                    FrameModel::Ping => r is None && *final(self) == *old(self),
                    FrameModel::Ack { largest, .. } => *final(self) == *old(self) && (r matches Some(x)
                        && ack_refusal(old(self).spaces@[i].next_packet_number, largest) matches Some(reason) && is_violation(x, reason)),
                    FrameModel::Crypto { .. } => r is None && crypto_effect(
                        *old(self),
                        *final(self),
                        i,
                        true,
                    ),
                    FrameModel::TransportClose { .. } => r == Some(Ok::<(), TransportError>(()))
                        && killed(*old(self), *final(self), frame@),
                    FrameModel::ApplicationClose { .. } => r == Some(Ok::<(), TransportError>(()))
                        && killed(*old(self), *final(self), frame@),
                    _ => *final(self) == *old(self) && (r matches Some(x) && is_violation(
                        x,
                        "illegal frame in Initial/Handshake packet"@,
                    )),
                }
            }),
    {
        let i = space_id.index();
        let ghost fv = frame@;
        match frame {
            Frame::Padding => None,
            Frame::Ping => None,
            Frame::Ack(ack) => {
                match self.on_ack_received(now, space_id, ack) {
                    Err(e) => Some(Err(e)),
                    Ok(()) => None,
                }
            },
            Frame::Crypto(_crypto) => {
                // Handshake data is not processed: it is only noted that
                // handshake traffic was seen in this space.
                self.spaces[i].hi = true;
                // Advance the highest active space we have reached.
                if i > self.highest_space.index() {
                    self.highest_space = space_id;
                }
                // If we have handshake-space crypto, we are no longer purely in
                // the Initial phase.
                if i == 1 && self.state.is_handshake() {
                    self.state = State::Established;
                    // Notify application that the connection is ready.
                    self.streams.events.push(Event::Connected);
                }
                assert(self.spaces@ =~= old(self).spaces@.update(
                    i as int,
                    PacketSpace { hi: true, ..old(self).spaces@[i as int] },
                ));
                None
            },
            Frame::Close(close) => {
                self.kill(ConnectionError::from(close));
                assert(self.streams.events@.drop_last() =~= old(self).streams.events@);
                Some(Ok(()))
            },
            // Stream/data/application frames are not valid in Initial/Handshake
            // packet payloads.
            _ => Some(Err(TransportError::PROTOCOL_VIOLATION("illegal frame in Initial/Handshake packet"))),
        }
    }

    /// Handles one frame of a 1-RTT packet `payload_len` bytes long; gives
    /// the result of the packet if the frame ends its reading, `None` if the
    /// reading goes on.
    fn payload_frame(&mut self, now: u64, frame: Frame, payload_len: usize) -> (r: Option<Result<(), TransportError>>)
        requires
            old(self).wf(),
            frame@ matches FrameModel::Ack { largest, .. } ==> ack_refusal(old(self).spaces@[2].next_packet_number, largest) is Some,
            frame matches Frame::Stream(fr) ==> StreamsState::received_safe(old(self).streams, fr, payload_len),
        ensures
            final(self).wf(),
            is_stream_frame(frame@) ==> {
                &&& r is None ==> stream_step(*old(self), *final(self), frame@, Ok(()))
                &&& r matches Some(x) ==> x is Err && stream_step(*old(self), *final(self), frame@, x)
            },
            !is_stream_frame(frame@) ==> match frame@ {
                FrameModel::ImmediateAck => r is None && immediate_set(*old(self), *final(self)),
                FrameModel::Ack { largest, .. } => *final(self) == *old(self) && (r matches Some(x)
                    && ack_refusal(old(self).spaces@[2].next_packet_number, largest) matches Some(reason) && is_violation(x, reason)),
                FrameModel::TransportClose { .. } => r == Some(Ok::<(), TransportError>(()))
                    && killed(*old(self), *final(self), frame@),
                FrameModel::ApplicationClose { .. } => r == Some(Ok::<(), TransportError>(()))
                    && killed(*old(self), *final(self), frame@),
                _ => r is None && *final(self) == *old(self),
            },
    {
        match frame {
            Frame::Padding => None,
            Frame::Ping => None,
            Frame::ImmediateAck => {
                self.spaces[2].pending_acks.set_immediate_ack_required();
                assert(self.spaces@ =~= old(self).spaces@.update(
                    2,
                    PacketSpace {
                        pending_acks: PendingAcks {
                            immediate_ack_required: true,
                            ..old(self).spaces@[2].pending_acks
                        },
                        ..old(self).spaces@[2]
                    },
                ));
                None
            },
            Frame::Ack(ack) => {
                match self.on_ack_received(now, SpaceId::Data, ack) {
                    Err(e) => Some(Err(e)),
                    Ok(()) => None,
                }
            },
            Frame::Stream(stream) => {
                let ghost fr = stream;
                assert(stream_is(fr, frame@));
                let res = self.streams.received(stream, payload_len);
                match res {
                    Err(e) => Some(Err(e)),
                    Ok(u) => {
                        assert(u == ());
                        assert(res == Ok::<(), TransportError>(()));
                        None
                    },
                }
            },
            Frame::ResetStream(reset) => {
                let res = self.streams.received_reset(reset);
                match res {
                    Err(e) => Some(Err(e)),
                    Ok(u) => {
                        assert(u == ());
                        assert(res == Ok::<(), TransportError>(()));
                        None
                    },
                }
            },
            Frame::StopSending(stop) => {
                let res = self.streams.received_stop_sending(stop);
                match res {
                    Err(e) => Some(Err(e)),
                    Ok(u) => {
                        assert(u == ());
                        assert(res == Ok::<(), TransportError>(()));
                        None
                    },
                }
            },
            Frame::Close(close) => {
                self.kill(ConnectionError::from(close));
                assert(self.streams.events@.drop_last() =~= old(self).streams.events@);
                Some(Ok(()))
            },
            _ => None,
        }
    }

    /// Processes the payload of a 1-RTT packet, frame by frame: IMMEDIATE_ACK
    /// asks for an acknowledgement at once; STREAM, RESET_STREAM and
    /// STOP_SENDING frames go to the streams, and an error of theirs ends
    /// the packet; a close frame ends the connection; an ACK that is
    /// refused or a frame that cannot be read is a connection error; other
    /// frames are passed over.
    pub fn process_payload(&mut self, now: u64, number: u64, packet: Packet) -> (r: Result<(), TransportError>)
        requires
            old(self).wf(),
            packet.header.spec_space() == SpaceId::Data,
            bytes_view(packet.payload).len() > 0 ==> payload_safe(
                *old(self),
                bytes_view(packet.payload),
                None,
                bytes_view(packet.payload).len() as usize,
            ),
        ensures
            final(self).wf(),
            bytes_view(packet.payload).len() == 0 ==> *final(self) == *old(self) && is_violation(
                r,
                "packet payload is empty"@,
            ),
            bytes_view(packet.payload).len() > 0 ==> payload_run(
                *old(self),
                bytes_view(packet.payload),
                None,
                bytes_view(packet.payload).len() as usize,
                *final(self),
                r,
            ),
    {
        let payload_len = bytes_len(&packet.payload);
        let ghost a = *self;
        let ghost s0 = bytes_view(packet.payload);
        let mut parser = match FrameParser::new(packet.payload) {
            Ok(p) => p,
            Err(e) => {
                return Err(e);
            },
        };
        loop
            invariant
                s0 == bytes_view(packet.payload),
                a == *old(self),
                s0.len() > 0,
                payload_len == s0.len(),
                self.wf(),
                payload_safe(*self, bytes_view(parser.bytes), parser.last_ty, payload_len),
                forall|b: Connection, r: Result<(), TransportError>|
                    #[trigger] payload_run(*self, bytes_view(parser.bytes), parser.last_ty, payload_len, b, r)
                        ==> payload_run(a, s0, None, payload_len, b, r),
            decreases bytes_view(parser.bytes).len(),
        {
            let ghost rest = bytes_view(parser.bytes);
            let ghost last = parser.last_ty;
            let ghost before = *self;
            let frame = match parser.next() {
                None => {
                    assert(payload_run(before, rest, last, payload_len, *self, Ok(())));
                    return Ok(());
                },
                Some(Err(e)) => {
                    assert(payload_run(before, rest, last, payload_len, *self, Err(e)));
                    return Err(e);
                },
                Some(Ok(frame)) => frame,
            };
            let ghost fv = frame@;
            proof {
                lemma_payload_frame_safe(before, rest, last, payload_len, fv);
                if frame is Stream {
                    assert(stream_is(frame->Stream_0, fv));
                }
            }
            match self.payload_frame(now, frame, payload_len) {
                Some(res) => {
                    proof {
                        lemma_payload_end(before, *self, rest, last, payload_len, fv, res);
                    }
                    return res;
                },
                None => {
                    proof {
                        lemma_payload_step(before, *self, rest, last, payload_len, fv);
                    }
                },
            }
        }
    }

    /// Whether `handle_data` can take the datagram `data` here: see
    /// `data_ok`.
    pub fn accepts(&self, data: &Bytes) -> (r: bool)
        requires
            self.wf(),
        ensures
            r == data_ok(*self, bytes_view(*data)),
    {
        let cid = fake_cid();
        let versions = supported_versions();
        if !Header::can_decode(data, cid.len(), versions.as_slice()) {
            return false;
        }
        let (header, consumed) = match Header::decode(data, cid.len(), versions.as_slice()) {
            Ok(x) => x,
            Err(_) => {
                return true;
            },
        };
        let i = header.space().index();
        match header.number() {
            Some(n) => {
                let expected = self.spaces[i].rx_packet + 1;
                proof {
                    crate::packet::lemma_expand_small(n, expected);
                }
                let pn = n.expand(expected);
                self.spaces[i].dedup.contains(pn) || (self.state.is_handshake() && header.is_short())
                    || self.state.is_closed()
            },
            None => {
                let payload = bytes_slice(data, consumed, bytes_len(data));
                early_readable(&payload, self.spaces[i].next_packet_number)
            },
        }
    }

    /// Handles a datagram received from the socket: reads its header and
    /// hands its packet to `process_packet`, after dropping duplicates and
    /// short packets in the handshake; an error closes the connection.
    #[verifier::spinoff_prover]
    pub fn handle_data(&mut self, now: u64, data: Bytes)
        requires
            old(self).wf(),
            now < TIME_LIMIT,
            data_ok(*old(self), bytes_view(data)),
        ensures
            final(self).wf(),
            data_outcome(*old(self), *final(self), bytes_view(data), now),
    {
        let ghost a = *self;
        let cid = fake_cid();
        let versions = supported_versions();
        let (header, consumed) = match Header::decode(&data, cid.len(), versions.as_slice()) {
            Ok(x) => x,
            Err(_e) => {
                return;
            },
        };
        let payload = bytes_slice(&data, consumed, bytes_len(&data));
        let packet = Packet { header, payload };
        let ghost s = bytes_view(payload);
        let was_closed = self.state.is_closed();
        let was_drained = self.state.is_drained();
        let space_id = packet.header.space();
        let i = space_id.index();
        let number = match packet.header.number() {
            Some(n) => {
                let expected = self.spaces[i].rx_packet + 1;
                proof {
                    crate::packet::lemma_expand_small(n, expected);
                }
                Some(n.expand(expected))
            },
            None => None,
        };
        assert(number == full_number(a, packet.header@));
        match number {
            Some(pn) => {
                let dup = self.spaces[i].dedup.insert(pn);
                assert(self.spaces@ =~= a.spaces@.update(
                    i as int,
                    PacketSpace { dedup: self.spaces@[i as int].dedup, ..a.spaces@[i as int] },
                ));
                if dup {
                    // A possible duplicate packet is dropped.
                    return;
                }
                proof {
                    lemma_dedup_insert(a.spaces@[i as int].dedup@, pn);
                }
            },
            None => {},
        }
        if self.state.is_handshake() && packet.header.is_short() {
            // A short packet during the handshake is dropped.
            return;
        }
        // An authenticated packet is noted for the acknowledgements to send;
        // a packet without a number, the one kind that reaches here on an
        // open connection, has nothing to note.
        let ghost mid = *self;
        let res = self.process_packet(now, number, packet);
        let ghost m = *self;
        self.after_result(now, was_closed, was_drained, res);
        proof {
            if number is Some {
                lemma_numbered_end(a, mid, m, *self, i as int, number->0, now);
            } else {
                lemma_unnumbered_end(a, m, *self, i as int, s, res, now);
            }
        }
    }

    /// What follows the reading of a packet that gave `res`, on a
    /// connection that was closed (`was_closed`) or drained (`was_drained`)
    /// before it: an error is told to the application and closes the
    /// connection; a connection that becomes closed stops its timers and
    /// waits for the close timeout, unless it is drained.
    fn after_result(&mut self, now: u64, was_closed: bool, was_drained: bool, res: Result<(), ConnectionError>)
        requires
            old(self).wf(),
            now < TIME_LIMIT,
            transport_only(res),
        ensures
            final(self).wf(),
            after_packet(was_closed, was_drained, *old(self), *final(self), res, now),
    {
        // State transitions for error cases
        match res {
            Err(conn_err) => {
                self.error(conn_err.clone());
                self.state = match conn_err {
                    ConnectionError::ApplicationClosed(reason) => State::closed(
                        ConnectionClose::Application(reason),
                    ),
                    ConnectionError::TransportClosed(reason) => State::closed(
                        ConnectionClose::Transport(reason),
                    ),
                    ConnectionError::Reset => State::Drained,
                    ConnectionError::TransportError(err) => State::closed(
                        ConnectionClose::from_transport_error(err),
                    ),
                    ConnectionError::VersionMismatch => State::Draining,
                };
            },
            Ok(()) => {},
        }
        if !was_closed && self.state.is_closed() {
            self.close_common();
            if !self.state.is_drained() {
                self.set_close_timer(now);
            }
        }
        if !was_drained && self.state.is_drained() {
            // Close timer may have been started previously, e.g. if we sent a close and got
            // a stateless reset in response
            self.timers.stop(Timer::Close);
        }
    }

    /// Processes a packet, numbered `number` if it has a number: a number
    /// seen before makes it a duplicate, which is dropped; otherwise its
    /// frames are read, as those of an Initial or Handshake packet or as
    /// those of a 1-RTT packet, which must have a number.
    pub fn process_packet(&mut self, now: u64, number: Option<u64>, packet: Packet) -> (r: Result<(), ConnectionError>)
        requires
            old(self).wf(),
            number matches Some(pn) ==> pn < u64::MAX,
            ({
                let i = packet.header.spec_space().spec_index() as int;
                let s = bytes_view(packet.payload);
                !is_duplicate(*old(self), i, number) ==> {
                    &&& i < 2 ==> !(early_scan(s, None, old(self).spaces@[i].next_packet_number).1 is Stuck)
                    &&& i == 2 && number is Some && s.len() > 0 ==> forall|m: Connection|
                        #[trigger] dedup_step(*old(self), m, i, number) ==> payload_safe(
                            m,
                            s,
                            None,
                            s.len() as usize,
                        )
                }
            }),
        ensures
            final(self).wf(),
            ({
                let i = packet.header.spec_space().spec_index() as int;
                let s = bytes_view(packet.payload);
                &&& is_duplicate(*old(self), i, number) ==> r is Ok && dedup_step(
                    *old(self),
                    *final(self),
                    i,
                    number,
                )
                &&& !is_duplicate(*old(self), i, number) ==> exists|m: Connection|
                    #[trigger] dedup_step(*old(self), m, i, number) && frames_outcome(
                        m,
                        *final(self),
                        i,
                        number,
                        s,
                        r,
                    )
            }),
    {
        let space_id = packet.header.space();
        let i = space_id.index();
        match number {
            Some(pn) => {
                let dup = self.spaces[i].dedup.insert(pn);
                assert(self.spaces@ =~= old(self).spaces@.update(
                    i as int,
                    PacketSpace { dedup: self.spaces@[i as int].dedup, ..old(self).spaces@[i as int] },
                ));
                if dup {
                    return Ok(());
                }
            },
            None => {},
        }
        let ghost m = *self;
        assert(dedup_step(*old(self), m, i as int, number));
        if i < 2 {
            let res = self.process_early_payload(now, packet);
            match res {
                Ok(u) => {
                    assert(u == ());
                    assert(res == Ok::<(), TransportError>(()));
                    Ok(())
                },
                Err(e) => Err(ConnectionError::from(e)),
            }
        } else {
            match number {
                None => Err(
                    ConnectionError::TransportError(
                        TransportError::PROTOCOL_VIOLATION("missing packet number"),
                    ),
                ),
                Some(pn) => {
                    let res = self.process_payload(now, pn, packet);
                    match res {
                        Ok(u) => {
                            assert(u == ());
                            assert(res == Ok::<(), TransportError>(()));
                            Ok(())
                        },
                        Err(e) => Err(ConnectionError::from(e)),
                    }
                },
            }
        }
    }

    /// Processes the payload of an Initial or Handshake packet, frame by
    /// frame: a CRYPTO frame marks the handshake as seen and, in a
    /// Handshake packet, establishes the connection; a close frame ends the
    /// connection; a frame that has no place in such a packet, an ACK that
    /// is refused or one that cannot be read is a connection error.
    pub fn process_early_payload(&mut self, now: u64, packet: Packet) -> (r: Result<(), TransportError>)
        requires
            old(self).wf(),
            packet.header.spec_space() != SpaceId::Data,
            !(early_scan(bytes_view(packet.payload), None, old(self).spaces@[packet.header.spec_space().spec_index() as int].next_packet_number).1 is Stuck),
        ensures
            final(self).wf(),
            early_outcome(
                *old(self),
                *final(self),
                packet.header.spec_space().spec_index() as int,
                bytes_view(packet.payload),
                r,
            ),
    {
        let space_id = packet.header.space();
        let i = space_id.index();
        let ghost a = *self;
        let ghost s0 = bytes_view(packet.payload);
        let ghost np = self.spaces@[i as int].next_packet_number;
        let mut parser = match FrameParser::new(packet.payload) {
            Ok(p) => p,
            Err(e) => {
                return Err(e);
            },
        };
        let ghost mut seen = false;
        loop
            invariant
                i == space_id.spec_index(),
                space_id == packet.header.spec_space(),
                s0 == bytes_view(packet.payload),
                a == *old(self),
                i < 2,
                s0.len() > 0,
                np == a.spaces@[i as int].next_packet_number,
                self.wf(),
                crypto_effect(a, *self, i as int, seen),
                early_scan(s0, None, np) == (
                    seen || early_scan(bytes_view(parser.bytes), parser.last_ty, np).0,
                    early_scan(bytes_view(parser.bytes), parser.last_ty, np).1,
                ),
                !(early_scan(bytes_view(parser.bytes), parser.last_ty, np).1 is Stuck),
            decreases bytes_view(parser.bytes).len(),
        {
            let ghost rest = bytes_view(parser.bytes);
            let ghost last = parser.last_ty;
            let ghost before = *self;
            let frame = match parser.next() {
                None => {
                    return Ok(());
                },
                Some(Err(e)) => {
                    return Err(e);
                },
                Some(Ok(frame)) => frame,
            };
            let ghost fv = frame@;
            match self.early_frame(now, space_id, frame) {
                Some(res) => {
                    proof {
                        lemma_early_end(a, before, *self, i as int, seen, s0, rest, last, fv, res);
                    }
                    return res;
                },
                None => {
                    proof {
                        if fv is Crypto {
                            lemma_crypto_again(a, before, *self, i as int, seen);
                            seen = true;
                        }
                    }
                },
            }
        }
    }
}

/// `b` is `a` ended by the close frame `f`: drained, with no timer left,
/// and the application told.
pub open spec fn killed(a: Connection, b: Connection, f: FrameModel) -> bool {
    &&& b.state is Drained
    &&& forall|t: int| 0 <= t < 9 ==> (#[trigger] b.timers.data@[t]) is None
    &&& b.streams.events@.len() == a.streams.events@.len() + 1
    &&& b.streams.events@.drop_last() == a.streams.events@
    &&& lost_to_close(b.streams.events@.last(), f)
    &&& b.spaces@ == a.spaces@
    &&& b.highest_space == a.highest_space
    &&& same_else(a, b)
}

/// Two rounds of CRYPTO frames in the same space do what one does.
proof fn lemma_crypto_again(a: Connection, b: Connection, c: Connection, i: int, seen: bool)
    requires
        0 <= i < 2,
        crypto_effect(a, b, i, seen),
        crypto_effect(b, c, i, true),
    ensures
        crypto_effect(a, c, i, true),
{
    assert(c.spaces@ =~= crypto_spaces(a, i, true));
}

/// When a frame ends the reading of an Initial or Handshake packet, the
/// connection and the result are those the whole payload gives.
proof fn lemma_early_end(
    a: Connection,
    before: Connection,
    after: Connection,
    i: int,
    seen: bool,
    s0: Seq<u8>,
    rest: Seq<u8>,
    last: Option<FrameType>,
    fv: FrameModel,
    res: Result<(), TransportError>,
)
    requires
        0 <= i < 2,
        s0.len() > 0,
        crypto_effect(a, before, i, seen),
        rest.len() > 0,
        spec_parse_frame(rest) matches Ok((f, n)) && f == fv && 0 < n <= rest.len(),
        ({
            let np = a.spaces@[i].next_packet_number;
            early_scan(s0, None, np) == (
                seen || early_scan(rest, last, np).0,
                early_scan(rest, last, np).1,
            )
        }),
        before.spaces@[i].next_packet_number == a.spaces@[i].next_packet_number,
        before.spaces@[i].largest_acked_packet == a.spaces@[i].largest_acked_packet,
        match fv {
            FrameModel::Ack { largest, .. } => after == before && (ack_refusal(before.spaces@[i].next_packet_number, largest) matches Some(reason) && is_violation(res, reason)),
            FrameModel::TransportClose { .. } => res is Ok && killed(before, after, fv),
            FrameModel::ApplicationClose { .. } => res is Ok && killed(before, after, fv),
            FrameModel::Padding => false,
            FrameModel::Ping => false,
            FrameModel::Crypto { .. } => false,
            _ => after == before && is_violation(res, "illegal frame in Initial/Handshake packet"@),
        },
    ensures
        early_outcome(a, after, i, s0, res),
{
}

/// What the frame `fv` at the start of `rest` needs, from a run that can
/// be carried out.
proof fn lemma_payload_frame_safe(a: Connection, rest: Seq<u8>, last: Option<FrameType>, pl: usize, fv: FrameModel)
    requires
        payload_safe(a, rest, last, pl),
        rest.len() > 0,
        spec_parse_frame(rest) matches Ok((f, n)) && f == fv && 0 < n <= rest.len(),
    ensures
        fv matches FrameModel::Ack { largest, .. } ==> ack_refusal(a.spaces@[2].next_packet_number, largest) is Some,
        fv is Stream ==> forall|fr: Stream|
            stream_is(fr, fv) ==> #[trigger] StreamsState::received_safe(a.streams, fr, pl),
{
}

/// A frame of a 1-RTT packet after which the reading goes on: the runs
/// from the connection it gives are runs from the one before, and can be
/// carried out.
proof fn lemma_payload_step(
    before: Connection,
    after: Connection,
    rest: Seq<u8>,
    last: Option<FrameType>,
    pl: usize,
    fv: FrameModel,
)
    requires
        rest.len() > 0,
        spec_parse_frame(rest) matches Ok((f, n)) && f == fv && 0 < n <= rest.len(),
        payload_safe(before, rest, last, pl),
        is_stream_frame(fv) ==> stream_step(before, after, fv, Ok(())),
        !is_stream_frame(fv) ==> match fv {
            FrameModel::ImmediateAck => immediate_set(before, after),
            FrameModel::Ack { .. } => false,
            FrameModel::TransportClose { .. } => false,
            FrameModel::ApplicationClose { .. } => false,
            _ => after == before,
        },
    ensures
        ({
            let n = spec_parse_frame(rest).unwrap().1;
            let rest2 = rest.skip(n as int);
            let last2 = type_read(rest, last);
            &&& payload_safe(after, rest2, last2, pl)
            &&& forall|b: Connection, r: Result<(), TransportError>|
                #[trigger] payload_run(after, rest2, last2, pl, b, r) ==> payload_run(
                    before,
                    rest,
                    last,
                    pl,
                    b,
                    r,
                )
        }),
{
    let n = spec_parse_frame(rest).unwrap().1;
    let rest2 = rest.skip(n as int);
    let last2 = type_read(rest, last);
    assert forall|b: Connection, r: Result<(), TransportError>|
        #[trigger] payload_run(after, rest2, last2, pl, b, r) implies payload_run(
        before,
        rest,
        last,
        pl,
        b,
        r,
    ) by {
        if is_stream_frame(fv) {
            assert(stream_step(before, after, fv, Ok(())));
        } else if fv is ImmediateAck {
            assert(immediate_set(before, after));
        }
    }
}

/// A frame that ends the reading of a 1-RTT packet gives a run of the
/// frames from there.
proof fn lemma_payload_end(
    before: Connection,
    after: Connection,
    rest: Seq<u8>,
    last: Option<FrameType>,
    pl: usize,
    fv: FrameModel,
    res: Result<(), TransportError>,
)
    requires
        rest.len() > 0,
        spec_parse_frame(rest) matches Ok((f, n)) && f == fv && 0 < n <= rest.len(),
        is_stream_frame(fv) ==> res is Err && stream_step(before, after, fv, res),
        !is_stream_frame(fv) ==> match fv {
            FrameModel::Ack { largest, .. } => after == before && (ack_refusal(before.spaces@[2].next_packet_number, largest) matches Some(reason) && is_violation(res, reason)),
            FrameModel::TransportClose { .. } => res is Ok && killed(before, after, fv),
            FrameModel::ApplicationClose { .. } => res is Ok && killed(before, after, fv),
            _ => false,
        },
    ensures
        payload_run(before, rest, last, pl, after, res),
{
    if is_stream_frame(fv) {
        assert(stream_step(before, after, fv, res));
    }
}

/// A numbered packet read on a closed connection was noted as seen once
/// more, and nothing followed: the connection only noted it.
proof fn lemma_numbered_end(a: Connection, mid: Connection, m: Connection, b: Connection, i: int, pn: u64, now: u64)
    requires
        0 <= i < 3,
        pn < u64::MAX,
        dedup_step(a, mid, i, Some(pn)),
        is_duplicate(mid, i, Some(pn)) ==> dedup_step(mid, m, i, Some(pn)),
        after_packet(a.state.spec_is_closed(), a.state is Drained, m, b, Ok(()), now),
        m.state == a.state,
    ensures
        dedup_step(a, b, i, Some(pn)),
{
    lemma_dedup_insert(a.spaces@[i].dedup@, pn);
    lemma_dedup_marked_insert(mid.spaces@[i].dedup@, pn);
    assert(b == m);
    assert(b.spaces@ =~= a.spaces@.update(i, PacketSpace { dedup: b.spaces@[i].dedup, ..a.spaces@[i] }));
}

/// The frames of a packet without a number were read, and what follows
/// them was done.
proof fn lemma_unnumbered_end(
    a: Connection,
    m: Connection,
    b: Connection,
    i: int,
    s: Seq<u8>,
    r: Result<(), ConnectionError>,
    now: u64,
)
    requires
        exists|m0: Connection| #[trigger] dedup_step(a, m0, i, None) && frames_outcome(m0, m, i, None, s, r),
        after_packet(a.state.spec_is_closed(), a.state is Drained, m, b, r, now),
    ensures
        exists|m1: Connection, r1: Result<(), ConnectionError>|
            #[trigger] frames_outcome(a, m1, i, None, s, r1) && after_packet(
                a.state.spec_is_closed(),
                a.state is Drained,
                m1,
                b,
                r1,
                now,
            ),
{
    let m0 = choose|m0: Connection| #[trigger] dedup_step(a, m0, i, None) && frames_outcome(m0, m, i, None, s, r);
    assert(m0 == a);
    assert(frames_outcome(a, m, i, None, s, r));
}

/// Whether the reading of the frames in `s` of an Initial or Handshake
/// packet gets stuck, from its first frame.
proof fn lemma_early_stuck_step(s: Seq<u8>, last: Option<FrameType>, next: u64)
    ensures
        s.len() == 0 ==> !(early_scan(s, last, next).1 is Stuck),
        s.len() > 0 ==> match spec_parse_frame(s) {
            Err(k) => (early_scan(s, last, next).1 is Stuck) == (k is CidTooLong),
            Ok((f, n)) => 0 < n <= s.len() ==> (early_scan(s, last, next).1 is Stuck)
                == match f {
                FrameModel::Padding => early_scan(s.skip(n as int), type_read(s, last), next).1 is Stuck,
                FrameModel::Ping => early_scan(s.skip(n as int), type_read(s, last), next).1 is Stuck,
                FrameModel::Crypto { .. } => early_scan(s.skip(n as int), type_read(s, last), next).1 is Stuck,
                FrameModel::Ack { largest, .. } => ack_refusal(next, largest) is None,
                _ => false,
            },
        },
{
}

} // verus!
