//! QUIC frames (RFC 9000, section 19): their types, encoders and a parser.
use core::ops::{Range, RangeInclusive};

use bytes::Bytes;
use vstd::prelude::*;

use crate::buf::{bytes_as_slice, bytes_copy_from_slice, bytes_len, bytes_new, bytes_slice, bytes_view};
use crate::common::{ConnectionId, Dir, EcnCodepoint, RESET_TOKEN_SIZE, ResetToken, StreamId};
use crate::error::{TransportError, TransportErrorCode, code_text};
use crate::text::{
    decimal_text, from_utf8_lossy, hex_text, lossy_text, push_decimal, push_hex, push_text,
};
use crate::range_set::{RangeSet, lemma_ordered_rs, lemma_ranges_spread, ranges_wf};
use crate::varint::{
    TryGetError, VARINT_MAX, be_prefix, lemma_parse_varint_bound, spec_parse_varints, lemma_varint_len, put_bytes_with_varint_length, put_slice,
    put_varint, read_be, spec_parse_varint, spec_varint, spec_varint_len, try_get_varint, varint_len,
};

verus! {

/// A QUIC frame type
#[derive(Copy, Clone, Eq, PartialEq, Debug, Structural)]
pub struct FrameType(pub u64);

/// The name a frame type is shown with.
pub open spec fn frame_text(t: u64) -> Seq<char> {
    if t == 0x00 {
        "PADDING"@
    } else if t == 0x01 {
        "PING"@
    } else if t == 0x02 {
        "ACK"@
    } else if t == 0x03 {
        "ACK_ECN"@
    } else if t == 0x04 {
        "RESET_STREAM"@
    } else if t == 0x05 {
        "STOP_SENDING"@
    } else if t == 0x06 {
        "CRYPTO"@
    } else if t == 0x07 {
        "NEW_TOKEN"@
    } else if t == 0x10 {
        "MAX_DATA"@
    } else if t == 0x11 {
        "MAX_STREAM_DATA"@
    } else if t == 0x12 {
        "MAX_STREAMS_BIDI"@
    } else if t == 0x13 {
        "MAX_STREAMS_UNI"@
    } else if t == 0x14 {
        "DATA_BLOCKED"@
    } else if t == 0x15 {
        "STREAM_DATA_BLOCKED"@
    } else if t == 0x16 {
        "STREAMS_BLOCKED_BIDI"@
    } else if t == 0x17 {
        "STREAMS_BLOCKED_UNI"@
    } else if t == 0x18 {
        "NEW_CONNECTION_ID"@
    } else if t == 0x19 {
        "RETIRE_CONNECTION_ID"@
    } else if t == 0x1a {
        "PATH_CHALLENGE"@
    } else if t == 0x1b {
        "PATH_RESPONSE"@
    } else if t == 0x1c {
        "TRANSPORT_CLOSE"@
    } else if t == 0x1d {
        "APPLICATION_CLOSE"@
    } else if t == 0x1e {
        "HANDSHAKE_DONE"@
    } else if t == 0xaf {
        "ACK_FREQUENCY"@
    } else if t == 0x1f {
        "IMMEDIATE_ACK"@
    } else if STREAM_TYS_START <= t <= STREAM_TYS_END {
        "STREAM"@
    } else if DATAGRAM_TYS_START <= t <= DATAGRAM_TYS_END {
        "DATAGRAM"@
    } else {
        "<unknown "@ + hex_text(t as nat, 2) + ">"@
    }
}

impl FrameType {
    /// The name the frame type is shown with.
    pub fn to_string(&self) -> (r: String)
        ensures
            r@ == frame_text(self.0),
    {
        let t = self.0;
        if t == 0x00 {
            "PADDING".to_owned()
        } else if t == 0x01 {
            "PING".to_owned()
        } else if t == 0x02 {
            "ACK".to_owned()
        } else if t == 0x03 {
            "ACK_ECN".to_owned()
        } else if t == 0x04 {
            "RESET_STREAM".to_owned()
        } else if t == 0x05 {
            "STOP_SENDING".to_owned()
        } else if t == 0x06 {
            "CRYPTO".to_owned()
        } else if t == 0x07 {
            "NEW_TOKEN".to_owned()
        } else if t == 0x10 {
            "MAX_DATA".to_owned()
        } else if t == 0x11 {
            "MAX_STREAM_DATA".to_owned()
        } else if t == 0x12 {
            "MAX_STREAMS_BIDI".to_owned()
        } else if t == 0x13 {
            "MAX_STREAMS_UNI".to_owned()
        } else if t == 0x14 {
            "DATA_BLOCKED".to_owned()
        } else if t == 0x15 {
            "STREAM_DATA_BLOCKED".to_owned()
        } else if t == 0x16 {
            "STREAMS_BLOCKED_BIDI".to_owned()
        } else if t == 0x17 {
            "STREAMS_BLOCKED_UNI".to_owned()
        } else if t == 0x18 {
            "NEW_CONNECTION_ID".to_owned()
        } else if t == 0x19 {
            "RETIRE_CONNECTION_ID".to_owned()
        } else if t == 0x1a {
            "PATH_CHALLENGE".to_owned()
        } else if t == 0x1b {
            "PATH_RESPONSE".to_owned()
        } else if t == 0x1c {
            "TRANSPORT_CLOSE".to_owned()
        } else if t == 0x1d {
            "APPLICATION_CLOSE".to_owned()
        } else if t == 0x1e {
            "HANDSHAKE_DONE".to_owned()
        } else if t == 0xaf {
            "ACK_FREQUENCY".to_owned()
        } else if t == 0x1f {
            "IMMEDIATE_ACK".to_owned()
        } else if STREAM_TYS_START <= t && t <= STREAM_TYS_END {
            "STREAM".to_owned()
        } else if DATAGRAM_TYS_START <= t && t <= DATAGRAM_TYS_END {
            "DATAGRAM".to_owned()
        } else {
            let mut s = "<unknown ".to_owned();
            push_hex(&mut s, t, 2);
            push_text(&mut s, ">");
            s
        }
    }
}

impl FrameType {
    #[verifier::allow_in_spec]
    #[allow(non_snake_case)]
    pub fn PADDING() -> Self
        returns
            FrameType(0x00),
    {
        FrameType(0x00)
    }
    #[verifier::allow_in_spec]
    #[allow(non_snake_case)]
    pub fn PING() -> Self
        returns
            FrameType(0x01),
    {
        FrameType(0x01)
    }
    #[verifier::allow_in_spec]
    #[allow(non_snake_case)]
    pub fn ACK() -> Self
        returns
            FrameType(0x02),
    {
        FrameType(0x02)
    }
    #[verifier::allow_in_spec]
    #[allow(non_snake_case)]
    pub fn ACK_ECN() -> Self
        returns
            FrameType(0x03),
    {
        FrameType(0x03)
    }
    #[verifier::allow_in_spec]
    #[allow(non_snake_case)]
    pub fn RESET_STREAM() -> Self
        returns
            FrameType(0x04),
    {
        FrameType(0x04)
    }
    #[verifier::allow_in_spec]
    #[allow(non_snake_case)]
    pub fn STOP_SENDING() -> Self
        returns
            FrameType(0x05),
    {
        FrameType(0x05)
    }
    #[verifier::allow_in_spec]
    #[allow(non_snake_case)]
    pub fn CRYPTO() -> Self
        returns
            FrameType(0x06),
    {
        FrameType(0x06)
    }
    #[verifier::allow_in_spec]
    #[allow(non_snake_case)]
    pub fn NEW_TOKEN() -> Self
        returns
            FrameType(0x07),
    {
        FrameType(0x07)
    }
    #[verifier::allow_in_spec]
    #[allow(non_snake_case)]
    pub fn MAX_DATA() -> Self
        returns
            FrameType(0x10),
    {
        FrameType(0x10)
    }
    #[verifier::allow_in_spec]
    #[allow(non_snake_case)]
    pub fn MAX_STREAM_DATA() -> Self
        returns
            FrameType(0x11),
    {
        FrameType(0x11)
    }
    #[verifier::allow_in_spec]
    #[allow(non_snake_case)]
    pub fn MAX_STREAMS_BIDI() -> Self
        returns
            FrameType(0x12),
    {
        FrameType(0x12)
    }
    #[verifier::allow_in_spec]
    #[allow(non_snake_case)]
    pub fn MAX_STREAMS_UNI() -> Self
        returns
            FrameType(0x13),
    {
        FrameType(0x13)
    }
    #[verifier::allow_in_spec]
    #[allow(non_snake_case)]
    pub fn DATA_BLOCKED() -> Self
        returns
            FrameType(0x14),
    {
        FrameType(0x14)
    }
    #[verifier::allow_in_spec]
    #[allow(non_snake_case)]
    pub fn STREAM_DATA_BLOCKED() -> Self
        returns
            FrameType(0x15),
    {
        FrameType(0x15)
    }
    #[verifier::allow_in_spec]
    #[allow(non_snake_case)]
    pub fn STREAMS_BLOCKED_BIDI() -> Self
        returns
            FrameType(0x16),
    {
        FrameType(0x16)
    }
    #[verifier::allow_in_spec]
    #[allow(non_snake_case)]
    pub fn STREAMS_BLOCKED_UNI() -> Self
        returns
            FrameType(0x17),
    {
        FrameType(0x17)
    }
    #[verifier::allow_in_spec]
    #[allow(non_snake_case)]
    pub fn NEW_CONNECTION_ID() -> Self
        returns
            FrameType(0x18),
    {
        FrameType(0x18)
    }
    #[verifier::allow_in_spec]
    #[allow(non_snake_case)]
    pub fn RETIRE_CONNECTION_ID() -> Self
        returns
            FrameType(0x19),
    {
        FrameType(0x19)
    }
    #[verifier::allow_in_spec]
    #[allow(non_snake_case)]
    pub fn PATH_CHALLENGE() -> Self
        returns
            FrameType(0x1a),
    {
        FrameType(0x1a)
    }
    #[verifier::allow_in_spec]
    #[allow(non_snake_case)]
    pub fn PATH_RESPONSE() -> Self
        returns
            FrameType(0x1b),
    {
        FrameType(0x1b)
    }
    #[verifier::allow_in_spec]
    #[allow(non_snake_case)]
    pub fn TRANSPORT_CLOSE() -> Self
        returns
            FrameType(0x1c),
    {
        FrameType(0x1c)
    }
    #[verifier::allow_in_spec]
    #[allow(non_snake_case)]
    pub fn APPLICATION_CLOSE() -> Self
        returns
            FrameType(0x1d),
    {
        FrameType(0x1d)
    }
    #[verifier::allow_in_spec]
    #[allow(non_snake_case)]
    pub fn HANDSHAKE_DONE() -> Self
        returns
            FrameType(0x1e),
    {
        FrameType(0x1e)
    }
    #[verifier::allow_in_spec]
    #[allow(non_snake_case)]
    pub fn ACK_FREQUENCY() -> Self
        returns
            FrameType(0xaf),
    {
        FrameType(0xaf)
    }
    #[verifier::allow_in_spec]
    #[allow(non_snake_case)]
    pub fn IMMEDIATE_ACK() -> Self
        returns
            FrameType(0x1f),
    {
        FrameType(0x1f)
    }

    /// The flags of a STREAM frame type, if this is one.
    pub fn stream(self) -> (r: Option<StreamInfo>)
        ensures
            r == (if STREAM_TYS_START <= self.0 <= STREAM_TYS_END {
                Some(StreamInfo(self.0 as u8))
            } else {
                None
            }),
    {
        if STREAM_TYS_START <= self.0 && self.0 <= STREAM_TYS_END {
            Some(StreamInfo(self.0 as u8))
        } else {
            None
        }
    }

    /// The flags of a DATAGRAM frame type, if this is one.
    pub fn datagram(self) -> (r: Option<DatagramInfo>)
        ensures
            r == (if DATAGRAM_TYS_START <= self.0 <= DATAGRAM_TYS_END {
                Some(DatagramInfo(self.0 as u8))
            } else {
                None
            }),
    {
        if DATAGRAM_TYS_START <= self.0 && self.0 <= DATAGRAM_TYS_END {
            Some(DatagramInfo(self.0 as u8))
        } else {
            None
        }
    }

    /// The frame type as an integer.
    pub fn value(self) -> (r: u64)
        ensures
            r == self.0,
    {
        self.0
    }
}

/// First and last STREAM frame types
pub const STREAM_TYS_START: u64 = 0x08;

pub const STREAM_TYS_END: u64 = 0x0f;

/// First and last DATAGRAM frame types
pub const DATAGRAM_TYS_START: u64 = 0x30;

pub const DATAGRAM_TYS_END: u64 = 0x31;

/// The flag bits of a STREAM frame type
#[derive(Debug, Copy, Clone, Eq, PartialEq, Structural)]
pub struct StreamInfo(pub u8);

impl StreamInfo {
    /// Whether the FIN bit is set
    pub fn fin(self) -> (r: bool)
        ensures
            r == (self.0 & 1u8 != 0),
    {
        self.0 & 0x01 != 0
    }

    /// Whether the frame carries a length
    pub fn len(self) -> (r: bool)
        ensures
            r == (self.0 & 2u8 != 0),
    {
        self.0 & 0x02 != 0
    }

    /// Whether the frame carries an offset
    pub fn off(self) -> (r: bool)
        ensures
            r == (self.0 & 4u8 != 0),
    {
        self.0 & 0x04 != 0
    }
}

/// The flag bit of a DATAGRAM frame type
#[derive(Debug, Copy, Clone, Eq, PartialEq, Structural)]
pub struct DatagramInfo(pub u8);

impl DatagramInfo {
    /// Whether the frame carries a length
    pub fn len(self) -> (r: bool)
        ensures
            r == (self.0 & 1u8 != 0),
    {
        self.0 & 0x01 != 0
    }
}

#[derive(Debug)]
pub enum Frame {
    Padding,
    Ping,
    Ack(Ack),
    ResetStream(ResetStream),
    StopSending(StopSending),
    Crypto(Crypto),
    NewToken(NewToken),
    Stream(Stream),
    MaxData(u64),
    MaxStreamData { id: StreamId, limit: u64 },
    MaxStreams { dir: Dir, count: u64 },
    DataBlocked { limit: u64 },
    StreamDataBlocked { id: StreamId, limit: u64 },
    StreamsBlocked { dir: Dir, limit: u64 },
    NewConnectionId(NewConnectionId),
    RetireConnectionId { sequence: u64 },
    PathChallenge(u64),
    PathResponse(u64),
    Close(ConnectionClose),
    Datagram(Datagram),
    ImmediateAck,
    HandshakeDone,
}

/// The contents of a frame, with byte buffers as sequences.
#[allow(inconsistent_fields)]
pub enum FrameModel {
    Padding,
    Ping,
    Ack { largest: u64, delay: u64, additional: Seq<u8>, ecn: Option<EcnCounts> },
    ResetStream(ResetStream),
    StopSending(StopSending),
    Crypto { offset: u64, data: Seq<u8> },
    NewToken { token: Seq<u8> },
    Stream { id: StreamId, offset: u64, fin: bool, data: Seq<u8> },
    MaxData(u64),
    MaxStreamData { id: StreamId, limit: u64 },
    MaxStreams { dir: Dir, count: u64 },
    DataBlocked { limit: u64 },
    StreamDataBlocked { id: StreamId, limit: u64 },
    StreamsBlocked { dir: Dir, limit: u64 },
    NewConnectionId { sequence: u64, retire_prior_to: u64, id: Seq<u8>, reset_token: Seq<u8> },
    RetireConnectionId { sequence: u64 },
    PathChallenge(u64),
    PathResponse(u64),
    TransportClose { error_code: u64, frame_type: Option<FrameType>, reason: Seq<u8> },
    ApplicationClose { error_code: u64, reason: Seq<u8> },
    Datagram { data: Seq<u8> },
    ImmediateAck,
    HandshakeDone,
}

impl View for Frame {
    type V = FrameModel;

    open spec fn view(&self) -> FrameModel {
        match self {
            Frame::Padding => FrameModel::Padding,
            Frame::Ping => FrameModel::Ping,
            Frame::Ack(a) => FrameModel::Ack {
                largest: a.largest,
                delay: a.delay,
                additional: bytes_view(a.additional),
                ecn: a.ecn,
            },
            Frame::ResetStream(x) => FrameModel::ResetStream(*x),
            Frame::StopSending(x) => FrameModel::StopSending(*x),
            Frame::Crypto(c) => FrameModel::Crypto { offset: c.offset, data: bytes_view(c.data) },
            Frame::NewToken(t) => FrameModel::NewToken { token: bytes_view(t.token) },
            Frame::Stream(s) => FrameModel::Stream {
                id: s.id,
                offset: s.offset,
                fin: s.fin,
                data: bytes_view(s.data),
            },
            Frame::MaxData(x) => FrameModel::MaxData(*x),
            Frame::MaxStreamData { id, limit } => FrameModel::MaxStreamData {
                id: *id,
                limit: *limit,
            },
            Frame::MaxStreams { dir, count } => FrameModel::MaxStreams { dir: *dir, count: *count },
            Frame::DataBlocked { limit } => FrameModel::DataBlocked { limit: *limit },
            Frame::StreamDataBlocked { id, limit } => FrameModel::StreamDataBlocked {
                id: *id,
                limit: *limit,
            },
            Frame::StreamsBlocked { dir, limit } => FrameModel::StreamsBlocked {
                dir: *dir,
                limit: *limit,
            },
            Frame::NewConnectionId(n) => FrameModel::NewConnectionId {
                sequence: n.sequence,
                retire_prior_to: n.retire_prior_to,
                id: n.id@,
                reset_token: n.reset_token@,
            },
            Frame::RetireConnectionId { sequence } => FrameModel::RetireConnectionId {
                sequence: *sequence,
            },
            Frame::PathChallenge(x) => FrameModel::PathChallenge(*x),
            Frame::PathResponse(x) => FrameModel::PathResponse(*x),
            Frame::Close(ConnectionClose::Transport(t)) => FrameModel::TransportClose {
                error_code: t.error_code.0,
                frame_type: t.frame_type,
                reason: bytes_view(t.reason),
            },
            Frame::Close(ConnectionClose::Application(a)) => FrameModel::ApplicationClose {
                error_code: a.error_code,
                reason: bytes_view(a.reason),
            },
            Frame::Datagram(d) => FrameModel::Datagram { data: bytes_view(d.data) },
            Frame::ImmediateAck => FrameModel::ImmediateAck,
            Frame::HandshakeDone => FrameModel::HandshakeDone,
        }
    }
}

impl Frame {
    /// The type a frame is given: the STREAM type carries the FIN flag and
    /// the offset flag when the offset is not zero, but never the length
    /// flag.
    pub open spec fn spec_ty(&self) -> u64 {
        match self {
            Frame::Padding => 0x00,
            Frame::ResetStream(_) => 0x04,
            Frame::Close(ConnectionClose::Transport(_)) => 0x1c,
            Frame::Close(ConnectionClose::Application(_)) => 0x1d,
            Frame::MaxData(_) => 0x10,
            Frame::MaxStreamData { .. } => 0x11,
            Frame::MaxStreams { dir: Dir::Bi, .. } => 0x12,
            Frame::MaxStreams { dir: Dir::Uni, .. } => 0x13,
            Frame::Ping => 0x01,
            Frame::DataBlocked { .. } => 0x14,
            Frame::StreamDataBlocked { .. } => 0x15,
            Frame::StreamsBlocked { dir: Dir::Bi, .. } => 0x16,
            Frame::StreamsBlocked { dir: Dir::Uni, .. } => 0x17,
            Frame::StopSending(_) => 0x05,
            Frame::RetireConnectionId { .. } => 0x19,
            Frame::Ack(_) => 0x02,
            Frame::Stream(s) => (0x08 + (if s.fin {
                1u64
            } else {
                0u64
            }) + (if s.offset != 0 {
                4u64
            } else {
                0u64
            })) as u64,
            Frame::PathChallenge(_) => 0x1a,
            Frame::PathResponse(_) => 0x1b,
            Frame::NewConnectionId(_) => 0x18,
            Frame::Crypto(_) => 0x06,
            Frame::NewToken(_) => 0x07,
            Frame::Datagram(_) => 0x30,
            Frame::ImmediateAck => 0x1f,
            Frame::HandshakeDone => 0x1e,
        }
    }

    pub fn ty(&self) -> (r: FrameType)
        ensures
            r.0 == self.spec_ty(),
    {
        match self {
            Frame::Padding => FrameType::PADDING(),
            Frame::ResetStream(_) => FrameType::RESET_STREAM(),
            Frame::Close(ConnectionClose::Transport(_)) => FrameType::TRANSPORT_CLOSE(),
            Frame::Close(ConnectionClose::Application(_)) => FrameType::APPLICATION_CLOSE(),
            Frame::MaxData(_) => FrameType::MAX_DATA(),
            Frame::MaxStreamData { .. } => FrameType::MAX_STREAM_DATA(),
            Frame::MaxStreams { dir: Dir::Bi, .. } => FrameType::MAX_STREAMS_BIDI(),
            Frame::MaxStreams { dir: Dir::Uni, .. } => FrameType::MAX_STREAMS_UNI(),
            Frame::Ping => FrameType::PING(),
            Frame::DataBlocked { .. } => FrameType::DATA_BLOCKED(),
            Frame::StreamDataBlocked { .. } => FrameType::STREAM_DATA_BLOCKED(),
            Frame::StreamsBlocked { dir: Dir::Bi, .. } => FrameType::STREAMS_BLOCKED_BIDI(),
            Frame::StreamsBlocked { dir: Dir::Uni, .. } => FrameType::STREAMS_BLOCKED_UNI(),
            Frame::StopSending(_) => FrameType::STOP_SENDING(),
            Frame::RetireConnectionId { .. } => FrameType::RETIRE_CONNECTION_ID(),
            Frame::Ack(_) => FrameType::ACK(),
            Frame::Stream(x) => {
                let mut ty = STREAM_TYS_START;
                if x.fin {
                    ty = ty | 0x01;
                }
                if x.offset != 0 {
                    ty = ty | 0x04;
                }
                assert(0x08u64 | 0x01u64 == 0x09u64) by (bit_vector);
                assert(0x08u64 | 0x04u64 == 0x0cu64) by (bit_vector);
                assert(0x09u64 | 0x04u64 == 0x0du64) by (bit_vector);
                FrameType(ty)
            },
            Frame::PathChallenge(_) => FrameType::PATH_CHALLENGE(),
            Frame::PathResponse(_) => FrameType::PATH_RESPONSE(),
            Frame::NewConnectionId(_) => FrameType::NEW_CONNECTION_ID(),
            Frame::Crypto(_) => FrameType::CRYPTO(),
            Frame::NewToken(_) => FrameType::NEW_TOKEN(),
            Frame::Datagram(_) => FrameType(DATAGRAM_TYS_START),
            Frame::ImmediateAck => FrameType::IMMEDIATE_ACK(),
            Frame::HandshakeDone => FrameType::HANDSHAKE_DONE(),
        }
    }

    pub fn is_ack_eliciting(&self) -> (r: bool)
        ensures
            r == !(self is Ack || self is Padding || self is Close),
    {
        match self {
            Frame::Ack(_) | Frame::Padding | Frame::Close(_) => false,
            _ => true,
        }
    }
}

#[derive(Debug)]
pub struct Ack {
    pub largest: u64,
    pub delay: u64,
    pub additional: Bytes,
    pub ecn: Option<EcnCounts>,
}

/// The ranges an ACK frame's blocks can be read into: the first block,
/// then gap and block pairs, each step leaving room below it.
pub open spec fn ack_blocks_iterable(largest: u64, data: Seq<u8>) -> bool
    decreases data.len(),
{
    data.len() == 0 || match spec_parse_varint(data) {
        None => false,
        Some((block, n)) => block <= largest && {
            let d1 = data.skip(n as int);
            d1.len() == 0 || match spec_parse_varint(d1) {
                None => false,
                Some((gap, m)) => block + gap + 2 <= largest && ack_blocks_iterable(
                    (largest - block - gap - 2) as u64,
                    d1.skip(m as int),
                ),
            }
        }
    }
}

/// Iterator over the ranges of an ACK frame, from the highest down
#[derive(Debug, Clone)]
pub struct AckIter<'a> {
    pub largest: u64,
    pub data: &'a [u8],
}

impl<'a> AckIter<'a> {
    /// The next acknowledged range, from its smallest to its largest packet
    /// number, inclusive.
    pub fn next(&mut self) -> (r: Option<RangeInclusive<u64>>)
        requires
            ack_blocks_iterable(old(self).largest, old(self).data@),
        ensures
            ack_blocks_iterable(final(self).largest, final(self).data@),
            old(self).data@.len() == 0 ==> r is None && final(self).data@ == old(self).data@,
            old(self).data@.len() != 0 ==> match spec_parse_varint(old(self).data@) {
                Some((block, n)) => {
                    let d1 = old(self).data@.skip(n as int);
                    &&& (r matches Some(range) && range@.start == old(self).largest - block
                        && range@.end == old(self).largest && !range@.exhausted)
                    &&& d1.len() == 0 ==> final(self).data@ == d1 && final(self).largest == old(
                        self,
                    ).largest
                    &&& d1.len() != 0 ==> match spec_parse_varint(d1) {
                        Some((gap, m)) => final(self).data@ == d1.skip(m as int)
                            && final(self).largest == old(self).largest - block - gap - 2,
                        None => false,
                    }
                },
                None => false,
            },
            r matches Some(range) ==> ack_ranges(old(self).largest, old(self).data@) == seq![
                (range@.start, range@.end),
            ] + ack_ranges(final(self).largest, final(self).data@),
    {
        if self.data.len() == 0 {
            return None;
        }
        assert(self.data@.skip(0) =~= self.data@);
        let (block, p1) = match try_get_varint(self.data, 0) {
            Ok(x) => x,
            Err(_) => {
                assert(false);
                return None;
            },
        };
        let largest = self.largest;
        let rest = &self.data[p1..self.data.len()];
        assert(rest@ == self.data@.skip(p1 as int));
        proof {
            lemma_parse_varint_bound(self.data@);
        }
        if rest.len() == 0 {
            self.data = rest;
        } else {
            assert(rest@.skip(0) =~= rest@);
            match try_get_varint(rest, 0) {
                Ok((gap, p2)) => {
                    proof {
                        lemma_parse_varint_bound(rest@);
                    }
                    self.largest = self.largest - (block + gap + 2);
                    let next = &rest[p2..rest.len()];
                    assert(next@ == rest@.skip(p2 as int));
                    self.data = next;
                },
                Err(_) => {
                    assert(false);
                },
            }
        }
        Some(RangeInclusive::new(largest - block, largest))
    }
}

/// A range shown as Rust shows an inclusive range: `start..=end`.
pub open spec fn range_text(r: (u64, u64)) -> Seq<char> {
    decimal_text(r.0 as nat) + "..="@ + decimal_text(r.1 as nat)
}

/// The ranges, separated by commas.
pub open spec fn ranges_text(rs: Seq<(u64, u64)>) -> Seq<char>
    decreases rs.len(),
{
    if rs.len() == 0 {
        Seq::empty()
    } else if rs.len() == 1 {
        range_text(rs[0])
    } else {
        ranges_text(rs.drop_last()) + ","@ + range_text(rs.last())
    }
}

/// ECN counts, if any, shown as Rust shows them.
pub open spec fn ecn_text(e: Option<EcnCounts>) -> Seq<char> {
    match e {
        None => "None"@,
        Some(c) => "Some(EcnCounts { ect0: "@ + decimal_text(c.ect0 as nat) + ", ect1: "@
            + decimal_text(c.ect1 as nat) + ", ce: "@ + decimal_text(c.ce as nat) + " })"@,
    }
}

/// The text an ACK frame is shown with: its largest number, its delay, its
/// ECN counts and its ranges, the highest first.
pub open spec fn ack_text(a: Ack) -> Seq<char> {
    "Ack { largest: "@ + decimal_text(a.largest as nat) + ", delay: "@ + decimal_text(
        a.delay as nat,
    ) + ", ecn: "@ + ecn_text(a.ecn) + ", ranges: \"["@ + ranges_text(
        ack_ranges(a.largest, bytes_view(a.additional)),
    ) + "]\" }"@
}

/// `RangeInclusive::into_inner`: claims that the bounds are those of the
/// range's view, for a range not yet iterated to its end.
#[verifier::external_body]
fn range_bounds(r: RangeInclusive<u64>) -> (b: (u64, u64))
    requires
        !r@.exhausted,
    ensures
        b == (r@.start, r@.end),
{
    r.into_inner()
}

/// Appends `r` as Rust shows an inclusive range.
fn push_range(s: &mut String, start: u64, end: u64)
    ensures
        final(s)@ == old(s)@ + range_text((start, end)),
{
    push_decimal(s, start);
    push_text(s, "..=");
    push_decimal(s, end);
    assert(s@ =~= old(s)@ + range_text((start, end)));
}

impl EcnCounts {
    /// The text the counts are shown with.
    pub fn to_string(&self) -> (r: String)
        ensures
            r@ == ecn_text(Some(*self)),
    {
        let mut s = "Some(EcnCounts { ect0: ".to_owned();
        push_decimal(&mut s, self.ect0);
        push_text(&mut s, ", ect1: ");
        push_decimal(&mut s, self.ect1);
        push_text(&mut s, ", ce: ");
        push_decimal(&mut s, self.ce);
        push_text(&mut s, " })");
        s
    }
}

impl Ack {
    /// The text the frame is shown with; its blocks must be readable as
    /// ranges.
    pub fn to_string(&self) -> (r: String)
        requires
            ack_blocks_iterable(self.largest, bytes_view(self.additional)),
        ensures
            r@ == ack_text(*self),
    {
        let mut s = "Ack { largest: ".to_owned();
        push_decimal(&mut s, self.largest);
        push_text(&mut s, ", delay: ");
        push_decimal(&mut s, self.delay);
        push_text(&mut s, ", ecn: ");
        match &self.ecn {
            None => push_text(&mut s, "None"),
            Some(e) => {
                let t = e.to_string();
                push_text(&mut s, t.as_str());
            },
        }
        push_text(&mut s, ", ranges: \"[");
        let ghost head = s@;
        let ghost all = ack_ranges(self.largest, bytes_view(self.additional));
        let mut it = self.iter();
        let ghost mut seen: Seq<(u64, u64)> = Seq::empty();
        let mut first = true;
        while it.data.len() > 0
            invariant
                ack_blocks_iterable(it.largest, it.data@),
                all == seen + ack_ranges(it.largest, it.data@),
                s@ == head + ranges_text(seen),
                first == (seen.len() == 0),
            decreases it.data@.len(),
        {
            let ghost d0 = it.data@;
            proof {
                crate::varint::lemma_parse_varint_bound(d0);
            }
            let r = it.next();
            if let Some(range) = r {
                if !first {
                    push_text(&mut s, ",");
                }
                let (start, end) = range_bounds(range);
                push_range(&mut s, start, end);
                proof {
                    let nseen = seen.push((start, end));
                    assert(nseen.drop_last() =~= seen);
                    assert(seen + seq![(start, end)] =~= nseen);
                    seen = nseen;
                }
                first = false;
            }
        }
        assert(all =~= seen);
        push_text(&mut s, "]\" }");
        s
    }

}

impl Ack {
    /// The acknowledged ranges, from the highest down.
    pub fn iter(&self) -> (r: AckIter<'_>)
        ensures
            r.largest == self.largest,
            r.data@ == bytes_view(self.additional),
    {
        AckIter { largest: self.largest, data: bytes_as_slice(&self.additional) }
    }

    /// Encodes an ACK frame acknowledging the packet numbers in `ranges`.
    pub fn encode(delay: u64, ranges: &RangeSet, ecn: Option<&EcnCounts>, out: &mut Vec<u8>)
        requires
            ranges.wf(),
            ranges@.len() > 0,
            ranges@.last().1 <= VARINT_MAX + 1,
            delay <= VARINT_MAX,
            ecn matches Some(e) ==> (e.ect0 <= VARINT_MAX && e.ect1 <= VARINT_MAX && e.ce
                <= VARINT_MAX),
        ensures
            final(out)@ == old(out)@ + spec_ack_encoding(delay, ranges@, ecn),
    {
        let ghost rs = ranges@;
        let n = ranges.len();
        proof {
            ranges.lemma_bounds();
        }
        let first = ranges.get(n - 1);
        let largest = first.1 - 1;
        let first_size = first.1 - first.0;
        let ty = if ecn.is_some() {
            FrameType::ACK_ECN()
        } else {
            FrameType::ACK()
        };
        put_varint(out, ty.0);
        put_varint(out, largest);
        put_varint(out, delay);
        put_varint(out, (n - 1) as u64);
        put_varint(out, first_size - 1);
        let ghost head = out@;
        let mut prev = first.0;
        let mut i = n - 1;
        while i > 0
            invariant
                ranges.wf(),
                rs == ranges@,
                n == rs.len(),
                0 <= i < n,
                prev == rs[i as int].0,
                rs[n - 1].1 <= VARINT_MAX + 1,
                out@ == head + spec_ack_gaps(rs, i as int, n as int - 1),
            decreases i,
        {
            let block = ranges.get(i - 1);
            proof {
                ranges.lemma_bounds();
                ranges.lemma_ordered((i - 1) as int, i as int);
                if i < n - 1 {
                    ranges.lemma_ordered(i as int, n - 1);
                }
            }
            let size = block.1 - block.0;
            put_varint(out, prev - block.1 - 1);
            put_varint(out, size - 1);
            prev = block.0;
            i = i - 1;
            proof {
                lemma_ack_gaps_step(rs, i as int, n as int - 1);
            }
        }
        if let Some(x) = ecn {
            x.encode(out);
        }
    }
}

/// The gap and block pairs of the ranges from `hi` down to `lo`, each
/// encoded as the distance from the range above minus one and the size
/// minus one.
pub open spec fn spec_ack_gaps(rs: Seq<(u64, u64)>, lo: int, hi: int) -> Seq<u8>
    decreases hi - lo,
{
    if lo >= hi {
        Seq::empty()
    } else {
        spec_ack_gaps(rs, lo + 1, hi) + spec_varint((rs[lo + 1].0 - rs[lo].1 - 1) as u64)
            + spec_varint((rs[lo].1 - rs[lo].0 - 1) as u64)
    }
}

proof fn lemma_ack_gaps_step(rs: Seq<(u64, u64)>, lo: int, hi: int)
    requires
        lo < hi,
    ensures
        spec_ack_gaps(rs, lo, hi) == spec_ack_gaps(rs, lo + 1, hi) + spec_varint(
            (rs[lo + 1].0 - rs[lo].1 - 1) as u64,
        ) + spec_varint((rs[lo].1 - rs[lo].0 - 1) as u64),
{
}

/// The encoding of an ACK frame for the ranges `rs`, sorted from the lowest.
pub open spec fn spec_ack_encoding(delay: u64, rs: Seq<(u64, u64)>, ecn: Option<&EcnCounts>) -> Seq<
    u8,
> {
    let n = rs.len();
    let first = rs[n - 1];
    spec_varint(
        if ecn is Some {
            0x03
        } else {
            0x02
        },
    ) + spec_varint((first.1 - 1) as u64) + spec_varint(delay) + spec_varint((n - 1) as u64)
        + spec_varint((first.1 - first.0 - 1) as u64) + spec_ack_gaps(rs, 0, n - 1) + match ecn {
        Some(e) => spec_ecn_encoding(*e),
        None => Seq::empty(),
    }
}

#[derive(Debug, Copy, Clone, Eq, PartialEq, Structural)]
pub struct EcnCounts {
    pub ect0: u64,
    pub ect1: u64,
    pub ce: u64,
}

pub open spec fn spec_ecn_encoding(e: EcnCounts) -> Seq<u8> {
    spec_varint(e.ect0) + spec_varint(e.ect1) + spec_varint(e.ce)
}

impl EcnCounts {
    #[verifier::allow_in_spec]
    #[allow(non_snake_case)]
    pub fn ZERO() -> Self
        returns
            (EcnCounts { ect0: 0, ect1: 0, ce: 0 }),
    {
        EcnCounts { ect0: 0, ect1: 0, ce: 0 }
    }

    /// Counts one more packet marked with `rhs`.
    pub fn add_assign(&mut self, rhs: EcnCodepoint)
        requires
            old(self).ect0 < u64::MAX,
            old(self).ect1 < u64::MAX,
            old(self).ce < u64::MAX,
        ensures
            *final(self) == (match rhs {
                EcnCodepoint::Ect0 => EcnCounts { ect0: (old(self).ect0 + 1) as u64, ..*old(self) },
                EcnCodepoint::Ect1 => EcnCounts { ect1: (old(self).ect1 + 1) as u64, ..*old(self) },
                EcnCodepoint::Ce => EcnCounts { ce: (old(self).ce + 1) as u64, ..*old(self) },
            }),
    {
        match rhs {
            EcnCodepoint::Ect0 => {
                self.ect0 += 1;
            },
            EcnCodepoint::Ect1 => {
                self.ect1 += 1;
            },
            EcnCodepoint::Ce => {
                self.ce += 1;
            },
        }
    }

    pub fn encode(&self, out: &mut Vec<u8>)
        requires
            self.ect0 <= VARINT_MAX,
            self.ect1 <= VARINT_MAX,
            self.ce <= VARINT_MAX,
        ensures
            final(out)@ == old(out)@ + spec_ecn_encoding(*self),
    {
        put_varint(out, self.ect0);
        put_varint(out, self.ect1);
        put_varint(out, self.ce);
    }
}

#[derive(Debug, Copy, Clone, Eq, PartialEq, Structural)]
pub struct ResetStream {
    pub id: StreamId,
    pub error_code: u64,
    pub final_offset: u64,
}

impl ResetStream {
    pub const SIZE_BOUND: usize = 25;

    pub open spec fn spec_encoding(self) -> Seq<u8> {
        spec_varint(0x04) + spec_varint(self.id.0) + spec_varint(self.error_code) + spec_varint(
            self.final_offset,
        )
    }

    pub fn encode(&self, out: &mut Vec<u8>)
        requires
            self.id.0 <= VARINT_MAX,
            self.error_code <= VARINT_MAX,
            self.final_offset <= VARINT_MAX,
        ensures
            final(out)@ == old(out)@ + self.spec_encoding(),
    {
        put_varint(out, FrameType::RESET_STREAM().0);
        put_varint(out, self.id.0);
        put_varint(out, self.error_code);
        put_varint(out, self.final_offset);
    }
}

#[derive(Debug, Copy, Clone, Eq, PartialEq, Structural)]
pub struct StopSending {
    pub id: StreamId,
    pub error_code: u64,
}

impl StopSending {
    pub const SIZE_BOUND: usize = 17;

    pub open spec fn spec_encoding(self) -> Seq<u8> {
        spec_varint(0x05) + spec_varint(self.id.0) + spec_varint(self.error_code)
    }

    pub fn encode(&self, out: &mut Vec<u8>)
        requires
            self.id.0 <= VARINT_MAX,
            self.error_code <= VARINT_MAX,
        ensures
            final(out)@ == old(out)@ + self.spec_encoding(),
    {
        put_varint(out, FrameType::STOP_SENDING().0);
        put_varint(out, self.id.0);
        put_varint(out, self.error_code);
    }
}

#[derive(Debug)]
pub struct Crypto {
    pub offset: u64,
    pub data: Bytes,
}

impl Crypto {
    pub const SIZE_BOUND: usize = 17;

    pub open spec fn spec_encoding(&self) -> Seq<u8> {
        spec_varint(0x06) + spec_varint(self.offset) + spec_varint(
            bytes_view(self.data).len() as u64,
        ) + bytes_view(self.data)
    }

    pub fn encode(&self, out: &mut Vec<u8>)
        requires
            self.offset <= VARINT_MAX,
            bytes_view(self.data).len() <= VARINT_MAX,
        ensures
            final(out)@ == old(out)@ + self.spec_encoding(),
    {
        put_varint(out, FrameType::CRYPTO().0);
        put_varint(out, self.offset);
        let data = bytes_as_slice(&self.data);
        put_varint(out, data.len() as u64);
        put_slice(out, data);
    }
}

#[derive(Debug)]
pub struct NewToken {
    pub token: Bytes,
}

impl NewToken {
    pub open spec fn spec_encoding(&self) -> Seq<u8> {
        spec_varint(0x07) + spec_varint(bytes_view(self.token).len() as u64) + bytes_view(
            self.token,
        )
    }

    pub fn encode(&self, out: &mut Vec<u8>)
        requires
            bytes_view(self.token).len() <= VARINT_MAX,
        ensures
            final(out)@ == old(out)@ + self.spec_encoding(),
    {
        put_varint(out, FrameType::NEW_TOKEN().0);
        let token = bytes_as_slice(&self.token);
        put_varint(out, token.len() as u64);
        put_slice(out, token);
    }

    pub fn size(&self) -> (r: usize)
        requires
            bytes_view(self.token).len() <= VARINT_MAX,
            bytes_view(self.token).len() + 9 <= usize::MAX,
        ensures
            r == self.spec_encoding().len(),
    {
        let len = bytes_len(&self.token);
        proof {
            lemma_varint_len(0x07);
        }
        1 + varint_len(len as u64) + len
    }
}

#[derive(Debug)]
pub struct Stream {
    pub id: StreamId,
    pub offset: u64,
    pub fin: bool,
    pub data: Bytes,
}

impl Stream {
    pub const SIZE_BOUND: usize = 25;
}

/// Metadata from a stream frame
#[derive(Debug, Default)]
pub struct StreamMeta {
    pub id: StreamId,
    pub offsets: Range<u64>,
    pub fin: bool,
}

impl Clone for StreamMeta {
    fn clone(&self) -> (r: Self)
        ensures
            r == *self,
    {
        StreamMeta {
            id: self.id,
            offsets: Range { start: self.offsets.start, end: self.offsets.end },
            fin: self.fin,
        }
    }
}

impl StreamMeta {
    /// The type of a STREAM frame with these flags.
    pub open spec fn spec_ty(&self, length: bool) -> u64 {
        (0x08 + (if self.offsets.start != 0 {
            4u64
        } else {
            0u64
        }) + (if length {
            2u64
        } else {
            0u64
        }) + (if self.fin {
            1u64
        } else {
            0u64
        })) as u64
    }

    pub open spec fn spec_encoding(&self, length: bool) -> Seq<u8> {
        spec_varint(self.spec_ty(length)) + spec_varint(self.id.0) + (if self.offsets.start != 0 {
            spec_varint(self.offsets.start)
        } else {
            Seq::empty()
        }) + (if length {
            spec_varint((self.offsets.end - self.offsets.start) as u64)
        } else {
            Seq::empty()
        })
    }

    /// Encodes the header of a STREAM frame for these offsets; the data
    /// follows it.
    pub fn encode(&self, length: bool, out: &mut Vec<u8>)
        requires
            self.id.0 <= VARINT_MAX,
            self.offsets.start <= VARINT_MAX,
            length ==> self.offsets.start <= self.offsets.end && self.offsets.end
                - self.offsets.start <= VARINT_MAX,
        ensures
            final(out)@ == old(out)@ + self.spec_encoding(length),
    {
        let mut ty = STREAM_TYS_START;
        if self.offsets.start != 0 {
            ty = ty | 0x04;
        }
        if length {
            ty = ty | 0x02;
        }
        if self.fin {
            ty = ty | 0x01;
        }
        assert(ty == self.spec_ty(length)) by {
            assert(0x08u64 | 0x04u64 == 0x0cu64 && 0x08u64 | 0x02u64 == 0x0au64 && 0x0cu64 | 0x02u64
                == 0x0eu64 && 0x08u64 | 0x01u64 == 0x09u64 && 0x0cu64 | 0x01u64 == 0x0du64
                && 0x0au64 | 0x01u64 == 0x0bu64 && 0x0eu64 | 0x01u64 == 0x0fu64) by (bit_vector);
        }
        put_varint(out, ty);
        put_varint(out, self.id.0);
        if self.offsets.start != 0 {
            put_varint(out, self.offsets.start);
        }
        if length {
            put_varint(out, self.offsets.end - self.offsets.start);
        }
    }
}

#[derive(Debug, Copy, Clone)]
pub struct NewConnectionId {
    pub sequence: u64,
    pub retire_prior_to: u64,
    pub id: ConnectionId,
    pub reset_token: ResetToken,
}

impl NewConnectionId {
    pub open spec fn spec_encoding(&self) -> Seq<u8> {
        spec_varint(0x18) + spec_varint(self.sequence) + spec_varint(self.retire_prior_to) + seq![
            self.id@.len() as u8,
        ] + self.id@ + self.reset_token@
    }

    pub fn encode(&self, out: &mut Vec<u8>)
        requires
            self.sequence <= VARINT_MAX,
            self.retire_prior_to <= VARINT_MAX,
        ensures
            final(out)@ == old(out)@ + self.spec_encoding(),
    {
        put_varint(out, FrameType::NEW_CONNECTION_ID().0);
        put_varint(out, self.sequence);
        put_varint(out, self.retire_prior_to);
        self.id.encode(out);
        put_slice(out, self.reset_token.as_slice());
    }
}

#[derive(Debug)]
pub enum ConnectionClose {
    Transport(TransportClose),
    Application(ApplicationClose),
}

impl ConnectionClose {
    pub open spec fn encode_ok(&self, max_len: usize) -> bool {
        match self {
            ConnectionClose::Transport(x) => x.encode_ok(max_len),
            ConnectionClose::Application(x) => x.encode_ok(max_len),
        }
    }

    pub open spec fn spec_encoding(&self, max_len: usize) -> Seq<u8> {
        match self {
            ConnectionClose::Transport(x) => x.spec_encoding(max_len),
            ConnectionClose::Application(x) => x.spec_encoding(max_len),
        }
    }

    pub fn encode(&self, out: &mut Vec<u8>, max_len: usize)
        requires
            self.encode_ok(max_len),
        ensures
            final(out)@ == old(out)@ + self.spec_encoding(max_len),
    {
        match self {
            ConnectionClose::Transport(x) => x.encode(out, max_len),
            ConnectionClose::Application(x) => x.encode(out, max_len),
        }
    }

    pub fn from_transport_error(x: TransportError) -> (r: Self)
        ensures
            (r matches ConnectionClose::Transport(t) && t.error_code == x.code && t.frame_type
                == x.frame && bytes_view(t.reason) == utf8_bytes(x.reason@)),
    {
        ConnectionClose::Transport(TransportClose::from_transport_error(x))
    }
}

/// The UTF-8 bytes of a string.
pub open spec fn utf8_bytes(s: Seq<char>) -> Seq<u8> {
    vstd::utf8::encode_utf8(s)
}

/// Reason given by the transport for closing the connection
#[derive(Debug)]
pub struct TransportClose {
    /// Class of error as encoded in the specification
    pub error_code: TransportErrorCode,
    /// Type of frame that caused the close
    pub frame_type: Option<FrameType>,
    /// Human-readable reason for the close
    pub reason: Bytes,
}

impl TransportClose {
    /// The text the close is shown with: the description of its code and
    /// its reason, read as UTF-8.
    pub fn to_string(&self) -> (r: String)
        ensures
            r@ == code_text(self.error_code.0) + if bytes_view(self.reason).len() == 0 {
                Seq::empty()
            } else {
                ": "@ + lossy_text(bytes_view(self.reason))
            },
    {
        let mut s = self.error_code.to_string();
        let reason = bytes_as_slice(&self.reason);
        if reason.len() != 0 {
            push_text(&mut s, ": ");
            let t = from_utf8_lossy(reason);
            push_text(&mut s, t.as_str());
        }
        s
    }

    pub const SIZE_BOUND: usize = 25;

    pub fn from_transport_error(x: TransportError) -> (r: Self)
        ensures
            r.error_code == x.code,
            r.frame_type == x.frame,
            bytes_view(r.reason) == utf8_bytes(x.reason@),
    {
        let reason = bytes_copy_from_slice(x.reason.as_str().as_bytes());
        Self { error_code: x.code, frame_type: x.frame, reason }
    }

    /// The frame type written in the frame: PADDING when there is none.
    pub open spec fn spec_frame_ty(&self) -> u64 {
        match self.frame_type {
            Some(t) => t.0,
            None => 0,
        }
    }

    /// How many bytes of the reason fit in `max_len`.
    pub open spec fn spec_reason_len(&self, max_len: usize) -> int {
        let room = max_len - 3 - spec_varint_len(self.spec_frame_ty()) - spec_varint_len(
            bytes_view(self.reason).len() as u64,
        );
        if bytes_view(self.reason).len() < room {
            bytes_view(self.reason).len() as int
        } else {
            room
        }
    }

    pub open spec fn encode_ok(&self, max_len: usize) -> bool {
        &&& self.error_code.0 <= VARINT_MAX
        &&& self.spec_frame_ty() <= VARINT_MAX
        &&& bytes_view(self.reason).len() <= VARINT_MAX
        &&& max_len >= 3 + spec_varint_len(self.spec_frame_ty()) + spec_varint_len(
            bytes_view(self.reason).len() as u64,
        )
    }

    pub open spec fn spec_encoding(&self, max_len: usize) -> Seq<u8> {
        let n = self.spec_reason_len(max_len);
        spec_varint(0x1c) + spec_varint(self.error_code.0) + spec_varint(self.spec_frame_ty())
            + spec_varint(n as u64) + bytes_view(self.reason).take(n)
    }

    pub fn encode(&self, out: &mut Vec<u8>, max_len: usize)
        requires
            self.encode_ok(max_len),
        ensures
            final(out)@ == old(out)@ + self.spec_encoding(max_len),
    {
        put_varint(out, FrameType::TRANSPORT_CLOSE().0);
        put_varint(out, self.error_code.0);
        let ty = match self.frame_type {
            Some(t) => t,
            None => FrameType::PADDING(),
        };
        put_varint(out, ty.0);
        let reason = bytes_as_slice(&self.reason);
        let max_len = max_len - 3 - varint_len(ty.0) - varint_len(reason.len() as u64);
        let actual_len = if reason.len() < max_len {
            reason.len()
        } else {
            max_len
        };
        let part = &reason[0..actual_len];
        assert(part@ == bytes_view(self.reason).take(actual_len as int));
        put_bytes_with_varint_length(out, part);
    }
}

/// Reason given by an application for closing the connection
#[derive(Debug)]
pub struct ApplicationClose {
    /// Application-specific reason code
    pub error_code: u64,
    /// Human-readable reason for the close
    pub reason: Bytes,
}

impl ApplicationClose {
    /// The text the close is shown with: its reason, read as UTF-8, and its
    /// code in decimal; without a reason, the code alone.
    pub fn to_string(&self) -> (r: String)
        ensures
            r@ == if bytes_view(self.reason).len() == 0 {
                decimal_text(self.error_code as nat)
            } else {
                lossy_text(bytes_view(self.reason)) + " (code "@ + decimal_text(self.error_code as nat)
                    + ")"@
            },
    {
        let reason = bytes_as_slice(&self.reason);
        if reason.len() != 0 {
            let mut s = from_utf8_lossy(reason);
            push_text(&mut s, " (code ");
            push_decimal(&mut s, self.error_code);
            push_text(&mut s, ")");
            s
        } else {
            let mut s = String::new();
            push_decimal(&mut s, self.error_code);
            assert(s@ =~= decimal_text(self.error_code as nat));
            s
        }
    }

    pub const SIZE_BOUND: usize = 17;

    /// How many bytes of the reason fit in `max_len`.
    pub open spec fn spec_reason_len(&self, max_len: usize) -> int {
        let room = max_len - 3 - spec_varint_len(bytes_view(self.reason).len() as u64);
        if bytes_view(self.reason).len() < room {
            bytes_view(self.reason).len() as int
        } else {
            room
        }
    }

    pub open spec fn encode_ok(&self, max_len: usize) -> bool {
        &&& self.error_code <= VARINT_MAX
        &&& bytes_view(self.reason).len() <= VARINT_MAX
        &&& max_len >= 3 + spec_varint_len(bytes_view(self.reason).len() as u64)
    }

    pub open spec fn spec_encoding(&self, max_len: usize) -> Seq<u8> {
        let n = self.spec_reason_len(max_len);
        spec_varint(0x1d) + spec_varint(self.error_code) + spec_varint(n as u64) + bytes_view(
            self.reason,
        ).take(n)
    }

    pub fn encode(&self, out: &mut Vec<u8>, max_len: usize)
        requires
            self.encode_ok(max_len),
        ensures
            final(out)@ == old(out)@ + self.spec_encoding(max_len),
    {
        put_varint(out, FrameType::APPLICATION_CLOSE().0);
        put_varint(out, self.error_code);
        let reason = bytes_as_slice(&self.reason);
        let max_len = max_len - 3 - varint_len(reason.len() as u64);
        let actual_len = if reason.len() < max_len {
            reason.len()
        } else {
            max_len
        };
        let part = &reason[0..actual_len];
        assert(part@ == bytes_view(self.reason).take(actual_len as int));
        put_bytes_with_varint_length(out, part);
    }
}

/// An unreliable datagram
#[derive(Debug)]
pub struct Datagram {
    /// Payload
    pub data: Bytes,
}

impl Datagram {
    pub const SIZE_BOUND: usize = 9;

    pub open spec fn spec_encoding(&self, length: bool) -> Seq<u8> {
        spec_varint(
            if length {
                0x31
            } else {
                0x30
            },
        ) + (if length {
            spec_varint(bytes_view(self.data).len() as u64)
        } else {
            Seq::empty()
        }) + bytes_view(self.data)
    }

    pub fn encode(&self, length: bool, out: &mut Vec<u8>)
        requires
            bytes_view(self.data).len() <= VARINT_MAX,
        ensures
            final(out)@ == old(out)@ + self.spec_encoding(length),
    {
        let ty: u64 = if length {
            0x31
        } else {
            0x30
        };
        put_varint(out, ty);
        let data = bytes_as_slice(&self.data);
        if length {
            put_varint(out, data.len() as u64);
        }
        put_slice(out, data);
    }

    pub fn size(&self, length: bool) -> (r: usize)
        requires
            bytes_view(self.data).len() <= VARINT_MAX,
            bytes_view(self.data).len() + 9 <= usize::MAX,
        ensures
            r == self.spec_encoding(length).len(),
    {
        let len = bytes_len(&self.data);
        proof {
            lemma_varint_len(0x30);
            lemma_varint_len(0x31);
        }
        1 + if length {
            varint_len(len as u64)
        } else {
            0
        } + len
    }
}

#[derive(Debug, Copy, Clone, PartialEq, Eq, Structural)]
pub struct AckFrequency {
    pub sequence: u64,
    pub ack_eliciting_threshold: u64,
    pub request_max_ack_delay: u64,
    pub reordering_threshold: u64,
}

impl AckFrequency {
    pub open spec fn spec_encoding(&self) -> Seq<u8> {
        spec_varint(0xaf) + spec_varint(self.sequence) + spec_varint(self.ack_eliciting_threshold)
            + spec_varint(self.request_max_ack_delay) + spec_varint(self.reordering_threshold)
    }

    pub fn encode(&self, out: &mut Vec<u8>)
        requires
            self.sequence <= VARINT_MAX,
            self.ack_eliciting_threshold <= VARINT_MAX,
            self.request_max_ack_delay <= VARINT_MAX,
            self.reordering_threshold <= VARINT_MAX,
        ensures
            final(out)@ == old(out)@ + self.spec_encoding(),
    {
        put_varint(out, FrameType::ACK_FREQUENCY().0);
        put_varint(out, self.sequence);
        put_varint(out, self.ack_eliciting_threshold);
        put_varint(out, self.request_max_ack_delay);
        put_varint(out, self.reordering_threshold);
    }
}

/// Why a frame could not be read.
#[derive(Debug, Copy, Clone, PartialEq, Eq, Structural)]
pub enum ParseFailure {
    /// The frame ended early
    End,
    /// The frame type is unknown
    InvalidId,
    /// A field holds an impossible value
    Malformed,
    /// A NEW_CONNECTION_ID frame gives a connection ID longer than
    /// `MAX_CID_SIZE`, which cannot be read into one
    CidTooLong,
}

/// A length-prefixed byte string at the start of `s`: a variable-length
/// integer length followed by that many bytes.
pub open spec fn spec_parse_bytes_vlen(s: Seq<u8>) -> Option<(Seq<u8>, nat)> {
    match spec_parse_varint(s) {
        None => None,
        Some((len, n)) => if s.len() - n < len {
            None
        } else {
            Some((s.subrange(n as int, n + len), (n + len) as nat))
        },
    }
}

/// The big-endian `u64` at the start of `s`.
pub open spec fn spec_parse_u64(s: Seq<u8>) -> Option<(u64, nat)> {
    if s.len() < 8 {
        None
    } else {
        Some((be_prefix(s, 8), 8))
    }
}

/// The ACK blocks after the first: `n` gap and block pairs below
/// `smallest`, each leaving room below it. Gives the number of bytes they
/// take.
pub open spec fn spec_scan_ack_gaps(s: Seq<u8>, smallest: u64, n: nat) -> Result<nat, ParseFailure>
    decreases n,
{
    if n == 0 {
        Ok(0)
    } else {
        match spec_parse_varint(s) {
            None => Err(ParseFailure::End),
            Some((gap, k1)) => if gap + 2 > smallest {
                Err(ParseFailure::Malformed)
            } else {
                let sm = (smallest - gap - 2) as u64;
                match spec_parse_varint(s.skip(k1 as int)) {
                    None => Err(ParseFailure::End),
                    Some((block, k2)) => if block > sm {
                        Err(ParseFailure::Malformed)
                    } else {
                        match spec_scan_ack_gaps(
                            s.skip((k1 + k2) as int),
                            (sm - block) as u64,
                            (n - 1) as nat,
                        ) {
                            Ok(m) => Ok(k1 + k2 + m),
                            Err(e) => Err(e),
                        }
                    },
                }
            },
        }
    }
}

/// The first ACK block followed by `n` gap and block pairs, none reaching
/// below packet number zero. Gives the number of bytes they take.
pub open spec fn spec_scan_ack_blocks(s: Seq<u8>, largest: u64, n: nat) -> Result<nat, ParseFailure> {
    match spec_parse_varint(s) {
        None => Err(ParseFailure::End),
        Some((first, k)) => if first > largest {
            Err(ParseFailure::Malformed)
        } else {
            match spec_scan_ack_gaps(s.skip(k as int), (largest - first) as u64, n) {
                Ok(m) => Ok(k + m),
                Err(e) => Err(e),
            }
        },
    }
}

/// An ACK frame body (after its type).
pub open spec fn spec_parse_ack(ecn: bool, s: Seq<u8>) -> Result<(FrameModel, nat), ParseFailure> {
    match spec_parse_varints(s, 3) {
        None => Err(ParseFailure::End),
        Some((vs, n)) => match spec_scan_ack_blocks(s.skip(n as int), vs[0], vs[2] as nat) {
            Err(e) => Err(e),
            Ok(m) => {
                let additional = s.subrange(n as int, (n + m) as int);
                if !ecn {
                    Ok((FrameModel::Ack { largest: vs[0], delay: vs[1], additional, ecn: None }, n + m))
                } else {
                    match spec_parse_varints(s.skip((n + m) as int), 3) {
                        None => Err(ParseFailure::End),
                        Some((es, k)) => Ok(
                            (
                                FrameModel::Ack {
                                    largest: vs[0],
                                    delay: vs[1],
                                    additional,
                                    ecn: Some(EcnCounts { ect0: es[0], ect1: es[1], ce: es[2] }),
                                },
                                n + m + k,
                            ),
                        ),
                    }
                }
            },
        },
    }
}

/// A NEW_CONNECTION_ID frame body (after its type).
pub open spec fn spec_parse_new_cid(s: Seq<u8>) -> Result<(FrameModel, nat), ParseFailure> {
    match spec_parse_varints(s, 2) {
        None => Err(ParseFailure::End),
        Some((vs, n)) => if vs[1] > vs[0] {
            Err(ParseFailure::Malformed)
        } else if s.len() <= n {
            Err(ParseFailure::End)
        } else if s[n as int] > 20 {
            Err(ParseFailure::CidTooLong)
        } else {
            let len = s[n as int] as nat;
            if s.len() < n + 1 + len {
                Err(ParseFailure::End)
            } else if len == 0 {
                Err(ParseFailure::Malformed)
            } else if s.len() < n + 1 + len + 16 {
                Err(ParseFailure::End)
            } else {
                Ok(
                    (
                        FrameModel::NewConnectionId {
                            sequence: vs[0],
                            retire_prior_to: vs[1],
                            id: s.subrange((n + 1) as int, (n + 1 + len) as int),
                            reset_token: s.subrange((n + 1 + len) as int, (n + 1 + len + 16) as int),
                        },
                        n + 1 + len + 16,
                    ),
                )
            }
        },
    }
}

/// A STREAM frame body (after its type `ty`): the stream ID, the offset if
/// the type has the offset flag, then a length-prefixed payload if it has
/// the length flag, else everything that is left.
pub open spec fn spec_parse_stream(ty: u64, s: Seq<u8>) -> Result<(FrameModel, nat), ParseFailure> {
    let flags = ty as u8;
    match spec_parse_varint(s) {
        None => Err(ParseFailure::End),
        Some((id, n1)) => {
            let off = if flags & 4u8 != 0 {
                spec_parse_varint(s.skip(n1 as int))
            } else {
                Some((0u64, 0nat))
            };
            match off {
                None => Err(ParseFailure::End),
                Some((offset, n2)) => {
                    let s3 = s.skip((n1 + n2) as int);
                    let fin = flags & 1u8 != 0;
                    if flags & 2u8 != 0 {
                        match spec_parse_bytes_vlen(s3) {
                            None => Err(ParseFailure::End),
                            Some((data, n3)) => Ok(
                                (
                                    FrameModel::Stream { id: StreamId(id), offset, fin, data },
                                    n1 + n2 + n3,
                                ),
                            ),
                        }
                    } else {
                        Ok((FrameModel::Stream { id: StreamId(id), offset, fin, data: s3 }, s.len()))
                    }
                },
            }
        },
    }
}

/// A DATAGRAM frame body (after its type `ty`).
pub open spec fn spec_parse_datagram(ty: u64, s: Seq<u8>) -> Result<(FrameModel, nat), ParseFailure> {
    if (ty as u8) & 1u8 != 0 {
        match spec_parse_bytes_vlen(s) {
            None => Err(ParseFailure::End),
            Some((data, n)) => Ok((FrameModel::Datagram { data }, n)),
        }
    } else {
        Ok((FrameModel::Datagram { data: s }, s.len()))
    }
}

/// A frame body of `k` variable-length integers made into a frame by `f`.
pub open spec fn spec_parse_fields(
    s: Seq<u8>,
    k: nat,
    f: spec_fn(Seq<u64>) -> FrameModel,
) -> Result<(FrameModel, nat), ParseFailure> {
    match spec_parse_varints(s, k) {
        None => Err(ParseFailure::End),
        Some((vs, n)) => Ok((f(vs), n)),
    }
}

/// The body of a frame of type `ty`, read from the start of `s`: the frame
/// and the number of bytes it takes, or why it cannot be read.
pub open spec fn spec_parse_frame_body(ty: u64, s: Seq<u8>) -> Result<(FrameModel, nat), ParseFailure> {
    if ty == 0x00 {
        Ok((FrameModel::Padding, 0))
    } else if ty == 0x01 {
        Ok((FrameModel::Ping, 0))
    } else if ty == 0x02 || ty == 0x03 {
        spec_parse_ack(ty == 0x03, s)
    } else if ty == 0x04 {
        spec_parse_fields(
            s,
            3,
            |vs: Seq<u64>|
                FrameModel::ResetStream(
                    ResetStream { id: StreamId(vs[0]), error_code: vs[1], final_offset: vs[2] },
                ),
        )
    } else if ty == 0x05 {
        spec_parse_fields(
            s,
            2,
            |vs: Seq<u64>| FrameModel::StopSending(StopSending { id: StreamId(vs[0]), error_code: vs[1] }),
        )
    } else if ty == 0x06 {
        match spec_parse_varint(s) {
            None => Err(ParseFailure::End),
            Some((offset, n)) => match spec_parse_bytes_vlen(s.skip(n as int)) {
                None => Err(ParseFailure::End),
                Some((data, m)) => Ok((FrameModel::Crypto { offset, data }, n + m)),
            },
        }
    } else if ty == 0x07 {
        match spec_parse_bytes_vlen(s) {
            None => Err(ParseFailure::End),
            Some((token, n)) => Ok((FrameModel::NewToken { token }, n)),
        }
    } else if ty == 0x10 {
        spec_parse_fields(s, 1, |vs: Seq<u64>| FrameModel::MaxData(vs[0]))
    } else if ty == 0x11 {
        spec_parse_fields(
            s,
            2,
            |vs: Seq<u64>| FrameModel::MaxStreamData { id: StreamId(vs[0]), limit: vs[1] },
        )
    } else if ty == 0x12 {
        spec_parse_fields(s, 1, |vs: Seq<u64>| FrameModel::MaxStreams { dir: Dir::Bi, count: vs[0] })
    } else if ty == 0x13 {
        spec_parse_fields(s, 1, |vs: Seq<u64>| FrameModel::MaxStreams { dir: Dir::Uni, count: vs[0] })
    } else if ty == 0x14 {
        spec_parse_fields(s, 1, |vs: Seq<u64>| FrameModel::DataBlocked { limit: vs[0] })
    } else if ty == 0x15 {
        spec_parse_fields(
            s,
            2,
            |vs: Seq<u64>| FrameModel::StreamDataBlocked { id: StreamId(vs[0]), limit: vs[1] },
        )
    } else if ty == 0x16 {
        spec_parse_fields(s, 1, |vs: Seq<u64>| FrameModel::StreamsBlocked { dir: Dir::Bi, limit: vs[0] })
    } else if ty == 0x17 {
        spec_parse_fields(s, 1, |vs: Seq<u64>| FrameModel::StreamsBlocked { dir: Dir::Uni, limit: vs[0] })
    } else if ty == 0x18 {
        spec_parse_new_cid(s)
    } else if ty == 0x19 {
        spec_parse_fields(s, 1, |vs: Seq<u64>| FrameModel::RetireConnectionId { sequence: vs[0] })
    } else if ty == 0x1a {
        match spec_parse_u64(s) {
            None => Err(ParseFailure::End),
            Some((x, n)) => Ok((FrameModel::PathChallenge(x), n)),
        }
    } else if ty == 0x1b {
        match spec_parse_u64(s) {
            None => Err(ParseFailure::End),
            Some((x, n)) => Ok((FrameModel::PathResponse(x), n)),
        }
    } else if ty == 0x1c {
        match spec_parse_varints(s, 2) {
            None => Err(ParseFailure::End),
            Some((vs, n)) => match spec_parse_bytes_vlen(s.skip(n as int)) {
                None => Err(ParseFailure::End),
                Some((reason, m)) => Ok(
                    (
                        FrameModel::TransportClose {
                            error_code: vs[0],
                            frame_type: if vs[1] == 0 {
                                None
                            } else {
                                Some(FrameType(vs[1]))
                            },
                            reason,
                        },
                        n + m,
                    ),
                ),
            },
        }
    } else if ty == 0x1d {
        match spec_parse_varint(s) {
            None => Err(ParseFailure::End),
            Some((code, n)) => match spec_parse_bytes_vlen(s.skip(n as int)) {
                None => Err(ParseFailure::End),
                Some((reason, m)) => Ok(
                    (FrameModel::ApplicationClose { error_code: code, reason }, n + m),
                ),
            },
        }
    } else if ty == 0x1e {
        Ok((FrameModel::HandshakeDone, 0))
    } else if ty == 0x1f {
        Ok((FrameModel::ImmediateAck, 0))
    } else if STREAM_TYS_START <= ty <= STREAM_TYS_END {
        spec_parse_stream(ty, s)
    } else if DATAGRAM_TYS_START <= ty <= DATAGRAM_TYS_END {
        spec_parse_datagram(ty, s)
    } else {
        Err(ParseFailure::InvalidId)
    }
}

/// The frame at the start of `s`: its type, then its body.
pub open spec fn spec_parse_frame(s: Seq<u8>) -> Result<(FrameModel, nat), ParseFailure> {
    match spec_parse_varint(s) {
        None => Err(ParseFailure::End),
        Some((ty, n)) => match spec_parse_frame_body(ty, s.skip(n as int)) {
            Ok((f, m)) => Ok((f, n + m)),
            Err(e) => Err(e),
        },
    }
}

/// The message a frame parse error is shown with.
pub open spec fn failure_reason(k: ParseFailure) -> Seq<char> {
    match k {
        ParseFailure::End => "unexpected end"@,
        ParseFailure::InvalidId => "invalid frame ID"@,
        _ => "malformed frame"@,
    }
}

pub struct FrameParser {
    pub bytes: Bytes,
    pub last_ty: Option<FrameType>,
}

#[derive(Debug, Eq, PartialEq)]
pub enum FrameParseError {
    UnexpectedEnd(TryGetError),
    InvalidFrameId,
    Malformed,
}

impl FrameParseError {
    /// The kind of failure the error reports.
    pub open spec fn kind(self) -> ParseFailure {
        match self {
            FrameParseError::UnexpectedEnd(_) => ParseFailure::End,
            FrameParseError::InvalidFrameId => ParseFailure::InvalidId,
            FrameParseError::Malformed => ParseFailure::Malformed,
        }
    }

    /// The message the error is shown with.
    pub fn to_string(&self) -> (r: String)
        ensures
            r@ == failure_reason(self.kind()),
    {
        match self {
            FrameParseError::UnexpectedEnd(_) => "unexpected end".to_owned(),
            FrameParseError::InvalidFrameId => "invalid frame ID".to_owned(),
            FrameParseError::Malformed => "malformed frame".to_owned(),
        }
    }
}

/// The ways a skip of a skip is one skip.
pub proof fn lemma_skip_skip(s: Seq<u8>, a: int, b: int)
    requires
        0 <= a,
        0 <= b,
        a + b <= s.len(),
    ensures
        s.skip(a).skip(b) == s.skip(a + b),
{
    assert(s.skip(a).skip(b) =~= s.skip(a + b));
}

/// A variable-length integer written before more bytes reads back as
/// itself and leaves those bytes.
proof fn lemma_varint_then(v: u64, rest: Seq<u8>)
    requires
        v <= VARINT_MAX,
    ensures
        spec_parse_varint(spec_varint(v) + rest) == Some((v, spec_varint(v).len())),
        (spec_varint(v) + rest).skip(spec_varint(v).len() as int) == rest,
{
    crate::varint::lemma_varint_roundtrip(v, rest);
    crate::varint::lemma_varint_len(v);
    assert((spec_varint(v) + rest).skip(spec_varint(v).len() as int) =~= rest);
}

/// Variable-length integers written one after the other read back as
/// written.
proof fn lemma_varints_then(vs: Seq<u64>, rest: Seq<u8>)
    requires
        forall|i: int| 0 <= i < vs.len() ==> vs[i] <= VARINT_MAX,
    ensures
        spec_parse_varints(varints_encoding(vs) + rest, vs.len()) == Some(
            (vs, varints_encoding(vs).len()),
        ),
    decreases vs.len(),
{
    if vs.len() > 0 {
        let tail = vs.drop_first();
        let t = varints_encoding(tail) + rest;
        lemma_varints_then(tail, rest);
        lemma_varint_then(vs[0], t);
        assert(varints_encoding(vs) + rest =~= spec_varint(vs[0]) + t);
        assert(seq![vs[0]].add(tail) =~= vs);
    }
}

/// The bytes `k` variable-length integers are written as.
pub open spec fn varints_encoding(vs: Seq<u64>) -> Seq<u8>
    decreases vs.len(),
{
    if vs.len() == 0 {
        Seq::empty()
    } else {
        spec_varint(vs[0]) + varints_encoding(vs.drop_first())
    }
}

/// A RESET_STREAM frame reads back as written, and leaves what follows it.
pub proof fn lemma_reset_stream_roundtrip(f: ResetStream, rest: Seq<u8>)
    requires
        f.id.0 <= VARINT_MAX,
        f.error_code <= VARINT_MAX,
        f.final_offset <= VARINT_MAX,
    ensures
        spec_parse_frame(f.spec_encoding() + rest) == Ok::<(FrameModel, nat), ParseFailure>(
            (FrameModel::ResetStream(f), f.spec_encoding().len()),
        ),
{
    let vs = seq![f.id.0, f.error_code, f.final_offset];
    reveal_with_fuel(varints_encoding, 4);
    assert(vs.drop_first().drop_first().drop_first() =~= Seq::<u64>::empty());
    assert(varints_encoding(vs) =~= spec_varint(f.id.0) + spec_varint(f.error_code) + spec_varint(
        f.final_offset,
    ));
    lemma_varints_then(vs, rest);
    lemma_varint_then(0x04, varints_encoding(vs) + rest);
    assert(f.spec_encoding() + rest =~= spec_varint(0x04) + (varints_encoding(vs) + rest));
    assert(FrameModel::ResetStream(ResetStream { id: StreamId(vs[0]), error_code: vs[1], final_offset: vs[2] }) == FrameModel::ResetStream(f));
}

/// A STOP_SENDING frame reads back as written, and leaves what follows it.
pub proof fn lemma_stop_sending_roundtrip(f: StopSending, rest: Seq<u8>)
    requires
        f.id.0 <= VARINT_MAX,
        f.error_code <= VARINT_MAX,
    ensures
        spec_parse_frame(f.spec_encoding() + rest) == Ok::<(FrameModel, nat), ParseFailure>(
            (FrameModel::StopSending(f), f.spec_encoding().len()),
        ),
{
    let vs = seq![f.id.0, f.error_code];
    reveal_with_fuel(varints_encoding, 3);
    assert(vs.drop_first().drop_first() =~= Seq::<u64>::empty());
    assert(varints_encoding(vs) =~= spec_varint(f.id.0) + spec_varint(f.error_code));
    lemma_varints_then(vs, rest);
    lemma_varint_then(0x05, varints_encoding(vs) + rest);
    assert(f.spec_encoding() + rest =~= spec_varint(0x05) + (varints_encoding(vs) + rest));
    assert(FrameModel::StopSending(StopSending { id: StreamId(vs[0]), error_code: vs[1] }) == FrameModel::StopSending(f));
}

/// A byte string written with its length before more bytes reads back as
/// itself and leaves those bytes.
proof fn lemma_bytes_vlen_then(d: Seq<u8>, rest: Seq<u8>)
    requires
        d.len() <= VARINT_MAX,
    ensures
        spec_parse_bytes_vlen(spec_varint(d.len() as u64) + d + rest) == Some(
            (d, spec_varint(d.len() as u64).len() + d.len()),
        ),
{
    let l = spec_varint(d.len() as u64);
    let u = l + d + rest;
    lemma_varint_then(d.len() as u64, d + rest);
    assert(u =~= l + (d + rest));
    assert(u.subrange(l.len() as int, (l.len() + d.len()) as int) =~= d);
}

/// A CRYPTO frame reads back as written, and leaves what follows it.
#[verifier::spinoff_prover]
#[verifier::rlimit(40)]
pub proof fn lemma_crypto_roundtrip(f: Crypto, rest: Seq<u8>)
    requires
        f.offset <= VARINT_MAX,
        bytes_view(f.data).len() <= VARINT_MAX,
    ensures
        spec_parse_frame(f.spec_encoding() + rest) == Ok::<(FrameModel, nat), ParseFailure>(
            (FrameModel::Crypto { offset: f.offset, data: bytes_view(f.data) }, f.spec_encoding().len()),
        ),
{
    let d = bytes_view(f.data);
    let l = spec_varint(d.len() as u64);
    let u = l + d + rest;
    let body = spec_varint(f.offset) + u;
    lemma_bytes_vlen_then(d, rest);
    lemma_varint_then(f.offset, u);
    lemma_varint_then(0x06, body);
    assert(f.spec_encoding() + rest =~= spec_varint(0x06) + body);
    assert(spec_parse_frame_body(0x06, body) == Ok::<(FrameModel, nat), ParseFailure>(
        (FrameModel::Crypto { offset: f.offset, data: d }, spec_varint(f.offset).len() + l.len() + d.len()),
    ));
}

/// A NEW_TOKEN frame reads back as written, and leaves what follows it.
#[verifier::spinoff_prover]
#[verifier::rlimit(40)]
pub proof fn lemma_new_token_roundtrip(f: NewToken, rest: Seq<u8>)
    requires
        bytes_view(f.token).len() <= VARINT_MAX,
    ensures
        spec_parse_frame(f.spec_encoding() + rest) == Ok::<(FrameModel, nat), ParseFailure>(
            (FrameModel::NewToken { token: bytes_view(f.token) }, f.spec_encoding().len()),
        ),
{
    let d = bytes_view(f.token);
    let body = spec_varint(d.len() as u64) + d + rest;
    lemma_bytes_vlen_then(d, rest);
    lemma_frame_then(0x07, body);
    assert(f.spec_encoding() + rest =~= spec_varint(0x07) + body);
}

/// The body of an APPLICATION_CLOSE frame reads back as its code and
/// reason.
#[verifier::spinoff_prover]
#[verifier::rlimit(40)]
proof fn lemma_application_close_body(code: u64, d: Seq<u8>, rest: Seq<u8>)
    requires
        code <= VARINT_MAX,
        d.len() <= VARINT_MAX,
    ensures
        spec_parse_frame_body(0x1d, spec_varint(code) + (spec_varint(d.len() as u64) + d + rest)) == Ok::<
            (FrameModel, nat),
            ParseFailure,
        >(
            (
                FrameModel::ApplicationClose { error_code: code, reason: d },
                spec_varint(code).len() + spec_varint(d.len() as u64).len() + d.len(),
            ),
        ),
{
    lemma_bytes_vlen_then(d, rest);
    lemma_varint_then(code, spec_varint(d.len() as u64) + d + rest);
}

/// An APPLICATION_CLOSE frame reads back with its code and its reason, cut
/// to fit the room it was written in, and leaves what follows it.
#[verifier::spinoff_prover]
#[verifier::rlimit(40)]
pub proof fn lemma_application_close_roundtrip(f: ApplicationClose, max_len: usize, rest: Seq<u8>)
    requires
        f.encode_ok(max_len),
    ensures
        spec_parse_frame(f.spec_encoding(max_len) + rest) == Ok::<(FrameModel, nat), ParseFailure>(
            (
                FrameModel::ApplicationClose {
                    error_code: f.error_code,
                    reason: bytes_view(f.reason).take(f.spec_reason_len(max_len)),
                },
                f.spec_encoding(max_len).len(),
            ),
        ),
{
    let n = f.spec_reason_len(max_len);
    let d = bytes_view(f.reason).take(n);
    assert(d.len() == n);
    let body = spec_varint(f.error_code) + (spec_varint(n as u64) + d + rest);
    let x = f.spec_encoding(max_len) + rest;
    lemma_application_close_body(f.error_code, d, rest);
    assert(x =~= spec_varint(0x1d) + body);
    lemma_frame_is(
        x,
        0x1d,
        body,
        FrameModel::ApplicationClose { error_code: f.error_code, reason: d },
        spec_varint(f.error_code).len() + spec_varint(n as u64).len() + d.len(),
    );
}

/// The body of a DATAGRAM frame reads back as its data: with the length
/// bit, the data after the length; without, all of the body.
#[verifier::spinoff_prover]
#[verifier::rlimit(40)]
proof fn lemma_datagram_body(d: Seq<u8>, rest: Seq<u8>)
    requires
        d.len() <= VARINT_MAX,
    ensures
        spec_parse_frame_body(0x31, spec_varint(d.len() as u64) + d + rest) == Ok::<
            (FrameModel, nat),
            ParseFailure,
        >((FrameModel::Datagram { data: d }, spec_varint(d.len() as u64).len() + d.len())),
        spec_parse_frame_body(0x30, d + rest) == Ok::<(FrameModel, nat), ParseFailure>(
            (FrameModel::Datagram { data: d + rest }, d.len() + rest.len()),
        ),
{
    assert(((0x31u64 as u8) & 1u8) != 0u8 && ((0x30u64 as u8) & 1u8) == 0u8) by (bit_vector);
    lemma_bytes_vlen_then(d, rest);
}

/// A DATAGRAM frame reads back as written: with its length, as its data,
/// leaving what follows it; without, as everything up to the end.
#[verifier::spinoff_prover]
#[verifier::rlimit(40)]
pub proof fn lemma_datagram_roundtrip(f: Datagram, length: bool, rest: Seq<u8>)
    requires
        bytes_view(f.data).len() <= VARINT_MAX,
    ensures
        spec_parse_frame(f.spec_encoding(length) + rest) == Ok::<(FrameModel, nat), ParseFailure>(
            (
                FrameModel::Datagram {
                    data: if length {
                        bytes_view(f.data)
                    } else {
                        bytes_view(f.data) + rest
                    },
                },
                if length {
                    f.spec_encoding(length).len()
                } else {
                    f.spec_encoding(length).len() + rest.len()
                },
            ),
        ),
{
    let d = bytes_view(f.data);
    let x = f.spec_encoding(length) + rest;
    lemma_datagram_body(d, rest);
    if length {
        let body = spec_varint(d.len() as u64) + d + rest;
        assert(x =~= spec_varint(0x31) + body);
        lemma_frame_is(
            x,
            0x31,
            body,
            FrameModel::Datagram { data: d },
            spec_varint(d.len() as u64).len() + d.len(),
        );
    } else {
        let body = d + rest;
        assert(x =~= spec_varint(0x30) + body);
        lemma_frame_is(x, 0x30, body, FrameModel::Datagram { data: d + rest }, d.len() + rest.len());
    }
}

/// The body of a TRANSPORT_CLOSE frame reads back as its code, the frame
/// type it names and its reason.
#[verifier::spinoff_prover]
#[verifier::rlimit(40)]
proof fn lemma_transport_close_body(
    code: u64,
    ty: u64,
    ft: Option<FrameType>,
    d: Seq<u8>,
    rest: Seq<u8>,
)
    requires
        code <= VARINT_MAX,
        ty <= VARINT_MAX,
        d.len() <= VARINT_MAX,
        ft == (if ty == 0 {
            None
        } else {
            Some(FrameType(ty))
        }),
    ensures
        spec_parse_frame_body(
            0x1c,
            spec_varint(code) + spec_varint(ty) + (spec_varint(d.len() as u64) + d + rest),
        ) == Ok::<(FrameModel, nat), ParseFailure>(
            (
                FrameModel::TransportClose { error_code: code, frame_type: ft, reason: d },
                spec_varint(code).len() + spec_varint(ty).len() + spec_varint(d.len() as u64).len()
                    + d.len(),
            ),
        ),
{
    let vs = seq![code, ty];
    let u = spec_varint(d.len() as u64) + d + rest;
    reveal_with_fuel(varints_encoding, 3);
    assert(vs.drop_first().drop_first() =~= Seq::<u64>::empty());
    assert(varints_encoding(vs) =~= spec_varint(code) + spec_varint(ty));
    lemma_varints_then(vs, u);
    assert(spec_varint(code) + spec_varint(ty) + u =~= varints_encoding(vs) + u);
    assert((varints_encoding(vs) + u).skip(varints_encoding(vs).len() as int) =~= u);
    lemma_bytes_vlen_then(d, rest);
}

/// A TRANSPORT_CLOSE frame reads back with its code, the frame type it
/// names and its reason, cut to fit the room it was written in, and leaves
/// what follows it. A frame type of zero is not told from none.
#[verifier::spinoff_prover]
#[verifier::rlimit(40)]
pub proof fn lemma_transport_close_roundtrip(f: TransportClose, max_len: usize, rest: Seq<u8>)
    requires
        f.encode_ok(max_len),
        f.frame_type != Some(FrameType(0)),
    ensures
        spec_parse_frame(f.spec_encoding(max_len) + rest) == Ok::<(FrameModel, nat), ParseFailure>(
            (
                FrameModel::TransportClose {
                    error_code: f.error_code.0,
                    frame_type: f.frame_type,
                    reason: bytes_view(f.reason).take(f.spec_reason_len(max_len)),
                },
                f.spec_encoding(max_len).len(),
            ),
        ),
{
    let n = f.spec_reason_len(max_len);
    let d = bytes_view(f.reason).take(n);
    assert(d.len() == n);
    let ty = f.spec_frame_ty();
    let body = spec_varint(f.error_code.0) + spec_varint(ty) + (spec_varint(n as u64) + d + rest);
    let x = f.spec_encoding(max_len) + rest;
    assert((if ty == 0 {
        None
    } else {
        Some(FrameType(ty))
    }) == f.frame_type);
    lemma_transport_close_body(f.error_code.0, ty, f.frame_type, d, rest);
    assert(x =~= spec_varint(0x1c) + body);
    lemma_frame_is(
        x,
        0x1c,
        body,
        FrameModel::TransportClose { error_code: f.error_code.0, frame_type: f.frame_type, reason: d },
        spec_varint(f.error_code.0).len() + spec_varint(ty).len() + spec_varint(n as u64).len()
            + d.len(),
    );
}

/// The body of a NEW_CONNECTION_ID frame reads back as written.
#[verifier::spinoff_prover]
#[verifier::rlimit(40)]
proof fn lemma_new_cid_body(sequence: u64, retire: u64, id: Seq<u8>, token: Seq<u8>, rest: Seq<u8>)
    requires
        sequence <= VARINT_MAX,
        retire <= sequence,
        0 < id.len() <= 20,
        token.len() == 16,
    ensures
        spec_parse_frame_body(
            0x18,
            spec_varint(sequence) + spec_varint(retire) + (seq![id.len() as u8] + id + token + rest),
        ) == Ok::<(FrameModel, nat), ParseFailure>(
            (
                FrameModel::NewConnectionId {
                    sequence,
                    retire_prior_to: retire,
                    id,
                    reset_token: token,
                },
                spec_varint(sequence).len() + spec_varint(retire).len() + 1 + id.len() + 16,
            ),
        ),
{
    let vs = seq![sequence, retire];
    let u = seq![id.len() as u8] + id + token + rest;
    reveal_with_fuel(varints_encoding, 3);
    assert(vs.drop_first().drop_first() =~= Seq::<u64>::empty());
    assert(varints_encoding(vs) =~= spec_varint(sequence) + spec_varint(retire));
    lemma_varints_then(vs, u);
    let s = spec_varint(sequence) + spec_varint(retire) + u;
    let k = varints_encoding(vs).len();
    assert(s =~= varints_encoding(vs) + u);
    assert(s[k as int] == id.len() as u8);
    assert(s.subrange((k + 1) as int, (k + 1 + id.len()) as int) =~= id);
    assert(s.subrange((k + 1 + id.len()) as int, (k + 1 + id.len() + 16) as int) =~= token);
}

/// A NEW_CONNECTION_ID frame reads back as written, and leaves what follows
/// it. An empty connection ID is refused as malformed.
#[verifier::spinoff_prover]
#[verifier::rlimit(40)]
pub proof fn lemma_new_cid_roundtrip(f: NewConnectionId, rest: Seq<u8>)
    requires
        f.sequence <= VARINT_MAX,
        f.retire_prior_to <= f.sequence,
        0 < f.id@.len() <= 20,
    ensures
        spec_parse_frame(f.spec_encoding() + rest) == Ok::<(FrameModel, nat), ParseFailure>(
            (
                FrameModel::NewConnectionId {
                    sequence: f.sequence,
                    retire_prior_to: f.retire_prior_to,
                    id: f.id@,
                    reset_token: f.reset_token@,
                },
                f.spec_encoding().len(),
            ),
        ),
{
    let body = spec_varint(f.sequence) + spec_varint(f.retire_prior_to) + (seq![
        f.id@.len() as u8,
    ] + f.id@ + f.reset_token@ + rest);
    let x = f.spec_encoding() + rest;
    lemma_new_cid_body(f.sequence, f.retire_prior_to, f.id@, f.reset_token@, rest);
    assert(x =~= spec_varint(0x18) + body);
    lemma_frame_is(
        x,
        0x18,
        body,
        FrameModel::NewConnectionId {
            sequence: f.sequence,
            retire_prior_to: f.retire_prior_to,
            id: f.id@,
            reset_token: f.reset_token@,
        },
        spec_varint(f.sequence).len() + spec_varint(f.retire_prior_to).len() + 1 + f.id@.len() + 16,
    );
}

/// A frame type from eight to fifteen is a STREAM frame.
#[verifier::spinoff_prover]
#[verifier::rlimit(40)]
proof fn lemma_stream_ty_body(ty: u64, s: Seq<u8>)
    requires
        STREAM_TYS_START <= ty <= STREAM_TYS_END,
    ensures
        spec_parse_frame_body(ty, s) == spec_parse_stream(ty, s),
{
}

/// `x`, a STREAM frame's type and then a body that reads as frame `m` in
/// `k` bytes, reads as that frame.
#[verifier::spinoff_prover]
#[verifier::rlimit(40)]
proof fn lemma_stream_frame_is(x: Seq<u8>, ty: u64, body: Seq<u8>, m: FrameModel, k: nat)
    requires
        STREAM_TYS_START <= ty <= STREAM_TYS_END,
        x == spec_varint(ty) + body,
        spec_parse_stream(ty, body) == Ok::<(FrameModel, nat), ParseFailure>((m, k)),
    ensures
        spec_parse_frame(x) == Ok::<(FrameModel, nat), ParseFailure>((m, spec_varint(ty).len() + k)),
{
    lemma_stream_ty_body(ty, body);
    lemma_frame_is(x, ty, body, m, k);
}

/// The body of a STREAM frame of type `ty` reads back as the stream's ID,
/// offset, fin bit and data.
#[verifier::spinoff_prover]
#[verifier::rlimit(40)]
proof fn lemma_stream_body(
    f: StreamMeta,
    length: bool,
    data: Seq<u8>,
    rest: Seq<u8>,
    body: Seq<u8>,
    m: FrameModel,
    k: nat,
)
    requires
        f.id.0 <= VARINT_MAX,
        f.offsets.start <= VARINT_MAX,
        length ==> data.len() <= VARINT_MAX,
        body == spec_varint(f.id.0) + ((if f.offsets.start != 0 {
            spec_varint(f.offsets.start)
        } else {
            Seq::<u8>::empty()
        }) + (if length {
            spec_varint(data.len() as u64) + data + rest
        } else {
            data + rest
        })),
        m == (FrameModel::Stream {
            id: f.id,
            offset: f.offsets.start,
            fin: f.fin,
            data: if length {
                data
            } else {
                data + rest
            },
        }),
        k == if length {
            spec_varint(f.id.0).len() + (if f.offsets.start != 0 {
                spec_varint(f.offsets.start)
            } else {
                Seq::<u8>::empty()
            }).len() + spec_varint(data.len() as u64).len() + data.len()
        } else {
            body.len()
        },
    ensures
        spec_parse_stream(f.spec_ty(length), body) == Ok::<(FrameModel, nat), ParseFailure>((m, k)),
{
    let o = f.offsets.start != 0;
    let fi = f.fin;
    assert({
        let t = (0x08u64 + (if o {
            4u64
        } else {
            0u64
        }) + (if length {
            2u64
        } else {
            0u64
        }) + (if fi {
            1u64
        } else {
            0u64
        })) as u8;
        &&& ((t & 4u8) != 0u8) == o
        &&& ((t & 2u8) != 0u8) == length
        &&& ((t & 1u8) != 0u8) == fi
    }) by (bit_vector);
    let off = if o {
        spec_varint(f.offsets.start)
    } else {
        Seq::<u8>::empty()
    };
    let s3 = if length {
        spec_varint(data.len() as u64) + data + rest
    } else {
        data + rest
    };
    let s2 = off + s3;
    let body = spec_varint(f.id.0) + s2;
    lemma_varint_then(f.id.0, s2);
    if o {
        lemma_varint_then(f.offsets.start, s3);
    } else {
        assert(s2 =~= s3);
    }
    let n1 = spec_varint(f.id.0).len();
    let n2 = off.len();
    lemma_skip_skip(body, n1 as int, n2 as int);
    assert(body.skip((n1 + n2) as int) =~= s3);
    if length {
        lemma_bytes_vlen_then(data, rest);
    }
}

/// A STREAM frame reads back as written: its header and then its data give
/// the stream's ID, offset, fin bit and data; with the length written the
/// frame ends after the data, without it the data runs to the end.
#[verifier::spinoff_prover]
#[verifier::rlimit(40)]
pub proof fn lemma_stream_roundtrip(f: StreamMeta, length: bool, data: Seq<u8>, rest: Seq<u8>)
    requires
        f.id.0 <= VARINT_MAX,
        f.offsets.start <= VARINT_MAX,
        length ==> f.offsets.start <= f.offsets.end && f.offsets.end - f.offsets.start == data.len()
            && data.len() <= VARINT_MAX,
    ensures
        spec_parse_frame(f.spec_encoding(length) + data + rest) == Ok::<(FrameModel, nat), ParseFailure>(
            (
                FrameModel::Stream {
                    id: f.id,
                    offset: f.offsets.start,
                    fin: f.fin,
                    data: if length {
                        data
                    } else {
                        data + rest
                    },
                },
                if length {
                    f.spec_encoding(length).len() + data.len()
                } else {
                    f.spec_encoding(length).len() + data.len() + rest.len()
                },
            ),
        ),
{
    let ty = f.spec_ty(length);
    let off = if f.offsets.start != 0 {
        spec_varint(f.offsets.start)
    } else {
        Seq::<u8>::empty()
    };
    let tail = if length {
        spec_varint(data.len() as u64) + data + rest
    } else {
        data + rest
    };
    let body = spec_varint(f.id.0) + (off + tail);
    let x = f.spec_encoding(length) + data + rest;
    if length {
        assert(f.spec_encoding(length) =~= spec_varint(ty) + spec_varint(f.id.0) + off + spec_varint(
            data.len() as u64,
        ));
    } else {
        assert(f.spec_encoding(length) =~= spec_varint(ty) + spec_varint(f.id.0) + off);
    }
    assert(x =~= spec_varint(ty) + body);
    let m = FrameModel::Stream {
        id: f.id,
        offset: f.offsets.start,
        fin: f.fin,
        data: if length {
            data
        } else {
            data + rest
        },
    };
    let k: nat = if length {
        spec_varint(f.id.0).len() + off.len() + spec_varint(data.len() as u64).len() + data.len()
    } else {
        body.len()
    };
    lemma_stream_body(f, length, data, rest, body, m, k);
    lemma_stream_frame_is(x, ty, body, m, k);
}

/// The ranges an ACK frame's blocks stand for, from the highest down, as
/// `AckIter` gives them: inclusive, from `largest` down by the first block,
/// then each gap and block.
pub open spec fn ack_ranges(largest: u64, data: Seq<u8>) -> Seq<(u64, u64)>
    decreases data.len(),
{
    if data.len() == 0 {
        Seq::empty()
    } else {
        match spec_parse_varint(data) {
            None => Seq::empty(),
            Some((block, n)) => {
                let r = ((largest - block) as u64, largest);
                let d1 = data.skip(n as int);
                if !(0 < n <= data.len()) || d1.len() == 0 {
                    seq![r]
                } else {
                    match spec_parse_varint(d1) {
                        None => seq![r],
                        Some((gap, m)) => if !(0 < m <= d1.len()) {
                            seq![r]
                        } else {
                            seq![r] + ack_ranges(
                                (largest - block - gap - 2) as u64,
                                d1.skip(m as int),
                            )
                        },
                    }
                }
            },
        }
    }
}

/// The ranges `rs[0..=k]` as inclusive ranges, from the highest down.
pub open spec fn ranges_down(rs: Seq<(u64, u64)>, k: int) -> Seq<(u64, u64)>
    decreases k + 1,
{
    if k < 0 {
        Seq::empty()
    } else {
        seq![(rs[k].0, (rs[k].1 - 1) as u64)] + ranges_down(rs, k - 1)
    }
}

/// The gap and block written for range `i`, below range `i + 1`.
pub open spec fn ack_pair(rs: Seq<(u64, u64)>, i: int) -> Seq<u8> {
    spec_varint((rs[i + 1].0 - rs[i].1 - 1) as u64) + spec_varint((rs[i].1 - rs[i].0 - 1) as u64)
}

/// The pairs of the ranges below `hi`, the highest first.
proof fn lemma_ack_gaps_front(rs: Seq<(u64, u64)>, lo: int, hi: int)
    requires
        lo < hi,
    ensures
        spec_ack_gaps(rs, lo, hi) == ack_pair(rs, hi - 1) + spec_ack_gaps(rs, lo, hi - 1),
    decreases hi - lo,
{
    reveal_with_fuel(spec_ack_gaps, 2);
    if lo + 1 < hi {
        lemma_ack_gaps_front(rs, lo + 1, hi);
        let p = spec_varint((rs[lo + 1].0 - rs[lo].1 - 1) as u64) + spec_varint(
            (rs[lo].1 - rs[lo].0 - 1) as u64,
        );
        assert(spec_ack_gaps(rs, lo, hi) =~= spec_ack_gaps(rs, lo + 1, hi) + p);
        assert(spec_ack_gaps(rs, lo, hi - 1) =~= spec_ack_gaps(rs, lo + 1, hi - 1) + p);
        assert(spec_ack_gaps(rs, lo, hi) =~= ack_pair(rs, hi - 1) + spec_ack_gaps(rs, lo, hi - 1));
    } else {
        assert(spec_ack_gaps(rs, lo + 1, hi) =~= Seq::<u8>::empty());
        assert(spec_ack_gaps(rs, lo, hi - 1) =~= Seq::<u8>::empty());
        assert(spec_ack_gaps(rs, lo, hi) =~= ack_pair(rs, hi - 1) + spec_ack_gaps(rs, lo, hi - 1));
    }
}

/// The gaps and blocks of the ranges below `k`, read from the smallest
/// value of range `k`, take exactly their bytes.
#[verifier::spinoff_prover]
#[verifier::rlimit(40)]
proof fn lemma_ack_gaps_scan(rs: Seq<(u64, u64)>, k: int, rest: Seq<u8>)
    requires
        ranges_wf(rs),
        0 <= k < rs.len(),
        rs.last().1 <= VARINT_MAX + 1,
    ensures
        spec_scan_ack_gaps(spec_ack_gaps(rs, 0, k) + rest, rs[k].0, k as nat) == Ok::<nat, ParseFailure>(
            spec_ack_gaps(rs, 0, k).len(),
        ),
    decreases k,
{
    lemma_ordered_rs(rs, k, rs.len() - 1);
    if k == 0 {
        assert(spec_ack_gaps(rs, 0, 0) =~= Seq::<u8>::empty());
    } else {
        lemma_ordered_rs(rs, k - 1, k);
        lemma_ack_gaps_scan(rs, k - 1, rest);
        lemma_ack_gaps_front(rs, 0, k);
        let g = (rs[k].0 - rs[k - 1].1 - 1) as u64;
        let b1 = (rs[k - 1].1 - rs[k - 1].0 - 1) as u64;
        let below = spec_ack_gaps(rs, 0, k - 1);
        lemma_varint_then(g, spec_varint(b1) + (below + rest));
        lemma_varint_then(b1, below + rest);
        let s = spec_ack_gaps(rs, 0, k) + rest;
        assert(s =~= spec_varint(g) + (spec_varint(b1) + (below + rest)));
        let k1 = spec_varint(g).len();
        let k2 = spec_varint(b1).len();
        lemma_skip_skip(s, k1 as int, k2 as int);
    }
}

/// The first block and the gaps and blocks below range `k` read back as
/// the ranges up to `k`, the highest first.
#[verifier::spinoff_prover]
#[verifier::rlimit(40)]
proof fn lemma_ack_gaps_ranges(rs: Seq<(u64, u64)>, k: int)
    requires
        ranges_wf(rs),
        0 <= k < rs.len(),
        rs.last().1 <= VARINT_MAX + 1,
    ensures
        ack_ranges(
            (rs[k].1 - 1) as u64,
            spec_varint((rs[k].1 - rs[k].0 - 1) as u64) + spec_ack_gaps(rs, 0, k),
        ) == ranges_down(rs, k),
    decreases k,
{
    lemma_ordered_rs(rs, k, rs.len() - 1);
    let b = (rs[k].1 - rs[k].0 - 1) as u64;
    let vb = spec_varint(b);
    let d = vb + spec_ack_gaps(rs, 0, k);
    lemma_varint_then(b, spec_ack_gaps(rs, 0, k));
    if k == 0 {
        assert(spec_ack_gaps(rs, 0, 0) =~= Seq::<u8>::empty());
        assert(d.skip(vb.len() as int) =~= Seq::<u8>::empty());
        assert(ranges_down(rs, -1) =~= Seq::<(u64, u64)>::empty());
        assert(ranges_down(rs, 0) =~= seq![(rs[0].0, (rs[0].1 - 1) as u64)]);
    } else {
        lemma_ordered_rs(rs, k - 1, k);
        lemma_ack_gaps_ranges(rs, k - 1);
        lemma_ack_gaps_front(rs, 0, k);
        let g = (rs[k].0 - rs[k - 1].1 - 1) as u64;
        let b1 = (rs[k - 1].1 - rs[k - 1].0 - 1) as u64;
        let below = spec_ack_gaps(rs, 0, k - 1);
        let rest1 = spec_varint(b1) + below;
        lemma_varint_then(g, rest1);
        assert(spec_ack_gaps(rs, 0, k) =~= spec_varint(g) + rest1);
        assert(d.skip(vb.len() as int) =~= spec_ack_gaps(rs, 0, k));
    }
}

/// The body of an ACK frame written from `rs` reads back as written.
#[verifier::spinoff_prover]
#[verifier::rlimit(40)]
proof fn lemma_ack_body(delay: u64, rs: Seq<(u64, u64)>, rest: Seq<u8>)
    requires
        ranges_wf(rs),
        rs.len() > 0,
        rs.last().1 <= VARINT_MAX + 1,
        delay <= VARINT_MAX,
    ensures
        ({
            let k = rs.len() - 1;
            let head = spec_varint((rs[k].1 - 1) as u64) + spec_varint(delay) + spec_varint(k as u64);
            let blocks = spec_varint((rs[k].1 - rs[k].0 - 1) as u64) + spec_ack_gaps(rs, 0, k);
            spec_parse_ack(false, head + (blocks + rest)) == Ok::<(FrameModel, nat), ParseFailure>(
                (
                    FrameModel::Ack {
                        largest: (rs[k].1 - 1) as u64,
                        delay,
                        additional: blocks,
                        ecn: None,
                    },
                    head.len() + blocks.len(),
                ),
            )
        }),
{
    let k = rs.len() - 1;
    lemma_ordered_rs(rs, k, k);
    let largest = (rs[k].1 - 1) as u64;
    let b = (rs[k].1 - rs[k].0 - 1) as u64;
    let gaps = spec_ack_gaps(rs, 0, k);
    let blocks = spec_varint(b) + gaps;
    lemma_ack_gaps_scan(rs, k, rest);
    lemma_ranges_spread(rs, rs.len() as int);
    assert(rs[k].0 >= 2 * k);
    let vs = seq![largest, delay, k as u64];
    assert(forall|i: int| 0 <= i < vs.len() ==> vs[i] <= VARINT_MAX);
    reveal_with_fuel(varints_encoding, 4);
    assert(vs.drop_first().drop_first().drop_first() =~= Seq::<u64>::empty());
    let head = varints_encoding(vs);
    assert(head =~= spec_varint(largest) + spec_varint(delay) + spec_varint(k as u64));
    lemma_varints_then(vs, blocks + rest);
    let body = head + (blocks + rest);
    assert(body.skip(head.len() as int) =~= blocks + rest);
    lemma_varint_then(b, gaps + rest);
    assert(blocks + rest =~= spec_varint(b) + (gaps + rest));
    assert(spec_scan_ack_blocks(blocks + rest, largest, k as nat) == Ok::<nat, ParseFailure>(
        blocks.len(),
    ));
    assert(body.subrange(head.len() as int, (head.len() + blocks.len()) as int) =~= blocks);
}

/// A frame written as its type and then a body parses as that body.
proof fn lemma_frame_then(ty: u64, body: Seq<u8>)
    requires
        ty <= VARINT_MAX,
    ensures
        spec_parse_frame(spec_varint(ty) + body) == (match spec_parse_frame_body(ty, body) {
            Ok((f, m)) => Ok((f, spec_varint(ty).len() + m)),
            Err(e) => Err(e),
        }),
{
    lemma_varint_then(ty, body);
}

/// `x`, a frame's type and then a body that reads as frame `m` in `k`
/// bytes, reads as that frame.
#[verifier::spinoff_prover]
#[verifier::rlimit(40)]
proof fn lemma_frame_is(x: Seq<u8>, ty: u64, body: Seq<u8>, m: FrameModel, k: nat)
    requires
        ty <= VARINT_MAX,
        x == spec_varint(ty) + body,
        spec_parse_frame_body(ty, body) == Ok::<(FrameModel, nat), ParseFailure>((m, k)),
    ensures
        spec_parse_frame(x) == Ok::<(FrameModel, nat), ParseFailure>((m, spec_varint(ty).len() + k)),
{
    lemma_frame_then(ty, body);
}

/// An ACK frame reads back as written: its largest number and delay, and
/// blocks that `AckIter` reads as the ranges it was written from, the
/// highest first.
#[verifier::spinoff_prover]
#[verifier::rlimit(40)]
pub proof fn lemma_ack_roundtrip(delay: u64, rs: Seq<(u64, u64)>, rest: Seq<u8>)
    requires
        ranges_wf(rs),
        rs.len() > 0,
        rs.last().1 <= VARINT_MAX + 1,
        delay <= VARINT_MAX,
    ensures
        spec_parse_frame(spec_ack_encoding(delay, rs, None) + rest) matches Ok(
            (FrameModel::Ack { largest, delay: d, additional, ecn: None }, n),
        ) && largest == rs.last().1 - 1 && d == delay && n == spec_ack_encoding(delay, rs, None).len()
            && ack_ranges(largest, additional) == ranges_down(rs, rs.len() - 1),
{
    let k = rs.len() - 1;
    assert(rs.last() == rs[k]);
    let largest = (rs[k].1 - 1) as u64;
    let b = (rs[k].1 - rs[k].0 - 1) as u64;
    let head = spec_varint(largest) + spec_varint(delay) + spec_varint(k as u64);
    let blocks = spec_varint(b) + spec_ack_gaps(rs, 0, k);
    lemma_ack_body(delay, rs, rest);
    lemma_ack_gaps_ranges(rs, k);
    let body = head + (blocks + rest);
    let r = spec_parse_ack(false, body);
    assert(r == Ok::<(FrameModel, nat), ParseFailure>(
        (
            FrameModel::Ack { largest, delay, additional: blocks, ecn: None },
            head.len() + blocks.len(),
        ),
    ));
    assert(spec_parse_frame_body(0x02, body) == r);
    lemma_ack_encoding_parts(delay, rs);
    assert(spec_ack_encoding(delay, rs, None) + rest =~= spec_varint(0x02) + body);
    lemma_frame_then(0x02, body);
    assert(spec_parse_frame(spec_ack_encoding(delay, rs, None) + rest) == Ok::<(FrameModel, nat), ParseFailure>(
        (
            FrameModel::Ack { largest, delay, additional: blocks, ecn: None },
            spec_varint(0x02).len() + head.len() + blocks.len(),
        ),
    ));
}

/// An ACK frame without ECN counts is its type, its head and its blocks.
proof fn lemma_ack_encoding_parts(delay: u64, rs: Seq<(u64, u64)>)
    requires
        rs.len() > 0,
    ensures
        ({
            let k = rs.len() - 1;
            spec_ack_encoding(delay, rs, None) == spec_varint(0x02) + (spec_varint((rs[k].1 - 1) as u64)
                + spec_varint(delay) + spec_varint(k as u64)) + (spec_varint(
                (rs[k].1 - rs[k].0 - 1) as u64,
            ) + spec_ack_gaps(rs, 0, k))
        }),
{
    let k = rs.len() - 1;
    assert(spec_ack_encoding(delay, rs, None) =~= spec_varint(0x02) + (spec_varint((rs[k].1 - 1) as u64)
        + spec_varint(delay) + spec_varint(k as u64)) + (spec_varint((rs[k].1 - rs[k].0 - 1) as u64)
        + spec_ack_gaps(rs, 0, k)));
}

/// Reading ACK blocks never fails for a connection ID.
proof fn lemma_ack_gaps_no_cid(s: Seq<u8>, smallest: u64, n: nat)
    ensures
        !(spec_scan_ack_gaps(s, smallest, n) matches Err(ParseFailure::CidTooLong)),
    decreases n,
{
    if n > 0 {
        if let Some((gap, k1)) = spec_parse_varint(s) {
            if gap + 2 <= smallest {
                let sm = (smallest - gap - 2) as u64;
                if let Some((block, k2)) = spec_parse_varint(s.skip(k1 as int)) {
                    if block <= sm {
                        lemma_ack_gaps_no_cid(s.skip((k1 + k2) as int), (sm - block) as u64, (n - 1) as nat);
                    }
                }
            }
        }
    }
}

/// Only a NEW_CONNECTION_ID frame can name a connection ID too long.
proof fn lemma_cid_too_long_only_new_cid(ty: u64, s: Seq<u8>)
    ensures
        spec_parse_frame_body(ty, s) matches Err(ParseFailure::CidTooLong) ==> ty == 0x18,
{
    if ty == 0x02 || ty == 0x03 {
        if let Some((vs, n)) = spec_parse_varints(s, 3) {
            let t = s.skip(n as int);
            if let Some((first, k)) = spec_parse_varint(t) {
                if first <= vs[0] {
                    lemma_ack_gaps_no_cid(t.skip(k as int), (vs[0] - first) as u64, vs[2] as nat);
                }
            }
        }
    }
}

/// Gets `k` variable-length integers at `pos` of `buf`.
fn get_varints(buf: &[u8], pos: usize, k: usize) -> (r: Result<(Vec<u64>, usize), TryGetError>)
    requires
        pos <= buf.len(),
    ensures
        match spec_parse_varints(buf@.skip(pos as int), k as nat) {
            Some((vs, n)) => r matches Ok((v, next)) && v@ == vs && next == pos + n && next
                <= buf.len(),
            None => r is Err,
        },
        r matches Ok((v, _)) ==> v@.len() == k,
{
    let mut vals: Vec<u64> = Vec::new();
    let mut p = pos;
    let mut i: usize = 0;
    while i < k
        invariant
            pos <= p <= buf.len(),
            i <= k,
            vals@.len() == i,
            spec_parse_varints(buf@.skip(pos as int), k as nat) == match spec_parse_varints(
                buf@.skip(p as int),
                (k - i) as nat,
            ) {
                Some((vs, n)) => Some((vals@ + vs, ((p - pos) + n) as nat)),
                None => None,
            },
        decreases k - i,
    {
        match try_get_varint(buf, p) {
            Ok((v, np)) => {
                proof {
                    lemma_skip_skip(buf@, p as int, np - p);
                    let rest = spec_parse_varints(buf@.skip(np as int), (k - i - 1) as nat);
                    assert(spec_parse_varints(buf@.skip(p as int), (k - i) as nat) == match rest {
                        Some((vs, n)) => Some((seq![v].add(vs), ((np - p) + n) as nat)),
                        None => None,
                    });
                    if let Some((vs, n)) = rest {
                        assert(vals@ + seq![v].add(vs) =~= vals@.push(v) + vs);
                    }
                }
                vals.push(v);
                p = np;
                i += 1;
            },
            Err(e) => {
                return Err(e);
            },
        }
    }
    assert(vals@ + Seq::<u64>::empty() =~= vals@);
    Ok((vals, p))
}

/// Gets a length-prefixed byte string at `pos` of `buf`, whose bytes are
/// those of `b`, as a slice of `b`.
fn get_bytes_vlen(b: &Bytes, buf: &[u8], pos: usize) -> (r: Result<(Bytes, usize), TryGetError>)
    requires
        pos <= buf.len(),
        buf@ == bytes_view(*b),
    ensures
        match spec_parse_bytes_vlen(buf@.skip(pos as int)) {
            Some((data, n)) => r matches Ok((v, next)) && bytes_view(v) == data && next == pos + n
                && next <= buf.len(),
            None => r is Err,
        },
{
    let (len, p) = try_get_varint(buf, pos)?;
    if ((buf.len() - p) as u64) < len {
        return Err(TryGetError { requested: len as usize, available: buf.len() - p });
    }
    let end = p + len as usize;
    let data = bytes_slice(b, p, end);
    assert(buf@.skip(pos as int).subrange((p - pos) as int, (p - pos) + len) =~= buf@.subrange(
        p as int,
        end as int,
    ));
    Ok((data, end))
}

/// Validate exactly `n` ACK ranges in `buf` and return the number of bytes they
/// cover
pub fn scan_ack_blocks(buf: &[u8], largest: u64, n: u64) -> (r: Result<usize, FrameParseError>)
    ensures
        match spec_scan_ack_blocks(buf@, largest, n as nat) {
            Ok(m) => r == Ok::<usize, FrameParseError>(m as usize) && m <= buf.len(),
            Err(k) => r matches Err(e) && e.kind() == k,
        },
{
    assert(buf@.skip(0) =~= buf@);
    let (first_block, p0) = match try_get_varint(buf, 0) {
        Ok(x) => x,
        Err(e) => {
            return Err(FrameParseError::UnexpectedEnd(e));
        },
    };
    if first_block > largest {
        return Err(FrameParseError::Malformed);
    }
    let mut smallest = largest - first_block;
    let ghost sm0 = smallest;
    let mut p = p0;
    let mut i: u64 = 0;
    while i < n
        invariant
            p0 <= p <= buf.len(),
            i <= n,
            spec_scan_ack_blocks(buf@, largest, n as nat) == match spec_scan_ack_gaps(
                buf@.skip(p as int),
                smallest,
                (n - i) as nat,
            ) {
                Ok(m) => Ok((p + m) as nat),
                Err(e) => Err(e),
            },
        decreases n - i,
    {
        let (gap, p1) = match try_get_varint(buf, p) {
            Ok(x) => x,
            Err(e) => {
                assert(spec_scan_ack_gaps(buf@.skip(p as int), smallest, (n - i) as nat) == Err::<
                    nat,
                    ParseFailure,
                >(ParseFailure::End));
                return Err(FrameParseError::UnexpectedEnd(e));
            },
        };
        proof {
            lemma_parse_varint_bound(buf@.skip(p as int));
        }
        if gap + 2 > smallest {
            return Err(FrameParseError::Malformed);
        }
        let sm = smallest - (gap + 2);
        proof {
            lemma_skip_skip(buf@, p as int, p1 - p);
        }
        let (block, p2) = match try_get_varint(buf, p1) {
            Ok(x) => x,
            Err(e) => {
                assert(spec_scan_ack_gaps(buf@.skip(p as int), smallest, (n - i) as nat) == Err::<
                    nat,
                    ParseFailure,
                >(ParseFailure::End));
                return Err(FrameParseError::UnexpectedEnd(e));
            },
        };
        if block > sm {
            return Err(FrameParseError::Malformed);
        }
        proof {
            lemma_skip_skip(buf@, p as int, p2 - p);
        }
        smallest = sm - block;
        p = p2;
        i += 1;
    }
    Ok(p)
}

/// The connection ID at `pos` of `buf`, given its length byte was read.
fn read_token(buf: &[u8], pos: usize) -> (r: [u8; 16])
    requires
        pos + 16 <= buf.len(),
    ensures
        r@ == buf@.subrange(pos as int, pos + 16),
{
    let r = [
        buf[pos],
        buf[pos + 1],
        buf[pos + 2],
        buf[pos + 3],
        buf[pos + 4],
        buf[pos + 5],
        buf[pos + 6],
        buf[pos + 7],
        buf[pos + 8],
        buf[pos + 9],
        buf[pos + 10],
        buf[pos + 11],
        buf[pos + 12],
        buf[pos + 13],
        buf[pos + 14],
        buf[pos + 15],
    ];
    assert(r@ =~= buf@.subrange(pos as int, pos + 16));
    r
}


impl FrameParser {
    pub fn new(payload: Bytes) -> (r: Result<Self, TransportError>)
        ensures
            match r {
                Ok(p) => bytes_view(payload).len() > 0 && bytes_view(p.bytes) == bytes_view(payload)
                    && p.last_ty is None,
                Err(e) => bytes_view(payload).len() == 0 && e.code
                    == TransportErrorCode::PROTOCOL_VIOLATION() && e.frame is None && e.reason@
                    == "packet payload is empty"@,
            },
    {
        if bytes_len(&payload) == 0 {
            // "An endpoint MUST treat receipt of a packet containing no frames as a
            // connection error of type PROTOCOL_VIOLATION."
            // https://www.rfc-editor.org/rfc/rfc9000.html#name-frames-and-frame-types
            return Err(TransportError::PROTOCOL_VIOLATION("packet payload is empty"));
        }
        Ok(Self { bytes: payload, last_ty: None })
    }

    /// Whether the next frame can be read here: it does not give a
    /// connection ID more than 20 bytes long, which no connection ID holds.
    pub fn can_read(&self) -> (r: bool)
        ensures
            r == !(spec_parse_frame(bytes_view(self.bytes)) matches Err(ParseFailure::CidTooLong)),
    {
        let buf = bytes_as_slice(&self.bytes);
        assert(buf@.skip(0) =~= buf@);
        let (ty, p) = match try_get_varint(buf, 0) {
            Ok(x) => x,
            Err(_) => {
                return true;
            },
        };
        if ty != 0x18 {
            proof {
                lemma_cid_too_long_only_new_cid(ty, buf@.skip(p as int));
            }
            return true;
        }
        let (vs, q) = match get_varints(buf, p, 2) {
            Ok(x) => x,
            Err(_) => {
                return true;
            },
        };
        proof {
            lemma_skip_skip(buf@, p as int, q - p);
        }
        if vs[1] > vs[0] || q >= buf.len() {
            return true;
        }
        buf[q] <= 20
    }

    /// Reads the next frame, leaving the bytes that follow it.
    pub fn try_next(&mut self) -> (r: Result<Frame, FrameParseError>)
        requires
            !(spec_parse_frame(bytes_view(old(self).bytes)) matches Err(ParseFailure::CidTooLong)),
        ensures
            final(self).last_ty == match spec_parse_varint(bytes_view(old(self).bytes)) {
                Some((t, _)) => Some(FrameType(t)),
                None => old(self).last_ty,
            },
            match spec_parse_frame(bytes_view(old(self).bytes)) {
                Ok((f, n)) => r matches Ok(frame) && frame@ == f && bytes_view(final(self).bytes)
                    == bytes_view(old(self).bytes).skip(n as int) && 0 < n <= bytes_view(
                    old(self).bytes,
                ).len(),
                Err(k) => r matches Err(e) && e.kind() == k,
            },
    {
        let buf = bytes_as_slice(&self.bytes);
        let len = buf.len();
        assert(buf@.skip(0) =~= buf@);
        let (ty, p) = match try_get_varint(buf, 0) {
            Ok(x) => x,
            Err(e) => {
                return Err(FrameParseError::UnexpectedEnd(e));
            },
        };
        self.last_ty = Some(FrameType(ty));
        let (frame, end) = parse_frame_body(&self.bytes, buf, ty, p)?;
        proof {
            lemma_skip_skip(buf@, p as int, end - p);
        }
        let rest = bytes_slice(&self.bytes, end, len);
        assert(bytes_view(rest) =~= buf@.skip(end as int));
        self.bytes = rest;
        Ok(frame)
    }

    /// Reads the next frame, if any bytes are left. A frame that cannot be
    /// read ends the parse: the bytes that follow it are dropped and a
    /// FRAME_ENCODING_ERROR naming the last frame type read is returned.
    pub fn next(&mut self) -> (r: Option<Result<Frame, TransportError>>)
        requires
            !(spec_parse_frame(bytes_view(old(self).bytes)) matches Err(ParseFailure::CidTooLong)),
        ensures
            bytes_view(old(self).bytes).len() == 0 ==> r is None && bytes_view(final(self).bytes)
                == bytes_view(old(self).bytes) && final(self).last_ty == old(self).last_ty,
            bytes_view(old(self).bytes).len() > 0 ==> {
                &&& final(self).last_ty == match spec_parse_varint(bytes_view(old(self).bytes)) {
                    Some((t, _)) => Some(FrameType(t)),
                    None => old(self).last_ty,
                }
                &&& match spec_parse_frame(bytes_view(old(self).bytes)) {
                    Ok((f, n)) => r matches Some(Ok(frame)) && frame@ == f && bytes_view(
                        final(self).bytes,
                    ) == bytes_view(old(self).bytes).skip(n as int) && 0 < n <= bytes_view(
                        old(self).bytes,
                    ).len(),
                    Err(k) => r matches Some(Err(e)) && e.code
                        == TransportErrorCode::FRAME_ENCODING_ERROR() && e.reason@
                        == failure_reason(k) && e.frame == final(self).last_ty && bytes_view(
                        final(self).bytes,
                    ).len() == 0,
                }
            },
    {
        if bytes_len(&self.bytes) == 0 {
            return None;
        }
        match self.try_next() {
            Ok(x) => Some(Ok(x)),
            Err(e) => {
                // Corrupt frame, skip it and everything that follows
                self.bytes = bytes_new();
                let msg = e.to_string();
                let mut err = TransportError::FRAME_ENCODING_ERROR(msg.as_str());
                err.frame = self.last_ty;
                Some(Err(err))
            },
        }
    }
}

/// The body of a frame of type `ty` at `pos` of `buf`, whose bytes are
/// those of `b`; gives the frame and the position that follows it.
fn parse_frame_body(b: &Bytes, buf: &[u8], ty: u64, pos: usize) -> (r: Result<
    (Frame, usize),
    FrameParseError,
>)
    requires
        buf@ == bytes_view(*b),
        pos <= buf.len(),
        !(spec_parse_frame_body(ty, buf@.skip(pos as int)) matches Err(ParseFailure::CidTooLong)),
    ensures
        match spec_parse_frame_body(ty, buf@.skip(pos as int)) {
            Ok((f, n)) => r matches Ok((frame, end)) && frame@ == f && end == pos + n && end
                <= buf.len(),
            Err(k) => r matches Err(e) && e.kind() == k,
        },
{
    if ty == 0x00 {
        Ok((Frame::Padding, pos))
    } else if ty == 0x01 {
        Ok((Frame::Ping, pos))
    } else if ty == 0x02 || ty == 0x03 {
        parse_ack(b, buf, ty == 0x03, pos)
    } else if ty == 0x06 {
        parse_crypto(b, buf, pos)
    } else if ty == 0x07 {
        parse_new_token(b, buf, pos)
    } else if ty == 0x18 {
        parse_new_cid(buf, pos)
    } else if ty == 0x1a || ty == 0x1b {
        parse_path(buf, ty, pos)
    } else if ty == 0x1c || ty == 0x1d {
        parse_close(b, buf, ty, pos)
    } else if ty == 0x1e {
        Ok((Frame::HandshakeDone, pos))
    } else if ty == 0x1f {
        Ok((Frame::ImmediateAck, pos))
    } else if STREAM_TYS_START <= ty && ty <= STREAM_TYS_END {
        parse_stream(b, buf, ty, pos)
    } else if DATAGRAM_TYS_START <= ty && ty <= DATAGRAM_TYS_END {
        parse_datagram(b, buf, ty, pos)
    } else {
        parse_fields_frame(buf, ty, pos)
    }
}

/// A frame made only of variable-length integers (RESET_STREAM,
/// STOP_SENDING, MAX_*, *_BLOCKED, RETIRE_CONNECTION_ID), or an unknown
/// frame type.
fn parse_fields_frame(buf: &[u8], ty: u64, pos: usize) -> (r: Result<(Frame, usize), FrameParseError>)
    requires
        pos <= buf.len(),
        ty != 0x00 && ty != 0x01 && ty != 0x02 && ty != 0x03 && ty != 0x06 && ty != 0x07 && ty
            != 0x18 && ty != 0x1a && ty != 0x1b && ty != 0x1c && ty != 0x1d && ty != 0x1e && ty
            != 0x1f,
        !(STREAM_TYS_START <= ty <= STREAM_TYS_END),
        !(DATAGRAM_TYS_START <= ty <= DATAGRAM_TYS_END),
    ensures
        match spec_parse_frame_body(ty, buf@.skip(pos as int)) {
            Ok((f, n)) => r matches Ok((frame, end)) && frame@ == f && end == pos + n && end
                <= buf.len(),
            Err(k) => r matches Err(e) && e.kind() == k,
        },
{
    let known = ty == 0x04 || ty == 0x05 || (0x10 <= ty && ty <= 0x17) || ty == 0x19;
    if !known {
        return Err(FrameParseError::InvalidFrameId);
    }
    let k: usize = if ty == 0x04 {
        3
    } else if ty == 0x05 || ty == 0x11 || ty == 0x15 {
        2
    } else {
        1
    };
    let (vs, end) = match get_varints(buf, pos, k) {
        Ok(x) => x,
        Err(e) => {
            return Err(FrameParseError::UnexpectedEnd(e));
        },
    };
    let frame = if ty == 0x04 {
        Frame::ResetStream(
            ResetStream { id: StreamId(vs[0]), error_code: vs[1], final_offset: vs[2] },
        )
    } else if ty == 0x05 {
        Frame::StopSending(StopSending { id: StreamId(vs[0]), error_code: vs[1] })
    } else if ty == 0x10 {
        Frame::MaxData(vs[0])
    } else if ty == 0x11 {
        Frame::MaxStreamData { id: StreamId(vs[0]), limit: vs[1] }
    } else if ty == 0x12 {
        Frame::MaxStreams { dir: Dir::Bi, count: vs[0] }
    } else if ty == 0x13 {
        Frame::MaxStreams { dir: Dir::Uni, count: vs[0] }
    } else if ty == 0x14 {
        Frame::DataBlocked { limit: vs[0] }
    } else if ty == 0x15 {
        Frame::StreamDataBlocked { id: StreamId(vs[0]), limit: vs[1] }
    } else if ty == 0x16 {
        Frame::StreamsBlocked { dir: Dir::Bi, limit: vs[0] }
    } else if ty == 0x17 {
        Frame::StreamsBlocked { dir: Dir::Uni, limit: vs[0] }
    } else {
        Frame::RetireConnectionId { sequence: vs[0] }
    };
    Ok((frame, end))
}

fn parse_ack(b: &Bytes, buf: &[u8], ecn: bool, pos: usize) -> (r: Result<(Frame, usize), FrameParseError>)
    requires
        buf@ == bytes_view(*b),
        pos <= buf.len(),
    ensures
        match spec_parse_ack(ecn, buf@.skip(pos as int)) {
            Ok((f, n)) => r matches Ok((frame, end)) && frame@ == f && end == pos + n && end
                <= buf.len(),
            Err(k) => r matches Err(e) && e.kind() == k,
        },
{
    let (vs, p) = match get_varints(buf, pos, 3) {
        Ok(x) => x,
        Err(e) => {
            return Err(FrameParseError::UnexpectedEnd(e));
        },
    };
    let largest = vs[0];
    let delay = vs[1];
    let extra = vs[2];
    let rest = &buf[p..buf.len()];
    proof {
        lemma_skip_skip(buf@, pos as int, p - pos);
        assert(rest@ =~= buf@.skip(p as int));
    }
    let m = scan_ack_blocks(rest, largest, extra)?;
    let additional = bytes_slice(b, p, p + m);
    assert(bytes_view(additional) =~= buf@.skip(pos as int).subrange(
        (p - pos) as int,
        (p - pos + m) as int,
    ));
    proof {
        lemma_skip_skip(buf@, pos as int, p + m - pos);
    }
    if !ecn {
        Ok((Frame::Ack(Ack { largest, delay, additional, ecn: None }), p + m))
    } else {
        let (es, q) = match get_varints(buf, p + m, 3) {
            Ok(x) => x,
            Err(e) => {
                return Err(FrameParseError::UnexpectedEnd(e));
            },
        };
        let counts = EcnCounts { ect0: es[0], ect1: es[1], ce: es[2] };
        Ok((Frame::Ack(Ack { largest, delay, additional, ecn: Some(counts) }), q))
    }
}

fn parse_crypto(b: &Bytes, buf: &[u8], pos: usize) -> (r: Result<(Frame, usize), FrameParseError>)
    requires
        buf@ == bytes_view(*b),
        pos <= buf.len(),
    ensures
        match spec_parse_frame_body(0x06, buf@.skip(pos as int)) {
            Ok((f, n)) => r matches Ok((frame, end)) && frame@ == f && end == pos + n && end
                <= buf.len(),
            Err(k) => r matches Err(e) && e.kind() == k,
        },
{
    let (offset, p) = match try_get_varint(buf, pos) {
        Ok(x) => x,
        Err(e) => {
            return Err(FrameParseError::UnexpectedEnd(e));
        },
    };
    proof {
        lemma_skip_skip(buf@, pos as int, p - pos);
    }
    let (data, end) = match get_bytes_vlen(b, buf, p) {
        Ok(x) => x,
        Err(e) => {
            return Err(FrameParseError::UnexpectedEnd(e));
        },
    };
    Ok((Frame::Crypto(Crypto { offset, data }), end))
}

fn parse_new_token(b: &Bytes, buf: &[u8], pos: usize) -> (r: Result<(Frame, usize), FrameParseError>)
    requires
        buf@ == bytes_view(*b),
        pos <= buf.len(),
    ensures
        match spec_parse_frame_body(0x07, buf@.skip(pos as int)) {
            Ok((f, n)) => r matches Ok((frame, end)) && frame@ == f && end == pos + n && end
                <= buf.len(),
            Err(k) => r matches Err(e) && e.kind() == k,
        },
{
    let (token, end) = match get_bytes_vlen(b, buf, pos) {
        Ok(x) => x,
        Err(e) => {
            return Err(FrameParseError::UnexpectedEnd(e));
        },
    };
    Ok((Frame::NewToken(NewToken { token }), end))
}

fn parse_new_cid(buf: &[u8], pos: usize) -> (r: Result<(Frame, usize), FrameParseError>)
    requires
        pos <= buf.len(),
        !(spec_parse_new_cid(buf@.skip(pos as int)) matches Err(ParseFailure::CidTooLong)),
    ensures
        match spec_parse_new_cid(buf@.skip(pos as int)) {
            Ok((f, n)) => r matches Ok((frame, end)) && frame@ == f && end == pos + n && end
                <= buf.len(),
            Err(k) => r matches Err(e) && e.kind() == k,
        },
{
    let (vs, p) = match get_varints(buf, pos, 2) {
        Ok(x) => x,
        Err(e) => {
            return Err(FrameParseError::UnexpectedEnd(e));
        },
    };
    let sequence = vs[0];
    let retire_prior_to = vs[1];
    if retire_prior_to > sequence {
        return Err(FrameParseError::Malformed);
    }
    let (id, q) = match ConnectionId::decode(buf, p) {
        Ok(x) => x,
        Err(e) => {
            return Err(FrameParseError::UnexpectedEnd(e));
        },
    };
    if id.is_empty() {
        return Err(FrameParseError::Malformed);
    }
    if buf.len() - q < RESET_TOKEN_SIZE {
        return Err(
            FrameParseError::UnexpectedEnd(
                TryGetError { requested: RESET_TOKEN_SIZE, available: buf.len() - q },
            ),
        );
    }
    let reset_token = read_token(buf, q);
    let frame = Frame::NewConnectionId(
        NewConnectionId { sequence, retire_prior_to, id, reset_token: ResetToken(reset_token) },
    );
    assert(id@ =~= buf@.skip(pos as int).subrange((p - pos + 1) as int, (q - pos) as int));
    assert(reset_token@ =~= buf@.skip(pos as int).subrange(
        (q - pos) as int,
        (q - pos + 16) as int,
    ));
    Ok((frame, q + 16))
}

fn parse_path(buf: &[u8], ty: u64, pos: usize) -> (r: Result<(Frame, usize), FrameParseError>)
    requires
        pos <= buf.len(),
        ty == 0x1a || ty == 0x1b,
    ensures
        match spec_parse_frame_body(ty, buf@.skip(pos as int)) {
            Ok((f, n)) => r matches Ok((frame, end)) && frame@ == f && end == pos + n && end
                <= buf.len(),
            Err(k) => r matches Err(e) && e.kind() == k,
        },
{
    if buf.len() - pos < 8 {
        return Err(
            FrameParseError::UnexpectedEnd(TryGetError { requested: 8, available: buf.len() - pos }),
        );
    }
    let x = read_be(buf, pos, 8);
    if ty == 0x1a {
        Ok((Frame::PathChallenge(x), pos + 8))
    } else {
        Ok((Frame::PathResponse(x), pos + 8))
    }
}

fn parse_close(b: &Bytes, buf: &[u8], ty: u64, pos: usize) -> (r: Result<(Frame, usize), FrameParseError>)
    requires
        buf@ == bytes_view(*b),
        pos <= buf.len(),
        ty == 0x1c || ty == 0x1d,
    ensures
        match spec_parse_frame_body(ty, buf@.skip(pos as int)) {
            Ok((f, n)) => r matches Ok((frame, end)) && frame@ == f && end == pos + n && end
                <= buf.len(),
            Err(k) => r matches Err(e) && e.kind() == k,
        },
{
    if ty == 0x1c {
        let (vs, p) = match get_varints(buf, pos, 2) {
            Ok(x) => x,
            Err(e) => {
                return Err(FrameParseError::UnexpectedEnd(e));
            },
        };
        proof {
            lemma_skip_skip(buf@, pos as int, p - pos);
        }
        let (reason, end) = match get_bytes_vlen(b, buf, p) {
            Ok(x) => x,
            Err(e) => {
                return Err(FrameParseError::UnexpectedEnd(e));
            },
        };
        let frame_type = if vs[1] == 0 {
            None
        } else {
            Some(FrameType(vs[1]))
        };
        let close = TransportClose { error_code: TransportErrorCode(vs[0]), frame_type, reason };
        Ok((Frame::Close(ConnectionClose::Transport(close)), end))
    } else {
        let (error_code, p) = match try_get_varint(buf, pos) {
            Ok(x) => x,
            Err(e) => {
                return Err(FrameParseError::UnexpectedEnd(e));
            },
        };
        proof {
            lemma_skip_skip(buf@, pos as int, p - pos);
        }
        let (reason, end) = match get_bytes_vlen(b, buf, p) {
            Ok(x) => x,
            Err(e) => {
                return Err(FrameParseError::UnexpectedEnd(e));
            },
        };
        Ok((Frame::Close(ConnectionClose::Application(ApplicationClose { error_code, reason })), end))
    }
}

fn parse_stream(b: &Bytes, buf: &[u8], ty: u64, pos: usize) -> (r: Result<(Frame, usize), FrameParseError>)
    requires
        buf@ == bytes_view(*b),
        pos <= buf.len(),
        STREAM_TYS_START <= ty <= STREAM_TYS_END,
    ensures
        match spec_parse_stream(ty, buf@.skip(pos as int)) {
            Ok((f, n)) => r matches Ok((frame, end)) && frame@ == f && end == pos + n && end
                <= buf.len(),
            Err(k) => r matches Err(e) && e.kind() == k,
        },
{
    let info = StreamInfo(ty as u8);
    let (id, p1) = match try_get_varint(buf, pos) {
        Ok(x) => x,
        Err(e) => {
            return Err(FrameParseError::UnexpectedEnd(e));
        },
    };
    proof {
        lemma_skip_skip(buf@, pos as int, p1 - pos);
    }
    let (offset, p2) = if info.off() {
        match try_get_varint(buf, p1) {
            Ok(x) => x,
            Err(e) => {
                return Err(FrameParseError::UnexpectedEnd(e));
            },
        }
    } else {
        (0, p1)
    };
    proof {
        lemma_skip_skip(buf@, pos as int, p2 - pos);
    }
    let fin = info.fin();
    if info.len() {
        let (data, end) = match get_bytes_vlen(b, buf, p2) {
            Ok(x) => x,
            Err(e) => {
                return Err(FrameParseError::UnexpectedEnd(e));
            },
        };
        Ok((Frame::Stream(Stream { id: StreamId(id), offset, fin, data }), end))
    } else {
        let len = buf.len();
        let data = bytes_slice(b, p2, len);
        assert(bytes_view(data) =~= buf@.skip(p2 as int));
        Ok((Frame::Stream(Stream { id: StreamId(id), offset, fin, data }), len))
    }
}

fn parse_datagram(b: &Bytes, buf: &[u8], ty: u64, pos: usize) -> (r: Result<(Frame, usize), FrameParseError>)
    requires
        buf@ == bytes_view(*b),
        pos <= buf.len(),
        DATAGRAM_TYS_START <= ty <= DATAGRAM_TYS_END,
    ensures
        match spec_parse_datagram(ty, buf@.skip(pos as int)) {
            Ok((f, n)) => r matches Ok((frame, end)) && frame@ == f && end == pos + n && end
                <= buf.len(),
            Err(k) => r matches Err(e) && e.kind() == k,
        },
{
    let info = DatagramInfo(ty as u8);
    if info.len() {
        let (data, end) = match get_bytes_vlen(b, buf, pos) {
            Ok(x) => x,
            Err(e) => {
                return Err(FrameParseError::UnexpectedEnd(e));
            },
        };
        Ok((Frame::Datagram(Datagram { data }), end))
    } else {
        let len = buf.len();
        let data = bytes_slice(b, pos, len);
        assert(bytes_view(data) =~= buf@.skip(pos as int));
        Ok((Frame::Datagram(Datagram { data }), len))
    }
}

} // verus!
