use bytes::Bytes;
use mzquic::common::{ConnectionId, ResetToken, StreamId};
use mzquic::error::TransportErrorCode;
use mzquic::frame::{
    Ack, ApplicationClose, ConnectionClose, Crypto, Datagram, Frame, FrameParser, FrameType, NewConnectionId, NewToken,
    ResetStream, StopSending, StreamMeta, TransportClose,
};
use mzquic::range_set::RangeSet;

fn parse_all(buf: Vec<u8>) -> Vec<Frame> {
    let mut parser = FrameParser::new(Bytes::from(buf)).ok().unwrap();
    let mut frames = Vec::new();
    while let Some(f) = parser.next() {
        frames.push(f.ok().unwrap());
    }
    frames
}

fn ranges_of(ack: &Ack) -> Vec<(u64, u64)> {
    let mut it = ack.iter();
    let mut out = Vec::new();
    while let Some(r) = it.next() {
        out.push((*r.start(), *r.end()));
    }
    out
}

#[test]
fn ack_roundtrip_law() {
    let mut ranges = RangeSet::new();
    ranges.insert(0, 5);
    ranges.insert(10, 12);
    let mut buf = Vec::new();
    Ack::encode(7, &ranges, None, &mut buf);
    // type, largest, delay, extra range count, first range, gap, range
    assert_eq!(buf, vec![0x02, 11, 7, 1, 1, 4, 4]);
    let frames = parse_all(buf);
    assert_eq!(frames.len(), 1);
    match &frames[0] {
        Frame::Ack(ack) => {
            assert_eq!(ack.largest, 11);
            assert_eq!(ack.delay, 7);
            assert!(ack.ecn.is_none());
            assert_eq!(ranges_of(ack), vec![(10, 11), (0, 4)]);
        }
        _ => panic!("expected an ACK frame"),
    }
}

#[test]
fn stream_frame_roundtrip() {
    let meta = StreamMeta { id: StreamId(4), offsets: 3..8, fin: true };
    let mut buf = Vec::new();
    meta.encode(true, &mut buf);
    buf.extend_from_slice(b"hello");
    // STREAM with offset, length and fin flags
    assert_eq!(buf[0], 0x0f);
    let frames = parse_all(buf);
    match &frames[0] {
        Frame::Stream(s) => {
            assert_eq!(s.id, StreamId(4));
            assert_eq!(s.offset, 3);
            assert!(s.fin);
            assert_eq!(&s.data[..], b"hello");
        }
        _ => panic!("expected a STREAM frame"),
    }
}

#[test]
fn stream_frame_without_length_takes_the_rest() {
    let meta = StreamMeta { id: StreamId(1), offsets: 0..3, fin: false };
    let mut buf = Vec::new();
    meta.encode(false, &mut buf);
    buf.extend_from_slice(b"abc");
    assert_eq!(buf, vec![0x08, 1, b'a', b'b', b'c']);
    match &parse_all(buf)[0] {
        Frame::Stream(s) => {
            assert_eq!(s.offset, 0);
            assert!(!s.fin);
            assert_eq!(&s.data[..], b"abc");
        }
        _ => panic!("expected a STREAM frame"),
    }
}

#[test]
fn control_frames_roundtrip() {
    let mut buf = Vec::new();
    ResetStream { id: StreamId(8), error_code: 0x1337, final_offset: 100 }.encode(&mut buf);
    StopSending { id: StreamId(9), error_code: 7 }.encode(&mut buf);
    Crypto { offset: 0, data: Bytes::from_static(&[0]) }.encode(&mut buf);
    buf.push(0x01); // PING
    buf.push(0x00); // PADDING
    let frames = parse_all(buf);
    assert_eq!(frames.len(), 5);
    assert!(matches!(
        frames[0],
        Frame::ResetStream(ResetStream { id: StreamId(8), error_code: 0x1337, final_offset: 100 })
    ));
    assert!(matches!(
        frames[1],
        Frame::StopSending(StopSending { id: StreamId(9), error_code: 7 })
    ));
    match &frames[2] {
        Frame::Crypto(c) => {
            assert_eq!(c.offset, 0);
            assert_eq!(&c.data[..], &[0u8][..]);
        }
        _ => panic!("expected a CRYPTO frame"),
    }
    assert!(matches!(frames[3], Frame::Ping));
    assert!(matches!(frames[4], Frame::Padding));
}

#[test]
fn close_frames_roundtrip() {
    let mut buf = Vec::new();
    let t = TransportClose {
        error_code: TransportErrorCode::PROTOCOL_VIOLATION(),
        frame_type: Some(FrameType::ACK()),
        reason: Bytes::from_static(b"bad"),
    };
    ConnectionClose::Transport(t).encode(&mut buf, 1000);
    let a = ApplicationClose { error_code: 0, reason: Bytes::from_static(b"byebye") };
    ConnectionClose::Application(a).encode(&mut buf, 1000);
    let frames = parse_all(buf);
    match &frames[0] {
        Frame::Close(ConnectionClose::Transport(t)) => {
            assert_eq!(t.error_code, TransportErrorCode(0xa));
            assert_eq!(t.frame_type, Some(FrameType(0x02)));
            assert_eq!(&t.reason[..], b"bad");
        }
        _ => panic!("expected a transport close"),
    }
    match &frames[1] {
        Frame::Close(ConnectionClose::Application(a)) => {
            assert_eq!(a.error_code, 0);
            assert_eq!(&a.reason[..], b"byebye");
        }
        _ => panic!("expected an application close"),
    }
}

#[test]
fn close_reason_is_cut_to_fit() {
    let mut buf = Vec::new();
    let a = ApplicationClose { error_code: 1, reason: Bytes::from_static(b"0123456789") };
    a.encode(&mut buf, 8);
    // type, code, length 4, then four bytes of the reason
    assert_eq!(buf, vec![0x1d, 1, 4, b'0', b'1', b'2', b'3']);
}

#[test]
fn empty_payload_is_a_protocol_violation() {
    let err = FrameParser::new(Bytes::new()).err().unwrap();
    assert_eq!(err.code, TransportErrorCode::PROTOCOL_VIOLATION());
    assert_eq!(err.frame, None);
    assert_eq!(err.reason, "packet payload is empty");
}

#[test]
fn truncated_frame_is_a_frame_encoding_error() {
    // RESET_STREAM missing its last field
    let mut parser = FrameParser::new(Bytes::from(vec![0x04, 1, 2])).ok().unwrap();
    let err = parser.next().unwrap().err().unwrap();
    assert_eq!(err.code, TransportErrorCode::FRAME_ENCODING_ERROR());
    assert_eq!(err.frame, Some(FrameType::RESET_STREAM()));
    assert_eq!(err.reason, "unexpected end");
    // the rest of the payload is dropped
    assert!(parser.next().is_none());
}

#[test]
fn unknown_frame_type_is_refused() {
    let mut parser = FrameParser::new(Bytes::from(vec![0x01, 0x21])).ok().unwrap();
    assert!(matches!(parser.next(), Some(Ok(Frame::Ping))));
    let err = parser.next().unwrap().err().unwrap();
    assert_eq!(err.code, TransportErrorCode::FRAME_ENCODING_ERROR());
    assert_eq!(err.frame, Some(FrameType(0x21)));
    assert_eq!(err.reason, "invalid frame ID");
}

#[test]
fn frame_types_and_ack_eliciting() {
    assert_eq!(Frame::Ping.ty(), FrameType::PING());
    assert_eq!(Frame::Padding.ty(), FrameType::PADDING());
    assert!(Frame::Ping.is_ack_eliciting());
    assert!(!Frame::Padding.is_ack_eliciting());
    let ack = Ack { largest: 0, delay: 0, additional: Bytes::from_static(&[0]), ecn: None };
    assert!(!Frame::Ack(ack).is_ack_eliciting());
    let f = Frame::ResetStream(ResetStream { id: StreamId(0), error_code: 0, final_offset: 0 });
    assert_eq!(f.ty(), FrameType::RESET_STREAM());
    assert!(f.is_ack_eliciting());
}

#[test]
fn frame_type_flags() {
    let info = FrameType(0x0f).stream().unwrap();
    assert!(info.fin());
    assert!(info.len());
    assert!(info.off());
    assert!(FrameType(0x06).stream().is_none());
    assert!(FrameType(0x31).datagram().unwrap().len());
    assert_eq!(FrameType::IMMEDIATE_ACK().value(), 0x1f);
}

#[test]
fn new_token_and_datagram_roundtrip_law() {
    let mut buf = Vec::new();
    NewToken { token: Bytes::from_static(b"token") }.encode(&mut buf);
    Datagram { data: Bytes::from_static(b"abc") }.encode(true, &mut buf);
    Datagram { data: Bytes::from_static(b"xyz") }.encode(false, &mut buf);
    buf.extend_from_slice(b"tail");
    let frames = parse_all(buf);
    assert_eq!(frames.len(), 3);
    match &frames[0] {
        Frame::NewToken(t) => assert_eq!(&t.token[..], b"token"),
        _ => panic!("expected a NEW_TOKEN frame"),
    }
    match &frames[1] {
        Frame::Datagram(d) => assert_eq!(&d.data[..], b"abc"),
        _ => panic!("expected a DATAGRAM frame"),
    }
    // without its length, a datagram runs to the end of the packet
    match &frames[2] {
        Frame::Datagram(d) => assert_eq!(&d.data[..], b"xyztail"),
        _ => panic!("expected a DATAGRAM frame"),
    }
}

#[test]
fn new_connection_id_roundtrip_law() {
    let mut buf = Vec::new();
    let f = NewConnectionId {
        sequence: 3,
        retire_prior_to: 1,
        id: ConnectionId::new(&[9, 8, 7]),
        reset_token: ResetToken([5; 16]),
    };
    f.encode(&mut buf);
    let frames = parse_all(buf);
    assert_eq!(frames.len(), 1);
    match &frames[0] {
        Frame::NewConnectionId(n) => {
            assert_eq!(n.sequence, 3);
            assert_eq!(n.retire_prior_to, 1);
            assert_eq!(n.id.as_slice(), &[9, 8, 7]);
            assert_eq!(n.reset_token.as_slice(), &[5u8; 16][..]);
        }
        _ => panic!("expected a NEW_CONNECTION_ID frame"),
    }
}
