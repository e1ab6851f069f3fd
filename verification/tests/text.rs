use bytes::Bytes;
use mzquic::common::{ConnectionId, Dir, ResetToken, Side, StreamId};
use mzquic::error::{TransportError, TransportErrorCode};
use mzquic::frame::{Ack, ApplicationClose, EcnCounts, FrameType, TransportClose};
use mzquic::text::decimal;

#[test]
fn decimal_digits() {
    assert_eq!(decimal(0), "0");
    assert_eq!(decimal(42), "42");
    assert_eq!(decimal(u64::MAX), "18446744073709551615");
}

#[test]
fn stream_id_text() {
    assert_eq!(Side::Client.to_string(), "client");
    assert_eq!(Dir::Uni.to_string(), "unidirectional");
    assert_eq!(StreamId(0).to_string(), "client bidirectional stream 0");
    assert_eq!(StreamId(7).to_string(), "server unidirectional stream 1");
    assert_eq!(StreamId(4 * 12).to_string(), "client bidirectional stream 12");
}

#[test]
fn connection_id_and_token_text() {
    assert_eq!(ConnectionId::new(&[0x01, 0xab, 0x00]).to_string(), "01ab00");
    assert_eq!(ConnectionId::new(&[]).to_string(), "");
    let mut token = [0u8; 16];
    token[15] = 0xff;
    assert_eq!(ResetToken(token).to_string(), "000000000000000000000000000000ff");
}

#[test]
fn error_code_text() {
    assert_eq!(
        TransportErrorCode::NO_ERROR().to_string(),
        "the connection is being closed abruptly in the absence of any error"
    );
    assert_eq!(TransportErrorCode::KEY_UPDATE_ERROR().to_string(), "key update error");
    assert_eq!(
        TransportErrorCode::crypto(42).to_string(),
        "the cryptographic handshake failed: error 42"
    );
    assert_eq!(TransportErrorCode(0x999).to_string(), "unknown error");
}

#[test]
fn frame_type_text() {
    assert_eq!(FrameType(0x03).to_string(), "ACK_ECN");
    assert_eq!(FrameType(0xaf).to_string(), "ACK_FREQUENCY");
    assert_eq!(FrameType(0x0b).to_string(), "STREAM");
    assert_eq!(FrameType(0x31).to_string(), "DATAGRAM");
    assert_eq!(FrameType(0x2a).to_string(), "<unknown 2a>");
    assert_eq!(FrameType(0x123).to_string(), "<unknown 123>");
}

#[test]
fn transport_error_text() {
    let mut e = TransportError::PROTOCOL_VIOLATION("bad frame");
    e.frame = Some(FrameType(0x08));
    assert_eq!(
        e.to_string(),
        "detected an error with protocol compliance that was not covered by more specific error codes in STREAM: bad frame"
    );
    assert_eq!(TransportError::KEY_UPDATE_ERROR("").to_string(), "key update error");
}

#[test]
fn close_text() {
    let app = ApplicationClose { error_code: 7, reason: Bytes::from_static(b"bye") };
    assert_eq!(app.to_string(), "bye (code 7)");
    let app = ApplicationClose { error_code: 7, reason: Bytes::new() };
    assert_eq!(app.to_string(), "7");
    let close = TransportClose {
        error_code: TransportErrorCode::KEY_UPDATE_ERROR(),
        frame_type: None,
        reason: Bytes::from_static(b"x\xff"),
    };
    assert_eq!(close.to_string(), "key update error: x\u{fffd}");
}

#[test]
fn ack_text() {
    let ack = Ack { largest: 11, delay: 7, additional: Bytes::from_static(&[1, 4, 4]), ecn: None };
    assert_eq!(ack.to_string(), "Ack { largest: 11, delay: 7, ecn: None, ranges: \"[10..=11,0..=4]\" }");
    let ack = Ack {
        largest: 3,
        delay: 0,
        additional: Bytes::from_static(&[0]),
        ecn: Some(EcnCounts { ect0: 1, ect1: 2, ce: 3 }),
    };
    assert_eq!(
        ack.to_string(),
        "Ack { largest: 3, delay: 0, ecn: Some(EcnCounts { ect0: 1, ect1: 2, ce: 3 }), ranges: \"[3..=3]\" }"
    );
}
