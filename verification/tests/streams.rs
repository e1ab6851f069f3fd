use bytes::Bytes;
use mzquic::common::{Dir, Side, StreamId};
use mzquic::connection::stream::recv::{Assembler, ReadError, Recv};
use mzquic::connection::stream::send::{FinishError, Send, WriteError};
use mzquic::connection::stream::state::{PendingStreamsQueue, StreamEvent, StreamsState};
use mzquic::connection::stream::ClosedStream;
use mzquic::connection::{Connection, Event};
use mzquic::error::TransportErrorCode;
use mzquic::frame::{ResetStream, StopSending, Stream};

fn read_all(a: &mut Assembler) -> Vec<(u64, Vec<u8>)> {
    let mut out = Vec::new();
    while let Some(c) = a.read(usize::MAX, true) {
        out.push((c.offset, c.bytes.to_vec()));
    }
    out
}

#[test]
fn assembler_reads_in_order() {
    let mut a = Assembler::new();
    a.insert(0, Bytes::from_static(b"hello"), 5);
    a.insert(5, Bytes::from_static(b"world"), 5);
    assert_eq!(read_all(&mut a), vec![(0, b"hello".to_vec()), (5, b"world".to_vec())]);
    assert_eq!(a.bytes_read(), 10);
}

#[test]
fn assembler_reorders_data_law() {
    let mut a = Assembler::new();
    a.insert(5, Bytes::from_static(b"world"), 5);
    // nothing can be read before the gap is filled
    assert!(a.read(usize::MAX, true).is_none());
    a.insert(0, Bytes::from_static(b"hello"), 5);
    let got: Vec<u8> = read_all(&mut a).into_iter().flat_map(|(_, b)| b).collect();
    assert_eq!(got, b"helloworld".to_vec());
}

#[test]
fn assembler_drops_data_already_read() {
    let mut a = Assembler::new();
    a.insert(0, Bytes::from_static(b"abc"), 3);
    assert_eq!(read_all(&mut a), vec![(0, b"abc".to_vec())]);
    a.insert(0, Bytes::from_static(b"abcde"), 5);
    assert_eq!(read_all(&mut a), vec![(3, b"de".to_vec())]);
    assert_eq!(a.bytes_read(), 5);
}

#[test]
fn assembler_keeps_stored_bytes_under_overlap() {
    let mut a = Assembler::new();
    a.insert(0, Bytes::from_static(b"ab"), 2);
    a.insert(4, Bytes::from_static(b"ef"), 2);
    a.insert(1, Bytes::from_static(b"bcde"), 4);
    let chunks = read_all(&mut a);
    let mut next = 0u64;
    let mut got = Vec::new();
    for (offset, bytes) in chunks {
        assert_eq!(offset, next);
        next += bytes.len() as u64;
        got.extend(bytes);
    }
    assert_eq!(got, b"abcdef".to_vec());
    assert_eq!(a.bytes_read(), 6);
}

#[test]
fn assembler_ignores_data_inside_a_stored_buffer() {
    let mut a = Assembler::new();
    a.insert(0, Bytes::from_static(b"abcdef"), 6);
    a.insert(2, Bytes::from_static(b"cd"), 2);
    assert_eq!(read_all(&mut a), vec![(0, b"abcdef".to_vec())]);
}

#[test]
fn assembler_read_respects_max_length() {
    let mut a = Assembler::new();
    a.insert(0, Bytes::from_static(b"abcdef"), 6);
    let c = a.read(4, true).unwrap();
    assert_eq!((c.offset, &c.bytes[..]), (0, &b"abcd"[..]));
    let c = a.read(4, true).unwrap();
    assert_eq!((c.offset, &c.bytes[..]), (4, &b"ef"[..]));
    assert!(a.read(4, true).is_none());
}

#[test]
fn recv_ingest_and_final_size() {
    let mut r = Recv::new();
    let frame = Stream { id: StreamId(1), offset: 0, fin: true, data: Bytes::from_static(b"hi") };
    assert!(r.ingest(frame, 2).is_ok());
    assert_eq!(r.final_offset(), Some(2));
    // data past the final size is refused
    let frame = Stream { id: StreamId(1), offset: 2, fin: false, data: Bytes::from_static(b"x") };
    let err = r.ingest(frame, 1).err().unwrap();
    assert_eq!(err.code, TransportErrorCode::FINAL_SIZE_ERROR());
}

#[test]
fn recv_reset_with_wrong_final_size_is_refused() {
    let mut r = Recv::new();
    let frame = Stream { id: StreamId(1), offset: 0, fin: true, data: Bytes::from_static(b"hi") };
    assert!(r.ingest(frame, 2).is_ok());
    let err = r.reset(7, 5).err().unwrap();
    assert_eq!(err.code, TransportErrorCode::FINAL_SIZE_ERROR());
    assert_eq!(r.reset(7, 2), Ok(true));
    assert_eq!(r.reset_code(), Some(7));
    // a second reset changes nothing
    assert_eq!(r.reset(7, 2), Ok(false));
}

#[test]
fn send_write_finish_reset() {
    let mut s = Send::new();
    assert!(s.is_writable());
    assert_eq!(s.write(b"abc"), Ok(()));
    assert_eq!(s.offset(), 3);
    assert!(s.is_pending());
    assert_eq!(s.finish(), Ok(()));
    assert_eq!(s.write(b"d"), Err(WriteError::ClosedStream));
    assert_eq!(s.finish(), Err(FinishError::ClosedStream));
    let mut s = Send::new();
    assert!(s.try_stop(9));
    assert_eq!(s.write(b"x"), Err(WriteError::Stopped(9)));
    assert_eq!(s.finish(), Err(FinishError::Stopped(9)));
    s.reset();
    assert!(s.is_reset());
}

#[test]
fn stream_ids_carry_side_and_direction() {
    let mut c = StreamsState::new(Side::Client);
    assert_eq!(c.open(Dir::Bi), StreamId(0));
    assert_eq!(c.open(Dir::Uni), StreamId(2));
    assert_eq!(c.open(Dir::Bi), StreamId(4));
    let mut s = StreamsState::new(Side::Server);
    assert_eq!(s.open(Dir::Bi), StreamId(1));
    assert_eq!(s.open(Dir::Uni), StreamId(3));
    let id = StreamId::new(Side::Server, Dir::Uni, 5);
    assert_eq!(id, StreamId(23));
    assert_eq!(id.initiator(), Side::Server);
    assert_eq!(id.dir(), Dir::Uni);
    assert_eq!(id.index(), 5);
}

#[test]
fn received_stream_frame_makes_stream_readable() {
    let mut s = StreamsState::new(Side::Server);
    let frame = Stream { id: StreamId(0), offset: 0, fin: false, data: Bytes::from_static(b"ping") };
    assert!(s.received(frame, 10).is_ok());
    assert_eq!(s.events.len(), 1);
    assert!(matches!(s.events[0], Event::Stream(StreamEvent::Readable(StreamId(0)))));
}

#[test]
fn received_stream_frame_on_unopened_local_stream_is_refused() {
    let mut s = StreamsState::new(Side::Client);
    let frame = Stream { id: StreamId(0), offset: 0, fin: false, data: Bytes::from_static(b"x") };
    let err = s.received(frame, 1).err().unwrap();
    assert_eq!(err.code, TransportErrorCode::STREAM_STATE_ERROR());
    // the peer may not send on a unidirectional stream this side opened
    s.open(Dir::Uni);
    let frame = Stream { id: StreamId(2), offset: 0, fin: false, data: Bytes::from_static(b"x") };
    assert_eq!(s.received(frame, 1).err().unwrap().code, TransportErrorCode::STREAM_STATE_ERROR());
}

#[test]
fn received_reset_makes_stream_readable() {
    let mut s = StreamsState::new(Side::Server);
    let reset = ResetStream { id: StreamId(0), error_code: 3, final_offset: 0 };
    assert!(s.received_reset(reset).is_ok());
    assert!(matches!(s.events.last(), Some(Event::Stream(StreamEvent::Readable(StreamId(0))))));
}

#[test]
fn received_stop_sending() {
    let mut s = StreamsState::new(Side::Client);
    let id = s.open(Dir::Bi);
    assert!(s.received_stop_sending(StopSending { id, error_code: 5 }).is_ok());
    assert!(matches!(
        s.events.last(),
        Some(Event::Stream(StreamEvent::Stopped { id: StreamId(0), error_code: 5 }))
    ));
    // on a stream this side only receives on
    let err = s.received_stop_sending(StopSending { id: StreamId(3), error_code: 5 }).err().unwrap();
    assert_eq!(err.reason, "STOP_SENDING on recv-only stream");
    // on a stream this side has not opened
    let err = s.received_stop_sending(StopSending { id: StreamId(8), error_code: 5 }).err().unwrap();
    assert_eq!(err.reason, "STOP_SENDING on unopened stream");
}

#[test]
fn pending_queue_pops_highest_priority_first() {
    let mut q = PendingStreamsQueue::new();
    q.push_pending(StreamId(0), 1);
    q.push_pending(StreamId(4), 2);
    q.push_pending(StreamId(8), 1);
    assert_eq!(q.pop().unwrap().id, StreamId(4));
    let next = q.pop().unwrap().id;
    assert!(next == StreamId(0) || next == StreamId(8));
    assert!(q.pop().is_some());
    assert!(q.pop().is_none());
}

#[test]
fn read_error_variants() {
    assert_ne!(ReadError::Blocked, ReadError::Reset(0));
}

#[test]
fn write_to_unopened_stream_is_refused() {
    let mut conn = Connection::new(Side::Client, 0);
    let s = conn.send_stream(StreamId(0));
    assert_eq!(s.write(&mut conn, b"x"), Err(WriteError::ClosedStream));
    assert!(conn.streams.send.is_empty());
}

#[test]
fn peer_stream_opens_both_halves() {
    let mut s = StreamsState::new(Side::Server);
    let frame = Stream { id: StreamId(0), offset: 0, fin: false, data: Bytes::from_static(b"ping") };
    assert!(s.received(frame, 10).is_ok());
    assert!(s.send.contains_key(&0));
    assert!(s.recv.contains_key(&0));
}

#[test]
fn reported_reset_is_not_revived() {
    let mut conn = Connection::new(Side::Server, 0);
    let reset = ResetStream { id: StreamId(0), error_code: 7, final_offset: 0 };
    assert!(conn.streams.received_reset(reset).is_ok());
    let r = conn.recv_stream(StreamId(0));
    assert_eq!(r.received_reset(&mut conn), Ok(Some(7)));
    let frame = Stream { id: StreamId(0), offset: 0, fin: false, data: Bytes::from_static(b"late") };
    assert!(conn.streams.received(frame, 10).is_ok());
    assert_eq!(r.received_reset(&mut conn), Err(ClosedStream));
    assert!(conn.streams.received_reset(reset).is_ok());
    assert_eq!(r.received_reset(&mut conn), Err(ClosedStream));
}
