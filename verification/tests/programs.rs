use bytes::Bytes;
use mzquic::common::{Side, StreamId};
use mzquic::connection::stream::state::StreamEvent;
use mzquic::connection::{Connection, Event};
use mzquic::frame::{ResetStream, Stream};
use mzquic::programs::{client, server, Call, HandlerError, ReadEnd};

fn deliver(conn: &mut Connection, id: u64, offset: u64, data: &'static [u8], fin: bool) {
    let frame = Stream { id: StreamId(id), offset, fin, data: Bytes::from_static(data) };
    assert!(conn.streams.received(frame, 100).is_ok());
}

fn readable(id: u64) -> Event {
    Event::Stream(StreamEvent::Readable(StreamId(id)))
}

#[test]
fn server_pingpong_answers_each_ping() {
    let mut conn = Connection::new(Side::Server, 0);
    deliver(&mut conn, 0, 0, b"pingping", false);
    let reply = server::pingpong(&mut conn, readable(0)).unwrap();
    assert_eq!(reply.calls, vec![Call::Wrote(StreamId(0), 4), Call::Wrote(StreamId(0), 4)]);
    let read = reply.read.unwrap();
    assert_eq!(read.chunks.len(), 2);
    assert_eq!(&read.chunks[0].bytes[..], b"ping");
    assert_eq!(read.end, ReadEnd::Blocked);
    assert_eq!(conn.streams.send.get(&0).unwrap().offset(), 8);
}

#[test]
fn server_pingpong_finishes_a_finished_stream() {
    let mut conn = Connection::new(Side::Server, 0);
    deliver(&mut conn, 0, 0, b"ping", true);
    let reply = server::pingpong(&mut conn, readable(0)).unwrap();
    assert_eq!(reply.calls, vec![Call::Wrote(StreamId(0), 4), Call::Finished(StreamId(0))]);
    assert_eq!(reply.read.unwrap().end, ReadEnd::Finished);
}

#[test]
fn server_pingpong_ignores_other_events() {
    let mut conn = Connection::new(Side::Server, 0);
    let reply = server::pingpong(&mut conn, Event::Connected).unwrap();
    assert!(reply.read.is_none());
    assert!(reply.calls.is_empty());
}

#[test]
fn server_pingpong_refuses_a_stream_it_cannot_read() {
    let mut conn = Connection::new(Side::Server, 0);
    // a unidirectional stream of the server's own
    assert_eq!(server::pingpong(&mut conn, readable(3)).err(), Some(HandlerError::WrongDirection));
    // a stream that was never opened
    assert_eq!(server::pingpong(&mut conn, readable(0)).err(), Some(HandlerError::Refused));
}

#[test]
fn server_pingpong_stop_stops_at_the_tenth_ping_ping() {
    let mut conn = Connection::new(Side::Server, 0);
    let mut program = server::PingPongStop::new();
    program.ping_ping_cnt = 8;
    deliver(&mut conn, 4, 0, b"ping pingping ping", false);
    let reply = program.handle(&mut conn, readable(4)).unwrap();
    assert_eq!(
        reply.calls,
        vec![Call::Wrote(StreamId(4), 9), Call::Stopped(StreamId(4), 0), Call::Finished(StreamId(4))]
    );
    assert_eq!(program.ping_ping_cnt, 10);
    assert_eq!(reply.read.unwrap().end, ReadEnd::Limit);
}

#[test]
fn server_pingpong_stop_answers_pong_on_stream_zero() {
    let mut conn = Connection::new(Side::Server, 0);
    let mut program = server::PingPongStop::new();
    deliver(&mut conn, 0, 0, b"pingping", false);
    let reply = program.handle(&mut conn, readable(0)).unwrap();
    assert_eq!(reply.calls, vec![Call::Wrote(StreamId(0), 4), Call::Wrote(StreamId(0), 4)]);
    assert_eq!(program.ping_ping_cnt, 0);
}

#[test]
fn server_pingpong_stop_remembers_the_reset_code() {
    let mut conn = Connection::new(Side::Server, 0);
    let mut program = server::PingPongStop::new();
    let reset = ResetStream { id: StreamId(4), error_code: 0x3123, final_offset: 0 };
    assert!(conn.streams.received_reset(reset).is_ok());
    let reply = program.handle(&mut conn, readable(4)).unwrap();
    assert_eq!(reply.calls, vec![Call::Finished(StreamId(4))]);
    assert_eq!(program.client_error_code, Some(0x3123));
}

#[test]
fn server_pingpong_stop_gives_up_when_its_count_runs_out() {
    let mut conn = Connection::new(Side::Server, 0);
    let mut program = server::PingPongStop::new();
    program.ping_ping_cnt = i32::MAX;
    deliver(&mut conn, 4, 0, b"ping ping", false);
    assert_eq!(program.handle(&mut conn, readable(4)).err(), Some(HandlerError::Exhausted));
}

#[test]
fn server_echo_writes_back_the_first_chunk() {
    let mut conn = Connection::new(Side::Server, 0);
    deliver(&mut conn, 0, 0, b"hello", false);
    let reply = server::echo(&mut conn, readable(0)).unwrap();
    assert_eq!(reply.calls, vec![Call::Wrote(StreamId(0), 5)]);
    assert_eq!(conn.streams.send.get(&0).unwrap().offset(), 5);
}

#[test]
fn server_echo_stops_a_stopped_stream() {
    let mut conn = Connection::new(Side::Server, 0);
    deliver(&mut conn, 0, 0, b"hello", false);
    let event = Event::Stream(StreamEvent::Stopped { id: StreamId(0), error_code: 7 });
    let reply = server::echo(&mut conn, event).unwrap();
    assert_eq!(reply.calls, vec![Call::Stopped(StreamId(0), 7)]);
}

#[test]
fn server_cc_sends_the_file_on_a_new_stream() {
    let mut conn = Connection::new(Side::Server, 0);
    let program = server::Cc { content: vec![1, 2, 3] };
    let reply = program.handle(&mut conn, Event::Connected).unwrap();
    assert_eq!(
        reply.calls,
        vec![Call::Opened(StreamId(3)), Call::Wrote(StreamId(3), 3), Call::Finished(StreamId(3))]
    );
}

#[test]
fn server_cc_cannot_open_on_a_closed_connection() {
    let mut conn = Connection::new(Side::Server, 0);
    conn.close(0, 0, Bytes::new());
    let program = server::Cc { content: vec![1] };
    assert_eq!(program.handle(&mut conn, Event::Connected).err(), Some(HandlerError::ClosedConnection));
}

#[test]
fn client_pingpong_opens_and_answers() {
    let mut conn = Connection::new(Side::Client, 0);
    let mut program = client::PingPong::new();
    let reply = program.handle(&mut conn, 0, Event::Connected).unwrap();
    assert_eq!(reply.calls, vec![Call::Opened(StreamId(0)), Call::Wrote(StreamId(0), 4)]);
    deliver(&mut conn, 0, 0, b"pongpong", false);
    let reply = program.handle(&mut conn, 0, readable(0)).unwrap();
    assert_eq!(reply.calls, vec![Call::Wrote(StreamId(0), 4), Call::Wrote(StreamId(0), 4)]);
    assert_eq!(program.remaining, 17);
}

#[test]
fn client_pingpong_finishes_after_the_last_answer() {
    let mut conn = Connection::new(Side::Client, 0);
    let mut program = client::PingPong::new();
    program.handle(&mut conn, 0, Event::Connected).unwrap();
    program.remaining = 1;
    deliver(&mut conn, 0, 0, b"pongpong", false);
    let reply = program.handle(&mut conn, 0, readable(0)).unwrap();
    assert_eq!(reply.calls, vec![Call::Wrote(StreamId(0), 4), Call::Finished(StreamId(0))]);
    assert_eq!(program.remaining, 0);
}

#[test]
fn client_pingpong_closes_once_the_server_finished() {
    let mut conn = Connection::new(Side::Client, 0);
    let mut program = client::PingPong::new();
    program.handle(&mut conn, 0, Event::Connected).unwrap();
    deliver(&mut conn, 0, 0, b"pong", true);
    let reply = program.handle(&mut conn, 5, readable(0)).unwrap();
    assert_eq!(reply.calls, vec![Call::Closed(0)]);
    assert!(conn.state.is_closed());
}

#[test]
fn client_pingpong_stop_code_formula() {
    assert_eq!(client::PingPongStop::with_random(0x12345).random_error_code, 0x3345);
    assert_eq!(client::PingPongStop::with_random(u32::MAX).random_error_code, 0x3fff);
    let code = client::PingPongStop::new().random_error_code;
    assert!((0x3000..=0x3fff).contains(&code));
}

#[test]
fn client_pingpong_stop_resets_after_nine_answers() {
    let mut conn = Connection::new(Side::Client, 0);
    let mut program = client::PingPongStop::with_random(0x345);
    program.handle(&mut conn, 0, Event::Connected).unwrap();
    deliver(&mut conn, 0, 0, b"pongpongpongpongpongpongpongpongpongpong", false);
    let reply = program.handle(&mut conn, 0, readable(0)).unwrap();
    let mut expected = vec![Call::Wrote(StreamId(0), 4); 9];
    expected.push(Call::Reset(StreamId(0), 0x3345));
    expected.push(Call::Opened(StreamId(4)));
    expected.push(Call::Wrote(StreamId(4), 9));
    assert_eq!(reply.calls, expected);
    assert_eq!(program.stream_states.len(), 2);
    assert_eq!(program.stream_states[0].send_remain, Some(0));
    assert!(program.stream_states[1].double);
}

#[test]
fn client_pingpong_stop_refuses_unknown_streams_and_codes() {
    let mut conn = Connection::new(Side::Client, 0);
    let mut program = client::PingPongStop::with_random(0);
    program.handle(&mut conn, 0, Event::Connected).unwrap();
    deliver(&mut conn, 1, 0, b"x", false);
    assert_eq!(program.handle(&mut conn, 0, readable(1)).err(), Some(HandlerError::Unexpected));
    let stopped = Event::Stream(StreamEvent::Stopped { id: StreamId(0), error_code: 0x3000 });
    assert_eq!(program.handle(&mut conn, 0, stopped).err(), Some(HandlerError::Unexpected));
}

#[test]
fn client_cc_reads_the_file_and_closes() {
    let mut conn = Connection::new(Side::Client, 0);
    deliver(&mut conn, 3, 0, b"file contents", true);
    let reply = client::cc(&mut conn, 0, readable(3)).unwrap();
    let read = reply.read.unwrap();
    assert_eq!(read.chunks.len(), 1);
    assert_eq!(&read.chunks[0].bytes[..], b"file contents");
    assert_eq!(reply.calls, vec![Call::Closed(0)]);
}

#[test]
fn client_echo_opens_two_streams() {
    let mut conn = Connection::new(Side::Client, 0);
    let mut program = client::Echo::new();
    assert_eq!(program.large_message.len(), 1024000);
    let reply = program.handle(&mut conn, 0, Event::Connected).unwrap();
    assert_eq!(
        reply.calls,
        vec![
            Call::Opened(StreamId(0)),
            Call::Prioritized(StreamId(0), 2),
            Call::Wrote(StreamId(0), 1024000),
            Call::Finished(StreamId(0)),
            Call::Opened(StreamId(4)),
            Call::Prioritized(StreamId(4), 1),
            Call::Wrote(StreamId(4), 1024000),
            Call::Finished(StreamId(4)),
        ]
    );
    assert_eq!(program.ss.len(), 2);
}

#[test]
fn client_echo_resets_the_first_stream_once_enough_came_back() {
    let mut conn = Connection::new(Side::Client, 0);
    let mut program = client::Echo::new();
    program.large_message = vec![0; 16];
    program.handle(&mut conn, 0, Event::Connected).unwrap();
    deliver(&mut conn, 0, 0, b"ab", false);
    let reply = program.handle(&mut conn, 0, readable(0)).unwrap();
    assert_eq!(program.ss[0].bytes, 2);
    assert_eq!(reply.calls, vec![Call::Reset(StreamId(0), 0x1337)]);
}

#[test]
fn client_echo_needs_its_streams() {
    let mut conn = Connection::new(Side::Client, 0);
    let mut program = client::Echo::new();
    let lost = Event::Stream(StreamEvent::Finished(StreamId(0)));
    assert_eq!(program.handle(&mut conn, 0, lost).err(), Some(HandlerError::Unexpected));
}

#[test]
fn server_echo_refuses_to_stop_a_stream_it_does_not_have() {
    let mut conn = Connection::new(Side::Server, 0);
    let event = Event::Stream(StreamEvent::Stopped { id: StreamId(4), error_code: 7 });
    assert_eq!(server::echo(&mut conn, event).err(), Some(HandlerError::Refused));
    // a unidirectional stream this side opened has no receiving half to stop
    let event = Event::Stream(StreamEvent::Stopped { id: StreamId(3), error_code: 7 });
    assert_eq!(server::echo(&mut conn, event).err(), Some(HandlerError::WrongDirection));
}
