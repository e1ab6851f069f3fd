use bytes::Bytes;
use mzquic::common::{ConnectionId, Side, StreamId};
use mzquic::connection::path::RttEstimator;
use mzquic::connection::space::{Dedup, PacketSpace, Retransmits, SentPacket, ThinRetransmits};
use mzquic::connection::timer::{Timer, TimerTable};
use mzquic::connection::{fake_cid, Connection, ConnectionError, Event, State, CLOSE_TIMEOUT};
use mzquic::error::TransportErrorCode;
use mzquic::frame::{ConnectionClose, FrameType};
use mzquic::packet::{Header, PacketNumber, SpaceId};
use mzquic::range_set::RangeSet;

fn cid() -> ConnectionId {
    ConnectionId::new(&fake_cid())
}

/// A datagram holding a Retry packet, which has no packet number, with
/// `payload` after its header.
fn retry_datagram(payload: &[u8]) -> Bytes {
    let mut out = Vec::new();
    Header::Retry { dst_cid: cid(), src_cid: cid(), version: 1 }.encode(&mut out);
    out.extend_from_slice(payload);
    Bytes::from(out)
}

#[test]
fn client_sends_its_hello_in_an_initial_packet() {
    let mut conn = Connection::new(Side::Client, 0);
    assert!(matches!(conn.state, State::Handshake));
    // the hello is all there is to send
    assert!(!conn.poll_transmit(10));
    assert!(conn.app_limited);
    let p = conn.pop_scheduled().unwrap();
    assert!(conn.pop_scheduled().is_none());
    let bytes = p.packet.to_vec();
    let mut expected = vec![0xc0, 0, 0, 0, 1, 20];
    expected.extend_from_slice(&fake_cid());
    expected.push(20);
    expected.extend_from_slice(&fake_cid());
    expected.extend_from_slice(&[0, 1, 0]); // empty token, length, packet number 0
    expected.extend_from_slice(&[0x06, 0, 1, 0]); // the hello, as a CRYPTO frame
    assert_eq!(bytes, expected);
    assert_eq!(p.meta_info.number, 0);
    assert_eq!(p.meta_info.space_id, SpaceId::Initial);
    assert!(p.meta_info.ack_eliciting);
    assert_eq!(p.meta_info.size as usize, expected.len());
    assert_eq!(p.meta_info.time_sent, 10);
    assert!(p.meta_info.retransmits.get().unwrap().hello);
    assert_eq!(conn.spaces[0].next_packet_number, 1);
    // the header reads back
    let (h, n) = Header::decode(&p.packet, 20, &[1]).ok().unwrap();
    assert!(h.is_initial());
    assert_eq!(h.number(), Some(PacketNumber::U8(0)));
    assert_eq!(n, expected.len() - 4);
}

#[test]
fn sent_packet_is_counted_in_flight() {
    let mut conn = Connection::new(Side::Client, 0);
    conn.poll_transmit(10);
    let p = conn.pop_scheduled().unwrap();
    let size = p.meta_info.size as u64;
    let info = conn.on_packet_sent(p.meta_info, 10, 10);
    assert!(info.ack_eliciting);
    assert_eq!(conn.path.in_flight.bytes, size);
    assert_eq!(conn.spaces[0].sent_packets.len(), 1);
    // the loss detection timer is armed
    assert!(conn.timers.next_deadline().is_some());
}

#[test]
fn server_has_nothing_to_send_at_first() {
    let mut conn = Connection::new(Side::Server, 0);
    assert!(!conn.poll_transmit(0));
    assert!(conn.pop_scheduled().is_none());
}

#[test]
fn close_sends_one_close_packet_then_drains() {
    let mut conn = Connection::new(Side::Server, 0);
    conn.close(100, 0, Bytes::from_static(b"bye"));
    assert!(matches!(conn.state, State::Closed(ConnectionClose::Application(_))));
    assert!(conn.pending_close);
    assert_eq!(conn.timers.next_deadline(), Some((Timer::Close, 100 + CLOSE_TIMEOUT)));
    conn.poll_transmit(200);
    assert!(!conn.pending_close);
    let p = conn.pop_scheduled().unwrap();
    let (h, _) = Header::decode(&p.packet, 20, &[1]).ok().unwrap();
    assert!(h.is_initial());
    // no second close packet
    assert!(!conn.poll_transmit(300));
    assert!(conn.pop_scheduled().is_none());
    conn.handle_timeout(Timer::Close, 100 + CLOSE_TIMEOUT);
    assert!(matches!(conn.state, State::Drained));
}

#[test]
fn closing_twice_changes_nothing() {
    let mut conn = Connection::new(Side::Client, 0);
    conn.close(5, 1, Bytes::from_static(b"a"));
    conn.close(6, 2, Bytes::from_static(b"b"));
    match &conn.state {
        State::Closed(ConnectionClose::Application(a)) => assert_eq!(a.error_code, 1),
        _ => panic!("expected a closed connection"),
    }
}

#[test]
fn unreadable_datagram_is_dropped() {
    let mut conn = Connection::new(Side::Client, 0);
    conn.handle_data(1, Bytes::from_static(&[0x00, 1, 2]));
    assert!(matches!(conn.state, State::Handshake));
    assert!(conn.poll_event().is_none());
}

#[test]
fn crypto_frame_marks_the_handshake_seen() {
    let mut conn = Connection::new(Side::Server, 0);
    conn.handle_data(1, retry_datagram(&[0x06, 0, 1, 0]));
    assert!(conn.spaces[0].hi);
    assert!(matches!(conn.state, State::Handshake));
    assert!(conn.poll_event().is_none());
}

#[test]
fn close_frame_drains_the_connection() {
    let mut conn = Connection::new(Side::Client, 0);
    // APPLICATION_CLOSE, code 7, reason "no"
    conn.handle_data(1, retry_datagram(&[0x1d, 7, 2, b'n', b'o']));
    assert!(matches!(conn.state, State::Drained));
    match conn.poll_event() {
        Some(Event::ConnectionLost(ConnectionError::ApplicationClosed(a))) => {
            assert_eq!(a.error_code, 7);
            assert_eq!(&a.reason[..], b"no");
        }
        _ => panic!("expected the connection to be lost"),
    }
    assert!(conn.timers.next_deadline().is_none());
}

#[test]
fn illegal_frame_closes_the_connection() {
    let mut conn = Connection::new(Side::Client, 0);
    // a STREAM frame has no place in an Initial packet
    conn.handle_data(5, retry_datagram(&[0x08, 0, b'x']));
    match &conn.state {
        State::Closed(ConnectionClose::Transport(t)) => {
            assert_eq!(t.error_code, TransportErrorCode::PROTOCOL_VIOLATION());
            assert_eq!(&t.reason[..], b"illegal frame in Initial/Handshake packet");
        }
        _ => panic!("expected a closed connection"),
    }
    match conn.poll_event() {
        Some(Event::ConnectionLost(ConnectionError::TransportError(e))) => {
            assert_eq!(e.code, TransportErrorCode::PROTOCOL_VIOLATION());
            assert_eq!(e.reason, "illegal frame in Initial/Handshake packet");
        }
        _ => panic!("expected the connection to be lost"),
    }
    assert_eq!(conn.timers.next_deadline(), Some((Timer::Close, 5 + CLOSE_TIMEOUT)));
}

#[test]
fn empty_payload_closes_the_connection() {
    let mut conn = Connection::new(Side::Client, 0);
    conn.handle_data(5, retry_datagram(&[]));
    match conn.poll_event() {
        Some(Event::ConnectionLost(ConnectionError::TransportError(e))) => {
            assert_eq!(e.reason, "packet payload is empty");
        }
        _ => panic!("expected the connection to be lost"),
    }
}

#[test]
fn ack_for_unsent_packet_is_refused() {
    let mut conn = Connection::new(Side::Client, 0);
    // ACK of packet 5, none sent
    conn.handle_data(5, retry_datagram(&[0x02, 5, 0, 0, 0]));
    match conn.poll_event() {
        Some(Event::ConnectionLost(ConnectionError::TransportError(e))) => {
            assert_eq!(e.code, TransportErrorCode::PROTOCOL_VIOLATION());
            assert_eq!(e.reason, "ACK for unsent packet");
        }
        _ => panic!("expected the connection to be lost"),
    }
}

#[test]
fn malformed_frame_closes_the_connection() {
    let mut conn = Connection::new(Side::Client, 0);
    // a CRYPTO frame cut short
    conn.handle_data(5, retry_datagram(&[0x06, 0, 5, 1]));
    match conn.poll_event() {
        Some(Event::ConnectionLost(ConnectionError::TransportError(e))) => {
            assert_eq!(e.code, TransportErrorCode::FRAME_ENCODING_ERROR());
            assert_eq!(e.frame, Some(FrameType::CRYPTO()));
            assert_eq!(e.reason, "unexpected end");
        }
        _ => panic!("expected the connection to be lost"),
    }
}

#[test]
fn numbered_packet_on_closed_connection_is_only_noted() {
    let mut conn = Connection::new(Side::Server, 0);
    conn.close(1, 0, Bytes::new());
    let mut out = Vec::new();
    Header::Short { spin: false, key_phase: false, dst_cid: cid(), number: PacketNumber::U8(0) }
        .encode(&mut out);
    out.push(0x01);
    conn.handle_data(2, Bytes::from(out));
    assert!(matches!(conn.state, State::Closed(_)));
    assert_eq!(conn.spaces[2].dedup.highest(), 0);
    assert!(conn.poll_event().is_none());
}

#[test]
fn dedup_counts_repeats_law() {
    let mut d = Dedup::new();
    assert!(!d.insert(0));
    assert!(d.insert(0));
    assert!(!d.insert(5));
    assert_eq!(d.highest(), 5);
    assert!(!d.insert(3));
    assert!(d.insert(3));
    assert!(d.insert(5));
    // far below the window counts as seen
    assert!(!d.insert(1000));
    assert!(d.insert(1));
}

#[test]
fn timers_fire_earliest_first() {
    let mut t = TimerTable::new();
    assert_eq!(t.next_deadline(), None);
    t.set(Timer::LossDetection, 10);
    t.set(Timer::Close, 5);
    assert_eq!(t.next_deadline(), Some((Timer::Close, 5)));
    assert_eq!(t.poll(4), None);
    assert_eq!(t.poll(5), Some(Timer::Close));
    assert_eq!(t.next_deadline(), Some((Timer::LossDetection, 10)));
    t.stop(Timer::LossDetection);
    assert_eq!(t.poll(100), None);
}

#[test]
fn range_set_merges_law() {
    let mut r = RangeSet::new();
    assert!(r.is_empty());
    r.insert(5, 8);
    r.insert(1, 3);
    r.insert(3, 5);
    assert_eq!(r.len(), 1);
    assert_eq!(r.get(0), (1, 8));
    r.insert(10, 12);
    assert_eq!(r.max(), Some(11));
    assert_eq!(r.pop_min(), Some(1..8));
    assert_eq!(r.pop_min(), Some(10..12));
    assert_eq!(r.pop_min(), None);
}

#[test]
fn rtt_estimate_follows_samples() {
    let mut rtt = RttEstimator::new(333_000_000);
    assert_eq!(rtt.get(), 333_000_000);
    rtt.update(0, 100_000_000);
    assert_eq!(rtt.get(), 100_000_000);
    // RFC 9002: smoothed = 7/8 smoothed + 1/8 sample
    rtt.update(0, 180_000_000);
    assert_eq!(rtt.get(), 110_000_000);
}

#[test]
fn first_rtt_sample_takes_over() {
    let mut rtt = RttEstimator::new(333_000_000);
    rtt.update(100_000_000, 500_000_000);
    assert_eq!(rtt.latest, 500_000_000);
    assert_eq!(rtt.min, 500_000_000);
    assert_eq!(rtt.get(), 500_000_000);
    assert_eq!(rtt.var, 250_000_000);
}

#[test]
fn retransmits_add_up_in_order() {
    let mut a = Retransmits::new();
    a.hello = true;
    a.reset_stream.push((StreamId(4), 1));
    let mut b = Retransmits::new();
    b.handshake_done = true;
    b.reset_stream.push((StreamId(8), 2));
    let all = Retransmits::from_iter(vec![a, b, Retransmits::new()]);
    assert!(all.hello);
    assert!(all.handshake_done);
    assert!(!all.ack_frequency);
    assert_eq!(all.reset_stream, vec![(StreamId(4), 1), (StreamId(8), 2)]);
    assert!(Retransmits::from_iter(Vec::new()).is_empty());
}

#[test]
fn packet_three_below_largest_acked_is_lost() {
    let mut conn = Connection::new(Side::Client, 0);
    conn.poll_transmit(300_000_000);
    let p = conn.pop_scheduled().unwrap();
    assert_eq!(p.meta_info.number, 0);
    conn.on_packet_sent(p.meta_info, 300_000_000, 300_000_000);
    conn.spaces[0].largest_acked_packet = Some(2);
    // sent recently, and fewer than three numbers below the largest acknowledged
    assert!(conn.loss_free(400_000_000));
    conn.spaces[0].largest_acked_packet = Some(3);
    // three numbers below: lost, however recently it was sent
    assert!(!conn.loss_free(400_000_000));
}

#[test]
fn packet_numbers_count_up_and_stop_at_the_limit() {
    let mut space = PacketSpace::new(0);
    assert_eq!(space.get_tx_number(), Some(0));
    assert_eq!(space.get_tx_number(), Some(1));
    assert_eq!(space.next_packet_number, 2);
    space.next_packet_number = (1u64 << 62) - 1;
    assert_eq!(space.get_tx_number(), Some((1u64 << 62) - 1));
    assert_eq!(space.get_tx_number(), None);
    assert_eq!(space.next_packet_number, 1u64 << 62);
}

#[test]
fn dedup_remembers_every_inserted_packet() {
    let mut d = Dedup::new();
    let ps = [5u64, 2, 9, 7, 3, 200, 100];
    for p in ps {
        d.insert(p);
    }
    for p in ps {
        assert!(d.insert(p));
    }
    assert!(!d.contains(150));
    assert!(!d.contains(201));
}

fn sent_packet(number: u64, size: u16) -> SentPacket {
    SentPacket {
        time_sent: 0,
        size,
        ack_eliciting: true,
        largest_acked: None,
        retransmits: ThinRetransmits::new(),
        stream_frames: Vec::new(),
        number,
        space_id: SpaceId::Data,
    }
}

#[test]
fn space_in_flight_is_the_size_of_its_packets() {
    let mut space = PacketSpace::new(0);
    assert_eq!(space.in_flight, 0);
    space.sent(sent_packet(0, 100));
    space.sent(sent_packet(2, 250));
    space.sent(sent_packet(1, 40));
    let total: u64 = space.sent_packets.iter().map(|p| p.size as u64).sum();
    assert_eq!(space.in_flight, total);
    assert_eq!(total, 390);
    let numbers: Vec<u64> = space.sent_packets.iter().map(|p| p.number).collect();
    assert_eq!(numbers, vec![0, 1, 2]);
}
