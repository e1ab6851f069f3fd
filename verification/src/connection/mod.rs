//! A QUIC connection, without I/O: it reads packets handed to it, decides
//! what to send and when its timers fire, and leaves the sending, the
//! clock and the channels to its caller.
use vstd::prelude::*;

use crate::error::TransportError;
use bytes::Bytes;

use crate::frame::{ApplicationClose, ConnectionClose, TransportClose};

pub mod path;
pub mod receive;
pub mod space;
pub mod stream;
pub mod timer;

use crate::common::{Dir, Side, StreamId};
use crate::buf::{bytes_clone, bytes_from_vec, bytes_new, bytes_view};
use crate::common::ConnectionId;
use crate::packet::{Header, HeaderModel, InitialHeader, LongType, PacketNumber, SpaceId};

use path::{NetworkPath, PostSentInfo, ScheduledPacket};
use space::{PacketSpace, PendingAcks, Retransmits, SendableFrames, SentPacket, ThinRetransmits, sent_insert, sent_sorted};
use stream::recv::RecvStream;
use stream::send::SendStream;
use stream::state::{StreamEvent, StreamsState};
use timer::{Timer, TimerTable};

verus! {

#[derive(Debug)]
pub enum State {
    Handshake,
    Established,
    Closed(ConnectionClose),
    Draining,
    /// Waiting for application to call close so we can dispose of the resources
    Drained,
}

impl Default for State {
    fn default() -> (r: Self)
        ensures
            r is Handshake,
    {
        State::Handshake
    }
}

impl State {
    pub fn closed(reason: ConnectionClose) -> (r: Self)
        ensures
            r == State::Closed(reason),
    {
        State::Closed(reason)
    }

    pub fn is_handshake(&self) -> (r: bool)
        ensures
            r == self is Handshake,
    {
        matches!(self, State::Handshake)
    }

    /// Whether the connection is closed, draining or drained.
    pub open spec fn spec_is_closed(&self) -> bool {
        self is Closed || self is Draining || self is Drained
    }

    pub fn is_closed(&self) -> (r: bool)
        ensures
            r == self.spec_is_closed(),
    {
        matches!(self, State::Closed(_)) || matches!(self, State::Draining) || matches!(
            self,
            State::Drained
        )
    }

    pub fn is_drained(&self) -> (r: bool)
        ensures
            r == self is Drained,
    {
        matches!(self, State::Drained)
    }
}

/// Reasons why a connection might be lost
#[derive(Debug)]
pub enum ConnectionError {
    /// The peer doesn't implement any supported version
    VersionMismatch,
    /// The peer violated the QUIC specification as understood by this
    /// implementation
    TransportError(TransportError),
    /// The peer's QUIC stack aborted the connection automatically
    TransportClosed(TransportClose),
    /// The peer closed the connection
    ApplicationClosed(ApplicationClose),
    /// The peer is unable to continue processing this connection, usually due
    /// to having restarted
    Reset,
}

/// Two connection errors that say the same: of one kind, with one code,
/// frame type and reason.
pub open spec fn same_error(a: ConnectionError, b: ConnectionError) -> bool {
    match (a, b) {
        (ConnectionError::VersionMismatch, ConnectionError::VersionMismatch) => true,
        (ConnectionError::TransportError(x), ConnectionError::TransportError(y)) => x == y,
        (ConnectionError::TransportClosed(x), ConnectionError::TransportClosed(y)) => x.error_code
            == y.error_code && x.frame_type == y.frame_type && bytes_view(x.reason) == bytes_view(
            y.reason,
        ),
        (ConnectionError::ApplicationClosed(x), ConnectionError::ApplicationClosed(y)) => x.error_code
            == y.error_code && bytes_view(x.reason) == bytes_view(y.reason),
        (ConnectionError::Reset, ConnectionError::Reset) => true,
        _ => false,
    }
}

impl Clone for ConnectionError {
    fn clone(&self) -> (r: Self)
        ensures
            same_error(r, *self),
    {
        match self {
            ConnectionError::VersionMismatch => ConnectionError::VersionMismatch,
            ConnectionError::TransportError(e) => ConnectionError::TransportError(
                TransportError { code: e.code, frame: e.frame, reason: e.reason.clone() },
            ),
            ConnectionError::TransportClosed(c) => ConnectionError::TransportClosed(
                TransportClose {
                    error_code: c.error_code,
                    frame_type: c.frame_type,
                    reason: bytes_clone(&c.reason),
                },
            ),
            ConnectionError::ApplicationClosed(c) => ConnectionError::ApplicationClosed(
                ApplicationClose { error_code: c.error_code, reason: bytes_clone(&c.reason) },
            ),
            ConnectionError::Reset => ConnectionError::Reset,
        }
    }
}

impl From<ConnectionClose> for ConnectionError {
    fn from(x: ConnectionClose) -> (r: Self) {
        match x {
            ConnectionClose::Transport(reason) => ConnectionError::TransportClosed(reason),
            ConnectionClose::Application(reason) => ConnectionError::ApplicationClosed(reason),
        }
    }
}

impl vstd::std_specs::convert::FromSpecImpl<ConnectionClose> for ConnectionError {
    open spec fn obeys_from_spec() -> bool {
        true
    }

    open spec fn from_spec(x: ConnectionClose) -> Self {
        match x {
            ConnectionClose::Transport(reason) => ConnectionError::TransportClosed(reason),
            ConnectionClose::Application(reason) => ConnectionError::ApplicationClosed(reason),
        }
    }
}

impl From<TransportError> for ConnectionError {
    fn from(x: TransportError) -> (r: Self) {
        ConnectionError::TransportError(x)
    }
}

impl vstd::std_specs::convert::FromSpecImpl<TransportError> for ConnectionError {
    open spec fn obeys_from_spec() -> bool {
        true
    }

    open spec fn from_spec(x: TransportError) -> Self {
        ConnectionError::TransportError(x)
    }
}

/// Events of interest to the application
#[derive(Debug)]
pub enum Event {
    /// The connection was successfully established
    Connected,
    /// The connection was lost
    ///
    /// Emitted if the peer closes the connection or an error is encountered.
    ConnectionLost(ConnectionError),
    /// Stream events
    Stream(StreamEvent),
}

/// The exponent the ACK delay is sent with.
pub const ACK_DELAY_EXP: u64 = 3;

/// How many numbers below the largest acknowledged one a packet is deemed
/// lost.
pub const PACKET_THRESHOLD: u64 = 3;

/// The smallest delay the loss detection timer is armed with: 1 ms.
pub const TIMER_GRANULARITY: u64 = 1_000_000;

/// How long a closed connection waits before it is drained: 3 s.
pub const CLOSE_TIMEOUT: u64 = 3_000_000_000;

/// How long an ACK may be delayed: 25 ms.
pub const MAX_ACK_DELAY: u64 = 25_000_000;

/// A bound on times that keeps timer arithmetic in 64 bits.
pub const TIME_LIMIT: u64 = 0x4000_0000_0000_0000;

/// The connection ID both sides use.
pub fn fake_cid() -> (r: [u8; 20])
    ensures
        r@ == seq![
            0x30u8, 0x31u8, 0x32u8, 0x33u8, 0x34u8, 0x35u8, 0x36u8, 0x37u8, 0x38u8, 0x39u8, 0x61u8,
            0x62u8, 0x63u8, 0x64u8, 0x65u8, 0x66u8, 0x67u8, 0x68u8, 0x69u8, 0x6au8
        ],
{
    let r = [
        0x30u8, 0x31, 0x32, 0x33, 0x34, 0x35, 0x36, 0x37, 0x38, 0x39, 0x61, 0x62, 0x63, 0x64, 0x65,
        0x66, 0x67, 0x68, 0x69, 0x6a,
    ];
    assert(r@ =~= seq![
        0x30u8, 0x31u8, 0x32u8, 0x33u8, 0x34u8, 0x35u8, 0x36u8, 0x37u8, 0x38u8, 0x39u8, 0x61u8,
        0x62u8, 0x63u8, 0x64u8, 0x65u8, 0x66u8, 0x67u8, 0x68u8, 0x69u8, 0x6au8
    ]);
    r
}

/// The QUIC versions spoken.
pub fn supported_versions() -> (r: [u32; 1])
    ensures
        r@ == seq![1u32],
{
    let r = [1u32];
    assert(r@ =~= seq![1u32]);
    r
}

/// The sum of the sizes of the packets.
pub open spec fn packets_size(s: Seq<SentPacket>) -> nat
    decreases s.len(),
{
    if s.len() == 0 {
        0
    } else {
        packets_size(s.drop_last()) + s.last().size as nat
    }
}

/// The number of ack-eliciting packets.
pub open spec fn packets_ack_eliciting(s: Seq<SentPacket>) -> nat
    decreases s.len(),
{
    if s.len() == 0 {
        0
    } else {
        packets_ack_eliciting(s.drop_last()) + if s.last().ack_eliciting {
            1nat
        } else {
            0nat
        }
    }
}


/// The sum of sizes and count of ack-eliciting packets of two runs add up.
pub proof fn lemma_packets_concat(a: Seq<SentPacket>, b: Seq<SentPacket>)
    ensures
        packets_size(a + b) == packets_size(a) + packets_size(b),
        packets_ack_eliciting(a + b) == packets_ack_eliciting(a) + packets_ack_eliciting(b),
    decreases b.len(),
{
    if b.len() == 0 {
        assert(a + b =~= a);
    } else {
        lemma_packets_concat(a, b.drop_last());
        assert((a + b).drop_last() =~= a + b.drop_last());
    }
}

/// A single packet counts its own size and ack-elicitation.
pub proof fn lemma_packets_one(p: SentPacket)
    ensures
        packets_size(seq![p]) == p.size,
        packets_ack_eliciting(seq![p]) == if p.ack_eliciting {
            1nat
        } else {
            0nat
        },
{
    reveal_with_fuel(packets_size, 2);
    reveal_with_fuel(packets_ack_eliciting, 2);
    assert(seq![p].drop_last() =~= Seq::<SentPacket>::empty());
}

/// A space's in-flight count is the total size of the packets it tracks:
/// a new space has neither, and recording a packet with a number not yet
/// tracked adds its size to both.
pub proof fn lemma_in_flight_tracks_sent(a: PacketSpace, b: PacketSpace, p: SentPacket)
    requires
        a.in_flight == packets_size(a.sent_packets@),
        forall|k: int| 0 <= k < a.sent_packets@.len() ==> (#[trigger] a.sent_packets@[k]).number
            != p.number,
        b.sent_packets@ == sent_insert(a.sent_packets@, p),
        b.in_flight == a.in_flight + p.size,
    ensures
        b.in_flight == packets_size(b.sent_packets@),
        packets_size(Seq::<SentPacket>::empty()) == 0,
{
    lemma_packets_sent_insert(a.sent_packets@, p);
}

/// Recording a packet adds at most its size and ack-elicitation to the
/// totals.
pub proof fn lemma_packets_sent_insert(s: Seq<SentPacket>, p: SentPacket)
    ensures
        packets_size(sent_insert(s, p)) <= packets_size(s) + p.size,
        packets_ack_eliciting(sent_insert(s, p)) <= packets_ack_eliciting(s) + if p.ack_eliciting {
            1nat
        } else {
            0nat
        },
        (forall|k: int| 0 <= k < s.len() ==> (#[trigger] s[k]).number != p.number) ==> packets_size(
            sent_insert(s, p),
        ) == packets_size(s) + p.size,
{
    let i = crate::connection::space::sent_lower_bound(s, p.number) as int;
    crate::connection::space::lemma_lower_bound_facts(s, p.number);
    lemma_packets_one(p);
    if i < s.len() && s[i].number == p.number {
        assert(s =~= s.take(i) + seq![s[i]] + s.skip(i + 1));
        assert(s.update(i, p) =~= s.take(i) + seq![p] + s.skip(i + 1));
        lemma_packets_concat(s.take(i) + seq![s[i]], s.skip(i + 1));
        lemma_packets_concat(s.take(i), seq![s[i]]);
        lemma_packets_concat(s.take(i) + seq![p], s.skip(i + 1));
        lemma_packets_concat(s.take(i), seq![p]);
        lemma_packets_one(s[i]);
    } else {
        assert(s =~= s.take(i) + s.skip(i));
        assert(s.insert(i, p) =~= s.take(i) + seq![p] + s.skip(i));
        lemma_packets_concat(s.take(i), s.skip(i));
        lemma_packets_concat(s.take(i) + seq![p], s.skip(i));
        lemma_packets_concat(s.take(i), seq![p]);
    }
}


/// The sizes of the packets that a path numbered from `first` counts.
pub open spec fn counted_size(s: Seq<SentPacket>, first: Option<u64>) -> nat
    decreases s.len(),
{
    if s.len() == 0 {
        0
    } else {
        counted_size(s.drop_last(), first) + if first matches Some(f) && f <= s.last().number {
            s.last().size as nat
        } else {
            0nat
        }
    }
}

/// The ack-eliciting packets that a path numbered from `first` counts.
pub open spec fn counted_ack_eliciting(s: Seq<SentPacket>, first: Option<u64>) -> nat
    decreases s.len(),
{
    if s.len() == 0 {
        0
    } else {
        counted_ack_eliciting(s.drop_last(), first) + if first matches Some(f) && f
            <= s.last().number && s.last().ack_eliciting {
            1nat
        } else {
            0nat
        }
    }
}

/// The first packets of a run count as much as the run's first part.
pub proof fn lemma_packets_take(s: Seq<SentPacket>, k: int, first: Option<u64>)
    requires
        0 <= k < s.len(),
    ensures
        packets_size(s.skip(k)) == s[k].size + packets_size(s.skip(k + 1)),
        packets_ack_eliciting(s.skip(k)) == (if s[k].ack_eliciting {
            1nat
        } else {
            0nat
        }) + packets_ack_eliciting(s.skip(k + 1)),
        s.take(k + 1).drop_last() == s.take(k),
        s.take(k + 1).last() == s[k],
{
    assert(s.skip(k) =~= seq![s[k]] + s.skip(k + 1));
    lemma_packets_concat(seq![s[k]], s.skip(k + 1));
    lemma_packets_one(s[k]);
    assert(s.take(k + 1).drop_last() =~= s.take(k));
}

/// The time by which a packet is deemed lost, after the loss delay.
pub open spec fn loss_candidate(p: SentPacket, delay: u64) -> u64 {
    (p.time_sent + delay) as u64
}

/// The earliest time a packet numbered at most `largest` is deemed lost.
pub open spec fn next_loss_time(s: Seq<SentPacket>, largest: u64, delay: u64) -> Option<u64>
    decreases s.len(),
{
    if s.len() == 0 {
        None
    } else {
        let rest = next_loss_time(s.drop_last(), largest, delay);
        if s.last().number <= largest {
            let c = loss_candidate(s.last(), delay);
            match rest {
                None => Some(c),
                Some(prev) => Some(
                    if c < prev {
                        c
                    } else {
                        prev
                    },
                ),
            }
        } else {
            rest
        }
    }
}


/// The loss time of a run of packets is the earliest time one of them,
/// numbered up to the largest acknowledged one, is deemed lost: it is no
/// later than the loss time of each such packet and is that of one of
/// them; there is none exactly when no packet is numbered that low.
pub proof fn lemma_next_loss_time_earliest(s: Seq<SentPacket>, largest: u64, delay: u64)
    ensures
        next_loss_time(s, largest, delay) is None <==> forall|j: int|
            0 <= j < s.len() ==> (#[trigger] s[j]).number > largest,
        next_loss_time(s, largest, delay) matches Some(t) ==> {
            &&& forall|j: int|
                0 <= j < s.len() && (#[trigger] s[j]).number <= largest ==> t <= (s[j].time_sent
                    + delay) as u64
            &&& exists|j: int|
                0 <= j < s.len() && (#[trigger] s[j]).number <= largest && t == (s[j].time_sent
                    + delay) as u64
        },
    decreases s.len(),
{
    if s.len() > 0 {
        let t = s.drop_last();
        lemma_next_loss_time_earliest(t, largest, delay);
        let k = s.len() - 1;
        assert forall|j: int| 0 <= j < t.len() implies #[trigger] t[j] == s[j] by {}
        if let Some(prev) = next_loss_time(t, largest, delay) {
            let w = choose|j: int|
                0 <= j < t.len() && (#[trigger] t[j]).number <= largest && prev == (t[j].time_sent
                    + delay) as u64;
            assert(s[w] == t[w]);
        }
        assert(s[k] == s.last());
        if next_loss_time(t, largest, delay) is None && s.last().number > largest {
            assert forall|j: int| 0 <= j < s.len() implies (#[trigger] s[j]).number > largest by {
                if j < k {
                    assert(s[j] == t[j]);
                }
            }
        }
        if next_loss_time(t, largest, delay) is Some {
            assert(t[choose|j: int| 0 <= j < t.len() && (#[trigger] t[j]).number <= largest
                && next_loss_time(t, largest, delay)->0 == (t[j].time_sent + delay) as u64].number <= largest);
        }
        assert forall|j: int|
            0 <= j < s.len() && (#[trigger] s[j]).number <= largest implies next_loss_time(
            s,
            largest,
            delay,
        )->0 <= (s[j].time_sent + delay) as u64 by {
            if j < k {
                assert(s[j] == t[j]);
            }
        }
    }
}

/// Packets numbered above the largest acknowledged one, at the end of the
/// run, change no loss time.
pub proof fn lemma_next_loss_rest(s: Seq<SentPacket>, k: int, largest: u64, delay: u64)
    requires
        sent_sorted(s),
        0 <= k <= s.len(),
        k < s.len() ==> s[k].number > largest,
    ensures
        next_loss_time(s, largest, delay) == next_loss_time(s.take(k), largest, delay),
    decreases s.len() - k,
{
    if k < s.len() {
        let t = s.drop_last();
        assert(s.last().number > largest) by {
            if k < s.len() - 1 {
                assert(s[k].number < s[s.len() - 1].number);
            }
        }
        if k < s.len() - 1 {
            assert(t[k] == s[k]);
            assert forall|a: int, b: int| 0 <= a < b < t.len() implies (#[trigger] t[a]).number < (
            #[trigger] t[b]).number by {
                assert(t[a] == s[a] && t[b] == s[b]);
            }
        }
        lemma_next_loss_rest(t, k, largest, delay);
        assert(t.take(k) =~= s.take(k));
    } else {
        assert(s.take(k) =~= s);
    }
}


/// The header a packet of space `i` is sent with, numbered `number`.
pub open spec fn header_for(i: int, number: PacketNumber) -> HeaderModel {
    let cid = fake_cid_seq();
    if i == 0 {
        HeaderModel::Initial {
            dst_cid: cid,
            src_cid: cid,
            token: Seq::empty(),
            number,
            version: 1,
        }
    } else if i == 1 {
        HeaderModel::Long { ty: LongType::Handshake, dst_cid: cid, src_cid: cid, number, version: 1 }
    } else {
        HeaderModel::Short { spin: false, key_phase: false, dst_cid: cid, number }
    }
}

/// The connection ID both sides use, as bytes.
pub open spec fn fake_cid_seq() -> Seq<u8> {
    seq![
        0x30u8, 0x31u8, 0x32u8, 0x33u8, 0x34u8, 0x35u8, 0x36u8, 0x37u8, 0x38u8, 0x39u8, 0x61u8,
        0x62u8, 0x63u8, 0x64u8, 0x65u8, 0x66u8, 0x67u8, 0x68u8, 0x69u8, 0x6au8
    ]
}

/// The CRYPTO frame that stands for the handshake's hello: offset zero,
/// one byte of zero.
pub open spec fn hello_frame() -> Seq<u8> {
    seq![0x06u8, 0x00u8, 0x01u8, 0x00u8]
}

/// Two connections that differ at most in the receiving halves of their
/// streams.
pub open spec fn same_but_recv(a: Connection, b: Connection) -> bool {
    &&& a.side == b.side
    &&& a.state == b.state
    &&& a.path == b.path
    &&& a.spaces == b.spaces
    &&& a.highest_space == b.highest_space
    &&& a.timers == b.timers
    &&& a.pending_close == b.pending_close
    &&& a.app_limited == b.app_limited
    &&& a.streams.side == b.streams.side
    &&& a.streams.send@ == b.streams.send@
    &&& a.streams.next == b.streams.next
    &&& a.streams.pending == b.streams.pending
    &&& a.streams.events == b.streams.events
}

/// Two states of a space that differ at most in what was sent and lost.
pub open spec fn same_but_sent(a: PacketSpace, b: PacketSpace) -> bool {
    &&& a.pending == b.pending
    &&& a.next_packet_number == b.next_packet_number
    &&& a.largest_acked_packet == b.largest_acked_packet
    &&& a.hi == b.hi
    &&& a.ping_pending == b.ping_pending
    &&& a.immediate_ack_pending == b.immediate_ack_pending
    &&& a.pending_acks == b.pending_acks
}

/// A Connection whose space `i` changed only in what was sent and lost
/// looks the same to `poll_transmit` in that space.
pub proof fn lemma_space_unchanged(a: Connection, b: Connection, i: int, close: bool, now: u64)
    requires
        0 <= i < 3,
        same_but_sent(b.spaces@[i], a.spaces@[i]),
        b.streams == a.streams,
        b.highest_space == a.highest_space,
    ensures
        b.spec_space_can_send(i) == a.spec_space_can_send(i),
        b.composed(i, close) == a.composed(i, close),
        b.next_number(i) == a.next_number(i),
        b.number_ok(i) == a.number_ok(i),
        b.considered(i, close) == a.considered(i, close),
        forall|blocked: bool| b.reaches(i, close, blocked) == a.reaches(i, close, blocked),
        forall|p: ScheduledPacket| Connection::queued_for(p, b, i, close, now) == Connection::queued_for(p, a, i, close, now),
{
}

/// Three calls of `transmit_space`, one for each space in order, queue
/// the packets of the spaces they reach in that order, and number them.
pub proof fn lemma_poll_steps(
    c0: Connection,
    c1: Connection,
    c2: Connection,
    c3: Connection,
    close: bool,
    blocked: bool,
    now: u64,
    s0: bool,
    s1: bool,
    s2: bool,
)
    requires
        Connection::transmitted(c0, c1, 0, close, blocked, now, s0),
        Connection::transmitted(c1, c2, 1, close, blocked, now, s1),
        Connection::transmitted(c2, c3, 2, close, blocked, now, s2),
    ensures
        ({
            let n = c0.reached_below(3, close, blocked);
            let q = c0.path.sending_queue@;
            &&& c3.path.sending_queue@.len() == q.len() + n
            &&& c3.path.sending_queue@.take(q.len() as int) == q
            &&& forall|i: int| 0 <= i < 3 && #[trigger] c0.reaches(i, close, blocked) ==> Connection::queued_for(
                c3.path.sending_queue@[(q.len() + c0.reached_below(i, close, blocked)) as int],
                c0,
                i,
                close,
                now,
            )
            &&& forall|i: int| 0 <= i < 3 ==> #[trigger] c3.spaces@[i].next_packet_number
                == c0.spaces@[i].next_packet_number + if c0.reaches(i, close, blocked) {
                1int
            } else {
                0int
            }
            &&& (s0 || s1 || s2) == (n > 0)
            &&& close && n > 0 ==> !c3.pending_close
            &&& n == 0 ==> c3.pending_close == c0.pending_close
        }),
{
    reveal_with_fuel(Connection::reached_below, 4);
    lemma_space_unchanged(c0, c1, 1, close, now);
    lemma_space_unchanged(c0, c1, 2, close, now);
    lemma_space_unchanged(c1, c2, 2, close, now);
    lemma_space_unchanged(c0, c2, 2, close, now);
    let q = c0.path.sending_queue@;
    let q1 = c1.path.sending_queue@;
    let q2 = c2.path.sending_queue@;
    let q3 = c3.path.sending_queue@;
    assert(q1.take(q.len() as int) =~= q);
    assert(q2.take(q1.len() as int) =~= q1);
    assert(q3.take(q2.len() as int) =~= q2);
    assert(q2.take(q.len() as int) =~= q);
    assert(q3.take(q.len() as int) =~= q);
    if s0 {
        assert(q3[q.len() as int] == q1[q.len() as int]) by {
            assert(q3.take(q1.len() as int) =~= q1);
        }
    }
    if s1 {
        assert(q3[q1.len() as int] == q2[q1.len() as int]);
    }
    assert forall|i: int| 0 <= i < 3 implies #[trigger] c3.spaces@[i].next_packet_number
        == c0.spaces@[i].next_packet_number + if c0.reaches(i, close, blocked) {
        1int
    } else {
        0int
    } by {
        if i == 0 {
            assert(same_but_sent(c2.spaces@[0], c1.spaces@[0]));
            assert(same_but_sent(c3.spaces@[0], c2.spaces@[0]));
        } else if i == 1 {
            assert(same_but_sent(c3.spaces@[1], c2.spaces@[1]));
        }
    }
}

/// A header written by `poll_transmit` takes at most 64 bytes.
pub proof fn lemma_header_for_len(i: int, number: PacketNumber)
    ensures
        crate::packet::spec_header_encoding(header_for(i, number)).len() <= 64,
{
    crate::varint::lemma_be_bytes_len(1, 4);
    crate::varint::lemma_be_bytes_len(number.truncated(), number.spec_len());
    crate::varint::lemma_varint_len(0);
    crate::varint::lemma_varint_len(number.spec_len() as u64);
    assert(fake_cid_seq().len() == 20);
}

/// A QUIC connection, without its socket, clock or channels.
pub struct Connection {
    pub side: Side,
    pub state: State,
    pub path: NetworkPath,
    /// Packet number spaces: initial, handshake, 1-RTT
    pub spaces: [PacketSpace; 3],
    pub highest_space: SpaceId,
    pub timers: TimerTable,
    /// The streams, and the queue of events for the application
    pub streams: StreamsState,
    pub pending_close: bool,
    /// Whether the last `poll_transmit` call yielded no data because there was
    /// no outgoing application data.
    pub app_limited: bool,
}

impl Connection {
    /// The bytes and ack-eliciting packets tracked in the spaces are counted
    /// on the path.
    pub open spec fn in_flight_ok(&self) -> bool {
        &&& self.path.in_flight.bytes >= packets_size(self.spaces@[0].sent_packets@) + packets_size(
            self.spaces@[1].sent_packets@,
        ) + packets_size(self.spaces@[2].sent_packets@)
        &&& self.path.in_flight.ack_eliciting >= packets_ack_eliciting(self.spaces@[0].sent_packets@)
            + packets_ack_eliciting(self.spaces@[1].sent_packets@) + packets_ack_eliciting(
            self.spaces@[2].sent_packets@,
        )
    }

    /// The connection's parts are well formed: the streams, the spaces'
    /// packets in order of number, no acknowledgement pending, the RTT
    /// estimate bounded, and the in-flight counts.
    pub open spec fn wf(&self) -> bool {
        &&& self.streams.wf()
        &&& self.streams.side == self.side
        &&& forall|i: int|
            0 <= i < 3 ==> {
                &&& (#[trigger] self.spaces@[i]).pending_acks.wf()
                &&& sent_sorted(self.spaces@[i].sent_packets@)
                &&& self.spaces@[i].pending_acks.ranges@.len() == 0
                &&& self.spaces@[i].rx_packet < space::PACKET_NUMBER_LIMIT
            }
        &&& self.path.rtt.bounded()
        &&& self.in_flight_ok()
        &&& forall|i: int, j: int|
            0 <= i < 3 && 0 <= j < self.spaces@[i].sent_packets@.len() ==> (#[trigger] self.spaces@[i].sent_packets@[j]).time_sent
                < TIME_LIMIT
    }

    /// A connection on `side`, created at `now`; a client queues its hello.
    pub fn new(side: Side, now: u64) -> (r: Self)
        ensures
            r.wf(),
            r.side == side,
            r.state is Handshake,
            r.highest_space == SpaceId::Initial,
            r.streams.side == side,
            r.streams.events@.len() == 0,
            r.pending_close == false,
            r.app_limited == false,
            r.spaces@[0].pending.hello == (side is Client),
            forall|i: int| 0 <= i < 3 ==> (#[trigger] r.spaces@[i]).next_packet_number == 0,
            forall|i: int| 0 <= i < 3 ==> (#[trigger] r.spaces@[i]).sent_packets@.len() == 0,
            forall|i: int| 0 <= i < 9 ==> (#[trigger] r.timers.data@[i]) is None,
            r.path.sending_queue@.len() == 0,
    {
        let mut this = Connection {
            side,
            state: State::Handshake,
            path: NetworkPath::new(now),
            spaces: [PacketSpace::new(now), PacketSpace::new(now), PacketSpace::new(now)],
            highest_space: SpaceId::Initial,
            timers: TimerTable::new(),
            streams: StreamsState::new(side),
            pending_close: false,
            app_limited: false,
        };
        if side.is_client() {
            // Kick off the connection
            this.spaces[0].pending.hello = true;
        }
        this
    }

    /// Queues an event telling the application the connection was lost.
    pub fn error(&mut self, error: ConnectionError)
        ensures
            final(self).streams.events@ == old(self).streams.events@.push(
                Event::ConnectionLost(error),
            ),
            final(self).streams.send@ == old(self).streams.send@,
            final(self).streams.recv@ == old(self).streams.recv@,
            final(self).streams.next == old(self).streams.next,
            final(self).streams.pending == old(self).streams.pending,
            final(self).streams.side == old(self).streams.side,
            final(self).state == old(self).state,
            final(self).spaces == old(self).spaces,
            final(self).path == old(self).path,
            final(self).timers == old(self).timers,
            final(self).side == old(self).side,
            final(self).highest_space == old(self).highest_space,
            final(self).pending_close == old(self).pending_close,
            final(self).app_limited == old(self).app_limited,
    {
        self.streams.events.push(Event::ConnectionLost(error));
    }

    /// Takes the oldest event queued for the application.
    pub fn poll_event(&mut self) -> (r: Option<Event>)
        ensures
            old(self).streams.events@.len() == 0 ==> r is None && final(self).streams.events@
                == old(self).streams.events@,
            old(self).streams.events@.len() > 0 ==> r == Some(old(self).streams.events@[0])
                && final(self).streams.events@ == old(self).streams.events@.drop_first(),
            final(self).state == old(self).state,
            final(self).spaces == old(self).spaces,
            final(self).path == old(self).path,
            final(self).timers == old(self).timers,
            final(self).streams.send@ == old(self).streams.send@,
            final(self).streams.recv@ == old(self).streams.recv@,
    {
        if self.streams.events.len() == 0 {
            None
        } else {
            let e = self.streams.events.remove(0);
            assert(self.streams.events@ =~= old(self).streams.events@.drop_first());
            Some(e)
        }
    }

    fn close_common(&mut self)
        ensures
            forall|i: int| 0 <= i < 9 ==> (#[trigger] final(self).timers.data@[i]) is None,
            final(self).state == old(self).state,
            final(self).spaces == old(self).spaces,
            final(self).path == old(self).path,
            final(self).streams == old(self).streams,
            final(self).side == old(self).side,
            final(self).highest_space == old(self).highest_space,
            final(self).pending_close == old(self).pending_close,
            final(self).app_limited == old(self).app_limited,
    {
        let mut i: usize = 0;
        while i < 9
            invariant
                i <= 9,
                self.timers.data@.len() == 9,
                forall|j: int| 0 <= j < i ==> (#[trigger] self.timers.data@[j]) is None,
                self.state == old(self).state,
                self.spaces == old(self).spaces,
                self.path == old(self).path,
                self.streams == old(self).streams,
                self.side == old(self).side,
                self.highest_space == old(self).highest_space,
                self.pending_close == old(self).pending_close,
                self.app_limited == old(self).app_limited,
            decreases 9 - i,
        {
            self.timers.stop(Timer::from_index(i));
            i += 1;
        }
    }

    fn set_close_timer(&mut self, now: u64)
        requires
            now < TIME_LIMIT,
        ensures
            final(self).timers.data@ == old(self).timers.data@.update(2, Some((now + CLOSE_TIMEOUT) as u64)),
            final(self).state == old(self).state,
            final(self).spaces == old(self).spaces,
            final(self).path == old(self).path,
            final(self).streams == old(self).streams,
            final(self).side == old(self).side,
            final(self).highest_space == old(self).highest_space,
            final(self).pending_close == old(self).pending_close,
            final(self).app_limited == old(self).app_limited,
    {
        self.timers.set(Timer::Close, now + CLOSE_TIMEOUT);
    }

    /// Close a connection immediately, with the application's code and
    /// reason; the close is to be sent, and the connection drained after
    /// `CLOSE_TIMEOUT`. A connection already closed is left as it is.
    pub fn close(&mut self, now: u64, error_code: u64, reason: Bytes)
        requires
            now < TIME_LIMIT,
        ensures
            old(self).state.spec_is_closed() ==> *final(self) == *old(self),
            !old(self).state.spec_is_closed() ==> {
                &&& final(self).state == State::Closed(
                    ConnectionClose::Application(ApplicationClose { error_code, reason }),
                )
                &&& final(self).pending_close
                &&& forall|i: int|
                    0 <= i < 9 && i != 2 ==> (#[trigger] final(self).timers.data@[i]) is None
                &&& final(self).timers.data@[2] == Some((now + CLOSE_TIMEOUT) as u64)
                &&& final(self).spaces == old(self).spaces
                &&& final(self).path == old(self).path
                &&& final(self).streams == old(self).streams
                &&& final(self).side == old(self).side
                &&& final(self).highest_space == old(self).highest_space
                &&& final(self).app_limited == old(self).app_limited
            },
    {
        let was_closed = self.state.is_closed();
        if !was_closed {
            let reason = ConnectionClose::Application(ApplicationClose { error_code, reason });
            self.close_common();
            self.set_close_timer(now);
            self.pending_close = true;
            self.state = State::Closed(reason);
        }
    }

    /// Terminate the connection instantly, without sending a close packet
    fn kill(&mut self, reason: ConnectionError)
        ensures
            final(self).state is Drained,
            forall|i: int| 0 <= i < 9 ==> (#[trigger] final(self).timers.data@[i]) is None,
            final(self).streams.events@ == old(self).streams.events@.push(
                Event::ConnectionLost(reason),
            ),
            final(self).streams.send@ == old(self).streams.send@,
            final(self).streams.recv@ == old(self).streams.recv@,
            final(self).streams.next == old(self).streams.next,
            final(self).streams.pending == old(self).streams.pending,
            final(self).streams.side == old(self).streams.side,
            final(self).spaces == old(self).spaces,
            final(self).path == old(self).path,
            final(self).side == old(self).side,
            final(self).highest_space == old(self).highest_space,
            final(self).pending_close == old(self).pending_close,
            final(self).app_limited == old(self).app_limited,
    {
        self.close_common();
        self.error(reason);
        self.state = State::Drained;
    }

    /// What a space has to send; the data space also sends stream data.
    pub open spec fn spec_space_can_send(&self, i: int) -> SendableFrames {
        let base = self.spaces@[i].spec_can_send();
        if i == 2 {
            SendableFrames { acks: base.acks, other: base.other || self.streams.spec_can_send_stream_data() }
        } else {
            base
        }
    }

    fn space_can_send(&self, space_id: SpaceId) -> (r: SendableFrames)
        ensures
            r == self.spec_space_can_send(space_id.spec_index() as int),
    {
        let i = space_id.index();
        let mut can_send = self.spaces[i].can_send();
        if i == 2 {
            can_send.other = can_send.other || self.streams.can_send_stream_data();
        }
        can_send
    }


    /// Takes the packet at the head of the sending queue, to be sent.
    pub fn pop_scheduled(&mut self) -> (r: Option<ScheduledPacket>)
        requires
            old(self).wf(),
        ensures
            final(self).wf(),
            match r {
                Some(p) => old(self).path.sending_queue@.len() > 0 && p == old(self).path.sending_queue@[0]
                    && final(self).path.sending_queue@ == old(self).path.sending_queue@.drop_first(),
                None => old(self).path.sending_queue@.len() == 0,
            },
            final(self).state == old(self).state,
            final(self).spaces == old(self).spaces,
            final(self).timers == old(self).timers,
            final(self).streams == old(self).streams,
            final(self).path.in_flight == old(self).path.in_flight,
    {
        self.path.pop_scheduled()
    }

    /// Records a packet sent at `send_time`: it is in flight on the path and
    /// in its packet number space.
    fn record_sent(&mut self, meta_info: SentPacket, send_time: u64) -> (r: PostSentInfo)
        requires
            old(self).wf(),
            send_time < TIME_LIMIT,
            old(self).path.in_flight.bytes + meta_info.size <= u64::MAX,
            old(self).path.in_flight.ack_eliciting < u64::MAX,
            old(self).spaces@[meta_info.space_id.spec_index() as int].in_flight + meta_info.size
                <= u64::MAX,
            old(self).spaces@[meta_info.space_id.spec_index() as int].unacked_non_ack_eliciting_tail
                < u64::MAX,
        ensures
            final(self).wf(),
            r == (PostSentInfo { ack_eliciting: meta_info.ack_eliciting, send_time }),
            final(self).spaces@[meta_info.space_id.spec_index() as int].sent_packets@ == sent_insert(
                old(self).spaces@[meta_info.space_id.spec_index() as int].sent_packets@,
                SentPacket { time_sent: send_time, ..meta_info },
            ),
            final(self).path.in_flight.bytes == old(self).path.in_flight.bytes + meta_info.size,
            final(self).state == old(self).state,
            final(self).streams == old(self).streams,
            final(self).timers == old(self).timers,
    {
        let ghost i = meta_info.space_id.spec_index() as int;
        let ghost old_spaces = self.spaces@;
        let ghost p = SentPacket { time_sent: send_time, ..meta_info };
        let info = self.path.on_sent(&mut self.spaces, meta_info, send_time);
        proof {
            lemma_packets_sent_insert(old_spaces[i].sent_packets@, p);
            assert forall|a: int, b: int|
                0 <= a < 3 && 0 <= b < self.spaces@[a].sent_packets@.len() implies (
                #[trigger] self.spaces@[a].sent_packets@[b]).time_sent < TIME_LIMIT by {
                if a == i {
                    let s = old_spaces[i].sent_packets@;
                    let k = crate::connection::space::sent_lower_bound(s, p.number) as int;
                    crate::connection::space::lemma_lower_bound_facts(s, p.number);
                    if k < s.len() && s[k].number == p.number {
                        assert(self.spaces@[a].sent_packets@ == s.update(k, p));
                    } else {
                        assert(self.spaces@[a].sent_packets@ == s.insert(k, p));
                        if b > k {
                            assert(self.spaces@[a].sent_packets@[b] == s[b - 1]);
                        }
                    }
                }
            }
            assert forall|a: int| 0 <= a < 3 implies {
                &&& (#[trigger] self.spaces@[a]).pending_acks.wf()
                &&& sent_sorted(self.spaces@[a].sent_packets@)
                &&& self.spaces@[a].pending_acks.ranges@.len() == 0
            } by {
                if a != i {
                    assert(self.spaces@[a] == old_spaces[a]);
                }
            }
        }
        info
    }

    /// Records a packet sent at `send_time`: it is in flight on the path and
    /// in its packet number space; an ack-eliciting one arms the loss
    /// detection timer.
    pub fn on_packet_sent(&mut self, meta_info: SentPacket, send_time: u64, now: u64) -> (r: PostSentInfo)
        requires
            old(self).wf(),
            send_time < TIME_LIMIT,
            old(self).path.in_flight.bytes + meta_info.size <= u64::MAX,
            old(self).path.in_flight.ack_eliciting < u64::MAX,
            old(self).spaces@[meta_info.space_id.spec_index() as int].in_flight + meta_info.size
                <= u64::MAX,
            old(self).spaces@[meta_info.space_id.spec_index() as int].unacked_non_ack_eliciting_tail
                < u64::MAX,
        ensures
            final(self).wf(),
            r == (PostSentInfo { ack_eliciting: meta_info.ack_eliciting, send_time }),
            final(self).path.in_flight.bytes == old(self).path.in_flight.bytes + meta_info.size,
            final(self).state == old(self).state,
            final(self).streams == old(self).streams,
            !meta_info.ack_eliciting ==> final(self).timers == old(self).timers,
    {
        let info = self.record_sent(meta_info, send_time);
        if info.ack_eliciting {
            self.set_loss_detection_timer(now);
        }
        info
    }


    /// Forgets the packets of an early space, taking them out of the path's
    /// count, and arms the loss detection timer again.
    pub fn discard_space(&mut self, now: u64, space_id: SpaceId)
        requires
            old(self).wf(),
            space_id != SpaceId::Data,
        ensures
            final(self).wf(),
            ({
                let i = space_id.spec_index() as int;
                let sent = old(self).spaces@[i].sent_packets@;
                let first = old(self).path.first_packet;
                &&& final(self).spaces@[i] == (PacketSpace {
                    loss_time: None,
                    in_flight: 0,
                    sent_packets: final(self).spaces@[i].sent_packets,
                    ..old(self).spaces@[i]
                })
                &&& final(self).spaces@[i].sent_packets@.len() == 0
                &&& forall|j: int| 0 <= j < 3 && j != i ==> #[trigger] final(self).spaces@[j] == old(
                    self,
                ).spaces@[j]
                &&& final(self).path.in_flight.bytes == old(self).path.in_flight.bytes
                    - counted_size(sent, first)
                &&& final(self).path.in_flight.ack_eliciting == old(self).path.in_flight.ack_eliciting
                    - counted_ack_eliciting(sent, first)
            }),
            final(self).timers.data@ == final(self).loss_timer_after(old(self).timers.data@),
            final(self).path.rtt == old(self).path.rtt,
            final(self).path.first_packet == old(self).path.first_packet,
            final(self).path.congestion == old(self).path.congestion,
            final(self).path.sending_queue@ == old(self).path.sending_queue@,
            final(self).state == old(self).state,
            final(self).streams == old(self).streams,
            final(self).side == old(self).side,
            final(self).highest_space == old(self).highest_space,
            final(self).pending_close == old(self).pending_close,
            final(self).app_limited == old(self).app_limited,
    {
        let i = space_id.index();
        let ghost old_spaces = self.spaces@;
        self.spaces[i].loss_time = None;
        self.spaces[i].in_flight = 0;
        let mut sent: Vec<SentPacket> = Vec::new();
        core::mem::swap(&mut sent, &mut self.spaces[i].sent_packets);
        let ghost s = sent@;
        let ghost first = self.path.first_packet;
        let ghost others = packets_size(old_spaces[(i + 1) % 3].sent_packets@) + packets_size(
            old_spaces[(i + 2) % 3].sent_packets@,
        );
        let ghost others_ack = packets_ack_eliciting(old_spaces[(i + 1) % 3].sent_packets@)
            + packets_ack_eliciting(old_spaces[(i + 2) % 3].sent_packets@);
        proof {
            assert(s.skip(0) =~= s);
            assert(s.take(0) =~= Seq::<SentPacket>::empty());
        }
        let mut k: usize = 0;
        while k < sent.len()
            invariant
                sent@ == s,
                k <= s.len(),
                i < 3,
                first == self.path.first_packet,
                self.path.in_flight.bytes >= packets_size(s.skip(k as int)) + others,
                self.path.in_flight.ack_eliciting >= packets_ack_eliciting(s.skip(k as int)) + others_ack,
                self.path.in_flight.bytes == old(self).path.in_flight.bytes - counted_size(
                    s.take(k as int),
                    first,
                ),
                self.path.in_flight.ack_eliciting == old(self).path.in_flight.ack_eliciting
                    - counted_ack_eliciting(s.take(k as int), first),
                self.path.rtt == old(self).path.rtt,
                self.path.sending_queue@ == old(self).path.sending_queue@,
                self.path.congestion == old(self).path.congestion,
                self.spaces@ == old(self).spaces@.update(
                    i as int,
                    PacketSpace {
                        loss_time: None,
                        in_flight: 0,
                        sent_packets: self.spaces@[i as int].sent_packets,
                        ..old_spaces[i as int]
                    },
                ),
                self.spaces@[i as int].sent_packets@.len() == 0,
                self.state == old(self).state,
                self.streams == old(self).streams,
                self.timers == old(self).timers,
                self.side == old(self).side,
                self.highest_space == old(self).highest_space,
                self.pending_close == old(self).pending_close,
                self.app_limited == old(self).app_limited,
            decreases s.len() - k,
        {
            proof {
                lemma_packets_take(s, k as int, first);
            }
            let pn = sent[k].number;
            self.path.remove_in_flight(pn, &sent[k]);
            k += 1;
        }
        proof {
            assert(s.take(s.len() as int) =~= s);
            assert(s.skip(s.len() as int) =~= Seq::<SentPacket>::empty());
        }
        self.set_loss_detection_timer(now);
    }


    /// The loss delay: nine eighths of the conservative round trip, but at
    /// least the timer granularity.
    pub open spec fn spec_loss_delay(&self) -> u64 {
        let d = (self.path.rtt.spec_conservative() * 9 / 8) as u64;
        if d >= TIMER_GRANULARITY {
            d
        } else {
            TIMER_GRANULARITY
        }
    }

    /// Packets sent at or before this time are deemed lost at `now`.
    pub open spec fn lost_send_before(&self, now: u64) -> u64 {
        let d = self.spec_loss_delay();
        if now >= d {
            (now - d) as u64
        } else {
            now
        }
    }

    /// No packet of the space numbered up to its largest acknowledged one
    /// is deemed lost at `now`: neither sent at or before
    /// `lost_send_before(now)`, nor `PACKET_THRESHOLD` or more numbers below
    /// the largest acknowledged one. Sending lost packets again is not
    /// supported.
    pub open spec fn none_lost(&self, i: int, now: u64) -> bool {
        self.spaces@[i].largest_acked_packet matches Some(la) ==> forall|j: int|
            0 <= j < self.spaces@[i].sent_packets@.len() && (#[trigger] self.spaces@[i].sent_packets@[j]).number
                <= la ==> self.spaces@[i].sent_packets@[j].time_sent > self.lost_send_before(now)
                && self.spaces@[i].sent_packets@[j].number + PACKET_THRESHOLD > la
    }

    /// Whether no packet of space `space_id` would be deemed lost at `now`:
    /// see `none_lost`.
    fn space_loss_free(&self, now: u64, space_id: SpaceId) -> (r: bool)
        requires
            self.wf(),
        ensures
            r == self.none_lost(space_id.spec_index() as int, now),
    {
        let i = space_id.index();
        let la = match self.spaces[i].largest_acked_packet {
            Some(pn) => pn,
            None => {
                return true;
            },
        };
        let conservative = self.path.rtt.conservative();
        let loss_delay = conservative * 9 / 8;
        let delay = if loss_delay >= TIMER_GRANULARITY {
            loss_delay
        } else {
            TIMER_GRANULARITY
        };
        let lost_send_before = if now >= delay {
            now - delay
        } else {
            now
        };
        let ghost s = self.spaces@[i as int].sent_packets@;
        let n = self.spaces[i].sent_packets.len();
        let mut k: usize = 0;
        while k < n
            invariant
                i < 3,
                i == space_id.spec_index(),
                s == self.spaces@[i as int].sent_packets@,
                n == s.len(),
                k <= n,
                lost_send_before == self.lost_send_before(now),
                self.spaces@[i as int].largest_acked_packet == Some(la),
                forall|j: int|
                    0 <= j < k && (#[trigger] s[j]).number <= la ==> s[j].time_sent > lost_send_before
                        && s[j].number + PACKET_THRESHOLD > la,
            decreases n - k,
        {
            let p = &self.spaces[i].sent_packets[k];
            if p.number <= la && (p.time_sent <= lost_send_before || la - p.number >= PACKET_THRESHOLD) {
                assert(self.spaces@[i as int].sent_packets@[k as int].number <= la);
                return false;
            }
            k += 1;
        }
        true
    }

    /// Whether no packet of any space would be deemed lost at `now`, which
    /// the loss detection timer needs.
    pub fn loss_free(&self, now: u64) -> (r: bool)
        requires
            self.wf(),
        ensures
            r == forall|i: int| 0 <= i < 3 ==> #[trigger] self.none_lost(i, now),
    {
        let a = self.space_loss_free(now, SpaceId::Initial);
        let b = self.space_loss_free(now, SpaceId::Handshake);
        let c = self.space_loss_free(now, SpaceId::Data);
        proof {
            if a && b && c {
                assert forall|i: int| 0 <= i < 3 implies #[trigger] self.none_lost(i, now) by {
                    if i == 0 {
                    } else if i == 1 {
                    } else {
                    }
                }
            }
        }
        a && b && c
    }

    /// Detects the lost packets of a space: with nothing acknowledged there
    /// is no loss time; otherwise the loss time is the earliest time a
    /// packet up to the largest acknowledged one is deemed lost.
    pub fn detect_lost_packets(&mut self, now: u64, space_id: SpaceId)
        requires
            old(self).wf(),
            old(self).none_lost(space_id.spec_index() as int, now),
        ensures
            final(self).wf(),
            ({
                let i = space_id.spec_index() as int;
                &&& final(self).spaces@ == old(self).spaces@.update(
                    i,
                    PacketSpace {
                        loss_time: match old(self).spaces@[i].largest_acked_packet {
                            None => None,
                            Some(la) => next_loss_time(
                                old(self).spaces@[i].sent_packets@,
                                la,
                                old(self).spec_loss_delay(),
                            ),
                        },
                        ..old(self).spaces@[i]
                    },
                )
            }),
            ({
                let i = space_id.spec_index() as int;
                let sent = old(self).spaces@[i].sent_packets@;
                let delay = old(self).spec_loss_delay();
                match old(self).spaces@[i].largest_acked_packet {
                    None => final(self).spaces@[i].loss_time is None,
                    Some(la) => {
                        &&& final(self).spaces@[i].loss_time is None <==> forall|j: int|
                            0 <= j < sent.len() ==> (#[trigger] sent[j]).number > la
                        &&& final(self).spaces@[i].loss_time matches Some(t) ==> {
                            &&& forall|j: int|
                                0 <= j < sent.len() && (#[trigger] sent[j]).number <= la ==> t <= (
                                sent[j].time_sent + delay) as u64
                            &&& exists|j: int|
                                0 <= j < sent.len() && (#[trigger] sent[j]).number <= la && t == (
                                sent[j].time_sent + delay) as u64
                        }
                    },
                }
            }),
            final(self).path == old(self).path,
            final(self).timers == old(self).timers,
            final(self).state == old(self).state,
            final(self).streams == old(self).streams,
            final(self).side == old(self).side,
            final(self).highest_space == old(self).highest_space,
            final(self).pending_close == old(self).pending_close,
            final(self).app_limited == old(self).app_limited,
    {
        let i = space_id.index();
        proof {
            if let Some(la) = old(self).spaces@[i as int].largest_acked_packet {
                lemma_next_loss_time_earliest(
                    old(self).spaces@[i as int].sent_packets@,
                    la,
                    old(self).spec_loss_delay(),
                );
            }
        }
        let largest_acked = match self.spaces[i].largest_acked_packet {
            Some(pn) => pn,
            None => {
                self.spaces[i].loss_time = None;
                return;
            },
        };
        let conservative = self.path.rtt.conservative();
        let loss_delay = conservative * 9 / 8;
        let delay = if loss_delay >= TIMER_GRANULARITY {
            loss_delay
        } else {
            TIMER_GRANULARITY
        };
        let lost_send_before = if now >= delay {
            now - delay
        } else {
            now
        };
        let mut next_loss: Option<u64> = None;
        let ghost s = self.spaces@[i as int].sent_packets@;
        let n = self.spaces[i].sent_packets.len();
        let mut k: usize = 0;
        let mut done = false;
        proof {
            assert(s.take(0) =~= Seq::<SentPacket>::empty());
        }
        while !done && k < n
            invariant
                i < 3,
                s == self.spaces@[i as int].sent_packets@,
                n == s.len(),
                k <= n,
                sent_sorted(s),
                self.wf(),
                delay == self.spec_loss_delay(),
                lost_send_before == self.lost_send_before(now),
                self.spaces@[i as int].largest_acked_packet == Some(largest_acked),
                self.none_lost(i as int, now),
                next_loss == next_loss_time(s.take(k as int), largest_acked, delay),
                done ==> k < n && s[k as int].number > largest_acked,
                self == old(self),
            decreases n - k + (if done {
                0int
            } else {
                1int
            }),
        {
            let number = self.spaces[i].sent_packets[k].number;
            let time_sent = self.spaces[i].sent_packets[k].time_sent;
            if number > largest_acked {
                done = true;
            } else {
                proof {
                    lemma_packets_take(s, k as int, None);
                    assert(s[k as int].time_sent < TIME_LIMIT);
                }
                // Packets up to the largest acknowledged one are not lost:
                // the first is deemed lost when its delay runs out.
                let candidate = time_sent + delay;
                next_loss = match next_loss {
                    None => Some(candidate),
                    Some(prev) => Some(
                        if candidate < prev {
                            candidate
                        } else {
                            prev
                        },
                    ),
                };
                k += 1;
            }
        }
        proof {
            lemma_next_loss_rest(s, k as int, largest_acked, delay);
        }
        self.spaces[i].loss_time = next_loss;
    }

    /// Whether `new` differs from `old` only in the loss times of its
    /// spaces.
    pub open spec fn only_loss_times_changed(old: Connection, new: Connection) -> bool {
        &&& forall|i: int|
            0 <= i < 3 ==> (#[trigger] new.spaces@[i]) == (PacketSpace {
                loss_time: new.spaces@[i].loss_time,
                ..old.spaces@[i]
            })
        &&& new.path == old.path
        &&& new.timers == old.timers
        &&& new.state == old.state
        &&& new.streams == old.streams
        &&& new.side == old.side
        &&& new.highest_space == old.highest_space
        &&& new.pending_close == old.pending_close
        &&& new.app_limited == old.app_limited
    }

    /// The loss time loss detection computes for space `i`: when its
    /// oldest packet sent before the largest acknowledged one counts as lost.
    pub open spec fn fresh_loss_time(&self, i: int) -> Option<u64> {
        match self.spaces@[i].largest_acked_packet {
            None => None,
            Some(la) => next_loss_time(self.spaces@[i].sent_packets@, la, self.spec_loss_delay()),
        }
    }

    /// Whether a loss-detection timeout looks again at space `i`: the
    /// space with the earliest loss time, or, with none, each space with
    /// bytes in flight.
    pub open spec fn timeout_detects(&self, i: int) -> bool {
        match self.spec_loss_time_and_space() {
            Some((_, s)) => s.spec_index() == i,
            None => self.spaces@[i].in_flight > 0,
        }
    }

    /// Space `i` once a loss-detection timeout looked at it, or not.
    pub open spec fn after_detection(&self, i: int, detected: bool) -> PacketSpace {
        PacketSpace {
            loss_time: if detected {
                self.fresh_loss_time(i)
            } else {
                self.spaces@[i].loss_time
            },
            ..self.spaces@[i]
        }
    }

    /// Runs loss detection on a space that has bytes in flight.
    fn detect_if_in_flight(&mut self, now: u64, space_id: SpaceId)
        requires
            old(self).wf(),
            forall|i: int| 0 <= i < 3 ==> #[trigger] old(self).none_lost(i, now),
        ensures
            final(self).wf(),
            forall|i: int| 0 <= i < 3 ==> #[trigger] final(self).none_lost(i, now),
            Self::only_loss_times_changed(*old(self), *final(self)),
            forall|i: int|
                0 <= i < 3 ==> #[trigger] final(self).spaces@[i] == old(self).after_detection(
                    i,
                    i == space_id.spec_index() && old(self).spaces@[i].in_flight > 0,
                ),
    {
        let i = space_id.index();
        if self.spaces[i].in_flight > 0 {
            self.detect_lost_packets(now, space_id);
            assert forall|j: int| 0 <= j < 3 implies #[trigger] self.none_lost(j, now) by {
                assert(old(self).none_lost(j, now));
            }
        }
    }

    /// Handle loss-detection timeout by running time-threshold loss processing
    /// and resetting related timers.
    #[verifier::spinoff_prover]
    #[verifier::rlimit(40)]
    pub fn on_loss_detection_timeout(&mut self, now: u64)
        requires
            old(self).wf(),
            forall|i: int| 0 <= i < 3 ==> #[trigger] old(self).none_lost(i, now),
        ensures
            final(self).wf(),
            final(self).path == old(self).path,
            final(self).state == old(self).state,
            final(self).streams == old(self).streams,
            forall|i: int|
                0 <= i < 3 ==> #[trigger] final(self).spaces@[i] == old(self).after_detection(
                    i,
                    old(self).timeout_detects(i),
                ),
            final(self).timers.data@ == final(self).loss_timer_after(old(self).timers.data@),
    {
        if let Some((_, space_id)) = self.loss_time_and_space() {
            self.detect_lost_packets(now, space_id);
        } else {
            // Probe timeout: look at each space with bytes in flight
            self.detect_if_in_flight(now, SpaceId::Initial);
            let ghost mid = *self;
            self.detect_if_in_flight(now, SpaceId::Handshake);
            let ghost mid2 = *self;
            self.detect_if_in_flight(now, SpaceId::Data);
            assert forall|i: int| 0 <= i < 3 implies #[trigger] self.spaces@[i] == old(
                self,
            ).after_detection(i, old(self).timeout_detects(i)) by {
                assert(mid.spaces@[i] == old(self).after_detection(i, i == 0 && old(self).spaces@[i].in_flight > 0));
                assert(mid2.spaces@[i] == mid.after_detection(i, i == 1 && mid.spaces@[i].in_flight > 0));
                assert(self.spaces@[i] == mid2.after_detection(i, i == 2 && mid2.spaces@[i].in_flight > 0));
            }
        }
        self.set_loss_detection_timer(now);
    }

    /// Dispatch timeout handling by timer type: loss detection, the end of
    /// the close timeout, and the end of the ACK delay.
    pub fn handle_timeout(&mut self, timer: Timer, now: u64)
        requires
            old(self).wf(),
            timer == Timer::LossDetection ==> forall|i: int|
                0 <= i < 3 ==> #[trigger] old(self).none_lost(i, now),
        ensures
            final(self).wf(),
            final(self).streams == old(self).streams,
            final(self).path == old(self).path,
            match timer {
                Timer::LossDetection => {
                    &&& final(self).state == old(self).state
                    &&& final(self).timers.data@ == final(self).loss_timer_after(
                        old(self).timers.data@,
                    )
                    &&& forall|i: int|
                        0 <= i < 3 ==> #[trigger] final(self).spaces@[i] == old(
                            self,
                        ).after_detection(i, old(self).timeout_detects(i))
                },
                Timer::Close => final(self).state is Drained && final(self).spaces == old(self).spaces
                    && final(self).timers == old(self).timers,
                Timer::MaxAckDelay => {
                    &&& final(self).state == old(self).state
                    &&& final(self).timers == old(self).timers
                    &&& final(self).spaces@ == old(self).spaces@.update(
                        2,
                        PacketSpace {
                            pending_acks: PendingAcks {
                                immediate_ack_required: old(
                                    self,
                                ).spaces@[2].pending_acks.ack_eliciting_since_last_ack_sent > 0,
                                ..old(self).spaces@[2].pending_acks
                            },
                            ..old(self).spaces@[2]
                        },
                    )
                },
                _ => *final(self) == *old(self),
            },
    {
        match timer {
            Timer::LossDetection => self.on_loss_detection_timeout(now),
            Timer::Close => {
                self.state = State::Drained;
            },
            Timer::MaxAckDelay => {
                // This timer is only armed in the Data space
                self.spaces[2].pending_acks.on_ack_delay_timeout();
            },
            _ => {},
        }
    }


    /// Whether the connection has a close to send, if it is closed.
    pub open spec fn closing(&self) -> bool {
        (self.state is Draining || self.state is Closed) && self.pending_close
    }

    /// Whether the path's congestion window is full.
    pub open spec fn congestion_blocked(&self) -> bool {
        self.path.in_flight.bytes >= self.path.congestion.window
    }

    /// Whether `poll_transmit` composes a packet for space `i`: it has
    /// something to send, or it is the highest space and a close is due;
    /// and no ack-eliciting packet is held back by the congestion window.
    pub open spec fn reaches(&self, i: int, close: bool, blocked: bool) -> bool {
        let cs = self.spec_space_can_send(i);
        &&& !(!cs.acks && !cs.other && !(close && self.highest_space.spec_index() == i))
        &&& !(cs.other && blocked)
    }

    /// The packet number a space writes for its next packet.
    pub open spec fn next_number(&self, i: int) -> PacketNumber {
        crate::packet::spec_new(
            self.spaces@[i].next_packet_number,
            match self.spaces@[i].largest_acked_packet {
                Some(la) => la,
                None => 0,
            },
        )
    }

    /// A space's next packet number can be written: it lies below the
    /// limit, at or above the largest acknowledged one, within a window of
    /// 32 bits of it.
    pub open spec fn number_ok(&self, i: int) -> bool {
        let n = self.spaces@[i].next_packet_number;
        let la: u64 = match self.spaces@[i].largest_acked_packet {
            Some(la) => la,
            None => 0,
        };
        &&& n < space::PACKET_NUMBER_LIMIT
        &&& la <= n
        &&& (n - la) * 2 < 0x1_0000_0000
    }

    /// The bytes of the packet composed for space `i`: its header, and the
    /// hello if one is due and no close is.
    pub open spec fn composed(&self, i: int, close: bool) -> Seq<u8> {
        crate::packet::spec_header_encoding(header_for(i, self.next_number(i))) + if !close
            && self.spaces@[i].pending.hello {
            hello_frame()
        } else {
            Seq::empty()
        }
    }

    /// Writes the frames of a packet of an early space: the hello, if due.
    fn populate_packet(&mut self, space_id: SpaceId, out: &mut Vec<u8>) -> (r: ThinRetransmits)
        requires
            old(self).wf(),
            space_id != SpaceId::Data,
        ensures
            final(self).wf(),
            ({
                let i = space_id.spec_index() as int;
                let hello = old(self).spaces@[i].pending.hello;
                &&& final(out)@ == old(out)@ + if hello {
                    hello_frame()
                } else {
                    Seq::empty()
                }
                &&& final(self).spaces@ == old(self).spaces@.update(
                    i,
                    PacketSpace {
                        pending: Retransmits { hello: false, ..old(self).spaces@[i].pending },
                        hi: old(self).spaces@[i].hi || hello,
                        ..old(self).spaces@[i]
                    },
                )
                &&& hello ==> (r.spec_get() matches Some(x) && x.hello && x.reset_stream@.len() == 0
                    && x.stop_sending@.len() == 0)
                &&& !hello ==> r.spec_get() is None
            }),
            final(self).path == old(self).path,
            final(self).timers == old(self).timers,
            final(self).state == old(self).state,
            final(self).streams == old(self).streams,
            final(self).side == old(self).side,
            final(self).highest_space == old(self).highest_space,
            final(self).pending_close == old(self).pending_close,
            final(self).app_limited == old(self).app_limited,
    {
        let i = space_id.index();
        let mut retransmits = ThinRetransmits::new();
        // The hello, as a CRYPTO frame, drives the handshake
        if self.spaces[i].pending.hello {
            self.spaces[i].pending.hello = false;
            self.spaces[i].hi = true;
            out.push(0x06);  // CRYPTO frame type
            out.push(0x00);  // offset = 0
            out.push(0x01);  // length = 1
            out.push(0x00);  // dummy crypto payload
            let rt = retransmits.get_or_create();
            rt.hello = true;
        } else {
            assert(self.spaces@ =~= old(self).spaces@.update(i as int, self.spaces@[i as int]));
        }
        retransmits
    }


    /// Whether space `i` is looked at: it has something to send, or it is
    /// the highest space and a close is due.
    pub open spec fn considered(&self, i: int, close: bool) -> bool {
        let cs = self.spec_space_can_send(i);
        !(!cs.acks && !cs.other && !(close && self.highest_space.spec_index() == i))
    }

    /// What the packet queued for space `i` holds: the composed bytes, and
    /// what is known of it once sent.
    pub open spec fn queued_for(p: ScheduledPacket, c: Connection, i: int, close: bool, now: u64) -> bool {
        let ack_eliciting = c.spec_space_can_send(i).other;
        let bytes = c.composed(i, close);
        let hello = !close && c.spaces@[i].pending.hello;
        &&& bytes_view(p.packet) == bytes
        &&& p.meta_info.number == c.spaces@[i].next_packet_number
        &&& p.meta_info.space_id.spec_index() == i
        &&& p.meta_info.time_sent == now
        &&& p.meta_info.ack_eliciting == ack_eliciting
        &&& p.meta_info.size == if ack_eliciting {
            bytes.len()
        } else {
            0
        }
        &&& p.meta_info.largest_acked is None
        &&& p.meta_info.stream_frames@.len() == 0
        &&& hello ==> (p.meta_info.retransmits.spec_get() matches Some(x) && x.hello)
        &&& !hello ==> p.meta_info.retransmits.spec_get() is None
    }

    /// What `transmit_space` does to the connection `a`, giving `b`, for
    /// space `i0`.
    pub open spec fn transmitted(a: Connection, b: Connection, i: int, close: bool, blocked: bool, now: u64, sent: bool) -> bool {
        &&& ({
                let considered = a.considered(i, close);
                let reached = a.reaches(i, close, blocked);
                let discards = considered && a.side is Client && i == 1
                    && a.spaces@[0].hi;
                &&& sent == reached
                &&& !considered ==> b == a
                &&& considered && !reached ==> !b.app_limited
                &&& !reached ==> b.path.sending_queue@ == a.path.sending_queue@
                &&& reached ==> (b.path.sending_queue@.len() == a.path.sending_queue@.len() + 1 && Self::queued_for(
                    b.path.sending_queue@.last(),
                    a,
                    i,
                    close,
                    now,
                ) && b.path.sending_queue@.drop_last() == a.path.sending_queue@)
                &&& b.spaces@[i].next_packet_number == a.spaces@[i].next_packet_number
                    + if reached {
                    1int
                } else {
                    0int
                }
                &&& reached && close ==> !b.pending_close
                &&& !(reached && close) ==> b.pending_close == a.pending_close
                &&& discards ==> b.spaces@[0].sent_packets@.len() == 0
                &&& forall|j: int|
                    0 <= j < 3 && j != i && !(discards && j == 0) ==> #[trigger] b.spaces@[j]
                        == a.spaces@[j]
                &&& forall|j: int|
                    0 <= j < 3 && j != i ==> same_but_sent(#[trigger] b.spaces@[j], a.spaces@[j])
                &&& reached && !close && a.spaces@[i].pending.hello ==> !b.spaces@[i].pending.hello
                    && b.spaces@[i].hi
            })
        &&& b.state == a.state
        &&& b.streams == a.streams
        &&& b.side == a.side
        &&& b.highest_space == a.highest_space
        &&& b.path.congestion == a.path.congestion
        &&& b.path.in_flight.bytes <= a.path.in_flight.bytes
    }

    /// Looks at space `space_id` for `poll_transmit` and queues a packet for
    /// it if it is reached; returns whether one was queued. A client drops
    /// its Initial space once it looks at the Handshake space after its
    /// hello.
    #[verifier::spinoff_prover]
    #[verifier::rlimit(40)]
    fn transmit_space(&mut self, now: u64, space_id: SpaceId, close: bool, blocked: bool) -> (sent: bool)
        requires
            old(self).wf(),
            now < TIME_LIMIT,
            old(self).reaches(space_id.spec_index() as int, close, blocked) ==> old(self).number_ok(
                space_id.spec_index() as int,
            ),
            old(self).reaches(space_id.spec_index() as int, close, blocked) && space_id
                == SpaceId::Data ==> close,
        ensures
            final(self).wf(),
            Self::transmitted(*old(self), *final(self), space_id.spec_index() as int, close, blocked, now, sent),
    {
        let i = space_id.index();
        // Is there data or a close message to send in this space?
        let can_send = self.space_can_send(space_id);
        if can_send.is_empty() && !(close && space_id == self.highest_space) {
            return false;
        }
        if self.side.is_client() && i == 1 && self.spaces[0].hi {
            // A client stops both sending and processing Initial packets when it sends its
            // first Handshake packet.
            self.discard_space(now, SpaceId::Initial);
        }
        let ack_eliciting = can_send.other;
        // Don't send ack-eliciting packets if congestion-blocked.
        // Pure ACK-only packets (ack_eliciting=false) are always allowed through
        // since they don't consume congestion window.
        if ack_eliciting && blocked {
            // We couldn't send due to congestion, not app behaviour — not app-limited.
            self.app_limited = false;
            return false;
        }
        let ghost before = *self;
        let exact_number = match self.spaces[i].get_tx_number() {
            Some(n) => n,
            None => {
                return false;
            },
        };
        let largest_acked = match self.spaces[i].largest_acked_packet {
            Some(la) => la,
            None => 0,
        };
        let number = PacketNumber::new(exact_number, largest_acked);
        let cid_bytes = fake_cid();
        let cid = ConnectionId::new(cid_bytes.as_slice());
        let header = if i == 0 {
            Header::Initial(
                InitialHeader {
                    dst_cid: cid,
                    src_cid: cid,
                    token: bytes_new(),
                    number,
                    version: supported_versions()[0],
                },
            )
        } else if i == 1 {
            Header::Long {
                ty: LongType::Handshake,
                dst_cid: cid,
                src_cid: cid,
                number,
                version: supported_versions()[0],
            }
        } else {
            Header::Short { spin: false, key_phase: false, dst_cid: cid, number }
        };
        let mut buf: Vec<u8> = Vec::new();
        header.encode(&mut buf);
        assert(header@ == header_for(i as int, before.next_number(i as int)));
        let retransmits = if close {
            // Don't send another close packet
            self.pending_close = false;
            ThinRetransmits::new()
        } else {
            self.populate_packet(space_id, &mut buf)
        };
        let packet_len = buf.len();
        proof {
            lemma_header_for_len(i as int, before.next_number(i as int));
        }
        let size: u16 = if ack_eliciting {
            packet_len as u16
        } else {
            0
        };
        let meta_info = SentPacket {
            time_sent: now,
            size,
            ack_eliciting,
            largest_acked: None,
            retransmits,
            stream_frames: Vec::new(),
            number: exact_number,
            space_id,
        };
        let packet = bytes_from_vec(buf);
        // Schedule to send
        let ghost q = self.path.sending_queue@;
        self.path.sending_queue.push_back(ScheduledPacket { packet, meta_info });
        assert(self.path.sending_queue@.drop_last() =~= q);
        true
    }

    /// Whether `poll_transmit` has nothing to do: the connection is drained,
    /// or closed with its close already sent.
    pub open spec fn poll_skips(&self) -> bool {
        self.state is Drained || (self.state.spec_is_closed() && !self.pending_close)
    }

    /// The number of spaces below `k` that `poll_transmit` queues a packet for.
    pub open spec fn reached_below(&self, k: int, close: bool, blocked: bool) -> nat
        decreases k,
    {
        if k <= 0 {
            0
        } else {
            self.reached_below(k - 1, close, blocked) + if self.reaches(k - 1, close, blocked) {
                1nat
            } else {
                0nat
            }
        }
    }

    /// Whether some space still has something to send.
    pub open spec fn has_more(&self) -> bool {
        let a = self.spec_space_can_send(0);
        let b = self.spec_space_can_send(1);
        let c = self.spec_space_can_send(2);
        a.acks || a.other || b.acks || b.other || c.acks || c.other
    }

    /// What `poll_transmit` needs to compose the packets it is due to
    /// compose: each packet number can be written, and the data space, whose
    /// stream frames this library does not write, is only reached to send a
    /// close.
    pub open spec fn can_poll(&self) -> bool {
        let close = self.closing();
        let blocked = self.congestion_blocked();
        self.poll_skips() || ({
            &&& forall|i: int| 0 <= i < 3 && #[trigger] self.reaches(i, close, blocked) ==> self.number_ok(i)
            &&& self.reaches(2, close, blocked) ==> close
        })
    }

    /// Whether space `space_id`, if `poll_transmit` reaches it, can be
    /// composed: its next packet number can be written, and it is the data
    /// space only to send a close.
    fn space_ready(&self, space_id: SpaceId, close: bool, blocked: bool) -> (r: bool)
        ensures
            r == ((self.reaches(space_id.spec_index() as int, close, blocked) ==> self.number_ok(
                space_id.spec_index() as int,
            )) && (space_id == SpaceId::Data && self.reaches(2, close, blocked) ==> close)),
    {
        let i = space_id.index();
        let cs = self.space_can_send(space_id);
        let reached = !(cs.is_empty() && !(close && self.highest_space.index() == i)) && !(cs.other
            && blocked);
        let n = self.spaces[i].next_packet_number;
        let la = match self.spaces[i].largest_acked_packet {
            Some(la) => la,
            None => 0,
        };
        let number_ok = n < space::PACKET_NUMBER_LIMIT && la <= n && (n - la) < 0x8000_0000;
        (!reached || number_ok) && !(reached && i == 2 && !close)
    }

    /// Whether `poll_transmit` can compose what it is due to compose here:
    /// see `can_poll`.
    pub fn poll_ready(&self) -> (r: bool)
        ensures
            r == self.can_poll(),
    {
        let skips = self.state.is_drained() || (self.state.is_closed() && !self.pending_close);
        if skips {
            return true;
        }
        let close = (matches!(self.state, State::Draining) || matches!(self.state, State::Closed(_)))
            && self.pending_close;
        let blocked = self.path.in_flight.bytes >= self.path.congestion.window();
        let a = self.space_ready(SpaceId::Initial, close, blocked);
        let b = self.space_ready(SpaceId::Handshake, close, blocked);
        let c = self.space_ready(SpaceId::Data, close, blocked);
        proof {
            assert(close == self.closing());
            assert(blocked == self.congestion_blocked());
            if !a {
                assert(self.reaches(0, close, blocked) && !self.number_ok(0));
            } else if !b {
                assert(self.reaches(1, close, blocked) && !self.number_ok(1));
            } else if !c {
                assert(self.reaches(2, close, blocked));
            }
            if a && b && c {
                assert forall|i: int| 0 <= i < 3 && #[trigger] self.reaches(i, close, blocked) implies self.number_ok(i) by {
                    if i == 0 {
                    } else if i == 1 {
                    } else {
                    }
                }
            }
        }
        a && b && c
    }

    /// Composes a packet for each space that has something to send, or a
    /// close for the highest space when one is due, and queues them on the
    /// path, in the order of the spaces. Packets that would elicit an
    /// acknowledgement are held back while the congestion window is full.
    /// Returns whether it should be called again: it queued something and
    /// something is left to send. It then notes whether the application, not
    /// the network, held the sending back.
    #[verifier::spinoff_prover]
    pub fn poll_transmit(&mut self, now: u64) -> (r: bool)
        requires
            old(self).wf(),
            now < TIME_LIMIT,
            old(self).can_poll(),
        ensures
            final(self).wf(),
            old(self).poll_skips() ==> !r && *final(self) == *old(self),
            !old(self).poll_skips() ==> ({
                let close = old(self).closing();
                let blocked = old(self).congestion_blocked();
                let n = old(self).reached_below(3, close, blocked);
                let q = old(self).path.sending_queue@;
                &&& final(self).path.sending_queue@.len() == q.len() + n
                &&& final(self).path.sending_queue@.take(q.len() as int) == q
                &&& forall|i: int| 0 <= i < 3 && #[trigger] old(self).reaches(i, close, blocked) ==> Self::queued_for(
                    final(self).path.sending_queue@[(q.len() + old(self).reached_below(i, close, blocked)) as int],
                    *old(self),
                    i,
                    close,
                    now,
                )
                &&& forall|i: int| 0 <= i < 3 ==> #[trigger] final(self).spaces@[i].next_packet_number
                    == old(self).spaces@[i].next_packet_number + if old(self).reaches(i, close, blocked) {
                    1int
                } else {
                    0int
                }
                &&& r == (n > 0 && final(self).has_more())
                &&& n > 0 ==> final(self).app_limited == (!final(self).has_more()
                    && final(self).path.in_flight.bytes < final(self).path.congestion.window)
                &&& close && n > 0 ==> !final(self).pending_close
                &&& n == 0 ==> final(self).pending_close == old(self).pending_close
            }),
            final(self).state == old(self).state,
            final(self).streams == old(self).streams,
            final(self).side == old(self).side,
            final(self).highest_space == old(self).highest_space,
            final(self).path.congestion == old(self).path.congestion,
    {
        let close = match self.state {
            State::Drained => {
                return false;
            },
            State::Draining | State::Closed(_) => {
                if !self.pending_close {
                    return false;
                }
                true
            },
            _ => false,
        };
        // Check congestion window once before iterating spaces.
        let congestion_blocked = self.path.in_flight.bytes >= self.path.congestion.window();
        let ghost c0 = *self;
        assert(close == c0.closing() && congestion_blocked == c0.congestion_blocked());
        assert(c0.reaches(0, close, congestion_blocked) ==> c0.number_ok(0));
        assert(c0.reaches(1, close, congestion_blocked) ==> c0.number_ok(1));
        assert(c0.reaches(2, close, congestion_blocked) ==> c0.number_ok(2));
        let s0 = self.transmit_space(now, SpaceId::Initial, close, congestion_blocked);
        let ghost c1 = *self;
        proof {
            lemma_space_unchanged(c0, c1, 1, close, now);
            lemma_space_unchanged(c0, c1, 2, close, now);
        }
        let s1 = self.transmit_space(now, SpaceId::Handshake, close, congestion_blocked);
        let ghost c2 = *self;
        proof {
            lemma_space_unchanged(c1, c2, 2, close, now);
            lemma_space_unchanged(c0, c2, 2, close, now);
        }
        let s2 = self.transmit_space(now, SpaceId::Data, close, congestion_blocked);
        proof {
            lemma_poll_steps(c0, c1, c2, *self, close, congestion_blocked, now, s0, s1, s2);
        }
        // If nothing was queued this round, stop spinning.
        if !(s0 || s1 || s2) {
            return false;
        }
        // Whether this function should be called again: only if there is
        // still unsent work remaining.
        let more_to_send = !self.space_can_send(SpaceId::Initial).is_empty() || !self.space_can_send(
            SpaceId::Handshake,
        ).is_empty() || !self.space_can_send(SpaceId::Data).is_empty();
        // App-limited: sender has data capacity left but nothing to send —
        // i.e. the bottleneck is the application, not the network.
        self.app_limited = !more_to_send && self.path.in_flight.bytes < self.path.congestion.window();
        more_to_send
    }

    /// The earliest loss time of the spaces, and the first space with it.
    pub open spec fn spec_loss_time_and_space(&self) -> Option<(u64, SpaceId)> {
        let l0 = self.spaces@[0].loss_time;
        let l1 = self.spaces@[1].loss_time;
        let l2 = self.spaces@[2].loss_time;
        let first: Option<(u64, SpaceId)> = match l0 {
            Some(t) => Some((t, SpaceId::Initial)),
            None => None,
        };
        let second: Option<(u64, SpaceId)> = match (first, l1) {
            (Some((t0, s0)), Some(t1)) => if t1 < t0 {
                Some((t1, SpaceId::Handshake))
            } else {
                Some((t0, s0))
            },
            (None, Some(t1)) => Some((t1, SpaceId::Handshake)),
            (f, None) => f,
        };
        match (second, l2) {
            (Some((t0, s0)), Some(t2)) => if t2 < t0 {
                Some((t2, SpaceId::Data))
            } else {
                Some((t0, s0))
            },
            (None, Some(t2)) => Some((t2, SpaceId::Data)),
            (f, None) => f,
        }
    }

    fn loss_time_and_space(&self) -> (r: Option<(u64, SpaceId)>)
        ensures
            r == self.spec_loss_time_and_space(),
    {
        let mut best: Option<(u64, SpaceId)> = match self.spaces[0].loss_time {
            Some(t) => Some((t, SpaceId::Initial)),
            None => None,
        };
        match (best, self.spaces[1].loss_time) {
            (Some((t0, _)), Some(t1)) => {
                if t1 < t0 {
                    best = Some((t1, SpaceId::Handshake));
                }
            },
            (None, Some(t1)) => {
                best = Some((t1, SpaceId::Handshake));
            },
            _ => {},
        }
        match (best, self.spaces[2].loss_time) {
            (Some((t0, _)), Some(t2)) => {
                if t2 < t0 {
                    best = Some((t2, SpaceId::Data));
                }
            },
            (None, Some(t2)) => {
                best = Some((t2, SpaceId::Data));
            },
            _ => {},
        }
        best
    }

    /// The probe timeout: three conservative round trips and the timer
    /// granularity.
    pub open spec fn spec_pto(&self) -> u64 {
        (self.path.rtt.spec_conservative() * 3 + TIMER_GRANULARITY) as u64
    }

    /// The time the earliest numbered packet of each space was sent, the
    /// earliest of them.
    pub open spec fn earliest_sent(&self) -> Option<u64> {
        let f = |i: int|
            if self.spaces@[i].sent_packets@.len() > 0 {
                Some(self.spaces@[i].sent_packets@[0].time_sent)
            } else {
                None::<u64>
            };
        let m01 = match (f(0), f(1)) {
            (Some(a), Some(b)) => Some(if b < a {
                b
            } else {
                a
            }),
            (Some(a), None) => Some(a),
            (None, b) => b,
        };
        match (m01, f(2)) {
            (Some(a), Some(b)) => Some(if b < a {
                b
            } else {
                a
            }),
            (Some(a), None) => Some(a),
            (None, b) => b,
        }
    }

    /// The loss detection timer's slot after `set_loss_detection_timer`:
    /// unchanged on a closed connection; else the earliest loss time; else,
    /// with bytes in flight in some space, a probe timeout after the
    /// earliest packet sent; else stopped.
    pub open spec fn loss_timer_after(&self, data: Seq<Option<u64>>) -> Seq<Option<u64>> {
        if self.state.spec_is_closed() {
            data
        } else if let Some((t, _)) = self.spec_loss_time_and_space() {
            data.update(0, Some(t))
        } else if (self.spaces@[0].in_flight > 0 || self.spaces@[1].in_flight > 0
            || self.spaces@[2].in_flight > 0) && self.earliest_sent() is Some {
            data.update(0, Some((self.earliest_sent()->0 + self.spec_pto()) as u64))
        } else {
            data.update(0, None)
        }
    }

    /// The time of the first packet of a space, if any.
    fn first_sent(&self, i: usize) -> (r: Option<u64>)
        requires
            i < 3,
        ensures
            r == if self.spaces@[i as int].sent_packets@.len() > 0 {
                Some(self.spaces@[i as int].sent_packets@[0].time_sent)
            } else {
                None::<u64>
            },
    {
        if self.spaces[i].sent_packets.len() > 0 {
            Some(self.spaces[i].sent_packets[0].time_sent)
        } else {
            None
        }
    }

    /// Arms the loss detection timer: at the earliest loss time, else a
    /// probe timeout after the earliest packet in flight, else not at all.
    pub fn set_loss_detection_timer(&mut self, now: u64)
        requires
            old(self).wf(),
        ensures
            final(self).wf(),
            final(self).timers.data@ == old(self).loss_timer_after(old(self).timers.data@),
            final(self).state == old(self).state,
            final(self).spaces == old(self).spaces,
            final(self).path == old(self).path,
            final(self).streams == old(self).streams,
            final(self).side == old(self).side,
            final(self).highest_space == old(self).highest_space,
            final(self).pending_close == old(self).pending_close,
            final(self).app_limited == old(self).app_limited,
    {
        if self.state.is_closed() {
            // No loss detection takes place on closed connections, and `close_common`
            // already stopped time timer. Ensure we don't restart it
            // inadvertently, e.g. in response to a reordered packet being
            // handled by state-insensitive code.
            return;
        }
        if let Some((loss_time, _)) = self.loss_time_and_space() {
            // Time threshold loss detection.
            self.timers.set(Timer::LossDetection, loss_time);
            return;
        }
        // Arm a PTO timer if there are ACK-eliciting packets in flight.
        let has_in_flight = self.spaces[0].in_flight > 0 || self.spaces[1].in_flight > 0
            || self.spaces[2].in_flight > 0;
        if has_in_flight {
            let pto = self.path.rtt.conservative() * 3 + TIMER_GRANULARITY;
            let e0 = self.first_sent(0);
            let e1 = self.first_sent(1);
            let e2 = self.first_sent(2);
            let m01 = match (e0, e1) {
                (Some(a), Some(b)) => Some(
                    if b < a {
                        b
                    } else {
                        a
                    },
                ),
                (Some(a), None) => Some(a),
                (None, b) => b,
            };
            let earliest_sent = match (m01, e2) {
                (Some(a), Some(b)) => Some(
                    if b < a {
                        b
                    } else {
                        a
                    },
                ),
                (Some(a), None) => Some(a),
                (None, b) => b,
            };
            if let Some(sent) = earliest_sent {
                proof {
                    if self.spaces@[0].sent_packets@.len() > 0 {
                        assert(self.spaces@[0].sent_packets@[0].time_sent < TIME_LIMIT);
                    }
                    if self.spaces@[1].sent_packets@.len() > 0 {
                        assert(self.spaces@[1].sent_packets@[0].time_sent < TIME_LIMIT);
                    }
                    if self.spaces@[2].sent_packets@.len() > 0 {
                        assert(self.spaces@[2].sent_packets@[0].time_sent < TIME_LIMIT);
                    }
                }
                self.timers.set(Timer::LossDetection, sent + pto);
                return;
            }
        }
        self.timers.stop(Timer::LossDetection);
    }

    /// Provide control over the receiving half of stream `id`, which the
    /// peer may send on.
    pub fn recv_stream(&mut self, id: StreamId) -> (r: RecvStream)
        requires
            id.spec_dir() == Dir::Bi || id.spec_initiator() != old(self).side,
        ensures
            r.id == id,
            *final(self) == *old(self),
    {
        RecvStream { id }
    }

    /// Provide control over the sending half of stream `id`, which this
    /// side may send on.
    pub fn send_stream(&mut self, id: StreamId) -> (r: SendStream)
        requires
            id.spec_dir() == Dir::Bi || id.spec_initiator() == old(self).side,
        ensures
            r.id == id,
            *final(self) == *old(self),
    {
        SendStream { id }
    }

    /// Opens a stream of the given directionality; the connection may not
    /// be closed.
    pub fn open_stream(&mut self, dir: Dir) -> (r: StreamId)
        requires
            old(self).wf(),
            !old(self).state.spec_is_closed(),
            old(self).streams.next@[dir.spec_bit() as int] < u64::MAX,
        ensures
            final(self).wf(),
            r.0 == crate::common::spec_stream_id(
                old(self).side,
                dir,
                old(self).streams.next@[dir.spec_bit() as int],
            ),
            final(self).streams.next@ == old(self).streams.next@.update(
                dir.spec_bit() as int,
                (old(self).streams.next@[dir.spec_bit() as int] + 1) as u64,
            ),
            final(self).streams.send@.contains_key(r.0),
            crate::connection::stream::state::send_is_fresh(final(self).streams.send@[r.0]),
            dir == Dir::Bi ==> final(self).streams.recv@.contains_key(r.0),
            final(self).state == old(self).state,
            final(self).spaces == old(self).spaces,
            final(self).streams.pending == old(self).streams.pending,
            final(self).side == old(self).side,
    {
        self.streams.open(dir)
    }
}

} // verus!
