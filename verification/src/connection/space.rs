//! Per packet number space state: what was sent, what was received, and
//! what is waiting to be sent.
use vstd::prelude::*;

use crate::frame::{StopSending, StreamMeta};
use crate::common::StreamId;
use crate::packet::SpaceId;
use crate::range_set::RangeSet;

verus! {

/// The largest packet number a space hands out, plus one.
pub const PACKET_NUMBER_LIMIT: u64 = 0x4000_0000_0000_0000;

pub struct PacketSpace {
    pub hi: bool,
    pub dedup: Dedup,
    /// Highest received packet number
    pub rx_packet: u64,
    /// Data to send
    pub pending: Retransmits,
    /// Packet numbers to acknowledge
    pub pending_acks: PendingAcks,
    /// The packet number of the next packet that will be sent, if any.
    pub next_packet_number: u64,
    /// The largest packet number the remote peer acknowledged in an ACK frame.
    pub largest_acked_packet: Option<u64>,
    pub largest_acked_packet_sent: u64,
    /// The highest-numbered ACK-eliciting packet we've sent
    pub largest_ack_eliciting_sent: u64,
    /// Number of packets in `sent_packets` with numbers above
    /// `largest_ack_eliciting_sent`
    pub unacked_non_ack_eliciting_tail: u64,
    /// Transmitted but not acked, in increasing order of packet number
    pub sent_packets: Vec<SentPacket>,
    /// The time at which the earliest sent packet in this space will be
    /// considered lost based on exceeding the reordering window in time. Only
    /// set for packets numbered prior to a packet that has been acknowledged.
    pub loss_time: Option<u64>,
    pub ping_pending: bool,
    pub immediate_ack_pending: bool,
    /// Number of congestion control "in flight" bytes
    pub in_flight: u64,
}

impl PacketSpace {
    /// A space where nothing was sent or received yet, created at `now`.
    pub fn new(now: u64) -> (r: Self)
        ensures
            r.hi == false,
            r.dedup@ == (0u128, 0u64),
            r.rx_packet == 0,
            r.pending.spec_is_empty(),
            r.pending_acks.wf(),
            r.pending_acks.immediate_ack_required == false,
            r.pending_acks.ranges@.len() == 0,
            r.next_packet_number == 0,
            r.largest_acked_packet is None,
            r.largest_acked_packet_sent == now,
            r.largest_ack_eliciting_sent == 0,
            r.unacked_non_ack_eliciting_tail == 0,
            r.sent_packets@.len() == 0,
            r.loss_time is None,
            r.ping_pending == false,
            r.immediate_ack_pending == false,
            r.in_flight == 0,
    {
        PacketSpace {
            hi: false,
            dedup: Dedup::new(),
            rx_packet: 0,
            pending: Retransmits::new(),
            pending_acks: PendingAcks::new(),
            next_packet_number: 0,
            largest_acked_packet: None,
            largest_acked_packet_sent: now,
            largest_ack_eliciting_sent: 0,
            unacked_non_ack_eliciting_tail: 0,
            sent_packets: Vec::new(),
            loss_time: None,
            ping_pending: false,
            immediate_ack_pending: false,
            in_flight: 0,
        }
    }

    /// Get the next outgoing packet number in this space; once the numbers
    /// that fit in 62 bits are used up there is none, and the space is left
    /// as it is.
    pub fn get_tx_number(&mut self) -> (r: Option<u64>)
        ensures
            old(self).next_packet_number < PACKET_NUMBER_LIMIT ==> r == Some(
                old(self).next_packet_number,
            ) && *final(self) == (PacketSpace {
                next_packet_number: (old(self).next_packet_number + 1) as u64,
                ..*old(self)
            }),
            old(self).next_packet_number >= PACKET_NUMBER_LIMIT ==> r is None && *final(self)
                == *old(self),
    {
        if self.next_packet_number >= PACKET_NUMBER_LIMIT {
            return None;
        }
        let x = self.next_packet_number;
        self.next_packet_number = x + 1;
        Some(x)
    }

    /// What this space has to send.
    pub open spec fn spec_can_send(&self) -> SendableFrames {
        SendableFrames {
            acks: self.pending_acks.spec_can_send(),
            other: !self.pending.spec_is_empty() || self.ping_pending || self.immediate_ack_pending,
        }
    }

    /// What this space has to send.
    pub fn can_send(&self) -> (r: SendableFrames)
        ensures
            r == self.spec_can_send(),
    {
        let acks = self.pending_acks.can_send();
        let other = !self.pending.is_empty() || self.ping_pending || self.immediate_ack_pending;
        SendableFrames { acks, other }
    }

    /// Record one newly sent packet and update sent-packet tracking and
    /// ack-eliciting in-flight counters; returns the number of bytes to
    /// remove from the connection's in-flight count, which is none. A packet
    /// with the number of one already tracked replaces it.
    pub fn sent(&mut self, packet: SentPacket) -> (r: u64)
        requires
            sent_sorted(old(self).sent_packets@),
            old(self).in_flight + packet.size <= u64::MAX,
            !packet.ack_eliciting && packet.number > old(self).largest_ack_eliciting_sent
                ==> old(self).unacked_non_ack_eliciting_tail < u64::MAX,
        ensures
            r == 0,
            sent_sorted(final(self).sent_packets@),
            final(self).sent_packets@ == sent_insert(old(self).sent_packets@, packet),
            final(self).in_flight == old(self).in_flight + packet.size,
            packet.ack_eliciting ==> final(self).largest_ack_eliciting_sent == packet.number
                && final(self).unacked_non_ack_eliciting_tail == 0,
            !packet.ack_eliciting ==> final(self).largest_ack_eliciting_sent
                == old(self).largest_ack_eliciting_sent,
            !packet.ack_eliciting && packet.number > old(self).largest_ack_eliciting_sent
                ==> final(self).unacked_non_ack_eliciting_tail
                == old(self).unacked_non_ack_eliciting_tail + 1,
            !packet.ack_eliciting && packet.number <= old(self).largest_ack_eliciting_sent
                ==> final(self).unacked_non_ack_eliciting_tail
                == old(self).unacked_non_ack_eliciting_tail,
            *final(self) == (PacketSpace {
                sent_packets: final(self).sent_packets,
                in_flight: final(self).in_flight,
                largest_ack_eliciting_sent: final(self).largest_ack_eliciting_sent,
                unacked_non_ack_eliciting_tail: final(self).unacked_non_ack_eliciting_tail,
                ..*old(self)
            }),
    {
        let number = packet.number;
        let size = packet.size as u64;
        if packet.ack_eliciting {
            self.largest_ack_eliciting_sent = number;
            self.unacked_non_ack_eliciting_tail = 0;
        } else if number > self.largest_ack_eliciting_sent {
            self.unacked_non_ack_eliciting_tail += 1;
        }
        self.in_flight += size;
        let ghost old_sent = self.sent_packets@;
        // The first packet numbered at or above the new one.
        let n = self.sent_packets.len();
        let mut i: usize = 0;
        while i < n && self.sent_packets[i].number < number
            invariant
                n == self.sent_packets@.len(),
                self.sent_packets@ == old_sent,
                i <= n,
                forall|k: int| 0 <= k < i ==> (#[trigger] old_sent[k]).number < number,
            decreases n - i,
        {
            i += 1;
        }
        proof {
            lemma_sent_lower_bound(old_sent, number, i as int);
        }
        if i < n && self.sent_packets[i].number == number {
            self.sent_packets.remove(i);
        }
        self.sent_packets.insert(i, packet);
        proof {
            lemma_sent_insert_sorted(old_sent, packet);
        }
        0
    }
}

/// Packets in strictly increasing order of number.
pub open spec fn sent_sorted(s: Seq<SentPacket>) -> bool {
    forall|i: int, j: int| 0 <= i < j < s.len() ==> (#[trigger] s[i]).number < (#[trigger] s[j]).number
}

/// The number of packets at the start of `s` numbered below `n`.
pub open spec fn sent_lower_bound(s: Seq<SentPacket>, n: u64) -> nat
    decreases s.len(),
{
    if s.len() == 0 {
        0
    } else if s[0].number < n {
        1 + sent_lower_bound(s.drop_first(), n)
    } else {
        0
    }
}

/// The packets after `p` is recorded: it takes the place of a packet with
/// its number, or goes where the order of numbers puts it.
pub open spec fn sent_insert(s: Seq<SentPacket>, p: SentPacket) -> Seq<SentPacket> {
    let i = sent_lower_bound(s, p.number) as int;
    if i < s.len() && s[i].number == p.number {
        s.update(i, p)
    } else {
        s.insert(i, p)
    }
}

/// The lower bound is the first position numbered at or above `n`.
pub proof fn lemma_sent_lower_bound(s: Seq<SentPacket>, n: u64, i: int)
    requires
        0 <= i <= s.len(),
        forall|k: int| 0 <= k < i ==> (#[trigger] s[k]).number < n,
        i < s.len() ==> s[i].number >= n,
    ensures
        sent_lower_bound(s, n) == i,
    decreases i,
{
    if i > 0 {
        assert forall|k: int| 0 <= k < i - 1 implies (#[trigger] s.drop_first()[k]).number < n by {
            assert(s.drop_first()[k] == s[k + 1]);
        }
        if i - 1 < s.drop_first().len() {
            assert(s.drop_first()[i - 1] == s[i]);
        }
        lemma_sent_lower_bound(s.drop_first(), n, i - 1);
    }
}

/// Recording a packet keeps the packets in order.
pub proof fn lemma_sent_insert_sorted(s: Seq<SentPacket>, p: SentPacket)
    requires
        sent_sorted(s),
    ensures
        sent_sorted(sent_insert(s, p)),
{
    let i = sent_lower_bound(s, p.number) as int;
    lemma_lower_bound_facts(s, p.number);
    let out = sent_insert(s, p);
    assert forall|a: int, b: int| 0 <= a < b < out.len() implies (#[trigger] out[a]).number < (
    #[trigger] out[b]).number by {
        if i < s.len() && s[i].number == p.number {
        } else {
            if a < i && b > i {
                assert(out[b] == s[b - 1]);
            } else if a > i {
                assert(out[a] == s[a - 1] && out[b] == s[b - 1]);
            } else if b < i {
            } else if a == i {
                assert(out[b] == s[b - 1]);
                if b - 1 > i {
                    assert(s[i].number < s[b - 1].number);
                }
            }
        }
    }
}

/// The packets before the lower bound are numbered below `n`, and the one
/// at it, if any, is not.
pub proof fn lemma_lower_bound_facts(s: Seq<SentPacket>, n: u64)
    ensures
        sent_lower_bound(s, n) <= s.len(),
        forall|k: int| 0 <= k < sent_lower_bound(s, n) ==> (#[trigger] s[k]).number < n,
        sent_lower_bound(s, n) < s.len() ==> s[sent_lower_bound(s, n) as int].number >= n,
    decreases s.len(),
{
    if s.len() > 0 && s[0].number < n {
        lemma_lower_bound_facts(s.drop_first(), n);
        assert forall|k: int| 0 <= k < sent_lower_bound(s, n) implies (#[trigger] s[k]).number
            < n by {
            if k > 0 {
                assert(s[k] == s.drop_first()[k - 1]);
            }
        }
    }
}

/// Represents one or more packets subject to retransmission
pub struct SentPacket {
    /// The time the packet was sent.
    pub time_sent: u64,
    /// The number of bytes sent in the packet, not including UDP or IP
    /// overhead, but including QUIC framing overhead. Zero if this packet is
    /// not counted towards congestion control, i.e. not an "in flight" packet.
    pub size: u16,
    /// Whether an acknowledgement is expected directly in response to this
    /// packet.
    pub ack_eliciting: bool,
    /// The largest packet number acknowledged by this packet
    pub largest_acked: Option<u64>,
    /// Data which needs to be retransmitted in case the packet is lost.
    pub retransmits: ThinRetransmits,
    /// Metadata for stream frames in a packet
    /// The actual application data is stored with the stream state.
    pub stream_frames: Vec<StreamMeta>,
    /// Packet number
    pub number: u64,
    /// Space id
    pub space_id: SpaceId,
}

/// Retransmittable data queue
pub struct Retransmits {
    /// Our special placeholder for a hello message
    pub hello: bool,
    pub reset_stream: Vec<(StreamId, u64)>,
    pub stop_sending: Vec<StopSending>,
    pub ack_frequency: bool,
    pub handshake_done: bool,
}

/// The RESET_STREAM frames queued by `items`, one after the other.
pub open spec fn all_resets(items: Seq<Retransmits>) -> Seq<(StreamId, u64)>
    decreases items.len(),
{
    if items.len() == 0 {
        Seq::empty()
    } else {
        all_resets(items.drop_last()) + items.last().reset_stream@
    }
}

/// The STOP_SENDING frames queued by `items`, one after the other.
pub open spec fn all_stops(items: Seq<Retransmits>) -> Seq<StopSending>
    decreases items.len(),
{
    if items.len() == 0 {
        Seq::empty()
    } else {
        all_stops(items.drop_last()) + items.last().stop_sending@
    }
}

impl Retransmits {
    /// Whether nothing is queued.
    pub open spec fn spec_is_empty(&self) -> bool {
        !self.hello && self.reset_stream@.len() == 0 && self.stop_sending@.len() == 0
            && !self.ack_frequency && !self.handshake_done
    }

    /// An empty queue.
    pub fn new() -> (r: Self)
        ensures
            r.spec_is_empty(),
    {
        Retransmits {
            hello: false,
            reset_stream: Vec::new(),
            stop_sending: Vec::new(),
            ack_frequency: false,
            handshake_done: false,
        }
    }

    pub fn is_empty(&self) -> (r: bool)
        ensures
            r == self.spec_is_empty(),
    {
        !self.hello && self.reset_stream.len() == 0 && self.stop_sending.len() == 0
            && !self.ack_frequency && !self.handshake_done
    }

    /// All of `items` added up: a flag is set if any item sets it, the
    /// queued frames follow each other in the order of the items.
    pub fn from_iter(items: Vec<Retransmits>) -> (r: Self)
        ensures
            r.hello == (exists|i: int| 0 <= i < items@.len() && #[trigger] items@[i].hello),
            r.ack_frequency == (exists|i: int|
                0 <= i < items@.len() && #[trigger] items@[i].ack_frequency),
            r.handshake_done == (exists|i: int|
                0 <= i < items@.len() && #[trigger] items@[i].handshake_done),
            r.reset_stream@ == all_resets(items@),
            r.stop_sending@ == all_stops(items@),
    {
        let mut result = Retransmits::new();
        let ghost all = items@;
        let mut items = items;
        let mut k: usize = 0;
        let total = items.len();
        assert(all.len() == total);
        assert(all.take(0) =~= Seq::<Retransmits>::empty());
        assert(result.reset_stream@ =~= Seq::<(StreamId, u64)>::empty());
        assert(result.stop_sending@ =~= Seq::<StopSending>::empty());
        while items.len() > 0
            invariant
                k <= all.len(),
                all.len() <= usize::MAX,
                items@ == all.skip(k as int),
                result.hello == (exists|i: int| 0 <= i < k && #[trigger] all[i].hello),
                result.ack_frequency == (exists|i: int| 0 <= i < k && #[trigger] all[i].ack_frequency),
                result.handshake_done == (exists|i: int|
                    0 <= i < k && #[trigger] all[i].handshake_done),
                result.reset_stream@ == all_resets(all.take(k as int)),
                result.stop_sending@ == all_stops(all.take(k as int)),
            decreases items@.len(),
        {
            let it = items.remove(0);
            assert(it == all[k as int]);
            assert(all.take(k as int + 1).drop_last() =~= all.take(k as int));
            result.merge(it);
            k = k + 1;
            assert(items@ =~= all.skip(k as int));
        }
        assert(all.take(k as int) =~= all);
        result
    }

    /// Adds what `rhs` holds: the flags are or-ed, the queued frames of
    /// `rhs` follow those already queued.
    pub fn merge(&mut self, rhs: Retransmits)
        ensures
            final(self).hello == (old(self).hello || rhs.hello),
            final(self).reset_stream@ == old(self).reset_stream@ + rhs.reset_stream@,
            final(self).stop_sending@ == old(self).stop_sending@ + rhs.stop_sending@,
            final(self).ack_frequency == (old(self).ack_frequency || rhs.ack_frequency),
            final(self).handshake_done == (old(self).handshake_done || rhs.handshake_done),
    {
        let mut i: usize = 0;
        while i < rhs.reset_stream.len()
            invariant
                i <= rhs.reset_stream@.len(),
                self.reset_stream@ == old(self).reset_stream@ + rhs.reset_stream@.take(i as int),
                self.stop_sending@ == old(self).stop_sending@,
                self.hello == old(self).hello,
                self.ack_frequency == old(self).ack_frequency,
                self.handshake_done == old(self).handshake_done,
            decreases rhs.reset_stream@.len() - i,
        {
            self.reset_stream.push(rhs.reset_stream[i]);
            i += 1;
            assert(rhs.reset_stream@.take(i as int) == rhs.reset_stream@.take(i - 1) + seq![
                rhs.reset_stream@[i - 1],
            ]);
        }
        assert(rhs.reset_stream@.take(i as int) == rhs.reset_stream@);
        let mut j: usize = 0;
        while j < rhs.stop_sending.len()
            invariant
                j <= rhs.stop_sending@.len(),
                self.stop_sending@ == old(self).stop_sending@ + rhs.stop_sending@.take(j as int),
                self.reset_stream@ == old(self).reset_stream@ + rhs.reset_stream@,
                self.hello == old(self).hello,
                self.ack_frequency == old(self).ack_frequency,
                self.handshake_done == old(self).handshake_done,
            decreases rhs.stop_sending@.len() - j,
        {
            self.stop_sending.push(rhs.stop_sending[j]);
            j += 1;
            assert(rhs.stop_sending@.take(j as int) == rhs.stop_sending@.take(j - 1) + seq![
                rhs.stop_sending@[j - 1],
            ]);
        }
        assert(rhs.stop_sending@.take(j as int) == rhs.stop_sending@);
        self.hello = self.hello || rhs.hello;
        self.ack_frequency = self.ack_frequency || rhs.ack_frequency;
        self.handshake_done = self.handshake_done || rhs.handshake_done;
    }
}

impl Default for Retransmits {
    fn default() -> (r: Self)
        ensures
            r.spec_is_empty(),
    {
        Retransmits::new()
    }
}

/// A variant of `Retransmits` which only allocates storage when required
pub struct ThinRetransmits {
    retransmits: Option<Box<Retransmits>>,
}

impl ThinRetransmits {
    /// The queue, if one was made.
    pub closed spec fn spec_get(&self) -> Option<Retransmits> {
        match self.retransmits {
            Some(b) => Some(*b),
            None => None,
        }
    }

    /// No queue made yet.
    pub fn new() -> (r: Self)
        ensures
            r.spec_get() is None,
    {
        ThinRetransmits { retransmits: None }
    }

    /// Returns `true` if no retransmits are necessary
    pub fn is_empty(&self) -> (r: bool)
        ensures
            r == match self.spec_get() {
                Some(x) => x.spec_is_empty(),
                None => true,
            },
    {
        match &self.retransmits {
            Some(retransmits) => retransmits.is_empty(),
            None => true,
        }
    }

    /// Returns a reference to the retransmits stored in this box
    pub fn get(&self) -> (r: Option<&Retransmits>)
        ensures
            match r {
                Some(x) => self.spec_get() == Some(*x),
                None => self.spec_get() is None,
            },
    {
        match &self.retransmits {
            Some(b) => Some(&**b),
            None => None,
        }
    }

    /// The queue, made empty first if none was made yet.
    pub fn get_or_create(&mut self) -> (r: &mut Retransmits)
        ensures
            *r == match old(self).spec_get() {
                Some(x) => x,
                None => *r,
            },
            old(self).spec_get() is None ==> r.spec_is_empty(),
            final(self).spec_get() == Some(*final(r)),
    {
        if self.retransmits.is_none() {
            self.retransmits = Some(Box::new(Retransmits::new()));
        }
        let b = self.retransmits.as_mut().unwrap();
        &mut **b
    }
}

impl Default for ThinRetransmits {
    fn default() -> (r: Self)
        ensures
            r.spec_get() is None,
    {
        ThinRetransmits::new()
    }
}

/// Number of packets tracked by `Dedup`: the highest one and a window of
/// 128 below it.
pub const WINDOW_SIZE: u64 = 129;

/// RFC4303-style sliding window packet number deduplicator.
///
/// A contiguous bitfield, where each bit corresponds to a packet number and the
/// rightmost bit is always set. A set bit represents a packet that has been
/// successfully authenticated. Bits left of the window are assumed to be set.
///
/// ```text
/// ...xxxxxxxxx 1 0
///     ^        ^ ^
/// window highest next
/// ```
pub struct Dedup {
    window: u128,
    /// Lowest packet number higher than all yet authenticated.
    next: u64,
}

impl View for Dedup {
    type V = (u128, u64);

    /// The window and the lowest packet number above all authenticated.
    closed spec fn view(&self) -> (u128, u64) {
        (self.window, self.next)
    }
}

/// Whether the deduplicator `(window, next)` counts `packet` as seen: it is
/// the highest packet, a packet whose bit is set in the window below the
/// highest, or a packet left of the window.
pub open spec fn dedup_marked(d: (u128, u64), packet: u64) -> bool {
    let (window, next) = d;
    &&& packet < next
    &&& {
        let dist = next - 1 - packet;
        ||| dist == 0
        ||| (1 <= dist < WINDOW_SIZE && (window >> ((dist - 1) as u128)) & 1 == 1)
        ||| dist >= WINDOW_SIZE
    }
}

/// The state of the deduplicator after `insert(packet)`.
pub open spec fn dedup_after(d: (u128, u64), packet: u64) -> (u128, u64) {
    let (window, next) = d;
    if packet >= next {
        let diff = packet - next;
        (
            if diff < 128 {
                (((window << 1u128) | 1u128) << (diff as u128)) as u128
            } else {
                0u128
            },
            (packet + 1) as u64,
        )
    } else {
        let dist = next - 1 - packet;
        if 1 <= dist < WINDOW_SIZE {
            (window | (1u128 << ((dist - 1) as u128)), next)
        } else {
            (window, next)
        }
    }
}

impl Dedup {
    /// Construct an empty window positioned at the start.
    pub fn new() -> (r: Self)
        ensures
            r@ == (0u128, 0u64),
    {
        Self { window: 0, next: 0 }
    }

    /// Highest packet number authenticated.
    pub fn highest(&self) -> (r: u64)
        requires
            self@.1 > 0,
        ensures
            r == self@.1 - 1,
    {
        self.next - 1
    }

    /// Whether `packet` is counted as seen: what `insert` would report,
    /// without noting it.
    pub fn contains(&self, packet: u64) -> (r: bool)
        ensures
            r == dedup_marked(self@, packet),
    {
        if packet >= self.next {
            false
        } else if self.next - 1 - packet < WINDOW_SIZE {
            let dist = self.next - 1 - packet;
            if dist >= 1 {
                let bit = dist - 1;
                let mask: u128 = 1u128 << (bit as u32);
                proof {
                    lemma_mask_bit(self.window, bit as u128);
                }
                self.window & mask != 0
            } else {
                true
            }
        } else {
            true
        }
    }

    /// Record a newly authenticated packet number.
    ///
    /// Returns whether the packet might be a duplicate: whether it was
    /// counted as seen before.
    pub fn insert(&mut self, packet: u64) -> (r: bool)
        requires
            packet < u64::MAX,
        ensures
            r == dedup_marked(old(self)@, packet),
            final(self)@ == dedup_after(old(self)@, packet),
    {
        if packet >= self.next {
            // Right of window
            let diff = packet - self.next;
            let shifted = (self.window << 1) | 1;
            self.window = if diff < 128 {
                shifted << (diff as u32)
            } else {
                0
            };
            self.next = packet + 1;
            false
        } else if self.highest() - packet < WINDOW_SIZE {
            // Within window
            let dist = self.highest() - packet;
            if dist >= 1 {
                // < highest
                let bit = dist - 1;
                let mask: u128 = 1u128 << (bit as u32);
                let duplicate = self.window & mask != 0;
                proof {
                    lemma_mask_bit(self.window, bit as u128);
                }
                self.window = self.window | mask;
                duplicate
            } else {
                // == highest
                true
            }
        } else {
            // Left of window
            true
        }
    }
}

/// The mask of one bit of the window picks out that bit.
proof fn lemma_mask_bit(w: u128, bit: u128)
    requires
        bit < 128,
    ensures
        (w & (1u128 << bit) != 0) == ((w >> bit) & 1 == 1),
{
    assert(bit < 128 ==> ((w & (1u128 << bit) != 0) == ((w >> bit) & 1 == 1))) by (bit_vector);
}

/// Shifting the window right of a new highest packet keeps each bit, moved
/// up by the distance, and sets the bit of the old highest packet.
proof fn lemma_window_shift(w: u128, a: u128, b: u128)
    requires
        a < 128,
        a + b < 128,
    ensures
        b == 0 ==> (((((w << 1u128) | 1u128) << a) >> (a + b)) & 1u128) == 1u128,
        b >= 1 ==> (((((w << 1u128) | 1u128) << a) >> (a + b)) & 1u128) == ((w >> ((b
            - 1u128) as u128)) & 1u128),
{
    assert(a < 128 && a + b < 128 && b == 0 ==> (((((w << 1u128) | 1u128) << a) >> (a + b))
        & 1u128) == 1u128) by (bit_vector);
    assert(a < 128 && a + b < 128 && b >= 1 ==> (((((w << 1u128) | 1u128) << a) >> (a + b))
        & 1u128) == ((w >> ((b - 1u128) as u128)) & 1u128)) by (bit_vector);
}

/// Inserting a packet number already counted as seen changes nothing.
pub proof fn lemma_dedup_marked_insert(d: (u128, u64), packet: u64)
    requires
        dedup_marked(d, packet),
    ensures
        dedup_after(d, packet) == d,
{
    let (w, next) = d;
    let dist = next - 1 - packet;
    if 1 <= dist < WINDOW_SIZE {
        let k = (dist - 1) as u128;
        assert(k < 128 && (w >> k) & 1 == 1 ==> w | (1u128 << k) == w) by (bit_vector);
    }
}

/// A packet number once inserted is counted as seen from then on, and
/// inserting a packet forgets none of those seen before: a later insert of
/// any of them reports a possible duplicate.
pub proof fn lemma_dedup_insert(d: (u128, u64), packet: u64)
    requires
        packet < u64::MAX,
    ensures
        dedup_marked(dedup_after(d, packet), packet),
        forall|m: u64| dedup_marked(d, m) ==> #[trigger] dedup_marked(dedup_after(d, packet), m),
{
    let (w, next) = d;
    let d2 = dedup_after(d, packet);
    if packet >= next {
        let diff = packet - next;
        assert forall|m: u64| dedup_marked(d, m) implies #[trigger] dedup_marked(d2, m) by {
            let dist = next - 1 - m;
            let dist2 = packet - m;
            assert(dist2 == diff + dist + 1);
            if dist2 < WINDOW_SIZE {
                lemma_window_shift(w, diff as u128, dist as u128);
                if dist >= 1 {
                    assert(((w >> ((dist - 1) as u128)) & 1) == 1);
                }
            }
        }
    } else {
        let dist = next - 1 - packet;
        if 1 <= dist < WINDOW_SIZE {
            let bit = (dist - 1) as u128;
            assert(bit < 128 ==> ((w | (1u128 << bit)) >> bit) & 1u128 == 1u128) by (bit_vector);
            assert forall|m: u64| dedup_marked(d, m) implies #[trigger] dedup_marked(d2, m) by {
                let dm = next - 1 - m;
                if 1 <= dm < WINDOW_SIZE {
                    let k = (dm - 1) as u128;
                    assert(k < 128 && (w >> k) & 1u128 == 1u128 ==> ((w | (1u128 << bit)) >> k)
                        & 1u128 == 1u128) by (bit_vector);
                }
            }
        }
    }
}

/// The state of the deduplicator after inserting `ps`, in order.
pub open spec fn dedup_after_all(d: (u128, u64), ps: Seq<u64>) -> (u128, u64)
    decreases ps.len(),
{
    if ps.len() == 0 {
        d
    } else {
        dedup_after(dedup_after_all(d, ps.drop_last()), ps.last())
    }
}

/// After a run of inserts, every packet number inserted, and every one
/// seen before, is counted as seen: inserting any of them again reports a
/// possible duplicate.
pub proof fn lemma_dedup_inserted_all(d: (u128, u64), ps: Seq<u64>)
    requires
        forall|i: int| 0 <= i < ps.len() ==> #[trigger] ps[i] < u64::MAX,
    ensures
        forall|i: int| 0 <= i < ps.len() ==> dedup_marked(dedup_after_all(d, ps), #[trigger] ps[i]),
        forall|m: u64| dedup_marked(d, m) ==> #[trigger] dedup_marked(dedup_after_all(d, ps), m),
    decreases ps.len(),
{
    if ps.len() > 0 {
        let init = ps.drop_last();
        assert forall|i: int| 0 <= i < init.len() implies #[trigger] init[i] < u64::MAX by {
            assert(init[i] == ps[i]);
        }
        lemma_dedup_inserted_all(d, init);
        let d1 = dedup_after_all(d, init);
        assert(ps.last() == ps[ps.len() - 1]);
        lemma_dedup_insert(d1, ps.last());
        assert forall|i: int| 0 <= i < ps.len() implies dedup_marked(
            dedup_after_all(d, ps),
            #[trigger] ps[i],
        ) by {
            if i < ps.len() - 1 {
                assert(ps[i] == init[i]);
                assert(dedup_marked(d1, init[i]));
            }
        }
    }
}

/// Indicates which data is available for sending
#[derive(Clone, Copy, PartialEq, Eq, Debug, Structural)]
pub struct SendableFrames {
    pub acks: bool,
    pub other: bool,
}

impl SendableFrames {
    /// Whether no data is sendable
    pub fn is_empty(&self) -> (r: bool)
        ensures
            r == (!self.acks && !self.other),
    {
        !self.acks && !self.other
    }
}

pub struct PendingAcks {
    /// Whether we should send an ACK immediately, even if that means sending an
    /// ACK-only packet
    pub immediate_ack_required: bool,
    /// The number of ack-eliciting packets received since the last ACK frame
    /// was sent
    pub ack_eliciting_since_last_ack_sent: u64,
    pub non_ack_eliciting_since_last_ack_sent: u64,
    pub ack_eliciting_threshold: u64,
    /// The reordering threshold, controlling how we respond to out-of-order
    /// ack-eliciting packets
    pub reordering_threshold: u64,
    /// The earliest ack-eliciting packet since the last ACK was sent, used to
    /// calculate when the delayed ACK deadline elapses
    pub earliest_ack_eliciting_since_last_ack_sent: Option<u64>,
    /// The packet number ranges of ack-eliciting packets the peer hasn't
    /// confirmed receipt of ACKs for
    pub ranges: RangeSet,
    /// The packet with the largest packet number, and the time upon which it
    /// was received
    pub largest_packet: Option<(u64, u64)>,
    /// The ack-eliciting packet we have received with the largest packet number
    pub largest_ack_eliciting_packet: Option<u64>,
    /// The largest acknowledged packet number sent in an ACK frame
    pub largest_acked: Option<u64>,
}

impl PendingAcks {
    /// The ranges are well formed.
    pub open spec fn wf(&self) -> bool {
        self.ranges.wf()
    }

    /// Whether an ACK frame is to be sent.
    pub open spec fn spec_can_send(&self) -> bool {
        self.immediate_ack_required && self.ranges@.len() != 0
    }

    pub fn new() -> (r: Self)
        ensures
            r.wf(),
            r.immediate_ack_required == false,
            r.ack_eliciting_since_last_ack_sent == 0,
            r.non_ack_eliciting_since_last_ack_sent == 0,
            r.ack_eliciting_threshold == 1,
            r.reordering_threshold == 1,
            r.earliest_ack_eliciting_since_last_ack_sent is None,
            r.ranges@.len() == 0,
            r.largest_packet is None,
            r.largest_ack_eliciting_packet is None,
            r.largest_acked is None,
    {
        PendingAcks {
            immediate_ack_required: false,
            ack_eliciting_since_last_ack_sent: 0,
            non_ack_eliciting_since_last_ack_sent: 0,
            ack_eliciting_threshold: 1,
            reordering_threshold: 1,
            earliest_ack_eliciting_since_last_ack_sent: None,
            ranges: RangeSet::new(),
            largest_packet: None,
            largest_ack_eliciting_packet: None,
            largest_acked: None,
        }
    }

    pub fn set_immediate_ack_required(&mut self)
        ensures
            *final(self) == (PendingAcks { immediate_ack_required: true, ..*old(self) }),
    {
        self.immediate_ack_required = true;
    }

    pub fn on_ack_delay_timeout(&mut self)
        ensures
            *final(self) == (PendingAcks {
                immediate_ack_required: old(self).ack_eliciting_since_last_ack_sent > 0,
                ..*old(self)
            }),
    {
        self.immediate_ack_required = self.ack_eliciting_since_last_ack_sent > 0;
    }

    /// Whether any ACK frames can be sent
    pub fn can_send(&self) -> (r: bool)
        ensures
            r == self.spec_can_send(),
    {
        self.immediate_ack_required && !self.ranges.is_empty()
    }

    /// Returns the delay since the packet with the largest packet number was
    /// received
    pub fn ack_delay(&self, now: u64) -> (r: u64)
        requires
            self.largest_packet matches Some((_, received)) ==> received <= now,
        ensures
            r == match self.largest_packet {
                Some((_, received)) => (now - received) as u64,
                None => 0,
            },
    {
        match self.largest_packet {
            Some((_, received)) => now - received,
            None => 0,
        }
    }

    /// Returns the set of currently pending ACK ranges
    pub fn ranges(&self) -> (r: &RangeSet)
        ensures
            r == &self.ranges,
    {
        &self.ranges
    }
}

} // verus!
