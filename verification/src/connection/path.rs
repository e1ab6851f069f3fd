//! The network path of a connection: round-trip time, congestion window,
//! bytes in flight and the packets waiting to be sent. Times and durations
//! are nanoseconds.
use std::collections::VecDeque;

use bytes::Bytes;
use vstd::prelude::*;

use crate::packet::SpaceId;

use super::space::{PacketSpace, SentPacket, sent_insert, sent_sorted};

verus! {

/// The round-trip time assumed before any is measured: 333 ms.
pub const MIN_RTT: u64 = 333_000_000;

/// The size of the first packets sent.
pub const INITIAL_MTU: usize = 1472;

/// A bound on durations that keeps the estimator's arithmetic in 64 bits.
pub const RTT_LIMIT: u64 = 0x0100_0000_0000_0000;

/// RTT estimation for a particular network path
#[derive(Debug, Clone, Copy)]
pub struct RttEstimator {
    /// The most recent RTT measurement made when receiving an ack for a
    /// previously unacked packet
    pub latest: u64,
    /// The smoothed RTT of the connection, computed as described in RFC6298
    pub smoothed: Option<u64>,
    /// The RTT variance, computed as described in RFC6298
    pub var: u64,
    /// The minimum RTT seen in the connection, ignoring ack delay.
    pub min: u64,
}

impl RttEstimator {
    pub open spec fn spec_get(&self) -> u64 {
        match self.smoothed {
            Some(s) => s,
            None => self.latest,
        }
    }

    pub open spec fn spec_conservative(&self) -> u64 {
        if self.spec_get() >= self.latest {
            self.spec_get()
        } else {
            self.latest
        }
    }

    /// All its durations stay below `RTT_LIMIT`.
    pub open spec fn bounded(&self) -> bool {
        &&& self.latest < RTT_LIMIT
        &&& self.var < RTT_LIMIT
        &&& self.min < RTT_LIMIT
        &&& self.smoothed matches Some(s) ==> s < RTT_LIMIT
    }

    pub fn new(initial_rtt: u64) -> (r: Self)
        ensures
            r == (RttEstimator {
                latest: initial_rtt,
                smoothed: None,
                var: initial_rtt / 2,
                min: initial_rtt,
            }),
    {
        RttEstimator { latest: initial_rtt, smoothed: None, var: initial_rtt / 2, min: initial_rtt }
    }

    /// The current best RTT estimation.
    pub fn get(&self) -> (r: u64)
        ensures
            r == self.spec_get(),
    {
        match self.smoothed {
            Some(s) => s,
            None => self.latest,
        }
    }

    /// Conservative estimate of RTT
    ///
    /// Takes the maximum of smoothed and latest RTT, as recommended
    /// in 6.1.2 of the recovery spec (draft 29).
    pub fn conservative(&self) -> (r: u64)
        ensures
            r == self.spec_conservative(),
            r >= self.latest,
            r >= self.spec_get(),
    {
        let g = self.get();
        if g >= self.latest {
            g
        } else {
            self.latest
        }
    }

    /// Update latest/smoothed/min RTT and variance from a new RTT sample
    /// and ACK delay (RFC 9002, section 5). The first sample sets the
    /// latest, minimum and smoothed RTT to the sample and the variance to
    /// half of it; a later one lowers the minimum, and moves the smoothed
    /// RTT and the variance towards the sample less its ACK delay, where
    /// that stays above the minimum.
    pub fn update(&mut self, ack_delay: u64, rtt: u64)
        requires
            old(self).bounded(),
            ack_delay < RTT_LIMIT,
            rtt < RTT_LIMIT,
        ensures
            final(self).bounded(),
            final(self).latest == rtt,
            match old(self).smoothed {
                None => {
                    &&& final(self).min == rtt
                    &&& final(self).smoothed == Some(rtt)
                    &&& final(self).var == rtt / 2
                },
                Some(smoothed) => {
                    let min = if old(self).min <= rtt {
                        old(self).min
                    } else {
                        rtt
                    };
                    let adjusted = if rtt > min + ack_delay {
                        rtt - ack_delay
                    } else {
                        rtt as int
                    };
                    let diff = if smoothed > adjusted {
                        smoothed - adjusted
                    } else {
                        adjusted - smoothed
                    };
                    &&& final(self).min == min
                    &&& final(self).var == (old(self).var * 3 + diff) / 4
                    &&& final(self).smoothed == Some(((smoothed * 7 + adjusted) / 8) as u64)
                },
            },
    {
        self.latest = rtt;
        match self.smoothed {
            None => {
                // First RTT sample (RFC 9002 §5.3 first measurement)
                self.min = rtt;
                self.smoothed = Some(rtt);
                self.var = rtt / 2;
            },
            Some(smoothed) => {
                // Update min RTT (always ignores ack_delay per RFC 9002 §5.2)
                if rtt < self.min {
                    self.min = rtt;
                }
                // Adjust for ack delay, but never go below min_rtt
                let adjusted_rtt = if rtt > self.min + ack_delay {
                    rtt - ack_delay
                } else {
                    rtt
                };
                // rttvar = 3/4 * rttvar + 1/4 * |smoothed_rtt - adjusted_rtt|
                let diff = if smoothed > adjusted_rtt {
                    smoothed - adjusted_rtt
                } else {
                    adjusted_rtt - smoothed
                };
                self.var = (self.var * 3 + diff) / 4;
                // smoothed_rtt = 7/8 * smoothed_rtt + 1/8 * adjusted_rtt
                self.smoothed = Some((smoothed * 7 + adjusted_rtt) / 8);
            },
        }
    }
}

/// Summary statistics of packets that have been sent on a particular path, but
/// which have not yet been acked or deemed lost
#[derive(Debug, Clone, Copy)]
pub struct InFlight {
    /// Sum of the sizes of all sent packets considered "in flight" by
    /// congestion control
    pub bytes: u64,
    /// Number of packets in flight containing frames other than ACK and PADDING
    pub ack_eliciting: u64,
}

impl InFlight {
    pub fn new() -> (r: Self)
        ensures
            r.bytes == 0,
            r.ack_eliciting == 0,
    {
        InFlight { bytes: 0, ack_eliciting: 0 }
    }

    /// Counts a packet sent.
    pub fn insert(&mut self, packet: &SentPacket)
        requires
            old(self).bytes + packet.size <= u64::MAX,
            old(self).ack_eliciting < u64::MAX,
        ensures
            final(self).bytes == old(self).bytes + packet.size,
            final(self).ack_eliciting == old(self).ack_eliciting + (if packet.ack_eliciting {
                1int
            } else {
                0int
            }),
    {
        self.bytes = self.bytes + packet.size as u64;
        self.ack_eliciting = self.ack_eliciting + if packet.ack_eliciting {
            1
        } else {
            0
        };
    }

    /// Update counters to account for a packet becoming acknowledged, lost, or
    /// abandoned
    pub fn remove(&mut self, packet: &SentPacket)
        requires
            old(self).bytes >= packet.size,
            packet.ack_eliciting ==> old(self).ack_eliciting >= 1,
        ensures
            final(self).bytes == old(self).bytes - packet.size,
            final(self).ack_eliciting == old(self).ack_eliciting - (if packet.ack_eliciting {
                1int
            } else {
                0int
            }),
    {
        self.bytes = self.bytes - packet.size as u64;
        self.ack_eliciting = self.ack_eliciting - if packet.ack_eliciting {
            1
        } else {
            0
        };
    }
}

/// A simple, standard congestion controller
#[derive(Debug, Clone, Copy)]
pub struct NewReno {
    /// Maximum number of bytes in flight that may be sent.
    pub window: u64,
    /// Slow start threshold in bytes. When the congestion window is below
    /// ssthresh, the mode is slow start and the window grows by the number of
    /// bytes acknowledged.
    pub ssthresh: u64,
    /// The time when QUIC first detects a loss, causing it to enter recovery.
    /// When a packet sent after this time is acknowledged, QUIC exits recovery.
    pub recovery_start_time: u64,
    /// Bytes which had been acked by the peer since leaving slow start
    pub bytes_acked: u64,
}

impl NewReno {
    /// A window of ten initial packets, in slow start.
    pub fn new(now: u64) -> (r: Self)
        ensures
            r == NewReno::spec_new(now),
    {
        NewReno {
            window: 10 * INITIAL_MTU as u64,
            ssthresh: u64::MAX,
            recovery_start_time: now,
            bytes_acked: 0,
        }
    }

    pub fn window(&self) -> (r: u64)
        ensures
            r == self.window,
    {
        self.window
    }
}

/// Packets that are scheduled to be sent
pub struct ScheduledPacket {
    pub packet: Bytes,
    pub meta_info: SentPacket,
}

/// What a sent packet tells the connection.
#[derive(Debug, Clone, Copy, PartialEq, Eq, Structural)]
pub struct PostSentInfo {
    pub ack_eliciting: bool,
    pub send_time: u64,
}

/// Description of a particular network path, without its socket: the
/// caller sends what `pop_scheduled` gives and reports it with `on_sent`.
pub struct NetworkPath {
    pub sending_queue: VecDeque<ScheduledPacket>,
    pub rtt: RttEstimator,
    pub congestion: NewReno,
    pub in_flight: InFlight,
    /// Number of the first packet sent on this path
    ///
    /// Used to determine whether a packet was sent on an earlier path.
    /// Insufficient to determine if a packet was sent on a later path.
    pub first_packet: Option<u64>,
}

impl NetworkPath {
    pub fn new(now: u64) -> (r: Self)
        ensures
            r.sending_queue@.len() == 0,
            r.rtt == (RttEstimator {
                latest: MIN_RTT,
                smoothed: None,
                var: MIN_RTT / 2,
                min: MIN_RTT,
            }),
            r.congestion == NewReno::spec_new(now),
            r.in_flight == (InFlight { bytes: 0, ack_eliciting: 0 }),
            r.first_packet is None,
    {
        NetworkPath {
            sending_queue: VecDeque::new(),
            rtt: RttEstimator::new(MIN_RTT),
            congestion: NewReno::new(now),
            in_flight: InFlight::new(),
            first_packet: None,
        }
    }

    /// Takes the packet at the head of the sending queue, to be sent.
    pub fn pop_scheduled(&mut self) -> (r: Option<ScheduledPacket>)
        ensures
            match r {
                Some(p) => old(self).sending_queue@.len() > 0 && p == old(self).sending_queue@[0]
                    && final(self).sending_queue@ == old(self).sending_queue@.drop_first(),
                None => old(self).sending_queue@.len() == 0 && final(self).sending_queue@ == old(
                    self,
                ).sending_queue@,
            },
            final(self).rtt == old(self).rtt,
            final(self).congestion == old(self).congestion,
            final(self).in_flight == old(self).in_flight,
            final(self).first_packet == old(self).first_packet,
    {
        let r = self.sending_queue.pop_front();
        proof {
            if r is Some {
                assert(self.sending_queue@ =~= old(self).sending_queue@.drop_first());
            }
        }
        r
    }

    /// Records a packet sent at `send_time`: it is in flight on this path
    /// and in its packet number space.
    pub fn on_sent(
        &mut self,
        spaces: &mut [PacketSpace; 3],
        meta_info: SentPacket,
        send_time: u64,
    ) -> (r: PostSentInfo)
        requires
            old(self).in_flight.bytes + meta_info.size <= u64::MAX,
            old(self).in_flight.ack_eliciting < u64::MAX,
            old(spaces)@[meta_info.space_id.spec_index() as int].in_flight + meta_info.size
                <= u64::MAX,
            sent_sorted(old(spaces)@[meta_info.space_id.spec_index() as int].sent_packets@),
            !meta_info.ack_eliciting && meta_info.number > old(
                spaces,
            )@[meta_info.space_id.spec_index() as int].largest_ack_eliciting_sent ==> old(
                spaces,
            )@[meta_info.space_id.spec_index() as int].unacked_non_ack_eliciting_tail < u64::MAX,
        ensures
            r == (PostSentInfo { ack_eliciting: meta_info.ack_eliciting, send_time }),
            final(self).in_flight.bytes == old(self).in_flight.bytes + meta_info.size,
            final(self).in_flight.ack_eliciting == old(self).in_flight.ack_eliciting + (if meta_info.ack_eliciting {
                1int
            } else {
                0int
            }),
            final(self).first_packet == match old(self).first_packet {
                Some(f) => Some(f),
                None => Some(meta_info.number),
            },
            final(self).sending_queue@ == old(self).sending_queue@,
            final(self).rtt == old(self).rtt,
            final(self).congestion == old(self).congestion,
            final(spaces)@[meta_info.space_id.spec_index() as int].sent_packets@ == sent_insert(
                old(spaces)@[meta_info.space_id.spec_index() as int].sent_packets@,
                SentPacket { time_sent: send_time, ..meta_info },
            ),
            sent_sorted(final(spaces)@[meta_info.space_id.spec_index() as int].sent_packets@),
            final(spaces)@[meta_info.space_id.spec_index() as int].in_flight == old(
                spaces,
            )@[meta_info.space_id.spec_index() as int].in_flight + meta_info.size,
            ({
                let i = meta_info.space_id.spec_index() as int;
                let f = final(spaces)@[i];
                f == (PacketSpace {
                    sent_packets: f.sent_packets,
                    in_flight: f.in_flight,
                    largest_ack_eliciting_sent: f.largest_ack_eliciting_sent,
                    unacked_non_ack_eliciting_tail: f.unacked_non_ack_eliciting_tail,
                    ..old(spaces)@[i]
                })
            }),
            forall|i: int|
                0 <= i < 3 && i != meta_info.space_id.spec_index() ==> #[trigger] final(spaces)@[i]
                    == old(spaces)@[i],
    {
        let mut meta_info = meta_info;
        meta_info.time_sent = send_time;
        let info = PostSentInfo { ack_eliciting: meta_info.ack_eliciting, send_time };
        self.in_flight.insert(&meta_info);
        if self.first_packet.is_none() {
            self.first_packet = Some(meta_info.number);
        }
        let i = meta_info.space_id.index();
        let removed = spaces[i].sent(meta_info);
        self.in_flight.bytes = self.in_flight.bytes.saturating_sub(removed);
        info
    }

    /// Remove `packet` with number `pn` from this path's congestion control
    /// counters, or return `false` if `pn` was sent before this path was
    /// established.
    pub fn remove_in_flight(&mut self, pn: u64, packet: &SentPacket) -> (r: bool)
        requires
            old(self).first_packet matches Some(first) && first <= pn ==> old(self).in_flight.bytes
                >= packet.size && (packet.ack_eliciting ==> old(self).in_flight.ack_eliciting
                >= 1),
        ensures
            r == (old(self).first_packet matches Some(first) && first <= pn),
            r ==> final(self).in_flight.bytes == old(self).in_flight.bytes - packet.size
                && final(self).in_flight.ack_eliciting == old(self).in_flight.ack_eliciting - (if packet.ack_eliciting {
                1int
            } else {
                0int
            }),
            !r ==> final(self).in_flight == old(self).in_flight,
            final(self).sending_queue@ == old(self).sending_queue@,
            final(self).rtt == old(self).rtt,
            final(self).congestion == old(self).congestion,
            final(self).first_packet == old(self).first_packet,
    {
        match self.first_packet {
            None => {
                return false;
            },
            Some(first) => {
                if first > pn {
                    return false;
                }
            },
        }
        self.in_flight.remove(packet);
        true
    }
}

impl NewReno {
    /// A window of ten packets of `INITIAL_MTU` bytes, in slow start.
    pub open spec fn spec_new(now: u64) -> NewReno {
        NewReno {
            window: (10 * INITIAL_MTU) as u64,
            ssthresh: u64::MAX,
            recovery_start_time: now,
            bytes_acked: 0,
        }
    }
}

} // verus!
