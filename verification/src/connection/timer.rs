//! The timers of a connection, and which of them fires next. Times are
//! nanoseconds since a start the caller chooses.
use vstd::prelude::*;

verus! {

/// The number of kinds of timer.
pub const TIMER_COUNT: usize = 9;

#[derive(Debug, Copy, Clone, Eq, PartialEq, Structural)]
pub enum Timer {
    /// When to send an ack-eliciting probe packet or declare unacked packets
    /// lost
    LossDetection,
    /// When to close the connection after no activity
    Idle,
    /// When the close timer expires, the connection has been gracefully
    /// terminated.
    Close,
    /// When keys are discarded because they should not be needed anymore
    KeyDiscard,
    /// When to give up on validating a new path to the peer
    PathValidation,
    /// When to send a `PING` frame to keep the connection alive
    KeepAlive,
    /// When pacing will allow us to send a packet
    Pacing,
    /// When to invalidate old CID and proactively push new one via
    /// NEW_CONNECTION_ID frame
    PushNewCid,
    /// When to send an immediate ACK if there are unacked ack-eliciting packets
    /// of the peer
    MaxAckDelay,
}

/// The timer at position `i` of the table.
pub open spec fn timer_at(i: int) -> Timer {
    if i == 0 {
        Timer::LossDetection
    } else if i == 1 {
        Timer::Idle
    } else if i == 2 {
        Timer::Close
    } else if i == 3 {
        Timer::KeyDiscard
    } else if i == 4 {
        Timer::PathValidation
    } else if i == 5 {
        Timer::KeepAlive
    } else if i == 6 {
        Timer::Pacing
    } else if i == 7 {
        Timer::PushNewCid
    } else {
        Timer::MaxAckDelay
    }
}

impl Timer {
    /// The position of the timer in the table.
    pub open spec fn spec_index(self) -> int {
        match self {
            Timer::LossDetection => 0,
            Timer::Idle => 1,
            Timer::Close => 2,
            Timer::KeyDiscard => 3,
            Timer::PathValidation => 4,
            Timer::KeepAlive => 5,
            Timer::Pacing => 6,
            Timer::PushNewCid => 7,
            Timer::MaxAckDelay => 8,
        }
    }

    pub fn index(self) -> (r: usize)
        ensures
            r == self.spec_index(),
            r < TIMER_COUNT,
            timer_at(r as int) == self,
    {
        match self {
            Timer::LossDetection => 0,
            Timer::Idle => 1,
            Timer::Close => 2,
            Timer::KeyDiscard => 3,
            Timer::PathValidation => 4,
            Timer::KeepAlive => 5,
            Timer::Pacing => 6,
            Timer::PushNewCid => 7,
            Timer::MaxAckDelay => 8,
        }
    }

    /// The timer at position `i` of the table.
    pub fn from_index(i: usize) -> (r: Timer)
        requires
            i < TIMER_COUNT,
        ensures
            r == timer_at(i as int),
            r.spec_index() == i,
    {
        if i == 0 {
            Timer::LossDetection
        } else if i == 1 {
            Timer::Idle
        } else if i == 2 {
            Timer::Close
        } else if i == 3 {
            Timer::KeyDiscard
        } else if i == 4 {
            Timer::PathValidation
        } else if i == 5 {
            Timer::KeepAlive
        } else if i == 6 {
            Timer::Pacing
        } else if i == 7 {
            Timer::PushNewCid
        } else {
            Timer::MaxAckDelay
        }
    }
}

/// Whether `i` is the first set timer with the earliest time in `data`.
pub open spec fn is_earliest(data: Seq<Option<u64>>, i: int) -> bool {
    &&& 0 <= i < data.len()
    &&& data[i] is Some
    &&& forall|j: int| 0 <= j < data.len() && data[j] is Some ==> data[i]->0 <= #[trigger] data[j]->0
    &&& forall|j: int| 0 <= j < i && data[j] is Some ==> data[i]->0 < #[trigger] data[j]->0
}

/// A table of the time at which each kind of timer fires, if it is set.
pub struct TimerTable {
    pub data: [Option<u64>; 9],
}

impl TimerTable {
    /// No timer set.
    pub fn new() -> (r: Self)
        ensures
            forall|i: int| 0 <= i < TIMER_COUNT ==> (#[trigger] r.data@[i]) is None,
    {
        TimerTable { data: [None, None, None, None, None, None, None, None, None] }
    }

    pub fn set(&mut self, timer: Timer, time: u64)
        ensures
            final(self).data@ == old(self).data@.update(timer.spec_index(), Some(time)),
    {
        let i = timer.index();
        self.data[i] = Some(time);
    }

    pub fn stop(&mut self, timer: Timer)
        ensures
            final(self).data@ == old(self).data@.update(timer.spec_index(), None),
    {
        let i = timer.index();
        self.data[i] = None;
    }

    /// The earliest time a timer is set to, and the first timer set to it.
    pub fn next_deadline(&self) -> (r: Option<(Timer, u64)>)
        ensures
            match r {
                Some((t, time)) => is_earliest(self.data@, t.spec_index()) && self.data@[t.spec_index()]
                    == Some(time),
                None => forall|i: int| 0 <= i < TIMER_COUNT ==> (#[trigger] self.data@[i]) is None,
            },
    {
        let mut best: Option<usize> = None;
        let mut i: usize = 0;
        while i < TIMER_COUNT
            invariant
                i <= TIMER_COUNT,
                self.data@.len() == TIMER_COUNT,
                match best {
                    Some(b) => b < i && is_earliest(self.data@.take(i as int), b as int),
                    None => forall|j: int| 0 <= j < i ==> (#[trigger] self.data@[j]) is None,
                },
            decreases TIMER_COUNT - i,
        {
            let ghost prefix = self.data@.take(i as int);
            assert(self.data@.take(i + 1) == prefix.push(self.data@[i as int]));
            if let Some(t) = self.data[i] {
                match best {
                    Some(b) => {
                        if t < self.data[b].unwrap() {
                            best = Some(i);
                        }
                    },
                    None => {
                        best = Some(i);
                    },
                }
            }
            i += 1;
        }
        assert(self.data@.take(TIMER_COUNT as int) == self.data@);
        match best {
            Some(b) => Some((Timer::from_index(b), self.data[b].unwrap())),
            None => None,
        }
    }

    /// The timer that fires at `now`: the first timer set to the earliest
    /// time, if that time has come, which is then cleared.
    pub fn poll(&mut self, now: u64) -> (r: Option<Timer>)
        ensures
            match r {
                Some(t) => {
                    &&& is_earliest(old(self).data@, t.spec_index())
                    &&& old(self).data@[t.spec_index()]->0 <= now
                    &&& final(self).data@ == old(self).data@.update(t.spec_index(), None)
                },
                None => {
                    &&& final(self).data@ == old(self).data@
                    &&& forall|i: int|
                        0 <= i < TIMER_COUNT && (#[trigger] old(self).data@[i]) is Some ==> now
                            < old(self).data@[i]->0
                },
            },
    {
        match self.next_deadline() {
            None => None,
            Some((timer, earliest)) => {
                if now >= earliest {
                    self.stop(timer);
                    Some(timer)
                } else {
                    None
                }
            },
        }
    }
}

} // verus!
