//! The mathematical model of a scheduler: which ticks are pings, and where
//! a request for the next ping leads.

use crate::scheduler::LCG;
use vstd::prelude::*;

verus! {

/// Milliseconds in one tick.
pub const TICK_MS: i64 = 100;

/// The last tick whose timestamp in milliseconds still fits an `i64`.
pub const MAX_TICK: i64 = 92_233_720_368_547_758;

/// The tick that a millisecond timestamp falls in: the quotient by 100,
/// rounded toward zero.
pub open spec fn tick_of(ms: int) -> int {
    if ms >= 0 {
        ms / 100
    } else {
        -((-ms) / 100)
    }
}

/// What a scheduler stands for: the time of its last ping in milliseconds,
/// the desired average gap in seconds, and the generator as it is at the
/// tick of that time.
pub struct Schedule {
    pub time: int,
    pub gap: nat,
    pub lcg: LCG,
}

impl Schedule {
    /// The time fits an `i64`, the gap is positive and fits a `u64`, and the
    /// generator is well formed.
    pub open spec fn wf(self) -> bool {
        &&& i64::MIN <= self.time <= i64::MAX
        &&& 0 < self.gap <= u64::MAX
        &&& self.lcg.wf()
    }

    /// The tick of the stored time.
    pub open spec fn tick(self) -> int {
        tick_of(self.time)
    }

    /// The acceptance bound: a tick is a ping when the generator's value at
    /// it is below `modulus / (gap * 10)`, rounded down.
    pub open spec fn threshold(self) -> int {
        (self.lcg.modulus as int) / (self.gap as int * 10)
    }

    /// The generator's value at tick `t`, for `t` at or after the stored tick.
    pub open spec fn value_at(self, t: int) -> int {
        self.lcg.advanced((t - self.tick()) as nat).state as int
    }

    /// Whether tick `t` is a ping of this schedule: it lies after the stored
    /// tick, its timestamp is representable, and the generator's value at it
    /// is below the threshold.
    pub open spec fn is_ping(self, t: int) -> bool {
        &&& self.tick() < t <= MAX_TICK
        &&& self.value_at(t) < self.threshold()
    }

    /// Whether `t` is the earliest ping after tick `from`.
    pub open spec fn is_first_ping_after(self, from: int, t: int) -> bool {
        &&& from < t
        &&& self.is_ping(t)
        &&& forall|u: int| from < u < t ==> !self.is_ping(u)
    }

    /// Whether no tick after `from` is a ping.
    pub open spec fn no_ping_after(self, from: int) -> bool {
        forall|u: int| from < u ==> !self.is_ping(u)
    }

    /// The earliest ping at or after tick `t`, if there is one.
    pub open spec fn first_ping_from(self, t: int) -> Option<int>
        decreases MAX_TICK + 1 - t,
    {
        if t > MAX_TICK {
            None
        } else if self.is_ping(t) {
            Some(t)
        } else {
            self.first_ping_from(t + 1)
        }
    }

    /// The tick of the next ping for a request at time `cur`: the earliest
    /// ping strictly after the tick of `cur`.
    pub open spec fn next_ping(self, cur: int) -> Option<int> {
        self.first_ping_from(tick_of(cur) + 1)
    }

    /// The schedule moved to tick `t`: the time is the start of that tick and
    /// the generator has been advanced by the ticks in between.
    pub open spec fn at_tick(self, t: int) -> Schedule {
        Schedule {
            time: t * 100,
            gap: self.gap,
            lcg: self.lcg.advanced((t - self.tick()) as nat),
        }
    }

    /// Whether a request at `cur` finds no ping: `cur` is not before the
    /// stored time and no tick after it, up to the last representable one,
    /// is a ping.
    pub open spec fn exhausted_at(self, cur: int) -> bool {
        cur >= self.time && self.next_ping(cur) is None
    }

    /// The schedule after a request for the next ping at time `cur`. A
    /// request before the stored time changes nothing, and so does one that
    /// finds no ping; otherwise the schedule moves to the next ping.
    pub open spec fn advance_to_next(self, cur: int) -> Schedule {
        if cur < self.time {
            self
        } else {
            match self.next_ping(cur) {
                Some(t) => self.at_tick(t),
                None => self,
            }
        }
    }

    /// The schedule after producing one ping.
    pub open spec fn next(self) -> Schedule {
        self.advance_to_next(self.time)
    }

    /// The schedule after producing `n` pings one after the other.
    pub open spec fn after(self, n: nat) -> Schedule
        decreases n,
    {
        if n == 0 {
            self
        } else {
            self.next().after((n - 1) as nat)
        }
    }

    /// The timestamp of the ping with index `n`, counting from zero, or
    /// `None` when fewer than `n + 1` pings are left.
    pub open spec fn nth_ping(self, n: nat) -> Option<int>
        decreases n,
    {
        if self.exhausted_at(self.time) {
            None
        } else if n == 0 {
            Some(self.next().time)
        } else {
            self.next().nth_ping((n - 1) as nat)
        }
    }

    /// The timestamps of the first `n` pings, or of all that are left when
    /// those are fewer.
    pub open spec fn pings(self, n: nat) -> Seq<int>
        decreases n,
    {
        if n == 0 || self.exhausted_at(self.time) {
            Seq::empty()
        } else {
            seq![self.next().time] + self.next().pings((n - 1) as nat)
        }
    }
}

/// A sequence of millisecond timestamps as mathematical integers.
pub open spec fn millis(times: Seq<i64>) -> Seq<int> {
    times.map_values(|ms: i64| ms as int)
}

impl Schedule {
    /// What `first_ping_from` finds is the earliest ping from `t` on, and
    /// where it finds nothing there is none.
    pub proof fn lemma_first_ping_from(self, t: int)
        ensures
            match self.first_ping_from(t) {
                Some(p) => self.is_first_ping_after(t - 1, p),
                None => self.no_ping_after(t - 1),
            },
        decreases MAX_TICK + 1 - t,
    {
        if t <= MAX_TICK && !self.is_ping(t) {
            self.lemma_first_ping_from(t + 1);
        }
    }

    /// The earliest ping after a tick is what `first_ping_from` finds from
    /// the tick that follows.
    pub proof fn lemma_first_ping_from_unique(self, t: int, p: int)
        requires
            self.is_first_ping_after(t - 1, p),
        ensures
            self.first_ping_from(t) == Some(p),
    {
        self.lemma_first_ping_from(t);
    }

    /// Moving a schedule to a later tick keeps the gap and the threshold
    /// and leaves a well-formed schedule.
    pub proof fn lemma_at_tick_wf(self, t: int)
        requires
            self.wf(),
            self.tick() <= t <= MAX_TICK,
        ensures
            self.at_tick(t).wf(),
            self.at_tick(t).tick() == t,
            self.at_tick(t).gap == self.gap,
            self.at_tick(t).threshold() == self.threshold(),
            self.tick() < t ==> self.at_tick(t).time > self.time,
    {
        self.lcg.lemma_advanced_wf((t - self.tick()) as nat);
    }

    /// The generator's value at a tick does not depend on the tick from
    /// which the schedule looks at it.
    pub proof fn lemma_at_tick_value(self, t: int, u: int)
        requires
            self.wf(),
            self.tick() <= t <= u,
        ensures
            self.at_tick(t).value_at(u) == self.value_at(u),
            self.at_tick(t).lcg.advanced((u - t) as nat) == self.lcg.advanced(
                (u - self.tick()) as nat,
            ),
    {
        self.lcg.lemma_advanced_twice((t - self.tick()) as nat, (u - t) as nat);
    }

    /// Moving a schedule to tick `t` keeps every ping after `t`.
    pub proof fn lemma_at_tick_is_ping(self, t: int, u: int)
        requires
            self.wf(),
            self.tick() <= t < u,
            t <= MAX_TICK,
        ensures
            self.at_tick(t).is_ping(u) == self.is_ping(u),
    {
        self.lemma_at_tick_wf(t);
        self.lemma_at_tick_value(t, u);
    }

    /// Moving a schedule to tick `t` keeps the earliest ping from any later
    /// tick on.
    pub proof fn lemma_at_tick_first_ping(self, t: int, u: int)
        requires
            self.wf(),
            self.tick() <= t < u,
            t <= MAX_TICK,
        ensures
            self.at_tick(t).first_ping_from(u) == self.first_ping_from(u),
        decreases MAX_TICK + 1 - u,
    {
        if u <= MAX_TICK {
            self.lemma_at_tick_is_ping(t, u);
            self.lemma_at_tick_first_ping(t, u + 1);
        }
    }

    /// Moving to tick `t` and from there to tick `u` is moving to `u`.
    pub proof fn lemma_at_tick_twice(self, t: int, u: int)
        requires
            self.wf(),
            self.tick() <= t <= u,
        ensures
            self.at_tick(t).at_tick(u) == self.at_tick(u),
    {
        self.lemma_at_tick_value(t, u);
    }

    /// Once no ping is left, producing pings changes nothing.
    pub proof fn lemma_after_exhausted(self, n: nat)
        requires
            self.exhausted_at(self.time),
        ensures
            self.after(n) == self,
        decreases n,
    {
        if n > 0 {
            self.lemma_after_exhausted((n - 1) as nat);
        }
    }

    /// With a threshold of zero no tick is a ping.
    pub proof fn lemma_zero_threshold(self, t: int)
        requires
            self.threshold() <= 0,
        ensures
            self.first_ping_from(t) is None,
    {
        self.lemma_first_ping_from(t);
    }

    /// A request that is answered moves the schedule to a ping strictly
    /// after the request; any request leaves a well-formed schedule whose
    /// time has not gone back.
    pub proof fn lemma_advance_to_next(self, cur: int)
        requires
            self.wf(),
            i64::MIN <= cur <= i64::MAX,
        ensures
            self.advance_to_next(cur).wf(),
            self.advance_to_next(cur).gap == self.gap,
            self.advance_to_next(cur).time >= self.time,
            cur >= self.time && !self.exhausted_at(cur) ==> {
                &&& self.advance_to_next(cur).time > cur
                &&& self.advance_to_next(cur).time == self.next_ping(cur).unwrap() * 100
                &&& self.advance_to_next(cur).tick() == self.next_ping(cur).unwrap()
                &&& self.is_first_ping_after(tick_of(cur), self.next_ping(cur).unwrap())
            },
            self.exhausted_at(cur) ==> self.no_ping_after(tick_of(cur)),
    {
        if cur >= self.time {
            self.lemma_first_ping_from(tick_of(cur) + 1);
            if let Some(t) = self.next_ping(cur) {
                self.lemma_at_tick_wf(t);
            }
        }
    }
}

} // verus!
