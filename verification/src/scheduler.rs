//! The tick generator and the ping scheduler that drives it.

use crate::modular::{
    lemma_residue_bound, lemma_residue_compose, lemma_residue_of_reduced_power,
    lemma_residue_zero_steps, pow_mod, scaled_residue,
};
use crate::schedule::{millis, tick_of, Schedule, MAX_TICK, TICK_MS};
use vstd::prelude::*;

verus! {

/// Multiplier of the default generator.
pub const DEFAULT_MULTIPLIER: u64 = 3125;

/// Modulus of the default generator.
pub const DEFAULT_MODULUS: u64 = 34359738337;

/// Seed of the default generator.
pub const DEFAULT_SEED: u64 = 20180809;

/// Default average gap between pings, in seconds (45 minutes).
pub const DEFAULT_GAP: u64 = 2700;

/// A linear congruential generator whose increment is zero.
#[derive(Debug, Clone, Copy, PartialEq, Eq)]
pub struct LCG {
    pub multiplier: u64,
    pub modulus: u64,
    pub state: u64,
}

impl LCG {
    /// A generator is well formed when its constants are positive and its
    /// state is reduced modulo the modulus.
    pub open spec fn wf(self) -> bool {
        &&& self.multiplier > 0
        &&& self.modulus > 0
        &&& self.state < self.modulus
    }

    /// The generator after `n` steps: the state becomes
    /// `multiplier^n * state mod modulus`, the constants stay.
    pub open spec fn advanced(self, n: nat) -> LCG {
        LCG {
            multiplier: self.multiplier,
            modulus: self.modulus,
            state: scaled_residue(
                self.multiplier as int,
                n,
                self.state as int,
                self.modulus as int,
            ) as u64,
        }
    }

    /// The generator after `n` single steps, taken one after the other.
    pub open spec fn stepped(self, n: nat) -> LCG
        decreases n,
    {
        if n == 0 {
            self
        } else {
            self.stepped((n - 1) as nat).advanced(1)
        }
    }

    /// Advancing keeps the constants and leaves a reduced state.
    pub proof fn lemma_advanced_wf(self, n: nat)
        requires
            self.modulus > 0,
        ensures
            self.advanced(n).multiplier == self.multiplier,
            self.advanced(n).modulus == self.modulus,
            self.advanced(n).state < self.modulus,
            self.advanced(n).state as int == scaled_residue(
                self.multiplier as int,
                n,
                self.state as int,
                self.modulus as int,
            ),
            self.wf() ==> self.advanced(n).wf(),
    {
        lemma_residue_bound(self.multiplier as int, n, self.state as int, self.modulus as int);
    }

    /// Advancing by `p` and then by `q` is advancing by `p + q`.
    pub proof fn lemma_advanced_twice(self, p: nat, q: nat)
        requires
            self.modulus > 0,
        ensures
            self.advanced(p).advanced(q) == self.advanced(p + q),
    {
        self.lemma_advanced_wf(p);
        lemma_residue_compose(
            self.multiplier as int,
            p,
            q,
            self.state as int,
            self.modulus as int,
        );
    }

    /// Advancing a well-formed generator by nothing changes nothing.
    pub proof fn lemma_advanced_zero(self)
        requires
            self.wf(),
        ensures
            self.advanced(0) == self,
    {
        lemma_residue_zero_steps(self.multiplier as int, self.state as int, self.modulus as int);
    }

    /// Jumps the generator `exp` steps ahead in one modular exponentiation.
    pub fn pow(&mut self, exp: u64)
        requires
            old(self).modulus > 0,
        ensures
            *final(self) == old(self).advanced(exp as nat),
            final(self).state < final(self).modulus,
    {
        let factor: u64 = pow_mod(self.multiplier, exp, self.modulus);
        proof {
            lemma_residue_of_reduced_power(
                self.multiplier as int,
                exp as nat,
                self.state as int,
                self.modulus as int,
            );
            self.lemma_advanced_wf(exp as nat);
            assert((factor as int) * (self.state as int) <= 0xffff_ffff_ffff_ffff
                * 0xffff_ffff_ffff_ffff) by (nonlinear_arith)
                requires
                    0 <= factor <= 0xffff_ffff_ffff_ffff,
                    0 <= self.state <= 0xffff_ffff_ffff_ffff,
            ;
        }
        let product: u128 = (factor as u128) * (self.state as u128);
        self.state = (product % (self.modulus as u128)) as u64;
    }

    /// Moves the generator one step ahead.
    pub fn next(&mut self)
        requires
            old(self).modulus > 0,
        ensures
            *final(self) == old(self).advanced(1),
            final(self).state < final(self).modulus,
    {
        self.pow(1)
    }
}

impl Default for LCG {
    /// The generator that every default scheduler shares.
    fn default() -> (lcg: LCG)
        ensures
            lcg == (LCG {
                multiplier: DEFAULT_MULTIPLIER,
                modulus: DEFAULT_MODULUS,
                state: DEFAULT_SEED,
            }),
            lcg.wf(),
    {
        LCG { multiplier: DEFAULT_MULTIPLIER, modulus: DEFAULT_MODULUS, state: DEFAULT_SEED }
    }
}

/// Why a request for the next ping could not be answered.
#[derive(Debug, Clone, Copy, PartialEq, Eq)]
pub enum ScheduleError {
    /// No tick after the request is a ping before timestamps stop fitting
    /// an `i64` of milliseconds.
    Exhausted,
}

/// A ping scheduler: the time of the last ping, the desired average gap and
/// the generator, positioned at the tick of that time.
#[derive(Debug, Clone, Copy)]
pub struct State {
    /// Milliseconds since the epoch.
    time: i64,
    /// Desired average gap length in seconds.
    gap: u64,
    lcg: LCG,
}

impl View for State {
    type V = Schedule;

    closed spec fn view(&self) -> Schedule {
        Schedule { time: self.time as int, gap: self.gap as nat, lcg: self.lcg }
    }
}

impl State {
    /// A scheduler whose last ping was at `time` milliseconds, with an
    /// average gap of `gap` seconds.
    pub fn new(time: i64, gap: u64, lcg: LCG) -> (s: State)
        requires
            gap > 0,
            lcg.wf(),
        ensures
            s@ == (Schedule { time: time as int, gap: gap as nat, lcg }),
            s@.wf(),
    {
        State { time, gap, lcg }
    }

    /// The default scheduler, started at `n` milliseconds since the epoch.
    pub fn from_millis(n: i64) -> (s: State)
        ensures
            s@ == (Schedule {
                time: n as int,
                gap: DEFAULT_GAP as nat,
                lcg: LCG {
                    multiplier: DEFAULT_MULTIPLIER,
                    modulus: DEFAULT_MODULUS,
                    state: DEFAULT_SEED,
                },
            }),
            s@.wf(),
    {
        State { time: n, gap: DEFAULT_GAP, lcg: LCG::default() }
    }

    /// The generator, as it is at the tick of the last ping.
    pub fn lcg(&self) -> (lcg: &LCG)
        ensures
            *lcg == self@.lcg,
    {
        &self.lcg
    }

    /// The time of the last ping, in milliseconds since the epoch.
    pub fn time(&self) -> (time: i64)
        ensures
            time == self@.time,
    {
        self.time
    }

    /// The desired average gap, in seconds.
    pub fn gap(&self) -> (gap: u64)
        ensures
            gap == self@.gap,
    {
        self.gap
    }

    /// The acceptance bound of this scheduler.
    pub fn threshold(&self) -> (bound: u64)
        requires
            self@.wf(),
        ensures
            bound == self@.threshold(),
    {
        let ticks_per_gap: u128 = (self.gap as u128) * 10;
        let bound: u128 = (self.lcg.modulus as u128) / ticks_per_gap;
        bound as u64
    }

    /// Moves the scheduler to the first ping after `cur`, a time in
    /// milliseconds since the epoch: to the earliest tick after the tick of
    /// `cur` at which the generator's value is below the threshold. A `cur`
    /// before the time of the last ping changes nothing. Where no ping is
    /// left the scheduler stays as it was and the error says so.
    pub fn next_time(&mut self, cur: i64) -> (r: Result<(), ScheduleError>)
        requires
            old(self)@.wf(),
        ensures
            final(self)@ == old(self)@.advance_to_next(cur as int),
            r == (if old(self)@.exhausted_at(cur as int) {
                Err(ScheduleError::Exhausted)
            } else {
                Ok(())
            }),
            final(self)@.wf(),
            final(self)@.time >= old(self)@.time,
            r is Ok && cur >= old(self)@.time ==> {
                &&& final(self)@.time > cur
                &&& final(self)@.time == final(self)@.tick() * 100
                &&& old(self)@.is_first_ping_after(tick_of(cur as int), final(self)@.tick())
            },
            r is Err ==> old(self)@.no_ping_after(tick_of(cur as int)),
    {
        proof {
            self@.lemma_advance_to_next(cur as int);
        }
        if cur < self.time {
            return Ok(());
        }
        let ghost start = self@;
        let threshold: u64 = self.threshold();
        let prev_tick: i64 = self.time / TICK_MS;
        let cur_tick: i64 = cur / TICK_MS;
        if threshold == 0 {
            // No value is below zero: there is nothing to scan for.
            proof {
                start.lemma_zero_threshold(cur_tick + 1);
            }
            return Err(ScheduleError::Exhausted);
        }
        let mut lcg = self.lcg;
        if cur_tick > prev_tick {
            lcg.pow((cur_tick - prev_tick) as u64);
            proof {
                start.lcg.lemma_advanced_twice((cur_tick - prev_tick) as nat, 1);
            }
        }
        let mut tick: i64 = cur_tick;
        while tick < MAX_TICK
            invariant
                start.wf(),
                old(self)@ == start,
                cur >= start.time,
                cur_tick == tick_of(cur as int),
                start.tick() == prev_tick,
                prev_tick <= cur_tick <= tick <= MAX_TICK,
                threshold == start.threshold(),
                lcg.modulus == start.lcg.modulus,
                lcg.modulus > 0,
                lcg.advanced(1) == start.lcg.advanced((tick + 1 - prev_tick) as nat),
                start.first_ping_from(tick + 1) == start.first_ping_from(cur_tick + 1),
                self@ == start,
            decreases MAX_TICK - tick,
        {
            tick = tick + 1;
            lcg.next();
            if lcg.state < threshold {
                self.lcg = lcg;
                self.time = tick * TICK_MS;
                proof {
                    start.lemma_advance_to_next(cur as int);
                }
                return Ok(());
            }
            proof {
                start.lcg.lemma_advanced_twice((tick - prev_tick) as nat, 1);
            }
        }
        Err(ScheduleError::Exhausted)
    }

    /// Produces the next ping: moves the scheduler to the first ping after
    /// its own time and returns that ping's time, or `None` where no ping is
    /// left.
    pub fn next(&mut self) -> (ping: Option<i64>)
        requires
            old(self)@.wf(),
        ensures
            final(self)@ == old(self)@.next(),
            match ping {
                Some(ms) => {
                    &&& !old(self)@.exhausted_at(old(self)@.time)
                    &&& ms == final(self)@.time
                    &&& ms > old(self)@.time
                },
                None => old(self)@.exhausted_at(old(self)@.time),
            },
            final(self)@.wf(),
    {
        match self.next_time(self.time) {
            Ok(()) => Some(self.time),
            Err(_) => None,
        }
    }

    /// Produces `n + 1` pings and returns the time of the last of them, or
    /// `None` where fewer are left; the scheduler then rests at the last
    /// ping that there was.
    pub fn nth(&mut self, n: usize) -> (ping: Option<i64>)
        requires
            old(self)@.wf(),
        ensures
            match ping {
                Some(ms) => old(self)@.nth_ping(n as nat) == Some(ms as int),
                None => old(self)@.nth_ping(n as nat) is None,
            },
            final(self)@ == old(self)@.after((n + 1) as nat),
            final(self)@.wf(),
    {
        let ghost start = self@;
        let mut skipped: usize = 0;
        while skipped < n
            invariant
                skipped <= n,
                old(self)@ == start,
                self@.wf(),
                self@.nth_ping((n - skipped) as nat) == start.nth_ping(n as nat),
                self@.after((n + 1 - skipped) as nat) == start.after((n + 1) as nat),
            decreases n - skipped,
        {
            let ghost before = self@;
            match self.next() {
                Some(_) => {},
                None => {
                    proof {
                        assert(self@ == before);
                        before.lemma_after_exhausted((n + 1 - skipped) as nat);
                    }
                    return None;
                },
            }
            skipped = skipped + 1;
        }
        let ghost before = self@;
        let ping = self.next();
        proof {
            assert(before.after(1) == before.next()) by {
                reveal_with_fuel(Schedule::after, 2);
            }
        }
        ping
    }

    /// Produces the first `n` pings and returns their times in order; the
    /// result is shorter where fewer pings are left.
    pub fn take(self, n: usize) -> (times: Vec<i64>)
        requires
            self@.wf(),
        ensures
            millis(times@) == self@.pings(n as nat),
    {
        let mut state = self;
        let mut times: Vec<i64> = Vec::new();
        let mut produced: usize = 0;
        while produced < n
            invariant
                produced <= n,
                state@.wf(),
                millis(times@) + state@.pings((n - produced) as nat) =~= self@.pings(n as nat),
            decreases n - produced,
        {
            let ghost before = state@;
            let ghost sofar = times@;
            match state.next() {
                Some(ms) => {
                    times.push(ms);
                    proof {
                        assert(millis(times@) =~= millis(sofar).push(ms as int));
                        assert(before.pings((n - produced) as nat) =~= seq![ms as int]
                            + state@.pings((n - produced - 1) as nat));
                    }
                },
                None => {
                    assert(before.pings((n - produced) as nat) =~= Seq::<int>::empty());
                    return times;
                },
            }
            produced = produced + 1;
        }
        assert(state@.pings(0) =~= Seq::<int>::empty());
        times
    }
}

} // verus!
