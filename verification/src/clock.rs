//! Timers of the simulation. Times are counted in nanoseconds.

use vstd::prelude::*;

verus! {

/// A timer that runs once up to its duration and then stays finished until
/// it is reset. Times are in nanoseconds.
#[derive(Debug, Default, Clone, Copy, PartialEq, Eq)]
pub struct Cooldown {
    pub elapsed: u64,
    pub duration: u64,
}

impl Cooldown {
    /// Whether the duration has passed.
    pub open spec fn done(self) -> bool {
        self.elapsed >= self.duration
    }

    /// The timer after `delta` more nanoseconds: time adds up, but not
    /// beyond the duration.
    pub open spec fn after(self, delta: u64) -> Cooldown {
        Cooldown {
            elapsed: if self.elapsed + delta >= self.duration {
                if self.elapsed >= self.duration {
                    self.elapsed
                } else {
                    self.duration
                }
            } else {
                (self.elapsed + delta) as u64
            },
            duration: self.duration,
        }
    }

    /// A timer of the given duration on which no time has passed.
    pub fn new(duration: u64) -> (timer: Cooldown)
        ensures
            timer == (Cooldown { elapsed: 0, duration }),
    {
        Cooldown { elapsed: 0, duration }
    }

    /// Lets `delta` nanoseconds pass.
    pub fn tick(&mut self, delta: u64)
        ensures
            *final(self) == old(self).after(delta),
    {
        if self.elapsed < self.duration {
            if delta >= self.duration - self.elapsed {
                self.elapsed = self.duration;
            } else {
                self.elapsed = self.elapsed + delta;
            }
        }
    }

    /// Whether the duration has passed.
    pub fn finished(&self) -> (b: bool)
        ensures
            b == self.done(),
    {
        self.elapsed >= self.duration
    }

    /// Starts the timer anew.
    pub fn reset(&mut self)
        ensures
            *final(self) == (Cooldown { elapsed: 0, duration: old(self).duration }),
    {
        self.elapsed = 0;
    }
}

/// A clock that comes due once every `period`: it gathers the time that
/// passes and gives it out in whole periods.
#[derive(Debug, Clone, Copy, PartialEq, Eq)]
pub struct Cadence {
    pub period: u64,
    pub accumulated: u64,
}

impl Cadence {
    /// The period is not zero, and less than a period is gathered.
    pub open spec fn wf(self) -> bool {
        0 < self.period && self.accumulated < self.period
    }

    /// Number of periods that are over once `elapsed` more nanoseconds have
    /// passed.
    pub open spec fn due_after(self, elapsed: u64) -> int {
        (self.accumulated + elapsed) / (self.period as int)
    }

    /// The clock after `elapsed` more nanoseconds, with the whole periods
    /// given out.
    pub open spec fn after(self, elapsed: u64) -> Cadence {
        Cadence {
            period: self.period,
            accumulated: ((self.accumulated + elapsed) % (self.period as int)) as u64,
        }
    }

    /// A clock of the given period on which no time has passed.
    pub fn new(period: u64) -> (clock: Cadence)
        requires
            period > 0,
        ensures
            clock == (Cadence { period, accumulated: 0 }),
            clock.wf(),
    {
        Cadence { period, accumulated: 0 }
    }

    /// Whether the period is not zero and less than a period is gathered.
    pub fn valid(&self) -> (b: bool)
        ensures
            b == self.wf(),
    {
        0 < self.period && self.accumulated < self.period
    }

    /// Lets `elapsed` nanoseconds pass and tells how many periods are over.
    pub fn advance(&mut self, elapsed: u64) -> (due: u64)
        requires
            old(self).wf(),
        ensures
            due == old(self).due_after(elapsed),
            *final(self) == old(self).after(elapsed),
            final(self).wf(),
    {
        let period = self.period as u128;
        let total: u128 = self.accumulated as u128 + elapsed as u128;
        let due = total / period;
        let rest = total % period;
        proof {
            let p = period as int;
            let t = total as int;
            assert(t == p * (t / p) + t % p && 0 <= t % p < p) by (nonlinear_arith)
                requires
                    p > 0,
                    t >= 0,
            ;
            assert(t / p <= u64::MAX) by (nonlinear_arith)
                requires
                    p > 0,
                    0 <= t <= p + u64::MAX - 1,
                    t == p * (t / p) + t % p,
                    0 <= t % p,
            ;
        }
        self.accumulated = rest as u64;
        due as u64
    }
}

} // verus!
