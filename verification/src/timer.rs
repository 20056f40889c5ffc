//! Repeating timers that count microseconds.

use vstd::prelude::*;
use vstd::arithmetic::div_mod::lemma_mod_bound;

verus! {

/// A repeating timer. It fires each time `period` microseconds have elapsed
/// and keeps the remainder.
#[derive(Clone, Copy, Debug, PartialEq, Eq)]
pub struct Timer {
    pub period: u64,
    pub elapsed: u64,
    pub finished: bool,
    pub times_finished_this_tick: u64,
}

/// The cooldown between two controller updates of one cell.
#[derive(Clone, Copy, Debug, PartialEq, Eq)]
pub struct ThinkingTimer(pub Timer);

/// The cooldown between two trickled food items.
#[derive(Clone, Copy, Debug, PartialEq, Eq)]
pub struct FoodTimer(pub Timer);

/// The cooldown between two population reports.
#[derive(Clone, Copy, Debug, PartialEq, Eq)]
pub struct DebugTimer(pub Timer);

/// Time seen by the variable-rate step since the last rate report, in
/// microseconds, and fixed ticks counted since then.
#[derive(Clone, Copy, Debug, PartialEq, Eq)]
pub struct TimeCounter(pub u64, pub u64);

/// The lesser of two numbers.
pub open spec fn min_int(a: int, b: int) -> int {
    if a < b {
        a
    } else {
        b
    }
}

impl Timer {
    /// A timer that has not run yet.
    pub open spec fn fresh(period: u64) -> Timer {
        Timer { period, elapsed: 0, finished: false, times_finished_this_tick: 0 }
    }

    /// The timer after `delta` more microseconds. It fires once `period` has
    /// elapsed, counts how many periods ended, and keeps what is left over. A
    /// timer with a zero period fires on every tick and reports the largest
    /// 32-bit count.
    pub open spec fn ticked(self, delta: u64) -> Timer {
        let sum = self.elapsed + delta;
        if self.period == 0 {
            Timer {
                period: self.period,
                elapsed: 0,
                finished: true,
                times_finished_this_tick: 0xffff_ffff,
            }
        } else if sum < self.period {
            Timer {
                period: self.period,
                elapsed: sum as u64,
                finished: false,
                times_finished_this_tick: 0,
            }
        } else {
            Timer {
                period: self.period,
                elapsed: (sum % (self.period as int)) as u64,
                finished: true,
                times_finished_this_tick: min_int(sum / (self.period as int), u64::MAX as int) as u64,
            }
        }
    }

    /// A timer of the given period that has not run yet.
    pub fn new(period: u64) -> (t: Timer)
        ensures
            t == Timer::fresh(period),
    {
        Timer { period, elapsed: 0, finished: false, times_finished_this_tick: 0 }
    }

    /// Advances the timer by `delta` microseconds.
    pub fn tick(&mut self, delta: u64)
        ensures
            *final(self) == old(self).ticked(delta),
    {
        let sum: u128 = self.elapsed as u128 + delta as u128;
        let period: u128 = self.period as u128;
        if period == 0 {
            self.elapsed = 0;
            self.finished = true;
            self.times_finished_this_tick = 0xffff_ffff;
        } else if sum < period {
            self.elapsed = sum as u64;
            self.finished = false;
            self.times_finished_this_tick = 0;
        } else {
            let times: u128 = sum / period;
            let rest: u128 = sum % period;
            proof {
                lemma_mod_bound(sum as int, period as int);
            }
            self.elapsed = rest as u64;
            self.finished = true;
            self.times_finished_this_tick = if times > u64::MAX as u128 {
                u64::MAX
            } else {
                times as u64
            };
        }
    }

    /// Whether the timer fired during the last tick.
    pub fn finished(&self) -> (b: bool)
        ensures
            b == self.finished,
    {
        self.finished
    }

    /// How many periods ended during the last tick.
    pub fn times_finished_this_tick(&self) -> (n: u64)
        ensures
            n == self.times_finished_this_tick,
    {
        self.times_finished_this_tick
    }
}

} // verus!
