//! Countdown timers measured in microseconds, advanced by bevy's `Timer`.
use vstd::prelude::*;

verus! {

pub const MICROS_PER_SECOND: u64 = 1_000_000;

/// Longest duration a timer may have (about 285 years); in nanoseconds it
/// still fits in a `u64`.
pub const MAX_TIMER_US: u64 = 9_007_199_254_740_992;

#[derive(Clone, Copy, Debug, PartialEq, Eq, Structural)]
pub enum TimerMode {
    /// Runs once and stays finished.
    Once,
    /// Wraps around each time it reaches its duration.
    Repeating,
}

/// A timer as plain values: its duration, the time elapsed, and its mode.
#[derive(Clone, Copy, Debug, PartialEq, Eq, Structural)]
pub struct Timer {
    pub duration_us: u64,
    pub elapsed_us: u64,
    pub mode: TimerMode,
}

/// Relies on bevy's `Timer::new`, `Timer::set_elapsed`, `Timer::tick`,
/// `Timer::elapsed` and `Timer::times_finished_this_tick` (bevy_time 0.14):
/// a once timer moves to `min(elapsed + delta, duration)` and reports one
/// finish when it gets there; a repeating timer keeps the remainder of
/// `elapsed + delta` by its duration and reports the quotient as finishes.
/// The bounds keep every time, in nanoseconds, within a `u64`, and the count
/// of finishes within a `u32`, as those methods convert them.
#[verifier::external_body]
fn bevy_timer_tick(duration_us: u64, elapsed_us: u64, mode: TimerMode, delta_us: u64) -> (r: (u64, u32))
    requires
        0 < duration_us <= MAX_TIMER_US,
        elapsed_us <= duration_us,
        delta_us <= u32::MAX,
        mode == TimerMode::Repeating ==> (elapsed_us + delta_us) / (duration_us as int) <= u32::MAX,
    ensures
        mode == TimerMode::Once ==> r.0 == if elapsed_us + delta_us >= duration_us {
            duration_us as int
        } else {
            elapsed_us + delta_us
        },
        mode == TimerMode::Once ==> r.1 == if elapsed_us + delta_us >= duration_us {
            1int
        } else {
            0int
        },
        mode == TimerMode::Repeating ==> r.0 == (elapsed_us + delta_us) % (duration_us as int),
        mode == TimerMode::Repeating ==> r.1 == (elapsed_us + delta_us) / (duration_us as int),
{
    let mode = match mode {
        TimerMode::Once => bevy::time::TimerMode::Once,
        TimerMode::Repeating => bevy::time::TimerMode::Repeating,
    };
    let mut t = bevy::time::Timer::new(std::time::Duration::from_micros(duration_us), mode);
    t.set_elapsed(std::time::Duration::from_micros(elapsed_us));
    t.tick(std::time::Duration::from_micros(delta_us));
    (t.elapsed().as_micros() as u64, t.times_finished_this_tick())
}

proof fn lemma_wrap_count_fits(e: int, d: int, delta: int)
    requires
        0 <= e < d,
        0 <= delta <= u32::MAX,
    ensures
        (e + delta) / d <= u32::MAX,
{
    if d == 1 {
    } else {
        assert((e + delta) / d <= (d + delta) / d) by (nonlinear_arith)
            requires
                d >= 2,
                0 <= e < d,
                delta >= 0,
        ;
        assert((d + delta) / d == 1 + delta / d) by (nonlinear_arith)
            requires
                d >= 2,
                delta >= 0,
        ;
        assert(delta / d <= delta / 2) by (nonlinear_arith)
            requires
                d >= 2,
                delta >= 0,
        ;
    }
}

impl Timer {
    /// A running timer: a positive duration, and for a repeating timer an
    /// elapsed time below it.
    pub open spec fn wf(self) -> bool {
        &&& 0 < self.duration_us <= MAX_TIMER_US
        &&& self.elapsed_us <= self.duration_us
        &&& self.mode == TimerMode::Repeating ==> self.elapsed_us < self.duration_us
    }

    pub open spec fn finished_spec(self) -> bool {
        self.mode == TimerMode::Once && self.elapsed_us >= self.duration_us
    }

    pub fn new(duration_us: u64, mode: TimerMode) -> (r: Timer)
        requires
            0 < duration_us <= MAX_TIMER_US,
        ensures
            r.wf(),
            r.duration_us == duration_us,
            r.elapsed_us == 0,
            r.mode == mode,
    {
        Timer { duration_us, elapsed_us: 0, mode }
    }

    /// Whether a once timer has reached its duration.
    pub fn finished(&self) -> (r: bool)
        ensures
            r == self.finished_spec(),
    {
        match self.mode {
            TimerMode::Once => self.elapsed_us >= self.duration_us,
            TimerMode::Repeating => false,
        }
    }

    /// Advances the timer by `delta_us` and returns how many times it
    /// reached its duration during this step. A once timer that has already
    /// finished stays as it is and reports none.
    pub fn tick(&mut self, delta_us: u64) -> (times: u32)
        requires
            old(self).wf(),
            delta_us <= u32::MAX,
        ensures
            final(self).wf(),
            final(self).duration_us == old(self).duration_us,
            final(self).mode == old(self).mode,
            old(self).mode == TimerMode::Once && old(self).elapsed_us >= old(self).duration_us ==> times == 0
                && *final(self) == *old(self),
            old(self).mode == TimerMode::Once && old(self).elapsed_us < old(self).duration_us ==> final(self).elapsed_us
                == if old(self).elapsed_us + delta_us >= old(self).duration_us {
                old(self).duration_us as int
            } else {
                old(self).elapsed_us + delta_us
            },
            old(self).mode == TimerMode::Once && old(self).elapsed_us < old(self).duration_us ==> times == if old(
                self,
            ).elapsed_us + delta_us >= old(self).duration_us {
                1int
            } else {
                0int
            },
            old(self).mode == TimerMode::Repeating ==> final(self).elapsed_us == (
            old(self).elapsed_us + delta_us) % (old(self).duration_us as int),
            old(self).mode == TimerMode::Repeating ==> times == (old(self).elapsed_us + delta_us)
                / (old(self).duration_us as int),
    {
        if self.finished() {
            return 0;
        }
        proof {
            if self.mode == TimerMode::Repeating {
                lemma_wrap_count_fits(self.elapsed_us as int, self.duration_us as int, delta_us as int);
            }
        }
        let (elapsed, times) = bevy_timer_tick(self.duration_us, self.elapsed_us, self.mode, delta_us);
        proof {
            let d = self.duration_us as int;
            let s = self.elapsed_us + delta_us;
            assert(s % d < d) by (nonlinear_arith)
                requires
                    d >= 1,
                    s >= 0,
            ;
        }
        self.elapsed_us = elapsed;
        times
    }
}

/// The time covered by the first `n` steps of `ds`.
pub open spec fn total(ds: Seq<u64>, n: int) -> int
    decreases n,
{
    if n <= 0 {
        0
    } else {
        total(ds, n - 1) + ds[n - 1]
    }
}

} // verus!
