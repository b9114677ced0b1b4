//! Countdown timers for entities that expire.
//!
//! A `Lifetime` counts whole nanoseconds up to its duration. The tick on
//! which the time elapsed first reaches the duration is the one tick on which
//! it expires; from then on it stays finished and no tick changes it.

use vstd::prelude::*;
use bevy::prelude::Timer;
use std::time::Duration;

verus! {

/// The timer of an expiring entity, in nanoseconds.
#[derive(Clone, Copy, Debug, PartialEq, Eq, Structural)]
pub struct Lifetime {
    /// How long the entity lives.
    pub duration: u64,
    /// How much of that has passed.
    pub elapsed: u64,
    /// Whether the timer has run out.
    pub finished: bool,
}

impl Lifetime {
    /// Whether a tick of `delta` is the one on which this timer runs out.
    pub open spec fn expires_on(self, delta: u64) -> bool {
        !self.finished && self.elapsed + delta >= self.duration
    }

    /// The timer after a tick of `delta`.
    pub open spec fn ticked(self, delta: u64) -> Lifetime {
        if self.finished {
            self
        } else if self.elapsed + delta >= self.duration {
            Lifetime { duration: self.duration, elapsed: self.duration, finished: true }
        } else {
            Lifetime {
                duration: self.duration,
                elapsed: (self.elapsed + delta) as u64,
                finished: false,
            }
        }
    }

    /// A timer of `duration` nanoseconds on which no time has passed.
    pub fn new(duration: u64) -> (lifetime: Lifetime)
        ensures
            lifetime == (Lifetime { duration, elapsed: 0, finished: false }),
    {
        Lifetime { duration, elapsed: 0, finished: false }
    }

    /// Advances the timer by `delta` nanoseconds and says whether it ran out
    /// on this very tick.
    pub fn tick(&mut self, delta: u64) -> (just_finished: bool)
        ensures
            *final(self) == old(self).ticked(delta),
            just_finished == old(self).expires_on(delta),
    {
        if self.finished {
            false
        } else {
            let (elapsed, just_finished) = tick_timer(self.duration, self.elapsed, delta);
            self.elapsed = elapsed;
            self.finished = just_finished;
            just_finished
        }
    }

    /// How long the timer still has to run.
    pub fn remaining(&self) -> (left: u64)
        ensures
            left == if self.elapsed <= self.duration {
                self.duration - self.elapsed
            } else {
                0
            },
    {
        if self.elapsed <= self.duration {
            self.duration - self.elapsed
        } else {
            0
        }
    }
}

/// Ticks a timer of bevy that has not finished yet: a non-repeating `Timer`
/// of `duration` nanoseconds is made with `Timer::new`, put at `elapsed` with
/// `Timer::set_elapsed` and advanced with `Timer::tick`. The result is what
/// `Timer::elapsed` and `Timer::just_finished` report after the tick.
///
/// The contract is bevy's rule for such a timer and is not proved here: the
/// timer finishes when the time elapsed reaches its duration, and the time
/// elapsed is then clamped to the duration.
#[verifier::external_body]
fn tick_timer(duration: u64, elapsed: u64, delta: u64) -> (r: (u64, bool))
    ensures
        r.1 == (elapsed + delta >= duration),
        r.0 == if elapsed + delta >= duration {
            duration as int
        } else {
            elapsed + delta
        },
{
    let mut timer = Timer::new(Duration::from_nanos(duration), false);
    timer.set_elapsed(Duration::from_nanos(elapsed));
    timer.tick(Duration::from_nanos(delta));
    (timer.elapsed().as_nanos() as u64, timer.just_finished())
}

/// Two ticks in a row do what one tick of their sum does, and the timer runs
/// out on the first tick at which the time elapsed in all reaches its
/// duration.
pub proof fn lemma_ticks_add_up(lifetime: Lifetime, first: u64, second: u64)
    requires
        first + second <= u64::MAX,
    ensures
        lifetime.ticked(first).ticked(second) == lifetime.ticked((first + second) as u64),
        lifetime.expires_on((first + second) as u64) <==> lifetime.expires_on(first)
            || lifetime.ticked(first).expires_on(second),
        !(lifetime.expires_on(first) && lifetime.ticked(first).expires_on(second)),
{
}

/// A timer that has run out stays as it is and never runs out again.
pub proof fn lemma_finished_is_final(lifetime: Lifetime, delta: u64)
    ensures
        lifetime.ticked(delta).finished <==> lifetime.finished || lifetime.expires_on(delta),
        lifetime.finished ==> lifetime.ticked(delta) == lifetime && !lifetime.expires_on(delta),
{
}

} // verus!
