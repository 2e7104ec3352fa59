//! The decisions of a matchmaking worker between polls of the pool: after a
//! formed match it polls again at once; after an empty poll it sleeps, longer
//! the longer it has been idle.

use vstd::prelude::*;

verus! {

/// Milliseconds to sleep after `idle_cycles` consecutive empty polls:
/// 1-5 -> 1 ms, 6-20 -> 5 ms, otherwise 15 ms.
pub open spec fn spec_idle_sleep_ms(idle_cycles: int) -> int {
    if 1 <= idle_cycles <= 5 {
        1
    } else if 6 <= idle_cycles <= 20 {
        5
    } else {
        15
    }
}

/// Milliseconds to sleep after `idle_cycles` consecutive empty polls.
pub fn idle_sleep_ms(idle_cycles: u64) -> (ms: u64)
    ensures
        ms == spec_idle_sleep_ms(idle_cycles as int),
{
    if 1 <= idle_cycles && idle_cycles <= 5 {
        1
    } else if 6 <= idle_cycles && idle_cycles <= 20 {
        5
    } else {
        15
    }
}

/// Once idle, the backoff never shortens as idleness goes on, and stays
/// between 1 and 15 milliseconds.
pub proof fn lemma_backoff_monotone(a: int, b: int)
    requires
        1 <= a <= b,
    ensures
        spec_idle_sleep_ms(a) <= spec_idle_sleep_ms(b),
        1 <= spec_idle_sleep_ms(a) <= 15,
{
}

/// A worker's idle counter.
pub struct WorkerState {
    /// Consecutive polls that formed no match.
    pub idle_cycles: u64,
}

impl WorkerState {
    /// A worker that has not polled yet.
    pub fn new() -> (w: WorkerState)
        ensures
            w.idle_cycles == 0,
    {
        WorkerState { idle_cycles: 0 }
    }

    /// A poll formed a match: the idle counter resets and the worker polls
    /// again without sleeping.
    pub fn on_match(&mut self)
        ensures
            final(self).idle_cycles == 0,
    {
        self.idle_cycles = 0;
    }

    /// A poll formed no match: the idle counter grows by one and the worker
    /// sleeps for the returned number of milliseconds.
    pub fn on_idle(&mut self) -> (sleep_ms: u64)
        requires
            old(self).idle_cycles < u64::MAX,
        ensures
            final(self).idle_cycles == old(self).idle_cycles + 1,
            sleep_ms == spec_idle_sleep_ms(final(self).idle_cycles as int),
            1 <= sleep_ms <= 15,
    {
        self.idle_cycles = self.idle_cycles + 1;
        idle_sleep_ms(self.idle_cycles)
    }
}

} // verus!
