//! Players waiting in the matchmaking queue and the time-based relaxation of
//! the skill difference they accept.

use std::time::{Duration, Instant};
use vstd::prelude::*;

verus! {

/// Fixed-point scale of skill ratings: one MMR point is this many units.
pub const MMR_UNIT: u32 = 1000;

/// Declares `std::time::Instant`, opaque, so that a player carries its join time.
#[verifier::external_type_specification]
#[verifier::external_body]
pub struct ExInstant(Instant);

/// A player waiting in the matchmaking queue.
#[derive(Clone, Copy, Debug)]
pub struct Player {
    /// Unique player id.
    pub id: u64,
    /// Skill rating (MMR) in fixed-point units of `1 / MMR_UNIT` MMR.
    pub skill_rating: u32,
    /// When the player joined the queue.
    pub joined_at: Instant,
}

/// Reads the monotonic clock through `std::time::Instant::now`.
/// The reading depends on the time of the call, so nothing is stated of it.
#[verifier::external_body]
fn clock_now() -> Instant {
    Instant::now()
}

/// Calls `std::time::Instant::elapsed`: the time passed since `since`.
/// It depends on the time of the call, so nothing is stated of it.
#[verifier::external_body]
fn elapsed_since(since: &Instant) -> Duration {
    since.elapsed()
}

/// Calls `std::time::Duration::as_secs`: the whole seconds of `d`.
/// `Duration` is opaque here, so nothing is stated of the result.
#[verifier::external_body]
fn whole_seconds(d: &Duration) -> u64 {
    d.as_secs()
}

/// Calls `std::time::Duration::as_millis`: the whole milliseconds of `d`.
/// `Duration` is opaque here, so nothing is stated of the result.
#[verifier::external_body]
fn whole_millis(d: &Duration) -> u128 {
    d.as_millis()
}

/// `secs` is what reading the clock gives for a player who joined at
/// `joined`: the whole seconds (`Duration::as_secs`) of the time elapsed since
/// then (`Instant::elapsed`).
pub closed spec fn is_wait_secs_reading(joined: Instant, secs: u64) -> bool {
    exists|waited: Duration|
        #![trigger call_ensures(whole_seconds, (&waited,), secs)]
        call_ensures(elapsed_since, (&joined,), waited) && call_ensures(
            whole_seconds,
            (&waited,),
            secs,
        )
}

/// `ms` is what reading the clock gives for a player who joined at `joined`:
/// the whole milliseconds (`Duration::as_millis`) of the time elapsed since
/// then (`Instant::elapsed`), cut to 64 bits.
pub closed spec fn is_wait_ms_reading(joined: Instant, ms: u64) -> bool {
    exists|waited: Duration, millis: u128|
        #![trigger call_ensures(whole_millis, (&waited,), millis)]
        call_ensures(elapsed_since, (&joined,), waited) && call_ensures(
            whole_millis,
            (&waited,),
            millis,
        ) && ms == millis as u64
}

impl Player {
    /// A player joining the queue now.
    pub fn new(id: u64, skill_rating: u32) -> (p: Player)
        ensures
            p.id == id,
            p.skill_rating == skill_rating,
    {
        Player { id, skill_rating, joined_at: clock_now() }
    }

    /// Whole seconds the player has been waiting: the whole seconds of the
    /// time elapsed since the player joined.
    pub fn wait_time(&self) -> (secs: u64)
        ensures
            is_wait_secs_reading(self.joined_at, secs),
    {
        let waited = elapsed_since(&self.joined_at);
        whole_seconds(&waited)
    }

    /// Milliseconds the player has been waiting, truncated to 64 bits: the
    /// whole milliseconds of the time elapsed since the player joined.
    pub fn wait_ms(&self) -> (ms: u64)
        ensures
            is_wait_ms_reading(self.joined_at, ms),
    {
        let waited = elapsed_since(&self.joined_at);
        let millis = whole_millis(&waited);
        #[verifier::truncate]
        (millis as u64)
    }

    /// The skill difference this player accepts now, by the tier of the
    /// whole seconds waited (see `skill_range_for_wait`).
    pub fn acceptable_skill_range(&self) -> (r: u32)
        ensures
            exists|w: int| 0 <= w && r == #[trigger] spec_skill_range(w),
            min_skill_range() <= r <= max_skill_range(),
            exists|secs: u64|
                #![trigger is_wait_secs_reading(self.joined_at, secs)]
                is_wait_secs_reading(self.joined_at, secs) && r == spec_skill_range(secs as int),
    {
        let secs = self.wait_time();
        skill_range_for_wait(secs)
    }
}

/// Acceptable skill difference, in rating units, for a player who has waited
/// `wait_secs` whole seconds.
pub open spec fn spec_skill_range(wait_secs: int) -> int {
    if wait_secs <= 9 {
        50 * MMR_UNIT
    } else if wait_secs <= 29 {
        150 * MMR_UNIT
    } else if wait_secs <= 59 {
        300 * MMR_UNIT
    } else {
        1500 * MMR_UNIT
    }
}

/// Tight tier: the range of a freshly queued player.
pub open spec fn min_skill_range() -> int {
    50 * MMR_UNIT
}

/// Widest tier: the range of a player who has waited a minute or more.
pub open spec fn max_skill_range() -> int {
    1500 * MMR_UNIT
}

/// Time-based constraint relaxation: the longer a player has waited, the
/// wider the skill difference they accept.
///   0-9 s -> 50 MMR, 10-29 s -> 150 MMR, 30-59 s -> 300 MMR, 60 s+ -> 1500 MMR.
pub fn skill_range_for_wait(wait_secs: u64) -> (r: u32)
    ensures
        r == spec_skill_range(wait_secs as int),
{
    if wait_secs <= 9 {
        50 * MMR_UNIT
    } else if wait_secs <= 29 {
        150 * MMR_UNIT
    } else if wait_secs <= 59 {
        300 * MMR_UNIT
    } else {
        1500 * MMR_UNIT
    }
}

/// The relaxation never tightens: waiting longer never narrows the accepted
/// skill difference, and it always lies between the tightest and widest tier.
pub proof fn lemma_skill_range_monotone(w1: int, w2: int)
    requires
        0 <= w1 <= w2,
    ensures
        spec_skill_range(w1) <= spec_skill_range(w2),
        min_skill_range() <= spec_skill_range(w1) <= max_skill_range(),
{
}

/// A player's wait in whole seconds is a reading of the clock since the
/// player joined, not any other measure of it.
pub proof fn lemma_wait_time_reads_clock(p: Player, secs: u64)
    requires
        call_ensures(Player::wait_time, (&p,), secs),
    ensures
        is_wait_secs_reading(p.joined_at, secs),
{
}

/// A player's wait in milliseconds is a reading of the clock since the
/// player joined, not any other measure of it.
pub proof fn lemma_wait_ms_reads_clock(p: Player, ms: u64)
    requires
        call_ensures(Player::wait_ms, (&p,), ms),
    ensures
        is_wait_ms_reading(p.joined_at, ms),
{
}

/// The range a player accepts is set by the whole seconds the player has
/// waited: 50 MMR under 10 s, 150 MMR from 10 s, 300 MMR from 30 s and
/// 1500 MMR from a minute on.
pub proof fn lemma_range_follows_wait(p: Player, r: u32)
    requires
        call_ensures(Player::acceptable_skill_range, (&p,), r),
    ensures
        exists|secs: u64|
            #![trigger is_wait_secs_reading(p.joined_at, secs)]
            {
                &&& is_wait_secs_reading(p.joined_at, secs)
                &&& secs < 10 ==> r == 50 * MMR_UNIT
                &&& 10 <= secs < 30 ==> r == 150 * MMR_UNIT
                &&& 30 <= secs < 60 ==> r == 300 * MMR_UNIT
                &&& 60 <= secs ==> r == 1500 * MMR_UNIT
            },
{
}

} // verus!
