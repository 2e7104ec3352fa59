//! Matchmaking health counters.
//!
//! The counters wrap around at 2^64, as 64-bit atomic counters do; every
//! statement about them is made modulo 2^64.

use vstd::prelude::*;
use vstd::arithmetic::div_mod::{
    lemma_add_mod_noop_right,
    lemma_mod_add_multiples_vanish,
    lemma_mul_mod_noop_right,
    lemma_small_mod,
    lemma_sub_mod_noop_right,
};

verus! {

/// Players that make up one match.
pub const PLAYERS_PER_MATCH: u64 = 10;

/// The modulus of the 64-bit counters.
pub open spec fn counter_modulus() -> int {
    0x1_0000_0000_0000_0000
}

/// The sum of a sequence of wait times.
pub open spec fn total_of(s: Seq<u64>) -> int
    decreases s.len(),
{
    if s.len() == 0 {
        0
    } else {
        total_of(s.drop_last()) + s.last() as int
    }
}

/// Counters of the matchmaker's throughput.
pub struct Metrics {
    /// Players that have entered the queue.
    pub players_queued: u64,
    /// Matches created.
    pub matches_created: u64,
    /// Players placed into matches.
    pub players_matched: u64,
    /// Wait time of all matched players, in milliseconds.
    pub total_wait_ms: u64,
    /// Players currently waiting in the queue.
    pub current_pool_size: u64,
}

impl Metrics {
    /// The counters agree with each other: ten players were matched per match
    /// created, and the pool holds every queued player not yet matched
    /// (both modulo 2^64).
    pub open spec fn counters_consistent(&self) -> bool {
        &&& self.players_matched as int == (PLAYERS_PER_MATCH * self.matches_created) % counter_modulus()
        &&& self.current_pool_size as int == (self.players_queued - self.players_matched)
            % counter_modulus()
    }

    /// All counters at zero.
    pub fn new() -> (m: Metrics)
        ensures
            m.players_queued == 0,
            m.matches_created == 0,
            m.players_matched == 0,
            m.total_wait_ms == 0,
            m.current_pool_size == 0,
            m.counters_consistent(),
    {
        Metrics {
            players_queued: 0,
            matches_created: 0,
            players_matched: 0,
            total_wait_ms: 0,
            current_pool_size: 0,
        }
    }

    /// A player entered the queue.
    pub fn record_player_queued(&mut self)
        ensures
            final(self).players_queued as int == (old(self).players_queued + 1) % counter_modulus(),
            final(self).current_pool_size as int == (old(self).current_pool_size + 1)
                % counter_modulus(),
            final(self).matches_created == old(self).matches_created,
            final(self).players_matched == old(self).players_matched,
            final(self).total_wait_ms == old(self).total_wait_ms,
            old(self).counters_consistent() ==> final(self).counters_consistent(),
            *final(self) == queued_step(*old(self)),
    {
        proof {
            lemma_wrapping_add(self.players_queued, 1);
            lemma_wrapping_add(self.current_pool_size, 1);
        }
        self.players_queued = self.players_queued.wrapping_add(1);
        self.current_pool_size = self.current_pool_size.wrapping_add(1);
        proof {
            let q = old(self).players_queued as int;
            let p = old(self).players_matched as int;
            let m = counter_modulus();
            lemma_add_mod_noop_right(1, q - p, m);
            lemma_sub_mod_noop_right(q + 1, -p, m);
            assert((q + 1) % m - p == (q + 1) % m + (-p));
            lemma_add_mod_noop_right(-p, q + 1, m);
        }
    }

    /// A match of ten players was created; `wait_times_ms` are the waits of
    /// its players.
    pub fn record_match_created(&mut self, wait_times_ms: &[u64])
        ensures
            final(self).matches_created as int == (old(self).matches_created + 1) % counter_modulus(),
            final(self).players_matched as int == (old(self).players_matched + PLAYERS_PER_MATCH)
                % counter_modulus(),
            final(self).current_pool_size as int == (old(self).current_pool_size
                - PLAYERS_PER_MATCH) % counter_modulus(),
            final(self).total_wait_ms as int == (old(self).total_wait_ms + total_of(wait_times_ms@))
                % counter_modulus(),
            final(self).players_queued == old(self).players_queued,
            old(self).counters_consistent() ==> final(self).counters_consistent(),
            *final(self) == match_step(*old(self), wait_times_ms@),
    {
        let mut total: u64 = 0;
        let mut i: usize = 0;
        while i < wait_times_ms.len()
            invariant
                i <= wait_times_ms@.len(),
                total as int == total_of(wait_times_ms@.take(i as int)) % counter_modulus(),
            decreases wait_times_ms@.len() - i,
        {
            proof {
                lemma_wrapping_add(total, wait_times_ms@[i as int]);
                assert(wait_times_ms@.take(i + 1).drop_last() =~= wait_times_ms@.take(i as int));
                lemma_add_mod_noop_right(
                    wait_times_ms@[i as int] as int,
                    total_of(wait_times_ms@.take(i as int)),
                    counter_modulus(),
                );
            }
            total = total.wrapping_add(wait_times_ms[i]);
            i = i + 1;
        }
        assert(wait_times_ms@.take(i as int) =~= wait_times_ms@);
        proof {
            lemma_wrapping_add(self.matches_created, 1);
            lemma_wrapping_add(self.players_matched, PLAYERS_PER_MATCH);
            lemma_wrapping_sub(self.current_pool_size, PLAYERS_PER_MATCH);
            lemma_wrapping_add(self.total_wait_ms, total);
            lemma_add_mod_noop_right(
                self.total_wait_ms as int,
                total_of(wait_times_ms@),
                counter_modulus(),
            );
        }
        self.matches_created = self.matches_created.wrapping_add(1);
        self.players_matched = self.players_matched.wrapping_add(PLAYERS_PER_MATCH);
        self.current_pool_size = self.current_pool_size.wrapping_sub(PLAYERS_PER_MATCH);
        self.total_wait_ms = self.total_wait_ms.wrapping_add(total);
        proof {
            let c = old(self).matches_created as int;
            let p = old(self).players_matched as int;
            let q = old(self).players_queued as int;
            let m = counter_modulus();
            // matched players: 10 * ((c + 1) % m) % m == (10 * c % m + 10) % m
            lemma_mul_mod_noop_right(10, c + 1, m);
            lemma_add_mod_noop_right(10, 10 * c, m);
            assert(10 * (c + 1) == 10 + 10 * c) by (nonlinear_arith);
            // pool: ((q - p) % m - 10) % m == (q - (p + 10) % m) % m
            lemma_add_mod_noop_right(-10, q - p, m);
            lemma_sub_mod_noop_right(q, p + 10, m);
        }
    }
}

/// `x` reduced modulo 2^64.
pub open spec fn wrap(x: int) -> u64 {
    (x % counter_modulus()) as u64
}

/// The counters after one `record_player_queued`.
pub open spec fn queued_step(m: Metrics) -> Metrics {
    Metrics {
        players_queued: wrap(m.players_queued + 1),
        matches_created: m.matches_created,
        players_matched: m.players_matched,
        total_wait_ms: m.total_wait_ms,
        current_pool_size: wrap(m.current_pool_size + 1),
    }
}

/// The counters after one `record_match_created` with wait times `waits`.
pub open spec fn match_step(m: Metrics, waits: Seq<u64>) -> Metrics {
    Metrics {
        players_queued: m.players_queued,
        matches_created: wrap(m.matches_created + 1),
        players_matched: wrap(m.players_matched + PLAYERS_PER_MATCH),
        total_wait_ms: wrap(m.total_wait_ms + total_of(waits)),
        current_pool_size: wrap(m.current_pool_size - PLAYERS_PER_MATCH),
    }
}

/// The counters after a sequence of recordings, in order: `None` stands for
/// a `record_player_queued`, `Some(waits)` for a `record_match_created` with
/// those wait times. Calls made from several threads through a lock are some
/// such sequence.
pub open spec fn replay(m: Metrics, events: Seq<Option<Seq<u64>>>) -> Metrics
    decreases events.len(),
{
    if events.len() == 0 {
        m
    } else {
        let prev = replay(m, events.drop_last());
        match events.last() {
            None => queued_step(prev),
            Some(waits) => match_step(prev, waits),
        }
    }
}

/// Number of players queued in `events`.
pub open spec fn queued_count(events: Seq<Option<Seq<u64>>>) -> int
    decreases events.len(),
{
    if events.len() == 0 {
        0
    } else {
        queued_count(events.drop_last()) + if events.last() is None {
            1int
        } else {
            0int
        }
    }
}

/// Number of matches recorded in `events`.
pub open spec fn match_count(events: Seq<Option<Seq<u64>>>) -> int
    decreases events.len(),
{
    if events.len() == 0 {
        0
    } else {
        match_count(events.drop_last()) + if events.last() is None {
            0int
        } else {
            1int
        }
    }
}

/// Sum of all wait times recorded in `events`.
pub open spec fn recorded_waits(events: Seq<Option<Seq<u64>>>) -> int
    decreases events.len(),
{
    if events.len() == 0 {
        0
    } else {
        recorded_waits(events.drop_last()) + match events.last() {
            None => 0int,
            Some(waits) => total_of(waits),
        }
    }
}

proof fn lemma_total_of_nonneg(s: Seq<u64>)
    ensures
        total_of(s) >= 0,
    decreases s.len(),
{
    if s.len() > 0 {
        lemma_total_of_nonneg(s.drop_last());
    }
}

/// No update is lost: after any sequence of recordings, each counter has
/// moved by exactly what the recordings add up to (modulo 2^64): one queued
/// player and one pool place per `record_player_queued`; one match, ten
/// matched players, ten fewer pool places and its wait times per
/// `record_match_created`.
pub proof fn lemma_replay_counts(m: Metrics, events: Seq<Option<Seq<u64>>>)
    ensures
        replay(m, events).players_queued as int == (m.players_queued + queued_count(events))
            % counter_modulus(),
        replay(m, events).matches_created as int == (m.matches_created + match_count(events))
            % counter_modulus(),
        replay(m, events).players_matched as int == (m.players_matched + PLAYERS_PER_MATCH
            * match_count(events)) % counter_modulus(),
        replay(m, events).current_pool_size as int == (m.current_pool_size + queued_count(events)
            - PLAYERS_PER_MATCH * match_count(events)) % counter_modulus(),
        replay(m, events).total_wait_ms as int == (m.total_wait_ms + recorded_waits(events))
            % counter_modulus(),
    decreases events.len(),
{
    let md = counter_modulus();
    if events.len() == 0 {
        lemma_small_mod(m.players_queued as nat, md as nat);
        lemma_small_mod(m.matches_created as nat, md as nat);
        lemma_small_mod(m.players_matched as nat, md as nat);
        lemma_small_mod(m.current_pool_size as nat, md as nat);
        lemma_small_mod(m.total_wait_ms as nat, md as nat);
    } else {
        let rest = events.drop_last();
        lemma_replay_counts(m, rest);
        let q = m.players_queued + queued_count(rest);
        let c = m.matches_created + match_count(rest);
        let p = m.players_matched + PLAYERS_PER_MATCH * match_count(rest);
        let s = m.current_pool_size + queued_count(rest) - PLAYERS_PER_MATCH * match_count(rest);
        let t = m.total_wait_ms + recorded_waits(rest);
        match events.last() {
            None => {
                lemma_add_mod_noop_right(1, q, md);
                lemma_add_mod_noop_right(1, s, md);
            },
            Some(waits) => {
                lemma_add_mod_noop_right(1, c, md);
                lemma_add_mod_noop_right(10, p, md);
                lemma_add_mod_noop_right(-10, s, md);
                lemma_add_mod_noop_right(total_of(waits), t, md);
            },
        }
    }
}

/// Starting from `Metrics::new()`, and as long as no counter has wrapped
/// (fewer than 2^64 players queued and wait time in total, and the pool never
/// emptier than the matches taken from it), the counters add up exactly:
/// ten matched players per match, queued = in pool + matched, and the total
/// wait is the sum of all waits recorded.
pub proof fn lemma_replay_from_zero(m: Metrics, events: Seq<Option<Seq<u64>>>)
    requires
        m.players_queued == 0,
        m.matches_created == 0,
        m.players_matched == 0,
        m.total_wait_ms == 0,
        m.current_pool_size == 0,
        queued_count(events) < counter_modulus(),
        PLAYERS_PER_MATCH * match_count(events) <= queued_count(events),
        recorded_waits(events) < counter_modulus(),
    ensures
        replay(m, events).players_queued == queued_count(events),
        replay(m, events).matches_created == match_count(events),
        replay(m, events).players_matched == PLAYERS_PER_MATCH * replay(m, events).matches_created,
        replay(m, events).current_pool_size + replay(m, events).players_matched == replay(
            m,
            events,
        ).players_queued,
        replay(m, events).total_wait_ms == recorded_waits(events),
        replay(m, events).counters_consistent(),
{
    let md = counter_modulus();
    lemma_replay_counts(m, events);
    lemma_counts_nonneg(events);
    let q = queued_count(events);
    let c = match_count(events);
    let t = recorded_waits(events);
    lemma_small_mod(q as nat, md as nat);
    lemma_small_mod(c as nat, md as nat);
    lemma_small_mod((10 * c) as nat, md as nat);
    lemma_small_mod((q - 10 * c) as nat, md as nat);
    lemma_small_mod(t as nat, md as nat);
}

proof fn lemma_counts_nonneg(events: Seq<Option<Seq<u64>>>)
    ensures
        queued_count(events) >= 0,
        match_count(events) >= 0,
        recorded_waits(events) >= 0,
    decreases events.len(),
{
    if events.len() > 0 {
        lemma_counts_nonneg(events.drop_last());
        if let Some(w) = events.last() {
            lemma_total_of_nonneg(w);
        }
    }
}

/// `x.wrapping_add(y)` is `x + y` modulo 2^64.
pub proof fn lemma_wrapping_add(x: u64, y: u64)
    ensures
        vstd::wrapping::u64_specs::wrapping_add(x, y) as int == (x + y) % counter_modulus(),
{
    let m = counter_modulus();
    if x + y < m {
        lemma_small_mod((x + y) as nat, m as nat);
    } else {
        lemma_mod_add_multiples_vanish(x + y - m, m);
        lemma_small_mod((x + y - m) as nat, m as nat);
    }
}

/// `x.wrapping_sub(y)` is `x - y` modulo 2^64.
pub proof fn lemma_wrapping_sub(x: u64, y: u64)
    ensures
        vstd::wrapping::u64_specs::wrapping_sub(x, y) as int == (x - y) % counter_modulus(),
{
    let m = counter_modulus();
    if x - y >= 0 {
        lemma_small_mod((x - y) as nat, m as nat);
    } else {
        lemma_mod_add_multiples_vanish(x - y, m);
        lemma_small_mod((x - y + m) as nat, m as nat);
    }
}

} // verus!
