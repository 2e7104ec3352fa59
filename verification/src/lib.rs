//! A 5v5 matchmaking engine: players wait in a pool, compatible groups of ten
//! are found with a sliding window over the skill-sorted pool, and each group
//! is split into the two fairest teams of five.
//!
//! Skill ratings are fixed-point integers: one MMR point is 1000 units.

pub mod player;
pub mod teams;
pub mod matchmaker;
pub mod pool;
pub mod metrics;
pub mod worker;
