# matchmaker

A 5v5 competitive matchmaking engine whose core is verified with Verus.

Players wait in a pool. A worker sorts the pool by skill (stably), slides a
window of ten over it and takes the first window whose skill spread fits the
acceptable range of every member; that range widens the longer a player has
waited (50, 150, 300, then 1500 MMR). The ten players are split into the two
teams of five whose skill totals differ least, among all 252 even splits.

Skill ratings are fixed-point integers (`MMR_UNIT` = 1000 units per MMR).

- `src/player.rs`   players, waiting time, the relaxation tiers
- `src/pool.rs`     stable sort by skill, taking a window out of the pool
- `src/matchmaker.rs` the sliding window and forming a match
- `src/teams.rs`    the fairest split into two teams
- `src/metrics.rs`  counters, with their consistency kept modulo 2^64
- `src/worker.rs`   the idle backoff of a worker
- `app/`            the multi-threaded demo: simulation, workers, match
  quality (floating point) and reports
