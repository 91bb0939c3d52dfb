//! Causality and merge engine for collaboratively edited sequence containers.
//!
//! Replicas apply local edits immediately and exchange operation histories.
//! The engine indexes every insert/delete operation by a globally unique
//! identifier, tracks its causal status (alive, tombstoned once, tombstoned by
//! several concurrent deletes), replays batches of remote operations against
//! local state into position-addressed edit effects, and computes causal
//! frontiers over the operation dependency graph to decide safe boundaries for
//! history compaction.

pub mod ids;
pub mod store;
pub mod effects;
pub mod frontier;
pub mod value;
pub mod laws;

pub use effects::{collect_effects, EffectIter};
pub use frontier::{calc_critical_version_bfs as calc_critical_version, calc_critical_version_bfs,
    calc_critical_version_agreed, calc_critical_version_dfs, FrontierError, OpNode};
pub use ids::{ID, IdSpan, SpanError};
pub use store::{Effect, FirstCursor, StatusChange, StoreError, Tracker};
pub use value::{ContainerID, LoroValue, MapEntry, ValueError};
