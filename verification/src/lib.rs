//! Verified engine for the 4x4 sliding-tile merge puzzle: a bit-packed board,
//! row slide/merge transforms with a precomputed move table, board rotations,
//! random tile spawning, and a Monte-Carlo rollout player.

pub mod board;
pub mod cache;
pub mod heuristic;
pub mod monte_carlo;
pub mod rng;
pub mod row;

pub use board::Board;
pub use board::Move;
pub use board::MoveRecord;
pub use cache::MoveCache;
pub use heuristic::NullHeuristic;
pub use monte_carlo::MonteCarloMetric;
pub use monte_carlo::MonteCarloPlayer;
pub use row::Row;
