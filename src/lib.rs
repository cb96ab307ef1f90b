//! Exact game-theoretic verdicts for Connect Four positions, computed by a
//! memoizing search whose decisions are proved against their contracts.
pub mod board;
pub mod codec;
pub mod store;
pub mod search;
pub mod worker;
pub mod conductor;
pub mod solver;
pub mod heuristic;
