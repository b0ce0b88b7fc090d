//! A solver for the 4x4 sliding-tile puzzle.
//!
//! The board model, the heuristic distance, the bucketed frontier with
//! dominance pruning, the search driver and the backward path
//! reconstruction live here, each with a proved contract.

pub mod board;
pub mod search;
