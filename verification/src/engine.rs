//! Reasoning about a board in play.

pub mod analysis;
pub mod solver;
