//! Exhaustive search as a step of an analysis; it deduces nothing yet.

use vstd::prelude::*;
use crate::engine::solver::error::Error;
use crate::engine::solver::{BoardModel, BoardSafety, Solver};

verus! {

/// An analysis step that hands every snapshot back unchanged.
#[derive(Debug, Clone, Copy)]
pub struct BruteForceAnalysis;

impl Default for BruteForceAnalysis {
    fn default() -> (r: Self) {
        BruteForceAnalysis
    }
}

impl Solver for BruteForceAnalysis {
    open spec fn outcome(&self, board: BoardModel) -> Result<BoardModel, Error> {
        Ok(board)
    }

    fn calculate(&self, board: BoardSafety) -> (r: Result<BoardSafety, Error>) {
        Ok(board)
    }
}

} // verus!
