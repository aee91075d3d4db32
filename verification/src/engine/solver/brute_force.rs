//! Exhaustive search over whole boards; a named place in the pipeline that deduces nothing yet.

use vstd::prelude::*;
use super::error::Error;
use super::{BoardModel, BoardSafety, Solver};

verus! {

/// A strategy that hands every snapshot back unchanged.
#[derive(Debug, Clone, Copy)]
pub struct BruteForceSolver;

impl Default for BruteForceSolver {
    fn default() -> (r: Self) {
        BruteForceSolver
    }
}

impl Solver for BruteForceSolver {
    open spec fn outcome(&self, board: BoardModel) -> Result<BoardModel, Error> {
        Ok(board)
    }

    fn calculate(&self, board: BoardSafety) -> (r: Result<BoardSafety, Error>) {
        Ok(board)
    }
}

} // verus!
