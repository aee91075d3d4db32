//! The choice of the best guess where nothing is certain; a named place in the pipeline that deduces nothing yet.

use vstd::prelude::*;
use super::error::Error;
use super::{BoardModel, BoardSafety, Solver};

verus! {

/// A strategy that hands every snapshot back unchanged.
#[derive(Debug, Clone, Copy)]
pub struct GuessingLogic;

impl Default for GuessingLogic {
    fn default() -> (r: Self) {
        GuessingLogic
    }
}

impl Solver for GuessingLogic {
    open spec fn outcome(&self, board: BoardModel) -> Result<BoardModel, Error> {
        Ok(board)
    }

    fn calculate(&self, board: BoardSafety) -> (r: Result<BoardSafety, Error>) {
        Ok(board)
    }
}

} // verus!
