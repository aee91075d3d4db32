//! What can go wrong while solving.

use vstd::prelude::*;

verus! {

/// A board that no placement of mines can explain.
#[derive(Debug, Clone, Copy, PartialEq, Eq, Structural)]
pub enum Error {
    /// The number at `(x, y)` asks for `expected` mines, but its neighbourhood
    /// can only hold `actual` of them, or already holds that many.
    MinesNotSatisfied { x: usize, y: usize, expected: u8, actual: u8 },
    /// The board declares more mines than it can hold.
    TooManyMines(usize),
    /// The board declares fewer mines than are already known.
    TooFewMines(usize),
}

} // verus!
