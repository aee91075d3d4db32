//! Board-level building blocks: the grid container, the game board, exact
//! counting, and the formats in which boards travel.

use vstd::prelude::*;
use crate::base::board::{number_cells, numbered_in, unnumbered, CellContent};

pub mod bignat;
pub mod binomial;
pub mod board;
pub mod encode_decode;
pub mod vec2d;

pub use crate::base::vec2d::Vec2D;

verus! {

/// The views of the elements of `s`, in order.
pub open spec fn views<T: View>(s: Seq<T>) -> Seq<T::V> {
    Seq::new(s.len(), |i: int| s[i]@)
}

/// A board as it comes in from outside: what every cell holds, how many
/// mines there are, and where the player is asked to start.
#[derive(Debug)]
pub struct ImportPack {
    pub cell_contents: Vec2D<CellContent>,
    pub mines: usize,
    pub start_position: Option<(usize, usize)>,
}

/// Writes into every cell without a mine the number of mines around it, on a
/// board that holds mines and nothing else. The mines stay where they are.
pub fn build_numbers(cell_contents: &mut Vec2D<CellContent>, mines: usize)
    requires
        old(cell_contents).wf(),
        unnumbered(old(cell_contents)@),
    ensures
        final(cell_contents).wf(),
        final(cell_contents).spec_width() == old(cell_contents).spec_width(),
        final(cell_contents).spec_height() == old(cell_contents).spec_height(),
        forall|j: int|
            0 <= j < final(cell_contents)@.len() ==> (#[trigger] final(cell_contents)@[j] is Mine)
                == (old(cell_contents)@[j] is Mine),
        numbered_in(
            final(cell_contents)@,
            final(cell_contents).spec_width() as int,
            final(cell_contents).spec_height() as int,
        ),
{
    let (width, height) = cell_contents.dims();
    let cells = cell_contents.data_mut();
    number_cells(cells, width, height);
}

} // verus!
