//! The board editor.

use vstd::prelude::*;

verus! {

/// What the editor tells the game: nothing yet.
#[derive(Debug, Clone, Copy, PartialEq, Eq, Structural)]
pub struct EditorMessage {}

} // verus!
