//! The settings that a player keeps between games.

use vstd::prelude::*;
use crate::base::board::ChordMode;

verus! {

/// What the game remembers of the player's choices.
#[derive(Debug)]
pub struct GlobalConfig {
    pub chord_mode: ChordMode,
    pub skin: String,
    pub cell_size: u32,
    /// width, height, mines
    pub board: [usize; 3],
}

} // verus!
