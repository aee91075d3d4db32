//! The window of the game.

use vstd::prelude::*;

verus! {

/// What the window shows below its dialogs.
#[derive(Debug, Clone, Copy, PartialEq, Eq, Structural)]
pub enum BaseWindow {
    Player,
}

impl Default for BaseWindow {
    fn default() -> (r: Self)
        ensures
            r == BaseWindow::Player,
    {
        BaseWindow::Player
    }
}

} // verus!
