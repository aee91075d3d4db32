//! The dialogs that lie over the game: which one is shown, and what they
//! tell the game.

use vstd::prelude::*;

pub mod error;
pub mod export;
pub mod import;

verus! {

/// The dialog that is shown, if any.
#[derive(Debug, Clone, Copy, PartialEq, Eq, Structural)]
pub enum Modal {
    Hidden,
    ImportGame,
    ExportGame,
    Error,
}

impl Default for Modal {
    fn default() -> (r: Self)
        ensures
            r == Modal::Hidden,
    {
        Modal::Hidden
    }
}

/// What a dialog tells the game.
#[derive(Debug, Clone)]
pub enum ModalMessage {
    Import(import::ImportMessage),
    Export(export::ExportMessage),
    Error(error::ErrorMessage),
}

} // verus!
