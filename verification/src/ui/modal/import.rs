//! The dialog that takes a board in as text.

use vstd::prelude::*;
use crate::base::encode_decode::EncodeType;

verus! {

/// What the import dialog tells the game.
#[derive(Debug, Clone)]
pub enum ImportMessage {
    TypeSelected(EncodeType),
    /// The text of the board, as it stands after an edit.
    TextEdit(String),
    Confirm,
    Cancel,
}

} // verus!
