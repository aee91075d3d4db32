//! The dialog that asks in which format a board is written.

use vstd::prelude::*;
use crate::base::encode_decode::EncodeType;

verus! {

/// The format that the player has chosen.
#[derive(Clone, Copy, Debug, PartialEq, Eq, Structural)]
pub struct ExportConfig {
    pub export_type: EncodeType,
}

/// What the export dialog tells the game.
#[derive(Clone, Copy, Debug, PartialEq, Eq, Structural)]
pub enum ExportMessage {
    TypeSelected(EncodeType),
    Confirm,
    Cancel,
}

} // verus!
