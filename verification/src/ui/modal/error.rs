//! The dialog that shows what went wrong.

use vstd::prelude::*;

verus! {

/// What the error dialog tells the game.
#[derive(Clone, Copy, Debug, PartialEq, Eq, Structural)]
pub enum ErrorMessage {
    Acknowledge,
}

/// The error dialog: the text that it shows.
#[derive(Debug)]
pub struct ErrorModal {
    pub error_message: String,
}

impl ErrorModal {
    /// A dialog with nothing to show yet.
    pub fn new() -> (r: Self)
        ensures
            r.error_message@ == Seq::<char>::empty(),
    {
        Self { error_message: String::new() }
    }
}

} // verus!
