//! From mouse buttons to moves: which clicks the presses and releases of the
//! two buttons add up to, and what a move does to a board.

use vstd::prelude::*;
use crate::base::board::Board;

verus! {

/// A move on the board.
#[derive(Debug, Clone, Copy, PartialEq, Eq, Structural)]
pub enum BoardMessage {
    Left { x: usize, y: usize },
    Right { x: usize, y: usize },
    Chord { x: usize, y: usize, is_left: bool },
}

/// Which buttons are held, and over which place the pressed cell is shown.
#[derive(Debug, Clone, Copy)]
pub enum MouseState {
    Idle,
    LeftDown(Option<(usize, usize)>),
    RightDown,
    BothDown(Option<(usize, usize)>),
}

impl Default for MouseState {
    fn default() -> (r: Self)
        ensures
            r == MouseState::Idle,
    {
        MouseState::Idle
    }
}

/// What the mouse did.
#[derive(Debug, Clone, Copy, PartialEq, Eq, Structural)]
pub enum MouseEvent {
    LeftPressed,
    RightPressed,
    LeftReleased,
    RightReleased,
    Moved,
}

/// What the game has to do after the mouse did something.
#[derive(Debug, Clone, Copy, PartialEq, Eq, Structural)]
pub enum Reaction {
    /// Make a move on the board.
    Board(BoardMessage),
    /// Start over.
    FaceClicked,
    /// Show another cell as pressed.
    PressedPositionChanged,
}

/// The place that stands for the face above the board.
pub open spec fn face() -> (usize, usize) {
    (usize::MAX, usize::MAX)
}

/// The state of the mouse after `event` at `position`.
pub open spec fn next_state(
    state: MouseState,
    event: MouseEvent,
    position: Option<(usize, usize)>,
) -> MouseState {
    match event {
        MouseEvent::LeftPressed => match state {
            MouseState::RightDown => MouseState::BothDown(position),
            _ => MouseState::LeftDown(position),
        },
        MouseEvent::RightPressed => match state {
            MouseState::LeftDown(_) => MouseState::BothDown(position),
            _ => MouseState::RightDown,
        },
        MouseEvent::LeftReleased => match state {
            MouseState::LeftDown(_) => MouseState::Idle,
            MouseState::BothDown(_) => MouseState::RightDown,
            _ => state,
        },
        MouseEvent::RightReleased => match state {
            MouseState::RightDown => MouseState::Idle,
            MouseState::BothDown(_) => MouseState::LeftDown(position),
            _ => state,
        },
        MouseEvent::Moved => match state {
            MouseState::LeftDown(_) => MouseState::LeftDown(position),
            MouseState::BothDown(_) => MouseState::BothDown(position),
            _ => state,
        },
    }
}

/// A move at `position`, if that is a cell of the board; a click on the
/// face where `face_counts` is set and the place is the face.
pub open spec fn click(
    position: Option<(usize, usize)>,
    width: usize,
    height: usize,
    message: spec_fn(usize, usize) -> BoardMessage,
    face_counts: bool,
) -> Option<Reaction> {
    match position {
        Some((x, y)) => if x < width && y < height {
            Some(Reaction::Board(message(x, y)))
        } else if face_counts && (x, y) == face() {
            Some(Reaction::FaceClicked)
        } else {
            None
        },
        None => None,
    }
}

/// What the game has to do after `event` at `position` on a board of
/// `width` x `height` cells: a right press flags at once, a left release
/// opens, a release of one button while both are held chords, and a press
/// or a move with the left button held shows another cell as pressed.
pub open spec fn reaction(
    state: MouseState,
    event: MouseEvent,
    position: Option<(usize, usize)>,
    width: usize,
    height: usize,
) -> Option<Reaction> {
    match event {
        MouseEvent::LeftPressed => Some(Reaction::PressedPositionChanged),
        MouseEvent::RightPressed => match state {
            MouseState::LeftDown(_) => Some(Reaction::PressedPositionChanged),
            _ => click(
                position,
                width,
                height,
                |x: usize, y: usize| BoardMessage::Right { x, y },
                false,
            ),
        },
        MouseEvent::LeftReleased => match state {
            MouseState::LeftDown(_) => click(
                position,
                width,
                height,
                |x: usize, y: usize| BoardMessage::Left { x, y },
                true,
            ),
            MouseState::BothDown(_) => click(
                position,
                width,
                height,
                |x: usize, y: usize| BoardMessage::Chord { x, y, is_left: true },
                true,
            ),
            _ => None,
        },
        MouseEvent::RightReleased => match state {
            MouseState::BothDown(_) => click(
                position,
                width,
                height,
                |x: usize, y: usize| BoardMessage::Chord { x, y, is_left: false },
                false,
            ),
            _ => None,
        },
        MouseEvent::Moved => match state {
            MouseState::LeftDown(shown) => if shown == position {
                None
            } else {
                Some(Reaction::PressedPositionChanged)
            },
            MouseState::BothDown(shown) => if shown == position {
                None
            } else {
                Some(Reaction::PressedPositionChanged)
            },
            _ => None,
        },
    }
}

/// Takes in what the mouse did at `position`, which is a cell, the face, or
/// nowhere, and says what the game has to do.
pub fn mouse_update(
    state: &mut MouseState,
    event: MouseEvent,
    position: Option<(usize, usize)>,
    width: usize,
    height: usize,
) -> (r: Option<Reaction>)
    ensures
        *final(state) == next_state(*old(state), event, position),
        r == reaction(*old(state), event, position, width, height),
{
    let on_board = match position {
        Some((x, y)) => x < width && y < height,
        None => false,
    };
    let on_face = match position {
        Some((x, y)) => !on_board && x == usize::MAX && y == usize::MAX,
        None => false,
    };
    let (x, y) = match position {
        Some(place) => place,
        None => (0, 0),
    };
    match event {
        MouseEvent::LeftPressed => {
            match *state {
                MouseState::RightDown => {
                    *state = MouseState::BothDown(position);
                },
                _ => {
                    *state = MouseState::LeftDown(position);
                },
            }
            Some(Reaction::PressedPositionChanged)
        },
        MouseEvent::RightPressed => {
            match *state {
                MouseState::LeftDown(_) => {
                    *state = MouseState::BothDown(position);
                    Some(Reaction::PressedPositionChanged)
                },
                _ => {
                    *state = MouseState::RightDown;
                    if on_board {
                        Some(Reaction::Board(BoardMessage::Right { x, y }))
                    } else {
                        None
                    }
                },
            }
        },
        MouseEvent::LeftReleased => {
            match *state {
                MouseState::LeftDown(_) => {
                    *state = MouseState::Idle;
                    if on_board {
                        Some(Reaction::Board(BoardMessage::Left { x, y }))
                    } else if on_face {
                        Some(Reaction::FaceClicked)
                    } else {
                        None
                    }
                },
                MouseState::BothDown(_) => {
                    *state = MouseState::RightDown;
                    if on_board {
                        Some(Reaction::Board(BoardMessage::Chord { x, y, is_left: true }))
                    } else if on_face {
                        Some(Reaction::FaceClicked)
                    } else {
                        None
                    }
                },
                _ => None,
            }
        },
        MouseEvent::RightReleased => {
            match *state {
                MouseState::RightDown => {
                    *state = MouseState::Idle;
                    None
                },
                MouseState::BothDown(_) => {
                    *state = MouseState::LeftDown(position);
                    if on_board {
                        Some(Reaction::Board(BoardMessage::Chord { x, y, is_left: false }))
                    } else {
                        None
                    }
                },
                _ => None,
            }
        },
        MouseEvent::Moved => {
            match *state {
                MouseState::LeftDown(shown) => {
                    if same_place(shown, position) {
                        None
                    } else {
                        *state = MouseState::LeftDown(position);
                        Some(Reaction::PressedPositionChanged)
                    }
                },
                MouseState::BothDown(shown) => {
                    if same_place(shown, position) {
                        None
                    } else {
                        *state = MouseState::BothDown(position);
                        Some(Reaction::PressedPositionChanged)
                    }
                },
                _ => None,
            }
        },
    }
}

/// The two places are the same.
fn same_place(a: Option<(usize, usize)>, b: Option<(usize, usize)>) -> (r: bool)
    ensures
        r == (a == b),
{
    match (a, b) {
        (Some((ax, ay)), Some((bx, by))) => ax == bx && ay == by,
        (None, None) => true,
        _ => false,
    }
}

/// Makes the move on the board, unless the game is over. Returns whether
/// the move was made.
pub fn apply<B: Board>(board: &mut B, message: BoardMessage) -> (r: bool)
    requires
        old(board).wf(),
    ensures
        final(board).wf(),
        r == !old(board).spec_state().spec_is_end(),
        final(board).spec_width() == old(board).spec_width(),
        final(board).spec_height() == old(board).spec_height(),
        final(board).spec_mines() == old(board).spec_mines(),
        !r ==> final(board).spec_state() == old(board).spec_state() && forall|x: usize, y: usize|
            final(board).spec_cell_state(x, y) == old(board).spec_cell_state(x, y),
{
    if board.state().is_end() {
        return false;
    }
    match message {
        BoardMessage::Left { x, y } => {
            board.left_click(x, y);
        },
        BoardMessage::Right { x, y } => {
            board.right_click(x, y);
        },
        BoardMessage::Chord { x, y, is_left } => {
            board.chord_click(x, y, is_left);
        },
    }
    true
}

} // verus!
