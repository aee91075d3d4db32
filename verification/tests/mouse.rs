use minesweeper::base::board::{Board, BoardState, CellState, ChordMode, StandardBoard};
use minesweeper::ui::game::{apply, mouse_update, BoardMessage, MouseEvent, MouseState, Reaction};

#[test]
fn left_click_is_press_and_release() {
    let mut state = MouseState::default();
    let r = mouse_update(&mut state, MouseEvent::LeftPressed, Some((1, 2)), 9, 9);
    assert_eq!(r, Some(Reaction::PressedPositionChanged));
    assert!(matches!(state, MouseState::LeftDown(Some((1, 2)))));
    let r = mouse_update(&mut state, MouseEvent::Moved, Some((1, 2)), 9, 9);
    assert_eq!(r, None);
    let r = mouse_update(&mut state, MouseEvent::Moved, Some((2, 2)), 9, 9);
    assert_eq!(r, Some(Reaction::PressedPositionChanged));
    assert!(matches!(state, MouseState::LeftDown(Some((2, 2)))));
    let r = mouse_update(&mut state, MouseEvent::LeftReleased, Some((2, 2)), 9, 9);
    assert_eq!(r, Some(Reaction::Board(BoardMessage::Left { x: 2, y: 2 })));
    assert!(matches!(state, MouseState::Idle));
}

#[test]
fn right_press_flags_at_once() {
    let mut state = MouseState::Idle;
    let r = mouse_update(&mut state, MouseEvent::RightPressed, Some((3, 0)), 9, 9);
    assert_eq!(r, Some(Reaction::Board(BoardMessage::Right { x: 3, y: 0 })));
    assert!(matches!(state, MouseState::RightDown));
    let r = mouse_update(&mut state, MouseEvent::RightReleased, Some((3, 0)), 9, 9);
    assert_eq!(r, None);
    assert!(matches!(state, MouseState::Idle));
    // off the board nothing is flagged
    let r = mouse_update(&mut state, MouseEvent::RightPressed, Some((9, 0)), 9, 9);
    assert_eq!(r, None);
    let r = mouse_update(&mut state, MouseEvent::RightPressed, None, 9, 9);
    assert_eq!(r, None);
}

#[test]
fn both_buttons_chord() {
    let mut state = MouseState::Idle;
    mouse_update(&mut state, MouseEvent::LeftPressed, Some((4, 4)), 9, 9);
    let r = mouse_update(&mut state, MouseEvent::RightPressed, Some((4, 4)), 9, 9);
    assert_eq!(r, Some(Reaction::PressedPositionChanged));
    assert!(matches!(state, MouseState::BothDown(Some((4, 4)))));
    let r = mouse_update(&mut state, MouseEvent::LeftReleased, Some((4, 4)), 9, 9);
    assert_eq!(r, Some(Reaction::Board(BoardMessage::Chord { x: 4, y: 4, is_left: true })));
    assert!(matches!(state, MouseState::RightDown));
    mouse_update(&mut state, MouseEvent::LeftPressed, Some((4, 4)), 9, 9);
    assert!(matches!(state, MouseState::BothDown(Some((4, 4)))));
    let r = mouse_update(&mut state, MouseEvent::RightReleased, Some((5, 4)), 9, 9);
    assert_eq!(r, Some(Reaction::Board(BoardMessage::Chord { x: 5, y: 4, is_left: false })));
    assert!(matches!(state, MouseState::LeftDown(Some((5, 4)))));
}

#[test]
fn the_face_starts_over() {
    let face = Some((usize::MAX, usize::MAX));
    let mut state = MouseState::Idle;
    mouse_update(&mut state, MouseEvent::LeftPressed, face, 9, 9);
    let r = mouse_update(&mut state, MouseEvent::LeftReleased, face, 9, 9);
    assert_eq!(r, Some(Reaction::FaceClicked));
    // a release without a press does nothing
    let r = mouse_update(&mut state, MouseEvent::LeftReleased, Some((0, 0)), 9, 9);
    assert_eq!(r, None);
    assert!(matches!(state, MouseState::Idle));
}

#[test]
fn moves_reach_the_board_until_the_game_is_over() {
    let mut board = StandardBoard::new(2, 2, 4, ChordMode::Standard);
    assert!(apply(&mut board, BoardMessage::Right { x: 1, y: 1 }));
    assert_eq!(board.cell_state(1, 1), Some(CellState::Flagged));
    assert!(apply(&mut board, BoardMessage::Chord { x: 0, y: 0, is_left: true }));
    assert!(apply(&mut board, BoardMessage::Left { x: 0, y: 0 }));
    assert_eq!(board.state(), BoardState::Lost { opened_cells: 0, flags: 1 });
    assert!(!apply(&mut board, BoardMessage::Left { x: 1, y: 0 }));
    assert_eq!(board.cell_state(1, 0), Some(CellState::Closed));
}
