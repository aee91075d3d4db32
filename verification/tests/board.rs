use minesweeper::base::board::{
    Board, BoardState, CellContent, CellState, ChordMode, StandardBoard,
};
use minesweeper::base::vec2d::Vec2D;
use minesweeper::base::{build_numbers, ImportPack};
use minesweeper::config::GlobalConfig;

#[test]
fn vec2d_reads_and_writes() {
    let mut grid: Vec2D<u32> = Vec2D::new(3, 2);
    assert_eq!(grid.dims(), (3, 2));
    assert_eq!(grid.len(), 6);
    assert_eq!(grid.get(2, 1), Some(&0));
    assert_eq!(grid.get(3, 0), None);
    assert_eq!(grid.get(0, 2), None);
    grid.set(2, 1, 7);
    assert_eq!(*grid.index(2, 1), 7);
    assert_eq!(grid.data()[5], 7);
    *grid.get_mut(0, 0).unwrap() = 9;
    assert!(grid.get_mut(3, 3).is_none());
    grid.swap((0, 0), (2, 1));
    assert_eq!(grid.get(0, 0), Some(&7));
    assert_eq!(grid.get(2, 1), Some(&9));
    assert_eq!(grid.iter().copied().collect::<Vec<u32>>(), vec![7, 0, 0, 0, 0, 9]);
    for cell in grid.iter_mut() {
        *cell += 1;
    }
    assert_eq!(grid.data(), &vec![8, 1, 1, 1, 1, 10]);
    grid.data_mut()[1] = 4;
    assert_eq!(grid.get(1, 0), Some(&4));
    grid.fill(3);
    assert_eq!(grid.data(), &vec![3; 6]);
    let filled = Vec2D::filled(2, 2, 'x');
    assert_eq!(filled.data(), &vec!['x'; 4]);
    let given = Vec2D::from_data(2, 1, vec![1u8, 2u8]);
    assert_eq!(given.get(1, 0), Some(&2));
}

#[test]
fn board_state_counts() {
    let mut state = BoardState::InProgress { opened_cells: 0, flags: 0 };
    assert!(!state.is_end());
    state.cell_opened();
    state.flag_added();
    state.flag_added();
    state.flag_removed();
    assert_eq!(state, BoardState::InProgress { opened_cells: 1, flags: 1 });
    state.flag_removed();
    state.flag_removed();
    assert_eq!(state, BoardState::InProgress { opened_cells: 1, flags: 0 });
    state.check_win(2, 2, 2);
    assert_eq!(state, BoardState::InProgress { opened_cells: 1, flags: 0 });
    state.check_win(2, 2, 3);
    assert_eq!(state, BoardState::Won);
    assert!(state.is_end());
    state.blast();
    assert_eq!(state, BoardState::Won);
    let mut fresh = BoardState::NotStarted;
    fresh.cell_opened();
    fresh.flag_added();
    assert_eq!(fresh, BoardState::NotStarted);
    fresh.blast();
    assert_eq!(fresh, BoardState::Lost { opened_cells: 0, flags: 0 });
    let mut running = BoardState::InProgress { opened_cells: 3, flags: 2 };
    running.blast();
    assert_eq!(running, BoardState::Lost { opened_cells: 3, flags: 2 });
    assert_eq!(BoardState::default(), BoardState::NotStarted);
    assert_eq!(CellState::default(), CellState::Closed);
    assert_eq!(CellContent::default(), CellContent::Empty);
    assert_eq!(ChordMode::default(), ChordMode::Standard);
}

#[test]
fn new_board_clamps_its_size() {
    let board = StandardBoard::new(0, 0, 0, ChordMode::Standard);
    assert_eq!((board.width(), board.height(), board.mines()), (1, 1, 1));
    let board = StandardBoard::new(3, 2, 100, ChordMode::LeftClick);
    assert_eq!((board.width(), board.height(), board.mines()), (3, 2, 6));
    assert_eq!(board.chord_mode(), ChordMode::LeftClick);
    assert_eq!(board.state(), BoardState::NotStarted);
    assert_eq!(board.start_position(), None);
    assert_eq!(board.cell_state(2, 1), Some(CellState::Closed));
    assert_eq!(board.cell_state(3, 0), None);
    assert_eq!(board.cell_content(0, 0), Some(CellContent::Empty));
}

fn count_mines(board: &StandardBoard) -> usize {
    let mut mines = 0;
    for y in 0..board.height() {
        for x in 0..board.width() {
            if board.cell_content(x, y) == Some(CellContent::Mine) {
                mines += 1;
            }
        }
    }
    mines
}

#[test]
fn first_click_is_never_a_mine() {
    for round in 0..20 {
        let mut board = StandardBoard::new(9, 9, 80, ChordMode::Standard);
        let (x, y) = (round % 9, (round * 4) % 9);
        let ended = board.left_click(x, y);
        assert_ne!(board.cell_content(x, y), Some(CellContent::Mine));
        assert_eq!(count_mines(&board), 80);
        assert_eq!(board.cell_state(x, y), Some(CellState::Opening(8.min(neighbours(x, y)))));
        // the one free cell is open: the game is won
        assert!(ended);
        assert_eq!(board.state(), BoardState::Won);
    }
}

fn neighbours(x: usize, y: usize) -> u8 {
    let mut n = 0;
    for dx in [-1i32, 0, 1] {
        for dy in [-1i32, 0, 1] {
            let (nx, ny) = (x as i32 + dx, y as i32 + dy);
            if (dx != 0 || dy != 0) && nx >= 0 && nx < 9 && ny >= 0 && ny < 9 {
                n += 1;
            }
        }
    }
    n
}

#[test]
fn mines_are_shuffled() {
    // Were the mines left where they are laid, they would fill the first rows.
    let mut moved = false;
    for _ in 0..8 {
        let mut board = StandardBoard::new(10, 10, 50, ChordMode::Standard);
        board.right_click(9, 9);
        assert_eq!(count_mines(&board), 50);
        for y in 0..10 {
            for x in 0..10 {
                let mine = board.cell_content(x, y) == Some(CellContent::Mine);
                if mine != (y < 5) {
                    moved = true;
                }
            }
        }
    }
    assert!(moved);
}

#[test]
fn numbers_count_the_mines_around() {
    let mut board = StandardBoard::new(6, 5, 7, ChordMode::Standard);
    board.left_click(2, 2);
    for y in 0..5usize {
        for x in 0..6usize {
            let mut around = 0u8;
            for dy in [-1i32, 0, 1] {
                for dx in [-1i32, 0, 1] {
                    let (nx, ny) = (x as i32 + dx, y as i32 + dy);
                    if (dx != 0 || dy != 0) && nx >= 0 && ny >= 0 {
                        if board.cell_content(nx as usize, ny as usize) == Some(CellContent::Mine) {
                            around += 1;
                        }
                    }
                }
            }
            match board.cell_content(x, y).unwrap() {
                CellContent::Mine => {},
                CellContent::Number(n) => assert_eq!(n, around),
                CellContent::Empty => assert_eq!(around, 0),
            }
        }
    }
}

#[test]
fn a_board_full_of_mines_is_lost_at_once() {
    let mut board = StandardBoard::new(2, 2, 4, ChordMode::Standard);
    assert!(board.left_click(0, 0));
    assert_eq!(board.cell_state(0, 0), Some(CellState::Blasted));
    assert_eq!(board.state(), BoardState::Lost { opened_cells: 0, flags: 0 });
    // nothing moves after the end
    assert!(board.left_click(1, 1));
    assert_eq!(board.cell_state(1, 1), Some(CellState::Closed));
    board.right_click(1, 1);
    assert_eq!(board.cell_state(1, 1), Some(CellState::Closed));
    board.reset();
    assert_eq!(board.state(), BoardState::NotStarted);
    assert_eq!(board.cell_state(0, 0), Some(CellState::Closed));
    assert_eq!(board.cell_content(0, 0), Some(CellContent::Empty));
}

#[test]
fn flags_toggle() {
    let mut board = StandardBoard::new(4, 4, 3, ChordMode::Standard);
    board.right_click(1, 1);
    assert_eq!(board.cell_state(1, 1), Some(CellState::Flagged));
    assert_eq!(board.state(), BoardState::InProgress { opened_cells: 0, flags: 1 });
    board.right_click(1, 1);
    assert_eq!(board.cell_state(1, 1), Some(CellState::Closed));
    assert_eq!(board.state(), BoardState::InProgress { opened_cells: 0, flags: 0 });
    board.right_click(7, 7);
    assert_eq!(board.state(), BoardState::InProgress { opened_cells: 0, flags: 0 });
    board.set_chord_mode(ChordMode::LeftClick);
    assert_eq!(board.chord_mode(), ChordMode::LeftClick);
    assert!(!board.chord_click(0, 0, false));
}

#[test]
fn build_numbers_numbers_a_board() {
    let mut cells = Vec2D::filled(3, 3, CellContent::Empty);
    cells.set(0, 0, CellContent::Mine);
    cells.set(2, 2, CellContent::Mine);
    build_numbers(&mut cells, 2);
    let expected = vec![
        CellContent::Mine,
        CellContent::Number(1),
        CellContent::Empty,
        CellContent::Number(1),
        CellContent::Number(2),
        CellContent::Number(1),
        CellContent::Empty,
        CellContent::Number(1),
        CellContent::Mine,
    ];
    assert_eq!(cells.data(), &expected);
    let pack = ImportPack { cell_contents: cells, mines: 2, start_position: Some((1, 1)) };
    assert_eq!(pack.mines, 2);
    assert_eq!(pack.start_position, Some((1, 1)));
}

#[test]
fn config_holds_the_choices() {
    let config = GlobalConfig {
        chord_mode: ChordMode::Standard,
        skin: String::from("classic"),
        cell_size: 24,
        board: [9, 9, 10],
    };
    assert_eq!(config.board, [9, 9, 10]);
    assert_eq!(config.cell_size, 24);
    assert_eq!(config.skin, "classic");
    assert_eq!(config.chord_mode, ChordMode::Standard);
}

#[test]
fn empty_cells_open_their_neighbours() {
    for round in 0..12usize {
        let mut board = StandardBoard::new(8, 6, 5, ChordMode::Standard);
        board.left_click(round % 8, round % 6);
        let mut opened = 0;
        for y in 0..6usize {
            for x in 0..8usize {
                let shown = board.cell_state(x, y).unwrap();
                let held = board.cell_content(x, y).unwrap();
                match shown {
                    CellState::Opening(n) => {
                        opened += 1;
                        // an open cell shows what it holds
                        match held {
                            CellContent::Number(m) => assert_eq!(n, m),
                            CellContent::Empty => assert_eq!(n, 0),
                            CellContent::Mine => panic!("an open mine at ({}, {})", x, y),
                        }
                    },
                    CellState::Closed => {},
                    other => panic!("unexpected {:?} at ({}, {})", other, x, y),
                }
                if shown == CellState::Opening(0) {
                    // no cell around an open empty cell stays closed
                    for dy in [-1i32, 0, 1] {
                        for dx in [-1i32, 0, 1] {
                            let (nx, ny) = (x as i32 + dx, y as i32 + dy);
                            if nx >= 0 && ny >= 0 {
                                if let Some(around) = board.cell_state(nx as usize, ny as usize) {
                                    assert!(matches!(around, CellState::Opening(_)));
                                }
                            }
                        }
                    }
                }
            }
        }
        assert!(opened >= 1);
        let expected = if opened == 8 * 6 - 5 {
            BoardState::Won
        } else {
            BoardState::InProgress { opened_cells: opened, flags: 0 }
        };
        assert_eq!(board.state(), expected);
    }
}

#[test]
fn opening_takes_a_wrong_flag_away() {
    let mut board = StandardBoard::new(3, 3, 1, ChordMode::Standard);
    // the first click lays the mine; find a cell that stayed closed and holds no mine
    board.left_click(0, 0);
    if board.state() == BoardState::Won {
        return;
    }
    let mut target = None;
    for y in 0..3usize {
        for x in 0..3usize {
            if board.cell_state(x, y) == Some(CellState::Closed)
                && board.cell_content(x, y) != Some(CellContent::Mine)
            {
                target = Some((x, y));
            }
        }
    }
    if let Some((x, y)) = target {
        let before = board.state();
        board.right_click(x, y);
        assert_eq!(board.cell_state(x, y), Some(CellState::Flagged));
        board.left_click(x, y);
        assert!(matches!(board.cell_state(x, y), Some(CellState::Opening(_))));
        match (before, board.state()) {
            (BoardState::InProgress { opened_cells, .. }, BoardState::InProgress { opened_cells: now, flags }) => {
                assert!(now > opened_cells);
                assert_eq!(flags, 0);
            },
            (_, BoardState::Won) => {},
            other => panic!("unexpected {:?}", other),
        }
    }
}

#[test]
fn a_new_board_is_closed_and_empty() {
    let board = StandardBoard::new(4, 3, 5, ChordMode::LeftClick);
    assert_eq!(board.state(), BoardState::NotStarted);
    for x in 0..6 {
        for y in 0..5 {
            if x < 4 && y < 3 {
                assert_eq!(board.cell_state(x, y), Some(CellState::Closed));
                assert_eq!(board.cell_content(x, y), Some(CellContent::Empty));
            } else {
                assert_eq!(board.cell_state(x, y), None);
                assert_eq!(board.cell_content(x, y), None);
            }
        }
    }
}

#[test]
fn a_board_of_nothing_has_one_cell_and_one_mine() {
    let board = StandardBoard::new(0, 0, 0, ChordMode::LeftClick);
    assert_eq!(board.width(), 1);
    assert_eq!(board.height(), 1);
    assert_eq!(board.mines(), 1);
    assert_eq!(board.cell_state(0, 0), Some(CellState::Closed));
    assert_eq!(board.cell_content(0, 0), Some(CellContent::Empty));
    assert_eq!(board.cell_state(1, 0), None);
}

/// The cells around `(x, y)` on an 8 x 6 board.
fn cells_around(x: usize, y: usize) -> Vec<(usize, usize)> {
    let mut cells = Vec::new();
    for dy in [-1i32, 0, 1] {
        for dx in [-1i32, 0, 1] {
            let (nx, ny) = (x as i32 + dx, y as i32 + dy);
            if (dx != 0 || dy != 0) && nx >= 0 && ny >= 0 && nx < 8 && ny < 6 {
                cells.push((nx as usize, ny as usize));
            }
        }
    }
    cells
}

#[test]
fn a_chord_opens_what_lies_around_a_satisfied_number() {
    for round in 0..12usize {
        let mut board = StandardBoard::new(8, 6, 6, ChordMode::Standard);
        board.left_click(round % 8, round % 6);
        if board.state().is_end() {
            continue;
        }
        // a number with a closed cell without a mine next to it
        let mut target = None;
        for y in 0..6usize {
            for x in 0..8usize {
                if let Some(CellState::Opening(n)) = board.cell_state(x, y) {
                    let spare = cells_around(x, y).iter().any(|&(nx, ny)| {
                        board.cell_state(nx, ny) == Some(CellState::Closed)
                            && board.cell_content(nx, ny) != Some(CellContent::Mine)
                    });
                    if n >= 1 && spare && target.is_none() {
                        target = Some((x, y));
                    }
                }
            }
        }
        let (x, y) = match target {
            Some(place) => place,
            None => continue,
        };
        // without the flags a chord does nothing
        let mut before = Vec::new();
        for (nx, ny) in cells_around(x, y) {
            before.push(board.cell_state(nx, ny));
        }
        assert!(!board.chord_click(x, y, false));
        for (i, (nx, ny)) in cells_around(x, y).into_iter().enumerate() {
            assert_eq!(board.cell_state(nx, ny), before[i]);
        }
        // with a flag on every mine around it, it opens the rest
        for (nx, ny) in cells_around(x, y) {
            if board.cell_content(nx, ny) == Some(CellContent::Mine) {
                board.right_click(nx, ny);
            }
        }
        let over = board.chord_click(x, y, false);
        assert_eq!(over, board.state().is_end());
        for (nx, ny) in cells_around(x, y) {
            let shown = board.cell_state(nx, ny).unwrap();
            if board.cell_content(nx, ny) == Some(CellContent::Mine) {
                assert_eq!(shown, CellState::Flagged);
            } else {
                assert!(matches!(shown, CellState::Opening(_)));
            }
        }
    }
}

#[test]
fn a_left_click_opens_the_closed_cell() {
    for round in 0..10usize {
        let mut board = StandardBoard::new(5, 4, 6, ChordMode::Standard);
        let (x, y) = (round % 5, round % 4);
        board.left_click(x, y);
        // the first click never meets a mine
        let held = board.cell_content(x, y).unwrap();
        match (board.cell_state(x, y).unwrap(), held) {
            (CellState::Opening(n), CellContent::Number(m)) => assert_eq!(n, m),
            (CellState::Opening(0), CellContent::Empty) => {},
            other => panic!("unexpected {:?}", other),
        }
        // a later click on a closed mine blasts it
        let mut mine = None;
        for qy in 0..4usize {
            for qx in 0..5usize {
                if board.cell_content(qx, qy) == Some(CellContent::Mine) {
                    mine = Some((qx, qy));
                }
            }
        }
        if board.state().is_end() {
            continue;
        }
        let (mx, my) = mine.unwrap();
        assert!(board.left_click(mx, my));
        assert_eq!(board.cell_state(mx, my), Some(CellState::Blasted));
        assert!(matches!(board.state(), BoardState::Lost { .. }));
    }
}
