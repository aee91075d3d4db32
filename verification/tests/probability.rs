use minesweeper::base::board::CellState;
use minesweeper::base::vec2d::Vec2D;
use minesweeper::engine::solver::probability::ProbabilityCalculator;
use minesweeper::engine::solver::trivial::TrivialAnalysis;
use minesweeper::engine::solver::{BoardSafety, CellSafety, Solver};

/// The chance held by a cell, as a fraction of one.
fn chance(cell: &CellSafety) -> Option<f64> {
    match cell {
        CellSafety::Probability(p) => Some(p.mine_probability as f64 / 4294967296.0),
        _ => None,
    }
}

/// A board from a text of tokens: a digit is a revealed number, `?` a closed cell.
fn build_cell_states_with_str(text: &str, width: usize, height: usize) -> Vec2D<CellState> {
    let mut cell_states = Vec2D::filled(width, height, CellState::Closed);
    for (i, token) in text.split_whitespace().enumerate() {
        let state = match token.parse::<u8>() {
            Ok(n) => CellState::Opening(n),
            Err(_) => CellState::Closed,
        };
        cell_states.set(i % width, i / width, state);
    }
    cell_states
}

#[test]
fn test_simple_probability() {
    // ? ? ?
    // ? 1 ?
    // ? ? ?
    let mut cell_states = Vec2D::filled(3, 3, CellState::Closed);
    cell_states.set(1, 1, CellState::Opening(1));

    let board_safety = BoardSafety::new(&cell_states, 1, false);
    let calculator = ProbabilityCalculator::new(false);
    let result = calculator.calculate(board_safety).unwrap();

    // All 8 surrounding cells should have equal probability of 1/8 = 0.125
    for x in 0..3 {
        for y in 0..3 {
            if x == 1 && y == 1 {
                continue;
            }
            match result.get(x, y).and_then(chance) {
                Some(p) => {
                    assert!((p - 0.125).abs() < 0.01);
                },
                _ => panic!("Expected Probability at ({}, {})", x, y),
            }
        }
    }
}

#[test]
fn test_certain_mine() {
    // ? 1
    // 1 1
    let mut cell_states = Vec2D::filled(2, 2, CellState::Closed);
    cell_states.set(1, 0, CellState::Opening(1));
    cell_states.set(0, 1, CellState::Opening(1));
    cell_states.set(1, 1, CellState::Opening(1));

    let board_safety = BoardSafety::new(&cell_states, 1, false);
    let calculator = ProbabilityCalculator::new(false);
    let result = calculator.calculate(board_safety).unwrap();

    match result.get(0, 0) {
        Some(CellSafety::Mine) => {},
        other => panic!("Expected Mine at (0, 0), got {:?}", other),
    }
}

#[test]
fn test_certain_safe() {
    // 1 1
    // ? M
    let mut cell_states = Vec2D::filled(2, 2, CellState::Closed);
    cell_states.set(0, 0, CellState::Opening(1));
    cell_states.set(1, 0, CellState::Opening(1));
    cell_states.set(1, 1, CellState::Flagged);

    let board_safety = BoardSafety::new(&cell_states, 1, true);

    let trivial = TrivialAnalysis::new(false);
    let result = trivial.calculate(board_safety).unwrap();

    match result.get(0, 1) {
        Some(CellSafety::Safe) => {},
        other => panic!("Expected Safe at (0, 1), got {:?}", other),
    }
}

#[test]
fn test_with_wilderness() {
    // 1 ? ?
    // ? ? ?
    // ? ? ?
    let mut cell_states = Vec2D::filled(3, 3, CellState::Closed);
    cell_states.set(0, 0, CellState::Opening(1));

    let board_safety = BoardSafety::new(&cell_states, 2, false);
    let calculator = ProbabilityCalculator::new(false);
    let result = calculator.calculate(board_safety).unwrap();

    for x in 0..3 {
        for y in 0..3 {
            if x == 0 && y == 0 {
                continue;
            }
            match result.get(x, y).and_then(chance) {
                Some(p) => {
                    assert!(p > 0.0 && p < 1.0);
                },
                None => panic!("Expected Probability at ({}, {}), got {:?}", x, y, result.get(x, y)),
            }
        }
    }
}

#[test]
fn test_complex_constraints() {
    // ? ? ?
    // 2 2 2
    // ? ? ?
    let mut cell_states = Vec2D::filled(3, 3, CellState::Closed);
    cell_states.set(0, 1, CellState::Opening(2));
    cell_states.set(1, 1, CellState::Opening(2));
    cell_states.set(2, 1, CellState::Opening(2));

    let board_safety = BoardSafety::new(&cell_states, 2, false);
    let calculator = ProbabilityCalculator::new(false);
    let result = calculator.calculate(board_safety).unwrap();

    for x in 0..3 {
        for y in [0, 2] {
            match result.get(x, y) {
                Some(CellSafety::Probability(_)) | Some(CellSafety::Safe) | Some(CellSafety::Mine) => {},
                other => panic!("Expected determined state at ({}, {}), got {:?}", x, y, other),
            }
        }
    }
}

#[test]
fn test_all_mines_determined() {
    // 1 1
    // ? M
    let mut cell_states = Vec2D::filled(2, 2, CellState::Closed);
    cell_states.set(0, 0, CellState::Opening(1));
    cell_states.set(1, 0, CellState::Opening(1));
    cell_states.set(1, 1, CellState::Flagged);

    let board_safety = BoardSafety::new(&cell_states, 1, true);

    let trivial = TrivialAnalysis::new(false);
    let intermediate = trivial.calculate(board_safety).unwrap();

    let calculator = ProbabilityCalculator::new(false);
    let result = calculator.calculate(intermediate).unwrap();

    match result.get(0, 1) {
        Some(CellSafety::Safe) => {},
        other => panic!("Expected Safe at (0, 1), got {:?}", other),
    }
}

#[test]
fn test_uniform_probability_no_opened_cells() {
    let cell_states = Vec2D::filled(5, 5, CellState::Closed);
    let total_cells = 25;
    let mine_count = 5;

    let board_safety = BoardSafety::new(&cell_states, mine_count, false);
    let calculator = ProbabilityCalculator::new(false);
    let result = calculator.calculate(board_safety).unwrap();

    let expected_probability = mine_count as f64 / total_cells as f64;

    for x in 0..5 {
        for y in 0..5 {
            match result.get(x, y).and_then(chance) {
                Some(p) => {
                    assert!(
                        (p - expected_probability).abs() < 0.0001,
                        "Expected probability {} at ({}, {}), got {}",
                        expected_probability,
                        x,
                        y,
                        p
                    );
                },
                None => panic!("Expected Probability at ({}, {}), got {:?}", x, y, result.get(x, y)),
            }
        }
    }
}

#[test]
fn test_large_board_no_overflow() {
    const BOARD_SIZE: usize = 30;
    const EXPERT_MINE_COUNT: usize = 99;

    let mut cell_states = Vec2D::filled(BOARD_SIZE, BOARD_SIZE, CellState::Closed);
    cell_states.set(0, 0, CellState::Opening(1));

    let board_safety = BoardSafety::new(&cell_states, EXPERT_MINE_COUNT, false);
    let calculator = ProbabilityCalculator::new(false);
    let result = calculator.calculate(board_safety).unwrap();

    let mut wilderness_count = 0;
    for x in 0..BOARD_SIZE {
        for y in 0..BOARD_SIZE {
            if x == 0 && y == 0 {
                continue;
            }
            match result.get(x, y) {
                Some(cell @ CellSafety::Probability(_)) => {
                    let p = chance(cell).unwrap();
                    assert!(p.is_finite(), "Probability at ({}, {}) is not finite: {}", x, y, p);
                    assert!(
                        p >= 0.0 && p <= 1.0,
                        "Probability at ({}, {}) out of range: {}",
                        x,
                        y,
                        p
                    );
                    if x > 1 || y > 1 {
                        wilderness_count += 1;
                    }
                },
                Some(CellSafety::Frontier) | Some(CellSafety::Wilderness) => {},
                other => panic!("Unexpected state at ({}, {}): {:?}", x, y, other),
            }
        }
    }

    assert!(wilderness_count > 0, "No wilderness cells were tested");
}

#[test]
fn test_beginner_board() {
    let cell_states = build_cell_states_with_str(
        "1 ? ? ? ? ? 1 0 0 \
            1 1 1 1 ? ? 2 1 0 \
            0 0 0 1 2 ? ? 1 0 \
            0 0 0 0 1 ? 2 1 0 \
            0 1 1 1 1 ? 1 0 0 \
            0 1 ? ? ? ? 1 0 0 \
            0 1 1 1 ? ? 3 2 1 \
            0 0 0 1 ? ? ? ? ? \
            0 0 0 1 ? ? ? ? 1",
        9,
        9,
    );

    let board_safety = BoardSafety::new(&cell_states, 10, false);
    let trivial = TrivialAnalysis::new(false);
    let calculator = ProbabilityCalculator::new(false);
    let result = trivial
        .calculate(board_safety)
        .and_then(|board| calculator.calculate(board))
        .unwrap();

    match result.get(5, 0) {
        Some(CellSafety::Probability(_)) | Some(CellSafety::Safe) | Some(CellSafety::Mine) => {},
        other => panic!("Expected determined state at ({}, {}), got {:?}", 5, 0, other),
    }
    match result.get(4, 5) {
        Some(CellSafety::Probability(_)) | Some(CellSafety::Safe) | Some(CellSafety::Mine) => {},
        other => panic!("Expected determined state at ({}, {}), got {:?}", 4, 5, other),
    }
}

#[test]
fn simple_probability_is_exactly_one_eighth() {
    let mut cell_states = Vec2D::filled(3, 3, CellState::Closed);
    cell_states.set(1, 1, CellState::Opening(1));
    let board = BoardSafety::new(&cell_states, 1, false);
    let result = ProbabilityCalculator::new(false).calculate(board).unwrap();
    for x in 0..3 {
        for y in 0..3 {
            if x == 1 && y == 1 {
                assert_eq!(result.get(x, y), Some(&CellSafety::Unresolved(1)));
                continue;
            }
            match result.get(x, y) {
                Some(CellSafety::Probability(p)) => {
                    assert!(p.frontier);
                    assert_eq!(p.mine_probability, 1u32 << 29);
                },
                other => panic!("unexpected {:?}", other),
            }
        }
    }
    assert_eq!(result.suggestion(), None);
}

#[test]
fn uniform_probability_is_one_fifth_rounded_down() {
    let cell_states = Vec2D::filled(5, 5, CellState::Closed);
    let board = BoardSafety::new(&cell_states, 5, false);
    let result = ProbabilityCalculator::new(false).calculate(board).unwrap();
    for x in 0..5 {
        for y in 0..5 {
            match result.get(x, y) {
                Some(CellSafety::Probability(p)) => {
                    assert!(!p.frontier);
                    assert_eq!(p.mine_probability, 858993459);
                },
                other => panic!("unexpected {:?}", other),
            }
        }
    }
}

#[test]
fn frontier_and_wilderness_get_their_own_chance() {
    // 1 ? ?
    // ? ? ?
    // ? ? ?   with two mines: one among the three neighbours, one among the other five
    let mut cell_states = Vec2D::filled(3, 3, CellState::Closed);
    cell_states.set(0, 0, CellState::Opening(1));
    let board = BoardSafety::new(&cell_states, 2, false);
    let result = ProbabilityCalculator::new(false).calculate(board).unwrap();
    for (x, y) in [(1, 0), (0, 1), (1, 1)] {
        match result.get(x, y) {
            Some(CellSafety::Probability(p)) => {
                assert!(p.frontier);
                assert_eq!(p.mine_probability, 1431655765);
            },
            other => panic!("unexpected {:?}", other),
        }
    }
    for (x, y) in [(2, 0), (2, 1), (0, 2), (1, 2), (2, 2)] {
        match result.get(x, y) {
            Some(CellSafety::Probability(p)) => {
                assert!(!p.frontier);
                assert_eq!(p.mine_probability, 858993459);
            },
            other => panic!("unexpected {:?}", other),
        }
    }
}

#[test]
fn no_mines_left_makes_every_closed_cell_safe() {
    let mut cell_states = Vec2D::filled(2, 2, CellState::Closed);
    cell_states.set(0, 0, CellState::Flagged);
    let board = BoardSafety::new(&cell_states, 1, true);
    let result = ProbabilityCalculator::new(false).calculate(board).unwrap();
    assert_eq!(result.get(0, 0), Some(&CellSafety::Mine));
    assert_eq!(result.get(1, 0), Some(&CellSafety::Safe));
    assert_eq!(result.get(0, 1), Some(&CellSafety::Safe));
    assert_eq!(result.get(1, 1), Some(&CellSafety::Safe));
    assert_eq!(result.suggestion(), Some((1, 0)));
}

#[test]
fn engine_stops_at_the_first_safe_cell_when_asked() {
    let mut cell_states = Vec2D::filled(2, 2, CellState::Closed);
    cell_states.set(0, 0, CellState::Flagged);
    let board = BoardSafety::new(&cell_states, 1, true);
    let result = ProbabilityCalculator::new(true).calculate(board).unwrap();
    assert_eq!(result.get(1, 0), Some(&CellSafety::Safe));
    assert_eq!(result.get(0, 1), Some(&CellSafety::Wilderness));
    assert_eq!(result.get(1, 1), Some(&CellSafety::Wilderness));
    assert_eq!(result.suggestion(), Some((1, 0)));
}

#[test]
fn all_mines_is_certain() {
    let cell_states = Vec2D::filled(2, 2, CellState::Closed);
    let board = BoardSafety::new(&cell_states, 4, false);
    let result = ProbabilityCalculator::new(false).calculate(board).unwrap();
    for x in 0..2 {
        for y in 0..2 {
            assert_eq!(result.get(x, y), Some(&CellSafety::Mine));
        }
    }
}

#[test]
fn repeated_runs_agree() {
    let mut cell_states = Vec2D::filled(4, 4, CellState::Closed);
    cell_states.set(1, 1, CellState::Opening(2));
    cell_states.set(2, 2, CellState::Opening(1));
    let first = ProbabilityCalculator::new(false)
        .calculate(BoardSafety::new(&cell_states, 4, false))
        .unwrap();
    let second = ProbabilityCalculator::new(false)
        .calculate(BoardSafety::new(&cell_states, 4, false))
        .unwrap();
    for x in 0..4 {
        for y in 0..4 {
            assert_eq!(first.get(x, y), second.get(x, y));
        }
    }
    assert_eq!(first.suggestion(), second.suggestion());
}

#[test]
fn engine_leaves_what_the_propagation_settled() {
    // 1 1
    // ? M
    let mut cell_states = Vec2D::filled(2, 2, CellState::Closed);
    cell_states.set(0, 0, CellState::Opening(1));
    cell_states.set(1, 0, CellState::Opening(1));
    cell_states.set(1, 1, CellState::Flagged);
    let board = BoardSafety::new(&cell_states, 1, true);
    let settled = TrivialAnalysis::new(false).calculate(board).unwrap();
    let mut before = Vec::new();
    for x in 0..2 {
        for y in 0..2 {
            before.push(*settled.get(x, y).unwrap());
        }
    }
    let result = ProbabilityCalculator::new(false).calculate(settled).unwrap();
    let mut i = 0;
    for x in 0..2 {
        for y in 0..2 {
            assert_eq!(result.get(x, y), Some(&before[i]));
            i += 1;
        }
    }
}

/// The share of the placements that put a mine on each closed cell, found
/// by trying every placement of the mines on the closed cells. A flag
/// stands for a mine that is known; `mines` counts these too.
fn shares(cell_states: &Vec2D<CellState>, width: usize, height: usize, mines: usize) -> Vec<Option<(u64, u64)>> {
    let mut closed: Vec<(usize, usize)> = Vec::new();
    let mut flagged: Vec<(usize, usize)> = Vec::new();
    for y in 0..height {
        for x in 0..width {
            if cell_states.get(x, y) == Some(&CellState::Closed) {
                closed.push((x, y));
            }
            if cell_states.get(x, y) == Some(&CellState::Flagged) {
                flagged.push((x, y));
            }
        }
    }
    let mines = mines - flagged.len();
    let mut hits = vec![0u64; closed.len()];
    let mut total = 0u64;
    for mask in 0u32..(1u32 << closed.len()) {
        if mask.count_ones() as usize != mines {
            continue;
        }
        let mut grid = vec![false; width * height];
        for (i, c) in closed.iter().enumerate() {
            if mask & (1 << i) != 0 {
                grid[c.1 * width + c.0] = true;
            }
        }
        for c in flagged.iter() {
            grid[c.1 * width + c.0] = true;
        }
        let mined = |x: i64, y: i64| {
            x >= 0 && y >= 0 && x < width as i64 && y < height as i64 && grid[y as usize * width + x as usize]
        };
        let mut fits = true;
        for y in 0..height {
            for x in 0..width {
                if let Some(&CellState::Opening(n)) = cell_states.get(x, y) {
                    let mut around = 0;
                    for dy in -1i64..=1 {
                        for dx in -1i64..=1 {
                            if (dx != 0 || dy != 0) && mined(x as i64 + dx, y as i64 + dy) {
                                around += 1;
                            }
                        }
                    }
                    if around != n {
                        fits = false;
                    }
                }
            }
        }
        if fits {
            total += 1;
            for i in 0..closed.len() {
                if mask & (1 << i) != 0 {
                    hits[i] += 1;
                }
            }
        }
    }
    let mut result = vec![None; width * height];
    for (i, c) in closed.iter().enumerate() {
        result[c.1 * width + c.0] = Some((hits[i], total));
    }
    result
}

/// Holds what the engine reports against the share of the placements.
fn engine_matches_the_shares(text: &str, width: usize, height: usize, mines: usize) {
    let cell_states = build_cell_states_with_str(text, width, height);
    let expected = shares(&cell_states, width, height, mines);
    let board = BoardSafety::new(&cell_states, mines, false);
    let result = ProbabilityCalculator::new(false).calculate(board).unwrap();
    for y in 0..height {
        for x in 0..width {
            if let Some((hits, total)) = expected[y * width + x] {
                assert!(total > 0);
                match result.get(x, y) {
                    Some(CellSafety::Safe) => assert_eq!(hits, 0, "at ({}, {})", x, y),
                    Some(CellSafety::Mine) => assert_eq!(hits, total, "at ({}, {})", x, y),
                    Some(CellSafety::Probability(p)) => {
                        let bits = ((hits as u128) << 32) / total as u128;
                        assert_eq!(p.mine_probability as u128, bits, "at ({}, {})", x, y);
                    },
                    other => panic!("unexpected {:?} at ({}, {})", other, x, y),
                }
            }
        }
    }
}

#[test]
fn two_numbers_over_one_box_give_one_half() {
    // ? ? ?
    // 1 2 ?
    let cell_states = build_cell_states_with_str("? ? ? 1 2 ?", 3, 2);
    let board = BoardSafety::new(&cell_states, 2, false);
    let result = ProbabilityCalculator::new(false).calculate(board).unwrap();
    for (x, y) in [(0, 0), (1, 0), (2, 0), (2, 1)] {
        match result.get(x, y) {
            Some(CellSafety::Probability(p)) => {
                assert!(p.frontier);
                assert_eq!(p.mine_probability, 1u32 << 31);
            },
            other => panic!("unexpected {:?} at ({}, {})", other, x, y),
        }
    }
    assert_eq!(result.get(0, 1), Some(&CellSafety::Unresolved(1)));
    assert_eq!(result.get(1, 1), Some(&CellSafety::Unresolved(2)));
}

#[test]
fn chance_times_box_size_is_the_mean_mine_count() {
    // ? ? ?
    // 1 2 ?
    // every placement puts one mine into the box of (0,0) and (1,0)
    let cell_states = build_cell_states_with_str("? ? ? 1 2 ?", 3, 2);
    let board = BoardSafety::new(&cell_states, 2, false);
    let result = ProbabilityCalculator::new(false).calculate(board).unwrap();
    let mut sum = 0u64;
    for (x, y) in [(0, 0), (1, 0)] {
        match result.get(x, y) {
            Some(CellSafety::Probability(p)) => sum += p.mine_probability as u64,
            other => panic!("unexpected {:?} at ({}, {})", other, x, y),
        }
    }
    assert_eq!(sum, 1u64 << 32);
}

#[test]
fn chances_are_shares_of_the_placements_small_boards() {
    engine_matches_the_shares("? ? ? 1 2 ?", 3, 2, 2);
    engine_matches_the_shares("? ? ? ? 1 2 2 1 ? ? ? ?", 4, 3, 2);
    engine_matches_the_shares("? ? ? ? ? 1 2 ? ? ? ? ? ? 2 ? ? ? ? ? ?", 5, 4, 4);
    engine_matches_the_shares("? 1 ? 2 ? ? ? ? ? ? ? ? 1 ? ?", 5, 3, 4);
}

#[test]
fn chances_are_shares_of_the_placements_two_parts() {
    // two numbers far from one another, and cells that touch neither
    engine_matches_the_shares("1 ? ? ? ? ? ? ? ? ? ? ? ? ? ? ? ? 2", 6, 3, 5);
    engine_matches_the_shares("? ? ? ? ? ? 1 ? ? ? ? 3 ? ? ? ? ? ?", 6, 3, 6);
}

#[test]
fn set_probability_writes_to_any_cell() {
    let cell_states = build_cell_states_with_str("1 ? ? ?", 2, 2);
    let mut board = BoardSafety::new(&cell_states, 1, false);
    board.set(1, 0, CellSafety::Safe);
    let calculator = ProbabilityCalculator::new(true);
    // a settled cell is overwritten
    assert!(!calculator.set_probability(&mut board, 1, 0, CellSafety::Mine));
    assert_eq!(board.get(1, 0), Some(&CellSafety::Mine));
    assert_eq!(board.suggestion(), None);
    // the number itself too
    assert!(!calculator.set_probability(&mut board, 0, 0, CellSafety::Mine));
    assert_eq!(board.get(0, 0), Some(&CellSafety::Mine));
    // the first safe cell becomes the suggestion and ends the pass
    assert!(calculator.set_probability(&mut board, 0, 1, CellSafety::Safe));
    assert_eq!(board.get(0, 1), Some(&CellSafety::Safe));
    assert_eq!(board.suggestion(), Some((0, 1)));
    // a later safe cell does neither
    assert!(!calculator.set_probability(&mut board, 1, 1, CellSafety::Safe));
    assert_eq!(board.get(1, 1), Some(&CellSafety::Safe));
    assert_eq!(board.suggestion(), Some((0, 1)));
    // nothing else has changed
    assert_eq!(board.get(1, 0), Some(&CellSafety::Mine));
}

#[test]
fn set_probability_goes_on_where_it_is_not_asked_to_stop() {
    let cell_states = build_cell_states_with_str("1 ? ? ?", 2, 2);
    let mut board = BoardSafety::new(&cell_states, 1, false);
    let calculator = ProbabilityCalculator::new(false);
    assert!(!calculator.set_probability(&mut board, 1, 1, CellSafety::Safe));
    assert_eq!(board.suggestion(), Some((1, 1)));
}

/// A board from a text of tokens: a digit is a revealed number, `F` a flag,
/// anything else a closed cell.
fn board_with_flags(text: &str, width: usize, height: usize) -> Vec2D<CellState> {
    let mut cell_states = Vec2D::filled(width, height, CellState::Closed);
    for (i, token) in text.split_whitespace().enumerate() {
        let state = match token.parse::<u8>() {
            Ok(n) => CellState::Opening(n),
            Err(_) => if token == "F" {
                CellState::Flagged
            } else {
                CellState::Closed
            },
        };
        cell_states.set(i % width, i / width, state);
    }
    cell_states
}

/// Holds what the propagation and the engine, one after the other, make of
/// a board against the share of the placements.
fn pipeline_matches_the_shares(text: &str, width: usize, height: usize, mines: usize) {
    let cell_states = board_with_flags(text, width, height);
    let expected = shares(&cell_states, width, height, mines);
    let board = BoardSafety::new(&cell_states, mines, true);
    let settled = TrivialAnalysis::new(false).calculate(board).unwrap();
    let result = ProbabilityCalculator::new(false).calculate(settled).unwrap();
    for y in 0..height {
        for x in 0..width {
            if let Some((hits, total)) = expected[y * width + x] {
                assert!(total > 0);
                match result.get(x, y) {
                    Some(CellSafety::Safe) => assert_eq!(hits, 0, "at ({}, {})", x, y),
                    Some(CellSafety::Mine) => assert_eq!(hits, total, "at ({}, {})", x, y),
                    Some(CellSafety::Probability(p)) => {
                        let bits = ((hits as u128) << 32) / total as u128;
                        assert_eq!(p.mine_probability as u128, bits, "at ({}, {})", x, y);
                    },
                    other => panic!("unexpected {:?} at ({}, {})", other, x, y),
                }
            }
        }
    }
}

#[test]
fn the_pipeline_gives_the_shares_of_the_placements() {
    pipeline_matches_the_shares("? ? ? 1 2 ?", 3, 2, 2);
    pipeline_matches_the_shares("F 2 ? ? ? ? ? ? 1 ? ? ?", 4, 3, 3);
    pipeline_matches_the_shares("? ? ? ? ? 1 F 2 ? ? ? ? 2 ? ? ? ? ? ? ?", 5, 4, 5);
    pipeline_matches_the_shares("1 1 ? ? ? ? ? ? ? 2 ? ? ? ? ? ? ? ? ? ?", 5, 4, 4);
    pipeline_matches_the_shares("? 1 0 1 ? ? 2 1 2 ? ? ? ? ? ?", 5, 3, 3);
}

/// Adds up what the engine reports for the closed cells of a board, in
/// units of `2^-32`, and holds it against the mines of the board: every
/// chance is rounded down, so the sum may fall short by less than one unit
/// for each cell.
fn chances_add_up(text: &str, width: usize, height: usize, mines: usize) {
    let cell_states = build_cell_states_with_str(text, width, height);
    let board = BoardSafety::new(&cell_states, mines, false);
    let result = ProbabilityCalculator::new(false).calculate(board).unwrap();
    let mut sum = 0u128;
    let mut cells = 0u128;
    for y in 0..height {
        for x in 0..width {
            match result.get(x, y) {
                Some(CellSafety::Mine) => sum += 1u128 << 32,
                Some(CellSafety::Probability(p)) => {
                    sum += p.mine_probability as u128;
                    cells += 1;
                },
                _ => {},
            }
        }
    }
    let all = (mines as u128) << 32;
    assert!(sum <= all, "{} > {}", sum, all);
    assert!(sum + cells >= all, "{} + {} < {}", sum, cells, all);
}

#[test]
fn the_chances_add_up_to_the_mines_that_are_left() {
    chances_add_up("? ? ? 1 2 ?", 3, 2, 2);
    chances_add_up("1 ? ? ? ? ? ? ? ? ? ? ? ? ? ? ? ? 2", 6, 3, 5);
    chances_add_up("? ? ? ? ? 1 2 ? ? ? ? ? ? 2 ? ? ? ? ? ?", 5, 4, 4);
    // three parts of the frontier and a wide field away from them
    let mut text = String::new();
    for y in 0..12 {
        for x in 0..12 {
            let token = match (x, y) {
                (0, 0) => "1 ",
                (11, 0) => "2 ",
                (5, 11) => "1 ",
                (6, 11) => "1 ",
                _ => "? ",
            };
            text.push_str(token);
        }
    }
    chances_add_up(&text, 12, 12, 30);
}

/// The next number of a fixed sequence that looks random.
fn next_number(state: &mut u64) -> u64 {
    *state = state.wrapping_mul(6364136223846793005).wrapping_add(1442695040888963407);
    *state >> 33
}

/// The number of mines around the cell `at`.
fn mines_next_to(mined: &[bool], width: usize, height: usize, at: usize) -> u8 {
    let (x, y) = ((at % width) as i64, (at / width) as i64);
    let mut around = 0;
    for dy in -1i64..=1 {
        for dx in -1i64..=1 {
            let (nx, ny) = (x + dx, y + dy);
            if (dx != 0 || dy != 0) && nx >= 0 && ny >= 0 && nx < width as i64 && ny < height as i64 {
                if mined[ny as usize * width + nx as usize] {
                    around += 1;
                }
            }
        }
    }
    around
}

/// A game position made from `seed`: mines laid at will, and a few clicks
/// on cells without a mine, each opening what a click in a game opens.
fn position_from(seed: u64, width: usize, height: usize) -> (String, usize) {
    let mut state = seed.wrapping_mul(2654435761).wrapping_add(12345);
    let cells = width * height;
    let mines = 1 + (next_number(&mut state) as usize) % (cells / 3);
    let mut mined = vec![false; cells];
    let mut laid = 0;
    while laid < mines {
        let at = (next_number(&mut state) as usize) % cells;
        if !mined[at] {
            mined[at] = true;
            laid += 1;
        }
    }
    let mut shown = vec![false; cells];
    let clicks = 1 + next_number(&mut state) % 4;
    for _ in 0..clicks {
        let at = (next_number(&mut state) as usize) % cells;
        if mined[at] {
            continue;
        }
        let mut waiting = vec![at];
        while let Some(cell) = waiting.pop() {
            if shown[cell] {
                continue;
            }
            shown[cell] = true;
            if mines_next_to(&mined, width, height, cell) == 0 {
                let (x, y) = ((cell % width) as i64, (cell / width) as i64);
                for dy in -1i64..=1 {
                    for dx in -1i64..=1 {
                        let (nx, ny) = (x + dx, y + dy);
                        if nx >= 0 && ny >= 0 && nx < width as i64 && ny < height as i64 {
                            waiting.push(ny as usize * width + nx as usize);
                        }
                    }
                }
            }
        }
    }
    let mut text = String::new();
    for i in 0..cells {
        if shown[i] {
            text.push_str(&format!("{} ", mines_next_to(&mined, width, height, i)));
        } else {
            text.push_str("? ");
        }
    }
    (text, mines)
}

#[test]
fn chances_are_shares_of_the_placements_on_many_small_boards() {
    for seed in 0..120u64 {
        let (text, mines) = position_from(seed, 4, 3);
        engine_matches_the_shares(&text, 4, 3, mines);
    }
}

#[test]
fn chances_are_shares_of_the_placements_on_many_wider_boards() {
    for seed in 200..240u64 {
        let (text, mines) = position_from(seed, 5, 3);
        engine_matches_the_shares(&text, 5, 3, mines);
    }
}

#[test]
fn the_pipeline_gives_the_shares_on_many_small_boards() {
    for seed in 500..600u64 {
        let (text, mines) = position_from(seed, 4, 3);
        pipeline_matches_the_shares(&text, 4, 3, mines);
    }
}
