use minesweeper::base::board::CellState;
use minesweeper::base::vec2d::Vec2D;
use minesweeper::engine::solver::brute_force::BruteForceSolver;
use minesweeper::engine::solver::error::Error;
use minesweeper::engine::solver::guessing::GuessingLogic;
use minesweeper::engine::solver::half_chance::HalfChanceCheck;
use minesweeper::engine::solver::probability::ProbabilityCalculator;
use minesweeper::engine::solver::trivial::TrivialAnalysis;
use minesweeper::engine::solver::{
    default_engine, select, BoardSafety, CellProbability, CellSafety, Condition,
    MoreConditionsThan, Solver, SolverExt,
};

#[test]
fn snapshot_classifies_every_cell() {
    // 1 ? ?
    // F ? ?
    // 0 ? ?
    let mut cell_states = Vec2D::filled(3, 3, CellState::Closed);
    cell_states.set(0, 0, CellState::Opening(1));
    cell_states.set(0, 1, CellState::Flagged);
    cell_states.set(0, 2, CellState::Opening(0));
    let with_flags = BoardSafety::new(&cell_states, 3, true);
    assert_eq!(with_flags.width(), 3);
    assert_eq!(with_flags.height(), 3);
    assert_eq!(with_flags.mines(), 3);
    assert_eq!(with_flags.suggestion(), None);
    assert_eq!(with_flags.get(0, 0), Some(&CellSafety::Unresolved(1)));
    assert_eq!(with_flags.get(0, 1), Some(&CellSafety::Mine));
    assert_eq!(with_flags.get(0, 2), Some(&CellSafety::Resolved(0)));
    assert_eq!(with_flags.get(1, 0), Some(&CellSafety::Frontier));
    assert_eq!(with_flags.get(1, 1), Some(&CellSafety::Frontier));
    assert_eq!(with_flags.get(1, 2), Some(&CellSafety::Frontier));
    assert_eq!(with_flags.get(2, 0), Some(&CellSafety::Wilderness));
    assert_eq!(with_flags.get(2, 2), Some(&CellSafety::Wilderness));
    assert_eq!(with_flags.get(3, 0), None);
    assert_eq!(with_flags.get(0, 3), None);
    let without_flags = BoardSafety::new(&cell_states, 3, false);
    assert_eq!(without_flags.get(0, 1), Some(&CellSafety::Frontier));
}

#[test]
fn set_and_suggest() {
    let cell_states = Vec2D::filled(2, 2, CellState::Closed);
    let mut board = BoardSafety::new(&cell_states, 1, false);
    board.set(1, 1, CellSafety::Safe);
    assert_eq!(board.get(1, 1), Some(&CellSafety::Safe));
    board.set(5, 5, CellSafety::Mine);
    assert_eq!(board.get(0, 0), Some(&CellSafety::Wilderness));
    board.suggest(1, 1);
    assert_eq!(board.suggestion(), Some((1, 1)));
    board.suggest(0, 0);
    assert_eq!(board.suggestion(), Some((1, 1)));
    let p = CellSafety::Probability(CellProbability { frontier: true, mine_probability: 7 });
    board.set(0, 1, p);
    assert_eq!(board.get(0, 1), Some(&p));
    *board.get_mut(1, 0).unwrap() = CellSafety::Wilderness;
    assert!(board.get_mut(2, 0).is_none());
    assert!(board.clone().get(0, 1) == Some(&p));
    assert_eq!(board.count(CellSafety::Wilderness), 2);
    assert_eq!(board.count_open(), 3);
    assert_eq!(board.cell_count(), 4);
}

#[test]
fn single_witness_forces_its_only_neighbour() {
    // 1 ?
    let mut cell_states = Vec2D::filled(2, 1, CellState::Closed);
    cell_states.set(0, 0, CellState::Opening(1));
    let board = BoardSafety::new(&cell_states, 1, false);
    let result = TrivialAnalysis::new(false).calculate(board).unwrap();
    assert_eq!(result.get(1, 0), Some(&CellSafety::Mine));
    assert_eq!(result.get(0, 0), Some(&CellSafety::Resolved(1)));
    assert_eq!(result.suggestion(), None);
}

#[test]
fn propagation_spreads_outward() {
    // 1 ? 1 ?
    // 1 1 1 ?    one mine at (1,0); the number at (2,0) then frees (3,0) and (3,1)
    let mut cell_states = Vec2D::filled(4, 2, CellState::Closed);
    cell_states.set(0, 0, CellState::Opening(1));
    cell_states.set(2, 0, CellState::Opening(1));
    cell_states.set(0, 1, CellState::Opening(1));
    cell_states.set(1, 1, CellState::Opening(1));
    cell_states.set(2, 1, CellState::Opening(1));
    let board = BoardSafety::new(&cell_states, 1, false);
    let result = TrivialAnalysis::new(false).calculate(board).unwrap();
    assert_eq!(result.get(1, 0), Some(&CellSafety::Mine));
    assert_eq!(result.get(3, 0), Some(&CellSafety::Safe));
    assert_eq!(result.get(3, 1), Some(&CellSafety::Safe));
    assert_eq!(result.get(0, 0), Some(&CellSafety::Resolved(1)));
    assert_eq!(result.get(2, 0), Some(&CellSafety::Resolved(1)));
    assert_eq!(result.suggestion(), Some((3, 0)));
}

#[test]
fn propagation_stops_on_first_safe_cell() {
    let mut cell_states = Vec2D::filled(4, 2, CellState::Closed);
    cell_states.set(0, 0, CellState::Opening(1));
    cell_states.set(2, 0, CellState::Opening(1));
    cell_states.set(0, 1, CellState::Opening(1));
    cell_states.set(1, 1, CellState::Opening(1));
    cell_states.set(2, 1, CellState::Opening(1));
    let board = BoardSafety::new(&cell_states, 1, false);
    let result = TrivialAnalysis::new(true).calculate(board).unwrap();
    assert_eq!(result.get(1, 0), Some(&CellSafety::Mine));
    assert_eq!(result.get(3, 0), Some(&CellSafety::Safe));
    assert_eq!(result.get(3, 1), Some(&CellSafety::Frontier));
    assert_eq!(result.suggestion(), Some((3, 0)));
}

#[test]
fn too_few_closed_neighbours_is_an_error() {
    // 2 ?
    let mut cell_states = Vec2D::filled(2, 1, CellState::Closed);
    cell_states.set(0, 0, CellState::Opening(2));
    let board = BoardSafety::new(&cell_states, 1, false);
    match TrivialAnalysis::new(false).calculate(board) {
        Err(e) => assert_eq!(e, Error::MinesNotSatisfied { x: 0, y: 0, expected: 2, actual: 1 }),
        Ok(_) => panic!("expected an error"),
    }
}

#[test]
fn too_many_flags_is_an_error() {
    // 1 F
    // F ?
    let mut cell_states = Vec2D::filled(2, 2, CellState::Closed);
    cell_states.set(0, 0, CellState::Opening(1));
    cell_states.set(1, 0, CellState::Flagged);
    cell_states.set(0, 1, CellState::Flagged);
    let board = BoardSafety::new(&cell_states, 2, true);
    match TrivialAnalysis::new(false).calculate(board) {
        Err(e) => assert_eq!(e, Error::MinesNotSatisfied { x: 0, y: 0, expected: 1, actual: 2 }),
        Ok(_) => panic!("expected an error"),
    }
}

#[test]
fn errors_compare_by_content() {
    assert_eq!(Error::TooManyMines(3), Error::TooManyMines(3));
    assert_ne!(Error::TooManyMines(3), Error::TooFewMines(3));
    assert_ne!(Error::TooFewMines(1), Error::TooFewMines(2));
}

#[test]
fn conditions_more_than_counts_placements() {
    // 25 closed cells, 5 mines: 53130 placements
    let cell_states = Vec2D::filled(5, 5, CellState::Closed);
    let board = BoardSafety::new(&cell_states, 5, false);
    assert!(board.conditions_more_than(0));
    assert!(board.conditions_more_than(1000));
    assert!(board.conditions_more_than(53129));
    assert!(!board.conditions_more_than(53130));
    assert!(!board.conditions_more_than(u64::MAX));
    // more mines than closed cells
    let crowded = BoardSafety::new(&cell_states, 26, false);
    assert!(!crowded.conditions_more_than(0));
    // twenty mines on twenty-five cells are as many placements as five
    let dense = BoardSafety::new(&cell_states, 20, false);
    assert!(dense.conditions_more_than(53129));
    assert!(!dense.conditions_more_than(53130));
    assert!(MoreConditionsThan { threshold: 1000 }.test(&board));
    assert!(!MoreConditionsThan { threshold: 53130 }.test(&board));
}

#[test]
fn fallbacks_hand_the_snapshot_back() {
    let mut cell_states = Vec2D::filled(3, 3, CellState::Closed);
    cell_states.set(1, 1, CellState::Opening(1));
    let a = BruteForceSolver.calculate(BoardSafety::new(&cell_states, 1, false)).unwrap();
    let b = GuessingLogic.calculate(BoardSafety::new(&cell_states, 1, false)).unwrap();
    let c = HalfChanceCheck.calculate(BoardSafety::new(&cell_states, 1, false)).unwrap();
    for x in 0..3 {
        for y in 0..3 {
            let expected = if x == 1 && y == 1 { CellSafety::Unresolved(1) } else { CellSafety::Frontier };
            assert_eq!(a.get(x, y), Some(&expected));
            assert_eq!(b.get(x, y), Some(&expected));
            assert_eq!(c.get(x, y), Some(&expected));
        }
    }
}

#[test]
fn and_then_runs_both_strategies() {
    // 1 ? ?   the propagation finds the mine, the engine frees the last cell
    let mut cell_states = Vec2D::filled(3, 1, CellState::Closed);
    cell_states.set(0, 0, CellState::Opening(1));
    let pipeline = TrivialAnalysis::new(false).and_then(ProbabilityCalculator::new(false));
    let result = pipeline.calculate(BoardSafety::new(&cell_states, 1, false)).unwrap();
    assert_eq!(result.get(1, 0), Some(&CellSafety::Mine));
    assert_eq!(result.get(2, 0), Some(&CellSafety::Safe));
    assert_eq!(result.suggestion(), Some((2, 0)));
}

#[test]
fn and_then_hands_errors_on() {
    let mut cell_states = Vec2D::filled(2, 1, CellState::Closed);
    cell_states.set(0, 0, CellState::Opening(2));
    let pipeline = TrivialAnalysis::new(false).and_then(ProbabilityCalculator::new(false));
    assert!(pipeline.calculate(BoardSafety::new(&cell_states, 1, false)).is_err());
}

#[test]
fn or_skips_the_second_strategy_after_a_suggestion() {
    // 1 1
    // ? M    the propagation suggests (0,1); the engine would change nothing more
    let mut cell_states = Vec2D::filled(3, 2, CellState::Closed);
    cell_states.set(0, 0, CellState::Opening(1));
    cell_states.set(1, 0, CellState::Opening(1));
    cell_states.set(1, 1, CellState::Flagged);
    let first_only = TrivialAnalysis::new(true).or(ProbabilityCalculator::new(false));
    let result = first_only.calculate(BoardSafety::new(&cell_states, 2, true)).unwrap();
    assert_eq!(result.suggestion(), Some((0, 1)));
    // the cell (2,0) is still a question that the engine would have answered
    assert_eq!(result.get(2, 0), Some(&CellSafety::Frontier));
    // without a suggestion from the first, the second runs
    let cell_states = Vec2D::filled(2, 2, CellState::Closed);
    let both = TrivialAnalysis::new(false).or(ProbabilityCalculator::new(false));
    let result = both.calculate(BoardSafety::new(&cell_states, 2, false)).unwrap();
    assert!(matches!(result.get(0, 0), Some(CellSafety::Probability(_))));
}

#[test]
fn select_picks_by_the_incoming_snapshot() {
    let cell_states = Vec2D::filled(5, 5, CellState::Closed);
    let many = select(
        MoreConditionsThan { threshold: 1000 },
        ProbabilityCalculator::new(false),
        GuessingLogic,
    );
    let result = many.calculate(BoardSafety::new(&cell_states, 5, false)).unwrap();
    assert!(matches!(result.get(0, 0), Some(CellSafety::Probability(_))));
    let few = select(
        MoreConditionsThan { threshold: 100000 },
        ProbabilityCalculator::new(false),
        GuessingLogic,
    );
    let result = few.calculate(BoardSafety::new(&cell_states, 5, false)).unwrap();
    assert_eq!(result.get(0, 0), Some(&CellSafety::Wilderness));
}

#[test]
fn default_engine_propagates_and_weighs() {
    let mut cell_states = Vec2D::filled(3, 3, CellState::Closed);
    cell_states.set(1, 1, CellState::Opening(1));
    let result = default_engine().calculate(BoardSafety::new(&cell_states, 1, false)).unwrap();
    match result.get(0, 0) {
        Some(CellSafety::Probability(p)) => assert_eq!(p.mine_probability, 1u32 << 29),
        other => panic!("unexpected {:?}", other),
    }
    let mut cell_states = Vec2D::filled(2, 1, CellState::Closed);
    cell_states.set(0, 0, CellState::Opening(2));
    assert!(default_engine().calculate(BoardSafety::new(&cell_states, 1, false)).is_err());
}

#[test]
fn the_brute_force_analysis_hands_the_snapshot_back() {
    let mut cell_states = Vec2D::filled(3, 2, CellState::Closed);
    cell_states.set(0, 0, CellState::Opening(1));
    let board = BoardSafety::new(&cell_states, 2, false);
    let result = minesweeper::engine::analysis::brute_force::BruteForceAnalysis
        .calculate(BoardSafety::new(&cell_states, 2, false))
        .unwrap();
    for y in 0..2 {
        for x in 0..3 {
            assert_eq!(result.get(x, y), board.get(x, y));
        }
    }
    assert_eq!(result.suggestion(), None);
}
