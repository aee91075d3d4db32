use minesweeper::base::bignat::BigNat;
use minesweeper::base::board::CellState;
use minesweeper::base::vec2d::Vec2D;
use minesweeper::engine::solver::constraints::FrontierBox;
use minesweeper::engine::solver::lines::ProbabilityLine;
use minesweeper::engine::solver::probability::ProbabilityCalculator;
use minesweeper::engine::solver::trivial::TrivialAnalysis;
use minesweeper::engine::solver::{BoardSafety, CellSafety, Solver};

/// A board as the player sees it, from the mines and the opened cells.
fn view_of(mines: &[(usize, usize)], opened: &[(usize, usize)], width: usize, height: usize) -> Vec2D<CellState> {
    let mut cells = Vec2D::filled(width, height, CellState::Closed);
    for &(x, y) in opened {
        let mut around = 0u8;
        for &(mx, my) in mines {
            if (mx, my) != (x, y) && mx.abs_diff(x) <= 1 && my.abs_diff(y) <= 1 {
                around += 1;
            }
        }
        cells.set(x, y, CellState::Opening(around));
    }
    cells
}

fn counts(board: &BoardSafety, x: usize, y: usize) -> (u8, u8) {
    let (mut found, mut open) = (0, 0);
    for dx in [-1i64, 0, 1] {
        for dy in [-1i64, 0, 1] {
            let (nx, ny) = (x as i64 + dx, y as i64 + dy);
            if (dx, dy) == (0, 0) || nx < 0 || ny < 0 {
                continue;
            }
            match board.get(nx as usize, ny as usize) {
                Some(CellSafety::Mine) => found += 1,
                Some(CellSafety::Wilderness)
                | Some(CellSafety::Frontier)
                | Some(CellSafety::Probability(_)) => open += 1,
                _ => {},
            }
        }
    }
    (found, open)
}

#[test]
fn propagation_is_sound_and_reaches_its_closure() {
    let mines = [(0, 0), (3, 1), (5, 5), (1, 4), (4, 4), (6, 0)];
    let opened = [
        (1, 0), (1, 1), (0, 1), (2, 0), (2, 1), (2, 2), (3, 2), (4, 2), (3, 3), (6, 6), (6, 5),
        (5, 6), (0, 3), (0, 4), (0, 5), (1, 5), (2, 5), (2, 4), (2, 3), (1, 3), (5, 0), (5, 1),
    ];
    let cells = view_of(&mines, &opened, 7, 7);
    let board = BoardSafety::new(&cells, mines.len(), false);
    let result = TrivialAnalysis::new(false).calculate(board).unwrap();
    for x in 0..7 {
        for y in 0..7 {
            match result.get(x, y).unwrap() {
                // what is deduced holds of the mines as they lie
                CellSafety::Mine => assert!(mines.contains(&(x, y)), "({}, {}) is no mine", x, y),
                CellSafety::Safe => assert!(!mines.contains(&(x, y)), "({}, {}) is a mine", x, y),
                // what is left undecided is at rest
                CellSafety::Unresolved(n) => {
                    let (found, open) = counts(&result, x, y);
                    assert!(
                        (open == 0 && found == *n) || (open > 0 && found < *n && *n < found + open),
                        "({}, {}) still decides: {} of {} found, {} open",
                        x, y, found, n, open
                    );
                },
                _ => {},
            }
        }
    }
    // something was deduced at all
    assert_eq!(result.get(0, 0), Some(&CellSafety::Mine));
    assert_eq!(result.get(1, 4), Some(&CellSafety::Mine));
}

#[test]
fn boxes_group_the_frontier_by_witnesses() {
    // ? ? ?
    // ? 1 ?
    // ? ? ?   one witness, one box of eight cells
    let mut cells = Vec2D::filled(3, 3, CellState::Closed);
    cells.set(1, 1, CellState::Opening(1));
    let board = BoardSafety::new(&cells, 1, false);
    let (witnesses, boxes) = ProbabilityCalculator::new(false).build_witnesses_and_boxes(&board);
    assert_eq!(witnesses.len(), 1);
    assert_eq!((witnesses[0].x, witnesses[0].y, witnesses[0].mines), (1, 1, 1));
    assert_eq!(witnesses[0].boxes, vec![0]);
    assert_eq!(boxes.len(), 1);
    assert_eq!(boxes[0].cells.len(), 8);
    assert_eq!(boxes[0].witnesses, vec![0]);

    // 1 ? 1   the cell between the numbers lies under both, the others under one
    // ? ? ?
    let mut cells = Vec2D::filled(3, 2, CellState::Closed);
    cells.set(0, 0, CellState::Opening(1));
    cells.set(2, 0, CellState::Opening(1));
    let board = BoardSafety::new(&cells, 1, false);
    let (witnesses, boxes) = ProbabilityCalculator::new(false).build_witnesses_and_boxes(&board);
    assert_eq!(witnesses.len(), 2);
    assert_eq!(boxes.len(), 3);
    assert_eq!(boxes[0].cells, vec![(1, 0), (1, 1)]);
    assert_eq!(boxes[0].witnesses, vec![0, 1]);
    assert_eq!(boxes[1].cells, vec![(0, 1)]);
    assert_eq!(boxes[1].witnesses, vec![0]);
    assert_eq!(boxes[2].cells, vec![(2, 1)]);
    assert_eq!(boxes[2].witnesses, vec![1]);
    assert_eq!(witnesses[0].boxes, vec![0, 1]);
    assert_eq!(witnesses[1].boxes, vec![0, 2]);

    // a number whose mines are all found is no witness
    let mut cells = Vec2D::filled(2, 2, CellState::Closed);
    cells.set(0, 0, CellState::Opening(1));
    cells.set(1, 1, CellState::Flagged);
    let board = BoardSafety::new(&cells, 1, true);
    let (witnesses, boxes) = ProbabilityCalculator::new(false).build_witnesses_and_boxes(&board);
    assert_eq!(witnesses.len(), 0);
    assert_eq!(boxes.len(), 1);
    assert_eq!(boxes[0].witnesses, Vec::<usize>::new());
}

fn box_of(cells: usize) -> FrontierBox {
    FrontierBox { cells: (0..cells).map(|i| (i, 0)).collect(), witnesses: vec![0] }
}

fn small(n: &BigNat) -> u64 {
    n.to_u64().unwrap()
}

#[test]
fn lines_give_the_witness_its_mines() {
    let calculator = ProbabilityCalculator::new(false);
    let boxes = vec![box_of(2), box_of(3), box_of(1)];
    let start = ProbabilityLine::new(3);
    let lines = calculator.distribute_mines(&start, &boxes, 2, &vec![0, 1, 2], 0, 10);
    // two mines over boxes of two, three and one cell: 0+1+1, 0+2+0, 1+0+1, 1+1+0, 2+0+0
    let allocations: Vec<Vec<usize>> = lines.iter().map(|l| l.allocated_mines.clone()).collect();
    assert_eq!(
        allocations,
        vec![vec![0, 1, 1], vec![0, 2, 0], vec![1, 0, 1], vec![1, 1, 0], vec![2, 0, 0]]
    );
    for line in &lines {
        assert_eq!(line.mine_count, 2);
        assert_eq!(line.allocated_mines.iter().sum::<usize>(), 2);
    }
    let ways: Vec<u64> = lines.iter().map(|l| small(&l.solution_count)).collect();
    assert_eq!(ways, vec![3, 3, 2, 6, 1]);
    // the budget of mines cuts lines off
    assert_eq!(calculator.distribute_mines(&start, &boxes, 2, &vec![0, 1, 2], 0, 1).len(), 0);
    // more mines than cells
    assert_eq!(calculator.distribute_mines(&start, &boxes, 7, &vec![0, 1, 2], 0, 10).len(), 0);
}

#[test]
fn crunching_conserves_the_totals() {
    let calculator = ProbabilityCalculator::new(false);
    let boxes = vec![box_of(2), box_of(3), box_of(1)];
    let start = ProbabilityLine::new(3);
    let mut lines = calculator.distribute_mines(&start, &boxes, 2, &vec![0, 1, 2], 0, 10);
    lines.extend(calculator.distribute_mines(&start, &boxes, 1, &vec![1, 2], 0, 10));
    let crunched = calculator.crunch_by_mine_count(&lines, 3);
    let counts: Vec<usize> = crunched.iter().map(|l| l.mine_count).collect();
    assert_eq!(counts, vec![1, 2]);
    for mine_count in [1, 2] {
        let before: Vec<&ProbabilityLine> = lines.iter().filter(|l| l.mine_count == mine_count).collect();
        let after = crunched.iter().find(|l| l.mine_count == mine_count).unwrap();
        let ways: u64 = before.iter().map(|l| small(&l.solution_count)).sum();
        assert_eq!(small(&after.solution_count), ways);
        for b in 0..3 {
            let mines: u64 = before.iter().map(|l| small(&l.mine_box_count[b])).sum();
            assert_eq!(small(&after.mine_box_count[b]), mines);
        }
    }
}

#[test]
fn stored_lines_pair_the_parts_of_the_board() {
    let calculator = ProbabilityCalculator::new(false);
    let boxes = vec![box_of(2), box_of(3)];
    let start = ProbabilityLine::new(2);
    let left = calculator.distribute_mines(&start, &boxes, 1, &vec![0], 0, 10);
    let held = calculator.store_probabilities(&vec![ProbabilityLine::new(2)], &left, 10, 2);
    assert_eq!(held.len(), 1);
    assert_eq!((held[0].mine_count, small(&held[0].solution_count)), (1, 2));
    let right = calculator.distribute_mines(&start, &boxes, 2, &vec![1], 0, 10);
    let both = calculator.store_probabilities(&held, &right, 10, 2);
    assert_eq!(both.len(), 1);
    assert_eq!(both[0].mine_count, 3);
    assert_eq!(small(&both[0].solution_count), 6);
    assert_eq!(small(&both[0].mine_box_count[0]), 2 * 3);
    assert_eq!(small(&both[0].mine_box_count[1]), 6 * 2);
    // within a budget of two mines the parts do not fit together
    assert_eq!(calculator.store_probabilities(&held, &right, 2, 2).len(), 0);
}
