//! Deduction by counting: a revealed number whose mines are all found makes
//! its other neighbours safe, and one that needs every open neighbour makes
//! them all mines. Each new fact is carried on to the numbers around it.

use vstd::prelude::*;
use super::error::Error;
use super::{neighbor_dx, neighbor_dy, neighbor_of, BoardModel, BoardSafety, CellSafety, Solver};

verus! {

/// How many of the first `k` neighbours of `(x, y)` are known mines.
pub open spec fn mines_around(b: BoardModel, x: int, y: int, k: int) -> int
    decreases k,
{
    if k <= 0 {
        0
    } else {
        mines_around(b, x, y, k - 1) + if b.has_neighbor(x, y, k - 1) && b.neighbor(x, y, k - 1)
            is Mine {
            1int
        } else {
            0int
        }
    }
}

/// How many of the first `k` neighbours of `(x, y)` are open questions.
pub open spec fn questions_around(b: BoardModel, x: int, y: int, k: int) -> int
    decreases k,
{
    if k <= 0 {
        0
    } else {
        questions_around(b, x, y, k - 1) + if b.has_neighbor(x, y, k - 1) && b.neighbor(
            x,
            y,
            k - 1,
        ).is_open_question() {
            1int
        } else {
            0int
        }
    }
}

/// How many entries of `cells` are numbers that still wait to be resolved.
pub open spec fn unresolved(cells: Seq<CellSafety>) -> nat
    decreases cells.len(),
{
    if cells.len() == 0 {
        0
    } else {
        unresolved(cells.drop_last()) + if cells.last() is Unresolved {
            1nat
        } else {
            0nat
        }
    }
}

/// Overwriting one entry moves the count by what the old and new entries weigh.
pub proof fn lemma_unresolved_update(cells: Seq<CellSafety>, i: int, value: CellSafety)
    requires
        0 <= i < cells.len(),
    ensures
        unresolved(cells.update(i, value)) + (if cells[i] is Unresolved {
            1nat
        } else {
            0nat
        }) == unresolved(cells) + (if value is Unresolved {
            1nat
        } else {
            0nat
        }),
    decreases cells.len(),
{
    let after = cells.update(i, value);
    if i == cells.len() - 1 {
        assert(after.drop_last() =~= cells.drop_last());
    } else {
        lemma_unresolved_update(cells.drop_last(), i, value);
        assert(after.drop_last() =~= cells.drop_last().update(i, value));
    }
}

/// Where a number waits to be resolved, the count is not zero.
pub proof fn lemma_unresolved_positive(cells: Seq<CellSafety>, i: int)
    requires
        0 <= i < cells.len(),
        cells[i] is Unresolved,
    ensures
        unresolved(cells) > 0,
    decreases cells.len(),
{
    if i < cells.len() - 1 {
        lemma_unresolved_positive(cells.drop_last(), i);
    }
}

/// What one step of the propagation yields: the board it leaves, and whether
/// the pass has to end here (`Ok(true)`), may go on (`Ok(false)`), or failed.
pub type Step = (BoardModel, Result<bool, Error>);

/// Looks at the number at `(x, y)`, if there is an unresolved one, and settles
/// its neighbours where counting decides them.
///
/// `depth` bounds how many numbers can be resolved inside one another; it is
/// never exhausted when it starts at the count of unresolved numbers.
pub open spec fn examine(b: BoardModel, x: int, y: int, stop: bool, depth: nat) -> Step
    decreases depth, 0nat, 0nat,
{
    if let CellSafety::Unresolved(n) = b.at(x, y) {
        let flagged = mines_around(b, x, y, 8);
        let open = questions_around(b, x, y, 8);
        if (flagged == n || flagged + open == n) && open > 0 {
            if depth == 0 {
                (b, Ok(false))
            } else {
                settle(
                    b.set(x, y, CellSafety::Resolved(n)),
                    x,
                    y,
                    0,
                    flagged == n,
                    stop,
                    (depth - 1) as nat,
                )
            }
        } else if flagged > n {
            (
                b,
                Err(
                    Error::MinesNotSatisfied {
                        x: x as usize,
                        y: y as usize,
                        expected: n,
                        actual: flagged as u8,
                    },
                ),
            )
        } else if flagged + open < n {
            (
                b,
                Err(
                    Error::MinesNotSatisfied {
                        x: x as usize,
                        y: y as usize,
                        expected: n,
                        actual: (flagged + open) as u8,
                    },
                ),
            )
        } else {
            (b, Ok(false))
        }
    } else {
        (b, Ok(false))
    }
}

/// Marks the open neighbours of `(x, y)`, from neighbour `k` on, as safe or as
/// mines, and carries each new fact on before turning to the next neighbour.
pub open spec fn settle(
    b: BoardModel,
    x: int,
    y: int,
    k: int,
    safe: bool,
    stop: bool,
    depth: nat,
) -> Step
    decreases depth, 2nat, 8 - k,
{
    if k < 0 || k >= 8 {
        (b, Ok(false))
    } else if b.has_neighbor(x, y, k) && b.neighbor(x, y, k).is_open_question() {
        let nx = x + neighbor_dx(k);
        let ny = y + neighbor_dy(k);
        if safe {
            let marked = b.set(nx, ny, CellSafety::Safe);
            if marked.suggestion is None && stop {
                (marked.suggest(nx as usize, ny as usize), Ok(true))
            } else {
                let (next, r) = spread(marked.suggest(nx as usize, ny as usize), nx, ny, 0, stop, depth);
                match r {
                    Err(e) => (next, Err(e)),
                    Ok(_) => settle(next, x, y, k + 1, safe, stop, depth),
                }
            }
        } else {
            let (next, r) = spread(b.set(nx, ny, CellSafety::Mine), nx, ny, 0, stop, depth);
            match r {
                Ok(false) => settle(next, x, y, k + 1, safe, stop, depth),
                _ => (next, r),
            }
        }
    } else {
        settle(b, x, y, k + 1, safe, stop, depth)
    }
}

/// Examines the neighbours of `(x, y)`, from neighbour `k` on.
pub open spec fn spread(b: BoardModel, x: int, y: int, k: int, stop: bool, depth: nat) -> Step
    decreases depth, 1nat, 8 - k,
{
    if k < 0 || k >= 8 {
        (b, Ok(false))
    } else if b.has_neighbor(x, y, k) {
        let (next, r) = examine(b, x + neighbor_dx(k), y + neighbor_dy(k), stop, depth);
        match r {
            Ok(false) => spread(next, x, y, k + 1, stop, depth),
            _ => (next, r),
        }
    } else {
        spread(b, x, y, k + 1, stop, depth)
    }
}

/// Examines the cells from `(x, y)` on, row by row, and ends at the first
/// failure or, where `stop` is set, at the first safe cell that becomes the
/// suggestion.
pub open spec fn scan(b: BoardModel, width: nat, height: nat, x: int, y: int, stop: bool) -> (
    BoardModel,
    Option<Error>,
)
    decreases height - y, width - x,
{
    if y < 0 || y >= height || x < 0 {
        (b, None)
    } else if x >= width {
        scan(b, width, height, 0, y + 1, stop)
    } else {
        let (next, r) = examine(b, x, y, stop, unresolved(b.cells));
        match r {
            Err(e) => (next, Some(e)),
            Ok(true) => (next, None),
            Ok(false) => scan(next, width, height, x + 1, y, stop),
        }
    }
}

/// The whole pass over a snapshot: the refined snapshot, or why it failed.
pub open spec fn propagate(b: BoardModel, stop: bool) -> Result<BoardModel, Error> {
    let (next, failure) = scan(b, b.width, b.height, 0, 0, stop);
    match failure {
        Some(e) => Err(e),
        None => Ok(next),
    }
}

/// The strategy that deduces by counting alone.
#[derive(Debug, Clone, Copy)]
pub struct TrivialAnalysis {
    stop_on_first_safe: bool,
}

impl Default for TrivialAnalysis {
    fn default() -> (r: Self)
        ensures
            !r.stops_on_first_safe(),
    {
        TrivialAnalysis { stop_on_first_safe: false }
    }
}

impl TrivialAnalysis {
    /// Whether a pass ends as soon as it has a safe cell to suggest.
    pub closed spec fn stops_on_first_safe(&self) -> bool {
        self.stop_on_first_safe
    }

    pub fn new(stop_on_first_safe: bool) -> (r: Self)
        ensures
            r.stops_on_first_safe() == stop_on_first_safe,
    {
        Self { stop_on_first_safe }
    }

    /// Counts the known mines and the open questions around `(x, y)`.
    fn count_around(board: &BoardSafety, x: usize, y: usize) -> (r: (u8, u8))
        requires
            board.wf(),
            board@.in_range(x as int, y as int),
        ensures
            r.0 == mines_around(board@, x as int, y as int, 8),
            r.1 == questions_around(board@, x as int, y as int, 8),
            r.0 + r.1 <= 8,
    {
        let width = board.width();
        let height = board.height();
        let mut flagged: u8 = 0;
        let mut open: u8 = 0;
        let mut k: u8 = 0;
        while k < 8
            invariant
                k <= 8,
                board.wf(),
                width == board@.width,
                height == board@.height,
                x < width,
                y < height,
                flagged == mines_around(board@, x as int, y as int, k as int),
                open == questions_around(board@, x as int, y as int, k as int),
                flagged + open <= k,
            decreases 8 - k,
        {
            match neighbor_of(width, height, x, y, k) {
                Some((nx, ny)) => {
                    let cell = board.cell(nx, ny);
                    if cell.open_question() {
                        open += 1;
                    } else if cell == CellSafety::Mine {
                        flagged += 1;
                    }
                },
                None => {},
            }
            k += 1;
        }
        (flagged, open)
    }

    /// Analyse the number at `(x, y)`.
    /// Returns `Ok(true)` if the pass has to end at the safe cell just found.
    fn calculate_position(
        &self,
        board: &mut BoardSafety,
        x: usize,
        y: usize,
        Ghost(depth): Ghost<nat>,
    ) -> (r: Result<bool, Error>)
        requires
            old(board).wf(),
            old(board)@.in_range(x as int, y as int),
            unresolved(old(board)@.cells) <= depth,
        ensures
            final(board).wf(),
            final(board)@.width == old(board)@.width,
            final(board)@.height == old(board)@.height,
            final(board)@.mines == old(board)@.mines,
            unresolved(final(board)@.cells) <= unresolved(old(board)@.cells),
            (final(board)@, r) == examine(
                old(board)@,
                x as int,
                y as int,
                self.stops_on_first_safe(),
                depth,
            ),
        decreases depth, 0nat, 0nat,
    {
        let cell = board.cell(x, y);
        if let CellSafety::Unresolved(n) = cell {
            let (flagged, open) = Self::count_around(board, x, y);
            if (flagged == n || flagged as u16 + open as u16 == n as u16) && open > 0 {
                proof {
                    board@.lemma_offset(x as int, y as int);
                    lemma_unresolved_update(
                        board@.cells,
                        board@.offset(x as int, y as int),
                        CellSafety::Resolved(n),
                    );
                }
                board.set(x, y, CellSafety::Resolved(n));
                self.settle_around(board, x, y, flagged == n, Ghost((depth - 1) as nat))
            } else if flagged > n {
                Err(Error::MinesNotSatisfied { x, y, expected: n, actual: flagged })
            } else if flagged + open < n {
                Err(Error::MinesNotSatisfied { x, y, expected: n, actual: flagged + open })
            } else {
                Ok(false)
            }
        } else {
            Ok(false)
        }
    }

    /// Marks every open neighbour of `(x, y)` as safe or as a mine and spreads
    /// the analysis from each of them.
    fn settle_around(
        &self,
        board: &mut BoardSafety,
        x: usize,
        y: usize,
        safe: bool,
        Ghost(depth): Ghost<nat>,
    ) -> (r: Result<bool, Error>)
        requires
            old(board).wf(),
            old(board)@.in_range(x as int, y as int),
            unresolved(old(board)@.cells) <= depth,
        ensures
            final(board).wf(),
            final(board)@.width == old(board)@.width,
            final(board)@.height == old(board)@.height,
            final(board)@.mines == old(board)@.mines,
            unresolved(final(board)@.cells) <= unresolved(old(board)@.cells),
            (final(board)@, r) == settle(
                old(board)@,
                x as int,
                y as int,
                0,
                safe,
                self.stops_on_first_safe(),
                depth,
            ),
        decreases depth, 2nat, 8nat,
    {
        let width = board.width();
        let height = board.height();
        let stop = self.stop_on_first_safe;
        let ghost goal = settle(old(board)@, x as int, y as int, 0, safe, stop, depth);
        let mut k: u8 = 0;
        while k < 8
            invariant
                k <= 8,
                board.wf(),
                width == board@.width,
                height == board@.height,
                width == old(board)@.width,
                height == old(board)@.height,
                board@.mines == old(board)@.mines,
                x < width,
                y < height,
                stop == self.stops_on_first_safe(),
                unresolved(board@.cells) <= unresolved(old(board)@.cells),
                unresolved(old(board)@.cells) <= depth,
                goal == settle(old(board)@, x as int, y as int, 0, safe, stop, depth),
                goal == settle(board@, x as int, y as int, k as int, safe, stop, depth),
            decreases 8 - k,
        {
            match neighbor_of(width, height, x, y, k) {
                Some((nx, ny)) => {
                    if board.cell(nx, ny).open_question() {
                        proof {
                            board@.lemma_offset(nx as int, ny as int);
                            lemma_unresolved_update(
                                board@.cells,
                                board@.offset(nx as int, ny as int),
                                if safe {
                                    CellSafety::Safe
                                } else {
                                    CellSafety::Mine
                                },
                            );
                        }
                        if safe {
                            board.set(nx, ny, CellSafety::Safe);
                            if board.suggestion().is_none() {
                                board.suggest(nx, ny);
                                if stop {
                                    return Ok(true);
                                }
                            }
                            assert(board@ == board@.suggest(nx, ny));
                            match self.spread(board, nx, ny, Ghost(depth)) {
                                Err(e) => {
                                    return Err(e);
                                },
                                Ok(_) => {},
                            }
                        } else {
                            board.set(nx, ny, CellSafety::Mine);
                            match self.spread(board, nx, ny, Ghost(depth)) {
                                Ok(false) => {},
                                other => {
                                    return other;
                                },
                            }
                        }
                    }
                },
                None => {},
            }
            k += 1;
        }
        Ok(false)
    }

    /// When a cell is marked as safe or a mine, spread the analysis to its neighbours.
    /// Returns `Ok(true)` if the pass has to end at a safe cell just found.
    fn spread(&self, board: &mut BoardSafety, x: usize, y: usize, Ghost(depth): Ghost<nat>) -> (r:
        Result<bool, Error>)
        requires
            old(board).wf(),
            old(board)@.in_range(x as int, y as int),
            unresolved(old(board)@.cells) <= depth,
        ensures
            final(board).wf(),
            final(board)@.width == old(board)@.width,
            final(board)@.height == old(board)@.height,
            final(board)@.mines == old(board)@.mines,
            unresolved(final(board)@.cells) <= unresolved(old(board)@.cells),
            (final(board)@, r) == spread(
                old(board)@,
                x as int,
                y as int,
                0,
                self.stops_on_first_safe(),
                depth,
            ),
        decreases depth, 1nat, 8nat,
    {
        let width = board.width();
        let height = board.height();
        let stop = self.stop_on_first_safe;
        let ghost goal = spread(old(board)@, x as int, y as int, 0, stop, depth);
        let mut k: u8 = 0;
        while k < 8
            invariant
                k <= 8,
                board.wf(),
                width == board@.width,
                height == board@.height,
                width == old(board)@.width,
                height == old(board)@.height,
                board@.mines == old(board)@.mines,
                x < width,
                y < height,
                stop == self.stops_on_first_safe(),
                unresolved(board@.cells) <= unresolved(old(board)@.cells),
                unresolved(old(board)@.cells) <= depth,
                goal == spread(old(board)@, x as int, y as int, 0, stop, depth),
                goal == spread(board@, x as int, y as int, k as int, stop, depth),
            decreases 8 - k,
        {
            match neighbor_of(width, height, x, y, k) {
                Some((nx, ny)) => {
                    match self.calculate_position(board, nx, ny, Ghost(depth)) {
                        Ok(false) => {},
                        other => {
                            return other;
                        },
                    }
                },
                None => {},
            }
            k += 1;
        }
        Ok(false)
    }
}

impl Solver for TrivialAnalysis {
    open spec fn outcome(&self, board: BoardModel) -> Result<BoardModel, Error> {
        propagate(board, self.stops_on_first_safe())
    }

    fn calculate(&self, board: BoardSafety) -> (r: Result<BoardSafety, Error>) {
        let ghost start = board@;
        let mut work = board;
        let width = work.width();
        let height = work.height();
        let stop = self.stop_on_first_safe;
        let ghost goal = scan(start, start.width, start.height, 0, 0, stop);
        let mut y: usize = 0;
        while y < height
            invariant
                y <= height,
                work.wf(),
                width == work@.width,
                height == work@.height,
                width == start.width,
                height == start.height,
                work@.mines == start.mines,
                start == board@,
                stop == self.stops_on_first_safe(),
                goal == scan(start, start.width, start.height, 0, 0, stop),
                goal == scan(work@, start.width, start.height, 0, y as int, stop),
            decreases height - y,
        {
            let mut x: usize = 0;
            while x < width
                invariant
                    x <= width,
                    y < height,
                    work.wf(),
                    width == work@.width,
                    height == work@.height,
                    width == start.width,
                    height == start.height,
                    work@.mines == start.mines,
                    start == board@,
                    stop == self.stops_on_first_safe(),
                    goal == scan(start, start.width, start.height, 0, 0, stop),
                    goal == scan(work@, start.width, start.height, x as int, y as int, stop),
                decreases width - x,
            {
                let ghost depth = unresolved(work@.cells);
                match self.calculate_position(&mut work, x, y, Ghost(depth)) {
                    Err(e) => {
                        return Err(e);
                    },
                    Ok(true) => {
                        return Ok(work);
                    },
                    Ok(false) => {},
                }
                x += 1;
            }
            y += 1;
        }
        Ok(work)
    }
}

} // verus!
