//! The safety snapshot of a board and the strategies that refine it.

use vstd::prelude::*;
use crate::base::board::CellState;
use crate::base::vec2d::Vec2D;
use crate::base::binomial::{
    binomial, lemma_binomial_mirror, lemma_binomial_positive, lemma_binomial_rising,
    lemma_binomial_step,
};
use crate::engine::solver::error::Error;
use vstd::arithmetic::div_mod::lemma_fundamental_div_mod_converse;

pub mod balance;
pub mod brute_force;
pub mod closure;
pub mod conservation;
pub mod constraints;
pub mod error;
pub mod grouping;
pub mod guessing;
pub mod half_chance;
pub mod hypotheses;
pub mod laws;
pub mod lines;
pub mod outcome;
pub mod probability;
pub mod trivial;

verus! {

/// A likelihood attached to a closed cell.
#[derive(Debug, Clone, Copy, PartialEq, Eq, Structural)]
pub struct CellProbability {
    /// The cell touches a revealed number.
    pub frontier: bool,
    /// Chance that the cell holds a mine, in units of `2^-32`, rounded down.
    pub mine_probability: u32,
}

/// What is known about one cell.
#[derive(Debug, Clone, Copy, PartialEq, Eq, Structural)]
pub enum CellSafety {
    /// Closed, away from every revealed number.
    Wilderness,
    /// Closed, next to a revealed number.
    Frontier,
    /// A revealed number whose neighbours are not all settled.
    Unresolved(u8),
    /// A revealed number whose neighbours are all settled.
    Resolved(u8),
    /// Closed and certainly free of a mine.
    Safe,
    /// Closed and certainly a mine.
    Mine,
    /// Closed, with a computed chance of being a mine.
    Probability(CellProbability),
}

impl Default for CellSafety {
    fn default() -> (r: Self)
        ensures
            r == CellSafety::Wilderness,
    {
        CellSafety::Wilderness
    }
}

impl CellSafety {
    /// Closed and not yet known to be safe or a mine.
    pub open spec fn is_open_question(&self) -> bool {
        *self is Wilderness || *self is Frontier || *self is Probability
    }

    /// Closed and not yet known to be safe or a mine.
    #[verifier::when_used_as_spec(is_open_question)]
    pub fn open_question(&self) -> (r: bool)
        ensures
            r == self.is_open_question(),
    {
        match self {
            CellSafety::Wilderness => true,
            CellSafety::Frontier => true,
            CellSafety::Probability(_) => true,
            _ => false,
        }
    }
}

/// Horizontal step to neighbour `k`, for `k` in `0..8`.
pub open spec fn neighbor_dx(k: int) -> int {
    if k < 3 {
        -1
    } else if k < 5 {
        0
    } else {
        1
    }
}

/// Vertical step to neighbour `k`, for `k` in `0..8`.
pub open spec fn neighbor_dy(k: int) -> int {
    if k == 0 || k == 3 || k == 5 {
        -1
    } else if k == 1 || k == 6 {
        0
    } else {
        1
    }
}

/// The mathematical content of a snapshot.
pub struct BoardModel {
    pub width: nat,
    pub height: nat,
    /// One entry per cell, row by row.
    pub cells: Seq<CellSafety>,
    pub mines: nat,
    pub suggestion: Option<(usize, usize)>,
}

impl BoardModel {
    /// There is exactly one entry per cell.
    pub open spec fn wf(self) -> bool {
        self.cells.len() == self.width * self.height
    }

    pub open spec fn in_range(self, x: int, y: int) -> bool {
        0 <= x < self.width && 0 <= y < self.height
    }

    pub open spec fn offset(self, x: int, y: int) -> int {
        y * self.width + x
    }

    pub open spec fn at(self, x: int, y: int) -> CellSafety {
        self.cells[self.offset(x, y)]
    }

    /// The snapshot with the cell at `(x, y)` replaced by `value`.
    pub open spec fn set(self, x: int, y: int, value: CellSafety) -> BoardModel {
        BoardModel { cells: self.cells.update(self.offset(x, y), value), ..self }
    }

    /// The snapshot with `(x, y)` as its suggestion, unless it already has one.
    pub open spec fn suggest(self, x: usize, y: usize) -> BoardModel {
        if self.suggestion is Some {
            self
        } else {
            BoardModel { suggestion: Some((x, y)), ..self }
        }
    }

    /// Neighbour `k` of `(x, y)` lies on the board.
    pub open spec fn has_neighbor(self, x: int, y: int, k: int) -> bool {
        self.in_range(x + neighbor_dx(k), y + neighbor_dy(k))
    }

    /// The cell of neighbour `k` of `(x, y)`.
    pub open spec fn neighbor(self, x: int, y: int, k: int) -> CellSafety {
        self.at(x + neighbor_dx(k), y + neighbor_dy(k))
    }

    /// Every in-range coordinate has its own entry.
    pub proof fn lemma_offset(self, x: int, y: int)
        requires
            self.wf(),
            self.in_range(x, y),
        ensures
            0 <= self.offset(x, y) < self.cells.len(),
    {
        let w = self.width as int;
        let h = self.height as int;
        assert(0 <= y * w + x < w * h) by (nonlinear_arith)
            requires
                0 <= x < w,
                0 <= y < h,
        ;
    }

    /// Different coordinates have different entries.
    pub proof fn lemma_offset_injective(self, x1: int, y1: int, x2: int, y2: int)
        requires
            self.in_range(x1, y1),
            self.in_range(x2, y2),
            self.offset(x1, y1) == self.offset(x2, y2),
        ensures
            x1 == x2,
            y1 == y2,
    {
        let w = self.width as int;
        assert(y1 == y2) by (nonlinear_arith)
            requires
                0 <= x1 < w,
                0 <= x2 < w,
                y1 * w + x1 == y2 * w + x2,
        ;
    }

    /// Reading a cell after a write: the written value at the written place,
    /// the earlier value everywhere else.
    pub proof fn lemma_set_at(self, x: int, y: int, value: CellSafety, qx: int, qy: int)
        requires
            self.wf(),
            self.in_range(x, y),
            self.in_range(qx, qy),
        ensures
            self.set(x, y, value).at(qx, qy) == if qx == x && qy == y {
                value
            } else {
                self.at(qx, qy)
            },
            self.set(x, y, value).wf(),
    {
        self.lemma_offset(x, y);
        self.lemma_offset(qx, qy);
        if self.offset(x, y) == self.offset(qx, qy) {
            self.lemma_offset_injective(x, y, qx, qy);
        }
    }
}

/// What is known about every cell of a board, the number of mines on it, and
/// the first cell found to be safe.
#[derive(Debug)]
pub struct BoardSafety {
    cells: Vec2D<CellSafety>,
    mines: usize,
    suggestion: Option<(usize, usize)>,
}

impl Clone for BoardSafety {
    fn clone(&self) -> (r: Self)
        ensures
            r@ == self@,
    {
        let cells = self.cells.clone();
        assert(cells@ =~= self.cells@);
        BoardSafety { cells, mines: self.mines, suggestion: self.suggestion }
    }
}

impl View for BoardSafety {
    type V = BoardModel;

    closed spec fn view(&self) -> BoardModel {
        BoardModel {
            width: self.cells.spec_width(),
            height: self.cells.spec_height(),
            cells: self.cells@,
            mines: self.mines as nat,
            suggestion: self.suggestion,
        }
    }
}

/// How many of the first `n` entries of `cells` are `value`.
pub open spec fn count_cells(cells: Seq<CellSafety>, value: CellSafety, n: int) -> nat
    decreases n,
{
    if n <= 0 {
        0
    } else {
        count_cells(cells, value, n - 1) + if cells[n - 1] == value {
            1nat
        } else {
            0nat
        }
    }
}

/// `after` has the shape and the mine count of `before`, and differs from it
/// at most in cells that `before` left as `Frontier` or `Wilderness`.
pub open spec fn keeps_certain(before: BoardModel, after: BoardModel) -> bool {
    &&& after.width == before.width
    &&& after.height == before.height
    &&& after.mines == before.mines
    &&& after.cells.len() == before.cells.len()
    &&& forall|x: int, y: int|
        before.in_range(x, y) ==> #[trigger] after.at(x, y) == before.at(x, y) || before.at(x, y)
            is Frontier || before.at(x, y) is Wilderness
}

/// A snapshot keeps what is certain in itself.
pub proof fn lemma_keeps_certain_same(a: BoardModel)
    ensures
        keeps_certain(a, a),
{
}

/// Keeping what is certain carries over from step to step.
pub proof fn lemma_keeps_certain_chain(a: BoardModel, b: BoardModel, c: BoardModel)
    requires
        keeps_certain(a, b),
        keeps_certain(b, c),
    ensures
        keeps_certain(a, c),
{
    assert forall|x: int, y: int| a.in_range(x, y) implies #[trigger] c.at(x, y) == a.at(x, y)
        || a.at(x, y) is Frontier || a.at(x, y) is Wilderness by {
        assert(b.at(x, y) == a.at(x, y) || a.at(x, y) is Frontier || a.at(x, y) is Wilderness);
        assert(c.at(x, y) == b.at(x, y) || b.at(x, y) is Frontier || b.at(x, y) is Wilderness);
    }
}

/// How many of the first `n` entries of `cells` are open questions.
pub open spec fn count_open(cells: Seq<CellSafety>, n: int) -> nat
    decreases n,
{
    if n <= 0 {
        0
    } else {
        count_open(cells, n - 1) + if cells[n - 1].is_open_question() {
            1nat
        } else {
            0nat
        }
    }
}

/// Whether the mines that are not yet found can be placed on the cells that
/// are still open in more than `threshold` ways. The answer is no where the
/// snapshot holds more mines than the board has, or fewer open cells than
/// mines to place.
pub open spec fn more_conditions_than(b: BoardModel, threshold: nat) -> bool {
    let unconfirmed = count_open(b.cells, b.cells.len() as int);
    let known = count_cells(b.cells, CellSafety::Mine, b.cells.len() as int);
    &&& known <= b.mines
    &&& b.mines - known <= unconfirmed
    &&& binomial(unconfirmed, (b.mines - known) as nat) > threshold
}

/// A revealed number sits at `(x, y)`.
pub open spec fn is_opening(states: &Vec2D<CellState>, x: int, y: int) -> bool {
    states.has(x, y) && states.at(x, y) is Opening
}

/// A revealed number sits next to `(x, y)`.
pub open spec fn near_opening(states: &Vec2D<CellState>, x: int, y: int) -> bool {
    exists|k: int| 0 <= k < 8 && #[trigger] is_opening(states, x + neighbor_dx(k), y + neighbor_dy(k))
}

/// What a fresh snapshot records for the cell `(x, y)` of a board in play.
pub open spec fn initial_safety(
    states: &Vec2D<CellState>,
    x: int,
    y: int,
    admit_flags: bool,
) -> CellSafety {
    match states.at(x, y) {
        CellState::Opening(n) => if n == 0 {
            CellSafety::Resolved(0)
        } else {
            CellSafety::Unresolved(n)
        },
        CellState::Flagged if admit_flags => CellSafety::Mine,
        _ => if near_opening(states, x, y) {
            CellSafety::Frontier
        } else {
            CellSafety::Wilderness
        },
    }
}

/// The place of neighbour `k` of `(x, y)` on a `width` x `height` board, if it lies on it.
pub fn neighbor_of(width: usize, height: usize, x: usize, y: usize, k: u8) -> (r: Option<
    (usize, usize),
>)
    requires
        k < 8,
        x < width,
        y < height,
    ensures
        match r {
            Some((nx, ny)) => {
                &&& nx == x + neighbor_dx(k as int)
                &&& ny == y + neighbor_dy(k as int)
                &&& nx < width
                &&& ny < height
            },
            None => !(0 <= x + neighbor_dx(k as int) < width && 0 <= y + neighbor_dy(k as int)
                < height),
        },
{
    let nx: usize;
    if k < 3 {
        if x == 0 {
            return None;
        }
        nx = x - 1;
    } else if k < 5 {
        nx = x;
    } else {
        if x + 1 >= width {
            return None;
        }
        nx = x + 1;
    }
    let ny: usize;
    if k == 0 || k == 3 || k == 5 {
        if y == 0 {
            return None;
        }
        ny = y - 1;
    } else if k == 1 || k == 6 {
        ny = y;
    } else {
        if y + 1 >= height {
            return None;
        }
        ny = y + 1;
    }
    Some((nx, ny))
}

impl BoardSafety {
    /// The snapshot holds one entry per cell.
    pub open spec fn wf(&self) -> bool {
        self@.wf()
    }

    /// The snapshot of a board in play: revealed numbers become `Resolved(0)` or
    /// `Unresolved(n)`, flags become `Mine` when `admit_flags` is set, and every
    /// other cell is `Frontier` next to a revealed number and `Wilderness` elsewhere.
    pub fn new(cell_states: &Vec2D<CellState>, mines: usize, admit_flags: bool) -> (r: Self)
        requires
            cell_states.wf(),
        ensures
            r.wf(),
            r@.width == cell_states.spec_width(),
            r@.height == cell_states.spec_height(),
            r@.mines == mines,
            r@.suggestion is None,
            forall|x: int, y: int|
                r@.in_range(x, y) ==> #[trigger] r@.at(x, y) == initial_safety(
                    cell_states,
                    x,
                    y,
                    admit_flags,
                ),
    {
        let (width, height) = cell_states.dims();
        let total = cell_states.len();
        assert(width * height == total);
        let mut cells: Vec2D<CellSafety> = Vec2D::filled(width, height, CellSafety::Wilderness);
        let mut y: usize = 0;
        while y < height
            invariant
                y <= height,
                cell_states.wf(),
                cells.wf(),
                width == cell_states.spec_width(),
                height == cell_states.spec_height(),
                cells.spec_width() == width,
                cells.spec_height() == height,
                forall|qx: int, qy: int|
                    0 <= qx < width && 0 <= qy < y ==> #[trigger] cells.at(qx, qy)
                        == initial_safety(cell_states, qx, qy, admit_flags),
            decreases height - y,
        {
            let mut x: usize = 0;
            while x < width
                invariant
                    x <= width,
                    y < height,
                    cell_states.wf(),
                    cells.wf(),
                    width == cell_states.spec_width(),
                    height == cell_states.spec_height(),
                    cells.spec_width() == width,
                    cells.spec_height() == height,
                    forall|qx: int, qy: int|
                        0 <= qx < width && 0 <= qy < y ==> #[trigger] cells.at(qx, qy)
                            == initial_safety(cell_states, qx, qy, admit_flags),
                    forall|qx: int| 0 <= qx < x ==> #[trigger] cells.at(qx, y as int)
                            == initial_safety(cell_states, qx, y as int, admit_flags),
                decreases width - x,
            {
                proof {
                    cell_states.lemma_has(x as int, y as int);
                    cells.lemma_has(x as int, y as int);
                }
                let value = match *cell_states.index(x, y) {
                    CellState::Opening(n) => if n == 0 {
                        CellSafety::Resolved(0)
                    } else {
                        CellSafety::Unresolved(n)
                    },
                    CellState::Flagged => if admit_flags {
                        CellSafety::Mine
                    } else {
                        Self::check_frontier(cell_states, x, y)
                    },
                    _ => Self::check_frontier(cell_states, x, y),
                };
                let ghost before = cells;
                cells.set(x, y, value);
                proof {
                    assert forall|qx: int, qy: int|
                        0 <= qx < width && 0 <= qy < height && !(qx == x && qy
                            == y) implies #[trigger] cells.at(qx, qy) == before.at(qx, qy) by {
                        before.lemma_has(qx, qy);
                        lemma_distinct_offsets(width as int, x as int, y as int, qx, qy);
                    }
                }
                x += 1;
            }
            y += 1;
        }
        let r = BoardSafety { cells, mines, suggestion: None };
        proof {
            assert forall|x: int, y: int| r@.in_range(x, y) implies #[trigger] r@.at(x, y)
                == initial_safety(cell_states, x, y, admit_flags) by {
                assert(r@.at(x, y) == cells.at(x, y));
            }
        }
        r
    }

    /// `Frontier` next to a revealed number, `Wilderness` elsewhere.
    fn check_frontier(cell_states: &Vec2D<CellState>, x: usize, y: usize) -> (r: CellSafety)
        requires
            cell_states.wf(),
            x < cell_states.spec_width(),
            y < cell_states.spec_height(),
        ensures
            r == if near_opening(cell_states, x as int, y as int) {
                CellSafety::Frontier
            } else {
                CellSafety::Wilderness
            },
    {
        let (width, height) = cell_states.dims();
        let mut k: u8 = 0;
        while k < 8
            invariant
                k <= 8,
                cell_states.wf(),
                x < width,
                y < height,
                width == cell_states.spec_width(),
                height == cell_states.spec_height(),
                forall|j: int|
                    0 <= j < k ==> !#[trigger] is_opening(
                        cell_states,
                        x + neighbor_dx(j),
                        y + neighbor_dy(j),
                    ),
            decreases 8 - k,
        {
            match neighbor_of(width, height, x, y, k) {
                Some((nx, ny)) => {
                    proof {
                        cell_states.lemma_has(nx as int, ny as int);
                    }
                    match *cell_states.index(nx, ny) {
                        CellState::Opening(_) => {
                            assert(is_opening(
                                cell_states,
                                x + neighbor_dx(k as int),
                                y + neighbor_dy(k as int),
                            ));
                            return CellSafety::Frontier;
                        },
                        _ => {},
                    }
                },
                None => {},
            }
            k += 1;
        }
        CellSafety::Wilderness
    }

    /// The width and the height of a snapshot are machine numbers.
    pub proof fn lemma_dims_fit(&self)
        ensures
            self@.width <= usize::MAX,
            self@.height <= usize::MAX,
    {
        self.cells.lemma_dims_fit();
    }

    /// Number of columns.
    pub fn width(&self) -> (r: usize)
        ensures
            r == self@.width,
    {
        self.cells.dims().0
    }

    /// Number of rows.
    pub fn height(&self) -> (r: usize)
        ensures
            r == self@.height,
    {
        self.cells.dims().1
    }

    /// Number of cells.
    pub fn cell_count(&self) -> (r: usize)
        ensures
            r == self@.cells.len(),
    {
        self.cells.len()
    }

    /// How many cells hold exactly `value`.
    pub fn count(&self, value: CellSafety) -> (r: usize)
        ensures
            r == count_cells(self@.cells, value, self@.cells.len() as int),
    {
        let data = self.cells.data();
        let n = data.len();
        let mut found: usize = 0;
        let mut i: usize = 0;
        while i < n
            invariant
                i <= n,
                n == data@.len(),
                data@ == self@.cells,
                found <= i,
                found == count_cells(self@.cells, value, i as int),
            decreases n - i,
        {
            if data[i] == value {
                found += 1;
            }
            i += 1;
        }
        found
    }

    /// How many cells are open questions.
    pub fn count_open(&self) -> (r: usize)
        ensures
            r == count_open(self@.cells, self@.cells.len() as int),
    {
        let data = self.cells.data();
        let n = data.len();
        let mut found: usize = 0;
        let mut i: usize = 0;
        while i < n
            invariant
                i <= n,
                n == data@.len(),
                data@ == self@.cells,
                found <= i,
                found == count_open(self@.cells, i as int),
            decreases n - i,
        {
            if data[i].open_question() {
                found += 1;
            }
            i += 1;
        }
        found
    }

    /// Whether the mines that are not yet found can be placed on the open
    /// cells in more than `threshold` ways.
    pub fn conditions_more_than(&self, threshold: u64) -> (r: bool)
        ensures
            r == more_conditions_than(self@, threshold as nat),
    {
        let unconfirmed = self.count_open();
        let known = self.count(CellSafety::Mine);
        if known > self.mines {
            return false;
        }
        let remaining_mines = self.mines - known;
        if remaining_mines > unconfirmed {
            return false;
        }
        let remaining_safe = unconfirmed - remaining_mines;
        let n = if remaining_mines < remaining_safe {
            remaining_mines
        } else {
            remaining_safe
        };
        proof {
            lemma_binomial_mirror(unconfirmed as nat, remaining_mines as nat);
            lemma_binomial_positive(unconfirmed as nat, n as nat);
        }
        if threshold == 0 {
            return true;
        }
        let mut conditions: u128 = 1;
        let mut i: usize = 0;
        while i < n
            invariant
                i <= n,
                2 * n <= unconfirmed,
                conditions == binomial(unconfirmed as nat, i as nat),
                conditions <= threshold,
                unconfirmed == count_open(self@.cells, self@.cells.len() as int),
                known == count_cells(self@.cells, CellSafety::Mine, self@.cells.len() as int),
                known <= self@.mines,
                remaining_mines == self@.mines - known,
                remaining_mines <= unconfirmed,
                binomial(unconfirmed as nat, n as nat) == binomial(
                    unconfirmed as nat,
                    remaining_mines as nat,
                ),
            decreases n - i,
        {
            assert(conditions * (unconfirmed - i) <= 0xffff_ffff_ffff_ffff * 0xffff_ffff_ffff_ffff)
                by (nonlinear_arith)
                requires
                    0 <= conditions <= 0xffff_ffff_ffff_ffff,
                    0 <= unconfirmed - i <= 0xffff_ffff_ffff_ffff,
            ;
            let scaled: u128 = conditions * ((unconfirmed - i) as u128);
            let next: u128 = scaled / ((i + 1) as u128);
            proof {
                lemma_binomial_step(unconfirmed as nat, i as nat);
                let c = binomial(unconfirmed as nat, (i + 1) as nat);
                assert(scaled == c * (i + 1) + 0) by (nonlinear_arith)
                    requires
                        scaled == conditions * (unconfirmed - i),
                        (i + 1) * c == (unconfirmed - i) * conditions,
                ;
                lemma_fundamental_div_mod_converse(scaled as int, (i + 1) as int, c as int, 0);
                lemma_binomial_rising(unconfirmed as nat, (i + 1) as nat, n as nat);
            }
            if next > threshold as u128 {
                return true;
            }
            conditions = next;
            i += 1;
        }
        false
    }

    /// Number of mines on the whole board.
    pub fn mines(&self) -> (r: usize)
        ensures
            r == self@.mines,
    {
        self.mines
    }

    /// The first cell found to be safe, if any.
    pub fn suggestion(&self) -> (r: Option<(usize, usize)>)
        ensures
            r == self@.suggestion,
    {
        self.suggestion
    }

    /// Records `(x, y)` as the suggestion unless one is already recorded.
    pub fn suggest(&mut self, x: usize, y: usize)
        ensures
            final(self)@ == old(self)@.suggest(x, y),
    {
        if self.suggestion.is_none() {
            self.suggestion = Some((x, y));
        }
    }

    /// What is known about `(x, y)`, or `None` off the board.
    pub fn get(&self, x: usize, y: usize) -> (r: Option<&CellSafety>)
        requires
            self.wf(),
        ensures
            r == if self@.in_range(x as int, y as int) {
                Some(&self@.at(x as int, y as int))
            } else {
                None
            },
    {
        proof {
            if self@.in_range(x as int, y as int) {
                self.cells.lemma_has(x as int, y as int);
            }
        }
        self.cells.get(x, y)
    }

    /// What is known about `(x, y)`, open to change, or `None` off the board.
    pub fn get_mut(&mut self, x: usize, y: usize) -> (r: Option<&mut CellSafety>)
        requires
            old(self).wf(),
        ensures
            match r {
                Some(cell) => {
                    &&& old(self)@.in_range(x as int, y as int)
                    &&& *cell == old(self)@.at(x as int, y as int)
                    &&& final(self)@ == old(self)@.set(x as int, y as int, *final(cell))
                },
                None => !old(self)@.in_range(x as int, y as int) && final(self)@ == old(self)@,
            },
            final(self).wf(),
    {
        proof {
            if self@.in_range(x as int, y as int) {
                self.cells.lemma_has(x as int, y as int);
            }
        }
        self.cells.get_mut(x, y)
    }

    /// What is known about the cell `(x, y)` of the board.
    pub fn cell(&self, x: usize, y: usize) -> (r: CellSafety)
        requires
            self.wf(),
            self@.in_range(x as int, y as int),
        ensures
            r == self@.at(x as int, y as int),
    {
        proof {
            self.cells.lemma_has(x as int, y as int);
        }
        *self.cells.index(x, y)
    }

    /// Records `value` for `(x, y)`; does nothing off the board.
    pub fn set(&mut self, x: usize, y: usize, value: CellSafety)
        requires
            old(self).wf(),
        ensures
            final(self).wf(),
            final(self)@ == if old(self)@.in_range(x as int, y as int) {
                old(self)@.set(x as int, y as int, value)
            } else {
                old(self)@
            },
    {
        let (width, height) = self.cells.dims();
        if x >= width || y >= height {
            return ;
        }
        proof {
            self.cells.lemma_has(x as int, y as int);
        }
        self.cells.set(x, y, value);
    }
}

/// A strategy that refines a snapshot.
pub trait Solver {
    /// What `calculate` makes of a snapshot: the refined snapshot, or the
    /// failure that ends the pass.
    spec fn outcome(&self, board: BoardModel) -> Result<BoardModel, Error>;

    /// Refines `board`, or reports why it cannot be refined.
    fn calculate(&self, board: BoardSafety) -> (r: Result<BoardSafety, Error>)
        requires
            board.wf(),
        ensures
            match r {
                Ok(refined) => {
                    &&& refined.wf()
                    &&& refined@.width == board@.width
                    &&& refined@.height == board@.height
                    &&& refined@.mines == board@.mines
                    &&& self.outcome(board@) == Ok::<BoardModel, Error>(refined@)
                },
                Err(e) => self.outcome(board@) == Err::<BoardModel, Error>(e),
            },
    ;
}

/// A test on a snapshot that picks one of two strategies.
pub trait Condition {
    /// Whether the test holds of a snapshot.
    spec fn holds(&self, board: BoardModel) -> bool;

    /// Whether the test holds of `board`.
    fn test(&self, board: &BoardSafety) -> (r: bool)
        requires
            board.wf(),
        ensures
            r == self.holds(board@),
    ;
}

/// The test whether a board leaves more than `threshold` ways to place its
/// remaining mines.
#[derive(Debug, Clone, Copy)]
pub struct MoreConditionsThan {
    pub threshold: u64,
}

impl Condition for MoreConditionsThan {
    open spec fn holds(&self, board: BoardModel) -> bool {
        more_conditions_than(board, self.threshold as nat)
    }

    fn test(&self, board: &BoardSafety) -> (r: bool) {
        board.conditions_more_than(self.threshold)
    }
}

/// Runs the first strategy and hands what it leaves to the second.
#[derive(Debug, Clone, Copy)]
pub struct SolverCombinerAnd<T: Solver, U: Solver>(pub T, pub U);

impl<T: Solver, U: Solver> Solver for SolverCombinerAnd<T, U> {
    open spec fn outcome(&self, board: BoardModel) -> Result<BoardModel, Error> {
        match self.0.outcome(board) {
            Ok(refined) => self.1.outcome(refined),
            Err(e) => Err(e),
        }
    }

    fn calculate(&self, board: BoardSafety) -> (r: Result<BoardSafety, Error>) {
        match self.0.calculate(board) {
            Ok(refined) => self.1.calculate(refined),
            Err(e) => Err(e),
        }
    }
}

/// Runs the first strategy, and the second only where the first leaves no
/// suggestion.
#[derive(Debug, Clone, Copy)]
pub struct SolverCombinerOr<T: Solver, U: Solver>(pub T, pub U);

impl<T: Solver, U: Solver> Solver for SolverCombinerOr<T, U> {
    open spec fn outcome(&self, board: BoardModel) -> Result<BoardModel, Error> {
        match self.0.outcome(board) {
            Ok(refined) => if refined.suggestion is Some {
                Ok(refined)
            } else {
                self.1.outcome(refined)
            },
            Err(e) => Err(e),
        }
    }

    fn calculate(&self, board: BoardSafety) -> (r: Result<BoardSafety, Error>) {
        match self.0.calculate(board) {
            Ok(refined) => {
                if refined.suggestion().is_some() {
                    Ok(refined)
                } else {
                    self.1.calculate(refined)
                }
            },
            Err(e) => Err(e),
        }
    }
}

/// Runs one of two strategies, picked by a test on the snapshot as it comes in.
#[derive(Debug, Clone, Copy)]
pub struct SolverCombinerSelect<F: Condition, T: Solver, U: Solver> {
    pub condition: F,
    pub yes: T,
    pub no: U,
}

impl<F: Condition, T: Solver, U: Solver> Solver for SolverCombinerSelect<F, T, U> {
    open spec fn outcome(&self, board: BoardModel) -> Result<BoardModel, Error> {
        if self.condition.holds(board) {
            self.yes.outcome(board)
        } else {
            self.no.outcome(board)
        }
    }

    fn calculate(&self, board: BoardSafety) -> (r: Result<BoardSafety, Error>) {
        if self.condition.test(&board) {
            self.yes.calculate(board)
        } else {
            self.no.calculate(board)
        }
    }
}

/// The ways to put two strategies one after the other.
pub trait SolverExt: Solver + Sized {
    /// Combines two solver engines in sequence, passing the output of the first as input to the
    /// second. Suggestions made by the first engine may be either ignored or accepted by the
    /// second.
    fn and_then<T: Solver>(self, next: T) -> (r: SolverCombinerAnd<Self, T>)
        ensures
            r.0 == self,
            r.1 == next,
    {
        SolverCombinerAnd(self, next)
    }

    /// Combines two solver engines such that the second is only invoked if the first does not
    /// produce a suggestion.
    fn or<T: Solver>(self, alternative: T) -> (r: SolverCombinerOr<Self, T>)
        ensures
            r.0 == self,
            r.1 == alternative,
    {
        SolverCombinerOr(self, alternative)
    }
}

impl<T: Solver> SolverExt for T {

}

/// Selects between two solver engines based on a condition evaluated on the input board.
pub fn select<F: Condition, T: Solver, U: Solver>(condition: F, yes: T, no: U) -> (r:
    SolverCombinerSelect<F, T, U>)
    ensures
        r.condition == condition,
        r.yes == yes,
        r.no == no,
{
    SolverCombinerSelect { condition, yes, no }
}

/// The pipeline that the game ships with: deduce by counting, weigh the
/// placements, and only where nothing certain came of it fall back on a
/// search, picked by the number of placements that are left.
pub fn default_engine() -> (r: SolverCombinerOr<
    SolverCombinerAnd<trivial::TrivialAnalysis, probability::ProbabilityCalculator>,
    SolverCombinerSelect<MoreConditionsThan, guessing::GuessingLogic, brute_force::BruteForceSolver>,
>)
    ensures
        !r.0.0.stops_on_first_safe(),
        !r.0.1.stops_on_first_safe(),
        r.1.condition.threshold == 1000,
{
    trivial::TrivialAnalysis::new(false).and_then(probability::ProbabilityCalculator::new(false)).or(
        select(
            MoreConditionsThan { threshold: 1000 },
            guessing::GuessingLogic,
            brute_force::BruteForceSolver,
        ),
    )
}

/// In a grid `w` wide, two different coordinates have different offsets.
pub proof fn lemma_distinct_offsets(w: int, x1: int, y1: int, x2: int, y2: int)
    requires
        0 <= x1 < w,
        0 <= x2 < w,
        !(x1 == x2 && y1 == y2),
    ensures
        y1 * w + x1 != y2 * w + x2,
{
    if y1 * w + x1 == y2 * w + x2 {
        assert(y1 == y2) by (nonlinear_arith)
            requires
                0 <= x1 < w,
                0 <= x2 < w,
                y1 * w + x1 == y2 * w + x2,
        ;
    }
}

} // verus!
