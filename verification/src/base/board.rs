//! The game board: what a cell shows, what it hides, and how a game proceeds.

use vstd::prelude::*;
use vstd::seq_lib::{
    lemma_multiset_commutative, to_multiset_build, to_multiset_contains, to_multiset_insert,
    to_multiset_update,
};
use rand::seq::SliceRandom;

verus! {

/// What the player sees of a cell.
#[derive(Clone, Copy, Debug, PartialEq, Eq, Structural)]
pub enum CellState {
    Closed,
    Opening(u8),
    Flagged,
    Blasted,
}

impl Default for CellState {
    fn default() -> (r: Self)
        ensures
            r == CellState::Closed,
    {
        CellState::Closed
    }
}

/// What a cell holds.
#[derive(Clone, Copy, Debug, PartialEq, Eq, Structural)]
pub enum CellContent {
    Empty,
    Number(u8),
    Mine,
}

impl Default for CellContent {
    fn default() -> (r: Self)
        ensures
            r == CellContent::Empty,
    {
        CellContent::Empty
    }
}

/// Which click opens the neighbours of a satisfied number.
#[derive(Clone, Copy, Debug, PartialEq, Eq, Structural)]
pub enum ChordMode {
    Standard,
    LeftClick,
}

impl Default for ChordMode {
    fn default() -> (r: Self)
        ensures
            r == ChordMode::Standard,
    {
        ChordMode::Standard
    }
}

/// The phase of a game, with its running counters.
#[derive(Clone, Copy, Debug, PartialEq, Eq, Structural)]
pub enum BoardState {
    NotStarted,
    InProgress { opened_cells: usize, flags: usize },
    Won,
    Lost { opened_cells: usize, flags: usize },
}

impl Default for BoardState {
    fn default() -> (r: Self)
        ensures
            r == BoardState::NotStarted,
    {
        BoardState::NotStarted
    }
}

impl BoardState {
    /// The game is over, won or lost.
    pub open spec fn spec_is_end(&self) -> bool {
        self is Won || self is Lost
    }

    /// The game is over, won or lost.
    #[verifier::when_used_as_spec(spec_is_end)]
    pub fn is_end(&self) -> (r: bool)
        ensures
            r == self.spec_is_end(),
    {
        match self {
            BoardState::Won => true,
            BoardState::Lost { .. } => true,
            _ => false,
        }
    }

    /// Counts one more opened cell while the game is in progress.
    pub fn cell_opened(&mut self)
        requires
            *old(self) matches BoardState::InProgress { opened_cells, .. } ==> opened_cells
                < usize::MAX,
        ensures
            *final(self) == match *old(self) {
                BoardState::InProgress { opened_cells, flags } => BoardState::InProgress {
                    opened_cells: (opened_cells + 1) as usize,
                    flags,
                },
                other => other,
            },
    {
        match *self {
            BoardState::InProgress { opened_cells, flags } => {
                *self = BoardState::InProgress { opened_cells: opened_cells + 1, flags };
            },
            _ => {},
        }
    }

    /// Counts one more flag while the game is in progress.
    pub fn flag_added(&mut self)
        requires
            *old(self) matches BoardState::InProgress { flags, .. } ==> flags < usize::MAX,
        ensures
            *final(self) == match *old(self) {
                BoardState::InProgress { opened_cells, flags } => BoardState::InProgress {
                    opened_cells,
                    flags: (flags + 1) as usize,
                },
                other => other,
            },
    {
        match *self {
            BoardState::InProgress { opened_cells, flags } => {
                *self = BoardState::InProgress { opened_cells, flags: flags + 1 };
            },
            _ => {},
        }
    }

    /// Counts one flag fewer while the game is in progress, never below zero.
    pub fn flag_removed(&mut self)
        ensures
            *final(self) == match *old(self) {
                BoardState::InProgress { opened_cells, flags } => BoardState::InProgress {
                    opened_cells,
                    flags: if flags == 0 {
                        0usize
                    } else {
                        (flags - 1) as usize
                    },
                },
                other => other,
            },
    {
        match *self {
            BoardState::InProgress { opened_cells, flags } => {
                *self = BoardState::InProgress { opened_cells, flags: flags.saturating_sub(1) };
            },
            _ => {},
        }
    }

    /// A game in progress is won once every cell without a mine is open.
    pub fn check_win(&mut self, width: usize, height: usize, mines: usize)
        ensures
            *final(self) == match *old(self) {
                BoardState::InProgress { opened_cells, flags } => if opened_cells + mines == width
                    * height {
                    BoardState::Won
                } else {
                    *old(self)
                },
                other => other,
            },
    {
        match *self {
            BoardState::InProgress { opened_cells, flags } => {
                assert(width * height <= 0xffff_ffff_ffff_ffff * 0xffff_ffff_ffff_ffff)
                    by (nonlinear_arith)
                    requires
                        0 <= width <= 0xffff_ffff_ffff_ffff,
                        0 <= height <= 0xffff_ffff_ffff_ffff,
                ;
                let total = width as u128 * height as u128;
                if opened_cells as u128 + mines as u128 == total {
                    *self = BoardState::Won;
                }
            },
            _ => {},
        }
    }

    /// A mine went off: the game is lost, keeping the counters reached so far.
    pub fn blast(&mut self)
        ensures
            *final(self) == match *old(self) {
                BoardState::InProgress { opened_cells, flags } => BoardState::Lost {
                    opened_cells,
                    flags,
                },
                BoardState::NotStarted => BoardState::Lost { opened_cells: 0, flags: 0 },
                other => other,
            },
    {
        match *self {
            BoardState::InProgress { opened_cells, flags } => {
                *self = BoardState::Lost { opened_cells, flags };
            },
            BoardState::NotStarted => {
                *self = BoardState::Lost { opened_cells: 0, flags: 0 };
            },
            _ => {},
        }
    }
}

/// Horizontal step to neighbour `k` of a cell, for `k` in `0..8`, row by row.
pub open spec fn around_dx(k: int) -> int {
    if k == 0 || k == 3 || k == 5 {
        -1
    } else if k == 1 || k == 6 {
        0
    } else {
        1
    }
}

/// Vertical step to neighbour `k` of a cell, for `k` in `0..8`, row by row.
pub open spec fn around_dy(k: int) -> int {
    if k < 3 {
        -1
    } else if k < 5 {
        0
    } else {
        1
    }
}

/// The place of neighbour `k` of `(x, y)` on a `width` x `height` board, if it lies on it.
fn around(width: usize, height: usize, x: usize, y: usize, k: u8) -> (r: Option<(usize, usize)>)
    requires
        k < 8,
        x < width,
        y < height,
    ensures
        match r {
            Some((nx, ny)) => {
                &&& nx == x + around_dx(k as int)
                &&& ny == y + around_dy(k as int)
                &&& nx < width
                &&& ny < height
            },
            None => !(0 <= x + around_dx(k as int) < width && 0 <= y + around_dy(k as int)
                < height),
        },
{
    let ny: usize;
    if k < 3 {
        if y == 0 {
            return None;
        }
        ny = y - 1;
    } else if k < 5 {
        ny = y;
    } else {
        if y + 1 >= height {
            return None;
        }
        ny = y + 1;
    }
    let nx: usize;
    if k == 0 || k == 3 || k == 5 {
        if x == 0 {
            return None;
        }
        nx = x - 1;
    } else if k == 1 || k == 6 {
        nx = x;
    } else {
        if x + 1 >= width {
            return None;
        }
        nx = x + 1;
    }
    Some((nx, ny))
}

/// A cell that carries a flag, or, with `or_closed`, that is flagged or closed.
pub open spec fn is_marked(state: CellState, or_closed: bool) -> bool {
    state is Flagged || (or_closed && state is Closed)
}

/// How many entries of `states` are flagged, or, with `or_closed`, still
/// covered: flagged or closed.
pub open spec fn marked(states: Seq<CellState>, or_closed: bool) -> nat
    decreases states.len(),
{
    if states.len() == 0 {
        0
    } else {
        marked(states.drop_last(), or_closed) + if is_marked(states.last(), or_closed) {
            1nat
        } else {
            0nat
        }
    }
}

/// No more entries are marked than there are.
pub proof fn lemma_marked_bound(states: Seq<CellState>, or_closed: bool)
    ensures
        marked(states, or_closed) <= states.len(),
    decreases states.len(),
{
    if states.len() > 0 {
        lemma_marked_bound(states.drop_last(), or_closed);
    }
}

/// Where every cell is closed, none carries a flag.
pub proof fn lemma_none_flagged(states: Seq<CellState>)
    requires
        forall|i: int| 0 <= i < states.len() ==> #[trigger] states[i] == CellState::Closed,
    ensures
        marked(states, false) == 0,
    decreases states.len(),
{
    if states.len() > 0 {
        lemma_none_flagged(states.drop_last());
    }
}

/// Overwriting one entry moves the count by what the old and new entries weigh.
pub proof fn lemma_marked_update(states: Seq<CellState>, i: int, value: CellState, or_closed: bool)
    requires
        0 <= i < states.len(),
    ensures
        marked(states.update(i, value), or_closed) + (if is_marked(states[i], or_closed) {
            1nat
        } else {
            0nat
        }) == marked(states, or_closed) + (if is_marked(value, or_closed) {
            1nat
        } else {
            0nat
        }),
        marked(states, or_closed) <= states.len(),
        marked(states.update(i, value), or_closed) <= states.len(),
    decreases states.len(),
{
    let after = states.update(i, value);
    lemma_marked_bound(states, or_closed);
    lemma_marked_bound(after, or_closed);
    if i == states.len() - 1 {
        assert(after.drop_last() =~= states.drop_last());
    } else {
        lemma_marked_update(states.drop_last(), i, value, or_closed);
        assert(after.drop_last() =~= states.drop_last().update(i, value));
    }
}

/// Where the cell `(x, y)` lies in a row-by-row list of a board `width` wide.
pub open spec fn offset(width: int, x: int, y: int) -> int {
    y * width + x
}

/// What the cell `(x, y)` holds.
pub open spec fn content_at(contents: Seq<CellContent>, width: int, x: int, y: int) -> CellContent {
    contents[offset(width, x, y)]
}

/// On a board every cell has a place of its own in the list.
pub proof fn lemma_offset(width: int, height: int, x: int, y: int)
    requires
        0 <= x < width,
        0 <= y < height,
    ensures
        0 <= offset(width, x, y) < width * height,
        forall|qx: int, qy: int|
            0 <= qx < width && 0 <= qy < height && !(qx == x && qy == y) ==> #[trigger] offset(
                width,
                qx,
                qy,
            ) != offset(width, x, y),
{
    assert(0 <= y * width + x < width * height) by (nonlinear_arith)
        requires
            0 <= x < width,
            0 <= y < height,
    ;
    assert forall|qx: int, qy: int|
        0 <= qx < width && 0 <= qy < height && !(qx == x && qy == y) implies #[trigger] offset(
        width,
        qx,
        qy,
    ) != offset(width, x, y) by {
        if qy * width + qx == y * width + x {
            assert(qy == y) by (nonlinear_arith)
                requires
                    0 <= qx < width,
                    0 <= x < width,
                    qy * width + qx == y * width + x,
            ;
        }
    }
}

/// How many of the first `k` neighbours of `(x, y)` hold a mine.
pub open spec fn mines_near(
    contents: Seq<CellContent>,
    width: int,
    height: int,
    x: int,
    y: int,
    k: int,
) -> int
    decreases k,
{
    if k <= 0 {
        0
    } else {
        let nx = x + around_dx(k - 1);
        let ny = y + around_dy(k - 1);
        mines_near(contents, width, height, x, y, k - 1) + if 0 <= nx < width && 0 <= ny < height
            && content_at(contents, width, nx, ny) is Mine {
            1int
        } else {
            0int
        }
    }
}

/// The count of mines around a cell depends on where the mines are alone.
pub proof fn lemma_mines_near_agree(
    a: Seq<CellContent>,
    b: Seq<CellContent>,
    width: int,
    height: int,
    x: int,
    y: int,
    k: int,
)
    requires
        a.len() == b.len(),
        a.len() == width * height,
        forall|i: int| 0 <= i < a.len() ==> (#[trigger] a[i] is Mine) == (b[i] is Mine),
    ensures
        mines_near(a, width, height, x, y, k) == mines_near(b, width, height, x, y, k),
    decreases k,
{
    if k > 0 {
        lemma_mines_near_agree(a, b, width, height, x, y, k - 1);
        let nx = x + around_dx(k - 1);
        let ny = y + around_dy(k - 1);
        if 0 <= nx < width && 0 <= ny < height {
            lemma_offset(width, height, nx, ny);
            assert(a[offset(width, nx, ny)] is Mine == b[offset(width, nx, ny)] is Mine);
        }
    }
}

/// Every cell without a mine holds the number of mines around it.
pub open spec fn numbered_in(contents: Seq<CellContent>, width: int, height: int) -> bool {
    forall|x: int, y: int|
        0 <= x < width && 0 <= y < height && !(#[trigger] content_at(contents, width, x, y)
            is Mine) ==> content_at(contents, width, x, y) == number_for(
            mines_near(contents, width, height, x, y, 8),
        )
}

/// What a cell without a mine holds when `count` mines lie around it.
pub open spec fn number_for(count: int) -> CellContent {
    if count > 0 {
        CellContent::Number(count as u8)
    } else {
        CellContent::Empty
    }
}

/// What a cell shows once it is opened.
pub open spec fn revealed(content: CellContent) -> CellState {
    match content {
        CellContent::Mine => CellState::Blasted,
        CellContent::Number(n) => CellState::Opening(n),
        CellContent::Empty => CellState::Opening(0),
    }
}

/// `shuffle` of rand's `SliceRandom`, on the first `n` cells with the
/// generator of the current thread: it rearranges those cells in place, so
/// each value is there as often as before, and leaves the others alone.
/// The generator is seeded from the operating system when a thread first
/// uses it, and panics if that source fails; nothing that is passed here
/// bears on that.
#[verifier::external_body]
fn shuffle_front(cells: &mut Vec<CellContent>, n: usize)
    requires
        n <= old(cells)@.len(),
    ensures
        final(cells)@.len() == old(cells)@.len(),
        final(cells)@.subrange(0, n as int).to_multiset() == old(cells)@.subrange(
            0,
            n as int,
        ).to_multiset(),
        final(cells)@.subrange(n as int, old(cells)@.len() as int) == old(cells)@.subrange(
            n as int,
            old(cells)@.len() as int,
        ),
{
    cells[..n].shuffle(&mut rand::rng());
}

/// How many of the first `k` neighbours of `(x, y)` carry a flag, on a
/// board of `width` x `height` cells that shows `shown`.
pub open spec fn flags_around(
    shown: spec_fn(usize, usize) -> Option<CellState>,
    width: int,
    height: int,
    x: int,
    y: int,
    k: int,
) -> int
    decreases k,
{
    if k <= 0 {
        0
    } else {
        let nx = x + around_dx(k - 1);
        let ny = y + around_dy(k - 1);
        flags_around(shown, width, height, x, y, k - 1) + if 0 <= nx < width && 0 <= ny < height
            && shown(nx as usize, ny as usize) == Some(CellState::Flagged) {
            1int
        } else {
            0int
        }
    }
}

/// A chord click at `(x, y)` opens cells: the game is on, the click is of
/// the kind that the board takes for a chord, and the cell shows a number
/// with as many flags around it.
pub open spec fn chord_applies(
    state: BoardState,
    chord_mode: ChordMode,
    shown: spec_fn(usize, usize) -> Option<CellState>,
    width: int,
    height: int,
    x: usize,
    y: usize,
    is_left: bool,
) -> bool {
    &&& !state.spec_is_end()
    &&& !(chord_mode == ChordMode::LeftClick && !is_left)
    &&& shown(x, y) matches Some(CellState::Opening(n)) && n >= 1 && flags_around(
        shown,
        width,
        height,
        x as int,
        y as int,
        8,
    ) == n
}

/// A game of minesweeper on a rectangular board.
pub trait Board {
    /// The board is in a state that its own operations can produce.
    spec fn wf(&self) -> bool;

    spec fn spec_width(&self) -> usize;

    spec fn spec_height(&self) -> usize;

    spec fn spec_mines(&self) -> usize;

    spec fn spec_state(&self) -> BoardState;

    spec fn spec_chord_mode(&self) -> ChordMode;

    /// What the cell `(x, y)` shows, or `None` off the board.
    spec fn spec_cell_state(&self, x: usize, y: usize) -> Option<CellState>;

    /// What the cell `(x, y)` holds, or `None` off the board.
    spec fn spec_cell_content(&self, x: usize, y: usize) -> Option<CellContent>;

    fn width(&self) -> (r: usize)
        ensures
            r == self.spec_width(),
    ;

    fn height(&self) -> (r: usize)
        ensures
            r == self.spec_height(),
    ;

    fn mines(&self) -> (r: usize)
        ensures
            r == self.spec_mines(),
    ;

    /// Where the game asks the player to start, if it names a place.
    spec fn spec_start_position(&self) -> Option<(usize, usize)>;

    /// Where the game asks the player to start, if it names a place.
    fn start_position(&self) -> (r: Option<(usize, usize)>)
        ensures
            r == self.spec_start_position(),
    ;

    fn state(&self) -> (r: BoardState)
        ensures
            r == self.spec_state(),
    ;

    fn set_chord_mode(&mut self, mode: ChordMode)
        requires
            old(self).wf(),
        ensures
            final(self).wf(),
            final(self).spec_chord_mode() == mode,
            final(self).spec_width() == old(self).spec_width(),
            final(self).spec_height() == old(self).spec_height(),
            final(self).spec_mines() == old(self).spec_mines(),
            final(self).spec_state() == old(self).spec_state(),
            forall|x: usize, y: usize|
                final(self).spec_cell_state(x, y) == old(self).spec_cell_state(x, y)
                    && final(self).spec_cell_content(x, y) == old(self).spec_cell_content(x, y),
    ;

    fn chord_mode(&self) -> (r: ChordMode)
        ensures
            r == self.spec_chord_mode(),
    ;

    /// Opens the cell `(x, y)`; the first click of a game also lays the
    /// mines, never under the click. Returns whether the game is over.
    fn left_click(&mut self, x: usize, y: usize) -> (r: bool)
        requires
            old(self).wf(),
        ensures
            final(self).wf(),
            r == final(self).spec_state().spec_is_end(),
            !old(self).spec_state().spec_is_end() && old(self).spec_cell_state(x, y) == Some(
                CellState::Closed,
            ) ==> {
                &&& final(self).spec_cell_content(x, y) matches Some(content)
                &&& final(self).spec_cell_state(x, y) == Some(revealed(content))
            },
            final(self).spec_width() == old(self).spec_width(),
            final(self).spec_height() == old(self).spec_height(),
            final(self).spec_mines() == old(self).spec_mines(),
            final(self).spec_chord_mode() == old(self).spec_chord_mode(),
            old(self).spec_state().spec_is_end() ==> final(self).spec_state() == old(self).spec_state() && forall|qx: usize, qy: usize|
                final(self).spec_cell_state(qx, qy) == old(self).spec_cell_state(qx, qy),
            forall|qx: usize, qy: usize|
                final(self).spec_cell_state(qx, qy) != old(self).spec_cell_state(qx, qy) ==> {
                    &&& old(self).spec_cell_state(qx, qy) matches Some(before)
                    &&& (before is Closed || before is Flagged)
                    &&& final(self).spec_cell_content(qx, qy) matches Some(content)
                    &&& final(self).spec_cell_state(qx, qy) == Some(revealed(content))
                },
    ;

    /// Puts a flag on the closed cell `(x, y)`, or takes the flag off it.
    fn right_click(&mut self, x: usize, y: usize)
        requires
            old(self).wf(),
        ensures
            final(self).wf(),
            final(self).spec_width() == old(self).spec_width(),
            final(self).spec_height() == old(self).spec_height(),
            final(self).spec_mines() == old(self).spec_mines(),
            final(self).spec_chord_mode() == old(self).spec_chord_mode(),
            forall|qx: usize, qy: usize|
                final(self).spec_cell_state(qx, qy) == if qx == x && qy == y && !old(self).spec_state().spec_is_end() {
                    match old(self).spec_cell_state(qx, qy) {
                        Some(CellState::Closed) => Some(CellState::Flagged),
                        Some(CellState::Flagged) => Some(CellState::Closed),
                        other => other,
                    }
                } else {
                    old(self).spec_cell_state(qx, qy)
                },
    ;

    /// Opens the neighbours of the number at `(x, y)` once as many flags lie
    /// around it as it asks for. Returns whether the game is over.
    fn chord_click(&mut self, x: usize, y: usize, is_left: bool) -> (r: bool)
        requires
            old(self).wf(),
        ensures
            final(self).wf(),
            r == final(self).spec_state().spec_is_end(),
            !chord_applies(
                old(self).spec_state(),
                old(self).spec_chord_mode(),
                |qx: usize, qy: usize| old(self).spec_cell_state(qx, qy),
                old(self).spec_width() as int,
                old(self).spec_height() as int,
                x,
                y,
                is_left,
            ) ==> forall|qx: usize, qy: usize|
                final(self).spec_cell_state(qx, qy) == old(self).spec_cell_state(qx, qy),
            chord_applies(
                old(self).spec_state(),
                old(self).spec_chord_mode(),
                |qx: usize, qy: usize| old(self).spec_cell_state(qx, qy),
                old(self).spec_width() as int,
                old(self).spec_height() as int,
                x,
                y,
                is_left,
            ) ==> final(self).spec_state().spec_is_end() || forall|k: int|
                0 <= k < 8 && 0 <= x + around_dx(k) < old(self).spec_width() && 0 <= y + around_dy(k)
                    < old(self).spec_height() ==> #[trigger] final(self).spec_cell_state(
                    (x + around_dx(k)) as usize,
                    (y + around_dy(k)) as usize,
                ) != Some(CellState::Closed),
            final(self).spec_width() == old(self).spec_width(),
            final(self).spec_height() == old(self).spec_height(),
            final(self).spec_mines() == old(self).spec_mines(),
            final(self).spec_chord_mode() == old(self).spec_chord_mode(),
            old(self).spec_state().spec_is_end() ==> final(self).spec_state() == old(self).spec_state() && forall|qx: usize, qy: usize|
                final(self).spec_cell_state(qx, qy) == old(self).spec_cell_state(qx, qy),
            forall|qx: usize, qy: usize|
                final(self).spec_cell_state(qx, qy) != old(self).spec_cell_state(qx, qy) ==> {
                    &&& old(self).spec_cell_state(qx, qy) matches Some(before)
                    &&& (before is Closed || before is Flagged)
                    &&& final(self).spec_cell_content(qx, qy) matches Some(content)
                    &&& final(self).spec_cell_state(qx, qy) == Some(revealed(content))
                },
    ;

    fn cell_state(&self, x: usize, y: usize) -> (r: Option<CellState>)
        requires
            self.wf(),
        ensures
            r == self.spec_cell_state(x, y),
    ;

    fn cell_content(&self, x: usize, y: usize) -> (r: Option<CellContent>)
        requires
            self.wf(),
        ensures
            r == self.spec_cell_content(x, y),
    ;

    /// Back to a game that has not started: every cell closed and empty.
    fn reset(&mut self)
        requires
            old(self).wf(),
        ensures
            final(self).wf(),
            final(self).spec_state() == BoardState::NotStarted,
            final(self).spec_width() == old(self).spec_width(),
            final(self).spec_height() == old(self).spec_height(),
            final(self).spec_mines() == old(self).spec_mines(),
            final(self).spec_chord_mode() == old(self).spec_chord_mode(),
            forall|x: usize, y: usize|
                x < final(self).spec_width() && y < final(self).spec_height() ==> final(self).spec_cell_state(x, y) == Some(CellState::Closed) && final(self).spec_cell_content(x, y) == Some(CellContent::Empty),
    ;
}

/// The classic game: mines laid at random at the first click.
#[derive(Debug)]
pub struct StandardBoard {
    width: usize,
    height: usize,
    mines: usize,
    chord_mode: ChordMode,
    state: BoardState,
    cell_states: Vec<CellState>,
    cell_contents: Vec<CellContent>,
}

impl StandardBoard {
    /// What all cells show, row by row.
    pub closed spec fn states(&self) -> Seq<CellState> {
        self.cell_states@
    }

    /// What all cells hold, row by row.
    pub closed spec fn contents(&self) -> Seq<CellContent> {
        self.cell_contents@
    }

    /// The board has at least one cell and one mine, no more mines than
    /// cells, one entry per cell, and counters that its cells bear out.
    pub closed spec fn inv(&self) -> bool {
        &&& self.width >= 1
        &&& self.height >= 1
        &&& 1 <= self.mines <= self.width * self.height
        &&& self.cell_states@.len() == self.width * self.height
        &&& self.cell_contents@.len() == self.width * self.height
        &&& (self.state is NotStarted ==> forall|i: int|
            0 <= i < self.cell_contents@.len() ==> #[trigger] self.cell_contents@[i]
                == CellContent::Empty)
        &&& (self.state is NotStarted ==> forall|i: int|
            0 <= i < self.cell_states@.len() ==> #[trigger] self.cell_states@[i]
                == CellState::Closed)
        &&& (self.state matches BoardState::InProgress { opened_cells, flags } ==> opened_cells
            + marked(self.cell_states@, true) <= self.cell_states@.len() && flags == marked(
            self.cell_states@,
            false,
        ))
    }

    /// There is one entry per cell.
    pub closed spec fn sized(&self) -> bool {
        &&& self.cell_states@.len() == self.width * self.height
        &&& self.cell_contents@.len() == self.width * self.height
    }

    /// The number of mines on the board.
    pub open spec fn mine_count(&self) -> nat {
        self.contents().to_multiset().count(CellContent::Mine)
    }

    /// Every cell without a mine holds the number of mines around it.
    pub open spec fn numbered(&self) -> bool {
        numbered_in(self.contents(), self.spec_width() as int, self.spec_height() as int)
    }

    fn index(&self, x: usize, y: usize) -> (r: Option<usize>)
        requires
            self.sized(),
        ensures
            match r {
                Some(i) => {
                    &&& x < self.width
                    &&& y < self.height
                    &&& i == offset(self.width as int, x as int, y as int)
                    &&& i < self.cell_states@.len()
                },
                None => !(x < self.width && y < self.height),
            },
    {
        if x >= self.width || y >= self.height {
            return None;
        }
        Some(self.index_unchecked(x, y))
    }

    fn index_unchecked(&self, x: usize, y: usize) -> (r: usize)
        requires
            self.sized(),
            x < self.width,
            y < self.height,
        ensures
            r == offset(self.width as int, x as int, y as int),
            r < self.cell_states@.len(),
    {
        let n = self.cell_states.len();
        assert(0 <= y * self.width <= y * self.width + x < self.width * self.height)
            by (nonlinear_arith)
            requires
                0 <= x < self.width,
                0 <= y < self.height,
        ;
        y * self.width + x
    }

    /// A board of `width` x `height` cells with `mines` mines; each of the
    /// three is raised to one where it is less, and the mines are capped at
    /// the number of cells.
    pub fn new(width: usize, height: usize, mines: usize, chord_mode: ChordMode) -> (r: Self)
        requires
            (if width < 1 {
                1
            } else {
                width as int
            }) * (if height < 1 {
                1
            } else {
                height as int
            }) <= usize::MAX,
        ensures
            r.wf(),
            r.spec_width() == if width < 1 {
                1
            } else {
                width
            },
            r.spec_height() == if height < 1 {
                1
            } else {
                height
            },
            r.spec_mines() == if mines < 1 {
                1
            } else if mines > r.spec_width() * r.spec_height() {
                (r.spec_width() * r.spec_height()) as usize
            } else {
                mines
            },
            r.spec_chord_mode() == chord_mode,
            r.spec_state() == BoardState::NotStarted,
            forall|i: int| 0 <= i < r.states().len() ==> #[trigger] r.states()[i] == CellState::Closed,
            forall|x: usize, y: usize|
                #[trigger] r.spec_cell_state(x, y) == if x < r.spec_width() && y < r.spec_height() {
                    Some(CellState::Closed)
                } else {
                    None
                },
            forall|x: usize, y: usize|
                #[trigger] r.spec_cell_content(x, y) == if x < r.spec_width() && y
                    < r.spec_height() {
                    Some(CellContent::Empty)
                } else {
                    None
                },
    {
        let width = if width < 1 {
            1
        } else {
            width
        };
        let height = if height < 1 {
            1
        } else {
            height
        };
        assert(width * height >= 1) by (nonlinear_arith)
            requires
                width >= 1,
                height >= 1,
        ;
        let total = width * height;
        let mines = if mines < 1 {
            1
        } else if mines > total {
            total
        } else {
            mines
        };
        let cell_states = vec![CellState::Closed; total];
        let cell_contents = vec![CellContent::Empty; total];
        let r = Self {
            width,
            height,
            mines,
            chord_mode,
            state: BoardState::NotStarted,
            cell_states,
            cell_contents,
        };
        proof {
            r.lemma_cells();
        }
        r
    }
}

/// Every cell holds a mine or nothing.
pub open spec fn unnumbered(contents: Seq<CellContent>) -> bool {
    forall|i: int|
        0 <= i < contents.len() ==> #[trigger] contents[i] is Mine || contents[i]
            == CellContent::Empty
}

/// How many neighbours of `(x, y)` hold a mine.
fn count_near(cells: &Vec<CellContent>, width: usize, height: usize, x: usize, y: usize) -> (r: u8)
    requires
        cells@.len() == width * height,
        x < width,
        y < height,
    ensures
        r == mines_near(cells@, width as int, height as int, x as int, y as int, 8),
        r <= 8,
{
    let mut count: u8 = 0;
    let mut k: u8 = 0;
    while k < 8
        invariant
            k <= 8,
            count <= k,
            cells@.len() == width * height,
            x < width,
            y < height,
            count == mines_near(cells@, width as int, height as int, x as int, y as int, k as int),
        decreases 8 - k,
    {
        match around(width, height, x, y, k) {
            Some((nx, ny)) => {
                let n_index = place(cells.len(), width, height, nx, ny);
                if cells[n_index] == CellContent::Mine {
                    count += 1;
                }
            },
            None => {},
        }
        k += 1;
    }
    count
}

/// Where the cell `(x, y)` lies in a list of `total` cells.
fn place(total: usize, width: usize, height: usize, x: usize, y: usize) -> (r: usize)
    requires
        total == width * height,
        x < width,
        y < height,
    ensures
        r == offset(width as int, x as int, y as int),
        r < total,
{
    assert(0 <= y * width <= y * width + x < width * height) by (nonlinear_arith)
        requires
            0 <= x < width,
            0 <= y < height,
    ;
    y * width + x
}

/// Writes into every cell without a mine the number of mines around it,
/// on a board that holds mines and nothing else.
pub fn number_cells(cells: &mut Vec<CellContent>, width: usize, height: usize)
    requires
        old(cells)@.len() == width * height,
        unnumbered(old(cells)@),
    ensures
        final(cells)@.len() == old(cells)@.len(),
        forall|j: int|
            0 <= j < final(cells)@.len() ==> (#[trigger] final(cells)@[j] is Mine) == (old(cells)@[j] is Mine),
        final(cells)@.to_multiset().count(CellContent::Mine) == old(cells)@.to_multiset().count(
            CellContent::Mine,
        ),
        numbered_in(final(cells)@, width as int, height as int),
{
    let total = cells.len();
    let ghost base = cells@;
    let ghost w = width as int;
    let ghost h = height as int;
    let mut y: usize = 0;
    while y < height
        invariant
            y <= height,
            w == width,
            h == height,
            total == width * height,
            cells@.len() == total,
            base.len() == total,
            base == old(cells)@,
            unnumbered(base),
            cells@.to_multiset().count(CellContent::Mine) == base.to_multiset().count(
                CellContent::Mine,
            ),
            forall|j: int| 0 <= j < total ==> (#[trigger] cells@[j] is Mine) == (base[j] is Mine),
            forall|qx: int, qy: int|
                0 <= qx < w && y <= qy < h ==> #[trigger] content_at(cells@, w, qx, qy)
                    == content_at(base, w, qx, qy),
            forall|qx: int, qy: int|
                0 <= qx < w && 0 <= qy < y && !(#[trigger] content_at(cells@, w, qx, qy) is Mine)
                    ==> content_at(cells@, w, qx, qy) == number_for(
                    mines_near(base, w, h, qx, qy, 8),
                ),
        decreases height - y,
    {
        let mut x: usize = 0;
        while x < width
            invariant
                x <= width,
                y < height,
                w == width,
                h == height,
                total == width * height,
                cells@.len() == total,
                base.len() == total,
                base == old(cells)@,
                unnumbered(base),
                cells@.to_multiset().count(CellContent::Mine) == base.to_multiset().count(
                    CellContent::Mine,
                ),
                forall|j: int|
                    0 <= j < total ==> (#[trigger] cells@[j] is Mine) == (base[j] is Mine),
                forall|qx: int, qy: int|
                    0 <= qx < w && 0 <= qy < h && (qy > y || (qy == y && qx >= x))
                        ==> #[trigger] content_at(cells@, w, qx, qy) == content_at(
                        base,
                        w,
                        qx,
                        qy,
                    ),
                forall|qx: int, qy: int|
                    0 <= qx < w && (0 <= qy < y || (qy == y && qx < x)) && !(
                    #[trigger] content_at(cells@, w, qx, qy) is Mine) ==> content_at(
                        cells@,
                        w,
                        qx,
                        qy,
                    ) == number_for(mines_near(base, w, h, qx, qy, 8)),
            decreases width - x,
        {
            proof {
                lemma_offset(w, h, x as int, y as int);
            }
            let index = place(total, width, height, x, y);
            let ghost before = cells@;
            assert(before[index as int] == content_at(before, w, x as int, y as int));
            if cells[index] != CellContent::Mine {
                let count = count_near(cells, width, height, x, y);
                proof {
                    lemma_mines_near_agree(before, base, w, h, x as int, y as int, 8);
                    assert(base[index as int] == content_at(base, w, x as int, y as int));
                    assert(base[index as int] == CellContent::Empty);
                }
                if count > 0 {
                    proof {
                        to_multiset_update(before, index as int, CellContent::Number(count));
                    }
                    cells.set(index, CellContent::Number(count));
                }
            }
            proof {
                assert forall|qx: int, qy: int|
                    0 <= qx < w && 0 <= qy < h && !(qx == x && qy == y) implies #[trigger] content_at(
                    cells@,
                    w,
                    qx,
                    qy,
                ) == content_at(before, w, qx, qy) by {
                    lemma_offset(w, h, qx, qy);
                    assert(offset(w, qx, qy) != offset(w, x as int, y as int));
                }
                assert(content_at(cells@, w, x as int, y as int) == cells@[index as int]);
            }
            x += 1;
        }
        y += 1;
    }
    proof {
        assert forall|x: int, y: int|
            0 <= x < w && 0 <= y < h && !(#[trigger] content_at(cells@, w, x, y)
                is Mine) implies content_at(cells@, w, x, y) == number_for(
            mines_near(cells@, w, h, x, y, 8),
        ) by {
            lemma_mines_near_agree(cells@, base, w, h, x, y, 8);
        }
    }
}

/// Rearranging cells that hold mines or nothing leaves cells that hold mines
/// or nothing.
proof fn lemma_unnumbered_kept(before: Seq<CellContent>, after: Seq<CellContent>)
    requires
        unnumbered(before),
        before.to_multiset() == after.to_multiset(),
    ensures
        unnumbered(after),
{
    assert forall|i: int| 0 <= i < after.len() implies #[trigger] after[i] is Mine || after[i]
        == CellContent::Empty by {
        to_multiset_contains(after, after[i]);
        to_multiset_contains(before, after[i]);
        assert(after.contains(after[i]));
        assert(before.contains(after[i]));
        let j = choose|j: int| 0 <= j < before.len() && before[j] == after[i];
        assert(before[j] is Mine || before[j] == CellContent::Empty);
    }
}

impl StandardBoard {
    /// Lays the mines of a game that has not started and starts it. With a
    /// click on the board, the clicked cell stays free of a mine as long as
    /// the board has a cell to spare.
    fn init(&mut self, click_position: Option<(usize, usize)>)
        requires
            old(self).inv(),
        ensures
            final(self).inv(),
            final(self).width == old(self).width,
            final(self).height == old(self).height,
            final(self).mines == old(self).mines,
            final(self).chord_mode == old(self).chord_mode,
            final(self).cell_states == old(self).cell_states,
            !(old(self).state is NotStarted) ==> final(self).state == old(self).state && final(self).cell_contents == old(self).cell_contents,
            old(self).state is NotStarted ==> {
                &&& final(self).state == (BoardState::InProgress { opened_cells: 0, flags: 0 })
                &&& final(self).mine_count() == final(self).mines
                &&& final(self).numbered()
                &&& (click_position matches Some((cx, cy)) ==> (cx < final(self).width && cy
                    < final(self).height && final(self).mines < final(self).width * final(self).height ==> !(content_at(
                    final(self).cell_contents@,
                    final(self).width as int,
                    cx as int,
                    cy as int,
                ) is Mine)))
            },
    {
        match self.state {
            BoardState::NotStarted => {},
            _ => {
                return ;
            },
        }
        let total = self.cell_contents.len();
        let mut i: usize = 0;
        proof {
            to_multiset_contains(self.cell_contents@, CellContent::Mine);
        }
        while i < self.mines
            invariant
                i <= self.mines,
                self.mines <= total,
                total == self.cell_contents@.len(),
                total == self.width * self.height,
                self.width == old(self).width,
                self.height == old(self).height,
                self.mines == old(self).mines,
                self.chord_mode == old(self).chord_mode,
                self.cell_states == old(self).cell_states,
                self.state == old(self).state,
                self.cell_contents@.to_multiset().count(CellContent::Mine) == i,
                forall|j: int| 0 <= j < i ==> #[trigger] self.cell_contents@[j] == CellContent::Mine,
                forall|j: int|
                    i <= j < total ==> #[trigger] self.cell_contents@[j] == CellContent::Empty,
            decreases self.mines - i,
        {
            proof {
                to_multiset_update(self.cell_contents@, i as int, CellContent::Mine);
            }
            self.cell_contents.set(i, CellContent::Mine);
            i += 1;
        }
        proof {
            lemma_marked_bound(self.cell_states@, true);
            lemma_none_flagged(self.cell_states@);
        }
        if self.mines == total {
            self.state = BoardState::InProgress { opened_cells: 0, flags: 0 };
            proof {
                assert forall|x: int, y: int|
                    0 <= x < self.width && 0 <= y < self.height implies #[trigger] content_at(
                    self.cell_contents@,
                    self.width as int,
                    x,
                    y,
                ) is Mine by {
                    lemma_offset(self.width as int, self.height as int, x, y);
                }
            }
            return ;
        }
        assert(unnumbered(self.cell_contents@));
        let ghost laid = self.cell_contents@;
        match click_position {
            Some((cx, cy)) => {
                match self.index(cx, cy) {
                    Some(click_index) => {
                        shuffle_front(&mut self.cell_contents, total - 1);
                        let ghost mixed = self.cell_contents@;
                        proof {
                            let n = total - 1;
                            assert(laid =~= laid.subrange(0, n) + laid.subrange(n, total as int));
                            assert(mixed =~= mixed.subrange(0, n) + mixed.subrange(
                                n,
                                total as int,
                            ));
                            lemma_multiset_commutative(
                                laid.subrange(0, n),
                                laid.subrange(n, total as int),
                            );
                            lemma_multiset_commutative(
                                mixed.subrange(0, n),
                                mixed.subrange(n, total as int),
                            );
                            assert(mixed.to_multiset() == laid.to_multiset());
                            assert(mixed[n] == mixed.subrange(n, total as int)[0]);
                            assert(laid[n] == laid.subrange(n, total as int)[0]);
                            assert(mixed =~= mixed.drop_last().push(CellContent::Empty));
                            to_multiset_build(mixed.drop_last(), CellContent::Empty);
                            to_multiset_insert(
                                mixed.drop_last(),
                                click_index as int,
                                CellContent::Empty,
                            );
                        }
                        self.cell_contents.pop();
                        self.cell_contents.insert(click_index, CellContent::Empty);
                        assert(self.cell_contents@[click_index as int] == CellContent::Empty);
                    },
                    None => {},
                }
            },
            None => {
                shuffle_front(&mut self.cell_contents, total);
                proof {
                    let mixed = self.cell_contents@;
                    assert(laid =~= laid.subrange(0, total as int));
                    assert(mixed =~= mixed.subrange(0, total as int));
                }
            },
        }
        let ghost base = self.cell_contents@;
        proof {
            assert(base.to_multiset() == laid.to_multiset());
            lemma_unnumbered_kept(laid, base);
        }
        number_cells(&mut self.cell_contents, self.width, self.height);
        self.state = BoardState::InProgress { opened_cells: 0, flags: 0 };
        proof {
            if let Some((cx, cy)) = click_position {
                if cx < self.width && cy < self.height {
                    lemma_offset(self.width as int, self.height as int, cx as int, cy as int);
                    assert(base[offset(self.width as int, cx as int, cy as int)]
                        == CellContent::Empty);
                }
            }
        }
    }
}

/// What a game shows and how far it has come: the part of a board that
/// opening a cell can change.
pub struct Play {
    pub state: BoardState,
    /// What every cell shows, row by row.
    pub shown: Seq<CellState>,
}

/// The phase of a game after one more cell without a mine was opened: the
/// flag on the cell, if it had one, is gone, one more cell counts as opened,
/// and the game is won once every cell without a mine is open.
pub open spec fn state_after_opening(
    state: BoardState,
    was_flagged: bool,
    width: int,
    height: int,
    mines: int,
) -> BoardState {
    match state {
        BoardState::InProgress { opened_cells, flags } => {
            let opened = (opened_cells + 1) as usize;
            if opened + mines == width * height {
                BoardState::Won
            } else {
                BoardState::InProgress {
                    opened_cells: opened,
                    flags: if was_flagged && flags > 0 {
                        (flags - 1) as usize
                    } else {
                        flags
                    },
                }
            }
        },
        other => other,
    }
}

/// The phase of a game after a mine went off.
pub open spec fn state_after_blast(state: BoardState) -> BoardState {
    match state {
        BoardState::InProgress { opened_cells, flags } => BoardState::Lost { opened_cells, flags },
        BoardState::NotStarted => BoardState::Lost { opened_cells: 0, flags: 0 },
        other => other,
    }
}

/// The game after the cell `(x, y)` was asked to open. Nothing happens
/// where the game is over, the place is off the board, the cell is open
/// already, or a flag lies on a mine. A closed mine goes off and the game is
/// lost. Any other cell shows its number; a cell with no mine around it
/// opens its eight neighbours in turn, row by row.
///
/// `fuel` bounds how many empty cells can open inside one another; it is
/// never exhausted when it starts at the number of covered cells.
pub open spec fn uncover(
    p: Play,
    contents: Seq<CellContent>,
    width: int,
    height: int,
    mines: int,
    x: int,
    y: int,
    fuel: nat,
) -> Play
    decreases fuel, 0nat, 0nat,
{
    if p.state.spec_is_end() || !(0 <= x < width && 0 <= y < height) {
        p
    } else {
        let i = offset(width, x, y);
        let shown = p.shown[i];
        if !(shown is Closed || shown is Flagged) {
            p
        } else {
            match contents[i] {
                CellContent::Mine => if shown is Closed {
                    Play {
                        state: state_after_blast(p.state),
                        shown: p.shown.update(i, CellState::Blasted),
                    }
                } else {
                    p
                },
                CellContent::Number(n) => Play {
                    state: state_after_opening(p.state, shown is Flagged, width, height, mines),
                    shown: p.shown.update(i, CellState::Opening(n)),
                },
                CellContent::Empty => {
                    let opened = Play {
                        state: state_after_opening(
                            p.state,
                            shown is Flagged,
                            width,
                            height,
                            mines,
                        ),
                        shown: p.shown.update(i, CellState::Opening(0)),
                    };
                    if fuel == 0 {
                        opened
                    } else {
                        uncover_around(
                            opened,
                            contents,
                            width,
                            height,
                            mines,
                            x,
                            y,
                            0,
                            (fuel - 1) as nat,
                        )
                    }
                },
            }
        }
    }
}

/// The game after the neighbours of `(x, y)`, from neighbour `k` on, were
/// asked to open, one after the other.
pub open spec fn uncover_around(
    p: Play,
    contents: Seq<CellContent>,
    width: int,
    height: int,
    mines: int,
    x: int,
    y: int,
    k: int,
    fuel: nat,
) -> Play
    decreases fuel, 1nat, 8 - k,
{
    if k < 0 || k >= 8 {
        p
    } else {
        let nx = x + around_dx(k);
        let ny = y + around_dy(k);
        if 0 <= nx < width && 0 <= ny < height {
            uncover_around(
                uncover(p, contents, width, height, mines, nx, ny, fuel),
                contents,
                width,
                height,
                mines,
                x,
                y,
                k + 1,
                fuel,
            )
        } else {
            uncover_around(p, contents, width, height, mines, x, y, k + 1, fuel)
        }
    }
}

impl StandardBoard {
    /// Opens the cell `(x, y)` if it is covered; an empty cell opens its
    /// neighbours in turn, a mine ends the game.
    fn open(&mut self, x: usize, y: usize, Ghost(fuel): Ghost<nat>)
        requires
            old(self).inv(),
            !(old(self).state is NotStarted),
            marked(old(self).cell_states@, true) <= fuel,
        ensures
            (Play { state: final(self).state, shown: final(self).cell_states@ }) == uncover(
                (Play { state: old(self).state, shown: old(self).cell_states@ }),
                old(self).cell_contents@,
                old(self).width as int,
                old(self).height as int,
                old(self).mines as int,
                x as int,
                y as int,
                fuel,
            ),
            final(self).inv(),
            !(final(self).state is NotStarted),
            final(self).width == old(self).width,
            final(self).height == old(self).height,
            final(self).mines == old(self).mines,
            final(self).chord_mode == old(self).chord_mode,
            final(self).cell_contents == old(self).cell_contents,
            marked(final(self).cell_states@, true) <= marked(old(self).cell_states@, true),
            old(self).state.spec_is_end() ==> final(self).state == old(self).state && final(self).cell_states == old(self).cell_states,
            forall|i: int|
                0 <= i < old(self).cell_states@.len() ==> #[trigger] final(self).cell_states@[i]
                    == old(self).cell_states@[i] || (is_marked(old(self).cell_states@[i], true)
                    && final(self).cell_states@[i] == revealed(old(self).cell_contents@[i])),
            !old(self).state.spec_is_end() && x < old(self).width && y < old(self).height && old(
                self,
            ).cell_states@[offset(old(self).width as int, x as int, y as int)] == CellState::Closed
                ==> final(self).cell_states@[offset(old(self).width as int, x as int, y as int)]
                == revealed(
                old(self).cell_contents@[offset(old(self).width as int, x as int, y as int)],
            ),
        decreases fuel,
    {
        if self.state.is_end() {
            return ;
        }
        let index = match self.index(x, y) {
            Some(index) => index,
            None => {
                return ;
            },
        };
        let total = self.cell_states.len();
        let shown = self.cell_states[index];
        if shown != CellState::Closed && shown != CellState::Flagged {
            return ;
        }
        proof {
            lemma_marked_update(self.cell_states@, index as int, shown, true);
            lemma_marked_update(self.cell_states@, index as int, shown, false);
        }
        match self.cell_contents[index] {
            CellContent::Mine => {
                // It's usually not possible to reach here when `CellState::Flagged`, but just in case
                if shown == CellState::Closed {
                    proof {
                        lemma_marked_update(
                            self.cell_states@,
                            index as int,
                            CellState::Blasted,
                            true,
                        );
                    }
                    self.cell_states.set(index, CellState::Blasted);
                    self.state.blast();
                }
            },
            CellContent::Number(n) => {
                proof {
                    lemma_marked_update(self.cell_states@, index as int, CellState::Opening(n), true);
                    lemma_marked_update(
                        self.cell_states@,
                        index as int,
                        CellState::Opening(n),
                        false,
                    );
                }
                if shown == CellState::Flagged {
                    self.state.flag_removed();
                }
                self.cell_states.set(index, CellState::Opening(n));
                self.state.cell_opened();
                self.state.check_win(self.width, self.height, self.mines);
            },
            CellContent::Empty => {
                proof {
                    lemma_marked_update(self.cell_states@, index as int, CellState::Opening(0), true);
                    lemma_marked_update(
                        self.cell_states@,
                        index as int,
                        CellState::Opening(0),
                        false,
                    );
                }
                if shown == CellState::Flagged {
                    self.state.flag_removed();
                }
                self.cell_states.set(index, CellState::Opening(0));
                self.state.cell_opened();
                self.state.check_win(self.width, self.height, self.mines);
                let ghost goal = uncover(
                    (Play { state: old(self).state, shown: old(self).cell_states@ }),
                    old(self).cell_contents@,
                    old(self).width as int,
                    old(self).height as int,
                    old(self).mines as int,
                    x as int,
                    y as int,
                    fuel,
                );
                let mut k: u8 = 0;
                while k < 8
                    invariant
                        k <= 8,
                        self.inv(),
                        fuel > 0,
                        marked(self.cell_states@, true) <= fuel - 1,
                        goal == uncover(
                            (Play { state: old(self).state, shown: old(self).cell_states@ }),
                            old(self).cell_contents@,
                            old(self).width as int,
                            old(self).height as int,
                            old(self).mines as int,
                            x as int,
                            y as int,
                            fuel,
                        ),
                        goal == uncover_around(
                            (Play { state: self.state, shown: self.cell_states@ }),
                            self.cell_contents@,
                            self.width as int,
                            self.height as int,
                            self.mines as int,
                            x as int,
                            y as int,
                            k as int,
                            (fuel - 1) as nat,
                        ),
                        !(self.state is NotStarted),
                        x < self.width,
                        y < self.height,
                        index == offset(self.width as int, x as int, y as int),
                        index < self.cell_states@.len(),
                        self.cell_states@[index as int] == CellState::Opening(0),
                        self.width == old(self).width,
                        self.height == old(self).height,
                        self.mines == old(self).mines,
                        self.chord_mode == old(self).chord_mode,
                        self.cell_contents == old(self).cell_contents,
                        self.cell_states@.len() == old(self).cell_states@.len(),
                        marked(self.cell_states@, true) < marked(old(self).cell_states@, true),
                        forall|i: int|
                            0 <= i < old(self).cell_states@.len() ==> #[trigger] self.cell_states@[i]
                                == old(self).cell_states@[i] || (is_marked(
                                old(self).cell_states@[i],
                                true,
                            ) && self.cell_states@[i] == revealed(old(self).cell_contents@[i])),
                    decreases 8 - k,
                {
                    match around(self.width, self.height, x, y, k) {
                        Some((nx, ny)) => {
                            let ghost before = self.cell_states@;
                            self.open(nx, ny, Ghost((fuel - 1) as nat));
                            proof {
                                assert(self.cell_states@[index as int] == before[index as int]
                                    || is_marked(before[index as int], true));
                                assert forall|i: int|
                                    0 <= i < old(self).cell_states@.len() implies #[trigger] self.cell_states@[i]
                                    == old(self).cell_states@[i] || (is_marked(
                                    old(self).cell_states@[i],
                                    true,
                                ) && self.cell_states@[i] == revealed(
                                    old(self).cell_contents@[i],
                                )) by {
                                    assert(self.cell_states@[i] == before[i] || (is_marked(
                                        before[i],
                                        true,
                                    ) && self.cell_states@[i] == revealed(
                                        old(self).cell_contents@[i],
                                    )));
                                    assert(before[i] == old(self).cell_states@[i] || (is_marked(
                                        old(self).cell_states@[i],
                                        true,
                                    ) && before[i] == revealed(old(self).cell_contents@[i])));
                                }
                            }
                        },
                        None => {},
                    }
                    k += 1;
                }
            },
        }
    }
}

impl Board for StandardBoard {
    open spec fn wf(&self) -> bool {
        self.inv()
    }

    closed spec fn spec_width(&self) -> usize {
        self.width
    }

    closed spec fn spec_height(&self) -> usize {
        self.height
    }

    closed spec fn spec_mines(&self) -> usize {
        self.mines
    }

    closed spec fn spec_state(&self) -> BoardState {
        self.state
    }

    closed spec fn spec_chord_mode(&self) -> ChordMode {
        self.chord_mode
    }

    /// The classic game names no place to start at.
    open spec fn spec_start_position(&self) -> Option<(usize, usize)> {
        None
    }

    closed spec fn spec_cell_state(&self, x: usize, y: usize) -> Option<CellState> {
        if x < self.width && y < self.height {
            Some(self.cell_states@[offset(self.width as int, x as int, y as int)])
        } else {
            None
        }
    }

    closed spec fn spec_cell_content(&self, x: usize, y: usize) -> Option<CellContent> {
        if x < self.width && y < self.height {
            Some(self.cell_contents@[offset(self.width as int, x as int, y as int)])
        } else {
            None
        }
    }

    fn width(&self) -> (r: usize) {
        self.width
    }

    fn height(&self) -> (r: usize) {
        self.height
    }

    fn mines(&self) -> (r: usize) {
        self.mines
    }

    fn start_position(&self) -> (r: Option<(usize, usize)>) {
        None
    }

    fn state(&self) -> (r: BoardState) {
        self.state
    }

    fn set_chord_mode(&mut self, mode: ChordMode) {
        self.chord_mode = mode;
    }

    fn chord_mode(&self) -> (r: ChordMode) {
        self.chord_mode
    }

    fn left_click(&mut self, x: usize, y: usize) -> (r: bool) {
        if self.state.is_end() {
            return self.state.is_end();
        }
        self.init(Some((x, y)));
        let click_index = match self.index(x, y) {
            Some(index) => index,
            None => {
                return self.state.is_end();
            },
        };
        if self.chord_mode == ChordMode::LeftClick {
            match self.cell_states[click_index] {
                CellState::Opening(n) => {
                    if n >= 1 {
                        return self.chord_click(x, y, true);
                    }
                },
                _ => {},
            }
        }
        let ghost fuel = marked(self.cell_states@, true);
        self.open(x, y, Ghost(fuel));
        proof {
            self.lemma_cells();
            old(self).lemma_cells();
        }
        self.state.is_end()
    }

    fn right_click(&mut self, x: usize, y: usize) {
        if self.state.is_end() {
            return ;
        }
        let click_index = match self.index(x, y) {
            Some(index) => index,
            None => {
                return ;
            },
        };
        self.init(None);
        let total = self.cell_states.len();
        proof {
            lemma_offset(self.width as int, self.height as int, x as int, y as int);
            lemma_marked_update(self.cell_states@, click_index as int, CellState::Flagged, false);
            lemma_marked_update(self.cell_states@, click_index as int, CellState::Flagged, true);
            lemma_marked_update(self.cell_states@, click_index as int, CellState::Closed, false);
            lemma_marked_update(self.cell_states@, click_index as int, CellState::Closed, true);
            self.lemma_cells();
            old(self).lemma_cells();
        }
        if self.cell_states[click_index] == CellState::Closed {
            self.cell_states.set(click_index, CellState::Flagged);
            self.state.flag_added();
        } else if self.cell_states[click_index] == CellState::Flagged {
            self.cell_states.set(click_index, CellState::Closed);
            self.state.flag_removed();
        }
        proof {
            self.lemma_cells();
        }
    }

    fn chord_click(&mut self, x: usize, y: usize, is_left: bool) -> (r: bool) {
        let ghost shown = |qx: usize, qy: usize| old(self).spec_cell_state(qx, qy);
        let ghost width = self.width as int;
        let ghost height = self.height as int;
        if self.state.is_end() {
            return self.state.is_end();
        }
        if self.chord_mode == ChordMode::LeftClick && !is_left {
            return self.state.is_end();
        }
        let click_index = match self.index(x, y) {
            Some(index) => index,
            None => {
                return self.state.is_end();
            },
        };
        self.init(None);
        proof {
            self.lemma_cells();
            old(self).lemma_cells();
        }
        let n = match self.cell_states[click_index] {
            CellState::Opening(n) => n,
            _ => 0,
        };
        if n >= 1 {
            let mut flagged_count: u8 = 0;
            let mut k: u8 = 0;
            while k < 8
                invariant
                    k <= 8,
                    flagged_count <= k,
                    self.inv(),
                    x < self.width,
                    y < self.height,
                    width == self.width,
                    height == self.height,
                    self.cell_states == old(self).cell_states,
                    old(self).width == self.width,
                    old(self).height == self.height,
                    shown == |qx: usize, qy: usize| old(self).spec_cell_state(qx, qy),
                    flagged_count == flags_around(shown, width, height, x as int, y as int, k as int),
                decreases 8 - k,
            {
                match around(self.width, self.height, x, y, k) {
                    Some((nx, ny)) => {
                        let n_index = self.index_unchecked(nx, ny);
                        assert(shown(nx, ny) == Some(self.cell_states@[n_index as int]));
                        if self.cell_states[n_index] == CellState::Flagged {
                            flagged_count += 1;
                        }
                    },
                    None => {},
                }
                k += 1;
            }
            if flagged_count == n {
                let ghost start = self.cell_states@;
                let mut k: u8 = 0;
                while k < 8
                    invariant_except_break
                        forall|j: int|
                            0 <= j < k && 0 <= x + around_dx(j) < width && 0 <= y + around_dy(j)
                                < height ==> self.cell_states@[#[trigger] offset(
                                width,
                                x + around_dx(j),
                                y + around_dy(j),
                            )] != CellState::Closed,
                    invariant
                        k <= 8,
                        self.inv(),
                        !(self.state is NotStarted),
                        x < self.width,
                        y < self.height,
                        width == self.width,
                        height == self.height,
                        self.width == old(self).width,
                        self.height == old(self).height,
                        self.mines == old(self).mines,
                        self.chord_mode == old(self).chord_mode,
                        self.cell_states@.len() == start.len(),
                        start == old(self).cell_states@,
                        forall|i: int|
                            0 <= i < start.len() ==> #[trigger] self.cell_states@[i] == start[i]
                                || (is_marked(start[i], true) && self.cell_states@[i] == revealed(
                                self.cell_contents@[i],
                            )),
                    ensures
                        self.state.spec_is_end() || forall|j: int|
                            0 <= j < 8 && 0 <= x + around_dx(j) < width && 0 <= y + around_dy(j)
                                < height ==> self.cell_states@[#[trigger] offset(
                                width,
                                x + around_dx(j),
                                y + around_dy(j),
                            )] != CellState::Closed,
                    decreases 8 - k,
                {
                    if self.state.is_end() {
                        break ;
                    }
                    match around(self.width, self.height, x, y, k) {
                        Some((nx, ny)) => {
                            let n_index = self.index_unchecked(nx, ny);
                            if self.cell_states[n_index] != CellState::Flagged {
                                let ghost before = self.cell_states@;
                                self.open(nx, ny, Ghost(marked(before, true)));
                                proof {
                                    assert forall|i: int|
                                        0 <= i < start.len() implies #[trigger] self.cell_states@[i]
                                        == start[i] || (is_marked(start[i], true)
                                        && self.cell_states@[i] == revealed(
                                        self.cell_contents@[i],
                                    )) by {
                                        assert(self.cell_states@[i] == before[i] || (is_marked(
                                            before[i],
                                            true,
                                        ) && self.cell_states@[i] == revealed(
                                            self.cell_contents@[i],
                                        )));
                                        assert(before[i] == start[i] || (is_marked(start[i], true)
                                            && before[i] == revealed(self.cell_contents@[i])));
                                    }
                                    assert forall|j: int|
                                        0 <= j < k + 1 && 0 <= x + around_dx(j) < width && 0 <= y
                                            + around_dy(j)
                                            < height implies self.cell_states@[#[trigger] offset(
                                        width,
                                        x + around_dx(j),
                                        y + around_dy(j),
                                    )] != CellState::Closed by {
                                        let i = offset(width, x + around_dx(j), y + around_dy(j));
                                        lemma_offset(
                                            width,
                                            height,
                                            x + around_dx(j),
                                            y + around_dy(j),
                                        );
                                        assert(self.cell_states@[i] == before[i] || (is_marked(
                                            before[i],
                                            true,
                                        ) && self.cell_states@[i] == revealed(
                                            self.cell_contents@[i],
                                        )));
                                    }
                                }
                            }
                        },
                        None => {},
                    }
                    k += 1;
                }
            }
        }
        proof {
            self.lemma_cells();
        }
        self.state.is_end()
    }

    fn cell_state(&self, x: usize, y: usize) -> (r: Option<CellState>) {
        match self.index(x, y) {
            Some(i) => Some(self.cell_states[i]),
            None => None,
        }
    }

    fn cell_content(&self, x: usize, y: usize) -> (r: Option<CellContent>) {
        match self.index(x, y) {
            Some(i) => Some(self.cell_contents[i]),
            None => None,
        }
    }

    fn reset(&mut self) {
        self.state = BoardState::NotStarted;
        let n = self.cell_states.len();
        let mut i: usize = 0;
        while i < n
            invariant
                i <= n,
                n == self.cell_states@.len(),
                n == self.cell_contents@.len(),
                n == self.width * self.height,
                self.width == old(self).width,
                self.height == old(self).height,
                self.mines == old(self).mines,
                self.chord_mode == old(self).chord_mode,
                self.state is NotStarted,
                self.width >= 1,
                self.height >= 1,
                1 <= self.mines <= self.width * self.height,
                forall|j: int| 0 <= j < i ==> #[trigger] self.cell_states@[j] == CellState::Closed,
                forall|j: int|
                    0 <= j < i ==> #[trigger] self.cell_contents@[j] == CellContent::Empty,
            decreases n - i,
        {
            self.cell_states.set(i, CellState::Closed);
            self.cell_contents.set(i, CellContent::Empty);
            i += 1;
        }
        proof {
            self.lemma_cells();
        }
    }
}

impl StandardBoard {
    /// Every coordinate on the board has its own entry.
    proof fn lemma_cells(&self)
        requires
            self.cell_states@.len() == self.width * self.height,
        ensures
            forall|x: int, y: int|
                0 <= x < self.width && 0 <= y < self.height ==> 0 <= #[trigger] offset(
                    self.width as int,
                    x,
                    y,
                ) < self.cell_states@.len(),
    {
        assert forall|x: int, y: int| 0 <= x < self.width && 0 <= y < self.height implies 0
            <= #[trigger] offset(self.width as int, x, y) < self.cell_states@.len() by {
            lemma_offset(self.width as int, self.height as int, x, y);
        }
    }
}

} // verus!
