//! What holds of the strategies on every board: the laws that their users
//! can rely on, each proved from the definitions of the strategies.

use vstd::prelude::*;
use super::error::Error;
use super::trivial::{
    examine, lemma_unresolved_positive, mines_around, propagate, questions_around, scan, settle,
    spread, unresolved,
};
use super::constraints::{board_boxes, board_witnesses, BoxModel};
use super::lines::{crunch, crunch_below, lines_wf, merged, top_count, LineModel};
use super::probability::{
    box_verdict, box_weight, engine, held_lines, line_weight, mines_left, sweep, total_weight,
    verdict, wild_weight, write_cell, write_boxes, write_cells,
};
use super::grouping::{frontier_under, grouped, lemma_boxes_group_the_frontier};
use super::{
    count_cells, keeps_certain, lemma_keeps_certain_chain, lemma_keeps_certain_same, neighbor_dx, neighbor_dy, BoardModel,
    CellSafety, Solver,
};

verus! {

/// A cell either stays as it was or gets more definite: an unresolved number
/// becomes resolved, an open question becomes safe or a mine.
pub open spec fn refined_cell(before: CellSafety, after: CellSafety) -> bool {
    ||| after == before
    ||| (before matches CellSafety::Unresolved(n) && after == CellSafety::Resolved(n))
    ||| (before.is_open_question() && (after is Safe || after is Mine))
}

/// `after` has the shape and mine count of `before`, and every cell of it
/// stays as it was or gets more definite.
pub open spec fn refines(before: BoardModel, after: BoardModel) -> bool {
    &&& after.width == before.width
    &&& after.height == before.height
    &&& after.mines == before.mines
    &&& after.cells.len() == before.cells.len()
    &&& forall|x: int, y: int|
        before.in_range(x, y) ==> refined_cell(before.at(x, y), #[trigger] after.at(x, y))
}

/// Getting more definite carries over from step to step.
pub proof fn lemma_refines_chain(a: BoardModel, b: BoardModel, c: BoardModel)
    requires
        refines(a, b),
        refines(b, c),
    ensures
        refines(a, c),
{
    assert forall|x: int, y: int| a.in_range(x, y) implies refined_cell(
        a.at(x, y),
        #[trigger] c.at(x, y),
    ) by {
        assert(refined_cell(a.at(x, y), b.at(x, y)));
        assert(refined_cell(b.at(x, y), c.at(x, y)));
    }
}

/// Writing a more definite value into one cell makes the board more definite.
pub proof fn lemma_set_refines(b: BoardModel, x: int, y: int, value: CellSafety)
    requires
        b.wf(),
        b.in_range(x, y),
        refined_cell(b.at(x, y), value),
    ensures
        refines(b, b.set(x, y, value)),
        b.set(x, y, value).wf(),
{
    assert forall|qx: int, qy: int| b.in_range(qx, qy) implies refined_cell(
        b.at(qx, qy),
        #[trigger] b.set(x, y, value).at(qx, qy),
    ) by {
        b.lemma_set_at(x, y, value, qx, qy);
    }
    b.lemma_set_at(x, y, value, x, y);
}

/// Looking at one number only makes the board more definite.
pub proof fn lemma_examine_refines(b: BoardModel, x: int, y: int, stop: bool, depth: nat)
    requires
        b.wf(),
        b.in_range(x, y),
    ensures
        refines(b, examine(b, x, y, stop, depth).0),
        examine(b, x, y, stop, depth).0.wf(),
    decreases depth, 0nat, 0nat,
{
    if let CellSafety::Unresolved(n) = b.at(x, y) {
        let flagged = mines_around(b, x, y, 8);
        let open = questions_around(b, x, y, 8);
        if (flagged == n || flagged + open == n) && open > 0 && depth > 0 {
            let resolved = b.set(x, y, CellSafety::Resolved(n));
            lemma_set_refines(b, x, y, CellSafety::Resolved(n));
            lemma_settle_refines(resolved, x, y, 0, flagged == n, stop, (depth - 1) as nat);
            lemma_refines_chain(
                b,
                resolved,
                settle(resolved, x, y, 0, flagged == n, stop, (depth - 1) as nat).0,
            );
        }
    }
}

/// Settling the neighbours of a number only makes the board more definite.
pub proof fn lemma_settle_refines(
    b: BoardModel,
    x: int,
    y: int,
    k: int,
    safe: bool,
    stop: bool,
    depth: nat,
)
    requires
        b.wf(),
        b.in_range(x, y),
    ensures
        refines(b, settle(b, x, y, k, safe, stop, depth).0),
        settle(b, x, y, k, safe, stop, depth).0.wf(),
    decreases depth, 2nat, 8 - k,
{
    if k < 0 || k >= 8 {
    } else if b.has_neighbor(x, y, k) && b.neighbor(x, y, k).is_open_question() {
        let nx = x + neighbor_dx(k);
        let ny = y + neighbor_dy(k);
        let value = if safe {
            CellSafety::Safe
        } else {
            CellSafety::Mine
        };
        let marked = b.set(nx, ny, value);
        lemma_set_refines(b, nx, ny, value);
        let start = if safe {
            marked.suggest(nx as usize, ny as usize)
        } else {
            marked
        };
        assert(refines(b, start)) by {
            assert forall|qx: int, qy: int| b.in_range(qx, qy) implies refined_cell(
                b.at(qx, qy),
                #[trigger] start.at(qx, qy),
            ) by {
                assert(start.at(qx, qy) == marked.at(qx, qy));
            }
        }
        if safe && marked.suggestion is None && stop {
        } else {
            lemma_spread_refines(start, nx, ny, 0, stop, depth);
            let (next, r) = spread(start, nx, ny, 0, stop, depth);
            lemma_refines_chain(b, start, next);
            let goes_on = if safe {
                r is Ok
            } else {
                r == Ok::<bool, Error>(false)
            };
            if goes_on {
                lemma_settle_refines(next, x, y, k + 1, safe, stop, depth);
                lemma_refines_chain(b, next, settle(next, x, y, k + 1, safe, stop, depth).0);
            }
        }
    } else {
        lemma_settle_refines(b, x, y, k + 1, safe, stop, depth);
    }
}

/// Carrying a fact on to the neighbours only makes the board more definite.
pub proof fn lemma_spread_refines(b: BoardModel, x: int, y: int, k: int, stop: bool, depth: nat)
    requires
        b.wf(),
        b.in_range(x, y),
    ensures
        refines(b, spread(b, x, y, k, stop, depth).0),
        spread(b, x, y, k, stop, depth).0.wf(),
    decreases depth, 1nat, 8 - k,
{
    if k < 0 || k >= 8 {
    } else if b.has_neighbor(x, y, k) {
        let nx = x + neighbor_dx(k);
        let ny = y + neighbor_dy(k);
        lemma_examine_refines(b, nx, ny, stop, depth);
        let (next, r) = examine(b, nx, ny, stop, depth);
        if r == Ok::<bool, Error>(false) {
            lemma_spread_refines(next, x, y, k + 1, stop, depth);
            lemma_refines_chain(b, next, spread(next, x, y, k + 1, stop, depth).0);
        }
    } else {
        lemma_spread_refines(b, x, y, k + 1, stop, depth);
    }
}

/// A pass over the board from `(x, y)` on only makes the board more definite.
pub proof fn lemma_scan_refines(b: BoardModel, width: nat, height: nat, x: int, y: int, stop: bool)
    requires
        b.wf(),
        width == b.width,
        height == b.height,
    ensures
        refines(b, scan(b, width, height, x, y, stop).0),
        scan(b, width, height, x, y, stop).0.wf(),
    decreases height - y, width - x,
{
    if y < 0 || y >= height || x < 0 {
    } else if x >= width {
        lemma_scan_refines(b, width, height, 0, y + 1, stop);
    } else {
        lemma_examine_refines(b, x, y, stop, unresolved(b.cells));
        let (next, r) = examine(b, x, y, stop, unresolved(b.cells));
        if r == Ok::<bool, Error>(false) {
            lemma_scan_refines(next, width, height, x + 1, y, stop);
            lemma_refines_chain(b, next, scan(next, width, height, x + 1, y, stop).0);
        }
    }
}

/// Whatever the propagation hands back is the board it was given, made more
/// definite: no cell that was settled is touched, no number is lost, and an
/// open question is only ever answered with safe or mine.
pub proof fn lemma_propagate_refines(b: BoardModel, stop: bool)
    requires
        b.wf(),
    ensures
        propagate(b, stop) matches Ok(after) ==> refines(b, after) && after.wf(),
{
    lemma_scan_refines(b, b.width, b.height, 0, 0, stop);
}

/// How many of the first `k` neighbours of `(x, y)` hold a mine in the
/// placement `m`.
pub open spec fn mines_in(m: spec_fn(int, int) -> bool, b: BoardModel, x: int, y: int, k: int) -> int
    decreases k,
{
    if k <= 0 {
        0
    } else {
        mines_in(m, b, x, y, k - 1) + if b.has_neighbor(x, y, k - 1) && m(
            x + neighbor_dx(k - 1),
            y + neighbor_dy(k - 1),
        ) {
            1int
        } else {
            0int
        }
    }
}

/// What the cell `(x, y)` of a snapshot asks of a placement of mines: a
/// known mine is one, a safe cell and a revealed number are none, and every
/// revealed number counts the mines around it.
pub open spec fn cell_explained(
    m: spec_fn(int, int) -> bool,
    b: BoardModel,
    x: int,
    y: int,
    cell: CellSafety,
) -> bool {
    match cell {
        CellSafety::Mine => m(x, y),
        CellSafety::Safe => !m(x, y),
        CellSafety::Unresolved(n) => !m(x, y) && mines_in(m, b, x, y, 8) == n,
        CellSafety::Resolved(n) => !m(x, y) && mines_in(m, b, x, y, 8) == n,
        _ => true,
    }
}

/// The placement `m` of mines explains the snapshot `b`: it agrees with
/// everything that the snapshot takes for certain.
pub open spec fn explains(m: spec_fn(int, int) -> bool, b: BoardModel) -> bool {
    forall|x: int, y: int|
        b.in_range(x, y) ==> cell_explained(m, b, x, y, #[trigger] b.at(x, y))
}

/// The count of mines around a cell depends on the shape of the board alone.
pub proof fn lemma_mines_in_shape(
    m: spec_fn(int, int) -> bool,
    a: BoardModel,
    b: BoardModel,
    x: int,
    y: int,
    k: int,
)
    requires
        a.width == b.width,
        a.height == b.height,
    ensures
        mines_in(m, a, x, y, k) == mines_in(m, b, x, y, k),
    decreases k,
{
    if k > 0 {
        lemma_mines_in_shape(m, a, b, x, y, k - 1);
    }
}

/// A placement that explains a snapshot explains it still after a cell got
/// a value that the placement bears out.
pub proof fn lemma_set_explains(
    m: spec_fn(int, int) -> bool,
    b: BoardModel,
    x: int,
    y: int,
    value: CellSafety,
)
    requires
        b.wf(),
        b.in_range(x, y),
        explains(m, b),
        cell_explained(m, b, x, y, value),
    ensures
        explains(m, b.set(x, y, value)),
{
    let after = b.set(x, y, value);
    assert forall|qx: int, qy: int| after.in_range(qx, qy) implies cell_explained(
        m,
        after,
        qx,
        qy,
        #[trigger] after.at(qx, qy),
    ) by {
        b.lemma_set_at(x, y, value, qx, qy);
        lemma_mines_in_shape(m, after, b, qx, qy, 8);
        assert(cell_explained(m, b, qx, qy, b.at(qx, qy)));
    }
}

/// Under a placement that explains the snapshot, the mines around a cell are
/// at least the known mines and at most the known mines and the open
/// questions together.
pub proof fn lemma_counts(m: spec_fn(int, int) -> bool, b: BoardModel, x: int, y: int, k: int)
    requires
        b.wf(),
        explains(m, b),
        0 <= k <= 8,
    ensures
        mines_around(b, x, y, k) <= mines_in(m, b, x, y, k),
        mines_in(m, b, x, y, k) <= mines_around(b, x, y, k) + questions_around(b, x, y, k),
    decreases k,
{
    if k > 0 {
        lemma_counts(m, b, x, y, k - 1);
        let nx = x + neighbor_dx(k - 1);
        let ny = y + neighbor_dy(k - 1);
        if b.has_neighbor(x, y, k - 1) {
            assert(cell_explained(m, b, nx, ny, b.at(nx, ny)));
        }
    }
}

/// Where an open question among the first `k` neighbours holds a mine, the
/// mines around the cell are more than the known mines.
pub proof fn lemma_hidden_mine(
    m: spec_fn(int, int) -> bool,
    b: BoardModel,
    x: int,
    y: int,
    k: int,
    j: int,
)
    requires
        b.wf(),
        explains(m, b),
        0 <= j < k <= 8,
        b.has_neighbor(x, y, j),
        b.neighbor(x, y, j).is_open_question(),
        m(x + neighbor_dx(j), y + neighbor_dy(j)),
    ensures
        mines_around(b, x, y, k) + 1 <= mines_in(m, b, x, y, k),
    decreases k,
{
    if k - 1 == j {
        lemma_counts(m, b, x, y, k - 1);
    } else {
        lemma_hidden_mine(m, b, x, y, k - 1, j);
        let nx = x + neighbor_dx(k - 1);
        let ny = y + neighbor_dy(k - 1);
        if b.has_neighbor(x, y, k - 1) {
            assert(cell_explained(m, b, nx, ny, b.at(nx, ny)));
        }
    }
}

/// Where an open question among the first `k` neighbours holds no mine, the
/// mines around the cell are fewer than the known mines and the open
/// questions together.
pub proof fn lemma_hidden_gap(
    m: spec_fn(int, int) -> bool,
    b: BoardModel,
    x: int,
    y: int,
    k: int,
    j: int,
)
    requires
        b.wf(),
        explains(m, b),
        0 <= j < k <= 8,
        b.has_neighbor(x, y, j),
        b.neighbor(x, y, j).is_open_question(),
        !m(x + neighbor_dx(j), y + neighbor_dy(j)),
    ensures
        mines_in(m, b, x, y, k) + 1 <= mines_around(b, x, y, k) + questions_around(b, x, y, k),
    decreases k,
{
    if k - 1 == j {
        lemma_counts(m, b, x, y, k - 1);
    } else {
        lemma_hidden_gap(m, b, x, y, k - 1, j);
        let nx = x + neighbor_dx(k - 1);
        let ny = y + neighbor_dy(k - 1);
        if b.has_neighbor(x, y, k - 1) {
            assert(cell_explained(m, b, nx, ny, b.at(nx, ny)));
        }
    }
}

/// Every open question around `(x, y)`, from neighbour `k` on, holds a mine
/// in the placement `m` exactly if `mine` says so.
pub open spec fn neighbours_decided(
    m: spec_fn(int, int) -> bool,
    b: BoardModel,
    x: int,
    y: int,
    k: int,
    mine: bool,
) -> bool {
    forall|j: int|
        k <= j < 8 && b.has_neighbor(x, y, j) && (#[trigger] b.neighbor(
            x,
            y,
            j,
        )).is_open_question() ==> m(x + neighbor_dx(j), y + neighbor_dy(j)) == mine
}

/// What is decided of the neighbours stays decided when the board gets more
/// definite.
pub proof fn lemma_decided_kept(
    m: spec_fn(int, int) -> bool,
    b: BoardModel,
    next: BoardModel,
    x: int,
    y: int,
    k: int,
    mine: bool,
)
    requires
        refines(b, next),
        neighbours_decided(m, b, x, y, k, mine),
    ensures
        neighbours_decided(m, next, x, y, k + 1, mine),
{
    assert forall|j: int|
        k + 1 <= j < 8 && next.has_neighbor(x, y, j) && (#[trigger] next.neighbor(
            x,
            y,
            j,
        )).is_open_question() implies m(x + neighbor_dx(j), y + neighbor_dy(j)) == mine by {
        let nx = x + neighbor_dx(j);
        let ny = y + neighbor_dy(j);
        assert(refined_cell(b.at(nx, ny), next.at(nx, ny)));
        assert(b.neighbor(x, y, j).is_open_question());
    }
}

/// Looking at one number deduces only what holds in every placement that
/// explains the board, and it fails on no board that a placement explains.
pub proof fn lemma_examine_sound(
    m: spec_fn(int, int) -> bool,
    b: BoardModel,
    x: int,
    y: int,
    stop: bool,
    depth: nat,
)
    requires
        b.wf(),
        b.in_range(x, y),
        explains(m, b),
    ensures
        explains(m, examine(b, x, y, stop, depth).0),
        examine(b, x, y, stop, depth).1 is Ok,
    decreases depth, 0nat, 0nat,
{
    if let CellSafety::Unresolved(n) = b.at(x, y) {
        let flagged = mines_around(b, x, y, 8);
        let open = questions_around(b, x, y, 8);
        lemma_counts(m, b, x, y, 8);
        assert(cell_explained(m, b, x, y, b.at(x, y)));
        if (flagged == n || flagged + open == n) && open > 0 && depth > 0 {
            let resolved = b.set(x, y, CellSafety::Resolved(n));
            lemma_set_explains(m, b, x, y, CellSafety::Resolved(n));
            lemma_set_refines(b, x, y, CellSafety::Resolved(n));
            let mine = !(flagged == n);
            assert forall|j: int|
                0 <= j < 8 && resolved.has_neighbor(x, y, j) && (#[trigger] resolved.neighbor(
                    x,
                    y,
                    j,
                )).is_open_question() implies m(x + neighbor_dx(j), y + neighbor_dy(j))
                == mine by {
                let nx = x + neighbor_dx(j);
                let ny = y + neighbor_dy(j);
                b.lemma_set_at(x, y, CellSafety::Resolved(n), nx, ny);
                if m(nx, ny) {
                    lemma_hidden_mine(m, b, x, y, 8, j);
                } else {
                    lemma_hidden_gap(m, b, x, y, 8, j);
                }
            }
            lemma_settle_sound(m, resolved, x, y, 0, flagged == n, stop, (depth - 1) as nat);
        }
    }
}

/// Settling the neighbours of a number deduces only what holds in every
/// placement that explains the board.
pub proof fn lemma_settle_sound(
    m: spec_fn(int, int) -> bool,
    b: BoardModel,
    x: int,
    y: int,
    k: int,
    safe: bool,
    stop: bool,
    depth: nat,
)
    requires
        b.wf(),
        b.in_range(x, y),
        explains(m, b),
        0 <= k,
        neighbours_decided(m, b, x, y, k, !safe),
    ensures
        explains(m, settle(b, x, y, k, safe, stop, depth).0),
        settle(b, x, y, k, safe, stop, depth).1 is Ok,
    decreases depth, 2nat, 8 - k,
{
    if k >= 8 {
    } else if b.has_neighbor(x, y, k) && b.neighbor(x, y, k).is_open_question() {
        let nx = x + neighbor_dx(k);
        let ny = y + neighbor_dy(k);
        let value = if safe {
            CellSafety::Safe
        } else {
            CellSafety::Mine
        };
        let marked = b.set(nx, ny, value);
        lemma_set_explains(m, b, nx, ny, value);
        lemma_set_refines(b, nx, ny, value);
        let start = if safe {
            marked.suggest(nx as usize, ny as usize)
        } else {
            marked
        };
        assert(explains(m, start)) by {
            assert forall|qx: int, qy: int| start.in_range(qx, qy) implies cell_explained(
                m,
                start,
                qx,
                qy,
                #[trigger] start.at(qx, qy),
            ) by {
                assert(start.at(qx, qy) == marked.at(qx, qy));
                assert(cell_explained(m, marked, qx, qy, marked.at(qx, qy)));
                lemma_mines_in_shape(m, start, marked, qx, qy, 8);
            }
        }
        assert(refines(b, start)) by {
            assert forall|qx: int, qy: int| b.in_range(qx, qy) implies refined_cell(
                b.at(qx, qy),
                #[trigger] start.at(qx, qy),
            ) by {
                assert(start.at(qx, qy) == marked.at(qx, qy));
            }
        }
        if safe && marked.suggestion is None && stop {
        } else {
            lemma_spread_sound(m, start, nx, ny, 0, stop, depth);
            lemma_spread_refines(start, nx, ny, 0, stop, depth);
            let (next, r) = spread(start, nx, ny, 0, stop, depth);
            lemma_refines_chain(b, start, next);
            let goes_on = if safe {
                r is Ok
            } else {
                r == Ok::<bool, Error>(false)
            };
            if goes_on {
                lemma_decided_kept(m, b, next, x, y, k, !safe);
                lemma_settle_sound(m, next, x, y, k + 1, safe, stop, depth);
            }
        }
    } else {
        assert(neighbours_decided(m, b, x, y, k + 1, !safe));
        lemma_settle_sound(m, b, x, y, k + 1, safe, stop, depth);
    }
}

/// Carrying a fact on to the neighbours deduces only what holds in every
/// placement that explains the board.
pub proof fn lemma_spread_sound(
    m: spec_fn(int, int) -> bool,
    b: BoardModel,
    x: int,
    y: int,
    k: int,
    stop: bool,
    depth: nat,
)
    requires
        b.wf(),
        b.in_range(x, y),
        explains(m, b),
    ensures
        explains(m, spread(b, x, y, k, stop, depth).0),
        spread(b, x, y, k, stop, depth).1 is Ok,
    decreases depth, 1nat, 8 - k,
{
    if k < 0 || k >= 8 {
    } else if b.has_neighbor(x, y, k) {
        let nx = x + neighbor_dx(k);
        let ny = y + neighbor_dy(k);
        lemma_examine_sound(m, b, nx, ny, stop, depth);
        lemma_examine_refines(b, nx, ny, stop, depth);
        let (next, r) = examine(b, nx, ny, stop, depth);
        if r == Ok::<bool, Error>(false) {
            lemma_spread_sound(m, next, x, y, k + 1, stop, depth);
        }
    } else {
        lemma_spread_sound(m, b, x, y, k + 1, stop, depth);
    }
}

/// A pass over the board deduces only what holds in every placement that
/// explains the board.
pub proof fn lemma_scan_sound(
    m: spec_fn(int, int) -> bool,
    b: BoardModel,
    width: nat,
    height: nat,
    x: int,
    y: int,
    stop: bool,
)
    requires
        b.wf(),
        width == b.width,
        height == b.height,
        explains(m, b),
    ensures
        explains(m, scan(b, width, height, x, y, stop).0),
        scan(b, width, height, x, y, stop).1 is None,
    decreases height - y, width - x,
{
    if y < 0 || y >= height || x < 0 {
    } else if x >= width {
        lemma_scan_sound(m, b, width, height, 0, y + 1, stop);
    } else {
        lemma_examine_sound(m, b, x, y, stop, unresolved(b.cells));
        lemma_examine_refines(b, x, y, stop, unresolved(b.cells));
        let (next, r) = examine(b, x, y, stop, unresolved(b.cells));
        if r == Ok::<bool, Error>(false) {
            lemma_scan_sound(m, next, width, height, x + 1, y, stop);
        }
    }
}

/// The propagation is sound: on a board that some placement of mines
/// explains it does not fail, and the same placement explains the board that
/// it hands back. So every cell that it marks as safe is free of a mine, and
/// every cell that it marks as a mine holds one, wherever the mines may lie.
pub proof fn lemma_propagate_sound(m: spec_fn(int, int) -> bool, b: BoardModel, stop: bool)
    requires
        b.wf(),
        explains(m, b),
    ensures
        propagate(b, stop) is Ok,
        explains(m, propagate(b, stop)->Ok_0),
{
    lemma_scan_sound(m, b, b.width, b.height, 0, 0, stop);
}

/// A failure of the propagation is a proof that the board is broken: no
/// placement of mines explains it.
pub proof fn lemma_failure_means_broken(m: spec_fn(int, int) -> bool, b: BoardModel, stop: bool)
    requires
        b.wf(),
        propagate(b, stop) is Err,
    ensures
        !explains(m, b),
{
    if explains(m, b) {
        lemma_propagate_sound(m, b, stop);
    }
}

/// With exactly one open question around it, and that one at neighbour `j`,
/// a cell counts one open question from neighbour `j` on and none before.
pub proof fn lemma_single_question_count(b: BoardModel, x: int, y: int, j: int, k: int)
    requires
        0 <= j < 8,
        0 <= k <= 8,
        b.has_neighbor(x, y, j),
        b.neighbor(x, y, j).is_open_question(),
        forall|i: int|
            0 <= i < 8 && i != j ==> !(b.has_neighbor(x, y, i) && (#[trigger] b.neighbor(
                x,
                y,
                i,
            )).is_open_question()),
    ensures
        questions_around(b, x, y, k) == if k > j {
            1int
        } else {
            0int
        },
    decreases k,
{
    if k > 0 {
        lemma_single_question_count(b, x, y, j, k - 1);
        if k - 1 != j && b.has_neighbor(x, y, k - 1) {
            assert(!b.neighbor(x, y, k - 1).is_open_question());
        }
    }
}

/// Settling passes over neighbours that are no open questions.
pub proof fn lemma_settle_skips(
    b: BoardModel,
    x: int,
    y: int,
    k: int,
    j: int,
    safe: bool,
    stop: bool,
    depth: nat,
)
    requires
        0 <= k <= j < 8,
        forall|i: int|
            k <= i < j ==> !(b.has_neighbor(x, y, i) && (#[trigger] b.neighbor(
                x,
                y,
                i,
            )).is_open_question()),
    ensures
        settle(b, x, y, k, safe, stop, depth) == settle(b, x, y, j, safe, stop, depth),
    decreases j - k,
{
    if k < j {
        if b.has_neighbor(x, y, k) {
            assert(!b.neighbor(x, y, k).is_open_question());
        }
        lemma_settle_skips(b, x, y, k + 1, j, safe, stop, depth);
    }
}

/// A number that misses one mine and has exactly one open question around
/// it forces that neighbour to be a mine: looking at the number marks the
/// neighbour as a mine and the number as resolved.
pub proof fn lemma_single_witness(b: BoardModel, x: int, y: int, j: int, stop: bool, depth: nat)
    requires
        b.wf(),
        b.in_range(x, y),
        unresolved(b.cells) <= depth,
        0 <= j < 8,
        b.at(x, y) matches CellSafety::Unresolved(n) && mines_around(b, x, y, 8) + 1 == n,
        b.has_neighbor(x, y, j),
        b.neighbor(x, y, j).is_open_question(),
        forall|i: int|
            0 <= i < 8 && i != j ==> !(b.has_neighbor(x, y, i) && (#[trigger] b.neighbor(
                x,
                y,
                i,
            )).is_open_question()),
    ensures
        examine(b, x, y, stop, depth).0.at(x + neighbor_dx(j), y + neighbor_dy(j))
            == CellSafety::Mine,
        examine(b, x, y, stop, depth).0.at(x, y) == CellSafety::Resolved(
            b.at(x, y)->Unresolved_0,
        ),
{
    let n = b.at(x, y)->Unresolved_0;
    let nx = x + neighbor_dx(j);
    let ny = y + neighbor_dy(j);
    b.lemma_offset(x, y);
    lemma_unresolved_positive(b.cells, b.offset(x, y));
    lemma_single_question_count(b, x, y, j, 8);
    let resolved = b.set(x, y, CellSafety::Resolved(n));
    lemma_set_refines(b, x, y, CellSafety::Resolved(n));
    let d = (depth - 1) as nat;
    assert forall|i: int| 0 <= i < 8 && resolved.has_neighbor(x, y, i) implies #[trigger] resolved.neighbor(
        x,
        y,
        i,
    ) == b.neighbor(x, y, i) by {
        b.lemma_set_at(x, y, CellSafety::Resolved(n), x + neighbor_dx(i), y + neighbor_dy(i));
    }
    b.lemma_set_at(x, y, CellSafety::Resolved(n), x, y);
    lemma_settle_skips(resolved, x, y, 0, j, false, stop, d);
    let marked = resolved.set(nx, ny, CellSafety::Mine);
    lemma_set_refines(resolved, nx, ny, CellSafety::Mine);
    resolved.lemma_set_at(nx, ny, CellSafety::Mine, nx, ny);
    resolved.lemma_set_at(nx, ny, CellSafety::Mine, x, y);
    lemma_spread_refines(marked, nx, ny, 0, stop, d);
    let (next, r) = spread(marked, nx, ny, 0, stop, d);
    assert(refined_cell(marked.at(nx, ny), next.at(nx, ny)));
    assert(refined_cell(marked.at(x, y), next.at(x, y)));
    if r == Ok::<bool, Error>(false) {
        lemma_settle_refines(next, x, y, j + 1, false, stop, d);
        let last = settle(next, x, y, j + 1, false, stop, d).0;
        assert(refined_cell(next.at(nx, ny), last.at(nx, ny)));
        assert(refined_cell(next.at(x, y), last.at(x, y)));
    }
}

/// Writing to a cell that a snapshot left open keeps what was certain in
/// that snapshot.
pub proof fn lemma_write_cell_keeps(
    origin: BoardModel,
    b: BoardModel,
    x: usize,
    y: usize,
    value: CellSafety,
    stop: bool,
)
    requires
        b.wf(),
        keeps_certain(origin, b),
        b.in_range(x as int, y as int),
        origin.at(x as int, y as int) is Frontier || origin.at(x as int, y as int) is Wilderness,
    ensures
        keeps_certain(origin, write_cell(b, x, y, value, stop).0),
        write_cell(b, x, y, value, stop).0.wf(),
{
    let after = write_cell(b, x, y, value, stop).0;
    assert forall|qx: int, qy: int| origin.in_range(qx, qy) implies #[trigger] after.at(qx, qy)
        == origin.at(qx, qy) || origin.at(qx, qy) is Frontier || origin.at(qx, qy) is Wilderness by {
        b.lemma_set_at(x as int, y as int, value, qx, qy);
        assert(b.at(qx, qy) == origin.at(qx, qy) || origin.at(qx, qy) is Frontier || origin.at(
            qx,
            qy,
        ) is Wilderness);
    }
    b.lemma_set_at(x as int, y as int, value, x as int, y as int);
}

/// Writing to cells that a snapshot left open keeps what was certain in
/// that snapshot.
pub proof fn lemma_write_cells_keeps(
    origin: BoardModel,
    b: BoardModel,
    cells: Seq<(usize, usize)>,
    value: CellSafety,
    stop: bool,
    from: int,
)
    requires
        b.wf(),
        keeps_certain(origin, b),
        0 <= from,
        forall|t: int|
            from <= t < cells.len() ==> origin.in_range(
                (#[trigger] cells[t]).0 as int,
                cells[t].1 as int,
            ) && (origin.at(cells[t].0 as int, cells[t].1 as int) is Frontier || origin.at(
                cells[t].0 as int,
                cells[t].1 as int,
            ) is Wilderness),
    ensures
        keeps_certain(origin, write_cells(b, cells, value, stop, from).0),
        write_cells(b, cells, value, stop, from).0.wf(),
    decreases cells.len() - from,
{
    if from < cells.len() {
        assert(origin.in_range(cells[from].0 as int, cells[from].1 as int));
        lemma_write_cell_keeps(origin, b, cells[from].0, cells[from].1, value, stop);
        let (next, halt) = write_cell(b, cells[from].0, cells[from].1, value, stop);
        if !halt {
            lemma_write_cells_keeps(origin, next, cells, value, stop, from + 1);
        }
    }
}

/// Only cells that were open are written: the boxes of a snapshot hold
/// frontier cells alone, so writing to the boxes keeps what was certain in
/// the snapshot.
pub proof fn lemma_write_boxes_keeps(
    origin: BoardModel,
    b: BoardModel,
    boxes: Seq<BoxModel>,
    lines: Seq<LineModel>,
    left: nat,
    wild: nat,
    stop: bool,
    from: int,
)
    requires
        b.wf(),
        keeps_certain(origin, b),
        grouped(origin, boxes),
        0 <= from,
    ensures
        keeps_certain(origin, write_boxes(b, boxes, lines, left, wild, stop, from).0),
        write_boxes(b, boxes, lines, left, wild, stop, from).0.wf(),
    decreases boxes.len() - from,
{
    if from < boxes.len() {
        let value = box_verdict(boxes, lines, left, wild, from);
        let cells = boxes[from].cells;
        assert forall|t: int| 0 <= t < cells.len() implies origin.in_range(
            (#[trigger] cells[t]).0 as int,
            cells[t].1 as int,
        ) && (origin.at(cells[t].0 as int, cells[t].1 as int) is Frontier || origin.at(
            cells[t].0 as int,
            cells[t].1 as int,
        ) is Wilderness) by {
            assert(frontier_under(origin, boxes[from].cells[t], boxes[from].witnesses));
        }
        lemma_write_cells_keeps(origin, b, cells, value, stop, 0);
        let (next, halt) = write_cells(b, cells, value, stop, 0);
        if !halt {
            lemma_write_boxes_keeps(origin, next, boxes, lines, left, wild, stop, from + 1);
        }
    }
}

/// Only cells that are open are written: a sweep over the board keeps what
/// was certain.
pub proof fn lemma_sweep_keeps(
    b: BoardModel,
    on_frontier: Option<CellSafety>,
    on_wild: Option<CellSafety>,
    stop: bool,
    width: nat,
    height: nat,
    x: int,
    y: int,
)
    requires
        b.wf(),
        width == b.width,
        height == b.height,
        width <= usize::MAX,
        height <= usize::MAX,
    ensures
        keeps_certain(b, sweep(b, on_frontier, on_wild, stop, width, height, x, y).0),
        sweep(b, on_frontier, on_wild, stop, width, height, x, y).0.wf(),
    decreases height - y, width - x,
{
    if y < 0 || y >= height || x < 0 {
    } else if x >= width {
        lemma_sweep_keeps(b, on_frontier, on_wild, stop, width, height, 0, y + 1);
    } else {
        let value = match b.at(x, y) {
            CellSafety::Frontier => on_frontier,
            CellSafety::Wilderness => on_wild,
            _ => None,
        };
        match value {
            Some(v) => {
                lemma_keeps_certain_same(b);
                lemma_write_cell_keeps(b, b, x as usize, y as usize, v, stop);
                let (next, halt) = write_cell(b, x as usize, y as usize, v, stop);
                if !halt {
                    lemma_sweep_keeps(next, on_frontier, on_wild, stop, width, height, x + 1, y);
                    lemma_keeps_certain_chain(
                        b,
                        next,
                        sweep(next, on_frontier, on_wild, stop, width, height, x + 1, y).0,
                    );
                }
            },
            None => {
                lemma_sweep_keeps(b, on_frontier, on_wild, stop, width, height, x + 1, y);
            },
        }
    }
}

/// The probability engine leaves what is certain: it writes to cells that
/// the snapshot holds as `Frontier` or `Wilderness` and to no others.
pub proof fn lemma_engine_keeps_certain(b: BoardModel, stop: bool)
    requires
        b.wf(),
        b.width <= usize::MAX,
        b.height <= usize::MAX,
    ensures
        keeps_certain(b, engine(b, stop)),
        engine(b, stop).wf(),
{
    let witnesses = board_witnesses(b);
    let boxes = board_boxes(b);
    if witnesses.len() == 0 {
        let closed = count_cells(b.cells, CellSafety::Frontier, b.cells.len() as int) + count_cells(
            b.cells,
            CellSafety::Wilderness,
            b.cells.len() as int,
        );
        if closed != 0 {
            lemma_sweep_keeps(
                b,
                Some(verdict(mines_left(b), closed, true)),
                Some(verdict(mines_left(b), closed, false)),
                stop,
                b.width,
                b.height,
                0,
                0,
            );
        }
    } else if boxes.len() == 0 {
    } else {
        let left = mines_left(b);
        let wild = count_cells(b.cells, CellSafety::Wilderness, b.cells.len() as int);
        let lines = held_lines(witnesses, boxes, left);
        let total = total_weight(lines, left, wild, lines.len() as int);
        if total != 0 {
            lemma_boxes_group_the_frontier(b);
            lemma_keeps_certain_same(b);
            lemma_write_boxes_keeps(b, b, boxes, lines, left, wild, stop, 0);
            let (next, halt) = write_boxes(b, boxes, lines, left, wild, stop, 0);
            if !(halt || wild == 0) {
                let on_wild = Some(
                    verdict(wild_weight(lines, left, wild, lines.len() as int), wild * total, false),
                );
                lemma_sweep_keeps(next, None, on_wild, stop, b.width, b.height, 0, 0);
                lemma_keeps_certain_chain(
                    b,
                    next,
                    sweep(next, None, on_wild, stop, b.width, b.height, 0, 0).0,
                );
            }
        }
    }
}

/// Certainty closure: a cell that the propagation has marked as safe or as a
/// mine is the same after any run of the probability engine on what the
/// propagation handed back.
pub proof fn lemma_certainty_closure(
    b: BoardModel,
    stop_propagation: bool,
    stop_engine: bool,
    x: int,
    y: int,
)
    requires
        b.wf(),
        b.width <= usize::MAX,
        b.height <= usize::MAX,
        b.in_range(x, y),
        propagate(b, stop_propagation) matches Ok(mid) && (mid.at(x, y) is Safe || mid.at(x, y)
            is Mine),
    ensures
        engine(propagate(b, stop_propagation)->Ok_0, stop_engine).at(x, y) == propagate(
            b,
            stop_propagation,
        )->Ok_0.at(x, y),
{
    let mid = propagate(b, stop_propagation)->Ok_0;
    lemma_propagate_refines(b, stop_propagation);
    lemma_engine_keeps_certain(mid, stop_engine);
    assert(mid.in_range(x, y));
}

/// Determinism: what a strategy makes of a snapshot is a function of the
/// snapshot. Two results of `calculate` on snapshots with the same content
/// have the same content, failures included.
pub proof fn lemma_calculate_deterministic<S: Solver>(
    solver: &S,
    board: BoardModel,
    first: Result<BoardModel, Error>,
    second: Result<BoardModel, Error>,
)
    requires
        first == solver.outcome(board),
        second == solver.outcome(board),
    ensures
        first == second,
{
}

/// What a line adds to a sum: its solutions for `which < 0`, and else what
/// it counts for box `which`.
pub open spec fn amount(pl: LineModel, which: int) -> nat {
    if which < 0 {
        pl.solution_count
    } else {
        pl.mine_box_count[which]
    }
}

/// The amounts of the first `n` lines, each counted with the weight of its line.
pub open spec fn weighted(lines: Seq<LineModel>, which: int, left: nat, wild: nat, n: int) -> nat
    decreases n,
{
    if n <= 0 {
        0
    } else {
        weighted(lines, which, left, wild, n - 1) + amount(lines[n - 1], which) * line_weight(
            lines[n - 1],
            left,
            wild,
        )
    }
}

/// The total weight and the box weights are weighted sums of amounts.
pub proof fn lemma_weights_are_weighted(lines: Seq<LineModel>, b: int, left: nat, wild: nat, n: int)
    requires
        0 <= b,
    ensures
        total_weight(lines, left, wild, n) == weighted(lines, -1, left, wild, n),
        box_weight(lines, b, left, wild, n) == weighted(lines, b, left, wild, n),
    decreases n,
{
    if n > 0 {
        lemma_weights_are_weighted(lines, b, left, wild, n - 1);
    }
}

/// The amounts of those of the first `n` lines that place `count` mines.
pub open spec fn amount_at(lines: Seq<LineModel>, which: int, count: nat, n: int) -> nat
    decreases n,
{
    if n <= 0 {
        0
    } else {
        amount_at(lines, which, count, n - 1) + if lines[n - 1].mine_count == count {
            amount(lines[n - 1], which)
        } else {
            0
        }
    }
}

/// The amounts of those of the first `n` lines that place fewer than
/// `limit` mines, each counted with the weight of its line.
pub open spec fn weighted_below(
    lines: Seq<LineModel>,
    which: int,
    left: nat,
    wild: nat,
    limit: nat,
    n: int,
) -> nat
    decreases n,
{
    if n <= 0 {
        0
    } else {
        weighted_below(lines, which, left, wild, limit, n - 1) + if lines[n - 1].mine_count
            < limit {
            amount(lines[n - 1], which) * line_weight(lines[n - 1], left, wild)
        } else {
            0
        }
    }
}

/// The line that stands for a group holds the amounts of the group, added up.
pub proof fn lemma_merged_amount(
    lines: Seq<LineModel>,
    which: int,
    count: nat,
    n: int,
    box_count: nat,
)
    requires
        lines_wf(lines, box_count),
        n <= lines.len(),
        which < box_count,
    ensures
        match merged(lines, count, n) {
            Some(line) => {
                &&& line.mine_count == count
                &&& line.wf(box_count)
                &&& amount(line, which) == amount_at(lines, which, count, n)
            },
            None => amount_at(lines, which, count, n) == 0,
        },
    decreases n,
{
    if n > 0 {
        lemma_merged_amount(lines, which, count, n - 1, box_count);
        assert(lines[n - 1].wf(box_count));
    }
}

/// A weighted sum over the first `n` lines does not look at the others.
pub proof fn lemma_weighted_agree(
    a: Seq<LineModel>,
    b: Seq<LineModel>,
    which: int,
    left: nat,
    wild: nat,
    n: int,
)
    requires
        n <= a.len(),
        n <= b.len(),
        forall|i: int| 0 <= i < n ==> a[i] == b[i],
    ensures
        weighted(a, which, left, wild, n) == weighted(b, which, left, wild, n),
    decreases n,
{
    if n > 0 {
        lemma_weighted_agree(a, b, which, left, wild, n - 1);
    }
}

/// Taking the lines that place `limit` mines in as well adds their amounts
/// at the weight of that mine count.
pub proof fn lemma_weighted_below_step(
    lines: Seq<LineModel>,
    which: int,
    left: nat,
    wild: nat,
    limit: nat,
    n: int,
    probe: LineModel,
)
    requires
        probe.mine_count == limit,
    ensures
        weighted_below(lines, which, left, wild, limit + 1, n) == weighted_below(
            lines,
            which,
            left,
            wild,
            limit,
            n,
        ) + amount_at(lines, which, limit, n) * line_weight(probe, left, wild),
    decreases n,
{
    if n > 0 {
        lemma_weighted_below_step(lines, which, left, wild, limit, n - 1, probe);
        let w = line_weight(probe, left, wild);
        let before = amount_at(lines, which, limit, n - 1);
        let here = amount(lines[n - 1], which);
        if lines[n - 1].mine_count == limit {
            assert(line_weight(lines[n - 1], left, wild) == w);
            assert((before + here) * w == before * w + here * w) by (nonlinear_arith);
        }
    }
    if n <= 0 {
        assert(amount_at(lines, which, limit, n) * line_weight(probe, left, wild) == 0)
            by (nonlinear_arith)
            requires
                amount_at(lines, which, limit, n) == 0,
        ;
    }
}

/// The crunched lines for the mine counts below `limit` weigh what the
/// lines with those mine counts weigh.
pub proof fn lemma_crunch_below_weight(
    lines: Seq<LineModel>,
    which: int,
    left: nat,
    wild: nat,
    limit: nat,
    box_count: nat,
)
    requires
        lines_wf(lines, box_count),
        which < box_count,
    ensures
        weighted(
            crunch_below(lines, limit),
            which,
            left,
            wild,
            crunch_below(lines, limit).len() as int,
        ) == weighted_below(lines, which, left, wild, limit, lines.len() as int),
    decreases limit,
{
    if limit == 0 {
        lemma_weighted_below_none(lines, which, left, wild, lines.len() as int);
    } else {
        let c = (limit - 1) as nat;
        let prev = crunch_below(lines, c);
        lemma_crunch_below_weight(lines, which, left, wild, c, box_count);
        lemma_merged_amount(lines, which, c, lines.len() as int, box_count);
        match merged(lines, c, lines.len() as int) {
            Some(line) => {
                lemma_weighted_below_step(lines, which, left, wild, c, lines.len() as int, line);
                lemma_weighted_agree(prev.push(line), prev, which, left, wild, prev.len() as int);
            },
            None => {
                let probe = LineModel {
                    mine_count: c,
                    solution_count: 0,
                    mine_box_count: Seq::empty(),
                    allocated_mines: Seq::empty(),
                };
                lemma_weighted_below_step(lines, which, left, wild, c, lines.len() as int, probe);
                assert(amount_at(lines, which, c, lines.len() as int) * line_weight(
                    probe,
                    left,
                    wild,
                ) == 0) by (nonlinear_arith)
                    requires
                        amount_at(lines, which, c, lines.len() as int) == 0,
                ;
            },
        }
    }
}

/// No line places fewer than no mines.
pub proof fn lemma_weighted_below_none(
    lines: Seq<LineModel>,
    which: int,
    left: nat,
    wild: nat,
    n: int,
)
    ensures
        weighted_below(lines, which, left, wild, 0, n) == 0,
    decreases n,
{
    if n > 0 {
        lemma_weighted_below_none(lines, which, left, wild, n - 1);
    }
}

/// A limit above every mine count leaves no line out.
pub proof fn lemma_weighted_below_all(
    lines: Seq<LineModel>,
    which: int,
    left: nat,
    wild: nat,
    limit: nat,
    n: int,
)
    requires
        n <= lines.len(),
        top_count(lines, n) < limit,
    ensures
        weighted_below(lines, which, left, wild, limit, n) == weighted(lines, which, left, wild, n),
    decreases n,
{
    if n > 0 {
        lemma_weighted_below_all(lines, which, left, wild, limit, n - 1);
    }
}

/// Conservation under crunching: merging the lines of equal mine count
/// changes neither the number of ways to place all mines nor, for any box,
/// the mines in the box summed over those ways. The chance that is reported
/// for a box is therefore the same whether it is taken from the lines or
/// from the crunched lines.
pub proof fn lemma_crunch_conserves(
    lines: Seq<LineModel>,
    b: int,
    left: nat,
    wild: nat,
    box_count: nat,
)
    requires
        lines_wf(lines, box_count),
        0 <= b < box_count,
    ensures
        total_weight(crunch(lines), left, wild, crunch(lines).len() as int) == total_weight(
            lines,
            left,
            wild,
            lines.len() as int,
        ),
        box_weight(crunch(lines), b, left, wild, crunch(lines).len() as int) == box_weight(
            lines,
            b,
            left,
            wild,
            lines.len() as int,
        ),
{
    let crunched = crunch(lines);
    lemma_weights_are_weighted(crunched, b, left, wild, crunched.len() as int);
    lemma_weights_are_weighted(lines, b, left, wild, lines.len() as int);
    if lines.len() > 0 {
        let limit = top_count(lines, lines.len() as int) + 1;
        lemma_crunch_below_weight(lines, -1, left, wild, limit, box_count);
        lemma_crunch_below_weight(lines, b, left, wild, limit, box_count);
        lemma_weighted_below_all(lines, -1, left, wild, limit, lines.len() as int);
        lemma_weighted_below_all(lines, b, left, wild, limit, lines.len() as int);
    }
}

} // verus!
