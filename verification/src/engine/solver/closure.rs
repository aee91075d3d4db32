//! The propagation reaches its closure: after a whole pass, no number on
//! the board decides any of its neighbours any more.

use vstd::prelude::*;
use super::error::Error;
use super::laws::{
    lemma_examine_refines, lemma_set_refines, lemma_settle_refines, lemma_spread_refines, refines,
};
use super::trivial::{
    examine, lemma_unresolved_update, mines_around, propagate, questions_around, scan, settle,
    spread, unresolved,
};
use super::{neighbor_dx, neighbor_dy, BoardModel, CellSafety};

verus! {

/// The number at `(x, y)`, if there is an unresolved one, is at rest: it
/// decides nothing about its neighbours and is in no conflict with them.
/// Either no open question is left around it and its mines are all found, or
/// it misses some mines and has more open questions than it misses.
pub open spec fn at_rest(b: BoardModel, x: int, y: int) -> bool {
    b.at(x, y) matches CellSafety::Unresolved(n) ==> {
        let found = mines_around(b, x, y, 8);
        let open = questions_around(b, x, y, 8);
        (open == 0 && found == n) || (open > 0 && found < n && n < found + open)
    }
}

/// Every number on the board is at rest.
pub open spec fn closed_under_counting(b: BoardModel) -> bool {
    forall|x: int, y: int| b.in_range(x, y) ==> #[trigger] at_rest(b, x, y)
}

/// The cell `(cx, cy)` is one of the neighbours of `(x, y)` from neighbour
/// `k` on.
pub open spec fn near_from(x: int, y: int, cx: int, cy: int, k: int) -> bool {
    exists|j: int| k <= j < 8 && cx == x + #[trigger] neighbor_dx(j) && cy == y + neighbor_dy(j)
}

/// Two boards of one shape look the same around `(x, y)`: the same known
/// mines and the same open questions.
pub open spec fn same_around(a: BoardModel, b: BoardModel, x: int, y: int) -> bool {
    &&& a.width == b.width
    &&& a.height == b.height
    &&& forall|j: int|
        0 <= j < 8 && a.has_neighbor(x, y, j) ==> ((#[trigger] a.neighbor(x, y, j)) is Mine) == (
        b.neighbor(x, y, j) is Mine) && a.neighbor(x, y, j).is_open_question() == b.neighbor(
            x,
            y,
            j,
        ).is_open_question()
}

/// Boards that look the same around a cell count the same around it.
pub proof fn lemma_same_counts(a: BoardModel, b: BoardModel, x: int, y: int, k: int)
    requires
        same_around(a, b, x, y),
        0 <= k <= 8,
    ensures
        mines_around(a, x, y, k) == mines_around(b, x, y, k),
        questions_around(a, x, y, k) == questions_around(b, x, y, k),
    decreases k,
{
    if k > 0 {
        lemma_same_counts(a, b, x, y, k - 1);
        if a.has_neighbor(x, y, k - 1) {
            assert((a.neighbor(x, y, k - 1) is Mine) == (b.neighbor(x, y, k - 1) is Mine));
        }
    }
}

/// A number that is at rest stays at rest as long as it and the cells
/// around it look the same.
pub proof fn lemma_rest_kept(a: BoardModel, b: BoardModel, x: int, y: int)
    requires
        same_around(a, b, x, y),
        a.at(x, y) == b.at(x, y) || !(b.at(x, y) is Unresolved),
        at_rest(a, x, y),
    ensures
        at_rest(b, x, y),
{
    lemma_same_counts(a, b, x, y, 8);
}

/// Writing to a cell changes nothing around the cells that it does not touch.
pub proof fn lemma_set_far(b: BoardModel, px: int, py: int, value: CellSafety, x: int, y: int)
    requires
        b.wf(),
        b.in_range(px, py),
        b.in_range(x, y),
        !near_from(px, py, x, y, 0),
    ensures
        same_around(b, b.set(px, py, value), x, y),
{
    let after = b.set(px, py, value);
    assert forall|j: int| 0 <= j < 8 && b.has_neighbor(x, y, j) implies ((#[trigger] b.neighbor(
        x,
        y,
        j,
    )) is Mine) == (after.neighbor(x, y, j) is Mine) && b.neighbor(x, y, j).is_open_question()
        == after.neighbor(x, y, j).is_open_question() by {
        let nx = x + neighbor_dx(j);
        let ny = y + neighbor_dy(j);
        b.lemma_set_at(px, py, value, nx, ny);
        if nx == px && ny == py {
            // the written cell is a neighbour of this one, so this one is a neighbour of it
            assert(x == px + neighbor_dx(7 - j) && y == py + neighbor_dy(7 - j));
        }
    }
}

/// Resolving a number changes nothing around any cell.
pub proof fn lemma_resolve_same(b: BoardModel, px: int, py: int, n: u8, x: int, y: int)
    requires
        b.wf(),
        b.in_range(px, py),
        b.at(px, py) is Unresolved,
    ensures
        same_around(b, b.set(px, py, CellSafety::Resolved(n)), x, y),
{
    let after = b.set(px, py, CellSafety::Resolved(n));
    assert forall|j: int| 0 <= j < 8 && b.has_neighbor(x, y, j) implies ((#[trigger] b.neighbor(
        x,
        y,
        j,
    )) is Mine) == (after.neighbor(x, y, j) is Mine) && b.neighbor(x, y, j).is_open_question()
        == after.neighbor(x, y, j).is_open_question() by {
        b.lemma_set_at(px, py, CellSafety::Resolved(n), x + neighbor_dx(j), y + neighbor_dy(j));
    }
}

/// What one step of the propagation that never ends the pass early keeps:
/// it does not end the pass, it leaves no more numbers unresolved than it
/// found, and where it does not fail, every number that was at rest or that
/// the step is `near` is at rest after it.
pub open spec fn keeps_rest(
    b: BoardModel,
    step: (BoardModel, Result<bool, Error>),
    near: spec_fn(int, int) -> bool,
) -> bool {
    &&& step.1 != Ok::<bool, Error>(true)
    &&& unresolved(step.0.cells) <= unresolved(b.cells)
    &&& step.0.wf()
    &&& refines(b, step.0)
    &&& (step.1 is Ok ==> forall|cx: int, cy: int|
        b.in_range(cx, cy) && (at_rest(b, cx, cy) || near(cx, cy)) ==> #[trigger] at_rest(
            step.0,
            cx,
            cy,
        ))
}

/// Looking at a number leaves it at rest, and with it every number that
/// was at rest before.
pub proof fn lemma_examine_rests(b: BoardModel, x: int, y: int, depth: nat)
    requires
        b.wf(),
        b.in_range(x, y),
        unresolved(b.cells) <= depth,
    ensures
        keeps_rest(b, examine(b, x, y, false, depth), |cx: int, cy: int| cx == x && cy == y),
    decreases depth, 0nat, 0nat,
{
    lemma_examine_refines(b, x, y, false, depth);
    if let CellSafety::Unresolved(n) = b.at(x, y) {
        let found = mines_around(b, x, y, 8);
        let open = questions_around(b, x, y, 8);
        b.lemma_offset(x, y);
        lemma_unresolved_update(b.cells, b.offset(x, y), CellSafety::Resolved(n));
        if (found == n || found + open == n) && open > 0 {
            let resolved = b.set(x, y, CellSafety::Resolved(n));
            lemma_set_refines(b, x, y, CellSafety::Resolved(n));
            lemma_settle_rests(resolved, x, y, 0, found == n, (depth - 1) as nat);
            let step = settle(resolved, x, y, 0, found == n, false, (depth - 1) as nat);
            if step.1 is Ok {
                assert forall|cx: int, cy: int|
                    b.in_range(cx, cy) && (at_rest(b, cx, cy) || (cx == x && cy
                        == y)) implies #[trigger] at_rest(step.0, cx, cy) by {
                    b.lemma_set_at(x, y, CellSafety::Resolved(n), cx, cy);
                    if cx == x && cy == y {
                        assert(at_rest(resolved, cx, cy));
                    } else {
                        lemma_resolve_same(b, x, y, n, cx, cy);
                        lemma_rest_kept(b, resolved, cx, cy);
                    }
                    assert(at_rest(resolved, cx, cy));
                }
            }
        }
    }
}

/// Settling the neighbours of a number leaves at rest every number that
/// was at rest before.
pub proof fn lemma_settle_rests(b: BoardModel, x: int, y: int, k: int, safe: bool, depth: nat)
    requires
        b.wf(),
        b.in_range(x, y),
        0 <= k,
        unresolved(b.cells) <= depth,
    ensures
        keeps_rest(b, settle(b, x, y, k, safe, false, depth), |cx: int, cy: int| false),
    decreases depth, 2nat, 8 - k,
{
    lemma_settle_refines(b, x, y, k, safe, false, depth);
    if k >= 8 {
    } else if b.has_neighbor(x, y, k) && b.neighbor(x, y, k).is_open_question() {
        let nx = x + neighbor_dx(k);
        let ny = y + neighbor_dy(k);
        let value = if safe {
            CellSafety::Safe
        } else {
            CellSafety::Mine
        };
        let marked = b.set(nx, ny, value);
        b.lemma_offset(nx, ny);
        lemma_unresolved_update(b.cells, b.offset(nx, ny), value);
        lemma_set_refines(b, nx, ny, value);
        let start = if safe {
            marked.suggest(nx as usize, ny as usize)
        } else {
            marked
        };
        lemma_spread_rests(start, nx, ny, 0, depth);
        lemma_spread_refines(start, nx, ny, 0, false, depth);
        let (next, r) = spread(start, nx, ny, 0, false, depth);
        if r is Ok {
            assert forall|cx: int, cy: int|
                b.in_range(cx, cy) && at_rest(b, cx, cy) implies #[trigger] at_rest(
                next,
                cx,
                cy,
            ) by {
                b.lemma_set_at(nx, ny, value, cx, cy);
                if near_from(nx, ny, cx, cy, 0) {
                } else if cx == nx && cy == ny {
                    assert(at_rest(start, cx, cy));
                } else {
                    lemma_set_far(b, nx, ny, value, cx, cy);
                    lemma_same_shape(marked, start, cx, cy);
                    lemma_same_chain(b, marked, start, cx, cy);
                    lemma_rest_kept(b, start, cx, cy);
                    assert(at_rest(start, cx, cy));
                }
            }
            lemma_settle_rests(next, x, y, k + 1, safe, depth);
            let last = settle(next, x, y, k + 1, safe, false, depth);
            if last.1 is Ok {
                assert forall|cx: int, cy: int|
                    b.in_range(cx, cy) && at_rest(b, cx, cy) implies #[trigger] at_rest(
                    last.0,
                    cx,
                    cy,
                ) by {
                    assert(at_rest(next, cx, cy));
                }
            }
        }
    } else {
        lemma_settle_rests(b, x, y, k + 1, safe, depth);
    }
}

/// A board with a suggestion looks the same around every cell as the board
/// without it.
pub proof fn lemma_same_shape(a: BoardModel, b: BoardModel, x: int, y: int)
    requires
        a.width == b.width,
        a.height == b.height,
        a.cells == b.cells,
    ensures
        same_around(a, b, x, y),
{
    assert forall|j: int| 0 <= j < 8 && a.has_neighbor(x, y, j) implies ((#[trigger] a.neighbor(
        x,
        y,
        j,
    )) is Mine) == (b.neighbor(x, y, j) is Mine) && a.neighbor(x, y, j).is_open_question()
        == b.neighbor(x, y, j).is_open_question() by {}
}

/// Looking the same around a cell carries over from board to board.
pub proof fn lemma_same_chain(a: BoardModel, b: BoardModel, c: BoardModel, x: int, y: int)
    requires
        same_around(a, b, x, y),
        same_around(b, c, x, y),
    ensures
        same_around(a, c, x, y),
{
    assert forall|j: int| 0 <= j < 8 && a.has_neighbor(x, y, j) implies ((#[trigger] a.neighbor(
        x,
        y,
        j,
    )) is Mine) == (c.neighbor(x, y, j) is Mine) && a.neighbor(x, y, j).is_open_question()
        == c.neighbor(x, y, j).is_open_question() by {
        assert((a.neighbor(x, y, j) is Mine) == (b.neighbor(x, y, j) is Mine));
        assert((b.neighbor(x, y, j) is Mine) == (c.neighbor(x, y, j) is Mine));
    }
}

/// Carrying a fact on to the neighbours of a cell leaves them at rest, and
/// with them every number that was at rest before.
pub proof fn lemma_spread_rests(b: BoardModel, x: int, y: int, k: int, depth: nat)
    requires
        b.wf(),
        b.in_range(x, y),
        0 <= k,
        unresolved(b.cells) <= depth,
    ensures
        keeps_rest(
            b,
            spread(b, x, y, k, false, depth),
            |cx: int, cy: int| near_from(x, y, cx, cy, k),
        ),
    decreases depth, 1nat, 8 - k,
{
    lemma_spread_refines(b, x, y, k, false, depth);
    if k >= 8 {
    } else if b.has_neighbor(x, y, k) {
        let nx = x + neighbor_dx(k);
        let ny = y + neighbor_dy(k);
        lemma_examine_rests(b, nx, ny, depth);
        lemma_examine_refines(b, nx, ny, false, depth);
        let (next, r) = examine(b, nx, ny, false, depth);
        if r is Ok {
            lemma_spread_rests(next, x, y, k + 1, depth);
            let last = spread(next, x, y, k + 1, false, depth);
            if last.1 is Ok {
                assert forall|cx: int, cy: int|
                    b.in_range(cx, cy) && (at_rest(b, cx, cy) || near_from(
                        x,
                        y,
                        cx,
                        cy,
                        k,
                    )) implies #[trigger] at_rest(last.0, cx, cy) by {
                    if at_rest(b, cx, cy) || (cx == nx && cy == ny) {
                        assert(at_rest(next, cx, cy));
                    } else {
                        let j = choose|j: int|
                            k <= j < 8 && cx == x + #[trigger] neighbor_dx(j) && cy == y
                                + neighbor_dy(j);
                        assert(j != k);
                        assert(k + 1 <= j < 8 && cx == x + neighbor_dx(j) && cy == y
                            + neighbor_dy(j));
                        assert(near_from(x, y, cx, cy, k + 1));
                    }
                }
            }
        }
    } else {
        lemma_spread_rests(b, x, y, k + 1, depth);
        let last = spread(b, x, y, k + 1, false, depth);
        if last.1 is Ok {
            assert forall|cx: int, cy: int|
                b.in_range(cx, cy) && (at_rest(b, cx, cy) || near_from(
                    x,
                    y,
                    cx,
                    cy,
                    k,
                )) implies #[trigger] at_rest(last.0, cx, cy) by {
                if !at_rest(b, cx, cy) {
                    let j = choose|j: int|
                        k <= j < 8 && cx == x + #[trigger] neighbor_dx(j) && cy == y
                            + neighbor_dy(j);
                    assert(j != k);
                    assert(k + 1 <= j < 8 && cx == x + neighbor_dx(j) && cy == y + neighbor_dy(j));
                    assert(near_from(x, y, cx, cy, k + 1));
                }
            }
        }
    }
}

/// The cell `(cx, cy)` comes before `(x, y)` in row-major order.
pub open spec fn before(cx: int, cy: int, x: int, y: int) -> bool {
    cy < y || (cy == y && cx < x)
}

/// A pass that goes on from `(x, y)` with every number before it at rest
/// ends with every number at rest.
pub proof fn lemma_scan_rests(b: BoardModel, x: int, y: int)
    requires
        b.wf(),
        0 <= x,
        0 <= y,
        forall|cx: int, cy: int|
            b.in_range(cx, cy) && before(cx, cy, x, y) ==> #[trigger] at_rest(b, cx, cy),
        scan(b, b.width, b.height, x, y, false).1 is None,
    ensures
        closed_under_counting(scan(b, b.width, b.height, x, y, false).0),
    decreases b.height - y, b.width - x,
{
    if y >= b.height {
    } else if x >= b.width {
        lemma_scan_rests(b, 0, y + 1);
    } else {
        lemma_examine_rests(b, x, y, unresolved(b.cells));
        let (next, r) = examine(b, x, y, false, unresolved(b.cells));
        if r == Ok::<bool, Error>(false) {
            assert forall|cx: int, cy: int|
                next.in_range(cx, cy) && before(cx, cy, x + 1, y) implies #[trigger] at_rest(
                next,
                cx,
                cy,
            ) by {
                if cx == x && cy == y {
                } else {
                    assert(at_rest(b, cx, cy));
                }
            }
            lemma_scan_rests(next, x + 1, y);
        }
    }
}

/// Closure: where the propagation runs through without ending early and
/// without failing, it leaves a board on which counting decides nothing
/// more. Every number that is still unresolved misses some mines and has
/// more open questions around it than it misses, or has no open question
/// left.
pub proof fn lemma_propagate_closes(b: BoardModel)
    requires
        b.wf(),
        propagate(b, false) is Ok,
    ensures
        closed_under_counting(propagate(b, false)->Ok_0),
{
    lemma_scan_rests(b, 0, 0);
}

} // verus!
