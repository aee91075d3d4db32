//! What the probability engine writes, cell by cell: where a pass is not
//! cut short, every frontier cell gets the verdict of its box, every
//! wilderness cell the verdict of the wilderness, and every other cell stays
//! as it is.

use vstd::prelude::*;
use super::constraints::{board_boxes, board_witnesses, BoxModel};
use super::grouping::{boxed, frontier_under, grouped, lemma_boxes_group_the_frontier};
use super::lines::LineModel;
use super::probability::{
    box_verdict, engine, held_lines, mines_left, sweep, total_weight, uniform, verdict,
    wild_weight, write_boxes, write_cell, write_cells,
};
use super::{count_cells, BoardModel, CellSafety};

verus! {

/// The cell is closed and nothing is known about it.
pub open spec fn open_cell(cell: CellSafety) -> bool {
    cell is Frontier || cell is Wilderness
}

/// The cell `(x, y)` is one of `cells[from..]`.
pub open spec fn holds(cells: Seq<(usize, usize)>, from: int, x: int, y: int) -> bool {
    exists|t: int| from <= t < cells.len() && #[trigger] cells[t] == (x as usize, y as usize)
}

/// The first box from `from` on that holds the cell `(x, y)`, or the number
/// of boxes where none does.
pub open spec fn first_box(boxes: Seq<BoxModel>, from: int, x: int, y: int) -> int
    decreases boxes.len() - from,
{
    if from < 0 || from >= boxes.len() {
        boxes.len() as int
    } else if holds(boxes[from].cells, 0, x, y) {
        from
    } else {
        first_box(boxes, from + 1, x, y)
    }
}

/// A verdict is never an open cell.
pub proof fn lemma_verdict_settles(num: nat, den: nat, frontier: bool)
    ensures
        !open_cell(verdict(num, den, frontier)),
{
}

/// Writing to one cell, in a pass that is not cut short, changes that cell
/// and nothing else.
pub proof fn lemma_write_cell(b: BoardModel, x: usize, y: usize, value: CellSafety, qx: int, qy: int)
    requires
        b.wf(),
        b.in_range(x as int, y as int),
        b.in_range(qx, qy),
    ensures
        !write_cell(b, x, y, value, false).1,
        write_cell(b, x, y, value, false).0.wf(),
        write_cell(b, x, y, value, false).0.width == b.width,
        write_cell(b, x, y, value, false).0.height == b.height,
        write_cell(b, x, y, value, false).0.at(qx, qy) == if qx == x && qy == y {
            value
        } else {
            b.at(qx, qy)
        },
{
    b.lemma_set_at(x as int, y as int, value, qx, qy);
}

/// Writing to a list of cells, in a pass that is not cut short, changes
/// the cells of the list and nothing else.
pub proof fn lemma_write_cells(
    b: BoardModel,
    cells: Seq<(usize, usize)>,
    value: CellSafety,
    from: int,
    qx: int,
    qy: int,
)
    requires
        b.wf(),
        b.width <= usize::MAX,
        b.height <= usize::MAX,
        b.in_range(qx, qy),
        0 <= from,
        forall|t: int|
            from <= t < cells.len() ==> b.in_range(
                (#[trigger] cells[t]).0 as int,
                cells[t].1 as int,
            ),
    ensures
        !write_cells(b, cells, value, false, from).1,
        write_cells(b, cells, value, false, from).0.wf(),
        write_cells(b, cells, value, false, from).0.width == b.width,
        write_cells(b, cells, value, false, from).0.height == b.height,
        write_cells(b, cells, value, false, from).0.at(qx, qy) == if holds(cells, from, qx, qy) {
            value
        } else {
            b.at(qx, qy)
        },
    decreases cells.len() - from,
{
    if from < cells.len() {
        let (cx, cy) = cells[from];
        assert(b.in_range(cells[from].0 as int, cells[from].1 as int));
        lemma_write_cell(b, cx, cy, value, qx, qy);
        let next = write_cell(b, cx, cy, value, false).0;
        lemma_write_cells(next, cells, value, from + 1, qx, qy);
        if holds(cells, from, qx, qy) {
            let t = choose|t: int| from <= t < cells.len() && #[trigger] cells[t] == (
                qx as usize,
                qy as usize,
            );
            if t > from {
                assert(from + 1 <= t < cells.len() && cells[t] == (qx as usize, qy as usize));
            }
        }
        if holds(cells, from + 1, qx, qy) {
            let t = choose|t: int| from + 1 <= t < cells.len() && #[trigger] cells[t] == (
                qx as usize,
                qy as usize,
            );
            assert(from <= t < cells.len() && cells[t] == (qx as usize, qy as usize));
        }
        if qx == cx && qy == cy {
            assert(from <= from < cells.len() && cells[from] == (qx as usize, qy as usize));
        }
    }
}

/// Where `first_box` ends: at a box from `from` on that holds the cell, or
/// behind the last box.
pub proof fn lemma_first_box(boxes: Seq<BoxModel>, from: int, x: int, y: int)
    requires
        0 <= from,
    ensures
        first_box(boxes, from, x, y) <= boxes.len(),
        first_box(boxes, from, x, y) < boxes.len() ==> from <= first_box(boxes, from, x, y)
            && holds(boxes[first_box(boxes, from, x, y)].cells, 0, x, y),
    decreases boxes.len() - from,
{
    if from < boxes.len() && !holds(boxes[from].cells, 0, x, y) {
        lemma_first_box(boxes, from + 1, x, y);
    }
}

/// Writing to the boxes of a snapshot, in a pass that is not cut short,
/// gives every cell of a box the verdict of its box and changes nothing
/// else.
pub proof fn lemma_write_boxes(
    origin: BoardModel,
    b: BoardModel,
    boxes: Seq<BoxModel>,
    lines: Seq<LineModel>,
    left: nat,
    wild: nat,
    from: int,
    qx: int,
    qy: int,
)
    requires
        b.wf(),
        b.width == origin.width,
        b.height == origin.height,
        b.width <= usize::MAX,
        b.height <= usize::MAX,
        grouped(origin, boxes),
        b.in_range(qx, qy),
        0 <= from,
    ensures
        !write_boxes(b, boxes, lines, left, wild, false, from).1,
        write_boxes(b, boxes, lines, left, wild, false, from).0.wf(),
        write_boxes(b, boxes, lines, left, wild, false, from).0.width == b.width,
        write_boxes(b, boxes, lines, left, wild, false, from).0.height == b.height,
        write_boxes(b, boxes, lines, left, wild, false, from).0.at(qx, qy) == if first_box(
            boxes,
            from,
            qx,
            qy,
        ) < boxes.len() {
            box_verdict(boxes, lines, left, wild, first_box(boxes, from, qx, qy))
        } else {
            b.at(qx, qy)
        },
    decreases boxes.len() - from,
{
    if from < boxes.len() {
        let value = box_verdict(boxes, lines, left, wild, from);
        let cells = boxes[from].cells;
        assert forall|t: int| 0 <= t < cells.len() implies b.in_range(
            (#[trigger] cells[t]).0 as int,
            cells[t].1 as int,
        ) by {
            assert(frontier_under(origin, boxes[from].cells[t], boxes[from].witnesses));
        }
        lemma_write_cells(b, cells, value, 0, qx, qy);
        let next = write_cells(b, cells, value, false, 0).0;
        lemma_write_boxes(origin, next, boxes, lines, left, wild, from + 1, qx, qy);
        if holds(cells, 0, qx, qy) {
            // the cell lies in this box and in no later one
            let t = choose|t: int| 0 <= t < cells.len() && #[trigger] cells[t] == (
                qx as usize,
                qy as usize,
            );
            lemma_first_box_is_the_box(origin, boxes, from, from, t);
            lemma_first_box(boxes, from + 1, qx, qy);
            let later = first_box(boxes, from + 1, qx, qy);
            if later < boxes.len() {
                let u = choose|u: int|
                    0 <= u < boxes[later].cells.len() && #[trigger] boxes[later].cells[u] == (
                        qx as usize,
                        qy as usize,
                    );
                lemma_first_box_is_the_box(origin, boxes, from, later, u);
            }
        }
    }
}

/// What a sweep writes to a cell: to a frontier cell and to a wilderness
/// cell what it is given for them, to any other cell nothing.
pub open spec fn swept(
    cell: CellSafety,
    on_frontier: Option<CellSafety>,
    on_wild: Option<CellSafety>,
) -> CellSafety {
    match cell {
        CellSafety::Frontier => match on_frontier {
            Some(value) => value,
            None => cell,
        },
        CellSafety::Wilderness => match on_wild {
            Some(value) => value,
            None => cell,
        },
        _ => cell,
    }
}

/// A sweep from `(x, y)` on that is not cut short writes to every cell from
/// there on what it has for it, and leaves the cells before alone.
pub proof fn lemma_sweep(
    b: BoardModel,
    on_frontier: Option<CellSafety>,
    on_wild: Option<CellSafety>,
    x: int,
    y: int,
    qx: int,
    qy: int,
)
    requires
        b.wf(),
        b.width <= usize::MAX,
        b.height <= usize::MAX,
        b.in_range(qx, qy),
        0 <= x,
        0 <= y,
    ensures
        !sweep(b, on_frontier, on_wild, false, b.width, b.height, x, y).1,
        sweep(b, on_frontier, on_wild, false, b.width, b.height, x, y).0.at(qx, qy) == if qy > y
            || (qy == y && qx >= x) {
            swept(b.at(qx, qy), on_frontier, on_wild)
        } else {
            b.at(qx, qy)
        },
    decreases b.height - y, b.width - x,
{
    if y >= b.height {
    } else if x >= b.width {
        lemma_sweep(b, on_frontier, on_wild, 0, y + 1, qx, qy);
    } else {
        let value = match b.at(x, y) {
            CellSafety::Frontier => on_frontier,
            CellSafety::Wilderness => on_wild,
            _ => None,
        };
        match value {
            Some(v) => {
                lemma_write_cell(b, x as usize, y as usize, v, qx, qy);
                lemma_write_cell(b, x as usize, y as usize, v, x, y);
                let next = write_cell(b, x as usize, y as usize, v, false).0;
                lemma_sweep(next, on_frontier, on_wild, x + 1, y, qx, qy);
            },
            None => {
                lemma_sweep(b, on_frontier, on_wild, x + 1, y, qx, qy);
            },
        }
    }
}

/// On a board without a witness, a pass that is not cut short gives every
/// frontier cell and every wilderness cell the same chance: the mines that
/// are left, over the closed cells. Every other cell stays as it is.
pub proof fn lemma_uniform_outcome(b: BoardModel, x: int, y: int)
    requires
        b.wf(),
        b.width <= usize::MAX,
        b.height <= usize::MAX,
        b.in_range(x, y),
        board_witnesses(b).len() == 0,
    ensures
        engine(b, false).at(x, y) == {
            let closed = count_cells(b.cells, CellSafety::Frontier, b.cells.len() as int)
                + count_cells(b.cells, CellSafety::Wilderness, b.cells.len() as int);
            match b.at(x, y) {
                CellSafety::Frontier => verdict(mines_left(b), closed, true),
                CellSafety::Wilderness => verdict(mines_left(b), closed, false),
                other => other,
            }
        },
{
    let closed = count_cells(b.cells, CellSafety::Frontier, b.cells.len() as int) + count_cells(
        b.cells,
        CellSafety::Wilderness,
        b.cells.len() as int,
    );
    if closed == 0 {
        b.lemma_offset(x, y);
        lemma_counted(b.cells, b.offset(x, y), b.cells.len() as int);
    } else {
        lemma_sweep(
            b,
            Some(verdict(mines_left(b), closed, true)),
            Some(verdict(mines_left(b), closed, false)),
            0,
            0,
            x,
            y,
        );
    }
}

/// A cell that is there is counted.
pub proof fn lemma_counted(cells: Seq<CellSafety>, i: int, n: int)
    requires
        0 <= i < n <= cells.len(),
    ensures
        count_cells(cells, cells[i], n) > 0,
    decreases n,
{
    if i < n - 1 {
        lemma_counted(cells, i, n - 1);
    }
}

/// In boxes that group the frontier, the first box that holds a frontier
/// cell is the only one.
pub proof fn lemma_first_box_is_the_box(
    b: BoardModel,
    boxes: Seq<BoxModel>,
    from: int,
    j: int,
    t: int,
)
    requires
        grouped(b, boxes),
        0 <= from <= j < boxes.len(),
        0 <= t < boxes[j].cells.len(),
    ensures
        first_box(boxes, from, boxes[j].cells[t].0 as int, boxes[j].cells[t].1 as int) == j,
    decreases j - from,
{
    let cell = boxes[j].cells[t];
    assert(frontier_under(b, cell, boxes[j].witnesses));
    assert(cell == (cell.0 as int as usize, cell.1 as int as usize));
    if from < j {
        if holds(boxes[from].cells, 0, cell.0 as int, cell.1 as int) {
            let u = choose|u: int|
                0 <= u < boxes[from].cells.len() && #[trigger] boxes[from].cells[u] == (
                    cell.0 as int as usize,
                    cell.1 as int as usize,
                );
            assert(frontier_under(b, boxes[from].cells[u], boxes[from].witnesses));
            assert(boxes[from].witnesses != boxes[j].witnesses);
        } else {
            lemma_first_box_is_the_box(b, boxes, from + 1, j, t);
        }
    } else {
        assert(boxes[j].cells[t] == (cell.0 as int as usize, cell.1 as int as usize));
    }
}

/// On a board with witnesses and boxes, a pass that is not cut short gives
/// every cell of every box the verdict of the box, taken from the lines of
/// the whole frontier; every wilderness cell gets the verdict of the
/// wilderness; every cell that was settled stays as it is. Where the lines
/// leave no way to place the mines, nothing is written at all.
pub proof fn lemma_engine_outcome(b: BoardModel, x: int, y: int)
    requires
        b.wf(),
        b.width <= usize::MAX,
        b.height <= usize::MAX,
        b.in_range(x, y),
        board_witnesses(b).len() > 0,
        board_boxes(b).len() > 0,
    ensures
        ({
            let boxes = board_boxes(b);
            let left = mines_left(b);
            let wild = count_cells(b.cells, CellSafety::Wilderness, b.cells.len() as int);
            let lines = held_lines(board_witnesses(b), boxes, left);
            let total = total_weight(lines, left, wild, lines.len() as int);
            let after = engine(b, false);
            &&& total == 0 ==> after == b
            &&& total > 0 ==> match b.at(x, y) {
                CellSafety::Frontier => exists|j: int, t: int|
                    0 <= j < boxes.len() && 0 <= t < boxes[j].cells.len() && #[trigger] boxes[j].cells[t]
                        == (x as usize, y as usize) && after.at(x, y) == box_verdict(
                        boxes,
                        lines,
                        left,
                        wild,
                        j,
                    ),
                CellSafety::Wilderness => after.at(x, y) == verdict(
                    wild_weight(lines, left, wild, lines.len() as int),
                    wild * total,
                    false,
                ),
                other => after.at(x, y) == other,
            }
        }),
{
    let boxes = board_boxes(b);
    let left = mines_left(b);
    let wild = count_cells(b.cells, CellSafety::Wilderness, b.cells.len() as int);
    let lines = held_lines(board_witnesses(b), boxes, left);
    let total = total_weight(lines, left, wild, lines.len() as int);
    if total > 0 {
        lemma_boxes_group_the_frontier(b);
        lemma_write_boxes(b, b, boxes, lines, left, wild, 0, x, y);
        let next = write_boxes(b, boxes, lines, left, wild, false, 0).0;
        let on_wild = Some(
            verdict(wild_weight(lines, left, wild, lines.len() as int), wild * total, false),
        );
        if wild > 0 {
            lemma_sweep(next, None, on_wild, 0, 0, x, y);
        }
        match b.at(x, y) {
            CellSafety::Frontier => {
                assert(boxed(boxes, x, y));
                let (j, t) = choose|j: int, t: int|
                    0 <= j < boxes.len() && 0 <= t < boxes[j].cells.len() && #[trigger] boxes[j].cells[t]
                        == (x as usize, y as usize);
                lemma_first_box_is_the_box(b, boxes, 0, j, t);
                assert(first_box(boxes, 0, x, y) == j);
                lemma_verdict_settles(
                    crate::engine::solver::probability::box_weight(
                        lines,
                        j,
                        left,
                        wild,
                        lines.len() as int,
                    ),
                    boxes[j].cells.len() * total,
                    true,
                );
            },
            CellSafety::Wilderness => {
                // a wilderness cell lies in no box
                assert(first_box(boxes, 0, x, y) == boxes.len()) by {
                    lemma_no_box_for(b, boxes, 0, x, y);
                }
                b.lemma_offset(x, y);
                lemma_counted(b.cells, b.offset(x, y), b.cells.len() as int);
            },
            _ => {
                // a settled cell lies in no box
                lemma_no_box_for(b, boxes, 0, x, y);
            },
        }
    }
}

/// In boxes that group the frontier, no box holds a cell that is no
/// frontier cell.
pub proof fn lemma_no_box_for(b: BoardModel, boxes: Seq<BoxModel>, from: int, x: int, y: int)
    requires
        grouped(b, boxes),
        0 <= from,
        b.width <= usize::MAX,
        b.height <= usize::MAX,
        b.in_range(x, y),
        !(b.at(x, y) is Frontier),
    ensures
        first_box(boxes, from, x, y) == boxes.len(),
    decreases boxes.len() - from,
{
    if from < boxes.len() {
        if holds(boxes[from].cells, 0, x, y) {
            let u = choose|u: int|
                0 <= u < boxes[from].cells.len() && #[trigger] boxes[from].cells[u] == (
                    x as usize,
                    y as usize,
                );
            assert(frontier_under(b, boxes[from].cells[u], boxes[from].witnesses));
        }
        lemma_no_box_for(b, boxes, from + 1, x, y);
    }
}

} // verus!
