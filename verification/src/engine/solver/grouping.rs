//! What holds of the boxes of every board: they hold frontier cells and
//! nothing else, every frontier cell lies in one of them, all cells of a box
//! lie under the witnesses of the box, and no two boxes lie under the same
//! witnesses.

use vstd::prelude::*;
use super::constraints::{add_cell, board_boxes, boxes_before, cell_key, find_box, BoxModel};
use super::BoardModel;

verus! {

/// The cell `cell` is a frontier cell of the board that lies under the
/// witnesses `key`.
pub open spec fn frontier_under(b: BoardModel, cell: (usize, usize), key: Seq<usize>) -> bool {
    &&& b.in_range(cell.0 as int, cell.1 as int)
    &&& b.at(cell.0 as int, cell.1 as int) is Frontier
    &&& cell_key(b, cell.0 as int, cell.1 as int, 8) == key
}

/// The boxes group frontier cells by their witnesses: every cell of a box
/// is a frontier cell under the witnesses of the box, no box is empty, and
/// no two boxes lie under the same witnesses.
pub open spec fn grouped(b: BoardModel, boxes: Seq<BoxModel>) -> bool {
    &&& forall|j: int, t: int|
        0 <= j < boxes.len() && 0 <= t < boxes[j].cells.len() ==> frontier_under(
            b,
            #[trigger] boxes[j].cells[t],
            boxes[j].witnesses,
        )
    &&& forall|j: int| 0 <= j < boxes.len() ==> (#[trigger] boxes[j]).cells.len() > 0
    &&& forall|i: int, j: int|
        0 <= i < j < boxes.len() ==> (#[trigger] boxes[i]).witnesses != (#[trigger] boxes[j]).witnesses
}

/// The cell `(cx, cy)` lies in one of the boxes.
pub open spec fn boxed(boxes: Seq<BoxModel>, cx: int, cy: int) -> bool {
    exists|j: int, t: int|
        0 <= j < boxes.len() && 0 <= t < boxes[j].cells.len() && #[trigger] boxes[j].cells[t] == (
            cx as usize,
            cy as usize,
        )
}

/// Where `find_box` ends: at the first box from `from` on that lies under
/// `key`, or behind the last box.
pub proof fn lemma_find_box(boxes: Seq<BoxModel>, key: Seq<usize>, from: int)
    requires
        0 <= from <= boxes.len(),
    ensures
        from <= find_box(boxes, key, from) <= boxes.len(),
        find_box(boxes, key, from) < boxes.len() ==> boxes[find_box(boxes, key, from)].witnesses
            == key,
        forall|i: int|
            from <= i < find_box(boxes, key, from) ==> (#[trigger] boxes[i]).witnesses != key,
    decreases boxes.len() - from,
{
    if from < boxes.len() && boxes[from].witnesses != key {
        lemma_find_box(boxes, key, from + 1);
    }
}

/// Putting a frontier cell into its box keeps the boxes grouped, keeps in
/// its box every cell that was in one, and leaves the new cell in one.
pub proof fn lemma_add_cell(b: BoardModel, boxes: Seq<BoxModel>, cell: (usize, usize), key: Seq<usize>)
    requires
        grouped(b, boxes),
        frontier_under(b, cell, key),
    ensures
        grouped(b, add_cell(boxes, cell, key)),
        boxed(add_cell(boxes, cell, key), cell.0 as int, cell.1 as int),
        forall|cx: int, cy: int|
            boxed(boxes, cx, cy) ==> #[trigger] boxed(add_cell(boxes, cell, key), cx, cy),
{
    lemma_find_box(boxes, key, 0);
    let j = find_box(boxes, key, 0);
    let after = add_cell(boxes, cell, key);
    if j < boxes.len() {
        let grown = BoxModel { cells: boxes[j].cells.push(cell), witnesses: key };
        assert(after[j] == grown);
        assert forall|i: int, t: int|
            0 <= i < after.len() && 0 <= t < after[i].cells.len() implies frontier_under(
            b,
            #[trigger] after[i].cells[t],
            after[i].witnesses,
        ) by {
            if i == j {
                if t < boxes[j].cells.len() {
                    assert(after[i].cells[t] == boxes[j].cells[t]);
                }
            } else {
                assert(after[i] == boxes[i]);
                assert(frontier_under(b, boxes[i].cells[t], boxes[i].witnesses));
            }
        }
        assert forall|i: int| 0 <= i < after.len() implies (#[trigger] after[i]).cells.len()
            > 0 by {
            if i != j {
                assert(after[i] == boxes[i]);
            }
        }
        assert forall|i: int, k: int| 0 <= i < k < after.len() implies (#[trigger] after[i]).witnesses
            != (#[trigger] after[k]).witnesses by {
            assert(after[i].witnesses == boxes[i].witnesses);
            assert(after[k].witnesses == boxes[k].witnesses);
        }
        assert(after[j].cells[boxes[j].cells.len() as int] == cell);
        assert forall|cx: int, cy: int| boxed(boxes, cx, cy) implies #[trigger] boxed(
            after,
            cx,
            cy,
        ) by {
            let (i, t) = choose|i: int, t: int|
                0 <= i < boxes.len() && 0 <= t < boxes[i].cells.len() && #[trigger] boxes[i].cells[t]
                    == (cx as usize, cy as usize);
            if i == j {
                assert(after[i].cells[t] == boxes[i].cells[t]);
            } else {
                assert(after[i] == boxes[i]);
                assert(after[i].cells[t] == (cx as usize, cy as usize));
            }
        }
    } else {
        let fresh = BoxModel { cells: seq![cell], witnesses: key };
        let last = boxes.len() as int;
        assert(after[last] == fresh);
        assert forall|i: int, t: int|
            0 <= i < after.len() && 0 <= t < after[i].cells.len() implies frontier_under(
            b,
            #[trigger] after[i].cells[t],
            after[i].witnesses,
        ) by {
            if i < last {
                assert(after[i] == boxes[i]);
                assert(frontier_under(b, boxes[i].cells[t], boxes[i].witnesses));
            }
        }
        assert forall|i: int| 0 <= i < after.len() implies (#[trigger] after[i]).cells.len()
            > 0 by {
            if i < last {
                assert(after[i] == boxes[i]);
            }
        }
        assert forall|i: int, k: int| 0 <= i < k < after.len() implies (#[trigger] after[i]).witnesses
            != (#[trigger] after[k]).witnesses by {
            assert(after[i] == boxes[i]);
            if k < last {
                assert(after[k] == boxes[k]);
            }
        }
        assert(after[last].cells[0] == cell);
        assert forall|cx: int, cy: int| boxed(boxes, cx, cy) implies #[trigger] boxed(
            after,
            cx,
            cy,
        ) by {
            let (i, t) = choose|i: int, t: int|
                0 <= i < boxes.len() && 0 <= t < boxes[i].cells.len() && #[trigger] boxes[i].cells[t]
                    == (cx as usize, cy as usize);
            assert(after[i] == boxes[i]);
            assert(after[i].cells[t] == (cx as usize, cy as usize));
        }
    }
}

/// The boxes of the cells before `(x, y)` are grouped, and every frontier
/// cell before `(x, y)` lies in one of them.
pub proof fn lemma_boxes_before(b: BoardModel, x: int, y: int)
    requires
        b.wf(),
        b.width <= usize::MAX,
        b.height <= usize::MAX,
        0 <= x <= b.width,
        0 <= y < b.height || (y == b.height && x == 0),
    ensures
        grouped(b, boxes_before(b, x, y)),
        forall|cx: int, cy: int|
            b.in_range(cx, cy) && (cy < y || (cy == y && cx < x)) && b.at(cx, cy) is Frontier
                ==> #[trigger] boxed(boxes_before(b, x, y), cx, cy),
    decreases y, x,
{
    if x > 0 {
        lemma_boxes_before(b, x - 1, y);
        let prev = boxes_before(b, x - 1, y);
        if b.at(x - 1, y) is Frontier {
            let cell = ((x - 1) as usize, y as usize);
            lemma_add_cell(b, prev, cell, cell_key(b, x - 1, y, 8));
        }
    } else if y > 0 {
        lemma_boxes_before(b, b.width as int, y - 1);
    }
}

/// The boxes of a board group its frontier cells by their witnesses: every
/// frontier cell lies in a box, every cell of a box is a frontier cell, two
/// cells of one box lie under the same witnesses, and two boxes never do.
pub proof fn lemma_boxes_group_the_frontier(b: BoardModel)
    requires
        b.wf(),
        b.width <= usize::MAX,
        b.height <= usize::MAX,
    ensures
        grouped(b, board_boxes(b)),
        forall|cx: int, cy: int|
            b.in_range(cx, cy) && b.at(cx, cy) is Frontier ==> #[trigger] boxed(
                board_boxes(b),
                cx,
                cy,
            ),
{
    lemma_boxes_before(b, 0, b.height as int);
}

} // verus!
