//! The mines add up: on every board, the mines that the lines of the whole
//! frontier count for the boxes, and the mines that they leave for the
//! cells away from the frontier, are the mines that are left, once for each
//! way to place them. The reported chances, each taken once for every cell
//! that it is reported for, therefore add up to the mines that are left.

use vstd::prelude::*;
use super::constraints::{board_boxes, board_witnesses, BoxModel, WitnessModel};
use super::conservation::{
    allocated, counted, lemma_fresh_sound, lemma_merge_lines_sound, sound, walk_end, walk_start,
    working_sound,
};
use super::hypotheses::{lemma_witnesses_are_proper, proper};
use super::lines::{
    crunch, crunch_below, merged, pair_all, pair_row, store, top_count, LineModel,
};
use super::probability::{
    box_weight, first_undone, held_lines, lemma_undone_update, line_weight, mines_left,
    next_witness, step, total_weight, traverse, undone_count, wild_weight, Progress,
};
use super::{count_cells, BoardModel, CellSafety};

verus! {

/// The counts that the line holds for the first `n` boxes, added up.
pub open spec fn box_total(pl: LineModel, n: int) -> nat
    decreases n,
{
    if n <= 0 {
        0
    } else {
        box_total(pl, n - 1) + pl.mine_box_count[n - 1]
    }
}

/// The counts of the line for all boxes add up to the mines of the line,
/// once for each of its placements.
pub open spec fn balanced(pl: LineModel) -> bool {
    box_total(pl, pl.mine_box_count.len() as int) == pl.mine_count * pl.solution_count
}

/// Every line speaks of `box_count` boxes and is balanced.
pub open spec fn all_balanced(lines: Seq<LineModel>, box_count: nat) -> bool {
    forall|i: int|
        0 <= i < lines.len() ==> (#[trigger] lines[i]).wf(box_count) && balanced(lines[i])
}

/// The counts of an exact line for the first `n` boxes are the mines that
/// it allocates to them, once for each placement.
pub proof fn lemma_exact_total(pl: LineModel, n: int)
    requires
        pl.mine_box_count.len() == pl.allocated_mines.len(),
        n <= pl.mine_box_count.len(),
        pl.exact(),
    ensures
        box_total(pl, n) == allocated(pl, n) * pl.solution_count,
    decreases n,
{
    if n > 0 {
        lemma_exact_total(pl, n - 1);
        let before = allocated(pl, n - 1);
        let here = pl.allocated_mines[n - 1];
        let sc = pl.solution_count;
        assert(pl.mine_box_count[n - 1] == here * sc);
        assert((before + here) * sc == before * sc + here * sc) by (nonlinear_arith);
    } else {
        assert(allocated(pl, n) * pl.solution_count == 0) by (nonlinear_arith)
            requires
                allocated(pl, n) == 0,
        ;
    }
}

/// A line that is exact and counts what it allocates is balanced.
pub proof fn lemma_sound_balanced(pl: LineModel, boxes: Seq<BoxModel>)
    requires
        pl.wf(boxes.len()),
        pl.exact(),
        counted(pl, boxes),
    ensures
        balanced(pl),
{
    lemma_exact_total(pl, boxes.len() as int);
}

/// The counts of two lines taken together are the counts of the one and of
/// the other.
pub proof fn lemma_absorb_total(a: LineModel, b: LineModel, n: int)
    requires
        n <= a.mine_box_count.len(),
    ensures
        box_total(a.absorb(b), n) == box_total(a, n) + box_total(b, n),
    decreases n,
{
    if n > 0 {
        lemma_absorb_total(a, b, n - 1);
    }
}

/// Two balanced lines with the same number of mines, taken together, are
/// balanced.
pub proof fn lemma_absorb_balanced(a: LineModel, b: LineModel, box_count: nat)
    requires
        a.wf(box_count),
        b.wf(box_count),
        balanced(a),
        balanced(b),
        a.mine_count == b.mine_count,
    ensures
        a.absorb(b).wf(box_count),
        balanced(a.absorb(b)),
        a.absorb(b).mine_count == a.mine_count,
{
    lemma_absorb_total(a, b, box_count as int);
    let mc = a.mine_count;
    let x = a.solution_count;
    let y = b.solution_count;
    assert(mc * (x + y) == mc * x + mc * y) by (nonlinear_arith);
}

/// The line that stands for a group of balanced lines is balanced.
pub proof fn lemma_merged_balanced(lines: Seq<LineModel>, count: nat, n: int, box_count: nat)
    requires
        all_balanced(lines, box_count),
        n <= lines.len(),
    ensures
        merged(lines, count, n) matches Some(line) ==> line.wf(box_count) && balanced(line)
            && line.mine_count == count,
    decreases n,
{
    if n > 0 {
        lemma_merged_balanced(lines, count, n - 1, box_count);
        assert(lines[n - 1].wf(box_count) && balanced(lines[n - 1]));
        if lines[n - 1].mine_count == count {
            if let Some(acc) = merged(lines, count, n - 1) {
                lemma_absorb_balanced(acc, lines[n - 1], box_count);
            }
        }
    }
}

/// Crunching balanced lines for the mine counts below `limit` gives
/// balanced lines.
pub proof fn lemma_crunch_below_balanced(lines: Seq<LineModel>, limit: nat, box_count: nat)
    requires
        all_balanced(lines, box_count),
    ensures
        all_balanced(crunch_below(lines, limit), box_count),
    decreases limit,
{
    if limit > 0 {
        lemma_crunch_below_balanced(lines, (limit - 1) as nat, box_count);
        lemma_merged_balanced(lines, (limit - 1) as nat, lines.len() as int, box_count);
    }
}

/// Crunching balanced lines gives balanced lines.
pub proof fn lemma_crunch_balanced(lines: Seq<LineModel>, box_count: nat)
    requires
        all_balanced(lines, box_count),
    ensures
        all_balanced(crunch(lines), box_count),
{
    if lines.len() > 0 {
        lemma_crunch_below_balanced(lines, top_count(lines, lines.len() as int) + 1, box_count);
    }
}

/// The counts of a pairing of two lines are the counts of each, once for
/// each placement of the other.
pub proof fn lemma_combine_total(w: LineModel, h: LineModel, box_count: nat, n: int)
    requires
        n <= box_count,
    ensures
        box_total(w.combine(h, box_count), n) == box_total(w, n) * h.solution_count + box_total(
            h,
            n,
        ) * w.solution_count,
    decreases n,
{
    if n > 0 {
        lemma_combine_total(w, h, box_count, n - 1);
        let a = box_total(w, n - 1);
        let b = box_total(h, n - 1);
        let x = w.mine_box_count[n - 1];
        let y = h.mine_box_count[n - 1];
        let s = w.solution_count;
        let t = h.solution_count;
        assert((a + x) * t + (b + y) * s == (a * t + b * s) + (x * t + y * s))
            by (nonlinear_arith);
    } else {
        assert(box_total(w, n) * h.solution_count + box_total(h, n) * w.solution_count == 0)
            by (nonlinear_arith)
            requires
                box_total(w, n) == 0,
                box_total(h, n) == 0,
        ;
    }
}

/// The pairing of two balanced lines is balanced.
pub proof fn lemma_combine_balanced(w: LineModel, h: LineModel, box_count: nat)
    requires
        w.wf(box_count),
        h.wf(box_count),
        balanced(w),
        balanced(h),
    ensures
        w.combine(h, box_count).wf(box_count),
        balanced(w.combine(h, box_count)),
{
    lemma_combine_total(w, h, box_count, box_count as int);
    let a = w.mine_count;
    let b = h.mine_count;
    let s = w.solution_count;
    let t = h.solution_count;
    assert((a * s) * t + (b * t) * s == (a + b) * (s * t)) by (nonlinear_arith);
}

/// The pairings of a balanced line with balanced lines are balanced.
pub proof fn lemma_pair_row_balanced(
    w: LineModel,
    held: Seq<LineModel>,
    max: nat,
    box_count: nat,
    n: int,
)
    requires
        w.wf(box_count),
        balanced(w),
        all_balanced(held, box_count),
        n <= held.len(),
    ensures
        all_balanced(pair_row(w, held, max, box_count, n), box_count),
    decreases n,
{
    if n > 0 {
        lemma_pair_row_balanced(w, held, max, box_count, n - 1);
        assert(held[n - 1].wf(box_count) && balanced(held[n - 1]));
        lemma_combine_balanced(w, held[n - 1], box_count);
    }
}

/// The pairings of balanced lines with balanced lines are balanced.
pub proof fn lemma_pair_all_balanced(
    ws: Seq<LineModel>,
    held: Seq<LineModel>,
    max: nat,
    box_count: nat,
    n: int,
)
    requires
        all_balanced(ws, box_count),
        all_balanced(held, box_count),
        n <= ws.len(),
    ensures
        all_balanced(pair_all(ws, held, max, box_count, n), box_count),
    decreases n,
{
    if n > 0 {
        lemma_pair_all_balanced(ws, held, max, box_count, n - 1);
        assert(ws[n - 1].wf(box_count) && balanced(ws[n - 1]));
        lemma_pair_row_balanced(ws[n - 1], held, max, box_count, held.len() as int);
        let prev = pair_all(ws, held, max, box_count, n - 1);
        let row = pair_row(ws[n - 1], held, max, box_count, held.len() as int);
        let all = pair_all(ws, held, max, box_count, n);
        assert(all == prev + row);
        assert forall|i: int| 0 <= i < all.len() implies (#[trigger] all[i]).wf(box_count)
            && balanced(all[i]) by {
            if i < prev.len() {
                assert(all[i] == prev[i]);
            } else {
                assert(all[i] == row[i - prev.len()]);
            }
        }
    }
}

/// Taking a finished part of the board in keeps the held lines balanced.
pub proof fn lemma_store_balanced(
    held: Seq<LineModel>,
    working: Seq<LineModel>,
    max: nat,
    box_count: nat,
)
    requires
        all_balanced(held, box_count),
        all_balanced(working, box_count),
    ensures
        all_balanced(store(held, working, max, box_count), box_count),
{
    let crunched = crunch(working);
    lemma_crunch_balanced(working, box_count);
    lemma_pair_all_balanced(crunched, held, max, box_count, crunched.len() as int);
    lemma_crunch_balanced(
        pair_all(crunched, held, max, box_count, crunched.len() as int),
        box_count,
    );
}

/// Sound lines are balanced.
pub proof fn lemma_working_balanced(p: Progress, boxes: Seq<BoxModel>, max: nat)
    requires
        p.box_done.len() == boxes.len(),
        working_sound(p, boxes, max),
    ensures
        all_balanced(p.working, boxes.len()),
{
    assert forall|i: int| 0 <= i < p.working.len() implies (#[trigger] p.working[i]).wf(
        boxes.len(),
    ) && balanced(p.working[i]) by {
        assert(sound(p.working[i], boxes, p.box_done));
        lemma_sound_balanced(p.working[i], boxes);
    }
}

/// Along the walk over the witnesses the lines in work stay sound and the
/// held lines stay balanced.
pub proof fn lemma_traverse_balanced(
    witnesses: Seq<WitnessModel>,
    boxes: Seq<BoxModel>,
    p: Progress,
    current: Option<usize>,
    max: nat,
)
    requires
        p.witness_done.len() == witnesses.len(),
        p.box_done.len() == boxes.len(),
        forall|i: int| 0 <= i < witnesses.len() ==> proper((#[trigger] witnesses[i]).boxes, boxes.len()),
        working_sound(p, boxes, max),
        all_balanced(p.held, boxes.len()),
    ensures
        traverse(witnesses, boxes, p, current, max).box_done.len() == boxes.len(),
        working_sound(traverse(witnesses, boxes, p, current, max), boxes, max),
        all_balanced(traverse(witnesses, boxes, p, current, max).held, boxes.len()),
    decreases undone_count(p.witness_done),
{
    if let Some(i) = current {
        if i < p.witness_done.len() && !p.witness_done[i as int] {
            let w = witnesses[i as int];
            let q = step(witnesses, boxes, p, i as int, max);
            lemma_undone_update(p.witness_done, i as int);
            assert(proper(w.boxes, boxes.len()));
            lemma_merge_lines_sound(p.working, w, boxes, p.box_done, max, p.working.len() as int);
            assert(working_sound(q, boxes, max));
            match next_witness(witnesses, q.witness_done, q.box_done, witnesses.len() as int) {
                Some(next) => {
                    lemma_traverse_balanced(witnesses, boxes, q, Some(next), max);
                },
                None => match first_undone(q.witness_done, 0) {
                    Some(next) => {
                        let r = Progress {
                            witness_done: q.witness_done,
                            box_done: q.box_done,
                            working: seq![LineModel::fresh(boxes.len())],
                            held: store(q.held, q.working, max, boxes.len()),
                        };
                        lemma_fresh_sound(boxes, q.box_done);
                        assert(r.working[0] == LineModel::fresh(q.box_done.len()));
                        lemma_working_balanced(q, boxes, max);
                        lemma_store_balanced(q.held, q.working, max, boxes.len());
                        lemma_traverse_balanced(witnesses, boxes, r, Some(next), max);
                    },
                    None => {},
                },
            }
        }
    }
}

/// The lines of the whole frontier of a board are balanced.
pub proof fn lemma_held_lines_balanced(b: BoardModel)
    requires
        board_boxes(b).len() <= usize::MAX,
    ensures
        all_balanced(
            held_lines(board_witnesses(b), board_boxes(b), mines_left(b)),
            board_boxes(b).len(),
        ),
{
    let witnesses = board_witnesses(b);
    let boxes = board_boxes(b);
    let left = mines_left(b);
    let start = walk_start(b);
    assert forall|i: int| 0 <= i < witnesses.len() implies proper(
        (#[trigger] witnesses[i]).boxes,
        boxes.len(),
    ) by {
        lemma_witnesses_are_proper(b, i);
    }
    lemma_fresh_sound(boxes, start.box_done);
    assert(start.working[0] == LineModel::fresh(start.box_done.len()));
    assert(working_sound(start, boxes, left));
    lemma_working_balanced(start, boxes, left);
    assert(start.held == start.working);
    lemma_traverse_balanced(witnesses, boxes, start, first_undone(start.witness_done, 0), left);
    let end = walk_end(b);
    lemma_working_balanced(end, boxes, left);
    lemma_store_balanced(end.held, end.working, left, boxes.len());
}

/// The box weights of the first `m` boxes, added up, counted over the
/// first `n` lines.
pub open spec fn frontier_weight(lines: Seq<LineModel>, m: int, left: nat, wild: nat, n: int) -> nat
    decreases m,
{
    if m <= 0 {
        0
    } else {
        frontier_weight(lines, m - 1, left, wild, n) + box_weight(lines, m - 1, left, wild, n)
    }
}

/// One more line adds its counts for the boxes, at its weight.
pub proof fn lemma_frontier_step(lines: Seq<LineModel>, m: int, left: nat, wild: nat, n: int)
    requires
        0 < n <= lines.len(),
    ensures
        frontier_weight(lines, m, left, wild, n) == frontier_weight(lines, m, left, wild, n - 1)
            + box_total(lines[n - 1], m) * line_weight(lines[n - 1], left, wild),
    decreases m,
{
    let w = line_weight(lines[n - 1], left, wild);
    if m > 0 {
        lemma_frontier_step(lines, m - 1, left, wild, n);
        let a = box_total(lines[n - 1], m - 1);
        let x = lines[n - 1].mine_box_count[m - 1];
        assert((a + x) * w == a * w + x * w) by (nonlinear_arith);
    } else {
        assert(box_total(lines[n - 1], m) * w == 0) by (nonlinear_arith)
            requires
                box_total(lines[n - 1], m) == 0,
        ;
    }
}

/// No line, no weight.
pub proof fn lemma_frontier_none(lines: Seq<LineModel>, m: int, left: nat, wild: nat)
    ensures
        frontier_weight(lines, m, left, wild, 0) == 0,
    decreases m,
{
    if m > 0 {
        lemma_frontier_none(lines, m - 1, left, wild);
    }
}

/// For balanced lines, the mines in the boxes and the mines away from the
/// frontier are the mines that are left, once for each way to place them.
pub proof fn lemma_weights_add_up(
    lines: Seq<LineModel>,
    box_count: nat,
    left: nat,
    wild: nat,
    n: int,
)
    requires
        all_balanced(lines, box_count),
        0 <= n <= lines.len(),
    ensures
        frontier_weight(lines, box_count as int, left, wild, n) + wild_weight(lines, left, wild, n)
            == left * total_weight(lines, left, wild, n),
    decreases n,
{
    if n > 0 {
        lemma_weights_add_up(lines, box_count, left, wild, n - 1);
        lemma_frontier_step(lines, box_count as int, left, wild, n);
        let l = lines[n - 1];
        assert(l.wf(box_count) && balanced(l));
        let w = line_weight(l, left, wild);
        let sc = l.solution_count;
        let mc = l.mine_count;
        let before = total_weight(lines, left, wild, n - 1);
        if w == 0 {
            assert(box_total(l, box_count as int) * w == 0) by (nonlinear_arith)
                requires
                    w == 0,
            ;
            assert(sc * ((left - mc) as nat) * w == 0) by (nonlinear_arith)
                requires
                    w == 0,
            ;
            assert(left * (before + sc * w) == left * before) by (nonlinear_arith)
                requires
                    w == 0,
            ;
        } else {
            assert(mc <= left);
            let rest = (left - mc) as nat;
            assert((mc * sc) * w + sc * rest * w + left * before == left * (before + sc * w))
                by (nonlinear_arith)
                requires
                    mc + rest == left,
            ;
        }
    } else {
        lemma_frontier_none(lines, box_count as int, left, wild);
        assert(left * total_weight(lines, left, wild, n) == 0) by (nonlinear_arith)
            requires
                total_weight(lines, left, wild, n) == 0,
        ;
    }
}

/// The mines add up: on every board, the weights from which the chances of
/// the boxes are taken, and the weight from which the chance of the cells
/// away from the frontier is taken, add up to the mines that are left times
/// the total weight. The chance of a box times the cells of the box, summed
/// over the boxes, and the chance of a cell away from the frontier times
/// the number of those cells, are together the mines that are left.
pub proof fn lemma_mines_add_up(b: BoardModel)
    requires
        board_boxes(b).len() <= usize::MAX,
    ensures
        ({
            let boxes = board_boxes(b);
            let left = mines_left(b);
            let wild = count_cells(b.cells, CellSafety::Wilderness, b.cells.len() as int);
            let lines = held_lines(board_witnesses(b), boxes, left);
            frontier_weight(lines, boxes.len() as int, left, wild, lines.len() as int)
                + wild_weight(lines, left, wild, lines.len() as int) == left * total_weight(
                lines,
                left,
                wild,
                lines.len() as int,
            )
        }),
{
    let boxes = board_boxes(b);
    let left = mines_left(b);
    let wild = count_cells(b.cells, CellSafety::Wilderness, b.cells.len() as int);
    let lines = held_lines(board_witnesses(b), boxes, left);
    lemma_held_lines_balanced(b);
    lemma_weights_add_up(lines, boxes.len(), left, wild, lines.len() as int);
}

} // verus!
