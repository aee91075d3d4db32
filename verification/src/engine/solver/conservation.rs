//! Conservation: the counts per box that the lines carry are the mines that
//! the lines allocate, once for each placement, so the chance that is
//! reported for a box is the mean number of mines in the box over all
//! placements, divided by the size of the box.

use vstd::prelude::*;
use crate::base::binomial::binomial;
use super::constraints::{board_boxes, board_witnesses, BoxModel, WitnessModel};
use super::hypotheses::{
    lemma_distribute_extends, lemma_undone_proper, lemma_witnesses_are_proper, listed, proper,
};
use super::laws::lemma_crunch_conserves;
use super::lines::{
    crunch, crunch_below, distribute, distribute_from, lemma_merged_wf, lines_wf, pair_all,
    pair_row, store, top_count, LineModel,
};
use super::probability::{
    box_verdict, box_weight, first_undone, held_lines, lemma_undone_update, line_weight,
    mark_done, merge_line, merge_lines, mines_left, next_witness, placed, step, total_weight,
    traverse, undone_boxes, undone_count, verdict, Progress,
};
use super::{count_cells, BoardModel, CellSafety};

verus! {

/// The line has no mines in the boxes that are not yet processed.
pub open spec fn rests(pl: LineModel, done: Seq<bool>) -> bool {
    forall|b: int| 0 <= b < done.len() && !done[b] ==> #[trigger] pl.allocated_mines[b] == 0
}

/// The number of ways to choose, in each of the first `n` boxes, the cells
/// for the mines that the line allocates to the box.
pub open spec fn placements(pl: LineModel, boxes: Seq<BoxModel>, n: int) -> nat
    decreases n,
{
    if n <= 0 {
        1
    } else {
        placements(pl, boxes, n - 1) * binomial(boxes[n - 1].cells.len(), pl.allocated_mines[n - 1])
    }
}

/// The mines that the line allocates to the first `n` boxes.
pub open spec fn allocated(pl: LineModel, n: int) -> nat
    decreases n,
{
    if n <= 0 {
        0
    } else {
        allocated(pl, n - 1) + pl.allocated_mines[n - 1]
    }
}

/// The line counts what it allocates: its mines are the mines in its
/// boxes, and its solutions are the ways to lay them on the cells of the
/// boxes.
pub open spec fn counted(pl: LineModel, boxes: Seq<BoxModel>) -> bool {
    &&& pl.mine_count == allocated(pl, boxes.len() as int)
    &&& pl.solution_count == placements(pl, boxes, boxes.len() as int)
}

/// A line as the walk over the witnesses keeps it: it speaks of every box,
/// it counts what it allocates, its counts per box are exact, and it has
/// nothing in the boxes that the walk has not reached.
pub open spec fn sound(pl: LineModel, boxes: Seq<BoxModel>, done: Seq<bool>) -> bool {
    pl.wf(done.len()) && pl.exact() && rests(pl, done) && counted(pl, boxes)
}

/// A line that allocates nothing places no mine, in one way.
pub proof fn lemma_nothing_allocated(pl: LineModel, boxes: Seq<BoxModel>, n: int)
    requires
        n <= pl.allocated_mines.len(),
        forall|i: int| 0 <= i < n ==> #[trigger] pl.allocated_mines[i] == 0,
    ensures
        allocated(pl, n) == 0,
        placements(pl, boxes, n) == 1,
    decreases n,
{
    if n > 0 {
        lemma_nothing_allocated(pl, boxes, n - 1);
        assert(pl.allocated_mines[n - 1] == 0);
        assert(binomial(boxes[n - 1].cells.len(), 0) == 1);
        assert(placements(pl, boxes, n) == placements(pl, boxes, n - 1) * 1);
    }
}

/// The line that places nothing is sound.
pub proof fn lemma_fresh_sound(boxes: Seq<BoxModel>, done: Seq<bool>)
    requires
        done.len() == boxes.len(),
    ensures
        sound(LineModel::fresh(done.len()), boxes, done),
{
    let pl = LineModel::fresh(done.len());
    assert forall|i: int| 0 <= i < pl.mine_box_count.len() implies #[trigger] pl.mine_box_count[i]
        == pl.allocated_mines[i] * pl.solution_count by {
        assert(0 * 1 == 0);
    }
    lemma_nothing_allocated(pl, boxes, boxes.len() as int);
}

/// Allocating mines to a box that has none adds the mines and multiplies
/// the ways by the ways to lay them in the box.
pub proof fn lemma_allocate(pl: LineModel, boxes: Seq<BoxModel>, b: int, mines: nat, n: int)
    requires
        pl.allocated_mines.len() == boxes.len(),
        0 <= b < boxes.len(),
        0 <= n <= boxes.len(),
        pl.allocated_mines[b] == 0,
    ensures
        ({
            let l = pl.extend(b, boxes[b].cells.len(), mines);
            &&& allocated(l, n) == allocated(pl, n) + if b < n {
                mines
            } else {
                0
            }
            &&& placements(l, boxes, n) == placements(pl, boxes, n) * if b < n {
                binomial(boxes[b].cells.len(), mines)
            } else {
                1
            }
        }),
    decreases n,
{
    let l = pl.extend(b, boxes[b].cells.len(), mines);
    let ways = binomial(boxes[b].cells.len(), mines);
    if n > 0 {
        lemma_allocate(pl, boxes, b, mines, n - 1);
        let before = placements(pl, boxes, n - 1);
        if b == n - 1 {
            assert(binomial(boxes[b].cells.len(), 0) == 1);
            assert(placements(l, boxes, n) == (before * 1) * ways);
            assert(placements(pl, boxes, n) == before * 1);
        } else {
            let here = binomial(boxes[n - 1].cells.len(), pl.allocated_mines[n - 1]);
            assert(l.allocated_mines[n - 1] == pl.allocated_mines[n - 1]);
            if b < n - 1 {
                assert((before * ways) * here == (before * here) * ways) by (nonlinear_arith);
            } else {
                assert((before * 1) * here == (before * here) * 1) by (nonlinear_arith);
            }
        }
    } else {
        assert(placements(pl, boxes, n) * 1 == 1);
    }
}

/// Putting mines into a box that has none keeps the line counting what it
/// allocates.
pub proof fn lemma_extend_counted(pl: LineModel, boxes: Seq<BoxModel>, b: int, mines: nat)
    requires
        pl.wf(boxes.len()),
        0 <= b < boxes.len(),
        counted(pl, boxes),
        pl.allocated_mines[b] == 0,
    ensures
        counted(pl.extend(b, boxes[b].cells.len(), mines), boxes),
{
    lemma_allocate(pl, boxes, b, mines, boxes.len() as int);
}

/// Putting mines into a box that has none keeps the counts exact.
pub proof fn lemma_extend_exact(pl: LineModel, b: int, size: nat, mines: nat)
    requires
        pl.mine_box_count.len() == pl.allocated_mines.len(),
        0 <= b < pl.mine_box_count.len(),
        pl.exact(),
        pl.allocated_mines[b] == 0,
    ensures
        pl.extend(b, size, mines).exact(),
{
    let l = pl.extend(b, size, mines);
    assert forall|i: int| 0 <= i < l.mine_box_count.len() implies #[trigger] l.mine_box_count[i]
        == l.allocated_mines[i] * l.solution_count by {
        let sc = pl.solution_count;
        let w = binomial(size, mines);
        assert(l.solution_count == sc * w);
        assert(pl.mine_box_count[i] == pl.allocated_mines[i] * sc);
        if i == b {
            assert(pl.mine_box_count[i] == 0) by (nonlinear_arith)
                requires
                    pl.mine_box_count[i] == pl.allocated_mines[i] * sc,
                    pl.allocated_mines[i] == 0,
            ;
            assert((0 + mines * sc) * w == mines * (sc * w)) by (nonlinear_arith);
        } else {
            let a = pl.allocated_mines[i];
            assert((a * sc) * w == a * (sc * w)) by (nonlinear_arith);
        }
    }
}

/// Every line that comes of distributing mines over boxes that have none
/// has exact counts and counts what it allocates.
pub proof fn lemma_distribute_sound(
    pl: LineModel,
    boxes: Seq<BoxModel>,
    missing: nat,
    ids: Seq<usize>,
    index: nat,
    max: nat,
    l: LineModel,
)
    requires
        pl.wf(boxes.len()),
        proper(ids, boxes.len()),
        pl.exact(),
        counted(pl, boxes),
        forall|t: int| index <= t < ids.len() ==> pl.allocated_mines[#[trigger] ids[t] as int] == 0,
        distribute(pl, boxes, missing, ids, index, max).contains(l),
    ensures
        l.exact(),
        counted(l, boxes),
    decreases ids.len() - index, 1nat, 0nat,
{
    let b = ids[index as int] as int;
    let size = boxes[b].cells.len();
    if index + 1 == ids.len() {
        assert(l == pl.extend(b, size, missing));
        assert(ids[index as int] < boxes.len());
        lemma_extend_exact(pl, b, size, missing);
        lemma_extend_counted(pl, boxes, b, missing);
    } else {
        lemma_distribute_from_sound(pl, boxes, missing, ids, index, max, 0, l);
    }
}

/// Every line that comes of distributing with at least `mines` mines in the
/// box `ids[index]` has exact counts and counts what it allocates.
pub proof fn lemma_distribute_from_sound(
    pl: LineModel,
    boxes: Seq<BoxModel>,
    missing: nat,
    ids: Seq<usize>,
    index: nat,
    max: nat,
    mines: nat,
    l: LineModel,
)
    requires
        pl.wf(boxes.len()),
        proper(ids, boxes.len()),
        pl.exact(),
        counted(pl, boxes),
        forall|t: int| index <= t < ids.len() ==> pl.allocated_mines[#[trigger] ids[t] as int] == 0,
        index + 1 < ids.len(),
        distribute_from(pl, boxes, missing, ids, index, max, mines).contains(l),
    ensures
        l.exact(),
        counted(l, boxes),
    decreases ids.len() - index, 0nat, missing + 1 - mines,
{
    let b = ids[index as int] as int;
    let size = boxes[b].cells.len();
    if mines > missing || mines > size {
    } else {
        let step = pl.extend(b, size, mines);
        let head = distribute(step, boxes, (missing - mines) as nat, ids, index + 1, max);
        let tail = distribute_from(pl, boxes, missing, ids, index, max, mines + 1);
        let i = choose|i: int| 0 <= i < (head + tail).len() && (head + tail)[i] == l;
        if i < head.len() {
            assert(head[i] == l);
            assert(ids[index as int] < boxes.len());
            lemma_extend_exact(pl, b, size, mines);
            lemma_extend_counted(pl, boxes, b, mines);
            assert forall|t: int| index + 1 <= t < ids.len() implies step.allocated_mines[#[trigger] ids[t] as int]
                == 0 by {
                assert(ids[index as int] != ids[t]);
                assert(ids[t] < boxes.len());
            }
            lemma_distribute_sound(step, boxes, (missing - mines) as nat, ids, index + 1, max, l);
        } else {
            assert(tail[i - head.len()] == l);
            lemma_distribute_from_sound(pl, boxes, missing, ids, index, max, mines + 1, l);
        }
    }
}

/// A box is marked once it is listed, and stays marked.
pub proof fn lemma_mark_done(done: Seq<bool>, ids: Seq<usize>, n: int, box_count: nat)
    requires
        done.len() == box_count,
        0 <= n <= ids.len(),
        forall|t: int| 0 <= t < ids.len() ==> #[trigger] ids[t] < box_count,
    ensures
        mark_done(done, ids, n).len() == box_count,
        forall|b: int|
            0 <= b < box_count ==> (#[trigger] mark_done(done, ids, n)[b] <==> done[b] || exists|
                t: int,
            |
                0 <= t < n && #[trigger] ids[t] == b),
    decreases n,
{
    if n > 0 {
        lemma_mark_done(done, ids, n - 1, box_count);
        let prev = mark_done(done, ids, n - 1);
        let now = mark_done(done, ids, n);
        assert(ids[n - 1] < box_count);
        assert forall|b: int| 0 <= b < box_count implies (#[trigger] now[b] <==> done[b] || exists|
            t: int,
        |
            0 <= t < n && #[trigger] ids[t] == b) by {
            if b == ids[n - 1] {
                assert(0 <= n - 1 < n && ids[n - 1] == b);
            } else {
                assert(now[b] == prev[b]);
                if exists|t: int| 0 <= t < n && #[trigger] ids[t] == b {
                    let t = choose|t: int| 0 <= t < n && #[trigger] ids[t] == b;
                    assert(0 <= t < n - 1 && ids[t] == b);
                }
                if exists|t: int| 0 <= t < n - 1 && #[trigger] ids[t] == b {
                    let t = choose|t: int| 0 <= t < n - 1 && #[trigger] ids[t] == b;
                    assert(0 <= t < n && ids[t] == b);
                }
            }
        }
    }
}

/// The processed boxes after the witness `w` has been taken in.
pub open spec fn done_after(w: WitnessModel, done: Seq<bool>) -> Seq<bool> {
    let fresh = undone_boxes(w.boxes, done, w.boxes.len() as int);
    mark_done(done, fresh, fresh.len() as int)
}

/// Taking a witness in keeps a line sound: every line that comes of it has
/// exact counts, counts what it allocates, and has nothing in the boxes
/// that are still not processed.
pub proof fn lemma_merge_line_sound(
    pl: LineModel,
    w: WitnessModel,
    boxes: Seq<BoxModel>,
    done: Seq<bool>,
    max: nat,
    l: LineModel,
)
    requires
        done.len() == boxes.len(),
        proper(w.boxes, boxes.len()),
        sound(pl, boxes, done),
        merge_line(pl, w, boxes, done, max).contains(l),
    ensures
        sound(l, boxes, done_after(w, done)),
        done_after(w, done).len() == boxes.len(),
        pl.mine_count <= max ==> l.mine_count <= max,
{
    let n = w.boxes.len() as int;
    let have = placed(pl, w.boxes, done, n);
    let fresh = undone_boxes(w.boxes, done, n);
    let after = done_after(w, done);
    lemma_undone_proper(w.boxes, done, n, boxes.len());
    lemma_mark_done(done, fresh, fresh.len() as int, boxes.len());
    if have > w.mines {
    } else if have == w.mines {
        assert(merge_line(pl, w, boxes, done, max) == seq![pl]);
        assert(l == pl);
        assert forall|b: int| 0 <= b < after.len() && !after[b] implies #[trigger] l.allocated_mines[b]
            == 0 by {
            assert(!done[b]);
        }
    } else {
        let missing = (w.mines - have) as nat;
        assert forall|t: int| 0 <= t < fresh.len() implies pl.allocated_mines[#[trigger] fresh[t] as int]
            == 0 by {
            let b = fresh[t] as int;
            assert(listed(fresh, 0, b));
            assert(fresh[t] < boxes.len());
            let u = choose|u: int| 0 <= u < n && #[trigger] w.boxes[u] == b && !done[b];
            assert(!done[b]);
        }
        lemma_distribute_sound(pl, boxes, missing, fresh, 0, max, l);
        lemma_distribute_extends(pl, boxes, missing, fresh, 0, max, l);
        assert forall|b: int| 0 <= b < after.len() && !after[b] implies #[trigger] l.allocated_mines[b]
            == 0 by {
            assert(!done[b]);
            if listed(fresh, 0, b) {
                let t = choose|t: int| 0 <= t < fresh.len() && #[trigger] fresh[t] == b;
                assert(after[b]);
            }
            assert(l.allocated_mines[b] == pl.allocated_mines[b]);
        }
    }
}

/// Exactness of the lines: where the lines are sound before a witness is
/// taken in, every line that comes of taking it in is sound after it. Its
/// count for each box is the mines that it allocates to the box, times the
/// number of its placements, and that number is the number of ways to lay
/// the allocated mines on the cells of the boxes.
pub proof fn lemma_merge_lines_sound(
    lines: Seq<LineModel>,
    w: WitnessModel,
    boxes: Seq<BoxModel>,
    done: Seq<bool>,
    max: nat,
    n: int,
)
    requires
        done.len() == boxes.len(),
        proper(w.boxes, boxes.len()),
        n <= lines.len(),
        forall|i: int| 0 <= i < n ==> sound(#[trigger] lines[i], boxes, done),
    ensures
        done_after(w, done).len() == boxes.len(),
        forall|k: int|
            0 <= k < merge_lines(lines, w, boxes, done, max, n).len() ==> sound(
                #[trigger] merge_lines(lines, w, boxes, done, max, n)[k],
                boxes,
                done_after(w, done),
            ),
        (forall|i: int| 0 <= i < n ==> (#[trigger] lines[i]).mine_count <= max) ==> forall|k: int|
            0 <= k < merge_lines(lines, w, boxes, done, max, n).len() ==> (#[trigger] merge_lines(
                lines,
                w,
                boxes,
                done,
                max,
                n,
            )[k]).mine_count <= max,
    decreases n,
{
    lemma_undone_proper(w.boxes, done, w.boxes.len() as int, boxes.len());
    lemma_mark_done(
        done,
        undone_boxes(w.boxes, done, w.boxes.len() as int),
        undone_boxes(w.boxes, done, w.boxes.len() as int).len() as int,
        boxes.len(),
    );
    if n > 0 {
        lemma_merge_lines_sound(lines, w, boxes, done, max, n - 1);
        let prev = merge_lines(lines, w, boxes, done, max, n - 1);
        let more = merge_line(lines[n - 1], w, boxes, done, max);
        let all = merge_lines(lines, w, boxes, done, max, n);
        assert(all == prev + more);
        assert forall|k: int| 0 <= k < all.len() implies sound(
            #[trigger] all[k],
            boxes,
            done_after(w, done),
        ) by {
            if k < prev.len() {
                assert(all[k] == prev[k]);
            } else {
                assert(all[k] == more[k - prev.len()]);
                assert(more.contains(all[k]));
                assert(sound(lines[n - 1], boxes, done));
                lemma_merge_line_sound(lines[n - 1], w, boxes, done, max, all[k]);
            }
        }
        if forall|i: int| 0 <= i < n ==> (#[trigger] lines[i]).mine_count <= max {
            assert forall|k: int| 0 <= k < all.len() implies (#[trigger] all[k]).mine_count
                <= max by {
                if k < prev.len() {
                    assert(all[k] == prev[k]);
                } else {
                    assert(all[k] == more[k - prev.len()]);
                    assert(more.contains(all[k]));
                    assert(sound(lines[n - 1], boxes, done));
                    assert(lines[n - 1].mine_count <= max);
                    lemma_merge_line_sound(lines[n - 1], w, boxes, done, max, all[k]);
                }
            }
        }
    }
}

/// The mines that the first `n` lines allocate to box `b`, each line counted
/// once for each of its placements and each way to place the other mines
/// away from the frontier.
pub open spec fn allocated_weight(lines: Seq<LineModel>, b: int, left: nat, wild: nat, n: int) -> nat
    decreases n,
{
    if n <= 0 {
        0
    } else {
        allocated_weight(lines, b, left, wild, n - 1) + lines[n - 1].allocated_mines[b] * lines[n
            - 1].solution_count * line_weight(lines[n - 1], left, wild)
    }
}

/// For lines with exact counts the box weight is the allocated weight.
pub proof fn lemma_exact_weight(lines: Seq<LineModel>, b: int, left: nat, wild: nat, n: int)
    requires
        n <= lines.len(),
        0 <= b,
        forall|i: int|
            0 <= i < n ==> (#[trigger] lines[i]).exact() && b < lines[i].mine_box_count.len(),
    ensures
        box_weight(lines, b, left, wild, n) == allocated_weight(lines, b, left, wild, n),
    decreases n,
{
    if n > 0 {
        lemma_exact_weight(lines, b, left, wild, n - 1);
        let pl = lines[n - 1];
        assert(pl.exact());
        assert(pl.mine_box_count[b] == pl.allocated_mines[b] * pl.solution_count);
    }
}

/// Conservation: for the lines that come of taking a witness in, the mines
/// that the lines allocate to a box, counted once for each placement, add up
/// to the box weight of the crunched lines, and the placements add up to
/// their total weight. The chance that is reported for a cell of the box is
/// the one over the other, divided by the size of the box: the mean number
/// of mines in the box, shared out over its cells.
pub proof fn lemma_conservation(
    lines: Seq<LineModel>,
    w: WitnessModel,
    boxes: Seq<BoxModel>,
    done: Seq<bool>,
    max: nat,
    b: int,
    left: nat,
    wild: nat,
)
    requires
        done.len() == boxes.len(),
        proper(w.boxes, boxes.len()),
        forall|i: int| 0 <= i < lines.len() ==> sound(#[trigger] lines[i], boxes, done),
        0 <= b < boxes.len(),
    ensures
        ({
            let merged = merge_lines(lines, w, boxes, done, max, lines.len() as int);
            &&& box_weight(crunch(merged), b, left, wild, crunch(merged).len() as int)
                == allocated_weight(merged, b, left, wild, merged.len() as int)
            &&& total_weight(crunch(merged), left, wild, crunch(merged).len() as int)
                == total_weight(merged, left, wild, merged.len() as int)
        }),
{
    let merged = merge_lines(lines, w, boxes, done, max, lines.len() as int);
    lemma_merge_lines_sound(lines, w, boxes, done, max, lines.len() as int);
    let fresh = undone_boxes(w.boxes, done, w.boxes.len() as int);
    lemma_undone_proper(w.boxes, done, w.boxes.len() as int, boxes.len());
    lemma_mark_done(done, fresh, fresh.len() as int, boxes.len());
    assert forall|i: int| 0 <= i < merged.len() implies (#[trigger] merged[i]).wf(boxes.len()) by {
        assert(sound(merged[i], boxes, done_after(w, done)));
    }
    assert(lines_wf(merged, boxes.len()));
    assert forall|i: int| 0 <= i < merged.len() implies (#[trigger] merged[i]).exact() && b
        < merged[i].mine_box_count.len() by {
        assert(sound(merged[i], boxes, done_after(w, done)));
    }
    lemma_exact_weight(merged, b, left, wild, merged.len() as int);
    lemma_crunch_conserves(merged, b, left, wild, boxes.len());
}

/// The lines in work are sound, and none places more than `max` mines.
pub open spec fn working_sound(p: Progress, boxes: Seq<BoxModel>, max: nat) -> bool {
    forall|k: int|
        0 <= k < p.working.len() ==> sound(#[trigger] p.working[k], boxes, p.box_done)
            && p.working[k].mine_count <= max
}

/// Exactness along the walk: where the lines in work are sound, they are
/// sound wherever the walk over the witnesses ends. So every line that the
/// engine itself builds counts for each box the mines that it allocates to
/// the box, once for each of its placements.
pub proof fn lemma_traverse_sound(
    witnesses: Seq<WitnessModel>,
    boxes: Seq<BoxModel>,
    p: Progress,
    current: Option<usize>,
    max: nat,
)
    requires
        p.witness_done.len() == witnesses.len(),
        p.box_done.len() == boxes.len(),
        forall|i: int| 0 <= i < witnesses.len() ==> proper((#[trigger] witnesses[i]).boxes, boxes.len()),
        working_sound(p, boxes, max),
    ensures
        traverse(witnesses, boxes, p, current, max).box_done.len() == boxes.len(),
        working_sound(traverse(witnesses, boxes, p, current, max), boxes, max),
    decreases undone_count(p.witness_done),
{
    if let Some(i) = current {
        if i < p.witness_done.len() && !p.witness_done[i as int] {
            let w = witnesses[i as int];
            let q = step(witnesses, boxes, p, i as int, max);
            lemma_undone_update(p.witness_done, i as int);
            assert(proper(w.boxes, boxes.len()));
            lemma_merge_lines_sound(p.working, w, boxes, p.box_done, max, p.working.len() as int);
            assert(q.box_done == done_after(w, p.box_done));
            assert(working_sound(q, boxes, max));
            match next_witness(witnesses, q.witness_done, q.box_done, witnesses.len() as int) {
                Some(next) => {
                    lemma_traverse_sound(witnesses, boxes, q, Some(next), max);
                },
                None => match first_undone(q.witness_done, 0) {
                    Some(next) => {
                        let r = Progress {
                            witness_done: q.witness_done,
                            box_done: q.box_done,
                            working: seq![LineModel::fresh(boxes.len())],
                            held: store(q.held, q.working, max, boxes.len()),
                        };
                        lemma_fresh_sound(boxes, q.box_done);
                        assert(r.working[0] == LineModel::fresh(q.box_done.len()));
                        lemma_traverse_sound(witnesses, boxes, r, Some(next), max);
                    },
                    None => {},
                },
            }
        }
    }
}

/// No line places more mines than the largest mine count.
pub proof fn lemma_top_count(lines: Seq<LineModel>, n: int, max: nat)
    requires
        n <= lines.len(),
        forall|i: int| 0 <= i < n ==> (#[trigger] lines[i]).mine_count <= max,
    ensures
        top_count(lines, n) <= max,
    decreases n,
{
    if n > 0 {
        lemma_top_count(lines, n - 1, max);
    }
}

/// Crunching keeps the lines within the mines that are left.
pub proof fn lemma_crunch_within(lines: Seq<LineModel>, limit: nat, box_count: nat)
    requires
        lines_wf(lines, box_count),
    ensures
        lines_wf(crunch_below(lines, limit), box_count),
        forall|k: int|
            0 <= k < crunch_below(lines, limit).len() ==> (#[trigger] crunch_below(
                lines,
                limit,
            )[k]).mine_count < limit,
    decreases limit,
{
    if limit > 0 {
        lemma_crunch_within(lines, (limit - 1) as nat, box_count);
        lemma_merged_wf(lines, (limit - 1) as nat, lines.len() as int, box_count);
    }
}

/// Pairing lines with the one line that places nothing gives the lines
/// back, but for their allocation.
pub proof fn lemma_pair_with_fresh(ws: Seq<LineModel>, max: nat, box_count: nat, n: int)
    requires
        0 <= n <= ws.len(),
        lines_wf(ws, box_count),
        forall|i: int| 0 <= i < n ==> (#[trigger] ws[i]).mine_count <= max,
    ensures
        ({
            let pairs = pair_all(ws, seq![LineModel::fresh(box_count)], max, box_count, n);
            &&& pairs.len() == n
            &&& forall|k: int|
                0 <= k < n ==> {
                    &&& (#[trigger] pairs[k]).wf(box_count)
                    &&& pairs[k].mine_count == ws[k].mine_count
                    &&& pairs[k].solution_count == ws[k].solution_count
                    &&& pairs[k].mine_box_count == ws[k].mine_box_count
                }
        }),
    decreases n,
{
    if n > 0 {
        lemma_pair_with_fresh(ws, max, box_count, n - 1);
        let held = seq![LineModel::fresh(box_count)];
        let w = ws[n - 1];
        assert(w.wf(box_count));
        assert(pair_row(w, held, max, box_count, 0) == Seq::<LineModel>::empty());
        let row = pair_row(w, held, max, box_count, 1);
        let pair = w.combine(held[0], box_count);
        assert(row == Seq::<LineModel>::empty().push(pair));
        assert(pair.solution_count == w.solution_count) by (nonlinear_arith)
            requires
                pair.solution_count == w.solution_count * 1,
        ;
        assert forall|i: int| 0 <= i < box_count implies pair.mine_box_count[i]
            == w.mine_box_count[i] by {
            assert(pair.mine_box_count[i] == w.mine_box_count[i] * 1 + 0 * w.solution_count);
            assert(w.mine_box_count[i] * 1 + 0 * w.solution_count == w.mine_box_count[i])
                by (nonlinear_arith);
        }
        assert(pair.mine_box_count =~= w.mine_box_count);
    }
}

/// Lines that agree in all but their allocation weigh the same.
pub proof fn lemma_weight_agree(
    a: Seq<LineModel>,
    b: Seq<LineModel>,
    which: int,
    left: nat,
    wild: nat,
    n: int,
)
    requires
        n <= a.len(),
        n <= b.len(),
        forall|k: int|
            0 <= k < n ==> (#[trigger] a[k]).mine_count == b[k].mine_count && a[k].solution_count
                == b[k].solution_count && a[k].mine_box_count == b[k].mine_box_count,
    ensures
        total_weight(a, left, wild, n) == total_weight(b, left, wild, n),
        box_weight(a, which, left, wild, n) == box_weight(b, which, left, wild, n),
    decreases n,
{
    if n > 0 {
        lemma_weight_agree(a, b, which, left, wild, n - 1);
        assert(a[n - 1].mine_count == b[n - 1].mine_count);
    }
}

/// Taking the first finished part of the board in leaves its weights as
/// they are.
pub proof fn lemma_store_first(
    working: Seq<LineModel>,
    max: nat,
    box_count: nat,
    b: int,
    left: nat,
    wild: nat,
)
    requires
        lines_wf(working, box_count),
        0 <= b < box_count,
        forall|i: int| 0 <= i < working.len() ==> (#[trigger] working[i]).mine_count <= max,
    ensures
        ({
            let held = store(seq![LineModel::fresh(box_count)], working, max, box_count);
            &&& total_weight(held, left, wild, held.len() as int) == total_weight(
                working,
                left,
                wild,
                working.len() as int,
            )
            &&& box_weight(held, b, left, wild, held.len() as int) == box_weight(
                working,
                b,
                left,
                wild,
                working.len() as int,
            )
        }),
{
    let fresh = seq![LineModel::fresh(box_count)];
    let crunched = crunch(working);
    let pairs = pair_all(crunched, fresh, max, box_count, crunched.len() as int);
    lemma_crunch_conserves(working, b, left, wild, box_count);
    if working.len() > 0 {
        let limit = top_count(working, working.len() as int) + 1;
        lemma_top_count(working, working.len() as int, max);
        lemma_crunch_within(working, limit, box_count);
    }
    lemma_pair_with_fresh(crunched, max, box_count, crunched.len() as int);
    lemma_weight_agree(pairs, crunched, b, left, wild, crunched.len() as int);
    lemma_crunch_conserves(pairs, b, left, wild, box_count);
}

/// Where the walk over the witnesses of a board starts.
pub open spec fn walk_start(b: BoardModel) -> Progress {
    Progress {
        witness_done: Seq::new(board_witnesses(b).len(), |i: int| false),
        box_done: Seq::new(board_boxes(b).len(), |i: int| false),
        working: seq![LineModel::fresh(board_boxes(b).len())],
        held: seq![LineModel::fresh(board_boxes(b).len())],
    }
}

/// Where the walk over the witnesses of a board ends.
pub open spec fn walk_end(b: BoardModel) -> Progress {
    let start = walk_start(b);
    traverse(
        board_witnesses(b),
        board_boxes(b),
        start,
        first_undone(start.witness_done, 0),
        mines_left(b),
    )
}

/// Conservation, from the lines to the reported chance. Where the walk has
/// set no lines aside, which is where the witnesses of the board form one
/// connected part, it ends with lines that are exact and count what they
/// allocate, and the weights from which the chance of box `j` is taken are
/// those of these lines: the box weight is the mines that the lines
/// allocate to the box, counted once for each placement, and the total
/// weight is the number of placements. The reported chance, times the size
/// of the box, is the one over the other.
pub proof fn lemma_reported_chance(b: BoardModel, j: int)
    requires
        b.wf(),
        board_boxes(b).len() <= usize::MAX,
        0 <= j < board_boxes(b).len(),
        walk_end(b).held == seq![LineModel::fresh(board_boxes(b).len())],
    ensures
        ({
            let boxes = board_boxes(b);
            let left = mines_left(b);
            let wild = count_cells(b.cells, CellSafety::Wilderness, b.cells.len() as int);
            let lines = held_lines(board_witnesses(b), boxes, left);
            let end = walk_end(b).working;
            let total = total_weight(end, left, wild, end.len() as int);
            &&& forall|k: int|
                0 <= k < end.len() ==> (#[trigger] end[k]).exact() && counted(end[k], boxes)
            &&& box_verdict(boxes, lines, left, wild, j) == verdict(
                allocated_weight(end, j, left, wild, end.len() as int),
                boxes[j].cells.len() * total,
                true,
            )
        }),
{
    let witnesses = board_witnesses(b);
    let boxes = board_boxes(b);
    let left = mines_left(b);
    let wild = count_cells(b.cells, CellSafety::Wilderness, b.cells.len() as int);
    let start = walk_start(b);
    assert forall|i: int| 0 <= i < witnesses.len() implies proper(
        (#[trigger] witnesses[i]).boxes,
        boxes.len(),
    ) by {
        lemma_witnesses_are_proper(b, i);
    }
    lemma_fresh_sound(boxes, start.box_done);
    assert(start.working[0] == LineModel::fresh(start.box_done.len()));
    lemma_traverse_sound(witnesses, boxes, start, first_undone(start.witness_done, 0), left);
    let p = walk_end(b);
    let end = p.working;
    assert forall|k: int| 0 <= k < end.len() implies (#[trigger] end[k]).exact() && counted(
        end[k],
        boxes,
    ) && end[k].wf(boxes.len()) && end[k].mine_count <= left && j
        < end[k].mine_box_count.len() by {
        assert(sound(end[k], boxes, p.box_done));
    }
    assert(lines_wf(end, boxes.len()));
    lemma_store_first(end, left, boxes.len(), j, left, wild);
    lemma_exact_weight(end, j, left, wild, end.len() as int);
}

} // verus!
