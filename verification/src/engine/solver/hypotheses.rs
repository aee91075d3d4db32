//! The probability lines are the consistent hypotheses: taking a witness in
//! leaves only lines that give the witness exactly the mines it asks for, and
//! that leave alone what earlier witnesses have settled, and it leaves none
//! of these out.

use vstd::prelude::*;
use super::constraints::{board_boxes, board_witnesses, boxes_under, BoxModel, WitnessModel};
use super::BoardModel;
use super::lines::{distribute, distribute_from, LineModel};
use super::probability::{merge_line, placed, undone_boxes};

verus! {

/// The mines that the line puts into the boxes `ids[lo..hi]`.
pub open spec fn range_sum(pl: LineModel, ids: Seq<usize>, lo: int, hi: int) -> nat
    decreases hi - lo,
{
    if hi <= lo {
        0
    } else {
        range_sum(pl, ids, lo, hi - 1) + pl.allocated_mines[ids[hi - 1] as int]
    }
}

/// The box `b` is one of `ids[lo..]`.
pub open spec fn listed(ids: Seq<usize>, lo: int, b: int) -> bool {
    exists|t: int| lo <= t < ids.len() && #[trigger] ids[t] == b
}

/// No box is listed twice, and every listed box is one of `box_count`.
pub open spec fn proper(ids: Seq<usize>, box_count: nat) -> bool {
    &&& forall|t: int| 0 <= t < ids.len() ==> #[trigger] ids[t] < box_count
    &&& forall|s: int, t: int| 0 <= s < t < ids.len() ==> #[trigger] ids[s] != #[trigger] ids[t]
}

/// The line `l` is the line `pl` with `missing` more mines in the boxes
/// `ids[lo..]` and nothing changed in any other box.
pub open spec fn extends(pl: LineModel, l: LineModel, ids: Seq<usize>, lo: int, missing: nat) -> bool {
    &&& l.mine_count == pl.mine_count + missing
    &&& l.allocated_mines.len() == pl.allocated_mines.len()
    &&& l.mine_box_count.len() == pl.mine_box_count.len()
    &&& range_sum(l, ids, lo, ids.len() as int) == missing
    &&& forall|b: int|
        0 <= b < pl.allocated_mines.len() && !listed(ids, lo, b) ==> #[trigger] l.allocated_mines[b]
            == pl.allocated_mines[b]
}

/// A sum over a range is its first entry and the sum over the rest.
pub proof fn lemma_range_sum_front(pl: LineModel, ids: Seq<usize>, lo: int, hi: int)
    requires
        lo < hi,
    ensures
        range_sum(pl, ids, lo, hi) == pl.allocated_mines[ids[lo] as int] + range_sum(
            pl,
            ids,
            lo + 1,
            hi,
        ),
    decreases hi - lo,
{
    if lo + 1 < hi {
        lemma_range_sum_front(pl, ids, lo, hi - 1);
    } else {
        assert(range_sum(pl, ids, lo, lo) == 0);
        assert(range_sum(pl, ids, lo + 1, hi) == 0);
    }
}

/// Lines that agree on the boxes of a range put the same mines into it.
pub proof fn lemma_range_sum_agree(a: LineModel, b: LineModel, ids: Seq<usize>, lo: int, hi: int)
    requires
        0 <= lo,
        hi <= ids.len(),
        forall|t: int|
            lo <= t < hi ==> a.allocated_mines[#[trigger] ids[t] as int] == b.allocated_mines[ids[t] as int],
    ensures
        range_sum(a, ids, lo, hi) == range_sum(b, ids, lo, hi),
    decreases hi - lo,
{
    if lo < hi {
        lemma_range_sum_agree(a, b, ids, lo, hi - 1);
        assert(a.allocated_mines[ids[hi - 1] as int] == b.allocated_mines[ids[hi - 1] as int]);
    }
}

/// Every line that comes of distributing `missing` mines over the boxes
/// `ids[index..]` extends the line by exactly these mines in these boxes.
pub proof fn lemma_distribute_extends(
    pl: LineModel,
    boxes: Seq<BoxModel>,
    missing: nat,
    ids: Seq<usize>,
    index: nat,
    max: nat,
    l: LineModel,
)
    requires
        pl.wf(boxes.len()),
        proper(ids, boxes.len()),
        distribute(pl, boxes, missing, ids, index, max).contains(l),
    ensures
        extends(pl, l, ids, index as int, missing),
        l.mine_count <= max,
    decreases ids.len() - index, 1nat, 0nat,
{
    let n = ids.len() as int;
    let b = ids[index as int] as int;
    let size = boxes[b].cells.len();
    if index + 1 == ids.len() {
        assert(l == pl.extend(b, size, missing));
        assert(range_sum(l, ids, n - 1, n - 1) == 0);
        assert forall|c: int|
            0 <= c < pl.allocated_mines.len() && !listed(
                ids,
                index as int,
                c,
            ) implies #[trigger] l.allocated_mines[c] == pl.allocated_mines[c] by {
            if c == b {
                assert(ids[index as int] == c);
            }
        }
    } else {
        lemma_distribute_from_extends(pl, boxes, missing, ids, index, max, 0, l);
    }
}

/// Every line that comes of distributing with at least `mines` mines in the
/// box `ids[index]` extends the line by the missing mines.
pub proof fn lemma_distribute_from_extends(
    pl: LineModel,
    boxes: Seq<BoxModel>,
    missing: nat,
    ids: Seq<usize>,
    index: nat,
    max: nat,
    mines: nat,
    l: LineModel,
)
    requires
        pl.wf(boxes.len()),
        proper(ids, boxes.len()),
        index + 1 < ids.len(),
        pl.mine_count + missing <= max,
        distribute_from(pl, boxes, missing, ids, index, max, mines).contains(l),
    ensures
        extends(pl, l, ids, index as int, missing),
        l.mine_count <= max,
    decreases ids.len() - index, 0nat, missing + 1 - mines,
{
    let n = ids.len() as int;
    let b = ids[index as int] as int;
    let size = boxes[b].cells.len();
    if mines > missing || mines > size {
    } else {
        let step = pl.extend(b, size, mines);
        let head = distribute(step, boxes, (missing - mines) as nat, ids, index + 1, max);
        let tail = distribute_from(pl, boxes, missing, ids, index, max, mines + 1);
        let i = choose|i: int| 0 <= i < (head + tail).len() && (head + tail)[i] == l;
        if i < head.len() {
            assert(head[i] == l);
            lemma_distribute_extends(step, boxes, (missing - mines) as nat, ids, index + 1, max, l);
            // the box of this step is none of the later boxes
            assert(!listed(ids, index as int + 1, b)) by {
                if listed(ids, index as int + 1, b) {
                    let t = choose|t: int| index + 1 <= t < ids.len() && #[trigger] ids[t] == b;
                    assert(ids[index as int] != ids[t]);
                }
            }
            assert(l.allocated_mines[b] == step.allocated_mines[b]);
            lemma_range_sum_front(l, ids, index as int, n);
            assert forall|c: int|
                0 <= c < pl.allocated_mines.len() && !listed(
                    ids,
                    index as int,
                    c,
                ) implies #[trigger] l.allocated_mines[c] == pl.allocated_mines[c] by {
                if listed(ids, index as int + 1, c) {
                    let t = choose|t: int| index + 1 <= t < ids.len() && #[trigger] ids[t] == c;
                    assert(index <= t < ids.len() && ids[t] == c);
                }
                if c == b {
                    assert(ids[index as int] == c);
                }
                assert(l.allocated_mines[c] == step.allocated_mines[c]);
            }
        } else {
            assert(tail[i - head.len()] == l);
            lemma_distribute_from_extends(pl, boxes, missing, ids, index, max, mines + 1, l);
        }
    }
}

/// The boxes that are not yet processed are listed once each where the
/// boxes of the witness are, and the mines in them are the mines of the line
/// outside the processed boxes.
pub proof fn lemma_undone_proper(ids: Seq<usize>, done: Seq<bool>, n: int, box_count: nat)
    requires
        proper(ids, box_count),
        0 <= n <= ids.len(),
    ensures
        proper(undone_boxes(ids, done, n), box_count),
        forall|b: int|
            listed(undone_boxes(ids, done, n), 0, b) <==> exists|t: int|
                0 <= t < n && #[trigger] ids[t] == b && !done[b],
    decreases n,
{
    let fresh = undone_boxes(ids, done, n);
    if n > 0 {
        lemma_undone_proper(ids, done, n - 1, box_count);
        let prev = undone_boxes(ids, done, n - 1);
        let last = ids[n - 1];
        if !done[last as int] {
            assert forall|s: int, t: int| 0 <= s < t < fresh.len() implies #[trigger] fresh[s]
                != #[trigger] fresh[t] by {
                if t == prev.len() {
                    if fresh[s] == last {
                        assert(prev[s] == last);
                        assert(listed(prev, 0, last as int));
                        let u = choose|u: int|
                            0 <= u < n - 1 && #[trigger] ids[u] == last as int && !done[last as int];
                        assert(ids[u] != ids[n - 1]);
                    }
                } else {
                    assert(prev[s] != prev[t]);
                }
            }
            assert forall|t: int| 0 <= t < fresh.len() implies #[trigger] fresh[t] < box_count by {
                if t < prev.len() {
                    assert(prev[t] < box_count);
                }
            }
        }
        assert forall|b: int|
            listed(fresh, 0, b) <==> exists|t: int|
                0 <= t < n && #[trigger] ids[t] == b && !done[b] by {
            if listed(fresh, 0, b) {
                let t = choose|t: int| 0 <= t < fresh.len() && #[trigger] fresh[t] == b;
                if t < prev.len() {
                    assert(prev[t] == b);
                    assert(listed(prev, 0, b));
                    let u = choose|u: int| 0 <= u < n - 1 && #[trigger] ids[u] == b && !done[b];
                    assert(0 <= u < n && ids[u] == b && !done[b]);
                } else {
                    assert(ids[n - 1] == b && !done[b]);
                }
            }
            if exists|t: int| 0 <= t < n && #[trigger] ids[t] == b && !done[b] {
                let t = choose|t: int| 0 <= t < n && #[trigger] ids[t] == b && !done[b];
                if t < n - 1 {
                    assert(0 <= t < n - 1 && ids[t] == b && !done[b]);
                    assert(listed(prev, 0, b));
                    let u = choose|u: int| 0 <= u < prev.len() && #[trigger] prev[u] == b;
                    assert(fresh[u] == b);
                } else {
                    assert(fresh[prev.len() as int] == b);
                }
            }
        }
    } else {
        assert forall|b: int|
            listed(fresh, 0, b) <==> exists|t: int|
                0 <= t < n && #[trigger] ids[t] == b && !done[b] by {}
    }
}

/// The mines of a line in the first `n` boxes of a witness are the mines in
/// the processed ones and the mines in the others.
pub proof fn lemma_sum_splits(pl: LineModel, ids: Seq<usize>, done: Seq<bool>, n: int)
    requires
        0 <= n <= ids.len(),
    ensures
        range_sum(pl, ids, 0, n) == placed(pl, ids, done, n) + range_sum(
            pl,
            undone_boxes(ids, done, n),
            0,
            undone_boxes(ids, done, n).len() as int,
        ),
    decreases n,
{
    if n > 0 {
        lemma_sum_splits(pl, ids, done, n - 1);
        let prev = undone_boxes(ids, done, n - 1);
        let fresh = undone_boxes(ids, done, n);
        if !done[ids[n - 1] as int] {
            assert(fresh == prev.push(ids[n - 1]));
            assert(fresh[prev.len() as int] == ids[n - 1]);
            lemma_range_sum_agree_ids(pl, prev, fresh, prev.len() as int);
        }
    }
}

/// A sum over a range looks at the boxes of the range alone.
pub proof fn lemma_range_sum_agree_ids(pl: LineModel, a: Seq<usize>, b: Seq<usize>, hi: int)
    requires
        0 <= hi <= a.len(),
        hi <= b.len(),
        forall|t: int| 0 <= t < hi ==> a[t] == b[t],
    ensures
        range_sum(pl, a, 0, hi) == range_sum(pl, b, 0, hi),
    decreases hi,
{
    if hi > 0 {
        lemma_range_sum_agree_ids(pl, a, b, hi - 1);
    }
}

/// Lines are consistent hypotheses: every line that comes of taking the
/// witness `w` in gives the witness exactly the mines that it asks for,
/// stays within the mines that are left, and puts into every box that is
/// already processed, or that is none of the witness, what the line it
/// comes from puts there. This holds of lines that have nothing yet in the
/// boxes that no witness has reached.
pub proof fn lemma_lines_meet_the_witness(
    pl: LineModel,
    w: WitnessModel,
    boxes: Seq<BoxModel>,
    done: Seq<bool>,
    max: nat,
    l: LineModel,
)
    requires
        pl.wf(boxes.len()),
        done.len() == boxes.len(),
        proper(w.boxes, boxes.len()),
        pl.mine_count <= max,
        forall|b: int| 0 <= b < boxes.len() && !done[b] ==> #[trigger] pl.allocated_mines[b] == 0,
        merge_line(pl, w, boxes, done, max).contains(l),
    ensures
        range_sum(l, w.boxes, 0, w.boxes.len() as int) == w.mines,
        l.mine_count <= max,
        l.allocated_mines.len() == pl.allocated_mines.len(),
        forall|b: int|
            0 <= b < boxes.len() && (done[b] || !listed(w.boxes, 0, b))
                ==> #[trigger] l.allocated_mines[b] == pl.allocated_mines[b],
{
    let n = w.boxes.len() as int;
    let have = placed(pl, w.boxes, done, n);
    let fresh = undone_boxes(w.boxes, done, n);
    lemma_undone_proper(w.boxes, done, n, boxes.len());
    lemma_sum_splits(pl, w.boxes, done, n);
    // the line has nothing yet in the boxes that are not processed
    assert forall|t: int| 0 <= t < fresh.len() implies pl.allocated_mines[#[trigger] fresh[t] as int]
        == 0 by {
        let b = fresh[t] as int;
        assert(listed(fresh, 0, b));
        assert(fresh[t] < boxes.len());
        let u = choose|u: int| 0 <= u < n && #[trigger] w.boxes[u] == b && !done[b];
        assert(!done[b]);
    }
    lemma_range_sum_zero(pl, fresh, fresh.len() as int);
    if have > w.mines {
    } else if have == w.mines {
        assert(merge_line(pl, w, boxes, done, max) == seq![pl]);
        assert(l == pl);
    } else {
        let missing = (w.mines - have) as nat;
        lemma_distribute_extends(pl, boxes, missing, fresh, 0, max, l);
        lemma_sum_splits(l, w.boxes, done, n);
        assert forall|b: int|
            0 <= b < boxes.len() && (done[b] || !listed(
                w.boxes,
                0,
                b,
            )) implies #[trigger] l.allocated_mines[b] == pl.allocated_mines[b] by {
            if listed(fresh, 0, b) {
                let t = choose|t: int| 0 <= t < n && #[trigger] w.boxes[t] == b && !done[b];
                assert(0 <= t < w.boxes.len() && w.boxes[t] == b);
            }
        }
        lemma_placed_agree(pl, l, w.boxes, done, n);
    }
}

/// A line with nothing in the boxes of a list puts no mines into them.
pub proof fn lemma_range_sum_zero(pl: LineModel, ids: Seq<usize>, hi: int)
    requires
        0 <= hi <= ids.len(),
        forall|t: int| 0 <= t < hi ==> pl.allocated_mines[#[trigger] ids[t] as int] == 0,
    ensures
        range_sum(pl, ids, 0, hi) == 0,
    decreases hi,
{
    if hi > 0 {
        lemma_range_sum_zero(pl, ids, hi - 1);
        assert(pl.allocated_mines[ids[hi - 1] as int] == 0);
    }
}

/// Lines that agree on the processed boxes have placed the same mines there.
pub proof fn lemma_placed_agree(a: LineModel, b: LineModel, ids: Seq<usize>, done: Seq<bool>, n: int)
    requires
        0 <= n <= ids.len(),
        forall|t: int|
            0 <= t < n && done[#[trigger] ids[t] as int] ==> a.allocated_mines[ids[t] as int]
                == b.allocated_mines[ids[t] as int],
    ensures
        placed(a, ids, done, n) == placed(b, ids, done, n),
    decreases n,
{
    if n > 0 {
        lemma_placed_agree(a, b, ids, done, n - 1);
        if done[ids[n - 1] as int] {
            assert(a.allocated_mines[ids[n - 1] as int] == b.allocated_mines[ids[n - 1] as int]);
        }
    }
}

/// The boxes that are listed under a witness are listed once each.
pub proof fn lemma_boxes_under_proper(boxes: Seq<BoxModel>, w: usize, n: int)
    requires
        0 <= n <= boxes.len(),
        n <= usize::MAX,
    ensures
        proper(boxes_under(boxes, w, n), n as nat),
    decreases n,
{
    if n > 0 {
        lemma_boxes_under_proper(boxes, w, n - 1);
        let prev = boxes_under(boxes, w, n - 1);
        let all = boxes_under(boxes, w, n);
        assert forall|t: int| 0 <= t < all.len() implies #[trigger] all[t] < n by {
            if t < prev.len() {
                assert(prev[t] < n - 1);
            }
        }
        assert forall|s: int, t: int| 0 <= s < t < all.len() implies #[trigger] all[s]
            != #[trigger] all[t] by {
            if t < prev.len() {
                assert(prev[s] != prev[t]);
            } else {
                assert(prev[s] < n - 1);
            }
        }
    }
}

/// Every witness of a board lists each of its boxes once, and lists boxes
/// of the board alone: the witnesses of a board are such as the law of the
/// consistent hypotheses asks for.
pub proof fn lemma_witnesses_are_proper(b: BoardModel, i: int)
    requires
        0 <= i < board_witnesses(b).len(),
        board_boxes(b).len() <= usize::MAX,
    ensures
        proper(board_witnesses(b)[i].boxes, board_boxes(b).len()),
{
    lemma_boxes_under_proper(board_boxes(b), i as usize, board_boxes(b).len() as int);
}

/// The lines of every share of the box `ids[index]` from `from` on are
/// among the lines that distribute from `from` on.
pub proof fn lemma_distribute_from_holds(
    pl: LineModel,
    boxes: Seq<BoxModel>,
    missing: nat,
    ids: Seq<usize>,
    index: nat,
    max: nat,
    from: nat,
    mines: nat,
    k: int,
)
    requires
        index + 1 < ids.len(),
        from <= mines <= missing,
        mines <= boxes[ids[index as int] as int].cells.len(),
        0 <= k < distribute(
            pl.extend(
                ids[index as int] as int,
                boxes[ids[index as int] as int].cells.len(),
                mines,
            ),
            boxes,
            (missing - mines) as nat,
            ids,
            index + 1,
            max,
        ).len(),
    ensures
        distribute_from(pl, boxes, missing, ids, index, max, from).contains(
            distribute(
                pl.extend(
                    ids[index as int] as int,
                    boxes[ids[index as int] as int].cells.len(),
                    mines,
                ),
                boxes,
                (missing - mines) as nat,
                ids,
                index + 1,
                max,
            )[k],
        ),
    decreases mines - from,
{
    let b = ids[index as int] as int;
    let size = boxes[b].cells.len();
    let wanted = distribute(
        pl.extend(b, size, mines),
        boxes,
        (missing - mines) as nat,
        ids,
        index + 1,
        max,
    );
    let head = distribute(
        pl.extend(b, size, from),
        boxes,
        (missing - from) as nat,
        ids,
        index + 1,
        max,
    );
    let tail = distribute_from(pl, boxes, missing, ids, index, max, from + 1);
    let all = distribute_from(pl, boxes, missing, ids, index, max, from);
    assert(all == head + tail);
    if from == mines {
        assert(all[k] == wanted[k]);
    } else {
        lemma_distribute_from_holds(pl, boxes, missing, ids, index, max, from + 1, mines, k);
        let t = choose|t: int| 0 <= t < tail.len() && tail[t] == wanted[k];
        assert(all[head.len() + t] == wanted[k]);
    }
}

/// Distribution leaves nothing out: every way to put `missing` mines into
/// the boxes `ids[index..]`, no more into a box than it has cells, is the
/// allocation of one of the lines.
pub proof fn lemma_distribute_complete(
    pl: LineModel,
    boxes: Seq<BoxModel>,
    missing: nat,
    ids: Seq<usize>,
    index: nat,
    max: nat,
    target: Seq<nat>,
)
    requires
        pl.wf(boxes.len()),
        proper(ids, boxes.len()),
        index < ids.len(),
        pl.mine_count + missing <= max,
        target.len() == boxes.len(),
        range_sum(aims(target), ids, index as int, ids.len() as int) == missing,
        forall|t: int|
            index <= t < ids.len() ==> target[#[trigger] ids[t] as int]
                <= boxes[ids[t] as int].cells.len(),
        forall|b: int|
            0 <= b < boxes.len() && !listed(ids, index as int, b) ==> #[trigger] target[b]
                == pl.allocated_mines[b],
    ensures
        exists|l: LineModel|
            distribute(pl, boxes, missing, ids, index, max).contains(l) && l.allocated_mines
                == target,
    decreases ids.len() - index,
{
    let n = ids.len() as int;
    let b = ids[index as int] as int;
    let size = boxes[b].cells.len();
    assert(ids[index as int] < boxes.len());
    lemma_range_sum_front(aims(target), ids, index as int, n);
    if index + 1 == ids.len() {
        assert(range_sum(aims(target), ids, n, n) == 0);
        assert(target[b] == missing);
        let l = pl.extend(b, size, missing);
        assert forall|c: int| 0 <= c < boxes.len() implies l.allocated_mines[c] == target[c] by {
            if c != b {
                if listed(ids, index as int, c) {
                    let t = choose|t: int| index <= t < ids.len() && #[trigger] ids[t] == c;
                    assert(false);
                }
            }
        }
        assert(l.allocated_mines =~= target);
        let all = distribute(pl, boxes, missing, ids, index, max);
        assert(all == seq![l]);
        assert(all[0] == l);
        assert(all.contains(l) && l.allocated_mines == target);
    } else {
        let mines = target[b];
        let step = pl.extend(b, size, mines);
        assert forall|c: int|
            0 <= c < boxes.len() && !listed(ids, index as int + 1, c) implies #[trigger] target[c]
            == step.allocated_mines[c] by {
            if c != b {
                if listed(ids, index as int, c) {
                    let t = choose|t: int| index <= t < ids.len() && #[trigger] ids[t] == c;
                    assert(index + 1 <= t < ids.len() && ids[t] == c);
                }
            }
        }
        lemma_distribute_complete(
            step,
            boxes,
            (missing - mines) as nat,
            ids,
            index + 1,
            max,
            target,
        );
        let head = distribute(step, boxes, (missing - mines) as nat, ids, index + 1, max);
        let l = choose|l: LineModel| head.contains(l) && l.allocated_mines == target;
        let k = choose|k: int| 0 <= k < head.len() && head[k] == l;
        lemma_distribute_from_holds(pl, boxes, missing, ids, index, max, 0, mines, k);
        let all = distribute(pl, boxes, missing, ids, index, max);
        assert(all == distribute_from(pl, boxes, missing, ids, index, max, 0));
        assert(all.contains(l) && l.allocated_mines == target);
    }
}

/// The line that allocates `target` and nothing else.
pub open spec fn aims(target: Seq<nat>) -> LineModel {
    LineModel {
        mine_count: 0,
        solution_count: 0,
        mine_box_count: Seq::empty(),
        allocated_mines: target,
    }
}

/// Where a line puts no mines into the boxes of a list, it has none in any
/// of them.
pub proof fn lemma_range_sum_none(pl: LineModel, ids: Seq<usize>, hi: int, t: int)
    requires
        0 <= t < hi <= ids.len(),
        range_sum(pl, ids, 0, hi) == 0,
    ensures
        pl.allocated_mines[ids[t] as int] == 0,
    decreases hi,
{
    if t < hi - 1 {
        lemma_range_sum_none(pl, ids, hi - 1, t);
    }
}

/// Lines are all the consistent hypotheses: taking the witness `w` in
/// leaves nothing out. Every allocation that gives the witness the mines
/// it asks for, that agrees with the line on the boxes that are processed
/// or that are none of the witness, and that puts no more mines into a
/// box than it has cells, is the allocation of one of the lines that come
/// of it, as long as the mines that are left allow for it.
pub proof fn lemma_lines_leave_nothing_out(
    pl: LineModel,
    w: WitnessModel,
    boxes: Seq<BoxModel>,
    done: Seq<bool>,
    max: nat,
    target: Seq<nat>,
)
    requires
        pl.wf(boxes.len()),
        done.len() == boxes.len(),
        proper(w.boxes, boxes.len()),
        forall|b: int| 0 <= b < boxes.len() && !done[b] ==> #[trigger] pl.allocated_mines[b] == 0,
        target.len() == boxes.len(),
        range_sum(aims(target), w.boxes, 0, w.boxes.len() as int) == w.mines,
        forall|b: int|
            0 <= b < boxes.len() && (done[b] || !listed(w.boxes, 0, b)) ==> #[trigger] target[b]
                == pl.allocated_mines[b],
        forall|b: int| 0 <= b < boxes.len() ==> #[trigger] target[b] <= boxes[b].cells.len(),
        pl.mine_count + w.mines <= max + placed(pl, w.boxes, done, w.boxes.len() as int),
    ensures
        exists|l: LineModel|
            merge_line(pl, w, boxes, done, max).contains(l) && l.allocated_mines == target,
{
    let n = w.boxes.len() as int;
    let have = placed(pl, w.boxes, done, n);
    let fresh = undone_boxes(w.boxes, done, n);
    lemma_undone_proper(w.boxes, done, n, boxes.len());
    lemma_sum_splits(aims(target), w.boxes, done, n);
    assert forall|t: int| 0 <= t < n && done[#[trigger] w.boxes[t] as int] implies aims(
        target,
    ).allocated_mines[w.boxes[t] as int] == pl.allocated_mines[w.boxes[t] as int] by {
        assert(w.boxes[t] < boxes.len());
    }
    lemma_placed_agree(aims(target), pl, w.boxes, done, n);
    assert(have <= w.mines);
    assert forall|b: int|
        0 <= b < boxes.len() && !listed(fresh, 0, b) implies #[trigger] target[b]
        == pl.allocated_mines[b] by {
        if !done[b] && listed(w.boxes, 0, b) {
            let t = choose|t: int| 0 <= t < w.boxes.len() && #[trigger] w.boxes[t] == b;
            assert(0 <= t < n && w.boxes[t] == b && !done[b]);
            assert(false);
        }
    }
    if have == w.mines {
        assert forall|c: int| 0 <= c < boxes.len() implies pl.allocated_mines[c] == target[c] by {
            if listed(fresh, 0, c) {
                let t = choose|t: int| 0 <= t < fresh.len() && #[trigger] fresh[t] == c;
                lemma_range_sum_none(aims(target), fresh, fresh.len() as int, t);
                let u = choose|u: int| 0 <= u < n && #[trigger] w.boxes[u] == c && !done[c];
                assert(!done[c]);
            }
        }
        assert(pl.allocated_mines =~= target);
        let all = merge_line(pl, w, boxes, done, max);
        assert(all == seq![pl]);
        assert(all[0] == pl);
        assert(all.contains(pl) && pl.allocated_mines == target);
    } else {
        let missing = (w.mines - have) as nat;
        assert(fresh.len() > 0) by {
            if fresh.len() == 0 {
                assert(range_sum(aims(target), fresh, 0, 0) == 0);
            }
        }
        assert forall|t: int| 0 <= t < fresh.len() implies target[#[trigger] fresh[t] as int]
            <= boxes[fresh[t] as int].cells.len() by {
            assert(fresh[t] < boxes.len());
        }
        lemma_distribute_complete(pl, boxes, missing, fresh, 0, max, target);
        let found = distribute(pl, boxes, missing, fresh, 0, max);
        let l = choose|l: LineModel| found.contains(l) && l.allocated_mines == target;
        let all = merge_line(pl, w, boxes, done, max);
        assert(all == found);
        assert(all.contains(l) && l.allocated_mines == target);
    }
}

} // verus!
