//! The strategy that weighs every consistent way of placing the missing mines.

use vstd::prelude::*;
use vstd::arithmetic::div_mod::lemma_fundamental_div_mod_converse;
use vstd::arithmetic::power2::{lemma2_to64, lemma_pow2_unfold, pow2};
use crate::base::bignat::BigNat;
use crate::base::binomial::{binomial, choose_count};
use super::constraints::{board_boxes, board_witnesses};
use super::error::Error;
use super::grouping::{frontier_under, grouped, lemma_boxes_group_the_frontier};
use super::laws::lemma_write_cell_keeps;
use super::{
    count_cells, keeps_certain, lemma_keeps_certain_chain, lemma_keeps_certain_same, BoardModel,
    BoardSafety, CellProbability, CellSafety, Solver,
};
use super::constraints::{views, BoxModel, FrontierBox, Witness, WitnessModel, graph_wf};
use super::lines::{
    distribute, lemma_views_add, lemma_views_push, lines_wf, store, LineModel, ProbabilityLine,
};

verus! {

/// The strategy that computes, for every closed cell, the chance of a mine.
#[derive(Debug, Clone, Copy)]
pub struct ProbabilityCalculator {
    stop_on_first_safe: bool,
}

impl Default for ProbabilityCalculator {
    fn default() -> (r: Self)
        ensures
            !r.stops_on_first_safe(),
    {
        ProbabilityCalculator { stop_on_first_safe: false }
    }
}

impl ProbabilityCalculator {
    /// Whether a pass ends as soon as it has a safe cell to suggest.
    pub closed spec fn stops_on_first_safe(&self) -> bool {
        self.stop_on_first_safe
    }

    pub fn new(stop_on_first_safe: bool) -> (r: Self)
        ensures
            r.stops_on_first_safe() == stop_on_first_safe,
    {
        Self { stop_on_first_safe }
    }
}

/// The mines that `pl` puts into those of the first `n` boxes of `witness_boxes`
/// that are already processed.
pub open spec fn placed(pl: LineModel, witness_boxes: Seq<usize>, done: Seq<bool>, n: int) -> nat
    decreases n,
{
    if n <= 0 {
        0
    } else {
        let b = witness_boxes[n - 1] as int;
        placed(pl, witness_boxes, done, n - 1) + if done[b] {
            pl.allocated_mines[b]
        } else {
            0
        }
    }
}

/// Those of the first `n` boxes of `witness_boxes` that are not yet processed.
pub open spec fn undone_boxes(witness_boxes: Seq<usize>, done: Seq<bool>, n: int) -> Seq<usize>
    decreases n,
{
    if n <= 0 {
        Seq::empty()
    } else {
        let prev = undone_boxes(witness_boxes, done, n - 1);
        if done[witness_boxes[n - 1] as int] {
            prev
        } else {
            prev.push(witness_boxes[n - 1])
        }
    }
}

/// The flags `done` with the first `n` boxes of `ids` set.
pub open spec fn mark_done(done: Seq<bool>, ids: Seq<usize>, n: int) -> Seq<bool>
    decreases n,
{
    if n <= 0 {
        done
    } else {
        mark_done(done, ids, n - 1).update(ids[n - 1] as int, true)
    }
}

/// What becomes of the line `pl` when the witness `w` is taken in: nothing
/// where the line already oversteps the witness, the line itself where it
/// meets it, and else every way to place the missing mines in the boxes of
/// the witness that are not yet processed.
pub open spec fn merge_line(
    pl: LineModel,
    w: WitnessModel,
    boxes: Seq<BoxModel>,
    done: Seq<bool>,
    max: nat,
) -> Seq<LineModel> {
    let have = placed(pl, w.boxes, done, w.boxes.len() as int);
    if have > w.mines {
        Seq::empty()
    } else if have == w.mines {
        seq![pl]
    } else {
        distribute(
            pl,
            boxes,
            (w.mines - have) as nat,
            undone_boxes(w.boxes, done, w.boxes.len() as int),
            0,
            max,
        )
    }
}

/// What becomes of the first `n` of `lines` when the witness `w` is taken in.
pub open spec fn merge_lines(
    lines: Seq<LineModel>,
    w: WitnessModel,
    boxes: Seq<BoxModel>,
    done: Seq<bool>,
    max: nat,
    n: int,
) -> Seq<LineModel>
    decreases n,
{
    if n <= 0 {
        Seq::empty()
    } else {
        merge_lines(lines, w, boxes, done, max, n - 1) + merge_line(
            lines[n - 1],
            w,
            boxes,
            done,
            max,
        )
    }
}

/// The first witness at or after `from` that is not yet processed.
pub open spec fn first_undone(done: Seq<bool>, from: int) -> Option<usize>
    decreases done.len() - from,
{
    if from < 0 || from >= done.len() {
        None
    } else if !done[from] {
        Some(from as usize)
    } else {
        first_undone(done, from + 1)
    }
}

/// How many of the first `n` boxes of `witness_boxes` are not yet processed.
pub open spec fn waiting(witness_boxes: Seq<usize>, box_done: Seq<bool>, n: int) -> nat
    decreases n,
{
    if n <= 0 {
        0
    } else {
        waiting(witness_boxes, box_done, n - 1) + if box_done[witness_boxes[n - 1] as int] {
            0nat
        } else {
            1nat
        }
    }
}

/// Witness `i` is not yet processed and lies over a processed box.
pub open spec fn on_boundary(
    witnesses: Seq<WitnessModel>,
    witness_done: Seq<bool>,
    box_done: Seq<bool>,
    i: int,
) -> bool {
    !witness_done[i] && waiting(witnesses[i].boxes, box_done, witnesses[i].boxes.len() as int)
        < witnesses[i].boxes.len()
}

/// Among the first `n` witnesses, the one on the boundary with the fewest
/// boxes still to process; the first of them where several have as few.
pub open spec fn next_witness(
    witnesses: Seq<WitnessModel>,
    witness_done: Seq<bool>,
    box_done: Seq<bool>,
    n: int,
) -> Option<usize>
    decreases n,
{
    if n <= 0 {
        None
    } else {
        let prev = next_witness(witnesses, witness_done, box_done, n - 1);
        if on_boundary(witnesses, witness_done, box_done, n - 1) {
            match prev {
                Some(best) => if waiting(
                    witnesses[n - 1].boxes,
                    box_done,
                    witnesses[n - 1].boxes.len() as int,
                ) < waiting(
                    witnesses[best as int].boxes,
                    box_done,
                    witnesses[best as int].boxes.len() as int,
                ) {
                    Some((n - 1) as usize)
                } else {
                    prev
                },
                None => Some((n - 1) as usize),
            }
        } else {
            prev
        }
    }
}

impl ProbabilityCalculator {
    /// Find the first unprocessed witness
    pub fn find_first_witness(&self, witness_done: &Vec<bool>) -> (r: Option<usize>)
        ensures
            r == first_undone(witness_done@, 0),
            r matches Some(i) ==> i < witness_done@.len() && !witness_done@[i as int],
    {
        let mut i: usize = 0;
        while i < witness_done.len()
            invariant
                i <= witness_done@.len(),
                first_undone(witness_done@, 0) == first_undone(witness_done@, i as int),
            decreases witness_done@.len() - i,
        {
            if !witness_done[i] {
                return Some(i);
            }
            i += 1;
        }
        None
    }

    /// How many boxes of a witness are not yet processed.
    fn count_waiting(witness: &Witness, box_done: &Vec<bool>) -> (r: usize)
        requires
            forall|t: int|
                0 <= t < witness.boxes@.len() ==> #[trigger] witness.boxes@[t] < box_done@.len(),
        ensures
            r == waiting(witness.boxes@, box_done@, witness.boxes@.len() as int),
            r <= witness.boxes@.len(),
    {
        let mut count: usize = 0;
        let mut t: usize = 0;
        while t < witness.boxes.len()
            invariant
                t <= witness.boxes@.len(),
                count <= t,
                count == waiting(witness.boxes@, box_done@, t as int),
                forall|t: int|
                    0 <= t < witness.boxes@.len() ==> #[trigger] witness.boxes@[t]
                        < box_done@.len(),
            decreases witness.boxes@.len() - t,
        {
            if !box_done[witness.boxes[t]] {
                count += 1;
            }
            t += 1;
        }
        count
    }

    /// Find the next witness on the boundary of processed boxes
    pub fn find_next_witness(
        &self,
        witnesses: &Vec<Witness>,
        witness_done: &Vec<bool>,
        box_done: &Vec<bool>,
    ) -> (r: Option<usize>)
        requires
            witness_done@.len() == witnesses@.len(),
            forall|w: int, t: int|
                0 <= w < witnesses@.len() && 0 <= t < witnesses@[w].boxes@.len()
                    ==> #[trigger] witnesses@[w].boxes@[t] < box_done@.len(),
        ensures
            r == next_witness(
                views(witnesses@),
                witness_done@,
                box_done@,
                witnesses@.len() as int,
            ),
            r matches Some(i) ==> i < witnesses@.len() && !witness_done@[i as int],
    {
        let ghost ws = views(witnesses@);
        let mut best_idx: Option<usize> = None;
        let mut best_waiting: usize = 0;
        let mut i: usize = 0;
        while i < witnesses.len()
            invariant
                i <= witnesses@.len(),
                ws == views(witnesses@),
                witness_done@.len() == witnesses@.len(),
                forall|w: int, t: int|
                    0 <= w < witnesses@.len() && 0 <= t < witnesses@[w].boxes@.len()
                        ==> #[trigger] witnesses@[w].boxes@[t] < box_done@.len(),
                best_idx == next_witness(ws, witness_done@, box_done@, i as int),
                best_idx matches Some(b) ==> {
                    &&& b < i
                    &&& !witness_done@[b as int]
                    &&& best_waiting == waiting(ws[b as int].boxes, box_done@, ws[b as int].boxes.len() as int)
                },
            decreases witnesses@.len() - i,
        {
            assert(ws[i as int].boxes == witnesses@[i as int].boxes@);
            if !witness_done[i] {
                let count = Self::count_waiting(&witnesses[i], box_done);
                if count < witnesses[i].boxes.len() {
                    match best_idx {
                        Some(_) => {
                            if count < best_waiting {
                                best_idx = Some(i);
                                best_waiting = count;
                            }
                        },
                        None => {
                            best_idx = Some(i);
                            best_waiting = count;
                        },
                    }
                }
            }
            i += 1;
        }
        best_idx
    }

    /// Count mines already placed in old boxes for this witness
    pub fn count_placed_mines(
        &self,
        pl: &ProbabilityLine,
        witness_boxes: &Vec<usize>,
        box_done: &Vec<bool>,
    ) -> (r: u128)
        requires
            pl@.wf(box_done@.len()),
            forall|t: int|
                0 <= t < witness_boxes@.len() ==> #[trigger] witness_boxes@[t] < box_done@.len(),
        ensures
            r == placed(pl@, witness_boxes@, box_done@, witness_boxes@.len() as int),
    {
        let n = witness_boxes.len();
        let mut sum: u128 = 0;
        let mut t: usize = 0;
        while t < n
            invariant
                t <= n,
                n == witness_boxes@.len(),
                pl@.wf(box_done@.len()),
                forall|t: int|
                    0 <= t < witness_boxes@.len() ==> #[trigger] witness_boxes@[t]
                        < box_done@.len(),
                sum == placed(pl@, witness_boxes@, box_done@, t as int),
                sum <= t * 0x1_0000_0000_0000_0000,
            decreases n - t,
        {
            let b = witness_boxes[t];
            assert(pl@.allocated_mines[b as int] == pl.allocated_mines@[b as int]);
            assert((t + 1) * 0x1_0000_0000_0000_0000 <= 0xffff_ffff_ffff_ffff
                * 0x1_0000_0000_0000_0000 + 0x1_0000_0000_0000_0000) by (nonlinear_arith)
                requires
                    t <= 0xffff_ffff_ffff_ffff,
            ;
            if box_done[b] {
                sum = sum + pl.allocated_mines[b] as u128;
            }
            t += 1;
        }
        sum
    }

    /// Merge probabilities for a witness
    pub fn merge_probabilities(
        &self,
        working_probs: &Vec<ProbabilityLine>,
        wit_idx: usize,
        witnesses: &Vec<Witness>,
        boxes: &Vec<FrontierBox>,
        witness_done: &mut Vec<bool>,
        box_done: &mut Vec<bool>,
        max_total_mines: usize,
    ) -> (r: Vec<ProbabilityLine>)
        requires
            wit_idx < witnesses@.len(),
            old(witness_done)@.len() == witnesses@.len(),
            old(box_done)@.len() == boxes@.len(),
            graph_wf(views(witnesses@), views(boxes@)),
            lines_wf(views(working_probs@), boxes@.len()),
        ensures
            views(r@) == merge_lines(
                views(working_probs@),
                witnesses@[wit_idx as int]@,
                views(boxes@),
                old(box_done)@,
                max_total_mines as nat,
                working_probs@.len() as int,
            ),
            lines_wf(views(r@), boxes@.len()),
            final(witness_done)@ == old(witness_done)@.update(wit_idx as int, true),
            final(box_done)@ == mark_done(
                old(box_done)@,
                undone_boxes(
                    witnesses@[wit_idx as int].boxes@,
                    old(box_done)@,
                    witnesses@[wit_idx as int].boxes@.len() as int,
                ),
                undone_boxes(
                    witnesses@[wit_idx as int].boxes@,
                    old(box_done)@,
                    witnesses@[wit_idx as int].boxes@.len() as int,
                ).len() as int,
            ),
            final(box_done)@.len() == boxes@.len(),
    {
        let witness = &witnesses[wit_idx];
        let witness_mines = witness.mines as u128;
        let ghost w = witness@;
        let ghost bv = views(boxes@);
        let ghost lines = views(working_probs@);
        proof {
            assert(views(witnesses@)[wit_idx as int] == w);
            assert forall|t: int| 0 <= t < witness.boxes@.len() implies #[trigger] witness.boxes@[t]
                < boxes@.len() by {
                assert(views(witnesses@)[wit_idx as int].boxes[t] < bv.len());
            }
        }
        // The boxes of the witness that no earlier witness has reached
        let mut new_boxes: Vec<usize> = Vec::new();
        let mut t: usize = 0;
        while t < witness.boxes.len()
            invariant
                t <= witness.boxes@.len(),
                box_done@.len() == boxes@.len(),
                box_done@ == old(box_done)@,
                forall|t: int|
                    0 <= t < witness.boxes@.len() ==> #[trigger] witness.boxes@[t] < boxes@.len(),
                new_boxes@ == undone_boxes(witness.boxes@, box_done@, t as int),
                forall|t: int| 0 <= t < new_boxes@.len() ==> #[trigger] new_boxes@[t] < boxes@.len(),
            decreases witness.boxes@.len() - t,
        {
            if !box_done[witness.boxes[t]] {
                new_boxes.push(witness.boxes[t]);
            }
            t += 1;
        }
        let mut new_probs: Vec<ProbabilityLine> = Vec::new();
        assert(views(new_probs@) =~= Seq::<LineModel>::empty());
        let mut i: usize = 0;
        while i < working_probs.len()
            invariant
                i <= working_probs@.len(),
                w == witness@,
                bv == views(boxes@),
                lines == views(working_probs@),
                witness_mines == witness.mines,
                box_done@.len() == boxes@.len(),
                box_done@ == old(box_done)@,
                lines_wf(lines, boxes@.len()),
                forall|t: int|
                    0 <= t < witness.boxes@.len() ==> #[trigger] witness.boxes@[t] < boxes@.len(),
                new_boxes@ == undone_boxes(
                    witness.boxes@,
                    box_done@,
                    witness.boxes@.len() as int,
                ),
                forall|t: int| 0 <= t < new_boxes@.len() ==> #[trigger] new_boxes@[t] < boxes@.len(),
                lines_wf(views(new_probs@), boxes@.len()),
                views(new_probs@) == merge_lines(
                    lines,
                    w,
                    bv,
                    box_done@,
                    max_total_mines as nat,
                    i as int,
                ),
            decreases working_probs@.len() - i,
        {
            let pl = &working_probs[i];
            assert(pl@ == lines[i as int]);
            assert(lines[i as int].wf(boxes@.len()));
            let placed_mines = self.count_placed_mines(pl, &witness.boxes, box_done);
            let ghost step = merge_line(pl@, w, bv, box_done@, max_total_mines as nat);
            if placed_mines > witness_mines {
                // Invalid - too many mines already
                assert(views(new_probs@) + step =~= views(new_probs@));
            } else if placed_mines == witness_mines {
                // Already satisfied
                let kept = pl.clone();
                proof {
                    lemma_views_push(new_probs@, kept);
                    assert(views(new_probs@).push(kept@) =~= views(new_probs@) + step);
                }
                new_probs.push(kept);
            } else {
                let to_place = (witness_mines - placed_mines) as usize;
                let mut more = self.distribute_mines(
                    pl,
                    boxes,
                    to_place,
                    &new_boxes,
                    0,
                    max_total_mines,
                );
                proof {
                    lemma_views_add(new_probs@, more@);
                }
                new_probs.append(&mut more);
            }
            i += 1;
        }
        // Mark as processed
        witness_done.set(wit_idx, true);
        let mut t: usize = 0;
        while t < new_boxes.len()
            invariant
                t <= new_boxes@.len(),
                box_done@.len() == boxes@.len(),
                forall|t: int| 0 <= t < new_boxes@.len() ==> #[trigger] new_boxes@[t] < boxes@.len(),
                box_done@ == mark_done(old(box_done)@, new_boxes@, t as int),
            decreases new_boxes@.len() - t,
        {
            box_done.set(new_boxes[t], true);
            t += 1;
        }
        new_probs
    }
}

/// How far the walk over the witnesses has come.
pub struct Progress {
    /// Which witnesses are processed.
    pub witness_done: Seq<bool>,
    /// Which boxes are processed.
    pub box_done: Seq<bool>,
    /// The lines of the part of the board that is being walked.
    pub working: Seq<LineModel>,
    /// The lines of the parts that are finished, taken together.
    pub held: Seq<LineModel>,
}

/// How many entries of `done` are not set.
pub open spec fn undone_count(done: Seq<bool>) -> nat
    decreases done.len(),
{
    if done.len() == 0 {
        0
    } else {
        undone_count(done.drop_last()) + if done.last() {
            0nat
        } else {
            1nat
        }
    }
}

/// Setting an entry that was not set lowers the count by one.
pub proof fn lemma_undone_update(done: Seq<bool>, i: int)
    requires
        0 <= i < done.len(),
        !done[i],
    ensures
        undone_count(done.update(i, true)) + 1 == undone_count(done),
    decreases done.len(),
{
    let after = done.update(i, true);
    if i == done.len() - 1 {
        assert(after.drop_last() =~= done.drop_last());
    } else {
        lemma_undone_update(done.drop_last(), i);
        assert(after.drop_last() =~= done.drop_last().update(i, true));
    }
}

/// The state after witness `i` has been taken in.
pub open spec fn step(
    witnesses: Seq<WitnessModel>,
    boxes: Seq<BoxModel>,
    p: Progress,
    i: int,
    max: nat,
) -> Progress {
    let w = witnesses[i];
    let fresh = undone_boxes(w.boxes, p.box_done, w.boxes.len() as int);
    Progress {
        witness_done: p.witness_done.update(i, true),
        box_done: mark_done(p.box_done, fresh, fresh.len() as int),
        working: merge_lines(p.working, w, boxes, p.box_done, max, p.working.len() as int),
        held: p.held,
    }
}

/// The walk from the witness `current` on: each witness is taken in, then the
/// walk goes on with the next witness on the boundary; where there is none,
/// one connected part of the board is finished, its lines go to the held
/// lines, and the walk goes on with the first witness that is left.
pub open spec fn traverse(
    witnesses: Seq<WitnessModel>,
    boxes: Seq<BoxModel>,
    p: Progress,
    current: Option<usize>,
    max: nat,
) -> Progress
    decreases undone_count(p.witness_done),
{
    match current {
        None => p,
        Some(i) => if i >= p.witness_done.len() || p.witness_done[i as int] {
            p
        } else {
            let q = step(witnesses, boxes, p, i as int, max);
            proof {
                lemma_undone_update(p.witness_done, i as int);
            }
            match next_witness(witnesses, q.witness_done, q.box_done, witnesses.len() as int) {
                Some(next) => traverse(witnesses, boxes, q, Some(next), max),
                None => match first_undone(q.witness_done, 0) {
                    Some(next) => traverse(
                        witnesses,
                        boxes,
                        Progress {
                            witness_done: q.witness_done,
                            box_done: q.box_done,
                            working: seq![LineModel::fresh(boxes.len())],
                            held: store(q.held, q.working, max, boxes.len()),
                        },
                        Some(next),
                        max,
                    ),
                    None => q,
                },
            }
        },
    }
}

/// The lines that describe the whole frontier: one line per number of mines
/// that the frontier can hold.
pub open spec fn held_lines(witnesses: Seq<WitnessModel>, boxes: Seq<BoxModel>, max: nat) -> Seq<
    LineModel,
> {
    let start = Progress {
        witness_done: Seq::new(witnesses.len(), |i: int| false),
        box_done: Seq::new(boxes.len(), |i: int| false),
        working: seq![LineModel::fresh(boxes.len())],
        held: seq![LineModel::fresh(boxes.len())],
    };
    let end = traverse(witnesses, boxes, start, first_undone(start.witness_done, 0), max);
    store(end.held, end.working, max, boxes.len())
}

/// The mines that are not yet found.
pub open spec fn mines_left(b: BoardModel) -> nat {
    let known = count_cells(b.cells, CellSafety::Mine, b.cells.len() as int);
    if b.mines >= known {
        (b.mines - known) as nat
    } else {
        0
    }
}

/// The number of ways to put the mines that `pl` leaves over into the `wild`
/// cells away from the frontier; zero where they do not fit.
pub open spec fn line_weight(pl: LineModel, left: nat, wild: nat) -> nat {
    if pl.mine_count <= left && left <= pl.mine_count + wild {
        binomial(wild, (left - pl.mine_count) as nat)
    } else {
        0
    }
}

/// The solution counts of the first `n` lines, each taken once for every
/// way to put the mines that the line leaves over away from the frontier.
pub open spec fn total_weight(lines: Seq<LineModel>, left: nat, wild: nat, n: int) -> nat
    decreases n,
{
    if n <= 0 {
        0
    } else {
        total_weight(lines, left, wild, n - 1) + lines[n - 1].solution_count * line_weight(
            lines[n - 1],
            left,
            wild,
        )
    }
}

/// The counts that the first `n` lines hold for box `b`, each taken once
/// for every way to put the mines that the line leaves over away from the
/// frontier.
pub open spec fn box_weight(lines: Seq<LineModel>, b: int, left: nat, wild: nat, n: int) -> nat
    decreases n,
{
    if n <= 0 {
        0
    } else {
        box_weight(lines, b, left, wild, n - 1) + lines[n - 1].mine_box_count[b] * line_weight(
            lines[n - 1],
            left,
            wild,
        )
    }
}

/// The mines away from the frontier, summed over all ways to place all
/// mines, counted over the first `n` lines.
pub open spec fn wild_weight(lines: Seq<LineModel>, left: nat, wild: nat, n: int) -> nat
    decreases n,
{
    if n <= 0 {
        0
    } else {
        wild_weight(lines, left, wild, n - 1) + lines[n - 1].solution_count * ((left
            - lines[n - 1].mine_count) as nat) * line_weight(lines[n - 1], left, wild)
    }
}

/// `num / den` in units of `2^-32`, rounded down.
pub open spec fn fixed_point(num: nat, den: nat) -> nat {
    (num * 0x1_0000_0000) / den
}

/// What a cell is taken for when `num` of `den` equally likely placements put
/// a mine on it.
pub open spec fn verdict(num: nat, den: nat, frontier: bool) -> CellSafety {
    if num == 0 {
        CellSafety::Safe
    } else if num >= den {
        CellSafety::Mine
    } else {
        CellSafety::Probability(
            CellProbability { frontier, mine_probability: fixed_point(num, den) as u32 },
        )
    }
}

/// Writes `value` to the cell `(x, y)`; a safe cell becomes the suggestion
/// unless there is one. The flag says whether the pass has to end here: it
/// does where `stop` is set and the cell is the first one found to be safe.
pub open spec fn write_cell(b: BoardModel, x: usize, y: usize, value: CellSafety, stop: bool) -> (
    BoardModel,
    bool,
) {
    let marked = b.set(x as int, y as int, value);
    if value is Safe {
        (marked.suggest(x, y), stop && b.suggestion is None)
    } else {
        (marked, false)
    }
}

/// Writes `value` to the cells `cells[from..]`, up to the cell that ends the pass.
pub open spec fn write_cells(
    b: BoardModel,
    cells: Seq<(usize, usize)>,
    value: CellSafety,
    stop: bool,
    from: int,
) -> (BoardModel, bool)
    decreases cells.len() - from,
{
    if from < 0 || from >= cells.len() {
        (b, false)
    } else {
        let (next, halt) = write_cell(b, cells[from].0, cells[from].1, value, stop);
        if halt {
            (next, true)
        } else {
            write_cells(next, cells, value, stop, from + 1)
        }
    }
}

/// What the cells of box `j` are taken for.
pub open spec fn box_verdict(
    boxes: Seq<BoxModel>,
    lines: Seq<LineModel>,
    left: nat,
    wild: nat,
    j: int,
) -> CellSafety {
    verdict(
        box_weight(lines, j, left, wild, lines.len() as int),
        boxes[j].cells.len() * total_weight(lines, left, wild, lines.len() as int),
        true,
    )
}

/// Writes to the boxes `boxes[from..]` what their cells are taken for.
pub open spec fn write_boxes(
    b: BoardModel,
    boxes: Seq<BoxModel>,
    lines: Seq<LineModel>,
    left: nat,
    wild: nat,
    stop: bool,
    from: int,
) -> (BoardModel, bool)
    decreases boxes.len() - from,
{
    if from < 0 || from >= boxes.len() {
        (b, false)
    } else {
        let (next, halt) = write_cells(
            b,
            boxes[from].cells,
            box_verdict(boxes, lines, left, wild, from),
            stop,
            0,
        );
        if halt {
            (next, true)
        } else {
            write_boxes(next, boxes, lines, left, wild, stop, from + 1)
        }
    }
}

/// Goes over the cells from `(x, y)` on, row by row, and writes `on_frontier`
/// to the frontier cells and `on_wild` to the wilderness cells, each where it
/// is given.
pub open spec fn sweep(
    b: BoardModel,
    on_frontier: Option<CellSafety>,
    on_wild: Option<CellSafety>,
    stop: bool,
    width: nat,
    height: nat,
    x: int,
    y: int,
) -> (BoardModel, bool)
    decreases height - y, width - x,
{
    if y < 0 || y >= height || x < 0 {
        (b, false)
    } else if x >= width {
        sweep(b, on_frontier, on_wild, stop, width, height, 0, y + 1)
    } else {
        let value = match b.at(x, y) {
            CellSafety::Frontier => on_frontier,
            CellSafety::Wilderness => on_wild,
            _ => None,
        };
        match value {
            Some(v) => {
                let (next, halt) = write_cell(b, x as usize, y as usize, v, stop);
                if halt {
                    (next, true)
                } else {
                    sweep(next, on_frontier, on_wild, stop, width, height, x + 1, y)
                }
            },
            None => sweep(b, on_frontier, on_wild, stop, width, height, x + 1, y),
        }
    }
}

/// With no witness on the board every closed cell is as likely a mine as any
/// other: the mines that are left, over the closed cells.
pub open spec fn uniform(b: BoardModel, stop: bool) -> BoardModel {
    let closed = count_cells(b.cells, CellSafety::Frontier, b.cells.len() as int) + count_cells(
        b.cells,
        CellSafety::Wilderness,
        b.cells.len() as int,
    );
    if closed == 0 {
        b
    } else {
        sweep(
            b,
            Some(verdict(mines_left(b), closed, true)),
            Some(verdict(mines_left(b), closed, false)),
            stop,
            b.width,
            b.height,
            0,
            0,
        ).0
    }
}

/// What the probability engine makes of a snapshot.
pub open spec fn engine(b: BoardModel, stop: bool) -> BoardModel {
    let witnesses = board_witnesses(b);
    let boxes = board_boxes(b);
    if witnesses.len() == 0 {
        uniform(b, stop)
    } else if boxes.len() == 0 {
        b
    } else {
        let left = mines_left(b);
        let wild = count_cells(b.cells, CellSafety::Wilderness, b.cells.len() as int);
        let lines = held_lines(witnesses, boxes, left);
        let total = total_weight(lines, left, wild, lines.len() as int);
        if total == 0 {
            b
        } else {
            let (next, halt) = write_boxes(b, boxes, lines, left, wild, stop, 0);
            if halt || wild == 0 {
                next
            } else {
                sweep(
                    next,
                    None,
                    Some(
                        verdict(
                            wild_weight(lines, left, wild, lines.len() as int),
                            wild * total,
                            false,
                        ),
                    ),
                    stop,
                    b.width,
                    b.height,
                    0,
                    0,
                ).0
            }
        }
    }
}

/// `num / den` in units of `2^-32`, rounded down, for `num` below `den`.
fn ratio_bits(num: &BigNat, den: &BigNat) -> (r: u32)
    requires
        num@ < den@,
    ensures
        r == fixed_point(num@, den@),
{
    let mut rest = num.clone();
    let mut quotient: u64 = 0;
    let mut k: u32 = 0;
    proof {
        lemma2_to64();
        assert(num@ * pow2(0) == quotient * den@ + rest@) by (nonlinear_arith)
            requires
                pow2(0) == 1,
                quotient == 0,
                rest@ == num@,
        ;
    }
    while k < 32
        invariant
            k <= 32,
            rest@ < den@,
            quotient < pow2(k as nat),
            pow2(k as nat) <= 0x1_0000_0000,
            num@ * pow2(k as nat) == quotient * den@ + rest@,
        decreases 32 - k,
    {
        let doubled = rest.add(&rest);
        proof {
            lemma_pow2_unfold((k + 1) as nat);
            lemma2_to64();
            if k + 1 < 32 {
                vstd::arithmetic::power2::lemma_pow2_strictly_increases((k + 1) as nat, 32);
            }
            let p = pow2(k as nat);
            let q = quotient as nat;
            assert(num@ * (2 * p) == (2 * q) * den@ + 2 * rest@) by (nonlinear_arith)
                requires
                    num@ * p == q * den@ + rest@,
            ;
            assert(num@ * (2 * p) == (2 * q + 1) * den@ + (2 * rest@ - den@)) by (nonlinear_arith)
                requires
                    num@ * p == q * den@ + rest@,
            ;
        }
        if doubled.lt(den) {
            rest = doubled;
            quotient = 2 * quotient;
        } else {
            rest = doubled.sub(den);
            quotient = 2 * quotient + 1;
        }
        k += 1;
    }
    proof {
        lemma2_to64();
        assert(num@ * 0x1_0000_0000 == quotient * den@ + rest@);
        lemma_fundamental_div_mod_converse(
            (num@ * 0x1_0000_0000) as int,
            den@ as int,
            quotient as int,
            rest@ as int,
        );
    }
    quotient as u32
}

/// What a cell is taken for when `num` of `den` equally likely placements put
/// a mine on it.
fn decide(num: &BigNat, den: &BigNat, frontier: bool) -> (r: CellSafety)
    ensures
        r == verdict(num@, den@, frontier),
{
    if num.is_zero() {
        CellSafety::Safe
    } else if !num.lt(den) {
        CellSafety::Mine
    } else {
        CellSafety::Probability(CellProbability { frontier, mine_probability: ratio_bits(num, den) })
    }
}

impl ProbabilityCalculator {
    /// Walks over all witnesses and gathers the lines of the whole frontier.
    fn collect_lines(
        &self,
        witnesses: &Vec<Witness>,
        boxes: &Vec<FrontierBox>,
        max_total_mines: usize,
    ) -> (r: Vec<ProbabilityLine>)
        requires
            graph_wf(views(witnesses@), views(boxes@)),
        ensures
            views(r@) == held_lines(views(witnesses@), views(boxes@), max_total_mines as nat),
            lines_wf(views(r@), boxes@.len()),
    {
        let ghost ws = views(witnesses@);
        let ghost bs = views(boxes@);
        let ghost max = max_total_mines as nat;
        let box_count = boxes.len();
        let witness_count = witnesses.len();
        let mut witness_done: Vec<bool> = vec![false; witness_count];
        let mut box_done: Vec<bool> = vec![false; box_count];
        let mut held_probs: Vec<ProbabilityLine> = Vec::new();
        held_probs.push(ProbabilityLine::new(box_count));
        let mut working_probs: Vec<ProbabilityLine> = Vec::new();
        working_probs.push(ProbabilityLine::new(box_count));
        let mut current_witness = self.find_first_witness(&witness_done);
        proof {
            assert(witness_done@ =~= Seq::new(ws.len(), |i: int| false));
            assert(box_done@ =~= Seq::new(bs.len(), |i: int| false));
            assert(views(held_probs@) =~= seq![LineModel::fresh(bs.len())]);
            assert(views(working_probs@) =~= seq![LineModel::fresh(bs.len())]);
        }
        let ghost goal = traverse(
            ws,
            bs,
            Progress {
                witness_done: witness_done@,
                box_done: box_done@,
                working: views(working_probs@),
                held: views(held_probs@),
            },
            current_witness,
            max,
        );
        while current_witness.is_some()
            invariant
                ws == views(witnesses@),
                bs == views(boxes@),
                max == max_total_mines as nat,
                box_count == boxes@.len(),
                graph_wf(ws, bs),
                witness_done@.len() == witnesses@.len(),
                box_done@.len() == boxes@.len(),
                lines_wf(views(working_probs@), boxes@.len()),
                lines_wf(views(held_probs@), boxes@.len()),
                current_witness matches Some(i) ==> i < witnesses@.len() && !witness_done@[i as int],
                goal == traverse(
                    ws,
                    bs,
                    Progress {
                        witness_done: witness_done@,
                        box_done: box_done@,
                        working: views(working_probs@),
                        held: views(held_probs@),
                    },
                    current_witness,
                    max,
                ),
            decreases undone_count(witness_done@),
        {
            let wit_idx = current_witness.unwrap();
            let ghost before = Progress {
                witness_done: witness_done@,
                box_done: box_done@,
                working: views(working_probs@),
                held: views(held_probs@),
            };
            proof {
                lemma_undone_update(witness_done@, wit_idx as int);
                assert(ws[wit_idx as int] == witnesses@[wit_idx as int]@);
                assert forall|w: int, t: int|
                    0 <= w < witnesses@.len() && 0 <= t < witnesses@[w].boxes@.len() implies #[trigger] witnesses@[w].boxes@[t]
                    < boxes@.len() by {
                    assert(ws[w].boxes[t] < bs.len());
                }
            }
            working_probs =
            self.merge_probabilities(
                &working_probs,
                wit_idx,
                witnesses,
                boxes,
                &mut witness_done,
                &mut box_done,
                max_total_mines,
            );
            let ghost after = step(ws, bs, before, wit_idx as int, max);
            assert(after.witness_done == witness_done@);
            assert(after.box_done == box_done@);
            assert(after.working == views(working_probs@));
            current_witness = self.find_next_witness(witnesses, &witness_done, &box_done);
            // If no next witness on boundary, we've completed an independent group
            if current_witness.is_none() {
                // Check for any remaining unprocessed witnesses
                let next_wit = self.find_first_witness(&witness_done);
                if next_wit.is_some() {
                    // Store current probabilities and start new group
                    held_probs =
                    self.store_probabilities(
                        &held_probs,
                        &working_probs,
                        max_total_mines,
                        box_count,
                    );
                    working_probs = Vec::new();
                    working_probs.push(ProbabilityLine::new(box_count));
                    assert(views(working_probs@) =~= seq![LineModel::fresh(bs.len())]);
                    current_witness = next_wit;
                }
            }
        }
        // Store final working probabilities
        self.store_probabilities(&held_probs, &working_probs, max_total_mines, box_count)
    }

    /// Writes what the cell `(x, y)` is taken for. A safe cell becomes the
    /// suggestion unless there is one. Returns `true` if the pass has to end
    /// at the safe cell just written.
    pub fn set_probability(&self, board: &mut BoardSafety, x: usize, y: usize, value: CellSafety) -> (halt:
        bool)
        requires
            old(board).wf(),
            old(board)@.in_range(x as int, y as int),
        ensures
            final(board).wf(),
            (final(board)@, halt) == write_cell(
                old(board)@,
                x,
                y,
                value,
                self.stops_on_first_safe(),
            ),
    {
        board.set(x, y, value);
        let mut halt = false;
        match value {
            CellSafety::Safe => {
                if board.suggestion().is_none() {
                    board.suggest(x, y);
                    halt = self.stop_on_first_safe;
                }
            },
            _ => {},
        }
        halt
    }
}

impl ProbabilityCalculator {
    /// Adds up, over all lines, the ways to place all mines: in total, per
    /// box weighted by the mines in the box, and weighted by the mines away
    /// from the frontier.
    fn tally(&self, lines: &Vec<ProbabilityLine>, box_count: usize, left: usize, wild: usize) -> (r:
        (BigNat, Vec<BigNat>, BigNat))
        requires
            lines_wf(views(lines@), box_count as nat),
        ensures
            r.0@ == total_weight(views(lines@), left as nat, wild as nat, lines@.len() as int),
            r.1@.len() == box_count,
            forall|b: int|
                0 <= b < box_count ==> (#[trigger] r.1@[b])@ == box_weight(
                    views(lines@),
                    b,
                    left as nat,
                    wild as nat,
                    lines@.len() as int,
                ),
            r.2@ == wild_weight(views(lines@), left as nat, wild as nat, lines@.len() as int),
    {
        let ghost lv = views(lines@);
        let mut total = BigNat::zero();
        let mut off_edge = BigNat::zero();
        let mut box_tallies: Vec<BigNat> = Vec::new();
        let mut b: usize = 0;
        while b < box_count
            invariant
                b <= box_count,
                box_tallies@.len() == b,
                forall|j: int| 0 <= j < b ==> (#[trigger] box_tallies@[j])@ == 0,
            decreases box_count - b,
        {
            box_tallies.push(BigNat::zero());
            b += 1;
        }
        let mut i: usize = 0;
        while i < lines.len()
            invariant
                i <= lines@.len(),
                lv == views(lines@),
                lines_wf(lv, box_count as nat),
                box_tallies@.len() == box_count,
                total@ == total_weight(lv, left as nat, wild as nat, i as int),
                off_edge@ == wild_weight(lv, left as nat, wild as nat, i as int),
                forall|j: int|
                    0 <= j < box_count ==> (#[trigger] box_tallies@[j])@ == box_weight(
                        lv,
                        j,
                        left as nat,
                        wild as nat,
                        i as int,
                    ),
            decreases lines@.len() - i,
        {
            let pl = &lines[i];
            assert(pl@ == lv[i as int]);
            assert(lv[i as int].wf(box_count as nat));
            let ghost weight = line_weight(pl@, left as nat, wild as nat);
            if pl.mine_count <= left && left - pl.mine_count <= wild {
                let off_edge_mines = left - pl.mine_count;
                let mult = choose_count(wild, off_edge_mines);
                let share = pl.solution_count.mul(&mult);
                total = total.add(&share);
                let beyond = pl.solution_count.mul_small(off_edge_mines as u64).mul(&mult);
                off_edge = off_edge.add(&beyond);
                let mut j: usize = 0;
                while j < box_count
                    invariant
                        j <= box_count,
                        i < lines@.len(),
                        lv == views(lines@),
                        pl@ == lv[i as int],
                        pl@.wf(box_count as nat),
                        mult@ == weight,
                        weight == line_weight(pl@, left as nat, wild as nat),
                        box_tallies@.len() == box_count,
                        forall|t: int|
                            0 <= t < j ==> (#[trigger] box_tallies@[t])@ == box_weight(
                                lv,
                                t,
                                left as nat,
                                wild as nat,
                                i + 1,
                            ),
                        forall|t: int|
                            j <= t < box_count ==> (#[trigger] box_tallies@[t])@ == box_weight(
                                lv,
                                t,
                                left as nat,
                                wild as nat,
                                i as int,
                            ),
                    decreases box_count - j,
                {
                    assert(pl@.mine_box_count[j as int] == pl.mine_box_count@[j as int]@);
                    let part = pl.mine_box_count[j].mul(&mult);
                    let sum = box_tallies[j].add(&part);
                    box_tallies.set(j, sum);
                    j += 1;
                }
            } else {
                proof {
                    assert(weight == 0);
                    assert(pl@.solution_count * weight == 0) by (nonlinear_arith)
                        requires
                            weight == 0,
                    ;
                    assert(pl@.solution_count * ((left - pl@.mine_count) as nat) * weight == 0)
                        by (nonlinear_arith)
                        requires
                            weight == 0,
                    ;
                    assert forall|t: int| 0 <= t < box_count implies box_weight(
                        lv,
                        t,
                        left as nat,
                        wild as nat,
                        i + 1,
                    ) == box_weight(lv, t, left as nat, wild as nat, i as int) by {
                        assert(pl@.mine_box_count[t] * weight == 0) by (nonlinear_arith)
                            requires
                                weight == 0,
                        ;
                    }
                }
            }
            i += 1;
        }
        (total, box_tallies, off_edge)
    }

    /// Writes to every box what its cells are taken for.
    /// Returns `true` if the pass has to end at a safe cell just written.
    fn write_boxes(
        &self,
        board: &mut BoardSafety,
        boxes: &Vec<FrontierBox>,
        total: &BigNat,
        box_tallies: &Vec<BigNat>,
        Ghost(lines): Ghost<Seq<LineModel>>,
        Ghost(left): Ghost<nat>,
        Ghost(wild): Ghost<nat>,
    ) -> (halt: bool)
        requires
            old(board).wf(),
            grouped(old(board)@, views(boxes@)),
            total@ == total_weight(lines, left, wild, lines.len() as int),
            box_tallies@.len() == boxes@.len(),
            forall|b: int|
                0 <= b < boxes@.len() ==> (#[trigger] box_tallies@[b])@ == box_weight(
                    lines,
                    b,
                    left,
                    wild,
                    lines.len() as int,
                ),
        ensures
            final(board).wf(),
            (final(board)@, halt) == write_boxes(
                old(board)@,
                views(boxes@),
                lines,
                left,
                wild,
                self.stops_on_first_safe(),
                0,
            ),
            keeps_certain(old(board)@, final(board)@),
    {
        let ghost bs = views(boxes@);
        let ghost stop = self.stops_on_first_safe();
        let ghost goal = write_boxes(old(board)@, bs, lines, left, wild, stop, 0);
        let mut j: usize = 0;
        proof {
            lemma_keeps_certain_same(board@);
        }
        while j < boxes.len()
            invariant
                j <= boxes@.len(),
                board.wf(),
                bs == views(boxes@),
                grouped(old(board)@, bs),
                stop == self.stops_on_first_safe(),
                total@ == total_weight(lines, left, wild, lines.len() as int),
                box_tallies@.len() == boxes@.len(),
                forall|b: int|
                    0 <= b < boxes@.len() ==> (#[trigger] box_tallies@[b])@ == box_weight(
                        lines,
                        b,
                        left,
                        wild,
                        lines.len() as int,
                    ),
                keeps_certain(old(board)@, board@),
                goal == write_boxes(old(board)@, bs, lines, left, wild, stop, 0),
                goal == write_boxes(board@, bs, lines, left, wild, stop, j as int),
            decreases boxes@.len() - j,
        {
            let cells = &boxes[j].cells;
            assert(bs[j as int].cells == cells@);
            let den = total.mul_small(cells.len() as u64);
            proof {
                assert(den@ == cells@.len() * total@) by (nonlinear_arith)
                    requires
                        den@ == total@ * cells@.len(),
                ;
            }
            let value = decide(&box_tallies[j], &den, true);
            assert(value == box_verdict(bs, lines, left, wild, j as int));
            let ghost start = board@;
            let ghost row = write_cells(start, cells@, value, stop, 0);
            let mut t: usize = 0;
            while t < cells.len()
                invariant
                    t <= cells@.len(),
                    board.wf(),
                    stop == self.stops_on_first_safe(),
                    keeps_certain(old(board)@, board@),
                    j < boxes@.len(),
                    bs == views(boxes@),
                    grouped(old(board)@, bs),
                    bs[j as int].cells == cells@,
                    value == box_verdict(bs, lines, left, wild, j as int),
                    goal == write_boxes(old(board)@, bs, lines, left, wild, stop, 0),
                    goal == write_boxes(start, bs, lines, left, wild, stop, j as int),
                    row == write_cells(start, cells@, value, stop, 0),
                    row == write_cells(board@, cells@, value, stop, t as int),
                decreases cells@.len() - t,
            {
                let (x, y) = cells[t];
                proof {
                    assert(frontier_under(old(board)@, bs[j as int].cells[t as int], bs[j as int].witnesses));
                    lemma_write_cell_keeps(old(board)@, board@, x, y, value, stop);
                }
                if self.set_probability(board, x, y, value) {
                    return true;
                }
                t += 1;
            }
            j += 1;
        }
        false
    }

    /// Goes over the board row by row and writes `on_frontier` to the frontier
    /// cells and `on_wild` to the wilderness cells, each where it is given.
    /// Returns `true` if the pass has to end at a safe cell just written.
    fn sweep(
        &self,
        board: &mut BoardSafety,
        on_frontier: Option<CellSafety>,
        on_wild: Option<CellSafety>,
    ) -> (halt: bool)
        requires
            old(board).wf(),
        ensures
            final(board).wf(),
            (final(board)@, halt) == sweep(
                old(board)@,
                on_frontier,
                on_wild,
                self.stops_on_first_safe(),
                old(board)@.width,
                old(board)@.height,
                0,
                0,
            ),
            keeps_certain(old(board)@, final(board)@),
    {
        let width = board.width();
        let height = board.height();
        let ghost stop = self.stops_on_first_safe();
        let ghost goal = sweep(
            old(board)@,
            on_frontier,
            on_wild,
            stop,
            width as nat,
            height as nat,
            0,
            0,
        );
        let mut y: usize = 0;
        proof {
            lemma_keeps_certain_same(board@);
        }
        while y < height
            invariant
                y <= height,
                board.wf(),
                width == board@.width,
                height == board@.height,
                width == old(board)@.width,
                height == old(board)@.height,
                stop == self.stops_on_first_safe(),
                keeps_certain(old(board)@, board@),
                goal == sweep(
                    old(board)@,
                    on_frontier,
                    on_wild,
                    stop,
                    width as nat,
                    height as nat,
                    0,
                    0,
                ),
                goal == sweep(
                    board@,
                    on_frontier,
                    on_wild,
                    stop,
                    width as nat,
                    height as nat,
                    0,
                    y as int,
                ),
            decreases height - y,
        {
            let mut x: usize = 0;
            while x < width
                invariant
                    x <= width,
                    y < height,
                    board.wf(),
                    width == board@.width,
                    height == board@.height,
                    width == old(board)@.width,
                    height == old(board)@.height,
                    stop == self.stops_on_first_safe(),
                    keeps_certain(old(board)@, board@),
                    goal == sweep(
                        old(board)@,
                        on_frontier,
                        on_wild,
                        stop,
                        width as nat,
                        height as nat,
                        0,
                        0,
                    ),
                    goal == sweep(
                        board@,
                        on_frontier,
                        on_wild,
                        stop,
                        width as nat,
                        height as nat,
                        x as int,
                        y as int,
                    ),
                decreases width - x,
            {
                let value = match board.cell(x, y) {
                    CellSafety::Frontier => on_frontier,
                    CellSafety::Wilderness => on_wild,
                    _ => None,
                };
                match value {
                    Some(v) => {
                        let ghost before = board@;
                        proof {
                            lemma_keeps_certain_same(before);
                            lemma_write_cell_keeps(before, before, x, y, v, stop);
                        }
                        let halt = self.set_probability(board, x, y, v);
                        proof {
                            lemma_keeps_certain_chain(old(board)@, before, board@);
                        }
                        if halt {
                            return true;
                        }
                    },
                    None => {},
                }
                x += 1;
            }
            y += 1;
        }
        false
    }

    /// Computes for every closed cell the chance of a mine and writes it to
    /// the snapshot; a chance of zero makes the cell safe, a certain mine
    /// makes it a mine. Cells that are already settled stay as they are.
    pub fn refine(&self, board: BoardSafety) -> (r: BoardSafety)
        requires
            board.wf(),
        ensures
            r.wf(),
            r@ == engine(board@, self.stops_on_first_safe()),
            keeps_certain(board@, r@),
    {
        let mut work = board;
        let (witnesses, boxes) = self.build_witnesses_and_boxes(&work);
        let known_mines = work.count(CellSafety::Mine);
        let mines_left = work.mines().saturating_sub(known_mines);
        let wilderness_count = work.count(CellSafety::Wilderness);
        // Special case: no witnesses means all numbered cells are satisfied
        if witnesses.len() == 0 {
            let frontier_count = work.count(CellSafety::Frontier);
            let total_cells = work.cell_count();
            assert(total_cells == work@.cells.len());
            proof {
                lemma_counts_fit(work@.cells, work@.cells.len() as int);
            }
            let closed = frontier_count + wilderness_count;
            if closed > 0 {
                let num = BigNat::from_usize(mines_left);
                let den = BigNat::from_usize(closed);
                let on_frontier = decide(&num, &den, true);
                let on_wild = decide(&num, &den, false);
                self.sweep(&mut work, Some(on_frontier), Some(on_wild));
            }
            return work;
        }
        // If no boxes but there are witnesses, something is wrong
        if boxes.len() == 0 {
            return work;
        }
        let lines = self.collect_lines(&witnesses, &boxes, mines_left);
        let (total, box_tallies, off_edge) = self.tally(
            &lines,
            boxes.len(),
            mines_left,
            wilderness_count,
        );
        if total.is_zero() {
            return work;
        }
        let ghost start = work@;
        proof {
            work.lemma_dims_fit();
            lemma_boxes_group_the_frontier(work@);
        }
        let halt = self.write_boxes(
            &mut work,
            &boxes,
            &total,
            &box_tallies,
            Ghost(views(lines@)),
            Ghost(mines_left as nat),
            Ghost(wilderness_count as nat),
        );
        if halt || wilderness_count == 0 {
            return work;
        }
        let den = total.mul_small(wilderness_count as u64);
        proof {
            assert(den@ == wilderness_count * total@) by (nonlinear_arith)
                requires
                    den@ == total@ * wilderness_count,
            ;
        }
        let on_wild = decide(&off_edge, &den, false);
        let ghost middle = work@;
        self.sweep(&mut work, None, Some(on_wild));
        proof {
            lemma_keeps_certain_chain(start, middle, work@);
        }
        work
    }
}

/// Two kinds of cells together are no more than all cells.
pub proof fn lemma_counts_fit(cells: Seq<CellSafety>, n: int)
    requires
        0 <= n <= cells.len(),
    ensures
        count_cells(cells, CellSafety::Frontier, n) + count_cells(cells, CellSafety::Wilderness, n)
            <= n,
    decreases n,
{
    if n > 0 {
        lemma_counts_fit(cells, n - 1);
    }
}

impl Solver for ProbabilityCalculator {
    open spec fn outcome(&self, board: BoardModel) -> Result<BoardModel, Error> {
        Ok(engine(board, self.stops_on_first_safe()))
    }

    fn calculate(&self, board: BoardSafety) -> (r: Result<BoardSafety, Error>) {
        Ok(self.refine(board))
    }
}

} // verus!
