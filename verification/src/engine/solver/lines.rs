//! Probability lines: each line is one hypothesis about how many mines lie in
//! each box, together with the number of ways to realise it.

use vstd::prelude::*;
use crate::base::bignat::BigNat;
use crate::base::binomial::{binomial, choose_count};
use super::constraints::{views, BoxModel, FrontierBox};
use super::probability::ProbabilityCalculator;

verus! {

/// The mathematical content of a probability line.
pub struct LineModel {
    /// Mines placed by this line, over all boxes.
    pub mine_count: nat,
    /// Number of cell-by-cell placements that the line stands for.
    pub solution_count: nat,
    /// For each box, a count of mines weighted by placements. While a line
    /// is `exact` this is the mines that it allocates to the box, once for
    /// each placement; merging lines adds their counts up.
    pub mine_box_count: Seq<nat>,
    /// For each box, the mines that the line puts into it.
    pub allocated_mines: Seq<nat>,
}

impl LineModel {
    /// The line that places nothing, over `box_count` boxes.
    pub open spec fn fresh(box_count: nat) -> LineModel {
        LineModel {
            mine_count: 0,
            solution_count: 1,
            mine_box_count: Seq::new(box_count, |i: int| 0nat),
            allocated_mines: Seq::new(box_count, |i: int| 0nat),
        }
    }

    /// The line speaks of exactly `box_count` boxes.
    pub open spec fn wf(self, box_count: nat) -> bool {
        self.mine_box_count.len() == box_count && self.allocated_mines.len() == box_count
    }

    /// The line after `mines` more mines went into box `b` of `size` cells.
    ///
    /// Each placement of the line goes on in `binomial(size, mines)` ways, so
    /// every count of the line grows by that factor; box `b` holds `mines`
    /// more mines in each of the placements.
    pub open spec fn extend(self, b: int, size: nat, mines: nat) -> LineModel {
        let ways = binomial(size, mines);
        LineModel {
            mine_count: self.mine_count + mines,
            solution_count: self.solution_count * ways,
            mine_box_count: Seq::new(
                self.mine_box_count.len(),
                |i: int|
                    if i == b {
                        (self.mine_box_count[i] + mines * self.solution_count) * ways
                    } else {
                        self.mine_box_count[i] * ways
                    },
            ),
            allocated_mines: self.allocated_mines.update(b, mines),
        }
    }

    /// Every count per box is the mines that the line puts into the box, once
    /// for each of its placements. This holds of a line until it is merged
    /// with others.
    pub open spec fn exact(self) -> bool {
        forall|i: int|
            0 <= i < self.mine_box_count.len() ==> #[trigger] self.mine_box_count[i]
                == self.allocated_mines[i] * self.solution_count
    }

    /// The line that stands for the placements of `self` and of `other`
    /// together; it keeps the allocation of `self`.
    pub open spec fn absorb(self, other: LineModel) -> LineModel {
        LineModel {
            mine_count: self.mine_count,
            solution_count: self.solution_count + other.solution_count,
            mine_box_count: Seq::new(
                self.mine_box_count.len(),
                |i: int| self.mine_box_count[i] + other.mine_box_count[i],
            ),
            allocated_mines: self.allocated_mines,
        }
    }

    /// The line for every pairing of a placement of `self` with one of
    /// `other`, two lines over separate parts of the board.
    pub open spec fn combine(self, other: LineModel, box_count: nat) -> LineModel {
        LineModel {
            mine_count: self.mine_count + other.mine_count,
            solution_count: self.solution_count * other.solution_count,
            mine_box_count: Seq::new(
                box_count,
                |i: int|
                    self.mine_box_count[i] * other.solution_count + other.mine_box_count[i]
                        * self.solution_count,
            ),
            allocated_mines: Seq::new(box_count, |i: int| 0nat),
        }
    }
}

/// Every line speaks of exactly `box_count` boxes.
pub open spec fn lines_wf(lines: Seq<LineModel>, box_count: nat) -> bool {
    forall|i: int| 0 <= i < lines.len() ==> (#[trigger] lines[i]).wf(box_count)
}

/// A probability line representing a possible mine distribution
#[derive(Debug)]
pub struct ProbabilityLine {
    pub mine_count: usize,
    pub solution_count: BigNat,
    /// count of mines in each box weighted by solutions
    pub mine_box_count: Vec<BigNat>,
    /// actual number of mines allocated to each box
    pub allocated_mines: Vec<usize>,
}

impl View for ProbabilityLine {
    type V = LineModel;

    open spec fn view(&self) -> LineModel {
        LineModel {
            mine_count: self.mine_count as nat,
            solution_count: self.solution_count@,
            mine_box_count: views(self.mine_box_count@),
            allocated_mines: Seq::new(
                self.allocated_mines@.len(),
                |i: int| self.allocated_mines@[i] as nat,
            ),
        }
    }
}

impl Clone for ProbabilityLine {
    fn clone(&self) -> (r: Self)
        ensures
            r@ == self@,
    {
        let mut counts: Vec<BigNat> = Vec::new();
        let mut i: usize = 0;
        while i < self.mine_box_count.len()
            invariant
                i <= self.mine_box_count@.len(),
                counts@.len() == i,
                forall|j: int| 0 <= j < i ==> (#[trigger] counts@[j])@ == self.mine_box_count@[j]@,
            decreases self.mine_box_count@.len() - i,
        {
            counts.push(self.mine_box_count[i].clone());
            i += 1;
        }
        let allocated = self.allocated_mines.clone();
        let r = ProbabilityLine {
            mine_count: self.mine_count,
            solution_count: self.solution_count.clone(),
            mine_box_count: counts,
            allocated_mines: allocated,
        };
        proof {
            assert(allocated@ =~= self.allocated_mines@);
            assert(r@.mine_box_count =~= self@.mine_box_count);
            assert(r@.allocated_mines =~= self@.allocated_mines);
        }
        r
    }
}

impl ProbabilityLine {
    /// The line that places nothing, over `box_count` boxes.
    pub fn new(box_count: usize) -> (r: Self)
        ensures
            r@ == LineModel::fresh(box_count as nat),
    {
        let mut counts: Vec<BigNat> = Vec::new();
        let mut allocated: Vec<usize> = Vec::new();
        let mut i: usize = 0;
        while i < box_count
            invariant
                i <= box_count,
                counts@.len() == i,
                allocated@.len() == i,
                forall|j: int| 0 <= j < i ==> (#[trigger] counts@[j])@ == 0,
                forall|j: int| 0 <= j < i ==> #[trigger] allocated@[j] == 0,
            decreases box_count - i,
        {
            counts.push(BigNat::zero());
            allocated.push(0);
            i += 1;
        }
        let r = ProbabilityLine {
            mine_count: 0,
            solution_count: BigNat::from_u64(1),
            mine_box_count: counts,
            allocated_mines: allocated,
        };
        proof {
            assert(r@.mine_box_count =~= LineModel::fresh(box_count as nat).mine_box_count);
            assert(r@.allocated_mines =~= LineModel::fresh(box_count as nat).allocated_mines);
        }
        r
    }

    /// The line after `mines` more mines went into box `b` of `size` cells.
    pub fn extend(&self, b: usize, size: usize, mines: usize) -> (r: Self)
        requires
            b < self@.mine_box_count.len(),
            b < self@.allocated_mines.len(),
            self.mine_count + mines <= usize::MAX,
        ensures
            r@ == self@.extend(b as int, size as nat, mines as nat),
    {
        let ways = choose_count(size, mines);
        let n = self.mine_box_count.len();
        let mut counts: Vec<BigNat> = Vec::new();
        let mut i: usize = 0;
        while i < n
            invariant
                i <= n,
                n == self.mine_box_count@.len(),
                b < n,
                ways@ == binomial(size as nat, mines as nat),
                counts@.len() == i,
                forall|j: int|
                    0 <= j < i ==> (#[trigger] counts@[j])@ == self@.extend(
                        b as int,
                        size as nat,
                        mines as nat,
                    ).mine_box_count[j],
            decreases n - i,
        {
            let count = if i == b {
                let more = self.solution_count.mul_small(mines as u64);
                proof {
                    assert(self.solution_count@ * mines == mines * self.solution_count@)
                        by (nonlinear_arith);
                }
                self.mine_box_count[i].add(&more).mul(&ways)
            } else {
                self.mine_box_count[i].mul(&ways)
            };
            counts.push(count);
            i += 1;
        }
        let mut allocated = self.allocated_mines.clone();
        assert(allocated@ =~= self.allocated_mines@);
        allocated.set(b, mines);
        let r = ProbabilityLine {
            mine_count: self.mine_count + mines,
            solution_count: self.solution_count.mul(&ways),
            mine_box_count: counts,
            allocated_mines: allocated,
        };
        proof {
            let goal = self@.extend(b as int, size as nat, mines as nat);
            assert(r@.mine_box_count =~= goal.mine_box_count);
            assert(r@.allocated_mines =~= goal.allocated_mines);
        }
        r
    }
}

/// The lines that extend `pl` by `missing` mines over the boxes
/// `new_boxes[index..]`: every way to split the mines over those boxes, the
/// last box taking what the others leave, as long as no more than `max` mines
/// are placed in all.
pub open spec fn distribute(
    pl: LineModel,
    boxes: Seq<BoxModel>,
    missing: nat,
    new_boxes: Seq<usize>,
    index: nat,
    max: nat,
) -> Seq<LineModel>
    decreases new_boxes.len() - index, 1nat, 0nat,
{
    if index >= new_boxes.len() || pl.mine_count + missing > max {
        Seq::empty()
    } else {
        let b = new_boxes[index as int] as int;
        let size = boxes[b].cells.len();
        if index + 1 == new_boxes.len() {
            if missing > size {
                Seq::empty()
            } else {
                seq![pl.extend(b, size, missing)]
            }
        } else {
            distribute_from(pl, boxes, missing, new_boxes, index, max, 0)
        }
    }
}

/// The part of `distribute` that puts at least `mines` mines into the box
/// `new_boxes[index]`, which is not the last one.
pub open spec fn distribute_from(
    pl: LineModel,
    boxes: Seq<BoxModel>,
    missing: nat,
    new_boxes: Seq<usize>,
    index: nat,
    max: nat,
    mines: nat,
) -> Seq<LineModel>
    decreases new_boxes.len() - index, 0nat, missing + 1 - mines,
{
    if index + 1 >= new_boxes.len() {
        Seq::empty()
    } else {
        let b = new_boxes[index as int] as int;
        let size = boxes[b].cells.len();
        if mines > missing || mines > size {
            Seq::empty()
        } else {
            distribute(
                pl.extend(b, size, mines),
                boxes,
                (missing - mines) as nat,
                new_boxes,
                index + 1,
                max,
            ) + distribute_from(pl, boxes, missing, new_boxes, index, max, mines + 1)
        }
    }
}

/// The views of two vectors laid end to end are the views laid end to end.
pub proof fn lemma_views_add<T: View>(a: Seq<T>, b: Seq<T>)
    ensures
        views(a + b) == views(a) + views(b),
{
    assert(views(a + b) =~= views(a) + views(b));
}

/// The view of a vector with one more element.
pub proof fn lemma_views_push<T: View>(a: Seq<T>, x: T)
    ensures
        views(a.push(x)) == views(a).push(x@),
{
    assert(views(a.push(x)) =~= views(a).push(x@));
}

impl ProbabilityCalculator {
    /// Distribute missing mines among new boxes
    pub fn distribute_mines(
        &self,
        pl: &ProbabilityLine,
        boxes: &Vec<FrontierBox>,
        missing_mines: usize,
        new_boxes: &Vec<usize>,
        index: usize,
        max_total_mines: usize,
    ) -> (r: Vec<ProbabilityLine>)
        requires
            pl@.wf(boxes@.len()),
            forall|t: int| 0 <= t < new_boxes@.len() ==> #[trigger] new_boxes@[t] < boxes@.len(),
        ensures
            views(r@) == distribute(
                pl@,
                views(boxes@),
                missing_mines as nat,
                new_boxes@,
                index as nat,
                max_total_mines as nat,
            ),
            lines_wf(views(r@), boxes@.len()),
        decreases new_boxes@.len() - index, 1nat, 0nat,
    {
        let mut result: Vec<ProbabilityLine> = Vec::new();
        if index >= new_boxes.len() {
            assert(views(result@) =~= Seq::<LineModel>::empty());
            return result;
        }
        if pl.mine_count > max_total_mines || missing_mines > max_total_mines - pl.mine_count {
            assert(views(result@) =~= Seq::<LineModel>::empty());
            return result;
        }
        let box_idx = new_boxes[index];
        let box_size = boxes[box_idx].cells.len();
        assert(views(boxes@)[box_idx as int].cells.len() == box_size);
        if new_boxes.len() - index == 1 {
            // Last box - place all remaining mines here
            if missing_mines > box_size {
                assert(views(result@) =~= Seq::<LineModel>::empty());
                return result;
            }
            let line = pl.extend(box_idx, box_size, missing_mines);
            proof {
                lemma_views_push(result@, line);
                assert(views(result@) =~= Seq::<LineModel>::empty());
                assert(views(result@).push(line@) =~= seq![line@]);
            }
            result.push(line);
            return result;
        }
        // Try every share of the mines for this box, and the rest for the others
        let ghost goal = distribute_from(
            pl@,
            views(boxes@),
            missing_mines as nat,
            new_boxes@,
            index as nat,
            max_total_mines as nat,
            0,
        );
        let most = if missing_mines < box_size {
            missing_mines
        } else {
            box_size
        };
        let mut mines_here: usize = 0;
        let last = new_boxes.len() - 1;
        proof {
            assert(views(result@) =~= Seq::<LineModel>::empty());
            assert(Seq::<LineModel>::empty() + goal =~= goal);
        }
        while mines_here <= most
            invariant_except_break
                mines_here <= most,
                goal == views(result@) + distribute_from(
                    pl@,
                    views(boxes@),
                    missing_mines as nat,
                    new_boxes@,
                    index as nat,
                    max_total_mines as nat,
                    mines_here as nat,
                ),
            invariant
                most == if missing_mines < box_size {
                    missing_mines
                } else {
                    box_size
                },
                index + 1 < new_boxes@.len(),
                index < last,
                box_idx == new_boxes@[index as int],
                box_size == views(boxes@)[box_idx as int].cells.len(),
                pl@.wf(boxes@.len()),
                pl.mine_count + missing_mines <= max_total_mines,
                forall|t: int|
                    0 <= t < new_boxes@.len() ==> #[trigger] new_boxes@[t] < boxes@.len(),
                lines_wf(views(result@), boxes@.len()),
            ensures
                goal == views(result@),
            decreases most - mines_here,
        {
            let line = pl.extend(box_idx, box_size, mines_here);
            let mut rest = self.distribute_mines(
                &line,
                boxes,
                missing_mines - mines_here,
                new_boxes,
                index + 1,
                max_total_mines,
            );
            proof {
                lemma_views_add(result@, rest@);
                let tail = distribute_from(
                    pl@,
                    views(boxes@),
                    missing_mines as nat,
                    new_boxes@,
                    index as nat,
                    max_total_mines as nat,
                    (mines_here + 1) as nat,
                );
                assert((views(result@) + views(rest@)) + tail =~= views(result@) + (views(rest@)
                    + tail));
            }
            result.append(&mut rest);
            if mines_here == most {
                proof {
                    let tail = distribute_from(
                        pl@,
                        views(boxes@),
                        missing_mines as nat,
                        new_boxes@,
                        index as nat,
                        max_total_mines as nat,
                        (mines_here + 1) as nat,
                    );
                    assert(tail =~= Seq::<LineModel>::empty());
                    assert(views(result@) + tail =~= views(result@));
                }
                break ;
            }
            mines_here += 1;
        }
        result
    }
}

/// The largest mine count among the first `n` lines.
pub open spec fn top_count(lines: Seq<LineModel>, n: int) -> nat
    decreases n,
{
    if n <= 0 {
        0
    } else {
        let prev = top_count(lines, n - 1);
        if lines[n - 1].mine_count > prev {
            lines[n - 1].mine_count
        } else {
            prev
        }
    }
}

/// The one line that stands for all of the first `n` lines that place
/// `count` mines, if there is any: their solution counts and their counts per
/// box added up, with the allocation of the first of them.
pub open spec fn merged(lines: Seq<LineModel>, count: nat, n: int) -> Option<LineModel>
    decreases n,
{
    if n <= 0 {
        None
    } else {
        let prev = merged(lines, count, n - 1);
        if lines[n - 1].mine_count != count {
            prev
        } else {
            match prev {
                None => Some(lines[n - 1]),
                Some(acc) => Some(acc.absorb(lines[n - 1])),
            }
        }
    }
}

/// The merged lines for the mine counts below `limit`, in ascending order.
pub open spec fn crunch_below(lines: Seq<LineModel>, limit: nat) -> Seq<LineModel>
    decreases limit,
{
    if limit == 0 {
        Seq::empty()
    } else {
        let prev = crunch_below(lines, (limit - 1) as nat);
        match merged(lines, (limit - 1) as nat, lines.len() as int) {
            Some(line) => prev.push(line),
            None => prev,
        }
    }
}

/// `lines` with every group of equal mine count merged into one line, in
/// ascending order of mine count.
pub open spec fn crunch(lines: Seq<LineModel>) -> Seq<LineModel> {
    if lines.len() == 0 {
        Seq::empty()
    } else {
        crunch_below(lines, top_count(lines, lines.len() as int) + 1)
    }
}

/// The pairings of `w` with those of the first `n` held lines that leave the
/// total within `max` mines.
pub open spec fn pair_row(
    w: LineModel,
    held: Seq<LineModel>,
    max: nat,
    box_count: nat,
    n: int,
) -> Seq<LineModel>
    decreases n,
{
    if n <= 0 {
        Seq::empty()
    } else {
        let prev = pair_row(w, held, max, box_count, n - 1);
        if w.mine_count + held[n - 1].mine_count <= max {
            prev.push(w.combine(held[n - 1], box_count))
        } else {
            prev
        }
    }
}

/// The pairings of the first `n` lines of `ws` with the held lines.
pub open spec fn pair_all(
    ws: Seq<LineModel>,
    held: Seq<LineModel>,
    max: nat,
    box_count: nat,
    n: int,
) -> Seq<LineModel>
    decreases n,
{
    if n <= 0 {
        Seq::empty()
    } else {
        pair_all(ws, held, max, box_count, n - 1) + pair_row(
            ws[n - 1],
            held,
            max,
            box_count,
            held.len() as int,
        )
    }
}

/// The held lines after the finished part of the board, described by
/// `working`, has been taken in.
pub open spec fn store(
    held: Seq<LineModel>,
    working: Seq<LineModel>,
    max: nat,
    box_count: nat,
) -> Seq<LineModel> {
    let crunched = crunch(working);
    crunch(pair_all(crunched, held, max, box_count, crunched.len() as int))
}

/// Merging keeps the number of boxes that the lines speak of.
pub proof fn lemma_merged_wf(lines: Seq<LineModel>, count: nat, n: int, box_count: nat)
    requires
        lines_wf(lines, box_count),
        n <= lines.len(),
    ensures
        merged(lines, count, n) matches Some(line) ==> line.wf(box_count) && line.mine_count
            == count,
    decreases n,
{
    if n > 0 {
        lemma_merged_wf(lines, count, n - 1, box_count);
        assert(lines[n - 1].wf(box_count));
    }
}

impl ProbabilityLine {
    /// Takes the placements of `other` into this line.
    pub fn absorb(&mut self, other: &ProbabilityLine)
        requires
            old(self)@.mine_box_count.len() == other@.mine_box_count.len(),
        ensures
            final(self)@ == old(self)@.absorb(other@),
    {
        let n = self.mine_box_count.len();
        let total = self.solution_count.add(&other.solution_count);
        self.solution_count = total;
        let mut i: usize = 0;
        while i < n
            invariant
                i <= n,
                n == self.mine_box_count@.len(),
                n == other.mine_box_count@.len(),
                n == old(self).mine_box_count@.len(),
                self.mine_count == old(self).mine_count,
                self.allocated_mines == old(self).allocated_mines,
                self.solution_count@ == old(self).solution_count@ + other.solution_count@,
                forall|j: int|
                    0 <= j < i ==> (#[trigger] self.mine_box_count@[j])@ == old(
                        self,
                    ).mine_box_count@[j]@ + other.mine_box_count@[j]@,
                forall|j: int|
                    i <= j < n ==> (#[trigger] self.mine_box_count@[j])@ == old(
                        self,
                    ).mine_box_count@[j]@,
            decreases n - i,
        {
            let sum = self.mine_box_count[i].add(&other.mine_box_count[i]);
            self.mine_box_count.set(i, sum);
            i += 1;
        }
        proof {
            let goal = old(self)@.absorb(other@);
            assert(self@.mine_box_count =~= goal.mine_box_count);
            assert(self@.allocated_mines =~= goal.allocated_mines);
        }
    }

    /// The line for every pairing of a placement of `self` with one of `other`.
    pub fn combine(&self, other: &ProbabilityLine, box_count: usize) -> (r: Self)
        requires
            self@.wf(box_count as nat),
            other@.wf(box_count as nat),
            self.mine_count + other.mine_count <= usize::MAX,
        ensures
            r@ == self@.combine(other@, box_count as nat),
    {
        let mut r = ProbabilityLine::new(box_count);
        proof {
            assert(r@.mine_box_count.len() == box_count);
            assert(r@.allocated_mines.len() == box_count);
            assert forall|j: int| 0 <= j < box_count implies #[trigger] r.allocated_mines@[j]
                == 0 by {
                assert(r@.allocated_mines[j] == 0);
            }
        }
        r.mine_count = self.mine_count + other.mine_count;
        r.solution_count = self.solution_count.mul(&other.solution_count);
        let mut i: usize = 0;
        while i < box_count
            invariant
                i <= box_count,
                self@.wf(box_count as nat),
                other@.wf(box_count as nat),
                r.mine_box_count@.len() == box_count,
                r.allocated_mines@.len() == box_count,
                r.mine_count == self.mine_count + other.mine_count,
                r.solution_count@ == self.solution_count@ * other.solution_count@,
                forall|j: int| 0 <= j < box_count ==> #[trigger] r.allocated_mines@[j] == 0,
                forall|j: int|
                    0 <= j < i ==> (#[trigger] r.mine_box_count@[j])@ == self.mine_box_count@[j]@
                        * other.solution_count@ + other.mine_box_count@[j]@
                        * self.solution_count@,
            decreases box_count - i,
        {
            let w1 = self.mine_box_count[i].mul(&other.solution_count);
            let w2 = other.mine_box_count[i].mul(&self.solution_count);
            r.mine_box_count.set(i, w1.add(&w2));
            i += 1;
        }
        proof {
            let goal = self@.combine(other@, box_count as nat);
            assert(r@.mine_box_count =~= goal.mine_box_count);
            assert(r@.allocated_mines =~= goal.allocated_mines);
        }
        r
    }
}

impl ProbabilityCalculator {
    /// Combine probability lines with same mine count
    pub fn crunch_by_mine_count(&self, probs: &Vec<ProbabilityLine>, box_count: usize) -> (r: Vec<
        ProbabilityLine,
    >)
        requires
            lines_wf(views(probs@), box_count as nat),
        ensures
            views(r@) == crunch(views(probs@)),
            lines_wf(views(r@), box_count as nat),
    {
        let ghost lines = views(probs@);
        let mut result: Vec<ProbabilityLine> = Vec::new();
        let n = probs.len();
        if n == 0 {
            assert(views(result@) =~= Seq::<LineModel>::empty());
            return result;
        }
        let mut top: usize = 0;
        let mut i: usize = 0;
        while i < n
            invariant
                i <= n,
                n == probs@.len(),
                lines == views(probs@),
                top == top_count(lines, i as int),
            decreases n - i,
        {
            if probs[i].mine_count > top {
                top = probs[i].mine_count;
            }
            i += 1;
        }
        let mut count: usize = 0;
        assert(views(result@) =~= Seq::<LineModel>::empty());
        loop
            invariant_except_break
                count <= top,
                views(result@) == crunch_below(lines, count as nat),
            invariant
                n == probs@.len(),
                lines == views(probs@),
                lines_wf(lines, box_count as nat),
                lines_wf(views(result@), box_count as nat),
                top == top_count(lines, n as int),
            ensures
                views(result@) == crunch_below(lines, (top + 1) as nat),
            decreases top - count,
        {
            let mut acc: Option<ProbabilityLine> = None;
            let mut j: usize = 0;
            while j < n
                invariant
                    j <= n,
                    n == probs@.len(),
                    lines == views(probs@),
                    lines_wf(lines, box_count as nat),
                    match acc {
                        Some(line) => merged(lines, count as nat, j as int) == Some(line@),
                        None => merged(lines, count as nat, j as int) is None,
                    },
                decreases n - j,
            {
                if probs[j].mine_count == count {
                    proof {
                        lemma_merged_wf(lines, count as nat, j as int, box_count as nat);
                        assert(lines[j as int].wf(box_count as nat));
                    }
                    match acc {
                        None => {
                            acc = Some(probs[j].clone());
                        },
                        Some(line) => {
                            let mut line = line;
                            line.absorb(&probs[j]);
                            acc = Some(line);
                        },
                    }
                }
                j += 1;
            }
            match acc {
                Some(line) => {
                    proof {
                        lemma_merged_wf(lines, count as nat, n as int, box_count as nat);
                        lemma_views_push(result@, line);
                    }
                    result.push(line);
                },
                None => {},
            }
            if count == top {
                break ;
            }
            count += 1;
        }
        result
    }

    /// Store probabilities from working set to held set
    pub fn store_probabilities(
        &self,
        held_probs: &Vec<ProbabilityLine>,
        working_probs: &Vec<ProbabilityLine>,
        max_total_mines: usize,
        box_count: usize,
    ) -> (r: Vec<ProbabilityLine>)
        requires
            lines_wf(views(held_probs@), box_count as nat),
            lines_wf(views(working_probs@), box_count as nat),
        ensures
            views(r@) == store(
                views(held_probs@),
                views(working_probs@),
                max_total_mines as nat,
                box_count as nat,
            ),
            lines_wf(views(r@), box_count as nat),
    {
        let crunched = self.crunch_by_mine_count(working_probs, box_count);
        let ghost ws = views(crunched@);
        let ghost hs = views(held_probs@);
        let mut result: Vec<ProbabilityLine> = Vec::new();
        assert(views(result@) =~= Seq::<LineModel>::empty());
        let mut i: usize = 0;
        while i < crunched.len()
            invariant
                i <= crunched@.len(),
                ws == views(crunched@),
                hs == views(held_probs@),
                lines_wf(ws, box_count as nat),
                lines_wf(hs, box_count as nat),
                lines_wf(views(result@), box_count as nat),
                views(result@) == pair_all(
                    ws,
                    hs,
                    max_total_mines as nat,
                    box_count as nat,
                    i as int,
                ),
            decreases crunched@.len() - i,
        {
            let wpl = &crunched[i];
            let ghost start = views(result@);
            let mut j: usize = 0;
            assert(start + Seq::<LineModel>::empty() =~= start);
            while j < held_probs.len()
                invariant
                    j <= held_probs@.len(),
                    i < crunched@.len(),
                    wpl@ == ws[i as int],
                    ws == views(crunched@),
                    hs == views(held_probs@),
                    lines_wf(ws, box_count as nat),
                    lines_wf(hs, box_count as nat),
                    lines_wf(views(result@), box_count as nat),
                    views(result@) == start + pair_row(
                        wpl@,
                        hs,
                        max_total_mines as nat,
                        box_count as nat,
                        j as int,
                    ),
                decreases held_probs@.len() - j,
            {
                let hpl = &held_probs[j];
                assert(hpl@ == hs[j as int]);
                assert(hs[j as int].wf(box_count as nat));
                assert(ws[i as int].wf(box_count as nat));
                if wpl.mine_count <= max_total_mines && hpl.mine_count <= max_total_mines
                    - wpl.mine_count {
                    let npl = wpl.combine(hpl, box_count);
                    proof {
                        lemma_views_push(result@, npl);
                        let row = pair_row(
                            wpl@,
                            hs,
                            max_total_mines as nat,
                            box_count as nat,
                            j as int,
                        );
                        assert((start + row).push(npl@) =~= start + row.push(npl@));
                    }
                    result.push(npl);
                }
                j += 1;
            }
            i += 1;
        }
        // Combine by mine count
        self.crunch_by_mine_count(&result, box_count)
    }
}

} // verus!
