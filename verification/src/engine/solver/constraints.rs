//! The constraint graph of a snapshot: every number that still asks for mines
//! is a witness, and the frontier cells under exactly the same witnesses form
//! one box.

use vstd::prelude::*;
use crate::base::vec2d::Vec2D;
pub use crate::base::views;
use super::probability::ProbabilityCalculator;
use super::trivial::mines_around;
use super::{neighbor_dx, neighbor_dy, neighbor_of, BoardModel, BoardSafety, CellSafety};

verus! {

/// A revealed number that still asks for mines among its closed neighbours.
#[derive(Debug)]
pub struct Witness {
    pub x: usize,
    pub y: usize,
    /// Mines still missing around the number.
    pub mines: u8,
    /// The boxes under this witness, by index, in ascending order.
    pub boxes: Vec<usize>,
}

/// The mathematical content of a `Witness`.
pub struct WitnessModel {
    pub x: usize,
    pub y: usize,
    pub mines: u8,
    pub boxes: Seq<usize>,
}

impl View for Witness {
    type V = WitnessModel;

    open spec fn view(&self) -> WitnessModel {
        WitnessModel { x: self.x, y: self.y, mines: self.mines, boxes: self.boxes@ }
    }
}

/// Frontier cells that lie under exactly the same witnesses.
#[derive(Debug)]
pub struct FrontierBox {
    /// The cells of the box, in row-major order.
    pub cells: Vec<(usize, usize)>,
    /// The witnesses over the box, by index, in the order of the neighbourhood.
    pub witnesses: Vec<usize>,
}

/// The mathematical content of a `FrontierBox`.
pub struct BoxModel {
    pub cells: Seq<(usize, usize)>,
    pub witnesses: Seq<usize>,
}

impl View for FrontierBox {
    type V = BoxModel;

    open spec fn view(&self) -> BoxModel {
        BoxModel { cells: self.cells@, witnesses: self.witnesses@ }
    }
}

/// The mines that the number at `(x, y)` still asks for; zero where there is
/// no unresolved number.
pub open spec fn outstanding(b: BoardModel, x: int, y: int) -> int {
    if let CellSafety::Unresolved(n) = b.at(x, y) {
        n - mines_around(b, x, y, 8)
    } else {
        0
    }
}

/// The cell `(x, y)` is a witness.
pub open spec fn is_witness(b: BoardModel, x: int, y: int) -> bool {
    b.in_range(x, y) && outstanding(b, x, y) > 0
}

/// The witnesses that come before `(x, y)` in row-major order.
pub open spec fn witnesses_before(b: BoardModel, x: int, y: int) -> Seq<(usize, usize)>
    decreases y, x,
{
    if y < 0 || x < 0 {
        Seq::empty()
    } else if x > 0 {
        let prev = witnesses_before(b, x - 1, y);
        if is_witness(b, x - 1, y) {
            prev.push(((x - 1) as usize, y as usize))
        } else {
            prev
        }
    } else if y > 0 {
        witnesses_before(b, b.width as int, y - 1)
    } else {
        Seq::empty()
    }
}

/// All witnesses of the board, in row-major order.
pub open spec fn witness_cells(b: BoardModel) -> Seq<(usize, usize)> {
    witnesses_before(b, 0, b.height as int)
}

/// The indices of the witnesses among the first `k` neighbours of `(x, y)`.
pub open spec fn cell_key(b: BoardModel, x: int, y: int, k: int) -> Seq<usize>
    decreases k,
{
    if k <= 0 {
        Seq::empty()
    } else {
        let prev = cell_key(b, x, y, k - 1);
        let nx = x + neighbor_dx(k - 1);
        let ny = y + neighbor_dy(k - 1);
        if is_witness(b, nx, ny) {
            prev.push(witnesses_before(b, nx, ny).len() as usize)
        } else {
            prev
        }
    }
}

/// The first box at or after `from` whose witnesses are `key`, or the number
/// of boxes where there is none.
pub open spec fn find_box(boxes: Seq<BoxModel>, key: Seq<usize>, from: int) -> int
    decreases boxes.len() - from,
{
    if from < 0 || from >= boxes.len() {
        boxes.len() as int
    } else if boxes[from].witnesses == key {
        from
    } else {
        find_box(boxes, key, from + 1)
    }
}

/// The boxes after `cell`, which lies under the witnesses `key`, has found its
/// place: in the box with that key, or in a new box at the end.
pub open spec fn add_cell(boxes: Seq<BoxModel>, cell: (usize, usize), key: Seq<usize>) -> Seq<
    BoxModel,
> {
    let j = find_box(boxes, key, 0);
    if j < boxes.len() {
        boxes.update(j, BoxModel { cells: boxes[j].cells.push(cell), witnesses: key })
    } else {
        boxes.push(BoxModel { cells: seq![cell], witnesses: key })
    }
}

/// The boxes formed by the frontier cells that come before `(x, y)` in
/// row-major order.
pub open spec fn boxes_before(b: BoardModel, x: int, y: int) -> Seq<BoxModel>
    decreases y, x,
{
    if y < 0 || x < 0 {
        Seq::empty()
    } else if x > 0 {
        let prev = boxes_before(b, x - 1, y);
        if b.at(x - 1, y) is Frontier {
            add_cell(prev, ((x - 1) as usize, y as usize), cell_key(b, x - 1, y, 8))
        } else {
            prev
        }
    } else if y > 0 {
        boxes_before(b, b.width as int, y - 1)
    } else {
        Seq::empty()
    }
}

/// All boxes of the board.
pub open spec fn board_boxes(b: BoardModel) -> Seq<BoxModel> {
    boxes_before(b, 0, b.height as int)
}

/// The boxes among the first `n` that lie under witness `w`, in ascending order.
pub open spec fn boxes_under(boxes: Seq<BoxModel>, w: usize, n: int) -> Seq<usize>
    decreases n,
{
    if n <= 0 {
        Seq::empty()
    } else {
        let prev = boxes_under(boxes, w, n - 1);
        if boxes[n - 1].witnesses.contains(w) {
            prev.push((n - 1) as usize)
        } else {
            prev
        }
    }
}

/// All witnesses of the board, each with the mines it still asks for and the
/// boxes under it.
pub open spec fn board_witnesses(b: BoardModel) -> Seq<WitnessModel> {
    let cells = witness_cells(b);
    let boxes = board_boxes(b);
    Seq::new(
        cells.len(),
        |i: int|
            WitnessModel {
                x: cells[i].0,
                y: cells[i].1,
                mines: outstanding(b, cells[i].0 as int, cells[i].1 as int) as u8,
                boxes: boxes_under(boxes, i as usize, boxes.len() as int),
            },
    )
}

/// What holds of a constraint graph however it was built: every reference
/// between witnesses and boxes names an existing partner.
pub open spec fn graph_wf(witnesses: Seq<WitnessModel>, boxes: Seq<BoxModel>) -> bool {
    &&& forall|w: int, t: int|
        0 <= w < witnesses.len() && 0 <= t < witnesses[w].boxes.len()
            ==> #[trigger] witnesses[w].boxes[t] < boxes.len()
    &&& forall|j: int, t: int|
        0 <= j < boxes.len() && 0 <= t < boxes[j].witnesses.len()
            ==> #[trigger] boxes[j].witnesses[t] < witnesses.len()
}

/// Which boxes lie under a witness depends on the witnesses of the boxes alone.
pub proof fn lemma_boxes_under_agree(a: Seq<BoxModel>, b: Seq<BoxModel>, w: usize, n: int)
    requires
        n <= a.len(),
        n <= b.len(),
        forall|j: int| 0 <= j < n ==> a[j].witnesses == b[j].witnesses,
    ensures
        boxes_under(a, w, n) == boxes_under(b, w, n),
    decreases n,
{
    if n > 0 {
        lemma_boxes_under_agree(a, b, w, n - 1);
    }
}

/// Every box listed under a witness is one of the first `n`.
pub proof fn lemma_boxes_under_bound(boxes: Seq<BoxModel>, w: usize, n: int)
    requires
        n <= boxes.len(),
        n <= usize::MAX,
    ensures
        forall|t: int|
            0 <= t < boxes_under(boxes, w, n).len() ==> #[trigger] boxes_under(boxes, w, n)[t]
                < n,
    decreases n,
{
    if n > 0 {
        lemma_boxes_under_bound(boxes, w, n - 1);
        let prev = boxes_under(boxes, w, n - 1);
        let all = boxes_under(boxes, w, n);
        assert forall|t: int| 0 <= t < all.len() implies #[trigger] all[t] < n by {
            if t < prev.len() {
                assert(all[t] == prev[t]);
            }
        }
    }
}

/// `a` and `b` hold the same indices in the same order.
fn same_key(a: &Vec<usize>, b: &Vec<usize>) -> (r: bool)
    ensures
        r == (a@ == b@),
{
    if a.len() != b.len() {
        return false;
    }
    let mut i: usize = 0;
    while i < a.len()
        invariant
            i <= a.len(),
            a.len() == b.len(),
            forall|j: int| 0 <= j < i ==> a@[j] == b@[j],
        decreases a.len() - i,
    {
        if a[i] != b[i] {
            return false;
        }
        i += 1;
    }
    assert(a@ =~= b@);
    true
}

/// The witnesses of `board`, each still without its boxes, and for every cell
/// the index of the witness on it.
fn collect_witnesses(board: &BoardSafety) -> (r: (Vec<Witness>, Vec2D<Option<usize>>))
    requires
        board.wf(),
    ensures
        r.0@.len() == witness_cells(board@).len(),
        forall|i: int|
            0 <= i < r.0@.len() ==> {
                &&& (#[trigger] r.0@[i]).x == witness_cells(board@)[i].0
                &&& r.0@[i].y == witness_cells(board@)[i].1
                &&& r.0@[i].mines == outstanding(
                    board@,
                    witness_cells(board@)[i].0 as int,
                    witness_cells(board@)[i].1 as int,
                )
                &&& r.0@[i].boxes@.len() == 0
            },
        r.1.wf(),
        r.1.spec_width() == board@.width,
        r.1.spec_height() == board@.height,
        forall|x: int, y: int|
            board@.in_range(x, y) ==> #[trigger] r.1.at(x, y) == if is_witness(board@, x, y) {
                Some(witnesses_before(board@, x, y).len() as usize)
            } else {
                None
            },
        forall|x: int, y: int|
            is_witness(board@, x, y) ==> (#[trigger] witnesses_before(board@, x, y)).len()
                < r.0@.len(),
{
    let width = board.width();
    let height = board.height();
    let total = board.cell_count();
    assert(width * height == total);
    let mut witnesses: Vec<Witness> = Vec::new();
    let mut index: Vec2D<Option<usize>> = Vec2D::filled(width, height, None);
    let mut y: usize = 0;
    while y < height
        invariant
            y <= height,
            board.wf(),
            width == board@.width,
            height == board@.height,
            index.wf(),
            index.spec_width() == width,
            index.spec_height() == height,
            witnesses@.len() == witnesses_before(board@, 0, y as int).len(),
            forall|i: int|
                0 <= i < witnesses@.len() ==> {
                    &&& (#[trigger] witnesses@[i]).x == witnesses_before(board@, 0, y as int)[i].0
                    &&& witnesses@[i].y == witnesses_before(board@, 0, y as int)[i].1
                    &&& witnesses@[i].mines == outstanding(
                        board@,
                        witnesses@[i].x as int,
                        witnesses@[i].y as int,
                    )
                    &&& witnesses@[i].boxes@.len() == 0
                },
            forall|qx: int, qy: int|
                0 <= qx < width && 0 <= qy < y ==> #[trigger] index.at(qx, qy) == if is_witness(
                    board@,
                    qx,
                    qy,
                ) {
                    Some(witnesses_before(board@, qx, qy).len() as usize)
                } else {
                    None
                },
            forall|qx: int, qy: int|
                0 <= qx < width && 0 <= qy < y && is_witness(board@, qx, qy) ==> witnesses_before(
                    board@,
                    qx,
                    qy,
                ).len() < witnesses@.len(),
        decreases height - y,
    {
        let mut x: usize = 0;
        while x < width
            invariant
                x <= width,
                y < height,
                board.wf(),
                width == board@.width,
                height == board@.height,
                index.wf(),
                index.spec_width() == width,
                index.spec_height() == height,
                witnesses@.len() == witnesses_before(board@, x as int, y as int).len(),
                forall|i: int|
                    0 <= i < witnesses@.len() ==> {
                        &&& (#[trigger] witnesses@[i]).x == witnesses_before(
                            board@,
                            x as int,
                            y as int,
                        )[i].0
                        &&& witnesses@[i].y == witnesses_before(board@, x as int, y as int)[i].1
                        &&& witnesses@[i].mines == outstanding(
                            board@,
                            witnesses@[i].x as int,
                            witnesses@[i].y as int,
                        )
                        &&& witnesses@[i].boxes@.len() == 0
                    },
                forall|qx: int, qy: int|
                    0 <= qx < width && 0 <= qy < y ==> #[trigger] index.at(qx, qy)
                        == if is_witness(board@, qx, qy) {
                        Some(witnesses_before(board@, qx, qy).len() as usize)
                    } else {
                        None
                    },
                forall|qx: int|
                    0 <= qx < x ==> #[trigger] index.at(qx, y as int) == if is_witness(
                        board@,
                        qx,
                        y as int,
                    ) {
                        Some(witnesses_before(board@, qx, y as int).len() as usize)
                    } else {
                        None
                    },
                forall|qx: int, qy: int|
                    0 <= qx < width && (0 <= qy < y || (qy == y && qx < x)) && is_witness(
                        board@,
                        qx,
                        qy,
                    ) ==> witnesses_before(board@, qx, qy).len() < witnesses@.len(),
            decreases width - x,
        {
            let mut here: Option<usize> = None;
            if let CellSafety::Unresolved(n) = board.cell(x, y) {
                let flagged = count_mines(board, x, y);
                if n > flagged {
                    here = Some(witnesses.len());
                    witnesses.push(Witness { x, y, mines: n - flagged, boxes: Vec::new() });
                }
            }
            let ghost before = index;
            proof {
                index.lemma_has(x as int, y as int);
            }
            index.set(x, y, here);
            proof {
                assert forall|qx: int, qy: int|
                    0 <= qx < width && 0 <= qy < height && !(qx == x && qy
                        == y) implies #[trigger] index.at(qx, qy) == before.at(qx, qy) by {
                    before.lemma_has(qx, qy);
                    super::lemma_distinct_offsets(width as int, x as int, y as int, qx, qy);
                }
            }
            x += 1;
        }
        y += 1;
    }
    (witnesses, index)
}

/// How many neighbours of `(x, y)` are known mines.
fn count_mines(board: &BoardSafety, x: usize, y: usize) -> (r: u8)
    requires
        board.wf(),
        board@.in_range(x as int, y as int),
    ensures
        r == mines_around(board@, x as int, y as int, 8),
{
    let width = board.width();
    let height = board.height();
    let mut flagged: u8 = 0;
    let mut k: u8 = 0;
    while k < 8
        invariant
            k <= 8,
            board.wf(),
            width == board@.width,
            height == board@.height,
            x < width,
            y < height,
            flagged == mines_around(board@, x as int, y as int, k as int),
            flagged <= k,
        decreases 8 - k,
    {
        match neighbor_of(width, height, x, y, k) {
            Some((nx, ny)) => {
                if board.cell(nx, ny) == CellSafety::Mine {
                    flagged += 1;
                }
            },
            None => {},
        }
        k += 1;
    }
    flagged
}

/// The indices of the witnesses around `(x, y)`, in the order of the neighbourhood.
fn key_of(
    board: &BoardSafety,
    index: &Vec2D<Option<usize>>,
    x: usize,
    y: usize,
    Ghost(bound): Ghost<nat>,
) -> (r: Vec<usize>)
    requires
        board.wf(),
        board@.in_range(x as int, y as int),
        index.wf(),
        index.spec_width() == board@.width,
        index.spec_height() == board@.height,
        forall|qx: int, qy: int|
            board@.in_range(qx, qy) ==> #[trigger] index.at(qx, qy) == if is_witness(
                board@,
                qx,
                qy,
            ) {
                Some(witnesses_before(board@, qx, qy).len() as usize)
            } else {
                None
            },
        forall|qx: int, qy: int|
            is_witness(board@, qx, qy) ==> (#[trigger] witnesses_before(board@, qx, qy)).len()
                < bound,
    ensures
        r@ == cell_key(board@, x as int, y as int, 8),
        forall|t: int| 0 <= t < r@.len() ==> #[trigger] r@[t] < bound,
{
    let width = board.width();
    let height = board.height();
    let mut key: Vec<usize> = Vec::new();
    let mut k: u8 = 0;
    while k < 8
        invariant
            k <= 8,
            board.wf(),
            width == board@.width,
            height == board@.height,
            x < width,
            y < height,
            index.wf(),
            index.spec_width() == board@.width,
            index.spec_height() == board@.height,
            forall|qx: int, qy: int|
                board@.in_range(qx, qy) ==> #[trigger] index.at(qx, qy) == if is_witness(
                    board@,
                    qx,
                    qy,
                ) {
                    Some(witnesses_before(board@, qx, qy).len() as usize)
                } else {
                    None
                },
            forall|qx: int, qy: int|
                is_witness(board@, qx, qy) ==> (#[trigger] witnesses_before(board@, qx, qy)).len()
                    < bound,
            forall|t: int| 0 <= t < key@.len() ==> #[trigger] key@[t] < bound,
            key@ == cell_key(board@, x as int, y as int, k as int),
        decreases 8 - k,
    {
        match neighbor_of(width, height, x, y, k) {
            Some((nx, ny)) => {
                proof {
                    index.lemma_has(nx as int, ny as int);
                }
                match *index.index(nx, ny) {
                    Some(w) => {
                        key.push(w);
                    },
                    None => {},
                }
            },
            None => {},
        }
        k += 1;
    }
    key
}

/// `w` is one of the first `t` entries of `key`.
pub open spec fn among(key: Seq<usize>, t: int, w: usize) -> bool {
    exists|i: int| 0 <= i < t && #[trigger] key[i] == w
}

/// Records the new box `id` with every witness named in `key`.
fn link_box(witnesses: &mut Vec<Witness>, key: &Vec<usize>, id: usize, Ghost(boxes): Ghost<
    Seq<BoxModel>,
>)
    requires
        boxes.len() == id,
        forall|t: int| 0 <= t < key@.len() ==> #[trigger] key@[t] < old(witnesses)@.len(),
        forall|w: usize|
            w < old(witnesses)@.len() ==> (#[trigger] old(witnesses)@[w as int]).boxes@
                == boxes_under(boxes, w, id as int),
    ensures
        final(witnesses)@.len() == old(witnesses)@.len(),
        forall|w: usize|
            w < final(witnesses)@.len() ==> {
                &&& (#[trigger] final(witnesses)@[w as int]).x == old(witnesses)@[w as int].x
                &&& final(witnesses)@[w as int].y == old(witnesses)@[w as int].y
                &&& final(witnesses)@[w as int].mines == old(witnesses)@[w as int].mines
                &&& final(witnesses)@[w as int].boxes@ == if key@.contains(w) {
                    boxes_under(boxes, w, id as int).push(id)
                } else {
                    boxes_under(boxes, w, id as int)
                }
            },
{
    let mut t: usize = 0;
    while t < key.len()
        invariant
            t <= key@.len(),
            boxes.len() == id,
            witnesses@.len() == old(witnesses)@.len(),
            forall|i: int| 0 <= i < key@.len() ==> #[trigger] key@[i] < witnesses@.len(),
            forall|w: usize|
                w < witnesses@.len() ==> {
                    &&& (#[trigger] witnesses@[w as int]).x == old(witnesses)@[w as int].x
                    &&& witnesses@[w as int].y == old(witnesses)@[w as int].y
                    &&& witnesses@[w as int].mines == old(witnesses)@[w as int].mines
                    &&& witnesses@[w as int].boxes@ == if among(key@, t as int, w) {
                        boxes_under(boxes, w, id as int).push(id)
                    } else {
                        boxes_under(boxes, w, id as int)
                    }
                },
        decreases key@.len() - t,
    {
        let w = key[t];
        let count = witnesses[w].boxes.len();
        let seen = count > 0 && witnesses[w].boxes[count - 1] == id;
        proof {
            lemma_boxes_under_bound(boxes, w, id as int);
            if among(key@, t as int, w) {
                assert(seen);
            } else {
                assert(!seen);
            }
            assert(among(key@, t + 1, w)) by {
                assert(key@[t as int] == w);
            }
            assert forall|v: usize| v != w implies among(key@, t + 1, v) == among(
                key@,
                t as int,
                v,
            ) by {
                if among(key@, t + 1, v) {
                    let i = choose|i: int| 0 <= i < t + 1 && #[trigger] key@[i] == v;
                    assert(i < t);
                    assert(key@[i] == v);
                }
                if among(key@, t as int, v) {
                    let i = choose|i: int| 0 <= i < t && #[trigger] key@[i] == v;
                    assert(key@[i] == v);
                }
            }
        }
        if !seen {
            witnesses[w].boxes.push(id);
        }
        t += 1;
    }
    proof {
        assert forall|w: usize| among(key@, key@.len() as int, w) == key@.contains(w) by {
            if key@.contains(w) {
                let i = choose|i: int| 0 <= i < key@.len() && key@[i] == w;
                assert(key@[i] == w);
            }
        }
    }
}

impl ProbabilityCalculator {
    /// Build witnesses and boxes from the board
    pub fn build_witnesses_and_boxes(&self, board: &BoardSafety) -> (r: (
        Vec<Witness>,
        Vec<FrontierBox>,
    ))
        requires
            board.wf(),
        ensures
            views(r.0@) == board_witnesses(board@),
            views(r.1@) == board_boxes(board@),
            graph_wf(views(r.0@), views(r.1@)),
    {
        let width = board.width();
        let height = board.height();
        let (mut witnesses, index) = collect_witnesses(board);
        let ghost cells = witness_cells(board@);
        let mut boxes: Vec<FrontierBox> = Vec::new();
        let mut y: usize = 0;
        while y < height
            invariant
                y <= height,
                board.wf(),
                width == board@.width,
                height == board@.height,
                index.wf(),
                index.spec_width() == board@.width,
                index.spec_height() == board@.height,
                forall|qx: int, qy: int|
                    board@.in_range(qx, qy) ==> #[trigger] index.at(qx, qy) == if is_witness(
                        board@,
                        qx,
                        qy,
                    ) {
                        Some(witnesses_before(board@, qx, qy).len() as usize)
                    } else {
                        None
                    },
                forall|qx: int, qy: int|
                    is_witness(board@, qx, qy) ==> (#[trigger] witnesses_before(
                        board@,
                        qx,
                        qy,
                    )).len() < witnesses@.len(),
                cells == witness_cells(board@),
                witnesses@.len() == cells.len(),
                forall|w: usize|
                    w < witnesses@.len() ==> {
                        &&& (#[trigger] witnesses@[w as int]).x == cells[w as int].0
                        &&& witnesses@[w as int].y == cells[w as int].1
                        &&& witnesses@[w as int].mines == outstanding(
                            board@,
                            cells[w as int].0 as int,
                            cells[w as int].1 as int,
                        )
                        &&& witnesses@[w as int].boxes@ == boxes_under(
                            views(boxes@),
                            w,
                            boxes@.len() as int,
                        )
                    },
                forall|j: int, t: int|
                    0 <= j < boxes@.len() && 0 <= t < boxes@[j].witnesses@.len()
                        ==> #[trigger] boxes@[j].witnesses@[t] < witnesses@.len(),
                views(boxes@) == boxes_before(board@, 0, y as int),
            decreases height - y,
        {
            let mut x: usize = 0;
            while x < width
                invariant
                    x <= width,
                    y < height,
                    board.wf(),
                    width == board@.width,
                    height == board@.height,
                    index.wf(),
                    index.spec_width() == board@.width,
                    index.spec_height() == board@.height,
                    forall|qx: int, qy: int|
                        board@.in_range(qx, qy) ==> #[trigger] index.at(qx, qy) == if is_witness(
                            board@,
                            qx,
                            qy,
                        ) {
                            Some(witnesses_before(board@, qx, qy).len() as usize)
                        } else {
                            None
                        },
                    forall|qx: int, qy: int|
                        is_witness(board@, qx, qy) ==> (#[trigger] witnesses_before(
                            board@,
                            qx,
                            qy,
                        )).len() < witnesses@.len(),
                    cells == witness_cells(board@),
                    witnesses@.len() == cells.len(),
                    forall|w: usize|
                        w < witnesses@.len() ==> {
                            &&& (#[trigger] witnesses@[w as int]).x == cells[w as int].0
                            &&& witnesses@[w as int].y == cells[w as int].1
                            &&& witnesses@[w as int].mines == outstanding(
                                board@,
                                cells[w as int].0 as int,
                                cells[w as int].1 as int,
                            )
                            &&& witnesses@[w as int].boxes@ == boxes_under(
                                views(boxes@),
                                w,
                                boxes@.len() as int,
                            )
                        },
                    forall|j: int, t: int|
                        0 <= j < boxes@.len() && 0 <= t < boxes@[j].witnesses@.len()
                            ==> #[trigger] boxes@[j].witnesses@[t] < witnesses@.len(),
                    views(boxes@) == boxes_before(board@, x as int, y as int),
                decreases width - x,
            {
                if board.cell(x, y) == CellSafety::Frontier {
                    let key = key_of(board, &index, x, y, Ghost(witnesses@.len()));
                    let ghost before = views(boxes@);
                    let count = boxes.len();
                    let mut j: usize = 0;
                    while j < count
                        invariant_except_break
                            j <= count,
                        invariant
                            count == boxes@.len(),
                            before == views(boxes@),
                            find_box(before, key@, 0) == find_box(before, key@, j as int),
                        ensures
                            j <= count,
                            find_box(before, key@, 0) == j,
                            j < count ==> before[j as int].witnesses == key@,
                        decreases count - j,
                    {
                        assert(before[j as int].witnesses == boxes@[j as int].witnesses@);
                        if same_key(&boxes[j].witnesses, &key) {
                            break ;
                        }
                        j += 1;
                    }
                    if j < count {
                        boxes[j].cells.push((x, y));
                        proof {
                            let after = views(boxes@);
                            assert(after =~= add_cell(before, (x, y), key@));
                            assert forall|w: usize| #[trigger]
                                boxes_under(after, w, boxes@.len() as int) == boxes_under(
                                    before,
                                    w,
                                    boxes@.len() as int,
                                ) by {
                                lemma_boxes_under_agree(after, before, w, boxes@.len() as int);
                            }
                            assert forall|w: usize| w < witnesses@.len() implies (
                            #[trigger] witnesses@[w as int]).boxes@ == boxes_under(
                                after,
                                w,
                                boxes@.len() as int,
                            ) by {}
                        }
                    } else {
                        link_box(&mut witnesses, &key, count, Ghost(before));
                        let mut cells_here: Vec<(usize, usize)> = Vec::new();
                        cells_here.push((x, y));
                        boxes.push(FrontierBox { cells: cells_here, witnesses: key });
                        proof {
                            let after = views(boxes@);
                            assert(cells_here@ =~= seq![(x, y)]);
                            assert(after =~= add_cell(before, (x, y), key@));
                            assert forall|w: usize| #[trigger]
                                boxes_under(after, w, count as int) == boxes_under(
                                    before,
                                    w,
                                    count as int,
                                ) by {
                                lemma_boxes_under_agree(after, before, w, count as int);
                            }
                            assert(after[count as int].witnesses == key@);
                            assert forall|w: usize| w < witnesses@.len() implies (
                            #[trigger] witnesses@[w as int]).boxes@ == boxes_under(
                                after,
                                w,
                                count + 1,
                            ) by {
                                let n = count as int + 1;
                                assert(boxes_under(after, w, n - 1) == boxes_under(
                                    before,
                                    w,
                                    count as int,
                                ));
                                assert(after[n - 1].witnesses == key@);
                                assert(((n - 1) as usize) == count);
                            }
                        }
                    }
                }
                x += 1;
            }
            y += 1;
        }
        let witness_count = witnesses.len();
        let box_count = boxes.len();
        proof {
            let wv = views(witnesses@);
            let bv = views(boxes@);
            assert(wv =~= board_witnesses(board@));
            assert forall|w: int, t: int|
                0 <= w < wv.len() && 0 <= t < wv[w].boxes.len() implies #[trigger] wv[w].boxes[t]
                < bv.len() by {
                lemma_boxes_under_bound(bv, w as usize, bv.len() as int);
                assert(witnesses@[w].boxes@ == boxes_under(bv, w as usize, bv.len() as int));
            }
            assert forall|j: int, t: int|
                0 <= j < bv.len() && 0 <= t < bv[j].witnesses.len() implies #[trigger] bv[j].witnesses[t]
                < wv.len() by {
                assert(boxes@[j].witnesses@[t] < witnesses@.len());
            }
        }
        (witnesses, boxes)
    }
}

} // verus!
