//! Boards as plain text: one line per row, `X` for a mine, `.` for a cell
//! without one, `@` for the cell to start at.

use vstd::prelude::*;
use crate::base::board::{numbered_in, unnumbered, CellContent};
use crate::base::encode_decode::text::{chars_of, digit, digit_char, digit_value, value_of};
use crate::base::vec2d::Vec2D;
use crate::base::{build_numbers, views, ImportPack};

verus! {

/// `line` without the carriage return at its end, if it has one.
pub open spec fn strip_cr(line: Seq<char>) -> Seq<char> {
    if line.len() > 0 && line.last() == '\r' {
        line.drop_last()
    } else {
        line
    }
}

/// The lines that the first `n` characters of `text` complete, and the line
/// that they leave open. A line ends at a line feed; a carriage return just
/// before the line feed belongs to the line ending.
pub open spec fn scan_lines(text: Seq<char>, n: int) -> (Seq<Seq<char>>, Seq<char>)
    decreases n,
{
    if n <= 0 {
        (Seq::empty(), Seq::empty())
    } else {
        let (done, current) = scan_lines(text, n - 1);
        if text[n - 1] == '\n' {
            (done.push(strip_cr(current)), Seq::empty())
        } else {
            (done, current.push(text[n - 1]))
        }
    }
}

/// The lines of `text`. The last line needs no line ending.
pub open spec fn lines_of(text: Seq<char>) -> Seq<Seq<char>> {
    let (done, current) = scan_lines(text, text.len() as int);
    if current.len() > 0 {
        done.push(current)
    } else {
        done
    }
}

/// The character stands for a mine.
pub open spec fn is_mine_char(c: char) -> bool {
    c == '*' || c == 'x' || c == 'X'
}

/// The character stands for a cell without a mine.
pub open spec fn is_free_char(c: char) -> bool {
    c == '.' || c == ' ' || c == '@' || (digit_value(c) matches Some(d) && 1 <= d <= 8)
}

/// The lines describe a board: at least one row and one column, rows of one
/// length, and nothing but characters that stand for cells.
pub open spec fn readable(lines: Seq<Seq<char>>) -> bool {
    &&& lines.len() > 0
    &&& lines[0].len() > 0
    &&& lines[0].len() * lines.len() <= usize::MAX
    &&& forall|y: int| 0 <= y < lines.len() ==> (#[trigger] lines[y]).len() == lines[0].len()
    &&& forall|x: int, y: int|
        0 <= y < lines.len() && 0 <= x < lines[y].len() ==> is_mine_char(#[trigger] lines[y][x])
            || is_free_char(lines[y][x])
}

/// How many mines the lines hold before the cell `(x, y)`, row by row.
pub open spec fn mines_before(lines: Seq<Seq<char>>, x: int, y: int) -> nat
    decreases y, x,
{
    if y < 0 || x < 0 {
        0
    } else if x > 0 {
        mines_before(lines, x - 1, y) + if is_mine_char(lines[y][x - 1]) {
            1nat
        } else {
            0nat
        }
    } else if y > 0 {
        mines_before(lines, lines[y - 1].len() as int, y - 1)
    } else {
        0
    }
}

/// The last cell before `(x, y)`, row by row, that the lines mark as the start.
pub open spec fn start_before(lines: Seq<Seq<char>>, x: int, y: int) -> Option<(usize, usize)>
    decreases y, x,
{
    if y < 0 || x < 0 {
        None
    } else if x > 0 {
        if lines[y][x - 1] == '@' {
            Some(((x - 1) as usize, y as usize))
        } else {
            start_before(lines, x - 1, y)
        }
    } else if y > 0 {
        start_before(lines, lines[y - 1].len() as int, y - 1)
    } else {
        None
    }
}

/// The lines of `text`.
pub fn split_lines(text: &Vec<char>) -> (r: Vec<Vec<char>>)
    ensures
        views(r@) == lines_of(text@),
{
    let mut done: Vec<Vec<char>> = Vec::new();
    let mut current: Vec<char> = Vec::new();
    let mut i: usize = 0;
    assert(views(done@) =~= Seq::<Seq<char>>::empty());
    while i < text.len()
        invariant
            i <= text@.len(),
            (views(done@), current@) == scan_lines(text@, i as int),
        decreases text@.len() - i,
    {
        let c = text[i];
        if c == '\n' {
            let n = current.len();
            if n > 0 && current[n - 1] == '\r' {
                current.pop();
            }
            proof {
                assert(views(done@.push(current)) =~= views(done@).push(current@));
            }
            done.push(current);
            current = Vec::new();
        } else {
            current.push(c);
        }
        i += 1;
    }
    if current.len() > 0 {
        proof {
            assert(views(done@.push(current)) =~= views(done@).push(current@));
        }
        done.push(current);
    }
    done
}

/// `r` is what reading `text` as a board gives: nothing where the text has
/// no line or no column, where its lines differ in length, or where it holds
/// a character that stands for no cell; else the board with the mines of
/// the text, the numbers around them, and the last place that is marked as
/// the start.
pub open spec fn read_as(text: Seq<char>, r: Option<ImportPack>) -> bool {
    match r {
        None => !readable(lines_of(text)),
        Some(pack) => {
            let lines = lines_of(text);
            &&& readable(lines)
            &&& pack.cell_contents.wf()
            &&& pack.cell_contents.spec_width() == lines[0].len()
            &&& pack.cell_contents.spec_height() == lines.len()
            &&& forall|x: int, y: int|
                0 <= x < lines[0].len() && 0 <= y < lines.len() ==> (
                #[trigger] pack.cell_contents.at(x, y) is Mine) == is_mine_char(lines[y][x])
            &&& numbered_in(pack.cell_contents@, lines[0].len() as int, lines.len() as int)
            &&& pack.mines == mines_before(lines, 0, lines.len() as int)
            &&& pack.start_position == start_before(lines, 0, lines.len() as int)
        },
    }
}

/// Reads a board from text.
pub fn decode(ascii: &str) -> (r: Option<ImportPack>)
    ensures
        read_as(ascii@, r),
{
    let text = chars_of(ascii);
    let lines = split_lines(&text);
    let ghost ls = lines_of(ascii@);
    let height = lines.len();
    if height == 0 {
        return None;
    }
    assert(ls[0] == lines@[0]@);
    let width = lines[0].len();
    if width == 0 {
        return None;
    }
    if width.checked_mul(height).is_none() {
        return None;
    }
    let mut cell_contents: Vec2D<CellContent> = Vec2D::filled(width, height, CellContent::Empty);
    let mut mines: usize = 0;
    let mut start_position: Option<(usize, usize)> = None;
    let mut y: usize = 0;
    while y < height
        invariant
            y <= height,
            ls == views(lines@),
            ls == lines_of(ascii@),
            height == lines@.len(),
            width == ls[0].len(),
            width > 0,
            width * height <= usize::MAX,
            cell_contents.wf(),
            cell_contents.spec_width() == width,
            cell_contents.spec_height() == height,
            unnumbered(cell_contents@),
            forall|qy: int| 0 <= qy < y ==> (#[trigger] ls[qy]).len() == width,
            forall|qx: int, qy: int|
                0 <= qy < y && 0 <= qx < width ==> is_mine_char(#[trigger] ls[qy][qx])
                    || is_free_char(ls[qy][qx]),
            forall|qx: int, qy: int|
                0 <= qx < width && 0 <= qy < y ==> (#[trigger] cell_contents.at(qx, qy) is Mine)
                    == is_mine_char(ls[qy][qx]),
            mines == mines_before(ls, 0, y as int),
            mines <= y * width,
            start_position == start_before(ls, 0, y as int),
        decreases height - y,
    {
        let line = &lines[y];
        assert(ls[y as int] == line@);
        if line.len() != width {
            return None;
        }
        let mut x: usize = 0;
        while x < width
            invariant
                x <= width,
                y < height,
                line@ == ls[y as int],
                line@.len() == width,
                ls == views(lines@),
                ls == lines_of(ascii@),
                height == lines@.len(),
                width == ls[0].len(),
                width * height <= usize::MAX,
                cell_contents.wf(),
                cell_contents.spec_width() == width,
                cell_contents.spec_height() == height,
                unnumbered(cell_contents@),
                forall|qx: int|
                    0 <= qx < x ==> is_mine_char(#[trigger] ls[y as int][qx]) || is_free_char(
                        ls[y as int][qx],
                    ),
                forall|qx: int, qy: int|
                    0 <= qx < width && 0 <= qy < y ==> (#[trigger] cell_contents.at(qx, qy)
                        is Mine) == is_mine_char(ls[qy][qx]),
                forall|qx: int|
                    0 <= qx < x ==> (#[trigger] cell_contents.at(qx, y as int) is Mine)
                        == is_mine_char(ls[y as int][qx]),
                mines == mines_before(ls, x as int, y as int),
                mines <= y * width + x,
                start_position == start_before(ls, x as int, y as int),
            decreases width - x,
        {
            let c = line[x];
            proof {
                cell_contents.lemma_has(x as int, y as int);
                assert((y + 1) * width <= height * width) by (nonlinear_arith)
                    requires
                        y + 1 <= height,
                        0 <= width,
                ;
                assert((y + 1) * width == y * width + width) by (nonlinear_arith);
            }
            let ghost before = cell_contents;
            if c == '*' || c == 'x' || c == 'X' {
                cell_contents.set(x, y, CellContent::Mine);
                mines += 1;
            } else if c == '.' || c == ' ' {
                cell_contents.set(x, y, CellContent::Empty);
            } else if c == '@' {
                cell_contents.set(x, y, CellContent::Empty);
                start_position = Some((x, y));
            } else {
                assert(c == ls[y as int][x as int]);
                match value_of(c) {
                    Some(d) => {
                        if 1 <= d && d <= 8 {
                            cell_contents.set(x, y, CellContent::Empty);
                        } else {
                            assert(!is_mine_char(ls[y as int][x as int]) && !is_free_char(
                                ls[y as int][x as int],
                            ));
                            return None;
                        }
                    },
                    None => {
                        assert(!is_mine_char(ls[y as int][x as int]) && !is_free_char(
                            ls[y as int][x as int],
                        ));
                        return None;
                    },
                }
            }
            proof {
                assert forall|qx: int, qy: int|
                    0 <= qx < width && 0 <= qy < height && !(qx == x && qy
                        == y) implies #[trigger] cell_contents.at(qx, qy) == before.at(qx, qy) by {
                    before.lemma_has(qx, qy);
                    crate::base::board::lemma_offset(width as int, height as int, x as int, y as int);
                    assert(crate::base::board::offset(width as int, qx, qy)
                        != crate::base::board::offset(width as int, x as int, y as int));
                }
            }
            x += 1;
        }
        assert((y + 1) * width == y * width + width) by (nonlinear_arith);
        y += 1;
    }
    let ghost laid = cell_contents;
    build_numbers(&mut cell_contents, mines);
    proof {
        assert forall|x: int, y: int| 0 <= x < width && 0 <= y < height implies (
        #[trigger] cell_contents.at(x, y) is Mine) == is_mine_char(ls[y][x]) by {
            laid.lemma_has(x, y);
            let i = laid.offset(x, y);
            assert((cell_contents@[i] is Mine) == (laid@[i] is Mine));
            assert((laid.at(x, y) is Mine) == is_mine_char(ls[y][x]));
        }
    }
    Some(ImportPack { cell_contents, mines, start_position })
}

/// The character for a cell: `X` for a mine, the number of a numbered cell
/// where numbers are asked for, and `.` for the rest.
pub open spec fn cell_char(content: CellContent, with_numbers: bool) -> char {
    match content {
        CellContent::Mine => 'X',
        CellContent::Number(n) => if with_numbers {
            digit_char(n as int)
        } else {
            '.'
        },
        CellContent::Empty => '.',
    }
}

/// The text for the cells before `(x, y)`, row by row: one character per
/// cell, `@` for the start, and a line feed between two rows.
pub open spec fn text_before(
    cells: &Vec2D<CellContent>,
    start: Option<(usize, usize)>,
    with_numbers: bool,
    x: int,
    y: int,
) -> Seq<char>
    decreases y, x,
{
    if y < 0 || x < 0 {
        Seq::empty()
    } else if x > 0 {
        text_before(cells, start, with_numbers, x - 1, y).push(
            if start == Some(((x - 1) as usize, y as usize)) {
                '@'
            } else {
                cell_char(cells.at(x - 1, y), with_numbers)
            },
        )
    } else if y > 0 {
        text_before(cells, start, with_numbers, cells.spec_width() as int, y - 1).push('\n')
    } else {
        Seq::empty()
    }
}

/// The text for a whole board.
pub open spec fn board_text(
    cells: &Vec2D<CellContent>,
    start: Option<(usize, usize)>,
    with_numbers: bool,
) -> Seq<char> {
    if cells.spec_height() == 0 {
        Seq::empty()
    } else {
        text_before(
            cells,
            start,
            with_numbers,
            cells.spec_width() as int,
            cells.spec_height() - 1,
        )
    }
}

/// Writes a board as text, with or without the numbers.
fn write_text(
    cell_contents: &Vec2D<CellContent>,
    start_position: Option<(usize, usize)>,
    with_numbers: bool,
) -> (r: String)
    requires
        cell_contents.wf(),
        with_numbers ==> forall|i: int|
            0 <= i < cell_contents@.len() ==> (#[trigger] cell_contents@[i] matches CellContent::Number(
                n,
            ) ==> n < 10),
    ensures
        r@ == board_text(cell_contents, start_position, with_numbers),
{
    let (width, height) = cell_contents.dims();
    let mut ascii = String::new();
    let mut y: usize = 0;
    while y < height
        invariant
            y <= height,
            cell_contents.wf(),
            width == cell_contents.spec_width(),
            height == cell_contents.spec_height(),
            with_numbers ==> forall|i: int|
                0 <= i < cell_contents@.len() ==> (#[trigger] cell_contents@[i] matches CellContent::Number(
                    n,
                ) ==> n < 10),
            y < height ==> ascii@ == text_before(
                cell_contents,
                start_position,
                with_numbers,
                0,
                y as int,
            ),
            y == height ==> ascii@ == board_text(cell_contents, start_position, with_numbers),
        decreases height - y,
    {
        let mut x: usize = 0;
        while x < width
            invariant
                x <= width,
                y < height,
                cell_contents.wf(),
                width == cell_contents.spec_width(),
                height == cell_contents.spec_height(),
                with_numbers ==> forall|i: int|
                    0 <= i < cell_contents@.len() ==> (#[trigger] cell_contents@[i] matches CellContent::Number(
                        n,
                    ) ==> n < 10),
                ascii@ == text_before(
                    cell_contents,
                    start_position,
                    with_numbers,
                    x as int,
                    y as int,
                ),
            decreases width - x,
        {
            proof {
                cell_contents.lemma_has(x as int, y as int);
            }
            let at_start = match start_position {
                Some((sx, sy)) => sx == x && sy == y,
                None => false,
            };
            if at_start {
                ascii.push('@');
            } else {
                let c = match *cell_contents.index(x, y) {
                    CellContent::Mine => 'X',
                    CellContent::Number(n) => if with_numbers {
                        digit(n)
                    } else {
                        '.'
                    },
                    CellContent::Empty => '.',
                };
                ascii.push(c);
            }
            x += 1;
        }
        if y < height - 1 {
            ascii.push('\n');
        }
        y += 1;
    }
    ascii
}

/// Writes a board as text, mines and empty cells alone.
pub fn encode(cell_contents: &Vec2D<CellContent>, start_position: Option<(usize, usize)>) -> (r:
    String)
    requires
        cell_contents.wf(),
    ensures
        r@ == board_text(cell_contents, start_position, false),
{
    write_text(cell_contents, start_position, false)
}

/// Writes a board as text, with the number of every numbered cell.
pub fn encode_with_numbers(
    cell_contents: &Vec2D<CellContent>,
    start_position: Option<(usize, usize)>,
) -> (r: String)
    requires
        cell_contents.wf(),
        forall|i: int|
            0 <= i < cell_contents@.len() ==> (#[trigger] cell_contents@[i] matches CellContent::Number(
                n,
            ) ==> n < 10),
    ensures
        r@ == board_text(cell_contents, start_position, true),
{
    write_text(cell_contents, start_position, true)
}

/// The character that the text holds for the cell `(x, y)`.
pub open spec fn mark(
    cells: &Vec2D<CellContent>,
    start: Option<(usize, usize)>,
    with_numbers: bool,
    x: int,
    y: int,
) -> char {
    if start == Some((x as usize, y as usize)) {
        '@'
    } else {
        cell_char(cells.at(x, y), with_numbers)
    }
}

/// The first `x` characters of row `y` of the text.
pub open spec fn row_part(
    cells: &Vec2D<CellContent>,
    start: Option<(usize, usize)>,
    with_numbers: bool,
    x: int,
    y: int,
) -> Seq<char> {
    Seq::new(x as nat, |i: int| mark(cells, start, with_numbers, i, y))
}

/// The first `y` rows of the text.
pub open spec fn rows(
    cells: &Vec2D<CellContent>,
    start: Option<(usize, usize)>,
    with_numbers: bool,
    y: int,
) -> Seq<Seq<char>> {
    Seq::new(
        y as nat,
        |j: int| row_part(cells, start, with_numbers, cells.spec_width() as int, j),
    )
}

/// Every number on the board can be written as one character that reads as
/// a cell without a mine.
pub open spec fn writable(cells: &Vec2D<CellContent>, with_numbers: bool) -> bool {
    with_numbers ==> forall|i: int|
        0 <= i < cells@.len() ==> (#[trigger] cells@[i] matches CellContent::Number(n) ==> 1 <= n
            <= 8)
}

/// The character for a cell is no line ending, stands for a mine exactly
/// where a mine is written, and marks the start at the start alone.
pub proof fn lemma_mark(
    cells: &Vec2D<CellContent>,
    start: Option<(usize, usize)>,
    with_numbers: bool,
    x: int,
    y: int,
)
    requires
        cells.wf(),
        writable(cells, with_numbers),
        0 <= x < cells.spec_width(),
        0 <= y < cells.spec_height(),
    ensures
        mark(cells, start, with_numbers, x, y) != '\n',
        mark(cells, start, with_numbers, x, y) != '\r',
        is_mine_char(mark(cells, start, with_numbers, x, y)) || is_free_char(
            mark(cells, start, with_numbers, x, y),
        ),
        is_mine_char(mark(cells, start, with_numbers, x, y)) == (cells.at(x, y) is Mine && start
            != Some((x as usize, y as usize))),
        (mark(cells, start, with_numbers, x, y) == '@') == (start == Some(
            (x as usize, y as usize),
        )),
{
    cells.lemma_has(x, y);
    assert(cells.at(x, y) == cells@[cells.offset(x, y)]);
}

/// The lines that a text completes depend on the characters read alone.
pub proof fn lemma_scan_agree(a: Seq<char>, b: Seq<char>, n: int)
    requires
        n <= a.len(),
        n <= b.len(),
        forall|i: int| 0 <= i < n ==> a[i] == b[i],
    ensures
        scan_lines(a, n) == scan_lines(b, n),
    decreases n,
{
    if n > 0 {
        lemma_scan_agree(a, b, n - 1);
    }
}

/// The text before the cell `(x, y)` reads as the rows before row `y`,
/// each complete, and the first `x` cells of row `y`.
pub proof fn lemma_scan_text(
    cells: &Vec2D<CellContent>,
    start: Option<(usize, usize)>,
    with_numbers: bool,
    x: int,
    y: int,
)
    requires
        cells.wf(),
        writable(cells, with_numbers),
        0 <= x <= cells.spec_width(),
        0 <= y < cells.spec_height(),
    ensures
        scan_lines(
            text_before(cells, start, with_numbers, x, y),
            text_before(cells, start, with_numbers, x, y).len() as int,
        ) == (rows(cells, start, with_numbers, y), row_part(cells, start, with_numbers, x, y)),
    decreases y, x,
{
    let width = cells.spec_width() as int;
    let t = text_before(cells, start, with_numbers, x, y);
    if x > 0 {
        let prev = text_before(cells, start, with_numbers, x - 1, y);
        let c = mark(cells, start, with_numbers, x - 1, y);
        lemma_scan_text(cells, start, with_numbers, x - 1, y);
        lemma_mark(cells, start, with_numbers, x - 1, y);
        assert(t == prev.push(c));
        lemma_scan_agree(t, prev, prev.len() as int);
        assert(t[t.len() - 1] == c);
        assert(row_part(cells, start, with_numbers, x - 1, y).push(c) =~= row_part(
            cells,
            start,
            with_numbers,
            x,
            y,
        ));
    } else if y > 0 {
        let prev = text_before(cells, start, with_numbers, width, y - 1);
        let last = row_part(cells, start, with_numbers, width, y - 1);
        lemma_scan_text(cells, start, with_numbers, width, y - 1);
        assert(t == prev.push('\n'));
        lemma_scan_agree(t, prev, prev.len() as int);
        assert(t[t.len() - 1] == '\n');
        if width > 0 {
            lemma_mark(cells, start, with_numbers, width - 1, y - 1);
            assert(last.last() == mark(cells, start, with_numbers, width - 1, y - 1));
        }
        assert(strip_cr(last) == last);
        assert(rows(cells, start, with_numbers, y - 1).push(last) =~= rows(
            cells,
            start,
            with_numbers,
            y,
        ));
        assert(row_part(cells, start, with_numbers, 0, y) =~= Seq::<char>::empty());
    } else {
        assert(t =~= Seq::<char>::empty());
        assert(rows(cells, start, with_numbers, 0) =~= Seq::<Seq<char>>::empty());
        assert(row_part(cells, start, with_numbers, 0, 0) =~= Seq::<char>::empty());
    }
}

/// Where the lines mark the cell `start` and no other, the start that is
/// read from the cells before `(x, y)` is `start` if it lies among them.
pub proof fn lemma_start_before(
    lines: Seq<Seq<char>>,
    start: Option<(usize, usize)>,
    width: int,
    height: int,
    x: int,
    y: int,
)
    requires
        0 <= width <= usize::MAX,
        0 <= height <= usize::MAX,
        lines.len() == height,
        forall|j: int| 0 <= j < height ==> (#[trigger] lines[j]).len() == width,
        forall|i: int, j: int|
            0 <= i < width && 0 <= j < height ==> (#[trigger] lines[j][i] == '@') == (start
                == Some((i as usize, j as usize))),
        0 <= x <= width,
        0 <= y < height,
    ensures
        start_before(lines, x, y) == if start matches Some(s) && s.0 < width && (s.1 < y || (s.1
            == y && s.0 < x)) {
            start
        } else {
            None
        },
    decreases y, x,
{
    if x > 0 {
        lemma_start_before(lines, start, width, height, x - 1, y);
        assert((lines[y][x - 1] == '@') == (start == Some(((x - 1) as usize, y as usize))));
    } else if y > 0 {
        assert(lines[y - 1].len() == width);
        lemma_start_before(lines, start, width, height, width, y - 1);
    }
}

/// Round trip: the text of a board reads as a board of the same size that
/// has a mine exactly where the board has one, but under the start, with
/// the number of mines around in every other cell, and with the same start
/// if the start lies on the board.
pub proof fn lemma_round_trip(
    cells: &Vec2D<CellContent>,
    start: Option<(usize, usize)>,
    with_numbers: bool,
    r: Option<ImportPack>,
)
    requires
        cells.wf(),
        cells.spec_width() >= 1,
        cells.spec_height() >= 1,
        cells.spec_width() * cells.spec_height() <= usize::MAX,
        writable(cells, with_numbers),
        read_as(board_text(cells, start, with_numbers), r),
    ensures
        r matches Some(pack) && {
            &&& pack.cell_contents.wf()
            &&& pack.cell_contents.spec_width() == cells.spec_width()
            &&& pack.cell_contents.spec_height() == cells.spec_height()
            &&& forall|x: int, y: int|
                0 <= x < cells.spec_width() && 0 <= y < cells.spec_height() ==> (
                #[trigger] pack.cell_contents.at(x, y) is Mine) == (cells.at(x, y) is Mine && start
                    != Some((x as usize, y as usize)))
            &&& numbered_in(
                pack.cell_contents@,
                cells.spec_width() as int,
                cells.spec_height() as int,
            )
            &&& pack.start_position == if start matches Some(s) && s.0 < cells.spec_width() && s.1
                < cells.spec_height() {
                start
            } else {
                None
            }
        },
{
    let width = cells.spec_width() as int;
    let height = cells.spec_height() as int;
    let text = board_text(cells, start, with_numbers);
    let lines = lines_of(text);
    let all = rows(cells, start, with_numbers, height);
    cells.lemma_dims_fit();
    lemma_scan_text(cells, start, with_numbers, width, height - 1);
    let last = row_part(cells, start, with_numbers, width, height - 1);
    assert(last.len() == width);
    assert(rows(cells, start, with_numbers, height - 1).push(last) =~= all);
    assert(lines == all);
    assert forall|x: int, y: int| 0 <= y < lines.len() && 0 <= x < lines[y].len() implies {
        &&& is_mine_char(#[trigger] lines[y][x]) || is_free_char(lines[y][x])
        &&& lines[y][x] == mark(cells, start, with_numbers, x, y)
    } by {
        lemma_mark(cells, start, with_numbers, x, y);
    }
    assert(readable(lines));
    let pack = r->Some_0;
    assert forall|x: int, y: int| 0 <= x < width && 0 <= y < height implies (
    #[trigger] pack.cell_contents.at(x, y) is Mine) == (cells.at(x, y) is Mine && start != Some(
        (x as usize, y as usize),
    )) by {
        lemma_mark(cells, start, with_numbers, x, y);
        assert(lines[y][x] == mark(cells, start, with_numbers, x, y));
    }
    assert forall|i: int, j: int| 0 <= i < width && 0 <= j < height implies (
    #[trigger] lines[j][i] == '@') == (start == Some((i as usize, j as usize))) by {
        lemma_mark(cells, start, with_numbers, i, j);
        assert(lines[j][i] == mark(cells, start, with_numbers, i, j));
    }
    lemma_start_before(lines, start, width, height, width, height - 1);
}

} // verus!
