//! Thirty-two symbols for five cells each: the digits, then `a` to `v`.

use vstd::prelude::*;
use crate::base::board::{numbered_in, unnumbered, CellContent};
use crate::base::encode_decode::text::{chars_of, decimal, digits, parse_decimal, number_of, text_of, value_of, digit_value};
use crate::base::vec2d::Vec2D;
use crate::base::{build_numbers, ImportPack};

verus! {

/// The symbol for `v`, which is below thirty-two.
pub open spec fn symbol(v: int) -> char {
    if v < 10 {
        (('0' as u8) + v) as u8 as char
    } else {
        (('a' as u8) + (v - 10)) as u8 as char
    }
}

/// The symbol for `v`, which is below thirty-two.
pub fn to_symbol(v: u8) -> (r: char)
    requires
        v < 32,
    ensures
        r == symbol(v as int),
{
    if v < 10 {
        (('0' as u8) + v) as char
    } else {
        (('a' as u8) + (v - 10)) as char
    }
}

/// The value of a symbol, in either case, or `None` for any other character.
pub open spec fn symbol_value(c: char) -> Option<int> {
    if '0' <= c <= '9' {
        Some(c as u32 - '0' as u32)
    } else if 'a' <= c <= 'v' {
        Some(c as u32 - 'a' as u32 + 10)
    } else if 'A' <= c <= 'V' {
        Some(c as u32 - 'A' as u32 + 10)
    } else {
        None
    }
}

/// The value of a symbol, in either case, or `None` for any other character.
pub fn from_symbol(c: char) -> (r: Option<u8>)
    ensures
        match r {
            Some(v) => symbol_value(c) == Some(v as int) && v < 32,
            None => symbol_value(c) is None,
        },
{
    if '0' <= c && c <= '9' {
        Some((c as u32 - '0' as u32) as u8)
    } else if 'a' <= c && c <= 'v' {
        Some((c as u32 - 'a' as u32 + 10) as u8)
    } else if 'A' <= c && c <= 'V' {
        Some((c as u32 - 'A' as u32 + 10) as u8)
    } else {
        None
    }
}

/// Reading back a symbol gives the value that it was written for.
pub proof fn lemma_symbol_round_trip(v: int)
    requires
        0 <= v < 32,
    ensures
        symbol_value(symbol(v)) == Some(v),
{
}

/// The weight of bit `j` of a symbol, the highest bit first.
pub open spec fn weight5(j: int) -> int {
    if j == 0 {
        16
    } else if j == 1 {
        8
    } else if j == 2 {
        4
    } else if j == 3 {
        2
    } else {
        1
    }
}

/// Whether the text puts a mine on cell `idx`, counting the cells row by
/// row: every symbol stands for five cells, the highest bit first.
pub open spec fn cell_bit(text: Seq<char>, idx: int) -> bool {
    &&& 0 <= idx < 5 * text.len()
    &&& symbol_value(text[idx / 5]) matches Some(v)
    &&& (v / weight5(idx % 5)) % 2 == 1
}

/// How many mines the text puts on the cells before `n`.
pub open spec fn bits_before(text: Seq<char>, n: int) -> nat
    decreases n,
{
    if n <= 0 {
        0
    } else {
        bits_before(text, n - 1) + if cell_bit(text, n - 1) {
            1nat
        } else {
            0nat
        }
    }
}

/// Every character of the text is a symbol.
pub open spec fn all_symbols(text: Seq<char>) -> bool {
    forall|i: int| 0 <= i < text.len() ==> symbol_value(#[trigger] text[i]) is Some
}

/// `r` is what reading `text` as the mines of a `width` x `height` board
/// gives: nothing where the board has no cell, is too large, or where the
/// text holds anything but symbols; else the board with the mines of the
/// text and the numbers around them.
pub open spec fn decoded(width: nat, height: nat, text: Seq<char>, r: Option<ImportPack>) -> bool {
    match r {
        None => width == 0 || height == 0 || width * height > usize::MAX || !all_symbols(text),
        Some(pack) => {
            &&& width > 0
            &&& height > 0
            &&& all_symbols(text)
            &&& pack.cell_contents.wf()
            &&& pack.cell_contents.spec_width() == width
            &&& pack.cell_contents.spec_height() == height
            &&& forall|idx: int|
                0 <= idx < width * height ==> (#[trigger] pack.cell_contents@[idx] is Mine)
                    == cell_bit(text, idx)
            &&& numbered_in(pack.cell_contents@, width as int, height as int)
            &&& pack.mines == bits_before(text, (width * height) as int)
            &&& pack.start_position is None
        },
    }
}

/// Reads the mines of a `width` x `height` board from symbols.
pub fn decode(width: usize, height: usize, mines_str: &str) -> (r: Option<ImportPack>)
    ensures
        decoded(width as nat, height as nat, mines_str@, r),
{
    let text = chars_of(mines_str);
    let mut values: Vec<u8> = Vec::new();
    let mut i: usize = 0;
    while i < text.len()
        invariant
            i <= text@.len(),
            text@ == mines_str@,
            values@.len() == i,
            forall|k: int|
                0 <= k < i ==> symbol_value(#[trigger] text@[k]) == Some(values@[k] as int)
                    && values@[k] < 32,
        decreases text@.len() - i,
    {
        match from_symbol(text[i]) {
            Some(v) => {
                values.push(v);
            },
            None => {
                return None;
            },
        }
        i += 1;
    }
    if width == 0 || height == 0 {
        return None;
    }
    let total = match width.checked_mul(height) {
        Some(total) => total,
        None => {
            return None;
        },
    };
    let mut data: Vec<CellContent> = vec![CellContent::Empty; total];
    let mut mines: usize = 0;
    let mut idx: usize = 0;
    let mut group: usize = 0;
    let mut j: u8 = 0;
    while idx < total && group < values.len()
        invariant
            idx <= total,
            j < 5,
            idx == 5 * group + j,
            group <= values@.len(),
            values@.len() == text@.len(),
            text@ == mines_str@,
            data@.len() == total,
            mines <= idx,
            mines == bits_before(text@, idx as int),
            unnumbered(data@),
            forall|k: int|
                0 <= k < text@.len() ==> symbol_value(#[trigger] text@[k]) == Some(
                    values@[k] as int,
                ) && values@[k] < 32,
            forall|q: int| 0 <= q < idx ==> (#[trigger] data@[q] is Mine) == cell_bit(text@, q),
            forall|q: int| idx <= q < total ==> #[trigger] data@[q] == CellContent::Empty,
        decreases total - idx,
    {
        let v = values[group];
        let weight: u8 = if j == 0 {
            16
        } else if j == 1 {
            8
        } else if j == 2 {
            4
        } else if j == 3 {
            2
        } else {
            1
        };
        assert(idx / 5 == group && idx % 5 == j);
        assert(symbol_value(text@[group as int]) == Some(v as int));
        if (v / weight) % 2 == 1 {
            data.set(idx, CellContent::Mine);
            mines += 1;
        }
        idx += 1;
        if j == 4 {
            j = 0;
            group += 1;
        } else {
            j += 1;
        }
    }
    proof {
        lemma_no_bits_beyond(text@, idx as int, total as int);
        assert forall|q: int| 0 <= q < total implies (#[trigger] data@[q] is Mine) == cell_bit(
            text@,
            q,
        ) by {
            if q >= idx {
                assert(data@[q] == CellContent::Empty);
            }
        }
    }
    let mut cell_contents = Vec2D::from_data(width, height, data);
    let ghost laid = cell_contents@;
    build_numbers(&mut cell_contents, mines);
    proof {
        assert forall|q: int| 0 <= q < total implies (#[trigger] cell_contents@[q] is Mine)
            == cell_bit(text@, q) by {
            assert((cell_contents@[q] is Mine) == (laid[q] is Mine));
        }
    }
    Some(ImportPack { cell_contents, mines, start_position: None })
}

/// Past the end of the text there are no mines.
pub proof fn lemma_no_bits_beyond(text: Seq<char>, from: int, to: int)
    requires
        0 <= from <= to,
        from >= 5 * text.len() || from == to,
    ensures
        bits_before(text, to) == bits_before(text, from),
    decreases to - from,
{
    if from < to {
        lemma_no_bits_beyond(text, from, to - 1);
    }
}

/// The value of the first `j` cells of group `g`, the first cell highest;
/// cells past the end of the board count as free of mines.
pub open spec fn group_value(cells: Seq<CellContent>, g: int, j: int) -> int
    decreases j,
{
    if j <= 0 {
        0
    } else {
        2 * group_value(cells, g, j - 1) + if 5 * g + j - 1 < cells.len() && cells[5 * g + j - 1]
            is Mine {
            1int
        } else {
            0int
        }
    }
}

/// The symbols for the mines of a board: one for every five cells, row by row.
pub open spec fn mines_text(cells: Seq<CellContent>) -> Seq<char> {
    Seq::new(((cells.len() + 4) / 5) as nat, |g: int| symbol(group_value(cells, g, 5)))
}

/// `count` zeros.
pub open spec fn zeros(count: int) -> Seq<char> {
    Seq::new(
        if count > 0 {
            count as nat
        } else {
            0
        },
        |i: int| '0',
    )
}

/// The code for the size of a board: one digit for each of the three
/// classic sizes, and else the width followed by the height, the height
/// filled up with zeros to the length of the width.
pub open spec fn board_code(width: nat, height: nat) -> Seq<char> {
    if width == 9 && height == 9 {
        seq!['1']
    } else if width == 16 && height == 16 {
        seq!['2']
    } else if width == 30 && height == 16 {
        seq!['3']
    } else {
        digits(width) + zeros(digits(width).len() - digits(height).len()) + digits(height)
    }
}

/// The code for the size of a board and the symbols for its mines.
pub fn encode(cell_contents: &Vec2D<CellContent>) -> (r: (String, String))
    ensures
        r.0@ == board_code(cell_contents.spec_width(), cell_contents.spec_height()),
        r.1@ == mines_text(cell_contents@),
{
    let (width, height) = cell_contents.dims();
    let mut code: Vec<char> = Vec::new();
    if width == 9 && height == 9 {
        code.push('1');
        assert(code@ =~= seq!['1']);
    } else if width == 16 && height == 16 {
        code.push('2');
        assert(code@ =~= seq!['2']);
    } else if width == 30 && height == 16 {
        code.push('3');
        assert(code@ =~= seq!['3']);
    } else {
        code = decimal(width);
        let mut tall = decimal(height);
        let wide = code.len();
        let ghost head = code@;
        let mut fill: usize = tall.len();
        while fill < wide
            invariant
                tall@.len() <= fill,
                fill <= wide || fill == tall@.len(),
                wide == head.len(),
                code@ == head + zeros(fill - tall@.len()),
            decreases wide - fill,
        {
            code.push('0');
            assert(zeros(fill + 1 - tall@.len()) =~= zeros(fill - tall@.len()).push('0'));
            assert((head + zeros(fill - tall@.len())).push('0') =~= head + zeros(
                fill + 1 - tall@.len(),
            ));
            fill += 1;
        }
        proof {
            assert(zeros(fill - tall@.len()) =~= zeros(wide - tall@.len()));
        }
        code.append(&mut tall);
    }
    let data = cell_contents.data();
    let n = data.len();
    let mut symbols: Vec<char> = Vec::new();
    let mut acc: u8 = 0;
    let mut group: usize = 0;
    let mut j: u8 = 0;
    let mut i: usize = 0;
    while i < n
        invariant
            i <= n,
            n == data@.len(),
            data@ == cell_contents@,
            j < 5,
            i == 5 * group + j,
            acc == group_value(data@, group as int, j as int),
            acc < 32,
            j == 0 ==> acc == 0,
            j == 1 ==> acc < 2,
            j == 2 ==> acc < 4,
            j == 3 ==> acc < 8,
            j == 4 ==> acc < 16,
            symbols@.len() == group,
            forall|g: int|
                0 <= g < group ==> #[trigger] symbols@[g] == symbol(group_value(data@, g, 5)),
        decreases n - i,
    {
        let bit: u8 = if data[i] == CellContent::Mine {
            1
        } else {
            0
        };
        acc = 2 * acc + bit;
        if j == 4 {
            symbols.push(to_symbol(acc));
            acc = 0;
            j = 0;
            group += 1;
        } else {
            j += 1;
        }
        i += 1;
    }
    if j > 0 {
        let ghost filled = j;
        while j < 5
            invariant
                0 < j <= 5,
                n == data@.len(),
                n == 5 * group + filled,
                filled <= j,
                acc == group_value(data@, group as int, j as int),
                j == 1 ==> acc < 2,
                j == 2 ==> acc < 4,
                j == 3 ==> acc < 8,
                j == 4 ==> acc < 16,
                j == 5 ==> acc < 32,
            decreases 5 - j,
        {
            acc = 2 * acc;
            j += 1;
        }
        symbols.push(to_symbol(acc));
    }
    assert(symbols@ =~= mines_text(data@));
    (text_of(&code), text_of(&symbols))
}

/// The last value that the pairs give for the key `key`, among the first `n`.
pub open spec fn lookup(pairs: Seq<(Seq<char>, Seq<char>)>, key: Seq<char>, n: int) -> Option<
    Seq<char>,
>
    decreases n,
{
    if n <= 0 {
        None
    } else if pairs[n - 1].0 == key {
        Some(pairs[n - 1].1)
    } else {
        lookup(pairs, key, n - 1)
    }
}

/// The keys and values of `pairs`, as plain text.
pub open spec fn pairs_text(pairs: Seq<(String, String)>) -> Seq<(Seq<char>, Seq<char>)> {
    Seq::new(pairs.len(), |i: int| (pairs[i].0@, pairs[i].1@))
}

/// Every character of the text is a decimal digit.
pub open spec fn all_digits(text: Seq<char>) -> bool {
    forall|i: int| 0 <= i < text.len() ==> digit_value(#[trigger] text[i]) is Some
}

/// The number that the digits stand for, and eight where they are none or
/// stand for more than the machine can hold.
pub open spec fn size_of(part: Seq<char>) -> nat {
    match number_of(part, part.len() as int) {
        Some(value) => if part.len() > 0 && value <= usize::MAX {
            value
        } else {
            8
        },
        None => 8,
    }
}

/// The size of the board that a code stands for: one digit for each of the
/// three classic sizes, and else the first half of the digits for the width
/// and the rest for the height.
pub open spec fn board_size(code: Seq<char>) -> (nat, nat) {
    if code == seq!['1'] {
        (9, 9)
    } else if code == seq!['2'] {
        (16, 16)
    } else if code == seq!['3'] {
        (30, 16)
    } else {
        let mid = (code.len() / 2) as int;
        (size_of(code.subrange(0, mid)), size_of(code.subrange(mid, code.len() as int)))
    }
}

/// `r` is what the query of a board link gives: nothing where the board
/// `b` or the mines `m` are missing or the board is written in anything but
/// digits, and else what the mines give on a board of that size.
pub open spec fn query_decoded(pairs: Seq<(Seq<char>, Seq<char>)>, r: Option<ImportPack>) -> bool {
    match (lookup(pairs, seq!['b'], pairs.len() as int), lookup(pairs, seq!['m'], pairs.len() as int)) {
        (Some(code), Some(mines)) => if all_digits(code) {
            decoded(board_size(code).0, board_size(code).1, mines, r)
        } else {
            r is None
        },
        _ => r is None,
    }
}

/// The last value that the pairs give for the one-letter key `key`.
fn find(pairs: &Vec<(String, String)>, key: char) -> (r: Option<usize>)
    ensures
        match r {
            Some(i) => i < pairs@.len() && lookup(
                pairs_text(pairs@),
                seq![key],
                pairs@.len() as int,
            ) == Some(pairs@[i as int].1@),
            None => lookup(pairs_text(pairs@), seq![key], pairs@.len() as int) is None,
        },
{
    let ghost ps = pairs_text(pairs@);
    let mut i: usize = pairs.len();
    while i > 0
        invariant
            i <= pairs@.len(),
            ps == pairs_text(pairs@),
            lookup(ps, seq![key], pairs@.len() as int) == lookup(ps, seq![key], i as int),
        decreases i,
    {
        let name = chars_of(pairs[i - 1].0.as_str());
        assert(ps[i - 1].0 == name@);
        if name.len() == 1 && name[0] == key {
            assert(name@ =~= seq![key]);
            assert(ps[i - 1].1 == pairs@[i - 1].1@);
            return Some(i - 1);
        }
        assert(name@ != seq![key]) by {
            if name@ == seq![key] {
                assert(name@.len() == 1);
                assert(name@[0] == key);
            }
        }
        i -= 1;
    }
    None
}

/// Reads a board from the query of a board link.
pub fn decode_query(pairs: &Vec<(String, String)>) -> (r: Option<ImportPack>)
    ensures
        query_decoded(pairs_text(pairs@), r),
{
    let b = match find(pairs, 'b') {
        Some(i) => i,
        None => {
            return None;
        },
    };
    let m = match find(pairs, 'm') {
        Some(i) => i,
        None => {
            return None;
        },
    };
    let code = chars_of(pairs[b].1.as_str());
    let mut i: usize = 0;
    while i < code.len()
        invariant
            i <= code@.len(),
            b < pairs@.len(),
            m < pairs@.len(),
            code@ == pairs@[b as int].1@,
            lookup(pairs_text(pairs@), seq!['b'], pairs@.len() as int) == Some(
                pairs@[b as int].1@,
            ),
            lookup(pairs_text(pairs@), seq!['m'], pairs@.len() as int) == Some(
                pairs@[m as int].1@,
            ),
            forall|k: int| 0 <= k < i ==> digit_value(#[trigger] code@[k]) is Some,
        decreases code@.len() - i,
    {
        if value_of(code[i]).is_none() {
            assert(digit_value(code@[i as int]) is None);
            return None;
        }
        i += 1;
    }
    let n = code.len();
    let (width, height): (usize, usize) = if n == 1 && code[0] == '1' {
        assert(code@ =~= seq!['1']);
        (9, 9)
    } else if n == 1 && code[0] == '2' {
        assert(code@ =~= seq!['2']);
        (16, 16)
    } else if n == 1 && code[0] == '3' {
        assert(code@ =~= seq!['3']);
        (30, 16)
    } else {
        proof {
            if code@ == seq!['1'] || code@ == seq!['2'] || code@ == seq!['3'] {
                assert(code@.len() == 1);
                assert(code@[0] == '1' || code@[0] == '2' || code@[0] == '3');
            }
        }
        let mid = n / 2;
        let w = match parse_decimal(&code, 0, mid) {
            Some(w) => w,
            None => 8,
        };
        let h = match parse_decimal(&code, mid, n) {
            Some(h) => h,
            None => 8,
        };
        (w, h)
    };
    decode(width, height, pairs[m].1.as_str())
}

} // verus!
