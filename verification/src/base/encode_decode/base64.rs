//! Boards as bytes, written in base64: a header byte, the width and the
//! height, the place to start at if there is one, and one bit per cell.

use vstd::prelude::*;
use ::base64::Engine;
use crate::base::board::{numbered_in, unnumbered, CellContent};
use crate::base::vec2d::Vec2D;
use crate::base::{build_numbers, ImportPack};

verus! {

/// `base64::DecodeError`: why a text is no base64.
#[verifier::external_type_specification]
#[verifier::external_body]
pub struct ExDecodeError(::base64::DecodeError);

/// The text that the standard base64 alphabet gives for `bytes`, without padding.
pub uninterp spec fn base64_text(bytes: Seq<u8>) -> Seq<char>;

/// The bytes that `text` stands for in the standard base64 alphabet without
/// padding, or `None` where it stands for none.
pub uninterp spec fn base64_bytes(text: Seq<char>) -> Option<Seq<u8>>;

/// `Engine::encode` of the `STANDARD_NO_PAD` engine of the `base64` crate:
/// the bytes in the standard alphabet, without padding.
#[verifier::external_body]
fn to_base64(bytes: &Vec<u8>) -> (r: String)
    ensures
        r@ == base64_text(bytes@),
{
    ::base64::engine::general_purpose::STANDARD_NO_PAD.encode(bytes)
}

/// `Engine::decode` of the `STANDARD_NO_PAD` engine of the `base64` crate:
/// the bytes that the text stands for, or why it stands for none.
#[verifier::external_body]
fn from_base64(text: &str) -> (r: Result<Vec<u8>, ::base64::DecodeError>)
    ensures
        match r {
            Ok(bytes) => base64_bytes(text@) == Some(bytes@),
            Err(_) => base64_bytes(text@) is None,
        },
{
    ::base64::engine::general_purpose::STANDARD_NO_PAD.decode(text)
}

/// `256` raised to `i`, for `i` up to eight.
pub open spec fn pow256(i: int) -> nat {
    if i <= 0 {
        1
    } else if i == 1 {
        0x100
    } else if i == 2 {
        0x1_0000
    } else if i == 3 {
        0x100_0000
    } else if i == 4 {
        0x1_0000_0000
    } else if i == 5 {
        0x100_0000_0000
    } else if i == 6 {
        0x1_0000_0000_0000
    } else if i == 7 {
        0x100_0000_0000_0000
    } else {
        0x1_0000_0000_0000_0000
    }
}

/// `2` raised to `j`, for `j` up to seven.
pub open spec fn pow2_8(j: int) -> int {
    if j <= 0 {
        1
    } else if j == 1 {
        2
    } else if j == 2 {
        4
    } else if j == 3 {
        8
    } else if j == 4 {
        16
    } else if j == 5 {
        32
    } else if j == 6 {
        64
    } else {
        128
    }
}

/// `v` without its lowest `i` bytes.
pub open spec fn shifted(v: nat, i: int) -> nat
    decreases i,
{
    if i <= 0 {
        v
    } else {
        shifted(v, i - 1) / 256
    }
}

/// The lowest `n` bytes of `v`, the lowest first.
pub open spec fn le_bytes(v: nat, n: int) -> Seq<u8>
    decreases n,
{
    if n <= 0 {
        Seq::empty()
    } else {
        le_bytes(v, n - 1).push((shifted(v, n - 1) % 256) as u8)
    }
}

/// How many bytes it takes to write `v`: at least one.
pub open spec fn bytes_needed(v: nat) -> int
    decreases v,
{
    if v < 256 {
        1
    } else {
        1 + bytes_needed(v / 256)
    }
}

/// The value of the first `j` cells of byte `k`, the first cell lowest;
/// cells past the end of the board count as free of mines.
pub open spec fn pack_value(cells: Seq<CellContent>, k: int, j: int) -> int
    decreases j,
{
    if j <= 0 {
        0
    } else {
        pack_value(cells, k, j - 1) + if 8 * k + j - 1 < cells.len() && cells[8 * k + j - 1]
            is Mine {
            pow2_8(j - 1)
        } else {
            0
        }
    }
}

/// The mines of a board, one bit per cell, row by row.
pub open spec fn packed_bytes(cells: Seq<CellContent>) -> Seq<u8> {
    Seq::new(((cells.len() + 7) / 8) as nat, |k: int| pack_value(cells, k, 8) as u8)
}

/// The bytes that stand for a board.
pub open spec fn frame_bytes(
    cells: Seq<CellContent>,
    width: nat,
    height: nat,
    start: Option<(usize, usize)>,
) -> Seq<u8> {
    let wide = if bytes_needed(width) > bytes_needed(height) {
        bytes_needed(width)
    } else {
        bytes_needed(height)
    };
    let header = (wide - 1) + if start is Some {
        8int
    } else {
        0int
    };
    seq![header as u8] + le_bytes(width, wide) + le_bytes(height, wide) + (match start {
        Some((sx, sy)) => le_bytes(sx as nat, wide) + le_bytes(sy as nat, wide),
        None => Seq::empty(),
    }) + packed_bytes(cells)
}

/// How many bytes it takes to write `v`.
fn width_of(v: usize) -> (r: usize)
    ensures
        r == bytes_needed(v as nat),
        1 <= r <= 8,
{
    let mut rest: u64 = v as u64;
    let mut count: usize = 1;
    while rest >= 256
        invariant
            1 <= count <= 8,
            rest < pow256(9 - count),
            bytes_needed(v as nat) == count - 1 + bytes_needed(rest as nat),
        decreases rest,
    {
        rest = rest / 256;
        count += 1;
    }
    count
}

/// Appends the lowest `n` bytes of `v` to `out`, the lowest first.
fn push_le(out: &mut Vec<u8>, v: usize, n: usize)
    requires
        n <= 8,
    ensures
        final(out)@ == old(out)@ + le_bytes(v as nat, n as int),
{
    let mut rest: u64 = v as u64;
    let mut i: usize = 0;
    assert(out@ =~= old(out)@ + le_bytes(v as nat, 0));
    while i < n
        invariant
            i <= n,
            rest == shifted(v as nat, i as int),
            out@ == old(out)@ + le_bytes(v as nat, i as int),
        decreases n - i,
    {
        let byte = (rest % 256) as u8;
        out.push(byte);
        assert((old(out)@ + le_bytes(v as nat, i as int)).push(byte) =~= old(out)@ + le_bytes(
            v as nat,
            i + 1,
        ));
        rest = rest / 256;
        i += 1;
    }
}

/// The bytes that stand for a board.
pub fn frame(cell_contents: &Vec2D<CellContent>, start_pos: Option<(usize, usize)>) -> (r: Vec<u8>)
    ensures
        r@ == frame_bytes(
            cell_contents@,
            cell_contents.spec_width(),
            cell_contents.spec_height(),
            start_pos,
        ),
{
    let (width, height) = cell_contents.dims();
    let wide_w = width_of(width);
    let wide_h = width_of(height);
    let byte_width = if wide_w > wide_h {
        wide_w
    } else {
        wide_h
    };
    let mut to_encode: Vec<u8> = Vec::new();
    let first_byte: u8 = (byte_width - 1) as u8 + if start_pos.is_some() {
        8u8
    } else {
        0u8
    };
    to_encode.push(first_byte);
    assert(to_encode@ =~= seq![first_byte]);
    push_le(&mut to_encode, width, byte_width);
    push_le(&mut to_encode, height, byte_width);
    match start_pos {
        Some((sx, sy)) => {
            let ghost before = to_encode@;
            push_le(&mut to_encode, sx, byte_width);
            push_le(&mut to_encode, sy, byte_width);
            assert(to_encode@ =~= before + (le_bytes(sx as nat, byte_width as int) + le_bytes(
                sy as nat,
                byte_width as int,
            )));
        },
        None => {
            assert(to_encode@ =~= to_encode@ + Seq::<u8>::empty());
        },
    }
    let ghost head = to_encode@;
    let data = cell_contents.data();
    let n = data.len();
    let mut packed: Vec<u8> = Vec::new();
    let mut byte: u8 = 0;
    let mut group: usize = 0;
    let mut j: u8 = 0;
    let mut i: usize = 0;
    while i < n
        invariant
            i <= n,
            n == data@.len(),
            data@ == cell_contents@,
            j < 8,
            i == 8 * group + j,
            byte == pack_value(data@, group as int, j as int),
            byte < pow2_8(j as int),
            packed@.len() == group,
            forall|g: int|
                0 <= g < group ==> #[trigger] packed@[g] == pack_value(data@, g, 8) as u8,
        decreases n - i,
    {
        let weight: u8 = if j == 0 {
            1
        } else if j == 1 {
            2
        } else if j == 2 {
            4
        } else if j == 3 {
            8
        } else if j == 4 {
            16
        } else if j == 5 {
            32
        } else if j == 6 {
            64
        } else {
            128
        };
        if data[i] == CellContent::Mine {
            byte = byte + weight;
        }
        if j == 7 {
            packed.push(byte);
            byte = 0;
            j = 0;
            group += 1;
        } else {
            j += 1;
        }
        i += 1;
    }
    if j > 0 {
        proof {
            lemma_pack_rest(data@, group as int, j as int, 8);
        }
        packed.push(byte);
    }
    assert(packed@ =~= packed_bytes(data@));
    to_encode.append(&mut packed);
    to_encode
}

/// Cells past the end of the board add nothing to a byte.
pub proof fn lemma_pack_rest(cells: Seq<CellContent>, k: int, j: int, to: int)
    requires
        0 <= j <= to,
        8 * k + j >= cells.len(),
    ensures
        pack_value(cells, k, to) == pack_value(cells, k, j),
    decreases to - j,
{
    if j < to {
        lemma_pack_rest(cells, k, j, to - 1);
    }
}

/// Writes a board in base64.
pub fn encode(cell_contents: &Vec2D<CellContent>, start_pos: Option<(usize, usize)>) -> (r: String)
    ensures
        r@ == base64_text(
            frame_bytes(
                cell_contents@,
                cell_contents.spec_width(),
                cell_contents.spec_height(),
                start_pos,
            ),
        ),
{
    let to_encode = frame(cell_contents, start_pos);
    to_base64(&to_encode)
}

/// The number that the `n` bytes from `from` on stand for, the lowest first.
pub open spec fn value_le(bytes: Seq<u8>, from: int, n: int) -> nat
    decreases n,
{
    if n <= 0 {
        0
    } else {
        value_le(bytes, from, n - 1) + (bytes[from + n - 1] as nat) * pow256(n - 1)
    }
}

/// Whether the bytes put a mine on cell `idx`, counting the cells row by
/// row; the bits of the cells begin at byte `body`.
pub open spec fn byte_bit(bytes: Seq<u8>, body: int, idx: int) -> bool {
    &&& 0 <= idx
    &&& body + idx / 8 < bytes.len()
    &&& (bytes[body + idx / 8] / (pow2_8(idx % 8) as u8)) % 2 == 1
}

/// How many mines the bytes put on the cells before `n`.
pub open spec fn byte_bits_before(bytes: Seq<u8>, body: int, n: int) -> nat
    decreases n,
{
    if n <= 0 {
        0
    } else {
        byte_bits_before(bytes, body, n - 1) + if byte_bit(bytes, body, n - 1) {
            1nat
        } else {
            0nat
        }
    }
}

/// `r` is what the bytes give when they are read as a board: nothing where
/// the header is cut short, where the board has no cell, or where a number
/// is more than the machine can hold; else the board of the written size
/// with the written mines, the numbers around them, and the written start.
pub open spec fn unframed(bytes: Seq<u8>, r: Option<ImportPack>) -> bool {
    if bytes.len() == 0 {
        r is None
    } else {
        let wide = bytes[0] % 8 + 1;
        let has_start = (bytes[0] / 8) % 2 == 1;
        let fields = if has_start {
            4int
        } else {
            2int
        };
        let body = 1 + fields * wide;
        if bytes.len() < 1 + fields + 1 || bytes.len() < body {
            r is None
        } else {
            let width = value_le(bytes, 1, wide as int);
            let height = value_le(bytes, 1 + wide, wide as int);
            let sx = value_le(bytes, 1 + 2 * wide, wide as int);
            let sy = value_le(bytes, 1 + 3 * wide, wide as int);
            if width == 0 || height == 0 || width * height > usize::MAX || (has_start && (sx
                > usize::MAX || sy > usize::MAX)) {
                r is None
            } else {
                match r {
                    None => false,
                    Some(pack) => {
                        &&& pack.cell_contents.wf()
                        &&& pack.cell_contents.spec_width() == width
                        &&& pack.cell_contents.spec_height() == height
                        &&& forall|idx: int|
                            0 <= idx < width * height ==> (#[trigger] pack.cell_contents@[idx]
                                is Mine) == byte_bit(bytes, body, idx)
                        &&& numbered_in(pack.cell_contents@, width as int, height as int)
                        &&& pack.mines == byte_bits_before(bytes, body, (width * height) as int)
                        &&& pack.start_position == if has_start {
                            Some((sx as usize, sy as usize))
                        } else {
                            None
                        }
                    },
                }
            }
        }
    }
}

/// The number that the `n` bytes from `from` on stand for, the lowest first.
fn read_le(bytes: &Vec<u8>, from: usize, n: usize) -> (r: u64)
    requires
        1 <= n <= 8,
        from + n <= bytes@.len(),
    ensures
        r == value_le(bytes@, from as int, n as int),
{
    let len = bytes.len();
    let mut value: u128 = 0;
    let mut weight: u128 = 1;
    let mut i: usize = 0;
    while i < n
        invariant
            i <= n,
            n <= 8,
            from + n <= len,
            len == bytes@.len(),
            weight == pow256(i as int),
            value == value_le(bytes@, from as int, i as int),
            value < weight,
        decreases n - i,
    {
        let b = bytes[from + i] as u128;
        assert(b * weight <= 255 * weight) by (nonlinear_arith)
            requires
                b <= 255,
                weight >= 0,
        ;
        value = value + b * weight;
        weight = weight * 256;
        i += 1;
    }
    value as u64
}

/// Reads a board from its bytes.
pub fn unframe(decoded: &Vec<u8>) -> (r: Option<ImportPack>)
    ensures
        unframed(decoded@, r),
{
    let len = decoded.len();
    if len == 0 {
        return None;
    }
    let byte_width = (decoded[0] % 8) as usize + 1;
    let has_start_pos = (decoded[0] / 8) % 2 == 1;
    let fields: usize = if has_start_pos {
        4
    } else {
        2
    };
    let body = 1 + fields * byte_width;
    if len < 1 + fields + 1 || len < body {
        return None;
    }
    let width = read_le(decoded, 1, byte_width);
    let height = read_le(decoded, 1 + byte_width, byte_width);
    if width == 0 || height == 0 {
        return None;
    }
    if width > usize::MAX as u64 || height > usize::MAX as u64 {
        assert(width as nat * height as nat > usize::MAX) by (nonlinear_arith)
            requires
                width > usize::MAX || height > usize::MAX,
                width >= 1,
                height >= 1,
        ;
        return None;
    }
    let width = width as usize;
    let height = height as usize;
    let total = match width.checked_mul(height) {
        Some(total) => total,
        None => {
            return None;
        },
    };
    let mut start_position: Option<(usize, usize)> = None;
    if has_start_pos {
        let sx = read_le(decoded, 1 + 2 * byte_width, byte_width);
        let sy = read_le(decoded, 1 + 3 * byte_width, byte_width);
        if sx > usize::MAX as u64 || sy > usize::MAX as u64 {
            return None;
        }
        start_position = Some((sx as usize, sy as usize));
    }
    let mut data: Vec<CellContent> = vec![CellContent::Empty; total];
    let mut mines: usize = 0;
    let mut idx: usize = 0;
    let mut group: usize = 0;
    let mut j: u8 = 0;
    while idx < total && body + group < len
        invariant
            idx <= total,
            j < 8,
            idx == 8 * group + j,
            body + group <= len,
            len == decoded@.len(),
            data@.len() == total,
            mines <= idx,
            mines == byte_bits_before(decoded@, body as int, idx as int),
            unnumbered(data@),
            forall|q: int|
                0 <= q < idx ==> (#[trigger] data@[q] is Mine) == byte_bit(
                    decoded@,
                    body as int,
                    q,
                ),
            forall|q: int| idx <= q < total ==> #[trigger] data@[q] == CellContent::Empty,
        decreases total - idx,
    {
        let b = decoded[body + group];
        let weight: u8 = if j == 0 {
            1
        } else if j == 1 {
            2
        } else if j == 2 {
            4
        } else if j == 3 {
            8
        } else if j == 4 {
            16
        } else if j == 5 {
            32
        } else if j == 6 {
            64
        } else {
            128
        };
        assert(idx / 8 == group && idx % 8 == j);
        if (b / weight) % 2 == 1 {
            data.set(idx, CellContent::Mine);
            mines += 1;
        }
        idx += 1;
        if j == 7 {
            j = 0;
            group += 1;
        } else {
            j += 1;
        }
    }
    proof {
        lemma_no_byte_bits_beyond(decoded@, body as int, idx as int, total as int);
        assert forall|q: int| 0 <= q < total implies (#[trigger] data@[q] is Mine) == byte_bit(
            decoded@,
            body as int,
            q,
        ) by {
            if q >= idx {
                assert(data@[q] == CellContent::Empty);
            }
        }
    }
    let mut cell_contents = Vec2D::from_data(width, height, data);
    let ghost laid = cell_contents@;
    build_numbers(&mut cell_contents, mines);
    proof {
        assert forall|q: int| 0 <= q < total implies (#[trigger] cell_contents@[q] is Mine)
            == byte_bit(decoded@, body as int, q) by {
            assert((cell_contents@[q] is Mine) == (laid[q] is Mine));
        }
    }
    Some(ImportPack { cell_contents, mines, start_position })
}

/// Past the end of the bytes there are no mines.
pub proof fn lemma_no_byte_bits_beyond(bytes: Seq<u8>, body: int, from: int, to: int)
    requires
        0 <= from <= to,
        body + from / 8 >= bytes.len() || from == to,
    ensures
        byte_bits_before(bytes, body, to) == byte_bits_before(bytes, body, from),
    decreases to - from,
{
    if from < to {
        lemma_no_byte_bits_beyond(bytes, body, from, to - 1);
    }
}

/// Reads a board from base64: nothing where the text is no base64, and
/// else what its bytes give.
pub fn decode(base64: &str) -> (r: Option<ImportPack>)
    ensures
        match base64_bytes(base64@) {
            Some(bytes) => unframed(bytes, r),
            None => r is None,
        },
{
    match from_base64(base64) {
        Ok(decoded) => unframe(&decoded),
        Err(_) => None,
    }
}

} // verus!
