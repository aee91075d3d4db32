//! Boards as links to the ZiNi calculator.

use vstd::prelude::*;
use vstd::string::StringExecFns;
use crate::base::board::{numbered_in, CellContent};
use crate::base::encode_decode::base32hex::{board_code, decode_query, mines_text, query_decoded};
use crate::base::encode_decode::web::{link_parts, take_apart};
use crate::base::vec2d::Vec2D;
use crate::base::ImportPack;

verus! {

/// A board that came out of a link: one entry per cell, every cell without
/// a mine numbered, and no place to start at.
pub open spec fn from_link(pack: ImportPack) -> bool {
    &&& pack.cell_contents.wf()
    &&& pack.cell_contents.spec_width() > 0
    &&& pack.cell_contents.spec_height() > 0
    &&& numbered_in(
        pack.cell_contents@,
        pack.cell_contents.spec_width() as int,
        pack.cell_contents.spec_height() as int,
    )
    &&& pack.start_position is None
}

/// Reads a board from a link: the board `b` and the mines `m` of its query.
/// There is no board where the text is no link.
pub fn decode(url: &str) -> (r: Option<ImportPack>)
    ensures
        match link_parts(url@) {
            Some((pairs, _)) => query_decoded(pairs, r),
            None => r is None,
        },
        r matches Some(pack) ==> from_link(pack),
{
    match take_apart(url) {
        Ok((pairs, _)) => decode_query(&pairs),
        Err(_) => None,
    }
}

/// Writes a board as a link.
pub fn encode(cell_contents: &Vec2D<CellContent>) -> (r: String)
    ensures
        r@ == "https://pttacgfans.github.io/Minesweeper-ZiNi-Calculator/?b="@ + board_code(
            cell_contents.spec_width(),
            cell_contents.spec_height(),
        ) + "&m="@ + mines_text(cell_contents@),
{
    let (board_str, mines_str) = crate::base::encode_decode::base32hex::encode(cell_contents);
    let mut link = String::from_str("https://pttacgfans.github.io/Minesweeper-ZiNi-Calculator/?b=");
    link.append(board_str.as_str());
    link.append("&m=");
    link.append(mines_str.as_str());
    link
}

} // verus!
