//! Boards as links to the LlamaSweeper board editor.

use vstd::prelude::*;
use vstd::string::StringExecFns;
use crate::base::board::CellContent;
use crate::base::encode_decode::base32hex::{board_code, decode_query, mines_text, query_decoded};
use crate::base::encode_decode::ptt_url::from_link;
use crate::base::encode_decode::text::{chars_of, text_of};
use crate::base::encode_decode::web::{form_pairs, form_pairs_of, link_parts, take_apart};
use crate::base::vec2d::Vec2D;
use crate::base::ImportPack;

verus! {

/// The part of `text` after its first question mark, if it has one.
pub open spec fn after_question(text: Seq<char>, from: int) -> Option<Seq<char>>
    decreases text.len() - from,
{
    if from < 0 || from >= text.len() {
        None
    } else if text[from] == '?' {
        Some(text.subrange(from + 1, text.len() as int))
    } else {
        after_question(text, from + 1)
    }
}

/// The part of `text` after its first question mark, if it has one.
pub fn query_of(text: &Vec<char>) -> (r: Option<Vec<char>>)
    ensures
        match r {
            Some(query) => after_question(text@, 0) == Some(query@),
            None => after_question(text@, 0) is None,
        },
{
    let mut i: usize = 0;
    while i < text.len()
        invariant
            i <= text@.len(),
            after_question(text@, 0) == after_question(text@, i as int),
        decreases text@.len() - i,
    {
        if text[i] == '?' {
            let mut query: Vec<char> = Vec::new();
            let mut k: usize = i + 1;
            while k < text.len()
                invariant
                    i < k <= text@.len(),
                    query@ == text@.subrange(i + 1, k as int),
                decreases text@.len() - k,
            {
                query.push(text[k]);
                assert(text@.subrange(i + 1, k + 1) =~= text@.subrange(i + 1, k as int).push(
                    text@[k as int],
                ));
                k += 1;
            }
            return Some(query);
        }
        i += 1;
    }
    None
}

/// Reads a board from a link: the board `b` and the mines `m` of the query
/// that follows the first question mark in its fragment. There is no board
/// where the text is no link, or where the link has no such query.
pub fn decode(url: &str) -> (r: Option<ImportPack>)
    ensures
        match link_parts(url@) {
            Some((_, Some(fragment))) => match after_question(fragment, 0) {
                Some(query) => query_decoded(form_pairs_of(query), r),
                None => r is None,
            },
            _ => r is None,
        },
        r matches Some(pack) ==> from_link(pack),
{
    let part = match take_apart(url) {
        Ok((_, Some(part))) => part,
        _ => {
            return None;
        },
    };
    let query = match query_of(&chars_of(part.as_str())) {
        Some(query) => query,
        None => {
            return None;
        },
    };
    let pairs = form_pairs(text_of(&query).as_str());
    decode_query(&pairs)
}

/// Writes a board as a link.
pub fn encode(cell_contents: &Vec2D<CellContent>) -> (r: String)
    ensures
        r@ == "https://llamasweeper.com/#/game/board-editor?b="@ + board_code(
            cell_contents.spec_width(),
            cell_contents.spec_height(),
        ) + "&m="@ + mines_text(cell_contents@),
{
    let (board_str, mines_str) = crate::base::encode_decode::base32hex::encode(cell_contents);
    let mut link = String::from_str("https://llamasweeper.com/#/game/board-editor?b=");
    link.append(board_str.as_str());
    link.append("&m=");
    link.append(mines_str.as_str());
    link
}

} // verus!
