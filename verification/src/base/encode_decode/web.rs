//! What the board links need of the `url` crate: taking a link apart.

use vstd::prelude::*;
use crate::base::encode_decode::base32hex::pairs_text;

verus! {

/// `url::ParseError`: why a text is no link.
#[verifier::external_type_specification]
#[verifier::external_body]
pub struct ExParseError(url::ParseError);

/// What the `url` crate makes of a link: the name and value pairs of its
/// query, percent-decoded and in the order of the query, and its fragment,
/// the part after the `#`, if it has one. `None` for a text that the crate
/// takes for no absolute link.
pub uninterp spec fn link_parts(text: Seq<char>) -> Option<
    (Seq<(Seq<char>, Seq<char>)>, Option<Seq<char>>),
>;

/// The name and value pairs that `url::form_urlencoded::parse` reads from a
/// query, percent-decoded, in the order of the query.
pub uninterp spec fn form_pairs_of(query: Seq<char>) -> Seq<(Seq<char>, Seq<char>)>;

/// `Url::parse`, and of the link that it gives `Url::query_pairs` and
/// `Url::fragment`, each copied out: the pairs of the query and the
/// fragment of the link, or why the text is no link.
#[verifier::external_body]
pub(crate) fn take_apart(text: &str) -> (r: Result<
    (Vec<(String, String)>, Option<String>),
    url::ParseError,
>)
    ensures
        match r {
            Ok((pairs, fragment)) => link_parts(text@) == Some(
                (
                    pairs_text(pairs@),
                    match fragment {
                        Some(part) => Some(part@),
                        None => None,
                    },
                ),
            ),
            Err(_) => link_parts(text@) is None,
        },
{
    match url::Url::parse(text) {
        Ok(link) => Ok(
            (link.query_pairs().into_owned().collect(), link.fragment().map(str::to_owned)),
        ),
        Err(e) => Err(e),
    }
}

/// `url::form_urlencoded::parse`, with every pair copied out: the pairs of
/// a query.
#[verifier::external_body]
pub(crate) fn form_pairs(query: &str) -> (r: Vec<(String, String)>)
    ensures
        pairs_text(r@) == form_pairs_of(query@),
{
    url::form_urlencoded::parse(query.as_bytes()).into_owned().collect()
}

} // verus!
