//! Text in quotation marks, as programmers write it.

use crate::text::{join, joined, views};
use vstd::prelude::*;

verus! {

broadcast use vstd::string::group_string_axioms;

/// What std writes for a text with the `Debug` format.
pub uninterp spec fn debug_text(s: Seq<char>) -> Seq<char>;

/// Formats with std's `Debug` of `str`: the text in quotation marks, with
/// escapes. Which characters are escaped goes by std's own tables; the result
/// depends on the text alone.
#[verifier::external_body]
fn debug_str(s: &str) -> (r: String)
    ensures
        r@ == debug_text(s@),
{
    format!("{s:?}")
}

/// The text in quotation marks.
pub fn quoted(s: &str) -> (r: String)
    ensures
        r@ == debug_text(s@),
{
    debug_str(s)
}

/// A list of texts that are quoted already.
pub open spec fn bracketed(parts: Seq<Seq<char>>) -> Seq<char> {
    "["@ + joined(parts, ", "@) + "]"@
}

/// A list of texts that are quoted already.
pub fn bracket(parts: &Vec<String>) -> (r: String)
    ensures
        r@ == bracketed(views(parts@)),
{
    let mut r = "[".to_owned();
    r.append(join(parts, ", ").as_str());
    r.append("]");
    r
}

/// A list of texts in quotation marks.
pub open spec fn quoted_texts(parts: Seq<Seq<char>>) -> Seq<char> {
    bracketed(parts.map_values(|p: Seq<char>| debug_text(p)))
}

/// A list of texts in quotation marks.
pub fn quoted_list(parts: &Vec<String>) -> (r: String)
    ensures
        r@ == quoted_texts(views(parts@)),
{
    let mut list: Vec<String> = Vec::new();
    let mut i: usize = 0;
    while i < parts.len()
        invariant
            i <= parts@.len(),
            list@.len() == i,
            forall|k: int| 0 <= k < i ==> (#[trigger] list@[k])@ == debug_text(parts@[k]@),
        decreases parts@.len() - i,
    {
        list.push(quoted(parts[i].as_str()));
        i = i + 1;
    }
    assert(views(list@) =~= views(parts@).map_values(|p: Seq<char>| debug_text(p)));
    bracket(&list)
}

} // verus!
