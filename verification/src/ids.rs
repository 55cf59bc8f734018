//! Session identifiers as text.

use crate::event::Uuid;
use crate::text::{chars_of, hex, range_text, zero_filled};
use vstd::prelude::*;

verus! {

broadcast use vstd::string::group_string_axioms;

/// The thirty-two hexadecimal digits of an identifier.
pub open spec fn simple(id: Uuid) -> Seq<char> {
    zero_filled(hex(id.0 as nat), 32)
}

/// The digits in groups of eight, four, four, four and twelve.
pub open spec fn hyphenated(id: Uuid) -> Seq<char> {
    let s = simple(id);
    s.subrange(0, 8) + "-"@ + s.subrange(8, 12) + "-"@ + s.subrange(12, 16) + "-"@ + s.subrange(
        16,
        20,
    ) + "-"@ + s.subrange(20, 32)
}

/// Calls `uuid::Uuid::as_simple`: thirty-two lowercase hexadecimal digits, the
/// most significant first.
#[verifier::external_body]
pub(crate) fn simple_text(id: Uuid) -> (s: String)
    ensures
        s@ == simple(id),
        s@.len() == 32,
{
    uuid::Uuid::from_u128(id.0).as_simple().to_string()
}

/// Calls `uuid::Uuid::to_string`: the digits of the simple form in groups of
/// eight, four, four, four and twelve, with hyphens between.
#[verifier::external_body]
pub(crate) fn hyphenated_text(id: Uuid) -> (s: String)
    ensures
        s@ == hyphenated(id),
{
    uuid::Uuid::from_u128(id.0).to_string()
}

/// The first eight digits.
pub open spec fn leading(id: Uuid) -> Seq<char> {
    simple(id).subrange(0, 8)
}

/// The last eight digits.
pub open spec fn trailing(id: Uuid) -> Seq<char> {
    simple(id).subrange(24, 32)
}

/// The first eight digits.
pub fn leading_text(id: Uuid) -> (s: String)
    ensures
        s@ == leading(id),
{
    let v = chars_of(simple_text(id).as_str());
    range_text(&v, 0, 8)
}

/// The last eight digits, by which a session is named: identifiers of sessions
/// recorded close together differ at their end.
pub fn short(id: Uuid) -> (s: String)
    ensures
        s@ == trailing(id),
{
    let v = chars_of(simple_text(id).as_str());
    range_text(&v, 24, 32)
}

} // verus!
