//! JSON texts, read one step at a time: the items of an array, the member of an
//! object, and values that stand alone. Each step gives JSON texts or plain values.
use vstd::prelude::*;

use crate::index::state;
use crate::index::types;
use crate::text;

verus! {

/// Whether a text is one JSON value.
pub uninterp spec fn is_json(s: Seq<char>) -> bool;

/// The JSON texts of the items of an array; none where the text is no array.
pub uninterp spec fn items_of(s: Seq<char>) -> Option<Seq<Seq<char>>>;

/// The JSON text of a member of an object; none where the text is no object or has no
/// such member.
pub uninterp spec fn member_of(s: Seq<char>, name: Seq<char>) -> Option<Seq<char>>;

/// The string that a JSON text denotes.
pub uninterp spec fn string_of(s: Seq<char>) -> Option<Seq<char>>;

/// The truth value that a JSON text denotes.
pub uninterp spec fn flag_of(s: Seq<char>) -> Option<bool>;

/// The number without sign and fraction that a JSON text denotes.
pub uninterp spec fn number_of(s: Seq<char>) -> Option<u64>;

/// The bytes that a JSON array of numbers denotes.
pub uninterp spec fn bytes_of(s: Seq<char>) -> Option<Seq<u8>>;

/// `serde_json::from_str` of any value: whether it takes the text.
#[verifier::external_body]
pub(crate) fn valid(s: &str) -> (r: bool)
    ensures
        r == is_json(s@),
{
    serde_json::from_str::<serde_json::Value>(s).is_ok()
}

/// `serde_json::from_str` of a list of values, each written out again by the
/// `Display` of `serde_json::Value`: a function of the text.
#[verifier::external_body]
pub(crate) fn items(s: &str) -> (r: Option<Vec<String>>)
    ensures
        r is Some <==> items_of(s@) is Some,
        r is Some ==> text::texts(r->0@) == items_of(s@)->0,
{
    let values = serde_json::from_str::<Vec<serde_json::Value>>(s).ok();
    values.map(|v| v.iter().map(|item| item.to_string()).collect())
}

/// `serde_json::Value::get` on what `serde_json::from_str` makes of the text, written
/// out again by the `Display` of `serde_json::Value`: a function of text and name.
#[verifier::external_body]
pub(crate) fn member(s: &str, name: &str) -> (r: Option<String>)
    ensures
        types::optional_text(r) == member_of(s@, name@),
{
    let value = serde_json::from_str::<serde_json::Value>(s).ok();
    value.and_then(|v| v.get(name).map(|m| m.to_string()))
}

/// `serde_json::from_str` of a string: a function of the text.
#[verifier::external_body]
pub(crate) fn string(s: &str) -> (r: Option<String>)
    ensures
        types::optional_text(r) == string_of(s@),
{
    serde_json::from_str::<String>(s).ok()
}

/// `serde_json::from_str` of a truth value: a function of the text.
#[verifier::external_body]
pub(crate) fn flag(s: &str) -> (r: Option<bool>)
    ensures
        r == flag_of(s@),
{
    serde_json::from_str::<bool>(s).ok()
}

/// `serde_json::from_str` of a number of 64 bits: a function of the text.
#[verifier::external_body]
pub(crate) fn number(s: &str) -> (r: Option<u64>)
    ensures
        r == number_of(s@),
{
    serde_json::from_str::<u64>(s).ok()
}

/// `serde_json::from_str` of a list of bytes: a function of the text.
#[verifier::external_body]
pub(crate) fn byte_list(s: &str) -> (r: Option<Vec<u8>>)
    ensures
        state::optional_bytes(r) == bytes_of(s@),
{
    serde_json::from_str::<Vec<u8>>(s).ok()
}

/// A member of an object that is a string.
pub open spec fn string_at(s: Seq<char>, name: Seq<char>) -> Option<Seq<char>> {
    match member_of(s, name) {
        Some(m) => string_of(m),
        None => None,
    }
}

/// A member of an object that is a truth value.
pub open spec fn flag_at(s: Seq<char>, name: Seq<char>) -> Option<bool> {
    match member_of(s, name) {
        Some(m) => flag_of(m),
        None => None,
    }
}

/// A member of an object that is a number without sign and fraction.
pub open spec fn number_at(s: Seq<char>, name: Seq<char>) -> Option<u64> {
    match member_of(s, name) {
        Some(m) => number_of(m),
        None => None,
    }
}

/// A member of an object that is a list of bytes.
pub open spec fn bytes_at(s: Seq<char>, name: Seq<char>) -> Option<Seq<u8>> {
    match member_of(s, name) {
        Some(m) => bytes_of(m),
        None => None,
    }
}

/// Reads a member of an object that is a string.
pub fn string_member(s: &str, name: &str) -> (r: Option<String>)
    ensures
        types::optional_text(r) == string_at(s@, name@),
{
    match member(s, name) {
        Some(m) => string(m.as_str()),
        None => None,
    }
}

/// Reads a member of an object that is a truth value.
pub fn flag_member(s: &str, name: &str) -> (r: Option<bool>)
    ensures
        r == flag_at(s@, name@),
{
    match member(s, name) {
        Some(m) => flag(m.as_str()),
        None => None,
    }
}

/// Reads a member of an object that is a number without sign and fraction.
pub fn number_member(s: &str, name: &str) -> (r: Option<u64>)
    ensures
        r == number_at(s@, name@),
{
    match member(s, name) {
        Some(m) => number(m.as_str()),
        None => None,
    }
}

/// Reads a member of an object that is a list of bytes.
pub fn bytes_member(s: &str, name: &str) -> (r: Option<Vec<u8>>)
    ensures
        state::optional_bytes(r) == bytes_at(s@, name@),
{
    match member(s, name) {
        Some(m) => byte_list(m.as_str()),
        None => None,
    }
}

} // verus!
