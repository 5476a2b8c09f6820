//! The few JSON computations the engine needs, done by `serde_json`.
//!
//! Documents are held as their compact JSON text, the text that
//! `serde_json::Value`'s `Display` produces.
use vstd::prelude::*;
use crate::strmap::opt_view;

verus! {

/// The compact JSON text of the member `field` of the JSON object whose
/// text is `doc`; none when `doc` is not JSON, is not an object, or has
/// no member `field`.
pub uninterp spec fn spec_json_field(doc: Seq<char>, field: Seq<char>) -> Option<Seq<char>>;

/// The compact JSON text of the JSON value that `text` holds; none when
/// `text` is not JSON.
pub uninterp spec fn spec_json_canonical(text: Seq<char>) -> Option<Seq<char>>;

/// The JSON text of the JSON string whose contents are `s` (quoted and escaped).
pub uninterp spec fn spec_json_quote(s: Seq<char>) -> Seq<char>;

/// Calls `serde_json::Value::get` on the document: `doc` is converted to a
/// `serde_json::Value` with `serde_json::from_str` (a text that is not JSON
/// gives none), and the member found is converted back to text with
/// `Value`'s `Display`. The contract claims only that the result is the
/// function `spec_json_field` of the two texts.
#[verifier::external_body]
pub(crate) fn json_field_text(doc: &str, field: &str) -> (r: Option<String>)
    ensures
        opt_view(r) == spec_json_field(doc@, field@),
{
    match serde_json::from_str::<serde_json::Value>(doc) {
        Ok(v) => v.get(field).map(serde_json::Value::to_string),
        Err(_) => None,
    }
}

/// Calls `serde_json::from_str` to read `text` as a `serde_json::Value`
/// (none when it is not JSON) and converts the value back to text with
/// `Value`'s `Display`. The contract claims only that the result is the
/// function `spec_json_canonical` of the text.
#[verifier::external_body]
pub(crate) fn json_canonical(text: &str) -> (r: Option<String>)
    ensures
        opt_view(r) == spec_json_canonical(text@),
{
    match serde_json::from_str::<serde_json::Value>(text) {
        Ok(v) => Some(v.to_string()),
        Err(_) => None,
    }
}

/// Calls `Value`'s `Display` on `serde_json::Value::String(s)`: the JSON
/// text of the string `s`. The contract claims only that the result is the
/// function `spec_json_quote` of `s`.
#[verifier::external_body]
pub(crate) fn json_quote(s: &str) -> (r: String)
    ensures
        r@ == spec_json_quote(s@),
{
    serde_json::Value::String(s.to_owned()).to_string()
}

} // verus!
