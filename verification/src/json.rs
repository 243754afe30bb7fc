//! The JSON lookups the worker makes, through `serde_json`.

use vstd::prelude::*;

verus! {

/// What `serde_json` makes of `text` when asked for the string member `key`:
/// `None` when `text` is not valid JSON; else whether the document is an
/// object, and the member's text when the object maps `key` to a string.
pub uninterp spec fn json_string_member(text: Seq<char>, key: Seq<char>) -> Option<(bool, Option<Seq<char>>)>;

/// The model of a lookup result: `None` for a parse error.
pub open spec fn member_view(r: Result<(bool, Option<String>), String>) -> Option<
    (bool, Option<Seq<char>>),
> {
    match r {
        Ok(v) => Some((v.0, v.1.deep_view())),
        Err(_) => None,
    }
}

/// Parses `text` with `serde_json::from_str::<serde_json::Value>` and, when
/// the document is an object, looks `key` up with `serde_json::Map::get`.
///
/// Claimed: `Ok` exactly when the text parses, and then the result is the
/// named value `json_string_member(text, key)`; a document that is not an
/// object has no member. The error's text (serde_json's `Display` of its
/// error) is not stated.
#[verifier::external_body]
pub(crate) fn object_string_member(text: &str, key: &str) -> (r: Result<(bool, Option<String>), String>)
    ensures
        member_view(r) == json_string_member(text@, key@),
        r matches Ok(v) ==> (!v.0 ==> v.1 is None),
{
    match serde_json::from_str::<serde_json::Value>(text) {
        Ok(serde_json::Value::Object(map)) => Ok((true, match map.get(key) {
            Some(serde_json::Value::String(s)) => Some(s.clone()),
            _ => None,
        })),
        Ok(_) => Ok((false, None)),
        Err(e) => Err(e.to_string()),
    }
}

} // verus!
