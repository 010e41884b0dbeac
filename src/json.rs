use vstd::prelude::*;

verus! {

/// What the JSON document `raw` holds at the JSON pointer `pointer`: nothing
/// when `raw` is not JSON or nothing is there, `Some(None)` for a value that
/// is not a string, `Some(Some(s))` for the string `s`.
pub uninterp spec fn json_lookup(raw: Seq<char>, pointer: Seq<char>) -> Option<Option<Seq<char>>>;

pub open spec fn opt_str_view(r: Option<Option<String>>) -> Option<Option<Seq<char>>> {
    match r {
        None => None,
        Some(None) => Some(None),
        Some(Some(s)) => Some(Some(s@)),
    }
}

/// Relies on `serde_json::from_str` into a `serde_json::Value`, then
/// `Value::pointer` (RFC 6901) and `Value::as_str`: the answer depends on the
/// two strings alone.
#[verifier::external_body]
pub(crate) fn lookup(raw: &str, pointer: &str) -> (r: Option<Option<String>>)
    ensures
        opt_str_view(r) == json_lookup(raw@, pointer@),
{
    let value: serde_json::Value = match serde_json::from_str(raw) {
        Ok(value) => value,
        Err(_) => return None,
    };
    match value.pointer(pointer) {
        Some(found) => Some(found.as_str().map(String::from)),
        None => None,
    }
}

} // verus!
