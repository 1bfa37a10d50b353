//! Looking into JSON.
use vstd::prelude::*;

use crate::resources;

verus! {

/// The text under a key of a JSON object, if the text is JSON, an object,
/// has the key and holds a text there.
pub uninterp spec fn json_text(json: Seq<char>, key: Seq<char>) -> Option<Seq<char>>;

/// Calls `serde_json::from_str`, `Value::get` and `Value::as_str`. The
/// contract says that the answer depends on the two texts alone.
#[verifier::external_body]
pub(crate) fn json_text_field(json: &str, key: &str) -> (r: Option<String>)
    ensures
        resources::opt(r) == json_text(json@, key@),
{
    let value = serde_json::from_str::<serde_json::Value>(json).ok()?;
    value.get(key)?.as_str().map(str::to_owned)
}

/// The entries of the list under a key of a JSON object: of each the text
/// under another key, if it has one. There are entries only if the text is
/// JSON, an object, has the first key and holds a list there.
pub uninterp spec fn json_texts(json: Seq<char>, list: Seq<char>, key: Seq<char>) -> Option<
    Seq<Option<Seq<char>>>,
>;

/// Calls `serde_json::from_str`, `Value::get` and `Value::as_array`, and of
/// every entry `Value::get` and `Value::as_str`. The contract says that the
/// answer depends on the three texts alone.
#[verifier::external_body]
pub(crate) fn json_texts_field(json: &str, list: &str, key: &str) -> (r: Option<
    Vec<Option<String>>,
>)
    ensures
        match r {
            Some(v) => json_texts(json@, list@, key@) == Some(opt_texts(v@)),
            None => json_texts(json@, list@, key@) is None,
        },
{
    let value = serde_json::from_str::<serde_json::Value>(json).ok()?;
    let entries = value.get(list)?.as_array()?;
    Some(entries.iter().map(|e| e.get(key)?.as_str().map(str::to_owned)).collect())
}

/// Views of texts that may be missing.
pub open spec fn opt_texts(v: Seq<Option<String>>) -> Seq<Option<Seq<char>>> {
    v.map_values(|o: Option<String>| resources::opt(o))
}

/// Whether a text is a JSON object with a key.
pub uninterp spec fn json_has(json: Seq<char>, key: Seq<char>) -> bool;

/// Calls `serde_json::from_str` and `Value::get`. The contract says that the
/// answer depends on the two texts alone.
#[verifier::external_body]
pub(crate) fn json_has_field(json: &str, key: &str) -> (r: bool)
    ensures
        r == json_has(json@, key@),
{
    match serde_json::from_str::<serde_json::Value>(json) {
        Ok(value) => value.get(key).is_some(),
        Err(_) => false,
    }
}

} // verus!
