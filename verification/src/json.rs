//! The few operations on JSON values that the placeholder migration needs,
//! done by `serde_json`.

use vstd::prelude::*;

verus! {

/// A JSON value of `serde_json`; opaque here.
#[verifier::external_type_specification]
#[verifier::external_body]
pub struct ExJsonValue(serde_json::Value);

/// What `serde_json::from_str::<Vec<Value>>` makes of a text: the elements
/// of a JSON array, or `None` where the text is not one.
pub uninterp spec fn json_array_from_text(text: Seq<char>) -> Option<Seq<serde_json::Value>>;

/// What `serde_json::to_string` makes of a list of values: the text of a JSON
/// array, or `None` on a serialization error.
pub uninterp spec fn json_text_of_array(values: Seq<serde_json::Value>) -> Option<Seq<char>>;

/// What `Value::get` gives for a string key: the field of that name of a
/// JSON object, `None` for a missing field or for a value that is not an
/// object.
pub uninterp spec fn json_field(v: serde_json::Value, key: Seq<char>) -> Option<serde_json::Value>;

/// What `Value::as_str` gives: the contents of a JSON string, `None` for any
/// other value.
pub uninterp spec fn json_str(v: serde_json::Value) -> Option<Seq<char>>;

/// Whether a value is a JSON object (`Value::is_object`).
pub uninterp spec fn json_is_object(v: serde_json::Value) -> bool;

/// The object `v` after `Map::insert` has set field `key` to the JSON
/// string `s`.
pub uninterp spec fn json_with_str_field(v: serde_json::Value, key: Seq<char>, s: Seq<char>) -> serde_json::Value;

/// The string held in field `key` of a JSON object: `None` where the field
/// is missing or not a string, or `v` is not an object.
pub open spec fn json_str_field(v: serde_json::Value, key: Seq<char>) -> Option<Seq<char>> {
    match json_field(v, key) {
        Some(f) => json_str(f),
        None => None,
    }
}

/// Parses `text` as a JSON array (`serde_json::from_str::<Vec<Value>>`);
/// `None` on any parse error.
#[verifier::external_body]
pub(crate) fn parse_json_array(text: &str) -> (r: Option<Vec<serde_json::Value>>)
    ensures
        match r {
            Some(vs) => json_array_from_text(text@) == Some(vs@),
            None => json_array_from_text(text@) is None,
        },
{
    serde_json::from_str::<Vec<serde_json::Value>>(text).ok()
}

/// Serializes a list of values as a JSON array (`serde_json::to_string`).
/// The call cannot fail on a `Vec<Value>`: map keys are strings and every
/// `Value` serializes. Parsing the text back gives as many values, and the
/// string fields of each read back as they were.
#[verifier::external_body]
pub(crate) fn render_json_array(values: &Vec<serde_json::Value>) -> (r: Option<String>)
    ensures
        r is Some,
        r.deep_view() == json_text_of_array(values@),
        r matches Some(t) ==> (json_array_from_text(t@) matches Some(back) ==> {
            &&& back.len() == values@.len()
            &&& forall|i: int, k: Seq<char>| 0 <= i < back.len() ==>
                #[trigger] json_str_field(back[i], k) == json_str_field(values@[i], k)
        }),
{
    serde_json::to_string(values).ok()
}

/// The field `key` of a JSON object (`Value::get`).
#[verifier::external_body]
pub(crate) fn get_field<'a>(v: &'a serde_json::Value, key: &str) -> (r: Option<&'a serde_json::Value>)
    ensures
        match r {
            Some(f) => json_field(*v, key@) == Some(*f),
            None => json_field(*v, key@) is None,
        },
        r is Some ==> json_is_object(*v),
{
    v.get(key)
}

/// The contents of a JSON string (`Value::as_str`).
#[verifier::external_body]
pub(crate) fn string_contents(v: &serde_json::Value) -> (r: Option<String>)
    ensures
        r.deep_view() == json_str(*v),
{
    v.as_str().map(str::to_string)
}

/// Whether a value is a JSON object (`Value::is_object`).
#[verifier::external_body]
pub(crate) fn is_object(v: &serde_json::Value) -> (r: bool)
    ensures
        r == json_is_object(*v),
{
    v.is_object()
}

/// Sets field `key` of a JSON object to the string `s` (`Map::insert` on the
/// object's map); the field then reads back as `s`.
#[verifier::external_body]
pub(crate) fn set_string_field(v: &mut serde_json::Value, key: &str, s: String)
    requires
        json_is_object(*old(v)),
    ensures
        *final(v) == json_with_str_field(*old(v), key@, s@),
        json_str_field(*final(v), key@) == Some(s@),
{
    if let serde_json::Value::Object(map) = v {
        map.insert(key.to_string(), serde_json::Value::String(s));
    }
}

} // verus!
