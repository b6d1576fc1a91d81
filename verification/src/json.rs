//! JSON documents as plain values, and the lookups that read them.
use vstd::prelude::*;

verus! {

/// A JSON value. Numbers keep their text; an object keeps its members in
/// the order the parser yields them.
#[derive(Debug)]
pub enum JsonValue {
    Null,
    Bool(bool),
    Number(String),
    Str(String),
    Array(Vec<JsonValue>),
    Object(Vec<(String, JsonValue)>),
}

#[verifier::external_type_specification]
#[verifier::external_body]
pub struct ExSerdeJsonValue(serde_json::Value);

/// The document that `serde_json` parses from a text, if the text is JSON.
pub uninterp spec fn json_parse(text: Seq<char>) -> Option<JsonValue>;

/// Parses `text` with `serde_json::from_str::<serde_json::Value>` and turns
/// the result into a `JsonValue`, one variant for one variant (object
/// members in the order of `serde_json::Map`'s iterator). The contract
/// claims that the result depends on the text alone; it does not describe
/// which texts parse.
#[verifier::external_body]
pub(crate) fn parse_json(text: &str) -> (r: Option<JsonValue>)
    ensures
        r == json_parse(text@),
{
    serde_json::from_str::<serde_json::Value>(text).ok().map(json_from_serde)
}

/// Converts a parsed `serde_json::Value` into a `JsonValue`, variant by
/// variant, numbers by their `Display` text.
#[verifier::external_body]
fn json_from_serde(v: serde_json::Value) -> JsonValue {
    match v {
        serde_json::Value::Null => JsonValue::Null,
        serde_json::Value::Bool(b) => JsonValue::Bool(b),
        serde_json::Value::Number(n) => JsonValue::Number(n.to_string()),
        serde_json::Value::String(s) => JsonValue::Str(s),
        serde_json::Value::Array(a) => JsonValue::Array(a.into_iter().map(json_from_serde).collect()),
        serde_json::Value::Object(m) => JsonValue::Object(
            m.into_iter().map(|(k, x)| (k, json_from_serde(x))).collect(),
        ),
    }
}

/// Index of the first member of `ms` at or after `i` whose key is `key`, or
/// `ms.len()`.
pub open spec fn member_index(ms: Seq<(String, JsonValue)>, key: Seq<char>, i: int) -> int
    decreases ms.len() - i,
{
    if i < 0 || i >= ms.len() {
        ms.len() as int
    } else if ms[i].0@ == key {
        i
    } else {
        member_index(ms, key, i + 1)
    }
}

/// `Value::get(key)`: the member `key` of an object; `None` for other values
/// and missing keys.
pub open spec fn json_member(v: JsonValue, key: Seq<char>) -> Option<JsonValue> {
    match v {
        JsonValue::Object(ms) => {
            let k = member_index(ms@, key, 0);
            if k < ms@.len() {
                Some(ms@[k].1)
            } else {
                None
            }
        },
        _ => None,
    }
}

/// `Value::get(key)` on a borrowed value.
pub fn json_get<'a>(v: &'a JsonValue, key: &str) -> (r: Option<&'a JsonValue>)
    ensures
        match r {
            Some(x) => json_member(*v, key@) == Some(*x),
            None => json_member(*v, key@) is None,
        },
{
    match v {
        JsonValue::Object(ms) => {
            let k = key.to_owned();
            let mut i: usize = 0;
            while i < ms.len()
                invariant
                    i <= ms@.len(),
                    k@ == key@,
                    *v == JsonValue::Object(*ms),
                    member_index(ms@, key@, 0) == member_index(ms@, key@, i as int),
                decreases ms@.len() - i,
            {
                if ms[i].0 == k {
                    assert(member_index(ms@, key@, i as int) == i);
                    return Some(&ms[i].1);
                }
                i += 1;
            }
            None
        },
        _ => None,
    }
}

} // verus!
