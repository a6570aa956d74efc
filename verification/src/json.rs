//! What is read in the parameters of a request, which come as JSON values.

use vstd::prelude::*;

verus! {

/// A JSON value, as far as requests are read: a number with the 64-bit number that
/// it is, if it is a whole number without a sign; null and lists without what they
/// hold.
pub enum Json {
    Text(Seq<char>),
    Number(Option<u64>),
    Bool(bool),
    Object(Map<Seq<char>, Json>),
    Other,
}

/// A value of `serde_json`.
#[verifier::external_type_specification]
#[verifier::external_body]
pub struct ExValue(serde_json::Value);

/// What a value of `serde_json` holds.
pub uninterp spec fn json_of(v: serde_json::Value) -> Json;

/// The member `key` of an object.
pub open spec fn member_of(j: Json, key: Seq<char>) -> Option<Json> {
    match j {
        Json::Object(members) => if members.contains_key(key) {
            Some(members[key])
        } else {
            None
        },
        _ => None,
    }
}

/// The text of a string.
pub open spec fn text_in(j: Json) -> Option<Seq<char>> {
    match j {
        Json::Text(s) => Some(s),
        _ => None,
    }
}

/// The whole number that a number is.
pub open spec fn whole_in(j: Json) -> Option<u64> {
    match j {
        Json::Number(n) => n,
        _ => None,
    }
}

/// The truth value of a boolean.
pub open spec fn flag_in(j: Json) -> Option<bool> {
    match j {
        Json::Bool(b) => Some(b),
        _ => None,
    }
}

/// The view of an optional text.
pub open spec fn text_view(s: Option<&str>) -> Option<Seq<char>> {
    match s {
        Some(s) => Some(s@),
        None => None,
    }
}

/// `Value::as_str` gives the text of a string, and nothing for another value.
pub assume_specification[ serde_json::Value::as_str ](v: &serde_json::Value) -> (s: Option<&str>)
    ensures
        text_view(s) == text_in(json_of(*v)),
;

/// `Value::as_u64` gives the 64-bit number that a number is, where it is a whole
/// number without a sign, and nothing for another value.
pub assume_specification[ serde_json::Value::as_u64 ](v: &serde_json::Value) -> (n: Option<u64>)
    ensures
        n == whole_in(json_of(*v)),
;

/// `Value::as_bool` gives the truth value of a boolean, and nothing for another
/// value.
pub assume_specification[ serde_json::Value::as_bool ](v: &serde_json::Value) -> (b: Option<bool>)
    ensures
        b == flag_in(json_of(*v)),
;

/// Calls `Value::get` with a name: the member of an object that has the name, and
/// nothing where there is none or the value is no object.
#[verifier::external_body]
pub(crate) fn member<'a>(v: &'a serde_json::Value, key: &str) -> (m: Option<&'a serde_json::Value>)
    ensures
        match m {
            Some(m) => member_of(json_of(*v), key@) == Some(json_of(*m)),
            None => member_of(json_of(*v), key@) is None,
        },
{
    v.get(key)
}

/// The text of the member `key`.
pub open spec fn text_at(j: Json, key: Seq<char>) -> Option<Seq<char>> {
    match member_of(j, key) {
        Some(m) => text_in(m),
        None => None,
    }
}

/// The whole number in the member `key`.
pub open spec fn whole_at(j: Json, key: Seq<char>) -> Option<u64> {
    match member_of(j, key) {
        Some(m) => whole_in(m),
        None => None,
    }
}

/// The truth value in the member `key`.
pub open spec fn flag_at(j: Json, key: Seq<char>) -> Option<bool> {
    match member_of(j, key) {
        Some(m) => flag_in(m),
        None => None,
    }
}

/// The view of an optional string.
pub open spec fn string_view(s: Option<String>) -> Option<Seq<char>> {
    match s {
        Some(s) => Some(s@),
        None => None,
    }
}

/// The text of the member `key`.
pub fn get_text(v: &serde_json::Value, key: &str) -> (s: Option<String>)
    ensures
        string_view(s) == text_at(json_of(*v), key@),
{
    match member(v, key) {
        Some(m) => match m.as_str() {
            Some(s) => Some(s.to_owned()),
            None => None,
        },
        None => None,
    }
}

/// The whole number in the member `key`.
pub fn get_whole(v: &serde_json::Value, key: &str) -> (n: Option<u64>)
    ensures
        n == whole_at(json_of(*v), key@),
{
    match member(v, key) {
        Some(m) => m.as_u64(),
        None => None,
    }
}

/// The truth value in the member `key`.
pub fn get_flag(v: &serde_json::Value, key: &str) -> (b: Option<bool>)
    ensures
        b == flag_at(json_of(*v), key@),
{
    match member(v, key) {
        Some(m) => m.as_bool(),
        None => None,
    }
}

} // verus!
