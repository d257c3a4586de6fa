//! JSON values: what they hold, and how they are read.
use vstd::prelude::*;

verus! {

/// A JSON number: its value where that is a `u64`, and the number written out by the
/// JSON reader, whose digits may differ from those that were read.
pub struct JsonNumber {
    pub unsigned: Option<u64>,
    pub written: Seq<char>,
}

/// What a JSON value holds.
pub enum Json {
    Null,
    Bool(bool),
    Number(JsonNumber),
    Text(Seq<char>),
    Array(Seq<Json>),
    Object(Map<Seq<char>, Json>),
}

impl Json {
    /// The member `key` of an object.
    pub open spec fn member(self, key: Seq<char>) -> Option<Json> {
        match self {
            Json::Object(m) => if m.contains_key(key) {
                Some(m[key])
            } else {
                None
            },
            _ => None,
        }
    }

    /// The first element of an array.
    pub open spec fn first(self) -> Option<Json> {
        match self {
            Json::Array(a) => if a.len() > 0 {
                Some(a[0])
            } else {
                None
            },
            _ => None,
        }
    }

    /// The characters of a string.
    pub open spec fn text(self) -> Option<Seq<char>> {
        match self {
            Json::Text(s) => Some(s),
            _ => None,
        }
    }
}

/// The member `key` of the value, where there is a value.
pub open spec fn member_of(value: Option<Json>, key: Seq<char>) -> Option<Json> {
    match value {
        Some(v) => v.member(key),
        None => None,
    }
}

/// The first element of the value, where there is a value.
pub open spec fn first_of(value: Option<Json>) -> Option<Json> {
    match value {
        Some(v) => v.first(),
        None => None,
    }
}

/// The characters of the value, where there is a value.
pub open spec fn text_of(value: Option<Json>) -> Option<Seq<char>> {
    match value {
        Some(v) => v.text(),
        None => None,
    }
}

/// The outside type of JSON values.
#[verifier::external_type_specification]
#[verifier::external_body]
pub struct ExValue(serde_json::Value);

/// What a JSON value of the outside type holds.
pub uninterp spec fn content(value: serde_json::Value) -> Json;

/// The value that a JSON text stands for; none where it is not JSON.
pub uninterp spec fn parsed_json(text: Seq<u8>) -> Option<Json>;

/// `serde_json::from_slice`: the value that the bytes stand for, or none. Whether
/// they are JSON, and what they hold, depends on the bytes alone.
#[verifier::external_body]
pub(crate) fn parse_json(text: &[u8]) -> (r: Option<serde_json::Value>)
    ensures
        match r {
            Some(value) => parsed_json(text@) == Some(content(value)),
            None => parsed_json(text@) is None,
        },
{
    serde_json::from_slice(text).ok()
}

/// `serde_json::Value::get` with a string: the member of that name of an object;
/// none of any other value.
#[verifier::external_body]
fn value_get<'a>(value: &'a serde_json::Value, key: &str) -> (r: Option<&'a serde_json::Value>)
    ensures
        match r {
            Some(found) => content(*value).member(key@) == Some(content(*found)),
            None => content(*value).member(key@) is None,
        },
{
    value.get(key)
}

/// `serde_json::Value::as_array`: the elements of an array, in order; none of any
/// other value.
#[verifier::external_body]
fn value_as_array<'a>(value: &'a serde_json::Value) -> (r: Option<&'a Vec<serde_json::Value>>)
    ensures
        match (content(*value), r) {
            (Json::Array(a), Some(elements)) => elements@.len() == a.len() && forall|i: int|
                0 <= i < a.len() ==> content(#[trigger] elements@[i]) == a[i],
            (Json::Array(_), None) => false,
            (_, r) => r is None,
        },
{
    value.as_array()
}

/// `serde_json::Value::as_str`: the characters of a string; none of any other
/// value.
#[verifier::external_body]
fn value_as_str<'a>(value: &'a serde_json::Value) -> (r: Option<&'a str>)
    ensures
        match r {
            Some(s) => content(*value).text() == Some(s@),
            None => content(*value).text() is None,
        },
{
    value.as_str()
}

/// `serde_json::Value::as_u64`: the value of a number that is a `u64`; none of any
/// other value.
#[verifier::external_body]
fn value_as_u64(value: &serde_json::Value) -> (r: Option<u64>)
    ensures
        r == (match content(*value) {
            Json::Number(n) => n.unsigned,
            _ => None,
        }),
{
    value.as_u64()
}

/// `serde_json::Value::as_number`, written out: a number as the outside crate writes it;
/// none of any other value.
#[verifier::external_body]
fn value_as_number(value: &serde_json::Value) -> (r: Option<String>)
    ensures
        match (content(*value), r) {
            (Json::Number(n), Some(s)) => s@ == n.written,
            (Json::Number(_), None) => false,
            (_, r) => r is None,
        },
{
    match value.as_number() {
        Some(n) => Some(n.to_string()),
        None => None,
    }
}

/// The value of an `Option`, seen through what it holds.
pub open spec fn content_of(value: Option<&serde_json::Value>) -> Option<Json> {
    match value {
        Some(v) => Some(content(*v)),
        None => None,
    }
}

/// The member `key` of the value, where there is a value.
pub(crate) fn member<'a>(value: Option<&'a serde_json::Value>, key: &str) -> (r: Option<
    &'a serde_json::Value,
>)
    ensures
        content_of(r) == member_of(content_of(value), key@),
{
    match value {
        Some(v) => value_get(v, key),
        None => None,
    }
}

/// The elements of the value, where there is a value and it is an array.
pub(crate) fn elements<'a>(value: Option<&'a serde_json::Value>) -> (r: Option<
    &'a Vec<serde_json::Value>,
>)
    ensures
        match (content_of(value), r) {
            (Some(Json::Array(a)), Some(list)) => list@.len() == a.len() && forall|i: int|
                0 <= i < a.len() ==> content(#[trigger] list@[i]) == a[i],
            (Some(Json::Array(_)), None) => false,
            (_, r) => r is None,
        },
{
    match value {
        Some(v) => value_as_array(v),
        None => None,
    }
}

/// The first element of the value, where there is a value.
pub(crate) fn first<'a>(value: Option<&'a serde_json::Value>) -> (r: Option<
    &'a serde_json::Value,
>)
    ensures
        content_of(r) == first_of(content_of(value)),
{
    match elements(value) {
        Some(list) => if list.len() > 0 {
            Some(&list[0])
        } else {
            None
        },
        None => None,
    }
}

/// The characters of the value, where there is a value and it is a string.
pub(crate) fn text<'a>(value: Option<&'a serde_json::Value>) -> (r: Option<&'a str>)
    ensures
        match r {
            Some(s) => text_of(content_of(value)) == Some(s@),
            None => text_of(content_of(value)) is None,
        },
{
    match value {
        Some(v) => value_as_str(v),
        None => None,
    }
}

/// The value of a number that is a `u64`, where there is a value.
pub(crate) fn unsigned(value: Option<&serde_json::Value>) -> (r: Option<u64>)
    ensures
        r == (match content_of(value) {
            Some(Json::Number(n)) => n.unsigned,
            _ => None,
        }),
{
    match value {
        Some(v) => value_as_u64(v),
        None => None,
    }
}

/// A number as the JSON reader writes it, where there is a value.
pub(crate) fn number(value: Option<&serde_json::Value>) -> (r: Option<String>)
    ensures
        match (content_of(value), r) {
            (Some(Json::Number(n)), Some(s)) => s@ == n.written,
            (Some(Json::Number(_)), None) => false,
            (_, r) => r is None,
        },
{
    match value {
        Some(v) => value_as_number(v),
        None => None,
    }
}

/// Only an object has members, only an array a first element, and only a string
/// characters; each is given as it is.
pub proof fn values_give_what_they_hold(
    m: Map<Seq<char>, Json>,
    key: Seq<char>,
    a: Seq<Json>,
    s: Seq<char>,
    value: Json,
)
    ensures
        m.contains_key(key) ==> member_of(Some(Json::Object(m)), key) == Some(m[key]),
        !m.contains_key(key) ==> member_of(Some(Json::Object(m)), key) is None,
        a.len() > 0 ==> first_of(Some(Json::Array(a))) == Some(a[0]),
        a.len() == 0 ==> first_of(Some(Json::Array(a))) is None,
        text_of(Some(Json::Text(s))) == Some(s),
        !(value is Object) ==> value.member(key) is None,
        !(value is Array) ==> value.first() is None,
        !(value is Text) ==> value.text() is None,
        member_of(None, key) is None,
        first_of(None) is None,
        text_of(None) is None,
        member_of(Some(value), key) == value.member(key),
        first_of(Some(value)) == value.first(),
        text_of(Some(value)) == value.text(),
{
}

} // verus!
