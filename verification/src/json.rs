//! A JSON document model holding what the library reads from JSON: object
//! members, arrays, strings and integers. Floating-point numbers are carried
//! as an opaque value of type `F` together with their rounded integer, which
//! is all the library ever reads of them.
use vstd::prelude::*;
use crate::text::{chars_of, parse_i64, parse_i64_chars};

verus! {

/// A JSON number, as `serde_json` stores it.
#[derive(Debug, PartialEq)]
pub enum JsonNumber<F> {
    /// A non-negative integer.
    PosInt(u64),
    /// A negative integer.
    NegInt(i64),
    /// A floating-point number, with `f.round() as i64` alongside it.
    Float { value: F, rounded: i64 },
}

/// A JSON value. Objects keep their members in document order.
#[derive(Debug, PartialEq)]
pub enum JsonValue<F> {
    Null,
    Bool(bool),
    Number(JsonNumber<F>),
    Str(String),
    Array(Vec<JsonValue<F>>),
    Object(Vec<JsonMember<F>>),
}

/// One `"key": value` member of a JSON object.
#[derive(Debug, PartialEq)]
pub struct JsonMember<F> {
    pub key: String,
    pub value: JsonValue<F>,
}

/// The value of the first member of `ms` named `key`.
pub open spec fn member_value<F>(ms: Seq<JsonMember<F>>, key: Seq<char>) -> Option<JsonValue<F>>
    decreases ms.len(),
{
    if ms.len() == 0 {
        None
    } else if ms[0].key@ == key {
        Some(ms[0].value)
    } else {
        member_value(ms.drop_first(), key)
    }
}

/// `value.get(key)`: the member `key` of an object; nothing for other values.
pub open spec fn json_get<F>(v: JsonValue<F>, key: Seq<char>) -> Option<JsonValue<F>> {
    match v {
        JsonValue::Object(ms) => member_value(ms@, key),
        _ => None,
    }
}

/// `value.as_str()`.
pub open spec fn json_str<F>(v: JsonValue<F>) -> Option<Seq<char>> {
    match v {
        JsonValue::Str(s) => Some(s@),
        _ => None,
    }
}

/// `value.get(key).and_then(|v| v.as_str())`.
pub open spec fn json_get_str<F>(v: JsonValue<F>, key: Seq<char>) -> Option<Seq<char>> {
    match json_get(v, key) {
        Some(x) => json_str(x),
        None => None,
    }
}

/// A value is, or holds somewhere inside its arrays and object member values,
/// a string equal to `needle`.
pub open spec fn contains_string<F>(v: JsonValue<F>, needle: Seq<char>) -> bool
    decreases v,
{
    match v {
        JsonValue::Str(s) => s@ == needle,
        JsonValue::Array(items) => exists|i: int|
            0 <= i < items@.len() && contains_string(#[trigger] items@[i], needle),
        JsonValue::Object(ms) => exists|i: int|
            0 <= i < ms@.len() && contains_string(#[trigger] ms@[i].value, needle),
        _ => false,
    }
}

/// The integer a value stands for: integers as they are (those above
/// `i64::MAX` saturate, as their float conversion does), floats rounded,
/// strings parsed as `i64`; nothing for other values.
pub open spec fn json_int<F>(v: JsonValue<F>) -> Option<int> {
    match v {
        JsonValue::Number(JsonNumber::PosInt(u)) => if u <= i64::MAX {
            Some(u as int)
        } else {
            Some(i64::MAX as int)
        },
        JsonValue::Number(JsonNumber::NegInt(i)) => Some(i as int),
        JsonValue::Number(JsonNumber::Float { value, rounded }) => Some(rounded as int),
        JsonValue::Str(s) => parse_i64(s@),
        _ => None,
    }
}

/// `value.get(key)` followed by [`json_int`].
pub open spec fn json_get_int<F>(v: JsonValue<F>, key: Seq<char>) -> Option<int> {
    match json_get(v, key) {
        Some(x) => json_int(x),
        None => None,
    }
}

/// The value of the first member named `key`.
pub fn member_lookup<'a, F>(ms: &'a Vec<JsonMember<F>>, key: &str) -> (r: Option<&'a JsonValue<F>>)
    ensures
        r matches Some(x) ==> member_value(ms@, key@) == Some(*x),
        r is None ==> member_value(ms@, key@) is None,
{
    let wanted = String::from_str(key);
    let mut i: usize = 0;
    assert(ms@.skip(0) =~= ms@);
    while i < ms.len()
        invariant
            i <= ms@.len(),
            wanted@ == key@,
            member_value(ms@, key@) == member_value(ms@.skip(i as int), key@),
        decreases ms@.len() - i,
    {
        assert(ms@.skip(i as int)[0] == ms@[i as int]);
        assert(ms@.skip(i as int).drop_first() =~= ms@.skip(i + 1));
        if ms[i].key == wanted {
            return Some(&ms[i].value);
        }
        i = i + 1;
    }
    None
}

/// `value.get(key)`.
pub fn get<'a, F>(v: &'a JsonValue<F>, key: &str) -> (r: Option<&'a JsonValue<F>>)
    ensures
        r matches Some(x) ==> json_get(*v, key@) == Some(*x),
        r is None ==> json_get(*v, key@) is None,
{
    match v {
        JsonValue::Object(ms) => member_lookup(ms, key),
        _ => None,
    }
}

/// `value.as_str()`.
pub fn as_str<F>(v: &JsonValue<F>) -> (r: Option<&String>)
    ensures
        r matches Some(s) ==> json_str(*v) == Some(s@),
        r is None ==> json_str(*v) is None,
{
    match v {
        JsonValue::Str(s) => Some(s),
        _ => None,
    }
}

/// `value.get(key).and_then(|v| v.as_str())`.
pub fn get_str<'a, F>(v: &'a JsonValue<F>, key: &str) -> (r: Option<&'a String>)
    ensures
        r matches Some(s) ==> json_get_str(*v, key@) == Some(s@),
        r is None ==> json_get_str(*v, key@) is None,
{
    match get(v, key) {
        Some(x) => as_str(x),
        None => None,
    }
}

/// Whether a value is, or holds inside it, the string `needle`.
#[verifier::loop_isolation(false)]
pub fn json_contains_string<F>(v: &JsonValue<F>, needle: &String) -> (r: bool)
    ensures
        r == contains_string(*v, needle@),
    decreases v,
{
    match v {
        JsonValue::Str(s) => *s == *needle,
        JsonValue::Array(items) => {
            let mut i: usize = 0;
            while i < items.len()
                invariant
                    i <= items@.len(),
                    forall|j: int| 0 <= j < i ==> !contains_string(#[trigger] items@[j], needle@),
                decreases items@.len() - i,
            {
                assert(decreases_to!(*v => items@[i as int]));
                if json_contains_string(&items[i], needle) {
                    assert(contains_string(items@[i as int], needle@));
                    assert(contains_string(*v, needle@)) by {
                        reveal_with_fuel(contains_string, 2);
                    }
                    return true;
                }
                i = i + 1;
            }
            false
        },
        JsonValue::Object(ms) => {
            let mut i: usize = 0;
            while i < ms.len()
                invariant
                    i <= ms@.len(),
                    forall|j: int| 0 <= j < i ==> !contains_string(#[trigger] ms@[j].value, needle@),
                decreases ms@.len() - i,
            {
                assert(decreases_to!(*v => ms@[i as int].value));
                if json_contains_string(&ms[i].value, needle) {
                    assert(contains_string(ms@[i as int].value, needle@));
                    assert(contains_string(*v, needle@)) by {
                        reveal_with_fuel(contains_string, 2);
                    }
                    return true;
                }
                i = i + 1;
            }
            false
        },
        _ => false,
    }
}

/// The integer a value stands for (see [`json_int`]).
pub fn to_int<F>(v: &JsonValue<F>) -> (r: Option<i64>)
    ensures
        r matches Some(x) ==> json_int(*v) == Some(x as int),
        r is None ==> json_int(*v) is None,
{
    match v {
        JsonValue::Number(JsonNumber::PosInt(u)) => {
            if *u <= 9223372036854775807 {
                Some(*u as i64)
            } else {
                Some(9223372036854775807)
            }
        },
        JsonValue::Number(JsonNumber::NegInt(i)) => Some(*i),
        JsonValue::Number(JsonNumber::Float { value: _, rounded }) => Some(*rounded),
        JsonValue::Str(s) => parse_i64_chars(&chars_of(s.as_str())),
        _ => None,
    }
}

/// `value.get(key)` followed by [`to_int`].
pub fn get_int<F>(v: &JsonValue<F>, key: &str) -> (r: Option<i64>)
    ensures
        r matches Some(x) ==> json_get_int(*v, key@) == Some(x as int),
        r is None ==> json_get_int(*v, key@) is None,
{
    match get(v, key) {
        Some(x) => to_int(x),
        None => None,
    }
}

} // verus!
