//! JSON documents as the session logic reads them: a tree of values, key
//! lookup in objects, and lookup along a path of keys.

use vstd::prelude::*;

use crate::text::same_text;

verus! {

/// `serde_json::Value`, the tree that serde_json parses a text into.
#[verifier::external_type_specification]
#[verifier::external_body]
pub struct ExJsonValue(serde_json::Value);

/// A JSON value. Objects hold their members in key order, each key once.
pub enum Json {
    Null,
    Bool(bool),
    /// A number, by its canonical text.
    Number(String),
    Str(String),
    Array(Vec<Json>),
    Object(Vec<(String, Json)>),
}

/// The value stored under `key` among object members.
pub open spec fn member_value(entries: Seq<(String, Json)>, key: Seq<char>) -> Option<Json>
    decreases entries.len(),
{
    if entries.len() == 0 {
        None
    } else if entries[0].0@ == key {
        Some(entries[0].1)
    } else {
        member_value(entries.drop_first(), key)
    }
}

/// The value under `key` when `v` is an object (`Value::get` with a key).
pub open spec fn json_get(v: Json, key: Seq<char>) -> Option<Json> {
    match v {
        Json::Object(entries) => member_value(entries@, key),
        _ => None,
    }
}

/// The value reached from `v` by following `path`, key after key.
pub open spec fn json_at(v: Json, path: Seq<Seq<char>>) -> Option<Json>
    decreases path.len(),
{
    if path.len() == 0 {
        Some(v)
    } else {
        match json_get(v, path[0]) {
            Some(child) => json_at(child, path.drop_first()),
            None => None,
        }
    }
}

/// The string reached from `v` along `path`, when the value there is a string.
pub open spec fn str_at(v: Json, path: Seq<Seq<char>>) -> Option<Seq<char>> {
    match json_at(v, path) {
        Some(Json::Str(s)) => Some(s@),
        _ => None,
    }
}

/// The texts of a slice of keys.
pub open spec fn key_texts(path: Seq<&str>) -> Seq<Seq<char>> {
    path.map_values(|k: &str| k@)
}

/// The document that serde_json parses `text` into (`serde_json::from_str`
/// into a `Value`), `None` when the text is not one JSON value.
pub uninterp spec fn json_text(text: Seq<char>) -> Option<Json>;

/// Converts serde_json's tree into `Json`, one variant to its counterpart.
#[verifier::external_body]
fn from_serde(value: serde_json::Value) -> Json {
    match value {
        serde_json::Value::Null => Json::Null,
        serde_json::Value::Bool(b) => Json::Bool(b),
        serde_json::Value::Number(n) => Json::Number(n.to_string()),
        serde_json::Value::String(s) => Json::Str(s),
        serde_json::Value::Array(items) => Json::Array(items.into_iter().map(from_serde).collect()),
        serde_json::Value::Object(map) => Json::Object(map.into_iter().map(|(k, v)| (k, from_serde(v))).collect()),
    }
}

/// Parses one JSON text with `serde_json::from_str`; the result is named by
/// `json_text` and depends on the text alone.
#[verifier::external_body]
pub(crate) fn parse_json(text: &str) -> (r: Option<Json>)
    ensures
        r == json_text(text@),
{
    match serde_json::from_str::<serde_json::Value>(text) {
        Ok(value) => Some(from_serde(value)),
        Err(_) => None,
    }
}

impl Json {
    /// The member stored under `key`, when this is an object holding one.
    pub fn get(&self, key: &str) -> (r: Option<&Json>)
        ensures
            match r {
                Some(c) => json_get(*self, key@) == Some(*c),
                None => json_get(*self, key@) is None,
            },
    {
        match self {
            Json::Object(entries) => {
                let mut i: usize = 0;
                assert(entries@.skip(0) =~= entries@);
                while i < entries.len()
                    invariant
                        i <= entries.len(),
                        json_get(*self, key@) == member_value(entries@, key@),
                        member_value(entries@, key@) == member_value(entries@.skip(i as int), key@),
                    decreases entries.len() - i,
                {
                    assert(entries@.skip(i as int)[0] == entries@[i as int]);
                    if same_text(entries[i].0.as_str(), key) {
                        return Some(&entries[i].1);
                    }
                    assert(entries@.skip(i as int).drop_first() =~= entries@.skip(i + 1));
                    i = i + 1;
                }
                None
            },
            _ => None,
        }
    }

    /// The text of a string value.
    pub fn as_str(&self) -> (r: Option<&String>)
        ensures
            match r {
                Some(s) => *self == Json::Str(*s),
                None => !(*self is Str),
            },
    {
        match self {
            Json::Str(s) => Some(s),
            _ => None,
        }
    }

    /// The items of an array value.
    pub fn as_array(&self) -> (r: Option<&Vec<Json>>)
        ensures
            match r {
                Some(items) => *self == Json::Array(*items),
                None => !(*self is Array),
            },
    {
        match self {
            Json::Array(items) => Some(items),
            _ => None,
        }
    }
}

/// The string found by following `path` from `value`.
pub fn get_nested_str<'a>(value: &'a Json, path: &[&str]) -> (r: Option<&'a String>)
    ensures
        match r {
            Some(s) => str_at(*value, key_texts(path@)) == Some(s@),
            None => str_at(*value, key_texts(path@)) is None,
        },
{
    let ghost keys = key_texts(path@);
    let mut current = value;
    let mut i: usize = 0;
    assert(keys.skip(0) =~= keys);
    while i < path.len()
        invariant
            keys == key_texts(path@),
            i <= path.len(),
            json_at(*value, keys) == json_at(*current, keys.skip(i as int)),
        decreases path.len() - i,
    {
        assert(keys.skip(i as int)[0] == path@[i as int]@);
        assert(keys.skip(i as int).drop_first() =~= keys.skip(i + 1));
        match current.get(path[i]) {
            Some(child) => {
                current = child;
            },
            None => {
                return None;
            },
        }
        i = i + 1;
    }
    assert(keys.skip(path.len() as int) =~= seq![]);
    current.as_str()
}

} // verus!
