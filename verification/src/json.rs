//! JSON texts as serde_json reads them, one level at a time.
//!
//! A text is read into a [`Json`]: a scalar as its value, an array or an
//! object as the texts of the values it holds. Reading one of those texts
//! gives the next level.

use serde_json::Value;
use vstd::prelude::*;

verus! {

/// What a JSON text holds at its top level.
#[derive(Debug)]
pub enum Json {
    /// `null`.
    Null,
    /// `true` or `false`.
    Bool(bool),
    /// A number: its value where it is an integer that fits 64 bits, `None`
    /// for every other number.
    Number(Option<i64>),
    /// A string, its escapes resolved.
    Text(String),
    /// An array: the texts of its values, in their order.
    Array(Vec<Vec<u8>>),
    /// An object: each key once, with the text of its value.
    Object(Vec<(String, Vec<u8>)>),
}

/// What a [`Json`] holds, as mathematical values.
pub enum JsonView {
    Null,
    Bool(bool),
    Number(Option<i64>),
    Text(Seq<char>),
    Array(Seq<Seq<u8>>),
    Object(Seq<(Seq<char>, Seq<u8>)>),
}

impl View for Json {
    type V = JsonView;

    open spec fn view(&self) -> JsonView {
        match *self {
            Json::Null => JsonView::Null,
            Json::Bool(b) => JsonView::Bool(b),
            Json::Number(n) => JsonView::Number(n),
            Json::Text(s) => JsonView::Text(s@),
            Json::Array(items) => JsonView::Array(items@.map_values(|text: Vec<u8>| text@)),
            Json::Object(fields) => JsonView::Object(
                fields@.map_values(|field: (String, Vec<u8>)| (field.0@, field.1@)),
            ),
        }
    }
}

/// What serde_json reads `bytes` as: `None` where it refuses them.
pub uninterp spec fn json_reading(bytes: Seq<u8>) -> Option<JsonView>;

/// Calls `serde_json::from_slice` for a `serde_json::Value` and hands out
/// what it read, the values inside an array or an object as serde_json
/// writes them.
///
/// Trusted: what comes back depends on the bytes alone. Nothing is claimed
/// of which bytes are read as what.
#[verifier::external_body]
pub(crate) fn read_json(bytes: &[u8]) -> (r: Option<Json>)
    ensures
        json_reading(bytes@) == (match r {
            Some(json) => Some(json@),
            None => None,
        }),
{
    match serde_json::from_slice::<Value>(bytes) {
        Ok(Value::Null) => Some(Json::Null),
        Ok(Value::Bool(b)) => Some(Json::Bool(b)),
        Ok(Value::Number(n)) => Some(Json::Number(n.as_i64())),
        Ok(Value::String(s)) => Some(Json::Text(s)),
        Ok(Value::Array(a)) => Some(Json::Array(a.iter().map(|v| v.to_string().into_bytes()).collect())),
        Ok(Value::Object(o)) => Some(Json::Object(
            o.iter().map(|(k, v)| (k.clone(), v.to_string().into_bytes())).collect(),
        )),
        Err(_) => None,
    }
}

} // verus!
