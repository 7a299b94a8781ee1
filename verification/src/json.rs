//! JSON documents, read and written by `serde_json`.
//!
//! A document is handled as the parser's own value; what it holds is spoken
//! of through a model of plain values.

use vstd::prelude::*;

verus! {

/// A JSON number as plain values: an integer from zero up, an integer below
/// zero, or the bits of a double.
pub ghost enum JsonNumber {
    Unsigned(u64),
    Negative(i64),
    Float { bits: u64 },
}

/// What a JSON document holds.
pub ghost enum Json {
    Null,
    Bool(bool),
    Number(JsonNumber),
    Text(Seq<char>),
    List(Seq<Json>),
    Object(Map<Seq<char>, Json>),
}

/// `serde_json::Value`, a parsed JSON document. Nothing inside it is seen
/// here; what it holds is named by `json_model`.
#[verifier::external_type_specification]
#[verifier::external_body]
pub struct ExValue(serde_json::Value);

/// What a parsed value holds.
pub uninterp spec fn json_model(v: serde_json::Value) -> Json;

/// The document that a text is parsed to, if it is one JSON document.
pub uninterp spec fn json_parsed(text: Seq<char>) -> Option<Json>;

/// The compact text that a document is written as.
pub uninterp spec fn json_rendered(j: Json) -> Seq<char>;

/// The models of a list of values, in order.
pub open spec fn json_models(items: Seq<serde_json::Value>) -> Seq<Json> {
    items.map_values(|v: serde_json::Value| json_model(v))
}

/// Parses a text with `serde_json::from_str`. Trusted: whether the text is
/// one JSON document, and which, depends on the text alone.
#[verifier::external_body]
pub(crate) fn parse_json(text: &str) -> (r: Option<serde_json::Value>)
    ensures
        match r {
            Some(v) => json_parsed(text@) == Some(json_model(v)),
            None => json_parsed(text@) is None,
        },
{
    serde_json::from_str::<serde_json::Value>(text).ok()
}

/// Looks a key up with `serde_json::Value::get`. Trusted: an object hands
/// out what stands under the key, if anything; any other value hands out
/// nothing.
#[verifier::external_body]
pub(crate) fn member<'a>(v: &'a serde_json::Value, key: &str) -> (r: Option<&'a serde_json::Value>)
    ensures
        match r {
            Some(x) => json_model(*v) matches Json::Object(m) && m.contains_key(key@) && m[key@]
                == json_model(*x),
            None => json_model(*v) matches Json::Object(m) ==> !m.contains_key(key@),
        },
{
    v.get(key)
}

/// `serde_json::Value::as_str`. Trusted: a text value hands out its text,
/// any other value nothing.
pub assume_specification[ serde_json::Value::as_str ](v: &serde_json::Value) -> (r: Option<&str>)
    ensures
        match r {
            Some(s) => json_model(*v) == Json::Text(s@),
            None => !(json_model(*v) is Text),
        },
;

/// `serde_json::Value::as_u64`. Trusted: a number that is an integer from
/// zero up to the largest of 64 bits hands out that integer, any other
/// value nothing.
pub assume_specification[ serde_json::Value::as_u64 ](v: &serde_json::Value) -> (r: Option<u64>)
    ensures
        match r {
            Some(n) => json_model(*v) == Json::Number(JsonNumber::Unsigned(n)),
            None => !(json_model(*v) matches Json::Number(JsonNumber::Unsigned(_))),
        },
;

/// `serde_json::Value::as_array`. Trusted: a list hands out its items in
/// order, any other value nothing.
pub assume_specification[ serde_json::Value::as_array ](v: &serde_json::Value) -> (r: Option<
    &Vec<serde_json::Value>,
>)
    ensures
        match r {
            Some(items) => json_model(*v) == Json::List(json_models(items@)),
            None => !(json_model(*v) is List),
        },
;

/// Makes a text value with `serde_json::Value::from`. Trusted: the value
/// holds the text.
#[verifier::external_body]
pub(crate) fn text_value(s: &str) -> (r: serde_json::Value)
    ensures
        json_model(r) == Json::Text(s@),
{
    serde_json::Value::from(s)
}

/// Writes a value out with its `Display`, in the compact form. Trusted: the
/// text depends on what the value holds alone.
#[verifier::external_body]
pub(crate) fn render_json(v: &serde_json::Value) -> (r: String)
    ensures
        r@ == json_rendered(json_model(*v)),
{
    v.to_string()
}

/// The text under `key`, where the document is an object that has a text
/// there.
pub open spec fn text_field(j: Json, key: Seq<char>) -> Option<Seq<char>> {
    match j {
        Json::Object(m) => if m.contains_key(key) {
            match m[key] {
                Json::Text(s) => Some(s),
                _ => None,
            }
        } else {
            None
        },
        _ => None,
    }
}

/// The number under `key`, where the document is an object that has an
/// integer from zero up to the largest of 64 bits there.
pub open spec fn u64_field(j: Json, key: Seq<char>) -> Option<u64> {
    match j {
        Json::Object(m) => if m.contains_key(key) {
            match m[key] {
                Json::Number(JsonNumber::Unsigned(n)) => Some(n),
                _ => None,
            }
        } else {
            None
        },
        _ => None,
    }
}

/// The items under `key`, where the document is an object that has a list
/// there.
pub open spec fn list_field(j: Json, key: Seq<char>) -> Option<Seq<Json>> {
    match j {
        Json::Object(m) => if m.contains_key(key) {
            match m[key] {
                Json::List(items) => Some(items),
                _ => None,
            }
        } else {
            None
        },
        _ => None,
    }
}

/// What stands under `key`, where the document is an object that has the
/// key.
pub open spec fn any_field(j: Json, key: Seq<char>) -> Option<Json> {
    match j {
        Json::Object(m) => if m.contains_key(key) {
            Some(m[key])
        } else {
            None
        },
        _ => None,
    }
}

/// Reads the text under `key`.
pub fn get_text(v: &serde_json::Value, key: &str) -> (r: Option<String>)
    ensures
        match r {
            Some(s) => text_field(json_model(*v), key@) == Some(s@),
            None => text_field(json_model(*v), key@) is None,
        },
{
    match member(v, key) {
        Some(x) => match x.as_str() {
            Some(s) => Some(s.to_owned()),
            None => None,
        },
        None => None,
    }
}

/// Reads the number under `key`.
pub fn get_u64(v: &serde_json::Value, key: &str) -> (r: Option<u64>)
    ensures
        r == u64_field(json_model(*v), key@),
{
    match member(v, key) {
        Some(x) => x.as_u64(),
        None => None,
    }
}

/// Reads the list under `key`.
pub fn get_list<'a>(v: &'a serde_json::Value, key: &str) -> (r: Option<&'a Vec<serde_json::Value>>)
    ensures
        match r {
            Some(items) => list_field(json_model(*v), key@) == Some(json_models(items@)),
            None => list_field(json_model(*v), key@) is None,
        },
{
    match member(v, key) {
        Some(x) => x.as_array(),
        None => None,
    }
}

/// A text as a JSON string, quoted and escaped.
pub fn quote(s: &str) -> (r: String)
    ensures
        r@ == json_rendered(Json::Text(s@)),
{
    let v = text_value(s);
    render_json(&v)
}

} // verus!
