//! JSON values as plain data, read and written through `serde_json`.

use vstd::prelude::*;

verus! {

/// A JSON value. A number keeps its text, and its value where it is an integer
/// that fits in 64 bits.
#[derive(Debug)]
pub enum Json {
    Null,
    Bool(bool),
    Number(String, Option<i64>),
    Text(String),
    Array(Vec<Json>),
    Object(Vec<(String, Json)>),
}

/// What a JSON value holds.
#[verifier::ext_equal]
pub ghost enum JsonSpec {
    Null,
    Bool(bool),
    Number(Seq<char>, Option<i64>),
    Text(Seq<char>),
    Array(Seq<JsonSpec>),
    Object(Seq<(Seq<char>, JsonSpec)>),
}

impl View for Json {
    type V = JsonSpec;

    open spec fn view(&self) -> JsonSpec
        decreases self,
    {
        match self {
            Json::Null => JsonSpec::Null,
            Json::Bool(b) => JsonSpec::Bool(*b),
            Json::Number(text, integer) => JsonSpec::Number(text@, *integer),
            Json::Text(text) => JsonSpec::Text(text@),
            Json::Array(values) => JsonSpec::Array(json_views(values@)),
            Json::Object(fields) => JsonSpec::Object(json_fields(fields@)),
        }
    }
}

/// The view of an optional JSON value.
pub open spec fn json_view(o: Option<Json>) -> Option<JsonSpec> {
    match o {
        Some(json) => Some(json@),
        None => None,
    }
}

/// What each of `values` holds.
pub open spec fn json_views(values: Seq<Json>) -> Seq<JsonSpec>
    decreases values,
{
    Seq::new(
        values.len(),
        |i: int|
            if 0 <= i < values.len() {
                values[i].view()
            } else {
                JsonSpec::Null
            },
    )
}

/// The keys of `fields` with what their values hold.
pub open spec fn json_fields(fields: Seq<(String, Json)>) -> Seq<(Seq<char>, JsonSpec)>
    decreases fields,
{
    Seq::new(
        fields.len(),
        |i: int|
            if 0 <= i < fields.len() {
                (fields[i].0@, fields[i].1.view())
            } else {
                (Seq::empty(), JsonSpec::Null)
            },
    )
}

/// The value that a text denotes as a whole, if it is JSON.
pub uninterp spec fn json_text(text: Seq<char>) -> Option<JsonSpec>;

/// The hexadecimal digit of a number below sixteen.
pub open spec fn hex_digit(n: int) -> char {
    if n < 10 {
        (0x30 + n) as char
    } else {
        (0x61 + n - 10) as char
    }
}

/// How a character is written inside a JSON string.
pub open spec fn json_escaped(c: char) -> Seq<char> {
    let n = c as u32;
    if c == '"' {
        seq!['\\', '"']
    } else if c == '\\' {
        seq!['\\', '\\']
    } else if n == 0x08 {
        seq!['\\', 'b']
    } else if n == 0x09 {
        seq!['\\', 't']
    } else if n == 0x0a {
        seq!['\\', 'n']
    } else if n == 0x0c {
        seq!['\\', 'f']
    } else if n == 0x0d {
        seq!['\\', 'r']
    } else if n < 0x20 {
        seq!['\\', 'u', '0', '0', hex_digit(n as int / 16), hex_digit(n as int % 16)]
    } else {
        seq![c]
    }
}

/// The inside of the JSON string of a text.
pub open spec fn json_escapes(s: Seq<char>) -> Seq<char>
    decreases s.len(),
{
    if s.len() == 0 {
        Seq::empty()
    } else {
        json_escapes(s.drop_last()) + json_escaped(s.last())
    }
}

/// A text as a JSON string, in quotes.
pub open spec fn json_quoted(s: Seq<char>) -> Seq<char> {
    seq!['"'] + json_escapes(s) + seq!['"']
}

/// The value type of `serde_json`.
#[verifier::external_type_specification]
#[verifier::external_body]
pub struct ExValue(serde_json::Value);

/// The error type of `serde_json`.
#[verifier::external_type_specification]
#[verifier::external_body]
pub struct ExError(serde_json::Error);

/// Turns a `serde_json::Value` into plain data, variant by variant: a number
/// gives its text by `Number::to_string` and its integer by `Number::as_i64`.
/// Nothing is claimed of the result here; `parse_json` names it.
#[verifier::external_body]
fn json_from_value(value: serde_json::Value) -> Json {
    match value {
        serde_json::Value::Null => Json::Null,
        serde_json::Value::Bool(b) => Json::Bool(b),
        serde_json::Value::Number(n) => Json::Number(n.to_string(), n.as_i64()),
        serde_json::Value::String(text) => Json::Text(text),
        serde_json::Value::Array(values) => Json::Array(
            values.into_iter().map(json_from_value).collect(),
        ),
        serde_json::Value::Object(fields) => Json::Object(
            fields.into_iter().map(|(key, value)| (key, json_from_value(value))).collect(),
        ),
    }
}

/// Calls `serde_json::from_str`. The claim is that what it reads, as plain
/// data, is a function of the text alone, named by `json_text`: `None` where
/// it refuses the text.
#[verifier::external_body]
pub(crate) fn parse_json(text: &str) -> (r: Option<Json>)
    ensures
        json_view(r) == json_text(text@),
{
    serde_json::from_str::<serde_json::Value>(text).ok().map(json_from_value)
}

/// Calls `serde_json::to_string` on a text. The claim is that it succeeds, that
/// it writes the text in quotes with JSON's escapes, and that `from_str` reads
/// the same text back.
#[verifier::external_body]
fn json_string(value: &str) -> (r: Result<String, serde_json::Error>)
    ensures
        r is Ok,
        r->Ok_0@ == json_quoted(value@),
        json_text(r->Ok_0@) == Some(JsonSpec::Text(value@)),
{
    serde_json::to_string(value)
}

/// Writes a text as a JSON string, in quotes.
pub fn quote_json(value: &str) -> (r: String)
    ensures
        r@ == json_quoted(value@),
        json_text(r@) == Some(JsonSpec::Text(value@)),
{
    match json_string(value) {
        Ok(text) => text,
        Err(_) => "\"\"".to_owned(),
    }
}

} // verus!
