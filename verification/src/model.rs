//! Log entries: what is known of one line, and the values found in it.

use vstd::prelude::*;
use vstd::string::*;

use crate::json::{
    json_fields, json_quoted, json_text, json_view, json_views, parse_json, quote_json, Json,
    JsonSpec,
};
use crate::number::{is_number, is_number_text};
use crate::text::{chars_of, copy_str, joined, law_joined_texts_grow, text_of, texts};

verus! {

/// Where a line was written to.
#[derive(Clone, Copy, Debug, PartialEq, Eq, Structural)]
pub enum Stream {
    Stdout,
    Stderr,
}

impl Stream {
    /// The mark of the stream at the start of a drawn line.
    pub open spec fn mark(self) -> char {
        match self {
            Stream::Stdout => '|',
            Stream::Stderr => '!',
        }
    }

    pub fn indicator(self) -> (r: char)
        ensures
            r == self.mark(),
    {
        match self {
            Stream::Stdout => '|',
            Stream::Stderr => '!',
        }
    }
}

/// The severity of a line.
#[derive(Clone, Copy, Debug, PartialEq, Eq, Structural)]
pub enum Level {
    Trace,
    Debug,
    Info,
    Warn,
    Error,
    Unknown,
}

impl Level {
    /// The name under which a level is drawn.
    pub open spec fn name(self) -> Seq<char> {
        match self {
            Level::Trace => seq!['T', 'R', 'A', 'C', 'E'],
            Level::Debug => seq!['D', 'E', 'B', 'U', 'G'],
            Level::Info => seq!['I', 'N', 'F', 'O'],
            Level::Warn => seq!['W', 'A', 'R', 'N'],
            Level::Error => seq!['E', 'R', 'R', 'O', 'R'],
            Level::Unknown => Seq::empty(),
        }
    }

    /// The rank of a level: the higher, the more severe.
    pub open spec fn rank(self) -> int {
        match self {
            Level::Error => 5,
            Level::Warn => 4,
            Level::Info => 3,
            Level::Debug => 2,
            Level::Trace => 1,
            Level::Unknown => 0,
        }
    }

    pub fn label(self) -> (r: &'static str)
        ensures
            r@ == self.name(),
    {
        proof {
            reveal_strlit("TRACE");
            reveal_strlit("DEBUG");
            reveal_strlit("INFO");
            reveal_strlit("WARN");
            reveal_strlit("ERROR");
            reveal_strlit("");
        }
        let r = match self {
            Level::Trace => "TRACE",
            Level::Debug => "DEBUG",
            Level::Info => "INFO",
            Level::Warn => "WARN",
            Level::Error => "ERROR",
            Level::Unknown => "",
        };
        assert(r@ =~= self.name());
        r
    }

    pub fn severity(self) -> (r: u8)
        ensures
            r == self.rank(),
    {
        match self {
            Level::Error => 5,
            Level::Warn => 4,
            Level::Info => 3,
            Level::Debug => 2,
            Level::Trace => 1,
            Level::Unknown => 0,
        }
    }
}

/// Two levels of one rank are one level.
pub proof fn law_rank_tells_levels_apart(a: Level, b: Level)
    ensures
        a.rank() == b.rank() <==> a == b,
{
}

/// A value found in a line.
#[derive(Debug, PartialEq, Eq)]
pub enum TraceValue {
    Bool(bool),
    Null,
    Number(String),
    String(String),
    Object(Vec<(String, TraceValue)>),
    Array(Vec<TraceValue>),
    Other(String),
}

/// What a value holds.
#[verifier::ext_equal]
pub ghost enum ValueSpec {
    Bool(bool),
    Null,
    Number(Seq<char>),
    Text(Seq<char>),
    Object(Seq<(Seq<char>, ValueSpec)>),
    Array(Seq<ValueSpec>),
    Other(Seq<char>),
}

impl View for TraceValue {
    type V = ValueSpec;

    open spec fn view(&self) -> ValueSpec
        decreases self,
    {
        match self {
            TraceValue::Bool(b) => ValueSpec::Bool(*b),
            TraceValue::Null => ValueSpec::Null,
            TraceValue::Number(text) => ValueSpec::Number(text@),
            TraceValue::String(text) => ValueSpec::Text(text@),
            TraceValue::Object(fields) => ValueSpec::Object(value_pairs(fields@)),
            TraceValue::Array(values) => ValueSpec::Array(value_views(values@)),
            TraceValue::Other(text) => ValueSpec::Other(text@),
        }
    }
}

/// What each of `values` holds.
pub open spec fn value_views(values: Seq<TraceValue>) -> Seq<ValueSpec>
    decreases values,
{
    Seq::new(
        values.len(),
        |i: int|
            if 0 <= i < values.len() {
                values[i].view()
            } else {
                ValueSpec::Null
            },
    )
}

/// The keys of `fields` with what their values hold.
pub open spec fn value_pairs(fields: Seq<(String, TraceValue)>) -> Seq<(Seq<char>, ValueSpec)>
    decreases fields,
{
    Seq::new(
        fields.len(),
        |i: int|
            if 0 <= i < fields.len() {
                (fields[i].0@, fields[i].1.view())
            } else {
                (Seq::empty(), ValueSpec::Null)
            },
    )
}

/// The value that a JSON value stands for.
pub open spec fn value_of_json(json: JsonSpec) -> ValueSpec
    decreases json,
{
    match json {
        JsonSpec::Null => ValueSpec::Null,
        JsonSpec::Bool(b) => ValueSpec::Bool(b),
        JsonSpec::Number(text, _) => ValueSpec::Number(text),
        JsonSpec::Text(text) => ValueSpec::Text(text),
        JsonSpec::Array(values) => ValueSpec::Array(values_of_json(values)),
        JsonSpec::Object(fields) => ValueSpec::Object(pairs_of_json(fields)),
    }
}

/// The values that JSON values stand for.
pub open spec fn values_of_json(values: Seq<JsonSpec>) -> Seq<ValueSpec>
    decreases values,
{
    Seq::new(
        values.len(),
        |i: int|
            if 0 <= i < values.len() {
                value_of_json(values[i])
            } else {
                ValueSpec::Null
            },
    )
}

/// The fields that the fields of a JSON object stand for, in their order.
pub open spec fn pairs_of_json(fields: Seq<(Seq<char>, JsonSpec)>) -> Seq<(Seq<char>, ValueSpec)>
    decreases fields,
{
    Seq::new(
        fields.len(),
        |i: int|
            if 0 <= i < fields.len() {
                (fields[i].0, value_of_json(fields[i].1))
            } else {
                (Seq::empty(), ValueSpec::Null)
            },
    )
}

/// The value that a text stands for, given what the text is as JSON: its JSON
/// value if it has one, else a number if it is the text of one, else the text
/// itself.
pub open spec fn value_of_text(text: Seq<char>, json: Option<JsonSpec>) -> ValueSpec {
    match json {
        Some(json) => value_of_json(json),
        None => if is_number(text) {
            ValueSpec::Number(text)
        } else {
            ValueSpec::Other(text)
        },
    }
}

/// The value that a text in a log line stands for.
pub open spec fn traced(text: Seq<char>) -> ValueSpec {
    value_of_text(text, json_text(text))
}

/// A value as compact text.
pub open spec fn rendered(value: ValueSpec) -> Seq<char>
    decreases value,
{
    match value {
        ValueSpec::Bool(true) => seq!['t', 'r', 'u', 'e'],
        ValueSpec::Bool(false) => seq!['f', 'a', 'l', 's', 'e'],
        ValueSpec::Null => seq!['n', 'u', 'l', 'l'],
        ValueSpec::Number(text) => text,
        ValueSpec::Other(text) => text,
        ValueSpec::Text(text) => json_quoted(text),
        ValueSpec::Array(values) => seq!['['] + joined(rendered_values(values), seq![','])
            + seq![']'],
        ValueSpec::Object(fields) => seq!['{'] + joined(rendered_pairs(fields), seq![','])
            + seq!['}'],
    }
}

/// Each of `values` as compact text.
pub open spec fn rendered_values(values: Seq<ValueSpec>) -> Seq<Seq<char>>
    decreases values,
{
    Seq::new(
        values.len(),
        |i: int|
            if 0 <= i < values.len() {
                rendered(values[i])
            } else {
                Seq::empty()
            },
    )
}

/// Each of `fields` as compact text: its quoted key, a colon and its value.
pub open spec fn rendered_pairs(fields: Seq<(Seq<char>, ValueSpec)>) -> Seq<Seq<char>>
    decreases fields,
{
    Seq::new(
        fields.len(),
        |i: int|
            if 0 <= i < fields.len() {
                json_quoted(fields[i].0) + seq![':'] + rendered(fields[i].1)
            } else {
                Seq::empty()
            },
    )
}

/// An array and an object are written element by element, with commas between them.
/// Each field of an object is its quoted key, a colon and its value.
pub proof fn law_rendered_values_grow(
    values: Seq<ValueSpec>,
    value: ValueSpec,
    fields: Seq<(Seq<char>, ValueSpec)>,
    key: Seq<char>,
)
    ensures
        rendered(ValueSpec::Array(Seq::empty())) == seq!['[', ']'],
        rendered(ValueSpec::Array(values.push(value))) == if values.len() == 0 {
            seq!['['] + rendered(value) + seq![']']
        } else {
            rendered(ValueSpec::Array(values)).drop_last() + seq![','] + rendered(value) + seq![']']
        },
        rendered(ValueSpec::Object(Seq::empty())) == seq!['{', '}'],
        rendered(ValueSpec::Object(fields.push((key, value)))) == if fields.len() == 0 {
            seq!['{'] + json_quoted(key) + seq![':'] + rendered(value) + seq!['}']
        } else {
            rendered(ValueSpec::Object(fields)).drop_last() + seq![','] + json_quoted(key) + seq![
                ':',
            ] + rendered(value) + seq!['}']
        },
{
    let sep = seq![','];
    assert(rendered_values(Seq::empty()) =~= Seq::empty());
    assert(rendered_pairs(Seq::empty()) =~= Seq::empty());
    let text = rendered(value);
    let pair = json_quoted(key) + seq![':'] + text;
    assert(rendered_values(values.push(value)) =~= rendered_values(values).push(text));
    assert(rendered_pairs(fields.push((key, value))) =~= rendered_pairs(fields).push(pair));
    law_joined_texts_grow(rendered_values(values), text, sep);
    law_joined_texts_grow(rendered_pairs(fields), pair, sep);
    assert(rendered(ValueSpec::Array(Seq::empty())) =~= seq!['[', ']']);
    assert(rendered(ValueSpec::Object(Seq::empty())) =~= seq!['{', '}']);
    let array = rendered(ValueSpec::Array(values));
    let object = rendered(ValueSpec::Object(fields));
    assert(array.drop_last() =~= seq!['['] + joined(rendered_values(values), sep));
    assert(object.drop_last() =~= seq!['{'] + joined(rendered_pairs(fields), sep));
    if values.len() > 0 {
        assert(rendered(ValueSpec::Array(values.push(value))) =~= array.drop_last() + sep + text
            + seq![']']);
    }
    if fields.len() > 0 {
        assert(rendered(ValueSpec::Object(fields.push((key, value)))) =~= object.drop_last() + sep
            + json_quoted(key) + seq![':'] + text + seq!['}']);
    } else {
        assert(rendered(ValueSpec::Object(fields.push((key, value)))) =~= seq!['{'] + json_quoted(
            key,
        ) + seq![':'] + text + seq!['}']);
    }
}

/// A value without elements is written as JSON writes it, and a value that is no JSON
/// as it was read.
pub proof fn law_rendered_scalars(text: Seq<char>)
    ensures
        rendered(ValueSpec::Bool(true)) == "true"@,
        rendered(ValueSpec::Bool(false)) == "false"@,
        rendered(ValueSpec::Null) == "null"@,
        rendered(ValueSpec::Number(text)) == text,
        rendered(ValueSpec::Other(text)) == text,
        rendered(ValueSpec::Text(text)) == json_quoted(text),
{
    reveal_strlit("true");
    reveal_strlit("false");
    reveal_strlit("null");
    assert("true"@ =~= seq!['t', 'r', 'u', 'e']);
    assert("false"@ =~= seq!['f', 'a', 'l', 's', 'e']);
    assert("null"@ =~= seq!['n', 'u', 'l', 'l']);
}

/// A JSON value becomes a value of the same kind with the same contents, element by
/// element and in their order.
pub proof fn law_json_values_are_kept(
    b: bool,
    text: Seq<char>,
    n: Option<i64>,
    values: Seq<JsonSpec>,
    fields: Seq<(Seq<char>, JsonSpec)>,
)
    ensures
        value_of_json(JsonSpec::Null) == ValueSpec::Null,
        value_of_json(JsonSpec::Bool(b)) == ValueSpec::Bool(b),
        value_of_json(JsonSpec::Number(text, n)) == ValueSpec::Number(text),
        value_of_json(JsonSpec::Text(text)) == ValueSpec::Text(text),
        value_of_json(JsonSpec::Array(values)) matches ValueSpec::Array(all) && all.len()
            == values.len() && forall|i: int|
            0 <= i < all.len() ==> #[trigger] all[i] == value_of_json(values[i]),
        value_of_json(JsonSpec::Object(fields)) matches ValueSpec::Object(all) && all.len()
            == fields.len() && forall|i: int|
            0 <= i < all.len() ==> (#[trigger] all[i]).0 == fields[i].0 && all[i].1
                == value_of_json(fields[i].1),
{
}

/// A text in a line is its JSON value if it has one. Any other text is kept as it is,
/// as a number if it reads as one.
pub proof fn law_texts_are_values(text: Seq<char>)
    ensures
        json_text(text) matches Some(json) ==> traced(text) == value_of_json(json),
        json_text(text) is None && is_number(text) ==> traced(text) == ValueSpec::Number(text),
        json_text(text) is None && !is_number(text) ==> traced(text) == ValueSpec::Other(text),
        json_text(text) is None ==> rendered(traced(text)) == text,
{
}

impl Clone for TraceValue {
    fn clone(&self) -> (r: Self)
        ensures
            r@ == self@,
        decreases self,
    {
        let r = match self {
            TraceValue::Bool(b) => TraceValue::Bool(*b),
            TraceValue::Null => TraceValue::Null,
            TraceValue::Number(text) => TraceValue::Number(copy_str(text.as_str())),
            TraceValue::String(text) => TraceValue::String(copy_str(text.as_str())),
            TraceValue::Other(text) => TraceValue::Other(copy_str(text.as_str())),
            TraceValue::Object(fields) => {
                let mut out: Vec<(String, TraceValue)> = Vec::new();
                let mut i: usize = 0;
                while i < fields.len()
                    invariant
                        i <= fields@.len(),
                        out@.len() == i,
                        *self is Object,
                        self->Object_0 == *fields,
                        forall|j: int|
                            0 <= j < i ==> (#[trigger] out@[j]).0@ == fields@[j].0@ && out@[j].1@
                                == fields@[j].1@,
                    decreases fields@.len() - i,
                {
                    proof {
                        assert(decreases_to!(*self => self->Object_0));
                        assert(decreases_to!(*fields => fields@));
                        assert(decreases_to!(fields@ => fields@[i as int]));
                        assert(decreases_to!(fields@[i as int] => fields@[i as int].1));
                    }
                    let value = fields[i].1.clone();
                    out.push((copy_str(fields[i].0.as_str()), value));
                    i = i + 1;
                }
                let r = TraceValue::Object(out);
                assert(value_pairs(out@) =~= value_pairs(fields@));
                r
            },
            TraceValue::Array(values) => {
                let mut out: Vec<TraceValue> = Vec::new();
                let mut i: usize = 0;
                while i < values.len()
                    invariant
                        i <= values@.len(),
                        out@.len() == i,
                        *self is Array,
                        self->Array_0 == *values,
                        forall|j: int| 0 <= j < i ==> (#[trigger] out@[j])@ == values@[j]@,
                    decreases values@.len() - i,
                {
                    proof {
                        assert(decreases_to!(*self => self->Array_0));
                        assert(decreases_to!(*values => values@));
                        assert(decreases_to!(values@ => values@[i as int]));
                    }
                    let value = values[i].clone();
                    out.push(value);
                    i = i + 1;
                }
                let r = TraceValue::Array(out);
                assert(value_views(out@) =~= value_views(values@));
                r
            },
        };
        r
    }
}

impl TraceValue {
    /// The value that a text in a log line stands for.
    pub fn from_tracing_text(value: &str) -> (r: TraceValue)
        ensures
            r@ == traced(value@),
    {
        TraceValue::from_text(value, parse_json(value))
    }

    /// The value that a text stands for, given what the text is as JSON.
    pub fn from_text(text: &str, json: Option<Json>) -> (r: TraceValue)
        ensures
            r@ == value_of_text(text@, json_view(json)),
    {
        match json {
            Some(json) => TraceValue::from_json(&json),
            None => {
                let chars = chars_of(text);
                if is_number_text(chars.as_slice()) {
                    TraceValue::Number(copy_str(text))
                } else {
                    TraceValue::Other(copy_str(text))
                }
            },
        }
    }

    /// The value that a JSON value stands for.
    pub fn from_json(value: &Json) -> (r: TraceValue)
        ensures
            r@ == value_of_json(value@),
        decreases value,
    {
        match value {
            Json::Null => TraceValue::Null,
            Json::Bool(b) => TraceValue::Bool(*b),
            Json::Number(text, _) => TraceValue::Number(copy_str(text.as_str())),
            Json::Text(text) => TraceValue::String(copy_str(text.as_str())),
            Json::Array(values) => {
                let mut out: Vec<TraceValue> = Vec::new();
                let mut i: usize = 0;
                while i < values.len()
                    invariant
                        i <= values@.len(),
                        out@.len() == i,
                        *value is Array,
                        value->Array_0 == *values,
                        forall|j: int|
                            0 <= j < i ==> (#[trigger] out@[j])@ == value_of_json(values@[j]@),
                    decreases values@.len() - i,
                {
                    proof {
                        assert(decreases_to!(*value => value->Array_0));
                        assert(decreases_to!(*values => values@));
                        assert(decreases_to!(values@ => values@[i as int]));
                    }
                    let item = TraceValue::from_json(&values[i]);
                    out.push(item);
                    i = i + 1;
                }
                assert(value_views(out@) =~= values_of_json(json_views(values@)));
                TraceValue::Array(out)
            },
            Json::Object(fields) => {
                let mut out: Vec<(String, TraceValue)> = Vec::new();
                let mut i: usize = 0;
                while i < fields.len()
                    invariant
                        i <= fields@.len(),
                        out@.len() == i,
                        *value is Object,
                        value->Object_0 == *fields,
                        forall|j: int|
                            0 <= j < i ==> (#[trigger] out@[j]).0@ == fields@[j].0@ && out@[j].1@
                                == value_of_json(fields@[j].1@),
                    decreases fields@.len() - i,
                {
                    proof {
                        assert(decreases_to!(*value => value->Object_0));
                        assert(decreases_to!(*fields => fields@));
                        assert(decreases_to!(fields@ => fields@[i as int]));
                        assert(decreases_to!(fields@[i as int] => fields@[i as int].1));
                    }
                    let item = TraceValue::from_json(&fields[i].1);
                    out.push((copy_str(fields[i].0.as_str()), item));
                    i = i + 1;
                }
                assert(value_pairs(out@) =~= pairs_of_json(json_fields(fields@)));
                TraceValue::Object(out)
            },
        }
    }

    /// The value as compact text.
    pub fn render_text(&self) -> (r: String)
        ensures
            r@ == rendered(self@),
        decreases self,
    {
        match self {
            TraceValue::Bool(b) => {
                proof {
                    reveal_strlit("true");
                    reveal_strlit("false");
                }
                let r = if *b {
                    copy_str("true")
                } else {
                    copy_str("false")
                };
                assert(r@ =~= rendered(self@));
                r
            },
            TraceValue::Null => {
                proof {
                    reveal_strlit("null");
                }
                let r = copy_str("null");
                assert(r@ =~= rendered(self@));
                r
            },
            TraceValue::Number(text) => copy_str(text.as_str()),
            TraceValue::Other(text) => copy_str(text.as_str()),
            TraceValue::String(text) => quote_json(text.as_str()),
            TraceValue::Array(values) => {
                let mut out = String::new();
                out.push('[');
                let ghost items = rendered_values(value_views(values@));
                let mut i: usize = 0;
                assert(items.take(0) =~= Seq::<Seq<char>>::empty());
                assert(out@ =~= seq!['['] + joined(items.take(0), seq![',']));
                while i < values.len()
                    invariant
                        i <= values@.len(),
                        *self is Array,
                        self->Array_0 == *values,
                        items == rendered_values(value_views(values@)),
                        out@ == seq!['['] + joined(items.take(i as int), seq![',']),
                    decreases values@.len() - i,
                {
                    proof {
                        assert(decreases_to!(*self => self->Array_0));
                        assert(decreases_to!(*values => values@));
                        assert(decreases_to!(values@ => values@[i as int]));
                        assert(items.take(i + 1).drop_last() =~= items.take(i as int));
                    }
                    if i > 0 {
                        out.push(',');
                    }
                    let item = values[i].render_text();
                    out.append(item.as_str());
                    i = i + 1;
                    assert(out@ =~= seq!['['] + joined(items.take(i as int), seq![',']));
                }
                assert(items.take(i as int) =~= items);
                out.push(']');
                assert(out@ =~= rendered(self@));
                out
            },
            TraceValue::Object(fields) => {
                let mut out = String::new();
                out.push('{');
                let ghost items = rendered_pairs(value_pairs(fields@));
                let mut i: usize = 0;
                assert(items.take(0) =~= Seq::<Seq<char>>::empty());
                assert(out@ =~= seq!['{'] + joined(items.take(0), seq![',']));
                while i < fields.len()
                    invariant
                        i <= fields@.len(),
                        *self is Object,
                        self->Object_0 == *fields,
                        items == rendered_pairs(value_pairs(fields@)),
                        out@ == seq!['{'] + joined(items.take(i as int), seq![',']),
                    decreases fields@.len() - i,
                {
                    proof {
                        assert(decreases_to!(*self => self->Object_0));
                        assert(decreases_to!(*fields => fields@));
                        assert(decreases_to!(fields@ => fields@[i as int]));
                        assert(decreases_to!(fields@[i as int] => fields@[i as int].1));
                        assert(items.take(i + 1).drop_last() =~= items.take(i as int));
                    }
                    if i > 0 {
                        out.push(',');
                    }
                    let key = quote_json(fields[i].0.as_str());
                    out.append(key.as_str());
                    out.push(':');
                    let item = fields[i].1.render_text();
                    out.append(item.as_str());
                    i = i + 1;
                    assert(out@ =~= seq!['{'] + joined(items.take(i as int), seq![',']));
                }
                assert(items.take(i as int) =~= items);
                out.push('}');
                assert(out@ =~= rendered(self@));
                out
            },
        }
    }
}

/// A value with the key it was found under.
#[derive(Debug, PartialEq, Eq)]
pub struct TraceValueField {
    pub key: String,
    pub value: TraceValue,
}

/// What a field holds.
#[verifier::ext_equal]
pub ghost struct FieldSpec {
    pub key: Seq<char>,
    pub value: ValueSpec,
}

impl View for TraceValueField {
    type V = FieldSpec;

    open spec fn view(&self) -> FieldSpec {
        FieldSpec { key: self.key@, value: self.value@ }
    }
}

/// What each of `fields` holds.
pub open spec fn fields_view(fields: Seq<TraceValueField>) -> Seq<FieldSpec> {
    Seq::new(fields.len(), |i: int| fields[i]@)
}

impl TraceValueField {
    pub fn new(key: &str, value: TraceValue) -> (r: TraceValueField)
        ensures
            r@ == (FieldSpec { key: key@, value: value@ }),
    {
        TraceValueField { key: copy_str(key), value }
    }
}

impl Clone for TraceValueField {
    fn clone(&self) -> (r: Self)
        ensures
            r@ == self@,
    {
        TraceValueField { key: copy_str(self.key.as_str()), value: self.value.clone() }
    }
}

/// A copy of `fields`.
pub fn clone_fields(fields: &Vec<TraceValueField>) -> (r: Vec<TraceValueField>)
    ensures
        fields_view(r@) == fields_view(fields@),
{
    let mut out: Vec<TraceValueField> = Vec::new();
    let mut i: usize = 0;
    while i < fields.len()
        invariant
            i <= fields@.len(),
            out@.len() == i,
            forall|j: int| 0 <= j < i ==> (#[trigger] out@[j])@ == fields@[j]@,
        decreases fields@.len() - i,
    {
        let field = fields[i].clone();
        out.push(field);
        i = i + 1;
    }
    assert(fields_view(out@) =~= fields_view(fields@));
    out
}

/// The values of one part of a line, under a title.
#[derive(Clone, Debug, PartialEq, Eq)]
pub struct TraceValueSection {
    pub title: String,
    pub fields: Vec<TraceValueField>,
}

/// What a section holds.
#[verifier::ext_equal]
pub ghost struct SectionSpec {
    pub title: Seq<char>,
    pub fields: Seq<FieldSpec>,
}

impl View for TraceValueSection {
    type V = SectionSpec;

    open spec fn view(&self) -> SectionSpec {
        SectionSpec { title: self.title@, fields: fields_view(self.fields@) }
    }
}

/// What each of `sections` holds.
pub open spec fn sections_view(sections: Seq<TraceValueSection>) -> Seq<SectionSpec> {
    Seq::new(sections.len(), |i: int| sections[i]@)
}

impl TraceValueSection {
    pub fn new(title: &str, fields: Vec<TraceValueField>) -> (r: TraceValueSection)
        ensures
            r@ == (SectionSpec { title: title@, fields: fields_view(fields@) }),
    {
        TraceValueSection { title: copy_str(title), fields }
    }
}

/// A piece of a message: plain text, or the fields that follow it.
#[derive(Clone, Debug, PartialEq, Eq)]
pub enum MessagePart {
    Text(String),
    Fields(Vec<TraceValueField>),
}

/// What a piece of a message holds.
#[verifier::ext_equal]
pub ghost enum PartSpec {
    Text(Seq<char>),
    Fields(Seq<FieldSpec>),
}

impl View for MessagePart {
    type V = PartSpec;

    open spec fn view(&self) -> PartSpec {
        match self {
            MessagePart::Text(text) => PartSpec::Text(text@),
            MessagePart::Fields(fields) => PartSpec::Fields(fields_view(fields@)),
        }
    }
}

/// What each of `parts` holds.
pub open spec fn parts_view(parts: Seq<MessagePart>) -> Seq<PartSpec> {
    Seq::new(parts.len(), |i: int| parts[i]@)
}

/// A field as text: its key, an equals sign and its value.
pub open spec fn field_text(field: FieldSpec) -> Seq<char> {
    field.key + seq!['='] + rendered(field.value)
}

/// Fields as text, with a space between each two of them.
pub open spec fn fields_text(fields: Seq<FieldSpec>) -> Seq<char> {
    joined(Seq::new(fields.len(), |i: int| field_text(fields[i])), seq![' '])
}

/// A message as text: its texts as they are, and its fields in parentheses,
/// with a space before them unless they stand at the start.
pub open spec fn message_text(parts: Seq<PartSpec>) -> Seq<char>
    decreases parts.len(),
{
    if parts.len() == 0 {
        Seq::empty()
    } else {
        let before = message_text(parts.drop_last());
        match parts.last() {
            PartSpec::Text(text) => before + text,
            PartSpec::Fields(fields) => {
                let open = if before.len() == 0 {
                    seq!['(']
                } else {
                    seq![' ', '(']
                };
                before + open + fields_text(fields) + seq![')']
            },
        }
    }
}

/// Fields are written one behind the other, each as its key, an equals sign and its
/// value, with a space between them.
pub proof fn law_fields_texts_grow(fields: Seq<FieldSpec>, field: FieldSpec)
    ensures
        fields_text(Seq::empty()) == Seq::<char>::empty(),
        fields_text(fields.push(field)) == if fields.len() == 0 {
            field.key + seq!['='] + rendered(field.value)
        } else {
            fields_text(fields) + seq![' '] + field.key + seq!['='] + rendered(field.value)
        },
{
    let all = fields.push(field);
    let before = Seq::new(fields.len(), |i: int| field_text(fields[i]));
    assert(Seq::new(all.len(), |i: int| field_text(all[i])) =~= before.push(field_text(field)));
    law_joined_texts_grow(before, field_text(field), seq![' ']);
    let none = Seq::<FieldSpec>::empty();
    assert(Seq::new(none.len(), |i: int| field_text(none[i])) =~= Seq::empty());
    if fields.len() > 0 {
        assert(fields_text(all) =~= fields_text(fields) + seq![' '] + field.key + seq!['=']
            + rendered(field.value));
    }
}

/// A message is written part by part: a text as it is, and fields in parentheses,
/// behind a space where something stands before them.
pub proof fn law_messages_grow(parts: Seq<PartSpec>, text: Seq<char>, fields: Seq<FieldSpec>)
    ensures
        message_text(Seq::empty()) == Seq::<char>::empty(),
        message_text(parts.push(PartSpec::Text(text))) == message_text(parts) + text,
        message_text(parts.push(PartSpec::Fields(fields))) == if message_text(
            parts,
        ).len() == 0 {
            seq!['('] + fields_text(fields) + seq![')']
        } else {
            message_text(parts) + seq![' ', '('] + fields_text(fields) + seq![')']
        },
{
    assert(parts.push(PartSpec::Text(text)).drop_last() =~= parts);
    assert(parts.push(PartSpec::Fields(fields)).drop_last() =~= parts);
    if message_text(parts).len() == 0 {
        assert(message_text(parts) =~= Seq::empty());
        assert(message_text(parts.push(PartSpec::Fields(fields))) =~= seq!['('] + fields_text(
            fields,
        ) + seq![')']);
    }
}

impl MessagePart {
    pub fn text(text: &str) -> (r: MessagePart)
        ensures
            r@ == PartSpec::Text(text@),
    {
        MessagePart::Text(copy_str(text))
    }

    pub fn fields(fields: Vec<TraceValueField>) -> (r: MessagePart)
        ensures
            r@ == PartSpec::Fields(fields_view(fields@)),
    {
        MessagePart::Fields(fields)
    }

    /// The message that `parts` make up, as text.
    pub fn plain_text(parts: &[MessagePart]) -> (r: String)
        ensures
            r@ == message_text(parts_view(parts@)),
    {
        let mut text = String::new();
        let ghost all = parts_view(parts@);
        let mut i: usize = 0;
        while i < parts.len()
            invariant
                i <= parts@.len(),
                all == parts_view(parts@),
                text@ == message_text(all.take(i as int)),
            decreases parts@.len() - i,
        {
            let ghost before = text@;
            assert(all.take(i + 1).drop_last() =~= all.take(i as int));
            match &parts[i] {
                MessagePart::Text(part) => {
                    text.append(part.as_str());
                },
                MessagePart::Fields(fields) => {
                    if text.as_str().is_empty() {
                        text.push('(');
                        assert(text@ =~= before + seq!['(']);
                    } else {
                        text.push(' ');
                        text.push('(');
                        assert(text@ =~= before + seq![' ', '(']);
                    }
                    push_fields_text(&mut text, fields.as_slice());
                    text.push(')');
                },
            }
            i = i + 1;
            assert(text@ =~= message_text(all.take(i as int)));
        }
        assert(all.take(i as int) =~= all);
        text
    }
}

/// Appends `fields` to `text`, as text.
pub fn push_fields_text(text: &mut String, fields: &[TraceValueField])
    ensures
        final(text)@ == old(text)@ + fields_text(fields_view(fields@)),
{
    let ghost items = Seq::new(
        fields_view(fields@).len(),
        |i: int| field_text(fields_view(fields@)[i]),
    );
    let ghost start = text@;
    let mut i: usize = 0;
    assert(items.take(0) =~= Seq::<Seq<char>>::empty());
    assert(text@ =~= start + joined(items.take(0), seq![' ']));
    while i < fields.len()
        invariant
            i <= fields@.len(),
            items.len() == fields@.len(),
            forall|j: int| 0 <= j < items.len() ==> items[j] == field_text(fields@[j]@),
            text@ == start + joined(items.take(i as int), seq![' ']),
        decreases fields@.len() - i,
    {
        let ghost done = joined(items.take(i as int), seq![' ']);
        let ghost item = field_text(fields@[i as int]@);
        let ghost sep = if i > 0 {
            seq![' ']
        } else {
            Seq::empty()
        };
        proof {
            assert(items.take(i + 1).drop_last() =~= items.take(i as int));
            assert(items.take(i + 1).last() == item);
            assert(joined(items.take(i + 1), seq![' ']) =~= done + sep + item);
        }
        if i > 0 {
            text.push(' ');
        }
        assert(text@ =~= start + done + sep);
        let value = fields[i].value.render_text();
        text.append(fields[i].key.as_str());
        text.push('=');
        text.append(value.as_str());
        assert(text@ =~= start + (done + sep + item));
        i = i + 1;
    }
    assert(items.take(i as int) =~= items);
}

/// What is known of one line.
#[derive(Clone, Debug, PartialEq, Eq)]
pub struct LogEntry {
    pub raw: String,
    pub timestamp: Option<String>,
    pub level: Level,
    pub parsed: bool,
    pub target: Option<String>,
    pub spans: Vec<String>,
    pub values: Vec<TraceValueSection>,
    pub message: String,
    pub message_parts: Vec<MessagePart>,
    pub stream: Stream,
}

/// What an entry holds.
#[verifier::ext_equal]
pub ghost struct EntrySpec {
    pub raw: Seq<char>,
    pub timestamp: Option<Seq<char>>,
    pub level: Level,
    pub parsed: bool,
    pub target: Option<Seq<char>>,
    pub spans: Seq<Seq<char>>,
    pub values: Seq<SectionSpec>,
    pub message: Seq<char>,
    pub message_parts: Seq<PartSpec>,
    pub stream: Stream,
}

impl View for LogEntry {
    type V = EntrySpec;

    open spec fn view(&self) -> EntrySpec {
        EntrySpec {
            raw: self.raw@,
            timestamp: text_of(self.timestamp),
            level: self.level,
            parsed: self.parsed,
            target: text_of(self.target),
            spans: texts(self.spans@),
            values: sections_view(self.values@),
            message: self.message@,
            message_parts: parts_view(self.message_parts@),
            stream: self.stream,
        }
    }
}

/// The view of an optional entry.
pub open spec fn entry_view(o: Option<LogEntry>) -> Option<EntrySpec> {
    match o {
        Some(entry) => Some(entry@),
        None => None,
    }
}

/// What each of `entries` holds.
pub open spec fn entries_view(entries: Seq<LogEntry>) -> Seq<EntrySpec> {
    Seq::new(entries.len(), |i: int| entries[i]@)
}

/// What happens to the input while it is watched. A process that has exited
/// leaves the text of its status.
#[derive(Clone, Debug, PartialEq, Eq)]
pub enum AppEvent {
    Line(Stream, String),
    InputFinished,
    ProcessExited(String),
    ReaderFailed(Stream, String),
}

} // verus!
