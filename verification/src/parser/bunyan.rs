//! Bunyan records: one JSON object on a line.

use vstd::prelude::*;

use crate::json::{json_fields, json_text, json_view, parse_json, Json, JsonSpec};
use crate::model::{
    entry_view, fields_text, fields_view, message_text, parts_view, sections_view, value_of_json,
    EntrySpec, FieldSpec, Level, LogEntry, MessagePart, PartSpec, Stream, TraceValue,
    TraceValueField,
};
use crate::parser::level::{level_of, parse_level};
use crate::text::{
    chars_of, copy_str, same_text, string_from, text_of, texts, trim_end, trimmed_end,
};

verus! {

/// The keys of a record that are not shown behind its message.
pub open spec fn record_keys() -> Seq<Seq<char>> {
    seq!["name"@, "hostname"@, "pid"@, "level"@, "msg"@, "time"@, "v"@]
}

/// The value under `key`.
pub open spec fn lookup(fields: Seq<(Seq<char>, JsonSpec)>, key: Seq<char>) -> Option<JsonSpec>
    decreases fields.len(),
{
    if fields.len() == 0 {
        None
    } else if fields[0].0 == key {
        Some(fields[0].1)
    } else {
        lookup(fields.drop_first(), key)
    }
}

/// The string under `key`, if there is a string.
pub open spec fn lookup_text(fields: Seq<(Seq<char>, JsonSpec)>, key: Seq<char>) -> Option<
    Seq<char>,
> {
    match lookup(fields, key) {
        Some(JsonSpec::Text(text)) => Some(text),
        _ => None,
    }
}

/// The level of a record: one of its numbers, or a word that names one.
pub open spec fn bunyan_level(value: JsonSpec) -> Option<Level> {
    match value {
        JsonSpec::Number(_, Some(n)) => if n == 10 {
            Some(Level::Trace)
        } else if n == 20 {
            Some(Level::Debug)
        } else if n == 30 {
            Some(Level::Info)
        } else if n == 40 {
            Some(Level::Warn)
        } else if n == 50 || n == 60 {
            Some(Level::Error)
        } else {
            None
        },
        JsonSpec::Text(text) => level_of(text),
        _ => None,
    }
}

/// The fields of a record that are shown behind its message, in their order.
pub open spec fn extra_fields(fields: Seq<(Seq<char>, JsonSpec)>) -> Seq<FieldSpec>
    decreases fields.len(),
{
    if fields.len() == 0 {
        Seq::empty()
    } else {
        let before = extra_fields(fields.drop_last());
        let (key, value) = fields.last();
        if record_keys().contains(key) {
            before
        } else {
            before.push(FieldSpec { key, value: value_of_json(value) })
        }
    }
}

/// The parts of the message of a record.
pub open spec fn record_parts(
    message: Seq<char>,
    fields: Seq<(Seq<char>, JsonSpec)>,
) -> Seq<PartSpec> {
    let extras = extra_fields(fields);
    if extras.len() == 0 {
        seq![PartSpec::Text(message)]
    } else {
        seq![PartSpec::Text(message), PartSpec::Fields(extras)]
    }
}

/// The entry of a record, given what its line is as JSON: an object with a level
/// and a message.
pub open spec fn record_entry(
    raw: Seq<char>,
    json: Option<JsonSpec>,
    stream: Stream,
) -> Option<EntrySpec> {
    match json {
        Some(JsonSpec::Object(fields)) => match lookup(fields, "level"@) {
            None => None,
            Some(level) => match (bunyan_level(level), lookup_text(fields, "msg"@)) {
                (Some(level), Some(message)) => {
                    let parts = record_parts(message, fields);
                    Some(
                        EntrySpec {
                            raw,
                            timestamp: lookup_text(fields, "time"@),
                            level,
                            parsed: true,
                            target: lookup_text(fields, "name"@),
                            spans: Seq::empty(),
                            values: Seq::empty(),
                            message: message_text(parts),
                            message_parts: parts,
                            stream,
                        },
                    )
                },
                _ => None,
            },
        },
        _ => None,
    }
}

/// The entry of a line that is a record.
pub open spec fn bunyan_entry(line: Seq<char>, stream: Stream) -> Option<EntrySpec> {
    record_entry(trimmed_end(line), json_text(trimmed_end(line)), stream)
}

/// What a record says elsewhere is not repeated behind its message.
pub proof fn law_record_keys_are_not_repeated(fields: Seq<(Seq<char>, JsonSpec)>)
    ensures
        forall|i: int|
            0 <= i < extra_fields(fields).len() ==> !record_keys().contains(
                #[trigger] extra_fields(fields)[i].key,
            ),
    decreases fields.len(),
{
    if fields.len() > 0 {
        law_record_keys_are_not_repeated(fields.drop_last());
    }
}

/// The fields behind the message are all fields of the record but for the seven that
/// every record has, once each and in their order.
pub proof fn law_extra_fields_are_all_shown(fields: Seq<(Seq<char>, JsonSpec)>)
    ensures
        extra_fields(fields) == fields.filter(
            |field: (Seq<char>, JsonSpec)|
                field.0 != "name"@ && field.0 != "hostname"@ && field.0 != "pid"@ && field.0
                    != "level"@ && field.0 != "msg"@ && field.0 != "time"@ && field.0 != "v"@,
        ).map_values(
            |field: (Seq<char>, JsonSpec)|
                FieldSpec { key: field.0, value: value_of_json(field.1) },
        ),
    decreases fields.len(),
{
    let kept = |field: (Seq<char>, JsonSpec)|
        field.0 != "name"@ && field.0 != "hostname"@ && field.0 != "pid"@ && field.0 != "level"@
            && field.0 != "msg"@ && field.0 != "time"@ && field.0 != "v"@;
    let shown = |field: (Seq<char>, JsonSpec)|
        FieldSpec { key: field.0, value: value_of_json(field.1) };
    reveal(Seq::filter);
    if fields.len() == 0 {
        assert(fields.filter(kept).map_values(shown) =~= Seq::empty());
    } else {
        let keys = record_keys();
        assert(keys[0] == "name"@ && keys[1] == "hostname"@ && keys[2] == "pid"@ && keys[3]
            == "level"@ && keys[4] == "msg"@ && keys[5] == "time"@ && keys[6] == "v"@);
        law_extra_fields_are_all_shown(fields.drop_last());
        assert(extra_fields(fields) =~= fields.filter(kept).map_values(shown));
    }
}

/// What is looked up in a record is its first field with that key.
pub proof fn law_lookups_find_the_first_field(
    fields: Seq<(Seq<char>, JsonSpec)>,
    key: Seq<char>,
    i: int,
)
    requires
        0 <= i <= fields.len(),
        forall|j: int| 0 <= j < i ==> (#[trigger] fields[j]).0 != key,
        i < fields.len() ==> fields[i].0 == key,
    ensures
        lookup(fields, key) == if i < fields.len() {
            Some(fields[i].1)
        } else {
            None
        },
    decreases i,
{
    if i > 0 {
        let rest = fields.drop_first();
        assert(fields[0].0 != key);
        assert forall|j: int| 0 <= j < i - 1 implies (#[trigger] rest[j]).0 != key by {
            assert(rest[j] == fields[j + 1]);
        }
        law_lookups_find_the_first_field(rest, key, i - 1);
    }
}

/// The numbers of the levels go up by tens from the lowest one on, and the two highest
/// are errors. A word is the level that it names, and nothing else is a level.
pub proof fn law_record_levels(value: JsonSpec)
    ensures
        bunyan_level(value) == match value {
            JsonSpec::Number(_, Some(n)) => match n {
                10 => Some(Level::Trace),
                20 => Some(Level::Debug),
                30 => Some(Level::Info),
                40 => Some(Level::Warn),
                50 => Some(Level::Error),
                60 => Some(Level::Error),
                _ => None,
            },
            JsonSpec::Text(text) => level_of(text),
            _ => None,
        },
{
}

/// A record says what its fields say: its level, its message with the extra fields
/// behind it, its time and its name.
pub proof fn law_records_say_what_their_fields_say(
    raw: Seq<char>,
    fields: Seq<(Seq<char>, JsonSpec)>,
    stream: Stream,
    level: Level,
    message: Seq<char>,
)
    requires
        lookup(fields, "level"@) matches Some(value) && bunyan_level(value) == Some(level),
        lookup(fields, "msg"@) == Some(JsonSpec::Text(message)),
    ensures
        ({
            let entry = record_entry(raw, Some(JsonSpec::Object(fields)), stream);
            let extras = extra_fields(fields);
            &&& entry is Some
            &&& entry->0.raw == raw
            &&& entry->0.level == level
            &&& entry->0.stream == stream
            &&& entry->0.parsed
            &&& entry->0.spans.len() == 0
            &&& entry->0.values.len() == 0
            &&& entry->0.timestamp == match lookup(fields, "time"@) {
                Some(JsonSpec::Text(time)) => Some(time),
                _ => None,
            }
            &&& entry->0.target == match lookup(fields, "name"@) {
                Some(JsonSpec::Text(name)) => Some(name),
                _ => None,
            }
            &&& extras.len() == 0 ==> entry->0.message == message
            &&& extras.len() > 0 && message.len() > 0 ==> entry->0.message == message + seq![
                ' ',
                '(',
            ] + fields_text(extras) + seq![')']
            &&& extras.len() > 0 && message.len() == 0 ==> entry->0.message == seq!['(']
                + fields_text(extras) + seq![')']
            &&& entry->0.message_parts == if extras.len() == 0 {
                seq![PartSpec::Text(message)]
            } else {
                seq![PartSpec::Text(message), PartSpec::Fields(extras)]
            }
        }),
{
    let extras = extra_fields(fields);
    let text = seq![PartSpec::Text(message)];
    reveal_with_fuel(message_text, 3);
    assert(text.drop_last() =~= Seq::empty());
    assert(message_text(text) =~= message);
    if extras.len() > 0 {
        let parts = seq![PartSpec::Text(message), PartSpec::Fields(extras)];
        assert(parts.drop_last() =~= text);
        if message.len() == 0 {
            assert(message_text(parts) =~= seq!['('] + fields_text(extras) + seq![')']);
        }
    }
}

/// A line is a record if and only if it is a JSON object with a level that is known
/// and a message that is a string.
pub proof fn law_records_have_a_level_and_a_message(
    raw: Seq<char>,
    json: Option<JsonSpec>,
    stream: Stream,
)
    ensures
        record_entry(raw, json, stream) is Some <==> {
            &&& json matches Some(JsonSpec::Object(fields))
            &&& lookup(fields, "level"@) matches Some(level)
            &&& bunyan_level(level) is Some
            &&& lookup_text(fields, "msg"@) is Some
        },
{
}

/// The value under `key`.
fn get<'a>(fields: &'a Vec<(String, Json)>, key: &str) -> (r: Option<&'a Json>)
    ensures
        r is Some <==> lookup(json_fields(fields@), key@) is Some,
        r matches Some(value) ==> lookup(json_fields(fields@), key@) == Some(value@),
{
    let ghost all = json_fields(fields@);
    let mut i: usize = 0;
    assert(all.skip(0) =~= all);
    while i < fields.len()
        invariant
            i <= fields@.len(),
            all == json_fields(fields@),
            lookup(all, key@) == lookup(all.skip(i as int), key@),
        decreases fields@.len() - i,
    {
        assert(all.skip(i as int)[0] == (fields@[i as int].0@, fields@[i as int].1@));
        assert(all.skip(i as int).drop_first() =~= all.skip(i + 1));
        if same_text(fields[i].0.as_str(), key) {
            return Some(&fields[i].1);
        }
        i = i + 1;
    }
    None
}

/// The string under `key`, if there is a string.
fn get_text(fields: &Vec<(String, Json)>, key: &str) -> (r: Option<String>)
    ensures
        text_of(r) == lookup_text(json_fields(fields@), key@),
{
    match get(fields, key) {
        Some(Json::Text(text)) => Some(copy_str(text.as_str())),
        _ => None,
    }
}

/// Reads a line as a Bunyan record.
pub fn parse_bunyan(raw: &str, stream: Stream) -> (r: Option<LogEntry>)
    ensures
        entry_view(r) == bunyan_entry(raw@, stream),
{
    let chars = chars_of(raw);
    let text = string_from(trim_end(chars.as_slice()));
    let json = parse_json(text.as_str());
    entry_from_json(text.as_str(), json, stream)
}

/// The entry of a record, given what its line is as JSON.
pub fn entry_from_json(raw: &str, json: Option<Json>, stream: Stream) -> (r: Option<LogEntry>)
    ensures
        entry_view(r) == record_entry(raw@, json_view(json), stream),
{
    let fields = match json {
        Some(Json::Object(fields)) => fields,
        _ => {
            return None;
        },
    };
    let level = match get(&fields, "level") {
        Some(value) => match parse_bunyan_level(value) {
            Some(level) => level,
            None => {
                return None;
            },
        },
        None => {
            return None;
        },
    };
    let message = match get_text(&fields, "msg") {
        Some(message) => message,
        None => {
            return None;
        },
    };
    let timestamp = get_text(&fields, "time");
    let target = get_text(&fields, "name");
    let parts = bunyan_message_parts(message.as_str(), &fields);
    let shown = MessagePart::plain_text(parts.as_slice());
    let entry = LogEntry {
        raw: copy_str(raw),
        timestamp,
        level,
        parsed: true,
        target,
        spans: Vec::new(),
        values: Vec::new(),
        message: shown,
        message_parts: parts,
        stream,
    };
    proof {
        assert(texts(entry.spans@) =~= Seq::empty());
        assert(sections_view(entry.values@) =~= Seq::empty());
    }
    Some(entry)
}

/// The level of a record.
pub fn parse_bunyan_level(value: &Json) -> (r: Option<Level>)
    ensures
        r == bunyan_level(value@),
{
    match value {
        Json::Number(_, Some(n)) => match *n {
            10 => Some(Level::Trace),
            20 => Some(Level::Debug),
            30 => Some(Level::Info),
            40 => Some(Level::Warn),
            50 | 60 => Some(Level::Error),
            _ => None,
        },
        Json::Text(text) => {
            let chars = chars_of(text.as_str());
            parse_level(chars.as_slice())
        },
        _ => None,
    }
}

/// Tells whether a field of a record is not shown behind its message.
fn is_record_key(key: &str) -> (r: bool)
    ensures
        r == record_keys().contains(key@),
{
    let r = same_text(key, "name") || same_text(key, "hostname") || same_text(key, "pid")
        || same_text(key, "level") || same_text(key, "msg") || same_text(key, "time")
        || same_text(key, "v");
    proof {
        let keys = record_keys();
        assert(keys[0] == "name"@ && keys[1] == "hostname"@ && keys[2] == "pid"@ && keys[3]
            == "level"@ && keys[4] == "msg"@ && keys[5] == "time"@ && keys[6] == "v"@);
    }
    r
}

/// The parts of the message of a record.
pub fn bunyan_message_parts(message: &str, fields: &Vec<(String, Json)>) -> (r: Vec<MessagePart>)
    ensures
        parts_view(r@) == record_parts(message@, json_fields(fields@)),
{
    let ghost all = json_fields(fields@);
    let mut extras: Vec<TraceValueField> = Vec::new();
    let mut i: usize = 0;
    assert(fields_view(extras@) =~= extra_fields(all.take(0)));
    while i < fields.len()
        invariant
            i <= fields@.len(),
            all == json_fields(fields@),
            fields_view(extras@) == extra_fields(all.take(i as int)),
        decreases fields@.len() - i,
    {
        let ghost before = fields_view(extras@);
        assert(all.take(i + 1).drop_last() =~= all.take(i as int));
        assert(all.take(i + 1).last() == (fields@[i as int].0@, fields@[i as int].1@));
        if !is_record_key(fields[i].0.as_str()) {
            let field = TraceValueField::new(
                fields[i].0.as_str(),
                TraceValue::from_json(&fields[i].1),
            );
            let ghost item = field@;
            extras.push(field);
            assert(fields_view(extras@) =~= before.push(item));
        }
        i = i + 1;
    }
    assert(all.take(i as int) =~= all);
    let mut parts: Vec<MessagePart> = Vec::new();
    parts.push(MessagePart::text(message));
    if extras.len() > 0 {
        parts.push(MessagePart::fields(extras));
    }
    assert(parts_view(parts@) =~= record_parts(message@, all));
    parts
}

} // verus!
