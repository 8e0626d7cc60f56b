//! `logfmt` lines: `key=value` fields with white space between them.

use vstd::prelude::*;

use crate::json::{json_quoted, quote_json};
use crate::model::{
    clone_fields, entry_view, fields_text, fields_view, message_text, parts_view, rendered,
    sections_view, traced, EntrySpec, FieldSpec, Level, LogEntry, MessagePart, PartSpec,
    SectionSpec, Stream, TraceValue, TraceValueField, TraceValueSection, ValueSpec,
};
use crate::parser::level::{law_level_names_are_read_back, level_of, lowered, parse_level};
use crate::text::{
    all_ink, all_white, chars_of, copy_str, find_char, find_whitespace, is_white, is_whitespace,
    is_word, lemma_position_behind, lemma_position_of, lemma_trimmed_start,
    lemma_trimmed_start_passes, lemma_white_position, lemma_white_position_behind, position_of,
    same_text, skip, string_from, strs, take, text_of, texts, trim_end, trim_start, trimmed_end,
    trimmed_start, white_position,
};

verus! {

/// The keys under which a line may hold its level.
pub open spec fn level_keys() -> Seq<Seq<char>> {
    seq!["level"@, "lvl"@]
}

/// The keys under which a line may hold its time.
pub open spec fn time_keys() -> Seq<Seq<char>> {
    seq!["time"@, "timestamp"@, "ts"@]
}

/// The keys under which a line may hold its target.
pub open spec fn target_keys() -> Seq<Seq<char>> {
    seq!["target"@, "logger"@, "module"@]
}

/// The keys under which a line may hold its message.
pub open spec fn message_keys() -> Seq<Seq<char>> {
    seq!["msg"@, "message"@]
}

/// The keys of the fields that do not count as values of the line.
pub open spec fn core_keys() -> Seq<Seq<char>> {
    level_keys() + message_keys() + time_keys() + target_keys()
}

/// The first of `fields` whose key is among `keys`.
pub open spec fn first_field(fields: Seq<FieldSpec>, keys: Seq<Seq<char>>) -> Option<FieldSpec>
    decreases fields.len(),
{
    if fields.len() == 0 {
        None
    } else if keys.contains(fields[0].key) {
        Some(fields[0])
    } else {
        first_field(fields.drop_first(), keys)
    }
}

/// The fields whose key is not among the core keys, in their order.
pub open spec fn extra_fields(fields: Seq<FieldSpec>) -> Seq<FieldSpec>
    decreases fields.len(),
{
    if fields.len() == 0 {
        Seq::empty()
    } else {
        let before = extra_fields(fields.drop_last());
        if core_keys().contains(fields.last().key) {
            before
        } else {
            before.push(fields.last())
        }
    }
}

/// The text of a core field: a string as it is, any other value as compact text.
pub open spec fn core_text(value: ValueSpec) -> Seq<char> {
    match value {
        ValueSpec::Text(text) => text,
        _ => rendered(value),
    }
}

/// The text of the first of `fields` whose key is among `keys`.
pub open spec fn first_text(fields: Seq<FieldSpec>, keys: Seq<Seq<char>>) -> Option<Seq<char>> {
    match first_field(fields, keys) {
        Some(field) => Some(core_text(field.value)),
        None => None,
    }
}

/// The position of the equals sign behind the key at the start of `s`. A key is
/// not empty, and holds neither white space nor a quote.
pub open spec fn key_end(s: Seq<char>) -> Option<int> {
    match position_of(s, '=') {
        None => None,
        Some(end) => if end == 0 || exists|i: int|
            0 <= i < end && (is_white(#[trigger] s[i]) || s[i] == '"') {
            None
        } else {
            Some(end)
        },
    }
}

/// The character that a backslash and `c` stand for.
pub open spec fn unescaped(c: char) -> char {
    if c == 'n' {
        '\n'
    } else if c == 'r' {
        '\r'
    } else if c == 't' {
        '\t'
    } else {
        c
    }
}

/// What a quoted value goes on with from `i`, and the position behind its
/// closing quote. `escaped` tells whether a backslash stands before `i`.
pub open spec fn quoted_rest(s: Seq<char>, i: int, escaped: bool) -> Option<(Seq<char>, int)>
    decreases s.len() - i,
{
    if i >= s.len() {
        None
    } else if !escaped && s[i] == '\\' {
        quoted_rest(s, i + 1, true)
    } else if !escaped && s[i] == '"' {
        Some((Seq::empty(), i + 1))
    } else {
        let c = if escaped {
            unescaped(s[i])
        } else {
            s[i]
        };
        match quoted_rest(s, i + 1, false) {
            Some((rest, end)) => Some((seq![c] + rest, end)),
            None => None,
        }
    }
}

/// The value at the start of `s`, and how long it is: a quoted string, or what
/// stands before the next white space.
pub open spec fn value_at(s: Seq<char>) -> Option<(ValueSpec, int)> {
    if s.len() > 0 && s[0] == '"' {
        match quoted_rest(s, 1, false) {
            Some((text, end)) => Some((ValueSpec::Text(text), end)),
            None => None,
        }
    } else {
        Some((traced(s.take(white_position(s))), white_position(s)))
    }
}

/// The fields that `s` is made of.
pub open spec fn logfmt_fields(s: Seq<char>) -> Option<Seq<FieldSpec>>
    decreases s.len(),
    via logfmt_fields_decreases
{
    let rest = trimmed_start(s);
    if rest.len() == 0 {
        Some(Seq::empty())
    } else {
        match key_end(rest) {
            None => None,
            Some(end) => match value_at(rest.skip(end + 1)) {
                None => None,
                Some((value, len)) => match logfmt_fields(rest.skip(end + 1).skip(len)) {
                    None => None,
                    Some(fields) => Some(seq![FieldSpec { key: rest.take(end), value }] + fields),
                },
            },
        }
    }
}

#[via_fn]
proof fn logfmt_fields_decreases(s: Seq<char>) {
    lemma_trimmed_start(s);
    let rest = trimmed_start(s);
    lemma_position_of(rest, '=');
    if let Some(end) = key_end(rest) {
        lemma_value_at(rest.skip(end + 1));
    }
}

proof fn lemma_quoted_rest(s: Seq<char>, i: int, escaped: bool)
    requires
        0 <= i <= s.len(),
    ensures
        quoted_rest(s, i, escaped) matches Some((text, end)) ==> i < end <= s.len(),
    decreases s.len() - i,
{
    if i < s.len() {
        lemma_quoted_rest(s, i + 1, true);
        lemma_quoted_rest(s, i + 1, false);
    }
}

proof fn lemma_value_at(s: Seq<char>)
    ensures
        value_at(s) matches Some((value, len)) ==> 0 <= len <= s.len(),
{
    if s.len() > 0 {
        lemma_quoted_rest(s, 1, false);
    }
    lemma_white_position(s);
}

/// The message of a line and its values, as parts.
pub open spec fn logfmt_parts(message: Seq<char>, values: Seq<FieldSpec>) -> Seq<PartSpec> {
    let text: Seq<PartSpec> = if message.len() == 0 {
        Seq::empty()
    } else {
        seq![PartSpec::Text(message)]
    };
    let fields: Seq<PartSpec> = if values.len() == 0 {
        Seq::empty()
    } else {
        seq![PartSpec::Fields(values)]
    };
    text + fields
}

/// The entry that the fields of a line make up.
pub open spec fn fields_entry(
    raw: Seq<char>,
    fields: Seq<FieldSpec>,
    stream: Stream,
) -> EntrySpec {
    let message = match first_text(fields, message_keys()) {
        Some(text) => text,
        None => Seq::empty(),
    };
    let level = match first_text(fields, level_keys()) {
        Some(text) => level_of(text),
        None => None,
    };
    let values = extra_fields(fields);
    let parts = logfmt_parts(message, values);
    EntrySpec {
        raw,
        timestamp: first_text(fields, time_keys()),
        level: match level {
            Some(level) => level,
            None => Level::Unknown,
        },
        parsed: true,
        target: first_text(fields, target_keys()),
        spans: Seq::empty(),
        values: if values.len() == 0 {
            Seq::empty()
        } else {
            seq![SectionSpec { title: "event"@, fields: values }]
        },
        message: message_text(parts),
        message_parts: parts,
        stream,
    }
}

/// The entry of a line that is made of at least one field.
pub open spec fn logfmt_entry(line: Seq<char>, stream: Stream) -> Option<EntrySpec> {
    let raw = trimmed_end(line);
    match logfmt_fields(raw) {
        None => None,
        Some(fields) => if fields.len() == 0 {
            None
        } else {
            Some(fields_entry(raw, fields, stream))
        },
    }
}

/// A character as it is written inside of quotes.
pub open spec fn escaped(c: char) -> Seq<char> {
    if c == '"' || c == '\\' {
        seq!['\\', c]
    } else if c == '\n' {
        seq!['\\', 'n']
    } else if c == '\r' {
        seq!['\\', 'r']
    } else if c == '\t' {
        seq!['\\', 't']
    } else {
        seq![c]
    }
}

/// A text as it is written inside of quotes.
pub open spec fn escapes(s: Seq<char>) -> Seq<char>
    decreases s.len(),
{
    if s.len() == 0 {
        Seq::empty()
    } else {
        escaped(s[0]) + escapes(s.drop_first())
    }
}

/// `written` is how `value` is written: a text in quotes, or a word that does not
/// start with a quote.
pub open spec fn is_written(written: Seq<char>, value: ValueSpec) -> bool {
    ||| value matches ValueSpec::Text(text) && written == seq!['"'] + escapes(text) + seq!['"']
    ||| all_ink(written) && (written.len() > 0 ==> written[0] != '"') && value == traced(written)
}

/// A key that can be written: it has characters, and none of them is white space,
/// a quote or an equals sign.
pub open spec fn is_key(key: Seq<char>) -> bool {
    is_word(key) && !key.contains('"') && !key.contains('=')
}

/// A line of keys and written values.
pub open spec fn logfmt_line(keys: Seq<Seq<char>>, written: Seq<Seq<char>>) -> Seq<char>
    decreases keys.len(),
{
    if keys.len() == 0 {
        Seq::empty()
    } else {
        let rest = if keys.len() == 1 {
            Seq::empty()
        } else {
            seq![' '] + logfmt_line(keys.drop_first(), written.drop_first())
        };
        keys[0] + seq!['='] + (written[0] + rest)
    }
}

proof fn lemma_escapes_read_back(s: Seq<char>, i: int, text: Seq<char>, rest: Seq<char>)
    requires
        0 <= i <= s.len(),
        s.skip(i) == escapes(text) + seq!['"'] + rest,
    ensures
        quoted_rest(s, i, false) == Some((text, i + escapes(text).len() + 1)),
    decreases text.len(),
{
    let all = escapes(text) + seq!['"'] + rest;
    assert(s.skip(i).len() > 0);
    assert(s.skip(i)[0] == s[i]);
    if text.len() == 0 {
        assert(all[0] == '"');
        assert(text =~= Seq::empty());
    } else {
        let c = text[0];
        let tail = text.drop_first();
        let len = escaped(c).len() as int;
        assert(all =~= escaped(c) + (escapes(tail) + seq!['"'] + rest));
        assert(s.skip(i + len) =~= s.skip(i).skip(len));
        assert(s.skip(i + len) =~= escapes(tail) + seq!['"'] + rest);
        lemma_escapes_read_back(s, i + len, tail, rest);
        assert(seq![c] + tail =~= text);
        if len == 2 {
            assert(s.skip(i)[1] == s[i + 1]);
            reveal_with_fuel(quoted_rest, 3);
        }
    }
}

proof fn lemma_written_value_is_read_back(
    written: Seq<char>,
    value: ValueSpec,
    rest: Seq<char>,
)
    requires
        is_written(written, value),
        rest.len() == 0 || is_white(rest[0]),
    ensures
        value_at(written + rest) == Some((value, written.len() as int)),
{
    let s = written + rest;
    if value matches ValueSpec::Text(text) && written == seq!['"'] + escapes(text) + seq!['"'] {
        let text = value->Text_0;
        assert(s.skip(1) =~= escapes(text) + seq!['"'] + rest);
        lemma_escapes_read_back(s, 1, text, rest);
    } else {
        lemma_white_position_behind(written, rest);
        assert(s.take(written.len() as int) =~= written);
        if written.len() == 0 && rest.len() > 0 {
            assert(s[0] == rest[0]);
        }
    }
}

/// The keys and values of a line are read back.
pub proof fn law_logfmt_lines_are_read_back(
    keys: Seq<Seq<char>>,
    written: Seq<Seq<char>>,
    values: Seq<ValueSpec>,
)
    requires
        keys.len() == written.len() == values.len(),
        forall|i: int| 0 <= i < keys.len() ==> is_key(#[trigger] keys[i]),
        forall|i: int| 0 <= i < keys.len() ==> is_written(#[trigger] written[i], values[i]),
    ensures
        logfmt_fields(logfmt_line(keys, written)) == Some(
            Seq::new(keys.len(), |i: int| FieldSpec { key: keys[i], value: values[i] }),
        ),
    decreases keys.len(),
{
    let line = logfmt_line(keys, written);
    let all = Seq::new(keys.len(), |i: int| FieldSpec { key: keys[i], value: values[i] });
    if keys.len() == 0 {
        assert(trimmed_start(line) == line);
        assert(all =~= Seq::empty());
    } else {
        let key = keys[0];
        let more = logfmt_line(keys.drop_first(), written.drop_first());
        let rest = if keys.len() == 1 {
            Seq::empty()
        } else {
            seq![' '] + more
        };
        assert(is_key(key));
        assert(is_written(written[0], values[0]));
        assert(line[0] == key[0]);
        assert(trimmed_start(line) == line);
        lemma_position_behind(key, '=', written[0] + rest);
        assert forall|i: int| 0 <= i < key.len() implies !(is_white(#[trigger] line[i]) || line[i]
            == '"') by {
            assert(line[i] == key[i]);
            assert(key.contains(key[i]));
        }
        let end = key.len() as int;
        assert(key_end(line) == Some(end));
        assert(line.take(end) =~= key);
        assert(line.skip(end + 1) =~= written[0] + rest);
        lemma_written_value_is_read_back(written[0], values[0], rest);
        assert((written[0] + rest).skip(written[0].len() as int) =~= rest);
        let (k, w, v) = (keys.drop_first(), written.drop_first(), values.drop_first());
        assert forall|i: int| 0 <= i < k.len() implies is_key(#[trigger] k[i]) by {
            assert(is_key(keys[i + 1]));
        }
        assert forall|i: int| 0 <= i < k.len() implies is_written(#[trigger] w[i], v[i]) by {
            assert(is_written(written[i + 1], values[i + 1]));
        }
        law_logfmt_lines_are_read_back(k, w, v);
        let tail = Seq::new(k.len(), |i: int| FieldSpec { key: k[i], value: v[i] });
        if keys.len() == 1 {
            assert(trimmed_start(rest) == rest);
            assert(logfmt_fields(rest) == Some(Seq::<FieldSpec>::empty()));
            assert(tail =~= Seq::empty());
        } else {
            lemma_trimmed_start_passes(seq![' '], more);
            assert(is_key(k[0]));
            assert(more[0] == k[0][0]);
            assert(trimmed_start(more) == more);
            assert(logfmt_fields(rest) == logfmt_fields(more));
        }
        assert(seq![FieldSpec { key, value: values[0] }] + tail =~= all);
    }
}

/// What a line says elsewhere is not repeated behind its message.
pub proof fn law_core_fields_are_not_repeated(fields: Seq<FieldSpec>)
    ensures
        forall|i: int|
            0 <= i < extra_fields(fields).len() ==> !core_keys().contains(
                #[trigger] extra_fields(fields)[i].key,
            ),
    decreases fields.len(),
{
    if fields.len() > 0 {
        law_core_fields_are_not_repeated(fields.drop_last());
    }
}

/// The fields behind the message are all fields but for those that say the level,
/// the message, the time and the target, once each and in their order.
pub proof fn law_extra_fields_are_all_shown(fields: Seq<FieldSpec>)
    ensures
        extra_fields(fields) == fields.filter(
            |field: FieldSpec|
                field.key != "level"@ && field.key != "lvl"@ && field.key != "msg"@ && field.key
                    != "message"@ && field.key != "time"@ && field.key != "timestamp"@ && field.key
                    != "ts"@ && field.key != "target"@ && field.key != "logger"@ && field.key
                    != "module"@,
        ),
    decreases fields.len(),
{
    reveal(Seq::filter);
    if fields.len() > 0 {
        let keys = core_keys();
        assert(keys[0] == "level"@ && keys[1] == "lvl"@ && keys[2] == "msg"@ && keys[3]
            == "message"@ && keys[4] == "time"@ && keys[5] == "timestamp"@ && keys[6] == "ts"@
            && keys[7] == "target"@ && keys[8] == "logger"@ && keys[9] == "module"@);
        law_extra_fields_are_all_shown(fields.drop_last());
    }
}

/// The place `at` is that of the first field with one of the given keys, or the
/// number of fields where there is none.
pub open spec fn is_first_of(fields: Seq<FieldSpec>, keys: Set<Seq<char>>, at: int) -> bool {
    &&& 0 <= at <= fields.len()
    &&& forall|j: int| 0 <= j < at ==> !keys.contains((#[trigger] fields[j]).key)
    &&& at < fields.len() ==> keys.contains(fields[at].key)
}

/// The text of the field at `at`, if there is one.
pub open spec fn text_at(fields: Seq<FieldSpec>, at: int) -> Option<Seq<char>> {
    if at < fields.len() {
        Some(
            match fields[at].value {
                ValueSpec::Text(text) => text,
                other => rendered(other),
            },
        )
    } else {
        None
    }
}

proof fn lemma_first_text(
    fields: Seq<FieldSpec>,
    names: Seq<Seq<char>>,
    keys: Set<Seq<char>>,
    at: int,
)
    requires
        forall|key: Seq<char>| #[trigger] names.contains(key) == keys.contains(key),
        is_first_of(fields, keys, at),
    ensures
        first_text(fields, names) == text_at(fields, at),
    decreases fields.len(),
{
    if fields.len() > 0 {
        assert(names.contains(fields[0].key) == keys.contains(fields[0].key));
        if at > 0 {
            let rest = fields.drop_first();
            assert(!keys.contains(fields[0].key));
            assert forall|j: int| 0 <= j < at - 1 implies !keys.contains(
                (#[trigger] rest[j]).key,
            ) by {
                assert(!keys.contains(fields[j + 1].key));
            }
            lemma_first_text(rest, names, keys, at - 1);
        }
    }
}

/// A line that is made of fields is an entry that says what they say: each of level,
/// time, target and message is what the first field with one of its keys says, and
/// the other fields stand behind the message.
pub proof fn law_fields_make_up_the_entry(
    line: Seq<char>,
    stream: Stream,
    fields: Seq<FieldSpec>,
    level_at: int,
    time_at: int,
    target_at: int,
    message_at: int,
)
    requires
        logfmt_fields(trimmed_end(line)) == Some(fields),
        fields.len() > 0,
        is_first_of(fields, set!["level"@, "lvl"@], level_at),
        is_first_of(fields, set!["time"@, "timestamp"@, "ts"@], time_at),
        is_first_of(fields, set!["target"@, "logger"@, "module"@], target_at),
        is_first_of(fields, set!["msg"@, "message"@], message_at),
    ensures
        logfmt_entry(line, stream) is Some,
        ({
            let entry = logfmt_entry(line, stream).unwrap();
            let text = match text_at(fields, message_at) {
                Some(text) => text,
                None => Seq::empty(),
            };
            let extras = extra_fields(fields);
            &&& entry.raw == trimmed_end(line)
            &&& entry.stream == stream
            &&& entry.parsed
            &&& entry.spans.len() == 0
            &&& entry.level == match text_at(fields, level_at) {
                Some(word) => match level_of(word) {
                    Some(level) => level,
                    None => Level::Unknown,
                },
                None => Level::Unknown,
            }
            &&& entry.timestamp == text_at(fields, time_at)
            &&& entry.target == text_at(fields, target_at)
            &&& extras.len() == 0 ==> entry.values.len() == 0
            &&& extras.len() > 0 ==> entry.values == seq![
                SectionSpec { title: "event"@, fields: extras },
            ]
            &&& entry.message == if extras.len() == 0 {
                text
            } else if text.len() == 0 {
                seq!['('] + fields_text(extras) + seq![')']
            } else {
                text + seq![' ', '('] + fields_text(extras) + seq![')']
            }
            &&& text.len() > 0 && extras.len() > 0 ==> entry.message_parts == seq![
                PartSpec::Text(text),
                PartSpec::Fields(extras),
            ]
            &&& text.len() > 0 && extras.len() == 0 ==> entry.message_parts == seq![
                PartSpec::Text(text),
            ]
            &&& text.len() == 0 && extras.len() > 0 ==> entry.message_parts == seq![
                PartSpec::Fields(extras),
            ]
            &&& text.len() == 0 && extras.len() == 0 ==> entry.message_parts.len() == 0
        }),
{
    let levels = level_keys();
    assert(levels[0] == "level"@ && levels[1] == "lvl"@);
    lemma_first_text(fields, levels, set!["level"@, "lvl"@], level_at);
    let times = time_keys();
    assert(times[0] == "time"@ && times[1] == "timestamp"@ && times[2] == "ts"@);
    lemma_first_text(fields, times, set!["time"@, "timestamp"@, "ts"@], time_at);
    let targets = target_keys();
    assert(targets[0] == "target"@ && targets[1] == "logger"@ && targets[2] == "module"@);
    lemma_first_text(fields, targets, set!["target"@, "logger"@, "module"@], target_at);
    let messages = message_keys();
    assert(messages[0] == "msg"@ && messages[1] == "message"@);
    lemma_first_text(fields, messages, set!["msg"@, "message"@], message_at);
    let text = match text_at(fields, message_at) {
        Some(text) => text,
        None => Seq::empty(),
    };
    let extras = extra_fields(fields);
    let parts = logfmt_parts(text, extras);
    reveal_with_fuel(message_text, 3);
    if text.len() > 0 {
        let one = seq![PartSpec::Text(text)];
        assert(one.drop_last() =~= Seq::empty());
        assert(message_text(one) =~= text);
        if extras.len() > 0 {
            assert(parts =~= seq![PartSpec::Text(text), PartSpec::Fields(extras)]);
            assert(parts.drop_last() =~= one);
        } else {
            assert(parts =~= one);
        }
    } else if extras.len() > 0 {
        assert(parts =~= seq![PartSpec::Fields(extras)]);
        assert(parts.drop_last() =~= Seq::empty());
        assert(message_text(parts) =~= seq!['('] + fields_text(extras) + seq![')']);
    } else {
        assert(parts =~= Seq::empty());
        assert(text =~= Seq::empty());
    }
}

proof fn lemma_lines_end_in_ink(
    keys: Seq<Seq<char>>,
    written: Seq<Seq<char>>,
    values: Seq<ValueSpec>,
)
    requires
        keys.len() == written.len() == values.len() > 0,
        forall|i: int| 0 <= i < keys.len() ==> is_written(#[trigger] written[i], values[i]),
    ensures
        logfmt_line(keys, written).len() > 0,
        !is_white(logfmt_line(keys, written).last()),
    decreases keys.len(),
{
    let line = logfmt_line(keys, written);
    if keys.len() == 1 {
        assert(is_written(written[0], values[0]));
        if written[0].len() > 0 {
            let last = written[0].len() - 1;
            assert(line.last() == written[0][last]);
        } else {
            assert(line.last() == '=');
        }
    } else {
        let (k, w, v) = (keys.drop_first(), written.drop_first(), values.drop_first());
        assert forall|i: int| 0 <= i < k.len() implies is_written(#[trigger] w[i], v[i]) by {
            assert(is_written(written[i + 1], values[i + 1]));
        }
        lemma_lines_end_in_ink(k, w, v);
        assert(line.last() == logfmt_line(k, w).last());
    }
}

/// Inside of quotes a backslash and a letter stand for a line feed, a carriage return or
/// a tab, and a backslash and any other character for that character.
pub proof fn law_escapes_stand_for_characters(s: Seq<char>, i: int)
    requires
        0 <= i,
        i + 1 < s.len(),
        s[i] == '\\',
    ensures
        ({
            let c = if s[i + 1] == 'n' {
                '\n'
            } else if s[i + 1] == 'r' {
                '\r'
            } else if s[i + 1] == 't' {
                '\t'
            } else {
                s[i + 1]
            };
            quoted_rest(s, i, false) == match quoted_rest(s, i + 2, false) {
                Some((rest, end)) => Some((seq![c] + rest, end)),
                None => None,
            }
        }),
{
    reveal_with_fuel(quoted_rest, 3);
}

/// A level that is written into a line is read back from it: the first field with
/// the key `level` or `lvl` names it, in upper or in lower case.
pub proof fn law_written_levels_are_read_back(
    keys: Seq<Seq<char>>,
    written: Seq<Seq<char>>,
    values: Seq<ValueSpec>,
    at: int,
    level: Level,
    stream: Stream,
)
    requires
        keys.len() == written.len() == values.len(),
        forall|i: int| 0 <= i < keys.len() ==> is_key(#[trigger] keys[i]),
        forall|i: int| 0 <= i < keys.len() ==> is_written(#[trigger] written[i], values[i]),
        0 <= at < keys.len(),
        keys[at] == "level"@ || keys[at] == "lvl"@,
        forall|i: int| 0 <= i < at ==> #[trigger] keys[i] != "level"@ && keys[i] != "lvl"@,
        level != Level::Unknown,
        core_text(values[at]) == level.name() || core_text(values[at]) == lowered(level.name()),
    ensures
        logfmt_entry(logfmt_line(keys, written), stream) is Some,
        logfmt_entry(logfmt_line(keys, written), stream).unwrap().level == level,
{
    let line = logfmt_line(keys, written);
    let fields = Seq::new(keys.len(), |i: int| FieldSpec { key: keys[i], value: values[i] });
    law_logfmt_lines_are_read_back(keys, written, values);
    lemma_lines_end_in_ink(keys, written, values);
    assert(trimmed_end(line) == line);
    law_level_names_are_read_back(level);
    let names = set!["level"@, "lvl"@];
    let levels = level_keys();
    assert(levels[0] == "level"@ && levels[1] == "lvl"@);
    assert forall|j: int| 0 <= j < at implies !names.contains((#[trigger] fields[j]).key) by {
        assert(keys[j] != "level"@ && keys[j] != "lvl"@);
    }
    lemma_first_text(fields, levels, names, at);
}

/// A line with a word that no value follows is not made of fields: in front of the
/// next equals sign stand only the characters of a key.
pub proof fn law_words_without_values_are_refused(word: Seq<char>, rest: Seq<char>)
    requires
        is_word(word),
        !word.contains('='),
        rest.len() == 0 || is_white(rest[0]) || word.contains('"'),
    ensures
        logfmt_fields(word + rest) is None,
{
    let s = word + rest;
    assert(!is_white(word[0]));
    assert(s[0] == word[0]);
    assert(trimmed_start(s) == s);
    lemma_position_of(s, '=');
    if let Some(end) = position_of(s, '=') {
        assert(end >= word.len()) by {
            if end < word.len() {
                assert(word[end] == '=');
            }
        }
        if word.contains('"') {
            let i = choose|i: int| 0 <= i < word.len() && word[i] == '"';
            assert(s[i] == '"');
        } else {
            assert(s[word.len() as int] == rest[0]);
            assert(rest[0] != '=');
            assert(is_white(s[word.len() as int]));
        }
    }
}

/// A line is read field by field: what follows a field and white space is read as if
/// it stood alone, and is refused as if it stood alone.
pub proof fn law_fields_are_read_one_by_one(
    key: Seq<char>,
    written: Seq<char>,
    value: ValueSpec,
    gap: Seq<char>,
    rest: Seq<char>,
)
    requires
        is_key(key),
        is_written(written, value),
        gap.len() > 0,
        all_white(gap),
    ensures
        logfmt_fields(key + seq!['='] + (written + (gap + rest))) == match logfmt_fields(rest) {
            Some(fields) => Some(seq![FieldSpec { key, value }] + fields),
            None => None,
        },
{
    let after = gap + rest;
    let line = key + seq!['='] + (written + after);
    assert(is_white(gap[0]));
    assert(after[0] == gap[0]);
    assert(line[0] == key[0]);
    assert(trimmed_start(line) == line);
    lemma_position_behind(key, '=', written + after);
    assert forall|i: int| 0 <= i < key.len() implies !(is_white(#[trigger] line[i]) || line[i]
        == '"') by {
        assert(line[i] == key[i]);
        assert(key.contains(key[i]));
    }
    let end = key.len() as int;
    assert(key_end(line) == Some(end));
    assert(line.take(end) =~= key);
    assert(line.skip(end + 1) =~= written + after);
    lemma_written_value_is_read_back(written, value, after);
    assert((written + after).skip(written.len() as int) =~= after);
    lemma_trimmed_start_passes(gap, rest);
    assert(logfmt_fields(after) == logfmt_fields(rest));
}

/// A line without a key in front of its first equals sign, or with a quote that is
/// not closed, is refused.
pub proof fn law_broken_fields_are_refused(key: Seq<char>, text: Seq<char>)
    requires
        is_key(key),
        !text.contains('"'),
        !text.contains('\\'),
    ensures
        logfmt_fields(seq!['='] + text) is None,
        logfmt_fields(key + seq!['=', '"'] + text) is None,
{
    let bare = seq!['='] + text;
    assert(trimmed_start(bare) == bare);
    lemma_position_behind(Seq::empty(), '=', text);
    assert(Seq::empty() + seq!['='] + text =~= bare);
    let line = key + seq!['=', '"'] + text;
    let value = seq!['"'] + text;
    assert(line =~= key + seq!['='] + value);
    assert(line[0] == key[0]);
    assert(trimmed_start(line) == line);
    lemma_position_behind(key, '=', value);
    assert(line.skip(key.len() as int + 1) =~= value);
    lemma_quote_stays_open(value, 1);
}

proof fn lemma_quote_stays_open(s: Seq<char>, i: int)
    requires
        0 <= i <= s.len(),
        forall|j: int| i <= j < s.len() ==> #[trigger] s[j] != '"' && s[j] != '\\',
    ensures
        quoted_rest(s, i, false) is None,
    decreases s.len() - i,
{
    if i < s.len() {
        assert(s[i] != '"' && s[i] != '\\');
        lemma_quote_stays_open(s, i + 1);
    }
}

/// Tells whether `key` is among `names`.
fn is_one_of(key: &str, names: &[&str]) -> (r: bool)
    ensures
        r == strs(names@).contains(key@),
{
    let mut i: usize = 0;
    while i < names.len()
        invariant
            i <= names@.len(),
            forall|j: int| 0 <= j < i ==> strs(names@)[j] != key@,
        decreases names@.len() - i,
    {
        if same_text(key, names[i]) {
            assert(strs(names@)[i as int] == key@);
            return true;
        }
        i = i + 1;
    }
    false
}

/// The text of a core field.
pub fn logfmt_core_text(value: &TraceValue) -> (r: String)
    ensures
        r@ == core_text(value@),
{
    match value {
        TraceValue::String(text) => copy_str(text.as_str()),
        _ => value.render_text(),
    }
}

/// The text of the first of `fields` whose key is among `names`.
fn find_text(fields: &Vec<TraceValueField>, names: &[&str]) -> (r: Option<String>)
    ensures
        text_of(r) == first_text(fields_view(fields@), strs(names@)),
{
    let ghost all = fields_view(fields@);
    let mut i: usize = 0;
    assert(all.skip(0) =~= all);
    while i < fields.len()
        invariant
            i <= fields@.len(),
            all == fields_view(fields@),
            first_field(all, strs(names@)) == first_field(all.skip(i as int), strs(names@)),
        decreases fields@.len() - i,
    {
        assert(all.skip(i as int)[0] == fields@[i as int]@);
        assert(all.skip(i as int).drop_first() =~= all.skip(i + 1));
        if is_one_of(fields[i].key.as_str(), names) {
            return Some(logfmt_core_text(&fields[i].value));
        }
        i = i + 1;
    }
    None
}

/// The fields whose key is not among the core keys.
fn keep_extra_fields(fields: &Vec<TraceValueField>) -> (r: Vec<TraceValueField>)
    ensures
        fields_view(r@) == extra_fields(fields_view(fields@)),
{
    let ghost all = fields_view(fields@);
    let names: [&str; 10] = [
        "level",
        "lvl",
        "msg",
        "message",
        "time",
        "timestamp",
        "ts",
        "target",
        "logger",
        "module",
    ];
    assert(strs(names@) =~= core_keys());
    let mut out: Vec<TraceValueField> = Vec::new();
    let mut i: usize = 0;
    assert(fields_view(out@) =~= extra_fields(all.take(0)));
    while i < fields.len()
        invariant
            i <= fields@.len(),
            all == fields_view(fields@),
            strs(names@) == core_keys(),
            fields_view(out@) == extra_fields(all.take(i as int)),
        decreases fields@.len() - i,
    {
        let ghost before = fields_view(out@);
        assert(all.take(i + 1).drop_last() =~= all.take(i as int));
        assert(all.take(i + 1).last() == fields@[i as int]@);
        if !is_one_of(fields[i].key.as_str(), names.as_slice()) {
            let field = fields[i].clone();
            out.push(field);
            assert(fields_view(out@) =~= before.push(fields@[i as int]@));
        }
        i = i + 1;
    }
    assert(all.take(i as int) =~= all);
    out
}

/// Reads a line as `logfmt`.
pub fn parse_logfmt(raw: &str, stream: Stream) -> (r: Option<LogEntry>)
    ensures
        entry_view(r) == logfmt_entry(raw@, stream),
{
    let chars = chars_of(raw);
    let raw = trim_end(chars.as_slice());
    let fields = match parse_logfmt_fields(raw) {
        Some(fields) => fields,
        None => {
            return None;
        },
    };
    if fields.len() == 0 {
        return None;
    }
    Some(entry_from_fields(raw, &fields, stream))
}

/// The entry that the fields of a line make up.
pub fn entry_from_fields(
    raw: &[char],
    fields: &Vec<TraceValueField>,
    stream: Stream,
) -> (r: LogEntry)
    ensures
        r@ == fields_entry(raw@, fields_view(fields@), stream),
{
    let ghost all = fields_view(fields@);
    let level_names: [&str; 2] = ["level", "lvl"];
    let time_names: [&str; 3] = ["time", "timestamp", "ts"];
    let target_names: [&str; 3] = ["target", "logger", "module"];
    let message_names: [&str; 2] = ["msg", "message"];
    proof {
        assert(strs(level_names@) =~= level_keys());
        assert(strs(time_names@) =~= time_keys());
        assert(strs(target_names@) =~= target_keys());
        assert(strs(message_names@) =~= message_keys());
    }
    let level = match find_text(fields, level_names.as_slice()) {
        Some(text) => {
            let word = chars_of(text.as_str());
            match parse_level(word.as_slice()) {
                Some(level) => level,
                None => Level::Unknown,
            }
        },
        None => Level::Unknown,
    };
    let timestamp = find_text(fields, time_names.as_slice());
    let target = find_text(fields, target_names.as_slice());
    let message = match find_text(fields, message_names.as_slice()) {
        Some(text) => text,
        None => String::new(),
    };
    let values = keep_extra_fields(fields);
    let ghost extra = fields_view(values@);
    let has_values = values.len() > 0;
    let mut parts: Vec<MessagePart> = Vec::new();
    if !message.as_str().is_empty() {
        parts.push(MessagePart::text(message.as_str()));
    }
    if has_values {
        parts.push(MessagePart::fields(clone_fields(&values)));
    }
    assert(parts_view(parts@) =~= logfmt_parts(message@, extra));
    let text = MessagePart::plain_text(parts.as_slice());
    let mut sections: Vec<TraceValueSection> = Vec::new();
    if has_values {
        sections.push(TraceValueSection::new("event", values));
    }
    let entry = LogEntry {
        raw: string_from(raw),
        timestamp,
        level,
        parsed: true,
        target,
        spans: Vec::new(),
        values: sections,
        message: text,
        message_parts: parts,
        stream,
    };
    proof {
        assert(texts(entry.spans@) =~= Seq::empty());
        assert(sections_view(entry.values@) =~= fields_entry(raw@, all, stream).values);
    }
    entry
}

/// Reads the fields that `input` is made of.
pub fn parse_logfmt_fields(input: &[char]) -> (r: Option<Vec<TraceValueField>>)
    ensures
        r matches Some(fields) ==> logfmt_fields(input@) == Some(fields_view(fields@)),
        r is None ==> logfmt_fields(input@) is None,
{
    let mut fields: Vec<TraceValueField> = Vec::new();
    let mut rest: &[char] = trim_start(input);
    proof {
        lemma_logfmt_fields_trimmed(input@);
        assert(fields_view(fields@) =~= Seq::empty());
        if let Some(tail) = logfmt_fields(rest@) {
            assert(Seq::<FieldSpec>::empty() + tail =~= tail);
        }
    }
    while rest.len() > 0
        invariant
            rest@ == trimmed_start(rest@),
            logfmt_fields(input@) == match logfmt_fields(rest@) {
                Some(tail) => Some(fields_view(fields@) + tail),
                None => None,
            },
        decreases rest@.len(),
    {
        let ghost before = fields_view(fields@);
        let ghost old_rest = rest@;
        let (key, after_key) = match take_logfmt_key(rest) {
            Some(pair) => pair,
            None => {
                return None;
            },
        };
        let ghost end = key_end(old_rest).unwrap();
        let after_eq = skip(after_key, 1);
        assert(after_eq@ =~= old_rest.skip(end + 1));
        let (value, tail) = match take_logfmt_value(after_eq) {
            Some(pair) => pair,
            None => {
                return None;
            },
        };
        let ghost len = value_at(after_eq@).unwrap().1;
        proof {
            lemma_value_at(after_eq@);
            lemma_logfmt_fields_trimmed(tail@);
            lemma_trimmed_start(tail@);
        }
        let key_text = string_from(key);
        let field = TraceValueField::new(
            key_text.as_str(),
            TraceValue::from_tracing_text(value.as_str()),
        );
        let ghost item = field@;
        fields.push(field);
        rest = trim_start(tail);
        proof {
            assert(fields_view(fields@) =~= before.push(item));
            if let Some(more) = logfmt_fields(rest@) {
                assert(before + (seq![item] + more) =~= fields_view(fields@) + more);
            }
        }
    }
    proof {
        assert(logfmt_fields(rest@) == Some(Seq::<FieldSpec>::empty()));
        assert(fields_view(fields@) + Seq::<FieldSpec>::empty() =~= fields_view(fields@));
    }
    Some(fields)
}

/// Leading white space does not change the fields of a text.
proof fn lemma_logfmt_fields_trimmed(s: Seq<char>)
    ensures
        logfmt_fields(s) == logfmt_fields(trimmed_start(s)),
        trimmed_start(trimmed_start(s)) == trimmed_start(s),
{
    crate::text::lemma_trimmed_start_idempotent(s);
}

/// Splits `input` behind the key that it starts with.
pub fn take_logfmt_key(input: &[char]) -> (r: Option<(&[char], &[char])>)
    ensures
        r is Some <==> key_end(input@) is Some,
        r matches Some((key, rest)) ==> {
            let end = key_end(input@).unwrap();
            &&& 0 < end < input@.len()
            &&& key@ == input@.take(end)
            &&& rest@ == input@.skip(end)
        },
{
    let end = match find_char(input, '=') {
        Some(end) => end,
        None => {
            return None;
        },
    };
    if end == 0 {
        return None;
    }
    let mut i: usize = 0;
    while i < end
        invariant
            i <= end < input@.len(),
            end > 0,
            position_of(input@, '=') == Some(end as int),
            forall|j: int| 0 <= j < i ==> !is_white(#[trigger] input@[j]) && input@[j] != '"',
        decreases end - i,
    {
        if is_whitespace(input[i]) || input[i] == '"' {
            return None;
        }
        i = i + 1;
    }
    Some((take(input, end), skip(input, end)))
}

/// Splits `input` behind the value that it starts with. A quoted value is given
/// as the text of a JSON string.
pub fn take_logfmt_value(input: &[char]) -> (r: Option<(String, &[char])>)
    ensures
        r is Some <==> value_at(input@) is Some,
        r matches Some((text, rest)) ==> {
            let (value, len) = value_at(input@).unwrap();
            &&& 0 <= len <= input@.len()
            &&& rest@ == input@.skip(len)
            &&& traced(text@) == value
            &&& input@.len() > 0 && input@[0] == '"' ==> text@ == json_quoted(value->Text_0)
            &&& !(input@.len() > 0 && input@[0] == '"') ==> text@ == input@.take(len)
        },
{
    if input.len() > 0 && input[0] == '"' {
        let mut value: Vec<char> = Vec::new();
        let mut escaped = false;
        let mut i: usize = 1;
        proof {
            if let Some((rest, end)) = quoted_rest(input@, 1, false) {
                assert(value@ + rest =~= rest);
            }
        }
        while i < input.len()
            invariant
                1 <= i <= input@.len(),
                quoted_rest(input@, 1, false) == match quoted_rest(input@, i as int, escaped) {
                    Some((rest, end)) => Some((value@ + rest, end)),
                    None => None,
                },
                input@[0] == '"',
            decreases input@.len() - i,
        {
            let c = input[i];
            let ghost before = value@;
            let ghost was_escaped = escaped;
            if escaped {
                let plain = match c {
                    'n' => '\n',
                    'r' => '\r',
                    't' => '\t',
                    other => other,
                };
                value.push(plain);
                escaped = false;
            } else if c == '\\' {
                escaped = true;
            } else if c == '"' {
                assert(value@ + Seq::<char>::empty() =~= value@);
                let text = string_from(value.as_slice());
                let quoted = quote_json(text.as_str());
                return Some((quoted, skip(input, i + 1)));
            } else {
                value.push(c);
            }
            i = i + 1;
            proof {
                if let Some((rest, end)) = quoted_rest(input@, i as int, escaped) {
                    if was_escaped || c != '\\' {
                        let ch = value@.last();
                        assert(before + (seq![ch] + rest) =~= value@ + rest);
                    }
                }
            }
        }
        return None;
    }
    let end = find_whitespace(input);
    Some((string_from(take(input, end)), skip(input, end)))
}

} // verus!
