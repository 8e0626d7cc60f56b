//! The default text output of `tracing`.

use vstd::prelude::*;

use crate::model::{
    clone_fields, entry_view, fields_view, message_text, parts_view, sections_view, EntrySpec,
    FieldSpec, Level, LogEntry, MessagePart, PartSpec, SectionSpec, Stream, TraceValueField,
    TraceValueSection,
};
use crate::parser::env_logger::{env_logger_line, level_gap};
use crate::parser::fields::{
    law_no_fields_without_equals, message_fields, split_tracing_message_fields,
    MAX_TRACING_FIELD_PARSE_STEPS,
};
use crate::parser::level::{law_level_names_are_read_back, level_of, parse_level};
use crate::parser::spans::{
    bare_span_follows, has_no_separator, has_path, is_closed, law_target_and_message_are_told_apart,
    leading_spans, lemma_span_separator, span_sections, span_value_sections,
    split_tracing_target_message, target_and_message,
};
use crate::text::{
    all_white, chars_of, find_whitespace, is_white, is_word, lemma_trimmed_start_passes,
    lemma_white_position_behind, skip, string_from, take, text_of, trim_end, trim_start,
    trimmed_end, trimmed_start, white_position,
};

verus! {

/// The word that `s` starts with, and what follows the white space behind it.
/// There must be white space behind it.
pub open spec fn token(s: Seq<char>) -> Option<(Seq<char>, Seq<char>)> {
    let text = trimmed_start(s);
    let end = white_position(text);
    if end == text.len() {
        None
    } else {
        Some((text.take(end), trimmed_start(text.skip(end))))
    }
}

/// The parts of a message, and the fields among them.
pub open spec fn tracing_parts(message: Seq<char>) -> (Seq<PartSpec>, Seq<FieldSpec>) {
    match message_fields(message, 0, MAX_TRACING_FIELD_PARSE_STEPS as nat).0 {
        None => (seq![PartSpec::Text(message)], Seq::empty()),
        Some((text, fields)) => (
            (if text.len() == 0 {
                Seq::empty()
            } else {
                seq![PartSpec::Text(text)]
            }) + seq![PartSpec::Fields(fields)],
            fields,
        ),
    }
}

/// The section of the fields of a message, if it has any.
pub open spec fn event_section(fields: Seq<FieldSpec>) -> Seq<SectionSpec> {
    if fields.len() == 0 {
        Seq::empty()
    } else {
        seq![SectionSpec { title: "event"@, fields }]
    }
}

/// The entry of a line whose timestamp and level have been read.
pub open spec fn leveled_entry(
    raw: Seq<char>,
    timestamp: Option<Seq<char>>,
    level: Level,
    rest: Seq<char>,
) -> EntrySpec {
    let (target, spans, message) = target_and_message(rest);
    let (parts, fields) = tracing_parts(message);
    EntrySpec {
        raw,
        timestamp,
        level,
        parsed: true,
        target,
        spans,
        values: span_sections(spans) + event_section(fields),
        message: message_text(parts),
        message_parts: parts,
        stream: Stream::Stdout,
    }
}

/// The entry of a line: its first word names a level, or its second does and
/// the first is the timestamp.
pub open spec fn tracing_entry(line: Seq<char>) -> Option<EntrySpec> {
    let raw = trimmed_end(line);
    match token(raw) {
        None => None,
        Some((first, rest)) => match level_of(first) {
            Some(level) => Some(leveled_entry(raw, None, level, rest)),
            None => match token(rest) {
                None => None,
                Some((second, rest2)) => match level_of(second) {
                    Some(level) => Some(leveled_entry(raw, Some(first), level, rest2)),
                    None => None,
                },
            },
        },
    }
}

/// A line as `tracing` writes it by default, but for its spans.
pub open spec fn tracing_line(
    timestamp: Seq<char>,
    level: Level,
    target: Seq<char>,
    message: Seq<char>,
) -> Seq<char> {
    timestamp + (level_indent(level) + level.name() + seq![' ']) + (target + seq![':'] + (seq![' ']
        + message))
}

/// The space in front of the name of a level: one, and as many as fill the name up
/// to five characters.
pub open spec fn level_indent(level: Level) -> Seq<char> {
    if level.name().len() == 4 {
        seq![' ', ' ']
    } else {
        seq![' ']
    }
}

/// A word and white space are taken off the start of a text.
pub proof fn lemma_token(word: Seq<char>, gap: Seq<char>, rest: Seq<char>)
    requires
        is_word(word),
        gap.len() > 0,
        all_white(gap),
        rest.len() > 0,
        !is_white(rest[0]),
    ensures
        token(word + gap + rest) == Some((word, rest)),
{
    let s = word + gap + rest;
    assert(s =~= word + (gap + rest));
    assert(!is_white(word[0]));
    assert(is_white(gap[0]));
    assert(trimmed_start(s) == s);
    lemma_white_position_behind(word, gap + rest);
    assert(s.take(word.len() as int) =~= word);
    assert(s.skip(word.len() as int) =~= gap + rest);
    lemma_trimmed_start_passes(gap, rest);
    assert(trimmed_start(rest) == rest);
}

/// What `tracing` writes is read back: the timestamp, the level and the target are
/// what they were, and the spans and fields are those of the message.
pub proof fn law_tracing_lines_are_read_back(
    timestamp: Seq<char>,
    level: Level,
    target: Seq<char>,
    message: Seq<char>,
)
    requires
        is_word(timestamp),
        level_of(timestamp) is None,
        level != Level::Unknown,
        is_word(target),
        !target.contains('{'),
        is_closed(target),
        has_no_separator(target),
        message.len() > 0,
        !is_white(message[0]),
        !is_white(message.last()),
        has_path(target) || !bare_span_follows(message),
    ensures
        ({
            let line = tracing_line(timestamp, level, target, message);
            let (spans, rest) = leading_spans(message, false);
            let (parts, fields) = tracing_parts(rest);
            let entry = tracing_entry(line);
            &&& entry is Some
            &&& entry->0.raw == line
            &&& entry->0.timestamp == Some(timestamp)
            &&& entry->0.level == level
            &&& entry->0.parsed
            &&& entry->0.target == Some(target)
            &&& entry->0.spans == spans
            &&& entry->0.values == span_sections(spans) + event_section(fields)
            &&& entry->0.message_parts == parts
            &&& entry->0.message == message_text(parts)
        }),
{
    let line = tracing_line(timestamp, level, target, message);
    let name = level.name();
    let indent = level_indent(level);
    let tail = target + seq![':'] + (seq![' '] + message);
    let leveled = name + seq![' '] + tail;
    assert(line.last() == message.last());
    assert(trimmed_end(line) == line);
    assert(line =~= timestamp + indent + leveled);
    lemma_token(timestamp, indent, leveled);
    assert(tail[0] == target[0]);
    lemma_token(name, seq![' '], tail);
    law_level_names_are_read_back(level);
    law_target_and_message_are_told_apart(target, message);
}

/// A message without colons and equals signs is read back as it is.
pub proof fn law_plain_messages_are_read_back(
    timestamp: Seq<char>,
    level: Level,
    target: Seq<char>,
    message: Seq<char>,
)
    requires
        is_word(timestamp),
        level_of(timestamp) is None,
        level != Level::Unknown,
        is_word(target),
        !target.contains('{'),
        is_closed(target),
        has_no_separator(target),
        message.len() > 0,
        !is_white(message[0]),
        !is_white(message.last()),
        !message.contains(':'),
        !message.contains('='),
    ensures
        tracing_entry(tracing_line(timestamp, level, target, message)) is Some,
        tracing_entry(tracing_line(timestamp, level, target, message))->0.message == message,
        tracing_entry(tracing_line(timestamp, level, target, message))->0.spans.len() == 0,
        tracing_entry(tracing_line(timestamp, level, target, message))->0.values.len() == 0,
{
    lemma_span_separator(message, 0);
    law_no_fields_without_equals(message, 0, MAX_TRACING_FIELD_PARSE_STEPS as nat);
    law_tracing_lines_are_read_back(timestamp, level, target, message);
    let parts = seq![PartSpec::Text(message)];
    reveal_with_fuel(message_text, 2);
    assert(parts.drop_last() =~= Seq::empty());
    assert(message_text(parts) =~= message);
}

/// What `env_logger` writes could be a line of `tracing`, too.
pub proof fn lemma_env_logger_lines_read_as_tracing(
    timestamp: Seq<char>,
    level: Level,
    target: Seq<char>,
    message: Seq<char>,
)
    requires
        is_word(timestamp),
        level != Level::Unknown,
        is_word(target),
        message.len() > 0,
        !is_white(message.last()),
    ensures
        tracing_entry(env_logger_line(timestamp, level, target, message)) is Some,
{
    let line = env_logger_line(timestamp, level, target, message);
    let name = level.name();
    let gap = level_gap(level);
    let first = seq!['['] + timestamp;
    let tail = target + seq![']'] + (seq![' '] + message);
    let leveled = name + gap + tail;
    assert(line.last() == message.last());
    assert(trimmed_end(line) == line);
    assert(line =~= first + seq![' '] + leveled);
    assert forall|i: int| 0 <= i < first.len() implies !is_white(#[trigger] first[i]) by {
        if i > 0 {
            assert(first[i] == timestamp[i - 1]);
        }
    }
    lemma_token(first, seq![' '], leveled);
    assert(tail[0] == target[0]);
    lemma_token(name, gap, tail);
    law_level_names_are_read_back(level);
}

/// Splits `value` behind its first word.
pub fn take_token(value: &[char]) -> (r: Option<(&[char], &[char])>)
    ensures
        r is Some <==> token(value@) is Some,
        r matches Some((word, rest)) ==> token(value@) == Some((word@, rest@)),
{
    let text = trim_start(value);
    let end = find_whitespace(text);
    if end == text.len() {
        return None;
    }
    Some((take(text, end), trim_start(skip(text, end))))
}

/// The parts of a message, and the fields among them.
pub fn tracing_message_parts(message: &str) -> (r: (Vec<MessagePart>, Vec<TraceValueField>))
    ensures
        (parts_view(r.0@), fields_view(r.1@)) == tracing_parts(message@),
{
    let chars = chars_of(message);
    let mut parts: Vec<MessagePart> = Vec::new();
    match split_tracing_message_fields(chars.as_slice()) {
        None => {
            parts.push(MessagePart::text(message));
            let none: Vec<TraceValueField> = Vec::new();
            assert(parts_view(parts@) =~= seq![PartSpec::Text(message@)]);
            assert(fields_view(none@) =~= Seq::empty());
            (parts, none)
        },
        Some((text, values)) => {
            if !text.as_str().is_empty() {
                parts.push(MessagePart::text(text.as_str()));
            }
            parts.push(MessagePart::fields(clone_fields(&values)));
            assert(parts_view(parts@) =~= tracing_parts(message@).0);
            (parts, values)
        },
    }
}

/// Reads a line as `tracing` writes it.
pub fn parse_tracing(raw: &str) -> (r: Option<LogEntry>)
    ensures
        entry_view(r) == tracing_entry(raw@),
{
    let chars = chars_of(raw);
    let raw = trim_end(chars.as_slice());
    let (first, rest) = match take_token(raw) {
        Some(pair) => pair,
        None => {
            return None;
        },
    };
    if let Some(level) = parse_level(first) {
        return Some(entry_behind_level(raw, None, level, rest));
    }
    let (second, rest2) = match take_token(rest) {
        Some(pair) => pair,
        None => {
            return None;
        },
    };
    match parse_level(second) {
        Some(level) => Some(entry_behind_level(raw, Some(string_from(first)), level, rest2)),
        None => None,
    }
}

/// The entry of a line whose timestamp and level have been read.
fn entry_behind_level(
    raw: &[char],
    timestamp: Option<String>,
    level: Level,
    rest: &[char],
) -> (r: LogEntry)
    ensures
        r@ == leveled_entry(raw@, text_of(timestamp), level, rest@),
{
    let (target, spans, message) = split_tracing_target_message(rest);
    let mut values = span_value_sections(spans.as_slice());
    let (parts, message_values) = tracing_message_parts(message.as_str());
    let ghost before = sections_view(values@);
    if message_values.len() > 0 {
        let section = TraceValueSection::new("event", message_values);
        let ghost item = section@;
        values.push(section);
        assert(sections_view(values@) =~= before + seq![item]);
    } else {
        assert(sections_view(values@) =~= before + Seq::<SectionSpec>::empty());
    }
    let text = MessagePart::plain_text(parts.as_slice());
    LogEntry {
        raw: string_from(raw),
        timestamp,
        level,
        parsed: true,
        target,
        spans,
        values,
        message: text,
        message_parts: parts,
        stream: Stream::Stdout,
    }
}

} // verus!
