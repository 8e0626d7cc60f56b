//! Spans as they are written in front of a target and a message, and how they are read
//! back.

use vstd::prelude::*;

use crate::model::{message_text, Level, PartSpec, SectionSpec, Stream};
use crate::parser::level::{law_level_names_are_read_back, level_of};
use crate::parser::nesting::law_pieces_end_at_separators;
use crate::parser::spans::{
    all_segment_fields, bare_span_follows, brace_depth, has_no_separator, has_path, is_closed,
    is_name, is_span, law_spans_with_fields_are_taken, leading_spans, lemma_separators_behind,
    lemma_span_separator, span_follows, span_section, span_sections, target_and_message,
    target_separator,
};
use crate::parser::tracing::{lemma_token, level_indent, tracing_entry, tracing_parts};
use crate::parser::written::{
    fields_of, is_bare_value, is_flat, is_flat_char, is_written_key,
    law_messages_with_fields_are_read_back, law_written_fields_are_read_back, lemma_written_fields,
    steps_for, white_count, written_fields,
};
use crate::text::{
    all_white, is_white, is_word, lemma_position_behind, lemma_position_of, lemma_trimmed_end,
    lemma_trimmed_start, lemma_trimmed_start_passes, lemma_white_position, trimmed, trimmed_end,
    trimmed_start, white_position,
};

verus! {

/// The name of a span: letters, digits, underscores and dashes.
pub open spec fn is_span_name(name: Seq<char>) -> bool {
    &&& name.len() > 0
    &&& forall|i: int|
        0 <= i < name.len() ==> {
            let c = #[trigger] name[i];
            'a' <= c <= 'z' || 'A' <= c <= 'Z' || '0' <= c <= '9' || c == '_' || c == '-'
        }
}

/// A target: a word without braces in which colons stand in pairs, and not at its end.
pub open spec fn is_path(target: Seq<char>) -> bool {
    &&& is_word(target)
    &&& !target.contains('{')
    &&& !target.contains('}')
    &&& target.last() != ':'
    &&& forall|i: int|
        0 <= i < target.len() && #[trigger] target[i] == ':' ==> (i > 0 && target[i - 1] == ':')
            || (i + 1 < target.len() && target[i + 1] == ':')
}

/// A span with fields as it is written.
pub open spec fn written_span(
    name: Seq<char>,
    keys: Seq<Seq<char>>,
    values: Seq<Seq<char>>,
) -> Seq<char> {
    name + seq!['{'] + (written_fields(keys, values) + seq!['}'])
}

proof fn lemma_no_braces(s: Seq<char>, i: int)
    requires
        !s.contains('{'),
        0 <= i <= s.len(),
    ensures
        brace_depth(s, i) == 0,
    decreases i,
{
    if i > 0 {
        lemma_no_braces(s, i - 1);
        assert(s.contains(s[i - 1]));
    }
}

/// A span with fields is a section with its name and its fields, however many they
/// are, as long as the steps of a reader suffice for them.
pub proof fn law_span_fields_are_read_back(
    name: Seq<char>,
    keys: Seq<Seq<char>>,
    values: Seq<Seq<char>>,
)
    requires
        is_span_name(name),
        keys.len() == values.len() > 0,
        forall|i: int| 0 <= i < keys.len() ==> is_written_key(#[trigger] keys[i]),
        forall|i: int| 0 <= i < values.len() ==> is_bare_value(#[trigger] values[i]),
        !written_fields(keys, values).contains(','),
        steps_for(keys.len()) <= 1024,
    ensures
        span_section(written_span(name, keys, values)) == Some(
            SectionSpec { title: "scope: "@ + name, fields: fields_of(keys, values) },
        ),
{
    let span = written_span(name, keys, values);
    let line = written_fields(keys, values);
    let open = name.len() as int;
    lemma_written_fields(keys, values);
    assert(!name.contains('{'));
    lemma_position_behind(name, '{', line + seq!['}']);
    assert(span.take(open) =~= name);
    assert(span.subrange(open + 1, span.len() - 1) =~= line);
    assert(span.last() == '}');
    assert forall|i: int| 0 <= i < line.len() implies {
        let c = #[trigger] line[i];
        c != '"' && c != '{' && c != '[' && c != '(' && c != '}' && c != ']' && c != ')'
    } by {
        assert(is_flat_char(line[i]));
    }
    law_pieces_end_at_separators(line, ',', Seq::empty());
    assert(trimmed_start(line) == line);
    assert(trimmed_end(line) == line);
    law_written_fields_are_read_back(keys, values, 1024);
    let segments = seq![line];
    reveal_with_fuel(all_segment_fields, 2);
    assert(segments.drop_last() =~= Seq::empty());
    assert(all_segment_fields(segments) =~= fields_of(keys, values));
    assert(!is_white(name[0]));
    assert(!is_white(name.last()));
    assert(trimmed_start(name) == name);
    assert(trimmed_end(name) == name);
}

proof fn lemma_no_spans(s: Seq<char>, has_span_prefix: bool)
    requires
        !s.contains(':'),
    ensures
        leading_spans(s, has_span_prefix) == (Seq::<Seq<char>>::empty(), s),
        !span_follows(s),
        !bare_span_follows(s),
{
    lemma_span_separator(s, 0);
}

/// Behind the spans of a line stand its target and its message.
proof fn lemma_target_behind_spans(target: Seq<char>, message: Seq<char>)
    requires
        is_path(target),
        message.len() > 0,
        !is_white(message[0]),
        !message.contains(':'),
    ensures
        ({
            let s = target + seq![':'] + (seq![' '] + message);
            &&& leading_spans(s, true) == (Seq::<Seq<char>>::empty(), s)
            &&& leading_spans(s, false) == (Seq::<Seq<char>>::empty(), s)
            &&& target_separator(s, 0) == Some(target.len() as int)
            &&& trimmed(s.take(target.len() as int)) == target
            &&& trimmed_start(s.skip(target.len() as int + 1)) == message
        }),
{
    let behind = seq![' '] + message;
    let s = target + seq![':'] + behind;
    lemma_no_braces(target, target.len() as int);
    lemma_separators_behind(target, behind, 0);
    assert(s.take(target.len() as int) =~= target);
    assert(s.skip(target.len() as int + 1) =~= behind);
    lemma_trimmed_start_passes(seq![' '], message);
    assert(trimmed_start(message) == message);
    assert(!is_white(target[0]) && !is_white(target.last()));
    assert(trimmed_start(target) == target);
    assert(trimmed_end(target) == target);
    lemma_no_spans(message, true);
}

/// Any white space behind a colon ends a target.
pub proof fn law_white_space_ends_a_target(target: Seq<char>, white: char, message: Seq<char>)
    requires
        is_path(target),
        is_white(white),
        message.len() > 0,
        !is_white(message[0]),
        !message.contains(':'),
    ensures
        target_and_message(target + seq![':'] + (seq![white] + message)) == (
            Some(target),
            Seq::<Seq<char>>::empty(),
            message,
        ),
{
    let behind = seq![white] + message;
    let s = target + seq![':'] + behind;
    lemma_no_braces(target, target.len() as int);
    lemma_separators_behind(target, behind, 0);
    assert(s.take(target.len() as int) =~= target);
    assert(s.skip(target.len() as int + 1) =~= behind);
    lemma_trimmed_start_passes(seq![white], message);
    assert(trimmed_start(message) == message);
    assert(!is_white(target[0]) && !is_white(target.last()));
    assert(trimmed_start(target) == target);
    assert(trimmed_end(target) == target);
    lemma_no_spans(message, true);
    lemma_no_spans(message, false);
    assert(Seq::<Seq<char>>::empty() + Seq::<Seq<char>>::empty() =~= Seq::empty());
}

/// A bare name in front of a name with a colon is a span, and that name is the target.
pub proof fn law_names_in_front_of_a_target_are_spans(
    name: Seq<char>,
    target: Seq<char>,
    message: Seq<char>,
)
    requires
        is_span_name(name),
        is_span_name(target),
        message.len() > 0,
        !is_white(message[0]),
        !message.contains(':'),
    ensures
        target_and_message(
            name + seq![':'] + (seq![' '] + (target + seq![':'] + (seq![' '] + message))),
        ) == (Some(target), seq![name], message),
{
    let rest = target + seq![':'] + (seq![' '] + message);
    let behind = seq![' '] + rest;
    let s = name + seq![':'] + behind;
    assert(is_path(target)) by {
        assert(!is_white(target.last()));
        assert forall|i: int| 0 <= i < target.len() implies !is_white(#[trigger] target[i])
            && target[i] != ':' && target[i] != '{' && target[i] != '}' by {}
    }
    lemma_target_behind_spans(target, message);
    lemma_no_braces(target, target.len() as int);
    lemma_separators_behind(target, seq![' '] + message, 0);
    assert(!name.contains('{') && !name.contains(':'));
    lemma_no_braces(name, name.len() as int);
    assert(!is_white(name[0]) && !is_white(name.last()));
    assert(name.last() != ':');
    lemma_separators_behind(name, behind, 0);
    assert(s.take(name.len() as int) =~= name);
    assert(s.skip(name.len() as int + 1) =~= behind);
    assert(rest[0] == target[0]);
    assert(!is_white(target[0]));
    assert(trimmed_start(rest) == rest);
    lemma_trimmed_start_passes(seq![' '], rest);
    assert(trimmed_start(name) == name);
    assert(trimmed_end(name) == name);
    assert(trimmed_start(target) == target);
    assert(trimmed_end(target) == target);
    lemma_position_of(name, '{');
    lemma_position_of(target, '{');
    assert(!has_path(name)) by {
        assert forall|i: int| 0 <= i < name.len() - 1 implies #[trigger] name[i] != ':' by {
            assert(name.contains(name[i]));
        }
    }
    assert(!has_path(target)) by {
        assert forall|i: int| 0 <= i < target.len() - 1 implies #[trigger] target[i] != ':' by {}
    }
    assert(is_name(name));
    assert(is_name(target));
    assert(bare_span_follows(rest));
    assert(leading_spans(s, false) == (seq![name] + leading_spans(rest, true).0, rest));
    assert(seq![name] + Seq::<Seq<char>>::empty() =~= seq![name]);
    lemma_no_spans(message, false);
}

/// A bare name is a span where another name or span and a colon follow, and not
/// where no colon follows. What follows is read as if it stood behind a span.
pub proof fn law_bare_names_need_a_colon_behind_them(
    name: Seq<char>,
    next: Seq<char>,
    rest: Seq<char>,
    has_span_prefix: bool,
)
    requires
        is_span_name(name),
        is_span_name(next),
        rest.len() > 0,
        rest[0] != ':',
    ensures
        ({
            let tail = next + seq![':'] + rest;
            let s = name + seq![':'] + (seq![' '] + tail);
            let (spans, message) = leading_spans(tail, true);
            leading_spans(s, has_span_prefix) == (seq![name] + spans, message)
        }),
        !rest.contains(':') ==> leading_spans(
            name + seq![':'] + rest,
            has_span_prefix,
        ) == (Seq::<Seq<char>>::empty(), name + seq![':'] + rest),
{
    let tail = next + seq![':'] + rest;
    let behind = seq![' '] + tail;
    let s = name + seq![':'] + behind;
    lemma_bare_name(name);
    lemma_bare_name(next);
    lemma_separators_behind(next, rest, 0);
    lemma_separators_behind(name, behind, 0);
    assert(tail.take(next.len() as int) =~= next);
    assert(s.take(name.len() as int) =~= name);
    assert(s.skip(name.len() as int + 1) =~= behind);
    assert(tail[0] == next[0]);
    assert(trimmed_start(tail) == tail);
    lemma_trimmed_start_passes(seq![' '], tail);
    assert(bare_span_follows(tail));
    assert(span_follows(tail));
    if !rest.contains(':') {
        let t = name + seq![':'] + rest;
        let after = trimmed_start(rest);
        lemma_separators_behind(name, rest, 0);
        assert(t.take(name.len() as int) =~= name);
        assert(t.skip(name.len() as int + 1) =~= rest);
        lemma_trimmed_start(rest);
        assert(!after.contains(':')) by {
            assert forall|i: int| 0 <= i < after.len() implies after[i] != ':' by {
                assert(after[i] == rest[i + rest.len() - after.len()]);
            }
        }
        lemma_no_spans(after, has_span_prefix);
    }
}

proof fn lemma_bare_name(name: Seq<char>)
    requires
        is_span_name(name),
    ensures
        is_name(name),
        is_span(name),
        !has_path(name),
        !name.contains('{'),
        !name.contains(':'),
        is_closed(name),
        has_no_separator(name),
        !is_white(name[0]),
        trimmed_start(name) == name,
        trimmed_end(name) == name,
{
    assert(!name.contains('{') && !name.contains(':'));
    lemma_no_braces(name, name.len() as int);
    lemma_position_of(name, '{');
    assert(!is_white(name[0]) && !is_white(name.last()));
    assert(name.last() != ':');
    assert forall|i: int| 0 <= i < name.len() implies #[trigger] name[i] != ':' by {
        assert(name.contains(name[i]));
    }
}

/// A span with fields in front of a target and a message is told apart from them.
pub proof fn law_spans_in_front_of_a_target_are_read_back(
    name: Seq<char>,
    keys: Seq<Seq<char>>,
    values: Seq<Seq<char>>,
    target: Seq<char>,
    message: Seq<char>,
)
    requires
        is_span_name(name),
        keys.len() == values.len() > 0,
        forall|i: int| 0 <= i < keys.len() ==> is_written_key(#[trigger] keys[i]),
        forall|i: int| 0 <= i < values.len() ==> is_bare_value(#[trigger] values[i]),
        !written_fields(keys, values).contains(':'),
        is_path(target),
        message.len() > 0,
        !is_white(message[0]),
        !message.contains(':'),
    ensures
        target_and_message(
            written_span(name, keys, values) + seq![':'] + (seq![' '] + (target + seq![':'] + (seq![
                ' ',
            ] + message))),
        ) == (Some(target), seq![written_span(name, keys, values)], message),
{
    let span = written_span(name, keys, values);
    let line = written_fields(keys, values);
    let rest = target + seq![':'] + (seq![' '] + message);
    let behind = seq![' '] + rest;
    let open = name.len() as int;
    lemma_written_fields(keys, values);
    assert(!name.contains('{'));
    lemma_position_behind(name, '{', line + seq!['}']);
    assert(span.take(open) =~= name);
    assert(is_name(name));
    assert(span.last() == '}');
    assert(is_span(span));
    assert(span[open] == '{');
    assert(span.contains('{'));
    assert forall|i: int| 0 <= i < span.len() implies #[trigger] span[i] != ':' by {
        if i < open {
            assert(span[i] == name[i]);
        } else if open < i < span.len() - 1 {
            assert(span[i] == line[i - open - 1]);
            assert(line.contains(line[i - open - 1]));
        }
    }
    assert(!has_path(span));
    lemma_span_is_closed(name, line);
    assert(span[0] == name[0]);
    assert(!is_white(name[0]));
    assert(has_no_separator(span));
    law_spans_with_fields_are_taken(span, behind, false);
    assert(rest[0] == target[0]);
    assert(!is_white(target[0]));
    assert(trimmed_start(rest) == rest);
    lemma_trimmed_start_passes(seq![' '], rest);
    lemma_target_behind_spans(target, message);
    assert(seq![span] + Seq::<Seq<char>>::empty() =~= seq![span]);
    lemma_no_spans(message, false);
}

proof fn lemma_span_is_closed(name: Seq<char>, inner: Seq<char>)
    requires
        is_span_name(name),
        is_flat(inner),
    ensures
        is_closed(name + seq!['{'] + (inner + seq!['}'])),
{
    let span = name + seq!['{'] + (inner + seq!['}']);
    lemma_depth_in_span(name, inner, span.len() - 1);
    assert(span[span.len() - 1] == '}');
}

proof fn lemma_depth_in_span(name: Seq<char>, inner: Seq<char>, i: int)
    requires
        is_span_name(name),
        is_flat(inner),
        0 <= i <= name.len() + 1 + inner.len(),
    ensures
        brace_depth(name + seq!['{'] + (inner + seq!['}']), i) == if i <= name.len() {
            0nat
        } else {
            1nat
        },
    decreases i,
{
    let span = name + seq!['{'] + (inner + seq!['}']);
    if i > 0 {
        lemma_depth_in_span(name, inner, i - 1);
        if i <= name.len() {
            assert(span[i - 1] == name[i - 1]);
        } else if i > name.len() + 1 {
            assert(span[i - 1] == inner[i - 1 - name.len() - 1]);
            assert(is_flat_char(inner[i - 1 - name.len() - 1]));
        }
    }
}

/// A line is read by its first two words: the level is the first of them that names
/// one, and a word in front of it is the timestamp. What follows is told apart into
/// target, spans and message.
pub proof fn law_levels_stand_in_front(
    first: Seq<char>,
    gap: Seq<char>,
    second: Seq<char>,
    gap2: Seq<char>,
    rest: Seq<char>,
)
    requires
        is_word(first),
        is_word(second),
        gap.len() > 0,
        all_white(gap),
        gap2.len() > 0,
        all_white(gap2),
        rest.len() > 0,
        !is_white(rest[0]),
        !is_white(rest.last()),
    ensures
        ({
            let behind = second + gap2 + rest;
            let line = first + gap + behind;
            let entry = tracing_entry(line);
            let tail = if level_of(first) is Some {
                behind
            } else {
                rest
            };
            let (target, spans, message) = target_and_message(tail);
            let (parts, fields) = tracing_parts(message);
            &&& entry is Some <==> level_of(first) is Some || level_of(second) is Some
            &&& entry matches Some(found) ==> {
                &&& found.raw == line
                &&& found.parsed
                &&& found.stream == Stream::Stdout
                &&& level_of(first) matches Some(level) ==> found.level == level
                    && found.timestamp is None
                &&& level_of(first) is None ==> level_of(second) == Some(found.level)
                    && found.timestamp == Some(first)
                &&& found.target == target
                &&& found.spans == spans
                &&& found.values == span_sections(spans) + (if fields.len() == 0 {
                    Seq::empty()
                } else {
                    seq![SectionSpec { title: "event"@, fields }]
                })
                &&& found.message == message_text(parts)
                &&& found.message_parts == parts
            }
        }),
{
    let behind = second + gap2 + rest;
    let line = first + gap + behind;
    assert(line.last() == rest.last());
    assert(trimmed_end(line) == line);
    assert(behind[0] == second[0]);
    assert(!is_white(second[0]));
    lemma_token(first, gap, behind);
    lemma_token(second, gap2, rest);
}

/// A line whose first word names a level is read without a timestamp, whatever follows
/// that word. A line of two words of which the first names none is refused.
pub proof fn law_lines_may_lack_a_timestamp(word: Seq<char>, gap: Seq<char>, rest: Seq<char>)
    requires
        is_word(word),
        gap.len() > 0,
        all_white(gap),
        rest.len() > 0,
        !is_white(rest[0]),
        !is_white(rest.last()),
    ensures
        ({
            let entry = tracing_entry(word + gap + rest);
            let (target, spans, message) = target_and_message(rest);
            &&& level_of(word) matches Some(level) ==> {
                &&& entry is Some
                &&& entry->0.level == level
                &&& entry->0.timestamp is None
                &&& entry->0.target == target
                &&& entry->0.spans == spans
                &&& entry->0.message_parts == tracing_parts(message).0
            }
            &&& level_of(word) is None && is_word(rest) ==> entry is None
        }),
{
    let line = word + gap + rest;
    assert(line.last() == rest.last());
    assert(trimmed_end(line) == line);
    lemma_token(word, gap, rest);
    if is_word(rest) {
        assert(trimmed_start(rest) == rest);
        lemma_white_position(rest);
        let end = white_position(rest);
        if end < rest.len() {
            assert(!is_white(rest[end]));
        }
    }
}

/// A line of a single word is refused.
pub proof fn law_single_words_are_refused(word: Seq<char>, gap: Seq<char>)
    requires
        is_word(word),
        all_white(gap),
    ensures
        tracing_entry(word + gap) is None,
{
    let line = word + gap;
    let raw = trimmed_end(line);
    lemma_trimmed_end(line);
    assert(!is_white(word.last()));
    assert(line[word.len() - 1] == word.last());
    assert(raw.len() >= word.len());
    if raw.len() > word.len() {
        let k = raw.len() - word.len() - 1;
        assert(raw.last() == line[raw.len() - 1]);
        assert(line[raw.len() - 1] == gap[k]);
        assert(is_white(gap[k]));
    }
    assert(raw =~= word);
    assert(!is_white(word[0]));
    assert(trimmed_start(raw) == raw);
    lemma_white_position(raw);
    let end = white_position(raw);
    if end < raw.len() {
        assert(!is_white(word[end]));
    }
}

/// A message with fields behind its text is shown as both, and its fields are the
/// values of the event.
pub proof fn law_event_fields_are_read_back(
    text: Seq<char>,
    keys: Seq<Seq<char>>,
    values: Seq<Seq<char>>,
)
    requires
        keys.len() == values.len() > 0,
        forall|i: int| 0 <= i < keys.len() ==> is_written_key(#[trigger] keys[i]),
        forall|i: int| 0 <= i < values.len() ==> is_bare_value(#[trigger] values[i]),
        text.len() > 0,
        !is_white(text.last()),
        !text.contains('='),
        1 + white_count(text) + steps_for(keys.len()) <= 1024,
    ensures
        tracing_parts(text + seq![' '] + written_fields(keys, values)) == (
            seq![PartSpec::Text(text), PartSpec::Fields(fields_of(keys, values))],
            fields_of(keys, values),
        ),
{
    law_messages_with_fields_are_read_back(text, keys, values);
    assert(seq![PartSpec::Text(text)] + seq![PartSpec::Fields(fields_of(keys, values))] =~= seq![
        PartSpec::Text(text),
        PartSpec::Fields(fields_of(keys, values)),
    ]);
}

/// A line with a span, a target and a message with fields says all of them.
#[verifier::spinoff_prover]
#[verifier::rlimit(60)]
pub proof fn law_lines_with_spans_and_fields_are_read_back(
    timestamp: Seq<char>,
    level: Level,
    name: Seq<char>,
    span_keys: Seq<Seq<char>>,
    span_values: Seq<Seq<char>>,
    target: Seq<char>,
    text: Seq<char>,
    keys: Seq<Seq<char>>,
    values: Seq<Seq<char>>,
)
    requires
        is_word(timestamp),
        level_of(timestamp) is None,
        level != Level::Unknown,
        is_span_name(name),
        span_keys.len() == span_values.len() > 0,
        forall|i: int| 0 <= i < span_keys.len() ==> is_written_key(#[trigger] span_keys[i]),
        forall|i: int| 0 <= i < span_values.len() ==> is_bare_value(#[trigger] span_values[i]),
        !written_fields(span_keys, span_values).contains(':'),
        !written_fields(span_keys, span_values).contains(','),
        steps_for(span_keys.len()) <= 1024,
        is_path(target),
        text.len() > 0,
        !is_white(text[0]),
        !is_white(text.last()),
        !text.contains('='),
        !text.contains(':'),
        keys.len() == values.len() > 0,
        forall|i: int| 0 <= i < keys.len() ==> is_written_key(#[trigger] keys[i]),
        forall|i: int| 0 <= i < values.len() ==> is_bare_value(#[trigger] values[i]),
        !written_fields(keys, values).contains(':'),
        1 + white_count(text) + steps_for(keys.len()) <= 1024,
    ensures
        ({
            let span = written_span(name, span_keys, span_values);
            let message = text + seq![' '] + written_fields(keys, values);
            let line = timestamp + level_indent(level) + (level.name() + seq![' '] + (span + seq![
                ':',
            ] + (seq![' '] + (target + seq![':'] + (seq![' '] + message)))));
            let entry = tracing_entry(line);
            &&& entry is Some
            &&& entry->0.timestamp == Some(timestamp)
            &&& entry->0.level == level
            &&& entry->0.spans == seq![span]
            &&& entry->0.target == Some(target)
            &&& entry->0.values == seq![
                SectionSpec { title: "scope: "@ + name, fields: fields_of(span_keys, span_values) },
                SectionSpec { title: "event"@, fields: fields_of(keys, values) },
            ]
            &&& entry->0.message_parts == seq![
                PartSpec::Text(text),
                PartSpec::Fields(fields_of(keys, values)),
            ]
        }),
{
    let span = written_span(name, span_keys, span_values);
    let line = written_fields(keys, values);
    let message = text + seq![' '] + line;
    let rest = span + seq![':'] + (seq![' '] + (target + seq![':'] + (seq![' '] + message)));
    assert(!message.contains(':')) by {
        assert forall|i: int| 0 <= i < message.len() implies message[i] != ':' by {
            if i < text.len() {
                assert(text.contains(text[i]));
            } else if i > text.len() {
                assert(line.contains(line[i - text.len() - 1]));
            }
        }
    }
    assert(message[0] == text[0]);
    assert(!is_white(rest.last())) by {
        lemma_written_fields(keys, values);
        assert(rest.last() == line.last());
    }
    assert(rest.len() > 0 && !is_white(rest[0])) by {
        assert(rest[0] == name[0]);
        assert(!is_white(name[0]));
    }
    law_spans_in_front_of_a_target_are_read_back(name, span_keys, span_values, target, message);
    law_event_fields_are_read_back(text, keys, values);
    law_span_fields_are_read_back(name, span_keys, span_values);
    law_level_names_are_read_back(level);
    law_levels_stand_in_front(timestamp, level_indent(level), level.name(), seq![' '], rest);
    reveal_with_fuel(span_sections, 2);
    assert(seq![span].drop_last() =~= Seq::empty());
    let scope = SectionSpec {
        title: "scope: "@ + name,
        fields: fields_of(span_keys, span_values),
    };
    let event = SectionSpec { title: "event"@, fields: fields_of(keys, values) };
    assert(span_sections(seq![span]) =~= seq![scope]);
    assert(tracing_parts(message).1 == fields_of(keys, values));
    assert(seq![scope] + seq![event] =~= seq![scope, event]);
}

} // verus!
