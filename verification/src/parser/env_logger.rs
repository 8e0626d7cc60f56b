//! The default output of `env_logger`: a header in brackets, then the message.

use vstd::prelude::*;
use vstd::slice::slice_subrange;

use crate::model::{entry_view, parts_view, sections_view, EntrySpec, Level, LogEntry, Stream};
use crate::parser::level::{law_level_names_are_read_back, level_of, parse_level};
use crate::text::{
    chars_of, find_char, is_white, is_word, join_with_space, joined, lemma_first_word,
    lemma_position_behind, lemma_position_of, lemma_trimmed_end, lemma_trimmed_start_passes,
    position_of, skip, slices, split_whitespace, string_from, take, texts, trim_end, trim_start,
    trimmed_end, trimmed_start, words,
};

verus! {

/// The position of the first of `fields` that names a level.
pub open spec fn level_position(fields: Seq<Seq<char>>) -> Option<int>
    decreases fields.len(),
{
    if fields.len() == 0 {
        None
    } else if level_of(fields[0]) is Some {
        Some(0)
    } else {
        match level_position(fields.drop_first()) {
            Some(i) => Some(i + 1),
            None => None,
        }
    }
}

/// What the words of a header and a message say together: the words before the
/// first level are the timestamp, those behind it the target.
pub open spec fn header_entry(
    raw: Seq<char>,
    fields: Seq<Seq<char>>,
    message: Seq<char>,
) -> Option<EntrySpec> {
    if fields.len() < 2 {
        None
    } else {
        match level_position(fields) {
            None => None,
            Some(at) => Some(
                EntrySpec {
                    raw,
                    timestamp: if at > 0 {
                        Some(joined(fields.take(at), seq![' ']))
                    } else {
                        None
                    },
                    level: level_of(fields[at]).unwrap(),
                    parsed: true,
                    target: if fields.len() > at + 1 {
                        Some(joined(fields.skip(at + 1), seq![' ']))
                    } else {
                        None
                    },
                    spans: Seq::empty(),
                    values: Seq::empty(),
                    message,
                    message_parts: Seq::empty(),
                    stream: Stream::Stdout,
                },
            ),
        }
    }
}

/// The entry of a line: the line starts with `[`, its header ends at the first
/// `]`, and its message follows.
pub open spec fn env_logger_entry(line: Seq<char>) -> Option<EntrySpec> {
    let raw = trimmed_end(line);
    if raw.len() == 0 || raw[0] != '[' {
        None
    } else {
        let rest = raw.drop_first();
        match position_of(rest, ']') {
            None => None,
            Some(close) => header_entry(
                raw,
                words(rest.take(close)),
                trimmed_start(rest.skip(close + 1)),
            ),
        }
    }
}

proof fn lemma_level_position(fields: Seq<Seq<char>>, i: int)
    requires
        0 <= i <= fields.len(),
        forall|j: int| 0 <= j < i ==> level_of(#[trigger] fields[j]) is None,
    ensures
        i < fields.len() && level_of(fields[i]) is Some ==> level_position(fields) == Some(i),
        i == fields.len() ==> level_position(fields) is None,
    decreases i,
{
    if i > 0 {
        let rest = fields.drop_first();
        assert forall|j: int| 0 <= j < i - 1 implies level_of(#[trigger] rest[j]) is None by {
            assert(rest[j] == fields[j + 1]);
        }
        assert(level_of(fields[0]) is None);
        lemma_level_position(rest, i - 1);
    }
}

/// A line as `env_logger` writes it by default.
pub open spec fn env_logger_line(
    timestamp: Seq<char>,
    level: Level,
    target: Seq<char>,
    message: Seq<char>,
) -> Seq<char> {
    seq!['['] + (timestamp + seq![' '] + (level.name() + level_gap(level)) + target) + seq![']']
        + (seq![' '] + message)
}

/// The space behind the name of a level: names are filled up to five characters,
/// and one more space follows.
pub open spec fn level_gap(level: Level) -> Seq<char> {
    if level.name().len() == 4 {
        seq![' ', ' ']
    } else {
        seq![' ']
    }
}

/// What `env_logger` writes is read back.
pub proof fn law_env_logger_lines_are_read_back(
    timestamp: Seq<char>,
    level: Level,
    target: Seq<char>,
    message: Seq<char>,
)
    requires
        is_word(timestamp),
        !timestamp.contains(']'),
        level_of(timestamp) is None,
        level != Level::Unknown,
        is_word(target),
        !target.contains(']'),
        message.len() > 0,
        !is_white(message[0]),
        !is_white(message.last()),
    ensures
        env_logger_entry(env_logger_line(timestamp, level, target, message)) == Some(
            EntrySpec {
                raw: env_logger_line(timestamp, level, target, message),
                timestamp: Some(timestamp),
                level,
                parsed: true,
                target: Some(target),
                spans: Seq::empty(),
                values: Seq::empty(),
                message,
                message_parts: Seq::empty(),
                stream: Stream::Stdout,
            },
        ),
{
    let line = env_logger_line(timestamp, level, target, message);
    let name = level.name();
    let gap = level_gap(level);
    let header = timestamp + seq![' '] + (name + gap) + target;
    let behind = seq![' '] + message;
    let rest = line.drop_first();
    assert(line.last() == message.last());
    assert(trimmed_end(line) == line);
    assert(rest =~= header + seq![']'] + behind);
    assert forall|i: int| 0 <= i < header.len() implies header[i] != ']' by {
        let at = i - timestamp.len() - 1;
        if i < timestamp.len() {
            assert(timestamp.contains(timestamp[i]));
        } else if at >= name.len() + gap.len() {
            assert(target.contains(target[at - name.len() - gap.len()]));
        }
    }
    lemma_position_behind(header, ']', behind);
    assert(rest.take(header.len() as int) =~= header);
    assert(rest.skip(header.len() as int + 1) =~= behind);
    lemma_trimmed_start_passes(seq![' '], message);
    assert(trimmed_start(message) == message);
    let none = Seq::<char>::empty();
    lemma_first_word(timestamp, seq![' '], name + gap + target);
    assert(header =~= timestamp + seq![' '] + (name + gap + target));
    lemma_first_word(name, gap, target);
    lemma_first_word(target, none, none);
    assert(target =~= target + none + none);
    assert(words(none) =~= Seq::empty()) by {
        assert(trimmed_start(none) == none);
    }
    let fields = words(header);
    assert(fields =~= seq![timestamp, name, target]);
    law_level_names_are_read_back(level);
    assert(fields.drop_first()[0] == name);
    assert(level_position(fields.drop_first()) == Some(0int));
    assert(level_position(fields) == Some(1int));
    assert(fields.take(1) =~= seq![timestamp]);
    assert(fields.skip(2) =~= seq![target]);
    assert(joined(seq![timestamp], seq![' ']) == timestamp);
    assert(joined(seq![target], seq![' ']) == target);
}

/// The words of a header in front of the first level are the timestamp and those
/// behind it the target, each with one space between them, however many they are.
pub proof fn law_headers_are_read(
    header: Seq<char>,
    message: Seq<char>,
    at: int,
    level: Level,
)
    requires
        !header.contains(']'),
        words(header).len() >= 2,
        0 <= at < words(header).len(),
        forall|i: int| 0 <= i < at ==> level_of(#[trigger] words(header)[i]) is None,
        level_of(words(header)[at]) == Some(level),
        message.len() > 0 ==> !is_white(message[0]) && !is_white(message.last()),
    ensures
        ({
            let fields = words(header);
            let line = seq!['['] + header + seq![']'] + (if message.len() > 0 {
                seq![' '] + message
            } else {
                Seq::empty()
            });
            let entry = env_logger_entry(line);
            &&& entry is Some
            &&& entry->0.raw == line
            &&& entry->0.level == level
            &&& entry->0.parsed
            &&& at > 0 ==> entry->0.timestamp == Some(joined(fields.take(at), seq![' ']))
            &&& at == 0 ==> entry->0.timestamp is None
            &&& at + 1 < fields.len() ==> entry->0.target == Some(
                joined(fields.skip(at + 1), seq![' ']),
            )
            &&& at + 1 == fields.len() ==> entry->0.target is None
            &&& entry->0.message == message
            &&& entry->0.spans.len() == 0
            &&& entry->0.values.len() == 0
            &&& entry->0.message_parts.len() == 0
        }),
{
    let behind = if message.len() > 0 {
        seq![' '] + message
    } else {
        Seq::empty()
    };
    let line = seq!['['] + header + seq![']'] + behind;
    let rest = line.drop_first();
    if message.len() > 0 {
        assert(line.last() == message.last());
    } else {
        assert(line.last() == ']');
    }
    assert(trimmed_end(line) == line);
    assert(line[0] == '[');
    assert(rest =~= header + seq![']'] + behind);
    lemma_position_behind(header, ']', behind);
    assert(rest.take(header.len() as int) =~= header);
    assert(rest.skip(header.len() as int + 1) =~= behind);
    lemma_level_position(words(header), at);
    if message.len() > 0 {
        lemma_trimmed_start_passes(seq![' '], message);
    }
    assert(trimmed_start(behind) =~= message);
}

/// A line that does not start with a bracket is refused, and so is one whose header
/// does not end, has fewer than two words or names no level.
pub proof fn law_other_headers_are_refused(line: Seq<char>, header: Seq<char>, rest: Seq<char>)
    requires
        line.len() > 0 ==> line[0] != '[',
        !header.contains(']'),
        words(header).len() < 2 || forall|i: int|
            0 <= i < words(header).len() ==> level_of(#[trigger] words(header)[i]) is None,
    ensures
        env_logger_entry(line) is None,
        env_logger_entry(seq!['['] + header) is None,
        env_logger_entry(seq!['['] + header + seq![']'] + rest) is None,
{
    lemma_trimmed_end(line);
    let open = seq!['['] + header;
    let raw = trimmed_end(open);
    lemma_trimmed_end(open);
    if raw.len() > 0 {
        let inner = raw.drop_first();
        lemma_position_of(inner, ']');
        if let Some(at) = position_of(inner, ']') {
            assert(inner[at] == header[at]);
        }
    }
    let closed = seq!['['] + header + seq![']'] + rest;
    let raw = trimmed_end(closed);
    lemma_trimmed_end(closed);
    let end = header.len() as int + 1;
    assert(closed[end] == ']');
    assert(raw.len() > end);
    let behind = raw.skip(end + 1);
    assert(raw.drop_first() =~= header + seq![']'] + behind);
    lemma_position_behind(header, ']', behind);
    assert(raw.drop_first().take(header.len() as int) =~= header);
    if words(header).len() >= 2 {
        lemma_level_position(words(header), words(header).len() as int);
    }
}

/// Reads a line as `env_logger` writes it.
pub fn parse_env_logger(raw: &str) -> (r: Option<LogEntry>)
    ensures
        entry_view(r) == env_logger_entry(raw@),
{
    let chars = chars_of(raw);
    let raw = trim_end(chars.as_slice());
    if raw.len() == 0 || raw[0] != '[' {
        return None;
    }
    let rest = skip(raw, 1);
    assert(rest@ =~= raw@.drop_first());
    let close = match find_char(rest, ']') {
        Some(close) => close,
        None => {
            return None;
        },
    };
    let header = take(rest, close);
    let message = trim_start(skip(rest, close + 1));
    let fields = split_whitespace(header);
    let ghost all = slices(fields@);
    if fields.len() < 2 {
        return None;
    }
    let mut at: usize = 0;
    while at < fields.len() && parse_level(fields[at]).is_none()
        invariant
            at <= fields@.len(),
            all == slices(fields@),
            forall|j: int| 0 <= j < at ==> level_of(#[trigger] all[j]) is None,
        decreases fields@.len() - at,
    {
        assert(all[at as int] == fields@[at as int]@);
        at = at + 1;
    }
    proof {
        lemma_level_position(all, at as int);
    }
    if at >= fields.len() {
        return None;
    }
    assert(all[at as int] == fields@[at as int]@);
    let level = match parse_level(fields[at]) {
        Some(level) => level,
        None => {
            return None;
        },
    };
    let timestamp = if at > 0 {
        let before = slice_subrange(fields.as_slice(), 0, at);
        assert(slices(before@) =~= all.take(at as int));
        Some(join_with_space(before))
    } else {
        None
    };
    let target = if fields.len() > at + 1 {
        let behind = slice_subrange(fields.as_slice(), at + 1, fields.len());
        assert(slices(behind@) =~= all.skip(at + 1));
        Some(join_with_space(behind))
    } else {
        None
    };
    let entry = LogEntry {
        raw: string_from(raw),
        timestamp,
        level,
        parsed: true,
        target,
        spans: Vec::new(),
        values: Vec::new(),
        message: string_from(message),
        message_parts: Vec::new(),
        stream: Stream::Stdout,
    };
    proof {
        assert(texts(entry.spans@) =~= Seq::empty());
        assert(sections_view(entry.values@) =~= Seq::empty());
        assert(parts_view(entry.message_parts@) =~= Seq::empty());
    }
    Some(entry)
}

} // verus!
