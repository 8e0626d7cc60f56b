//! Reading log lines.

use vstd::prelude::*;

use crate::cli::LogFormat;
use crate::model::{
    entry_view, message_text, parts_view, sections_view, EntrySpec, Level, LogEntry, Stream,
};
use crate::parser::ansi::{
    law_stripping_keeps_plain_text, strip_ansi_escape_sequences, stripped, ESCAPE,
};
use crate::parser::bunyan::{bunyan_entry, parse_bunyan};
use crate::parser::env_logger::{
    env_logger_entry, env_logger_line, law_env_logger_lines_are_read_back, parse_env_logger,
};
use crate::parser::level::level_of;
use crate::parser::logfmt::{logfmt_entry, parse_logfmt};
use crate::parser::tracing::{lemma_env_logger_lines_read_as_tracing, parse_tracing, tracing_entry};
use crate::text::{copy_str, is_white, is_word, lemma_trimmed_end, texts, trimmed_end};
use crate::ui::render::{entry_head, entry_text};

pub mod ansi;
pub mod bunyan;
pub mod env_logger;
pub mod fields;
pub mod level;
pub mod logfmt;
pub mod nesting;
pub mod spans;
pub mod tracing;
pub mod written;
pub mod written_spans;

verus! {

/// The first of two entries that is there.
pub open spec fn or_else(a: Option<EntrySpec>, b: Option<EntrySpec>) -> Option<EntrySpec> {
    if a is Some {
        a
    } else {
        b
    }
}

/// The entry of a line of text that reads as `tracing`, as logfmt or as
/// `env_logger`, in this order. Where both `tracing` and `env_logger` read a line it
/// is one of `env_logger`, whose opening bracket `tracing` would take for a part of a
/// timestamp.
pub open spec fn text_entry(
    tracing: Option<EntrySpec>,
    logfmt: Option<EntrySpec>,
    env_logger: Option<EntrySpec>,
) -> Option<EntrySpec> {
    if tracing is Some && env_logger is Some {
        env_logger
    } else {
        or_else(tracing, or_else(logfmt, env_logger))
    }
}

/// The entry of a line that reads as `format` says.
pub open spec fn parsed_entry(
    format: LogFormat,
    stream: Stream,
    raw: Seq<char>,
) -> Option<EntrySpec> {
    match format {
        LogFormat::Auto => or_else(
            bunyan_entry(raw, stream),
            text_entry(tracing_entry(raw), logfmt_entry(raw, stream), env_logger_entry(raw)),
        ),
        LogFormat::Bunyan => bunyan_entry(raw, stream),
        LogFormat::Plain => None,
        LogFormat::EnvLogger => env_logger_entry(raw),
        LogFormat::Logfmt => logfmt_entry(raw, stream),
        LogFormat::Tracing => tracing_entry(raw),
    }
}

/// The entry of a line that does not read as any format.
pub open spec fn plain_entry(stream: Stream, raw: Seq<char>) -> EntrySpec {
    EntrySpec {
        raw,
        timestamp: None,
        level: match stream {
            Stream::Stderr => Level::Warn,
            Stream::Stdout => Level::Unknown,
        },
        parsed: false,
        target: None,
        spans: Seq::empty(),
        values: Seq::empty(),
        message: raw,
        message_parts: Seq::empty(),
        stream,
    }
}

/// The entry of a line: escape sequences are taken out first.
pub open spec fn line_entry(format: LogFormat, stream: Stream, line: Seq<char>) -> EntrySpec {
    let raw = stripped(line);
    match parsed_entry(format, stream, raw) {
        Some(entry) => entry,
        None => plain_entry(stream, raw),
    }
}

/// A line that does not read as its format is shown as it is, but for escape
/// sequences: nothing of it is lost.
pub proof fn law_unparsed_lines_are_kept(format: LogFormat, stream: Stream, line: Seq<char>)
    requires
        !line_entry(format, stream, line).parsed,
    ensures
        line_entry(format, stream, line) == plain_entry(stream, stripped(line)),
        !line.contains(ESCAPE) ==> line_entry(format, stream, line).message == line,
{
    if !line.contains(ESCAPE) {
        law_stripping_keeps_plain_text(line);
    }
}

/// A line that its format does not read is its own message, without its escape
/// sequences, and says nothing else. From the error stream it counts as a warning.
pub proof fn law_unread_lines_are_messages(format: LogFormat, stream: Stream, line: Seq<char>)
    requires
        parsed_entry(format, stream, stripped(line)) is None,
    ensures
        ({
            let entry = line_entry(format, stream, line);
            &&& entry.raw == stripped(line)
            &&& entry.message == stripped(line)
            &&& entry.level == Level::Warn <==> stream == Stream::Stderr
            &&& entry.level == Level::Unknown <==> stream == Stream::Stdout
            &&& entry.stream == stream
            &&& !entry.parsed
            &&& entry.timestamp is None
            &&& entry.target is None
            &&& entry.spans.len() == 0
            &&& entry.values.len() == 0
            &&& entry.message_parts.len() == 0
        }),
{
}

/// A line is read as the format that was asked for, without its escape sequences.
pub proof fn law_lines_are_read_as_asked(stream: Stream, line: Seq<char>, entry: EntrySpec)
    ensures
        parsed_entry(LogFormat::Auto, stream, stripped(line)) == Some(entry) ==> line_entry(
            LogFormat::Auto,
            stream,
            line,
        ) == entry,
        bunyan_entry(stripped(line), stream) == Some(entry) ==> line_entry(
            LogFormat::Bunyan,
            stream,
            line,
        ) == entry,
        env_logger_entry(stripped(line)) == Some(entry) ==> line_entry(
            LogFormat::EnvLogger,
            stream,
            line,
        ) == entry,
        logfmt_entry(stripped(line), stream) == Some(entry) ==> line_entry(
            LogFormat::Logfmt,
            stream,
            line,
        ) == entry,
        tracing_entry(stripped(line)) == Some(entry) ==> line_entry(
            LogFormat::Tracing,
            stream,
            line,
        ) == entry,
{
}

/// The plain format parses nothing.
pub proof fn law_plain_parses_nothing(stream: Stream, line: Seq<char>)
    ensures
        line_entry(LogFormat::Plain, stream, line) == plain_entry(stream, stripped(line)),
{
}

/// Detection reads a line if and only if one of the formats does, and it reads it
/// as one of them.
pub proof fn law_detection_finds_a_format_that_fits(stream: Stream, raw: Seq<char>)
    ensures
        ({
            let auto = parsed_entry(LogFormat::Auto, stream, raw);
            let bunyan = parsed_entry(LogFormat::Bunyan, stream, raw);
            let tracing = parsed_entry(LogFormat::Tracing, stream, raw);
            let logfmt = parsed_entry(LogFormat::Logfmt, stream, raw);
            let env_logger = parsed_entry(LogFormat::EnvLogger, stream, raw);
            &&& auto is Some <==> bunyan is Some || tracing is Some || logfmt is Some
                || env_logger is Some
            &&& auto == bunyan || auto == tracing || auto == logfmt || auto == env_logger
        }),
{
}

/// A Bunyan record is detected as one, whatever else its line could be.
pub proof fn law_records_are_detected_first(stream: Stream, raw: Seq<char>)
    requires
        bunyan_entry(raw, stream) is Some,
    ensures
        parsed_entry(LogFormat::Auto, stream, raw) == bunyan_entry(raw, stream),
{
}

/// What `env_logger` writes by default is detected, unless the line is a record.
pub proof fn law_env_logger_lines_are_detected(
    stream: Stream,
    timestamp: Seq<char>,
    level: Level,
    target: Seq<char>,
    message: Seq<char>,
)
    requires
        is_word(timestamp),
        !timestamp.contains(']'),
        level_of(timestamp) is None,
        level != Level::Unknown,
        is_word(target),
        !target.contains(']'),
        message.len() > 0,
        !is_white(message[0]),
        !is_white(message.last()),
        bunyan_entry(env_logger_line(timestamp, level, target, message), stream) is None,
    ensures
        ({
            let entry = parsed_entry(
                LogFormat::Auto,
                stream,
                env_logger_line(timestamp, level, target, message),
            );
            &&& entry is Some
            &&& entry->0.timestamp == Some(timestamp)
            &&& entry->0.level == level
            &&& entry->0.target == Some(target)
            &&& entry->0.message == message
        }),
{
    law_env_logger_lines_are_read_back(timestamp, level, target, message);
    lemma_env_logger_lines_read_as_tracing(timestamp, level, target, message);
}

/// A line of `tracing` is detected, unless it is a record or starts with a bracket.
pub proof fn law_tracing_lines_are_detected(stream: Stream, raw: Seq<char>)
    requires
        tracing_entry(raw) is Some,
        raw[0] != '[',
        bunyan_entry(raw, stream) is None,
    ensures
        parsed_entry(LogFormat::Auto, stream, raw) == tracing_entry(raw),
{
    lemma_trimmed_end(raw);
}

/// A line of logfmt is detected, unless it is a record or reads as `tracing`.
pub proof fn law_logfmt_lines_are_detected(stream: Stream, raw: Seq<char>)
    requires
        logfmt_entry(raw, stream) is Some,
        bunyan_entry(raw, stream) is None,
        tracing_entry(raw) is None,
    ensures
        parsed_entry(LogFormat::Auto, stream, raw) == logfmt_entry(raw, stream),
{
}

/// A line that `env_logger` could have written is detected, unless it is a record or
/// reads as logfmt and not as `tracing`.
pub proof fn law_bracketed_lines_are_detected(stream: Stream, raw: Seq<char>)
    requires
        env_logger_entry(raw) is Some,
        bunyan_entry(raw, stream) is None,
        tracing_entry(raw) is Some || logfmt_entry(raw, stream) is None,
    ensures
        parsed_entry(LogFormat::Auto, stream, raw) == env_logger_entry(raw),
{
}

/// The message of an entry is the text of its parts, where it has parts.
pub proof fn law_messages_are_made_of_their_parts(
    format: LogFormat,
    stream: Stream,
    line: Seq<char>,
)
    ensures
        ({
            let entry = line_entry(format, stream, line);
            entry.message_parts.len() > 0 ==> entry.message == message_text(entry.message_parts)
        }),
{
}

/// The line itself is kept with an entry: as it is where it was not parsed, and
/// without white space at its end where it was.
pub proof fn law_the_line_is_kept(format: LogFormat, stream: Stream, line: Seq<char>)
    ensures
        ({
            let entry = line_entry(format, stream, line);
            entry.raw == if entry.parsed {
                trimmed_end(stripped(line))
            } else {
                stripped(line)
            }
        }),
{
}

/// A drawn entry ends with its message.
pub proof fn law_drawn_entries_show_the_message(
    format: LogFormat,
    stream: Stream,
    line: Seq<char>,
    show_spans: bool,
)
    ensures
        ({
            let entry = line_entry(format, stream, line);
            entry_text(entry, show_spans) == entry_head(entry, show_spans) + entry.message
        }),
{
    law_messages_are_made_of_their_parts(format, stream, line);
}

/// Reads a line.
pub fn parse_log_line(format: LogFormat, stream: Stream, raw: String) -> (r: LogEntry)
    ensures
        r@ == line_entry(format, stream, raw@),
{
    let raw = strip_ansi_escape_sequences(raw.as_str());
    let parsed = match format {
        LogFormat::Auto => detect(raw.as_str(), stream),
        LogFormat::Bunyan => parse_bunyan(raw.as_str(), stream),
        LogFormat::Plain => None,
        LogFormat::EnvLogger => parse_env_logger(raw.as_str()),
        LogFormat::Logfmt => parse_logfmt(raw.as_str(), stream),
        LogFormat::Tracing => parse_tracing(raw.as_str()),
    };
    if let Some(entry) = parsed {
        return entry;
    }
    let level = match stream {
        Stream::Stderr => Level::Warn,
        Stream::Stdout => Level::Unknown,
    };
    let entry = LogEntry {
        raw: copy_str(raw.as_str()),
        timestamp: None,
        level,
        parsed: false,
        target: None,
        spans: Vec::new(),
        values: Vec::new(),
        message: raw,
        message_parts: Vec::new(),
        stream,
    };
    proof {
        assert(texts(entry.spans@) =~= Seq::empty());
        assert(sections_view(entry.values@) =~= Seq::empty());
        assert(parts_view(entry.message_parts@) =~= Seq::empty());
    }
    entry
}

/// Reads a line in the format that fits.
fn detect(raw: &str, stream: Stream) -> (r: Option<LogEntry>)
    ensures
        entry_view(r) == parsed_entry(LogFormat::Auto, stream, raw@),
{
    let bunyan = parse_bunyan(raw, stream);
    if bunyan.is_some() {
        return bunyan;
    }
    let tracing = parse_tracing(raw);
    if tracing.is_some() {
        let env_logger = parse_env_logger(raw);
        if env_logger.is_some() {
            return env_logger;
        }
        return tracing;
    }
    let logfmt = parse_logfmt(raw, stream);
    if logfmt.is_some() {
        return logfmt;
    }
    parse_env_logger(raw)
}

} // verus!
