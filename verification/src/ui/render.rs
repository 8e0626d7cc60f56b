//! An entry as colored text.

use std::collections::VecDeque;

use vstd::prelude::*;
use vstd::string::*;

use crate::model::{entries_view, message_text, EntrySpec, Level, LogEntry, Stream};
use crate::parser::fields::{lemma_quote_end, quote_end, quoted_value_end};
use crate::text::{
    all_ink, chars_of, copy_str, find_char, find_whitespace, is_white, is_whitespace,
    lemma_position_behind, lemma_position_of, lemma_white_position, lemma_white_position_behind,
    position, position_of, skip, string_from, take, text_of, texts, white_position,
};
use crate::ui::color::{
    color_of_level, color_of_message, color_of_module, color_of_span, color_of_stream,
    color_of_value, key_color, level_color, message_color, punctuation_color, quoted_text_color,
    span_key_color, span_name_color, span_punctuation_color, span_value_color, stream_color,
    string_color, target_module_color, Color,
};
use crate::ui::style::{
    law_message_pieces_keep_the_text, look, message_part_style, message_pieces, message_styles,
    styled_text, styled_view, StyledSpec, StyledText,
};
use crate::ui::view::{ViewSpec, ViewState};

verus! {

/// What an entry is drawn with.
#[derive(Clone, Copy, Debug)]
pub struct RenderOptions {
    pub show_spans: bool,
}

impl RenderOptions {
    /// The options of a view.
    pub fn from(state: &ViewState) -> (r: RenderOptions)
        ensures
            r.show_spans == state@.show_spans,
    {
        RenderOptions { show_spans: state.show_spans }
    }
}

/// A text in one color.
#[derive(Debug, PartialEq, Eq)]
pub struct Part {
    pub text: String,
    pub color: Color,
    pub bold: bool,
}

/// What a part holds.
#[verifier::ext_equal]
pub ghost struct RunSpec {
    pub text: Seq<char>,
    pub color: Color,
    pub bold: bool,
}

impl View for Part {
    type V = RunSpec;

    open spec fn view(&self) -> RunSpec {
        RunSpec { text: self.text@, color: self.color, bold: self.bold }
    }
}

impl Part {
    pub fn new(text: &str, color: Color, bold: bool) -> (r: Part)
        ensures
            r@ == (RunSpec { text: text@, color, bold }),
    {
        Part { text: copy_str(text), color, bold }
    }
}

/// What each of `parts` holds.
pub open spec fn runs(parts: Seq<Part>) -> Seq<RunSpec> {
    Seq::new(parts.len(), |i: int| parts[i]@)
}

/// The text that `runs` make up.
pub open spec fn run_text(runs: Seq<RunSpec>) -> Seq<char>
    decreases runs.len(),
{
    if runs.len() == 0 {
        Seq::empty()
    } else {
        run_text(runs.drop_last()) + runs.last().text
    }
}

/// A text that is not bold.
pub open spec fn plain_run(text: Seq<char>, color: Color) -> RunSpec {
    RunSpec { text, color, bold: false }
}

/// Behind the quoted text that `s` starts with. Without a closing quote, all of
/// `s` is quoted.
pub open spec fn quoted_end(s: Seq<char>) -> int {
    match quote_end(s, 1, false) {
        Some(end) => end,
        None => s.len() as int,
    }
}

/// A message with its quoted texts set off.
pub open spec fn quoted_runs(s: Seq<char>, base: Color) -> Seq<RunSpec>
    decreases s.len(),
    via quoted_runs_decreases
{
    if s.len() == 0 {
        Seq::empty()
    } else if s[0] == '"' {
        seq![plain_run(s.take(quoted_end(s)), quoted_text_color())] + quoted_runs(
            s.skip(quoted_end(s)),
            base,
        )
    } else {
        match position_of(s, '"') {
            None => seq![plain_run(s, base)],
            Some(i) => seq![plain_run(s.take(i), base)] + quoted_runs(s.skip(i), base),
        }
    }
}

#[via_fn]
proof fn quoted_runs_decreases(s: Seq<char>, base: Color) {
    if s.len() > 0 {
        lemma_quoted_end(s);
        lemma_position_of(s, '"');
    }
}

/// The punctuation between the fields of a span.
pub open spec fn is_span_punctuation(c: char) -> bool {
    c == '=' || c == ':' || c == '{' || c == '}' || c == '(' || c == ')' || c == '[' || c == ']'
        || c == ','
}

/// A character of a bare key or value.
pub open spec fn is_bare(c: char) -> bool {
    c != '"' && !is_span_punctuation(c) && !is_white(c)
}

/// The length of the bare key or value that `s` starts with.
pub open spec fn bare_end(s: Seq<char>) -> int
    decreases s.len(),
{
    if s.len() > 0 && is_bare(s[0]) {
        1 + bare_end(s.drop_first())
    } else {
        0
    }
}

/// The color of a bare key or value.
pub open spec fn bare_color(s: Seq<char>, key: bool, value: bool) -> Color {
    if key {
        key_color()
    } else if value {
        color_of_value(s)
    } else {
        Color::Reset
    }
}

/// The fields of a span in colors. `key` and `value` tell what is expected at the
/// start of `s`.
pub open spec fn span_field_runs(s: Seq<char>, key: bool, value: bool) -> Seq<RunSpec>
    decreases s.len(),
    via span_field_runs_decreases
{
    if s.len() == 0 {
        Seq::empty()
    } else if s[0] == '"' {
        seq![plain_run(s.take(quoted_end(s)), quoted_text_color())] + span_field_runs(
            s.skip(quoted_end(s)),
            key,
            false,
        )
    } else if s[0] == '=' || s[0] == ':' {
        seq![plain_run(s.take(1), punctuation_color())] + span_field_runs(s.skip(1), false, true)
    } else if is_span_punctuation(s[0]) {
        seq![plain_run(s.take(1), punctuation_color())] + span_field_runs(
            s.skip(1),
            s[0] == '{' || s[0] == ',' || s[0] == '(',
            false,
        )
    } else if is_white(s[0]) {
        seq![plain_run(s.take(1), Color::Reset)] + span_field_runs(s.skip(1), !value, value)
    } else {
        seq![plain_run(s.take(bare_end(s)), bare_color(s.take(bare_end(s)), key, value))]
            + span_field_runs(s.skip(bare_end(s)), key, value)
    }
}

#[via_fn]
proof fn span_field_runs_decreases(s: Seq<char>, key: bool, value: bool) {
    if s.len() > 0 {
        lemma_quoted_end(s);
        lemma_bare_end(s);
    }
}

/// A span in colors: its name, and its fields.
pub open spec fn span_runs(span: Seq<char>) -> Seq<RunSpec> {
    match position_of(span, '{') {
        Some(open) => seq![plain_run(span.take(open), color_of_span(span.take(open)))]
            + span_field_runs(span.skip(open), true, false),
        None => seq![plain_run(span, color_of_span(span))],
    }
}

/// A colon and a space.
pub open spec fn colon() -> RunSpec {
    plain_run(seq![':', ' '], Color::DarkGrey)
}

/// Spans in colors, each with a colon behind it.
pub open spec fn spans_runs(spans: Seq<Seq<char>>) -> Seq<RunSpec>
    decreases spans.len(),
{
    if spans.len() == 0 {
        Seq::empty()
    } else {
        (spans_runs(spans.drop_last()) + span_runs(spans.last())).push(colon())
    }
}

/// The first position of two colons in a row.
pub open spec fn path_position(s: Seq<char>) -> Option<int>
    decreases s.len(),
{
    if s.len() < 2 {
        None
    } else if s[0] == ':' && s[1] == ':' {
        Some(0)
    } else {
        match path_position(s.drop_first()) {
            Some(i) => Some(i + 1),
            None => None,
        }
    }
}

/// A path in colors: each of its modules in its own, with the colons between
/// them.
pub open spec fn path_runs(s: Seq<char>) -> Seq<RunSpec>
    decreases s.len(),
    via path_runs_decreases
{
    match path_position(s) {
        None => seq![plain_run(s, color_of_module(s))],
        Some(i) => seq![
            plain_run(s.take(i), color_of_module(s.take(i))),
            plain_run(seq![':', ':'], Color::DarkGrey),
        ] + path_runs(s.skip(i + 2)),
    }
}

#[via_fn]
proof fn path_runs_decreases(s: Seq<char>) {
    lemma_path_position(s);
}

/// A target in colors: the path before its first white space, what is behind
/// it, and a colon.
pub open spec fn target_runs(target: Seq<char>) -> Seq<RunSpec> {
    let end = white_position(target);
    let suffix = if end < target.len() {
        seq![plain_run(target.skip(end), Color::DarkGrey)]
    } else {
        Seq::empty()
    };
    (path_runs(target.take(end)) + suffix).push(colon())
}

/// The pieces of a structured message in colors.
pub open spec fn piece_runs(pieces: Seq<StyledSpec>, base: Color) -> Seq<RunSpec> {
    Seq::new(
        pieces.len(),
        |i: int|
            RunSpec {
                text: pieces[i].text,
                color: look(pieces[i].style, base).0,
                bold: look(pieces[i].style, base).1,
            },
    )
}

/// A message in colors: by its pieces where it has some, else with its quoted
/// texts set off.
pub open spec fn message_runs(
    message: Seq<char>,
    pieces: Seq<StyledSpec>,
    base: Color,
) -> Seq<RunSpec> {
    if pieces.len() > 0 {
        piece_runs(pieces, base)
    } else {
        quoted_runs(message, base)
    }
}

/// The text `s` with spaces behind it, up to a length of `width`.
pub open spec fn padded(s: Seq<char>, width: int) -> Seq<char> {
    if s.len() < width {
        s + Seq::new((width - s.len()) as nat, |i: int| ' ')
    } else {
        s
    }
}

/// The mark of a stream.
pub open spec fn mark_runs(stream: Stream) -> Seq<RunSpec> {
    seq![RunSpec { text: seq![stream.mark(), ' '], color: color_of_stream(stream), bold: true }]
}

/// A timestamp, if there is one.
pub open spec fn timestamp_runs(timestamp: Option<Seq<char>>) -> Seq<RunSpec> {
    match timestamp {
        Some(timestamp) => seq![plain_run(timestamp.push(' '), Color::DarkGrey)],
        None => Seq::empty(),
    }
}

/// The name of a level, if the line was parsed.
pub open spec fn level_runs(parsed: bool, level: Level) -> Seq<RunSpec> {
    if parsed {
        seq![
            RunSpec {
                text: padded(level.name(), 5).push(' '),
                color: color_of_level(level),
                bold: true,
            },
        ]
    } else {
        Seq::empty()
    }
}

/// A target, if there is one.
pub open spec fn optional_target_runs(target: Option<Seq<char>>) -> Seq<RunSpec> {
    match target {
        Some(target) => target_runs(target),
        None => Seq::empty(),
    }
}

/// Spans, if they are to be shown.
pub open spec fn optional_spans_runs(show_spans: bool, spans: Seq<Seq<char>>) -> Seq<RunSpec> {
    if show_spans {
        spans_runs(spans)
    } else {
        Seq::empty()
    }
}

/// The runs of an entry, in the order in which they are drawn.
pub open spec fn entry_runs(entry: EntrySpec, show_spans: bool) -> Seq<RunSpec> {
    mark_runs(entry.stream) + timestamp_runs(entry.timestamp) + level_runs(
        entry.parsed,
        entry.level,
    ) + optional_target_runs(entry.target) + optional_spans_runs(show_spans, entry.spans)
        + message_runs(
        entry.message,
        message_pieces(entry.message_parts),
        color_of_message(entry.level, entry.stream),
    )
}

/// Spans as text, each with a colon behind it.
pub open spec fn spans_text(spans: Seq<Seq<char>>) -> Seq<char>
    decreases spans.len(),
{
    if spans.len() == 0 {
        Seq::empty()
    } else {
        spans_text(spans.drop_last()) + spans.last() + seq![':', ' ']
    }
}

/// What stands before the message of an entry: the mark of its stream, and its
/// timestamp, level, target and spans as far as they are there.
pub open spec fn entry_head(entry: EntrySpec, show_spans: bool) -> Seq<char> {
    let mark = seq![entry.stream.mark(), ' '];
    let timestamp = match entry.timestamp {
        Some(timestamp) => timestamp.push(' '),
        None => Seq::empty(),
    };
    let level = if entry.parsed {
        padded(entry.level.name(), 5).push(' ')
    } else {
        Seq::empty()
    };
    let target = match entry.target {
        Some(target) => target + seq![':', ' '],
        None => Seq::empty(),
    };
    let spans = if show_spans {
        spans_text(entry.spans)
    } else {
        Seq::empty()
    };
    mark + timestamp + level + target + spans
}

/// An entry as text: what stands before its message, and its message.
pub open spec fn entry_text(entry: EntrySpec, show_spans: bool) -> Seq<char> {
    entry_head(entry, show_spans) + if entry.message_parts.len() > 0 {
        message_text(entry.message_parts)
    } else {
        entry.message
    }
}

pub proof fn lemma_quoted_end(s: Seq<char>)
    requires
        s.len() > 0,
    ensures
        0 < quoted_end(s) <= s.len(),
{
    lemma_quote_end(s, 1, false);
}

pub proof fn lemma_bare_end(s: Seq<char>)
    ensures
        0 <= bare_end(s) <= s.len(),
        s.len() > 0 && is_bare(s[0]) ==> bare_end(s) > 0,
    decreases s.len(),
{
    if s.len() > 0 && is_bare(s[0]) {
        lemma_bare_end(s.drop_first());
    }
}

proof fn lemma_path_position(s: Seq<char>)
    ensures
        path_position(s) matches Some(i) ==> 0 <= i && i + 2 <= s.len() && s[i] == ':' && s[i + 1]
            == ':',
    decreases s.len(),
{
    if s.len() >= 2 && !(s[0] == ':' && s[1] == ':') {
        lemma_path_position(s.drop_first());
    }
}

pub proof fn lemma_run_text_push(runs: Seq<RunSpec>, run: RunSpec)
    ensures
        run_text(runs.push(run)) == run_text(runs) + run.text,
{
    assert(runs.push(run).drop_last() =~= runs);
}

proof fn lemma_run_text_one(run: RunSpec)
    ensures
        run_text(seq![run]) == run.text,
{
    lemma_run_text_push(Seq::empty(), run);
    assert(Seq::empty().push(run) =~= seq![run]);
    assert(run_text(seq![run]) =~= run.text);
}

/// The text of two lists of runs is their texts, one behind the other.
pub proof fn lemma_run_text_concat(a: Seq<RunSpec>, b: Seq<RunSpec>)
    ensures
        run_text(a + b) == run_text(a) + run_text(b),
    decreases b.len(),
{
    if b.len() == 0 {
        assert(a + b =~= a);
        assert(run_text(a) + run_text(b) =~= run_text(a));
    } else {
        lemma_run_text_concat(a, b.drop_last());
        assert((a + b).drop_last() =~= a + b.drop_last());
        assert(run_text(a + b) =~= run_text(a) + run_text(b));
    }
}

/// The text of a first run and of what follows.
proof fn lemma_run_text_first(run: RunSpec, rest: Seq<RunSpec>)
    ensures
        run_text(seq![run] + rest) == run.text + run_text(rest),
{
    lemma_run_text_concat(seq![run], rest);
    lemma_run_text_one(run);
}

proof fn lemma_quoted_end_at(s: Seq<char>, i: int, end: int)
    requires
        0 <= i <= end < s.len(),
        s[end] == '"',
        forall|j: int| i <= j < end ==> #[trigger] s[j] != '"' && s[j] != '\\',
    ensures
        quote_end(s, i, false) == Some(end + 1),
    decreases end - i,
{
    if i < end {
        lemma_quoted_end_at(s, i + 1, end);
    }
}

proof fn lemma_quote_of(inner: Seq<char>, rest: Seq<char>)
    requires
        !inner.contains('"'),
        !inner.contains('\\'),
    ensures
        ({
            let quoted = seq!['"'] + inner + seq!['"'];
            let s = quoted + rest;
            &&& quoted_end(s) == quoted.len()
            &&& s.take(quoted.len() as int) == quoted
            &&& s.skip(quoted.len() as int) == rest
            &&& s[0] == '"'
        }),
{
    let quoted = seq!['"'] + inner + seq!['"'];
    let s = quoted + rest;
    assert forall|j: int| 1 <= j < inner.len() + 1 implies #[trigger] s[j] != '"' && s[j]
        != '\\' by {
        assert(s[j] == inner[j - 1]);
        assert(inner.contains(inner[j - 1]));
    }
    lemma_quoted_end_at(s, 1, inner.len() as int + 1);
    assert(s.take(quoted.len() as int) =~= quoted);
    assert(s.skip(quoted.len() as int) =~= rest);
}

/// A text without quotes has the color of its message. A quoted text behind it is set
/// off, and what follows is drawn as if it stood alone.
pub proof fn law_quoted_texts_are_set_off(
    before: Seq<char>,
    inner: Seq<char>,
    rest: Seq<char>,
    base: Color,
)
    requires
        !before.contains('"'),
        !inner.contains('"'),
        !inner.contains('\\'),
    ensures
        ({
            let quoted = seq!['"'] + inner + seq!['"'];
            let color = Color::Rgb { r: 206, g: 145, b: 120 };
            let set_off = seq![RunSpec { text: quoted, color, bold: false }] + quoted_runs(
                rest,
                base,
            );
            let plain = RunSpec { text: before, color: base, bold: false };
            &&& before.len() > 0 ==> quoted_runs(before, base) == seq![plain]
            &&& before.len() == 0 ==> quoted_runs(before, base).len() == 0
            &&& quoted_runs(quoted + rest, base) == set_off
            &&& before.len() > 0 ==> quoted_runs(before + (quoted + rest), base) == seq![plain]
                + set_off
        }),
{
    let quoted = seq!['"'] + inner + seq!['"'];
    let s = quoted + rest;
    lemma_quote_of(inner, rest);
    lemma_position_of(before, '"');
    if before.len() > 0 {
        let all = before + s;
        assert(before.contains(before[0]));
        assert(all[0] == before[0]);
        assert(all =~= before + seq!['"'] + (inner + seq!['"'] + rest));
        lemma_position_behind(before, '"', inner + seq!['"'] + rest);
        assert(all.take(before.len() as int) =~= before);
        assert(all.skip(before.len() as int) =~= s);
    }
}

proof fn lemma_bare_end_of(bare: Seq<char>, rest: Seq<char>)
    requires
        forall|i: int| 0 <= i < bare.len() ==> is_bare(#[trigger] bare[i]),
        rest.len() > 0 ==> !is_bare(rest[0]),
    ensures
        bare_end(bare + rest) == bare.len(),
        (bare + rest).take(bare.len() as int) == bare,
        (bare + rest).skip(bare.len() as int) == rest,
    decreases bare.len(),
{
    let s = bare + rest;
    assert(s.take(bare.len() as int) =~= bare);
    assert(s.skip(bare.len() as int) =~= rest);
    if bare.len() == 0 {
        assert(s =~= rest);
    } else {
        assert(is_bare(bare[0]));
        let tail = bare.drop_first();
        assert forall|i: int| 0 <= i < tail.len() implies is_bare(#[trigger] tail[i]) by {
            assert(is_bare(bare[i + 1]));
        }
        lemma_bare_end_of(tail, rest);
        assert(s.drop_first() =~= tail + rest);
    }
}

/// A bare text among the fields of a span: no quotes, no punctuation and no white
/// space.
pub open spec fn is_bare_text(s: Seq<char>) -> bool {
    &&& s.len() > 0
    &&& forall|i: int|
        0 <= i < s.len() ==> {
            let c = #[trigger] s[i];
            c != '"' && c != '=' && c != ':' && c != '{' && c != '}' && c != '(' && c != ')' && c
                != '[' && c != ']' && c != ',' && !is_white(c)
        }
}

/// A bare text is drawn in one color, up to its end: as a key where one is expected, as
/// a value where one is expected, and plain otherwise.
pub proof fn law_bare_texts_are_one_run(bare: Seq<char>, rest: Seq<char>, key: bool, value: bool)
    requires
        is_bare_text(bare),
        rest.len() > 0 ==> rest[0] == '"' || rest[0] == '=' || rest[0] == ':' || rest[0] == '{'
            || rest[0] == '}' || rest[0] == '(' || rest[0] == ')' || rest[0] == '[' || rest[0]
            == ']' || rest[0] == ',' || is_white(rest[0]),
    ensures
        span_field_runs(bare + rest, key, value) == seq![
            RunSpec {
                text: bare,
                color: if key {
                    Color::Rgb { r: 156, g: 220, b: 254 }
                } else if value {
                    color_of_value(bare)
                } else {
                    Color::Reset
                },
                bold: false,
            },
        ] + span_field_runs(rest, key, value),
{
    let s = bare + rest;
    assert forall|i: int| 0 <= i < bare.len() implies is_bare(#[trigger] bare[i]) by {}
    lemma_bare_end_of(bare, rest);
    assert(s[0] == bare[0]);
    assert(is_bare(bare[0]));
}

/// Signs among the fields of a span stand alone and tell what comes next: a value
/// behind an equals sign or a colon, and a key behind an opening brace or parenthesis
/// and behind a comma. A quoted text ends what was a value. White space changes
/// nothing where a value is expected, and else a key may follow.
pub proof fn law_signs_tell_what_comes_next(
    rest: Seq<char>,
    inner: Seq<char>,
    white: char,
    key: bool,
    value: bool,
)
    requires
        is_white(white),
        !inner.contains('"'),
        !inner.contains('\\'),
    ensures
        ({
            let color = Color::Rgb { r: 150, g: 150, b: 150 };
            let quoted = seq!['"'] + inner + seq!['"'];
            &&& forall|c: char|
                c == '=' || c == ':' ==> #[trigger] span_field_runs(seq![c] + rest, key, value)
                    == seq![RunSpec { text: seq![c], color, bold: false }] + span_field_runs(
                    rest,
                    false,
                    true,
                )
            &&& forall|c: char|
                c == '{' || c == '(' || c == ',' ==> #[trigger] span_field_runs(
                    seq![c] + rest,
                    key,
                    value,
                ) == seq![RunSpec { text: seq![c], color, bold: false }] + span_field_runs(
                    rest,
                    true,
                    false,
                )
            &&& forall|c: char|
                c == '}' || c == ')' || c == '[' || c == ']' ==> #[trigger] span_field_runs(
                    seq![c] + rest,
                    key,
                    value,
                ) == seq![RunSpec { text: seq![c], color, bold: false }] + span_field_runs(
                    rest,
                    false,
                    false,
                )
            &&& span_field_runs(seq![white] + rest, key, value) == seq![
                RunSpec { text: seq![white], color: Color::Reset, bold: false },
            ] + span_field_runs(rest, !value, value)
            &&& span_field_runs(quoted + rest, key, value) == seq![
                RunSpec {
                    text: quoted,
                    color: Color::Rgb { r: 206, g: 145, b: 120 },
                    bold: false,
                },
            ] + span_field_runs(rest, key, false)
            &&& span_field_runs(Seq::empty(), key, value).len() == 0
        }),
{
    assert forall|c: char| (#[trigger] (seq![c] + rest)).take(1) == seq![c] && (seq![c]
        + rest).skip(1) == rest by {
        assert((seq![c] + rest).take(1) =~= seq![c]);
        assert((seq![c] + rest).skip(1) =~= rest);
    }
    lemma_quote_of(inner, rest);
}

/// The name of a span has the color of its name, and its braces with all in them are
/// drawn as fields.
pub proof fn law_span_names_have_their_color(name: Seq<char>, rest: Seq<char>)
    requires
        !name.contains('{'),
    ensures
        span_runs(name) == seq![RunSpec { text: name, color: color_of_span(name), bold: false }],
        span_runs(name + seq!['{'] + rest) == seq![
            RunSpec { text: name, color: color_of_span(name), bold: false },
        ] + span_field_runs(seq!['{'] + rest, true, false),
{
    let s = name + seq!['{'] + rest;
    lemma_position_of(name, '{');
    lemma_position_behind(name, '{', rest);
    assert(s.take(name.len() as int) =~= name);
    assert(s.skip(name.len() as int) =~= seq!['{'] + rest);
}

/// Spans are drawn one behind the other, with a colon and a space behind each of them.
pub proof fn law_spans_runs_grow(spans: Seq<Seq<char>>, span: Seq<char>)
    ensures
        spans_runs(Seq::empty()).len() == 0,
        spans_runs(spans.push(span)) == spans_runs(spans) + span_runs(span) + seq![
            RunSpec { text: seq![':', ' '], color: Color::DarkGrey, bold: false },
        ],
        spans_text(Seq::empty()).len() == 0,
        spans_text(spans.push(span)) == spans_text(spans) + span + seq![':', ' '],
{
    assert(spans.push(span).drop_last() =~= spans);
    assert(spans_runs(spans.push(span)) =~= spans_runs(spans) + span_runs(span) + seq![
        RunSpec { text: seq![':', ' '], color: Color::DarkGrey, bold: false },
    ]);
}

proof fn lemma_path_position_behind(module: Seq<char>, rest: Seq<char>)
    requires
        !module.contains(':'),
    ensures
        path_position(module) is None,
        path_position(module + seq![':', ':'] + rest) == Some(module.len() as int),
    decreases module.len(),
{
    let s = module + seq![':', ':'] + rest;
    if module.len() > 0 {
        let tail = module.drop_first();
        assert(module.contains(module[0]));
        assert(s[0] == module[0]);
        assert forall|i: int| 0 <= i < tail.len() implies tail[i] != ':' by {
            assert(module.contains(module[i + 1]));
        }
        lemma_path_position_behind(tail, rest);
        assert(s.drop_first() =~= tail + seq![':', ':'] + rest);
    }
}

/// Every module of a path has the color of its name, and the colons between them stand
/// back.
pub proof fn law_modules_have_their_colors(module: Seq<char>, rest: Seq<char>)
    requires
        !module.contains(':'),
    ensures
        path_runs(module) == seq![
            RunSpec { text: module, color: color_of_module(module), bold: false },
        ],
        path_runs(module + seq![':', ':'] + rest) == seq![
            RunSpec { text: module, color: color_of_module(module), bold: false },
            RunSpec { text: seq![':', ':'], color: Color::DarkGrey, bold: false },
        ] + path_runs(rest),
{
    let s = module + seq![':', ':'] + rest;
    lemma_path_position_behind(module, rest);
    assert(s.take(module.len() as int) =~= module);
    assert(s.skip(module.len() as int + 2) =~= rest);
}

/// A target is drawn as a path up to its first white space. What is behind it stands
/// back, and a colon and a space follow.
pub proof fn law_targets_are_drawn_as_paths(path: Seq<char>, behind: Seq<char>)
    requires
        all_ink(path),
        behind.len() > 0 ==> is_white(behind[0]),
    ensures
        ({
            let end = RunSpec { text: seq![':', ' '], color: Color::DarkGrey, bold: false };
            let suffix = RunSpec { text: behind, color: Color::DarkGrey, bold: false };
            target_runs(path + behind) == path_runs(path) + (if behind.len() > 0 {
                seq![suffix, end]
            } else {
                seq![end]
            })
        }),
{
    let target = path + behind;
    lemma_white_position_behind(path, behind);
    assert(target.take(path.len() as int) =~= path);
    assert(target.skip(path.len() as int) =~= behind);
    let end = colon();
    let suffix = plain_run(behind, Color::DarkGrey);
    assert(target_runs(target) =~= path_runs(path) + (if behind.len() > 0 {
        seq![suffix, end]
    } else {
        seq![end]
    }));
}

/// A padded text is the text with spaces behind it, up to the width.
pub proof fn law_padding_is_spaces(s: Seq<char>, width: int)
    ensures
        padded(s, width).len() == if s.len() < width {
            width
        } else {
            s.len() as int
        },
        padded(s, width).take(s.len() as int) == s,
        forall|i: int|
            s.len() <= i < padded(s, width).len() ==> #[trigger] padded(s, width)[i] == ' ',
{
    assert(padded(s, width).take(s.len() as int) =~= s);
}

/// An entry is drawn in this order: the bold mark of its stream, its timestamp, the
/// bold name of its level where it was parsed, its target, its spans where they are
/// shown, and its message.
pub proof fn law_entries_are_drawn_in_order(entry: EntrySpec, show_spans: bool)
    ensures
        ({
            let mark = RunSpec {
                text: match entry.stream {
                    Stream::Stdout => seq!['|', ' '],
                    Stream::Stderr => seq!['!', ' '],
                },
                color: color_of_stream(entry.stream),
                bold: true,
            };
            let timestamp = match entry.timestamp {
                Some(t) => seq![
                    RunSpec { text: t + seq![' '], color: Color::DarkGrey, bold: false },
                ],
                None => Seq::empty(),
            };
            let level = if entry.parsed {
                seq![
                    RunSpec {
                        text: padded(entry.level.name(), 5) + seq![' '],
                        color: color_of_level(entry.level),
                        bold: true,
                    },
                ]
            } else {
                Seq::empty()
            };
            let target = match entry.target {
                Some(t) => target_runs(t),
                None => Seq::empty(),
            };
            let spans = if show_spans {
                spans_runs(entry.spans)
            } else {
                Seq::empty()
            };
            let base = color_of_message(entry.level, entry.stream);
            let message = if entry.message_parts.len() == 0 {
                quoted_runs(entry.message, base)
            } else {
                piece_runs(message_pieces(entry.message_parts), base)
            };
            entry_runs(entry, show_spans) == seq![mark] + timestamp + level + target + spans
                + message
        }),
{
    if let Some(t) = entry.timestamp {
        assert(t.push(' ') =~= t + seq![' ']);
    }
    assert(padded(entry.level.name(), 5).push(' ') =~= padded(entry.level.name(), 5) + seq![' ']);
    assert(message_pieces(entry.message_parts).len() == 0 <==> entry.message_parts.len() == 0);
}

/// Each piece of a message is one run, with the look of its style.
pub proof fn law_pieces_are_runs(pieces: Seq<StyledSpec>, base: Color, i: int)
    requires
        0 <= i < pieces.len(),
    ensures
        piece_runs(pieces, base).len() == pieces.len(),
        piece_runs(pieces, base)[i].text == pieces[i].text,
        (piece_runs(pieces, base)[i].color, piece_runs(pieces, base)[i].bold) == look(
            pieces[i].style,
            base,
        ),
{
}

/// An entry reads as it is drawn: mark, timestamp, level, target, spans and message, a
/// space behind each of the first three and a colon and a space behind the others.
pub proof fn law_entries_read_in_order(entry: EntrySpec, show_spans: bool)
    ensures
        ({
            let mark = match entry.stream {
                Stream::Stdout => seq!['|', ' '],
                Stream::Stderr => seq!['!', ' '],
            };
            let timestamp = match entry.timestamp {
                Some(t) => t + seq![' '],
                None => Seq::empty(),
            };
            let level = if entry.parsed {
                padded(entry.level.name(), 5) + seq![' ']
            } else {
                Seq::empty()
            };
            let target = match entry.target {
                Some(t) => t + seq![':', ' '],
                None => Seq::empty(),
            };
            let spans = if show_spans {
                spans_text(entry.spans)
            } else {
                Seq::empty()
            };
            let message = if entry.message_parts.len() == 0 {
                entry.message
            } else {
                message_text(entry.message_parts)
            };
            entry_text(entry, show_spans) == mark + timestamp + level + target + spans + message
        }),
{
    if let Some(t) = entry.timestamp {
        assert(t.push(' ') =~= t + seq![' ']);
    }
    assert(padded(entry.level.name(), 5).push(' ') =~= padded(entry.level.name(), 5) + seq![' ']);
}

/// Setting off quoted texts changes nothing of a message.
pub proof fn law_quoted_runs_keep_the_text(s: Seq<char>, base: Color)
    ensures
        run_text(quoted_runs(s, base)) == s,
    decreases s.len(),
{
    if s.len() > 0 {
        lemma_quoted_end(s);
        lemma_position_of(s, '"');
        let end = if s[0] == '"' {
            quoted_end(s)
        } else {
            match position_of(s, '"') {
                Some(i) => i,
                None => s.len() as int,
            }
        };
        let color = if s[0] == '"' {
            quoted_text_color()
        } else {
            base
        };
        law_quoted_runs_keep_the_text(s.skip(end), base);
        lemma_run_text_first(plain_run(s.take(end), color), quoted_runs(s.skip(end), base));
        lemma_run_text_one(plain_run(s, base));
        assert(s.take(end) + s.skip(end) =~= s);
    }
}

/// Coloring the fields of a span changes nothing of their text.
pub proof fn law_span_field_runs_keep_the_text(s: Seq<char>, key: bool, value: bool)
    ensures
        run_text(span_field_runs(s, key, value)) == s,
    decreases s.len(),
{
    if s.len() > 0 {
        lemma_quoted_end(s);
        lemma_bare_end(s);
        let end = if s[0] == '"' {
            quoted_end(s)
        } else if is_bare(s[0]) {
            bare_end(s)
        } else {
            1
        };
        let run = span_field_runs(s, key, value)[0];
        let rest = span_field_runs(s, key, value).skip(1);
        assert(span_field_runs(s, key, value) =~= seq![run] + rest);
        assert(run.text == s.take(end));
        lemma_run_text_first(run, rest);
        let t = s.skip(end);
        if s[0] == '"' {
            law_span_field_runs_keep_the_text(t, key, false);
            assert(rest =~= span_field_runs(t, key, false));
        } else if s[0] == '=' || s[0] == ':' {
            law_span_field_runs_keep_the_text(t, false, true);
            assert(rest =~= span_field_runs(t, false, true));
        } else if is_span_punctuation(s[0]) {
            let opens = s[0] == '{' || s[0] == ',' || s[0] == '(';
            law_span_field_runs_keep_the_text(t, opens, false);
            assert(rest =~= span_field_runs(t, opens, false));
        } else if is_white(s[0]) {
            law_span_field_runs_keep_the_text(t, !value, value);
            assert(rest =~= span_field_runs(t, !value, value));
        } else {
            law_span_field_runs_keep_the_text(t, key, value);
            assert(rest =~= span_field_runs(t, key, value));
        }
        assert(s.take(end) + t =~= s);
    }
}

/// Coloring a span changes nothing of its text.
pub proof fn law_span_runs_keep_the_text(span: Seq<char>)
    ensures
        run_text(span_runs(span)) == span,
{
    lemma_position_of(span, '{');
    match position_of(span, '{') {
        Some(open) => {
            let name = plain_run(span.take(open), color_of_span(span.take(open)));
            law_span_field_runs_keep_the_text(span.skip(open), true, false);
            lemma_run_text_first(name, span_field_runs(span.skip(open), true, false));
            assert(span.take(open) + span.skip(open) =~= span);
        },
        None => {
            lemma_run_text_one(plain_run(span, color_of_span(span)));
        },
    }
}

/// Coloring spans changes nothing of their text.
pub proof fn law_spans_runs_keep_the_text(spans: Seq<Seq<char>>)
    ensures
        run_text(spans_runs(spans)) == spans_text(spans),
    decreases spans.len(),
{
    if spans.len() > 0 {
        let before = spans_runs(spans.drop_last());
        law_spans_runs_keep_the_text(spans.drop_last());
        law_span_runs_keep_the_text(spans.last());
        lemma_run_text_concat(before, span_runs(spans.last()));
        lemma_run_text_push(before + span_runs(spans.last()), colon());
    }
}

/// Coloring a path changes nothing of its text.
pub proof fn law_path_runs_keep_the_text(s: Seq<char>)
    ensures
        run_text(path_runs(s)) == s,
    decreases s.len(),
{
    lemma_path_position(s);
    match path_position(s) {
        None => {
            lemma_run_text_one(plain_run(s, color_of_module(s)));
        },
        Some(i) => {
            let module = plain_run(s.take(i), color_of_module(s.take(i)));
            let colons = plain_run(seq![':', ':'], Color::DarkGrey);
            let rest = path_runs(s.skip(i + 2));
            law_path_runs_keep_the_text(s.skip(i + 2));
            lemma_run_text_first(colons, rest);
            lemma_run_text_first(module, seq![colons] + rest);
            assert(path_runs(s) =~= seq![module] + (seq![colons] + rest));
            assert(s.take(i) + (seq![':', ':'] + s.skip(i + 2)) =~= s);
        },
    }
}

/// Coloring a target changes nothing of its text.
pub proof fn law_target_runs_keep_the_text(target: Seq<char>)
    ensures
        run_text(target_runs(target)) == target + seq![':', ' '],
{
    let end = white_position(target);
    lemma_white_position(target);
    let suffix = if end < target.len() {
        seq![plain_run(target.skip(end), Color::DarkGrey)]
    } else {
        Seq::empty()
    };
    law_path_runs_keep_the_text(target.take(end));
    lemma_run_text_concat(path_runs(target.take(end)), suffix);
    lemma_run_text_push(path_runs(target.take(end)) + suffix, colon());
    lemma_run_text_one(plain_run(target.skip(end), Color::DarkGrey));
    assert(target.take(end) + run_text(suffix) =~= target);
}

proof fn lemma_piece_runs_text(pieces: Seq<StyledSpec>, base: Color)
    ensures
        run_text(piece_runs(pieces, base)) == styled_text(pieces),
    decreases pieces.len(),
{
    if pieces.len() > 0 {
        lemma_piece_runs_text(pieces.drop_last(), base);
        assert(piece_runs(pieces, base).drop_last() =~= piece_runs(pieces.drop_last(), base));
    }
}

/// Coloring a message changes nothing of its text.
pub proof fn law_message_runs_keep_the_text(
    message: Seq<char>,
    pieces: Seq<StyledSpec>,
    base: Color,
)
    ensures
        run_text(message_runs(message, pieces, base)) == if pieces.len() > 0 {
            styled_text(pieces)
        } else {
            message
        },
{
    lemma_piece_runs_text(pieces, base);
    law_quoted_runs_keep_the_text(message, base);
}

/// Coloring an entry changes nothing of its text.
pub proof fn law_entry_runs_keep_the_text(entry: EntrySpec, show_spans: bool)
    ensures
        run_text(entry_runs(entry, show_spans)) == entry_text(entry, show_spans),
{
    let mark = mark_runs(entry.stream);
    let timestamp = timestamp_runs(entry.timestamp);
    let level = level_runs(entry.parsed, entry.level);
    let target = optional_target_runs(entry.target);
    let spans = optional_spans_runs(show_spans, entry.spans);
    let pieces = message_pieces(entry.message_parts);
    let base = color_of_message(entry.level, entry.stream);
    lemma_run_text_one(mark[0]);
    if let Some(text) = entry.timestamp {
        lemma_run_text_one(plain_run(text.push(' '), Color::DarkGrey));
    }
    if entry.parsed {
        lemma_run_text_one(level[0]);
    }
    if let Some(text) = entry.target {
        law_target_runs_keep_the_text(text);
    }
    law_spans_runs_keep_the_text(entry.spans);
    law_message_runs_keep_the_text(entry.message, pieces, base);
    law_message_pieces_keep_the_text(entry.message_parts);
    lemma_run_text_concat(mark, timestamp);
    lemma_run_text_concat(mark + timestamp, level);
    lemma_run_text_concat(mark + timestamp + level, target);
    lemma_run_text_concat(mark + timestamp + level + target, spans);
    lemma_run_text_concat(
        mark + timestamp + level + target + spans,
        message_runs(entry.message, pieces, base),
    );
}

/// Draws entries as a view wants them.
#[derive(Clone, Copy, Debug)]
pub struct EntryRenderer {
    pub options: RenderOptions,
}

/// Appends one part.
fn push_part(parts: &mut Vec<Part>, text: &str, color: Color, bold: bool)
    ensures
        runs(final(parts)@) == runs(old(parts)@).push(RunSpec { text: text@, color, bold }),
{
    let ghost before = runs(parts@);
    parts.push(Part::new(text, color, bold));
    assert(runs(parts@) =~= before.push(RunSpec { text: text@, color, bold }));
}

/// Appends one part that is not bold.
fn push_plain(parts: &mut Vec<Part>, text: &[char], color: Color)
    ensures
        runs(final(parts)@) == runs(old(parts)@).push(plain_run(text@, color)),
{
    let text = string_from(text);
    push_part(parts, text.as_str(), color, false);
}

/// Appends the mark of a stream.
fn push_mark(parts: &mut Vec<Part>, stream: Stream)
    ensures
        runs(final(parts)@) == runs(old(parts)@) + mark_runs(stream),
{
    let ghost before = runs(parts@);
    let mut text = String::new();
    text.push(stream.indicator());
    text.push(' ');
    assert(text@ =~= seq![stream.mark(), ' ']);
    push_part(parts, text.as_str(), stream_color(stream), true);
    assert(runs(parts@) =~= before + mark_runs(stream));
}

/// Appends a timestamp, if there is one.
fn push_timestamp(parts: &mut Vec<Part>, timestamp: &Option<String>)
    ensures
        runs(final(parts)@) == runs(old(parts)@) + timestamp_runs(text_of(*timestamp)),
{
    let ghost before = runs(parts@);
    if let Some(timestamp) = timestamp {
        let mut text = copy_str(timestamp.as_str());
        text.push(' ');
        push_part(parts, text.as_str(), Color::DarkGrey, false);
    }
    assert(runs(parts@) =~= before + timestamp_runs(text_of(*timestamp)));
}

/// Appends the name of a level, if the line was parsed.
fn push_level(parts: &mut Vec<Part>, parsed: bool, level: Level)
    ensures
        runs(final(parts)@) == runs(old(parts)@) + level_runs(parsed, level),
{
    let ghost before = runs(parts@);
    if parsed {
        let mut text = pad(level.label(), 5);
        text.push(' ');
        push_part(parts, text.as_str(), level_color(level), true);
    }
    assert(runs(parts@) =~= before + level_runs(parsed, level));
}

/// Appends a colon and a space.
fn push_colon(parts: &mut Vec<Part>)
    ensures
        runs(final(parts)@) == runs(old(parts)@).push(colon()),
{
    proof {
        reveal_strlit(": ");
        assert(": "@ =~= seq![':', ' ']);
    }
    push_part(parts, ": ", Color::DarkGrey, false);
}

/// Tells whether `c` is punctuation between the fields of a span.
fn is_punctuation(c: char) -> (r: bool)
    ensures
        r == is_span_punctuation(c),
{
    c == '=' || c == ':' || c == '{' || c == '}' || c == '(' || c == ')' || c == '[' || c == ']'
        || c == ','
}

/// The length of the bare key or value that `s` starts with.
fn bare_length(s: &[char]) -> (r: usize)
    ensures
        r == bare_end(s@),
        r <= s@.len(),
{
    let mut i: usize = 0;
    assert(s@.skip(0) =~= s@);
    while i < s.len() && s[i] != '"' && !is_punctuation(s[i]) && !is_whitespace(s[i])
        invariant
            i <= s@.len(),
            bare_end(s@) == i + bare_end(s@.skip(i as int)),
        decreases s@.len() - i,
    {
        assert(s@.skip(i as int).drop_first() =~= s@.skip(i + 1));
        i = i + 1;
    }
    i
}

/// The length of the quoted text that `s` starts with.
fn quoted_length(s: &[char]) -> (r: usize)
    requires
        s@.len() > 0,
    ensures
        r == quoted_end(s@),
        0 < r <= s@.len(),
{
    proof {
        lemma_quoted_end(s@);
    }
    match quoted_value_end(s) {
        Some(end) => end,
        None => s.len(),
    }
}

/// The first position of two colons in a row.
fn find_path(s: &[char]) -> (r: Option<usize>)
    ensures
        position(r) == path_position(s@),
        r matches Some(i) ==> i + 2 <= s@.len(),
{
    let len: usize = s.len();
    let mut i: usize = 0;
    assert(s@.skip(0) =~= s@);
    while i < len && len - i >= 2
        invariant
            i <= s@.len(),
            len == s@.len(),
            path_position(s@) == match path_position(s@.skip(i as int)) {
                Some(j) => Some(i + j),
                None => None,
            },
        decreases s@.len() - i,
    {
        if s[i] == ':' && s[i + 1] == ':' {
            return Some(i);
        }
        assert(s@.skip(i as int).drop_first() =~= s@.skip(i + 1));
        i = i + 1;
    }
    None
}

/// Appends the first module of a path, and the colons behind it. What is left of
/// the path is returned.
fn push_module_part<'a>(parts: &mut Vec<Part>, path: &'a [char]) -> (r: Option<&'a [char]>)
    ensures
        r is None ==> runs(final(parts)@) == runs(old(parts)@) + path_runs(path@),
        r matches Some(rest) ==> runs(old(parts)@) + path_runs(path@) == runs(final(parts)@)
            + path_runs(rest@),
        r matches Some(rest) ==> rest@.len() < path@.len(),
{
    let ghost start = runs(parts@);
    assert(path@.len() == path.len());
    match find_path(path) {
        None => {
            let name = string_from(path);
            push_part(parts, name.as_str(), target_module_color(name.as_str()), false);
            assert(runs(parts@) =~= start + path_runs(path@));
            None
        },
        Some(i) => {
            let name = string_from(take(path, i));
            push_part(parts, name.as_str(), target_module_color(name.as_str()), false);
            proof {
                reveal_strlit("::");
                assert("::"@ =~= seq![':', ':']);
            }
            push_part(parts, "::", Color::DarkGrey, false);
            let rest = skip(path, i + 2);
            proof {
                let head = seq![
                    plain_run(name@, color_of_module(name@)),
                    plain_run(seq![':', ':'], Color::DarkGrey),
                ];
                assert(runs(parts@) =~= start + head);
                assert(start + (head + path_runs(rest@)) =~= runs(parts@) + path_runs(rest@));
            }
            Some(rest)
        },
    }
}

/// Appends a bare key or value of a span field.
pub fn flush_span_token(
    parts: &mut Vec<Part>,
    token: &[char],
    expecting_key: bool,
    expecting_value: bool,
)
    ensures
        runs(final(parts)@) == if token@.len() == 0 {
            runs(old(parts)@)
        } else {
            runs(old(parts)@).push(
                plain_run(token@, bare_color(token@, expecting_key, expecting_value)),
            )
        },
{
    if token.len() == 0 {
        return ;
    }
    let text = string_from(token);
    let color = if expecting_key {
        span_key_color()
    } else if expecting_value {
        span_value_color(text.as_str())
    } else {
        Color::Reset
    };
    push_part(parts, text.as_str(), color, false);
}

/// The text `s` with spaces behind it, up to a length of `width`.
pub fn pad(s: &str, width: usize) -> (r: String)
    ensures
        r@ == padded(s@, width as int),
{
    let mut chars = chars_of(s);
    let ghost start = chars@;
    assert(start + Seq::new(0, |i: int| ' ') =~= start);
    while chars.len() < width
        invariant
            start == s@,
            start.len() <= chars@.len(),
            start.len() < width ==> chars@.len() <= width,
            start.len() >= width ==> chars@ == start,
            chars@ == start + Seq::new((chars@.len() - start.len()) as nat, |i: int| ' '),
        decreases width - chars@.len(),
    {
        chars.push(' ');
        assert(chars@ =~= start + Seq::new((chars@.len() - start.len()) as nat, |i: int| ' '));
    }
    string_from(chars.as_slice())
}

impl EntryRenderer {
    /// A renderer for a view.
    pub fn from(state: &ViewState) -> (r: EntryRenderer)
        ensures
            r.options.show_spans == state@.show_spans,
    {
        EntryRenderer { options: RenderOptions::from(state) }
    }

    /// An entry as text.
    pub fn plain_text(self, entry: &LogEntry) -> (r: String)
        ensures
            r@ == entry_text(entry@, self.options.show_spans),
    {
        proof {
            law_entry_runs_keep_the_text(entry@, self.options.show_spans);
        }
        let parts = self.parts(entry);
        EntryRenderer::plain_text_from_parts(parts.as_slice())
    }

    /// The text that `parts` make up.
    pub fn plain_text_from_parts(parts: &[Part]) -> (r: String)
        ensures
            r@ == run_text(runs(parts@)),
    {
        let ghost all = runs(parts@);
        let mut text = String::new();
        let mut i: usize = 0;
        assert(text@ =~= run_text(all.take(0)));
        while i < parts.len()
            invariant
                i <= parts@.len(),
                all == runs(parts@),
                text@ == run_text(all.take(i as int)),
            decreases parts@.len() - i,
        {
            assert(all.take(i + 1).drop_last() =~= all.take(i as int));
            assert(all.take(i + 1).last() == parts@[i as int]@);
            text.append(parts[i].text.as_str());
            i = i + 1;
        }
        assert(all.take(i as int) =~= all);
        text
    }

    /// An entry in parts, in the order in which they are drawn.
    pub fn parts(self, entry: &LogEntry) -> (r: Vec<Part>)
        ensures
            runs(r@) == entry_runs(entry@, self.options.show_spans),
    {
        let mut parts: Vec<Part> = Vec::new();
        push_mark(&mut parts, entry.stream);
        assert(runs(parts@) =~= mark_runs(entry.stream));
        push_timestamp(&mut parts, &entry.timestamp);
        push_level(&mut parts, entry.parsed, entry.level);
        let ghost before = runs(parts@);
        match &entry.target {
            Some(target) => self.push_target_parts(&mut parts, target.as_str()),
            None => {
                assert(before + Seq::<RunSpec>::empty() =~= before);
            },
        }
        let ghost before = runs(parts@);
        if self.options.show_spans {
            self.push_span_parts(&mut parts, entry.spans.as_slice());
        } else {
            assert(before + Seq::<RunSpec>::empty() =~= before);
        }
        let styled = message_styles(entry.message_parts.as_slice());
        self.push_message_parts(
            &mut parts,
            entry.message.as_str(),
            styled.as_slice(),
            message_color(entry),
        );
        parts
    }

    /// Appends a target, module by module.
    pub fn push_target_parts(self, parts: &mut Vec<Part>, target: &str)
        ensures
            runs(final(parts)@) == runs(old(parts)@) + target_runs(target@),
    {
        let ghost start = runs(parts@);
        let chars = chars_of(target);
        let all = chars.as_slice();
        let end = find_whitespace(all);
        let mut path: &[char] = take(all, end);
        let ghost whole = path_runs(path@);
        loop
            invariant_except_break
                start + whole == runs(parts@) + path_runs(path@),
            ensures
                start + whole == runs(parts@),
            decreases path@.len(),
        {
            match push_module_part(parts, path) {
                Some(rest) => {
                    path = rest;
                },
                None => {
                    break ;
                },
            }
        }
        if end < all.len() {
            push_plain(parts, skip(all, end), Color::DarkGrey);
        }
        push_colon(parts);
        assert(runs(parts@) =~= start + target_runs(target@));
    }

    /// Appends spans, each with a colon behind it.
    pub fn push_span_parts(self, parts: &mut Vec<Part>, spans: &[String])
        ensures
            runs(final(parts)@) == runs(old(parts)@) + spans_runs(texts(spans@)),
    {
        let ghost start = runs(parts@);
        let ghost all = texts(spans@);
        let mut i: usize = 0;
        assert(start + spans_runs(all.take(0)) =~= start);
        while i < spans.len()
            invariant
                i <= spans@.len(),
                all == texts(spans@),
                runs(parts@) == start + spans_runs(all.take(i as int)),
            decreases spans@.len() - i,
        {
            assert(all.take(i + 1).drop_last() =~= all.take(i as int));
            assert(all.take(i + 1).last() == spans@[i as int]@);
            self.push_span_part(parts, spans[i].as_str());
            push_colon(parts);
            i = i + 1;
            assert(runs(parts@) =~= start + spans_runs(all.take(i as int)));
        }
        assert(all.take(i as int) =~= all);
    }

    /// Appends a span: its name, and its fields.
    pub fn push_span_part(self, parts: &mut Vec<Part>, span: &str)
        ensures
            runs(final(parts)@) == runs(old(parts)@) + span_runs(span@),
    {
        let ghost start = runs(parts@);
        let chars = chars_of(span);
        let all = chars.as_slice();
        if let Some(open) = find_char(all, '{') {
            let name = string_from(take(all, open));
            let fields = string_from(skip(all, open));
            push_part(parts, name.as_str(), span_name_color(name.as_str()), false);
            self.push_span_fields(parts, fields.as_str());
        } else {
            push_part(parts, span, span_name_color(span), false);
        }
        assert(runs(parts@) =~= start + span_runs(span@));
    }

    /// Appends the fields of a span.
    pub fn push_span_fields(self, parts: &mut Vec<Part>, fields: &str)
        ensures
            runs(final(parts)@) == runs(old(parts)@) + span_field_runs(fields@, true, false),
    {
        let ghost start = runs(parts@);
        let ghost whole = span_field_runs(fields@, true, false);
        let chars = chars_of(fields);
        let mut rest: &[char] = chars.as_slice();
        let mut expecting_key = true;
        let mut expecting_value = false;
        while rest.len() > 0
            invariant
                start + whole == runs(parts@) + span_field_runs(
                    rest@,
                    expecting_key,
                    expecting_value,
                ),
            decreases rest@.len(),
        {
            let ghost before = runs(parts@);
            let ghost more = span_field_runs(rest@, expecting_key, expecting_value);
            proof {
                lemma_quoted_end(rest@);
                lemma_bare_end(rest@);
            }
            let c = rest[0];
            let end: usize;
            if c == '"' {
                end = quoted_length(rest);
                push_plain(parts, take(rest, end), string_color());
                expecting_value = false;
            } else if c == '=' || c == ':' {
                end = 1;
                push_plain(parts, take(rest, end), span_punctuation_color());
                expecting_key = false;
                expecting_value = true;
            } else if is_punctuation(c) {
                end = 1;
                push_plain(parts, take(rest, end), span_punctuation_color());
                expecting_key = c == '{' || c == ',' || c == '(';
                expecting_value = false;
            } else if is_whitespace(c) {
                end = 1;
                push_plain(parts, take(rest, end), Color::Reset);
                expecting_key = !expecting_value;
            } else {
                end = bare_length(rest);
                flush_span_token(parts, take(rest, end), expecting_key, expecting_value);
            }
            let tail = skip(rest, end);
            assert(before + more =~= runs(parts@) + span_field_runs(
                tail@,
                expecting_key,
                expecting_value,
            ));
            rest = tail;
        }
        assert(start + whole =~= runs(parts@));
    }

    /// Appends a message: by its pieces where it has some, else with its quoted
    /// texts set off.
    pub fn push_message_parts(
        self,
        parts: &mut Vec<Part>,
        message: &str,
        message_parts: &[StyledText],
        base_color: Color,
    )
        ensures
            runs(final(parts)@) == runs(old(parts)@) + message_runs(
                message@,
                styled_view(message_parts@),
                base_color,
            ),
    {
        let ghost start = runs(parts@);
        if message_parts.len() > 0 {
            let ghost whole = piece_runs(styled_view(message_parts@), base_color);
            let mut i: usize = 0;
            while i < message_parts.len()
                invariant
                    i <= message_parts@.len(),
                    whole == piece_runs(styled_view(message_parts@), base_color),
                    runs(parts@) == start + whole.take(i as int),
                decreases message_parts@.len() - i,
            {
                let (color, bold) = message_part_style(message_parts[i].style, base_color);
                push_part(parts, message_parts[i].text.as_str(), color, bold);
                i = i + 1;
                assert(runs(parts@) =~= start + whole.take(i as int));
            }
            assert(whole.take(i as int) =~= whole);
            return ;
        }
        let ghost whole = quoted_runs(message@, base_color);
        let chars = chars_of(message);
        let mut rest: &[char] = chars.as_slice();
        while rest.len() > 0
            invariant
                start + whole == runs(parts@) + quoted_runs(rest@, base_color),
            decreases rest@.len(),
        {
            let ghost before = runs(parts@);
            let ghost more = quoted_runs(rest@, base_color);
            proof {
                lemma_position_of(rest@, '"');
            }
            let end: usize;
            if rest[0] == '"' {
                end = quoted_length(rest);
                push_plain(parts, take(rest, end), string_color());
            } else {
                end = match find_char(rest, '"') {
                    Some(i) => i,
                    None => rest.len(),
                };
                push_plain(parts, take(rest, end), base_color);
            }
            let tail = skip(rest, end);
            assert(rest@.take(rest@.len() as int) =~= rest@);
            assert(before + more =~= runs(parts@) + quoted_runs(tail@, base_color));
            rest = tail;
        }
        assert(start + whole =~= runs(parts@));
    }
}

/// The text of the selected entry.
pub open spec fn selected_text(view: ViewSpec, entries: Seq<EntrySpec>) -> Option<Seq<char>> {
    match view.selected {
        Some(i) if i < entries.len() => Some(entry_text(entries[i], view.show_spans)),
        _ => None,
    }
}

/// The selected line as text, as it is drawn.
pub fn selected_line_text(entries: &VecDeque<LogEntry>, state: &ViewState) -> (r: Option<String>)
    ensures
        text_of(r) == selected_text(state@, entries_view(entries@)),
{
    match state.selected {
        Some(selected) if selected < entries.len() => Some(
            EntryRenderer::from(state).plain_text(&entries[selected]),
        ),
        _ => None,
    }
}

} // verus!
