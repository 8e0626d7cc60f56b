//! Spans and the target in front of a message.

use vstd::prelude::*;

use crate::model::{
    fields_view, sections_view, traced, FieldSpec, SectionSpec, TraceValue, TraceValueField,
    TraceValueSection,
};
use crate::parser::fields::{
    field_sequence, parse_tracing_field_sequence, MAX_TRACING_FIELD_PARSE_STEPS,
};
use crate::parser::nesting::{pieces, split_top_level};
use crate::text::{
    all_ink, chars_of, find_char, is_ascii_digit, is_ascii_letter, is_digit, is_letter, is_white,
    is_whitespace, is_word, lemma_position_of, lemma_trimmed_start, lemma_trimmed_start_passes,
    position, position_of, push_all, skip, slices, string_from, take, text_of, texts, trim,
    trim_start, trimmed, trimmed_end, trimmed_start,
};

verus! {

/// How many braces are open before position `i` of `s`. A closing brace that
/// nothing opened is passed over.
pub open spec fn brace_depth(s: Seq<char>, i: int) -> nat
    decreases i,
{
    if i <= 0 {
        0
    } else {
        let before = brace_depth(s, i - 1);
        if s[i - 1] == '{' {
            before + 1
        } else if s[i - 1] == '}' && before > 0 {
            (before - 1) as nat
        } else {
            before
        }
    }
}

/// A colon stands before or behind position `i` of `s`.
pub open spec fn in_path_separator(s: Seq<char>, i: int) -> bool {
    (i > 0 && s[i - 1] == ':') || (i + 1 < s.len() && s[i + 1] == ':')
}

/// Position `i` of `s` holds a single colon outside of braces.
pub open spec fn is_span_separator(s: Seq<char>, i: int) -> bool {
    s[i] == ':' && brace_depth(s, i) == 0 && !in_path_separator(s, i)
}

/// Position `i` of `s` holds a colon outside of braces that white space follows.
pub open spec fn is_target_separator(s: Seq<char>, i: int) -> bool {
    s[i] == ':' && brace_depth(s, i) == 0 && i + 1 < s.len() && is_white(s[i + 1])
}

/// The first position from `i` on of a single colon outside of braces.
pub open spec fn span_separator(s: Seq<char>, i: int) -> Option<int>
    decreases s.len() - i,
{
    if i >= s.len() {
        None
    } else if is_span_separator(s, i) {
        Some(i)
    } else {
        span_separator(s, i + 1)
    }
}

/// The first position from `i` on of a colon outside of braces that white space
/// follows.
pub open spec fn target_separator(s: Seq<char>, i: int) -> Option<int>
    decreases s.len() - i,
{
    if i >= s.len() {
        None
    } else if is_target_separator(s, i) {
        Some(i)
    } else {
        target_separator(s, i + 1)
    }
}

/// `s` holds two colons in a row.
pub open spec fn has_path(s: Seq<char>) -> bool {
    exists|i: int| 0 <= i < s.len() - 1 && #[trigger] s[i] == ':' && s[i + 1] == ':'
}

/// Letters, digits, underscores and dashes only.
pub open spec fn is_name(s: Seq<char>) -> bool {
    forall|i: int|
        0 <= i < s.len() ==> is_letter(#[trigger] s[i]) || is_digit(s[i]) || s[i] == '_' || s[i]
            == '-'
}

/// A name, and fields in braces behind it where there is a brace.
pub open spec fn is_span(s: Seq<char>) -> bool {
    match position_of(s, '{') {
        Some(open) => s.last() == '}' && is_name(s.take(open)),
        None => is_name(s),
    }
}

/// `s` goes on with a span before the next single colon.
pub open spec fn span_follows(s: Seq<char>) -> bool {
    match span_separator(s, 0) {
        None => false,
        Some(i) => {
            let candidate = trimmed(s.take(i));
            !has_path(candidate) && candidate.len() > 0 && is_span(candidate)
        },
    }
}

/// `s` goes on with a bare span name before the next single colon.
pub open spec fn bare_span_follows(s: Seq<char>) -> bool {
    match span_separator(s, 0) {
        None => false,
        Some(i) => {
            let candidate = trimmed(s.take(i));
            !has_path(candidate) && !candidate.contains('{') && is_name(candidate)
        },
    }
}

/// `candidate` is a span in front of `rest`: one with fields always, a bare name
/// only where another span follows. After a first span any span will do, before
/// it only a bare one.
pub open spec fn is_leading_span(
    candidate: Seq<char>,
    rest: Seq<char>,
    has_span_prefix: bool,
) -> bool {
    &&& !has_path(candidate)
    &&& candidate.len() > 0
    &&& is_span(candidate)
    &&& candidate.contains('{') || (if has_span_prefix {
        span_follows(rest)
    } else {
        bare_span_follows(rest)
    })
}

/// The spans that `s` starts with, and what stands behind them.
pub open spec fn leading_spans(s: Seq<char>, has_span_prefix: bool) -> (Seq<Seq<char>>, Seq<char>)
    decreases s.len(),
    via leading_spans_decreases
{
    match span_separator(s, 0) {
        None => (Seq::empty(), s),
        Some(i) => {
            let candidate = trimmed(s.take(i));
            let rest = trimmed_start(s.skip(i + 1));
            if is_leading_span(candidate, rest, has_span_prefix) {
                let (spans, tail) = leading_spans(rest, true);
                (seq![candidate] + spans, tail)
            } else {
                (Seq::empty(), s)
            }
        },
    }
}

#[via_fn]
proof fn leading_spans_decreases(s: Seq<char>, has_span_prefix: bool) {
    lemma_span_separator(s, 0);
    if let Some(i) = span_separator(s, 0) {
        lemma_trimmed_start(s.skip(i + 1));
    }
}

/// The target, the spans and the message of what follows the level of a line.
pub open spec fn target_and_message(s: Seq<char>) -> (
    Option<Seq<char>>,
    Seq<Seq<char>>,
    Seq<char>,
) {
    let (spans, rest) = leading_spans(s, false);
    match target_separator(rest, 0) {
        Some(i) => {
            let target = trimmed(rest.take(i));
            let (more, message) = leading_spans(trimmed_start(rest.skip(i + 1)), false);
            (
                if target.len() == 0 {
                    None
                } else {
                    Some(target)
                },
                spans + more,
                message,
            )
        },
        None => (None, spans, rest),
    }
}

/// The position of the first equals sign or colon in `s`.
pub open spec fn assignment(s: Seq<char>) -> Option<int>
    decreases s.len(),
{
    if s.len() == 0 {
        None
    } else if s[0] == '=' || s[0] == ':' {
        Some(0)
    } else {
        match assignment(s.drop_first()) {
            Some(i) => Some(i + 1),
            None => None,
        }
    }
}

/// The field that `s` is: a key, an equals sign or a colon, and a value.
pub open spec fn span_field(s: Seq<char>) -> Option<FieldSpec> {
    match assignment(s) {
        None => None,
        Some(i) => {
            let key = trimmed(s.take(i));
            let value = trimmed(s.skip(i + 1));
            if key.len() == 0 || value.len() == 0 {
                None
            } else {
                Some(FieldSpec { key, value: traced(value) })
            }
        },
    }
}

/// The fields in one segment between the braces of a span.
pub open spec fn segment_fields(s: Seq<char>) -> Seq<FieldSpec> {
    match field_sequence(s, MAX_TRACING_FIELD_PARSE_STEPS as nat).0 {
        Some(fields) => fields,
        None => match span_field(s) {
            Some(field) => seq![field],
            None => Seq::empty(),
        },
    }
}

/// The fields in all segments, in their order.
pub open spec fn all_segment_fields(segments: Seq<Seq<char>>) -> Seq<FieldSpec>
    decreases segments.len(),
{
    if segments.len() == 0 {
        Seq::empty()
    } else {
        all_segment_fields(segments.drop_last()) + segment_fields(segments.last())
    }
}

/// The section of the fields of a span, if it has any.
pub open spec fn span_section(span: Seq<char>) -> Option<SectionSpec> {
    match position_of(span, '{') {
        None => None,
        Some(open) => {
            let fields = all_segment_fields(
                pieces(span.subrange(open + 1, span.len() - 1), ',', 0, 0),
            );
            if span.last() != '}' || fields.len() == 0 {
                None
            } else {
                Some(SectionSpec { title: "scope: "@ + trimmed(span.take(open)), fields })
            }
        },
    }
}

/// The sections of the spans that have fields, in their order.
pub open spec fn span_sections(spans: Seq<Seq<char>>) -> Seq<SectionSpec>
    decreases spans.len(),
{
    if spans.len() == 0 {
        Seq::empty()
    } else {
        let before = span_sections(spans.drop_last());
        match span_section(spans.last()) {
            Some(section) => before.push(section),
            None => before,
        }
    }
}

pub proof fn lemma_span_separator(s: Seq<char>, i: int)
    requires
        0 <= i,
    ensures
        span_separator(s, i) matches Some(j) ==> i <= j < s.len() && s[j] == ':',
    decreases s.len() - i,
{
    if i < s.len() && !is_span_separator(s, i) {
        lemma_span_separator(s, i + 1);
    }
}

proof fn lemma_brace_depth(s: Seq<char>, i: int)
    requires
        0 <= i <= s.len(),
    ensures
        brace_depth(s, i) <= i,
    decreases i,
{
    if i > 0 {
        lemma_brace_depth(s, i - 1);
    }
}

/// What is left behind leading spans is the end of the text, and each of them is a
/// span.
pub proof fn law_spans_leave_the_end(s: Seq<char>, has_span_prefix: bool)
    ensures
        ({
            let (spans, rest) = leading_spans(s, has_span_prefix);
            &&& rest.len() <= s.len()
            &&& rest == s.skip(s.len() - rest.len())
            &&& forall|i: int|
                0 <= i < spans.len() ==> is_span(#[trigger] spans[i]) && !has_path(spans[i])
        }),
    decreases s.len(),
{
    assert(s.skip(0) =~= s);
    lemma_span_separator(s, 0);
    if let Some(i) = span_separator(s, 0) {
        let candidate = trimmed(s.take(i));
        let tail = trimmed_start(s.skip(i + 1));
        lemma_trimmed_start(s.skip(i + 1));
        if is_leading_span(candidate, tail, has_span_prefix) {
            law_spans_leave_the_end(tail, true);
            let (spans, rest) = leading_spans(tail, true);
            assert(rest =~= s.skip(s.len() - rest.len()));
            let all = leading_spans(s, has_span_prefix).0;
            assert forall|k: int| 0 <= k < all.len() implies is_span(#[trigger] all[k])
                && !has_path(all[k]) by {
                if k > 0 {
                    assert(all[k] == spans[k - 1]);
                }
            }
        }
    }
}

/// The braces of `s` are balanced: none is open at its end.
pub open spec fn is_closed(s: Seq<char>) -> bool {
    brace_depth(s, s.len() as int) == 0
}

/// Outside of braces, `s` holds colons in pairs only, and does not end with one.
pub open spec fn has_no_separator(s: Seq<char>) -> bool {
    &&& s.len() > 0 ==> s.last() != ':'
    &&& forall|i: int|
        0 <= i < s.len() && #[trigger] s[i] == ':' && brace_depth(s, i) == 0 ==> in_path_separator(
            s,
            i,
        )
}

proof fn lemma_brace_depth_of_prefix(a: Seq<char>, b: Seq<char>, i: int)
    requires
        0 <= i <= a.len(),
    ensures
        brace_depth(a + b, i) == brace_depth(a, i),
    decreases i,
{
    if i > 0 {
        lemma_brace_depth_of_prefix(a, b, i - 1);
    }
}

/// The first colon that separates stands behind a text that has none.
pub proof fn lemma_separators_behind(head: Seq<char>, rest: Seq<char>, i: int)
    requires
        0 <= i <= head.len(),
        head.len() > 0,
        is_closed(head),
        has_no_separator(head),
        rest.len() > 0,
        rest[0] != ':',
    ensures
        span_separator(head + seq![':'] + rest, i) == Some(head.len() as int),
        is_white(rest[0]) && all_ink(head) ==> target_separator(head + seq![':'] + rest, i)
            == Some(head.len() as int),
    decreases head.len() - i,
{
    let s = head + seq![':'] + rest;
    let b = seq![':'] + rest;
    assert(s =~= head + b);
    lemma_brace_depth_of_prefix(head, b, i);
    if i < head.len() {
        lemma_separators_behind(head, rest, i + 1);
        assert(s[i] == head[i]);
        if head[i] == ':' && brace_depth(head, i) == 0 {
            assert(in_path_separator(head, i));
            assert(i + 1 < head.len());
            assert(s[i + 1] == head[i + 1]);
            if i > 0 {
                assert(s[i - 1] == head[i - 1]);
            }
        }
    } else {
        assert(s[i] == ':');
        assert(s[i - 1] == head.last());
        assert(s[i + 1] == rest[0]);
    }
}

/// A span with fields is taken off the start of a text, whatever follows it.
pub proof fn law_spans_with_fields_are_taken(
    span: Seq<char>,
    rest: Seq<char>,
    has_span_prefix: bool,
)
    requires
        is_span(span),
        span.contains('{'),
        !has_path(span),
        is_closed(span),
        !is_white(span[0]),
        has_no_separator(span),
        rest.len() > 0,
        rest[0] != ':',
    ensures
        leading_spans(span + seq![':'] + rest, has_span_prefix) == (
            seq![span] + leading_spans(trimmed_start(rest), true).0,
            leading_spans(trimmed_start(rest), true).1,
        ),
{
    let s = span + seq![':'] + rest;
    lemma_position_of(span, '{');
    assert(span.len() > 0);
    lemma_separators_behind(span, rest, 0);
    assert(s.take(span.len() as int) =~= span);
    assert(s.skip(span.len() as int + 1) =~= rest);
    assert(trimmed_start(span) == span);
    assert(trimmed_end(span) == span);
}

/// A target and a message behind it are told apart. The target stands outside of
/// braces and holds colons in pairs only. Where it is a bare name, the message must
/// not start with one, or the two would be taken for spans.
pub proof fn law_target_and_message_are_told_apart(target: Seq<char>, message: Seq<char>)
    requires
        is_word(target),
        !target.contains('{'),
        is_closed(target),
        has_no_separator(target),
        message.len() > 0,
        !is_white(message[0]),
        has_path(target) || !bare_span_follows(message),
    ensures
        target_and_message(target + seq![':'] + (seq![' '] + message)) == (
            Some(target),
            leading_spans(message, false).0,
            leading_spans(message, false).1,
        ),
{
    let behind = seq![' '] + message;
    let s = target + seq![':'] + behind;
    lemma_separators_behind(target, behind, 0);
    assert(s.take(target.len() as int) =~= target);
    assert(s.skip(target.len() as int + 1) =~= behind);
    lemma_trimmed_start_passes(seq![' '], message);
    assert(trimmed_start(message) == message);
    assert(!is_white(target[0]) && !is_white(target.last()));
    assert(trimmed_start(target) == target);
    assert(trimmed_end(target) == target);
    assert(leading_spans(s, false) == (Seq::<Seq<char>>::empty(), s));
    let more = leading_spans(message, false).0;
    assert(Seq::<Seq<char>>::empty() + more =~= more);
}

/// The sections of spans come in their order, and a span without fields has none.
/// The fields of segments come in their order, too.
pub proof fn law_sections_and_segments_grow(
    spans: Seq<Seq<char>>,
    span: Seq<char>,
    segments: Seq<Seq<char>>,
    segment: Seq<char>,
)
    ensures
        span_sections(Seq::empty()) == Seq::<SectionSpec>::empty(),
        span_sections(spans.push(span)) == span_sections(spans) + match span_section(span) {
            Some(section) => seq![section],
            None => Seq::empty(),
        },
        all_segment_fields(Seq::empty()) == Seq::<FieldSpec>::empty(),
        all_segment_fields(segments.push(segment)) == all_segment_fields(segments)
            + segment_fields(segment),
{
    assert(spans.push(span).drop_last() =~= spans);
    assert(segments.push(segment).drop_last() =~= segments);
    assert(span_sections(spans.push(span)) =~= span_sections(spans) + match span_section(span) {
        Some(section) => seq![section],
        None => Seq::empty(),
    });
}

proof fn lemma_assignment_behind(key: Seq<char>, c: char, rest: Seq<char>)
    requires
        !key.contains('='),
        !key.contains(':'),
        c == '=' || c == ':',
    ensures
        assignment(key + seq![c] + rest) == Some(key.len() as int),
    decreases key.len(),
{
    let s = key + seq![c] + rest;
    if key.len() > 0 {
        let tail = key.drop_first();
        assert(key.contains(key[0]));
        assert forall|i: int| 0 <= i < tail.len() implies tail[i] != '=' && tail[i] != ':' by {
            assert(key.contains(key[i + 1]));
        }
        lemma_assignment_behind(tail, c, rest);
        assert(s.drop_first() =~= tail + seq![c] + rest);
    }
}

/// A key, an equals sign or a colon, and a value are a field, whatever white space
/// stands around them. Without a key, a value or a sign between them there is none.
pub proof fn law_assignments_are_fields(key: Seq<char>, c: char, value: Seq<char>)
    requires
        !key.contains('='),
        !key.contains(':'),
        c == '=' || c == ':',
    ensures
        span_field(key + seq![c] + value) == if trimmed(key).len() == 0 || trimmed(value).len()
            == 0 {
            None
        } else {
            Some(FieldSpec { key: trimmed(key), value: traced(trimmed(value)) })
        },
        span_field(key) is None,
        c == ':' && !value.contains('=') && trimmed(key).len() > 0 && trimmed(value).len() > 0
            ==> segment_fields(key + seq![c] + value) == seq![
            FieldSpec { key: trimmed(key), value: traced(trimmed(value)) },
        ],
{
    let s = key + seq![c] + value;
    lemma_assignment_behind(key, c, value);
    assert(s.take(key.len() as int) =~= key);
    assert(s.skip(key.len() as int + 1) =~= value);
    lemma_no_assignment(key);
    if c == ':' && !value.contains('=') {
        let text = trimmed_start(s);
        lemma_trimmed_start(s);
        lemma_position_of(text, '=');
        if let Some(at) = position_of(text, '=') {
            let k = at + (s.len() - text.len());
            assert(text[at] == s[k]);
            if k < key.len() {
                assert(key.contains(key[k]));
            } else {
                assert(value.contains(value[k - key.len() - 1]));
            }
        }
    }
}

proof fn lemma_no_assignment(key: Seq<char>)
    requires
        !key.contains('='),
        !key.contains(':'),
    ensures
        assignment(key) is None,
    decreases key.len(),
{
    if key.len() > 0 {
        let tail = key.drop_first();
        assert(key.contains(key[0]));
        assert forall|i: int| 0 <= i < tail.len() implies tail[i] != '=' && tail[i] != ':' by {
            assert(key.contains(key[i + 1]));
        }
        lemma_no_assignment(tail);
    }
}

/// How many of the characters before position `i` of `s` are `c`.
pub open spec fn occurrences(s: Seq<char>, c: char, i: int) -> int
    decreases i,
{
    if i <= 0 {
        0
    } else if s[i - 1] == c {
        occurrences(s, c, i - 1) + 1
    } else {
        occurrences(s, c, i - 1)
    }
}

/// As many braces are open as were opened and not closed, however deep they are.
pub proof fn law_depth_counts_braces(s: Seq<char>, i: int)
    requires
        0 <= i <= s.len(),
        forall|j: int|
            0 <= j <= i ==> #[trigger] occurrences(s, '}', j) <= occurrences(s, '{', j),
    ensures
        brace_depth(s, i) == occurrences(s, '{', i) - occurrences(s, '}', i),
    decreases i,
{
    if i > 0 {
        law_depth_counts_braces(s, i - 1);
        assert(occurrences(s, '}', i) <= occurrences(s, '{', i));
    }
}

/// A text without colons has neither a target nor spans.
pub proof fn law_text_without_colons_is_a_message(s: Seq<char>)
    requires
        !s.contains(':'),
    ensures
        target_and_message(s) == (None::<Seq<char>>, Seq::<Seq<char>>::empty(), s),
{
    lemma_span_separator(s, 0);
    lemma_target_separator(s, 0);
}

proof fn lemma_target_separator(s: Seq<char>, i: int)
    requires
        0 <= i,
    ensures
        target_separator(s, i) matches Some(j) ==> i <= j < s.len() && s[j] == ':',
    decreases s.len() - i,
{
    if i < s.len() && !is_target_separator(s, i) {
        lemma_target_separator(s, i + 1);
    }
}

/// The sections of the spans that have fields.
pub fn span_value_sections(spans: &[String]) -> (r: Vec<TraceValueSection>)
    ensures
        sections_view(r@) == span_sections(texts(spans@)),
{
    let ghost all = texts(spans@);
    let mut out: Vec<TraceValueSection> = Vec::new();
    let mut i: usize = 0;
    assert(sections_view(out@) =~= span_sections(all.take(0)));
    while i < spans.len()
        invariant
            i <= spans@.len(),
            all == texts(spans@),
            sections_view(out@) == span_sections(all.take(i as int)),
        decreases spans@.len() - i,
    {
        let ghost before = sections_view(out@);
        assert(all.take(i + 1).drop_last() =~= all.take(i as int));
        assert(all.take(i + 1).last() == spans@[i as int]@);
        let chars = chars_of(spans[i].as_str());
        if let Some(section) = section_of_span(chars.as_slice()) {
            let ghost item = section@;
            out.push(section);
            assert(sections_view(out@) =~= before.push(item));
        }
        i = i + 1;
    }
    assert(all.take(i as int) =~= all);
    out
}

/// The section of the fields of a span, if it has any.
fn section_of_span(span: &[char]) -> (r: Option<TraceValueSection>)
    ensures
        r is Some <==> span_section(span@) is Some,
        r matches Some(section) ==> section@ == span_section(span@).unwrap(),
{
    let open = match find_char(span, '{') {
        Some(open) => open,
        None => {
            return None;
        },
    };
    let len: usize = span.len();
    if span[len - 1] != '}' {
        return None;
    }
    assert(open < len - 1);
    let inner = vstd::slice::slice_subrange(span, open + 1, len - 1);
    let segments = split_top_level(inner, ',');
    let ghost all = slices(segments@);
    let mut fields: Vec<TraceValueField> = Vec::new();
    let mut i: usize = 0;
    assert(fields_view(fields@) =~= all_segment_fields(all.take(0)));
    while i < segments.len()
        invariant
            i <= segments@.len(),
            all == slices(segments@),
            fields_view(fields@) == all_segment_fields(all.take(i as int)),
        decreases segments@.len() - i,
    {
        assert(all.take(i + 1).drop_last() =~= all.take(i as int));
        assert(all.take(i + 1).last() == segments@[i as int]@);
        let ghost before = fields_view(fields@);
        let mut more = span_segment_value_fields(segments[i]);
        let ghost added = fields_view(more@);
        fields.append(&mut more);
        assert(fields_view(fields@) =~= before + added);
        i = i + 1;
    }
    assert(all.take(i as int) =~= all);
    if fields.len() == 0 {
        return None;
    }
    let mut title = chars_of("scope: ");
    push_all(&mut title, trim(take(span, open)));
    let title_text = string_from(title.as_slice());
    Some(TraceValueSection::new(title_text.as_str(), fields))
}

/// The fields in one segment between the braces of a span.
pub fn span_segment_value_fields(segment: &[char]) -> (r: Vec<TraceValueField>)
    ensures
        fields_view(r@) == segment_fields(segment@),
{
    if let Some(fields) = parse_tracing_field_sequence(segment) {
        return fields;
    }
    let mut fields: Vec<TraceValueField> = Vec::new();
    if let Some(field) = parse_span_value_field(segment) {
        let ghost item = field@;
        fields.push(field);
        assert(fields_view(fields@) =~= seq![item]);
    } else {
        assert(fields_view(fields@) =~= Seq::empty());
    }
    fields
}

/// The field that `field` is: a key, an equals sign or a colon, and a value.
pub fn parse_span_value_field(field: &[char]) -> (r: Option<TraceValueField>)
    ensures
        r is Some <==> span_field(field@) is Some,
        r matches Some(item) ==> item@ == span_field(field@).unwrap(),
{
    let mut i: usize = 0;
    assert(field@.skip(0) =~= field@);
    while i < field.len() && !(field[i] == '=' || field[i] == ':')
        invariant
            i <= field@.len(),
            assignment(field@) == match assignment(field@.skip(i as int)) {
                Some(j) => Some(i + j),
                None => None,
            },
        decreases field@.len() - i,
    {
        assert(field@.skip(i as int).drop_first() =~= field@.skip(i + 1));
        i = i + 1;
    }
    if i >= field.len() {
        return None;
    }
    let key = trim(take(field, i));
    let value = trim(skip(field, i + 1));
    if key.len() == 0 || value.len() == 0 {
        return None;
    }
    let key_text = string_from(key);
    let value_text = string_from(value);
    Some(
        TraceValueField::new(
            key_text.as_str(),
            TraceValue::from_tracing_text(value_text.as_str()),
        ),
    )
}

/// The target, the spans and the message of what follows the level of a line.
pub fn split_tracing_target_message(rest: &[char]) -> (r: (Option<String>, Vec<String>, String))
    ensures
        (text_of(r.0), texts(r.1@), r.2@) == target_and_message(rest@),
{
    let (mut spans, rest) = extract_leading_spans(rest);
    let ghost first = texts(spans@);
    assert(rest@.len() == rest.len());
    if let Some(i) = find_target_separator(rest) {
        let target = string_from(trim(take(rest, i)));
        let (mut more, message) = extract_leading_spans(trim_start(skip(rest, i + 1)));
        let ghost second = texts(more@);
        spans.append(&mut more);
        assert(texts(spans@) =~= first + second);
        return (non_empty(target), spans, string_from(message));
    }
    (None, spans, string_from(rest))
}

/// The first colon outside of braces that white space follows.
pub fn find_target_separator(rest: &[char]) -> (r: Option<usize>)
    ensures
        position(r) == target_separator(rest@, 0),
        r matches Some(i) ==> i < rest@.len(),
{
    let mut depth: usize = 0;
    let mut i: usize = 0;
    while i < rest.len()
        invariant
            i <= rest@.len(),
            depth == brace_depth(rest@, i as int),
            target_separator(rest@, 0) == target_separator(rest@, i as int),
        decreases rest@.len() - i,
    {
        proof {
            lemma_brace_depth(rest@, i as int);
        }
        assert(rest@.len() == rest.len());
        match rest[i] {
            '{' => {
                depth = depth.saturating_add(1);
            },
            '}' => {
                depth = depth.saturating_sub(1);
            },
            ':' => {
                if depth == 0 && starts_with_whitespace(skip(rest, i + 1)) {
                    return Some(i);
                }
            },
            _ => {},
        }
        i = i + 1;
    }
    None
}

/// Takes the spans off the start of `message`.
pub fn extract_leading_spans(message: &[char]) -> (r: (Vec<String>, &[char]))
    ensures
        (texts(r.0@), r.1@) == leading_spans(message@, false),
{
    let mut spans: Vec<String> = Vec::new();
    let mut rest: &[char] = message;
    let ghost all = leading_spans(message@, false);
    assert(texts(spans@) =~= Seq::empty());
    assert(texts(spans@) + all.0 =~= all.0);
    loop
        invariant
            all == leading_spans(message@, false),
            all.0 == texts(spans@) + leading_spans(rest@, spans@.len() > 0).0,
            all.1 == leading_spans(rest@, spans@.len() > 0).1,
        ensures
            (texts(spans@), rest@) == all,
        decreases rest@.len(),
    {
        assert(texts(spans@) + Seq::<Seq<char>>::empty() =~= texts(spans@));
        let i = match find_leading_span_separator(rest) {
            Some(i) => i,
            None => {
                break ;
            },
        };
        assert(rest@.len() == rest.len());
        let candidate = trim(take(rest, i));
        let tail = trim_start(skip(rest, i + 1));
        if !looks_like_span(candidate, tail, spans.len() > 0) {
            break ;
        }
        proof {
            lemma_trimmed_start(rest@.skip(i + 1));
            let before = texts(spans@);
            let more = leading_spans(tail@, true).0;
            assert(before + (seq![candidate@] + more) =~= before.push(candidate@) + more);
        }
        let ghost before = texts(spans@);
        spans.push(string_from(candidate));
        assert(texts(spans@) =~= before.push(candidate@));
        rest = tail;
    }
    (spans, rest)
}

/// The first single colon outside of braces.
pub fn find_leading_span_separator(message: &[char]) -> (r: Option<usize>)
    ensures
        position(r) == span_separator(message@, 0),
        r matches Some(i) ==> i < message@.len(),
{
    let mut depth: usize = 0;
    let mut i: usize = 0;
    while i < message.len()
        invariant
            i <= message@.len(),
            depth == brace_depth(message@, i as int),
            span_separator(message@, 0) == span_separator(message@, i as int),
        decreases message@.len() - i,
    {
        proof {
            lemma_brace_depth(message@, i as int);
        }
        assert(message@.len() == message.len());
        match message[i] {
            '{' => {
                depth = depth.saturating_add(1);
            },
            '}' => {
                depth = depth.saturating_sub(1);
            },
            ':' => {
                if depth == 0 && !is_part_of_path_separator(message, i) {
                    return Some(i);
                }
            },
            _ => {},
        }
        i = i + 1;
    }
    None
}

/// Tells whether a colon stands before or behind position `idx`.
pub fn is_part_of_path_separator(value: &[char], idx: usize) -> (r: bool)
    requires
        idx < value@.len(),
    ensures
        r == in_path_separator(value@, idx as int),
{
    let len: usize = value.len();
    (idx > 0 && value[idx - 1] == ':') || (idx + 1 < len && value[idx + 1] == ':')
}

/// Tells whether `s` holds two colons in a row.
fn contains_path(s: &[char]) -> (r: bool)
    ensures
        r == has_path(s@),
{
    let mut i: usize = 1;
    while i < s.len()
        invariant
            1 <= i,
            forall|j: int| 0 <= j < i - 1 ==> !(#[trigger] s@[j] == ':' && s@[j + 1] == ':'),
        decreases s@.len() - i,
    {
        if s[i - 1] == ':' && s[i] == ':' {
            assert(s@[i - 1] == ':' && s@[(i - 1) + 1] == ':');
            return true;
        }
        i = i + 1;
    }
    false
}

/// Tells whether `candidate` is a span in front of `rest`.
pub fn looks_like_span(candidate: &[char], rest: &[char], has_span_prefix: bool) -> (r: bool)
    ensures
        r == is_leading_span(candidate@, rest@, has_span_prefix),
{
    if contains_path(candidate) || candidate.len() == 0 {
        return false;
    }
    proof {
        lemma_position_of(candidate@, '{');
    }
    if let Some(open) = find_char(candidate, '{') {
        assert(candidate@.contains(candidate@[open as int]));
        return candidate[candidate.len() - 1] == '}' && is_span_name(take(candidate, open));
    }
    is_span_name(candidate) && if has_span_prefix {
        starts_with_span_fragment(rest)
    } else {
        starts_with_bare_span_fragment(rest)
    }
}

/// Tells whether `rest` goes on with a span before the next single colon.
pub fn starts_with_span_fragment(rest: &[char]) -> (r: bool)
    ensures
        r == span_follows(rest@),
{
    let i = match find_leading_span_separator(rest) {
        Some(i) => i,
        None => {
            return false;
        },
    };
    let candidate = trim(take(rest, i));
    if contains_path(candidate) || candidate.len() == 0 {
        return false;
    }
    match find_char(candidate, '{') {
        Some(open) => candidate[candidate.len() - 1] == '}' && is_span_name(take(candidate, open)),
        None => is_span_name(candidate),
    }
}

/// Tells whether `rest` goes on with a bare span name before the next single
/// colon.
pub fn starts_with_bare_span_fragment(rest: &[char]) -> (r: bool)
    ensures
        r == bare_span_follows(rest@),
{
    let i = match find_leading_span_separator(rest) {
        Some(i) => i,
        None => {
            return false;
        },
    };
    let candidate = trim(take(rest, i));
    proof {
        lemma_position_of(candidate@, '{');
    }
    let brace = find_char(candidate, '{');
    if let Some(open) = brace {
        assert(candidate@.contains(candidate@[open as int]));
    }
    !contains_path(candidate) && brace.is_none() && is_span_name(candidate)
}

/// Tells whether `candidate` holds letters, digits, underscores and dashes only.
pub fn is_span_name(candidate: &[char]) -> (r: bool)
    ensures
        r == is_name(candidate@),
{
    let mut i: usize = 0;
    while i < candidate.len()
        invariant
            i <= candidate@.len(),
            is_name(candidate@.take(i as int)),
        decreases candidate@.len() - i,
    {
        let c = candidate[i];
        if !(is_ascii_letter(c) || is_ascii_digit(c) || c == '_' || c == '-') {
            assert(candidate@[i as int] == c);
            return false;
        }
        assert(candidate@.take(i + 1) =~= candidate@.take(i as int).push(c));
        i = i + 1;
    }
    assert(candidate@.take(i as int) =~= candidate@);
    true
}

/// Tells whether `value` starts with white space.
pub fn starts_with_whitespace(value: &[char]) -> (r: bool)
    ensures
        r == (value@.len() > 0 && is_white(value@[0])),
{
    value.len() > 0 && is_whitespace(value[0])
}

/// A text, unless it is empty.
pub fn non_empty(value: String) -> (r: Option<String>)
    ensures
        text_of(r) == (if value@.len() == 0 {
            None
        } else {
            Some(value@)
        }),
{
    if value.as_str().is_empty() {
        None
    } else {
        Some(value)
    }
}

} // verus!
