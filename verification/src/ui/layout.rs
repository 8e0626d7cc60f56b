//! The part of a line that fits on the screen.

use vstd::prelude::*;

use crate::model::LogEntry;
use crate::text::{chars_of, copy_str, string_from};
use crate::ui::color::{
    on_selection, selected_background, selected_foreground, selection_color, Color,
};
use crate::ui::render::{
    entry_runs, lemma_run_text_concat, lemma_run_text_push, pad, padded, plain_run, run_text, runs,
    EntryRenderer, Part, RunSpec,
};

verus! {

/// The smaller of two numbers.
pub open spec fn smaller(a: int, b: int) -> int {
    if a <= b {
        a
    } else {
        b
    }
}

/// The larger of two numbers.
pub open spec fn larger(a: int, b: int) -> int {
    if a >= b {
        a
    } else {
        b
    }
}

/// At most `width` characters of `s`, from `offset` on.
pub open spec fn window(s: Seq<char>, offset: int, width: int) -> Seq<char> {
    let start = smaller(offset, s.len() as int);
    s.subrange(start, smaller(start + width, s.len() as int))
}

/// At most `width` characters of `input`, from `offset` on.
pub fn visible_slice(input: &str, offset: usize, width: usize) -> (r: String)
    ensures
        r@ == window(input@, offset as int, width as int),
{
    let chars = chars_of(input);
    let len: usize = chars.len();
    let start: usize = if offset <= len {
        offset
    } else {
        len
    };
    let end: usize = if width <= len - start {
        start + width
    } else {
        len
    };
    string_from(vstd::slice::slice_subrange(chars.as_slice(), start, end))
}

/// How a line is fitted into a width: the columns for its text, and the markers
/// for what does not fit on either side.
#[derive(Clone, Copy, Debug, PartialEq, Eq, Structural)]
pub struct LineViewport {
    pub content_width: usize,
    pub show_left_marker: bool,
    pub show_right_marker: bool,
}

/// One for true, zero for false.
pub open spec fn one_if(b: bool) -> int {
    if b {
        1
    } else {
        0
    }
}

/// The viewport of a line leaves one column for each marker. The left marker is
/// there where the line is scrolled and there are columns to spare, the right one
/// where the line goes on behind the columns that are left.
pub open spec fn viewport_of(line_width: int, x_offset: int, width: int) -> LineViewport {
    let left = x_offset > 0 && width > 1;
    let room = width - one_if(left);
    let right = line_width > x_offset + room && room > 0;
    LineViewport {
        content_width: (room - one_if(right)) as usize,
        show_left_marker: left,
        show_right_marker: right,
    }
}

impl LineViewport {
    pub fn new(line_width: usize, x_offset: usize, terminal_width: usize) -> (r: LineViewport)
        ensures
            r == viewport_of(line_width as int, x_offset as int, terminal_width as int),
    {
        let show_left_marker = x_offset > 0 && terminal_width > 1;
        let room: usize = if show_left_marker {
            terminal_width - 1
        } else {
            terminal_width
        };
        let show_right_marker = line_width > x_offset.saturating_add(room) && room > 0;
        let content_width: usize = if show_right_marker {
            room - 1
        } else {
            room
        };
        LineViewport { content_width, show_left_marker, show_right_marker }
    }
}

/// The text and the markers of a line take up the whole width.
pub proof fn law_viewport_fills_the_width(line_width: int, x_offset: int, width: int)
    requires
        0 <= width <= usize::MAX,
    ensures
        ({
            let viewport = viewport_of(line_width, x_offset, width);
            viewport.content_width + one_if(viewport.show_left_marker) + one_if(
                viewport.show_right_marker,
            ) == width
        }),
{
}

/// A text as it is sent to the terminal.
#[derive(Debug, PartialEq, Eq)]
pub struct Segment {
    pub text: String,
    pub foreground: Color,
    pub background: Option<Color>,
    pub bold: bool,
}

/// What a segment holds.
#[verifier::ext_equal]
pub ghost struct SegmentSpec {
    pub text: Seq<char>,
    pub foreground: Color,
    pub background: Option<Color>,
    pub bold: bool,
}

impl View for Segment {
    type V = SegmentSpec;

    open spec fn view(&self) -> SegmentSpec {
        SegmentSpec {
            text: self.text@,
            foreground: self.foreground,
            background: self.background,
            bold: self.bold,
        }
    }
}

/// What each of `segments` holds.
pub open spec fn segments_view(segments: Seq<Segment>) -> Seq<SegmentSpec> {
    Seq::new(segments.len(), |i: int| segments[i]@)
}

/// A run as it is sent to the terminal. A selected one has a background of its
/// own, and colors that go with it.
pub open spec fn drawn(run: RunSpec, selected: bool) -> SegmentSpec {
    if selected {
        SegmentSpec {
            text: run.text,
            foreground: on_selection(run.color),
            background: Some(selection_color()),
            bold: run.bold,
        }
    } else {
        SegmentSpec { text: run.text, foreground: run.color, background: None, bold: run.bold }
    }
}

impl Segment {
    pub fn new(text: &str, color: Color, bold: bool, selected: bool) -> (r: Segment)
        ensures
            r@ == drawn(RunSpec { text: text@, color, bold }, selected),
    {
        if selected {
            Segment {
                text: copy_str(text),
                foreground: selected_foreground(color),
                background: Some(selected_background()),
                bold,
            }
        } else {
            Segment { text: copy_str(text), foreground: color, background: None, bold }
        }
    }
}

/// What of `runs` stands in the columns from `from` up to `to`, as runs.
pub open spec fn clipped(runs: Seq<RunSpec>, from: int, to: int) -> Seq<RunSpec>
    decreases runs.len(),
{
    if runs.len() == 0 {
        Seq::empty()
    } else {
        let before = clipped(runs.drop_last(), from, to);
        let run = runs.last();
        let start = run_text(runs.drop_last()).len();
        let first = larger(from - start, 0);
        let last = smaller(to - start, run.text.len() as int);
        if first < last {
            before.push(RunSpec { text: run.text.subrange(first, last), ..run })
        } else {
            before
        }
    }
}

/// The spaces behind a line that does not fill its columns.
pub open spec fn filling(count: int) -> Seq<RunSpec> {
    if count > 0 {
        seq![plain_run(padded(Seq::empty(), count), Color::White)]
    } else {
        Seq::empty()
    }
}

/// A marker for what does not fit.
pub open spec fn marker(shown: bool, text: Seq<char>) -> Seq<RunSpec> {
    if shown {
        seq![RunSpec { text, color: Color::DarkGrey, bold: true }]
    } else {
        Seq::empty()
    }
}

/// A line in a viewport, as runs.
pub open spec fn fitted(runs: Seq<RunSpec>, x_offset: int, viewport: LineViewport) -> Seq<RunSpec> {
    let width = viewport.content_width as int;
    let shown = window(run_text(runs), x_offset, width).len();
    marker(viewport.show_left_marker, seq!['<']) + clipped(runs, x_offset, x_offset + width)
        + filling(width - shown) + marker(viewport.show_right_marker, seq!['>'])
}

/// A line fitted into `width` columns, as runs.
pub open spec fn line_runs(runs: Seq<RunSpec>, x_offset: int, width: int) -> Seq<RunSpec> {
    if width == 0 {
        Seq::empty()
    } else {
        fitted(runs, x_offset, viewport_of(run_text(runs).len() as int, x_offset, width))
    }
}

/// Runs as they are sent to the terminal.
pub open spec fn drawn_runs(runs: Seq<RunSpec>, selected: bool) -> Seq<SegmentSpec> {
    Seq::new(runs.len(), |i: int| drawn(runs[i], selected))
}

/// A window holds the characters of a text from an offset on, as many as there are and
/// no more than its width.
pub proof fn law_windows_hold_the_columns(s: Seq<char>, offset: int, width: int)
    requires
        0 <= offset,
        0 <= width,
    ensures
        offset + width <= s.len() ==> window(s, offset, width).len() == width,
        offset <= s.len() < offset + width ==> window(s, offset, width).len() == s.len() - offset,
        s.len() < offset ==> window(s, offset, width).len() == 0,
        forall|i: int|
            0 <= i < window(s, offset, width).len() ==> #[trigger] window(s, offset, width)[i]
                == s[offset + i],
{
}

/// The markers of a line: the left one tells that it is scrolled, where there is more
/// than one column, and the right one that it goes on behind the columns that are left.
/// Each takes one column, and the text has the rest.
pub proof fn law_markers_tell_of_hidden_text(line_width: int, x_offset: int, width: int)
    requires
        0 <= line_width,
        0 <= x_offset,
        0 < width <= usize::MAX,
    ensures
        ({
            let viewport = viewport_of(line_width, x_offset, width);
            let left: int = if viewport.show_left_marker {
                1
            } else {
                0
            };
            let right: int = if viewport.show_right_marker {
                1
            } else {
                0
            };
            &&& viewport.show_left_marker <==> x_offset > 0 && width > 1
            &&& viewport.show_right_marker <==> line_width - x_offset > width - left
            &&& viewport.content_width + left + right == width
        }),
{
}

/// How the character in column `j` of some runs looks.
pub open spec fn look_at(runs: Seq<RunSpec>, j: int) -> (Color, bool)
    decreases runs.len(),
{
    if runs.len() <= 1 || j >= run_text(runs.drop_last()).len() {
        (runs.last().color, runs.last().bold)
    } else {
        look_at(runs.drop_last(), j)
    }
}

/// Every character that is left by clipping looks as it did.
pub proof fn law_clipping_keeps_colors(runs: Seq<RunSpec>, from: int, to: int, j: int)
    requires
        0 <= from <= to,
        0 <= j < to - from,
        from + j < run_text(runs).len(),
    ensures
        look_at(clipped(runs, from, to), j) == look_at(runs, from + j),
    decreases runs.len(),
{
    let init = runs.drop_last();
    let run = runs.last();
    let start = run_text(init).len();
    let before = clipped(init, from, to);
    let all = clipped(runs, from, to);
    law_clipping_keeps_the_window(init, from, to);
    assert(run_text(runs).len() == start + run.text.len());
    if runs.len() == 1 {
        assert(init =~= Seq::empty());
        assert(before =~= Seq::empty());
    }
    if all.len() == before.len() + 1 {
        assert(all.drop_last() =~= before);
    }
    if from + j < start {
        law_clipping_keeps_colors(init, from, to, j);
        assert(runs.len() > 1);
        if all.len() == before.len() + 1 {
            assert(j < run_text(before).len());
            assert(before.len() > 0);
        }
    } else {
        let first = larger(from - start, 0);
        let last = smaller(to - start, run.text.len() as int);
        assert(first < last);
        assert(run_text(before).len() <= j);
    }
}

/// A run is drawn with its text, and is bold where it was. Only a selected one has a
/// background, and its color is then the one that goes with it.
pub proof fn law_runs_are_drawn_as_they_are(runs: Seq<RunSpec>, selected: bool, i: int)
    requires
        0 <= i < runs.len(),
    ensures
        ({
            let all = drawn_runs(runs, selected);
            &&& all.len() == runs.len()
            &&& all[i].text == runs[i].text
            &&& all[i].bold == runs[i].bold
            &&& all[i].background is Some <==> selected
            &&& selected ==> all[i].background == Some(Color::Rgb { r: 64, g: 64, b: 64 })
            &&& selected ==> all[i].foreground == on_selection(runs[i].color)
            &&& !selected ==> all[i].foreground == runs[i].color
        }),
{
}

/// What is clipped is what stands in the columns.
pub proof fn law_clipping_keeps_the_window(runs: Seq<RunSpec>, from: int, to: int)
    requires
        0 <= from <= to,
    ensures
        run_text(clipped(runs, from, to)) == window(run_text(runs), from, to - from),
    decreases runs.len(),
{
    if runs.len() > 0 {
        let init = runs.drop_last();
        let run = runs.last();
        let text = run_text(init);
        let start = text.len();
        law_clipping_keeps_the_window(init, from, to);
        let first = larger(from - start, 0);
        let last = smaller(to - start, run.text.len() as int);
        let before = clipped(init, from, to);
        if first < last {
            lemma_run_text_push(
                before,
                RunSpec { text: run.text.subrange(first, last), ..run },
            );
            assert(window(text + run.text, from, to - from) =~= window(text, from, to - from)
                + run.text.subrange(first, last));
        } else {
            assert(window(text + run.text, from, to - from) =~= window(text, from, to - from));
        }
    }
}

proof fn lemma_run_text_of_optional(run: RunSpec, there: bool)
    ensures
        run_text(
            if there {
                seq![run]
            } else {
                Seq::empty()
            },
        ) == if there {
            run.text
        } else {
            Seq::empty()
        },
{
    lemma_run_text_push(Seq::empty(), run);
    assert(Seq::empty().push(run) =~= seq![run]);
    assert(run_text(seq![run]) =~= run.text);
}

/// A line that is drawn fills its width exactly.
pub proof fn law_drawn_line_fills_the_width(runs: Seq<RunSpec>, x_offset: int, width: int)
    requires
        0 <= x_offset,
        0 <= width <= usize::MAX,
    ensures
        run_text(line_runs(runs, x_offset, width)).len() == width,
{
    if width > 0 {
        let line = run_text(runs);
        let viewport = viewport_of(line.len() as int, x_offset, width);
        let content = viewport.content_width as int;
        let shown = window(line, x_offset, content).len();
        let left = marker(viewport.show_left_marker, seq!['<']);
        let middle = clipped(runs, x_offset, x_offset + content);
        let rest = filling(content - shown);
        let right = marker(viewport.show_right_marker, seq!['>']);
        law_clipping_keeps_the_window(runs, x_offset, x_offset + content);
        lemma_run_text_of_optional(
            RunSpec { text: seq!['<'], color: Color::DarkGrey, bold: true },
            viewport.show_left_marker,
        );
        lemma_run_text_of_optional(
            RunSpec { text: seq!['>'], color: Color::DarkGrey, bold: true },
            viewport.show_right_marker,
        );
        lemma_run_text_of_optional(
            plain_run(padded(Seq::empty(), content - shown), Color::White),
            content - shown > 0,
        );
        lemma_run_text_concat(left, middle);
        lemma_run_text_concat(left + middle, rest);
        lemma_run_text_concat(left + middle + rest, right);
    }
}

/// What a drawn line reads: a marker where it is scrolled, the characters from its
/// offset on, spaces behind its end, and a marker where it goes on.
pub proof fn law_drawn_lines_read(runs: Seq<RunSpec>, x_offset: int, width: int)
    requires
        0 <= x_offset,
        0 < width <= usize::MAX,
    ensures
        ({
            let text = run_text(runs);
            let read = run_text(line_runs(runs, x_offset, width));
            let left: int = if x_offset > 0 && width > 1 {
                1
            } else {
                0
            };
            let goes_on = text.len() - x_offset > width - left;
            &&& read.len() == width
            &&& left == 1 ==> read[0] == '<'
            &&& goes_on ==> read[width - 1] == '>'
            &&& forall|i: int|
                left <= i < width - (if goes_on {
                    1int
                } else {
                    0
                }) ==> #[trigger] read[i] == if x_offset + i - left < text.len() {
                    text[x_offset + i - left]
                } else {
                    ' '
                }
        }),
{
    let text = run_text(runs);
    let viewport = viewport_of(text.len() as int, x_offset, width);
    let content = viewport.content_width as int;
    let shown = window(text, x_offset, content);
    let a = marker(viewport.show_left_marker, seq!['<']);
    let b = clipped(runs, x_offset, x_offset + content);
    let c = filling(content - shown.len());
    let d = marker(viewport.show_right_marker, seq!['>']);
    law_clipping_keeps_the_window(runs, x_offset, x_offset + content);
    lemma_run_text_concat(a + b + c, d);
    lemma_run_text_concat(a + b, c);
    lemma_run_text_concat(a, b);
    lemma_run_text_single(a);
    lemma_run_text_single(c);
    lemma_run_text_single(d);
}

/// The text of one run, or of none.
proof fn lemma_run_text_single(runs: Seq<RunSpec>)
    requires
        runs.len() <= 1,
    ensures
        run_text(runs) == if runs.len() == 1 {
            runs[0].text
        } else {
            Seq::empty()
        },
{
    if runs.len() == 1 {
        reveal_with_fuel(run_text, 2);
        assert(runs.drop_last() =~= Seq::empty());
        assert(run_text(runs) =~= runs[0].text);
    }
}

/// Appends one segment.
fn push_segment(segments: &mut Vec<Segment>, text: &str, color: Color, bold: bool, selected: bool)
    ensures
        segments_view(final(segments)@) == segments_view(old(segments)@).push(
            drawn(RunSpec { text: text@, color, bold }, selected),
        ),
{
    let ghost before = segments_view(segments@);
    segments.push(Segment::new(text, color, bold, selected));
    assert(segments_view(segments@) =~= before.push(
        drawn(RunSpec { text: text@, color, bold }, selected),
    ));
}

/// Appends what of `parts` stands in the columns from `from` up to `to`.
fn push_clipped(
    segments: &mut Vec<Segment>,
    parts: &[Part],
    from: usize,
    to: usize,
    total: usize,
    selected: bool,
)
    requires
        total == run_text(runs(parts@)).len(),
    ensures
        segments_view(final(segments)@) == segments_view(old(segments)@) + drawn_runs(
            clipped(runs(parts@), from as int, to as int),
            selected,
        ),
{
    let ghost start = segments_view(segments@);
    let ghost all = runs(parts@);
    let mut cursor: usize = 0;
    let mut i: usize = 0;
    assert(start + drawn_runs(clipped(all.take(0), from as int, to as int), selected) =~= start);
    while i < parts.len()
        invariant
            i <= parts@.len(),
            all == runs(parts@),
            total == run_text(all).len(),
            cursor == run_text(all.take(i as int)).len(),
            segments_view(segments@) == start + drawn_runs(
                clipped(all.take(i as int), from as int, to as int),
                selected,
            ),
        decreases parts@.len() - i,
    {
        proof {
            assert(all.take(i + 1).drop_last() =~= all.take(i as int));
            assert(all.take(i + 1).last() == parts@[i as int]@);
            lemma_prefix_is_shorter(all, i + 1);
        }
        let chars = chars_of(parts[i].text.as_str());
        let len: usize = chars.len();
        let end: usize = cursor + len;
        let first: usize = if from > cursor {
            from - cursor
        } else {
            0
        };
        let last: usize = if to < end {
            to.saturating_sub(cursor)
        } else {
            len
        };
        if first < last {
            let text = string_from(vstd::slice::slice_subrange(chars.as_slice(), first, last));
            push_segment(segments, text.as_str(), parts[i].color, parts[i].bold, selected);
        }
        cursor = end;
        i = i + 1;
        assert(segments_view(segments@) =~= start + drawn_runs(
            clipped(all.take(i as int), from as int, to as int),
            selected,
        ));
    }
    assert(all.take(i as int) =~= all);
}

/// The text of the first runs is no longer than that of all.
proof fn lemma_prefix_is_shorter(all: Seq<RunSpec>, i: int)
    requires
        0 <= i <= all.len(),
    ensures
        run_text(all.take(i)).len() <= run_text(all).len(),
{
    lemma_run_text_concat(all.take(i), all.skip(i));
    assert(all.take(i) + all.skip(i) =~= all);
}

impl EntryRenderer {
    /// An entry fitted into `width` columns, as it is sent to the terminal.
    pub fn draw(
        self,
        entry: &LogEntry,
        x_offset: usize,
        width: usize,
        selected: bool,
    ) -> (r: Vec<Segment>)
        ensures
            segments_view(r@) == drawn_runs(
                line_runs(
                    entry_runs(entry@, self.options.show_spans),
                    x_offset as int,
                    width as int,
                ),
                selected,
            ),
    {
        let mut segments: Vec<Segment> = Vec::new();
        if width == 0 {
            assert(segments_view(segments@) =~= drawn_runs(Seq::empty(), selected));
            return segments;
        }
        let parts = self.parts(entry);
        let rendered = EntryRenderer::plain_text_from_parts(parts.as_slice());
        let line = chars_of(rendered.as_str());
        let viewport = LineViewport::new(line.len(), x_offset, width);
        let content: usize = viewport.content_width;
        let ghost all = runs(parts@);
        let ghost view = viewport_of(line@.len() as int, x_offset as int, width as int);
        assert(viewport == view);
        if viewport.show_left_marker {
            proof {
                reveal_strlit("<");
                assert("<"@ =~= seq!['<']);
            }
            push_segment(&mut segments, "<", Color::DarkGrey, true, selected);
        }
        let ghost left = marker(view.show_left_marker, seq!['<']);
        assert(segments_view(segments@) =~= drawn_runs(left, selected));
        let to: usize = x_offset.saturating_add(content);
        proof {
            lemma_clipping_stops_at_the_end(all, x_offset as int, to as int, x_offset + content);
        }
        push_clipped(&mut segments, parts.as_slice(), x_offset, to, line.len(), selected);
        let ghost middle = clipped(all, x_offset as int, x_offset + content);
        assert(segments_view(segments@) =~= drawn_runs(left + middle, selected));
        let visible = visible_slice(rendered.as_str(), x_offset, content);
        let shown: usize = chars_of(visible.as_str()).len();
        let remaining: usize = content - shown;
        if remaining > 0 {
            proof {
                reveal_strlit("");
                assert(""@ =~= Seq::empty());
            }
            let spaces = pad("", remaining);
            push_segment(&mut segments, spaces.as_str(), Color::White, false, selected);
        }
        let ghost rest = filling(content - shown);
        assert(segments_view(segments@) =~= drawn_runs(left + middle + rest, selected));
        if viewport.show_right_marker {
            proof {
                reveal_strlit(">");
                assert(">"@ =~= seq!['>']);
            }
            push_segment(&mut segments, ">", Color::DarkGrey, true, selected);
        }
        let ghost right = marker(view.show_right_marker, seq!['>']);
        assert(segments_view(segments@) =~= drawn_runs(left + middle + rest + right, selected));
        segments
    }
}

/// Clipping at any two columns behind the end gives the same.
proof fn lemma_clipping_stops_at_the_end(runs: Seq<RunSpec>, from: int, a: int, b: int)
    requires
        a == b || (a >= run_text(runs).len() && b >= run_text(runs).len()),
    ensures
        clipped(runs, from, a) == clipped(runs, from, b),
    decreases runs.len(),
{
    if runs.len() > 0 {
        lemma_clipping_stops_at_the_end(runs.drop_last(), from, a, b);
    }
}

} // verus!
