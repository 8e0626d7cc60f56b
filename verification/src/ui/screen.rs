//! The whole screen: lines, scrollbar, status line and help page.

use std::collections::VecDeque;

use vstd::prelude::*;
use vstd::string::*;

use crate::model::{entries_view, EntrySpec, LogEntry};
use crate::text::{copy_str, decimal, decimal_text, position, positions, same_text, strs};
use crate::ui::color::Color;
use crate::ui::layout::{
    drawn, drawn_runs, line_runs, segments_view, smaller, visible_slice, window, Segment,
    SegmentSpec,
};
use crate::ui::render::{entry_runs, pad, padded, EntryRenderer, RunSpec};
use crate::ui::scrollbar::{
    scrollbar_slice_color, slice_color, slice_end, slice_start, ScrollbarSlice,
};
use crate::ui::view::{
    first_place, followed, last_of, law_pages_start_at_a_shown_line,
    law_selected_line_is_on_the_page, lemma_place_of, lemma_shown, page_place, page_start, place_of,
    scrolled, selected_visible_pos, shown, visible_indices, ViewSpec, ViewState,
};

verus! {

/// What is on the screen. Line `i` starts in the first column of row `i`, cell
/// `i` of the scrollbar stands in the last column of row `i`, and the status
/// line in the last row.
#[derive(Debug, PartialEq, Eq)]
pub struct Screen {
    pub lines: Vec<Vec<Segment>>,
    pub scrollbar: Vec<Segment>,
    pub status: String,
}

/// What a screen holds.
#[verifier::ext_equal]
pub ghost struct ScreenSpec {
    pub lines: Seq<Seq<SegmentSpec>>,
    pub scrollbar: Seq<SegmentSpec>,
    pub status: Seq<char>,
}

/// What each of `lines` holds.
pub open spec fn lines_view(lines: Seq<Vec<Segment>>) -> Seq<Seq<SegmentSpec>> {
    Seq::new(lines.len(), |i: int| segments_view(lines[i]@))
}

impl View for Screen {
    type V = ScreenSpec;

    open spec fn view(&self) -> ScreenSpec {
        ScreenSpec {
            lines: lines_view(self.lines@),
            scrollbar: segments_view(self.scrollbar@),
            status: self.status@,
        }
    }
}

/// The rows above the status line.
pub open spec fn rows_above_status(rows: int) -> int {
    if rows > 0 {
        rows - 1
    } else {
        0
    }
}

/// The rows above the status line.
pub fn content_rows(rows: u16) -> (r: usize)
    ensures
        r == rows_above_status(rows as int),
{
    if rows > 0 {
        rows as usize - 1
    } else {
        0
    }
}

/// The view of an optional text.
pub open spec fn str_of(o: Option<&str>) -> Option<Seq<char>> {
    match o {
        Some(s) => Some(s@),
        None => None,
    }
}

/// What the status line says of the process.
pub open spec fn process_text(exit_status: Option<Seq<char>>) -> Seq<char> {
    match exit_status {
        Some(status) => "exited "@ + status,
        None => "running"@,
    }
}

/// What the status line says of the selected line.
pub open spec fn selection_text(entries: int, selected: Option<int>) -> Seq<char> {
    let number = match selected {
        Some(i) => (i + 1) as nat,
        None => 0,
    };
    let follow = if selected == Some(entries - 1) {
        " | auto-scroll"@
    } else {
        ""@
    };
    " | line "@ + decimal(number) + "/"@ + decimal(entries as nat) + follow
}

/// What the status line says of the view.
pub open spec fn view_text(view: ViewSpec) -> Seq<char> {
    let spans = if view.show_spans {
        "on"@
    } else {
        "off"@
    };
    let focus = match view.focus_target {
        Some(target) => " | focus "@ + target,
        None => ""@,
    };
    " | x="@ + decimal(view.x_offset as nat) + " | spans "@ + spans + focus
}

/// The status line, as wide as the screen.
pub open spec fn status_text(
    entries: int,
    view: ViewSpec,
    exit_status: Option<Seq<char>>,
    width: int,
) -> Seq<char> {
    let status = " "@ + process_text(exit_status) + selection_text(entries, view.selected)
        + view_text(view) + " | ? help "@;
    window(padded(status, width), 0, width)
}

/// The status line is as wide as the screen.
pub proof fn law_status_line_fills_the_width(
    entries: int,
    view: ViewSpec,
    exit_status: Option<Seq<char>>,
    width: int,
)
    requires
        0 <= width,
    ensures
        status_text(entries, view, exit_status, width).len() == width,
{
}

/// What the status line says, as far as it is wide enough: whether the process runs or
/// how it exited, the selected line and how many there are, whether the view follows
/// the latest one, the columns that are scrolled, whether spans are shown, and the
/// focus. Spaces fill the rest.
pub proof fn law_status_line_says(
    entries: int,
    view: ViewSpec,
    exit_status: Option<Seq<char>>,
    width: int,
)
    requires
        0 <= width,
    ensures
        ({
            let process = match exit_status {
                Some(status) => "exited "@ + status,
                None => "running"@,
            };
            let number = match view.selected {
                Some(line) => (line + 1) as nat,
                None => 0,
            };
            let follow = match view.selected {
                Some(line) => if line == entries - 1 {
                    " | auto-scroll"@
                } else {
                    ""@
                },
                None => ""@,
            };
            let spans = if view.show_spans {
                "on"@
            } else {
                "off"@
            };
            let focus = match view.focus_target {
                Some(target) => " | focus "@ + target,
                None => ""@,
            };
            let said = " "@ + process + (" | line "@ + decimal(number) + "/"@ + decimal(
                entries as nat,
            ) + follow) + (" | x="@ + decimal(view.x_offset as nat) + " | spans "@ + spans + focus)
                + " | ? help "@;
            let status = status_text(entries, view, exit_status, width);
            &&& status.len() == width
            &&& forall|i: int|
                0 <= i < width ==> #[trigger] status[i] == if i < said.len() {
                    said[i]
                } else {
                    ' '
                }
        }),
{
}

/// What the status line says of the process.
fn process_status(exit_status: Option<&str>) -> (r: String)
    ensures
        r@ == process_text(str_of(exit_status)),
{
    match exit_status {
        Some(status) => {
            let mut text = copy_str("exited ");
            text.append(status);
            text
        },
        None => copy_str("running"),
    }
}

/// What the status line says of the selected line.
fn selection_status(entries: usize, selected: Option<usize>) -> (r: String)
    requires
        selected != Some(usize::MAX),
    ensures
        r@ == selection_text(entries as int, position(selected)),
{
    let number: usize = match selected {
        Some(i) => i + 1,
        None => 0,
    };
    let follow = match selected {
        Some(i) if i + 1 == entries => " | auto-scroll",
        _ => "",
    };
    let mut text = copy_str(" | line ");
    text.append(decimal_text(number).as_str());
    text.append("/");
    text.append(decimal_text(entries).as_str());
    text.append(follow);
    text
}

/// What the status line says of the view.
fn view_status(state: &ViewState) -> (r: String)
    ensures
        r@ == view_text(state@),
{
    let spans = if state.show_spans {
        "on"
    } else {
        "off"
    };
    let mut text = copy_str(" | x=");
    text.append(decimal_text(state.x_offset).as_str());
    text.append(" | spans ");
    text.append(spans);
    let mut focus = copy_str("");
    if let Some(target) = &state.focus_target {
        focus = copy_str(" | focus ");
        focus.append(target.as_str());
    }
    text.append(focus.as_str());
    text
}

/// The status line, as wide as the screen. The status of a process that has
/// exited is given as text.
pub fn status_line(
    entries: usize,
    state: &ViewState,
    exit_status: Option<&str>,
    width: usize,
) -> (r: String)
    requires
        state.selected != Some(usize::MAX),
    ensures
        r@ == status_text(entries as int, state@, str_of(exit_status), width as int),
{
    let mut text = copy_str(" ");
    text.append(process_status(exit_status).as_str());
    text.append(selection_status(entries, state.selected).as_str());
    text.append(view_status(state).as_str());
    text.append(" | ? help ");
    let wide = pad(text.as_str(), width);
    visible_slice(wide.as_str(), 0, width)
}

/// The lines of the help page.
pub open spec fn help_text() -> Seq<Seq<char>> {
    seq![
        "tv help"@,
        ""@,
        "Navigation"@,
        "  Up / Down       move cursor one line"@,
        "  PgUp / PgDown   move cursor one page"@,
        "  Home / Pos1     move cursor to first retained line"@,
        "  End             move cursor to last retained line"@,
        "  Left / Right    scroll horizontally"@,
        ""@,
        "Actions"@,
        "  f               focus selected target, or clear focus"@,
        "  s               toggle span information"@,
        "  y               copy selected line to clipboard"@,
        "  ?               toggle this help page"@,
        "  q / Esc         close help, or exit after the process ends"@,
        "  Ctrl-C          kill process and exit"@,
    ]
}

/// The color of a line of the help page: titles stand out.
pub open spec fn help_color(line: Seq<char>) -> Color {
    if line == "tv help"@ || line == "Navigation"@ || line == "Actions"@ {
        Color::Cyan
    } else {
        Color::White
    }
}

/// A line of the help page, cut off at the width of the screen.
pub open spec fn help_line(line: Seq<char>, cols: int) -> Seq<SegmentSpec> {
    seq![
        drawn(
            RunSpec { text: window(line, 0, cols), color: help_color(line), bold: false },
            false,
        ),
    ]
}

/// The help page on so many rows.
pub open spec fn help_page(cols: int, content_rows: int) -> Seq<Seq<SegmentSpec>> {
    Seq::new(
        smaller(content_rows, 16) as nat,
        |i: int| help_line(help_text()[i], cols),
    )
}

/// The help page, line by line.
pub fn draw_help_page(cols: u16, content_rows: usize) -> (r: Vec<Vec<Segment>>)
    ensures
        lines_view(r@) == help_page(cols as int, content_rows as int),
{
    let texts: [&str; 16] = [
        "tv help",
        "",
        "Navigation",
        "  Up / Down       move cursor one line",
        "  PgUp / PgDown   move cursor one page",
        "  Home / Pos1     move cursor to first retained line",
        "  End             move cursor to last retained line",
        "  Left / Right    scroll horizontally",
        "",
        "Actions",
        "  f               focus selected target, or clear focus",
        "  s               toggle span information",
        "  y               copy selected line to clipboard",
        "  ?               toggle this help page",
        "  q / Esc         close help, or exit after the process ends",
        "  Ctrl-C          kill process and exit",
    ];
    assert(strs(texts@) =~= help_text());
    let mut lines: Vec<Vec<Segment>> = Vec::new();
    let mut i: usize = 0;
    while i < 16 && i < content_rows
        invariant
            i <= 16,
            i <= content_rows,
            strs(texts@) == help_text(),
            texts@.len() == 16,
            lines_view(lines@) == help_page(cols as int, i as int),
        decreases 16 - i,
    {
        let ghost before = lines_view(lines@);
        let text = texts[i];
        assert(text@ == help_text()[i as int]);
        let color = if same_text(text, "tv help") || same_text(text, "Navigation") || same_text(
            text,
            "Actions",
        ) {
            Color::Cyan
        } else {
            Color::White
        };
        let cut = visible_slice(text, 0, cols as usize);
        let mut line: Vec<Segment> = Vec::new();
        line.push(Segment::new(cut.as_str(), color, false, false));
        assert(segments_view(line@) =~= help_line(text@, cols as int));
        let ghost item = segments_view(line@);
        lines.push(line);
        assert(lines_view(lines@) =~= before.push(item));
        i = i + 1;
        assert(lines_view(lines@) =~= help_page(cols as int, i as int));
    }
    lines
}

/// A cell of the scrollbar: bold, and with another marker, where a line that it
/// stands for is on the page.
pub open spec fn scrollbar_cell(
    entries: Seq<EntrySpec>,
    visible: Seq<int>,
    page: int,
    page_end: int,
    row: int,
    height: int,
) -> SegmentSpec {
    let start = slice_start(row, height, visible.len() as int);
    let end = slice_end(row, height, visible.len() as int);
    let in_view = start < page_end && end > page;
    drawn(
        RunSpec {
            text: if in_view {
                seq!['#']
            } else {
                seq!['|']
            },
            color: slice_color(entries, visible, start, end),
            bold: in_view,
        },
        false,
    )
}

/// The scrollbar, from top to bottom.
pub open spec fn scrollbar_cells(
    entries: Seq<EntrySpec>,
    visible: Seq<int>,
    page: int,
    page_end: int,
    height: int,
) -> Seq<SegmentSpec> {
    Seq::new(
        height as nat,
        |row: int| scrollbar_cell(entries, visible, page, page_end, row, height),
    )
}

/// The scrollbar, from top to bottom. The lines from place `visible_start` up to
/// `visible_end` are on the page.
pub fn draw_scrollbar(
    entries: &VecDeque<LogEntry>,
    visible_indices: &[usize],
    visible_start: usize,
    visible_end: usize,
    height: usize,
) -> (r: Vec<Segment>)
    ensures
        segments_view(r@) == scrollbar_cells(
            entries_view(entries@),
            positions(visible_indices@),
            visible_start as int,
            visible_end as int,
            height as int,
        ),
{
    let ghost cells = scrollbar_cells(
        entries_view(entries@),
        positions(visible_indices@),
        visible_start as int,
        visible_end as int,
        height as int,
    );
    let mut out: Vec<Segment> = Vec::new();
    let mut row: usize = 0;
    assert(segments_view(out@) =~= cells.take(0));
    while row < height
        invariant
            row <= height,
            cells == scrollbar_cells(
                entries_view(entries@),
                positions(visible_indices@),
                visible_start as int,
                visible_end as int,
                height as int,
            ),
            segments_view(out@) == cells.take(row as int),
        decreases height - row,
    {
        let ghost before = segments_view(out@);
        let slice = ScrollbarSlice::new(row, height, visible_indices.len());
        let in_view = slice.start < visible_end && slice.end > visible_start;
        let color = scrollbar_slice_color(entries, visible_indices, slice.start, slice.end);
        proof {
            reveal_strlit("#");
            reveal_strlit("|");
            assert("#"@ =~= seq!['#']);
            assert("|"@ =~= seq!['|']);
        }
        let marker = if in_view {
            "#"
        } else {
            "|"
        };
        let cell = Segment::new(marker, color, in_view, false);
        assert(cell@ == cells[row as int]);
        out.push(cell);
        assert(segments_view(out@) =~= before.push(cells[row as int]));
        row = row + 1;
        assert(segments_view(out@) =~= cells.take(row as int));
    }
    assert(cells.take(row as int) =~= cells);
    out
}

/// The line that is drawn as selected: the selected one if it is shown, else the
/// last one that is.
pub open spec fn marked_line(view: ViewSpec, visible: Seq<int>) -> Option<int> {
    match view.selected {
        Some(selected) if place_of(visible, selected) is Some => Some(selected),
        _ => last_of(visible),
    }
}

/// The lines of a page: `rows` of the shown lines, from place `page` on.
pub open spec fn page_of_lines(
    entries: Seq<EntrySpec>,
    view: ViewSpec,
    visible: Seq<int>,
    page: int,
    rows: int,
    width: int,
) -> Seq<Seq<SegmentSpec>> {
    Seq::new(
        rows as nat,
        |i: int|
            drawn_runs(
                line_runs(
                    entry_runs(entries[visible[page + i]], view.show_spans),
                    view.x_offset,
                    width,
                ),
                Some(visible[page + i]) == marked_line(view, visible),
            ),
    )
}

/// What is on a screen of so many columns and rows.
pub open spec fn screen(
    entries: Seq<EntrySpec>,
    view: ViewSpec,
    exit_status: Option<Seq<char>>,
    cols: int,
    rows: int,
) -> ScreenSpec {
    let height = rows_above_status(rows);
    let status = status_text(entries.len() as int, view, exit_status, cols);
    if view.help_visible {
        ScreenSpec { lines: help_page(cols, height), scrollbar: Seq::empty(), status }
    } else {
        let has_bar = cols > 1 && height > 0;
        let width = if has_bar {
            cols - 1
        } else {
            cols
        };
        let visible = shown(entries, view.focus_target);
        let page = page_place(visible, view.first_visible, 0);
        let page_end = smaller(page + height, visible.len() as int);
        ScreenSpec {
            lines: page_of_lines(entries, view, visible, page, page_end - page, width),
            scrollbar: if has_bar {
                scrollbar_cells(entries, visible, page, page_end, height)
            } else {
                Seq::empty()
            },
            status,
        }
    }
}

/// The log on the screen: row by row the shown lines from the first one of the page on,
/// as many as fit above the status line. The selected one, or the last one where it is
/// not shown, has a background. A scrollbar stands beside them where there are two
/// columns, and its rows are marked where one of their lines is on the page.
pub proof fn law_screens_show_the_page(
    entries: Seq<EntrySpec>,
    view: ViewSpec,
    exit_status: Option<Seq<char>>,
    cols: int,
    rows: int,
    page: int,
)
    requires
        !view.help_visible,
        0 <= cols,
        1 <= rows,
        0 <= page < shown(entries, view.focus_target).len(),
        shown(entries, view.focus_target)[page] >= view.first_visible,
        forall|j: int|
            0 <= j < page ==> #[trigger] shown(entries, view.focus_target)[j] < view.first_visible,
    ensures
        ({
            let visible = shown(entries, view.focus_target);
            let drawn_screen = screen(entries, view, exit_status, cols, rows);
            let height = rows - 1;
            let has_bar = cols >= 2 && height >= 1;
            let width = if has_bar {
                cols - 1
            } else {
                cols
            };
            let end = if page + height <= visible.len() {
                page + height
            } else {
                visible.len() as int
            };
            &&& drawn_screen.lines.len() == end - page
            &&& forall|i: int|
                0 <= i < end - page ==> #[trigger] drawn_screen.lines[i] == drawn_runs(
                    line_runs(
                        entry_runs(entries[visible[page + i]], view.show_spans),
                        view.x_offset,
                        width,
                    ),
                    if view.selected is Some && visible.contains(view.selected.unwrap()) {
                        view.selected == Some(visible[page + i])
                    } else {
                        page + i == visible.len() - 1
                    },
                )
            &&& drawn_screen.scrollbar.len() == if has_bar {
                height
            } else {
                0
            }
            &&& forall|row: int|
                0 <= row < drawn_screen.scrollbar.len() ==> {
                    let cell = #[trigger] drawn_screen.scrollbar[row];
                    let from = slice_start(row, height, visible.len() as int);
                    let to = slice_end(row, height, visible.len() as int);
                    let on_page = from < end && page < to;
                    &&& cell.text == if on_page {
                        seq!['#']
                    } else {
                        seq!['|']
                    }
                    &&& cell.bold == on_page
                    &&& cell.background is None
                    &&& cell.foreground == slice_color(entries, visible, from, to)
                }
            &&& drawn_screen.status == status_text(entries.len() as int, view, exit_status, cols)
        }),
{
    let visible = shown(entries, view.focus_target);
    lemma_shown(entries, view.focus_target);
    law_pages_start_at_a_shown_line(visible, view.first_visible, page, 0);
    if let Some(selected) = view.selected {
        lemma_place_of(visible, selected);
    }
    let drawn_screen = screen(entries, view, exit_status, cols, rows);
    let height = rows - 1;
    let end = smaller(page + height, visible.len() as int);
    assert forall|i: int| 0 <= i < end - page implies (Some(
        #[trigger] visible[page + i],
    ) == marked_line(view, visible)) == (if view.selected is Some && visible.contains(
        view.selected.unwrap(),
    ) {
        view.selected == Some(visible[page + i])
    } else {
        page + i == visible.len() - 1
    }) by {
        if page + i < visible.len() - 1 {
            assert(visible[page + i] < visible[visible.len() - 1]);
        }
    }
}

/// The help page takes the place of the log: line by line, as many as fit above the
/// status line, without colors but for its titles, and cut off at the last column.
pub proof fn law_screens_show_the_help_page(
    entries: Seq<EntrySpec>,
    view: ViewSpec,
    exit_status: Option<Seq<char>>,
    cols: int,
    rows: int,
    i: int,
)
    requires
        view.help_visible,
        0 <= cols,
        1 <= rows,
        0 <= i < 16,
        i < rows - 1,
    ensures
        ({
            let drawn_screen = screen(entries, view, exit_status, cols, rows);
            let line = help_text()[i];
            let drawn_line = drawn_screen.lines[i];
            &&& drawn_screen.lines.len() == if rows - 1 < 16 {
                rows - 1
            } else {
                16
            }
            &&& drawn_screen.scrollbar.len() == 0
            &&& drawn_line.len() == 1
            &&& drawn_line[0].text == if line.len() <= cols {
                line
            } else {
                line.take(cols)
            }
            &&& drawn_line[0].foreground == if i == 0 || i == 2 || i == 9 {
                Color::Cyan
            } else {
                Color::White
            }
            &&& drawn_line[0].background is None
            &&& !drawn_line[0].bold
            &&& drawn_screen.status == status_text(entries.len() as int, view, exit_status, cols)
        }),
{
    let line = help_text()[i];
    reveal_strlit("tv help");
    reveal_strlit("Navigation");
    reveal_strlit("Actions");
    reveal_strlit("");
    reveal_strlit("  Up / Down       move cursor one line");
    reveal_strlit("  PgUp / PgDown   move cursor one page");
    reveal_strlit("  Home / Pos1     move cursor to first retained line");
    reveal_strlit("  End             move cursor to last retained line");
    reveal_strlit("  Left / Right    scroll horizontally");
    reveal_strlit("  f               focus selected target, or clear focus");
    reveal_strlit("  s               toggle span information");
    reveal_strlit("  y               copy selected line to clipboard");
    reveal_strlit("  ?               toggle this help page");
    reveal_strlit("  q / Esc         close help, or exit after the process ends");
    reveal_strlit("  Ctrl-C          kill process and exit");
    assert(window(line, 0, cols) =~= if line.len() <= cols {
        line
    } else {
        line.take(cols)
    });
}

/// Where a selected line is shown, scrolling to it puts it among the lines that
/// are drawn.
pub proof fn law_selected_line_is_drawn(
    view: ViewSpec,
    entries: Seq<EntrySpec>,
    height: int,
) -> (row: int)
    requires
        0 < height,
        view.selected matches Some(selected) && place_of(
            shown(entries, view.focus_target),
            selected,
        ) is Some,
    ensures
        ({
            let visible = shown(entries, view.focus_target);
            let after = scrolled(view, visible, height);
            let page = page_place(visible, after.first_visible, 0);
            &&& 0 <= row < smaller(page + height, visible.len() as int) - page
            &&& after.selected == Some(visible[page + row])
            &&& marked_line(after, visible) == after.selected
        }),
{
    let visible = shown(entries, view.focus_target);
    let selected = view.selected.unwrap();
    let place = place_of(visible, selected).unwrap();
    lemma_place_of(visible, selected);
    lemma_shown(entries, view.focus_target);
    law_selected_line_is_on_the_page(visible, view.first_visible, place, height);
    let start = page_start(visible, view.first_visible, place, height);
    lemma_place_of(visible, visible[start]);
    assert(visible.contains(visible[start]));
    let found = place_of(visible, visible[start]).unwrap();
    assert(found == start) by {
        if found < start {
            assert(visible[found] < visible[start]);
        } else if start < found {
            assert(visible[start] < visible[found]);
        }
    }
    place - start
}

/// Following the latest line puts it among the lines that are drawn.
pub proof fn law_latest_line_is_drawn(view: ViewSpec, entries: Seq<EntrySpec>, height: int) -> (row:
    int)
    requires
        0 < height,
        shown(entries, view.focus_target).len() > 0,
    ensures
        ({
            let visible = shown(entries, view.focus_target);
            let after = followed(view, entries, height);
            let page = page_place(visible, after.first_visible, 0);
            &&& 0 <= row < smaller(page + height, visible.len() as int) - page
            &&& after.selected == Some(visible.last())
            &&& visible[page + row] == visible.last()
        }),
{
    let visible = shown(entries, view.focus_target);
    lemma_place_of(visible, visible.last());
    assert(visible.contains(visible[visible.len() - 1]));
    law_selected_line_is_drawn(
        ViewSpec { selected: Some(visible.last()), ..view },
        entries,
        height,
    )
}

/// What is on a screen of so many columns and rows. The status of a process that
/// has exited is given as text.
pub fn draw(
    entries: &VecDeque<LogEntry>,
    state: &ViewState,
    exit_status: Option<&str>,
    cols: u16,
    rows: u16,
) -> (r: Screen)
    requires
        state.selected != Some(usize::MAX),
    ensures
        r@ == screen(
            entries_view(entries@),
            state@,
            str_of(exit_status),
            cols as int,
            rows as int,
        ),
{
    let height = content_rows(rows);
    let status = status_line(entries.len(), state, exit_status, cols as usize);
    if state.help_visible {
        let scrollbar: Vec<Segment> = Vec::new();
        assert(segments_view(scrollbar@) =~= Seq::empty());
        return Screen { lines: draw_help_page(cols, height), scrollbar, status };
    }
    let has_bar = cols > 1 && height > 0;
    let width: usize = if has_bar {
        cols as usize - 1
    } else {
        cols as usize
    };
    let ghost all = entries_view(entries@);
    let visible_positions = visible_indices(entries, state);
    let visible = visible_positions.as_slice();
    let ghost places = positions(visible@);
    let marked = mark_line(visible, state);
    let page = first_place(visible, state.first_visible, 0);
    proof {
        lemma_shown(all, state@.focus_target);
    }
    let page_end: usize = if height <= visible.len() - page {
        page + height
    } else {
        visible.len()
    };
    let ghost expected = page_of_lines(
        all,
        state@,
        places,
        page as int,
        page_end - page,
        width as int,
    );
    let mut lines: Vec<Vec<Segment>> = Vec::new();
    let mut place: usize = page;
    assert(lines_view(lines@) =~= expected.take(0));
    while place < page_end
        invariant
            page <= place <= page_end <= visible@.len(),
            all == entries_view(entries@),
            places == positions(visible@),
            forall|i: int| 0 <= i < places.len() ==> 0 <= #[trigger] places[i] < all.len(),
            position(marked) == marked_line(state@, places),
            expected == page_of_lines(
                all,
                state@,
                places,
                page as int,
                page_end - page,
                width as int,
            ),
            lines_view(lines@) == expected.take(place - page),
        decreases page_end - place,
    {
        let idx: usize = visible[place];
        assert(idx == places[place as int]);
        let is_marked = match marked {
            Some(marked) => marked == idx,
            None => false,
        };
        let line = EntryRenderer::from(state).draw(
            &entries[idx],
            state.x_offset,
            width,
            is_marked,
        );
        assert(segments_view(line@) == expected[place - page]);
        let ghost before = lines_view(lines@);
        let ghost item = segments_view(line@);
        lines.push(line);
        assert(lines_view(lines@) =~= before.push(item));
        place = place + 1;
        assert(lines_view(lines@) =~= expected.take(place - page));
    }
    assert(expected.take(place - page) =~= expected);
    let scrollbar = if has_bar {
        draw_scrollbar(entries, visible, page, page_end, height)
    } else {
        Vec::new()
    };
    assert(!has_bar ==> segments_view(scrollbar@) =~= Seq::empty());
    Screen { lines, scrollbar, status }
}

/// The line that is drawn as selected.
fn mark_line(visible: &[usize], state: &ViewState) -> (r: Option<usize>)
    ensures
        position(r) == marked_line(state@, positions(visible@)),
{
    match selected_visible_pos(visible, state.selected) {
        Some(place) => {
            proof {
                if let Some(selected) = state.selected {
                    lemma_place_of(positions(visible@), selected as int);
                }
            }
            Some(visible[place])
        },
        None => None,
    }
}

} // verus!
