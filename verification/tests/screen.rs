use std::collections::VecDeque;

use traceviewer::model::{Level, LogEntry, MessagePart, Stream, TraceValue, TraceValueField};
use traceviewer::ui::color::{selected_background, string_color, Color};
use traceviewer::ui::keys::{handle_key, KeyAction, KeyCode, KeyEvent};
use traceviewer::ui::layout::{visible_slice, LineViewport, Segment};
use traceviewer::ui::render::{pad, EntryRenderer, Part, RenderOptions};
use traceviewer::ui::screen::{content_rows, draw, draw_help_page, draw_scrollbar, status_line};
use traceviewer::ui::scrollbar::{scrollbar_slice_color, ScrollbarSlice};
use traceviewer::ui::style::{message_styles, MessageStyle, StyledText};
use traceviewer::ui::view::ViewState;

fn entry(level: Level, message: &str) -> LogEntry {
    LogEntry {
        raw: message.to_string(),
        timestamp: None,
        level,
        parsed: false,
        target: None,
        spans: Vec::new(),
        values: Vec::new(),
        message: message.to_string(),
        message_parts: Vec::new(),
        stream: Stream::Stdout,
    }
}

fn entries(count: usize) -> VecDeque<LogEntry> {
    (0..count)
        .map(|n| entry(Level::Info, &format!("line {n}")))
        .collect()
}

fn renderer() -> EntryRenderer {
    EntryRenderer {
        options: RenderOptions { show_spans: true },
    }
}

fn text_of(segments: &[Segment]) -> String {
    segments
        .iter()
        .map(|segment| segment.text.as_str())
        .collect()
}

fn press(entries: &VecDeque<LogEntry>, state: &mut ViewState, code: KeyCode) -> KeyAction {
    let key = KeyEvent {
        code,
        control: false,
    };
    handle_key(key, entries, state, false, 5)
}

#[test]
fn slices_of_text_are_counted_in_characters() {
    assert_eq!(visible_slice("aéb", 1, 1), "é");
    assert_eq!(visible_slice("abc", 0, 10), "abc");
    assert_eq!(visible_slice("abc", 5, 2), "");
    assert_eq!(visible_slice("abc", 1, usize::MAX), "bc");
    assert_eq!(visible_slice("abc", usize::MAX, 0), "");
    assert_eq!(pad("é", 3), "é  ");
    assert_eq!(pad("abcd", 3), "abcd");
}

#[test]
fn drawn_lines_fill_their_width() {
    let mut line = entry(Level::Warn, "say \"hi there\" twice");
    line.parsed = true;
    line.target = Some("a::b".to_string());
    line.spans = vec!["s{k=\"v\"}".to_string()];
    let plain = renderer().plain_text(&line);
    assert_eq!(plain, "| WARN  a::b: s{k=\"v\"}: say \"hi there\" twice");
    for offset in [0usize, 1, 7, 16, 40, 100] {
        for width in [0usize, 1, 2, 3, 10, 45, 46, 60] {
            let drawn = text_of(&renderer().draw(&line, offset, width, false));
            assert_eq!(drawn.chars().count(), width, "{offset} {width}");
            let viewport = LineViewport::new(plain.chars().count(), offset, width);
            let shown = visible_slice(&plain, offset, viewport.content_width);
            assert!(drawn.contains(&shown));
            assert_eq!(drawn.starts_with('<'), viewport.show_left_marker);
            assert_eq!(drawn.ends_with('>'), viewport.show_right_marker);
        }
    }
}

#[test]
fn selected_lines_have_a_background() {
    let line = entry(Level::Error, "bad");
    let segments = renderer().draw(&line, 0, 8, true);
    assert_eq!(text_of(&segments), "| bad   ");
    assert!(segments
        .iter()
        .all(|segment| segment.background == Some(selected_background())));
    assert_eq!(segments[1].foreground, Color::DarkRed);
    let segments = renderer().draw(&line, 0, 8, false);
    assert!(segments.iter().all(|segment| segment.background.is_none()));
    assert_eq!(segments[1].foreground, Color::Red);
    assert!(segments[0].bold);
}

#[test]
fn viewports_at_the_edges() {
    let viewport = |line, offset, width| {
        let v = LineViewport::new(line, offset, width);
        (v.content_width, v.show_left_marker, v.show_right_marker)
    };
    assert_eq!(viewport(20, 0, 0), (0, false, false));
    assert_eq!(viewport(20, 5, 1), (0, false, true));
    assert_eq!(viewport(20, 5, 2), (0, true, true));
    assert_eq!(viewport(10, 0, 10), (10, false, false));
    assert_eq!(viewport(11, 0, 10), (9, false, true));
    assert_eq!(viewport(5, usize::MAX, 10), (9, true, false));
}

#[test]
fn scrollbar_slices_leave_no_line_out() {
    for height in 1usize..12 {
        for count in 1usize..30 {
            let mut covered = vec![false; count];
            for row in 0..height {
                let slice = ScrollbarSlice::new(row, height, count);
                assert!(slice.start < slice.end && slice.end <= count);
                for place in slice.start..slice.end {
                    covered[place] = true;
                }
            }
            assert!(covered.into_iter().all(|seen| seen), "{height} {count}");
        }
    }
    let none = ScrollbarSlice { start: 0, end: 0 };
    assert_eq!(ScrollbarSlice::new(3, 0, 5), none);
    assert_eq!(ScrollbarSlice::new(3, 5, 0), none);
    assert_eq!(
        ScrollbarSlice::new(usize::MAX, 1, 2),
        ScrollbarSlice {
            start: usize::MAX,
            end: 2
        }
    );
}

#[test]
fn scrollbar_colors_skip_what_is_not_there() {
    let lines = VecDeque::from([entry(Level::Info, "a"), entry(Level::Error, "b")]);
    assert_eq!(scrollbar_slice_color(&lines, &[0, 7], 0, 2), Color::Green);
    assert_eq!(scrollbar_slice_color(&lines, &[0, 1], 2, 9), Color::DarkGrey);
    assert_eq!(scrollbar_slice_color(&lines, &[0, 1], 1, 0), Color::DarkGrey);
    assert_eq!(scrollbar_slice_color(&lines, &[0, 1], 0, 99), Color::Red);
}

#[test]
fn scrollbars_show_the_page() {
    let lines = entries(10);
    let visible: Vec<usize> = (0..10).collect();
    let cells = draw_scrollbar(&lines, &visible, 4, 6, 5);
    assert_eq!(text_of(&cells), "||#||");
    assert!(cells[2].bold && !cells[1].bold);
    assert!(cells.iter().all(|cell| cell.foreground == Color::Green));
    assert!(draw_scrollbar(&lines, &visible, 4, 6, 0).is_empty());
}

#[test]
fn status_lines_say_what_is_shown() {
    let mut state = ViewState::new();
    assert_eq!(
        status_line(0, &state, None, 60),
        " running | line 0/0 | x=0 | spans on | ? help               "
    );
    state.selected = Some(11);
    state.x_offset = 16;
    state.show_spans = false;
    state.focus_target = Some("svc".to_string());
    assert_eq!(
        status_line(12, &state, Some("exit status: 0"), 100).trim_end(),
        " exited exit status: 0 | line 12/12 | auto-scroll | x=16 | spans off | focus svc | ? help"
    );
    for width in [0usize, 1, 10, 200] {
        let status = status_line(12, &state, Some("exit status: 0"), width);
        assert_eq!(status.chars().count(), width);
    }
    state.selected = Some(3);
    assert!(!status_line(12, &state, None, 100).contains("auto-scroll"));
}

#[test]
fn help_is_cut_to_the_screen() {
    let page = draw_help_page(80, 100);
    assert_eq!(page.len(), 16);
    assert_eq!(text_of(&page[0]), "tv help");
    assert_eq!(page[0][0].foreground, Color::Cyan);
    assert_eq!(page[2][0].foreground, Color::Cyan);
    assert_eq!(page[9][0].foreground, Color::Cyan);
    assert_eq!(page[3][0].foreground, Color::White);
    assert_eq!(
        text_of(&page[15]),
        "  Ctrl-C          kill process and exit"
    );
    let page = draw_help_page(4, 3);
    assert_eq!(page.len(), 3);
    assert_eq!(text_of(&page[2]), "Navi");
    assert!(draw_help_page(80, 0).is_empty());
}

#[test]
fn screens_show_a_page_with_its_selected_line() {
    let lines = entries(20);
    let mut state = ViewState::new();
    state.follow_latest(&lines, content_rows(6));
    let screen = draw(&lines, &state, None, 20, 6);
    assert_eq!(screen.lines.len(), 5);
    assert_eq!(text_of(&screen.lines[4]).trim_end(), "| line 19");
    assert!(screen.lines[4][0].background.is_some());
    assert!(screen.lines[3][0].background.is_none());
    assert!(screen
        .lines
        .iter()
        .all(|line| text_of(line).chars().count() == 19));
    assert_eq!(text_of(&screen.scrollbar), "|||##");
    assert_eq!(screen.status.chars().count(), 20);
}

#[test]
fn screens_may_be_tiny() {
    let lines = entries(3);
    let state = ViewState::new();
    assert_eq!(content_rows(0), 0);
    assert_eq!(content_rows(1), 0);
    let screen = draw(&lines, &state, None, 0, 0);
    assert!(screen.lines.is_empty() && screen.scrollbar.is_empty());
    assert_eq!(screen.status, "");
    let screen = draw(&lines, &state, None, 1, 3);
    assert_eq!(screen.lines.len(), 2);
    assert!(screen.scrollbar.is_empty());
    let screen = draw(&VecDeque::new(), &state, None, 10, 3);
    assert!(screen.lines.is_empty());
    assert_eq!(text_of(&screen.scrollbar), "||");
}

#[test]
fn screens_show_the_help_page() {
    let lines = entries(3);
    let mut state = ViewState::new();
    state.help_visible = true;
    let screen = draw(&lines, &state, None, 40, 5);
    assert_eq!(screen.lines, draw_help_page(40, 4));
    assert!(screen.scrollbar.is_empty());
}

#[test]
fn without_a_selection_the_last_line_is_marked() {
    let lines = entries(3);
    let state = ViewState::new();
    let screen = draw(&lines, &state, None, 20, 10);
    assert!(screen.lines[2][0].background.is_some());
    assert!(screen.lines[0][0].background.is_none());
}

#[test]
fn keys_undo_each_other() {
    let lines = entries(10);
    let mut state = ViewState::new();
    state.follow_latest(&lines, 5);
    press(&lines, &mut state, KeyCode::Up);
    press(&lines, &mut state, KeyCode::Down);
    assert_eq!(state.selected, Some(9));
    press(&lines, &mut state, KeyCode::Right);
    press(&lines, &mut state, KeyCode::Left);
    assert_eq!(state.x_offset, 0);
    press(&lines, &mut state, KeyCode::Left);
    assert_eq!(state.x_offset, 0);
    state.x_offset = usize::MAX - 3;
    press(&lines, &mut state, KeyCode::Right);
    assert_eq!(state.x_offset, usize::MAX);
}

#[test]
fn keys_without_lines_do_nothing() {
    let lines = VecDeque::new();
    let mut state = ViewState::new();
    for code in [
        KeyCode::Up,
        KeyCode::Down,
        KeyCode::PageUp,
        KeyCode::PageDown,
        KeyCode::Home,
        KeyCode::End,
        KeyCode::Char('f'),
        KeyCode::Other,
    ] {
        assert_eq!(press(&lines, &mut state, code), KeyAction::Continue);
        assert_eq!(state.selected, None);
    }
}

#[test]
fn moves_go_no_further_than_the_ends() {
    let mut state = ViewState::new();
    state.selected = Some(4);
    state.move_selected_by(&[2, 4, 6], isize::MIN, 5);
    assert_eq!(state.selected, Some(2));
    state.move_selected_by(&[2, 4, 6], isize::MAX, 5);
    assert_eq!(state.selected, Some(6));
    state.move_selected_to(&[2, 4, 6], 9, 5);
    assert_eq!(state.selected, None);
    assert_eq!(state.first_visible, 0);
    state.remove_first_line();
    assert_eq!(state.selected, None);
}

#[test]
fn lost_selections_give_way_to_the_last_line() {
    let mut state = ViewState::new();
    state.selected = Some(3);
    state.first_visible = 3;
    state.scroll_selected_into_visible_slice(&[0, 2, 4], 2);
    assert_eq!(state.selected, Some(4));
    assert_eq!(state.first_visible, 0);
    state.scroll_selected_into_visible_slice(&[], 2);
    assert_eq!(state.selected, None);
}

#[test]
fn structured_messages_keep_their_text() {
    let parts = vec![
        MessagePart::text("done"),
        MessagePart::fields(vec![
            TraceValueField::new("n", TraceValue::Number("7".to_string())),
            TraceValueField::new("tags", TraceValue::from_tracing_text("[\"a\"]")),
        ]),
    ];
    let pieces = message_styles(&parts);
    let text: String = pieces.iter().map(|piece| piece.text.as_str()).collect();
    assert_eq!(text, MessagePart::plain_text(&parts));
    assert_eq!(text, "done (n=7 tags=[\"a\"])");
    assert_eq!(pieces[1], StyledText::new(" (", MessageStyle::JsonPunctuation));
    assert_eq!(pieces[2], StyledText::new("n", MessageStyle::JsonKey));
    assert_eq!(pieces[8], StyledText::new("[\"a\"]", MessageStyle::JsonArray));
    let alone = message_styles(&parts[1..]);
    assert_eq!(alone[0], StyledText::new("(", MessageStyle::JsonPunctuation));
}

#[test]
fn span_fields_are_colored_and_kept() {
    for fields in [
        "{a=1, b: \"x y\" c}",
        "{a=\"open",
        "{}",
        "",
        "{a=\"q\\\"q\" b=[1,2] (c=d)}",
        "{ : = }",
    ] {
        let mut parts = Vec::new();
        renderer().push_span_fields(&mut parts, fields);
        assert_eq!(EntryRenderer::plain_text_from_parts(&parts), fields);
    }
    let mut parts = Vec::new();
    renderer().push_span_fields(&mut parts, "{a=\"q\\\"q\"}");
    assert_eq!(parts[3], Part::new("\"q\\\"q\"", string_color(), false));
}

#[test]
fn messages_are_colored_and_kept() {
    for message in ["", "plain", "\"all\"", "a \"b\" c \"d", "a \\\" b", "\"\\"] {
        let mut parts = Vec::new();
        renderer().push_message_parts(&mut parts, message, &[], Color::White);
        assert_eq!(EntryRenderer::plain_text_from_parts(&parts), message);
    }
}

#[test]
fn targets_are_colored_and_kept() {
    for target in ["", "a", "a::b", "::a", "a::", "a:::b", "a b::c", " a"] {
        let mut parts = Vec::new();
        renderer().push_target_parts(&mut parts, target);
        let text = EntryRenderer::plain_text_from_parts(&parts);
        assert_eq!(text, format!("{target}: "));
    }
}

#[test]
fn page_steps_are_clamped() {
    let lines = entries(10);
    let mut state = ViewState::new();
    state.selected = Some(5);
    let key = |code| KeyEvent {
        code,
        control: false,
    };
    handle_key(key(KeyCode::PageUp), &lines, &mut state, false, 0);
    assert_eq!(state.selected, Some(4));
    handle_key(key(KeyCode::PageDown), &lines, &mut state, false, 2);
    assert_eq!(state.selected, Some(5));
    handle_key(key(KeyCode::PageDown), &lines, &mut state, false, 4);
    assert_eq!(state.selected, Some(8));
    handle_key(key(KeyCode::PageUp), &lines, &mut state, false, isize::MAX as usize);
    assert_eq!(state.selected, Some(0));
    handle_key(key(KeyCode::PageDown), &lines, &mut state, false, usize::MAX);
    assert_eq!(state.selected, Some(9));
    handle_key(key(KeyCode::PageUp), &lines, &mut state, false, usize::MAX);
    assert_eq!(state.selected, Some(0));
}
