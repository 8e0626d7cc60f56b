use std::collections::VecDeque;

use traceviewer::model::{Level, LogEntry, Stream};
use traceviewer::ui::color::{
    span_key_color, span_name_color, span_punctuation_color, span_value_color, string_color,
    target_module_color, target_palette_color, Color, SPAN_PALETTE_SIZE, TARGET_PALETTE_SIZE,
};
use traceviewer::ui::keys::{handle_key, KeyAction, KeyCode, KeyEvent};
use traceviewer::ui::layout::LineViewport;
use traceviewer::ui::render::{selected_line_text, EntryRenderer, Part, RenderOptions};
use traceviewer::ui::scrollbar::{scrollbar_slice_color, ScrollbarSlice};
use traceviewer::ui::style::{MessageStyle, StyledText};
use traceviewer::ui::view::{visible_indices, ViewState};

fn entries(count: usize) -> VecDeque<LogEntry> {
    (0..count)
        .map(|idx| LogEntry {
            raw: String::new(),
            values: Vec::new(),
            timestamp: None,
            level: Level::Info,
            parsed: true,
            target: None,
            spans: Vec::new(),
            message: format!("line {idx}"),
            message_parts: Vec::new(),
            stream: Stream::Stdout,
        })
        .collect()
}

fn entry_with_level(level: Level) -> LogEntry {
    LogEntry {
        raw: String::new(),
        values: Vec::new(),
        timestamp: None,
        level,
        parsed: true,
        target: None,
        spans: Vec::new(),
        message: "line".to_string(),
        message_parts: Vec::new(),
        stream: Stream::Stdout,
    }
}

fn entry_with_target(target: Option<&str>, message: &str) -> LogEntry {
    LogEntry {
        raw: String::new(),
        values: Vec::new(),
        timestamp: None,
        level: Level::Info,
        parsed: true,
        target: target.map(str::to_string),
        spans: Vec::new(),
        message: message.to_string(),
        message_parts: Vec::new(),
        stream: Stream::Stdout,
    }
}

fn key(code: KeyCode) -> KeyEvent {
    KeyEvent {
        code,
        control: false,
    }
}

fn renderer() -> EntryRenderer {
    EntryRenderer {
        options: RenderOptions { show_spans: true },
    }
}

#[test]
fn home_and_end_move_to_first_and_last_lines() {
    let entries = entries(10);
    let mut state = ViewState::new();

    handle_key(key(KeyCode::Home), &entries, &mut state, false, 5);
    assert_eq!(state.selected, Some(0));

    handle_key(key(KeyCode::End), &entries, &mut state, false, 5);
    assert_eq!(state.selected, Some(9));
}

#[test]
fn page_keys_move_by_visible_page() {
    let entries = entries(20);
    let mut state = ViewState::new();

    assert_eq!(
        handle_key(key(KeyCode::PageUp), &entries, &mut state, false, 6),
        KeyAction::Continue
    );
    assert_eq!(state.selected, Some(14));

    handle_key(key(KeyCode::PageDown), &entries, &mut state, false, 6);
    assert_eq!(state.selected, Some(19));
}

#[test]
fn y_requests_copy_selected_line() {
    let entries = entries(1);
    let mut state = ViewState::new();

    assert_eq!(
        handle_key(key(KeyCode::Char('y')), &entries, &mut state, false, 5),
        KeyAction::CopySelected
    );
}

#[test]
fn question_mark_toggles_help_page() {
    let entries = entries(1);
    let mut state = ViewState::new();

    assert_eq!(
        handle_key(key(KeyCode::Char('?')), &entries, &mut state, false, 5),
        KeyAction::Continue
    );
    assert!(state.help_visible);

    assert_eq!(
        handle_key(key(KeyCode::Char('?')), &entries, &mut state, false, 5),
        KeyAction::Continue
    );
    assert!(!state.help_visible);
}

#[test]
fn s_toggles_span_information() {
    let entries = entries(1);
    let mut state = ViewState::new();

    assert!(state.show_spans);
    assert_eq!(
        handle_key(key(KeyCode::Char('s')), &entries, &mut state, false, 5),
        KeyAction::Continue
    );
    assert!(!state.show_spans);

    handle_key(key(KeyCode::Char('s')), &entries, &mut state, false, 5);
    assert!(state.show_spans);
}

#[test]
fn f_focuses_selected_target_and_clears_focus() {
    let entries = VecDeque::from([
        entry_with_target(Some("alpha"), "one"),
        entry_with_target(Some("beta"), "two"),
        entry_with_target(Some("alpha"), "three"),
    ]);
    let mut state = ViewState {
        selected: Some(2),
        first_visible: 2,
        ..ViewState::new()
    };

    assert_eq!(
        handle_key(key(KeyCode::Char('f')), &entries, &mut state, false, 5),
        KeyAction::Continue
    );
    assert_eq!(state.focus_target.as_deref(), Some("alpha"));
    assert_eq!(visible_indices(&entries, &state), vec![0, 2]);
    assert_eq!(state.selected, Some(2));

    handle_key(key(KeyCode::Char('f')), &entries, &mut state, false, 5);
    assert_eq!(state.focus_target, None);
    assert_eq!(visible_indices(&entries, &state), vec![0, 1, 2]);
}

#[test]
fn focused_navigation_skips_other_targets() {
    let entries = VecDeque::from([
        entry_with_target(Some("alpha"), "one"),
        entry_with_target(Some("beta"), "two"),
        entry_with_target(Some("alpha"), "three"),
        entry_with_target(Some("beta"), "four"),
    ]);
    let mut state = ViewState {
        selected: Some(0),
        focus_target: Some("alpha".to_string()),
        ..ViewState::new()
    };

    handle_key(key(KeyCode::Down), &entries, &mut state, false, 5);
    assert_eq!(state.selected, Some(2));

    handle_key(key(KeyCode::Up), &entries, &mut state, false, 5);
    assert_eq!(state.selected, Some(0));
}

#[test]
fn f_without_selected_target_keeps_focus_clear() {
    let entries = VecDeque::from([entry_with_target(None, "plain")]);
    let mut state = ViewState {
        selected: Some(0),
        ..ViewState::new()
    };

    handle_key(key(KeyCode::Char('f')), &entries, &mut state, false, 5);
    assert_eq!(state.focus_target, None);
}

#[test]
fn left_and_right_scroll_horizontally_by_sixteen_columns() {
    let entries = entries(1);
    let mut state = ViewState::new();

    assert_eq!(state.x_offset, 0);

    handle_key(key(KeyCode::Right), &entries, &mut state, false, 5);
    assert_eq!(state.x_offset, 16);

    handle_key(key(KeyCode::Right), &entries, &mut state, false, 5);
    assert_eq!(state.x_offset, 32);

    handle_key(key(KeyCode::Left), &entries, &mut state, false, 5);
    assert_eq!(state.x_offset, 16);
}

#[test]
fn help_page_ignores_navigation_until_closed() {
    let entries = entries(10);
    let mut state = ViewState {
        help_visible: true,
        selected: Some(9),
        first_visible: 5,
        ..ViewState::new()
    };

    assert_eq!(
        handle_key(key(KeyCode::Up), &entries, &mut state, false, 5),
        KeyAction::Continue
    );
    assert_eq!(state.selected, Some(9));
    assert!(state.help_visible);

    handle_key(key(KeyCode::Esc), &entries, &mut state, false, 5);
    assert!(!state.help_visible);
}

#[test]
fn selected_line_text_matches_rendered_plain_text() {
    let entries = VecDeque::from([LogEntry {
        raw: String::new(),
        values: Vec::new(),
        timestamp: Some("2026-06-15T12:01:02Z".to_string()),
        level: Level::Info,
        parsed: true,
        target: Some("my_crate::worker".to_string()),
        spans: vec!["request{id=7}".to_string()],
        message: "loaded \"user\"".to_string(),
        message_parts: Vec::new(),
        stream: Stream::Stdout,
    }]);
    let state = ViewState {
        selected: Some(0),
        ..ViewState::new()
    };

    assert_eq!(
        selected_line_text(&entries, &state).as_deref(),
        Some("| 2026-06-15T12:01:02Z INFO  my_crate::worker: request{id=7}: loaded \"user\"")
    );
}

#[test]
fn selected_line_text_omits_spans_when_hidden() {
    let entries = VecDeque::from([LogEntry {
        raw: String::new(),
        values: Vec::new(),
        timestamp: Some("2026-06-15T12:01:02Z".to_string()),
        level: Level::Info,
        parsed: true,
        target: Some("my_crate::worker".to_string()),
        spans: vec!["request{id=7}".to_string()],
        message: "loaded \"user\"".to_string(),
        message_parts: Vec::new(),
        stream: Stream::Stdout,
    }]);
    let state = ViewState {
        selected: Some(0),
        show_spans: false,
        ..ViewState::new()
    };

    assert_eq!(
        selected_line_text(&entries, &state).as_deref(),
        Some("| 2026-06-15T12:01:02Z INFO  my_crate::worker: loaded \"user\"")
    );
}

#[test]
fn cursor_moves_on_screen_before_scrolling_up() {
    let entries = entries(10);
    let mut state = ViewState::new();
    state.follow_latest(&entries, 5);

    handle_key(key(KeyCode::Up), &entries, &mut state, false, 5);
    assert_eq!(state.selected, Some(8));
    assert_eq!(state.first_visible, 5);

    handle_key(key(KeyCode::Up), &entries, &mut state, false, 5);
    handle_key(key(KeyCode::Up), &entries, &mut state, false, 5);
    handle_key(key(KeyCode::Up), &entries, &mut state, false, 5);
    assert_eq!(state.selected, Some(5));
    assert_eq!(state.first_visible, 5);

    handle_key(key(KeyCode::Up), &entries, &mut state, false, 5);
    assert_eq!(state.selected, Some(4));
    assert_eq!(state.first_visible, 4);
}

#[test]
fn cursor_moves_on_screen_before_scrolling_down() {
    let entries = entries(10);
    let mut state = ViewState {
        first_visible: 2,
        selected: Some(2),
        ..ViewState::new()
    };

    handle_key(key(KeyCode::Down), &entries, &mut state, false, 5);
    assert_eq!(state.selected, Some(3));
    assert_eq!(state.first_visible, 2);

    handle_key(key(KeyCode::Down), &entries, &mut state, false, 5);
    handle_key(key(KeyCode::Down), &entries, &mut state, false, 5);
    handle_key(key(KeyCode::Down), &entries, &mut state, false, 5);
    assert_eq!(state.selected, Some(6));
    assert_eq!(state.first_visible, 2);

    handle_key(key(KeyCode::Down), &entries, &mut state, false, 5);
    assert_eq!(state.selected, Some(7));
    assert_eq!(state.first_visible, 3);
}

#[test]
fn line_viewport_marks_hidden_content_on_the_right() {
    assert_eq!(
        LineViewport::new(20, 0, 10),
        LineViewport {
            content_width: 9,
            show_left_marker: false,
            show_right_marker: true,
        }
    );
}

#[test]
fn line_viewport_marks_hidden_content_on_both_sides() {
    assert_eq!(
        LineViewport::new(20, 5, 10),
        LineViewport {
            content_width: 8,
            show_left_marker: true,
            show_right_marker: true,
        }
    );
}

#[test]
fn line_viewport_omits_markers_when_line_fits() {
    assert_eq!(
        LineViewport::new(8, 0, 10),
        LineViewport {
            content_width: 10,
            show_left_marker: false,
            show_right_marker: false,
        }
    );
}

#[test]
fn scrollbar_slice_maps_row_to_entry_range() {
    assert_eq!(
        ScrollbarSlice::new(0, 5, 10),
        ScrollbarSlice { start: 0, end: 2 }
    );
    assert_eq!(
        ScrollbarSlice::new(2, 5, 10),
        ScrollbarSlice { start: 4, end: 6 }
    );
    assert_eq!(
        ScrollbarSlice::new(4, 5, 10),
        ScrollbarSlice { start: 8, end: 10 }
    );
}

#[test]
fn scrollbar_slice_color_uses_highest_severity() {
    let entries = VecDeque::from([
        entry_with_level(Level::Info),
        entry_with_level(Level::Debug),
        entry_with_level(Level::Warn),
        entry_with_level(Level::Error),
    ]);

    let visible = [0, 1, 2, 3];

    assert_eq!(
        scrollbar_slice_color(&entries, &visible, 0, 2),
        Color::Green
    );
    assert_eq!(
        scrollbar_slice_color(&entries, &visible, 0, 3),
        Color::Yellow
    );
    assert_eq!(scrollbar_slice_color(&entries, &visible, 0, 4), Color::Red);
}

#[test]
fn target_module_colors_are_stable_for_same_module() {
    assert_eq!(target_module_color("worker"), target_module_color("worker"));
}

#[test]
fn target_palette_has_128_slots() {
    assert_eq!(TARGET_PALETTE_SIZE, 128);
    assert_ne!(target_palette_color(0), target_palette_color(127));
}

#[test]
fn target_parts_split_rust_modules_and_keep_separators_neutral() {
    let mut parts = Vec::new();
    renderer().push_target_parts(&mut parts, "my_crate::worker::db");

    let text = EntryRenderer::plain_text_from_parts(&parts);
    assert_eq!(text, "my_crate::worker::db: ");
    assert_eq!(parts[1], Part::new("::", Color::DarkGrey, false));
    assert_eq!(parts[3], Part::new("::", Color::DarkGrey, false));
    assert_eq!(parts[5], Part::new(": ", Color::DarkGrey, false));
}

#[test]
fn target_parts_do_not_split_modules_after_first_whitespace() {
    let mut parts = Vec::new();
    renderer().push_target_parts(&mut parts, "my_crate::worker span{path=other::module}");

    let text = EntryRenderer::plain_text_from_parts(&parts);
    assert_eq!(text, "my_crate::worker span{path=other::module}: ");
    assert_eq!(
        parts[3],
        Part::new(
            " span{path=other::module}",
            Color::DarkGrey,
            false
        )
    );
}

#[test]
fn message_parts_highlight_quoted_strings() {
    let mut parts = Vec::new();
    renderer().push_message_parts(
        &mut parts,
        "loaded \"user 42\" from cache",
        &[],
        Color::White,
    );

    assert_eq!(parts[0], Part::new("loaded ", Color::White, false));
    assert_eq!(parts[1], Part::new("\"user 42\"", string_color(), false));
    assert_eq!(parts[2], Part::new(" from cache", Color::White, false));
}

#[test]
fn message_parts_keep_escaped_quotes_inside_string() {
    let mut parts = Vec::new();
    renderer().push_message_parts(
        &mut parts,
        "loaded \"user \\\"jonas\\\"\"",
        &[],
        Color::White,
    );

    assert_eq!(parts[0], Part::new("loaded ", Color::White, false));
    assert_eq!(
        parts[1],
        Part::new("\"user \\\"jonas\\\"\"", string_color(), false)
    );
}

#[test]
fn structured_message_parts_use_jq_style_colors() {
    let message_parts = vec![
        StyledText::new("au revoir", MessageStyle::Default),
        StyledText::new(" (", MessageStyle::JsonPunctuation),
        StyledText::new("lang", MessageStyle::JsonKey),
        StyledText::new("=", MessageStyle::JsonPunctuation),
        StyledText::new("\"fr\"", MessageStyle::JsonString),
        StyledText::new(" ", MessageStyle::JsonPunctuation),
        StyledText::new("ok", MessageStyle::JsonBool),
        StyledText::new("=", MessageStyle::JsonPunctuation),
        StyledText::new("true", MessageStyle::JsonBool),
        StyledText::new(" ", MessageStyle::JsonPunctuation),
        StyledText::new("count", MessageStyle::JsonNumber),
        StyledText::new("=", MessageStyle::JsonPunctuation),
        StyledText::new("7", MessageStyle::JsonNumber),
        StyledText::new(" ", MessageStyle::JsonPunctuation),
        StyledText::new("none", MessageStyle::JsonNull),
        StyledText::new("=", MessageStyle::JsonPunctuation),
        StyledText::new("null", MessageStyle::JsonNull),
        StyledText::new(")", MessageStyle::JsonPunctuation),
    ];
    let mut parts = Vec::new();

    renderer().push_message_parts(&mut parts, "", &message_parts, Color::White);

    assert_eq!(
        EntryRenderer::plain_text_from_parts(&parts),
        r#"au revoir (lang="fr" ok=true count=7 none=null)"#
    );
    assert_eq!(parts[0], Part::new("au revoir", Color::White, false));
    assert_eq!(parts[2], Part::new("lang", Color::Blue, true));
    assert_eq!(parts[4], Part::new("\"fr\"", Color::Green, false));
    assert_eq!(parts[8], Part::new("true", Color::Reset, false));
    assert_eq!(parts[12], Part::new("7", Color::Reset, false));
    assert_eq!(parts[16], Part::new("null", Color::DarkGrey, false));
}

#[test]
fn span_parts_use_span_specific_colors() {
    let spans = vec![
        "request{id=7}".to_string(),
        "db{query=\"select\"}".to_string(),
    ];
    let mut parts = Vec::new();

    renderer().push_span_parts(&mut parts, &spans);

    assert_eq!(
        parts[0],
        Part::new("request", span_name_color("request"), false)
    );
    assert_eq!(parts[1], Part::new("{", span_punctuation_color(), false));
    assert_eq!(parts[2], Part::new("id", span_key_color(), false));
    assert_eq!(parts[3], Part::new("=", span_punctuation_color(), false));
    assert_eq!(parts[4], Part::new("7", span_value_color("7"), false));
    assert_eq!(parts[6], Part::new(": ", Color::DarkGrey, false));
    assert_eq!(parts[7], Part::new("db", span_name_color("db"), false));
    assert_eq!(parts[10], Part::new("=", span_punctuation_color(), false));
    assert_eq!(parts[11], Part::new("\"select\"", string_color(), false));
}

#[test]
fn span_parts_render_bare_spans_as_span_names() {
    let spans = vec!["load_graphs".to_string(), "load_graphs_inner".to_string()];
    let mut parts = Vec::new();

    renderer().push_span_parts(&mut parts, &spans);

    assert_eq!(
        parts[0],
        Part::new(
            "load_graphs",
            span_name_color("load_graphs"),
            false
        )
    );
    assert_eq!(parts[1], Part::new(": ", Color::DarkGrey, false));
    assert_eq!(
        parts[2],
        Part::new(
            "load_graphs_inner",
            span_name_color("load_graphs_inner"),
            false
        )
    );
}

#[test]
fn span_palette_is_separate_from_target_palette() {
    assert_eq!(SPAN_PALETTE_SIZE, 64);
    assert_ne!(span_name_color("request"), target_module_color("request"));
}
