//! What a key does to the view.

use std::collections::VecDeque;

use vstd::prelude::*;

use crate::model::{entries_view, EntrySpec, LogEntry};
use crate::text::{copy_str, text_of};
use crate::ui::view::{
    is_visible, law_moving_by_places_selects_retained, law_moving_selects_retained,
    law_scrolling_selects_retained, lemma_place_of, lemma_shown, moved_by, moved_to, place_of,
    scrolled, selects_retained, shown, visible_indices, ViewSpec, ViewState,
};

verus! {

/// How many columns a horizontal step goes.
pub const HORIZONTAL_SCROLL_STEP: usize = 16;

/// A key that the viewer knows, or some other one.
#[derive(Clone, Copy, Debug, PartialEq, Eq, Structural)]
pub enum KeyCode {
    Char(char),
    Esc,
    Left,
    Right,
    Home,
    End,
    Up,
    Down,
    PageUp,
    PageDown,
    Other,
}

/// A key that was pressed, with or without Ctrl.
#[derive(Clone, Copy, Debug, PartialEq, Eq, Structural)]
pub struct KeyEvent {
    pub code: KeyCode,
    pub control: bool,
}

/// What is left to do after a key.
#[derive(Clone, Copy, Debug, PartialEq, Eq, Structural)]
pub enum KeyAction {
    Continue,
    CopySelected,
    Quit,
}

/// How many lines a page step goes: one less than a page, but at least one, and no
/// more than a signed number counts.
pub open spec fn page_step(page_size: int) -> int {
    if page_size <= 2 {
        1
    } else if page_size - 1 <= isize::MAX {
        page_size - 1
    } else {
        isize::MAX as int
    }
}

/// How many lines a page step goes.
fn signed_step(page_size: usize) -> (r: isize)
    ensures
        r == page_step(page_size as int),
{
    if page_size <= 2 {
        1
    } else if page_size - 1 <= isize::MAX as usize {
        (page_size - 1) as isize
    } else {
        isize::MAX
    }
}

/// The target of the selected entry.
pub open spec fn selected_target(view: ViewSpec, entries: Seq<EntrySpec>) -> Option<Seq<char>> {
    match view.selected {
        Some(i) if i < entries.len() => entries[i].target,
        _ => None,
    }
}

/// The view with the focus on the target of the selected entry, or with no focus
/// where there was one.
pub open spec fn refocused(view: ViewSpec, entries: Seq<EntrySpec>, page_size: int) -> ViewSpec {
    let focus = if view.focus_target is Some {
        None
    } else {
        selected_target(view, entries)
    };
    scrolled(ViewSpec { focus_target: focus, ..view }, shown(entries, focus), page_size)
}

/// The view after a key in the log itself.
pub open spec fn log_key(
    code: KeyCode,
    entries: Seq<EntrySpec>,
    view: ViewSpec,
    page_size: int,
) -> ViewSpec {
    let visible = shown(entries, view.focus_target);
    match code {
        KeyCode::Char('s') => ViewSpec { show_spans: !view.show_spans, ..view },
        KeyCode::Char('f') => refocused(view, entries, page_size),
        KeyCode::Left => ViewSpec {
            x_offset: if view.x_offset > 16 {
                view.x_offset - 16
            } else {
                0
            },
            ..view
        },
        KeyCode::Right => ViewSpec {
            x_offset: if view.x_offset + 16 <= usize::MAX {
                view.x_offset + 16
            } else {
                usize::MAX as int
            },
            ..view
        },
        KeyCode::Home => moved_to(view, visible, 0, page_size),
        KeyCode::End => moved_to(
            view,
            visible,
            if visible.len() == 0 {
                0
            } else {
                visible.len() - 1
            },
            page_size,
        ),
        KeyCode::Up => moved_by(view, visible, -1, page_size),
        KeyCode::Down => moved_by(view, visible, 1, page_size),
        KeyCode::PageUp => moved_by(view, visible, -page_step(page_size), page_size),
        KeyCode::PageDown => moved_by(view, visible, page_step(page_size), page_size),
        _ => view,
    }
}

/// The view after a key, and what is left to do. Ctrl-C quits everywhere, and a
/// question mark toggles the help page. On the help page, Esc and `q` close it
/// and the other keys do nothing.
pub open spec fn key_outcome(
    key: KeyEvent,
    entries: Seq<EntrySpec>,
    view: ViewSpec,
    process_exited: bool,
    page_size: int,
) -> (ViewSpec, KeyAction) {
    let closes = key.code == KeyCode::Esc || key.code == KeyCode::Char('q');
    if key.code == KeyCode::Char('c') && key.control {
        (view, KeyAction::Quit)
    } else if key.code == KeyCode::Char('?') {
        (ViewSpec { help_visible: !view.help_visible, ..view }, KeyAction::Continue)
    } else if view.help_visible {
        (ViewSpec { help_visible: !closes, ..view }, KeyAction::Continue)
    } else if key.code == KeyCode::Char('y') {
        (view, KeyAction::CopySelected)
    } else if closes && process_exited {
        (view, KeyAction::Quit)
    } else {
        (log_key(key.code, entries, view, page_size), KeyAction::Continue)
    }
}

/// A key leaves the selection on a retained line.
pub proof fn law_keys_select_retained(
    key: KeyEvent,
    entries: Seq<EntrySpec>,
    view: ViewSpec,
    process_exited: bool,
    page_size: int,
)
    requires
        selects_retained(view, entries.len() as int),
    ensures
        selects_retained(
            key_outcome(key, entries, view, process_exited, page_size).0,
            entries.len() as int,
        ),
{
    let visible = shown(entries, view.focus_target);
    let last = if visible.len() == 0 {
        0
    } else {
        visible.len() - 1
    };
    match key.code {
        KeyCode::Char('f') => {
            let focus = if view.focus_target is Some {
                None
            } else {
                selected_target(view, entries)
            };
            let focused = ViewSpec { focus_target: focus, ..view };
            law_scrolling_selects_retained(focused, entries, page_size);
        },
        KeyCode::Home => law_moving_selects_retained(view, entries, 0, page_size),
        KeyCode::End => law_moving_selects_retained(view, entries, last, page_size),
        KeyCode::Up => law_moving_by_places_selects_retained(view, entries, -1, page_size),
        KeyCode::Down => law_moving_by_places_selects_retained(view, entries, 1, page_size),
        KeyCode::PageUp => law_moving_by_places_selects_retained(
            view,
            entries,
            -page_step(page_size),
            page_size,
        ),
        KeyCode::PageDown => law_moving_by_places_selects_retained(
            view,
            entries,
            page_step(page_size),
            page_size,
        ),
        _ => {},
    }
}

/// The question mark undoes itself.
pub proof fn law_help_toggle_undoes_itself(
    control: bool,
    entries: Seq<EntrySpec>,
    view: ViewSpec,
    process_exited: bool,
    page_size: int,
)
    ensures
        ({
            let key = KeyEvent { code: KeyCode::Char('?'), control };
            let once = key_outcome(key, entries, view, process_exited, page_size).0;
            once != view && key_outcome(key, entries, once, process_exited, page_size).0 == view
        }),
{
    let key = KeyEvent { code: KeyCode::Char('?'), control };
    let once = key_outcome(key, entries, view, process_exited, page_size).0;
    assert(once.help_visible != view.help_visible);
}

/// Outside of the help page, `s` undoes itself.
pub proof fn law_span_toggle_undoes_itself(
    control: bool,
    entries: Seq<EntrySpec>,
    view: ViewSpec,
    process_exited: bool,
    page_size: int,
)
    requires
        !view.help_visible,
    ensures
        ({
            let key = KeyEvent { code: KeyCode::Char('s'), control };
            let once = key_outcome(key, entries, view, process_exited, page_size).0;
            once != view && key_outcome(key, entries, once, process_exited, page_size).0 == view
        }),
{
    let key = KeyEvent { code: KeyCode::Char('s'), control };
    let once = key_outcome(key, entries, view, process_exited, page_size).0;
    assert(once.show_spans != view.show_spans);
}

/// On the help page, no key changes what is shown of the log.
pub proof fn law_help_page_keeps_the_log(
    key: KeyEvent,
    entries: Seq<EntrySpec>,
    view: ViewSpec,
    process_exited: bool,
    page_size: int,
)
    requires
        view.help_visible,
    ensures
        ({
            let after = key_outcome(key, entries, view, process_exited, page_size).0;
            after == ViewSpec { help_visible: after.help_visible, ..view }
        }),
{
}

/// While the process runs, Ctrl-C is the only key that quits.
pub proof fn law_only_ctrl_c_quits_a_running_process(
    key: KeyEvent,
    entries: Seq<EntrySpec>,
    view: ViewSpec,
    page_size: int,
)
    ensures
        key_outcome(key, entries, view, false, page_size).1 == KeyAction::Quit <==> key.code
            == KeyCode::Char('c') && key.control,
{
}

/// The view after a key in the log of a running process.
pub open spec fn pressed(
    code: KeyCode,
    entries: Seq<EntrySpec>,
    view: ViewSpec,
    page_size: int,
) -> ViewSpec {
    key_outcome(KeyEvent { code, control: false }, entries, view, false, page_size).0
}

/// Home selects the first line that is shown, and End the last one.
pub proof fn law_home_and_end_go_to_the_ends(
    entries: Seq<EntrySpec>,
    view: ViewSpec,
    page_size: int,
)
    requires
        !view.help_visible,
        shown(entries, view.focus_target).len() > 0,
    ensures
        ({
            let visible = shown(entries, view.focus_target);
            &&& pressed(KeyCode::Home, entries, view, page_size).selected == Some(visible[0])
            &&& pressed(KeyCode::End, entries, view, page_size).selected == Some(visible.last())
        }),
{
    let visible = shown(entries, view.focus_target);
    lemma_moved_to_selects(view, visible, 0, page_size);
    lemma_moved_to_selects(view, visible, visible.len() - 1, page_size);
}

/// Where there is a line above the selected one, Up selects it, and Down goes
/// back.
pub proof fn law_down_undoes_up(
    entries: Seq<EntrySpec>,
    view: ViewSpec,
    page_size: int,
    place: int,
)
    requires
        !view.help_visible,
        0 < place < shown(entries, view.focus_target).len(),
        view.selected == Some(shown(entries, view.focus_target)[place]),
    ensures
        ({
            let visible = shown(entries, view.focus_target);
            let up = pressed(KeyCode::Up, entries, view, page_size);
            let down = pressed(KeyCode::Down, entries, up, page_size);
            up.selected == Some(visible[place - 1]) && down.selected == view.selected
        }),
{
    let visible = shown(entries, view.focus_target);
    let up = pressed(KeyCode::Up, entries, view, page_size);
    lemma_shown_place(entries, view.focus_target, place);
    lemma_shown_place(entries, view.focus_target, place - 1);
    lemma_moved_to_selects(view, visible, place - 1, page_size);
    lemma_moved_to_selects(up, visible, place, page_size);
}

/// PageDown and PageUp move the selection by a page less one line, but by one line
/// at least, and no further than the last and the first line that is shown.
pub proof fn law_page_keys_move_by_a_page(
    entries: Seq<EntrySpec>,
    view: ViewSpec,
    page_size: int,
    place: int,
)
    requires
        !view.help_visible,
        0 <= place < shown(entries, view.focus_target).len(),
        view.selected == Some(shown(entries, view.focus_target)[place]),
        page_size - 1 <= isize::MAX,
    ensures
        ({
            let visible = shown(entries, view.focus_target);
            let down = pressed(KeyCode::PageDown, entries, view, page_size);
            let up = pressed(KeyCode::PageUp, entries, view, page_size);
            let step = if page_size >= 2 {
                page_size - 1
            } else {
                1
            };
            &&& down.selected == if place + step < visible.len() {
                Some(visible[place + step])
            } else {
                Some(visible.last())
            }
            &&& up.selected == if place >= step {
                Some(visible[place - step])
            } else {
                Some(visible[0])
            }
        }),
{
    let visible = shown(entries, view.focus_target);
    let step = if page_size >= 2 {
        page_size - 1
    } else {
        1
    };
    lemma_shown_place(entries, view.focus_target, place);
    let down = if place + step < visible.len() {
        place + step
    } else {
        visible.len() - 1
    };
    let up = if place >= step {
        place - step
    } else {
        0
    };
    lemma_moved_to_selects(view, visible, down, page_size);
    lemma_moved_to_selects(view, visible, up, page_size);
}

/// Down and Up move the selection by one line, and stop at the ends.
pub proof fn law_arrows_move_by_a_line(
    entries: Seq<EntrySpec>,
    view: ViewSpec,
    page_size: int,
    place: int,
)
    requires
        !view.help_visible,
        0 <= place < shown(entries, view.focus_target).len(),
        view.selected == Some(shown(entries, view.focus_target)[place]),
    ensures
        ({
            let visible = shown(entries, view.focus_target);
            let down = pressed(KeyCode::Down, entries, view, page_size);
            let up = pressed(KeyCode::Up, entries, view, page_size);
            &&& down.selected == Some(
                if place + 1 < visible.len() {
                    visible[place + 1]
                } else {
                    visible[place]
                },
            )
            &&& up.selected == Some(
                if place > 0 {
                    visible[place - 1]
                } else {
                    visible[place]
                },
            )
        }),
{
    let visible = shown(entries, view.focus_target);
    lemma_shown_place(entries, view.focus_target, place);
    let down = if place + 1 < visible.len() {
        place + 1
    } else {
        place
    };
    let up = if place > 0 {
        place - 1
    } else {
        place
    };
    lemma_moved_to_selects(view, visible, down, page_size);
    lemma_moved_to_selects(view, visible, up, page_size);
}

/// A key that moves the selection starts at the last shown line where none of them is
/// selected, and leaves everything but the selection and the page as it is.
pub proof fn law_movement_starts_at_a_shown_line(
    entries: Seq<EntrySpec>,
    view: ViewSpec,
    page_size: int,
    code: KeyCode,
)
    requires
        !view.help_visible,
        code == KeyCode::Up || code == KeyCode::Down || code == KeyCode::PageUp || code
            == KeyCode::PageDown,
    ensures
        ({
            let visible = shown(entries, view.focus_target);
            let after = pressed(code, entries, view, page_size);
            &&& after == (ViewSpec {
                first_visible: after.first_visible,
                selected: after.selected,
                ..view
            })
            &&& visible.len() == 0 ==> after == view
            &&& visible.len() > 0 && (view.selected matches Some(line) ==> !visible.contains(line))
                ==> after == pressed(
                code,
                entries,
                ViewSpec { selected: Some(visible[visible.len() - 1]), ..view },
                page_size,
            )
        }),
{
    let visible = shown(entries, view.focus_target);
    if visible.len() > 0 {
        let line = visible[visible.len() - 1];
        lemma_shown_place(entries, view.focus_target, visible.len() - 1);
        if let Some(line) = view.selected {
            lemma_place_of(visible, line);
        }
    }
}

/// Which keys ask for something: Ctrl-C quits, `y` copies the selected line where the
/// log is shown, and so do `q` and Esc quit once the input has ended. No other key
/// asks for anything.
pub proof fn law_actions_of_keys(
    key: KeyEvent,
    entries: Seq<EntrySpec>,
    view: ViewSpec,
    process_exited: bool,
    page_size: int,
)
    ensures
        ({
            let (after, action) = key_outcome(key, entries, view, process_exited, page_size);
            let interrupt = key.control && key.code == KeyCode::Char('c');
            let closing = key.code == KeyCode::Char('q') || key.code == KeyCode::Esc;
            &&& action == KeyAction::Quit <==> interrupt || (closing && process_exited
                && !view.help_visible)
            &&& action == KeyAction::CopySelected <==> key.code == KeyCode::Char('y')
                && !view.help_visible
            &&& action != KeyAction::Continue ==> after == view
            &&& view.help_visible && !interrupt ==> after == (ViewSpec {
                help_visible: !closing && key.code != KeyCode::Char('?'),
                ..view
            })
        }),
{
}

/// A key without a meaning changes nothing.
pub proof fn law_other_keys_change_nothing(
    key: KeyEvent,
    entries: Seq<EntrySpec>,
    view: ViewSpec,
    process_exited: bool,
    page_size: int,
)
    requires
        !view.help_visible,
        key.code is Char || key.code is Esc || key.code is Other,
        key.code != KeyCode::Char('?'),
        key.code != KeyCode::Char('s'),
        key.code != KeyCode::Char('f'),
    ensures
        key_outcome(key, entries, view, process_exited, page_size).0 == view,
{
}

/// Left and Right move the text by sixteen columns, as far as there are any, and
/// leave everything else as it is.
pub proof fn law_side_keys_move_by_columns(
    entries: Seq<EntrySpec>,
    view: ViewSpec,
    page_size: int,
)
    requires
        !view.help_visible,
        0 <= view.x_offset <= usize::MAX,
    ensures
        ({
            let left = pressed(KeyCode::Left, entries, view, page_size);
            let right = pressed(KeyCode::Right, entries, view, page_size);
            &&& left == (ViewSpec { x_offset: left.x_offset, ..view })
            &&& right == (ViewSpec { x_offset: right.x_offset, ..view })
            &&& left.x_offset == vstd::math::max(view.x_offset - 16, 0)
            &&& right.x_offset == vstd::math::min(view.x_offset + 16, usize::MAX as int)
        }),
{
}

/// A second press of the focus key takes the focus away, and one on a line without a
/// target sets none. The view then only scrolls.
pub proof fn law_focus_is_taken_away(entries: Seq<EntrySpec>, view: ViewSpec, page_size: int)
    requires
        !view.help_visible,
    ensures
        ({
            let after = pressed(KeyCode::Char('f'), entries, view, page_size);
            let target = match view.selected {
                Some(line) => if line < entries.len() {
                    entries[line].target
                } else {
                    None
                },
                None => None,
            };
            &&& after.focus_target == if view.focus_target is Some {
                None
            } else {
                target
            }
            &&& after == scrolled(
                ViewSpec { focus_target: after.focus_target, ..view },
                shown(entries, after.focus_target),
                page_size,
            )
        }),
{
}

/// Left goes back to where Right came from.
pub proof fn law_left_undoes_right(entries: Seq<EntrySpec>, view: ViewSpec, page_size: int)
    requires
        !view.help_visible,
        0 <= view.x_offset <= usize::MAX - 16,
    ensures
        ({
            let right = pressed(KeyCode::Right, entries, view, page_size);
            &&& right.x_offset == view.x_offset + 16
            &&& pressed(KeyCode::Left, entries, right, page_size) == view
        }),
{
}

/// Focusing shows the lines of the selected target and no others, and keeps the
/// selection. Doing it again shows all lines, and keeps the selection too.
pub proof fn law_focus_shows_the_selected_target(
    entries: Seq<EntrySpec>,
    view: ViewSpec,
    page_size: int,
    target: Seq<char>,
)
    requires
        !view.help_visible,
        selects_retained(view, entries.len() as int),
        view.focus_target is None,
        selected_target(view, entries) == Some(target),
    ensures
        ({
            let focused = pressed(KeyCode::Char('f'), entries, view, page_size);
            let cleared = pressed(KeyCode::Char('f'), entries, focused, page_size);
            let visible = shown(entries, focused.focus_target);
            &&& focused.focus_target == Some(target)
            &&& focused.selected == view.selected
            &&& forall|i: int|
                0 <= i < visible.len() ==> entries[#[trigger] visible[i]].target == Some(target)
            &&& cleared.focus_target is None
            &&& cleared.selected == view.selected
        }),
{
    let selected = view.selected.unwrap();
    let none: Option<Seq<char>> = None;
    lemma_shown(entries, Some(target));
    lemma_shown(entries, none);
    assert(is_visible(entries[selected], Some(target)));
    assert(is_visible(entries[selected], none));
    lemma_place_of(shown(entries, Some(target)), selected);
    lemma_place_of(shown(entries, none), selected);
}

proof fn lemma_moved_to_selects(view: ViewSpec, visible: Seq<int>, place: int, page_size: int)
    requires
        0 <= place < visible.len(),
    ensures
        moved_to(view, visible, place, page_size).selected == Some(visible[place]),
        moved_to(view, visible, place, page_size).focus_target == view.focus_target,
        moved_to(view, visible, place, page_size).help_visible == view.help_visible,
{
    lemma_place_of(visible, visible[place]);
    assert(visible.contains(visible[place]));
}

proof fn lemma_shown_place(entries: Seq<EntrySpec>, focus: Option<Seq<char>>, place: int)
    requires
        0 <= place < shown(entries, focus).len(),
    ensures
        place_of(shown(entries, focus), shown(entries, focus)[place]) == Some(place),
{
    let visible = shown(entries, focus);
    lemma_shown(entries, focus);
    lemma_place_of(visible, visible[place]);
    assert(visible.contains(visible[place]));
    let found = place_of(visible, visible[place]).unwrap();
    if found < place {
        assert(visible[found] < visible[place]);
    } else if place < found {
        assert(visible[place] < visible[found]);
    }
}

/// Applies a key to the view and tells what is left to do.
pub fn handle_key(
    key: KeyEvent,
    entries: &VecDeque<LogEntry>,
    state: &mut ViewState,
    process_exited: bool,
    page_size: usize,
) -> (r: KeyAction)
    ensures
        (final(state)@, r) == key_outcome(
            key,
            entries_view(entries@),
            old(state)@,
            process_exited,
            page_size as int,
        ),
{
    let visible = visible_indices(entries, state);
    let step: isize = signed_step(page_size);
    match key.code {
        KeyCode::Char('c') if key.control => KeyAction::Quit,
        KeyCode::Char('?') => {
            state.help_visible = !state.help_visible;
            KeyAction::Continue
        },
        KeyCode::Esc if state.help_visible => {
            state.help_visible = false;
            KeyAction::Continue
        },
        KeyCode::Char('q') if state.help_visible => {
            state.help_visible = false;
            KeyAction::Continue
        },
        _ if state.help_visible => KeyAction::Continue,
        KeyCode::Char('s') => {
            state.show_spans = !state.show_spans;
            KeyAction::Continue
        },
        KeyCode::Char('f') => {
            state.focus_target = if state.focus_target.is_some() {
                None
            } else {
                target_of_selected(entries, state)
            };
            state.scroll_selected_into_view(entries, page_size);
            KeyAction::Continue
        },
        KeyCode::Char('y') => KeyAction::CopySelected,
        KeyCode::Char('q') | KeyCode::Esc => {
            if process_exited {
                KeyAction::Quit
            } else {
                KeyAction::Continue
            }
        },
        KeyCode::Left => {
            state.x_offset = state.x_offset.saturating_sub(HORIZONTAL_SCROLL_STEP);
            KeyAction::Continue
        },
        KeyCode::Right => {
            state.x_offset = state.x_offset.saturating_add(HORIZONTAL_SCROLL_STEP);
            KeyAction::Continue
        },
        KeyCode::Home => {
            state.move_selected_to(visible.as_slice(), 0, page_size);
            KeyAction::Continue
        },
        KeyCode::End => {
            let last: usize = visible.len().saturating_sub(1);
            state.move_selected_to(visible.as_slice(), last, page_size);
            KeyAction::Continue
        },
        KeyCode::Up => {
            state.move_selected_by(visible.as_slice(), -1, page_size);
            KeyAction::Continue
        },
        KeyCode::Down => {
            state.move_selected_by(visible.as_slice(), 1, page_size);
            KeyAction::Continue
        },
        KeyCode::PageUp => {
            state.move_selected_by(visible.as_slice(), -step, page_size);
            KeyAction::Continue
        },
        KeyCode::PageDown => {
            state.move_selected_by(visible.as_slice(), step, page_size);
            KeyAction::Continue
        },
        _ => KeyAction::Continue,
    }
}

/// The target of the selected entry.
fn target_of_selected(entries: &VecDeque<LogEntry>, state: &ViewState) -> (r: Option<String>)
    ensures
        text_of(r) == selected_target(state@, entries_view(entries@)),
{
    match state.selected {
        Some(selected) if selected < entries.len() => match &entries[selected].target {
            Some(target) => Some(copy_str(target.as_str())),
            None => None,
        },
        _ => None,
    }
}

} // verus!
