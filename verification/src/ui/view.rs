//! Which of the retained lines are shown, and which one is selected.

use std::collections::VecDeque;

use vstd::prelude::*;

use crate::model::{entries_view, EntrySpec, LogEntry};
use crate::text::{position, positions, same_text, text_of};

verus! {

/// What the user has chosen to see. `first_visible` and `selected` are positions
/// among the retained lines.
#[derive(Debug)]
pub struct ViewState {
    pub x_offset: usize,
    pub first_visible: usize,
    pub selected: Option<usize>,
    pub help_visible: bool,
    pub show_spans: bool,
    pub focus_target: Option<String>,
}

/// What a view state holds.
#[verifier::ext_equal]
pub ghost struct ViewSpec {
    pub x_offset: int,
    pub first_visible: int,
    pub selected: Option<int>,
    pub help_visible: bool,
    pub show_spans: bool,
    pub focus_target: Option<Seq<char>>,
}

impl View for ViewState {
    type V = ViewSpec;

    open spec fn view(&self) -> ViewSpec {
        ViewSpec {
            x_offset: self.x_offset as int,
            first_visible: self.first_visible as int,
            selected: position(self.selected),
            help_visible: self.help_visible,
            show_spans: self.show_spans,
            focus_target: text_of(self.focus_target),
        }
    }
}

/// The entry is shown: nothing is focused, or its target is.
pub open spec fn is_visible(entry: EntrySpec, focus: Option<Seq<char>>) -> bool {
    focus matches Some(target) ==> entry.target == Some(target)
}

/// The positions of the entries that are shown, in their order.
pub open spec fn shown(entries: Seq<EntrySpec>, focus: Option<Seq<char>>) -> Seq<int>
    decreases entries.len(),
{
    if entries.len() == 0 {
        Seq::empty()
    } else {
        let before = shown(entries.drop_last(), focus);
        if is_visible(entries.last(), focus) {
            before.push(entries.len() - 1)
        } else {
            before
        }
    }
}

/// The first position of `x` in `v`.
pub open spec fn place_of(v: Seq<int>, x: int) -> Option<int>
    decreases v.len(),
{
    if v.len() == 0 {
        None
    } else if v[0] == x {
        Some(0)
    } else {
        match place_of(v.drop_first(), x) {
            Some(i) => Some(i + 1),
            None => None,
        }
    }
}

/// The first position in `v` of a number that is not below `x`.
pub open spec fn place_from(v: Seq<int>, x: int) -> Option<int>
    decreases v.len(),
{
    if v.len() == 0 {
        None
    } else if v[0] >= x {
        Some(0)
    } else {
        match place_from(v.drop_first(), x) {
            Some(i) => Some(i + 1),
            None => None,
        }
    }
}

/// The place in `visible` of `first`, or of what comes behind it; `otherwise`
/// where nothing does.
pub open spec fn page_place(visible: Seq<int>, first: int, otherwise: int) -> int {
    match place_of(visible, first) {
        Some(i) => i,
        None => match place_from(visible, first) {
            Some(i) => i,
            None => otherwise,
        },
    }
}

/// The number of lines on a page: at least one.
pub open spec fn page_lines(page_size: int) -> int {
    if page_size < 1 {
        1
    } else {
        page_size
    }
}

/// The place in `visible` where the page starts once the line at place `place`
/// has been scrolled into view. The page moves no further than it must.
pub open spec fn page_start(visible: Seq<int>, first: int, place: int, page_size: int) -> int {
    let lines = page_lines(page_size);
    let current = page_place(visible, first, visible.len() - 1);
    let last = if visible.len() > lines {
        visible.len() - lines
    } else {
        0
    };
    let start = if current < last {
        current
    } else {
        last
    };
    if place < start {
        place
    } else if place >= start + lines {
        place + 1 - lines
    } else {
        start
    }
}

/// The last of `v`, if there is one.
pub open spec fn last_of(v: Seq<int>) -> Option<int> {
    if v.len() == 0 {
        None
    } else {
        Some(v.last())
    }
}

/// The view with its selected line scrolled into view. A selected line that is
/// not shown gives way to the last one that is.
pub open spec fn scrolled(view: ViewSpec, visible: Seq<int>, page_size: int) -> ViewSpec {
    match view.selected {
        None => ViewSpec { first_visible: 0, ..view },
        Some(selected) => match place_of(visible, selected) {
            None => ViewSpec {
                first_visible: if visible.len() == 0 {
                    0
                } else {
                    visible[0]
                },
                selected: last_of(visible),
                ..view
            },
            Some(place) => ViewSpec {
                first_visible: visible[page_start(visible, view.first_visible, place, page_size)],
                ..view
            },
        },
    }
}

/// The view with the line at place `place` selected.
pub open spec fn moved_to(
    view: ViewSpec,
    visible: Seq<int>,
    place: int,
    page_size: int,
) -> ViewSpec {
    let selected = if place < visible.len() {
        Some(visible[place])
    } else {
        None
    };
    scrolled(ViewSpec { selected, ..view }, visible, page_size)
}

/// The place of the selected line, or of the last one where it is not shown.
pub open spec fn selected_place(visible: Seq<int>, selected: Option<int>) -> Option<int> {
    match selected {
        Some(x) if place_of(visible, x) is Some => place_of(visible, x),
        _ => if visible.len() == 0 {
            None
        } else {
            Some(visible.len() - 1)
        },
    }
}

/// The view with the selection moved by `delta` places, no further than the
/// first or last line.
pub open spec fn moved_by(
    view: ViewSpec,
    visible: Seq<int>,
    delta: int,
    page_size: int,
) -> ViewSpec {
    match selected_place(visible, view.selected) {
        None => view,
        Some(place) => {
            let target = place + delta;
            let place = if target < 0 {
                0
            } else if target >= visible.len() {
                visible.len() - 1
            } else {
                target
            };
            moved_to(view, visible, place, page_size)
        },
    }
}

/// The view with the last line that is shown selected.
pub open spec fn followed(view: ViewSpec, entries: Seq<EntrySpec>, page_size: int) -> ViewSpec {
    let visible = shown(entries, view.focus_target);
    scrolled(ViewSpec { selected: last_of(visible), ..view }, visible, page_size)
}

/// A number less by one, but no less than zero.
pub open spec fn one_less(n: int) -> int {
    if n > 0 {
        n - 1
    } else {
        0
    }
}

/// The view after the first retained line has been dropped.
pub open spec fn without_first(view: ViewSpec) -> ViewSpec {
    ViewSpec {
        first_visible: one_less(view.first_visible),
        selected: match view.selected {
            Some(selected) => Some(one_less(selected)),
            None => None,
        },
        ..view
    }
}

pub proof fn lemma_place_of(v: Seq<int>, x: int)
    ensures
        place_of(v, x) matches Some(i) ==> 0 <= i < v.len() && v[i] == x && forall|j: int|
            0 <= j < i ==> v[j] != x,
        place_of(v, x) is None ==> !v.contains(x),
    decreases v.len(),
{
    if v.len() > 0 && v[0] != x {
        let t = v.drop_first();
        lemma_place_of(t, x);
        if let Some(i) = place_of(t, x) {
            assert forall|j: int| 0 <= j < i + 1 implies v[j] != x by {
                if j > 0 {
                    assert(v[j] == t[j - 1]);
                }
            }
        } else {
            assert forall|j: int| 0 <= j < v.len() implies v[j] != x by {
                if j > 0 {
                    assert(v[j] == t[j - 1]);
                    assert(t.contains(t[j - 1]));
                }
            }
        }
    }
}

proof fn lemma_place_from(v: Seq<int>, x: int)
    ensures
        place_from(v, x) matches Some(i) ==> 0 <= i < v.len(),
    decreases v.len(),
{
    if v.len() > 0 && v[0] < x {
        lemma_place_from(v.drop_first(), x);
    }
}

/// The shown lines are retained lines, in their order, and each of them is
/// there.
pub proof fn lemma_shown(entries: Seq<EntrySpec>, focus: Option<Seq<char>>)
    ensures
        forall|i: int|
            0 <= i < shown(entries, focus).len() ==> 0 <= #[trigger] shown(entries, focus)[i]
                < entries.len() && is_visible(entries[shown(entries, focus)[i]], focus),
        forall|i: int, j: int|
            0 <= i < j < shown(entries, focus).len() ==> #[trigger] shown(entries, focus)[i]
                < #[trigger] shown(entries, focus)[j],
        forall|k: int|
            0 <= k < entries.len() && is_visible(#[trigger] entries[k], focus) ==> shown(
                entries,
                focus,
            ).contains(k),
    decreases entries.len(),
{
    if entries.len() > 0 {
        let init = entries.drop_last();
        let before = shown(init, focus);
        let all = shown(entries, focus);
        lemma_shown(init, focus);
        assert forall|i: int| 0 <= i < all.len() implies 0 <= #[trigger] all[i] < entries.len()
            && is_visible(entries[all[i]], focus) by {
            if i < before.len() {
                assert(all[i] == before[i]);
                assert(entries[all[i]] == init[before[i]]);
            }
        }
        assert forall|i: int, j: int| 0 <= i < j < all.len() implies #[trigger] all[i]
            < #[trigger] all[j] by {
            assert(all[i] == before[i]);
            if j < before.len() {
                assert(all[j] == before[j]);
            }
        }
        assert forall|k: int|
            0 <= k < entries.len() && is_visible(#[trigger] entries[k], focus) implies all.contains(
            k,
        ) by {
            if k < init.len() {
                assert(init[k] == entries[k]);
                let i = choose|i: int| 0 <= i < before.len() && before[i] == k;
                assert(all[i] == k);
            } else {
                assert(all[all.len() - 1] == k);
            }
        }
    }
}

/// A line is shown if nothing is focused or its target is, and the shown lines keep
/// their order.
pub proof fn law_shown_lines_have_the_focused_target(
    entries: Seq<EntrySpec>,
    focus: Option<Seq<char>>,
)
    ensures
        forall|k: int| #[trigger]
            shown(entries, focus).contains(k) <==> 0 <= k < entries.len() && (focus is None
                || entries[k].target == focus),
        forall|i: int, j: int|
            0 <= i < j < shown(entries, focus).len() ==> #[trigger] shown(entries, focus)[i]
                < #[trigger] shown(entries, focus)[j],
{
    let all = shown(entries, focus);
    lemma_shown(entries, focus);
    assert forall|k: int| #[trigger] all.contains(k) implies 0 <= k < entries.len() && (
    focus is None || entries[k].target == focus) by {
        let i = choose|i: int| 0 <= i < all.len() && all[i] == k;
        assert(is_visible(entries[all[i]], focus));
    }
    assert forall|k: int|
        0 <= k < entries.len() && (focus is None || entries[k].target
            == focus) implies #[trigger] all.contains(k) by {
        assert(is_visible(entries[k], focus));
    }
}

/// The page starts at the first shown line that is not before the given one.
pub proof fn law_pages_start_at_a_shown_line(visible: Seq<int>, first: int, c: int, otherwise: int)
    requires
        forall|i: int, j: int|
            0 <= i < j < visible.len() ==> #[trigger] visible[i] < #[trigger] visible[j],
        0 <= c < visible.len(),
        visible[c] >= first,
        forall|j: int| 0 <= j < c ==> #[trigger] visible[j] < first,
    ensures
        page_place(visible, first, otherwise) == c,
{
    lemma_place_of(visible, first);
    lemma_place_from_at(visible, first, c);
    if let Some(i) = place_of(visible, first) {
        if i > c {
            assert(visible[c] < visible[i]);
        }
    }
}

proof fn lemma_place_from_at(v: Seq<int>, x: int, c: int)
    requires
        0 <= c < v.len(),
        v[c] >= x,
        forall|j: int| 0 <= j < c ==> #[trigger] v[j] < x,
    ensures
        place_from(v, x) == Some(c),
    decreases v.len(),
{
    if c > 0 {
        let t = v.drop_first();
        assert(v[0] < x);
        assert forall|j: int| 0 <= j < c - 1 implies #[trigger] t[j] < x by {
            assert(v[j + 1] < x);
        }
        lemma_place_from_at(t, x, c - 1);
    }
}

/// The page starts at the first shown line that is not before the one it started at,
/// or further up so that it is full. It moves up to a selected line above it, and down
/// to one below it, and no further.
pub proof fn law_the_page_moves_as_far_as_it_must(
    view: ViewSpec,
    visible: Seq<int>,
    current: int,
    place: int,
    page_size: int,
)
    requires
        forall|i: int, j: int|
            0 <= i < j < visible.len() ==> #[trigger] visible[i] < #[trigger] visible[j],
        0 <= current < visible.len(),
        visible[current] >= view.first_visible,
        forall|j: int| 0 <= j < current ==> #[trigger] visible[j] < view.first_visible,
        0 <= place < visible.len(),
        view.selected == Some(visible[place]),
        page_size >= 1,
    ensures
        ({
            let after = scrolled(view, visible, page_size);
            let top = if current + page_size <= visible.len() {
                current
            } else if page_size <= visible.len() {
                visible.len() - page_size
            } else {
                0
            };
            &&& after == (ViewSpec { first_visible: after.first_visible, ..view })
            &&& place < top ==> after.first_visible == visible[place]
            &&& top <= place < top + page_size ==> after.first_visible == visible[top]
            &&& place >= top + page_size ==> after.first_visible == visible[place + 1 - page_size]
        }),
{
    law_pages_start_at_a_shown_line(visible, view.first_visible, current, visible.len() - 1);
    lemma_place_of(visible, visible[place]);
    let found = place_of(visible, visible[place]).unwrap();
    if found < place {
        assert(visible[found] < visible[place]);
    }
}

/// To move by some places is to select the line that is so many places further down or
/// up, or the last or first one where there are not so many.
pub proof fn law_moving_goes_by_places(
    view: ViewSpec,
    visible: Seq<int>,
    place: int,
    delta: int,
    page_size: int,
)
    requires
        forall|i: int, j: int|
            0 <= i < j < visible.len() ==> #[trigger] visible[i] < #[trigger] visible[j],
        0 <= place < visible.len(),
        view.selected == Some(visible[place]),
    ensures
        ({
            let after = moved_by(view, visible, delta, page_size);
            &&& 0 <= place + delta < visible.len() ==> after.selected == Some(
                visible[place + delta],
            )
            &&& place + delta < 0 ==> after.selected == Some(visible[0])
            &&& place + delta >= visible.len() ==> after.selected == Some(
                visible[visible.len() - 1],
            )
        }),
{
    lemma_place_of(visible, visible[place]);
    let found = place_of(visible, visible[place]).unwrap();
    if found < place {
        assert(visible[found] < visible[place]);
    }
    let to = if place + delta < 0 {
        0
    } else if place + delta >= visible.len() {
        visible.len() - 1
    } else {
        place + delta
    };
    lemma_place_of(visible, visible[to]);
}

/// A selected line that is not shown gives way to the last one that is, and the page
/// starts at the first one. Without a selected line the page starts at the first line.
pub proof fn law_hidden_selections_give_way(view: ViewSpec, visible: Seq<int>, page_size: int)
    requires
        view.selected matches Some(line) ==> !visible.contains(line),
    ensures
        ({
            let after = scrolled(view, visible, page_size);
            &&& after == (ViewSpec {
                first_visible: after.first_visible,
                selected: after.selected,
                ..view
            })
            &&& view.selected is None ==> after.selected is None && after.first_visible == 0
            &&& view.selected is Some && visible.len() > 0 ==> after.selected == Some(
                visible[visible.len() - 1],
            ) && after.first_visible == visible[0]
            &&& view.selected is Some && visible.len() == 0 ==> after.selected is None
                && after.first_visible == 0
        }),
{
    if let Some(line) = view.selected {
        lemma_place_of(visible, line);
    }
}

/// To follow is to select the last shown line, if there is one.
pub proof fn law_following_selects_the_last_line(
    view: ViewSpec,
    entries: Seq<EntrySpec>,
    page_size: int,
)
    ensures
        ({
            let after = followed(view, entries, page_size);
            let visible = shown(entries, view.focus_target);
            &&& visible.len() > 0 ==> after.selected == Some(visible[visible.len() - 1])
            &&& visible.len() == 0 ==> after.selected is None
            &&& after.focus_target == view.focus_target
            &&& after.x_offset == view.x_offset
            &&& after.show_spans == view.show_spans
            &&& after.help_visible == view.help_visible
        }),
{
    let visible = shown(entries, view.focus_target);
    if visible.len() > 0 {
        lemma_place_of(visible, visible.last());
    }
}

/// Once the first line is dropped, every other line is one position further up.
pub proof fn law_dropped_lines_shift_the_view(view: ViewSpec)
    requires
        view.first_visible >= 0,
        view.selected matches Some(line) ==> line >= 0,
    ensures
        ({
            let after = without_first(view);
            &&& after == (ViewSpec {
                first_visible: after.first_visible,
                selected: after.selected,
                ..view
            })
            &&& view.first_visible > 0 ==> after.first_visible + 1 == view.first_visible
            &&& view.first_visible == 0 ==> after.first_visible == 0
            &&& after.selected is Some <==> view.selected is Some
            &&& view.selected matches Some(line) ==> (line > 0 ==> after.selected == Some(line - 1))
            &&& view.selected == Some(0int) ==> after.selected == Some(0int)
        }),
{
}

/// After scrolling, the page starts at a line that is shown, the selected line
/// is on it, and it leaves no room at the end that earlier lines could fill.
pub proof fn law_selected_line_is_on_the_page(
    visible: Seq<int>,
    first: int,
    place: int,
    page_size: int,
)
    requires
        0 <= place < visible.len(),
    ensures
        ({
            let start = page_start(visible, first, place, page_size);
            &&& 0 <= start <= place < start + page_lines(page_size)
            &&& start < visible.len()
            &&& start == 0 || start + page_lines(page_size) <= visible.len()
        }),
{
    lemma_place_of(visible, first);
    lemma_place_from(visible, first);
}

/// The page does not move where the selected line is on it already and it does
/// not reach behind the last line.
pub proof fn law_page_stays_where_it_can(
    visible: Seq<int>,
    first: int,
    place: int,
    page_size: int,
)
    requires
        0 <= place < visible.len(),
        page_place(visible, first, visible.len() - 1) <= place < page_place(
            visible,
            first,
            visible.len() - 1,
        ) + page_lines(page_size),
        page_place(visible, first, visible.len() - 1) + page_lines(page_size) <= visible.len(),
    ensures
        page_start(visible, first, place, page_size) == page_place(
            visible,
            first,
            visible.len() - 1,
        ),
{
}

/// A selection stands on a retained line.
pub open spec fn selects_retained(view: ViewSpec, retained: int) -> bool {
    view.selected matches Some(selected) ==> 0 <= selected < retained
}

/// Scrolling leaves the selection on a retained line.
pub proof fn law_scrolling_selects_retained(
    view: ViewSpec,
    entries: Seq<EntrySpec>,
    page_size: int,
)
    requires
        selects_retained(view, entries.len() as int),
    ensures
        selects_retained(
            scrolled(view, shown(entries, view.focus_target), page_size),
            entries.len() as int,
        ),
{
    lemma_shown(entries, view.focus_target);
}

/// Following selects a retained line.
pub proof fn law_following_selects_retained(
    view: ViewSpec,
    entries: Seq<EntrySpec>,
    page_size: int,
)
    ensures
        selects_retained(followed(view, entries, page_size), entries.len() as int),
{
    lemma_shown(entries, view.focus_target);
}

/// Moving selects a retained line.
pub proof fn law_moving_selects_retained(
    view: ViewSpec,
    entries: Seq<EntrySpec>,
    place: int,
    page_size: int,
)
    requires
        0 <= place,
    ensures
        selects_retained(
            moved_to(view, shown(entries, view.focus_target), place, page_size),
            entries.len() as int,
        ),
{
    lemma_shown(entries, view.focus_target);
}

/// Moving by some places selects a retained line.
pub proof fn law_moving_by_places_selects_retained(
    view: ViewSpec,
    entries: Seq<EntrySpec>,
    delta: int,
    page_size: int,
)
    requires
        selects_retained(view, entries.len() as int),
    ensures
        selects_retained(
            moved_by(view, shown(entries, view.focus_target), delta, page_size),
            entries.len() as int,
        ),
{
    let visible = shown(entries, view.focus_target);
    if let Some(place) = selected_place(visible, view.selected) {
        let target = place + delta;
        let place = if target < 0 {
            0
        } else if target >= visible.len() {
            visible.len() - 1
        } else {
            target
        };
        law_moving_selects_retained(view, entries, place, page_size);
    }
}

/// Finds the first `x` in `v`.
fn find_place(v: &[usize], x: usize) -> (r: Option<usize>)
    ensures
        position(r) == place_of(positions(v@), x as int),
        r matches Some(i) ==> i < v@.len(),
{
    let ghost all = positions(v@);
    let mut i: usize = 0;
    assert(all.skip(0) =~= all);
    while i < v.len()
        invariant
            i <= v@.len(),
            all == positions(v@),
            place_of(all, x as int) == match place_of(all.skip(i as int), x as int) {
                Some(j) => Some(i + j),
                None => None,
            },
        decreases v@.len() - i,
    {
        if v[i] == x {
            return Some(i);
        }
        assert(all.skip(i as int).drop_first() =~= all.skip(i + 1));
        i = i + 1;
    }
    None
}

/// Finds the first number in `v` that is not below `x`.
fn find_from(v: &[usize], x: usize) -> (r: Option<usize>)
    ensures
        position(r) == place_from(positions(v@), x as int),
        r matches Some(i) ==> i < v@.len(),
{
    let ghost all = positions(v@);
    let mut i: usize = 0;
    assert(all.skip(0) =~= all);
    while i < v.len()
        invariant
            i <= v@.len(),
            all == positions(v@),
            place_from(all, x as int) == match place_from(all.skip(i as int), x as int) {
                Some(j) => Some(i + j),
                None => None,
            },
        decreases v@.len() - i,
    {
        if v[i] >= x {
            return Some(i);
        }
        assert(all.skip(i as int).drop_first() =~= all.skip(i + 1));
        i = i + 1;
    }
    None
}

/// The place in `visible` of `first`, or of what comes behind it; `otherwise`
/// where nothing does.
pub fn first_place(visible: &[usize], first: usize, otherwise: usize) -> (r: usize)
    ensures
        r == page_place(positions(visible@), first as int, otherwise as int),
        r < visible@.len() || r == otherwise,
{
    match find_place(visible, first) {
        Some(i) => i,
        None => match find_from(visible, first) {
            Some(i) => i,
            None => otherwise,
        },
    }
}

/// The last of `v`, if there is one.
fn last_position(v: &[usize]) -> (r: Option<usize>)
    ensures
        position(r) == last_of(positions(v@)),
{
    if v.len() == 0 {
        None
    } else {
        Some(v[v.len() - 1])
    }
}

impl ViewState {
    /// A view of no lines yet, with spans shown.
    pub fn new() -> (r: ViewState)
        ensures
            r@ == (ViewSpec {
                x_offset: 0,
                first_visible: 0,
                selected: None,
                help_visible: false,
                show_spans: true,
                focus_target: None,
            }),
    {
        ViewState {
            x_offset: 0,
            first_visible: 0,
            selected: None,
            help_visible: false,
            show_spans: true,
            focus_target: None,
        }
    }

    /// Selects the last line that is shown.
    pub fn follow_latest(&mut self, entries: &VecDeque<LogEntry>, page_size: usize)
        ensures
            final(self)@ == followed(old(self)@, entries_view(entries@), page_size as int),
    {
        let visible = visible_indices(entries, self);
        self.selected = last_position(visible.as_slice());
        self.scroll_selected_into_view(entries, page_size);
    }

    /// Accounts for the loss of the first retained line.
    pub fn remove_first_line(&mut self)
        ensures
            final(self)@ == without_first(old(self)@),
    {
        self.first_visible = self.first_visible.saturating_sub(1);
        self.selected = match self.selected {
            Some(selected) => Some(selected.saturating_sub(1)),
            None => None,
        };
    }

    /// Selects the line at a place among the shown ones.
    pub fn move_selected_to(
        &mut self,
        visible: &[usize],
        selected_visible: usize,
        page_size: usize,
    )
        ensures
            final(self)@ == moved_to(
                old(self)@,
                positions(visible@),
                selected_visible as int,
                page_size as int,
            ),
    {
        self.selected = if selected_visible < visible.len() {
            Some(visible[selected_visible])
        } else {
            None
        };
        self.scroll_selected_into_visible_slice(visible, page_size);
    }

    /// Moves the selection by a number of places among the shown lines.
    pub fn move_selected_by(&mut self, visible: &[usize], delta: isize, page_size: usize)
        ensures
            final(self)@ == moved_by(
                old(self)@,
                positions(visible@),
                delta as int,
                page_size as int,
            ),
    {
        let place = match selected_visible_pos(visible, self.selected) {
            Some(place) => place,
            None => {
                return ;
            },
        };
        let last: usize = visible.len() - 1;
        let target: usize = if delta < 0 {
            let back: usize = (0 - (delta + 1)) as usize + 1;
            place.saturating_sub(back)
        } else {
            let forth: usize = place.saturating_add(delta as usize);
            if forth < last {
                forth
            } else {
                last
            }
        };
        self.move_selected_to(visible, target, page_size);
    }

    /// Scrolls so that the selected line is on the page.
    pub fn scroll_selected_into_view(&mut self, entries: &VecDeque<LogEntry>, page_size: usize)
        ensures
            final(self)@ == scrolled(
                old(self)@,
                shown(entries_view(entries@), old(self)@.focus_target),
                page_size as int,
            ),
    {
        let visible = visible_indices(entries, self);
        self.scroll_selected_into_visible_slice(visible.as_slice(), page_size);
    }

    /// Scrolls so that the selected one of the shown lines is on the page.
    pub fn scroll_selected_into_visible_slice(&mut self, visible: &[usize], page_size: usize)
        ensures
            final(self)@ == scrolled(old(self)@, positions(visible@), page_size as int),
    {
        let selected = match self.selected {
            Some(selected) => selected,
            None => {
                self.first_visible = 0;
                return ;
            },
        };
        let place = match find_place(visible, selected) {
            Some(place) => place,
            None => {
                self.first_visible = if visible.len() == 0 {
                    0
                } else {
                    visible[0]
                };
                self.selected = last_position(visible);
                return ;
            },
        };
        proof {
            law_selected_line_is_on_the_page(
                positions(visible@),
                self.first_visible as int,
                place as int,
                page_size as int,
            );
        }
        let lines: usize = if page_size < 1 {
            1
        } else {
            page_size
        };
        let count: usize = visible.len();
        let current = first_place(visible, self.first_visible, count - 1);
        let last: usize = count.saturating_sub(lines);
        let mut start: usize = if current < last {
            current
        } else {
            last
        };
        if place < start {
            start = place;
        } else if place >= start.saturating_add(lines) {
            start = (place + 1).saturating_sub(lines);
        }
        assert(start == page_start(
            positions(visible@),
            self.first_visible as int,
            place as int,
            page_size as int,
        ));
        self.first_visible = visible[start];
    }
}

/// The positions of the entries that are shown.
pub fn visible_indices(entries: &VecDeque<LogEntry>, state: &ViewState) -> (r: Vec<usize>)
    ensures
        positions(r@) == shown(entries_view(entries@), state@.focus_target),
{
    let ghost all = entries_view(entries@);
    let ghost focus = state@.focus_target;
    let mut out: Vec<usize> = Vec::new();
    let mut i: usize = 0;
    assert(positions(out@) =~= shown(all.take(0), focus));
    while i < entries.len()
        invariant
            i <= entries@.len(),
            all == entries_view(entries@),
            focus == state@.focus_target,
            positions(out@) == shown(all.take(i as int), focus),
        decreases entries@.len() - i,
    {
        let ghost before = positions(out@);
        assert(all.take(i + 1).drop_last() =~= all.take(i as int));
        assert(all.take(i + 1).last() == entries@[i as int]@);
        if entry_visible(&entries[i], state) {
            out.push(i);
            assert(positions(out@) =~= before.push(i as int));
        }
        i = i + 1;
    }
    assert(all.take(i as int) =~= all);
    out
}

/// Tells whether an entry is shown.
pub fn entry_visible(entry: &LogEntry, state: &ViewState) -> (r: bool)
    ensures
        r == is_visible(entry@, state@.focus_target),
{
    match &state.focus_target {
        None => true,
        Some(focus) => match &entry.target {
            None => false,
            Some(target) => same_text(target.as_str(), focus.as_str()),
        },
    }
}

/// The place of the selected line among the shown ones, or of the last one where
/// it is not shown.
pub fn selected_visible_pos(visible: &[usize], selected: Option<usize>) -> (r: Option<usize>)
    ensures
        position(r) == selected_place(positions(visible@), position(selected)),
        r matches Some(i) ==> i < visible@.len(),
{
    if let Some(selected) = selected {
        if let Some(place) = find_place(visible, selected) {
            return Some(place);
        }
    }
    if visible.len() == 0 {
        None
    } else {
        Some(visible.len() - 1)
    }
}

} // verus!
