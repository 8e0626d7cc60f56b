//! The scrollbar: which lines a row of it stands for, and its color.

use std::collections::VecDeque;

use vstd::prelude::*;

use crate::model::{entries_view, EntrySpec, Level, LogEntry};
use crate::text::positions;
use crate::ui::color::{bar_color_of_level, color_of_level, level_scrollbar_color, Color};
use crate::ui::layout::{larger, smaller};

verus! {

/// The shown lines that a row of the scrollbar stands for: those from `start` up
/// to `end`.
#[derive(Clone, Copy, Debug, PartialEq, Eq, Structural)]
pub struct ScrollbarSlice {
    pub start: usize,
    pub end: usize,
}

/// A number, or the largest of its type where it is too large.
pub open spec fn saturated(n: int) -> int {
    smaller(n, usize::MAX as int)
}

/// A quotient, rounded up.
pub open spec fn ceiling(a: int, b: int) -> int {
    if a % b == 0 {
        a / b
    } else {
        a / b + 1
    }
}

/// Where the slice of a row starts.
pub open spec fn slice_start(row: int, height: int, entries: int) -> int {
    if height == 0 || entries == 0 {
        0
    } else {
        saturated(row * entries) / height
    }
}

/// Where the slice of a row ends: it holds at least one line where there is one.
pub open spec fn slice_end(row: int, height: int, entries: int) -> int {
    if height == 0 || entries == 0 {
        0
    } else {
        let end = ceiling(saturated(saturated(row + 1) * entries), height);
        smaller(larger(end, saturated(slice_start(row, height, entries) + 1)), entries)
    }
}

/// A product, or the largest number of the type where it is too large.
fn saturating_product(a: usize, b: usize) -> (r: usize)
    ensures
        r == saturated(a * b),
{
    match a.checked_mul(b) {
        Some(product) => product,
        None => usize::MAX,
    }
}

/// A quotient, rounded up.
fn rounded_up(a: usize, b: usize) -> (r: usize)
    requires
        b > 0,
    ensures
        r == ceiling(a as int, b as int),
{
    let quotient: usize = a / b;
    if a % b == 0 {
        quotient
    } else {
        assert(a / b < usize::MAX) by (nonlinear_arith)
            requires
                a <= usize::MAX,
                b > 0,
                a % b != 0,
        ;
        quotient + 1
    }
}

impl ScrollbarSlice {
    pub fn new(row: usize, height: usize, entries: usize) -> (r: ScrollbarSlice)
        ensures
            r.start == slice_start(row as int, height as int, entries as int),
            r.end == slice_end(row as int, height as int, entries as int),
    {
        if height == 0 || entries == 0 {
            return ScrollbarSlice { start: 0, end: 0 };
        }
        let start: usize = saturating_product(row, entries) / height;
        let end: usize = rounded_up(saturating_product(row.saturating_add(1), entries), height);
        let next: usize = start.saturating_add(1);
        let end: usize = if end >= next {
            end
        } else {
            next
        };
        let end: usize = if end <= entries {
            end
        } else {
            entries
        };
        ScrollbarSlice { start, end }
    }
}

/// The rows of the scrollbar leave no line out: every shown line is in the slice
/// of some row.
pub proof fn law_slices_leave_no_line_out(place: int, height: int, entries: int) -> (row: int)
    requires
        0 < height,
        0 <= place < entries,
        height * entries <= usize::MAX,
    ensures
        0 <= row < height,
        slice_start(row, height, entries) <= place < slice_end(row, height, entries),
{
    let row = place * height / entries;
    let above = (row + 1) * entries;
    assert(0 <= place * height < entries * height) by (nonlinear_arith)
        requires
            0 <= place < entries,
            0 < height,
    ;
    assert(0 <= row < height && row * entries <= place * height < above) by (nonlinear_arith)
        requires
            row == place * height / entries,
            above == (row + 1) * entries,
            0 <= place * height < entries * height,
            0 < entries,
    ;
    assert(above <= height * entries) by (nonlinear_arith)
        requires
            above == (row + 1) * entries,
            row + 1 <= height,
            0 < entries,
    ;
    assert(row * entries <= above) by (nonlinear_arith)
        requires
            above == (row + 1) * entries,
            0 < entries,
    ;
    assert(height <= height * entries) by (nonlinear_arith)
        requires
            0 < height,
            1 <= entries,
    ;
    assert((row * entries) / height <= place) by (nonlinear_arith)
        requires
            row * entries <= place * height,
            0 < height,
    ;
    assert(above % height == 0 ==> above / height > place) by (nonlinear_arith)
        requires
            place * height < above,
            0 < height,
    ;
    assert(above / height + 1 > place) by (nonlinear_arith)
        requires
            place * height < above,
            0 < height,
    ;
    row
}

/// Each row of the scrollbar stands for at least one line where there are lines.
pub proof fn law_slices_are_not_empty(row: int, height: int, entries: int)
    requires
        0 <= row < height,
        0 < entries,
        height * entries <= usize::MAX,
    ensures
        0 <= slice_start(row, height, entries) < slice_end(row, height, entries) <= entries,
{
    assert(0 <= row * entries < height * entries) by (nonlinear_arith)
        requires
            0 <= row < height,
            0 < entries,
    ;
    assert(0 <= (row * entries) / height < entries) by (nonlinear_arith)
        requires
            0 <= row * entries < height * entries,
            0 < height,
    ;
    assert(entries <= height * entries) by (nonlinear_arith)
        requires
            1 <= height,
            0 < entries,
    ;
}

/// The most severe level of the shown lines from place `start` up to `end`.
pub open spec fn slice_level(
    entries: Seq<EntrySpec>,
    visible: Seq<int>,
    start: int,
    end: int,
) -> Option<Level>
    decreases end - start,
{
    if start >= end {
        None
    } else {
        let before = slice_level(entries, visible, start, end - 1);
        let place = end - 1;
        if 0 <= place < visible.len() && 0 <= visible[place] < entries.len() {
            let level = entries[visible[place]].level;
            match before {
                Some(highest) if highest.rank() > level.rank() => before,
                _ => Some(level),
            }
        } else {
            before
        }
    }
}

/// The color of the shown lines from place `start` up to `end`.
pub open spec fn slice_color(
    entries: Seq<EntrySpec>,
    visible: Seq<int>,
    start: int,
    end: int,
) -> Color {
    match slice_level(entries, visible, start, end) {
        Some(level) => bar_color_of_level(level),
        None => Color::DarkGrey,
    }
}

/// A row stands for its share of the lines: its slice starts at the line where the
/// share starts, and ends behind the line where the share ends. Each holds one line at
/// least.
pub proof fn law_slices_are_shares(row: int, height: int, entries: int)
    requires
        0 <= row < height,
        0 < entries,
        height <= usize::MAX,
        height * entries <= usize::MAX,
    ensures
        ({
            let start = slice_start(row, height, entries);
            let end = slice_end(row, height, entries);
            &&& start * height <= row * entries < (start + 1) * height
            &&& start < end <= entries
            &&& (row + 1) * entries <= end * height
            &&& (end - 1) * height < (row + 1) * entries
        }),
{
    let a = row * entries;
    let b = (row + 1) * entries;
    assert(0 <= a < b <= height * entries && a + entries == b) by (nonlinear_arith)
        requires
            a == row * entries,
            b == (row + 1) * entries,
            0 <= row < height,
            0 < entries,
    ;
    let start = slice_start(row, height, entries);
    let end = ceiling(b, height);
    assert(start == a / height);
    vstd::arithmetic::div_mod::lemma_fundamental_div_mod(a, height);
    vstd::arithmetic::div_mod::lemma_mod_bound(a, height);
    vstd::arithmetic::div_mod::lemma_fundamental_div_mod(b, height);
    vstd::arithmetic::div_mod::lemma_mod_bound(b, height);
    let q = a / height;
    let p = b / height;
    assert(start * height <= a < (start + 1) * height) by (nonlinear_arith)
        requires
            start == q,
            a == height * q + a % height,
            0 <= a % height < height,
    ;
    assert(b <= end * height && (end - 1) * height < b) by (nonlinear_arith)
        requires
            b == height * p + b % height,
            0 <= b % height < height,
            end == if b % height == 0 {
                p
            } else {
                p + 1
            },
    ;
    assert(end <= entries) by (nonlinear_arith)
        requires
            (end - 1) * height < b,
            b <= height * entries,
            height > 0,
    ;
    assert(start < end) by (nonlinear_arith)
        requires
            start * height <= a,
            a < b,
            b <= end * height,
            height > 0,
    ;
    assert(entries <= height * entries) by (nonlinear_arith)
        requires
            height > 0,
            entries > 0,
    ;
}

/// A row has the color of the most severe level among its lines, and stands back where
/// it has none.
pub proof fn law_rows_have_the_color_of_their_level(
    entries: Seq<EntrySpec>,
    visible: Seq<int>,
    start: int,
    end: int,
)
    ensures
        start >= end ==> slice_color(entries, visible, start, end) == Color::DarkGrey,
        slice_level(entries, visible, start, end) matches Some(level) ==> slice_color(
            entries,
            visible,
            start,
            end,
        ) == if level == Level::Unknown {
            Color::DarkGrey
        } else {
            color_of_level(level)
        },
{
}

/// The level of a slice is that of one of its lines, and none of its lines is
/// more severe.
pub proof fn law_slice_level_is_the_most_severe(
    entries: Seq<EntrySpec>,
    visible: Seq<int>,
    start: int,
    end: int,
)
    requires
        0 <= start <= end <= visible.len(),
        forall|i: int| 0 <= i < visible.len() ==> 0 <= #[trigger] visible[i] < entries.len(),
    ensures
        slice_level(entries, visible, start, end) is Some <==> start < end,
        slice_level(entries, visible, start, end) matches Some(level) ==> {
            &&& exists|i: int|
                start <= i < end && entries[#[trigger] visible[i]].level == level
            &&& forall|i: int|
                start <= i < end ==> entries[#[trigger] visible[i]].level.rank() <= level.rank()
        },
    decreases end - start,
{
    if start < end {
        law_slice_level_is_the_most_severe(entries, visible, start, end - 1);
        assert(0 <= visible[end - 1] < entries.len());
    }
}

proof fn lemma_slice_level_stops_at_the_end(
    entries: Seq<EntrySpec>,
    visible: Seq<int>,
    start: int,
    a: int,
    b: int,
)
    requires
        0 <= start,
        visible.len() <= a <= b || b <= start,
        a <= b,
    ensures
        slice_level(entries, visible, start, a) == slice_level(entries, visible, start, b),
    decreases b - a,
{
    if a < b {
        lemma_slice_level_stops_at_the_end(entries, visible, start, a, b - 1);
    }
}

/// The color of the most severe of the shown lines from place `start` up to
/// `end`.
pub fn scrollbar_slice_color(
    entries: &VecDeque<LogEntry>,
    visible_indices: &[usize],
    start: usize,
    end: usize,
) -> (r: Color)
    ensures
        r == slice_color(
            entries_view(entries@),
            positions(visible_indices@),
            start as int,
            end as int,
        ),
{
    let ghost all = entries_view(entries@);
    let ghost visible = positions(visible_indices@);
    let mut highest: Option<Level> = None;
    let mut i: usize = start;
    while i < end && i < visible_indices.len()
        invariant
            all == entries_view(entries@),
            visible == positions(visible_indices@),
            start <= i,
            i <= end || i == start,
            highest == slice_level(all, visible, start as int, i as int),
        decreases end - i,
    {
        let idx: usize = visible_indices[i];
        if idx < entries.len() {
            let level = entries[idx].level;
            highest = match highest {
                Some(other) if other.severity() > level.severity() => Some(other),
                _ => Some(level),
            };
        }
        i = i + 1;
    }
    proof {
        if i < end {
            lemma_slice_level_stops_at_the_end(all, visible, start as int, i as int, end as int);
        }
    }
    match highest {
        Some(level) => level_scrollbar_color(level),
        None => Color::DarkGrey,
    }
}

} // verus!
