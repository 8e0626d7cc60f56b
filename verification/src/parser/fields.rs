//! The `key=value` fields at the end of a message.
//!
//! A value may hold white space, so a text can be read in several ways. The
//! reader takes the first way that works, trying shorter values first, and
//! gives up when it has spent its budget of steps.

use vstd::prelude::*;

use crate::model::{fields_view, traced, FieldSpec, TraceValue, TraceValueField};
use crate::parser::nesting::{
    has_gap, is_gap, nest_at, unquoted_value_has_top_level_whitespace, Nesting,
};
use crate::text::{
    is_ascii_digit, is_ascii_letter, is_digit, is_letter, is_white, is_whitespace,
    lemma_position_of, lemma_trimmed_start, position, position_of, positions, skip, string_from,
    take, trim_end, trim_start, trimmed_end, trimmed_start,
};

verus! {

/// How many steps a reader may take on one text.
pub const MAX_TRACING_FIELD_PARSE_STEPS: usize = 1024;

pub open spec fn is_key_start(c: char) -> bool {
    is_letter(c) || c == '_'
}

pub open spec fn is_key_char(c: char) -> bool {
    is_letter(c) || is_digit(c) || c == '_' || c == '-' || c == '.'
}

/// The position of the equals sign behind the key at the start of `s`.
pub open spec fn field_key_end(s: Seq<char>) -> Option<int> {
    match position_of(s, '=') {
        None => None,
        Some(end) => if is_key_start(s[0]) && forall|i: int|
            0 < i < end ==> is_key_char(#[trigger] s[i]) {
            Some(end)
        } else {
            None
        },
    }
}

/// Behind the first quote from `i` on that no backslash escapes. `escaped`
/// tells whether one stands before `i`.
pub open spec fn quote_end(s: Seq<char>, i: int, escaped: bool) -> Option<int>
    decreases s.len() - i,
{
    if i >= s.len() {
        None
    } else if !escaped && s[i] == '"' {
        Some(i + 1)
    } else {
        quote_end(s, i + 1, !escaped && s[i] == '\\')
    }
}

/// Where a value may end from `i` on: before each white space outside of all
/// brackets and quotes, and at the end. Each white space costs a step; without
/// one left, nothing more is tried. With the ends come the steps left.
pub open spec fn open_ends(s: Seq<char>, i: int, budget: nat) -> (Seq<int>, nat)
    decreases s.len() - i,
{
    if i >= s.len() {
        (seq![s.len() as int], budget)
    } else if !is_gap(s, i) {
        open_ends(s, i + 1, budget)
    } else if budget == 0 {
        (Seq::empty(), 0)
    } else {
        let (ends, left) = open_ends(s, i + 1, (budget - 1) as nat);
        (seq![i] + ends, left)
    }
}

/// Where a value at the start of `s` may end. A quoted value ends at its closing
/// quote.
pub open spec fn value_ends(s: Seq<char>, budget: nat) -> (Seq<int>, nat) {
    if s.len() > 0 && s[0] == '"' {
        match quote_end(s, 1, false) {
            Some(end) => (seq![end], budget),
            None => (Seq::empty(), budget),
        }
    } else {
        open_ends(s, 0, budget)
    }
}

/// The smaller of two numbers of steps.
pub open spec fn at_most(left: nat, budget: nat) -> nat {
    if left <= budget {
        left
    } else {
        budget
    }
}

/// The fields that a text is made of, if it is, and the steps left.
pub open spec fn field_sequence(s: Seq<char>, budget: nat) -> (Option<Seq<FieldSpec>>, nat)
    decreases budget,
{
    if budget == 0 {
        (None, 0)
    } else {
        let left = (budget - 1) as nat;
        let text = trimmed_start(s);
        match field_key_end(text) {
            None => (None, left),
            Some(end) => {
                let rest = text.skip(end + 1);
                let (ends, left2) = value_ends(rest, left);
                first_way(text.take(end), rest, ends, 0, at_most(left2, left))
            },
        }
    }
}

/// The fields of the first way to read a text whose first field has the key
/// `key` and goes on with `rest`: its value ends at one of `ends` from the
/// `k`-th on, and fields follow up to the end.
pub open spec fn first_way(
    key: Seq<char>,
    rest: Seq<char>,
    ends: Seq<int>,
    k: int,
    budget: nat,
) -> (Option<Seq<FieldSpec>>, nat)
    decreases budget,
{
    if k >= ends.len() {
        (None, budget)
    } else if budget == 0 {
        (None, 0)
    } else {
        let left = (budget - 1) as nat;
        let value = trimmed_end(rest.take(ends[k]));
        let tail = trimmed_start(rest.skip(ends[k]));
        let field = FieldSpec { key, value: traced(value) };
        if value.len() == 0 {
            first_way(key, rest, ends, k + 1, left)
        } else if tail.len() == 0 {
            if has_gap(value) {
                first_way(key, rest, ends, k + 1, left)
            } else {
                (Some(seq![field]), left)
            }
        } else {
            let (more, left2) = field_sequence(tail, left);
            match more {
                Some(fields) => (Some(seq![field] + fields), left2),
                None => first_way(key, rest, ends, k + 1, at_most(left2, left)),
            }
        }
    }
}

/// The text of a message and the fields behind it, from the first position at or
/// behind `i` where fields can start: at the start or behind white space.
pub open spec fn message_fields(s: Seq<char>, i: int, budget: nat) -> (
    Option<(Seq<char>, Seq<FieldSpec>)>,
    nat,
)
    decreases s.len() - i,
{
    if i >= s.len() {
        (None, budget)
    } else if budget == 0 {
        (None, 0)
    } else if i > 0 && !is_white(s[i - 1]) {
        message_fields(s, i + 1, budget)
    } else {
        let (found, left) = field_sequence(s.skip(i), budget);
        match found {
            Some(fields) => (Some((trimmed_end(s.take(i)), fields)), left),
            None => message_fields(s, i + 1, left),
        }
    }
}

/// A closing quote stands in the text.
pub proof fn lemma_quote_end(s: Seq<char>, i: int, escaped: bool)
    requires
        0 <= i,
    ensures
        quote_end(s, i, escaped) matches Some(end) ==> i < end <= s.len(),
    decreases s.len() - i,
{
    if i < s.len() && (escaped || s[i] != '"') {
        lemma_quote_end(s, i + 1, !escaped && s[i] == '\\');
    }
}

proof fn lemma_open_ends(s: Seq<char>, i: int, budget: nat)
    requires
        0 <= i <= s.len(),
    ensures
        open_ends(s, i, budget).1 <= budget,
        forall|k: int|
            0 <= k < open_ends(s, i, budget).0.len() ==> i <= #[trigger] open_ends(
                s,
                i,
                budget,
            ).0[k] <= s.len(),
    decreases s.len() - i,
{
    if i < s.len() {
        lemma_open_ends(s, i + 1, budget);
        if budget > 0 {
            lemma_open_ends(s, i + 1, (budget - 1) as nat);
        }
    }
}

/// Every end lies in the text, and no step is gained.
proof fn lemma_value_ends(s: Seq<char>, budget: nat)
    ensures
        value_ends(s, budget).1 <= budget,
        forall|k: int|
            0 <= k < value_ends(s, budget).0.len() ==> 0 <= #[trigger] value_ends(s, budget).0[k]
                <= s.len(),
{
    lemma_open_ends(s, 0, budget);
    lemma_quote_end(s, 1, false);
}

/// No step is gained by reading fields.
pub proof fn lemma_field_sequence_spends(s: Seq<char>, budget: nat)
    ensures
        field_sequence(s, budget).1 <= budget,
    decreases budget, 1int,
{
    if budget > 0 {
        let left = (budget - 1) as nat;
        let text = trimmed_start(s);
        if let Some(end) = field_key_end(text) {
            let rest = text.skip(end + 1);
            let (ends, left2) = value_ends(rest, left);
            lemma_first_way_spends(text.take(end), rest, ends, 0, at_most(left2, left));
        }
    }
}

proof fn lemma_first_way_spends(
    key: Seq<char>,
    rest: Seq<char>,
    ends: Seq<int>,
    k: int,
    budget: nat,
)
    ensures
        first_way(key, rest, ends, k, budget).1 <= budget,
    decreases budget, 0int,
{
    if k < ends.len() && budget > 0 {
        let left = (budget - 1) as nat;
        let tail = trimmed_start(rest.skip(ends[k]));
        lemma_first_way_spends(key, rest, ends, k + 1, left);
        lemma_field_sequence_spends(tail, left);
        lemma_first_way_spends(
            key,
            rest,
            ends,
            k + 1,
            at_most(field_sequence(tail, left).1, left),
        );
    }
}

/// The view of optional fields.
pub open spec fn optional_fields(o: Option<Vec<TraceValueField>>) -> Option<Seq<FieldSpec>> {
    match o {
        Some(fields) => Some(fields_view(fields@)),
        None => None,
    }
}

/// The view of a message and the fields behind it.
pub open spec fn optional_message(o: Option<(String, Vec<TraceValueField>)>) -> Option<
    (Seq<char>, Seq<FieldSpec>),
> {
    match o {
        Some((text, fields)) => Some((text@, fields_view(fields@))),
        None => None,
    }
}

proof fn lemma_open_ends_with_more(s: Seq<char>, i: int, budget: nat, extra: nat)
    requires
        0 <= i <= s.len(),
        open_ends(s, i, budget).1 > 0,
    ensures
        open_ends(s, i, budget + extra) == (
            open_ends(s, i, budget).0,
            open_ends(s, i, budget).1 + extra,
        ),
    decreases s.len() - i,
{
    if i < s.len() {
        if !is_gap(s, i) {
            lemma_open_ends_with_more(s, i + 1, budget, extra);
        } else if budget > 0 {
            lemma_open_ends_with_more(s, i + 1, (budget - 1) as nat, extra);
            assert((budget - 1) as nat + extra == (budget + extra - 1) as nat);
        }
    }
}

proof fn lemma_first_way_with_more(
    key: Seq<char>,
    rest: Seq<char>,
    ends: Seq<int>,
    k: int,
    budget: nat,
    extra: nat,
)
    requires
        first_way(key, rest, ends, k, budget).0 is Some || first_way(
            key,
            rest,
            ends,
            k,
            budget,
        ).1 > 0,
    ensures
        first_way(key, rest, ends, k, budget + extra) == (
            first_way(key, rest, ends, k, budget).0,
            first_way(key, rest, ends, k, budget).1 + extra,
        ),
    decreases budget, 0int,
{
    if k < ends.len() && budget > 0 {
        let left = (budget - 1) as nat;
        let value = trimmed_end(rest.take(ends[k]));
        let tail = trimmed_start(rest.skip(ends[k]));
        assert(left + extra == (budget + extra - 1) as nat);
        if value.len() == 0 || (tail.len() == 0 && has_gap(value)) {
            lemma_first_way_with_more(key, rest, ends, k + 1, left, extra);
        } else if tail.len() > 0 {
            let (more, left2) = field_sequence(tail, left);
            lemma_field_sequence_spends(tail, left);
            if more is Some || left2 > 0 {
                law_more_steps_change_nothing(tail, left, extra);
            }
            if more is None {
                assert(left2 > 0);
                lemma_first_way_with_more(key, rest, ends, k + 1, left2, extra);
            }
        }
    }
}

/// The limit on steps only stops a reader: where fields were found, or steps were
/// left, more steps would not have changed what was found.
pub proof fn law_more_steps_change_nothing(s: Seq<char>, budget: nat, extra: nat)
    requires
        field_sequence(s, budget).0 is Some || field_sequence(s, budget).1 > 0,
    ensures
        field_sequence(s, budget + extra) == (
            field_sequence(s, budget).0,
            field_sequence(s, budget).1 + extra,
        ),
    decreases budget, 1int,
{
    if budget > 0 {
        let left = (budget - 1) as nat;
        let text = trimmed_start(s);
        assert(left + extra == (budget + extra - 1) as nat);
        if let Some(end) = field_key_end(text) {
            let rest = text.skip(end + 1);
            let (ends, left2) = value_ends(rest, left);
            lemma_value_ends(rest, left);
            assert(left2 > 0);
            if !(rest.len() > 0 && rest[0] == '"') {
                lemma_open_ends_with_more(rest, 0, left, extra);
            }
            assert(value_ends(rest, left + extra) == (ends, left2 + extra));
            lemma_first_way_with_more(text.take(end), rest, ends, 0, left2, extra);
        }
    }
}

/// A value at the start of `rest` can end at `cut`: a quoted one at its closing
/// quote, another one before white space outside of all brackets and quotes, or at
/// the end.
pub open spec fn is_value_end(rest: Seq<char>, cut: int) -> bool {
    if rest.len() > 0 && rest[0] == '"' {
        quote_end(rest, 1, false) == Some(cut)
    } else {
        cut == rest.len() || (0 <= cut < rest.len() && is_gap(rest, cut))
    }
}

/// `s` reads as `fields`: one behind the other they make up all of it. The value of
/// each ends at its cut, counted from the equals sign. A last value without quotes
/// holds no white space but in brackets.
pub open spec fn reads_as(s: Seq<char>, fields: Seq<FieldSpec>, cuts: Seq<int>) -> bool
    decreases fields.len(),
{
    let text = trimmed_start(s);
    match field_key_end(text) {
        None => false,
        Some(end) => {
            let rest = text.skip(end + 1);
            let value = trimmed_end(rest.take(cuts[0]));
            let tail = trimmed_start(rest.skip(cuts[0]));
            &&& fields.len() == cuts.len() > 0
            &&& is_value_end(rest, cuts[0])
            &&& value.len() > 0
            &&& fields[0] == FieldSpec { key: text.take(end), value: traced(value) }
            &&& if tail.len() == 0 {
                fields.len() == 1 && !has_gap(value)
            } else {
                reads_as(tail, fields.drop_first(), cuts.drop_first())
            }
        },
    }
}

proof fn lemma_open_ends_are_value_ends(s: Seq<char>, i: int, budget: nat)
    requires
        0 <= i <= s.len(),
    ensures
        forall|k: int|
            0 <= k < open_ends(s, i, budget).0.len() ==> {
                let end = #[trigger] open_ends(s, i, budget).0[k];
                end == s.len() || (i <= end < s.len() && is_gap(s, end))
            },
        open_ends(s, i, budget).1 > 0 ==> forall|end: int|
            i <= end <= s.len() && (end == s.len() || is_gap(s, end))
                ==> #[trigger] open_ends(s, i, budget).0.contains(end),
    decreases s.len() - i,
{
    let all = open_ends(s, i, budget).0;
    if i >= s.len() {
        assert(all[0] == s.len());
    } else if !is_gap(s, i) {
        lemma_open_ends_are_value_ends(s, i + 1, budget);
    } else if budget > 0 {
        let left = (budget - 1) as nat;
        let more = open_ends(s, i + 1, left).0;
        lemma_open_ends_are_value_ends(s, i + 1, left);
        assert forall|k: int| 0 <= k < all.len() implies {
            let end = #[trigger] all[k];
            end == s.len() || (i <= end < s.len() && is_gap(s, end))
        } by {
            if k > 0 {
                assert(all[k] == more[k - 1]);
            }
        }
        if open_ends(s, i, budget).1 > 0 {
            assert forall|end: int|
                i <= end <= s.len() && (end == s.len() || is_gap(
                    s,
                    end,
                )) implies #[trigger] all.contains(end) by {
                if end == i {
                    assert(all[0] == end);
                } else {
                    assert(more.contains(end));
                    let k = choose|k: int| 0 <= k < more.len() && more[k] == end;
                    assert(all[k + 1] == end);
                }
            }
        }
    }
}

/// The ends that are tried are ends of a value, and while steps are left all of
/// them are tried.
proof fn lemma_ends_are_value_ends(rest: Seq<char>, budget: nat)
    ensures
        forall|k: int|
            0 <= k < value_ends(rest, budget).0.len() ==> is_value_end(
                rest,
                #[trigger] value_ends(rest, budget).0[k],
            ),
        value_ends(rest, budget).1 > 0 ==> forall|cut: int|
            is_value_end(rest, cut) ==> #[trigger] value_ends(rest, budget).0.contains(cut),
{
    if rest.len() > 0 && rest[0] == '"' {
        if let Some(end) = quote_end(rest, 1, false) {
            assert(value_ends(rest, budget).0[0] == end);
        }
    } else {
        lemma_open_ends_are_value_ends(rest, 0, budget);
    }
}

/// `a` cuts no later than `b`: where they part, `a` cuts first.
pub open spec fn cuts_no_later(a: Seq<int>, b: Seq<int>) -> bool
    decreases a.len(),
{
    a.len() == 0 || (b.len() > 0 && (a[0] < b[0] || (a[0] == b[0] && cuts_no_later(
        a.drop_first(),
        b.drop_first(),
    ))))
}

/// `cut` is one of `ends` from the `k`-th on.
spec fn is_end_from(ends: Seq<int>, k: int, cut: int) -> bool {
    exists|j: int| k <= j < ends.len() && #[trigger] ends[j] == cut
}

proof fn lemma_open_ends_go_up(s: Seq<char>, i: int, budget: nat)
    requires
        0 <= i <= s.len(),
    ensures
        forall|a: int, b: int|
            0 <= a < b < open_ends(s, i, budget).0.len() ==> #[trigger] open_ends(s, i, budget).0[a]
                < #[trigger] open_ends(s, i, budget).0[b],
    decreases s.len() - i,
{
    if i < s.len() {
        if !is_gap(s, i) {
            lemma_open_ends_go_up(s, i + 1, budget);
            assert(open_ends(s, i, budget) == open_ends(s, i + 1, budget));
        } else if budget > 0 {
            let left = (budget - 1) as nat;
            let all = open_ends(s, i, budget).0;
            let more = open_ends(s, i + 1, left).0;
            lemma_open_ends_go_up(s, i + 1, left);
            lemma_open_ends(s, i + 1, left);
            assert forall|a: int, b: int| 0 <= a < b < all.len() implies #[trigger] all[a]
                < #[trigger] all[b] by {
                assert(all[b] == more[b - 1]);
                if a > 0 {
                    assert(all[a] == more[a - 1]);
                }
            }
        }
    }
}

/// The cuts of the first way to read a text whose first field has the key `key`
/// and goes on with `rest`.
proof fn lemma_first_way_reads(
    s: Seq<char>,
    key: Seq<char>,
    rest: Seq<char>,
    ends: Seq<int>,
    k: int,
    budget: nat,
) -> (cuts: Seq<int>)
    requires
        0 <= k,
        field_key_end(trimmed_start(s)) matches Some(end) && key == trimmed_start(s).take(end)
            && rest == trimmed_start(s).skip(end + 1),
        first_way(key, rest, ends, k, budget).0 is Some,
        forall|j: int| 0 <= j < ends.len() ==> is_value_end(rest, #[trigger] ends[j]),
        forall|a: int, b: int|
            0 <= a < b < ends.len() ==> #[trigger] ends[a] < #[trigger] ends[b],
        forall|fields: Seq<FieldSpec>, cuts: Seq<int>| #[trigger]
            reads_as(s, fields, cuts) ==> is_end_from(ends, k, cuts[0]),
    ensures
        reads_as(s, first_way(key, rest, ends, k, budget).0.unwrap(), cuts),
        forall|others: Seq<FieldSpec>, other_cuts: Seq<int>| #[trigger]
            reads_as(s, others, other_cuts) ==> cuts_no_later(cuts, other_cuts),
    decreases budget, 0int,
{
    let left = (budget - 1) as nat;
    let value = trimmed_end(rest.take(ends[k]));
    let tail = trimmed_start(rest.skip(ends[k]));
    let field = FieldSpec { key, value: traced(value) };
    if value.len() == 0 || (tail.len() == 0 && has_gap(value)) {
        assert forall|fields: Seq<FieldSpec>, cuts: Seq<int>| #[trigger]
            reads_as(s, fields, cuts) implies is_end_from(ends, k + 1, cuts[0]) by {
            assert(cuts[0] != ends[k]);
        }
        lemma_first_way_reads(s, key, rest, ends, k + 1, left)
    } else if tail.len() == 0 {
        let all = seq![ends[k]];
        assert forall|others: Seq<FieldSpec>, other_cuts: Seq<int>| #[trigger]
            reads_as(s, others, other_cuts) implies cuts_no_later(all, other_cuts) by {
            reveal_with_fuel(cuts_no_later, 2);
            assert(is_end_from(ends, k, other_cuts[0]));
        }
        all
    } else {
        let (more, left2) = field_sequence(tail, left);
        lemma_field_sequence_spends(tail, left);
        match more {
            Some(fields) => {
                let cuts = law_found_fields_make_up_the_text(tail, left);
                let all = seq![ends[k]] + cuts;
                assert((seq![field] + fields).drop_first() =~= fields);
                assert(all.drop_first() =~= cuts);
                assert(cuts.len() == fields.len());
                assert forall|others: Seq<FieldSpec>, other_cuts: Seq<int>| #[trigger]
                    reads_as(s, others, other_cuts) implies cuts_no_later(all, other_cuts) by {
                    assert(is_end_from(ends, k, other_cuts[0]));
                    if other_cuts[0] == ends[k] {
                        assert(reads_as(tail, others.drop_first(), other_cuts.drop_first()));
                    }
                }
                all
            },
            None => {
                if left2 == 0 {
                    assert(first_way(key, rest, ends, k + 1, 0).0 is None);
                }
                assert forall|fields: Seq<FieldSpec>, cuts: Seq<int>| #[trigger]
                    reads_as(s, fields, cuts) implies is_end_from(ends, k + 1, cuts[0]) by {
                    if cuts[0] == ends[k] {
                        law_fields_are_found_while_steps_last(
                            tail,
                            left,
                            fields.drop_first(),
                            cuts.drop_first(),
                        );
                    }
                }
                lemma_first_way_reads(s, key, rest, ends, k + 1, at_most(left2, left))
            },
        }
    }
}

/// Fields that are found in a text make up all of it, and their values are as short
/// as they can be, the earlier ones first.
pub proof fn law_found_fields_make_up_the_text(s: Seq<char>, budget: nat) -> (cuts: Seq<int>)
    requires
        field_sequence(s, budget).0 is Some,
    ensures
        reads_as(s, field_sequence(s, budget).0.unwrap(), cuts),
        forall|others: Seq<FieldSpec>, other_cuts: Seq<int>| #[trigger]
            reads_as(s, others, other_cuts) ==> cuts_no_later(cuts, other_cuts),
    decreases budget, 1int,
{
    let left = (budget - 1) as nat;
    let text = trimmed_start(s);
    let end = field_key_end(text).unwrap();
    let rest = text.skip(end + 1);
    let (ends, left2) = value_ends(rest, left);
    lemma_ends_are_value_ends(rest, left);
    lemma_open_ends_go_up(rest, 0, left);
    assert forall|fields: Seq<FieldSpec>, cuts: Seq<int>| #[trigger]
        reads_as(s, fields, cuts) implies is_end_from(ends, 0, cuts[0]) by {
        assert(ends.contains(cuts[0]));
    }
    lemma_first_way_reads(s, text.take(end), rest, ends, 0, at_most(left2, left))
}

proof fn lemma_first_way_finds(
    key: Seq<char>,
    rest: Seq<char>,
    ends: Seq<int>,
    k: int,
    budget: nat,
    j: int,
    fields: Seq<FieldSpec>,
    cuts: Seq<int>,
)
    requires
        0 <= k <= j < ends.len(),
        first_way(key, rest, ends, k, budget).1 > 0,
        trimmed_end(rest.take(ends[j])).len() > 0,
        ({
            let tail = trimmed_start(rest.skip(ends[j]));
            if tail.len() == 0 {
                !has_gap(trimmed_end(rest.take(ends[j])))
            } else {
                reads_as(tail, fields, cuts)
            }
        }),
    ensures
        first_way(key, rest, ends, k, budget).0 is Some,
    decreases budget, 0int,
{
    let left = (budget - 1) as nat;
    let value = trimmed_end(rest.take(ends[k]));
    let tail = trimmed_start(rest.skip(ends[k]));
    if value.len() == 0 || (tail.len() == 0 && has_gap(value)) {
        lemma_first_way_finds(key, rest, ends, k + 1, left, j, fields, cuts);
    } else if tail.len() > 0 {
        let (more, left2) = field_sequence(tail, left);
        lemma_field_sequence_spends(tail, left);
        if more is None {
            if k == j {
                if left2 > 0 {
                    law_fields_are_found_while_steps_last(tail, left, fields, cuts);
                }
                assert(at_most(left2, left) == 0);
                assert(first_way(key, rest, ends, k + 1, 0).1 == 0);
            } else {
                lemma_first_way_finds(key, rest, ends, k + 1, left2, j, fields, cuts);
            }
        }
    }
}

/// Where a text reads as fields, fields are found in it, unless the reader runs out
/// of steps.
pub proof fn law_fields_are_found_while_steps_last(
    s: Seq<char>,
    budget: nat,
    fields: Seq<FieldSpec>,
    cuts: Seq<int>,
)
    requires
        reads_as(s, fields, cuts),
        field_sequence(s, budget).1 > 0,
    ensures
        field_sequence(s, budget).0 is Some,
    decreases budget, 1int,
{
    let left = (budget - 1) as nat;
    let text = trimmed_start(s);
    let end = field_key_end(text).unwrap();
    let rest = text.skip(end + 1);
    let (ends, left2) = value_ends(rest, left);
    lemma_value_ends(rest, left);
    lemma_ends_are_value_ends(rest, left);
    assert(left2 > 0);
    assert(ends.contains(cuts[0]));
    let j = choose|j: int| 0 <= j < ends.len() && ends[j] == cuts[0];
    lemma_first_way_finds(
        text.take(end),
        rest,
        ends,
        0,
        left2,
        j,
        fields.drop_first(),
        cuts.drop_first(),
    );
}

/// A message with fields is its text and its fields: behind some white space, or
/// from its start, the fields make up all of it, and the text is what stands
/// before. No earlier position would do.
pub proof fn law_message_and_fields_make_up_the_text(
    s: Seq<char>,
    from: int,
    budget: nat,
) -> (r: (int, Seq<int>))
    requires
        0 <= from,
        message_fields(s, from, budget).0 is Some,
    ensures
        ({
            let (text, fields) = message_fields(s, from, budget).0.unwrap();
            let (at, cuts) = r;
            &&& from <= at < s.len()
            &&& at == 0 || is_white(s[at - 1])
            &&& text == trimmed_end(s.take(at))
            &&& reads_as(s.skip(at), fields, cuts)
            &&& forall|others: Seq<FieldSpec>, other_cuts: Seq<int>| #[trigger]
                reads_as(s.skip(at), others, other_cuts) ==> cuts_no_later(cuts, other_cuts)
            &&& forall|earlier: int, others: Seq<FieldSpec>, other_cuts: Seq<int>|
                from <= earlier < at && (earlier == 0 || is_white(s[earlier - 1]))
                    ==> !#[trigger] reads_as(s.skip(earlier), others, other_cuts)
        }),
    decreases s.len() - from,
{
    if from > 0 && !is_white(s[from - 1]) {
        law_message_and_fields_make_up_the_text(s, from + 1, budget)
    } else {
        let (found, left) = field_sequence(s.skip(from), budget);
        match found {
            Some(_) => (from, law_found_fields_make_up_the_text(s.skip(from), budget)),
            None => {
                if left == 0 {
                    assert(message_fields(s, from + 1, 0).0 is None);
                }
                assert forall|others: Seq<FieldSpec>, other_cuts: Seq<int>|
                    !#[trigger] reads_as(s.skip(from), others, other_cuts) by {
                    if reads_as(s.skip(from), others, other_cuts) {
                        law_fields_are_found_while_steps_last(
                            s.skip(from),
                            budget,
                            others,
                            other_cuts,
                        );
                    }
                }
                law_message_and_fields_make_up_the_text(s, from + 1, left)
            },
        }
    }
}

proof fn lemma_fields_are_found(
    s: Seq<char>,
    from: int,
    budget: nat,
    at: int,
    fields: Seq<FieldSpec>,
    cuts: Seq<int>,
)
    requires
        0 <= from <= at < s.len(),
        at == 0 || is_white(s[at - 1]),
        reads_as(s.skip(at), fields, cuts),
        message_fields(s, from, budget).1 > 0,
    ensures
        message_fields(s, from, budget).0 is Some,
    decreases s.len() - from,
{
    if from > 0 && !is_white(s[from - 1]) {
        lemma_fields_are_found(s, from + 1, budget, at, fields, cuts);
    } else {
        let (found, left) = field_sequence(s.skip(from), budget);
        if found is None {
            if from < at {
                lemma_fields_are_found(s, from + 1, left, at, fields, cuts);
            } else if left > 0 {
                law_fields_are_found_while_steps_last(s.skip(at), budget, fields, cuts);
            } else {
                assert(message_fields(s, from + 1, 0).1 == 0);
            }
        }
    }
}

/// Where a message reads as fields from some position on, however many they are,
/// they are found, unless the reader runs out of steps. The text in front ends where
/// the first such position is.
pub proof fn law_fields_behind_a_text_are_found(
    s: Seq<char>,
    budget: nat,
    at: int,
    fields: Seq<FieldSpec>,
    cuts: Seq<int>,
) -> (first: int)
    requires
        0 <= at < s.len(),
        at == 0 || is_white(s[at - 1]),
        reads_as(s.skip(at), fields, cuts),
        message_fields(s, 0, budget).1 > 0,
    ensures
        message_fields(s, 0, budget).0 matches Some(message) && message.0 == trimmed_end(
            s.take(first),
        ),
        0 <= first <= at,
        first == 0 || is_white(s[first - 1]),
        forall|earlier: int, others: Seq<FieldSpec>, other_cuts: Seq<int>|
            0 <= earlier < first && (earlier == 0 || is_white(s[earlier - 1]))
                ==> !#[trigger] reads_as(s.skip(earlier), others, other_cuts),
{
    lemma_fields_are_found(s, 0, budget, at, fields, cuts);
    law_message_and_fields_make_up_the_text(s, 0, budget).0
}

/// A quoted text ends at the first quote that no backslash stands before, where a
/// backslash takes the character behind it along.
pub proof fn law_escaped_quotes_do_not_close(s: Seq<char>, i: int)
    requires
        0 <= i < s.len(),
    ensures
        s[i] == '"' ==> quote_end(s, i, false) == Some(i + 1),
        s[i] == '\\' ==> quote_end(s, i, false) == quote_end(s, i + 2, false),
        s[i] != '"' && s[i] != '\\' ==> quote_end(s, i, false) == quote_end(s, i + 1, false),
        quote_end(s, s.len() as int, false) is None,
{
    reveal_with_fuel(quote_end, 3);
}

/// A message without an equals sign has no fields.
pub proof fn law_no_fields_without_equals(s: Seq<char>, from: int, budget: nat)
    requires
        0 <= from,
        !s.contains('='),
    ensures
        message_fields(s, from, budget).0 is None,
    decreases s.len() - from,
{
    if from < s.len() && budget > 0 {
        let rest = s.skip(from);
        let text = trimmed_start(rest);
        lemma_trimmed_start(rest);
        lemma_position_of(text, '=');
        if let Some(end) = position_of(text, '=') {
            assert(text[end] == s[from + (rest.len() - text.len()) + end]);
        }
        law_no_fields_without_equals(s, from + 1, budget);
        law_no_fields_without_equals(s, from + 1, field_sequence(rest, budget).1);
    }
}

/// Splits `message` into its text and the fields behind it.
pub fn split_tracing_message_fields(message: &[char]) -> (r: Option<
    (String, Vec<TraceValueField>),
>)
    ensures
        optional_message(r) == message_fields(
            message@,
            0,
            MAX_TRACING_FIELD_PARSE_STEPS as nat,
        ).0,
{
    TracingFieldParser::new().split_message_fields(message)
}

/// Reads `value` as fields up to its end.
pub fn parse_tracing_field_sequence(value: &[char]) -> (r: Option<Vec<TraceValueField>>)
    ensures
        optional_fields(r) == field_sequence(value@, MAX_TRACING_FIELD_PARSE_STEPS as nat).0,
{
    TracingFieldParser::new().parse_sequence(value)
}

/// A reader of fields with the steps it has left.
pub struct TracingFieldParser {
    pub budget: usize,
}

impl TracingFieldParser {
    pub fn new() -> (r: TracingFieldParser)
        ensures
            r.budget == MAX_TRACING_FIELD_PARSE_STEPS,
    {
        TracingFieldParser { budget: MAX_TRACING_FIELD_PARSE_STEPS }
    }

    /// Tells whether no step is left.
    pub fn exhausted(&self) -> (r: bool)
        ensures
            r == (self.budget == 0),
    {
        self.budget == 0
    }

    /// Takes one step, if one is left.
    pub fn consume_step(&mut self) -> (r: Option<()>)
        ensures
            r is Some <==> old(self).budget > 0,
            final(self).budget == (if old(self).budget > 0 {
                old(self).budget - 1
            } else {
                0
            }),
    {
        match self.budget.checked_sub(1) {
            Some(left) => {
                self.budget = left;
                Some(())
            },
            None => None,
        }
    }

    /// Splits `message` into its text and the fields behind it.
    pub fn split_message_fields(&mut self, message: &[char]) -> (r: Option<
        (String, Vec<TraceValueField>),
    >)
        ensures
            (optional_message(r), final(self).budget as nat) == message_fields(
                message@,
                0,
                old(self).budget as nat,
            ),
    {
        let ghost all = message_fields(message@, 0, self.budget as nat);
        let mut i: usize = 0;
        while i < message.len()
            invariant
                i <= message@.len(),
                all == message_fields(message@, 0, old(self).budget as nat),
                all == message_fields(message@, i as int, self.budget as nat),
            decreases message@.len() - i,
        {
            if self.exhausted() {
                return None;
            }
            if i > 0 && !is_whitespace(message[i - 1]) {
                i = i + 1;
                continue ;
            }
            proof {
                lemma_field_sequence_spends(message@.skip(i as int), self.budget as nat);
            }
            if let Some(fields) = self.parse_sequence(skip(message, i)) {
                let text = string_from(trim_end(take(message, i)));
                return Some((text, fields));
            }
            i = i + 1;
        }
        None
    }

    /// Reads `value` as fields up to its end.
    pub fn parse_sequence(&mut self, value: &[char]) -> (r: Option<Vec<TraceValueField>>)
        ensures
            (optional_fields(r), final(self).budget as nat) == field_sequence(
                value@,
                old(self).budget as nat,
            ),
        decreases old(self).budget,
    {
        let ghost all = field_sequence(value@, self.budget as nat);
        if self.consume_step().is_none() {
            return None;
        }
        let text = trim_start(value);
        let (key, rest) = match take_tracing_field_key(text) {
            Some(pair) => pair,
            None => {
                return None;
            },
        };
        proof {
            lemma_value_ends(rest@, self.budget as nat);
        }
        let ends = self.value_end_candidates(rest);
        let ghost spec_ends = positions(ends@);
        let mut k: usize = 0;
        while k < ends.len()
            invariant
                k <= ends@.len(),
                spec_ends == positions(ends@),
                forall|j: int| 0 <= j < ends@.len() ==> #[trigger] ends@[j] <= rest@.len(),
                all == first_way(key@, rest@, spec_ends, k as int, self.budget as nat),
                self.budget < old(self).budget,
                all == field_sequence(value@, old(self).budget as nat),
            decreases ends@.len() - k,
        {
            if self.consume_step().is_none() {
                return None;
            }
            let end = ends[k];
            assert(spec_ends[k as int] == end as int);
            let field_value = trim_end(take(rest, end));
            if field_value.len() == 0 {
                k = k + 1;
                continue ;
            }
            let tail = trim_start(skip(rest, end));
            let key_text = string_from(key);
            let value_text = string_from(field_value);
            let field = TraceValueField::new(
                key_text.as_str(),
                TraceValue::from_tracing_text(value_text.as_str()),
            );
            if tail.len() == 0 {
                if unquoted_value_has_top_level_whitespace(field_value) {
                    k = k + 1;
                    continue ;
                }
                let mut fields: Vec<TraceValueField> = Vec::new();
                let ghost item = field@;
                fields.push(field);
                assert(fields_view(fields@) =~= seq![item]);
                return Some(fields);
            }
            proof {
                lemma_field_sequence_spends(tail@, self.budget as nat);
            }
            if let Some(mut fields) = self.parse_sequence(tail) {
                let ghost more = fields_view(fields@);
                let ghost item = field@;
                fields.insert(0, field);
                assert(fields_view(fields@) =~= seq![item] + more);
                return Some(fields);
            }
            k = k + 1;
        }
        None
    }

    /// Where a value at the start of `value` may end.
    pub fn value_end_candidates(&mut self, value: &[char]) -> (r: Vec<usize>)
        ensures
            (positions(r@), final(self).budget as nat) == value_ends(
                value@,
                old(self).budget as nat,
            ),
            forall|k: int| 0 <= k < r@.len() ==> #[trigger] r@[k] <= value@.len(),
    {
        let mut ends: Vec<usize> = Vec::new();
        if value.len() > 0 && value[0] == '"' {
            if let Some(end) = quoted_value_end(value) {
                ends.push(end);
                assert(positions(ends@) =~= seq![end as int]);
            } else {
                assert(positions(ends@) =~= Seq::empty());
            }
            return ends;
        }
        let ghost all = open_ends(value@, 0, self.budget as nat);
        let mut nesting = Nesting::new();
        let mut i: usize = 0;
        assert(positions(ends@) =~= Seq::empty());
        assert(positions(ends@) + all.0 =~= all.0);
        while i < value.len()
            invariant
                i <= value@.len(),
                nesting@ == nest_at(value@, i as int),
                all == value_ends(value@, old(self).budget as nat),
                all.0 == positions(ends@) + open_ends(value@, i as int, self.budget as nat).0,
                all.1 == open_ends(value@, i as int, self.budget as nat).1,
                forall|k: int| 0 <= k < ends@.len() ==> #[trigger] ends@[k] <= value@.len(),
            decreases value@.len() - i,
        {
            if nesting.is_top() && is_whitespace(value[i]) {
                if self.exhausted() {
                    assert(positions(ends@) + Seq::<int>::empty() =~= positions(ends@));
                    return ends;
                }
                let ghost before = positions(ends@);
                let ghost rest = open_ends(value@, i + 1, (self.budget - 1) as nat).0;
                self.budget = self.budget - 1;
                ends.push(i);
                assert(positions(ends@) =~= before.push(i as int));
                assert(before + (seq![i as int] + rest) =~= positions(ends@) + rest);
            }
            nesting.pass(value, i);
            i = i + 1;
        }
        let ghost before = positions(ends@);
        ends.push(value.len());
        assert(positions(ends@) =~= before + seq![value@.len() as int]);
        ends
    }
}

proof fn lemma_first_position(s: Seq<char>, c: char, i: int)
    requires
        0 <= i < s.len(),
        s[i] == c,
        forall|j: int| 0 <= j < i ==> s[j] != c,
    ensures
        position_of(s, c) == Some(i),
{
    lemma_position_of(s, c);
    assert(s.contains(s[i]));
}

/// Splits `value` at the equals sign behind the key that it starts with.
pub fn take_tracing_field_key(value: &[char]) -> (r: Option<(&[char], &[char])>)
    ensures
        r is Some <==> field_key_end(value@) is Some,
        r matches Some((key, rest)) ==> {
            let end = field_key_end(value@).unwrap();
            &&& 0 < end < value@.len()
            &&& key@ == value@.take(end)
            &&& rest@ == value@.skip(end + 1)
        },
{
    proof {
        lemma_position_of(value@, '=');
    }
    if value.len() == 0 {
        return None;
    }
    if !(is_ascii_letter(value[0]) || value[0] == '_') {
        return None;
    }
    let mut i: usize = 1;
    while i < value.len()
        invariant
            1 <= i <= value@.len(),
            is_key_start(value@[0]),
            forall|j: int| 0 < j < i ==> is_key_char(#[trigger] value@[j]),
            forall|j: int| 0 <= j < i ==> value@[j] != '=',
        decreases value@.len() - i,
    {
        let c = value[i];
        if c == '=' {
            proof {
                lemma_first_position(value@, '=', i as int);
            }
            return Some((take(value, i), skip(value, i + 1)));
        }
        if !(is_ascii_letter(c) || is_ascii_digit(c) || c == '_' || c == '-' || c == '.') {
            proof {
                lemma_position_of(value@, '=');
                assert(!is_key_char(value@[i as int]));
            }
            return None;
        }
        i = i + 1;
    }
    proof {
        lemma_position_of(value@, '=');
    }
    None
}

/// Behind the closing quote of the quoted value that `value` starts with.
pub fn quoted_value_end(value: &[char]) -> (r: Option<usize>)
    ensures
        position(r) == quote_end(value@, 1, false),
        r matches Some(end) ==> end <= value@.len(),
{
    let mut escaped = false;
    let mut i: usize = 1;
    while i < value.len()
        invariant
            1 <= i,
            quote_end(value@, 1, false) == quote_end(value@, i as int, escaped),
        decreases value@.len() - i,
    {
        let c = value[i];
        i = i + 1;
        if escaped {
            escaped = false;
        } else if c == '\\' {
            escaped = true;
        } else if c == '"' {
            return Some(i);
        }
    }
    None
}

} // verus!
