//! Brackets and quotes in a text, and what stands outside of all of them.

use vstd::prelude::*;

use crate::parser::fields::quote_end;
use crate::text::{is_white, is_whitespace, slices, trim, trimmed};

verus! {

/// Where a reader stands: how many brackets are open, whether it is inside
/// quotes, and whether the character before was a backslash there.
pub ghost struct Nest {
    pub depth: nat,
    pub quoted: bool,
    pub escaped: bool,
}

pub open spec fn is_opening(c: char) -> bool {
    c == '{' || c == '[' || c == '('
}

pub open spec fn is_closing(c: char) -> bool {
    c == '}' || c == ']' || c == ')'
}

/// Where the reader stands behind `c`. Brackets count only outside of quotes,
/// and a closing bracket that nothing opened is passed over.
pub open spec fn nest_step(nest: Nest, c: char) -> Nest {
    if nest.quoted {
        if nest.escaped {
            Nest { escaped: false, ..nest }
        } else if c == '\\' {
            Nest { escaped: true, ..nest }
        } else if c == '"' {
            Nest { quoted: false, ..nest }
        } else {
            nest
        }
    } else if c == '"' {
        Nest { quoted: true, ..nest }
    } else if is_opening(c) {
        Nest { depth: nest.depth + 1, ..nest }
    } else if is_closing(c) && nest.depth > 0 {
        Nest { depth: (nest.depth - 1) as nat, ..nest }
    } else {
        nest
    }
}

/// Where the reader stands before position `i` of `s`.
pub open spec fn nest_at(s: Seq<char>, i: int) -> Nest
    decreases i,
{
    if i <= 0 {
        Nest { depth: 0, quoted: false, escaped: false }
    } else {
        nest_step(nest_at(s, i - 1), s[i - 1])
    }
}

/// Position `i` of `s` is outside of all brackets and quotes.
pub open spec fn at_top(s: Seq<char>, i: int) -> bool {
    !nest_at(s, i).quoted && nest_at(s, i).depth == 0
}

/// Position `i` of `s` holds white space outside of all brackets and quotes.
pub open spec fn is_gap(s: Seq<char>, i: int) -> bool {
    at_top(s, i) && is_white(s[i])
}

/// Position `i` of `s` holds a separator outside of all brackets and quotes.
pub open spec fn is_cut(s: Seq<char>, separator: char, i: int) -> bool {
    at_top(s, i) && s[i] == separator && separator != '"' && !is_opening(separator) && !is_closing(
        separator,
    )
}

/// The trimmed pieces of `s` from `start` on, cut at the separators from `i` on.
pub open spec fn pieces(s: Seq<char>, separator: char, start: int, i: int) -> Seq<Seq<char>>
    decreases s.len() - i,
{
    if i >= s.len() {
        seq![trimmed(s.skip(start))]
    } else if is_cut(s, separator, i) {
        seq![trimmed(s.subrange(start, i))] + pieces(s, separator, i + 1, i + 1)
    } else {
        pieces(s, separator, start, i + 1)
    }
}

proof fn lemma_depth(s: Seq<char>, i: int)
    requires
        0 <= i <= s.len(),
    ensures
        nest_at(s, i).depth <= i,
    decreases i,
{
    if i > 0 {
        lemma_depth(s, i - 1);
    }
}

proof fn lemma_one_piece(s: Seq<char>, separator: char, i: int)
    requires
        0 <= i <= s.len(),
        forall|j: int| i <= j < s.len() ==> !#[trigger] is_cut(s, separator, j),
    ensures
        pieces(s, separator, 0, i) == seq![trimmed(s)],
    decreases s.len() - i,
{
    if i < s.len() {
        lemma_one_piece(s, separator, i + 1);
    } else {
        assert(s.skip(0) =~= s);
    }
}

proof fn lemma_nest_of_prefix(a: Seq<char>, b: Seq<char>, i: int)
    requires
        0 <= i <= a.len(),
    ensures
        nest_at(a + b, i) == nest_at(a, i),
    decreases i,
{
    if i > 0 {
        lemma_nest_of_prefix(a, b, i - 1);
    }
}

proof fn lemma_nest_behind(a: Seq<char>, b: Seq<char>, i: int)
    requires
        nest_at(a, a.len() as int) == (Nest { depth: 0, quoted: false, escaped: false }),
        0 <= i <= b.len(),
    ensures
        nest_at(a + b, a.len() + i) == nest_at(b, i),
    decreases i,
{
    if i > 0 {
        lemma_nest_behind(a, b, i - 1);
        assert((a + b)[a.len() + i - 1] == b[i - 1]);
    } else {
        lemma_nest_of_prefix(a, b, a.len() as int);
    }
}

proof fn lemma_pieces_behind(a: Seq<char>, b: Seq<char>, separator: char, start: int, i: int)
    requires
        nest_at(a, a.len() as int) == (Nest { depth: 0, quoted: false, escaped: false }),
        0 <= start <= i <= b.len(),
    ensures
        pieces(a + b, separator, a.len() + start, a.len() + i) == pieces(b, separator, start, i),
    decreases b.len() - i,
{
    let s = a + b;
    if i < b.len() {
        lemma_nest_behind(a, b, i);
        assert(s[a.len() + i] == b[i]);
        lemma_pieces_behind(a, b, separator, start, i + 1);
        lemma_pieces_behind(a, b, separator, i + 1, i + 1);
        assert(s.subrange(a.len() + start, a.len() + i) =~= b.subrange(start, i));
    } else {
        assert(s.skip(a.len() + start) =~= b.skip(start));
    }
}

proof fn lemma_first_piece(a: Seq<char>, b: Seq<char>, separator: char, i: int)
    requires
        0 <= i <= a.len(),
        forall|j: int| i <= j < a.len() ==> !#[trigger] is_cut(a, separator, j),
        b.len() > 0,
        is_cut(a + b, separator, a.len() as int),
    ensures
        pieces(a + b, separator, 0, i) == seq![trimmed(a)] + pieces(
            a + b,
            separator,
            a.len() as int + 1,
            a.len() as int + 1,
        ),
    decreases a.len() - i,
{
    if i < a.len() {
        assert(!is_cut(a, separator, i));
        lemma_nest_of_prefix(a, b, i);
        lemma_first_piece(a, b, separator, i + 1);
    } else {
        assert((a + b).subrange(0, i) =~= a);
    }
}

/// A text without separators, brackets and quotes is one piece, and a separator behind
/// it starts the next one: what follows is cut as if it stood alone.
pub proof fn law_pieces_end_at_separators(s: Seq<char>, separator: char, rest: Seq<char>)
    requires
        !s.contains(separator),
        forall|i: int|
            0 <= i < s.len() ==> {
                let c = #[trigger] s[i];
                c != '"' && c != '{' && c != '[' && c != '(' && c != '}' && c != ']' && c != ')'
            },
        separator != '"' && separator != '{' && separator != '[' && separator != '(',
        separator != '}' && separator != ']' && separator != ')',
    ensures
        pieces(s, separator, 0, 0) == seq![trimmed(s)],
        pieces(s + seq![separator] + rest, separator, 0, 0) == seq![trimmed(s)] + pieces(
            rest,
            separator,
            0,
            0,
        ),
{
    let a = s + seq![separator];
    let b = seq![separator] + rest;
    let all = s + seq![separator] + rest;
    assert(all =~= a + rest);
    assert(all =~= s + b);
    assert forall|i: int| 0 <= i < s.len() implies !#[trigger] is_cut(s, separator, i) by {
        assert(s.contains(s[i]));
    }
    lemma_one_piece(s, separator, 0);
    lemma_nest_of_flat(s, s.len() as int);
    lemma_nest_of_flat(a, a.len() as int);
    lemma_nest_of_prefix(s, b, s.len() as int);
    lemma_first_piece(s, b, separator, 0);
    lemma_pieces_behind(a, rest, separator, 0, 0);
}

proof fn lemma_nest_of_flat(s: Seq<char>, i: int)
    requires
        0 <= i <= s.len(),
        forall|i: int|
            0 <= i < s.len() ==> {
                let c = #[trigger] s[i];
                c != '"' && c != '{' && c != '[' && c != '(' && c != '}' && c != ']' && c != ')'
            },
    ensures
        nest_at(s, i) == (Nest { depth: 0, quoted: false, escaped: false }),
    decreases i,
{
    if i > 0 {
        lemma_nest_of_flat(s, i - 1);
        assert(s[i - 1] != '"');
    }
}

proof fn lemma_nest_inside(s: Seq<char>, open: int, i: int)
    requires
        0 <= open < i <= s.len(),
        nest_at(s, open) == (Nest { depth: 0, quoted: false, escaped: false }),
        s[open] == '{' || s[open] == '[' || s[open] == '(' || s[open] == '"',
        s[open] != '"' ==> forall|j: int|
            open < j < i ==> {
                let c = #[trigger] s[j];
                c != '"' && c != '{' && c != '[' && c != '(' && c != '}' && c != ']' && c != ')'
            },
        s[open] == '"' ==> forall|j: int| open < j < i ==> #[trigger] s[j] != '"' && s[j] != '\\',
    ensures
        nest_at(s, i) == if s[open] == '"' {
            Nest { depth: 0, quoted: true, escaped: false }
        } else {
            Nest { depth: 1, quoted: false, escaped: false }
        },
    decreases i,
{
    if i > open + 1 {
        lemma_nest_inside(s, open, i - 1);
        assert(s[i - 1] == s[i - 1]);
    }
}

/// Neither separators nor white space count inside of brackets and quotes: a text with
/// them in one pair of brackets or quotes only is one piece, and only white space
/// around the pair is a gap.
pub proof fn law_brackets_and_quotes_hold_together(
    before: Seq<char>,
    open: char,
    inner: Seq<char>,
    close: char,
    separator: char,
)
    requires
        !before.contains(separator),
        forall|i: int|
            0 <= i < before.len() ==> {
                let c = #[trigger] before[i];
                c != '"' && c != '{' && c != '[' && c != '(' && c != '}' && c != ']' && c != ')'
            },
        (open == '{' && close == '}') || (open == '[' && close == ']') || (open == '(' && close
            == ')') || (open == '"' && close == '"'),
        open != '"' ==> forall|i: int|
            0 <= i < inner.len() ==> {
                let c = #[trigger] inner[i];
                c != '"' && c != '{' && c != '[' && c != '(' && c != '}' && c != ']' && c != ')'
            },
        open == '"' ==> forall|i: int|
            0 <= i < inner.len() ==> #[trigger] inner[i] != '"' && inner[i] != '\\',
        separator != '"' && separator != '{' && separator != '[' && separator != '(',
        separator != '}' && separator != ']' && separator != ')',
    ensures
        ({
            let s = before + seq![open] + inner + seq![close];
            &&& pieces(s, separator, 0, 0) == seq![trimmed(s)]
            &&& forall|i: int|
                0 <= i < s.len() ==> (#[trigger] is_gap(s, i) <==> i < before.len() && is_white(
                    before[i],
                ))
            &&& nest_at(s, s.len() as int) == (Nest { depth: 0, quoted: false, escaped: false })
        }),
{
    let s = before + seq![open] + inner + seq![close];
    let at = before.len() as int;
    let tail = seq![open] + inner + seq![close];
    assert(s =~= before + tail);
    assert(s[at] == open);
    assert(s[s.len() - 1] == close);
    assert forall|j: int| at < j < s.len() - 1 implies #[trigger] s[j] == inner[j - at - 1] by {}
    assert forall|i: int| 0 <= i < s.len() implies !#[trigger] is_cut(s, separator, i) && (is_gap(
        s,
        i,
    ) <==> i < at && is_white(before[i])) by {
        if i <= at {
            lemma_nest_of_flat(before, i);
            lemma_nest_of_prefix(before, tail, i);
            if i < at {
                assert(before.contains(before[i]));
            }
        } else {
            lemma_nest_of_flat(before, at);
            lemma_nest_of_prefix(before, tail, at);
            lemma_nest_inside(s, at, i);
        }
    }
    assert forall|i: int| 0 <= i < s.len() implies (#[trigger] is_gap(s, i) <==> i < at && is_white(
        before[i],
    )) by {
        assert(!is_cut(s, separator, i));
    }
    lemma_one_piece(s, separator, 0);
    lemma_nest_of_flat(before, at);
    lemma_nest_of_prefix(before, tail, at);
    lemma_nest_inside(s, at, s.len() - 1);
}

/// How many opening brackets stand before position `i` of `s`.
pub open spec fn openings(s: Seq<char>, i: int) -> int
    decreases i,
{
    if i <= 0 {
        0
    } else if s[i - 1] == '{' || s[i - 1] == '[' || s[i - 1] == '(' {
        openings(s, i - 1) + 1
    } else {
        openings(s, i - 1)
    }
}

/// How many closing brackets stand before position `i` of `s`.
pub open spec fn closings(s: Seq<char>, i: int) -> int
    decreases i,
{
    if i <= 0 {
        0
    } else if s[i - 1] == '}' || s[i - 1] == ']' || s[i - 1] == ')' {
        closings(s, i - 1) + 1
    } else {
        closings(s, i - 1)
    }
}

/// As many brackets are open as were opened and not closed, however deep they are.
pub proof fn law_depth_counts_brackets(s: Seq<char>, i: int)
    requires
        0 <= i <= s.len(),
        !s.contains('"'),
        forall|j: int| 0 <= j <= i ==> #[trigger] closings(s, j) <= openings(s, j),
    ensures
        nest_at(s, i).depth == openings(s, i) - closings(s, i),
        at_top(s, i) <==> openings(s, i) == closings(s, i),
    decreases i,
{
    if i > 0 {
        law_depth_counts_brackets(s, i - 1);
        assert(s.contains(s[i - 1]));
        assert(closings(s, i) <= openings(s, i));
        lemma_unquoted(s, i - 1);
    }
    lemma_unquoted(s, i);
}

proof fn lemma_unquoted(s: Seq<char>, i: int)
    requires
        0 <= i <= s.len(),
        !s.contains('"'),
    ensures
        !nest_at(s, i).quoted,
    decreases i,
{
    if i > 0 {
        lemma_unquoted(s, i - 1);
        assert(s.contains(s[i - 1]));
    }
}

/// Nothing counts between a quote and the one that closes it: behind it, a reader is
/// where it was.
pub proof fn law_quotes_hide_what_they_hold(s: Seq<char>, from: int, i: int, end: int)
    requires
        0 <= from < i <= end <= s.len(),
        s[from] == '"',
        !nest_at(s, from).quoted,
        !nest_at(s, from).escaped,
        quote_end(s, from + 1, false) == Some(end),
    ensures
        i < end ==> nest_at(s, i).quoted && !at_top(s, i),
        nest_at(s, end) == nest_at(s, from),
{
    lemma_inside_quotes(s, from, from + 1, end);
    lemma_inside_quotes_at(s, from, from + 1, i, end);
}

proof fn lemma_inside_quotes(s: Seq<char>, from: int, i: int, end: int)
    requires
        0 <= from < i <= s.len(),
        nest_at(s, i).quoted,
        nest_at(s, i).depth == nest_at(s, from).depth,
        !nest_at(s, from).quoted,
        !nest_at(s, from).escaped,
        quote_end(s, i, nest_at(s, i).escaped) == Some(end),
    ensures
        nest_at(s, end) == nest_at(s, from),
    decreases s.len() - i,
{
    let nest = nest_at(s, i);
    assert(nest_at(s, i + 1) == nest_step(nest, s[i]));
    if nest.escaped || s[i] != '"' {
        lemma_inside_quotes(s, from, i + 1, end);
    }
}

proof fn lemma_inside_quotes_at(s: Seq<char>, from: int, i: int, at: int, end: int)
    requires
        0 <= from < i <= at <= end <= s.len(),
        nest_at(s, i).quoted,
        quote_end(s, i, nest_at(s, i).escaped) == Some(end),
    ensures
        at < end ==> nest_at(s, at).quoted,
    decreases s.len() - i,
{
    let nest = nest_at(s, i);
    if i < at {
        assert(nest_at(s, i + 1) == nest_step(nest, s[i]));
        if nest.escaped || s[i] != '"' {
            lemma_inside_quotes_at(s, from, i + 1, at, end);
        }
    }
}

/// The state of a reader that follows brackets and quotes.
pub(crate) struct Nesting {
    depth: usize,
    quoted: bool,
    escaped: bool,
}

impl View for Nesting {
    type V = Nest;

    closed spec fn view(&self) -> Nest {
        Nest { depth: self.depth as nat, quoted: self.quoted, escaped: self.escaped }
    }
}

impl Nesting {
    pub(crate) fn new() -> (r: Nesting)
        ensures
            forall|s: Seq<char>| r@ == #[trigger] nest_at(s, 0),
    {
        Nesting { depth: 0, quoted: false, escaped: false }
    }

    /// Tells whether the reader is outside of all brackets and quotes.
    pub(crate) fn is_top(&self) -> (r: bool)
        ensures
            r == (!self@.quoted && self@.depth == 0),
    {
        !self.quoted && self.depth == 0
    }

    /// Passes the character at position `i` of `s`.
    pub(crate) fn pass(&mut self, s: &[char], i: usize)
        requires
            i < s@.len(),
            old(self)@ == nest_at(s@, i as int),
        ensures
            final(self)@ == nest_at(s@, i + 1),
    {
        proof {
            lemma_depth(s@, i as int);
        }
        assert(s@.len() == s.len());
        let c = s[i];
        if self.quoted {
            if self.escaped {
                self.escaped = false;
            } else if c == '\\' {
                self.escaped = true;
            } else if c == '"' {
                self.quoted = false;
            }
        } else {
            match c {
                '"' => {
                    self.quoted = true;
                },
                '{' | '[' | '(' => {
                    self.depth = self.depth.saturating_add(1);
                },
                '}' | ']' | ')' => {
                    self.depth = self.depth.saturating_sub(1);
                },
                _ => {},
            }
        }
    }
}

/// Splits `value` at the separators that stand outside of all brackets and
/// quotes, and trims the pieces.
pub fn split_top_level(value: &[char], separator: char) -> (r: Vec<&[char]>)
    ensures
        slices(r@) == pieces(value@, separator, 0, 0),
{
    let mut fields: Vec<&[char]> = Vec::new();
    let mut start: usize = 0;
    let mut nesting = Nesting::new();
    let mut i: usize = 0;
    assert(slices(fields@) =~= Seq::empty());
    assert(slices(fields@) + pieces(value@, separator, 0, 0) =~= pieces(value@, separator, 0, 0));
    while i < value.len()
        invariant
            start <= i <= value@.len(),
            nesting@ == nest_at(value@, i as int),
            pieces(value@, separator, 0, 0) == slices(fields@) + pieces(
                value@,
                separator,
                start as int,
                i as int,
            ),
        decreases value@.len() - i,
    {
        let c = value[i];
        let plain = match c {
            '"' | '{' | '[' | '(' | '}' | ']' | ')' => false,
            _ => true,
        };
        if nesting.is_top() && c == separator && plain {
            let ghost before = slices(fields@);
            let ghost piece = trimmed(value@.subrange(start as int, i as int));
            fields.push(trim(vstd::slice::slice_subrange(value, start, i)));
            proof {
                assert(slices(fields@) =~= before.push(piece));
                let rest = pieces(value@, separator, i + 1, i + 1);
                assert(before + (seq![piece] + rest) =~= slices(fields@) + rest);
            }
            start = i + 1;
        }
        nesting.pass(value, i);
        i = i + 1;
    }
    let ghost before = slices(fields@);
    let ghost piece = trimmed(value@.skip(start as int));
    fields.push(trim(crate::text::skip(value, start)));
    assert(slices(fields@) =~= before + seq![piece]);
    fields
}

/// Tells whether `value` holds white space outside of all brackets and quotes.
/// A value that starts with a quote does not count.
pub fn unquoted_value_has_top_level_whitespace(value: &[char]) -> (r: bool)
    ensures
        r == has_gap(value@),
{
    if value.len() > 0 && value[0] == '"' {
        return false;
    }
    let mut nesting = Nesting::new();
    let mut i: usize = 0;
    while i < value.len()
        invariant
            i <= value@.len(),
            nesting@ == nest_at(value@, i as int),
            value@.len() > 0 ==> value@[0] != '"',
            forall|j: int| 0 <= j < i ==> !#[trigger] is_gap(value@, j),
        decreases value@.len() - i,
    {
        if nesting.is_top() && is_whitespace(value[i]) {
            assert(is_gap(value@, i as int));
            return true;
        }
        nesting.pass(value, i);
        i = i + 1;
    }
    false
}

/// `s` does not start with a quote, and holds white space outside of all
/// brackets and quotes.
pub open spec fn has_gap(s: Seq<char>) -> bool {
    &&& !(s.len() > 0 && s[0] == '"')
    &&& exists|i: int| 0 <= i < s.len() && #[trigger] is_gap(s, i)
}

} // verus!
