//! Text as a sequence of characters: character classes, trimming, searching,
//! splitting and joining.
//!
//! Parsers work on slices of characters, so that every position is a character
//! position and every slice of a line is a slice of its view.

use vstd::prelude::*;

verus! {

/// The characters with the Unicode property `White_Space`.
pub open spec fn is_white(c: char) -> bool {
    let n = c as u32;
    ||| 0x09 <= n <= 0x0d
    ||| n == 0x20
    ||| n == 0x85
    ||| n == 0xa0
    ||| n == 0x1680
    ||| 0x2000 <= n <= 0x200a
    ||| n == 0x2028
    ||| n == 0x2029
    ||| n == 0x202f
    ||| n == 0x205f
    ||| n == 0x3000
}

/// Tells whether `c` is white space.
pub fn is_whitespace(c: char) -> (r: bool)
    ensures
        r == is_white(c),
{
    let n: u32 = c as u32;
    (0x09 <= n && n <= 0x0d) || n == 0x20 || n == 0x85 || n == 0xa0 || n == 0x1680 || (0x2000 <= n
        && n <= 0x200a) || n == 0x2028 || n == 0x2029 || n == 0x202f || n == 0x205f || n == 0x3000
}

/// The digits `0` to `9`.
pub open spec fn is_digit(c: char) -> bool {
    '0' <= c <= '9'
}

/// The letters `a` to `z` and `A` to `Z`.
pub open spec fn is_letter(c: char) -> bool {
    ('a' <= c <= 'z') || ('A' <= c <= 'Z')
}

/// Tells whether `c` is an ASCII digit.
pub fn is_ascii_digit(c: char) -> (r: bool)
    ensures
        r == is_digit(c),
{
    '0' <= c && c <= '9'
}

/// Tells whether `c` is an ASCII letter.
pub fn is_ascii_letter(c: char) -> (r: bool)
    ensures
        r == is_letter(c),
{
    ('a' <= c && c <= 'z') || ('A' <= c && c <= 'Z')
}

/// The text `s` without its leading white space.
pub open spec fn trimmed_start(s: Seq<char>) -> Seq<char>
    decreases s.len(),
{
    if s.len() > 0 && is_white(s[0]) {
        trimmed_start(s.drop_first())
    } else {
        s
    }
}

/// The text `s` without its trailing white space.
pub open spec fn trimmed_end(s: Seq<char>) -> Seq<char>
    decreases s.len(),
{
    if s.len() > 0 && is_white(s.last()) {
        trimmed_end(s.drop_last())
    } else {
        s
    }
}

/// The text `s` without white space on either side.
pub open spec fn trimmed(s: Seq<char>) -> Seq<char> {
    trimmed_end(trimmed_start(s))
}

/// The first position of `c` in `s`.
pub open spec fn position_of(s: Seq<char>, c: char) -> Option<int>
    decreases s.len(),
{
    if s.len() == 0 {
        None
    } else if s[0] == c {
        Some(0)
    } else {
        match position_of(s.drop_first(), c) {
            Some(i) => Some(i + 1),
            None => None,
        }
    }
}

/// The first position of a white space character in `s`, or its length.
pub open spec fn white_position(s: Seq<char>) -> int
    decreases s.len(),
{
    if s.len() == 0 || is_white(s[0]) {
        0
    } else {
        1 + white_position(s.drop_first())
    }
}

/// The words of `s`: its longest runs without white space, in order.
pub open spec fn words(s: Seq<char>) -> Seq<Seq<char>>
    decreases s.len(),
    via words_decreases
{
    let t = trimmed_start(s);
    if t.len() == 0 {
        Seq::empty()
    } else {
        let end = white_position(t);
        seq![t.take(end)] + words(t.skip(end))
    }
}

#[via_fn]
proof fn words_decreases(s: Seq<char>) {
    lemma_trimmed_start(s);
    lemma_white_position(trimmed_start(s));
}

/// The texts of `parts` with `sep` between each two of them.
pub open spec fn joined(parts: Seq<Seq<char>>, sep: Seq<char>) -> Seq<char>
    decreases parts.len(),
{
    if parts.len() == 0 {
        Seq::empty()
    } else if parts.len() == 1 {
        parts[0]
    } else {
        joined(parts.drop_last(), sep) + sep + parts.last()
    }
}

/// The views of the strings in `v`.
pub open spec fn texts(v: Seq<String>) -> Seq<Seq<char>> {
    Seq::new(v.len(), |i: int| v[i]@)
}

/// The views of the texts in `v`.
pub open spec fn strs(v: Seq<&str>) -> Seq<Seq<char>> {
    Seq::new(v.len(), |i: int| v[i]@)
}

/// The views of the slices in `v`.
pub open spec fn slices(v: Seq<&[char]>) -> Seq<Seq<char>> {
    Seq::new(v.len(), |i: int| v[i]@)
}

/// The view of an optional string.
pub open spec fn text_of(o: Option<String>) -> Option<Seq<char>> {
    match o {
        Some(s) => Some(s@),
        None => None,
    }
}

/// An optional position as a mathematical integer.
pub open spec fn position(o: Option<usize>) -> Option<int> {
    match o {
        Some(i) => Some(i as int),
        None => None,
    }
}

/// Positions as mathematical integers.
pub open spec fn positions(v: Seq<usize>) -> Seq<int> {
    Seq::new(v.len(), |i: int| v[i] as int)
}

/// The decimal digits of `n`, without leading zeros.
pub open spec fn decimal(n: nat) -> Seq<char>
    decreases n,
{
    if n < 10 {
        seq![digit_char(n)]
    } else {
        decimal(n / 10).push(digit_char(n % 10))
    }
}

/// The digit character of a number below ten.
pub open spec fn digit_char(n: nat) -> char {
    (0x30 + n) as char
}

/// A trimmed start is what is left of `s` behind some white space, and it does
/// not start with white space.
pub proof fn lemma_trimmed_start(s: Seq<char>)
    ensures
        trimmed_start(s).len() <= s.len(),
        trimmed_start(s) == s.skip(s.len() - trimmed_start(s).len()),
        forall|i: int| 0 <= i < s.len() - trimmed_start(s).len() ==> is_white(#[trigger] s[i]),
        trimmed_start(s).len() > 0 ==> !is_white(trimmed_start(s)[0]),
    decreases s.len(),
{
    if s.len() > 0 && is_white(s[0]) {
        let t = s.drop_first();
        lemma_trimmed_start(t);
        assert(t.skip(t.len() - trimmed_start(t).len()) =~= s.skip(
            s.len() - trimmed_start(s).len(),
        ));
        assert forall|i: int| 0 <= i < s.len() - trimmed_start(s).len() implies is_white(
            #[trigger] s[i],
        ) by {
            if i > 0 {
                assert(s[i] == t[i - 1]);
            }
        }
    } else {
        assert(s.skip(0) =~= s);
    }
}

/// A trimmed end is what `s` starts with before some white space, and it does
/// not end with white space.
pub proof fn lemma_trimmed_end(s: Seq<char>)
    ensures
        trimmed_end(s).len() <= s.len(),
        trimmed_end(s) == s.take(trimmed_end(s).len() as int),
        forall|i: int| trimmed_end(s).len() <= i < s.len() ==> is_white(#[trigger] s[i]),
        trimmed_end(s).len() > 0 ==> !is_white(trimmed_end(s).last()),
    decreases s.len(),
{
    if s.len() > 0 && is_white(s.last()) {
        let t = s.drop_last();
        lemma_trimmed_end(t);
        assert(t.take(trimmed_end(t).len() as int) =~= s.take(trimmed_end(s).len() as int));
        assert forall|i: int| trimmed_end(s).len() <= i < s.len() implies is_white(
            #[trigger] s[i],
        ) by {
            if i < s.len() - 1 {
                assert(s[i] == t[i]);
            }
        }
    } else {
        assert(s.take(s.len() as int) =~= s);
    }
}

/// A found position holds the character, and none before it does.
pub proof fn lemma_position_of(s: Seq<char>, c: char)
    ensures
        position_of(s, c) matches Some(i) ==> {
            &&& 0 <= i < s.len()
            &&& s[i] == c
            &&& forall|j: int| 0 <= j < i ==> s[j] != c
        },
        position_of(s, c) is None ==> !s.contains(c),
    decreases s.len(),
{
    if s.len() > 0 && s[0] != c {
        let t = s.drop_first();
        lemma_position_of(t, c);
        match position_of(t, c) {
            Some(i) => {
                assert forall|j: int| 0 <= j < i + 1 implies s[j] != c by {
                    if j > 0 {
                        assert(s[j] == t[j - 1]);
                    }
                }
            },
            None => {
                assert forall|j: int| 0 <= j < s.len() implies s[j] != c by {
                    if j > 0 {
                        assert(s[j] == t[j - 1]);
                        assert(t.contains(t[j - 1]));
                    }
                }
            },
        }
    }
}

/// No white space stands before the first white space.
pub proof fn lemma_white_position(s: Seq<char>)
    ensures
        0 <= white_position(s) <= s.len(),
        forall|i: int| 0 <= i < white_position(s) ==> !is_white(#[trigger] s[i]),
        white_position(s) < s.len() ==> is_white(s[white_position(s)]),
    decreases s.len(),
{
    if s.len() > 0 && !is_white(s[0]) {
        let t = s.drop_first();
        lemma_white_position(t);
        assert forall|i: int| 0 <= i < white_position(s) implies !is_white(#[trigger] s[i]) by {
            if i > 0 {
                assert(s[i] == t[i - 1]);
            }
        }
    }
}

/// A word: it has characters, and none of them is white space.
pub open spec fn is_word(s: Seq<char>) -> bool {
    s.len() > 0 && all_ink(s)
}

/// No character of `s` is white space.
pub open spec fn all_ink(s: Seq<char>) -> bool {
    forall|i: int| 0 <= i < s.len() ==> !is_white(#[trigger] s[i])
}

/// All characters of `s` are white space.
pub open spec fn all_white(s: Seq<char>) -> bool {
    forall|i: int| 0 <= i < s.len() ==> is_white(#[trigger] s[i])
}

/// White space in front of a text is trimmed.
pub proof fn lemma_trimmed_start_passes(gap: Seq<char>, s: Seq<char>)
    requires
        all_white(gap),
    ensures
        trimmed_start(gap + s) == trimmed_start(s),
    decreases gap.len(),
{
    if gap.len() == 0 {
        assert(gap + s =~= s);
    } else {
        assert(is_white(gap[0]));
        assert forall|i: int| 0 <= i < gap.drop_first().len() implies is_white(
            #[trigger] gap.drop_first()[i],
        ) by {
            assert(is_white(gap[i + 1]));
        }
        lemma_trimmed_start_passes(gap.drop_first(), s);
        assert((gap + s).drop_first() =~= gap.drop_first() + s);
    }
}

/// The first white space behind text without any stands where that text ends.
pub proof fn lemma_white_position_behind(ink: Seq<char>, rest: Seq<char>)
    requires
        all_ink(ink),
        rest.len() == 0 || is_white(rest[0]),
    ensures
        white_position(ink + rest) == ink.len(),
    decreases ink.len(),
{
    if ink.len() == 0 {
        assert(ink + rest =~= rest);
    } else {
        assert(!is_white(ink[0]));
        assert forall|i: int| 0 <= i < ink.drop_first().len() implies !is_white(
            #[trigger] ink.drop_first()[i],
        ) by {
            assert(!is_white(ink[i + 1]));
        }
        lemma_white_position_behind(ink.drop_first(), rest);
        assert((ink + rest).drop_first() =~= ink.drop_first() + rest);
    }
}

/// A word is the first of the words of a text that starts with it.
pub proof fn lemma_first_word(word: Seq<char>, gap: Seq<char>, rest: Seq<char>)
    requires
        is_word(word),
        gap.len() > 0 || rest.len() == 0,
        all_white(gap),
    ensures
        words(word + gap + rest) == seq![word] + words(rest),
{
    let s = word + gap + rest;
    let tail = gap + rest;
    assert(s =~= word + tail);
    assert(!is_white(word[0]));
    assert(trimmed_start(s) == s);
    if gap.len() > 0 {
        assert(is_white(gap[0]));
    }
    lemma_white_position_behind(word, tail);
    assert(s.take(word.len() as int) =~= word);
    assert(s.skip(word.len() as int) =~= tail);
    lemma_trimmed_start_passes(gap, rest);
    lemma_words_trimmed(tail);
    lemma_words_trimmed(rest);
}

/// A character is found behind a text that does not hold it.
pub proof fn lemma_position_behind(before: Seq<char>, c: char, rest: Seq<char>)
    requires
        !before.contains(c),
    ensures
        position_of(before + seq![c] + rest, c) == Some(before.len() as int),
    decreases before.len(),
{
    let s = before + seq![c] + rest;
    if before.len() > 0 {
        assert(before.contains(before[0]));
        assert forall|i: int| 0 <= i < before.drop_first().len() implies before.drop_first()[i]
            != c by {
            assert(before.contains(before[i + 1]));
        }
        lemma_position_behind(before.drop_first(), c, rest);
        assert(s.drop_first() =~= before.drop_first() + seq![c] + rest);
    }
}

/// Trimming takes white space off the ends of a text, and nothing else.
pub proof fn law_trimming_takes_white_space_off(
    gap: Seq<char>,
    s: Seq<char>,
    behind: Seq<char>,
)
    requires
        all_white(gap),
        all_white(behind),
        s.len() > 0,
        !is_white(s[0]),
        !is_white(s.last()),
    ensures
        trimmed_start(gap + s + behind) == s + behind,
        trimmed_end(gap + s + behind) == gap + s,
        trimmed(gap + s + behind) == s,
        trimmed(gap) == Seq::<char>::empty(),
{
    let all = gap + s + behind;
    assert(all =~= gap + (s + behind));
    lemma_trimmed_start_passes(gap, s + behind);
    assert((s + behind)[0] == s[0]);
    lemma_trimmed_end_passes(gap + s, behind);
    assert((gap + s).last() == s.last());
    lemma_trimmed_end_passes(s, behind);
    lemma_trimmed_start_passes(gap, Seq::empty());
    assert(gap + Seq::empty() =~= gap);
}

proof fn lemma_trimmed_end_passes(s: Seq<char>, gap: Seq<char>)
    requires
        all_white(gap),
    ensures
        trimmed_end(s + gap) == trimmed_end(s),
    decreases gap.len(),
{
    if gap.len() == 0 {
        assert(s + gap =~= s);
    } else {
        assert(is_white(gap[gap.len() - 1]));
        assert forall|i: int| 0 <= i < gap.drop_last().len() implies is_white(
            #[trigger] gap.drop_last()[i],
        ) by {
            assert(is_white(gap[i]));
        }
        lemma_trimmed_end_passes(s, gap.drop_last());
        assert((s + gap).drop_last() =~= s + gap.drop_last());
    }
}

/// Joined texts stand one behind the other, with the separator between each two of
/// them.
pub proof fn law_joined_texts_grow(parts: Seq<Seq<char>>, part: Seq<char>, sep: Seq<char>)
    ensures
        joined(parts.push(part), sep) == if parts.len() == 0 {
            part
        } else {
            joined(parts, sep) + sep + part
        },
        joined(Seq::empty(), sep) == Seq::<char>::empty(),
{
    assert(parts.push(part).drop_last() =~= parts);
}

/// White space holds no words, and none of it matters in front of them or behind them.
/// A word and the white space behind it come before the words of the rest.
pub proof fn law_words_stand_between_white_space(
    gap: Seq<char>,
    word: Seq<char>,
    behind: Seq<char>,
    rest: Seq<char>,
)
    requires
        is_word(word),
        all_white(gap),
        all_white(behind),
        behind.len() > 0 || rest.len() == 0,
    ensures
        words(gap) == Seq::<Seq<char>>::empty(),
        words(gap + (word + behind + rest)) == seq![word] + words(rest),
{
    let s = word + behind + rest;
    lemma_trimmed_start_passes(gap, Seq::empty());
    assert(gap + Seq::empty() =~= gap);
    lemma_trimmed_start_passes(gap, s);
    lemma_words_trimmed(gap + s);
    lemma_words_trimmed(s);
    lemma_first_word(word, behind, rest);
}

/// The number that some decimal digits stand for.
pub open spec fn number_of(digits: Seq<char>) -> int
    decreases digits.len(),
{
    if digits.len() == 0 {
        0
    } else {
        10 * number_of(digits.drop_last()) + (digits.last() as int - '0' as int)
    }
}

/// The decimal digits of a number stand for it, and do not start with a zero that is
/// not the number itself.
pub proof fn law_decimal_digits_stand_for_the_number(n: nat)
    ensures
        number_of(decimal(n)) == n,
        decimal(n).len() > 0,
        decimal(n)[0] == '0' ==> n == 0,
        n == 0 ==> decimal(n).len() == 1,
        forall|i: int| 0 <= i < decimal(n).len() ==> '0' <= #[trigger] decimal(n)[i] <= '9',
    decreases n,
{
    reveal_with_fuel(number_of, 2);
    let digits = decimal(n);
    if n >= 10 {
        law_decimal_digits_stand_for_the_number(n / 10);
        assert(digits.drop_last() =~= decimal(n / 10));
        assert(digits[0] == decimal(n / 10)[0]);
        assert forall|i: int| 0 <= i < digits.len() implies '0' <= #[trigger] digits[i] <= '9' by {
            if i < digits.len() - 1 {
                assert(digits[i] == decimal(n / 10)[i]);
            }
        }
    } else {
        assert(digits.drop_last() =~= Seq::empty());
    }
}

/// The slice of `s` from `from` on.
pub fn skip(s: &[char], from: usize) -> (r: &[char])
    requires
        from <= s@.len(),
    ensures
        r@ == s@.skip(from as int),
{
    vstd::slice::slice_subrange(s, from, s.len())
}

/// The slice of `s` before `to`.
pub fn take(s: &[char], to: usize) -> (r: &[char])
    requires
        to <= s@.len(),
    ensures
        r@ == s@.take(to as int),
{
    vstd::slice::slice_subrange(s, 0, to)
}

/// The slice `s` without its leading white space.
pub fn trim_start(s: &[char]) -> (r: &[char])
    ensures
        r@ == trimmed_start(s@),
{
    let mut i: usize = 0;
    assert(s@.skip(0) =~= s@);
    while i < s.len() && is_whitespace(s[i])
        invariant
            i <= s@.len(),
            trimmed_start(s@) == trimmed_start(s@.skip(i as int)),
        decreases s@.len() - i,
    {
        assert(s@.skip(i as int).drop_first() =~= s@.skip(i + 1));
        i = i + 1;
    }
    skip(s, i)
}

/// The slice `s` without its trailing white space.
pub fn trim_end(s: &[char]) -> (r: &[char])
    ensures
        r@ == trimmed_end(s@),
{
    let mut i: usize = s.len();
    assert(s@.take(i as int) =~= s@);
    while i > 0 && is_whitespace(s[i - 1])
        invariant
            i <= s@.len(),
            trimmed_end(s@) == trimmed_end(s@.take(i as int)),
        decreases i,
    {
        assert(s@.take(i as int).drop_last() =~= s@.take(i - 1));
        i = i - 1;
    }
    take(s, i)
}

/// The slice `s` without white space on either side.
pub fn trim(s: &[char]) -> (r: &[char])
    ensures
        r@ == trimmed(s@),
{
    trim_end(trim_start(s))
}

/// Finds the first `c` in `s`.
pub fn find_char(s: &[char], c: char) -> (r: Option<usize>)
    ensures
        position(r) == position_of(s@, c),
        r matches Some(i) ==> i < s@.len() && s@[i as int] == c,
{
    let mut i: usize = 0;
    assert(s@.skip(0) =~= s@);
    while i < s.len()
        invariant
            i <= s@.len(),
            position_of(s@, c) == match position_of(s@.skip(i as int), c) {
                Some(j) => Some(i + j),
                None => None,
            },
        decreases s@.len() - i,
    {
        if s[i] == c {
            return Some(i);
        }
        assert(s@.skip(i as int).drop_first() =~= s@.skip(i + 1));
        i = i + 1;
    }
    None
}

/// Finds the first white space in `s`; the length of `s` when there is none.
pub fn find_whitespace(s: &[char]) -> (r: usize)
    ensures
        r == white_position(s@),
        r <= s@.len(),
{
    let mut i: usize = 0;
    assert(s@.skip(0) =~= s@);
    while i < s.len() && !is_whitespace(s[i])
        invariant
            i <= s@.len(),
            white_position(s@) == i + white_position(s@.skip(i as int)),
        decreases s@.len() - i,
    {
        assert(s@.skip(i as int).drop_first() =~= s@.skip(i + 1));
        i = i + 1;
    }
    i
}

/// Splits `s` into its words.
pub fn split_whitespace(s: &[char]) -> (r: Vec<&[char]>)
    ensures
        slices(r@) == words(s@),
{
    let mut out: Vec<&[char]> = Vec::new();
    let mut rest: &[char] = trim_start(s);
    proof {
        lemma_words_trimmed(s@);
        lemma_trimmed_start(s@);
    }
    assert(slices(out@) =~= Seq::<Seq<char>>::empty());
    assert(words(s@) =~= slices(out@) + words(rest@));
    while rest.len() > 0
        invariant
            words(s@) == slices(out@) + words(rest@),
            rest@ == trimmed_start(rest@),
        decreases rest@.len(),
    {
        let ghost before = slices(out@);
        let ghost old_rest = rest@;
        let end = find_whitespace(rest);
        proof {
            lemma_white_position(rest@);
            lemma_trimmed_start(rest@);
            lemma_words_trimmed(rest@.skip(end as int));
            lemma_trimmed_start(rest@.skip(end as int));
        }
        out.push(take(rest, end));
        rest = trim_start(skip(rest, end));
        assert(slices(out@) =~= before.push(old_rest.take(end as int)));
        assert(words(s@) =~= slices(out@) + words(rest@));
        proof {
            lemma_trimmed_start_idempotent(old_rest.skip(end as int));
        }
    }
    assert(words(rest@) =~= Seq::<Seq<char>>::empty());
    assert(slices(out@) + words(rest@) =~= slices(out@));
    out
}

/// Leading white space does not change the words of a text.
proof fn lemma_words_trimmed(s: Seq<char>)
    ensures
        words(s) == words(trimmed_start(s)),
{
    lemma_trimmed_start_idempotent(s);
}

/// Trimming twice is trimming once.
pub proof fn lemma_trimmed_start_idempotent(s: Seq<char>)
    ensures
        trimmed_start(trimmed_start(s)) == trimmed_start(s),
{
    lemma_trimmed_start(s);
}

/// Joins `parts` with one space between each two of them.
pub fn join_with_space(parts: &[&[char]]) -> (r: String)
    ensures
        r@ == joined(slices(parts@), seq![' ']),
{
    let mut out: Vec<char> = Vec::new();
    let ghost all = slices(parts@);
    let mut i: usize = 0;
    assert(all.take(0) =~= Seq::<Seq<char>>::empty());
    while i < parts.len()
        invariant
            i <= parts@.len(),
            all == slices(parts@),
            out@ == joined(all.take(i as int), seq![' ']),
        decreases parts@.len() - i,
    {
        assert(all.take(i + 1).drop_last() =~= all.take(i as int));
        if i > 0 {
            out.push(' ');
        }
        push_all(&mut out, parts[i]);
        assert(out@ =~= joined(all.take(i + 1), seq![' ']));
        i = i + 1;
    }
    assert(all.take(i as int) =~= all);
    string_from(out.as_slice())
}

/// Appends the characters of `s` to `out`.
pub fn push_all(out: &mut Vec<char>, s: &[char])
    ensures
        final(out)@ == old(out)@ + s@,
{
    let mut i: usize = 0;
    assert(out@ + s@.take(0) =~= out@);
    while i < s.len()
        invariant
            i <= s@.len(),
            out@ == old(out)@ + s@.take(i as int),
        decreases s@.len() - i,
    {
        out.push(s[i]);
        assert(s@.take(i + 1) =~= s@.take(i as int).push(s@[i as int]));
        i = i + 1;
        assert(out@ =~= old(out)@ + s@.take(i as int));
    }
    assert(s@.take(i as int) =~= s@);
}

/// `String::push` appends one character, as its documentation says.
pub assume_specification[ std::string::String::push ](s: &mut std::string::String, c: char)
    ensures
        final(s)@ == old(s)@.push(c),
;

/// The string of the characters in `s`.
pub fn string_from(s: &[char]) -> (r: String)
    ensures
        r@ == s@,
{
    let mut out = String::new();
    let mut i: usize = 0;
    assert(s@.take(0) =~= Seq::<char>::empty());
    while i < s.len()
        invariant
            i <= s@.len(),
            out@ == s@.take(i as int),
        decreases s@.len() - i,
    {
        out.push(s[i]);
        i = i + 1;
        assert(s@.take(i as int) =~= s@.take(i - 1).push(s@[i - 1]));
    }
    assert(s@.take(i as int) =~= s@);
    out
}

/// The characters of `s`.
pub fn chars_of(s: &str) -> (r: Vec<char>)
    ensures
        r@ == s@,
{
    let mut out: Vec<char> = Vec::new();
    for c in it: s.chars()
        invariant
            out@ == it.seq().take(it.index()),
            it.seq() == s@,
    {
        out.push(c);
        assert(it.seq().take(it.index() + 1) =~= it.seq().take(it.index()).push(c));
    }
    assert(s@.take(s@.len() as int) =~= s@);
    out
}

/// Tells whether two texts are the same.
pub fn same_text(a: &str, b: &str) -> (r: bool)
    ensures
        r == (a@ == b@),
{
    let left = chars_of(a);
    let right = chars_of(b);
    same_chars(left.as_slice(), right.as_slice())
}

/// Tells whether two slices hold the same characters.
pub fn same_chars(a: &[char], b: &[char]) -> (r: bool)
    ensures
        r == (a@ == b@),
{
    if a.len() != b.len() {
        return false;
    }
    let mut i: usize = 0;
    while i < a.len()
        invariant
            i <= a@.len(),
            a@.len() == b@.len(),
            forall|j: int| 0 <= j < i ==> a@[j] == b@[j],
        decreases a@.len() - i,
    {
        if a[i] != b[i] {
            return false;
        }
        i = i + 1;
    }
    assert(a@ =~= b@);
    true
}

/// A copy of `s`.
pub fn copy_str(s: &str) -> (r: String)
    ensures
        r@ == s@,
{
    s.to_owned()
}

/// The decimal text of `n`.
pub fn decimal_text(n: usize) -> (r: String)
    ensures
        r@ == decimal(n as nat),
{
    let mut digits: Vec<char> = Vec::new();
    let mut rest: usize = n;
    let ghost mut tail: Seq<char> = Seq::empty();
    while rest >= 10
        invariant
            decimal(n as nat) == decimal(rest as nat) + tail,
            tail.len() == digits@.len(),
            forall|i: int| 0 <= i < tail.len() ==> tail[i] == digits@[tail.len() - 1 - i],
        decreases rest,
    {
        let d = (rest % 10) as u8;
        let c = (0x30 + d) as char;
        digits.push(c);
        proof {
            let old_tail = tail;
            tail = seq![c] + tail;
            assert(decimal(rest as nat) + old_tail =~= decimal((rest / 10) as nat) + tail);
        }
        rest = rest / 10;
    }
    let first = (0x30 + rest as u8) as char;
    let mut out = String::new();
    out.push(first);
    let mut i: usize = digits.len();
    assert(tail.take(0) =~= Seq::<char>::empty());
    assert(out@ =~= decimal(rest as nat));
    assert(out@ =~= decimal(rest as nat) + tail.take(0));
    while i > 0
        invariant
            i <= digits@.len(),
            tail.len() == digits@.len(),
            forall|j: int| 0 <= j < tail.len() ==> tail[j] == digits@[tail.len() - 1 - j],
            out@ == decimal(rest as nat) + tail.take(digits@.len() - i),
        decreases i,
    {
        i = i - 1;
        out.push(digits[i]);
        assert(tail.take(digits@.len() - i) =~= tail.take(digits@.len() - i - 1).push(
            digits@[i as int],
        ));
        assert(out@ =~= decimal(rest as nat) + tail.take(digits@.len() - i));
    }
    assert(tail.take(tail.len() as int) =~= tail);
    out
}

} // verus!
