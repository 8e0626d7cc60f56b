//! The level that a word names.

use vstd::prelude::*;

use crate::model::Level;
use crate::text::{is_ascii_letter, is_letter};

verus! {

/// `s` without what stands before its first letter.
pub open spec fn letters_start(s: Seq<char>) -> Seq<char>
    decreases s.len(),
{
    if s.len() > 0 && !is_letter(s[0]) {
        letters_start(s.drop_first())
    } else {
        s
    }
}

/// `s` without what stands behind its last letter.
pub open spec fn letters_end(s: Seq<char>) -> Seq<char>
    decreases s.len(),
{
    if s.len() > 0 && !is_letter(s.last()) {
        letters_end(s.drop_last())
    } else {
        s
    }
}

/// The upper case of an ASCII letter; any other character is itself.
pub open spec fn upper(c: char) -> char {
    if 'a' <= c <= 'z' {
        (c as u32 - 0x20) as char
    } else {
        c
    }
}

/// A word in upper case, in lower case.
pub open spec fn lowered(s: Seq<char>) -> Seq<char> {
    Seq::new(s.len(), |i: int| (s[i] as u32 + 0x20) as char)
}

/// Equal but for the case of ASCII letters; `word` is in upper case.
pub open spec fn names(s: Seq<char>, word: Seq<char>) -> bool {
    &&& s.len() == word.len()
    &&& forall|i: int| 0 <= i < s.len() ==> upper(#[trigger] s[i]) == word[i]
}

/// The level that a word names, whatever its case and whatever stands around
/// its letters.
pub open spec fn level_of(s: Seq<char>) -> Option<Level> {
    let word = letters_end(letters_start(s));
    if names(word, seq!['T', 'R', 'A', 'C', 'E']) {
        Some(Level::Trace)
    } else if names(word, seq!['D', 'E', 'B', 'U', 'G']) {
        Some(Level::Debug)
    } else if names(word, seq!['I', 'N', 'F', 'O']) {
        Some(Level::Info)
    } else if names(word, seq!['W', 'A', 'R', 'N']) || names(
        word,
        seq!['W', 'A', 'R', 'N', 'I', 'N', 'G'],
    ) {
        Some(Level::Warn)
    } else if names(word, seq!['E', 'R', 'R', 'O', 'R']) {
        Some(Level::Error)
    } else {
        None
    }
}

proof fn lemma_letters_keep_words(s: Seq<char>)
    requires
        s.len() > 0,
        is_letter(s[0]),
        is_letter(s.last()),
    ensures
        letters_end(letters_start(s)) == s,
{
}

/// The name of a level names it, in upper case and in lower case, alone or with a
/// mark in front of it or behind it.
pub proof fn law_level_names_are_read_back(level: Level)
    requires
        level != Level::Unknown,
    ensures
        level_of(level.name()) == Some(level),
        level_of(lowered(level.name())) == Some(level),
        forall|c: char|
            !is_letter(c) ==> level_of(#[trigger] (seq![c] + level.name())) == Some(level),
        forall|c: char|
            !is_letter(c) ==> level_of(#[trigger] level.name().push(c)) == Some(level),
{
    let name = level.name();
    let low = lowered(name);
    lemma_letters_keep_words(name);
    assert(is_letter(low[0]) && is_letter(low.last()));
    lemma_letters_keep_words(low);
    assert forall|i: int| 0 <= i < name.len() implies upper(#[trigger] low[i]) == name[i] by {}
    assert forall|c: char| !is_letter(c) implies level_of(#[trigger] (seq![c] + name)) == Some(
        level,
    ) by {
        let marked = seq![c] + name;
        assert(marked.drop_first() =~= name);
        assert(letters_start(marked) == letters_start(name));
    }
    assert forall|c: char| !is_letter(c) implies level_of(#[trigger] name.push(c)) == Some(
        level,
    ) by {
        let marked = name.push(c);
        assert(letters_start(marked) == marked);
        assert(marked.drop_last() =~= name);
        assert(letters_end(marked) == letters_end(name));
    }
}

proof fn lemma_letters_start_passes(before: Seq<char>, s: Seq<char>)
    requires
        forall|i: int| 0 <= i < before.len() ==> !is_letter(#[trigger] before[i]),
    ensures
        letters_start(before + s) == letters_start(s),
    decreases before.len(),
{
    if before.len() == 0 {
        assert(before + s =~= s);
    } else {
        assert(!is_letter(before[0]));
        assert forall|i: int| 0 <= i < before.drop_first().len() implies !is_letter(
            #[trigger] before.drop_first()[i],
        ) by {
            assert(!is_letter(before[i + 1]));
        }
        lemma_letters_start_passes(before.drop_first(), s);
        assert((before + s).drop_first() =~= before.drop_first() + s);
    }
}

proof fn lemma_letters_end_passes(s: Seq<char>, after: Seq<char>)
    requires
        forall|i: int| 0 <= i < after.len() ==> !is_letter(#[trigger] after[i]),
    ensures
        letters_end(s + after) == letters_end(s),
    decreases after.len(),
{
    if after.len() == 0 {
        assert(s + after =~= s);
    } else {
        assert(!is_letter(after.last()));
        assert forall|i: int| 0 <= i < after.drop_last().len() implies !is_letter(
            #[trigger] after.drop_last()[i],
        ) by {
            assert(!is_letter(after[i]));
        }
        lemma_letters_end_passes(s, after.drop_last());
        assert((s + after).drop_last() =~= s + after.drop_last());
    }
}

/// What stands around the letters of a word does not matter.
pub proof fn law_marks_around_a_level_do_not_matter(
    before: Seq<char>,
    word: Seq<char>,
    after: Seq<char>,
)
    requires
        forall|i: int| 0 <= i < before.len() ==> !is_letter(#[trigger] before[i]),
        forall|i: int| 0 <= i < after.len() ==> !is_letter(#[trigger] after[i]),
        word.len() > 0,
        is_letter(word[0]),
        is_letter(word.last()),
    ensures
        level_of(before + word + after) == level_of(word),
{
    let s = word + after;
    assert(before + word + after =~= before + s);
    assert(s[0] == word[0]);
    lemma_letters_start_passes(before, s);
    lemma_letters_end_passes(word, after);
    lemma_letters_keep_words(word);
}

/// The name of a level names it with each letter in upper or in lower case, and so
/// does the longer word for a warning.
pub proof fn law_the_case_of_a_level_does_not_matter(level: Level, word: Seq<char>)
    requires
        level != Level::Unknown,
        ({
            let name = level.name();
            let long = seq!['W', 'A', 'R', 'N', 'I', 'N', 'G'];
            ||| word.len() == name.len() && forall|i: int|
                0 <= i < name.len() ==> #[trigger] word[i] == name[i] || word[i] as int
                    == name[i] as int + 32
            ||| level == Level::Warn && word.len() == 7 && forall|i: int|
                0 <= i < 7 ==> #[trigger] word[i] == long[i] || word[i] as int == long[i] as int
                    + 32
        }),
    ensures
        level_of(word) == Some(level),
{
    let name = level.name();
    let long = seq!['W', 'A', 'R', 'N', 'I', 'N', 'G'];
    assert(word[0] == name[0] || word[0] as int == name[0] as int + 32);
    assert(is_letter(word[0]));
    if word.len() == name.len() && forall|i: int|
        0 <= i < name.len() ==> #[trigger] word[i] == name[i] || word[i] as int == name[i] as int
            + 32 {
        let last = name.len() - 1;
        assert(word[last] == name[last] || word[last] as int == name[last] as int + 32);
        lemma_letters_keep_words(word);
        assert forall|i: int| 0 <= i < word.len() implies upper(#[trigger] word[i]) == name[i] by {
            assert(word[i] == name[i] || word[i] as int == name[i] as int + 32);
        }
        assert(names(word, name));
    } else {
        assert(word[6] == long[6] || word[6] as int == long[6] as int + 32);
        lemma_letters_keep_words(word);
        assert forall|i: int| 0 <= i < word.len() implies upper(#[trigger] word[i]) == long[i] by {
            assert(word[i] == long[i] || word[i] as int == long[i] as int + 32);
        }
        assert(names(word, long));
    }
}

proof fn lemma_letters_between(s: Seq<char>) -> (r: (int, int))
    ensures
        0 <= r.0 <= r.1 <= s.len(),
        letters_end(letters_start(s)) == s.subrange(r.0, r.1),
        forall|i: int| 0 <= i < r.0 ==> !is_letter(#[trigger] s[i]),
        forall|i: int| r.1 <= i < s.len() ==> !is_letter(#[trigger] s[i]),
    decreases s.len(),
{
    if s.len() > 0 && !is_letter(s[0]) {
        let t = s.drop_first();
        let (from, to) = lemma_letters_between(t);
        assert(t.subrange(from, to) =~= s.subrange(from + 1, to + 1));
        assert forall|i: int| 0 <= i < from + 1 implies !is_letter(#[trigger] s[i]) by {
            if i > 0 {
                assert(s[i] == t[i - 1]);
            }
        }
        assert forall|i: int| to + 1 <= i < s.len() implies !is_letter(#[trigger] s[i]) by {
            assert(s[i] == t[i - 1]);
        }
        (from + 1, to + 1)
    } else if s.len() > 0 && !is_letter(s.last()) {
        let t = s.drop_last();
        assert(t.len() > 0);
        assert(t[0] == s[0]);
        let (from, to) = lemma_letters_between(t);
        assert(t.subrange(from, to) =~= s.subrange(from, to));
        assert forall|i: int| 0 <= i < from implies !is_letter(#[trigger] s[i]) by {
            assert(s[i] == t[i]);
        }
        assert forall|i: int| to <= i < s.len() implies !is_letter(#[trigger] s[i]) by {
            if i < t.len() {
                assert(s[i] == t[i]);
            }
        }
        (from, to)
    } else {
        assert(s.subrange(0, s.len() as int) =~= s);
        (0, s.len() as int)
    }
}

/// Nothing else names a level: all letters of the text stand between two places, and
/// there stands the name of the level, or the longer word for a warning.
pub proof fn law_only_names_are_levels(s: Seq<char>, level: Level) -> (r: (int, int))
    requires
        level_of(s) == Some(level),
    ensures
        level != Level::Unknown,
        0 <= r.0 < r.1 <= s.len(),
        forall|i: int| 0 <= i < r.0 ==> !is_letter(#[trigger] s[i]),
        forall|i: int| r.1 <= i < s.len() ==> !is_letter(#[trigger] s[i]),
        ({
            let name = level.name();
            let long = seq!['W', 'A', 'R', 'N', 'I', 'N', 'G'];
            ||| r.1 - r.0 == name.len() && forall|i: int|
                0 <= i < name.len() ==> #[trigger] name[i] == s[r.0 + i] || s[r.0 + i] as int
                    == name[i] as int + 32
            ||| level == Level::Warn && r.1 - r.0 == 7 && forall|i: int|
                0 <= i < 7 ==> #[trigger] long[i] == s[r.0 + i] || s[r.0 + i] as int
                    == long[i] as int + 32
        }),
{
    let (from, to) = lemma_letters_between(s);
    let word = s.subrange(from, to);
    let name = level.name();
    let long = seq!['W', 'A', 'R', 'N', 'I', 'N', 'G'];
    if names(word, name) {
        assert forall|i: int| 0 <= i < name.len() implies #[trigger] name[i] == s[from + i]
            || s[from + i] as int == name[i] as int + 32 by {
            assert(word[i] == s[from + i]);
            assert(upper(word[i]) == name[i]);
        }
    } else {
        assert(names(word, long));
        assert forall|i: int| 0 <= i < 7 implies #[trigger] long[i] == s[from + i] || s[from
            + i] as int == long[i] as int + 32 by {
            assert(word[i] == s[from + i]);
            assert(upper(word[i]) == long[i]);
        }
    }
    (from, to)
}

fn to_upper(c: char) -> (r: char)
    ensures
        r == upper(c),
{
    if 'a' <= c && c <= 'z' {
        (c as u8 - 0x20) as char
    } else {
        c
    }
}

fn is_named(s: &[char], word: &[char]) -> (r: bool)
    ensures
        r == names(s@, word@),
{
    if s.len() != word.len() {
        return false;
    }
    let mut i: usize = 0;
    while i < s.len()
        invariant
            i <= s@.len(),
            s@.len() == word@.len(),
            forall|j: int| 0 <= j < i ==> upper(#[trigger] s@[j]) == word@[j],
        decreases s@.len() - i,
    {
        if to_upper(s[i]) != word[i] {
            return false;
        }
        i = i + 1;
    }
    true
}

/// `s` without what stands around its letters.
fn trim_to_letters(s: &[char]) -> (r: &[char])
    ensures
        r@ == letters_end(letters_start(s@)),
{
    let mut start: usize = 0;
    assert(s@.skip(0) =~= s@);
    while start < s.len() && !is_ascii_letter(s[start])
        invariant
            start <= s@.len(),
            letters_start(s@) == letters_start(s@.skip(start as int)),
        decreases s@.len() - start,
    {
        assert(s@.skip(start as int).drop_first() =~= s@.skip(start + 1));
        start = start + 1;
    }
    let mut end: usize = s.len();
    assert(s@.subrange(start as int, end as int) =~= s@.skip(start as int));
    while end > start && !is_ascii_letter(s[end - 1])
        invariant
            start <= end <= s@.len(),
            letters_end(letters_start(s@)) == letters_end(s@.subrange(start as int, end as int)),
        decreases end,
    {
        assert(s@.subrange(start as int, end as int).drop_last() =~= s@.subrange(
            start as int,
            end - 1,
        ));
        end = end - 1;
    }
    vstd::slice::slice_subrange(s, start, end)
}

/// The level that a word names.
pub fn parse_level(value: &[char]) -> (r: Option<Level>)
    ensures
        r == level_of(value@),
{
    let word = trim_to_letters(value);
    if is_named(word, ['T', 'R', 'A', 'C', 'E'].as_slice()) {
        Some(Level::Trace)
    } else if is_named(word, ['D', 'E', 'B', 'U', 'G'].as_slice()) {
        Some(Level::Debug)
    } else if is_named(word, ['I', 'N', 'F', 'O'].as_slice()) {
        Some(Level::Info)
    } else if is_named(word, ['W', 'A', 'R', 'N'].as_slice()) || is_named(
        word,
        ['W', 'A', 'R', 'N', 'I', 'N', 'G'].as_slice(),
    ) {
        Some(Level::Warn)
    } else if is_named(word, ['E', 'R', 'R', 'O', 'R'].as_slice()) {
        Some(Level::Error)
    } else {
        None
    }
}

} // verus!
