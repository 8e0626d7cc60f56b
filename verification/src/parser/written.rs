//! Fields as they are written, one behind the other, and how they are read back.

use vstd::prelude::*;

use crate::model::{traced, FieldSpec};
use crate::parser::fields::{
    at_most, field_key_end, field_sequence, first_way, is_value_end,
    law_found_fields_make_up_the_text, message_fields, open_ends, quote_end, reads_as, value_ends,
};
use crate::parser::nesting::{
    at_top, has_gap, is_gap, law_brackets_and_quotes_hold_together, nest_at, Nest,
};
use crate::text::{
    is_white, lemma_position_behind, lemma_position_of, lemma_trimmed_start, position_of,
    trimmed_end, trimmed_start,
};

verus! {

/// A key starts with a letter or an underscore, and goes on with letters, digits,
/// underscores, hyphens and dots.
pub open spec fn is_written_key(key: Seq<char>) -> bool {
    &&& key.len() > 0
    &&& 'a' <= key[0] <= 'z' || 'A' <= key[0] <= 'Z' || key[0] == '_'
    &&& forall|i: int|
        0 < i < key.len() ==> {
            let c = #[trigger] key[i];
            'a' <= c <= 'z' || 'A' <= c <= 'Z' || '0' <= c <= '9' || c == '_' || c == '-' || c
                == '.'
        }
}

/// `c` is no quote and no bracket.
pub open spec fn is_flat_char(c: char) -> bool {
    c != '"' && c != '{' && c != '[' && c != '(' && c != '}' && c != ']' && c != ')'
}

/// `s` holds no quote and no bracket.
pub open spec fn is_flat(s: Seq<char>) -> bool {
    forall|i: int| 0 <= i < s.len() ==> is_flat_char(#[trigger] s[i])
}

/// A value that needs no quotes: not empty, without white space, quotes and
/// brackets.
pub open spec fn is_bare_value(value: Seq<char>) -> bool {
    &&& value.len() > 0
    &&& is_flat(value)
    &&& forall|i: int| 0 <= i < value.len() ==> !is_white(#[trigger] value[i])
}

/// Fields with bare values, written with a space between them.
pub open spec fn written_fields(keys: Seq<Seq<char>>, values: Seq<Seq<char>>) -> Seq<char>
    decreases keys.len(),
{
    if keys.len() == 0 {
        Seq::empty()
    } else if keys.len() == 1 {
        keys[0] + seq!['='] + values[0]
    } else {
        keys[0] + seq!['='] + (values[0] + seq![' '] + written_fields(
            keys.drop_first(),
            values.drop_first(),
        ))
    }
}

/// The fields that are read from keys and values.
pub open spec fn fields_of(keys: Seq<Seq<char>>, values: Seq<Seq<char>>) -> Seq<FieldSpec> {
    Seq::new(keys.len(), |i: int| FieldSpec { key: keys[i], value: traced(values[i]) })
}

/// How many white characters `s` holds.
pub open spec fn white_count(s: Seq<char>) -> nat
    decreases s.len(),
{
    if s.len() == 0 {
        0
    } else {
        white_count(s.drop_first()) + if is_white(s[0]) {
            1nat
        } else {
            0
        }
    }
}

/// How many steps `n` fields with bare values take.
pub open spec fn steps_for(n: nat) -> nat
    decreases n,
{
    if n == 0 {
        0
    } else {
        steps_for((n - 1) as nat) + n + 1
    }
}

/// The steps for `n` fields are half of `n * (n + 3)`.
pub proof fn law_steps_for_fields(n: nat)
    ensures
        2 * steps_for(n) == n * (n + 3),
    decreases n,
{
    if n == 0 {
        assert(n * (n + 3) == 0) by (nonlinear_arith)
            requires
                n == 0,
        ;
    } else {
        let m = (n - 1) as nat;
        law_steps_for_fields(m);
        assert(m * (m + 3) + 2 * n + 2 == n * (n + 3)) by (nonlinear_arith)
            requires
                n == m + 1,
        ;
    }
}

proof fn lemma_white_count_add(a: Seq<char>, b: Seq<char>)
    ensures
        white_count(a + b) == white_count(a) + white_count(b),
    decreases a.len(),
{
    if a.len() == 0 {
        assert(a + b =~= b);
    } else {
        lemma_white_count_add(a.drop_first(), b);
        assert((a + b).drop_first() =~= a.drop_first() + b);
    }
}

proof fn lemma_no_white(s: Seq<char>)
    requires
        forall|i: int| 0 <= i < s.len() ==> !is_white(#[trigger] s[i]),
    ensures
        white_count(s) == 0,
    decreases s.len(),
{
    if s.len() > 0 {
        assert(!is_white(s[0]));
        assert forall|i: int| 0 <= i < s.drop_first().len() implies !is_white(
            #[trigger] s.drop_first()[i],
        ) by {
            assert(!is_white(s[i + 1]));
        }
        lemma_no_white(s.drop_first());
    }
}

/// A flat text is outside of all brackets and quotes everywhere.
pub proof fn law_flat_text_is_at_top(s: Seq<char>, i: int)
    requires
        is_flat(s),
        0 <= i <= s.len(),
    ensures
        nest_at(s, i) == (Nest { depth: 0, quoted: false, escaped: false }),
        at_top(s, i),
    decreases i,
{
    if i > 0 {
        law_flat_text_is_at_top(s, i - 1);
        assert(is_flat_char(s[i - 1]));
    }
}

proof fn lemma_open_ends_of_flat_text(s: Seq<char>, i: int, budget: nat)
    requires
        is_flat(s),
        0 <= i <= s.len(),
        white_count(s.skip(i)) <= budget,
    ensures
        open_ends(s, i, budget).1 == budget - white_count(s.skip(i)),
        open_ends(s, i, budget).0.len() > 0,
        ({
            let first = open_ends(s, i, budget).0[0];
            &&& i <= first <= s.len()
            &&& first < s.len() ==> is_white(s[first])
            &&& forall|j: int| i <= j < first ==> !is_white(#[trigger] s[j])
        }),
    decreases s.len() - i,
{
    law_flat_text_is_at_top(s, i);
    if i < s.len() {
        assert(s.skip(i).drop_first() =~= s.skip(i + 1));
        assert(s.skip(i)[0] == s[i]);
        if is_white(s[i]) {
            lemma_open_ends_of_flat_text(s, i + 1, (budget - 1) as nat);
        } else {
            lemma_open_ends_of_flat_text(s, i + 1, budget);
        }
    } else {
        assert(s.skip(i) =~= Seq::empty());
    }
}

/// The key of a text that starts with one.
proof fn lemma_written_key(key: Seq<char>, rest: Seq<char>)
    requires
        is_written_key(key),
    ensures
        ({
            let s = key + seq!['='] + rest;
            &&& trimmed_start(s) == s
            &&& field_key_end(s) == Some(key.len() as int)
            &&& s.take(key.len() as int) == key
            &&& s.skip(key.len() as int + 1) == rest
        }),
{
    let s = key + seq!['='] + rest;
    assert(!key.contains('='));
    lemma_position_behind(key, '=', rest);
    assert(s[0] == key[0]);
    assert forall|i: int| 0 < i < key.len() implies s[i] == #[trigger] key[i] by {}
    assert(s.take(key.len() as int) =~= key);
    assert(s.skip(key.len() as int + 1) =~= rest);
}

/// Written fields are flat, start and end without white space, and have one space
/// between each two of them.
pub proof fn lemma_written_fields(keys: Seq<Seq<char>>, values: Seq<Seq<char>>)
    requires
        keys.len() == values.len() > 0,
        forall|i: int| 0 <= i < keys.len() ==> is_written_key(#[trigger] keys[i]),
        forall|i: int| 0 <= i < values.len() ==> is_bare_value(#[trigger] values[i]),
    ensures
        is_flat(written_fields(keys, values)),
        written_fields(keys, values).len() > 0,
        !is_white(written_fields(keys, values)[0]),
        !is_white(written_fields(keys, values).last()),
        white_count(written_fields(keys, values)) == keys.len() - 1,
    decreases keys.len(),
{
    let line = written_fields(keys, values);
    let key = keys[0];
    let value = values[0];
    assert(is_written_key(key));
    assert(is_bare_value(value));
    assert forall|i: int| 0 <= i < key.len() implies !is_white(#[trigger] key[i]) && is_flat_char(
        key[i],
    ) by {
        if i > 0 {
            assert('a' <= key[i] <= 'z' || 'A' <= key[i] <= 'Z' || '0' <= key[i] <= '9' || key[i]
                == '_' || key[i] == '-' || key[i] == '.');
        }
    }
    lemma_no_white(key);
    lemma_no_white(value);
    lemma_no_white(seq!['=']);
    assert(line[0] == key[0]);
    if keys.len() == 1 {
        assert(line.last() == value.last());
        lemma_white_count_add(key + seq!['='], value);
        lemma_white_count_add(key, seq!['=']);
    } else {
        let more = written_fields(keys.drop_first(), values.drop_first());
        lemma_written_fields(keys.drop_first(), values.drop_first());
        assert(line.last() == more.last());
        lemma_white_count_add(key + seq!['='], value + seq![' '] + more);
        lemma_white_count_add(key, seq!['=']);
        lemma_white_count_add(value + seq![' '], more);
        lemma_white_count_add(value, seq![' ']);
        assert(seq![' '].drop_first() =~= Seq::<char>::empty());
        assert(white_count(seq![' ']) == 1) by {
            reveal_with_fuel(white_count, 2);
        }
    }
}

proof fn lemma_bare_value_stays(value: Seq<char>)
    requires
        is_bare_value(value),
    ensures
        trimmed_end(value) == value,
        !has_gap(value),
{
    assert(!is_white(value.last()));
    assert forall|i: int| 0 <= i < value.len() implies !#[trigger] is_gap(value, i) by {
        assert(!is_white(value[i]));
    }
}

/// Fields with bare values are read back, however many they are, if there are steps
/// enough for them.
#[verifier::spinoff_prover]
#[verifier::rlimit(60)]
pub proof fn law_written_fields_are_read_back(
    keys: Seq<Seq<char>>,
    values: Seq<Seq<char>>,
    budget: nat,
)
    requires
        keys.len() == values.len() > 0,
        forall|i: int| 0 <= i < keys.len() ==> is_written_key(#[trigger] keys[i]),
        forall|i: int| 0 <= i < values.len() ==> is_bare_value(#[trigger] values[i]),
        steps_for(keys.len()) <= budget,
    ensures
        field_sequence(written_fields(keys, values), budget) == (
            Some(fields_of(keys, values)),
            (budget - steps_for(keys.len())) as nat,
        ),
    decreases keys.len(),
{
    let n = keys.len();
    let line = written_fields(keys, values);
    let key = keys[0];
    let value = values[0];
    let field = FieldSpec { key, value: traced(value) };
    let left = (budget - 1) as nat;
    assert(is_written_key(key));
    assert(is_bare_value(value));
    lemma_bare_value_stays(value);
    lemma_written_fields(keys, values);
    assert(is_flat_char(value[0]));
    if n == 1 {
        assert(steps_for(1) == 2) by {
            reveal_with_fuel(steps_for, 2);
        }
        lemma_written_key(key, value);
        lemma_no_white(value);
        assert(value.skip(0) =~= value);
        lemma_open_ends_of_flat_text(value, 0, left);
        let (ends, left2) = value_ends(value, left);
        assert(ends[0] == value.len()) by {
            if ends[0] < value.len() {
                assert(!is_white(value[ends[0]]));
            }
        }
        assert(value.take(value.len() as int) =~= value);
        assert(value.skip(value.len() as int) =~= Seq::empty());
        assert(first_way(key, value, ends, 0, left2) == (Some(seq![field]), (left2 - 1) as nat));
        assert(seq![field] =~= fields_of(keys, values));
    } else {
        let more = written_fields(keys.drop_first(), values.drop_first());
        let rest = value + seq![' '] + more;
        lemma_written_fields(keys.drop_first(), values.drop_first());
        law_written_fields_are_read_back(
            keys.drop_first(),
            values.drop_first(),
            (budget - n - 1) as nat,
        );
        lemma_written_key(key, rest);
        assert(rest[0] == value[0]);
        assert(is_flat(rest)) by {
            assert forall|i: int| 0 <= i < rest.len() implies is_flat_char(#[trigger] rest[i]) by {
                assert(rest[i] == line[key.len() + 1 + i]);
            }
        }
        assert(white_count(rest) == n - 1) by {
            lemma_no_white(value);
            lemma_white_count_add(value + seq![' '], more);
            lemma_white_count_add(value, seq![' ']);
            reveal_with_fuel(white_count, 2);
            assert(seq![' '].drop_first() =~= Seq::<char>::empty());
        }
        assert(rest.skip(0) =~= rest);
        lemma_open_ends_of_flat_text(rest, 0, left);
        let (ends, left2) = value_ends(rest, left);
        assert(ends[0] == value.len()) by {
            assert(is_white(rest[value.len() as int]));
            if ends[0] < value.len() {
                assert(rest[ends[0]] == value[ends[0]]);
                assert(!is_white(value[ends[0]]));
            }
        }
        assert(rest.take(value.len() as int) =~= value);
        assert(rest.skip(value.len() as int) =~= seq![' '] + more);
        assert(trimmed_start(rest.skip(value.len() as int)) == more) by {
            reveal_with_fuel(trimmed_start, 2);
            assert((seq![' '] + more).drop_first() =~= more);
        }
        assert(first_way(key, rest, ends, 0, left2) == (
            Some(seq![field] + fields_of(keys.drop_first(), values.drop_first())),
            (budget - steps_for(n)) as nat,
        ));
        assert(seq![field] + fields_of(keys.drop_first(), values.drop_first()) =~= fields_of(
            keys,
            values,
        ));
    }
}

/// No field starts inside of a text without an equals sign.
proof fn lemma_no_field_starts_in_text(text: Seq<char>, rest: Seq<char>, i: int, budget: nat)
    requires
        !text.contains('='),
        0 <= i < text.len(),
        !is_white(text.last()),
        budget > 0,
    ensures
        field_sequence((text + seq![' '] + rest).skip(i), budget) == (
            None::<Seq<FieldSpec>>,
            (budget - 1) as nat,
        ),
{
    let s = (text + seq![' '] + rest).skip(i);
    let t = trimmed_start(s);
    lemma_trimmed_start(s);
    let gap = s.len() - t.len();
    let end = text.len() - 1 - i;
    assert(s[end] == text.last());
    assert(gap <= end);
    assert(t[end + 1 - gap] == s[end + 1]);
    assert(t[end + 1 - gap] == ' ');
    lemma_position_of(t, '=');
    if let Some(at) = position_of(t, '=') {
        assert(end + 1 - gap < at) by {
            if at <= end - gap {
                assert(t[at] == s[at + gap]);
                assert(t[at] == text[at + gap + i]);
                assert(text.contains('='));
            }
        }
        assert(field_key_end(t) is None);
    }
}

proof fn lemma_fields_behind_text(
    text: Seq<char>,
    keys: Seq<Seq<char>>,
    values: Seq<Seq<char>>,
    i: int,
    budget: nat,
)
    requires
        keys.len() == values.len() > 0,
        forall|i: int| 0 <= i < keys.len() ==> is_written_key(#[trigger] keys[i]),
        forall|i: int| 0 <= i < values.len() ==> is_bare_value(#[trigger] values[i]),
        text.len() > 0,
        !is_white(text.last()),
        !text.contains('='),
        0 <= i <= text.len(),
        steps_for(keys.len()) + if i == 0 {
            1 + white_count(text)
        } else {
            white_count(text.skip(i - 1))
        } <= budget,
    ensures
        message_fields(text + seq![' '] + written_fields(keys, values), i, budget).0 == Some(
            (text, fields_of(keys, values)),
        ),
    decreases text.len() - i,
{
    let line = written_fields(keys, values);
    let s = text + seq![' '] + line;
    lemma_written_fields(keys, values);
    assert(steps_for(keys.len()) > 0);
    if i > 0 {
        assert(text.skip(i - 1).drop_first() =~= text.skip(i));
        assert(text.skip(i - 1)[0] == text[i - 1]);
        assert(s[i - 1] == text[i - 1]);
    } else {
        assert(text.skip(0) =~= text);
    }
    if i == text.len() {
        assert(text[i - 1] == text.last());
        law_written_fields_are_read_back(keys, values, budget);
        assert(s[i] == ' ');
        assert(s.skip(i + 1) =~= line);
        assert(s.take(i + 1) =~= text + seq![' ']);
        assert((text + seq![' ']).drop_last() =~= text);
        assert(trimmed_end(s.take(i + 1)) == text) by {
            reveal_with_fuel(trimmed_end, 2);
        }
        reveal_with_fuel(message_fields, 2);
    } else if i > 0 && !is_white(text[i - 1]) {
        lemma_fields_behind_text(text, keys, values, i + 1, budget);
    } else {
        lemma_no_field_starts_in_text(text, line, i, budget);
        lemma_fields_behind_text(text, keys, values, i + 1, (budget - 1) as nat);
    }
}

/// A message is split into its text and its fields, however many they are, as long
/// as the steps of a reader suffice: one for each start in the text, and those for
/// the fields.
pub proof fn law_messages_with_fields_are_read_back(
    text: Seq<char>,
    keys: Seq<Seq<char>>,
    values: Seq<Seq<char>>,
)
    requires
        keys.len() == values.len() > 0,
        forall|i: int| 0 <= i < keys.len() ==> is_written_key(#[trigger] keys[i]),
        forall|i: int| 0 <= i < values.len() ==> is_bare_value(#[trigger] values[i]),
        text.len() > 0,
        !is_white(text.last()),
        !text.contains('='),
        1 + white_count(text) + steps_for(keys.len()) <= 1024,
    ensures
        message_fields(text + seq![' '] + written_fields(keys, values), 0, 1024).0 == Some(
            (text, fields_of(keys, values)),
        ),
{
    lemma_fields_behind_text(text, keys, values, 0, 1024);
}

/// A message that is made of fields only has no text in front of them.
pub proof fn law_messages_of_fields_are_read_back(
    keys: Seq<Seq<char>>,
    values: Seq<Seq<char>>,
)
    requires
        keys.len() == values.len() > 0,
        forall|i: int| 0 <= i < keys.len() ==> is_written_key(#[trigger] keys[i]),
        forall|i: int| 0 <= i < values.len() ==> is_bare_value(#[trigger] values[i]),
        steps_for(keys.len()) <= 1024,
    ensures
        message_fields(written_fields(keys, values), 0, 1024).0 == Some(
            (Seq::<char>::empty(), fields_of(keys, values)),
        ),
{
    let line = written_fields(keys, values);
    lemma_written_fields(keys, values);
    law_written_fields_are_read_back(keys, values, 1024);
    assert(line.skip(0) =~= line);
    assert(line.take(0) =~= Seq::empty());
    assert(trimmed_end(line.take(0)) =~= Seq::empty());
}

/// A word without an equals sign behind a bare value is no part of it: what is left is
/// no sequence of fields.
pub proof fn law_loose_words_are_no_values(
    key: Seq<char>,
    value: Seq<char>,
    word: Seq<char>,
    budget: nat,
)
    requires
        is_written_key(key),
        is_bare_value(value),
        is_bare_value(word),
        !word.contains('='),
    ensures
        field_sequence(key + seq!['='] + (value + seq![' '] + word), budget).0 is None,
{
    let rest = value + seq![' '] + word;
    let s = key + seq!['='] + rest;
    if field_sequence(s, budget).0 is Some {
        let fields = field_sequence(s, budget).0.unwrap();
        let cuts = law_found_fields_make_up_the_text(s, budget);
        lemma_written_key(key, rest);
        let cut = cuts[0];
        assert(is_flat_char(value[0]));
        assert(rest[0] == value[0]);
        assert(is_value_end(rest, cut));
        if cut < rest.len() {
            assert(is_white(rest[cut]));
            assert(cut == value.len()) by {
                if cut < value.len() {
                    assert(!is_white(value[cut]));
                } else if cut > value.len() {
                    assert(rest[cut] == word[cut - value.len() - 1]);
                    assert(!is_white(word[cut - value.len() - 1]));
                }
            }
            assert(rest.skip(cut) =~= seq![' '] + word);
            assert((seq![' '] + word).drop_first() =~= word);
            assert(!is_white(word[0]));
            assert(trimmed_start(seq![' '] + word) == word) by {
                reveal_with_fuel(trimmed_start, 2);
            }
            assert(reads_as(word, fields.drop_first(), cuts.drop_first()));
            assert(trimmed_start(word) == word);
            lemma_position_of(word, '=');
        } else {
            assert(rest.take(cut) =~= rest);
            assert(rest.last() == word.last());
            assert(!is_white(word.last()));
            assert(trimmed_end(rest) == rest);
            assert(rest.skip(cut) =~= Seq::empty());
            let gap = value.len() as int;
            assert(is_flat(rest)) by {
                assert forall|i: int| 0 <= i < rest.len() implies is_flat_char(
                    #[trigger] rest[i],
                ) by {
                    if i < value.len() {
                        assert(is_flat_char(value[i]));
                    } else if i > value.len() {
                        assert(is_flat_char(word[i - value.len() - 1]));
                    }
                }
            }
            law_flat_text_is_at_top(rest, gap);
            assert(is_gap(rest, gap));
            assert(has_gap(rest));
        }
    }
}

proof fn lemma_quote_end_at(s: Seq<char>, i: int, end: int)
    requires
        0 <= i <= end < s.len(),
        s[end] == '"',
        forall|j: int| i <= j < end ==> #[trigger] s[j] != '"' && s[j] != '\\',
    ensures
        quote_end(s, i, false) == Some(end + 1),
    decreases end - i,
{
    if i < end {
        lemma_quote_end_at(s, i + 1, end);
    }
}

/// A quoted value ends at its closing quote, whatever white space and brackets
/// stand in it, and the fields behind it are read as if they stood alone.
#[verifier::spinoff_prover]
#[verifier::rlimit(40)]
pub proof fn law_quoted_values_end_at_their_quote(
    key: Seq<char>,
    inner: Seq<char>,
    rest: Seq<char>,
    budget: nat,
)
    requires
        is_written_key(key),
        !inner.contains('"'),
        !inner.contains('\\'),
        budget >= 2,
    ensures
        ({
            let value = seq!['"'] + inner + seq!['"'];
            let field = FieldSpec { key, value: traced(value) };
            &&& field_sequence(key + seq!['='] + value, budget).0 == Some(seq![field])
            &&& rest.len() > 0 && !is_white(rest[0]) ==> field_sequence(
                key + seq!['='] + (value + seq![' '] + rest),
                budget,
            ).0 == match field_sequence(rest, (budget - 2) as nat).0 {
                Some(fields) => Some(seq![field] + fields),
                None => None,
            }
        }),
{
    let value = seq!['"'] + inner + seq!['"'];
    let field = FieldSpec { key, value: traced(value) };
    let left = (budget - 1) as nat;
    let end = inner.len() as int + 1;
    assert forall|j: int| 1 <= j < end implies #[trigger] value[j] != '"' && value[j] != '\\' by {
        assert(value[j] == inner[j - 1]);
        assert(inner.contains(inner[j - 1]));
    }
    lemma_quote_end_at(value, 1, end);
    lemma_written_key(key, value);
    assert(value.take(end + 1) =~= value);
    assert(value.skip(end + 1) =~= Seq::empty());
    assert(value.last() == '"');
    assert(trimmed_end(value) == value);
    assert(first_way(key, value, seq![end + 1], 0, left).0 == Some(seq![field]));
    if rest.len() > 0 && !is_white(rest[0]) {
        let all = value + seq![' '] + rest;
        assert forall|j: int| 1 <= j < end implies #[trigger] all[j] != '"' && all[j] != '\\' by {
            assert(all[j] == value[j]);
        }
        lemma_quote_end_at(all, 1, end);
        lemma_written_key(key, all);
        assert(all.take(end + 1) =~= value);
        assert(all.skip(end + 1) =~= seq![' '] + rest);
        assert((seq![' '] + rest).drop_first() =~= rest);
        assert(trimmed_start(all.skip(end + 1)) == rest) by {
            reveal_with_fuel(trimmed_start, 2);
        }
        assert(all[0] == '"');
        assert(value_ends(all, left) == (seq![end + 1], left));
        let (more, spent) = field_sequence(rest, (left - 1) as nat);
        let after = at_most(spent, (left - 1) as nat);
        assert(first_way(key, all, seq![end + 1], 1, after).0 is None);
        assert(first_way(key, all, seq![end + 1], 0, left).0 == match more {
            Some(fields) => Some(seq![field] + fields),
            None => None,
        });
    }
}

proof fn lemma_no_gaps(s: Seq<char>, i: int, budget: nat)
    requires
        0 <= i <= s.len(),
        forall|j: int| i <= j < s.len() ==> !#[trigger] is_gap(s, j),
    ensures
        open_ends(s, i, budget) == (seq![s.len() as int], budget),
    decreases s.len() - i,
{
    if i < s.len() {
        lemma_no_gaps(s, i + 1, budget);
    }
}

/// A value in brackets may hold white space.
pub proof fn law_bracketed_values_hold_white_space(
    key: Seq<char>,
    open: char,
    inner: Seq<char>,
    close: char,
    budget: nat,
)
    requires
        is_written_key(key),
        is_flat(inner),
        (open == '{' && close == '}') || (open == '[' && close == ']') || (open == '(' && close
            == ')'),
        budget >= 2,
    ensures
        ({
            let value = seq![open] + inner + seq![close];
            field_sequence(key + seq!['='] + value, budget).0 == Some(
                seq![FieldSpec { key, value: traced(value) }],
            )
        }),
{
    let none = Seq::<char>::empty();
    let value = seq![open] + inner + seq![close];
    let field = FieldSpec { key, value: traced(value) };
    let left = (budget - 1) as nat;
    assert forall|i: int| 0 <= i < inner.len() implies {
        let c = #[trigger] inner[i];
        c != '"' && c != '{' && c != '[' && c != '(' && c != '}' && c != ']' && c != ')'
    } by {
        assert(is_flat_char(inner[i]));
    }
    law_brackets_and_quotes_hold_together(none, open, inner, close, ',');
    assert(none + seq![open] + inner + seq![close] =~= value);
    lemma_written_key(key, value);
    lemma_no_gaps(value, 0, left);
    let end = value.len() as int;
    assert(value[0] == open);
    assert(value.take(end) =~= value);
    assert(value.skip(end) =~= Seq::empty());
    assert(value.last() == close);
    assert(trimmed_end(value) == value);
    assert(!has_gap(value));
    assert(first_way(key, value, seq![end], 0, left).0 == Some(seq![field]));
}

} // verus!
