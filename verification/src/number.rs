//! The texts that denote a number: what Rust reads as a floating point number.

use vstd::prelude::*;

use crate::text::{is_ascii_digit, is_digit, skip};

verus! {

/// How many digits `s` starts with.
pub open spec fn digits_len(s: Seq<char>) -> int
    decreases s.len(),
{
    if s.len() > 0 && is_digit(s[0]) {
        1 + digits_len(s.drop_first())
    } else {
        0
    }
}

/// `s` without a leading `+` or `-`.
pub open spec fn unsigned(s: Seq<char>) -> Seq<char> {
    if s.len() > 0 && (s[0] == '+' || s[0] == '-') {
        s.drop_first()
    } else {
        s
    }
}

/// The lower case of an ASCII letter; any other character is itself.
pub open spec fn lower(c: char) -> char {
    if 'A' <= c <= 'Z' {
        (c as u32 + 0x20) as char
    } else {
        c
    }
}

/// Equal but for the case of ASCII letters; `word` is in lower case.
pub open spec fn same_word(s: Seq<char>, word: Seq<char>) -> bool {
    &&& s.len() == word.len()
    &&& forall|i: int| 0 <= i < s.len() ==> lower(#[trigger] s[i]) == word[i]
}

/// Nothing, or an `e`, an optional sign and at least one digit.
pub open spec fn is_exponent(s: Seq<char>) -> bool {
    ||| s.len() == 0
    ||| {
        let digits = unsigned(s.drop_first());
        &&& lower(s[0]) == 'e'
        &&& digits.len() > 0
        &&& digits_len(digits) == digits.len()
    }
}

/// Digits, a point and digits, where the point and one of the two runs of
/// digits may be missing, and then an exponent.
pub open spec fn is_decimal_number(s: Seq<char>) -> bool {
    let whole = digits_len(s);
    if whole < s.len() && s[whole] == '.' {
        let rest = s.skip(whole + 1);
        let fraction = digits_len(rest);
        whole + fraction > 0 && is_exponent(rest.skip(fraction))
    } else {
        whole > 0 && is_exponent(s.skip(whole))
    }
}

/// The texts that Rust reads as a floating point number: an optional sign, then
/// `inf`, `infinity`, `nan` or a decimal number. Every text of an integer is
/// among them.
pub open spec fn is_number(s: Seq<char>) -> bool {
    let t = unsigned(s);
    ||| same_word(t, seq!['i', 'n', 'f'])
    ||| same_word(t, seq!['i', 'n', 'f', 'i', 'n', 'i', 't', 'y'])
    ||| same_word(t, seq!['n', 'a', 'n'])
    ||| is_decimal_number(t)
}

/// An optional sign and at least one digit.
pub open spec fn is_integer(s: Seq<char>) -> bool {
    unsigned(s).len() > 0 && digits_len(unsigned(s)) == unsigned(s).len()
}

/// The text of an integer is the text of a number.
pub proof fn law_integers_are_numbers(s: Seq<char>)
    requires
        is_integer(s),
    ensures
        is_number(s),
{
    let t = unsigned(s);
    assert(is_exponent(t.skip(t.len() as int)));
}

/// Decimal digits only.
pub open spec fn are_digits(s: Seq<char>) -> bool {
    forall|i: int| 0 <= i < s.len() ==> '0' <= #[trigger] s[i] <= '9'
}

/// A sign or none.
pub open spec fn is_sign(s: Seq<char>) -> bool {
    s.len() == 0 || s == seq!['+'] || s == seq!['-']
}

proof fn lemma_digits_len_of(digits: Seq<char>, rest: Seq<char>)
    requires
        are_digits(digits),
        rest.len() > 0 ==> !('0' <= rest[0] <= '9'),
    ensures
        digits_len(digits + rest) == digits.len(),
        (digits + rest).skip(digits.len() as int) == rest,
    decreases digits.len(),
{
    let s = digits + rest;
    assert(s.skip(digits.len() as int) =~= rest);
    if digits.len() == 0 {
        assert(s =~= rest);
    } else {
        assert('0' <= digits[0] <= '9');
        assert forall|i: int| 0 <= i < digits.drop_first().len() implies '0'
            <= #[trigger] digits.drop_first()[i] <= '9' by {
            assert('0' <= digits[i + 1] <= '9');
        }
        lemma_digits_len_of(digits.drop_first(), rest);
        assert(s.drop_first() =~= digits.drop_first() + rest);
    }
}

proof fn lemma_unsigned_of(sign: Seq<char>, rest: Seq<char>)
    requires
        is_sign(sign),
        rest.len() > 0 ==> rest[0] != '+' && rest[0] != '-',
    ensures
        unsigned(sign + rest) == rest,
{
    if sign.len() == 0 {
        assert(sign + rest =~= rest);
    } else {
        assert((sign + rest).drop_first() =~= rest);
    }
}

/// An optional sign, digits, an optional point with digits behind it and an optional
/// exponent are a number, however long they are, if a digit stands before the point
/// or behind it.
pub proof fn law_decimal_texts_are_numbers(
    sign: Seq<char>,
    whole: Seq<char>,
    fraction: Seq<char>,
    letter: char,
    exponent_sign: Seq<char>,
    exponent: Seq<char>,
)
    requires
        is_sign(sign),
        are_digits(whole),
        are_digits(fraction),
        whole.len() + fraction.len() > 0,
        letter == 'e' || letter == 'E',
        is_sign(exponent_sign),
        are_digits(exponent),
        exponent.len() > 0,
    ensures
        ({
            let end = seq![letter] + (exponent_sign + exponent);
            &&& whole.len() > 0 ==> is_number(sign + whole)
            &&& whole.len() > 0 ==> is_number(sign + (whole + end))
            &&& is_number(sign + (whole + (seq!['.'] + fraction)))
            &&& is_number(sign + (whole + (seq!['.'] + (fraction + end))))
        }),
{
    let none = Seq::<char>::empty();
    let end = seq![letter] + (exponent_sign + exponent);
    assert('0' <= exponent[0] <= '9');
    lemma_unsigned_of(exponent_sign, exponent);
    lemma_digits_len_of(exponent, none);
    assert(exponent + none =~= exponent);
    assert(end.drop_first() =~= exponent_sign + exponent);
    assert(is_exponent(end));
    assert(is_exponent(none));
    lemma_decimal_text(sign, whole, fraction, none);
    lemma_decimal_text(sign, whole, fraction, end);
    assert(whole + none =~= whole);
    assert(fraction + none =~= fraction);
}

proof fn lemma_decimal_text(sign: Seq<char>, whole: Seq<char>, fraction: Seq<char>, end: Seq<char>)
    requires
        is_sign(sign),
        are_digits(whole),
        are_digits(fraction),
        whole.len() + fraction.len() > 0,
        is_exponent(end),
        end.len() > 0 ==> end[0] == 'e' || end[0] == 'E',
    ensures
        whole.len() > 0 ==> is_number(sign + (whole + end)),
        is_number(sign + (whole + (seq!['.'] + (fraction + end)))),
{
    let behind = seq!['.'] + (fraction + end);
    let pointed = whole + behind;
    lemma_digits_len_of(whole, behind);
    lemma_digits_len_of(fraction, end);
    assert(pointed[whole.len() as int] == '.');
    assert(pointed.skip(whole.len() as int + 1) =~= fraction + end);
    assert(is_decimal_number(pointed));
    if whole.len() > 0 {
        assert('0' <= whole[0] <= '9');
        assert(pointed[0] == whole[0]);
        let plain = whole + end;
        lemma_digits_len_of(whole, end);
        if end.len() > 0 {
            assert(plain[whole.len() as int] == end[0]);
        }
        assert(is_decimal_number(plain));
        assert(plain[0] == whole[0]);
        lemma_unsigned_of(sign, plain);
    }
    lemma_unsigned_of(sign, pointed);
}

/// The words for what is not finite are numbers, with or without a sign and whatever
/// the case of their letters.
pub proof fn law_words_for_what_is_not_finite_are_numbers(
    sign: Seq<char>,
    word: Seq<char>,
    name: Seq<char>,
)
    requires
        is_sign(sign),
        name == seq!['i', 'n', 'f'] || name == seq!['i', 'n', 'f', 'i', 'n', 'i', 't', 'y'] || name
            == seq!['n', 'a', 'n'],
        word.len() == name.len(),
        forall|i: int|
            0 <= i < word.len() ==> #[trigger] word[i] == name[i] || word[i] as int + 32
                == name[i] as int,
    ensures
        is_number(sign + word),
{
    assert(word[0] == name[0] || word[0] as int + 32 == name[0] as int);
    lemma_unsigned_of(sign, word);
    assert forall|i: int| 0 <= i < word.len() implies lower(#[trigger] word[i]) == name[i] by {
        assert(word[i] == name[i] || word[i] as int + 32 == name[i] as int);
    }
    assert(same_word(word, name));
}

/// A character that a decimal number can hold.
pub open spec fn is_number_char(c: char) -> bool {
    '0' <= c <= '9' || c == '+' || c == '-' || c == '.' || c == 'e' || c == 'E'
}

proof fn lemma_digits_len(s: Seq<char>)
    ensures
        0 <= digits_len(s) <= s.len(),
        forall|i: int| 0 <= i < digits_len(s) ==> '0' <= #[trigger] s[i] <= '9',
    decreases s.len(),
{
    if s.len() > 0 && is_digit(s[0]) {
        let t = s.drop_first();
        lemma_digits_len(t);
        assert forall|i: int| 0 <= i < digits_len(s) implies '0' <= #[trigger] s[i] <= '9' by {
            if i > 0 {
                assert(s[i] == t[i - 1]);
            }
        }
    }
}

proof fn lemma_exponent_chars(s: Seq<char>, i: int)
    requires
        is_exponent(s),
        0 <= i < s.len(),
    ensures
        is_number_char(s[i]),
{
    let t = s.drop_first();
    let digits = unsigned(t);
    lemma_digits_len(digits);
    if i > 0 {
        assert(s[i] == t[i - 1]);
        if digits.len() == t.len() {
            assert(digits[i - 1] == t[i - 1]);
        } else if i > 1 {
            assert(digits[i - 2] == t[i - 1]);
        }
    }
}

/// Nothing else is a number: it is one of the three words for what is not finite, or
/// holds a digit, and no characters but digits, signs, points and the letter of an
/// exponent.
pub proof fn law_other_texts_are_no_numbers(s: Seq<char>)
    requires
        is_number(s),
        !same_word(unsigned(s), seq!['i', 'n', 'f']),
        !same_word(unsigned(s), seq!['i', 'n', 'f', 'i', 'n', 'i', 't', 'y']),
        !same_word(unsigned(s), seq!['n', 'a', 'n']),
    ensures
        forall|i: int| 0 <= i < s.len() ==> is_number_char(#[trigger] s[i]),
        exists|i: int| 0 <= i < s.len() && '0' <= #[trigger] s[i] <= '9',
{
    let t = unsigned(s);
    let offset = s.len() - t.len();
    let whole = digits_len(t);
    lemma_digits_len(t);
    assert forall|i: int| 0 <= i < t.len() implies #[trigger] t[i] == s[offset + i] by {}
    let rest = t.skip(whole + 1);
    let fraction = digits_len(rest);
    lemma_digits_len(rest);
    let pointed = whole < t.len() && t[whole] == '.';
    assert forall|i: int| 0 <= i < s.len() implies is_number_char(#[trigger] s[i]) by {
        let k = i - offset;
        if k >= 0 {
            assert(s[i] == t[k]);
            if k < whole {
                assert('0' <= t[k] <= '9');
            } else if pointed {
                if k > whole {
                    assert(t[k] == rest[k - whole - 1]);
                    if k - whole - 1 >= fraction {
                        lemma_exponent_chars(rest.skip(fraction), k - whole - 1 - fraction);
                        assert(rest.skip(fraction)[k - whole - 1 - fraction] == t[k]);
                    }
                }
            } else {
                lemma_exponent_chars(t.skip(whole), k - whole);
                assert(t.skip(whole)[k - whole] == t[k]);
            }
        }
    }
    if whole > 0 {
        assert('0' <= t[0] <= '9');
        assert(s[offset] == t[0]);
    } else {
        assert('0' <= rest[0] <= '9');
        assert(s[offset + whole + 1] == rest[0]);
    }
}

fn count_digits(s: &[char]) -> (r: usize)
    ensures
        r == digits_len(s@),
        r <= s@.len(),
{
    let mut i: usize = 0;
    assert(s@.skip(0) =~= s@);
    while i < s.len() && is_ascii_digit(s[i])
        invariant
            i <= s@.len(),
            digits_len(s@) == i + digits_len(s@.skip(i as int)),
        decreases s@.len() - i,
    {
        assert(s@.skip(i as int).drop_first() =~= s@.skip(i + 1));
        i = i + 1;
    }
    i
}

fn skip_sign(s: &[char]) -> (r: &[char])
    ensures
        r@ == unsigned(s@),
{
    if s.len() > 0 && (s[0] == '+' || s[0] == '-') {
        skip(s, 1)
    } else {
        s
    }
}

fn to_lower(c: char) -> (r: char)
    ensures
        r == lower(c),
{
    if 'A' <= c && c <= 'Z' {
        (c as u8 + 0x20) as char
    } else {
        c
    }
}

fn is_word(s: &[char], word: &[char]) -> (r: bool)
    ensures
        r == same_word(s@, word@),
{
    if s.len() != word.len() {
        return false;
    }
    let mut i: usize = 0;
    while i < s.len()
        invariant
            i <= s@.len(),
            s@.len() == word@.len(),
            forall|j: int| 0 <= j < i ==> lower(#[trigger] s@[j]) == word@[j],
        decreases s@.len() - i,
    {
        if to_lower(s[i]) != word[i] {
            return false;
        }
        i = i + 1;
    }
    true
}

fn ends_with_exponent(s: &[char]) -> (r: bool)
    ensures
        r == is_exponent(s@),
{
    if s.len() == 0 {
        return true;
    }
    let digits = skip_sign(skip(s, 1));
    assert(s@.skip(1) =~= s@.drop_first());
    to_lower(s[0]) == 'e' && digits.len() > 0 && count_digits(digits) == digits.len()
}

fn decimal_number(s: &[char]) -> (r: bool)
    ensures
        r == is_decimal_number(s@),
{
    let whole = count_digits(s);
    if whole < s.len() && s[whole] == '.' {
        let rest = skip(s, whole + 1);
        let fraction = count_digits(rest);
        (whole > 0 || fraction > 0) && ends_with_exponent(skip(rest, fraction))
    } else {
        whole > 0 && ends_with_exponent(skip(s, whole))
    }
}

/// Tells whether `s` is the text of a number.
pub fn is_number_text(s: &[char]) -> (r: bool)
    ensures
        r == is_number(s@),
{
    let t = skip_sign(s);
    is_word(t, ['i', 'n', 'f'].as_slice()) || is_word(
        t,
        ['i', 'n', 'f', 'i', 'n', 'i', 't', 'y'].as_slice(),
    ) || is_word(t, ['n', 'a', 'n'].as_slice()) || decimal_number(t)
}

} // verus!
