//! Terminal escape sequences in a line.

use vstd::prelude::*;

use crate::text::{chars_of, string_from};

verus! {

/// The character that starts an escape sequence.
pub const ESCAPE: char = '\x1b';

/// The bell, which ends an operating system command.
pub const BELL: char = '\x07';

/// Behind the control sequence whose parameters start at `i`: behind its first
/// character between `@` and `~`, or at the end of `s`.
pub open spec fn control_end(s: Seq<char>, i: int) -> int
    decreases s.len() - i,
{
    if i >= s.len() {
        s.len() as int
    } else if '@' <= s[i] <= '~' {
        i + 1
    } else {
        control_end(s, i + 1)
    }
}

/// Behind the operating system command whose text goes on at `i`: behind its
/// first bell or backslash that follows an escape character, or at the end of
/// `s`. `escaped` tells whether an escape character stands before `i`.
pub open spec fn command_end(s: Seq<char>, i: int, escaped: bool) -> int
    decreases s.len() - i,
{
    if i >= s.len() {
        s.len() as int
    } else if s[i] == BELL || (escaped && s[i] == '\\') {
        i + 1
    } else {
        command_end(s, i + 1, s[i] == ESCAPE)
    }
}

/// Behind the escape sequence at the start of `s`: a control sequence starts
/// with `[`, an operating system command with `]`, and any other escape
/// character stands alone.
pub open spec fn sequence_end(s: Seq<char>) -> int {
    if s.len() > 1 && s[1] == '[' {
        control_end(s, 2)
    } else if s.len() > 1 && s[1] == ']' {
        command_end(s, 2, false)
    } else {
        1
    }
}

/// The text `s` without its escape sequences.
pub open spec fn stripped(s: Seq<char>) -> Seq<char>
    decreases s.len(),
    via stripped_decreases
{
    if s.len() == 0 {
        Seq::empty()
    } else if s[0] != ESCAPE {
        seq![s[0]] + stripped(s.drop_first())
    } else {
        stripped(s.skip(sequence_end(s)))
    }
}

#[via_fn]
proof fn stripped_decreases(s: Seq<char>) {
    if s.len() > 0 {
        lemma_sequence_end(s);
    }
}

proof fn lemma_control_end(s: Seq<char>, i: int)
    requires
        0 <= i <= s.len(),
    ensures
        i <= control_end(s, i) <= s.len(),
    decreases s.len() - i,
{
    if i < s.len() && !('@' <= s[i] <= '~') {
        lemma_control_end(s, i + 1);
    }
}

proof fn lemma_command_end(s: Seq<char>, i: int, escaped: bool)
    requires
        0 <= i <= s.len(),
    ensures
        i <= command_end(s, i, escaped) <= s.len(),
    decreases s.len() - i,
{
    if i < s.len() && !(s[i] == BELL || (escaped && s[i] == '\\')) {
        lemma_command_end(s, i + 1, s[i] == ESCAPE);
    }
}

proof fn lemma_sequence_end(s: Seq<char>)
    requires
        s.len() > 0,
    ensures
        1 <= sequence_end(s) <= s.len(),
{
    if s.len() > 1 {
        lemma_control_end(s, 2);
        lemma_command_end(s, 2, false);
    }
}

/// No escape character is left in a stripped text.
pub proof fn law_stripped_has_no_escape(s: Seq<char>)
    ensures
        !stripped(s).contains(ESCAPE),
    decreases s.len(),
{
    if s.len() > 0 {
        if s[0] != ESCAPE {
            law_stripped_has_no_escape(s.drop_first());
            let t = stripped(s.drop_first());
            assert forall|i: int| 0 <= i < stripped(s).len() implies stripped(s)[i] != ESCAPE by {
                if i > 0 {
                    assert(stripped(s)[i] == t[i - 1]);
                    assert(t.contains(t[i - 1]));
                }
            }
        } else {
            lemma_sequence_end(s);
            law_stripped_has_no_escape(s.skip(sequence_end(s)));
        }
    }
}

/// A text without an escape character is left as it is.
pub proof fn law_stripping_keeps_plain_text(s: Seq<char>)
    requires
        !s.contains(ESCAPE),
    ensures
        stripped(s) == s,
    decreases s.len(),
{
    if s.len() > 0 {
        assert(s.contains(s[0]));
        assert forall|i: int| 0 <= i < s.drop_first().len() implies s.drop_first()[i]
            != ESCAPE by {
            assert(s.contains(s[i + 1]));
        }
        law_stripping_keeps_plain_text(s.drop_first());
        assert(seq![s[0]] + s.drop_first() =~= s);
    } else {
        assert(s =~= Seq::empty());
    }
}

/// Stripping twice is stripping once.
pub proof fn law_stripping_is_idempotent(s: Seq<char>)
    ensures
        stripped(stripped(s)) == stripped(s),
{
    law_stripped_has_no_escape(s);
    law_stripping_keeps_plain_text(stripped(s));
}

proof fn lemma_control_end_at(s: Seq<char>, i: int, end: int)
    requires
        0 <= i <= end <= s.len(),
        forall|j: int| i <= j < end ==> !('@' <= #[trigger] s[j] <= '~'),
        end < s.len() ==> '@' <= s[end] <= '~',
    ensures
        control_end(s, i) == if end < s.len() {
            end + 1
        } else {
            end
        },
    decreases end - i,
{
    if i < end {
        lemma_control_end_at(s, i + 1, end);
    }
}

proof fn lemma_command_end_at(s: Seq<char>, i: int, escaped: bool, end: int)
    requires
        0 <= i <= end <= s.len(),
        forall|j: int| i <= j < end ==> #[trigger] s[j] != '\x07',
        forall|j: int| i < j < end && #[trigger] s[j] == '\\' ==> s[j - 1] != '\x1b',
        i < end && escaped ==> s[i] != '\\',
        end < s.len() ==> s[end] == '\x07' || (s[end] == '\\' && (if i < end {
            s[end - 1] == '\x1b'
        } else {
            escaped
        })),
    ensures
        command_end(s, i, escaped) == if end < s.len() {
            end + 1
        } else {
            end
        },
    decreases end - i,
{
    if i < end {
        lemma_command_end_at(s, i + 1, s[i] == '\x1b', end);
    }
}

/// A control sequence is removed, and nothing else: its parameters hold no
/// character between `@` and `~`, and one such character ends it.
pub proof fn law_control_sequences_are_removed(parameters: Seq<char>, last: char, text: Seq<char>)
    requires
        forall|i: int|
            0 <= i < parameters.len() ==> !('@' <= #[trigger] parameters[i] <= '~'),
        '@' <= last <= '~',
    ensures
        stripped(seq!['\x1b', '['] + parameters + seq![last] + text) == stripped(text),
{
    let s = seq!['\x1b', '['] + parameters + seq![last] + text;
    let end = 2 + parameters.len() as int;
    assert forall|j: int| 2 <= j < end implies !('@' <= #[trigger] s[j] <= '~') by {
        assert(s[j] == parameters[j - 2]);
    }
    lemma_control_end_at(s, 2, end);
    assert(s.skip(end + 1) =~= text);
}

/// A control sequence that does not end takes the rest of the line with it.
pub proof fn law_unfinished_control_sequences_are_removed(parameters: Seq<char>)
    requires
        forall|i: int|
            0 <= i < parameters.len() ==> !('@' <= #[trigger] parameters[i] <= '~'),
    ensures
        stripped(seq!['\x1b', '['] + parameters) == Seq::<char>::empty(),
{
    let s = seq!['\x1b', '['] + parameters;
    assert forall|j: int| 2 <= j < s.len() implies !('@' <= #[trigger] s[j] <= '~') by {
        assert(s[j] == parameters[j - 2]);
    }
    lemma_control_end_at(s, 2, s.len() as int);
    reveal_with_fuel(stripped, 2);
    assert(s.skip(s.len() as int) =~= Seq::empty());
}

/// An operating system command is removed, and nothing else: a bell ends it, or an
/// escape character with a backslash behind it.
pub proof fn law_system_commands_are_removed(command: Seq<char>, text: Seq<char>)
    requires
        !command.contains('\x07'),
        forall|i: int|
            0 < i < command.len() && #[trigger] command[i] == '\\' ==> command[i - 1] != '\x1b',
    ensures
        stripped(seq!['\x1b', ']'] + command + seq!['\x07'] + text) == stripped(text),
        stripped(seq!['\x1b', ']'] + command + seq!['\x1b', '\\'] + text) == stripped(text),
        stripped(seq!['\x1b', ']'] + command) == Seq::<char>::empty(),
{
    let head = seq!['\x1b', ']'] + command;
    let end = head.len() as int;
    assert forall|j: int| 2 <= j < end implies #[trigger] head[j] != '\x07' by {
        assert(head[j] == command[j - 2]);
        assert(command.contains(command[j - 2]));
    }
    assert forall|j: int| 2 < j < end && #[trigger] head[j] == '\\' implies head[j - 1]
        != '\x1b' by {
        assert(head[j] == command[j - 2]);
        assert(head[j - 1] == command[j - 3]);
    }
    reveal_with_fuel(stripped, 2);
    lemma_command_end_at(head, 2, false, end);
    assert(head.skip(end) =~= Seq::empty());
    let bell = head + seq!['\x07'] + text;
    lemma_command_end_at(bell, 2, false, end);
    assert(bell.skip(end + 1) =~= text);
    let escape = head + seq!['\x1b', '\\'] + text;
    lemma_command_end_at(escape, 2, false, end + 1);
    assert(escape.skip(end + 2) =~= text);
}

/// Any other escape character is removed alone.
pub proof fn law_lone_escapes_are_removed(text: Seq<char>)
    requires
        text.len() > 0 ==> text[0] != '[' && text[0] != ']',
    ensures
        stripped(seq!['\x1b'] + text) == stripped(text),
{
    let s = seq!['\x1b'] + text;
    assert(s.skip(1) =~= text);
}

/// Text in front of an escape sequence is kept as it is.
pub proof fn law_text_before_sequences_is_kept(plain: Seq<char>, text: Seq<char>)
    requires
        !plain.contains('\x1b'),
    ensures
        stripped(plain + text) == plain + stripped(text),
    decreases plain.len(),
{
    if plain.len() == 0 {
        assert(plain + text =~= text);
        assert(plain + stripped(text) =~= stripped(text));
    } else {
        let rest = plain.drop_first();
        assert(plain.contains(plain[0]));
        assert forall|i: int| 0 <= i < rest.len() implies rest[i] != '\x1b' by {
            assert(plain.contains(plain[i + 1]));
        }
        law_text_before_sequences_is_kept(rest, text);
        assert((plain + text).drop_first() =~= rest + text);
        assert(seq![plain[0]] + (rest + stripped(text)) =~= plain + stripped(text));
    }
}

/// The text `value` without its escape sequences.
pub fn strip_ansi_escape_sequences(value: &str) -> (r: String)
    ensures
        r@ == stripped(value@),
{
    let chars = chars_of(value);
    let s = chars.as_slice();
    let mut out: Vec<char> = Vec::new();
    let mut i: usize = 0;
    assert(s@.skip(0) =~= s@);
    assert(stripped(s@) =~= out@ + stripped(s@.skip(0)));
    while i < s.len()
        invariant
            i <= s@.len(),
            stripped(s@) == out@ + stripped(s@.skip(i as int)),
        decreases s@.len() - i,
    {
        let ghost rest = s@.skip(i as int);
        if s[i] != ESCAPE {
            out.push(s[i]);
            i = i + 1;
            assert(rest.drop_first() =~= s@.skip(i as int));
            assert(stripped(s@) =~= out@ + stripped(s@.skip(i as int)));
        } else {
            let end = skip_sequence(s, i);
            assert(rest.skip(sequence_end(rest)) =~= s@.skip(end as int));
            i = end;
        }
    }
    assert(out@ + stripped(s@.skip(i as int)) =~= out@);
    string_from(out.as_slice())
}

/// Behind the escape sequence that starts at `start`.
fn skip_sequence(s: &[char], start: usize) -> (r: usize)
    requires
        start < s@.len(),
    ensures
        start < r <= s@.len(),
        r == start + sequence_end(s@.skip(start as int)),
{
    let ghost rest = s@.skip(start as int);
    let len: usize = s.len();
    if start + 1 >= len {
        return start + 1;
    }
    if s[start + 1] == '[' {
        let mut i: usize = start + 2;
        while i < s.len()
            invariant
                start + 2 <= i <= s@.len(),
                rest == s@.skip(start as int),
                rest.len() > 1 && rest[1] == '[',
                control_end(rest, 2) == control_end(rest, i - start),
            decreases s@.len() - i,
        {
            let c = s[i];
            assert(rest[i - start] == c);
            i = i + 1;
            if '@' <= c && c <= '~' {
                return i;
            }
        }
        return i;
    }
    if s[start + 1] == ']' {
        let mut i: usize = start + 2;
        let mut escaped = false;
        while i < s.len()
            invariant
                start + 2 <= i <= s@.len(),
                rest == s@.skip(start as int),
                rest.len() > 1 && rest[1] == ']',
                command_end(rest, 2, false) == command_end(rest, i - start, escaped),
            decreases s@.len() - i,
        {
            let c = s[i];
            assert(rest[i - start] == c);
            i = i + 1;
            if c == BELL || (escaped && c == '\\') {
                return i;
            }
            escaped = c == ESCAPE;
        }
        return i;
    }
    start + 1
}

} // verus!
