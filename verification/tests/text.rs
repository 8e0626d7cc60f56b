use traceviewer::number::is_number_text;
use traceviewer::text::{
    chars_of, decimal_text, find_char, find_whitespace, is_ascii_digit, is_ascii_letter,
    is_whitespace, join_with_space, same_text, split_whitespace, string_from, trim, trim_end,
    trim_start,
};

#[test]
fn white_space_is_that_of_unicode() {
    for c in '\0'..=char::MAX {
        assert_eq!(is_whitespace(c), c.is_whitespace(), "{c:?}");
        assert_eq!(is_ascii_digit(c), c.is_ascii_digit(), "{c:?}");
        assert_eq!(is_ascii_letter(c), c.is_ascii_alphabetic(), "{c:?}");
    }
}

#[test]
fn trimming_matches_the_standard_library() {
    for text in ["", " ", "a", " a ", "\t a b\u{2003}", "\u{3000}é\u{85}", "ab"] {
        let chars = chars_of(text);
        assert_eq!(string_from(trim(&chars)), text.trim());
        assert_eq!(string_from(trim_start(&chars)), text.trim_start());
        assert_eq!(string_from(trim_end(&chars)), text.trim_end());
    }
}

#[test]
fn words_are_split_and_joined() {
    let chars = chars_of("  one\ttwo  three ");
    let words = split_whitespace(&chars);
    assert_eq!(words.len(), 3);
    assert_eq!(join_with_space(&words), "one two three");
}

#[test]
fn characters_are_found() {
    let chars = chars_of("aé=b c");
    assert_eq!(find_char(&chars, '='), Some(2));
    assert_eq!(find_char(&chars, 'x'), None);
    assert_eq!(find_whitespace(&chars), 4);
    assert_eq!(find_whitespace(&chars_of("abc")), 3);
}

#[test]
fn decimal_digits_are_written() {
    for n in [0usize, 7, 10, 99, 100, 65_536, usize::MAX] {
        assert_eq!(decimal_text(n), n.to_string());
    }
}

#[test]
fn texts_are_compared() {
    assert!(same_text("é", "é"));
    assert!(!same_text("e", "é"));
    assert!(!same_text("a", "ab"));
    assert!(same_text("", ""));
}

#[test]
fn numbers_are_those_of_the_standard_library() {
    let samples = [
        "", "+", "-", "0", "7", "-7", "+7", "007", "1.", ".5", ".", "1.5", "-1.5", "1e5", "1E5",
        "1e+5", "1e-5", "1e", "1e+", "e5", ".e5", "1.e5", "1.5e", "inf", "INF", "-inf", "+Infinity",
        "infinity", "infinit", "infinityy", "nan", "NaN", "-nan", "nano", "0x10", "1_000", " 1",
        "1 ", "1.2.3", "--1", "+-1", "9223372036854775807", "9223372036854775808", "1e400", "é",
        "12é", "١", "1,5", "true",
    ];
    for text in samples {
        let expected = text.parse::<i64>().is_ok() || text.parse::<f64>().is_ok();
        assert_eq!(is_number_text(&chars_of(text)), expected, "{text:?}");
    }
}

#[test]
fn short_texts_are_numbers_as_in_the_standard_library() {
    let alphabet = ['0', '9', '+', '-', '.', 'e', 'E', 'i', 'n', 'f', 'a', 'N', ' '];
    let mut texts = vec![String::new()];
    let mut last = texts.clone();
    for _ in 0..4 {
        let mut next = Vec::new();
        for text in &last {
            for c in alphabet {
                next.push(format!("{text}{c}"));
            }
        }
        texts.extend(next.iter().cloned());
        last = next;
    }
    for text in texts {
        let expected = text.parse::<i64>().is_ok() || text.parse::<f64>().is_ok();
        assert_eq!(is_number_text(&chars_of(&text)), expected, "{text:?}");
    }
}
