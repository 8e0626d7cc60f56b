use traceviewer::cli::LogFormat;
use traceviewer::json::{quote_json, Json};
use traceviewer::model::{
    Level, LogEntry, MessagePart, Stream, TraceValue, TraceValueField,
};
use traceviewer::parser::ansi::strip_ansi_escape_sequences;
use traceviewer::parser::bunyan::{entry_from_json, parse_bunyan, parse_bunyan_level};
use traceviewer::parser::env_logger::parse_env_logger;
use traceviewer::parser::fields::{
    parse_tracing_field_sequence, split_tracing_message_fields, take_tracing_field_key,
    TracingFieldParser,
};
use traceviewer::parser::level::parse_level;
use traceviewer::parser::logfmt::{entry_from_fields, parse_logfmt, parse_logfmt_fields, take_logfmt_value};
use traceviewer::parser::nesting::{split_top_level, unquoted_value_has_top_level_whitespace};
use traceviewer::parser::parse_log_line;
use traceviewer::parser::spans::{
    extract_leading_spans, find_leading_span_separator, find_target_separator,
    is_part_of_path_separator, looks_like_span, parse_span_value_field,
    split_tracing_target_message, starts_with_bare_span_fragment, starts_with_span_fragment,
};
use traceviewer::parser::tracing::{parse_tracing, take_token};
use traceviewer::text::{chars_of, string_from};

fn line(format: LogFormat, stream: Stream, text: &str) -> LogEntry {
    parse_log_line(format, stream, text.to_string())
}

fn pieces(text: &str, separator: char) -> Vec<String> {
    let chars = chars_of(text);
    split_top_level(&chars, separator)
        .into_iter()
        .map(string_from)
        .collect()
}

#[test]
fn escape_sequences_are_stripped() {
    let cases = [
        ("plain", "plain"),
        ("\u{1b}[1;31mred\u{1b}[0m!", "red!"),
        ("\u{1b}]0;title\u{7}text", "text"),
        ("\u{1b}]8;;http://x\u{1b}\\link", "link"),
        ("\u{1b}(B", "(B"),
        ("a\u{1b}", "a"),
        ("a\u{1b}[31", "a"),
        ("a\u{1b}]open", "a"),
        ("\u{1b}\u{1b}[0mx", "x"),
    ];
    for (text, expected) in cases {
        let stripped = strip_ansi_escape_sequences(text);
        assert_eq!(stripped, expected);
        assert_eq!(strip_ansi_escape_sequences(&stripped), stripped);
        assert!(!stripped.contains('\u{1b}'));
    }
}

#[test]
fn level_names_are_read_back_with_marks_and_in_any_case() {
    let levels = [
        Level::Trace,
        Level::Debug,
        Level::Info,
        Level::Warn,
        Level::Error,
    ];
    for level in levels {
        let name = level.label();
        for text in [
            name.to_string(),
            name.to_lowercase(),
            format!("[{name}]"),
            format!("{name}:"),
            format!("<{}>", name.to_lowercase()),
        ] {
            assert_eq!(parse_level(&chars_of(&text)), Some(level), "{text}");
        }
    }
    assert_eq!(parse_level(&chars_of("warning")), Some(Level::Warn));
    assert_eq!(parse_level(&chars_of("fatal")), None);
    assert_eq!(parse_level(&chars_of("IN FO")), None);
    assert_eq!(parse_level(&chars_of("123")), None);
    assert_eq!(parse_level(&chars_of("")), None);
}

#[test]
fn env_logger_headers_vary() {
    let entry = parse_env_logger("[INFO  target] message  ").expect("entry");
    assert_eq!(entry.timestamp, None);
    assert_eq!(entry.target.as_deref(), Some("target"));
    assert_eq!(entry.message, "message");
    assert_eq!(entry.raw, "[INFO  target] message");
    assert_eq!(entry.stream, Stream::Stdout);

    let entry = parse_env_logger("[2026-06-15 12:01:02 WARN a b]x").expect("entry");
    assert_eq!(entry.timestamp.as_deref(), Some("2026-06-15 12:01:02"));
    assert_eq!(entry.level, Level::Warn);
    assert_eq!(entry.target.as_deref(), Some("a b"));
    assert_eq!(entry.message, "x");

    let entry = parse_env_logger("[now ERROR]").expect("entry");
    assert_eq!(entry.target, None);
    assert_eq!(entry.message, "");

    assert!(parse_env_logger("[INFO] message").is_none());
    assert!(parse_env_logger("[a b] message").is_none());
    assert!(parse_env_logger("[now INFO target message").is_none());
    assert!(parse_env_logger("INFO target: message").is_none());
    assert!(parse_env_logger("").is_none());
}

#[test]
fn written_env_logger_lines_are_read_back() {
    for (level, shown) in [(Level::Info, "INFO "), (Level::Error, "ERROR")] {
        let text = format!("[2026-06-15T12:01:02Z {shown} my_crate] it works: yes");
        let entry = parse_env_logger(&text).expect("entry");
        assert_eq!(entry.raw, text);
        assert_eq!(entry.timestamp.as_deref(), Some("2026-06-15T12:01:02Z"));
        assert_eq!(entry.level, level);
        assert_eq!(entry.target.as_deref(), Some("my_crate"));
        assert_eq!(entry.message, "it works: yes");
        assert!(entry.message_parts.is_empty());
    }
}

#[test]
fn written_tracing_lines_are_read_back() {
    for (level, shown) in [(Level::Info, " INFO"), (Level::Error, "ERROR")] {
        let text = format!("2026-06-15T12:01:02Z {shown} my_crate::worker: all is well");
        let entry = parse_tracing(&text).expect("entry");
        assert_eq!(entry.raw, text);
        assert_eq!(entry.timestamp.as_deref(), Some("2026-06-15T12:01:02Z"));
        assert_eq!(entry.level, level);
        assert_eq!(entry.target.as_deref(), Some("my_crate::worker"));
        assert_eq!(entry.message, "all is well");
        assert!(entry.spans.is_empty());
        assert!(entry.values.is_empty());
    }
}

#[test]
fn tracing_lines_need_a_level_and_more() {
    assert!(parse_tracing("INFO").is_none());
    assert!(parse_tracing("no level here").is_none());
    assert!(parse_tracing("").is_none());
    assert!(parse_tracing("now then INFO x: y").is_none());
    let entry = parse_tracing("  warn text").expect("entry");
    assert_eq!(entry.level, Level::Warn);
    assert_eq!(entry.timestamp, None);
    assert_eq!(entry.target, None);
    assert_eq!(entry.message, "text");
    let entry = parse_tracing("INFO : no name").expect("entry");
    assert_eq!(entry.target, None);
    assert_eq!(entry.message, "no name");
}

#[test]
fn bare_names_before_a_bare_name_are_spans() {
    let rest = chars_of("outer: inner: svc: text");
    let (target, spans, message) = split_tracing_target_message(&rest);
    assert_eq!(spans, vec!["outer".to_string(), "inner".to_string()]);
    assert_eq!(target.as_deref(), Some("svc"));
    assert_eq!(message, "text");
}

#[test]
fn spans_are_told_from_paths() {
    let chars = chars_of("a::b: c");
    assert_eq!(find_leading_span_separator(&chars), Some(4));
    assert_eq!(find_target_separator(&chars), Some(4));
    assert!(is_part_of_path_separator(&chars, 1));
    assert!(is_part_of_path_separator(&chars, 2));
    assert!(!is_part_of_path_separator(&chars, 4));
    assert_eq!(find_leading_span_separator(&chars_of("{a: b}")), None);
    assert_eq!(find_target_separator(&chars_of("{a: b}: c")), Some(6));
    assert_eq!(find_target_separator(&chars_of("}a: b")), Some(2));
    assert_eq!(find_target_separator(&chars_of("http://x")), None);

    assert!(looks_like_span(&chars_of("s{a=1}"), &[], false));
    assert!(!looks_like_span(&chars_of("s{a=x::y}"), &[], false));
    assert!(!looks_like_span(&chars_of("s{a=1"), &[], false));
    assert!(!looks_like_span(&[], &chars_of("a: b"), true));
    assert!(looks_like_span(&chars_of("s"), &chars_of("t: x"), false));
    assert!(!looks_like_span(&chars_of("s"), &chars_of("t{a=1}: x"), false));
    assert!(looks_like_span(&chars_of("s"), &chars_of("t{a=1}: x"), true));
    assert!(starts_with_span_fragment(&chars_of("t{a=1}: x")));
    assert!(!starts_with_bare_span_fragment(&chars_of("t{a=1}: x")));
    assert!(!starts_with_span_fragment(&chars_of(": x")));
    assert!(starts_with_bare_span_fragment(&chars_of(": x")));
}

#[test]
fn leading_spans_leave_the_end_of_the_text() {
    let text = chars_of("a{x=1}: b{y=2}:  rest of it");
    let (spans, rest) = extract_leading_spans(&text);
    assert_eq!(spans, vec!["a{x=1}".to_string(), "b{y=2}".to_string()]);
    assert_eq!(string_from(rest), "rest of it");
}

#[test]
fn span_fields_are_read_one_by_one() {
    let field = parse_span_value_field(&chars_of(" id : 7 ")).expect("field");
    assert_eq!(
        field,
        TraceValueField::new("id", TraceValue::Number("7".to_string()))
    );
    assert!(parse_span_value_field(&chars_of("id")).is_none());
    assert!(parse_span_value_field(&chars_of("id=")).is_none());
    assert!(parse_span_value_field(&chars_of("=7")).is_none());
}

#[test]
fn top_level_cuts_respect_brackets_and_quotes() {
    assert_eq!(pieces("a=1, b=[2, 3], c=\"x, y\"", ','), ["a=1", "b=[2, 3]", "c=\"x, y\""]);
    assert_eq!(pieces("", ','), [""]);
    assert_eq!(pieces("a,,b", ','), ["a", "", "b"]);
    assert_eq!(pieces("\"a\\\", b\", c", ','), ["\"a\\\", b\"", "c"]);
    assert_eq!(pieces("), a, (b, c", ','), [")", "a", "(b, c"]);
    assert!(unquoted_value_has_top_level_whitespace(&chars_of("a b")));
    assert!(!unquoted_value_has_top_level_whitespace(&chars_of("[a b]")));
    assert!(!unquoted_value_has_top_level_whitespace(&chars_of("\"a\" b")));
}

#[test]
fn field_sequences_make_up_all_of_their_text() {
    let fields = parse_tracing_field_sequence(&chars_of("a=1 b=two words c=3")).expect("fields");
    let keys: Vec<_> = fields.iter().map(|field| field.key.as_str()).collect();
    assert_eq!(keys, ["a", "b", "c"]);
    assert_eq!(fields[1].value, TraceValue::Other("two words".to_string()));
    assert!(parse_tracing_field_sequence(&chars_of("a=1 b=two words")).is_none());
    assert!(parse_tracing_field_sequence(&chars_of("a=")).is_none());
    assert!(parse_tracing_field_sequence(&chars_of("a=\"open")).is_none());
    assert!(parse_tracing_field_sequence(&chars_of("1a=1")).is_none());
    assert!(parse_tracing_field_sequence(&[]).is_none());
    let key = chars_of("a.b-c=1");
    let (name, rest) = take_tracing_field_key(&key).expect("key");
    assert_eq!(string_from(name), "a.b-c");
    assert_eq!(string_from(rest), "1");
}

#[test]
fn steps_are_counted() {
    let text = chars_of("a=1 b=2");
    let mut few = TracingFieldParser { budget: 2 };
    assert!(few.parse_sequence(&text).is_none());
    assert!(few.exhausted());
    let mut enough = TracingFieldParser::new();
    let found = enough.parse_sequence(&text);
    let spent = 1024 - enough.budget;
    let mut exact = TracingFieldParser { budget: spent };
    assert_eq!(exact.parse_sequence(&text), found);
    assert!(exact.exhausted());
    assert_eq!(exact.consume_step(), None);
    let mut more = TracingFieldParser { budget: spent + 5 };
    assert_eq!(more.parse_sequence(&text), found);
    assert_eq!(more.budget, 5);
}

#[test]
fn messages_without_equals_signs_have_no_fields() {
    assert!(split_tracing_message_fields(&chars_of("nothing to see")).is_none());
    let (text, fields) = split_tracing_message_fields(&chars_of("took  ms=5")).expect("fields");
    assert_eq!(text, "took");
    assert_eq!(fields.len(), 1);
}

#[test]
fn written_logfmt_lines_are_read_back() {
    let fields = parse_logfmt_fields(&chars_of(
        r#"a=word b="two words" c="a \"quote\" and a \\" d="line\nbreak\ttab\rreturn" e= f=7"#,
    ))
    .expect("fields");
    assert_eq!(
        fields,
        vec![
            TraceValueField::new("a", TraceValue::Other("word".to_string())),
            TraceValueField::new("b", TraceValue::String("two words".to_string())),
            TraceValueField::new("c", TraceValue::String("a \"quote\" and a \\".to_string())),
            TraceValueField::new("d", TraceValue::String("line\nbreak\ttab\rreturn".to_string())),
            TraceValueField::new("e", TraceValue::Other(String::new())),
            TraceValueField::new("f", TraceValue::Number("7".to_string())),
        ]
    );
    assert!(parse_logfmt_fields(&chars_of("word")).is_none());
    assert!(parse_logfmt_fields(&chars_of("=x")).is_none());
    assert!(parse_logfmt_fields(&chars_of("a b=c")).is_none());
    assert!(parse_logfmt_fields(&chars_of("a=\"open")).is_none());
    assert!(parse_logfmt_fields(&[]).expect("no fields").is_empty());
}

#[test]
fn quoted_logfmt_values_become_json() {
    let input = chars_of("\"say \\\"hi\\\"\" rest");
    let (value, rest) = take_logfmt_value(&input).expect("value");
    assert_eq!(value, r#""say \"hi\"""#);
    assert_eq!(string_from(rest), " rest");
}

#[test]
fn logfmt_core_fields_are_not_repeated() {
    let entry = parse_logfmt(
        "ts=1 lvl=debug logger=db message=done module=x rows=3",
        Stream::Stderr,
    )
    .expect("entry");
    assert_eq!(entry.timestamp.as_deref(), Some("1"));
    assert_eq!(entry.level, Level::Debug);
    assert_eq!(entry.target.as_deref(), Some("db"));
    assert_eq!(entry.message, "done (rows=3)");
    assert_eq!(entry.stream, Stream::Stderr);
    assert!(parse_logfmt("", Stream::Stdout).is_none());
    let entry = parse_logfmt("level=loud", Stream::Stdout).expect("entry");
    assert_eq!(entry.level, Level::Unknown);
    assert!(entry.message_parts.is_empty());
}

#[test]
fn tokens_are_taken_from_the_start() {
    let chars = chars_of("  one two  three");
    let (word, rest) = take_token(&chars).expect("token");
    assert_eq!(string_from(word), "one");
    assert_eq!(string_from(rest), "two  three");
    assert!(take_token(&chars_of("one")).is_none());
}

#[test]
fn records_need_a_level_and_a_message() {
    for text in [
        r#"{"msg":"no level"}"#,
        r#"{"level":30}"#,
        r#"{"level":35,"msg":"between levels"}"#,
        r#"{"level":30.0,"msg":"no integer"}"#,
        r#"{"level":null,"msg":"null"}"#,
        r#"{"level":30,"msg":7}"#,
        r#"["level",30]"#,
        "30",
        "{",
        "",
    ] {
        assert!(parse_bunyan(text, Stream::Stdout).is_none(), "{text}");
    }
    let entry = parse_bunyan("{\"level\":50,\"msg\":\"\",\"time\":5} ", Stream::Stderr);
    let entry = entry.expect("entry");
    assert_eq!(entry.raw, "{\"level\":50,\"msg\":\"\",\"time\":5}");
    assert_eq!(entry.timestamp, None);
    assert_eq!(entry.message, "");
    assert_eq!(entry.stream, Stream::Stderr);
}

#[test]
fn records_are_made_of_parsed_json() {
    let fields = vec![
        ("level".to_string(), Json::Number("40".to_string(), Some(40))),
        ("msg".to_string(), Json::Text("hi".to_string())),
        ("pid".to_string(), Json::Number("7".to_string(), Some(7))),
        ("ok".to_string(), Json::Bool(true)),
    ];
    let entry = entry_from_json("raw", Some(Json::Object(fields)), Stream::Stdout).expect("entry");
    assert_eq!(entry.raw, "raw");
    assert_eq!(entry.level, Level::Warn);
    assert_eq!(entry.message, "hi (ok=true)");
    assert_eq!(
        entry.message_parts,
        vec![
            MessagePart::text("hi"),
            MessagePart::fields(vec![TraceValueField::new("ok", TraceValue::Bool(true))]),
        ]
    );
    assert!(entry_from_json("raw", None, Stream::Stdout).is_none());
    assert_eq!(parse_bunyan_level(&Json::Text("Info".to_string())), Some(Level::Info));
    assert_eq!(parse_bunyan_level(&Json::Number("1e1".to_string(), None)), None);
}

#[test]
fn json_strings_are_quoted_and_read_back() {
    for (text, quoted) in [
        ("", r#""""#),
        ("plain", r#""plain""#),
        ("a \"b\" \\ c", r#""a \"b\" \\ c""#),
        ("\n\r\t\u{8}\u{c}\u{1}\u{7f}é", "\"\\n\\r\\t\\b\\f\\u0001\u{7f}é\""),
    ] {
        assert_eq!(quote_json(text), quoted);
        assert_eq!(
            TraceValue::from_tracing_text(quoted),
            TraceValue::String(text.to_string())
        );
    }
}

#[test]
fn texts_are_values() {
    assert_eq!(
        TraceValue::from_text("x", None),
        TraceValue::Other("x".to_string())
    );
    assert_eq!(
        TraceValue::from_text("1e5", None),
        TraceValue::Number("1e5".to_string())
    );
    assert_eq!(
        TraceValue::from_text("x", Some(Json::Null)),
        TraceValue::Null
    );
    assert_eq!(TraceValue::from_tracing_text("null"), TraceValue::Null);
    assert_eq!(
        TraceValue::from_tracing_text("[1,{\"a\":[]}]").render_text(),
        "[1,{\"a\":[]}]"
    );
    assert_eq!(
        TraceValue::from_tracing_text("1.50"),
        TraceValue::Number("1.5".to_string())
    );
    assert_eq!(
        TraceValue::from_tracing_text("01"),
        TraceValue::Number("01".to_string())
    );
}

#[test]
fn objects_keep_the_order_of_their_keys() {
    let value = TraceValue::from_tracing_text("{\"b\":1,\"a\":2}");
    assert_eq!(value.render_text(), "{\"b\":1,\"a\":2}");
}

#[test]
fn unparsed_lines_are_kept_as_they_are() {
    for format in [
        LogFormat::Auto,
        LogFormat::Bunyan,
        LogFormat::Plain,
        LogFormat::EnvLogger,
        LogFormat::Logfmt,
        LogFormat::Tracing,
    ] {
        let entry = line(format, Stream::Stderr, " just some text \t");
        assert!(!entry.parsed);
        assert_eq!(entry.message, " just some text \t");
        assert_eq!(entry.raw, " just some text \t");
        assert_eq!(entry.level, Level::Warn);
        assert_eq!(entry.stream, Stream::Stderr);
    }
    let entry = line(LogFormat::Plain, Stream::Stdout, "INFO svc: text");
    assert!(!entry.parsed);
    assert_eq!(entry.level, Level::Unknown);
}

#[test]
fn detection_goes_by_the_format_that_fits() {
    let auto = |text: &str| line(LogFormat::Auto, Stream::Stdout, text);
    let record = r#"{"level":30,"msg":"x"}"#;
    assert_eq!(auto(record), line(LogFormat::Bunyan, Stream::Stdout, record));
    let tracing = "INFO level=info msg=x";
    assert_eq!(auto(tracing), line(LogFormat::Tracing, Stream::Stdout, tracing));
    let logfmt = "level=info msg=x";
    assert_eq!(auto(logfmt), line(LogFormat::Logfmt, Stream::Stdout, logfmt));
    let env_logger = "[now INFO svc] x";
    assert_eq!(auto(env_logger), line(LogFormat::EnvLogger, Stream::Stdout, env_logger));
    let bracketed = "[a=1 b=2 info=3]";
    assert_eq!(auto(bracketed), line(LogFormat::Logfmt, Stream::Stdout, bracketed));
    let without_time = "[INFO svc] x";
    assert_eq!(auto(without_time).target.as_deref(), Some("svc"));
    let long_time = "[2026-06-15 12:01:02 INFO svc] x";
    assert_eq!(auto(long_time), line(LogFormat::EnvLogger, Stream::Stdout, long_time));
}

#[test]
fn entries_are_made_of_logfmt_fields() {
    let fields = vec![
        TraceValueField::new("lvl", TraceValue::Other("warn".to_string())),
        TraceValueField::new("message", TraceValue::String("hi".to_string())),
        TraceValueField::new("n", TraceValue::Number("1".to_string())),
    ];
    let entry = entry_from_fields(&chars_of("raw"), &fields, Stream::Stderr);
    assert_eq!(entry.raw, "raw");
    assert_eq!(entry.level, Level::Warn);
    assert_eq!(entry.message, "hi (n=1)");
    assert_eq!(entry.target, None);
    assert_eq!(entry.stream, Stream::Stderr);
}
