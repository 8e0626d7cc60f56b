use traceviewer::cli::LogFormat;
use traceviewer::model::{
    Level, MessagePart, Stream, TraceValue, TraceValueField, TraceValueSection,
};
use traceviewer::parser::bunyan::parse_bunyan;
use traceviewer::parser::env_logger::parse_env_logger;
use traceviewer::parser::logfmt::parse_logfmt;
use traceviewer::parser::parse_log_line;
use traceviewer::parser::tracing::parse_tracing;

#[test]
fn parses_env_logger_default_shape() {
    let entry =
        parse_env_logger("[2026-06-15T12:01:02Z INFO  my_crate::worker] finished job 42")
            .expect("entry");

    assert_eq!(entry.level, Level::Info);
    assert!(entry.parsed);
    assert_eq!(entry.timestamp.as_deref(), Some("2026-06-15T12:01:02Z"));
    assert_eq!(entry.target.as_deref(), Some("my_crate::worker"));
    assert_eq!(entry.message, "finished job 42");
}

#[test]
fn parses_logfmt_default_shape() {
    let entry = parse_logfmt(
        r#"time=2026-06-15T12:01:02Z level=info target=my_crate::worker msg="loaded user" user=alice count=7 ok=true"#,
        Stream::Stdout,
    )
    .expect("entry");

    assert_eq!(entry.level, Level::Info);
    assert!(entry.parsed);
    assert_eq!(entry.timestamp.as_deref(), Some("2026-06-15T12:01:02Z"));
    assert_eq!(entry.target.as_deref(), Some("my_crate::worker"));
    assert_eq!(entry.message, r#"loaded user (user=alice count=7 ok=true)"#);
    assert_eq!(
        entry.message_parts,
        vec![
            MessagePart::text("loaded user"),
            MessagePart::fields(vec![
                TraceValueField::new("user", TraceValue::Other("alice".to_string())),
                TraceValueField::new("count", TraceValue::Number("7".to_string())),
                TraceValueField::new("ok", TraceValue::Bool(true)),
            ]),
        ]
    );
    assert_eq!(
        entry.values,
        vec![TraceValueSection::new(
            "event",
            vec![
                TraceValueField::new("user", TraceValue::Other("alice".to_string())),
                TraceValueField::new("count", TraceValue::Number("7".to_string())),
                TraceValueField::new("ok", TraceValue::Bool(true)),
            ]
        )]
    );
}

#[test]
fn parses_logfmt_quoted_escapes() {
    let entry = parse_logfmt(
        r#"level=warn msg="retry \"soon\"" path="/api widgets""#,
        Stream::Stderr,
    )
    .expect("entry");

    assert_eq!(entry.level, Level::Warn);
    assert_eq!(entry.stream, Stream::Stderr);
    assert_eq!(entry.message, r#"retry "soon" (path="/api widgets")"#);
}

#[test]
fn parses_logfmt_empty_values_without_spinning() {
    let entry =
        parse_logfmt(r#"level=info msg= user_id=42 empty="#, Stream::Stdout).expect("entry");

    assert_eq!(entry.level, Level::Info);
    assert_eq!(entry.message, r#"(user_id=42 empty=)"#);
    assert_eq!(
        entry.values,
        vec![TraceValueSection::new(
            "event",
            vec![
                TraceValueField::new("user_id", TraceValue::Number("42".to_string())),
                TraceValueField::new("empty", TraceValue::Other(String::new())),
            ]
        )]
    );
}

#[test]
fn invalid_logfmt_falls_back_to_unparsed_entry() {
    let entry = parse_log_line(
        LogFormat::Logfmt,
        Stream::Stdout,
        "not a logfmt line".to_string(),
    );

    assert!(!entry.parsed);
    assert_eq!(entry.message, "not a logfmt line");
}

#[test]
fn auto_detects_logfmt() {
    let entry = parse_log_line(
        LogFormat::Auto,
        Stream::Stdout,
        r#"level=info msg="hello" count=2"#.to_string(),
    );

    assert!(entry.parsed);
    assert_eq!(entry.level, Level::Info);
    assert_eq!(entry.message, "hello (count=2)");
}

#[test]
fn parses_tracing_default_shape() {
    let entry =
        parse_tracing("2026-06-15T12:01:02.123456Z  WARN my_crate::worker: retrying request")
            .expect("entry");

    assert_eq!(entry.level, Level::Warn);
    assert_eq!(
        entry.timestamp.as_deref(),
        Some("2026-06-15T12:01:02.123456Z")
    );
    assert_eq!(entry.target.as_deref(), Some("my_crate::worker"));
    assert_eq!(entry.message, "retrying request");
}

#[test]
fn parses_tracing_line_at_default_max_line_bytes() {
    const DEFAULT_MAX_LINE_BYTES: usize = 65_536;

    let prefix = "2026-06-15T12:01:02Z INFO svc: ";
    let message = "x".repeat(DEFAULT_MAX_LINE_BYTES - prefix.len());
    let line = format!("{prefix}{message}");

    let entry = parse_log_line(LogFormat::Tracing, Stream::Stdout, line);

    assert_eq!(entry.raw.len(), DEFAULT_MAX_LINE_BYTES);
    assert!(entry.parsed);
    assert_eq!(entry.level, Level::Info);
    assert_eq!(entry.target.as_deref(), Some("svc"));
    assert_eq!(entry.message, message);
}

#[test]
fn tracing_field_parser_handles_default_sized_malformed_field_run() {
    const DEFAULT_MAX_LINE_BYTES: usize = 65_536;

    let prefix = "2026-06-15T12:01:02Z INFO svc: key=";
    let mut message = "x ".repeat((DEFAULT_MAX_LINE_BYTES - prefix.len()) / 2);
    message.push_str(&"x".repeat(DEFAULT_MAX_LINE_BYTES - prefix.len() - message.len()));
    let line = format!("{prefix}{message}");

    let entry = parse_log_line(LogFormat::Tracing, Stream::Stdout, line);

    assert_eq!(entry.raw.len(), DEFAULT_MAX_LINE_BYTES);
    assert!(entry.parsed);
    assert_eq!(entry.level, Level::Info);
    assert_eq!(entry.target.as_deref(), Some("svc"));
    assert_eq!(entry.message, format!("key={message}"));
    assert!(entry.values.is_empty());
}

#[test]
fn tracing_field_parser_handles_default_sized_truncated_struct_list() {
    const DEFAULT_MAX_LINE_BYTES: usize = 65_536;

    let prefix = "2026-06-19T07:13:35Z TRACE svc: result=[";
    let item = r#"RankedSbom { matched_sbom_id: 019bbe7c-c5b7-75d3-b1ae-135527636ed3, matched_name: "requests", top_ancestor_sbom: 00000000-0000-0000-0000-000000000000, cpe_id: 0bdc06dc-647c-57ef-8060-5d824fb5a656, sbom_date: 2025-12-15T10:41:21+00:00, rank: Some(107) }, "#;
    let mut message = item.repeat((DEFAULT_MAX_LINE_BYTES - prefix.len()) / item.len());
    message.push_str(&item[..DEFAULT_MAX_LINE_BYTES - prefix.len() - message.len()]);
    let line = format!("{prefix}{message}");

    let entry = parse_log_line(LogFormat::Tracing, Stream::Stdout, line);

    assert_eq!(entry.raw.len(), DEFAULT_MAX_LINE_BYTES);
    assert!(entry.parsed);
    assert_eq!(entry.level, Level::Trace);
    assert_eq!(entry.target.as_deref(), Some("svc"));
    assert_eq!(entry.message, format!("(result=[{message})"));
    assert_eq!(entry.values.len(), 1);
}

#[test]
fn extracts_tracing_span_hierarchy_before_message() {
    let entry = parse_tracing(
        "2026-06-15T12:01:02Z  INFO svc: request{id=7}: db{query=\"select:1\"}: loaded user",
    )
    .expect("entry");

    assert_eq!(entry.target.as_deref(), Some("svc"));
    assert_eq!(
        entry.spans,
        vec![
            "request{id=7}".to_string(),
            "db{query=\"select:1\"}".to_string()
        ]
    );
    assert_eq!(entry.message, "loaded user");
}

#[test]
fn tracing_message_keeps_url_and_port_out_of_target() {
    let entry = parse_tracing(
        "2026-06-15T15:10:27.558965Z INFO  trustify_infrastructure::infra:    http://[::1]: 9010",
    )
    .expect("entry");

    assert_eq!(
        entry.timestamp.as_deref(),
        Some("2026-06-15T15:10:27.558965Z")
    );
    assert_eq!(entry.level, Level::Info);
    assert_eq!(
        entry.target.as_deref(),
        Some("trustify_infrastructure::infra")
    );
    assert!(entry.spans.is_empty());
    assert_eq!(entry.message, "http://[::1]: 9010");
}

#[test]
fn extracts_tracing_spans_before_target() {
    let entry = parse_tracing(
        "2026-06-15T15:23:12.684277Z DEBUG retrieve_latest{query=Query { q: \"purl=pkg:maven/maven-xml-impl@4.0.0-alpha-5\", sort: \"\" } options=QueryOptions { ancestors: 0, descendants: 0, relationships: {} } paginated=Paginated { offset: 0, limit: 25 }}:load_latest_graphs_query{query=Query(Query { q: \"purl=pkg:maven/maven-xml-impl@4.0.0-alpha-5\", sort: \"\" })}: trustify_module_analysis::service::load: SBOM IDs to evaluate: 76",
    )
    .expect("entry");

    assert_eq!(entry.level, Level::Debug);
    assert_eq!(
        entry.target.as_deref(),
        Some("trustify_module_analysis::service::load")
    );
    assert_eq!(entry.spans.len(), 2);
    assert!(entry.spans[0].starts_with("retrieve_latest{query=Query"));
    assert!(entry.spans[1].starts_with("load_latest_graphs_query{query=Query"));
    assert_eq!(entry.message, "SBOM IDs to evaluate: 76");
}

#[test]
fn extracts_bare_and_field_spans_before_target() {
    let entry = parse_tracing(
        "2026-06-15T15:35:27.706127Z TRACE load_graphs:load_graphs_inner:load_graph{distinct_sbom_id=019b9370-0a9d-7231-825b-3f6f3b80555a}:perform_load_graph{distinct_sbom_id=019b9370-0a9d-7231-825b-3f6f3b80555a}: retrieve_latest{query=Query { q: \"purl=pkg:maven/maven-xml-impl@4.0.0-alpha-5\", sort: \"\" }}: load_latest_graphs_query{query=Query(Query { q: \"purl=pkg:maven/maven-xml-impl@4.0.0-alpha-5\", sort: \"\" })}: trustify_module_analysis::service::load: Inserting - id: pkg:maven/org.wildfly.security/wildfly-elytron-x500-cert-util@2.6.3.Final-redhat-00001?type=jar, index: NodeIndex(1390)",
    )
    .expect("entry");

    assert_eq!(
        entry.spans,
        vec![
            "load_graphs".to_string(),
            "load_graphs_inner".to_string(),
            "load_graph{distinct_sbom_id=019b9370-0a9d-7231-825b-3f6f3b80555a}".to_string(),
            "perform_load_graph{distinct_sbom_id=019b9370-0a9d-7231-825b-3f6f3b80555a}".to_string(),
            "retrieve_latest{query=Query { q: \"purl=pkg:maven/maven-xml-impl@4.0.0-alpha-5\", sort: \"\" }}".to_string(),
            "load_latest_graphs_query{query=Query(Query { q: \"purl=pkg:maven/maven-xml-impl@4.0.0-alpha-5\", sort: \"\" })}".to_string(),
        ]
    );
    assert_eq!(
        entry.target.as_deref(),
        Some("trustify_module_analysis::service::load")
    );
    assert_eq!(
        entry.message,
        "Inserting - id: pkg:maven/org.wildfly.security/wildfly-elytron-x500-cert-util@2.6.3.Final-redhat-00001?type=jar, index: NodeIndex(1390)"
    );
}

#[test]
fn parses_tracing_fmt_documented_examples() {
    let cases: [(&str, Level, &[&str], &str, &str); 5] = [
        (
            "2022-02-15T18:40:14.289898Z  INFO fmt: preparing to shave yaks number_of_yaks=3",
            Level::Info,
            &[],
            "fmt",
            "preparing to shave yaks (number_of_yaks=3)",
        ),
        (
            "2022-02-15T18:40:14.289974Z  INFO shaving_yaks{yaks=3}: fmt::yak_shave: shaving yaks",
            Level::Info,
            &["shaving_yaks{yaks=3}"],
            "fmt::yak_shave",
            "shaving yaks",
        ),
        (
            "2022-02-15T18:40:14.290011Z TRACE shaving_yaks{yaks=3}:shave{yak=1}: fmt::yak_shave: hello! I'm gonna shave a yak excitement=\"yay!\"",
            Level::Trace,
            &["shaving_yaks{yaks=3}", "shave{yak=1}"],
            "fmt::yak_shave",
            "hello! I'm gonna shave a yak (excitement=\"yay!\")",
        ),
        (
            "2022-02-15T18:40:14.290157Z DEBUG shaving_yaks{yaks=3}: yak_events: yak=3 shaved=false",
            Level::Debug,
            &["shaving_yaks{yaks=3}"],
            "yak_events",
            "(yak=3 shaved=false)",
        ),
        (
            "2022-02-15T18:40:14.290268Z ERROR shaving_yaks{yaks=3}: fmt::yak_shave: failed to shave yak yak=3 error=missing yak error.sources=[out of space, out of cash]",
            Level::Error,
            &["shaving_yaks{yaks=3}"],
            "fmt::yak_shave",
            "failed to shave yak (yak=3 error=missing yak error.sources=[out of space, out of cash])",
        ),
    ];

    for (line, level, spans, target, message) in cases {
        let entry = parse_tracing(line).expect(line);

        assert_eq!(entry.level, level);
        assert_eq!(entry.spans, spans);
        assert_eq!(entry.target.as_deref(), Some(target));
        assert_eq!(entry.message, message);
    }
}

#[test]
fn parses_tracing_message_fields_as_structured_parts() {
    let entry = parse_tracing(
        "2026-06-15T12:01:02Z INFO svc: loaded user id=7 ok=true tag=\"admin\" error.sources=[out of space, out of cash]",
    )
    .expect("entry");

    assert_eq!(
        entry.message,
        r#"loaded user (id=7 ok=true tag="admin" error.sources=[out of space, out of cash])"#
    );
    assert_eq!(
        entry.message_parts,
        vec![
            MessagePart::text("loaded user"),
            MessagePart::fields(vec![
                TraceValueField::new("id", TraceValue::Number("7".to_string())),
                TraceValueField::new("ok", TraceValue::Bool(true)),
                TraceValueField::new("tag", TraceValue::String("admin".to_string())),
                TraceValueField::new(
                    "error.sources",
                    TraceValue::Other("[out of space, out of cash]".to_string())
                ),
            ]),
        ]
    );
    assert_eq!(
        entry.values,
        vec![TraceValueSection::new(
            "event",
            vec![
                TraceValueField::new("id", TraceValue::Number("7".to_string())),
                TraceValueField::new("ok", TraceValue::Bool(true)),
                TraceValueField::new("tag", TraceValue::String("admin".to_string())),
                TraceValueField::new(
                    "error.sources",
                    TraceValue::Other("[out of space, out of cash]".to_string())
                ),
            ]
        )]
    );
}

#[test]
fn parses_tracing_span_fields_as_values() {
    let entry =
        parse_tracing("2026-06-15T12:01:02Z INFO request{id=7, ok=true}: svc: loaded user")
            .expect("entry");

    assert_eq!(
        entry.values,
        vec![TraceValueSection::new(
            "scope: request",
            vec![
                TraceValueField::new("id", TraceValue::Number("7".to_string())),
                TraceValueField::new("ok", TraceValue::Bool(true)),
            ]
        )]
    );
}

#[test]
fn parses_whitespace_separated_tracing_span_fields_as_separate_values() {
    let entry =
        parse_tracing("2026-06-15T12:01:02Z INFO request{id=7 ok=true}: svc: loaded user")
            .expect("entry");

    assert_eq!(
        entry.values,
        vec![TraceValueSection::new(
            "scope: request",
            vec![
                TraceValueField::new("id", TraceValue::Number("7".to_string())),
                TraceValueField::new("ok", TraceValue::Bool(true)),
            ]
        )]
    );
}

#[test]
fn tracing_field_parser_gives_up_on_long_malformed_field_runs() {
    let fields = (0..2_000)
        .map(|idx| format!("field{idx}="))
        .collect::<Vec<_>>()
        .join(" ");
    let line = format!("2026-06-15T12:01:02Z INFO svc: {fields}");
    let entry = parse_tracing(&line).expect("entry");

    assert_eq!(entry.level, Level::Info);
    assert_eq!(entry.message, fields);
    assert!(entry.values.is_empty());
}

#[test]
fn tracing_field_parser_keeps_equals_in_message_text() {
    let entry = parse_tracing("2026-06-15T12:01:02Z INFO svc: user typed mode=debug yesterday")
        .expect("entry");

    assert_eq!(entry.message, "user typed mode=debug yesterday");
    assert_eq!(
        entry.message_parts,
        vec![MessagePart::text("user typed mode=debug yesterday")]
    );
}

#[test]
fn parses_bunyan_default_shape() {
    let entry = parse_bunyan(
        r#"{"name":"myapp","hostname":"banana.local","pid":40161,"level":30,"msg":"hi","time":"2013-01-04T18:46:23.851Z","v":0}"#,
        Stream::Stdout,
    )
    .expect("entry");

    assert_eq!(entry.level, Level::Info);
    assert!(entry.parsed);
    assert_eq!(entry.timestamp.as_deref(), Some("2013-01-04T18:46:23.851Z"));
    assert_eq!(entry.target.as_deref(), Some("myapp"));
    assert_eq!(entry.message, "hi");
    assert_eq!(entry.stream, Stream::Stdout);
    assert_eq!(entry.message_parts, vec![MessagePart::text("hi")]);
}

#[test]
fn parses_bunyan_extra_fields_as_structured_message_parts() {
    let entry = parse_bunyan(
        r#"{"name":"myapp","hostname":"banana.local","pid":40161,"level":40,"lang":"fr","ok":true,"count":7,"msg":"au revoir","time":"2013-01-04T18:46:23.853Z","v":0}"#,
        Stream::Stderr,
    )
    .expect("entry");

    assert_eq!(entry.level, Level::Warn);
    assert_eq!(entry.stream, Stream::Stderr);
    assert_eq!(entry.message, r#"au revoir (lang="fr" ok=true count=7)"#);
    assert_eq!(
        entry.message_parts,
        vec![
            MessagePart::text("au revoir"),
            MessagePart::fields(vec![
                TraceValueField::new("lang", TraceValue::String("fr".to_string())),
                TraceValueField::new("ok", TraceValue::Bool(true)),
                TraceValueField::new("count", TraceValue::Number("7".to_string())),
            ]),
        ]
    );
}

#[test]
fn parses_bunyan_nested_extra_fields_compactly() {
    let entry = parse_bunyan(
        r#"{"name":"myapp","level":30,"msg":"request","req":{"method":"GET","status":200},"tags":["api",null,false],"v":0}"#,
        Stream::Stdout,
    )
    .expect("entry");

    assert_eq!(
        entry.message,
        r#"request (req={"method":"GET","status":200} tags=["api",null,false])"#
    );
    assert_eq!(
        entry.message_parts,
        vec![
            MessagePart::text("request"),
            MessagePart::fields(vec![
                TraceValueField::new(
                    "req",
                    TraceValue::Object(vec![
                        ("method".to_string(), TraceValue::String("GET".to_string())),
                        ("status".to_string(), TraceValue::Number("200".to_string())),
                    ])
                ),
                TraceValueField::new(
                    "tags",
                    TraceValue::Array(vec![
                        TraceValue::String("api".to_string()),
                        TraceValue::Null,
                        TraceValue::Bool(false),
                    ])
                ),
            ]),
        ]
    );
}

#[test]
fn maps_bunyan_numeric_levels() {
    let cases = [
        (10, Level::Trace),
        (20, Level::Debug),
        (30, Level::Info),
        (40, Level::Warn),
        (50, Level::Error),
        (60, Level::Error),
    ];

    for (bunyan_level, level) in cases {
        let entry = parse_bunyan(
            &format!(r#"{{"level":{bunyan_level},"msg":"level test"}}"#),
            Stream::Stdout,
        )
        .expect("entry");

        assert_eq!(entry.level, level);
    }
}

#[test]
fn parses_bunyan_string_level() {
    let entry =
        parse_bunyan(r#"{"level":"warn","msg":"careful"}"#, Stream::Stdout).expect("entry");

    assert_eq!(entry.level, Level::Warn);
}

#[test]
fn auto_detects_bunyan_before_text_formats() {
    let entry = parse_log_line(
        LogFormat::Auto,
        Stream::Stdout,
        r#"{"level":30,"msg":"INFO my_crate: hello"}"#.to_string(),
    );

    assert!(entry.parsed);
    assert_eq!(entry.level, Level::Info);
    assert_eq!(entry.message, "INFO my_crate: hello");
    assert!(entry.target.is_none());
}

#[test]
fn invalid_bunyan_falls_back_to_unparsed_entry() {
    let entry = parse_log_line(
        LogFormat::Bunyan,
        Stream::Stdout,
        r#"{"level":30,"message":"missing msg"}"#.to_string(),
    );

    assert!(!entry.parsed);
    assert_eq!(entry.level, Level::Unknown);
    assert_eq!(entry.message, r#"{"level":30,"message":"missing msg"}"#);
}

#[test]
fn plain_fallback_keeps_original_line() {
    let entry = parse_log_line(LogFormat::Auto, Stream::Stdout, "hello there".to_string());

    assert_eq!(entry.level, Level::Unknown);
    assert!(!entry.parsed);
    assert_eq!(entry.message, "hello there");
}

#[test]
fn strips_ansi_sequences_before_rendering() {
    let entry = parse_log_line(
        LogFormat::Auto,
        Stream::Stdout,
        "\u{1b}[32mINFO\u{1b}[0m my_crate: \u{1b}[31mhello\u{1b}[0m".to_string(),
    );

    assert_eq!(entry.level, Level::Info);
    assert_eq!(entry.target.as_deref(), Some("my_crate"));
    assert_eq!(entry.message, "hello");
}

#[test]
fn strips_ansi_sequences_before_bunyan_parsing() {
    let entry = parse_log_line(
        LogFormat::Bunyan,
        Stream::Stdout,
        "\u{1b}[32m{\"level\":30,\"msg\":\"hello\"}\u{1b}[0m".to_string(),
    );

    assert!(entry.parsed);
    assert_eq!(entry.level, Level::Info);
    assert_eq!(entry.message, "hello");
}
