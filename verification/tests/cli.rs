use std::path::PathBuf;

use clap::{value_parser, Arg, ArgMatches, Command};
use traceviewer::cli::{
    choose_source, default_max_line_bytes, limit_from_size, parse_byte_size, InputSource,
    SourceError, DEFAULT_MAX_LINE_BYTES,
};

/// A command line, split up.
struct Cli {
    max_line_bytes: usize,
    source: InputSource<PathBuf>,
}

fn matches_of(args: &[&str]) -> Result<ArgMatches, String> {
    Command::new("tv")
        .arg(
            Arg::new("max_line_bytes")
                .long("max-line-bytes")
                .default_value(DEFAULT_MAX_LINE_BYTES)
                .value_parser(parse_byte_size),
        )
        .arg(Arg::new("file").long("file").short('i'))
        .arg(Arg::new("command").num_args(1..).trailing_var_arg(true))
        .try_get_matches_from(args)
        .map_err(|err| err.to_string())
}

fn try_parse_from(args: &[&str]) -> Result<Cli, String> {
    let matches = matches_of(args)?;
    let file = matches.get_one::<String>("file").map(PathBuf::from);
    let command = matches
        .get_many::<String>("command")
        .map(|values| values.cloned().collect())
        .unwrap_or_default();
    Ok(Cli {
        max_line_bytes: *matches.get_one::<usize>("max_line_bytes").expect("a default"),
        source: choose_source(file, command).map_err(|err| err.message().to_string())?,
    })
}

#[test]
fn parses_plain_max_line_bytes() {
    let cli = try_parse_from(&["tv", "--max-line-bytes", "65536", "true"])
        .ok()
        .expect("parse cli");

    assert_eq!(cli.max_line_bytes, 65_536);
}

#[test]
fn parses_default_max_line_bytes() {
    let cli = try_parse_from(&["tv", "true"]).ok().expect("parse cli");

    assert_eq!(cli.max_line_bytes, 65_536);
}

#[test]
fn parses_human_max_line_bytes() {
    let cli = try_parse_from(&["tv", "--max-line-bytes", "10KiB", "true"])
        .ok()
        .expect("parse cli");

    assert_eq!(cli.max_line_bytes, 10_240);
}

#[test]
fn rejects_zero_max_line_bytes() {
    let err = try_parse_from(&["tv", "--max-line-bytes", "0 B", "true"])
        .err()
        .expect("zero limit should fail");

    assert!(err.contains("byte size must be greater than zero"));
}

#[test]
fn accepts_file_without_command() {
    let cli = try_parse_from(&["tv", "--file", "debug/long-line.txt"])
        .ok()
        .expect("parse cli");

    assert_eq!(
        cli.source,
        InputSource::File(PathBuf::from("debug/long-line.txt"))
    );
}

#[test]
fn rejects_file_with_command() {
    let err = try_parse_from(&["tv", "--file", "debug/long-line.txt", "true"])
        .err()
        .expect("file and command should conflict");

    assert!(err.contains("cannot be used with"));
}

#[test]
fn takes_a_command_with_its_arguments() {
    let command = vec!["cargo".to_string(), "test".to_string()];
    assert_eq!(
        choose_source(None::<PathBuf>, command.clone()),
        Ok(InputSource::Command(command))
    );
}

#[test]
fn asks_for_a_command_without_a_file() {
    let err = choose_source(None::<PathBuf>, Vec::new());
    assert_eq!(err, Err(SourceError::NoCommand));
    assert!(SourceError::NoCommand.message().contains("<COMMAND>"));
}

#[test]
fn default_limit_is_the_one_in_the_help() {
    assert_eq!(default_max_line_bytes(), Ok(65_536));
}

#[test]
fn whole_numbers_are_bytes() {
    for n in [1usize, 9, 10, 512, 1_000_000] {
        assert_eq!(parse_byte_size(&n.to_string()), Ok(n));
        assert_eq!(parse_byte_size(&format!("{n}KiB")), Ok(n * 1024));
    }
}

#[test]
fn units_may_be_decimal_or_binary() {
    assert_eq!(parse_byte_size("2 kb"), Ok(2_000));
    assert_eq!(parse_byte_size("2MiB"), Ok(2_097_152));
    assert_eq!(parse_byte_size("1.5KiB"), Ok(1_536));
}

#[test]
fn unknown_sizes_are_refused() {
    let err = parse_byte_size("many").expect_err("not a size");
    assert!(err.starts_with("invalid byte size: "));
    assert!(parse_byte_size("12 parsecs").is_err());
}

#[test]
fn limits_are_held_to_the_platform() {
    assert_eq!(limit_from_size(Ok(7)), Ok(7));
    assert_eq!(
        limit_from_size(Ok(0)),
        Err("byte size must be greater than zero".to_string())
    );
    assert_eq!(
        limit_from_size(Err("no digits".to_string())),
        Err("invalid byte size: no digits".to_string())
    );
}
