use traceviewer::model::{AppEvent, Stream};
use traceviewer::process::{
    input_ended, mark_truncated, split_command, wait_for_child, ChildState, LineBuffer, StreamReader,
};

/// Reads `input` in chunks of at most `chunk` bytes.
fn read_events(input: &[u8], max_line_bytes: usize, chunk: usize) -> Vec<AppEvent> {
    let mut reader = StreamReader::new(Stream::Stdout, max_line_bytes);
    let mut events = Vec::new();
    for piece in input.chunks(chunk) {
        events.extend(reader.read_lines(piece));
    }
    events.extend(reader.finish());
    events
}

fn read_test_lines(input: &[u8], max_line_bytes: usize) -> Vec<String> {
    read_events(input, max_line_bytes, 8192)
        .into_iter()
        .filter_map(|event| match event {
            AppEvent::Line(_, line) => Some(line),
            AppEvent::ReaderFailed(_, _)
            | AppEvent::InputFinished
            | AppEvent::ProcessExited(_) => None,
        })
        .collect()
}

#[test]
fn file_reader_sends_lines_and_finished_event() {
    let mut events = read_events(b"alpha\nbeta\n", 10, 8192);
    events.extend(input_ended(Stream::Stdout, true, None));

    assert!(matches!(events.as_slice(), [
        AppEvent::Line(Stream::Stdout, alpha),
        AppEvent::Line(Stream::Stdout, beta),
        AppEvent::InputFinished,
    ] if alpha == "alpha" && beta == "beta"));
}

#[test]
fn bounded_reader_keeps_short_lines() {
    assert_eq!(
        read_test_lines(b"alpha\nbeta\n", 10),
        vec!["alpha".to_string(), "beta".to_string()]
    );
}

#[test]
fn bounded_reader_truncates_long_lines_and_recovers_at_newline() {
    assert_eq!(
        read_test_lines(b"abcdefghijkl\nnext\n", 5),
        vec!["abcde ... [truncated]".to_string(), "next".to_string()]
    );
}

#[test]
fn bounded_reader_truncates_final_line_without_newline() {
    assert_eq!(
        read_test_lines(b"abcdefghijkl", 5),
        vec!["abcde ... [truncated]".to_string()]
    );
}

#[test]
fn bounded_reader_uses_lossy_utf8_for_partial_codepoints() {
    assert_eq!(
        read_test_lines("aé\n".as_bytes(), 2),
        vec!["a\u{fffd} ... [truncated]".to_string()]
    );
}

#[test]
fn chunks_do_not_matter() {
    let input = "one\n\ntwo two\nlonger than the limit\nlast é".as_bytes();
    let whole = read_events(input, 9, input.len());
    assert_eq!(whole.len(), 5);
    for chunk in 1..input.len() {
        assert_eq!(read_events(input, 9, chunk), whole);
    }
}

#[test]
fn single_reads_stop_at_the_end_of_a_line() {
    let mut reader = StreamReader::new(Stream::Stderr, 100);
    assert_eq!(reader.read_line(b"ab"), (2, None));
    assert_eq!(
        reader.read_line(b"c\nd"),
        (
            2,
            Some(AppEvent::Line(Stream::Stderr, "abc".to_string()))
        )
    );
    assert_eq!(reader.finish(), None);
    assert_eq!(reader.read_line(b""), (0, None));
}

#[test]
fn buffers_stay_within_their_limit() {
    let mut buffer = LineBuffer::new(3);
    assert!(buffer.is_empty());
    buffer.append(b"ab");
    buffer.append(b"");
    assert!(!buffer.truncated);
    buffer.append(b"cd");
    assert!(buffer.truncated);
    buffer.append(b"ef");
    assert_eq!(buffer.bytes, b"abc");
    assert_eq!(buffer.take_string(), "abc ... [truncated]");
    assert!(buffer.is_empty());
    buffer.append(b"abc");
    assert_eq!(buffer.take_string(), "abc");
}

#[test]
fn truncation_is_marked() {
    assert_eq!(mark_truncated("x".to_string(), false), "x");
    assert_eq!(mark_truncated("x".to_string(), true), "x ... [truncated]");
}

#[test]
fn ends_of_input_are_told_apart() {
    assert_eq!(
        input_ended(Stream::Stdout, true, None),
        Some(AppEvent::InputFinished)
    );
    assert_eq!(input_ended(Stream::Stderr, false, None), None);
    for is_file in [false, true] {
        assert_eq!(
            input_ended(Stream::Stderr, is_file, Some("gone".to_string())),
            Some(AppEvent::ReaderFailed(Stream::Stderr, "gone".to_string()))
        );
    }
}

#[test]
fn looks_at_a_process_lead_to_events() {
    assert_eq!(wait_for_child(ChildState::Running), None);
    assert_eq!(
        wait_for_child(ChildState::Exited("exit status: 1".to_string())),
        Some(AppEvent::ProcessExited("exit status: 1".to_string()))
    );
    assert_eq!(
        wait_for_child(ChildState::LockFailed("poisoned".to_string())),
        Some(AppEvent::ReaderFailed(
            Stream::Stderr,
            "wait lock failed: poisoned".to_string()
        ))
    );
    assert_eq!(
        wait_for_child(ChildState::WaitFailed("no child".to_string())),
        Some(AppEvent::ReaderFailed(
            Stream::Stderr,
            "wait failed: no child".to_string()
        ))
    );
}

#[test]
fn commands_are_split() {
    let command = vec!["cargo".to_string(), "test".to_string(), "-q".to_string()];
    let (program, args) = split_command(&command).expect("a program");
    assert_eq!(program, "cargo");
    assert_eq!(args, ["test".to_string(), "-q".to_string()]);
    assert_eq!(split_command(&[]), Err("missing command".to_string()));
}

#[test]
fn invalid_bytes_are_replaced() {
    let mut buffer = LineBuffer::new(100);
    buffer.append(b"a\xffb");
    assert_eq!(buffer.take_string(), "a\u{fffd}b");
    buffer.append("größe".as_bytes());
    assert_eq!(buffer.take_string(), "größe");
}
