use traceviewer::app::{Session, Step};
use traceviewer::cli::LogFormat;
use traceviewer::model::{AppEvent, Level, Stream};
use traceviewer::ui::keys::{KeyCode, KeyEvent};

fn session(max_lines: Option<usize>) -> Session {
    Session::new(LogFormat::Plain, max_lines)
}

fn feed(session: &mut Session, text: &str) {
    session.on_event(AppEvent::Line(Stream::Stdout, text.to_string()), 5);
}

fn press(session: &mut Session, code: KeyCode) -> Step {
    session.on_key(
        KeyEvent {
            code,
            control: false,
        },
        5,
    )
}

fn messages(session: &Session) -> Vec<&str> {
    session
        .entries()
        .iter()
        .map(|entry| entry.message.as_str())
        .collect()
}

#[test]
fn lines_are_bounded_and_the_latest_are_kept() {
    let mut session = session(Some(3));
    for text in ["a", "b", "c", "d", "e"] {
        feed(&mut session, text);
        assert!(session.entries().len() <= 3);
    }
    assert_eq!(messages(&session), ["c", "d", "e"]);
    assert_eq!(session.state().selected, Some(2));
}

#[test]
fn lines_are_unbounded_by_default() {
    let mut session = session(None);
    for n in 0..50 {
        feed(&mut session, &n.to_string());
    }
    assert_eq!(session.entries().len(), 50);
    assert_eq!(session.state().selected, Some(49));
    assert_eq!(session.state().first_visible, 45);
}

#[test]
fn a_single_line_can_be_kept() {
    let mut session = session(Some(1));
    feed(&mut session, "a");
    feed(&mut session, "b");
    assert_eq!(messages(&session), ["b"]);
    assert_eq!(session.state().selected, Some(0));
}

#[test]
fn selection_stays_on_its_line() {
    let mut session = session(Some(3));
    for text in ["a", "b", "c"] {
        feed(&mut session, text);
    }
    press(&mut session, KeyCode::Up);
    assert_eq!(session.state().selected, Some(1));
    feed(&mut session, "d");
    assert_eq!(session.state().selected, Some(0));
    assert_eq!(messages(&session), ["b", "c", "d"]);
    feed(&mut session, "e");
    assert_eq!(session.state().selected, Some(0));
}

#[test]
fn events_end_the_input() {
    let mut session = session(None);
    assert!(session.should_draw(1000));
    session.drawn();
    assert!(!session.should_draw(1000));
    assert!(!session.ended());
    session.on_event(AppEvent::InputFinished, 5);
    assert!(session.ended());
    assert!(session.should_draw(1000));
    assert_eq!(session.exit_status(), None);
    session.on_event(AppEvent::ProcessExited("exit status: 0".to_string()), 5);
    assert_eq!(session.exit_status(), Some("exit status: 0"));
}

fn fail(session: &mut Session) {
    session.on_event(
        AppEvent::ReaderFailed(Stream::Stderr, "broken pipe".to_string()),
        5,
    );
}

#[test]
fn failed_readers_are_told_of() {
    let mut session = session(None);
    feed(&mut session, "a");
    fail(&mut session);
    assert_eq!(session.entries().len(), 2);
    assert_eq!(session.state().selected, Some(0));
    let entry = &session.entries()[1];
    assert_eq!(entry.message, "Stderr reader failed: broken pipe");
    assert_eq!(entry.raw, entry.message);
    assert_eq!(entry.level, Level::Error);
    assert_eq!(entry.target.as_deref(), Some("traceviewer"));
    assert_eq!(entry.stream, Stream::Stderr);
    assert!(!entry.parsed);
    assert!(entry.spans.is_empty() && entry.values.is_empty());
}

#[test]
fn failed_readers_keep_to_the_limit() {
    let notice = "Stderr reader failed: broken pipe";
    let mut one = session(Some(1));
    feed(&mut one, "a");
    fail(&mut one);
    assert_eq!(messages(&one), [notice]);
    assert_eq!(one.state().selected, Some(0));
    feed(&mut one, "b");
    feed(&mut one, "c");
    assert_eq!(messages(&one), ["c"]);

    let mut two = session(Some(2));
    for text in ["a", "b"] {
        feed(&mut two, text);
    }
    press(&mut two, KeyCode::Up);
    press(&mut two, KeyCode::Down);
    fail(&mut two);
    assert_eq!(messages(&two), ["b", notice]);
    assert_eq!(two.state().selected, Some(0));
    feed(&mut two, "c");
    assert_eq!(messages(&two), [notice, "c"]);
}

#[test]
fn the_newest_entries_are_kept_whatever_happens() {
    let mut all = Vec::new();
    let mut bounded = session(Some(3));
    let mut unbounded = session(None);
    for n in 0..20 {
        let event = match n % 5 {
            3 => AppEvent::InputFinished,
            4 => AppEvent::ReaderFailed(Stream::Stdout, n.to_string()),
            _ => AppEvent::Line(Stream::Stdout, n.to_string()),
        };
        match n % 5 {
            3 => {}
            4 => all.push(format!("Stdout reader failed: {n}")),
            _ => all.push(n.to_string()),
        }
        bounded.on_event(event.clone(), 5);
        unbounded.on_event(event, 5);
        let newest = &all[all.len().saturating_sub(3)..];
        assert_eq!(messages(&bounded), newest);
        assert_eq!(messages(&unbounded), all);
        if let Some(selected) = bounded.state().selected {
            assert!(selected < bounded.entries().len());
        }
    }
}

#[test]
fn keys_copy_and_quit() {
    let mut session = session(None);
    assert_eq!(press(&mut session, KeyCode::Char('y')), Step::Continue);
    feed(&mut session, "text");
    assert_eq!(
        press(&mut session, KeyCode::Char('y')),
        Step::Copy("| text".to_string())
    );
    assert_eq!(press(&mut session, KeyCode::Char('q')), Step::Continue);
    assert_eq!(press(&mut session, KeyCode::Char('c')), Step::Continue);
    let ctrl_c = KeyEvent {
        code: KeyCode::Char('c'),
        control: true,
    };
    assert_eq!(session.on_key(ctrl_c, 5), Step::Quit { terminate: true });
    session.on_event(AppEvent::InputFinished, 5);
    assert_eq!(session.on_key(ctrl_c, 5), Step::Quit { terminate: false });
    assert_eq!(
        press(&mut session, KeyCode::Esc),
        Step::Quit { terminate: false }
    );
}

#[test]
fn lines_are_read_in_the_format_of_the_session() {
    let mut session = Session::new(LogFormat::Auto, None);
    feed(&mut session, "INFO svc: hello");
    assert!(session.entries()[0].parsed);
    assert_eq!(session.entries()[0].target.as_deref(), Some("svc"));
}

#[test]
fn screens_are_drawn_when_out_of_date_but_not_too_often() {
    let mut session = session(None);
    assert!(session.should_draw(1000));
    assert!(session.should_draw(16));
    assert!(!session.should_draw(15));
    session.drawn();
    assert!(!session.should_draw(1000));
    feed(&mut session, "text");
    assert!(session.should_draw(1000));
}

#[test]
fn sessions_are_drawn() {
    let mut session = session(None);
    feed(&mut session, "text");
    session.on_event(AppEvent::ProcessExited("exit status: 0".to_string()), 5);
    let screen = session.draw(60, 3);
    assert_eq!(screen.lines.len(), 1);
    assert!(screen.status.starts_with(" exited exit status: 0 | line 1/1"));
}
