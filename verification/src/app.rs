//! The session: what the viewer knows, and how events and keys change it.

use std::collections::VecDeque;

use vstd::prelude::*;
use vstd::string::*;

use crate::cli::LogFormat;
use crate::model::{
    entries_view, parts_view, sections_view, AppEvent, EntrySpec, Level, LogEntry, Stream,
};
use crate::parser::{line_entry, parse_log_line};
use crate::text::{copy_str, text_of, texts};
use crate::ui::keys::{
    handle_key, key_outcome, law_keys_select_retained, KeyAction, KeyCode, KeyEvent,
};
use crate::ui::render::{entry_text, selected_line_text, selected_text};
use crate::ui::screen::{draw, screen, str_of, Screen};
use crate::ui::view::{
    followed, law_following_selects_retained, law_following_selects_the_last_line, selects_retained,
    shown, without_first, ViewSpec, ViewState,
};

verus! {

/// How many events are taken in before the screen is drawn again.
pub const MAX_EVENTS_PER_TICK: usize = 1024;

/// How many milliseconds pass at least between two times that the screen is drawn.
pub const DRAW_INTERVAL_MILLIS: u64 = 16;

/// What the viewer knows. A session starts out well-formed, and everything that it
/// takes in leaves it so.
#[derive(Debug)]
pub struct Session {
    entries: VecDeque<LogEntry>,
    state: ViewState,
    exit_status: Option<String>,
    input_finished: bool,
    dirty: bool,
    format: LogFormat,
    max_lines: Option<usize>,
}

/// What a session holds. `dirty` tells whether the screen is out of date.
#[verifier::ext_equal]
pub ghost struct SessionSpec {
    pub entries: Seq<EntrySpec>,
    pub view: ViewSpec,
    pub exit_status: Option<Seq<char>>,
    pub input_finished: bool,
    pub dirty: bool,
    pub format: LogFormat,
    pub max_lines: Option<usize>,
}

impl View for Session {
    type V = SessionSpec;

    closed spec fn view(&self) -> SessionSpec {
        SessionSpec {
            entries: entries_view(self.entries@),
            view: self.state@,
            exit_status: text_of(self.exit_status),
            input_finished: self.input_finished,
            dirty: self.dirty,
            format: self.format,
            max_lines: self.max_lines,
        }
    }
}

impl SessionSpec {
    /// The selection stands on a retained line, and no more lines are retained than
    /// the limit, which is not zero.
    pub open spec fn wf(self) -> bool {
        &&& selects_retained(self.view, self.entries.len() as int)
        &&& self.max_lines != Some(0usize)
        &&& self.max_lines matches Some(max) ==> self.entries.len() <= max
    }

    /// The latest line is selected, or none is.
    pub open spec fn follows(self) -> bool {
        self.view.selected is None || self.view.selected == Some(self.entries.len() - 1)
    }

    /// As many lines are retained as may be.
    pub open spec fn is_full(self) -> bool {
        self.max_lines matches Some(max) && self.entries.len() >= max
    }

    /// The input is at its end.
    pub open spec fn has_ended(self) -> bool {
        self.exit_status is Some || self.input_finished
    }
}

/// The session with one more entry: the first one makes room for it if need be.
pub open spec fn with_entry(session: SessionSpec, entry: EntrySpec) -> SessionSpec {
    if session.is_full() {
        SessionSpec {
            entries: session.entries.drop_first().push(entry),
            view: without_first(session.view),
            dirty: true,
            ..session
        }
    } else {
        SessionSpec { entries: session.entries.push(entry), dirty: true, ..session }
    }
}

/// The session after a line. The selection stays on the latest line if it was
/// there.
pub open spec fn with_line(
    session: SessionSpec,
    stream: Stream,
    line: Seq<char>,
    page_size: int,
) -> SessionSpec {
    let after = with_entry(session, line_entry(session.format, stream, line));
    if session.follows() {
        SessionSpec { view: followed(after.view, after.entries, page_size), ..after }
    } else {
        after
    }
}

/// The name of a stream.
pub open spec fn stream_name(stream: Stream) -> Seq<char> {
    match stream {
        Stream::Stdout => "Stdout"@,
        Stream::Stderr => "Stderr"@,
    }
}

/// The entry that tells of a reader that failed.
pub open spec fn failure_entry(stream: Stream, error: Seq<char>) -> EntrySpec {
    let message = stream_name(stream) + " reader failed: "@ + error;
    EntrySpec {
        raw: message,
        timestamp: None,
        level: Level::Error,
        parsed: false,
        target: Some("traceviewer"@),
        spans: Seq::empty(),
        values: Seq::empty(),
        message,
        message_parts: Seq::empty(),
        stream,
    }
}

/// The session after an event.
pub open spec fn after_event(
    session: SessionSpec,
    event: AppEvent,
    page_size: int,
) -> SessionSpec {
    match event {
        AppEvent::Line(stream, line) => with_line(session, stream, line@, page_size),
        AppEvent::ProcessExited(status) => SessionSpec {
            exit_status: Some(status@),
            dirty: true,
            ..session
        },
        AppEvent::InputFinished => SessionSpec { input_finished: true, dirty: true, ..session },
        AppEvent::ReaderFailed(stream, error) => with_entry(
            session,
            failure_entry(stream, error@),
        ),
    }
}

/// The session after some events, with the size of a page at each of them.
pub open spec fn after_events(
    session: SessionSpec,
    events: Seq<AppEvent>,
    page_sizes: Seq<int>,
) -> SessionSpec
    decreases events.len(),
{
    if events.len() == 0 {
        session
    } else {
        after_event(
            after_events(session, events.drop_last(), page_sizes),
            events.last(),
            page_sizes[events.len() - 1],
        )
    }
}

/// The entries that an event brings.
pub open spec fn arriving(format: LogFormat, event: AppEvent) -> Seq<EntrySpec> {
    match event {
        AppEvent::Line(stream, line) => seq![line_entry(format, stream, line@)],
        AppEvent::ReaderFailed(stream, error) => seq![failure_entry(stream, error@)],
        _ => Seq::empty(),
    }
}

/// The entries that some events bring, in their order.
pub open spec fn arrivals(format: LogFormat, events: Seq<AppEvent>) -> Seq<EntrySpec>
    decreases events.len(),
{
    if events.len() == 0 {
        Seq::empty()
    } else {
        arrivals(format, events.drop_last()) + arriving(format, events.last())
    }
}

/// The newest of some entries: as many as the limit allows, or all without one.
pub open spec fn newest(entries: Seq<EntrySpec>, max_lines: Option<usize>) -> Seq<EntrySpec> {
    match max_lines {
        Some(max) if entries.len() > max => entries.skip(entries.len() - max),
        _ => entries,
    }
}

/// The session after a key.
pub open spec fn after_key(session: SessionSpec, key: KeyEvent, page_size: int) -> SessionSpec {
    SessionSpec {
        view: key_outcome(
            key,
            session.entries,
            session.view,
            session.has_ended(),
            page_size,
        ).0,
        dirty: true,
        ..session
    }
}

/// What is to be done after a key: nothing, copy a text, or quit. A process that
/// still runs is to be terminated first.
#[derive(Debug, PartialEq, Eq)]
pub enum Step {
    Continue,
    Copy(String),
    Quit { terminate: bool },
}

/// The step is the one that a key leads to.
pub open spec fn is_step(step: Step, session: SessionSpec, key: KeyEvent, page_size: int) -> bool {
    match key_outcome(key, session.entries, session.view, session.has_ended(), page_size).1 {
        KeyAction::Continue => step is Continue,
        KeyAction::CopySelected => match selected_text(session.view, session.entries) {
            Some(text) => step matches Step::Copy(copied) && copied@ == text,
            None => step is Continue,
        },
        KeyAction::Quit => step == (Step::Quit { terminate: !session.has_ended() }),
    }
}

/// A line arrives at the end of the retained ones as the entry that its format makes
/// of it. One too many pushes the first one out, and nothing else leaves.
pub proof fn law_lines_arrive_at_the_end(
    session: SessionSpec,
    stream: Stream,
    line: String,
    page_size: int,
)
    requires
        session.wf(),
    ensures
        ({
            let after = after_event(session, AppEvent::Line(stream, line), page_size);
            let all = session.entries.push(line_entry(session.format, stream, line@));
            &&& after.entries == if session.max_lines is Some && all.len()
                > session.max_lines.unwrap() {
                all.skip(1)
            } else {
                all
            }
            &&& after.dirty
            &&& after.format == session.format
            &&& after.max_lines == session.max_lines
            &&& after.exit_status == session.exit_status
            &&& after.input_finished == session.input_finished
        }),
{
    let entry = line_entry(session.format, stream, line@);
    if session.entries.len() > 0 {
        assert(session.entries.drop_first().push(entry) =~= session.entries.push(entry).skip(1));
    }
}

/// A reader that fails leaves an error behind that names its stream, at the end of the
/// retained lines.
pub proof fn law_failures_are_told(
    session: SessionSpec,
    stream: Stream,
    error: String,
    page_size: int,
)
    requires
        session.wf(),
    ensures
        ({
            let after = after_event(session, AppEvent::ReaderFailed(stream, error), page_size);
            let told = after.entries[after.entries.len() - 1];
            let text = match stream {
                Stream::Stdout => "Stdout"@,
                Stream::Stderr => "Stderr"@,
            } + " reader failed: "@ + error@;
            &&& after.entries.len() > 0
            &&& told.raw == text
            &&& told.message == text
            &&& told.level == Level::Error
            &&& told.target == Some("traceviewer"@)
            &&& told.stream == stream
            &&& !told.parsed
            &&& told.timestamp is None
            &&& told.spans.len() == 0 && told.values.len() == 0 && told.message_parts.len() == 0
            &&& after.entries.len() == session.entries.len() + 1 ==> after.entries.drop_last()
                == session.entries
            &&& after.entries.len() != session.entries.len() + 1 ==> after.entries.drop_last()
                == session.entries.skip(1)
            &&& after.dirty
        }),
{
    let after = after_event(session, AppEvent::ReaderFailed(stream, error), page_size);
    let entry = failure_entry(stream, error@);
    if session.is_full() {
        assert(after.entries.drop_last() =~= session.entries.skip(1));
    } else {
        assert(after.entries.drop_last() =~= session.entries);
    }
}

/// A selection on the latest line follows the lines that come: it goes to the last
/// shown one.
pub proof fn law_latest_selection_follows(
    session: SessionSpec,
    stream: Stream,
    line: String,
    page_size: int,
)
    requires
        session.wf(),
        session.view.selected matches Some(selected) ==> selected == session.entries.len() - 1,
    ensures
        ({
            let after = after_event(session, AppEvent::Line(stream, line), page_size);
            let visible = shown(after.entries, session.view.focus_target);
            &&& visible.len() > 0 ==> after.view.selected == Some(visible[visible.len() - 1])
            &&& visible.len() == 0 ==> after.view.selected is None
        }),
{
    let grown = with_entry(session, line_entry(session.format, stream, line@));
    law_following_selects_the_last_line(grown.view, grown.entries, page_size);
}

/// The end of the input is noted, with the status of the process where it was one, and
/// changes neither lines nor view.
pub proof fn law_ends_are_noted(session: SessionSpec, status: String, page_size: int)
    ensures
        ({
            let exited = after_event(session, AppEvent::ProcessExited(status), page_size);
            let finished = after_event(session, AppEvent::InputFinished, page_size);
            &&& exited == (SessionSpec { exit_status: Some(status@), dirty: true, ..session })
            &&& finished == (SessionSpec { input_finished: true, dirty: true, ..session })
            &&& exited.has_ended()
            &&& finished.has_ended()
        }),
{
}

/// What a key leads to: `y` copies the text of the selected line, and a key that quits
/// has a process terminated that still runs.
pub proof fn law_steps_of_keys(step: Step, session: SessionSpec, key: KeyEvent, page_size: int)
    requires
        session.wf(),
        is_step(step, session, key, page_size),
    ensures
        ({
            let ended = session.exit_status is Some || session.input_finished;
            let interrupt = key.control && key.code == KeyCode::Char('c');
            let closing = key.code == KeyCode::Char('q') || key.code == KeyCode::Esc;
            let help = session.view.help_visible;
            &&& step matches Step::Quit { terminate } ==> terminate == !ended
            &&& step is Quit <==> interrupt || (closing && ended && !help)
            &&& step is Copy <==> key.code == KeyCode::Char('y') && !help
                && session.view.selected is Some
            &&& step matches Step::Copy(text) ==> text@ == entry_text(
                session.entries[session.view.selected.unwrap()],
                session.view.show_spans,
            )
        }),
{
}

/// A key changes the view as it says, has the screen drawn again, and leaves the lines
/// and everything else as they are.
pub proof fn law_keys_change_only_the_view(session: SessionSpec, key: KeyEvent, page_size: int)
    ensures
        ({
            let after = after_key(session, key, page_size);
            let ended = session.exit_status is Some || session.input_finished;
            &&& after == (SessionSpec { view: after.view, dirty: true, ..session })
            &&& after.view == key_outcome(key, session.entries, session.view, ended, page_size).0
        }),
{
}

/// An event leaves a session well-formed: the selection stands on a retained line,
/// and no more lines are retained than the limit.
pub proof fn law_events_keep_sessions_well_formed(
    session: SessionSpec,
    event: AppEvent,
    page_size: int,
)
    requires
        session.wf(),
    ensures
        after_event(session, event, page_size).wf(),
{
    if let AppEvent::Line(stream, line) = event {
        let after = with_entry(session, line_entry(session.format, stream, line@));
        law_following_selects_retained(after.view, after.entries, page_size);
    }
}

/// A key leaves a session well-formed, and its entries as they are.
pub proof fn law_keys_keep_sessions_well_formed(
    session: SessionSpec,
    key: KeyEvent,
    page_size: int,
)
    requires
        session.wf(),
    ensures
        after_key(session, key, page_size).wf(),
        after_key(session, key, page_size).entries == session.entries,
{
    law_keys_select_retained(
        key,
        session.entries,
        session.view,
        session.has_ended(),
        page_size,
    );
}

/// After any event, the retained entries are the newest of those that were there
/// and of the one that the event brought. Without a limit none is dropped.
pub proof fn law_newest_entries_are_kept(session: SessionSpec, event: AppEvent, page_size: int)
    requires
        session.wf(),
    ensures
        after_event(session, event, page_size).entries == newest(
            session.entries + arriving(session.format, event),
            session.max_lines,
        ),
{
    let all = session.entries + arriving(session.format, event);
    let after = after_event(session, event, page_size);
    if arriving(session.format, event).len() == 0 {
        assert(all =~= session.entries);
    } else if session.is_full() {
        assert(after.entries =~= all.skip(1));
    } else {
        assert(after.entries =~= all);
    }
}

/// After any events, in any order, the session is well-formed, and the retained
/// entries are the newest of those that were there and of all that arrived. So they
/// are never more than the limit, and without a limit none is ever dropped.
pub proof fn law_newest_arrivals_are_kept(
    session: SessionSpec,
    events: Seq<AppEvent>,
    page_sizes: Seq<int>,
)
    requires
        session.wf(),
    ensures
        ({
            let after = after_events(session, events, page_sizes);
            &&& after.wf()
            &&& after.entries == newest(
                session.entries + arrivals(session.format, events),
                session.max_lines,
            )
            &&& session.max_lines matches Some(max) ==> after.entries.len() <= max
            &&& session.max_lines is None ==> after.entries == session.entries + arrivals(
                session.format,
                events,
            )
            &&& after.max_lines == session.max_lines
            &&& after.format == session.format
        }),
    decreases events.len(),
{
    if events.len() == 0 {
        assert(session.entries + arrivals(session.format, events) =~= session.entries);
    } else {
        let init = events.drop_last();
        let before = after_events(session, init, page_sizes);
        let page_size = page_sizes[events.len() - 1];
        let all = session.entries + arrivals(session.format, init);
        let last = arriving(session.format, events.last());
        law_newest_arrivals_are_kept(session, init, page_sizes);
        law_newest_entries_are_kept(before, events.last(), page_size);
        law_events_keep_sessions_well_formed(before, events.last(), page_size);
        assert(session.entries + arrivals(session.format, events) =~= all + last);
        assert(newest(newest(all, session.max_lines) + last, session.max_lines) =~= newest(
            all + last,
            session.max_lines,
        ));
    }
}

/// Where the selection is not on the latest line, it stays on its line while
/// others come and go, as long as that line is retained.
pub proof fn law_selection_stays_on_its_line(
    session: SessionSpec,
    event: AppEvent,
    page_size: int,
    selected: int,
)
    requires
        session.wf(),
        session.view.selected == Some(selected),
        selected < session.entries.len() - 1,
        session.is_full() ==> selected > 0,
    ensures
        ({
            let after = after_event(session, event, page_size);
            &&& after.view.selected matches Some(now)
            &&& after.entries[now] == session.entries[selected]
        }),
{
}

impl Session {
    /// A session that knows nothing yet. A limit on the lines is never zero.
    pub fn new(format: LogFormat, max_lines: Option<usize>) -> (r: Session)
        requires
            max_lines != Some(0usize),
        ensures
            r@.entries == Seq::<EntrySpec>::empty(),
            r@.view == (ViewSpec {
                x_offset: 0,
                first_visible: 0,
                selected: None,
                help_visible: false,
                show_spans: true,
                focus_target: None,
            }),
            r@.exit_status is None,
            !r@.input_finished,
            r@.dirty,
            r@.format == format,
            r@.max_lines == max_lines,
            r@.wf(),
    {
        let r = Session {
            entries: VecDeque::new(),
            state: ViewState::new(),
            exit_status: None,
            input_finished: false,
            dirty: true,
            format,
            max_lines,
        };
        assert(entries_view(r.entries@) =~= Seq::empty());
        r
    }

    /// Takes in an event.
    pub fn on_event(&mut self, event: AppEvent, page_size: usize)
        requires
            old(self)@.wf(),
        ensures
            final(self)@ == after_event(old(self)@, event, page_size as int),
            final(self)@.wf(),
    {
        proof {
            law_events_keep_sessions_well_formed(self@, event, page_size as int);
        }
        match event {
            AppEvent::Line(stream, line) => {
                self.on_line(stream, line, page_size);
            },
            AppEvent::ProcessExited(status) => {
                self.exit_status = Some(status);
                self.dirty = true;
            },
            AppEvent::InputFinished => {
                self.input_finished = true;
                self.dirty = true;
            },
            AppEvent::ReaderFailed(stream, error) => {
                self.retain(failed_reader(stream, error.as_str()));
            },
        }
    }

    /// Takes in a line.
    fn on_line(&mut self, stream: Stream, line: String, page_size: usize)
        requires
            old(self)@.wf(),
        ensures
            final(self)@ == with_line(old(self)@, stream, line@, page_size as int),
    {
        let ghost before = self@;
        let count: usize = self.entries.len();
        let was_following_latest = match self.state.selected {
            Some(selected) => selected + 1 == count,
            None => true,
        };
        assert(was_following_latest == before.follows());
        self.retain(parse_log_line(self.format, stream, line));
        if was_following_latest {
            self.state.follow_latest(&self.entries, page_size);
        }
    }

    /// Retains an entry. The first one makes room for it if need be.
    fn retain(&mut self, entry: LogEntry)
        requires
            old(self)@.wf(),
        ensures
            final(self)@ == with_entry(old(self)@, entry@),
    {
        let ghost before = self@;
        let ghost item = entry@;
        let full = match self.max_lines {
            Some(max_lines) => self.entries.len() >= max_lines,
            None => false,
        };
        if full {
            let _ = self.entries.pop_front();
            self.state.remove_first_line();
            assert(self@.entries =~= before.entries.drop_first());
        }
        let ghost kept = self@.entries;
        self.entries.push_back(entry);
        assert(self@.entries =~= kept.push(item));
        self.dirty = true;
    }

    /// The retained entries.
    pub fn entries(&self) -> (r: &VecDeque<LogEntry>)
        ensures
            entries_view(r@) == self@.entries,
    {
        &self.entries
    }

    /// What the user has chosen to see.
    pub fn state(&self) -> (r: &ViewState)
        ensures
            r@ == self@.view,
    {
        &self.state
    }

    /// The status of the process, if it has exited.
    pub fn exit_status(&self) -> (r: Option<&str>)
        ensures
            str_of(r) == self@.exit_status,
    {
        match &self.exit_status {
            Some(status) => Some(status.as_str()),
            None => None,
        }
    }

    /// What is on a screen of so many columns and rows.
    pub fn draw(&self, cols: u16, rows: u16) -> (r: Screen)
        requires
            self@.wf(),
        ensures
            r@ == screen(
                self@.entries,
                self@.view,
                self@.exit_status,
                cols as int,
                rows as int,
            ),
    {
        assert(self.entries@.len() == self.entries.len());
        draw(&self.entries, &self.state, self.exit_status(), cols, rows)
    }

    /// Tells whether the input is at its end.
    pub fn ended(&self) -> (r: bool)
        ensures
            r == self@.has_ended(),
    {
        self.exit_status.is_some() || self.input_finished
    }

    /// Takes in a key, and tells what is to be done.
    pub fn on_key(&mut self, key: KeyEvent, page_size: usize) -> (r: Step)
        requires
            old(self)@.wf(),
        ensures
            final(self)@ == after_key(old(self)@, key, page_size as int),
            final(self)@.wf(),
            is_step(r, old(self)@, key, page_size as int),
    {
        proof {
            law_keys_keep_sessions_well_formed(self@, key, page_size as int);
        }
        let ended = self.ended();
        let action = handle_key(key, &self.entries, &mut self.state, ended, page_size);
        self.dirty = true;
        match action {
            KeyAction::Continue => Step::Continue,
            KeyAction::CopySelected => match selected_line_text(&self.entries, &self.state) {
                Some(line) => Step::Copy(line),
                None => Step::Continue,
            },
            KeyAction::Quit => Step::Quit { terminate: !ended },
        }
    }

    /// Tells whether the screen is to be drawn: it is out of date, and was not drawn
    /// just now.
    pub fn should_draw(&self, millis_since_drawn: u64) -> (r: bool)
        ensures
            r == (self@.dirty && millis_since_drawn >= DRAW_INTERVAL_MILLIS),
    {
        self.dirty && millis_since_drawn >= DRAW_INTERVAL_MILLIS
    }

    /// Notes that the screen has been drawn.
    pub fn drawn(&mut self)
        ensures
            final(self)@ == (SessionSpec { dirty: false, ..old(self)@ }),
    {
        self.dirty = false;
    }
}

/// The entry that tells of a reader that failed.
fn failed_reader(stream: Stream, error: &str) -> (r: LogEntry)
    ensures
        r@ == failure_entry(stream, error@),
{
    let name = match stream {
        Stream::Stdout => "Stdout",
        Stream::Stderr => "Stderr",
    };
    let mut message = copy_str(name);
    message.append(" reader failed: ");
    message.append(error);
    let entry = LogEntry {
        raw: copy_str(message.as_str()),
        timestamp: None,
        level: Level::Error,
        parsed: false,
        target: Some(copy_str("traceviewer")),
        spans: Vec::new(),
        values: Vec::new(),
        message,
        message_parts: Vec::new(),
        stream,
    };
    proof {
        assert(texts(entry.spans@) =~= Seq::empty());
        assert(sections_view(entry.values@) =~= Seq::empty());
        assert(parts_view(entry.message_parts@) =~= Seq::empty());
    }
    entry
}

} // verus!
