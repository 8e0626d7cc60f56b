//! Reading the input: bytes become lines, and lines become events.

use vstd::prelude::*;
use vstd::string::*;
use vstd::utf8::{decode_utf8, valid_utf8};

use crate::model::{AppEvent, Stream};
use crate::text::{copy_str, position};

verus! {

/// The text that `String::from_utf8_lossy` makes of some bytes.
pub uninterp spec fn lossy(bytes: Seq<u8>) -> Seq<char>;

/// Calls `String::from_utf8_lossy` and `Cow::into_owned`. The text depends on the
/// bytes alone. Bytes that are valid UTF-8 are decoded as they are; in others the
/// replacement character stands for what is invalid. How many of them stand for a run
/// of invalid bytes is left unsaid.
#[verifier::external_body]
fn lossy_text(bytes: &[u8]) -> (r: String)
    ensures
        r@ == lossy(bytes@),
        valid_utf8(bytes@) ==> r@ == decode_utf8(bytes@),
        !valid_utf8(bytes@) ==> r@.contains('\u{fffd}'),
{
    String::from_utf8_lossy(bytes).into_owned()
}

/// The start of a line, up to a limit.
#[derive(Debug)]
pub struct LineBuffer {
    pub bytes: Vec<u8>,
    pub max_bytes: usize,
    pub truncated: bool,
}

/// What a line buffer holds.
#[verifier::ext_equal]
pub ghost struct LineSpec {
    pub bytes: Seq<u8>,
    pub max_bytes: nat,
    pub truncated: bool,
}

impl View for LineBuffer {
    type V = LineSpec;

    open spec fn view(&self) -> LineSpec {
        LineSpec {
            bytes: self.bytes@,
            max_bytes: self.max_bytes as nat,
            truncated: self.truncated,
        }
    }
}

/// The buffer of a line of which `seen` has been read: the bytes up to the limit,
/// and whether there were more.
pub open spec fn buffered(seen: Seq<u8>, max_bytes: nat) -> LineSpec {
    LineSpec {
        bytes: if seen.len() <= max_bytes {
            seen
        } else {
            seen.take(max_bytes as int)
        },
        max_bytes,
        truncated: seen.len() > max_bytes,
    }
}

/// The buffer with `bytes` appended, as far as they fit.
pub open spec fn appended(line: LineSpec, bytes: Seq<u8>) -> LineSpec {
    let room = if line.bytes.len() < line.max_bytes {
        line.max_bytes - line.bytes.len()
    } else {
        0
    };
    if bytes.len() <= room {
        LineSpec { bytes: line.bytes + bytes, ..line }
    } else {
        LineSpec { bytes: line.bytes + bytes.take(room), truncated: true, ..line }
    }
}

/// The text of a line, given its decoded bytes.
pub open spec fn marked_text(decoded: Seq<char>, truncated: bool) -> Seq<char> {
    if truncated {
        decoded + " ... [truncated]"@
    } else {
        decoded
    }
}

/// The text of the line in a buffer.
pub open spec fn line_text(line: LineSpec) -> Seq<char> {
    marked_text(lossy(line.bytes), line.truncated)
}

/// `text` is the text of the line in a buffer: valid UTF-8 is decoded, and in other
/// bytes the replacement character stands for what is invalid.
pub open spec fn is_text_of(text: Seq<char>, line: LineSpec) -> bool {
    &&& text == line_text(line)
    &&& valid_utf8(line.bytes) ==> text == marked_text(decode_utf8(line.bytes), line.truncated)
    &&& !valid_utf8(line.bytes) ==> text.contains('\u{fffd}')
}

/// Only the bytes of a line matter to its buffer, not the pieces in which they
/// come.
pub proof fn law_pieces_of_a_line_add_up(seen: Seq<u8>, more: Seq<u8>, max_bytes: nat)
    ensures
        appended(buffered(seen, max_bytes), more) == buffered(seen + more, max_bytes),
{
    let line = buffered(seen, max_bytes);
    let room = max_bytes - line.bytes.len();
    if seen.len() + more.len() <= max_bytes {
        assert(appended(line, more).bytes =~= seen + more);
    } else if seen.len() <= max_bytes {
        if more.len() > room {
            assert(appended(line, more).bytes =~= (seen + more).take(max_bytes as int));
        }
    } else {
        if more.len() == 0 {
            assert(seen + more =~= seen);
            assert(appended(line, more).bytes =~= seen.take(max_bytes as int));
        } else {
            assert(appended(line, more).bytes =~= (seen + more).take(max_bytes as int));
        }
    }
}

/// A buffer never holds more than its limit.
pub proof fn law_buffer_stays_within_its_limit(line: LineSpec, bytes: Seq<u8>)
    requires
        line.bytes.len() <= line.max_bytes,
    ensures
        appended(line, bytes).bytes.len() <= line.max_bytes,
        appended(line, bytes).max_bytes == line.max_bytes,
{
}

impl LineBuffer {
    /// An empty buffer.
    pub fn new(max_bytes: usize) -> (r: LineBuffer)
        ensures
            r@ == buffered(Seq::empty(), max_bytes as nat),
    {
        LineBuffer { bytes: Vec::new(), max_bytes, truncated: false }
    }

    /// Appends bytes, as far as they fit.
    pub fn append(&mut self, bytes: &[u8])
        ensures
            final(self)@ == appended(old(self)@, bytes@),
    {
        let ghost before = self@;
        let remaining: usize = self.max_bytes.saturating_sub(self.bytes.len());
        let fits = remaining >= bytes.len();
        let count: usize = if fits {
            bytes.len()
        } else {
            remaining
        };
        let mut i: usize = 0;
        assert(before.bytes + bytes@.take(0) =~= before.bytes);
        while i < count
            invariant
                i <= count <= bytes@.len(),
                self.bytes@ == before.bytes + bytes@.take(i as int),
                self.max_bytes == before.max_bytes,
                self.truncated == before.truncated,
            decreases count - i,
        {
            self.bytes.push(bytes[i]);
            i = i + 1;
            assert(self.bytes@ =~= before.bytes + bytes@.take(i as int));
        }
        if !fits {
            self.truncated = true;
        } else {
            assert(bytes@.take(i as int) =~= bytes@);
        }
    }

    /// Tells whether nothing has been appended.
    pub fn is_empty(&self) -> (r: bool)
        ensures
            r == (self@.bytes.len() == 0 && !self@.truncated),
    {
        self.bytes.len() == 0 && !self.truncated
    }

    /// The text of the line, and an empty buffer in its place.
    pub fn take_string(&mut self) -> (r: String)
        ensures
            is_text_of(r@, old(self)@),
            final(self)@ == buffered(Seq::empty(), old(self)@.max_bytes),
    {
        let decoded = lossy_text(self.bytes.as_slice());
        let ghost text = decoded@;
        let line = mark_truncated(decoded, self.truncated);
        proof {
            if text.contains('\u{fffd}') {
                let i = choose|i: int| 0 <= i < text.len() && text[i] == '\u{fffd}';
                assert(line@[i] == '\u{fffd}');
            }
        }
        self.bytes.clear();
        self.truncated = false;
        line
    }
}

/// The text of a line, given its decoded bytes.
pub fn mark_truncated(decoded: String, truncated: bool) -> (r: String)
    ensures
        r@ == marked_text(decoded@, truncated),
{
    let mut line = decoded;
    if truncated {
        line.append(" ... [truncated]");
    }
    line
}

/// The position of the first line feed in `s`.
pub open spec fn line_end(s: Seq<u8>) -> Option<int>
    decreases s.len(),
{
    if s.len() == 0 {
        None
    } else if s[0] == 10 {
        Some(0)
    } else {
        match line_end(s.drop_first()) {
            Some(i) => Some(i + 1),
            None => None,
        }
    }
}

/// The lines of an input, of whose first line `seen` has been read before
/// `rest`. What follows the last line feed is a line unless it is empty.
pub open spec fn lines(seen: Seq<u8>, rest: Seq<u8>) -> Seq<Seq<u8>>
    decreases rest.len(),
    via lines_decreases
{
    match line_end(rest) {
        Some(i) => seq![seen + rest.take(i)] + lines(Seq::empty(), rest.skip(i + 1)),
        None => if seen.len() + rest.len() == 0 {
            Seq::empty()
        } else {
            seq![seen + rest]
        },
    }
}

#[via_fn]
proof fn lines_decreases(seen: Seq<u8>, rest: Seq<u8>) {
    lemma_line_end(rest);
}

pub proof fn lemma_line_end(s: Seq<u8>)
    ensures
        line_end(s) matches Some(i) ==> 0 <= i < s.len() && s[i] == 10,
        line_end(s) is None ==> !s.contains(10u8),
        forall|j: int|
            0 <= j < s.len() && (line_end(s) matches Some(i) ==> j < i) ==> #[trigger] s[j] != 10,
    decreases s.len(),
{
    if s.len() > 0 && s[0] != 10 {
        let t = s.drop_first();
        lemma_line_end(t);
        assert forall|j: int|
            0 <= j < s.len() && (line_end(s) matches Some(i) ==> j < i) implies #[trigger] s[j]
            != 10 by {
            if j > 0 {
                assert(s[j] == t[j - 1]);
            }
        }
    }
}

/// What has been read of the line at the end of `chunk`, where `seen` was read of
/// the line at its start.
pub open spec fn unfinished(seen: Seq<u8>, chunk: Seq<u8>) -> Seq<u8>
    decreases chunk.len(),
    via unfinished_decreases
{
    match line_end(chunk) {
        Some(i) => unfinished(Seq::empty(), chunk.skip(i + 1)),
        None => seen + chunk,
    }
}

#[via_fn]
proof fn unfinished_decreases(seen: Seq<u8>, chunk: Seq<u8>) {
    lemma_line_end(chunk);
}

/// The lines that end in `chunk`.
pub open spec fn finished(seen: Seq<u8>, chunk: Seq<u8>) -> Seq<Seq<u8>>
    decreases chunk.len(),
    via finished_decreases
{
    match line_end(chunk) {
        Some(i) => seq![seen + chunk.take(i)] + finished(Seq::empty(), chunk.skip(i + 1)),
        None => Seq::empty(),
    }
}

#[via_fn]
proof fn finished_decreases(seen: Seq<u8>, chunk: Seq<u8>) {
    lemma_line_end(chunk);
}

proof fn lemma_line_end_concat(a: Seq<u8>, b: Seq<u8>)
    ensures
        line_end(a) is Some ==> line_end(a + b) == line_end(a),
        line_end(a) is None ==> line_end(a + b) == match line_end(b) {
            Some(i) => Some(a.len() + i),
            None => None,
        },
    decreases a.len(),
{
    if a.len() == 0 {
        assert(a + b =~= b);
    } else {
        lemma_line_end_concat(a.drop_first(), b);
        assert((a + b).drop_first() =~= a.drop_first() + b);
    }
}

/// The lines of an input do not depend on the chunks in which it is read: those
/// that end in a first chunk come first, and what is left of it starts the next
/// line.
pub proof fn law_chunks_do_not_matter(seen: Seq<u8>, chunk: Seq<u8>, rest: Seq<u8>)
    ensures
        lines(seen, chunk + rest) == finished(seen, chunk) + lines(unfinished(seen, chunk), rest),
    decreases chunk.len(),
{
    let all = chunk + rest;
    lemma_line_end_concat(chunk, rest);
    lemma_line_end(chunk);
    lemma_line_end(rest);
    match line_end(chunk) {
        Some(i) => {
            law_chunks_do_not_matter(Seq::empty(), chunk.skip(i + 1), rest);
            assert(all.skip(i + 1) =~= chunk.skip(i + 1) + rest);
            assert(all.take(i) =~= chunk.take(i));
            let first = seq![seen + chunk.take(i)];
            let more = finished(Seq::empty(), chunk.skip(i + 1));
            let tail = lines(unfinished(seen, chunk), rest);
            assert(first + (more + tail) =~= (first + more) + tail);
        },
        None => {
            match line_end(rest) {
                Some(i) => {
                    let j = chunk.len() + i;
                    assert(all.skip(j + 1) =~= rest.skip(i + 1));
                    assert(seen + all.take(j) =~= (seen + chunk) + rest.take(i));
                },
                None => {
                    assert(seen + all =~= (seen + chunk) + rest);
                },
            }
            let tail = lines(seen + chunk, rest);
            assert(Seq::<Seq<u8>>::empty() + tail =~= tail);
        },
    }
}

/// Lines with a line feed behind each of them.
pub open spec fn with_line_feeds(all: Seq<Seq<u8>>) -> Seq<u8>
    decreases all.len(),
{
    if all.len() == 0 {
        Seq::empty()
    } else {
        all[0] + seq![10u8] + with_line_feeds(all.drop_first())
    }
}

/// The lines of an input make it up: none of them holds a line feed, and with one
/// behind each of them they are the input, but for one that the input may lack at its
/// end.
pub proof fn law_lines_make_up_the_input(seen: Seq<u8>, rest: Seq<u8>)
    requires
        !seen.contains(10u8),
    ensures
        ({
            let input = seen + rest;
            let all = lines(seen, rest);
            &&& forall|i: int| 0 <= i < all.len() ==> !(#[trigger] all[i]).contains(10u8)
            &&& with_line_feeds(all) == if input.len() == 0 || input.last() == 10u8 {
                input
            } else {
                input.push(10u8)
            }
        }),
    decreases rest.len(),
{
    let input = seen + rest;
    let all = lines(seen, rest);
    lemma_line_end(rest);
    match line_end(rest) {
        Some(i) => {
            let after = rest.skip(i + 1);
            let tail = lines(Seq::empty(), after);
            law_lines_make_up_the_input(Seq::empty(), after);
            assert(Seq::<u8>::empty() + after =~= after);
            assert(all.drop_first() =~= tail);
            assert forall|k: int| 0 <= k < all.len() implies !(#[trigger] all[k]).contains(
                10u8,
            ) by {
                if k == 0 {
                    assert forall|j: int| 0 <= j < all[0].len() implies all[0][j] != 10u8 by {
                        if j < seen.len() {
                            assert(all[0][j] == seen[j]);
                            assert(seen.contains(seen[j]));
                        } else {
                            assert(all[0][j] == rest[j - seen.len()]);
                        }
                    }
                } else {
                    assert(all[k] == tail[k - 1]);
                }
            }
            assert(input =~= seen + rest.take(i) + seq![10u8] + after);
            if after.len() > 0 {
                assert(input.last() == after.last());
                if after.last() != 10u8 {
                    assert(with_line_feeds(all) =~= input.push(10u8));
                }
            } else {
                assert(input.last() == 10u8);
                assert(with_line_feeds(all) =~= input);
            }
        },
        None => {
            if input.len() > 0 {
                reveal_with_fuel(with_line_feeds, 2);
                assert(all.drop_first() =~= Seq::empty());
                assert forall|j: int| 0 <= j < input.len() implies input[j] != 10u8 by {
                    if j < seen.len() {
                        assert(seen.contains(seen[j]));
                    } else {
                        assert(input[j] == rest[j - seen.len()]);
                    }
                }
                assert(with_line_feeds(all) =~= input.push(10u8));
            } else {
                assert(with_line_feeds(all) =~= input);
            }
        },
    }
}

/// A line within the limit is decoded as a whole. Of a longer one the start is decoded,
/// as many bytes as the limit allows, and a mark tells of it.
pub proof fn law_long_lines_are_cut_and_marked(seen: Seq<u8>, max_bytes: nat)
    ensures
        seen.len() <= max_bytes ==> line_text(buffered(seen, max_bytes)) == lossy(seen),
        seen.len() > max_bytes ==> line_text(buffered(seen, max_bytes)) == lossy(
            seen.take(max_bytes as int),
        ) + " ... [truncated]"@,
{
}

/// Turns the bytes of a stream into lines.
#[derive(Debug)]
pub struct StreamReader {
    pub stream: Stream,
    pub line: LineBuffer,
}

/// The event is a line of that stream, with the text of that buffer.
pub open spec fn is_line(event: AppEvent, stream: Stream, line: LineSpec) -> bool {
    event matches AppEvent::Line(s, text) && s == stream && is_text_of(text@, line)
}

impl StreamReader {
    /// Of the line that is being read, the reader has seen `seen`.
    pub open spec fn has_seen(self, seen: Seq<u8>) -> bool {
        self.line@ == buffered(seen, self.line@.max_bytes)
    }

    pub fn new(stream: Stream, max_line_bytes: usize) -> (r: StreamReader)
        ensures
            r.stream == stream,
            r.line@.max_bytes == max_line_bytes,
            r.has_seen(Seq::empty()),
    {
        StreamReader { stream, line: LineBuffer::new(max_line_bytes) }
    }

    /// Reads from a chunk up to the end of a line, or up to the end of the chunk.
    /// Returns how many bytes were read, and the line if it has ended.
    pub fn read_line(&mut self, chunk: &[u8]) -> (r: (usize, Option<AppEvent>))
        ensures
            final(self).stream == old(self).stream,
            final(self).line@.max_bytes == old(self).line@.max_bytes,
            match line_end(chunk@) {
                Some(i) => {
                    &&& r.0 == i + 1
                    &&& r.1 matches Some(event) && is_line(
                        event,
                        old(self).stream,
                        appended(old(self).line@, chunk@.take(i)),
                    )
                    &&& final(self).has_seen(Seq::empty())
                },
                None => {
                    &&& r.0 == chunk@.len()
                    &&& r.1 is None
                    &&& final(self).line@ == appended(old(self).line@, chunk@)
                },
            },
    {
        let len: usize = chunk.len();
        match find_line_end(chunk) {
            Some(i) => {
                self.line.append(vstd::slice::slice_subrange(chunk, 0, i));
                (i + 1, Some(self.send_line()))
            },
            None => {
                self.line.append(chunk);
                (len, None)
            },
        }
    }

    /// Ends the input: the line that is being read is the last one, unless it is
    /// empty.
    pub fn finish(&mut self) -> (r: Option<AppEvent>)
        ensures
            final(self).stream == old(self).stream,
            final(self).line@ == buffered(Seq::empty(), old(self).line@.max_bytes),
            r is None <==> old(self).line@.bytes.len() == 0 && !old(self).line@.truncated,
            r matches Some(event) ==> is_line(
                event,
                old(self).stream,
                old(self).line@,
            ),
    {
        if self.line.is_empty() {
            assert(self.line@.bytes =~= Seq::empty());
            None
        } else {
            Some(self.send_line())
        }
    }

    /// The event of the line that has been read.
    pub fn send_line(&mut self) -> (r: AppEvent)
        ensures
            final(self).stream == old(self).stream,
            final(self).line@ == buffered(Seq::empty(), old(self).line@.max_bytes),
            is_line(r, old(self).stream, old(self).line@),
    {
        let text = self.line.take_string();
        AppEvent::Line(self.stream, text)
    }
}

/// The first line feed in `s`.
fn find_line_end(s: &[u8]) -> (r: Option<usize>)
    ensures
        position(r) == line_end(s@),
        r matches Some(i) ==> i < s@.len(),
{
    let mut i: usize = 0;
    assert(s@.skip(0) =~= s@);
    while i < s.len()
        invariant
            i <= s@.len(),
            line_end(s@) == match line_end(s@.skip(i as int)) {
                Some(j) => Some(i + j),
                None => None,
            },
        decreases s@.len() - i,
    {
        if s[i] == 10 {
            return Some(i);
        }
        assert(s@.skip(i as int).drop_first() =~= s@.skip(i + 1));
        i = i + 1;
    }
    None
}

/// The buffers of lines, each cut off at the limit.
pub open spec fn limited(lines: Seq<Seq<u8>>, max_bytes: nat) -> Seq<LineSpec> {
    Seq::new(lines.len(), |i: int| buffered(lines[i], max_bytes))
}

/// The events are lines of that stream, with the texts of those buffers.
pub open spec fn are_lines(events: Seq<AppEvent>, stream: Stream, lines: Seq<LineSpec>) -> bool {
    &&& events.len() == lines.len()
    &&& forall|i: int|
        0 <= i < events.len() ==> is_line(#[trigger] events[i], stream, lines[i])
}

/// Every line of an input becomes one event of its stream, in their order, and its text
/// is decoded from as many of its bytes as the limit allows.
pub proof fn law_lines_become_events(
    events: Seq<AppEvent>,
    stream: Stream,
    all: Seq<Seq<u8>>,
    max_bytes: nat,
    i: int,
)
    requires
        are_lines(events, stream, limited(all, max_bytes)),
        0 <= i < all.len(),
    ensures
        events.len() == all.len(),
        events[i] matches AppEvent::Line(from, text) && from == stream && text@ == if all[i].len()
            <= max_bytes {
            lossy(all[i])
        } else {
            lossy(all[i].take(max_bytes as int)) + " ... [truncated]"@
        },
{
    let lines = limited(all, max_bytes);
    assert(is_line(events[i], stream, lines[i]));
}

impl StreamReader {
    /// Reads a whole chunk, and returns the lines that end in it.
    pub fn read_lines(&mut self, chunk: &[u8]) -> (r: Vec<AppEvent>)
        ensures
            final(self).stream == old(self).stream,
            final(self).line@.max_bytes == old(self).line@.max_bytes,
            forall|seen: Seq<u8>| #[trigger]
                old(self).has_seen(seen) ==> {
                    &&& final(self).has_seen(unfinished(seen, chunk@))
                    &&& are_lines(
                        r@,
                        old(self).stream,
                        limited(finished(seen, chunk@), old(self).line@.max_bytes),
                    )
                },
    {
        let ghost max = self.line@.max_bytes;
        let ghost stream = self.stream;
        let ghost start = *self;
        let mut events: Vec<AppEvent> = Vec::new();
        let mut i: usize = 0;
        assert(chunk@.skip(0) =~= chunk@);
        proof {
            assert forall|seen: Seq<u8>| #[trigger] start.has_seen(seen) implies split_at(
                *self,
                events@,
                seen,
                chunk@,
                0,
                seen,
            ) by {
                let done = finished(seen, chunk@);
                assert(done.skip(0) =~= done);
            }
        }
        while i < chunk.len()
            invariant
                i <= chunk@.len(),
                self.stream == stream,
                self.line@.max_bytes == max,
                start.line@.max_bytes == max,
                start.stream == stream,
                forall|seen: Seq<u8>| #[trigger]
                    start.has_seen(seen) ==> exists|now: Seq<u8>| #[trigger]
                        split_at(*self, events@, seen, chunk@, i as int, now),
            decreases chunk@.len() - i,
        {
            let rest = vstd::slice::slice_subrange(chunk, i, chunk.len());
            let ghost before = *self;
            let ghost sent = events@;
            proof {
                lemma_line_end(rest@);
            }
            let (count, event) = self.read_line(rest);
            if let Some(event) = event {
                events.push(event);
            }
            assert(rest@ =~= chunk@.skip(i as int));
            assert(events@.take(sent.len() as int) =~= sent);
            proof {
                assert forall|seen: Seq<u8>| #[trigger] start.has_seen(seen) implies exists|
                    now: Seq<u8>,
                | #[trigger] split_at(*self, events@, seen, chunk@, i + count, now) by {
                    let now = choose|now: Seq<u8>| #[trigger]
                        split_at(before, sent, seen, chunk@, i as int, now);
                    assert(split_at(before, sent, seen, chunk@, i as int, now));
                    let next = lemma_split_step(
                        before,
                        *self,
                        sent,
                        events@,
                        seen,
                        chunk@,
                        i as int,
                        i + count,
                        now,
                    );
                    assert(split_at(*self, events@, seen, chunk@, i + count, next));
                }
            }
            i = i + count;
        }
        proof {
            assert forall|seen: Seq<u8>| #[trigger] start.has_seen(seen) implies self.has_seen(
                unfinished(seen, chunk@),
            ) && are_lines(events@, stream, limited(finished(seen, chunk@), max)) by {
                let now = choose|now: Seq<u8>| #[trigger]
                    split_at(*self, events@, seen, chunk@, i as int, now);
                assert(split_at(*self, events@, seen, chunk@, i as int, now));
                assert(chunk@.skip(i as int) =~= Seq::empty());
                assert(now + Seq::<u8>::empty() =~= now);
            }
        }
        events
    }
}

/// A reader that started a chunk with `seen` of a line has sent `events` and has
/// seen `now` of the line at position `i` of it. What is to come does not depend on
/// how it got there.
spec fn split_at(
    reader: StreamReader,
    events: Seq<AppEvent>,
    seen: Seq<u8>,
    chunk: Seq<u8>,
    i: int,
    now: Seq<u8>,
) -> bool {
    let max = reader.line@.max_bytes;
    let done = finished(seen, chunk);
    let rest = finished(now, chunk.skip(i));
    &&& reader.has_seen(now)
    &&& unfinished(seen, chunk) == unfinished(now, chunk.skip(i))
    &&& done.len() == events.len() + rest.len()
    &&& rest == done.skip(events.len() as int)
    &&& are_lines(events, reader.stream, limited(done.take(events.len() as int), max))
}

proof fn lemma_split_step(
    before: StreamReader,
    after: StreamReader,
    sent: Seq<AppEvent>,
    events: Seq<AppEvent>,
    seen: Seq<u8>,
    chunk: Seq<u8>,
    i: int,
    end: int,
    now: Seq<u8>,
) -> (next: Seq<u8>)
    requires
        0 <= i < chunk.len(),
        end == match line_end(chunk.skip(i)) {
            Some(j) => i + j + 1,
            None => chunk.len() as int,
        },
        split_at(before, sent, seen, chunk, i, now),
        after.stream == before.stream,
        after.line@.max_bytes == before.line@.max_bytes,
        match line_end(chunk.skip(i)) {
            Some(j) => {
                &&& events.len() == sent.len() + 1
                &&& events.take(sent.len() as int) == sent
                &&& is_line(
                    events.last(),
                    before.stream,
                    appended(before.line@, chunk.skip(i).take(j)),
                )
                &&& after.has_seen(Seq::empty())
            },
            None => {
                &&& events == sent
                &&& after.line@ == appended(before.line@, chunk.skip(i))
            },
        },
    ensures
        split_at(after, events, seen, chunk, end, next),
{
    let rest = chunk.skip(i);
    let max = before.line@.max_bytes;
    let done = finished(seen, chunk);
    lemma_line_end(rest);
    match line_end(rest) {
        Some(j) => {
            law_pieces_of_a_line_add_up(now, rest.take(j), max);
            assert(chunk.skip(i + j + 1) =~= rest.skip(j + 1));
            let more = finished(now, rest);
            let tail = finished(Seq::empty(), rest.skip(j + 1));
            assert(more == seq![now + rest.take(j)] + tail);
            assert(more[0] == now + rest.take(j));
            assert(done[sent.len() as int] == more[0]);
            assert(tail =~= more.skip(1));
            assert(done.skip(sent.len() as int).skip(1) =~= done.skip(events.len() as int));
            let texts = limited(done.take(events.len() as int), max);
            assert forall|k: int| 0 <= k < events.len() implies is_line(
                #[trigger] events[k],
                after.stream,
                texts[k],
            ) by {
                if k < sent.len() {
                    assert(events[k] == sent[k]);
                    assert(texts[k] == limited(done.take(sent.len() as int), max)[k]);
                } else {
                    assert(events[k] == events.last());
                }
            }
            Seq::empty()
        },
        None => {
            law_pieces_of_a_line_add_up(now, rest, max);
            let end = chunk.skip(chunk.len() as int);
            assert(end =~= Seq::empty());
            assert((now + rest) + end =~= now + rest);
            assert(finished(now, rest) =~= Seq::empty());
            assert(finished(now + rest, end) =~= finished(now, rest));
            now + rest
        },
    }
}

/// What follows the end of an input: a file has been read, or could not be read
/// to its end. A pipe that ends says nothing; its process does.
pub fn input_ended(stream: Stream, is_file: bool, error: Option<String>) -> (r: Option<AppEvent>)
    ensures
        r == (match error {
            Some(text) => Some(AppEvent::ReaderFailed(stream, text)),
            None => if is_file {
                Some(AppEvent::InputFinished)
            } else {
                None
            },
        }),
{
    match error {
        Some(text) => Some(AppEvent::ReaderFailed(stream, text)),
        None => if is_file {
            Some(AppEvent::InputFinished)
        } else {
            None
        },
    }
}

/// What a look at a process shows.
#[derive(Clone, Debug, PartialEq, Eq)]
pub enum ChildState {
    Running,
    Exited(String),
    LockFailed(String),
    WaitFailed(String),
}

/// The event is a failure on the error stream, with that text.
pub open spec fn is_failure(event: AppEvent, text: Seq<char>) -> bool {
    event matches AppEvent::ReaderFailed(stream, message) && stream == Stream::Stderr && message@
        == text
}

/// The event that a look at a process leads to. While it runs there is none, and
/// it is looked at again.
pub fn wait_for_child(state: ChildState) -> (r: Option<AppEvent>)
    ensures
        match state {
            ChildState::Running => r is None,
            ChildState::Exited(status) => r == Some(AppEvent::ProcessExited(status)),
            ChildState::LockFailed(error) => r matches Some(event) && is_failure(
                event,
                "wait lock failed: "@ + error@,
            ),
            ChildState::WaitFailed(error) => r matches Some(event) && is_failure(
                event,
                "wait failed: "@ + error@,
            ),
        },
{
    match state {
        ChildState::Running => None,
        ChildState::Exited(status) => Some(AppEvent::ProcessExited(status)),
        ChildState::LockFailed(error) => {
            let mut text = copy_str("wait lock failed: ");
            text.append(error.as_str());
            Some(AppEvent::ReaderFailed(Stream::Stderr, text))
        },
        ChildState::WaitFailed(error) => {
            let mut text = copy_str("wait failed: ");
            text.append(error.as_str());
            Some(AppEvent::ReaderFailed(Stream::Stderr, text))
        },
    }
}

/// Splits a command into its program and the arguments; there must be a program.
pub fn split_command(command: &[String]) -> (r: Result<(&String, &[String]), String>)
    ensures
        match r {
            Ok((program, args)) => {
                &&& command@.len() > 0
                &&& *program == command@[0]
                &&& args@ == command@.skip(1)
            },
            Err(text) => command@.len() == 0 && text@ == "missing command"@,
        },
{
    if command.len() == 0 {
        Err(copy_str("missing command"))
    } else {
        Ok((&command[0], vstd::slice::slice_subrange(command, 1, command.len())))
    }
}

} // verus!
