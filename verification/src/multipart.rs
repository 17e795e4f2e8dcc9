//! Several ranges of a stream, framed as one multipart body.

use crate::cursor::{overlay, Cursor};
use crate::ranges::Ranges;
use crate::text::{decimal, decimal_text, hex_string, hex_text, lemma_encode_concat, lemma_hex_text_len};
use rand::RngCore;
use vstd::prelude::*;
use vstd::utf8::{encode_utf8, is_ascii_chars, is_ascii_chars_encode_utf8};

verus! {

/// What a reader holds, and how far it has come.
#[verifier::ext_equal]
pub struct Reader {
    /// The length of the stream, as the parts announce it.
    pub stream_len: u64,
    /// The ranges to send, in their order.
    pub ranges: Seq<(u64, u64)>,
    /// The range being sent, the number of ranges when all have been sent, or one more
    /// when the closing boundary has been written too.
    pub idx: int,
    /// The text that separates the parts.
    pub boundary: Seq<char>,
    /// The content type that every part announces.
    pub content_type: Seq<char>,
    /// The part header or the closing boundary that is being sent.
    pub buffer: Seq<u8>,
    /// How much of the buffer has been sent.
    pub position: int,
    /// The header of the current range has been written.
    pub wrote_boundary_header: bool,
}

/// The line that opens a part.
pub open spec fn boundary_line(boundary: Seq<char>) -> Seq<char> {
    "\r\n--"@ + boundary + "\r\n"@
}

/// A line with a header field.
pub open spec fn header_line(header: Seq<char>, value: Seq<char>) -> Seq<char> {
    header + ": "@ + value + "\r\n"@
}

/// The line that ends the body.
pub open spec fn closing_line(boundary: Seq<char>) -> Seq<char> {
    "\r\n--"@ + boundary + "--\r\n\r\n"@
}

/// The value of a `Content-Range` field.
pub open spec fn content_range(start: u64, end: u64, stream_len: u64) -> Seq<char> {
    "bytes "@ + decimal(start as nat) + "-"@ + decimal(end as nat) + "/"@ + decimal(
        stream_len as nat,
    )
}

/// Writes the value of a `Content-Range` field.
pub fn content_range_text(start: u64, end: u64, stream_len: u64) -> (text: String)
    ensures
        text@ == content_range(start, end, stream_len),
{
    let mut text = "bytes ".to_owned();
    text.append(decimal_text(start).as_str());
    text.append("-");
    text.append(decimal_text(end).as_str());
    text.append("/");
    text.append(decimal_text(stream_len).as_str());
    text
}

impl Reader {
    /// A reader that has sent nothing yet.
    pub open spec fn fresh(
        stream_len: u64,
        ranges: Seq<(u64, u64)>,
        content_type: Seq<char>,
        boundary: Seq<char>,
    ) -> Reader {
        Reader {
            stream_len,
            ranges,
            idx: 0,
            boundary,
            content_type,
            buffer: Seq::empty(),
            position: 0,
            wrote_boundary_header: false,
        }
    }

    /// The bytes that come before those of `range`.
    pub open spec fn part_header(self, range: (u64, u64)) -> Seq<u8> {
        encode_utf8(boundary_line(self.boundary)) + encode_utf8(
            header_line("Content-Range"@, content_range(range.0, range.1, self.stream_len)),
        ) + encode_utf8(header_line("Content-Type"@, self.content_type)) + encode_utf8("\r\n"@)
    }

    /// The bytes that end the body.
    pub open spec fn closer(self) -> Seq<u8> {
        encode_utf8(closing_line(self.boundary))
    }

    /// Only the header of the current range or the closing boundary is ever held back,
    /// and at least one byte of it.
    pub open spec fn wf(self) -> bool {
        &&& 0 <= self.idx <= self.ranges.len() + 1
        &&& self.wrote_boundary_header ==> self.idx < self.ranges.len()
        &&& self.buffer.len() == 0 ==> self.position == 0
        &&& self.buffer.len() > 0 ==> {
            &&& 0 <= self.position < self.buffer.len()
            &&& self.wrote_boundary_header || self.idx > self.ranges.len()
            &&& self.wrote_boundary_header ==> self.buffer == self.part_header(
                self.ranges[self.idx],
            )
            &&& self.idx > self.ranges.len() ==> self.buffer == self.closer()
        }
    }

    /// `bytes` have been written into the buffer at its position.
    pub open spec fn written(self, bytes: Seq<u8>) -> Reader {
        Reader {
            buffer: overlay(self.buffer, self.position, bytes),
            position: self.position + bytes.len(),
            ..self
        }
    }

    /// The buffer holds `bytes`, none of them sent.
    pub open spec fn holding(self, bytes: Seq<u8>) -> Reader {
        Reader { buffer: bytes, position: 0, ..self }
    }

    /// The buffer is empty.
    pub open spec fn cleared(self) -> Reader {
        self.holding(Seq::empty())
    }

    /// Each of `pieces` has been written into the buffer, one after the other.
    pub open spec fn written_all(self, pieces: Seq<Seq<u8>>) -> Reader
        decreases pieces.len(),
    {
        if pieces.len() == 0 {
            self
        } else {
            self.written_all(pieces.drop_last()).written(pieces.last())
        }
    }

    /// The closing boundary has been written.
    pub open spec fn closed(self) -> Reader {
        Reader { idx: self.idx + 1, ..self.holding(self.closer()) }
    }

    /// The header of the current range has been written.
    pub open spec fn opened(self) -> Reader {
        Reader {
            wrote_boundary_header: true,
            ..self.holding(self.part_header(self.ranges[self.idx]))
        }
    }

    /// The current range has been sent.
    pub open spec fn advanced(self) -> Reader {
        Reader { idx: self.idx + 1, wrote_boundary_header: false, ..self }
    }

    /// How many bytes of the buffer go where there is space for `space` bytes.
    pub open spec fn drain_count(self, space: int) -> int {
        if space < self.buffer.len() - self.position {
            space
        } else {
            self.buffer.len() - self.position
        }
    }

    /// The bytes of the buffer that go where there is space for `space` bytes.
    pub open spec fn drained(self, space: int) -> Seq<u8> {
        self.buffer.subrange(self.position, self.position + self.drain_count(space))
    }

    /// `space` bytes of the buffer have been sent, or all of them and it is empty.
    pub open spec fn after_drain(self, space: int) -> Reader {
        if self.position + self.drain_count(space) >= self.buffer.len() {
            self.cleared()
        } else {
            Reader { position: self.position + self.drain_count(space), ..self }
        }
    }
}

impl Reader {
    /// A part header is not empty: it ends with an empty line.
    pub proof fn lemma_part_header_not_empty(self, range: (u64, u64))
        ensures
            self.part_header(range).len() > 0,
    {
        reveal_strlit("\r\n");
        assert(is_ascii_chars("\r\n"@));
        is_ascii_chars_encode_utf8("\r\n"@);
    }

    /// The closing boundary is not empty: it ends with an empty line.
    pub proof fn lemma_closer_not_empty(self)
        ensures
            self.closer().len() > 0,
    {
        let end = "--\r\n\r\n"@;
        reveal_strlit("--\r\n\r\n");
        assert(is_ascii_chars(end));
        is_ascii_chars_encode_utf8(end);
        lemma_encode_concat("\r\n--"@ + self.boundary, end);
    }

    /// Clearing the buffer leaves it as in a fresh reader, once as well as twice, and undoes
    /// whatever has been written: a reader whose buffer was empty is as before the writes.
    pub proof fn law_clearing_undoes_writes(self, pieces: Seq<Seq<u8>>)
        ensures
            self.cleared().buffer.len() == 0,
            self.cleared().position == 0,
            self.cleared().cleared() == self.cleared(),
            self.written_all(pieces).cleared() == self.cleared(),
            self.buffer.len() == 0 && self.position == 0 ==> self.written_all(pieces).cleared()
                == self,
        decreases pieces.len(),
    {
        if pieces.len() > 0 {
            self.law_clearing_undoes_writes(pieces.drop_last());
        }
        if self.buffer.len() == 0 && self.position == 0 {
            assert(self.cleared() =~= self);
        }
    }
}

/// What the stream has done since the last step of a call.
#[derive(Clone, Copy, Debug, PartialEq, Eq, Structural)]
pub enum Event {
    /// Nothing: a call begins.
    Start,
    /// It has reported its position.
    Position { filled: usize, position: u64 },
    /// It has moved to the requested position.
    Sought { filled: usize },
    /// It has read the requested number of bytes.
    ReadExact { filled: usize, count: usize },
    /// It has read some bytes.
    Read { filled: usize, count: usize },
}

/// What the stream is to do next. The first `filled` bytes of the caller's buffer are set.
#[derive(Clone, Copy, Debug, PartialEq, Eq, Structural)]
pub enum Action {
    /// Report its position.
    Position { filled: usize },
    /// Move to `start`.
    Seek { filled: usize, start: u64 },
    /// Read exactly `count` bytes, behind the `filled` ones.
    ReadExact { filled: usize, count: usize },
    /// Read some bytes, behind the `filled` ones and as many as the buffer has space for.
    Read { filled: usize },
    /// Nothing: the call is over.
    Done { filled: usize },
}

/// `event` can happen to a reader that fills a buffer of `len` bytes.
pub open spec fn admits(reader: Reader, len: nat, event: Event) -> bool {
    match event {
        Event::Start => true,
        Event::Position { filled, position } => {
            &&& filled < len
            &&& reader.buffer.len() == 0
            &&& reader.idx < reader.ranges.len()
            &&& reader.wrote_boundary_header ==> {
                &&& reader.ranges[reader.idx].1 < u64::MAX
                &&& position <= reader.ranges[reader.idx].1 + 1
            }
        },
        Event::Sought { filled } => {
            &&& filled < len
            &&& reader.idx < reader.ranges.len()
            &&& !reader.wrote_boundary_header
        },
        Event::ReadExact { filled, count } | Event::Read { filled, count } => {
            &&& filled + count <= len
            &&& reader.buffer.len() == 0
            &&& reader.wrote_boundary_header
            &&& count <= reader.ranges[reader.idx].1 + 1 - reader.ranges[reader.idx].0
        },
    }
}

/// Sends what the buffer holds, and the closing boundary once all ranges have been sent,
/// behind the first `filled` bytes of `buf`.
pub open spec fn begin(reader: Reader, buf: Seq<u8>, filled: int) -> (Reader, Seq<u8>, Action) {
    let sent = reader.after_drain(buf.len() - filled);
    let out = overlay(buf, filled, reader.drained(buf.len() - filled));
    let upto = filled + reader.drain_count(buf.len() - filled);
    if upto >= buf.len() || sent.idx > sent.ranges.len() {
        (sent, out, Action::Done { filled: upto as usize })
    } else if sent.idx < sent.ranges.len() {
        (sent, out, Action::Position { filled: upto as usize })
    } else {
        let closed = sent.closed();
        (
            closed.after_drain(buf.len() - upto),
            overlay(out, upto, closed.drained(buf.len() - upto)),
            Action::Done { filled: (upto + closed.drain_count(buf.len() - upto)) as usize },
        )
    }
}

/// What the stream is to do for the current range once its position is known.
pub open spec fn approach(reader: Reader, len: nat, filled: usize, position: u64) -> Action {
    let (start, end) = reader.ranges[reader.idx];
    let remaining = end + 1 - position;
    if !reader.wrote_boundary_header {
        Action::Seek { filled, start }
    } else if len - filled >= remaining {
        Action::ReadExact { filled, count: remaining as usize }
    } else {
        Action::Read { filled }
    }
}

/// The reader, the caller's buffer and the action after `event`.
pub open spec fn step(reader: Reader, buf: Seq<u8>, event: Event) -> (Reader, Seq<u8>, Action) {
    match event {
        Event::Start => begin(reader, buf, 0),
        Event::Position { filled, position } => (
            reader,
            buf,
            approach(reader, buf.len(), filled, position),
        ),
        Event::Sought { filled } => begin(reader.opened(), buf, filled as int),
        Event::ReadExact { filled, count } => (
            reader.advanced(),
            buf,
            Action::Done { filled: (filled + count) as usize },
        ),
        Event::Read { filled, count } => (
            reader,
            buf,
            Action::Done { filled: (filled + count) as usize },
        ),
    }
}

/// Sends several ranges of a stream as parts of one body, each with a boundary and
/// headers of its own, and a closing boundary at the end.
#[derive(Debug)]
pub struct MultipartReader {
    stream_len: u64,
    ranges: Ranges,
    idx: usize,
    closed: bool,
    boundary: String,
    content_type: String,
    buffer: Cursor,
    wrote_boundary_header: bool,
}

impl View for MultipartReader {
    type V = Reader;

    closed spec fn view(&self) -> Reader {
        Reader {
            stream_len: self.stream_len,
            ranges: self.ranges@,
            idx: if self.closed {
                self.ranges@.len() as int + 1
            } else {
                self.idx as int
            },
            boundary: self.boundary@,
            content_type: self.content_type@,
            buffer: self.buffer.bytes(),
            position: self.buffer.offset(),
            wrote_boundary_header: self.wrote_boundary_header,
        }
    }
}

/// Calls `rand::RngCore::fill_bytes` of `rand::thread_rng`, which sets every byte of `dest`
/// to a random value. Nothing is claimed of the bytes.
#[verifier::external_body]
fn fill_random(dest: &mut [u8; 30]) {
    rand::thread_rng().fill_bytes(dest)
}

/// Thirty bytes written in hexadecimal notation.
pub open spec fn is_random_boundary(boundary: Seq<char>) -> bool {
    exists|bytes: Seq<u8>| bytes.len() == 30 && boundary == #[trigger] hex_text(bytes)
}

/// Draws a boundary at random. Boundaries can be no more than 70 characters long.
pub fn random_boundary() -> (boundary: String)
    ensures
        is_random_boundary(boundary@),
        boundary@.len() <= 70,
{
    let mut x: [u8; 30] = [0; 30];
    fill_random(&mut x);
    proof {
        lemma_hex_text_len(x@);
    }
    hex_string(x.as_slice())
}

impl MultipartReader {
    /// The fields fit together.
    closed spec fn consistent(&self) -> bool {
        &&& self.buffer.wf()
        &&& self.idx <= self.ranges@.len()
        &&& self.closed ==> self.idx == self.ranges@.len()
    }

    /// The reader is in a state between two steps.
    pub closed spec fn wf(&self) -> bool {
        self.consistent() && self@.wf()
    }

    /// A reader for the given ranges, with a boundary drawn at random.
    pub fn new(stream_len: u64, content_type: String, ranges: Ranges) -> (reader: MultipartReader)
        ensures
            reader.wf(),
            reader@.wf(),
            reader@ == Reader::fresh(stream_len, ranges@, content_type@, reader@.boundary),
            is_random_boundary(reader@.boundary),
            reader@.boundary.len() <= 70,
    {
        MultipartReader::with_boundary(stream_len, content_type, ranges, random_boundary())
    }

    /// A reader for the given ranges and boundary.
    pub fn with_boundary(
        stream_len: u64,
        content_type: String,
        ranges: Ranges,
        boundary: String,
    ) -> (reader: MultipartReader)
        ensures
            reader.wf(),
            reader@.wf(),
            reader@ == Reader::fresh(stream_len, ranges@, content_type@, boundary@),
    {
        MultipartReader {
            stream_len,
            ranges,
            idx: 0,
            closed: false,
            boundary,
            content_type,
            buffer: Cursor::new(),
            wrote_boundary_header: false,
        }
    }

    /// The text that separates the parts.
    pub fn boundary(&self) -> (boundary: &str)
        ensures
            boundary@ == self@.boundary,
    {
        self.boundary.as_str()
    }

    /// Writes `text` into the buffer.
    fn write_text(&mut self, text: &str)
        requires
            old(self).consistent(),
        ensures
            final(self).consistent(),
            final(self)@ == old(self)@.written(encode_utf8(text@)),
    {
        self.buffer.write_all(text.as_bytes());
    }

    /// Writes the boundary into the buffer.
    fn write_boundary(&mut self)
        requires
            old(self).consistent(),
        ensures
            final(self).consistent(),
            final(self)@ == old(self)@.written(encode_utf8(boundary_line(old(self)@.boundary))),
    {
        let mut line = "\r\n--".to_owned();
        line.append(self.boundary.as_str());
        line.append("\r\n");
        self.write_text(line.as_str());
    }

    /// Writes a header field into the buffer.
    fn write_boundary_header(&mut self, header: &str, value: &str)
        requires
            old(self).consistent(),
        ensures
            final(self).consistent(),
            final(self)@ == old(self)@.written(encode_utf8(header_line(header@, value@))),
    {
        let mut line = header.to_owned();
        line.append(": ");
        line.append(value);
        line.append("\r\n");
        self.write_text(line.as_str());
    }

    /// Writes the end of a line into the buffer.
    fn write_boundary_end(&mut self)
        requires
            old(self).consistent(),
        ensures
            final(self).consistent(),
            final(self)@ == old(self)@.written(encode_utf8("\r\n"@)),
    {
        self.write_text("\r\n");
    }

    /// Writes the closing boundary into the buffer.
    fn write_boundary_closer(&mut self)
        requires
            old(self).consistent(),
        ensures
            final(self).consistent(),
            final(self)@ == old(self)@.written(encode_utf8(closing_line(old(self)@.boundary))),
    {
        let mut line = "\r\n--".to_owned();
        line.append(self.boundary.as_str());
        line.append("--\r\n\r\n");
        self.write_text(line.as_str());
    }

    /// Empties the buffer.
    fn clear_buffer(&mut self)
        requires
            old(self).consistent(),
        ensures
            final(self).consistent(),
            final(self)@ == old(self)@.cleared(),
    {
        self.buffer.clear();
    }

    /// Sends what the buffer holds behind the first `filled` bytes of `buf`, and tells how
    /// many bytes of `buf` are set then.
    fn drain(&mut self, buf: &mut [u8], filled: usize) -> (upto: usize)
        requires
            old(self).wf(),
            filled <= old(buf)@.len(),
        ensures
            final(self).wf(),
            final(self)@ == old(self)@.after_drain(old(buf)@.len() - filled),
            final(buf)@ == overlay(
                old(buf)@,
                filled as int,
                old(self)@.drained(old(buf)@.len() - filled),
            ),
            upto == filled + old(self)@.drain_count(old(buf)@.len() - filled),
    {
        let mut count: usize = 0;
        let bufsize: usize = self.buffer.len();
        if bufsize > 0 {
            if self.buffer.position() < bufsize {
                count = self.buffer.read(buf, filled);
            }
            if self.buffer.position() >= bufsize {
                self.clear_buffer();
            }
        }
        assert(buf@ =~= overlay(
            old(buf)@,
            filled as int,
            old(self)@.drained(old(buf)@.len() - filled),
        ));
        assert(filled + count <= buf.len());
        filled + count
    }

    /// Writes the header of the current range into the empty buffer.
    fn open_part(&mut self)
        requires
            old(self).wf(),
            old(self)@.buffer.len() == 0,
            old(self)@.idx < old(self)@.ranges.len(),
        ensures
            final(self).wf(),
            final(self)@ == old(self)@.opened(),
    {
        let (start, end) = self.ranges[self.idx];
        let ghost before = self@;
        self.write_boundary();
        let range = content_range_text(start, end, self.stream_len);
        self.write_boundary_header("Content-Range", range.as_str());
        let content_type = self.content_type.clone();
        self.write_boundary_header("Content-Type", content_type.as_str());
        self.write_boundary_end();
        self.wrote_boundary_header = true;
        self.buffer.rewind();
        proof {
            assert(self@.buffer =~= before.part_header((start, end)));
            before.lemma_part_header_not_empty((start, end));
        }
    }

    /// Writes the closing boundary into the empty buffer.
    fn close(&mut self)
        requires
            old(self).wf(),
            old(self)@.buffer.len() == 0,
            old(self)@.idx == old(self)@.ranges.len(),
        ensures
            final(self).wf(),
            final(self)@ == old(self)@.closed(),
    {
        let ghost before = self@;
        self.write_boundary_closer();
        self.buffer.rewind();
        self.closed = true;
        proof {
            assert(self@.buffer =~= before.closer());
            before.lemma_closer_not_empty();
        }
    }

    /// Sends what the buffer holds, and the closing boundary once all ranges have been
    /// sent, behind the first `filled` bytes of `buf`.
    fn begin(&mut self, buf: &mut [u8], filled: usize) -> (action: Action)
        requires
            old(self).wf(),
            filled <= old(buf)@.len(),
        ensures
            final(self).wf(),
            (final(self)@, final(buf)@, action) == begin(old(self)@, old(buf)@, filled as int),
    {
        let upto: usize = self.drain(buf, filled);
        if upto >= buf.len() || self.closed {
            return Action::Done { filled: upto };
        }
        if self.idx < self.ranges.len() {
            return Action::Position { filled: upto };
        }
        self.close();
        Action::Done { filled: self.drain(buf, upto) }
    }

    /// Tells what the stream is to do for the current range once its position is known.
    fn approach(&self, len: usize, filled: usize, position: u64) -> (action: Action)
        requires
            self.wf(),
            admits(self@, len as nat, Event::Position { filled, position }),
        ensures
            action == approach(self@, len as nat, filled, position),
    {
        let (start, end) = self.ranges[self.idx];
        if !self.wrote_boundary_header {
            return Action::Seek { filled, start };
        }
        let remaining: u64 = end + 1 - position;
        if (len - filled) as u64 >= remaining {
            Action::ReadExact { filled, count: remaining as usize }
        } else {
            Action::Read { filled }
        }
    }

    /// Tells whether `event` can happen while the reader fills a buffer of `len` bytes.
    pub fn admits(&self, len: usize, event: Event) -> (yes: bool)
        requires
            self.wf(),
        ensures
            yes == admits(self@, len as nat, event),
    {
        match event {
            Event::Start => true,
            Event::Position { filled, position } => {
                filled < len && self.buffer.len() == 0 && self.idx < self.ranges.len() && (
                !self.wrote_boundary_header || (self.ranges[self.idx].1 < u64::MAX && position
                    <= self.ranges[self.idx].1 + 1))
            },
            Event::Sought { filled } => {
                filled < len && self.idx < self.ranges.len() && !self.wrote_boundary_header
            },
            Event::ReadExact { filled, count } | Event::Read { filled, count } => {
                if !self.wrote_boundary_header {
                    return false;
                }
                let (start, end) = self.ranges[self.idx];
                let within: bool = if start <= end {
                    count == 0 || (count - 1) as u64 <= end - start
                } else {
                    count == 0 && start - end == 1
                };
                filled <= len && count <= len - filled && self.buffer.len() == 0 && within
            },
        }
    }

    /// Reads the next bytes of the body into `buf`, step by step: each step takes what the
    /// stream has done, and says what it is to do next or that the call is over.
    pub fn poll_read(&mut self, buf: &mut [u8], event: Event) -> (action: Action)
        requires
            old(self).wf(),
            admits(old(self)@, old(buf)@.len(), event),
        ensures
            final(self).wf(),
            final(self)@.wf(),
            (final(self)@, final(buf)@, action) == step(old(self)@, old(buf)@, event),
    {
        assert(buf.len() == buf@.len());
        match event {
            Event::Start => self.begin(buf, 0),
            Event::Position { filled, position } => self.approach(buf.len(), filled, position),
            Event::Sought { filled } => {
                self.open_part();
                self.begin(buf, filled)
            },
            Event::ReadExact { filled, count } => {
                assert(self.idx < self.ranges.len());
                self.idx += 1;
                self.wrote_boundary_header = false;
                Action::Done { filled: filled + count }
            },
            Event::Read { filled, count } => Action::Done { filled: filled + count },
        }
    }
}

} // verus!
