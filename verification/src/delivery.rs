//! What the calls of a multipart reader deliver, taken together.
//!
//! The stream is a sequence of bytes, `data`, with a position, `at`. It does what it is
//! asked: it reports its position, moves, and reads the bytes that follow its position.

use crate::cursor::overlay;
use crate::multipart::{admits, begin, step, Action, Event, Reader};
use crate::ranges::{all_satisfiable, canonical, clamped_ranges, ByteRange};
use crate::seekstream::{
    answers_ranges, lemma_selected_is_within, Body, Outcome, Response, Step,
};
use vstd::prelude::*;

verus! {

/// The parts from the range with index `from` on, headers and contents.
pub open spec fn parts_from(reader: Reader, from: int, data: Seq<u8>) -> Seq<u8>
    decreases reader.ranges.len() - from,
{
    if 0 <= from < reader.ranges.len() {
        let (start, end) = reader.ranges[from];
        reader.part_header((start, end)) + data.subrange(start as int, end + 1) + parts_from(
            reader,
            from + 1,
            data,
        )
    } else {
        Seq::empty()
    }
}

/// The whole body: every part, and the closing boundary.
pub open spec fn body(reader: Reader, data: Seq<u8>) -> Seq<u8> {
    parts_from(reader, 0, data) + reader.closer()
}

/// The bytes of the body that have not been delivered yet.
pub open spec fn rest(reader: Reader, at: int, data: Seq<u8>) -> Seq<u8> {
    let unsent = reader.buffer.skip(reader.position);
    if reader.idx > reader.ranges.len() {
        unsent
    } else if reader.wrote_boundary_header {
        unsent + data.subrange(at, reader.ranges[reader.idx].1 + 1) + parts_from(
            reader,
            reader.idx + 1,
            data,
        ) + reader.closer()
    } else {
        parts_from(reader, reader.idx, data) + reader.closer()
    }
}

/// Every range lies within the stream.
pub open spec fn covers(data: Seq<u8>, ranges: Seq<(u64, u64)>) -> bool {
    forall|i: int|
        0 <= i < ranges.len() ==> {
            let (start, end) = #[trigger] ranges[i];
            &&& start <= end + 1 <= data.len()
            &&& end < u64::MAX
        }
}

/// The stream stands where the reader has left it: at the start of the current range or
/// at a later byte of it, once the header of the range has been written.
pub open spec fn in_place(reader: Reader, at: int) -> bool {
    reader.wrote_boundary_header ==> {
        let (start, end) = reader.ranges[reader.idx];
        at == start || start <= at <= end
    }
}

/// A moment in a call: the reader, the position of the stream, the caller's buffer, and
/// what the stream is to do.
#[verifier::ext_equal]
pub struct Moment {
    pub reader: Reader,
    pub at: int,
    pub buf: Seq<u8>,
    pub action: Action,
}

/// How many bytes of the caller's buffer are set.
pub open spec fn filled(action: Action) -> int {
    match action {
        Action::Position { filled } => filled as int,
        Action::Seek { filled, .. } => filled as int,
        Action::ReadExact { filled, .. } => filled as int,
        Action::Read { filled } => filled as int,
        Action::Done { filled } => filled as int,
    }
}

impl Moment {
    /// The bytes of the caller's buffer that are set.
    pub open spec fn set(self) -> Seq<u8> {
        self.buf.take(filled(self.action))
    }

    /// The moment after `event`, with the stream at `at`.
    pub open spec fn after(self, at: int, event: Event) -> Moment {
        let (reader, buf, action) = step(self.reader, self.buf, event);
        Moment { reader, at, buf, action }
    }

    /// The stream has read `count` bytes behind those that are set.
    pub open spec fn filled_up(self, data: Seq<u8>, count: int) -> Moment {
        Moment {
            buf: overlay(
                self.buf,
                filled(self.action),
                data.subrange(self.at, self.at + count),
            ),
            ..self
        }
    }

    /// What the stream does: what it is to do, but it reads at most `chunk` bytes. Where that
    /// is less than it is to read exactly, they are taken as they are.
    pub open spec fn reply(self, chunk: nat) -> Event {
        match self.action {
            Action::Position { filled } => Event::Position { filled, position: self.at as u64 },
            Action::Seek { filled, .. } => Event::Sought { filled },
            Action::ReadExact { filled, count } => if chunk < count {
                Event::Read { filled, count: chunk as usize }
            } else {
                Event::ReadExact { filled, count }
            },
            Action::Read { filled } => if chunk < self.buf.len() - filled {
                Event::Read { filled, count: chunk as usize }
            } else {
                Event::Read { filled, count: (self.buf.len() - filled) as usize }
            },
            Action::Done { .. } => Event::Start,
        }
    }

    /// The moment after the reply of the stream. A call that is over stays so.
    pub open spec fn replied(self, data: Seq<u8>, chunk: nat) -> Moment {
        if self.action is Done {
            self
        } else {
            let event = self.reply(chunk);
            match (self.action, event) {
                (Action::Seek { start, .. }, _) => self.after(start as int, event),
                (_, Event::ReadExact { count, .. }) => self.filled_up(data, count as int).after(
                    self.at + count,
                    event,
                ),
                (_, Event::Read { count, .. }) => self.filled_up(data, count as int).after(
                    self.at + count,
                    event,
                ),
                _ => self.after(self.at, event),
            }
        }
    }
}

/// The first moment of a call with the buffer `buf`.
pub open spec fn started(reader: Reader, at: int, buf: Seq<u8>) -> Moment {
    let (next, out, action) = step(reader, buf, Event::Start);
    Moment { reader: next, at, buf: out, action }
}

/// The moment of a call at which the stream has replied `replies` times.
pub open spec fn moment(
    reader: Reader,
    at: int,
    data: Seq<u8>,
    buf: Seq<u8>,
    chunk: nat,
    replies: nat,
) -> Moment
    decreases replies,
{
    if replies == 0 {
        started(reader, at, buf)
    } else {
        moment(reader, at, data, buf, chunk, (replies - 1) as nat).replied(data, chunk)
    }
}

/// The most replies that a call takes: a position, a move, another position, and a read.
pub const REPLIES: u64 = 4;

/// The reader, the position of the stream and the delivered bytes after one call with
/// the buffer `buf`.
pub open spec fn call(
    reader: Reader,
    at: int,
    data: Seq<u8>,
    buf: Seq<u8>,
    chunk: nat,
) -> (Reader, int, Seq<u8>) {
    let last = moment(reader, at, data, buf, chunk, REPLIES as nat);
    (last.reader, last.at, last.set())
}

/// The two readers send the same parts.
spec fn same_parts(a: Reader, b: Reader) -> bool {
    &&& a.stream_len == b.stream_len
    &&& a.ranges == b.ranges
    &&& a.boundary == b.boundary
    &&& a.content_type == b.content_type
}

proof fn lemma_same_parts(a: Reader, b: Reader, from: int, data: Seq<u8>)
    requires
        same_parts(a, b),
    ensures
        parts_from(a, from, data) == parts_from(b, from, data),
        a.closer() == b.closer(),
    decreases a.ranges.len() - from,
{
    if 0 <= from < a.ranges.len() {
        lemma_same_parts(a, b, from + 1, data);
    }
}

/// A buffer that is written to holds what it held before and what was written.
proof fn lemma_overlay_take(base: Seq<u8>, at: int, data: Seq<u8>)
    requires
        0 <= at,
        at + data.len() <= base.len(),
    ensures
        overlay(base, at, data).len() == base.len(),
        overlay(base, at, data).take(at + data.len()) == base.take(at) + data,
{
    assert(overlay(base, at, data).take(at + data.len()) =~= base.take(at) + data);
}

/// Draining moves bytes from the buffer to the caller.
proof fn lemma_drain(reader: Reader, space: int)
    requires
        reader.wf(),
        space >= 0,
    ensures
        ({
            let next = reader.after_drain(space);
            &&& next.wf()
            &&& same_parts(next, reader)
            &&& next.idx == reader.idx
            &&& next.wrote_boundary_header == reader.wrote_boundary_header
            &&& reader.drained(space).len() == reader.drain_count(space) <= space
            &&& reader.drain_count(space) < space ==> next.buffer.len() == 0
            &&& reader.drained(space) + next.buffer.skip(next.position) == reader.buffer.skip(
                reader.position,
            )
        }),
{
    let next = reader.after_drain(space);
    assert(reader.drained(space) + next.buffer.skip(next.position) =~= reader.buffer.skip(
        reader.position,
    ));
}

/// The bytes to come that are not in the buffer.
spec fn tail(reader: Reader, at: int, data: Seq<u8>) -> Seq<u8> {
    if reader.idx > reader.ranges.len() {
        Seq::empty()
    } else if reader.wrote_boundary_header {
        data.subrange(at, reader.ranges[reader.idx].1 + 1) + parts_from(
            reader,
            reader.idx + 1,
            data,
        ) + reader.closer()
    } else {
        parts_from(reader, reader.idx, data) + reader.closer()
    }
}

proof fn lemma_tail(reader: Reader, at: int, data: Seq<u8>)
    requires
        reader.wf(),
    ensures
        rest(reader, at, data) == reader.buffer.skip(reader.position) + tail(reader, at, data),
{
    assert(rest(reader, at, data) =~= reader.buffer.skip(reader.position) + tail(
        reader,
        at,
        data,
    ));
}

/// Sending the buffer delivers the next bytes of the body.
proof fn lemma_send(reader: Reader, at: int, data: Seq<u8>, buf: Seq<u8>, filled: int)
    requires
        reader.wf(),
        0 <= filled <= buf.len(),
    ensures
        ({
            let space = buf.len() - filled;
            let next = reader.after_drain(space);
            let out = overlay(buf, filled, reader.drained(space));
            let upto = filled + reader.drain_count(space);
            &&& out.len() == buf.len()
            &&& filled <= upto <= buf.len()
            &&& out.take(upto) + rest(next, at, data) == buf.take(filled) + rest(reader, at, data)
        }),
{
    let space = buf.len() - filled;
    let next = reader.after_drain(space);
    let out = overlay(buf, filled, reader.drained(space));
    let upto = filled + reader.drain_count(space);
    let base = buf.take(filled);
    let sent = reader.drained(space);
    let kept = next.buffer.skip(next.position);
    let tail = tail(reader, at, data);
    lemma_drain(reader, space);
    lemma_overlay_take(buf, filled, sent);
    lemma_same_parts(next, reader, reader.idx, data);
    lemma_same_parts(next, reader, reader.idx + 1, data);
    lemma_tail(reader, at, data);
    lemma_tail(next, at, data);
    assert(rest(next, at, data) == kept + tail);
    assert(rest(reader, at, data) == sent + kept + tail);
    assert(out.take(upto) == base + sent);
    assert((base + sent) + (kept + tail) =~= base + (sent + kept + tail));
}

/// Writing the closing boundary leaves the bytes to come as they are.
proof fn lemma_closed(reader: Reader, at: int, data: Seq<u8>)
    requires
        reader.wf(),
        reader.buffer.len() == 0,
        reader.idx == reader.ranges.len(),
    ensures
        reader.closed().wf(),
        same_parts(reader.closed(), reader),
        rest(reader.closed(), at, data) == rest(reader, at, data),
{
    reader.lemma_closer_not_empty();
    assert(parts_from(reader, reader.idx, data) =~= Seq::empty());
    assert(reader.closed().buffer.skip(0) =~= reader.closer());
    assert(rest(reader.closed(), at, data) =~= rest(reader, at, data));
}

/// Sending the buffer and the closing boundary delivers the next bytes of the body.
proof fn lemma_begin(reader: Reader, at: int, data: Seq<u8>, buf: Seq<u8>, filled: int)
    requires
        reader.wf(),
        0 <= filled <= buf.len() <= usize::MAX,
    ensures
        ({
            let (next, out, action) = begin(reader, buf, filled);
            let upto = match action {
                Action::Position { filled } => filled,
                Action::Done { filled } => filled,
                _ => 0,
            };
            &&& next.wf()
            &&& same_parts(next, reader)
            &&& next.wrote_boundary_header == reader.wrote_boundary_header
            &&& out.len() == buf.len()
            &&& filled <= upto <= buf.len()
            &&& out.take(upto as int) + rest(next, at, data) == buf.take(filled) + rest(
                reader,
                at,
                data,
            )
            &&& action is Position || action is Done
            &&& action is Position ==> {
                &&& upto < buf.len()
                &&& next.buffer.len() == 0
                &&& next.idx == reader.idx < reader.ranges.len()
            }
        }),
{
    let space = buf.len() - filled;
    let sent = reader.after_drain(space);
    let upto = filled + reader.drain_count(space);
    let out = overlay(buf, filled, reader.drained(space));
    lemma_drain(reader, space);
    lemma_send(reader, at, data, buf, filled);
    if upto < buf.len() && sent.idx == sent.ranges.len() {
        assert(reader.buffer.len() == 0);
        assert(sent =~= reader);
        assert(upto == filled);
        assert(out =~= buf);
        lemma_closed(reader, at, data);
        lemma_drain(reader.closed(), space);
        lemma_send(reader.closed(), at, data, buf, filled);
    }
}

/// Writing a part header leaves the bytes to come as they are.
proof fn lemma_opened(reader: Reader, at: int, data: Seq<u8>)
    requires
        reader.wf(),
        reader.buffer.len() == 0,
        reader.idx < reader.ranges.len(),
        !reader.wrote_boundary_header,
    ensures
        reader.opened().wf(),
        same_parts(reader.opened(), reader),
        rest(reader.opened(), reader.ranges[reader.idx].0 as int, data) == rest(reader, at, data),
{
    let range = reader.ranges[reader.idx];
    let opened = reader.opened();
    reader.lemma_part_header_not_empty(range);
    lemma_same_parts(opened, reader, reader.idx + 1, data);
    assert(opened.buffer.skip(0) =~= reader.part_header(range));
    assert(rest(opened, range.0 as int, data) =~= rest(reader, at, data));
}

/// What holds at every moment of a call that began with `whole` still to come.
spec fn sound(m: Moment, data: Seq<u8>, whole: Seq<u8>) -> bool {
    let (start, end) = m.reader.ranges[m.reader.idx];
    &&& m.reader.wf()
    &&& covers(data, m.reader.ranges)
    &&& in_place(m.reader, m.at)
    &&& 0 <= m.at <= u64::MAX
    &&& 0 <= filled(m.action) <= m.buf.len() <= usize::MAX
    &&& m.set() + rest(m.reader, m.at, data) == whole
    &&& m.action !is Done ==> {
        &&& filled(m.action) < m.buf.len()
        &&& m.reader.buffer.len() == 0
        &&& m.reader.idx < m.reader.ranges.len()
    }
    &&& match m.action {
        Action::Seek { start: to, .. } => to == start && !m.reader.wrote_boundary_header,
        Action::ReadExact { filled, count } => {
            &&& m.reader.wrote_boundary_header
            &&& count == end + 1 - m.at
            &&& filled + count <= m.buf.len()
        },
        Action::Read { filled } => {
            &&& m.reader.wrote_boundary_header
            &&& m.buf.len() - filled < end + 1 - m.at
        },
        _ => true,
    }
}

proof fn lemma_started(reader: Reader, at: int, data: Seq<u8>, buf: Seq<u8>)
    requires
        reader.wf(),
        covers(data, reader.ranges),
        in_place(reader, at),
        0 <= at <= u64::MAX,
        buf.len() <= usize::MAX,
    ensures
        sound(started(reader, at, buf), data, rest(reader, at, data)),
        same_parts(started(reader, at, buf).reader, reader),
        started(reader, at, buf).action is Position || started(reader, at, buf).action is Done,
        started(reader, at, buf).buf.len() == buf.len(),
        started(reader, at, buf).reader.wrote_boundary_header == reader.wrote_boundary_header,
        started(reader, at, buf).action is Position ==> started(reader, at, buf).reader.idx
            == reader.idx,
{
    lemma_begin(reader, at, data, buf, 0);
    assert(buf.take(0) + rest(reader, at, data) =~= rest(reader, at, data));
}

/// Reading bytes of the current range delivers them.
proof fn lemma_read(m: Moment, data: Seq<u8>, whole: Seq<u8>, count: int)
    requires
        sound(m, data, whole),
        m.reader.wrote_boundary_header,
        m.reader.buffer.len() == 0,
        m.action !is Done,
        0 <= count,
        filled(m.action) + count <= m.buf.len(),
        m.at + count <= m.reader.ranges[m.reader.idx].1 + 1,
    ensures
        m.filled_up(data, count).buf.len() == m.buf.len(),
        ({
            let (start, end) = m.reader.ranges[m.reader.idx];
            let set = m.filled_up(data, count).buf.take(filled(m.action) + count);
            &&& set + rest(m.reader, m.at + count, data) == whole
            &&& m.at + count == end + 1 ==> set + rest(
                m.reader.advanced(),
                m.at + count,
                data,
            ) == whole
        }),
{
    let (start, end) = m.reader.ranges[m.reader.idx];
    let got = data.subrange(m.at, m.at + count);
    let left = data.subrange(m.at + count, end + 1);
    let after = parts_from(m.reader, m.reader.idx + 1, data);
    let closer = m.reader.closer();
    let set = m.filled_up(data, count).buf.take(filled(m.action) + count);
    lemma_overlay_take(m.buf, filled(m.action), got);
    assert(set == m.set() + got);
    assert(data.subrange(m.at, end + 1) =~= got + left);
    assert(m.reader.buffer.skip(m.reader.position) =~= Seq::empty());
    assert(rest(m.reader, m.at, data) =~= got + left + after + closer);
    assert(rest(m.reader, m.at + count, data) =~= left + after + closer);
    assert(set + (left + after + closer) =~= m.set() + (got + left + after + closer));
    if m.at + count == end + 1 {
        lemma_same_parts(m.reader.advanced(), m.reader, m.reader.idx + 1, data);
        assert(left =~= Seq::empty());
        assert(rest(m.reader.advanced(), m.at + count, data) =~= left + after + closer);
    }
}

/// A reply of the stream keeps what holds at every moment of a call.
#[verifier::rlimit(40)]
proof fn lemma_replied(m: Moment, data: Seq<u8>, whole: Seq<u8>, chunk: nat)
    requires
        sound(m, data, whole),
    ensures
        ({
            let next = m.replied(data, chunk);
            &&& sound(next, data, whole)
            &&& same_parts(next.reader, m.reader)
            &&& next.buf.len() == m.buf.len()
            &&& filled(m.action) <= filled(next.action)
            &&& match m.action {
                Action::Position { .. } => if m.reader.wrote_boundary_header {
                    next.action is ReadExact || next.action is Read
                } else {
                    next.action is Seek
                },
                Action::Seek { .. } => {
                    &&& next.action is Position || next.action is Done
                    &&& next.reader.wrote_boundary_header
                    &&& filled(m.action) < filled(next.action)
                },
                Action::ReadExact { .. } => {
                    &&& next.action is Done
                    &&& chunk > 0 && m.at <= m.reader.ranges[m.reader.idx].1 ==> filled(m.action)
                        < filled(next.action)
                },
                Action::Read { .. } => {
                    &&& next.action is Done
                    &&& chunk > 0 ==> filled(m.action) < filled(next.action)
                },
                Action::Done { .. } => next == m,
            }
        }),
{
    let next = m.replied(data, chunk);
    let (start, end) = m.reader.ranges[m.reader.idx];
    match m.action {
        Action::Position { filled } => {
            assert(next.set() == m.set());
        },
        Action::Seek { filled, start: to } => {
            m.reader.lemma_part_header_not_empty((start, end));
            lemma_opened(m.reader, m.at, data);
            lemma_begin(m.reader.opened(), start as int, data, m.buf, filled as int);
            assert(m.reader.opened().drain_count(m.buf.len() - filled) > 0);
        },
        Action::ReadExact { filled, count } => {
            lemma_read(m, data, whole, if chunk < count { chunk as int } else { count as int });
        },
        Action::Read { filled } => {
            let space = m.buf.len() - filled;
            lemma_read(m, data, whole, if chunk < space { chunk as int } else { space });
        },
        Action::Done { .. } => {},
    }
}

proof fn lemma_moment(
    reader: Reader,
    at: int,
    data: Seq<u8>,
    buf: Seq<u8>,
    chunk: nat,
    replies: nat,
)
    requires
        reader.wf(),
        covers(data, reader.ranges),
        in_place(reader, at),
        0 <= at <= u64::MAX,
        buf.len() <= usize::MAX,
    ensures
        sound(moment(reader, at, data, buf, chunk, replies), data, rest(reader, at, data)),
        same_parts(moment(reader, at, data, buf, chunk, replies).reader, reader),
        moment(reader, at, data, buf, chunk, replies).buf.len() == buf.len(),
    decreases replies,
{
    if replies == 0 {
        lemma_started(reader, at, data, buf);
    } else {
        let before = (replies - 1) as nat;
        lemma_moment(reader, at, data, buf, chunk, before);
        lemma_replied(
            moment(reader, at, data, buf, chunk, before),
            data,
            rest(reader, at, data),
            chunk,
        );
    }
}

/// The buffer of a call stays as long as it is.
pub proof fn law_moment_keeps_the_buffer(
    reader: Reader,
    at: int,
    data: Seq<u8>,
    buf: Seq<u8>,
    chunk: nat,
    replies: nat,
)
    requires
        reader.wf(),
        covers(data, reader.ranges),
        in_place(reader, at),
        0 <= at <= u64::MAX,
        buf.len() <= usize::MAX,
    ensures
        moment(reader, at, data, buf, chunk, replies).buf.len() == buf.len(),
{
    lemma_moment(reader, at, data, buf, chunk, replies);
}

/// Every reply of the stream in a call is one that the reader admits.
pub proof fn law_replies_are_admitted(
    reader: Reader,
    at: int,
    data: Seq<u8>,
    buf: Seq<u8>,
    chunk: nat,
    replies: nat,
)
    requires
        reader.wf(),
        covers(data, reader.ranges),
        in_place(reader, at),
        0 <= at <= u64::MAX,
        buf.len() <= usize::MAX,
    ensures
        ({
            let m = moment(reader, at, data, buf, chunk, replies);
            m.action is Done || admits(m.reader, m.buf.len(), m.reply(chunk))
        }),
{
    lemma_moment(reader, at, data, buf, chunk, replies);
}

/// A call is over after at most four replies of the stream.
pub proof fn law_call_is_short(reader: Reader, at: int, data: Seq<u8>, buf: Seq<u8>, chunk: nat)
    requires
        reader.wf(),
        covers(data, reader.ranges),
        in_place(reader, at),
        0 <= at <= u64::MAX,
        buf.len() <= usize::MAX,
    ensures
        moment(reader, at, data, buf, chunk, REPLIES as nat).action is Done,
{
    let whole = rest(reader, at, data);
    let m0 = moment(reader, at, data, buf, chunk, 0);
    let m1 = moment(reader, at, data, buf, chunk, 1);
    let m2 = moment(reader, at, data, buf, chunk, 2);
    let m3 = moment(reader, at, data, buf, chunk, 3);
    lemma_started(reader, at, data, buf);
    assert(m1 == m0.replied(data, chunk));
    lemma_replied(m0, data, whole, chunk);
    assert(m2 == m1.replied(data, chunk));
    lemma_replied(m1, data, whole, chunk);
    assert(m3 == m2.replied(data, chunk));
    lemma_replied(m2, data, whole, chunk);
    assert(moment(reader, at, data, buf, chunk, 4) == m3.replied(data, chunk));
    lemma_replied(m3, data, whole, chunk);
}

/// A call delivers the next bytes of the body and nothing else, whatever the size of its
/// buffer and however the stream splits its reads.
pub proof fn law_call_delivers(reader: Reader, at: int, data: Seq<u8>, buf: Seq<u8>, chunk: nat)
    requires
        reader.wf(),
        covers(data, reader.ranges),
        in_place(reader, at),
        0 <= at <= u64::MAX,
        buf.len() <= usize::MAX,
    ensures
        ({
            let (next, moved, delivered) = call(reader, at, data, buf, chunk);
            &&& next.wf()
            &&& next.ranges == reader.ranges
            &&& in_place(next, moved)
            &&& 0 <= moved <= u64::MAX
            &&& delivered.len() <= buf.len()
            &&& delivered + rest(next, moved, data) == rest(reader, at, data)
        }),
{
    lemma_moment(reader, at, data, buf, chunk, REPLIES as nat);
}

/// A call that stops early, at whatever the stream is to do next, has delivered the next
/// bytes of the body: those that are set. Another call, with any buffer, goes on behind
/// them.
pub proof fn law_interrupted_call_delivers(
    reader: Reader,
    at: int,
    data: Seq<u8>,
    buf: Seq<u8>,
    chunk: nat,
    replies: nat,
    again: Seq<u8>,
    more: nat,
)
    requires
        reader.wf(),
        covers(data, reader.ranges),
        in_place(reader, at),
        0 <= at <= u64::MAX,
        buf.len() <= usize::MAX,
        again.len() <= usize::MAX,
    ensures
        ({
            let stopped = moment(reader, at, data, buf, chunk, replies);
            let (next, moved, delivered) = call(stopped.reader, stopped.at, data, again, more);
            &&& stopped.reader.wf()
            &&& in_place(stopped.reader, stopped.at)
            &&& stopped.set() + rest(stopped.reader, stopped.at, data) == rest(reader, at, data)
            &&& stopped.set() + delivered + rest(next, moved, data) == rest(reader, at, data)
        }),
{
    let stopped = moment(reader, at, data, buf, chunk, replies);
    let (next, moved, delivered) = call(stopped.reader, stopped.at, data, again, more);
    lemma_moment(reader, at, data, buf, chunk, replies);
    law_call_delivers(stopped.reader, stopped.at, data, again, more);
    assert(stopped.set() + delivered + rest(next, moved, data) =~= stopped.set() + (delivered
        + rest(next, moved, data)));
}

/// The reader, the position of the stream and the delivered bytes after a call with each
/// of `bufs` in turn, where `chunks` says how many bytes the stream reads at most.
pub open spec fn calls(
    reader: Reader,
    at: int,
    data: Seq<u8>,
    bufs: Seq<Seq<u8>>,
    chunks: Seq<nat>,
) -> (Reader, int, Seq<u8>)
    decreases bufs.len(),
{
    if bufs.len() == 0 {
        (reader, at, Seq::empty())
    } else {
        let (next, moved, delivered) = call(reader, at, data, bufs[0], chunks[0]);
        let (last, end, more) = calls(next, moved, data, bufs.drop_first(), chunks.drop_first());
        (last, end, delivered + more)
    }
}

/// Everything has been sent, the closing boundary too.
pub open spec fn finished(reader: Reader) -> bool {
    reader.idx > reader.ranges.len() && reader.buffer.len() == 0
}

/// Calls deliver the bytes of the body in their order, each of them once.
pub proof fn law_calls_deliver(
    reader: Reader,
    at: int,
    data: Seq<u8>,
    bufs: Seq<Seq<u8>>,
    chunks: Seq<nat>,
)
    requires
        reader.wf(),
        covers(data, reader.ranges),
        in_place(reader, at),
        0 <= at <= u64::MAX,
        bufs.len() == chunks.len(),
        forall|i: int| 0 <= i < bufs.len() ==> (#[trigger] bufs[i]).len() <= usize::MAX,
    ensures
        ({
            let (last, end, delivered) = calls(reader, at, data, bufs, chunks);
            &&& last.wf()
            &&& last.ranges == reader.ranges
            &&& in_place(last, end)
            &&& 0 <= end <= u64::MAX
            &&& delivered + rest(last, end, data) == rest(reader, at, data)
        }),
    decreases bufs.len(),
{
    if bufs.len() == 0 {
        assert(Seq::<u8>::empty() + rest(reader, at, data) =~= rest(reader, at, data));
    } else {
        let (next, moved, delivered) = call(reader, at, data, bufs[0], chunks[0]);
        law_call_delivers(reader, at, data, bufs[0], chunks[0]);
        let more = bufs.drop_first();
        assert forall|i: int| 0 <= i < more.len() implies (#[trigger] more[i]).len()
            <= usize::MAX by {
            assert(more[i] == bufs[i + 1]);
        }
        law_calls_deliver(next, moved, data, more, chunks.drop_first());
        let (last, end, all) = calls(reader, at, data, bufs, chunks);
        assert(all + rest(last, end, data) =~= rest(reader, at, data));
    }
}

/// A reader that is called until it has finished has delivered every range with its
/// boundary and headers, in the order of the ranges, and the closing boundary.
pub proof fn law_body_is_delivered(
    reader: Reader,
    at: int,
    data: Seq<u8>,
    bufs: Seq<Seq<u8>>,
    chunks: Seq<nat>,
)
    requires
        reader == Reader::fresh(
            reader.stream_len,
            reader.ranges,
            reader.content_type,
            reader.boundary,
        ),
        covers(data, reader.ranges),
        0 <= at <= u64::MAX,
        bufs.len() == chunks.len(),
        forall|i: int| 0 <= i < bufs.len() ==> (#[trigger] bufs[i]).len() <= usize::MAX,
        finished(calls(reader, at, data, bufs, chunks).0),
    ensures
        calls(reader, at, data, bufs, chunks).2 == body(reader, data),
{
    let (last, end, delivered) = calls(reader, at, data, bufs, chunks);
    law_calls_deliver(reader, at, data, bufs, chunks);
    assert(rest(last, end, data) =~= Seq::empty());
    assert(delivered + rest(last, end, data) =~= delivered);
}

/// A reader that has finished delivers nothing, whatever it is called with, and stays as
/// it is.
pub proof fn law_finished_is_final(reader: Reader, buf: Seq<u8>)
    requires
        reader.wf(),
        finished(reader),
    ensures
        step(reader, buf, Event::Start) == (reader, buf, Action::Done { filled: 0 }),
{
    assert(overlay(buf, 0, reader.drained(buf.len() as int)) =~= buf);
    assert(reader.after_drain(buf.len() as int) =~= reader);
}

/// Before it has finished, a reader of ranges that are not empty delivers at least one
/// byte with every call that has space for it and for which the stream does not end.
pub proof fn law_call_makes_progress(
    reader: Reader,
    at: int,
    data: Seq<u8>,
    buf: Seq<u8>,
    chunk: nat,
)
    requires
        reader.wf(),
        !finished(reader),
        covers(data, reader.ranges),
        forall|i: int|
            0 <= i < reader.ranges.len() ==> (#[trigger] reader.ranges[i]).0 <= reader.ranges[i].1,
        in_place(reader, at),
        0 <= at <= u64::MAX,
        0 < buf.len() <= usize::MAX,
        chunk > 0,
    ensures
        call(reader, at, data, buf, chunk).2.len() > 0,
{
    let whole = rest(reader, at, data);
    let m0 = moment(reader, at, data, buf, chunk, 0);
    let m1 = moment(reader, at, data, buf, chunk, 1);
    let m2 = moment(reader, at, data, buf, chunk, 2);
    let m3 = moment(reader, at, data, buf, chunk, 3);
    reader.lemma_closer_not_empty();
    lemma_started(reader, at, data, buf);
    assert(m1 == m0.replied(data, chunk));
    lemma_replied(m0, data, whole, chunk);
    assert(m2 == m1.replied(data, chunk));
    lemma_replied(m1, data, whole, chunk);
    assert(m3 == m2.replied(data, chunk));
    lemma_replied(m2, data, whole, chunk);
    assert(moment(reader, at, data, buf, chunk, 4) == m3.replied(data, chunk));
    lemma_replied(m3, data, whole, chunk);
    if m0.action is Position && reader.wrote_boundary_header {
        let (start, end) = reader.ranges[reader.idx];
        assert(m1.at <= end);
    }
}

/// A reader of ranges that are not empty has finished after as many calls as its body has
/// bytes to come, if not before.
pub proof fn law_calls_finish(
    reader: Reader,
    at: int,
    data: Seq<u8>,
    bufs: Seq<Seq<u8>>,
    chunks: Seq<nat>,
)
    requires
        reader.wf(),
        covers(data, reader.ranges),
        forall|i: int|
            0 <= i < reader.ranges.len() ==> (#[trigger] reader.ranges[i]).0 <= reader.ranges[i].1,
        in_place(reader, at),
        0 <= at <= u64::MAX,
        bufs.len() == chunks.len(),
        forall|i: int| 0 <= i < bufs.len() ==> 0 < (#[trigger] bufs[i]).len() <= usize::MAX,
        forall|i: int| 0 <= i < chunks.len() ==> #[trigger] chunks[i] > 0,
        bufs.len() >= rest(reader, at, data).len(),
    ensures
        finished(calls(reader, at, data, bufs, chunks).0),
    decreases bufs.len(),
{
    reader.lemma_closer_not_empty();
    if bufs.len() > 0 {
        let (next, moved, delivered) = call(reader, at, data, bufs[0], chunks[0]);
        let more = bufs.drop_first();
        law_call_delivers(reader, at, data, bufs[0], chunks[0]);
        if finished(reader) {
            law_finished_is_final(reader, bufs[0]);
            reveal_with_fuel(moment, 5);
            assert(rest(next, moved, data) =~= Seq::empty());
        } else {
            law_call_makes_progress(reader, at, data, bufs[0], chunks[0]);
        }
        assert forall|i: int| 0 <= i < more.len() implies 0 < (#[trigger] more[i]).len()
            <= usize::MAX by {
            assert(more[i] == bufs[i + 1]);
        }
        assert forall|i: int| 0 <= i < more.len() implies #[trigger] chunks.drop_first()[i] > 0 by {
            assert(chunks.drop_first()[i] == chunks[i + 1]);
        }
        law_calls_finish(next, moved, data, more, chunks.drop_first());
    }
}

/// Whatever the reader asks of the stream, it can go on from the stream's answer, provided
/// that the stream does not report a position outside the current range.
pub proof fn law_actions_lead_on(reader: Reader, buf: Seq<u8>, event: Event)
    requires
        reader.wf(),
        buf.len() <= usize::MAX,
        admits(reader, buf.len(), event),
        reader.wrote_boundary_header ==> (event matches Event::Position { position, .. } ==> position
            >= reader.ranges[reader.idx].0),
    ensures
        ({
            let (next, out, action) = step(reader, buf, event);
            let (start, end) = next.ranges[next.idx];
            &&& next.wf()
            &&& out.len() == buf.len()
            &&& match action {
                Action::Position { filled } => forall|position: u64|
                    next.wrote_boundary_header && end < u64::MAX && position <= end + 1
                        || !next.wrote_boundary_header ==> #[trigger] admits(
                        next,
                        buf.len(),
                        Event::Position { filled, position },
                    ),
                Action::Seek { filled, start } => admits(next, buf.len(), Event::Sought { filled }),
                Action::ReadExact { filled, count } => admits(
                    next,
                    buf.len(),
                    Event::ReadExact { filled, count },
                ),
                Action::Read { filled } => forall|count: usize|
                    filled + count <= buf.len() && count <= end + 1 - start ==> #[trigger] admits(
                        next,
                        buf.len(),
                        Event::Read { filled, count },
                    ),
                Action::Done { filled } => filled <= buf.len(),
            }
        }),
{
    match event {
        Event::Start => lemma_begin(reader, 0, Seq::empty(), buf, 0),
        Event::Sought { filled } => {
            lemma_opened(reader, 0, Seq::empty());
            lemma_begin(reader.opened(), 0, Seq::empty(), buf, filled as int);
        },
        _ => {},
    }
}

/// The ranges that a request selects are not empty and lie within the stream.
pub proof fn law_selected_ranges_are_covered(specs: Seq<ByteRange>, length: u64, data: Seq<u8>)
    requires
        all_satisfiable(specs, length),
        data.len() == length,
    ensures
        ({
            let ranges = canonical(clamped_ranges(specs, length));
            &&& covers(data, ranges)
            &&& forall|i: int| 0 <= i < ranges.len() ==> (#[trigger] ranges[i]).0 <= ranges[i].1
        }),
{
    let ranges = canonical(clamped_ranges(specs, length));
    assert forall|i: int| 0 <= i < ranges.len() implies (#[trigger] ranges[i]).0 <= ranges[i].1
        < length by {
        lemma_selected_is_within(specs, length, i);
    }
}

/// The answer to a request for several ranges carries a reader that delivers each of them,
/// sorted and once, when it is called until it has finished.
pub proof fn law_multipart_answer_delivers_the_ranges(
    specs: Seq<ByteRange>,
    length: u64,
    mime_type: Seq<char>,
    response: Response,
    at: int,
    data: Seq<u8>,
    bufs: Seq<Seq<u8>>,
    chunks: Seq<nat>,
)
    requires
        answers_ranges(length, mime_type, specs, Step::Done(Outcome::Respond(response))),
        data.len() == length,
        0 <= at <= u64::MAX,
        bufs.len() == chunks.len(),
        forall|i: int| 0 <= i < bufs.len() ==> (#[trigger] bufs[i]).len() <= usize::MAX,
        response.body matches Body::Multipart(reader) ==> finished(
            calls(reader@, at, data, bufs, chunks).0,
        ),
    ensures
        response.body matches Body::Multipart(reader) && {
            &&& reader@.ranges == canonical(clamped_ranges(specs, length))
            &&& reader@.content_type == mime_type
            &&& reader@.stream_len == length
            &&& calls(reader@, at, data, bufs, chunks).2 == body(reader@, data)
        },
{
    law_selected_ranges_are_covered(specs, length, data);
    if let Body::Multipart(reader) = response.body {
        law_body_is_delivered(reader@, at, data, bufs, chunks);
    }
}

} // verus!
