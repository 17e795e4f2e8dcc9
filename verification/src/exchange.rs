//! What a client is answered.

use crate::delivery::{
    call, calls, covers, finished, in_place, law_body_is_delivered, law_call_makes_progress,
    law_calls_deliver, law_calls_finish, law_finished_is_final,
    law_moment_keeps_the_buffer, law_replies_are_admitted, moment, parts_from, rest, started, Moment,
};
use crate::multipart::{is_random_boundary, Action, Event, MultipartReader, Reader};
use crate::ranges::Ranges;
use crate::reading::{
    is_hex_digit, law_part_header_reads_back, lemma_hex, reads_hex_bytes, reads_part_header,
};
use crate::text::{hex_text, lemma_hex_text_len};
use vstd::prelude::*;
use vstd::utf8::encode_utf8;

verus! {

/// A client that reads `bytes` as a multipart body with this boundary finds `ranges` of the
/// stream `data` in it: for each of them a part that names it and has its bytes, in the order
/// of the ranges, and a closing boundary behind the last one.
pub open spec fn reads_body(
    bytes: Seq<u8>,
    boundary: Seq<char>,
    content_type: Seq<char>,
    total: int,
    data: Seq<u8>,
    ranges: Seq<(u64, u64)>,
) -> bool
    decreases ranges.len(),
{
    if ranges.len() == 0 {
        bytes == encode_utf8("\r\n--"@ + boundary + "--\r\n\r\n"@)
    } else {
        let (first, last) = ranges[0];
        exists|at: int|
            {
                let end = at + (last + 1 - first);
                &&& 0 <= at <= end <= bytes.len()
                &&& #[trigger] reads_part_header(
                    bytes.take(at),
                    boundary,
                    content_type,
                    first as int,
                    last as int,
                    total,
                )
                &&& bytes.subrange(at, end) == data.subrange(first as int, last + 1)
                &&& reads_body(
                    bytes.skip(end),
                    boundary,
                    content_type,
                    total,
                    data,
                    ranges.drop_first(),
                )
            }
    }
}

/// Every range has bytes, and all of them are in the stream.
pub open spec fn within(data: Seq<u8>, ranges: Seq<(u64, u64)>) -> bool {
    &&& data.len() <= u64::MAX
    &&& forall|i: int|
        0 <= i < ranges.len() ==> (#[trigger] ranges[i]).0 <= ranges[i].1 < data.len()
}

/// A reader has been called with each of `bufs`, and then delivers nothing although there is
/// space for it and the stream has not failed to read.
pub open spec fn read_to_the_end(
    reader: Reader,
    at: int,
    data: Seq<u8>,
    bufs: Seq<Seq<u8>>,
    chunks: Seq<nat>,
    buf: Seq<u8>,
    chunk: nat,
) -> bool {
    let (last, end, _) = calls(reader, at, data, bufs, chunks);
    &&& 0 <= at <= u64::MAX
    &&& bufs.len() == chunks.len()
    &&& forall|i: int| 0 <= i < bufs.len() ==> (#[trigger] bufs[i]).len() <= usize::MAX
    &&& 0 < buf.len() <= usize::MAX
    &&& chunk > 0
    &&& call(last, end, data, buf, chunk).2.len() == 0
}

/// After `count` calls that have space, if not before, a reader delivers nothing any more,
/// unless the stream fails to read.
pub open spec fn ends_after(reader: Reader, at: int, data: Seq<u8>, count: nat) -> bool {
    forall|bufs: Seq<Seq<u8>>, chunks: Seq<nat>, buf: Seq<u8>, chunk: nat|
        {
            &&& bufs.len() == chunks.len() >= count
            &&& forall|i: int| 0 <= i < bufs.len() ==> 0 < (#[trigger] bufs[i]).len() <= usize::MAX
            &&& forall|i: int| 0 <= i < chunks.len() ==> #[trigger] chunks[i] > 0
        } ==> (#[trigger] call(
            calls(reader, at, data, bufs, chunks).0,
            calls(reader, at, data, bufs, chunks).1,
            data,
            buf,
            chunk,
        )).2.len() == 0
}

/// A reader delivers nothing any more some time.
pub open spec fn comes_to_an_end(reader: Reader, at: int, data: Seq<u8>) -> bool {
    exists|count: nat| ends_after(reader, at, data, count)
}

/// Whoever reads the reader to its end, with whatever buffers and however the stream splits
/// its reads, has a body with the ranges, and the end is reached.
pub open spec fn sends(
    reader: Reader,
    boundary: Seq<char>,
    content_type: Seq<char>,
    total: int,
    ranges: Seq<(u64, u64)>,
) -> bool {
    &&& forall|at: int, data: Seq<u8>|
        within(data, ranges) && 0 <= at <= u64::MAX ==> #[trigger] comes_to_an_end(reader, at, data)
    &&& forall|
        at: int,
        data: Seq<u8>,
        bufs: Seq<Seq<u8>>,
        chunks: Seq<nat>,
        buf: Seq<u8>,
        chunk: nat,
    |
        within(data, ranges) && #[trigger] read_to_the_end(
            reader,
            at,
            data,
            bufs,
            chunks,
            buf,
            chunk,
        ) ==> reads_body(
            calls(reader, at, data, bufs, chunks).2,
            boundary,
            content_type,
            total,
            data,
            ranges,
        )
}

/// The parts and the closing boundary are read as such.
proof fn lemma_parts(reader: Reader, from: int, data: Seq<u8>)
    requires
        within(data, reader.ranges),
        0 <= from <= reader.ranges.len(),
    ensures
        reads_body(
            parts_from(reader, from, data) + reader.closer(),
            reader.boundary,
            reader.content_type,
            reader.stream_len as int,
            data,
            reader.ranges.skip(from),
        ),
    decreases reader.ranges.len() - from,
{
    let bytes = parts_from(reader, from, data) + reader.closer();
    let ranges = reader.ranges.skip(from);
    if from == reader.ranges.len() {
        assert(bytes =~= reader.closer());
    } else {
        let (first, last) = reader.ranges[from];
        let header = reader.part_header((first, last));
        let content = data.subrange(first as int, last + 1);
        let more = parts_from(reader, from + 1, data) + reader.closer();
        let at = header.len() as int;
        let end = at + (last + 1 - first);
        lemma_parts(reader, from + 1, data);
        law_part_header_reads_back(reader, (first, last));
        assert(bytes =~= header + content + more);
        assert(ranges[0] == (first, last));
        assert(ranges.drop_first() =~= reader.ranges.skip(from + 1));
        assert(bytes.take(at) =~= header);
        assert(bytes.subrange(at, end) =~= content);
        assert(bytes.skip(end) =~= more);
        assert(reads_part_header(
            bytes.take(at),
            reader.boundary,
            reader.content_type,
            first as int,
            last as int,
            reader.stream_len as int,
        ));
    }
}

/// A reader that has finished delivers nothing.
proof fn lemma_finished(reader: Reader, at: int, data: Seq<u8>, buf: Seq<u8>, chunk: nat)
    requires
        reader.wf(),
        finished(reader),
    ensures
        call(reader, at, data, buf, chunk).2.len() == 0,
{
    law_finished_is_final(reader, buf);
    reveal_with_fuel(moment, 5);
}

proof fn lemma_end(reader: Reader, at: int, data: Seq<u8>)
    requires
        reader.wf(),
        in_place(reader, at),
        within(data, reader.ranges),
        0 <= at <= u64::MAX,
    ensures
        comes_to_an_end(reader, at, data),
{
    let count = rest(reader, at, data).len();
    assert forall|bufs: Seq<Seq<u8>>, chunks: Seq<nat>, buf: Seq<u8>, chunk: nat|
        {
            &&& bufs.len() == chunks.len() >= count
            &&& forall|i: int| 0 <= i < bufs.len() ==> 0 < (#[trigger] bufs[i]).len() <= usize::MAX
            &&& forall|i: int| 0 <= i < chunks.len() ==> #[trigger] chunks[i] > 0
        } implies (#[trigger] call(
        calls(reader, at, data, bufs, chunks).0,
        calls(reader, at, data, bufs, chunks).1,
        data,
        buf,
        chunk,
    )).2.len() == 0 by {
        law_calls_deliver(reader, at, data, bufs, chunks);
        law_calls_finish(reader, at, data, bufs, chunks);
        let (last, end, _) = calls(reader, at, data, bufs, chunks);
        lemma_finished(last, end, data, buf, chunk);
    }
    assert(ends_after(reader, at, data, count));
}

/// A reader that has sent nothing yet sends its ranges.
pub proof fn lemma_sends(
    stream_len: u64,
    ranges: Seq<(u64, u64)>,
    content_type: Seq<char>,
    boundary: Seq<char>,
)
    ensures
        sends(
            Reader::fresh(stream_len, ranges, content_type, boundary),
            boundary,
            content_type,
            stream_len as int,
            ranges,
        ),
{
    let reader = Reader::fresh(stream_len, ranges, content_type, boundary);
    assert forall|at: int, data: Seq<u8>|
        within(data, ranges) && 0 <= at <= u64::MAX implies #[trigger] comes_to_an_end(
        reader,
        at,
        data,
    ) by {
        lemma_end(reader, at, data);
    }
    assert forall|
        at: int,
        data: Seq<u8>,
        bufs: Seq<Seq<u8>>,
        chunks: Seq<nat>,
        buf: Seq<u8>,
        chunk: nat,
    |
        within(data, ranges) && #[trigger] read_to_the_end(
            reader,
            at,
            data,
            bufs,
            chunks,
            buf,
            chunk,
        ) implies reads_body(
        calls(reader, at, data, bufs, chunks).2,
        boundary,
        content_type,
        stream_len as int,
        data,
        ranges,
    ) by {
        let (last, end, delivered) = calls(reader, at, data, bufs, chunks);
        law_calls_deliver(reader, at, data, bufs, chunks);
        if !finished(last) {
            law_call_makes_progress(last, end, data, buf, chunk);
        }
        law_body_is_delivered(reader, at, data, bufs, chunks);
        lemma_parts(reader, 0, data);
        assert(ranges.skip(0) =~= ranges);
    }
}

/// A reader with a given boundary sends the ranges that it was made for.
pub proof fn law_reader_sends_its_ranges(
    stream_len: u64,
    content_type: String,
    ranges: Ranges,
    boundary: String,
    reader: MultipartReader,
)
    requires
        call_ensures(
            MultipartReader::with_boundary,
            (stream_len, content_type, ranges, boundary),
            reader,
        ),
    ensures
        reader.wf(),
        sends(reader@, boundary@, content_type@, stream_len as int, ranges@),
{
    lemma_sends(stream_len, ranges@, content_type@, boundary@);
}

/// A reader whose boundary is drawn at random sends the ranges that it was made for, with the
/// boundary that it tells.
pub proof fn law_new_reader_sends_its_ranges(
    stream_len: u64,
    content_type: String,
    ranges: Ranges,
    reader: MultipartReader,
    boundary: &str,
)
    requires
        call_ensures(MultipartReader::new, (stream_len, content_type, ranges), reader),
        call_ensures(MultipartReader::boundary, (&reader,), boundary),
    ensures
        reader.wf(),
        sends(reader@, boundary@, content_type@, stream_len as int, ranges@),
        is_boundary(boundary@),
{
    lemma_sends(stream_len, ranges@, content_type@, boundary@);
    lemma_boundary(boundary@);
}

/// A text that can separate parts: thirty bytes in hexadecimal notation.
pub open spec fn is_boundary(text: Seq<char>) -> bool {
    &&& exists|bytes: Seq<u8>| bytes.len() == 30 && #[trigger] reads_hex_bytes(text, bytes)
    &&& forall|i: int| 0 <= i < text.len() ==> is_hex_digit(#[trigger] text[i])
    &&& 30 <= text.len() <= 60
}

pub proof fn lemma_boundary(text: Seq<char>)
    requires
        is_random_boundary(text),
    ensures
        is_boundary(text),
{
    let bytes = choose|bytes: Seq<u8>| bytes.len() == 30 && text == #[trigger] hex_text(bytes);
    lemma_hex(bytes);
    lemma_hex_text_len(bytes);
}

/// Every step of a call, and so every moment of it, is a call of `poll_read`.
pub proof fn law_steps_are_polls(
    reader: &mut MultipartReader,
    buf: &mut [u8],
    event: Event,
    action: Action,
    m: Moment,
    at: int,
)
    requires
        call_ensures(MultipartReader::poll_read, (reader, buf, event), action),
        m.reader == old(reader)@,
        m.buf == old(buf)@,
    ensures
        final(reader).wf(),
        m.after(at, event) == (Moment { reader: final(reader)@, at, buf: final(buf)@, action }),
        event is Start ==> started(m.reader, at, m.buf) == m.after(at, event),
{
}

/// The replies of a stream that does what it is asked are accepted, whatever it is asked at a
/// moment of a call and however it splits its reads.
pub proof fn law_replies_are_accepted(
    reader: MultipartReader,
    before: Reader,
    at: int,
    data: Seq<u8>,
    buf: Seq<u8>,
    chunk: nat,
    replies: nat,
    len: usize,
    accepted: bool,
)
    requires
        before.wf(),
        covers(data, before.ranges),
        in_place(before, at),
        0 <= at <= u64::MAX,
        buf.len() == len,
        ({
            let m = moment(before, at, data, buf, chunk, replies);
            &&& m.action !is Done
            &&& reader@ == m.reader
            &&& call_ensures(MultipartReader::admits, (&reader, len, m.reply(chunk)), accepted)
        }),
    ensures
        accepted,
{
    law_replies_are_admitted(before, at, data, buf, chunk, replies);
    law_moment_keeps_the_buffer(before, at, data, buf, chunk, replies);
}

/// The replies of a stream that does what it is asked can be handed to the reader.
pub proof fn law_replies_can_be_handed_over(
    reader: &mut MultipartReader,
    buf: &mut [u8],
    before: Reader,
    at: int,
    data: Seq<u8>,
    space: Seq<u8>,
    chunk: nat,
    replies: nat,
)
    requires
        before.wf(),
        covers(data, before.ranges),
        in_place(before, at),
        0 <= at <= u64::MAX,
        space.len() <= usize::MAX,
        old(reader).wf(),
        ({
            let m = moment(before, at, data, space, chunk, replies);
            &&& m.action !is Done
            &&& old(reader)@ == m.reader
            &&& old(buf)@.len() == m.buf.len()
        }),
    ensures
        call_requires(
            MultipartReader::poll_read,
            (reader, buf, moment(before, at, data, space, chunk, replies).reply(chunk)),
        ),
        call_requires(MultipartReader::poll_read, (reader, buf, Event::Start)),
{
    law_replies_are_admitted(before, at, data, space, chunk, replies);
}

/// Reading more than there is space for or than the current range has, or reading before its
/// header has been sent, is not accepted.
pub proof fn law_reads_beyond_are_not_accepted(
    reader: MultipartReader,
    len: usize,
    filled: usize,
    count: usize,
    exact: bool,
    some: bool,
)
    requires
        call_ensures(
            MultipartReader::admits,
            (&reader, len, Event::ReadExact { filled, count }),
            exact,
        ),
        call_ensures(MultipartReader::admits, (&reader, len, Event::Read { filled, count }), some),
        ({
            ||| filled + count > len
            ||| reader@.buffer.len() > 0
            ||| !reader@.wrote_boundary_header
            ||| count > reader@.ranges[reader@.idx].1 + 1 - reader@.ranges[reader@.idx].0
        }),
    ensures
        !exact,
        !some,
{
}

} // verus!
