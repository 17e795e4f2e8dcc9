//! How the requests of a client lead to answers, and what the client reads in them.

use crate::client::{
    are_served, complaints, element_resolves, has_small_numbers, holds_what_is_asked, is_asked,
    is_served, lemma_asked, lemma_complaints, lemma_served, lemma_small_numbers, texts,
};
use crate::exchange::{is_boundary, lemma_boundary, lemma_sends, sends};
use crate::multipart::{content_range, MultipartReader};
use crate::ranges::{canonical, clamped_ranges, parsed_ranges, ByteRange};
use crate::reading::{lemma_content_range, lemma_decimal, reads_content_range, reads_decimal};
use crate::seekstream::{
    answer, answer_ranges, answers, answers_ranges, body_bytes, can_infer, fields,
    is_multipart, is_partial, is_whole, lemma_selected_is_within, proceeds, Body, Outcome, Reading,
    Response, SeekStream, Seeking, Status, Step, Target,
};
use crate::text::decimal;
use vstd::prelude::*;
use vstd::utf8::encode_utf8;

verus! {

/// Exactly one field has this name, and it has this value.
pub open spec fn set_once(
    headers: Seq<(String, String)>,
    name: Seq<char>,
    value: Seq<char>,
) -> bool {
    exists|i: int|
        {
            &&& 0 <= i < headers.len()
            &&& (#[trigger] headers[i]).0@ == name
            &&& headers[i].1@ == value
            &&& forall|j: int|
                0 <= j < headers.len() && j != i ==> (#[trigger] headers[j]).0@ != name
        }
}

/// The last field with this name, which replaces the others, has this value.
pub open spec fn set_last(
    headers: Seq<(String, String)>,
    name: Seq<char>,
    value: Seq<char>,
) -> bool {
    exists|i: int|
        {
            &&& 0 <= i < headers.len()
            &&& (#[trigger] headers[i]).0@ == name
            &&& headers[i].1@ == value
            &&& forall|j: int| i < j < headers.len() ==> (#[trigger] headers[j]).0@ != name
        }
}

/// The names of the fields differ.
proof fn lemma_names()
    ensures
        "Accept-Ranges"@ != "Content-Type"@,
        "Accept-Ranges"@ != "Content-Range"@,
        "Accept-Ranges"@ != "Content-Length"@,
        "Content-Type"@ != "Content-Range"@,
        "Content-Type"@ != "Content-Length"@,
        "Content-Range"@ != "Content-Length"@,
{
    reveal_strlit("Accept-Ranges");
    reveal_strlit("Content-Type");
    reveal_strlit("Content-Range");
    reveal_strlit("Content-Length");
    assert("Accept-Ranges"@[0] != "Content-Range"@[0]);
    assert("Content-Type"@.len() == 12);
    assert("Content-Range"@.len() == 13);
    assert("Content-Length"@.len() == 14);
}

/// The answer has all of the stream: it says how many bytes that is and of which type, and
/// sends the stream from where it stands to its end.
pub open spec fn reads_whole(response: Response, total: u64, mime_type: Seq<char>) -> bool {
    let headers = response.headers@;
    &&& response.status == Status::Success
    &&& headers.len() == 3
    &&& set_once(headers, "Accept-Ranges"@, "bytes"@)
    &&& set_once(headers, "Content-Type"@, mime_type)
    &&& exists|length: Seq<char>| #[trigger]
        reads_decimal(length, total as int) && set_once(headers, "Content-Length"@, length)
    &&& forall|data: Seq<u8>, at: int|
        0 <= at <= data.len() == total ==> #[trigger] body_bytes(response.body, data, at)
            == data.skip(at)
}

/// The answer has one range: it says which one of how many bytes, how many bytes that is and
/// of which type, and sends these bytes, as far as there are any, once the stream stands where
/// the range begins.
pub open spec fn reads_partial(
    response: Response,
    total: u64,
    mime_type: Seq<char>,
    range: (u64, u64),
) -> bool {
    let headers = response.headers@;
    let count = range.1 + 1 - range.0;
    &&& response.status == Status::PartialContent
    &&& headers.len() == 4
    &&& set_once(headers, "Accept-Ranges"@, "bytes"@)
    &&& set_once(headers, "Content-Type"@, mime_type)
    &&& exists|length: Seq<char>| #[trigger]
        reads_decimal(length, count) && set_once(headers, "Content-Length"@, length)
    &&& exists|place: Seq<char>| #[trigger]
        reads_content_range(place, range.0 as int, range.1 as int, total as int) && set_once(
            headers,
            "Content-Range"@,
            place,
        )
    &&& forall|data: Seq<u8>|
        range.0 <= data.len() == total ==> (#[trigger] body_bytes(
            response.body,
            data,
            range.0 as int,
        )) == if range.1 < total {
            data.subrange(range.0 as int, range.1 + 1)
        } else {
            data.skip(range.0 as int)
        }
}

/// The answer has several ranges: it says that it has parts and what separates them, and sends
/// a body with the ranges, each as a part of the given type.
pub open spec fn reads_multipart(
    response: Response,
    total: u64,
    mime_type: Seq<char>,
    ranges: Seq<(u64, u64)>,
) -> bool {
    let headers = response.headers@;
    &&& response.status == Status::PartialContent
    &&& headers.len() == 3
    &&& set_once(headers, "Accept-Ranges"@, "bytes"@)
    &&& forall|i: int|
        0 <= i < headers.len() ==> (#[trigger] headers[i]).0@ == "Accept-Ranges"@
            || headers[i].0@ == "Content-Type"@
    &&& response.body matches Body::Multipart(reader) && reader.wf() && exists|boundary: Seq<char>|
        {
            &&& #[trigger] is_boundary(boundary)
            &&& set_last(
                headers,
                "Content-Type"@,
                "multipart/byterange; boundary="@ + boundary,
            )
            &&& sends(reader@, boundary, mime_type, total as int, ranges)
        }
}

/// Fields as texts are those of the answer.
proof fn lemma_fields(headers: Seq<(String, String)>)
    ensures
        headers.len() == fields(headers).len(),
        forall|i: int|
            0 <= i < headers.len() ==> (#[trigger] headers[i]).0@ == fields(headers)[i].0
                && headers[i].1@ == fields(headers)[i].1,
{
}

proof fn lemma_whole(response: Response, total: u64, mime_type: Seq<char>)
    requires
        is_whole(response, total, mime_type),
    ensures
        reads_whole(response, total, mime_type),
{
    let headers = response.headers@;
    lemma_fields(headers);
    lemma_names();
    lemma_decimal(total as nat);
    assert(headers[0].0@ == "Accept-Ranges"@ && headers[0].1@ == "bytes"@);
    assert(headers[1].0@ == "Content-Type"@ && headers[1].1@ == mime_type);
    assert(headers[2].0@ == "Content-Length"@ && headers[2].1@ == decimal(total as nat));
    assert(reads_decimal(decimal(total as nat), total as int));
}

proof fn lemma_partial(response: Response, total: u64, mime_type: Seq<char>, range: (u64, u64))
    requires
        range.0 <= range.1 + 1,
        is_partial(response, total, mime_type, range.0, range.1),
    ensures
        reads_partial(response, total, mime_type, range),
{
    let headers = response.headers@;
    let count = (range.1 + 1 - range.0) as nat;
    let place = content_range(range.0, range.1, total);
    lemma_fields(headers);
    lemma_names();
    lemma_decimal(count);
    lemma_content_range(range.0, range.1, total);
    assert(headers[0].0@ == "Accept-Ranges"@ && headers[0].1@ == "bytes"@);
    assert(headers[1].0@ == "Content-Type"@ && headers[1].1@ == mime_type);
    assert(headers[2].0@ == "Content-Range"@ && headers[2].1@ == place);
    assert(headers[3].0@ == "Content-Length"@ && headers[3].1@ == decimal(count));
    assert(reads_decimal(decimal(count), range.1 + 1 - range.0));
    assert(reads_content_range(place, range.0 as int, range.1 as int, total as int));
    assert forall|data: Seq<u8>| range.0 <= data.len() == total implies (#[trigger] body_bytes(
        response.body,
        data,
        range.0 as int,
    )) == if range.1 < total {
        data.subrange(range.0 as int, range.1 + 1)
    } else {
        data.skip(range.0 as int)
    } by {
        if range.1 < total {
            assert(body_bytes(response.body, data, range.0 as int) =~= data.subrange(
                range.0 as int,
                range.1 + 1,
            ));
        }
    }
}

proof fn lemma_multipart(
    response: Response,
    total: u64,
    mime_type: Seq<char>,
    ranges: Seq<(u64, u64)>,
)
    requires
        is_multipart(response, total, mime_type, ranges),
    ensures
        reads_multipart(response, total, mime_type, ranges),
{
    let headers = response.headers@;
    lemma_fields(headers);
    lemma_names();
    assert(headers[0].0@ == "Accept-Ranges"@ && headers[0].1@ == "bytes"@);
    assert(headers[1].0@ == "Content-Type"@ && headers[1].1@ == mime_type);
    assert(headers[2].0@ == "Content-Type"@);
    if let Body::Multipart(reader) = response.body {
        let boundary = reader@.boundary;
        lemma_boundary(boundary);
        lemma_sends(total, ranges, mime_type, boundary);
        assert(is_boundary(boundary));
    }
}

/// The answer to a request without a range has all of the stream.
pub proof fn law_whole_answer_has_the_stream(total: u64, mime_type: String, response: Response)
    requires
        call_ensures(Response::whole, (total, mime_type), response),
    ensures
        reads_whole(response, total, mime_type@),
{
    lemma_whole(response, total, mime_type@);
}

/// The answer to a request for one range has the range.
pub proof fn law_partial_answer_has_the_range(
    total: u64,
    mime_type: String,
    start: u64,
    end: u64,
    response: Response,
)
    requires
        start <= end + 1 <= u64::MAX,
        call_ensures(Response::partial, (total, mime_type, start, end), response),
    ensures
        reads_partial(response, total, mime_type@, (start, end)),
        call_requires(Response::partial, (total, mime_type, start, end)),
{
    lemma_partial(response, total, mime_type@, (start, end));
}

/// The answer to a request for several ranges has the parts that a reader sends, and tells
/// what separates them.
pub proof fn law_multipart_answer_has_the_parts(
    mime_type: String,
    reader: MultipartReader,
    boundary: &str,
    response: Response,
)
    requires
        call_ensures(MultipartReader::boundary, (&reader,), boundary),
        call_ensures(Response::multipart, (mime_type, reader), response),
    ensures
        response.status == Status::PartialContent,
        response.body == Body::Multipart(reader),
        response.headers@.len() == 3,
        set_once(response.headers@, "Accept-Ranges"@, "bytes"@),
        set_last(
            response.headers@,
            "Content-Type"@,
            "multipart/byterange; boundary="@ + boundary@,
        ),
{
    let headers = response.headers@;
    lemma_fields(headers);
    lemma_names();
    assert(headers[0].0@ == "Accept-Ranges"@ && headers[0].1@ == "bytes"@);
    assert(headers[1].0@ == "Content-Type"@);
    assert(headers[2].0@ == "Content-Type"@);
}

/// The request is refused with this status, for these reasons.
pub open spec fn gets_refusal(step: Step, status: Status, reasons: Seq<Seq<char>>) -> bool {
    step matches Step::Done(Outcome::Refuse(answered, given)) && answered == status && texts(given@)
        == reasons
}

/// Some elements ask for different ranges.
pub open spec fn ask_for_several(elements: Seq<ByteRange>, total: u64) -> bool {
    exists|a: (u64, u64), b: (u64, u64)|
        a != b && #[trigger] is_asked(elements, total, a) && #[trigger] is_asked(
            elements,
            total,
            b,
        )
}

/// What a client gets for the elements of a `Range` header. Where there is none, or one that
/// cannot be served, that is a refusal for what is wrong with them. Where all ask for the same
/// range, the stream is moved to where it begins, and the answer has it. Otherwise the answer
/// has every range that is asked for.
pub open spec fn gets_ranges(
    total: u64,
    mime_type: Seq<char>,
    elements: Seq<ByteRange>,
    step: Step,
) -> bool {
    if !are_served(elements, total) {
        gets_refusal(step, Status::RangeNotSatisfiable, complaints(elements, total))
    } else if ask_for_several(elements, total) {
        step matches Step::Done(Outcome::Respond(response)) && exists|ranges: Seq<(u64, u64)>|
            #[trigger] holds_what_is_asked(ranges, elements, total) && reads_multipart(
                response,
                total,
                mime_type,
                ranges,
            )
    } else {
        step matches Step::Seek(Target::Start(start), Seeking::Place { response })
            && exists|range: (u64, u64)|
            {
                &&& #[trigger] is_asked(elements, total, range)
                &&& start == range.0
                &&& reads_partial(response, total, mime_type, range)
            }
    }
}

/// What a client gets from a stream of known length and content type, for a request with the
/// given `Range` header or without one.
pub open spec fn gets_answer(
    total: u64,
    mime_type: Seq<char>,
    range: Option<String>,
    step: Step,
) -> bool {
    match range {
        None => step matches Step::Done(Outcome::Respond(response)) && reads_whole(
            response,
            total,
            mime_type,
        ),
        Some(header) => if has_small_numbers(encode_utf8(header@)) {
            gets_ranges(total, mime_type, parsed_ranges(header@), step)
        } else {
            gets_refusal(step, Status::RangeNotSatisfiable, Seq::empty())
        },
    }
}

proof fn lemma_gets_ranges(
    total: u64,
    mime_type: Seq<char>,
    elements: Seq<ByteRange>,
    step: Step,
)
    requires
        answers_ranges(total, mime_type, elements, step),
    ensures
        gets_ranges(total, mime_type, elements, step),
{
    lemma_served(elements, total);
    lemma_complaints(elements, total);
    if are_served(elements, total) {
        let ranges = canonical(clamped_ranges(elements, total));
        lemma_asked(elements, total);
        assert(holds_what_is_asked(ranges, elements, total));
        lemma_several(elements, total, ranges);
        if ranges.len() > 1 {
            if let Step::Done(Outcome::Respond(response)) = step {
                lemma_multipart(response, total, mime_type, ranges);
            }
        } else {
            let range = ranges[0];
            assert(ranges.contains(range));
            assert(is_asked(elements, total, range));
            if let Step::Seek(_, Seeking::Place { response }) = step {
                lemma_selected_is_within(elements, total, 0);
                lemma_partial(response, total, mime_type, range);
            }
        }
    }
}

/// Elements ask for different ranges where there is more than one.
proof fn lemma_several(elements: Seq<ByteRange>, total: u64, ranges: Seq<(u64, u64)>)
    requires
        are_served(elements, total),
        holds_what_is_asked(ranges, elements, total),
    ensures
        ranges.len() > 0,
        ask_for_several(elements, total) <==> ranges.len() > 1,
{
    assert(is_served(elements[0], total));
    let first = choose|range: (u64, u64)| element_resolves(elements[0], total, range);
    assert(is_asked(elements, total, first));
    assert(ranges.contains(first));
    if ranges.len() > 1 {
        assert(ranges.contains(ranges[0]) && ranges.contains(ranges[1]));
        assert(is_asked(elements, total, ranges[0]));
        assert(is_asked(elements, total, ranges[1]));
        assert(ranges[0] != ranges[1]);
    }
    if ask_for_several(elements, total) {
        let (a, b) = choose|a: (u64, u64), b: (u64, u64)|
            a != b && #[trigger] is_asked(elements, total, a) && #[trigger] is_asked(
                elements,
                total,
                b,
            );
        assert(ranges.contains(a) && ranges.contains(b));
    }
}

proof fn lemma_gets_answer(total: u64, mime_type: Seq<char>, range: Option<String>, step: Step)
    requires
        answers(total, mime_type, range, step),
    ensures
        gets_answer(total, mime_type, range, step),
{
    match range {
        None => {
            if let Step::Done(Outcome::Respond(response)) = step {
                lemma_whole(response, total, mime_type);
            }
        },
        Some(header) => {
            lemma_small_numbers(encode_utf8(header@));
            if has_small_numbers(encode_utf8(header@)) {
                lemma_gets_ranges(total, mime_type, parsed_ranges(header@), step);
            } else {
                if let Step::Done(Outcome::Refuse(_, reasons)) = step {
                    assert(texts(reasons@) =~= Seq::empty());
                }
            }
        },
    }
}

/// The elements of a `Range` header get what they ask for, however many they are: all ranges
/// that any of them asks for, or a refusal where one of them cannot be served.
pub proof fn law_elements_get_what_they_ask_for(
    total: u64,
    mime_type: String,
    elements: Vec<ByteRange>,
    step: Step,
)
    requires
        call_ensures(answer_ranges, (total, mime_type, &elements), step),
    ensures
        gets_ranges(total, mime_type@, elements@, step),
        call_requires(answer_ranges, (total, mime_type, &elements)),
{
    lemma_gets_ranges(total, mime_type@, elements@, step);
}

/// A request to a stream of known length and content type gets what its `Range` header asks
/// for, or all of the stream where it has none.
pub proof fn law_request_gets_what_it_asks_for(
    total: u64,
    mime_type: String,
    range: Option<String>,
    step: Step,
)
    requires
        call_ensures(answer, (total, mime_type, range), step),
    ensures
        gets_answer(total, mime_type@, range, step),
        call_requires(answer, (total, mime_type, range)),
{
    lemma_gets_answer(total, mime_type@, range, step);
}

/// Once the stream stands at its start again, the client gets an answer with a content type
/// that can be inferred from `sample`.
pub open spec fn gets_inferred_answer(
    seeking: Seeking,
    sample: Seq<u8>,
    total: u64,
    range: Option<String>,
) -> bool {
    forall|position: u64, next: Step| #[trigger]
        call_ensures(Seeking::resume, (seeking, Some(position)), next) ==> exists|
            mime_type: Seq<char>,
        | #[trigger]
            can_infer(sample, mime_type) && gets_answer(total, mime_type, range, next)
}

/// Once bytes have been read, the stream is to go back to its start, and the client gets an
/// answer with a content type that can be inferred from them.
pub open spec fn gets_answer_after_reading(
    reading: Reading,
    total: u64,
    range: Option<String>,
) -> bool {
    forall|sample: Vec<u8>, next: Step| #[trigger]
        call_ensures(Reading::resume, (reading, Some(sample)), next) ==> {
            &&& next matches Step::Seek(Target::Start(start), seeking)
            &&& start == 0
            &&& gets_inferred_answer(seeking, sample@, total, range)
        }
}

/// Once the stream stands at its start, at most 256 bytes are to be read there, and the client
/// gets an answer with a content type that can be inferred from them.
pub open spec fn gets_sampled_answer(seeking: Seeking, total: u64, range: Option<String>) -> bool {
    forall|position: u64, next: Step| #[trigger]
        call_ensures(Seeking::resume, (seeking, Some(position)), next) ==> {
            &&& next matches Step::Read(count, reading)
            &&& count == 256
            &&& gets_answer_after_reading(reading, total, range)
        }
}

/// What a client gets from a stream of known length: an answer with the content type that is
/// given, or with one that is inferred from the first bytes of the stream.
pub open spec fn gets_typed_answer(
    total: u64,
    content_type: Option<String>,
    range: Option<String>,
    step: Step,
) -> bool {
    match content_type {
        Some(mime_type) => gets_answer(total, mime_type@, range, step),
        None => {
            &&& step matches Step::Seek(Target::Start(start), seeking)
            &&& start == 0
            &&& gets_sampled_answer(seeking, total, range)
        },
    }
}

proof fn lemma_inferred(total: u64, range: Option<String>, prelude: Vec<u8>)
    ensures
        gets_inferred_answer(
            Seeking::Rewind { stream_len: total, prelude, range },
            prelude@,
            total,
            range,
        ),
{
    let seeking = Seeking::Rewind { stream_len: total, prelude, range };
    assert forall|position: u64, next: Step| #[trigger]
        call_ensures(Seeking::resume, (seeking, Some(position)), next) implies exists|
        mime_type: Seq<char>,
    | #[trigger] can_infer(prelude@, mime_type) && gets_answer(total, mime_type, range, next) by {
        let mime_type = choose|mime_type: Seq<char>| #[trigger]
            can_infer(prelude@, mime_type) && answers(total, mime_type, range, next);
        lemma_gets_answer(total, mime_type, range, next);
    }
}

proof fn lemma_sampled(total: u64, range: Option<String>)
    ensures
        gets_sampled_answer(Seeking::Sample { stream_len: total, range }, total, range),
{
    let reading = Reading { stream_len: total, range };
    assert forall|sample: Vec<u8>, next: Step| #[trigger]
        call_ensures(Reading::resume, (reading, Some(sample)), next) implies {
        &&& next matches Step::Seek(Target::Start(start), seeking)
        &&& start == 0
        &&& gets_inferred_answer(seeking, sample@, total, range)
    } by {
        lemma_inferred(total, range, sample);
    }
    assert(gets_answer_after_reading(reading, total, range));
}

proof fn lemma_typed(
    total: u64,
    content_type: Option<String>,
    range: Option<String>,
    step: Step,
)
    requires
        proceeds(total, content_type, range, step),
    ensures
        gets_typed_answer(total, content_type, range, step),
{
    match content_type {
        Some(mime_type) => lemma_gets_answer(total, mime_type@, range, step),
        None => lemma_sampled(total, range),
    }
}

/// A request to a stream with a given length gets what it asks for, with the content type that
/// is given or with an inferred one.
pub proof fn law_given_length_is_used(
    total: u64,
    content_type: Option<String>,
    range: Option<String>,
    stream: SeekStream,
    step: Step,
)
    requires
        call_ensures(SeekStream::with_opts, (Some(total), content_type), stream),
        call_ensures(SeekStream::get_response, (stream, range), step),
    ensures
        gets_typed_answer(total, content_type, range, step),
        call_requires(SeekStream::get_response, (stream, range)),
{
    lemma_typed(total, content_type, range, step);
}

/// The steps of a request to a stream whose length is not given: it is to tell its position, to
/// move to its end, which tells its length, and to move back. `first` to `last` are the steps,
/// the last one that after the stream has moved back.
pub open spec fn finds_length(
    first: Step,
    second: Step,
    third: Step,
    last: Step,
    position: u64,
    total: u64,
    back: u64,
) -> bool {
    &&& first matches Step::Seek(_, seeking) ==> call_ensures(
        Seeking::resume,
        (seeking, Some(position)),
        second,
    )
    &&& second matches Step::Seek(_, seeking) ==> call_ensures(
        Seeking::resume,
        (seeking, Some(total)),
        third,
    )
    &&& third matches Step::Seek(_, seeking) ==> call_ensures(
        Seeking::resume,
        (seeking, Some(back)),
        last,
    )
}

/// A request to a stream whose length is not given goes on, once the stream has told its length
/// and is back at its position, as a request to a stream that was given this length: with the
/// same content type and for the same `Range` header.
pub proof fn law_found_length_is_as_good_as_a_given_one(
    content_type: Option<String>,
    range: Option<String>,
    stream: SeekStream,
    first: Step,
    second: Step,
    third: Step,
    last: Step,
    position: u64,
    total: u64,
    back: u64,
)
    requires
        call_ensures(SeekStream::with_opts, (None::<u64>, content_type), stream),
        call_ensures(SeekStream::get_response, (stream, range), first),
        finds_length(first, second, third, last, position, total, back),
    ensures
        first matches Step::Seek(target, _) && target == Target::Current,
        second matches Step::Seek(target, _) && target == Target::End,
        third matches Step::Seek(target, _) && target == Target::Start(position),
        gets_typed_answer(total, content_type, range, last),
        proceeds(total, content_type, range, last),
{
    lemma_typed(total, content_type, range, last);
}

/// Of a new stream, both the length and the content type are found out.
pub proof fn law_new_stream_finds_out_everything(
    range: Option<String>,
    stream: SeekStream,
    first: Step,
    second: Step,
    third: Step,
    last: Step,
    position: u64,
    total: u64,
    back: u64,
)
    requires
        call_ensures(SeekStream::new, (), stream),
        call_ensures(SeekStream::get_response, (stream, range), first),
        finds_length(first, second, third, last, position, total, back),
    ensures
        first matches Step::Seek(target, _) && target == Target::Current,
        second matches Step::Seek(target, _) && target == Target::End,
        third matches Step::Seek(target, _) && target == Target::Start(position),
        gets_typed_answer(total, None, range, last),
{
    lemma_typed(total, None, range, last);
}

/// An answer that waits for the stream to move is given as it is once the stream has moved.
pub proof fn law_placed_answer_is_given(response: Response, position: u64, step: Step)
    requires
        call_ensures(Seeking::resume, (Seeking::Place { response }, Some(position)), step),
    ensures
        step matches Step::Done(Outcome::Respond(given)) && given == response,
{
}

/// A stream that fails to move or to read makes the request fail, whatever it waits for.
pub proof fn law_failures_are_server_errors(
    seeking: Seeking,
    moved: Step,
    reading: Reading,
    read: Step,
)
    requires
        call_ensures(Seeking::resume, (seeking, None::<u64>), moved),
        call_ensures(Reading::resume, (reading, None::<Vec<u8>>), read),
    ensures
        gets_refusal(moved, Status::InternalServerError, Seq::empty()),
        gets_refusal(read, Status::InternalServerError, Seq::empty()),
        call_requires(Seeking::resume, (seeking, None::<u64>)),
        call_requires(Reading::resume, (reading, None::<Vec<u8>>)),
{
    if let Step::Done(Outcome::Refuse(_, reasons)) = moved {
        assert(texts(reasons@) =~= Seq::empty());
    }
    if let Step::Done(Outcome::Refuse(_, reasons)) = read {
        assert(texts(reasons@) =~= Seq::empty());
    }
}

} // verus!
