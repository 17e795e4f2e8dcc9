//! The answer to a request for a seekable stream.

use crate::multipart::{content_range, content_range_text, is_random_boundary, MultipartReader, Reader};
use crate::ranges::{
    all_satisfiable, canonical, clamped, clamped_ranges, header_ranges,
    law_canonical_ignores_order, law_satisfiable_range_is_within, lemma_canonical,
    lemma_canonical_exists, numbers_fit, parsed_ranges, parts, range_errors,
    same_ranges, satisfiable, select_ranges, ByteRange, Ranges, Selection,
};
use crate::text::{decimal, decimal_text};
use vstd::prelude::*;
use vstd::utf8::encode_utf8;

verus! {

/// How many bytes at most the content type is inferred from.
pub const PRELUDE_LEN: usize = 256;

/// The status of an answer.
#[derive(Clone, Copy, Debug, PartialEq, Eq, Structural)]
pub enum Status {
    /// 200
    Success,
    /// 206
    PartialContent,
    /// 416
    RangeNotSatisfiable,
    /// 500
    InternalServerError,
}

/// What the body of an answer consists of.
#[derive(Debug)]
pub enum Body {
    /// The stream, from where it stands to its end.
    Whole,
    /// The stream, from where it stands and at most as many bytes.
    Limited(u64),
    /// Several ranges of the stream.
    Multipart(MultipartReader),
}

/// An answer that carries content.
#[derive(Debug)]
pub struct Response {
    /// The status of the answer.
    pub status: Status,
    /// Names and values of the header fields, in the order in which they are set. A later
    /// field replaces an earlier one of the same name.
    pub headers: Vec<(String, String)>,
    /// The body of the answer.
    pub body: Body,
}

/// Names and values of header fields as texts.
pub open spec fn fields(headers: Seq<(String, String)>) -> Seq<(Seq<char>, Seq<char>)> {
    headers.map_values(|field: (String, String)| (field.0@, field.1@))
}

/// The fields of every answer: that ranges of bytes are accepted, and the content type.
pub open spec fn common_fields(mime_type: Seq<char>) -> Seq<(Seq<char>, Seq<char>)> {
    seq![("Accept-Ranges"@, "bytes"@), ("Content-Type"@, mime_type)]
}

/// The answer to a request without a range.
pub open spec fn is_whole(response: Response, stream_len: u64, mime_type: Seq<char>) -> bool {
    &&& response.status == Status::Success
    &&& fields(response.headers@) == common_fields(mime_type).push(
        ("Content-Length"@, decimal(stream_len as nat)),
    )
    &&& response.body is Whole
}

/// The answer to a request for one range. The body is limited only where the range ends
/// before the stream does.
pub open spec fn is_partial(
    response: Response,
    stream_len: u64,
    mime_type: Seq<char>,
    start: u64,
    end: u64,
) -> bool {
    &&& response.status == Status::PartialContent
    &&& fields(response.headers@) == common_fields(mime_type).push(
        ("Content-Range"@, content_range(start, end, stream_len)),
    ).push(("Content-Length"@, decimal((end + 1 - start) as nat)))
    &&& if end + 1 < stream_len {
        response.body matches Body::Limited(count) && count == end + 1 - start
    } else {
        response.body is Whole
    }
}

/// The value of the `Content-Type` field of an answer with several parts.
pub open spec fn multipart_type(boundary: Seq<char>) -> Seq<char> {
    "multipart/byterange; boundary="@ + boundary
}

/// The answer to a request for several ranges, with a boundary drawn at random.
pub open spec fn is_multipart(
    response: Response,
    stream_len: u64,
    mime_type: Seq<char>,
    ranges: Seq<(u64, u64)>,
) -> bool {
    &&& response.status == Status::PartialContent
    &&& response.body matches Body::Multipart(reader) && {
        &&& reader.wf()
        &&& reader@ == Reader::fresh(stream_len, ranges, mime_type, reader@.boundary)
        &&& is_random_boundary(reader@.boundary)
        &&& fields(response.headers@) == common_fields(mime_type).push(
            ("Content-Type"@, multipart_type(reader@.boundary)),
        )
    }
}

/// The offsets of a range make sense as a count of bytes.
pub open spec fn countable(start: u64, end: u64) -> bool {
    start <= end + 1 <= u64::MAX
}

impl Response {
    /// An answer with the fields that every answer has.
    fn with_type(status: Status, mime_type: String, body: Body) -> (response: Response)
        ensures
            response.status == status,
            response.body == body,
            fields(response.headers@) == common_fields(mime_type@),
    {
        let mut headers: Vec<(String, String)> = Vec::new();
        headers.push(("Accept-Ranges".to_owned(), "bytes".to_owned()));
        headers.push(("Content-Type".to_owned(), mime_type));
        assert(fields(headers@) =~= common_fields(mime_type@));
        Response { status, headers, body }
    }

    /// Adds a header field.
    fn set_header(&mut self, name: &str, value: String)
        ensures
            final(self).status == old(self).status,
            final(self).body == old(self).body,
            fields(final(self).headers@) == fields(old(self).headers@).push((name@, value@)),
    {
        self.headers.push((name.to_owned(), value));
        assert(fields(self.headers@) =~= fields(old(self).headers@).push((name@, value@)));
    }

    /// The answer to a request without a range.
    pub fn whole(stream_len: u64, mime_type: String) -> (response: Response)
        ensures
            is_whole(response, stream_len, mime_type@),
    {
        let mut response = Response::with_type(Status::Success, mime_type, Body::Whole);
        response.set_header("Content-Length", decimal_text(stream_len));
        response
    }

    /// The answer to a request for one range.
    pub fn partial(stream_len: u64, mime_type: String, start: u64, end: u64) -> (response: Response)
        requires
            countable(start, end),
        ensures
            is_partial(response, stream_len, mime_type@, start, end),
    {
        let body = if end + 1 < stream_len {
            Body::Limited(end + 1 - start)
        } else {
            Body::Whole
        };
        let mut response = Response::with_type(Status::PartialContent, mime_type, body);
        response.set_header("Content-Range", content_range_text(start, end, stream_len));
        response.set_header("Content-Length", decimal_text(end + 1 - start));
        response
    }

    /// The answer to a request for the ranges that `reader` sends.
    pub fn multipart(mime_type: String, reader: MultipartReader) -> (response: Response)
        ensures
            response.status == Status::PartialContent,
            response.body == Body::Multipart(reader),
            fields(response.headers@) == common_fields(mime_type@).push(
                ("Content-Type"@, multipart_type(reader@.boundary)),
            ),
    {
        let mut value = "multipart/byterange; boundary=".to_owned();
        value.append(reader.boundary());
        let mut response = Response::with_type(Status::PartialContent, mime_type, Body::Multipart(reader));
        response.set_header("Content-Type", value);
        response
    }
}

/// Where a stream is to move.
#[derive(Clone, Copy, Debug, PartialEq, Eq, Structural)]
pub enum Target {
    /// To an offset from its start.
    Start(u64),
    /// Nowhere: only its position is wanted.
    Current,
    /// To its end.
    End,
}

/// What has to be done next to answer a request.
#[derive(Debug)]
pub enum Step {
    /// The stream is to move, and to report its new position.
    Seek(Target, Seeking),
    /// The stream is to read bytes, at most as many.
    Read(usize, Reading),
    /// Nothing.
    Done(Outcome),
}

/// How a request is answered.
#[derive(Debug)]
pub enum Outcome {
    /// With content.
    Respond(Response),
    /// With a status alone, where ranges of the request are at fault for these reasons.
    Refuse(Status, Vec<&'static str>),
}

/// A request that waits for the stream to move.
#[derive(Debug)]
pub enum Seeking {
    /// The position is wanted, to come back to it once the length is known.
    OldPosition { content_type: Option<String>, range: Option<String> },
    /// The length of the stream is wanted.
    Length { old_pos: u64, content_type: Option<String>, range: Option<String> },
    /// The stream is to come back to its old position.
    Return { stream_len: u64, content_type: Option<String>, range: Option<String> },
    /// The stream is to move to its start, for a sample of its first bytes.
    Sample { stream_len: u64, range: Option<String> },
    /// The stream is to come back to its start after `prelude` has been read.
    Rewind { stream_len: u64, prelude: Vec<u8>, range: Option<String> },
    /// The stream is to move to the range that `response` announces.
    Place { response: Response },
}

/// A request that waits for the first bytes of the stream.
#[derive(Debug)]
pub struct Reading {
    pub stream_len: u64,
    pub range: Option<String>,
}

/// The request is refused.
pub open spec fn refuses(step: Step, status: Status, errors: Seq<&'static str>) -> bool {
    step matches Step::Done(Outcome::Refuse(answer, reasons)) && answer == status && reasons@
        == errors
}

/// What is done to serve sorted, distinct ranges.
pub open spec fn serves(
    stream_len: u64,
    mime_type: Seq<char>,
    ranges: Seq<(u64, u64)>,
    step: Step,
) -> bool {
    if ranges.len() > 1 {
        step matches Step::Done(Outcome::Respond(response)) && is_multipart(
            response,
            stream_len,
            mime_type,
            ranges,
        )
    } else {
        step matches Step::Seek(target, Seeking::Place { response }) && {
            &&& target == Target::Start(ranges[0].0)
            &&& is_partial(response, stream_len, mime_type, ranges[0].0, ranges[0].1)
        }
    }
}

/// What is done about a request with these elements in its `Range` header.
pub open spec fn answers_ranges(
    stream_len: u64,
    mime_type: Seq<char>,
    specs: Seq<ByteRange>,
    step: Step,
) -> bool {
    if specs.len() == 0 || !all_satisfiable(specs, stream_len) {
        refuses(step, Status::RangeNotSatisfiable, range_errors(specs, stream_len))
    } else {
        serves(stream_len, mime_type, canonical(clamped_ranges(specs, stream_len)), step)
    }
}

/// What is done about a request once length and content type of the stream are known.
pub open spec fn answers(
    stream_len: u64,
    mime_type: Seq<char>,
    range: Option<String>,
    step: Step,
) -> bool {
    match range {
        None => step matches Step::Done(Outcome::Respond(response)) && is_whole(
            response,
            stream_len,
            mime_type,
        ),
        Some(header) => if numbers_fit(encode_utf8(header@)) {
            answers_ranges(stream_len, mime_type, parsed_ranges(header@), step)
        } else {
            refuses(step, Status::RangeNotSatisfiable, Seq::empty())
        },
    }
}

/// What is done about a request once the length of the stream is known.
pub open spec fn proceeds(
    stream_len: u64,
    content_type: Option<String>,
    range: Option<String>,
    step: Step,
) -> bool {
    match content_type {
        Some(mime_type) => answers(stream_len, mime_type@, range, step),
        None => step == Step::Seek(Target::Start(0), Seeking::Sample { stream_len, range }),
    }
}

/// Serves a readable and seekable stream. The length of the stream and its content type
/// can be given; otherwise the stream is asked for its length, and the content type is
/// inferred from a sample of bytes from the beginning of the stream.
///
/// The `Accept-Ranges` header is always set. If a range request is received, the answer
/// starts at the requested offset. Requests for several ranges are supported too.
#[derive(Debug)]
pub struct SeekStream {
    length: Option<u64>,
    content_type: Option<String>,
}

/// `tree_magic` can infer the content type `mime_type` from the bytes `prelude`, on some
/// machine.
pub uninterp spec fn can_infer(prelude: Seq<u8>, mime_type: Seq<char>) -> bool;

/// Calls `tree_magic::from_u8`, which names a content type that `prelude` looks like. It
/// goes by rules that it reads from the machine's disk. Claimed of it: the type is one that
/// it can infer from these bytes. Which types those are is not stated, nor that the same
/// bytes always give the same type. A malformed rule file on the machine can make it panic.
#[verifier::external_body]
fn infer_mime_type(prelude: &[u8]) -> (mime_type: String)
    ensures
        can_infer(prelude@, mime_type@),
{
    tree_magic::from_u8(prelude)
}

impl SeekStream {
    /// The length of the stream, where it is given.
    pub closed spec fn length(&self) -> Option<u64> {
        self.length
    }

    /// The content type of the stream, where it is given.
    pub closed spec fn content_type(&self) -> Option<String> {
        self.content_type
    }

    /// A stream of which nothing is known.
    pub fn new() -> (stream: SeekStream)
        ensures
            stream.length() is None,
            stream.content_type() is None,
    {
        SeekStream::with_opts(None, None)
    }

    /// A stream with the given length and content type.
    pub fn with_opts(stream_len: Option<u64>, content_type: Option<String>) -> (stream: SeekStream)
        ensures
            stream.length() == stream_len,
            stream.content_type() == content_type,
    {
        SeekStream { length: stream_len, content_type }
    }

    /// Begins to answer a request with the given `Range` header.
    pub fn get_response(self, range: Option<String>) -> (step: Step)
        ensures
            self.length() matches Some(stream_len) ==> proceeds(
                stream_len,
                self.content_type(),
                range,
                step,
            ),
            self.length() is None ==> step == Step::Seek(
                Target::Current,
                Seeking::OldPosition { content_type: self.content_type(), range },
            ),
    {
        match self.length {
            Some(stream_len) => proceed(stream_len, self.content_type, range),
            None => Step::Seek(
                Target::Current,
                Seeking::OldPosition { content_type: self.content_type, range },
            ),
        }
    }
}

/// Goes on with a request once the length of the stream is known.
fn proceed(stream_len: u64, content_type: Option<String>, range: Option<String>) -> (step: Step)
    ensures
        proceeds(stream_len, content_type, range, step),
{
    match content_type {
        Some(mime_type) => answer(stream_len, mime_type, range),
        None => Step::Seek(Target::Start(0), Seeking::Sample { stream_len, range }),
    }
}

/// Refuses a request because the stream failed.
fn server_error() -> (step: Step)
    ensures
        refuses(step, Status::InternalServerError, Seq::empty()),
{
    Step::Done(Outcome::Refuse(Status::InternalServerError, Vec::new()))
}

/// Goes on with a request once length and content type of the stream are known.
pub fn answer(stream_len: u64, mime_type: String, range: Option<String>) -> (step: Step)
    ensures
        answers(stream_len, mime_type@, range, step),
{
    match range {
        None => Step::Done(Outcome::Respond(Response::whole(stream_len, mime_type))),
        Some(header) => match header_ranges(header.as_str()) {
            Some(specs) => answer_ranges(stream_len, mime_type, &specs),
            None => Step::Done(Outcome::Refuse(Status::RangeNotSatisfiable, Vec::new())),
        },
    }
}

/// Goes on with a request once the elements of its `Range` header are known.
pub fn answer_ranges(stream_len: u64, mime_type: String, specs: &Vec<ByteRange>) -> (step: Step)
    ensures
        answers_ranges(stream_len, mime_type@, specs@, step),
{
    let ranges: Ranges = match select_ranges(specs, stream_len) {
        Selection::Unsatisfiable(errors) => {
            return Step::Done(Outcome::Refuse(Status::RangeNotSatisfiable, errors));
        },
        Selection::Ranges(ranges) => ranges,
    };
    if ranges.len() > 1 {
        let reader = MultipartReader::new(stream_len, mime_type.clone(), ranges);
        Step::Done(Outcome::Respond(Response::multipart(mime_type, reader)))
    } else {
        let (start, end) = ranges[0];
        proof {
            lemma_selected_is_within(specs@, stream_len, 0);
        }
        let response = Response::partial(stream_len, mime_type, start, end);
        Step::Seek(Target::Start(start), Seeking::Place { response })
    }
}

/// The ranges that a request selects are not empty and lie within the stream.
pub proof fn lemma_selected_is_within(specs: Seq<ByteRange>, stream_len: u64, i: int)
    requires
        all_satisfiable(specs, stream_len),
        0 <= i < canonical(clamped_ranges(specs, stream_len)).len(),
    ensures
        ({
            let (start, end) = canonical(clamped_ranges(specs, stream_len))[i];
            start <= end < stream_len
        }),
{
    let all = clamped_ranges(specs, stream_len);
    let ranges = canonical(all);
    lemma_canonical_exists(all);
    assert(ranges.contains(ranges[i]));
    assert(all.contains(ranges[i]));
    let k = choose|k: int| 0 <= k < all.len() && all[k] == ranges[i];
    law_satisfiable_range_is_within(parts(specs[k]).0, parts(specs[k]).1, stream_len);
}

impl Seeking {
    /// What is done about the request once the stream has moved to `reply`, or has failed to.
    pub open spec fn resumes(self, reply: Option<u64>, step: Step) -> bool {
        match reply {
            None => refuses(step, Status::InternalServerError, Seq::empty()),
            Some(position) => match self {
                Seeking::OldPosition { content_type, range } => step == Step::Seek(
                    Target::End,
                    Seeking::Length { old_pos: position, content_type, range },
                ),
                Seeking::Length { old_pos, content_type, range } => step == Step::Seek(
                    Target::Start(old_pos),
                    Seeking::Return { stream_len: position, content_type, range },
                ),
                Seeking::Return { stream_len, content_type, range } => proceeds(
                    stream_len,
                    content_type,
                    range,
                    step,
                ),
                Seeking::Sample { stream_len, range } => step == Step::Read(
                    PRELUDE_LEN,
                    Reading { stream_len, range },
                ),
                Seeking::Rewind { stream_len, prelude, range } => exists|mime_type: Seq<char>|
                    #[trigger] can_infer(prelude@, mime_type) && answers(
                        stream_len,
                        mime_type,
                        range,
                        step,
                    ),
                Seeking::Place { response } => step == Step::Done(Outcome::Respond(response)),
            },
        }
    }

    /// Goes on with the request once the stream has moved and reports its position, or
    /// reports nothing because it failed to move.
    pub fn resume(self, reply: Option<u64>) -> (step: Step)
        ensures
            self.resumes(reply, step),
    {
        let position: u64 = match reply {
            Some(position) => position,
            None => return server_error(),
        };
        match self {
            Seeking::OldPosition { content_type, range } => Step::Seek(
                Target::End,
                Seeking::Length { old_pos: position, content_type, range },
            ),
            Seeking::Length { old_pos, content_type, range } => Step::Seek(
                Target::Start(old_pos),
                Seeking::Return { stream_len: position, content_type, range },
            ),
            Seeking::Return { stream_len, content_type, range } => proceed(
                stream_len,
                content_type,
                range,
            ),
            Seeking::Sample { stream_len, range } => Step::Read(
                PRELUDE_LEN,
                Reading { stream_len, range },
            ),
            Seeking::Rewind { stream_len, prelude, range } => answer(
                stream_len,
                infer_mime_type(prelude.as_slice()),
                range,
            ),
            Seeking::Place { response } => Step::Done(Outcome::Respond(response)),
        }
    }
}

impl Reading {
    /// What is done about the request once the stream has read `reply`, or has failed to.
    pub open spec fn resumes(self, reply: Option<Vec<u8>>, step: Step) -> bool {
        match reply {
            None => refuses(step, Status::InternalServerError, Seq::empty()),
            Some(prelude) => step == Step::Seek(
                Target::Start(0),
                Seeking::Rewind { stream_len: self.stream_len, prelude, range: self.range },
            ),
        }
    }

    /// Goes on with the request once the stream has read its first bytes, or nothing
    /// because it failed to.
    pub fn resume(self, reply: Option<Vec<u8>>) -> (step: Step)
        ensures
            self.resumes(reply, step),
    {
        match reply {
            Some(prelude) => Step::Seek(
                Target::Start(0),
                Seeking::Rewind { stream_len: self.stream_len, prelude, range: self.range },
            ),
            None => server_error(),
        }
    }
}

/// The answer that a step leads to, at once or when the stream stands at its range.
pub open spec fn carries(step: Step, response: Response) -> bool {
    ||| step == Step::Done(Outcome::Respond(response))
    ||| step matches Step::Seek(_, Seeking::Place { response: placed }) && placed == response
}

/// The `Accept-Ranges` header is set in every answer that carries content.
pub proof fn law_accept_ranges_is_set(
    stream_len: u64,
    mime_type: Seq<char>,
    range: Option<String>,
    specs: Seq<ByteRange>,
    step: Step,
    response: Response,
)
    requires
        answers(stream_len, mime_type, range, step) || answers_ranges(
            stream_len,
            mime_type,
            specs,
            step,
        ),
        carries(step, response),
    ensures
        fields(response.headers@).contains(("Accept-Ranges"@, "bytes"@)),
{
    assert(fields(response.headers@)[0] == ("Accept-Ranges"@, "bytes"@));
}

/// An answer to a request for ranges that carries content has the status for a part of
/// the content.
pub proof fn law_ranges_are_partial_content(
    stream_len: u64,
    mime_type: Seq<char>,
    specs: Seq<ByteRange>,
    step: Step,
    response: Response,
)
    requires
        answers_ranges(stream_len, mime_type, specs, step),
        carries(step, response),
    ensures
        response.status == Status::PartialContent,
{
}

/// Requests that resolve to the same ranges are answered alike: neither order nor
/// repetition nor the way in which a range is written has any influence.
pub proof fn law_same_ranges_are_answered_alike(
    stream_len: u64,
    mime_type: Seq<char>,
    a: Seq<ByteRange>,
    b: Seq<ByteRange>,
    step: Step,
)
    requires
        all_satisfiable(a, stream_len),
        all_satisfiable(b, stream_len),
        same_ranges(clamped_ranges(a, stream_len), clamped_ranges(b, stream_len)),
    ensures
        answers_ranges(stream_len, mime_type, a, step) == answers_ranges(
            stream_len,
            mime_type,
            b,
            step,
        ),
{
    let ra = clamped_ranges(a, stream_len);
    let rb = clamped_ranges(b, stream_len);
    law_canonical_ignores_order(ra, rb);
    if a.len() > 0 {
        assert(ra.contains(ra[0]));
        assert(rb.contains(ra[0]));
    }
    if b.len() > 0 {
        assert(rb.contains(rb[0]));
        assert(ra.contains(rb[0]));
    }
    if a.len() == 0 {
        assert(a =~= b);
    }
}

/// A request for one range moves the stream to the offset that it names, and is answered
/// with the range from there.
pub proof fn law_single_range_starts_at_its_offset(
    stream_len: u64,
    mime_type: Seq<char>,
    spec: ByteRange,
    first: Step,
    second: Step,
)
    requires
        satisfiable(parts(spec).0, parts(spec).1, stream_len),
        answers_ranges(stream_len, mime_type, seq![spec], first),
        first matches Step::Seek(Target::Start(start), seeking) ==> seeking.resumes(
            Some(start),
            second,
        ),
    ensures
        ({
            let (start, end) = clamped(parts(spec).0, parts(spec).1, stream_len);
            &&& first matches Step::Seek(target, _) && target == Target::Start(start)
            &&& second matches Step::Done(Outcome::Respond(response)) && is_partial(
                response,
                stream_len,
                mime_type,
                start,
                end,
            )
        }),
{
    let range = clamped(parts(spec).0, parts(spec).1, stream_len);
    let ranges = clamped_ranges(seq![spec], stream_len);
    assert(ranges =~= seq![range]);
    lemma_canonical(ranges, ranges);
}

/// The bytes of a body that is sent from the stream `data` at offset `at`.
pub open spec fn body_bytes(body: Body, data: Seq<u8>, at: int) -> Seq<u8> {
    match body {
        Body::Limited(count) if count < data.len() - at => data.subrange(at, at + count),
        _ => data.skip(at),
    }
}

/// The answer to a request for a range has the bytes of the range as its body, and
/// announces as many.
pub proof fn law_partial_body_is_the_range(
    response: Response,
    stream_len: u64,
    mime_type: Seq<char>,
    from: Option<u64>,
    to: Option<u64>,
    data: Seq<u8>,
)
    requires
        satisfiable(from, to, stream_len),
        data.len() == stream_len,
        ({
            let (start, end) = clamped(from, to, stream_len);
            is_partial(response, stream_len, mime_type, start, end)
        }),
    ensures
        ({
            let (start, end) = clamped(from, to, stream_len);
            let bytes = body_bytes(response.body, data, start as int);
            &&& bytes == data.subrange(start as int, end + 1)
            &&& fields(response.headers@).contains(("Content-Length"@, decimal(bytes.len())))
        }),
{
    let (start, end) = clamped(from, to, stream_len);
    let bytes = body_bytes(response.body, data, start as int);
    assert(bytes =~= data.subrange(start as int, end + 1));
    let length = fields(response.headers@)[3];
    assert(length == ("Content-Length"@, decimal((end + 1 - start) as nat)));
}

/// The answer to a request without a range, sent from the start of the stream, has the
/// entire stream as its body, and announces as many bytes.
pub proof fn law_whole_body_is_the_stream(
    response: Response,
    stream_len: u64,
    mime_type: Seq<char>,
    data: Seq<u8>,
)
    requires
        is_whole(response, stream_len, mime_type),
        data.len() == stream_len,
    ensures
        body_bytes(response.body, data, 0) == data,
        fields(response.headers@).contains(("Content-Length"@, decimal(data.len()))),
{
    assert(data.skip(0) =~= data);
    let length = fields(response.headers@)[2];
    assert(length == ("Content-Length"@, decimal(stream_len as nat)));
}

/// Finding out the length of a stream takes it to its end and back to where it was.
pub proof fn law_length_is_found_in_place(
    content_type: Option<String>,
    range: Option<String>,
    old_pos: u64,
    stream_len: u64,
    first: Step,
    second: Step,
)
    requires
        (Seeking::OldPosition { content_type, range }).resumes(Some(old_pos), first),
        (Seeking::Length { old_pos, content_type, range }).resumes(Some(stream_len), second),
    ensures
        first == Step::Seek(Target::End, Seeking::Length { old_pos, content_type, range }),
        second == Step::Seek(
            Target::Start(old_pos),
            Seeking::Return { stream_len, content_type, range },
        ),
{
}

/// The sample for the content type is read at the beginning of the stream, the stream is
/// put back there, and the type is one that can be inferred from the sample.
pub proof fn law_sample_is_taken_from_the_beginning(
    stream_len: u64,
    range: Option<String>,
    prelude: Vec<u8>,
    arrived: u64,
    returned: u64,
    first: Step,
    second: Step,
    third: Step,
    last: Step,
)
    requires
        proceeds(stream_len, None, range, first),
        (Seeking::Sample { stream_len, range }).resumes(Some(arrived), second),
        (Reading { stream_len, range }).resumes(Some(prelude), third),
        (Seeking::Rewind { stream_len, prelude, range }).resumes(Some(returned), last),
    ensures
        first == Step::Seek(Target::Start(0), Seeking::Sample { stream_len, range }),
        second == Step::Read(PRELUDE_LEN, Reading { stream_len, range }),
        third == Step::Seek(Target::Start(0), Seeking::Rewind { stream_len, prelude, range }),
        exists|mime_type: Seq<char>| #[trigger]
            can_infer(prelude@, mime_type) && answers(stream_len, mime_type, range, last),
{
}

} // verus!
