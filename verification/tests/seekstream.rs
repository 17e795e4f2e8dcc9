use seek_stream::multipart::{Action, Event};
use seek_stream::ranges::{ByteRange, LAST_BEFORE_FIRST, OUTSIDE};
use seek_stream::seekstream::{
    answer, answer_ranges, Body, Outcome, Response, SeekStream, Status, Step, Target, PRELUDE_LEN,
};

fn fields(response: &Response) -> Vec<(&str, &str)> {
    response.headers.iter().map(|(name, value)| (name.as_str(), value.as_str())).collect()
}

fn responded(step: Step) -> Response {
    match step {
        Step::Done(Outcome::Respond(response)) => response,
        other => panic!("{:?}", other),
    }
}

fn text() -> String {
    "text/plain".to_string()
}

fn placed(range: &str, target: u64) -> Step {
    match answer(100, text(), Some(range.to_string())) {
        Step::Seek(Target::Start(start), seeking) => {
            assert_eq!(start, target);
            seeking.resume(Some(start))
        }
        other => panic!("{:?}", other),
    }
}

#[test]
fn whole_stream() {
    let stream = SeekStream::with_opts(Some(100), Some(text()));
    let response = responded(stream.get_response(None));
    assert_eq!(response.status, Status::Success);
    assert_eq!(
        fields(&response),
        vec![
            ("Accept-Ranges", "bytes"),
            ("Content-Type", "text/plain"),
            ("Content-Length", "100"),
        ]
    );
    assert!(matches!(response.body, Body::Whole));
}

#[test]
fn single_range() {
    let response = responded(placed("bytes=10-19", 10));
    assert_eq!(response.status, Status::PartialContent);
    assert_eq!(
        fields(&response),
        vec![
            ("Accept-Ranges", "bytes"),
            ("Content-Type", "text/plain"),
            ("Content-Range", "bytes 10-19/100"),
            ("Content-Length", "10"),
        ]
    );
    assert!(matches!(response.body, Body::Limited(10)));
}

#[test]
fn range_to_the_end_is_not_limited() {
    for range in ["bytes=90-", "bytes=-10", "bytes=90-99", "bytes=90-99,-10"] {
        let response = responded(placed(range, 90));
        assert_eq!(fields(&response)[2], ("Content-Range", "bytes 90-99/100"));
        assert_eq!(fields(&response)[3], ("Content-Length", "10"));
        assert!(matches!(response.body, Body::Whole));
    }
}

#[test]
fn range_beyond_the_end_is_clamped() {
    let response = responded(placed("bytes=90-200", 90));
    assert_eq!(fields(&response)[2], ("Content-Range", "bytes 90-99/100"));
    assert_eq!(fields(&response)[3], ("Content-Length", "10"));
    assert!(matches!(response.body, Body::Whole));
}

#[test]
fn several_ranges() {
    let stream = SeekStream::with_opts(Some(100), Some(text()));
    let response = responded(stream.get_response(Some("bytes=50-59,0-9,50-59".to_string())));
    assert_eq!(response.status, Status::PartialContent);
    let reader = match &response.body {
        Body::Multipart(reader) => reader,
        other => panic!("{:?}", other),
    };
    let content_type = format!("multipart/byterange; boundary={}", reader.boundary());
    assert_eq!(
        fields(&response),
        vec![
            ("Accept-Ranges", "bytes"),
            ("Content-Type", "text/plain"),
            ("Content-Type", content_type.as_str()),
        ]
    );
}

fn refused(step: Step) -> Vec<&'static str> {
    match step {
        Step::Done(Outcome::Refuse(Status::RangeNotSatisfiable, errors)) => errors,
        other => panic!("{:?}", other),
    }
}

#[test]
fn unsatisfiable_ranges_are_refused() {
    for range in ["bytes=100-", "bytes=0-1,100-", "bytes=-0"] {
        assert_eq!(
            refused(answer(100, text(), Some(range.to_string()))),
            vec![LAST_BEFORE_FIRST]
        );
    }
    for range in ["bytes=150-200", "bytes=100-100", "bytes=-101", "bytes=150-200,0-1"] {
        assert_eq!(refused(answer(100, text(), Some(range.to_string()))), vec![OUTSIDE]);
    }
    assert_eq!(
        refused(answer(0, text(), Some("bytes=0-,0-0".to_string()))),
        vec![LAST_BEFORE_FIRST, OUTSIDE]
    );
}

#[test]
fn malformed_headers_are_refused() {
    for range in [
        "bytes=5-4",
        "nonsense",
        "",
        "items=99999999999999999999-",
        "bytes=99999999999999999999-",
    ] {
        assert!(refused(answer(100, text(), Some(range.to_string()))).is_empty());
    }
}

#[test]
fn parsed_ranges_are_answered() {
    let specs = vec![ByteRange::FromToAll(3, 4)];
    let response = match answer_ranges(10, text(), &specs) {
        Step::Seek(Target::Start(3), seeking) => responded(seeking.resume(Some(3))),
        other => panic!("{:?}", other),
    };
    assert_eq!(fields(&response)[2], ("Content-Range", "bytes 3-4/10"));
}

#[test]
fn length_is_found_in_place() {
    let stream = SeekStream::with_opts(None, Some(text()));
    let seeking = match stream.get_response(None) {
        Step::Seek(Target::Current, seeking) => seeking,
        other => panic!("{:?}", other),
    };
    let seeking = match seeking.resume(Some(17)) {
        Step::Seek(Target::End, seeking) => seeking,
        other => panic!("{:?}", other),
    };
    let seeking = match seeking.resume(Some(42)) {
        Step::Seek(Target::Start(17), seeking) => seeking,
        other => panic!("{:?}", other),
    };
    let response = responded(seeking.resume(Some(17)));
    assert_eq!(fields(&response)[2], ("Content-Length", "42"));
}

#[test]
fn content_type_is_inferred() {
    let stream = SeekStream::with_opts(Some(6), None);
    let seeking = match stream.get_response(None) {
        Step::Seek(Target::Start(0), seeking) => seeking,
        other => panic!("{:?}", other),
    };
    let reading = match seeking.resume(Some(0)) {
        Step::Read(len, reading) => {
            assert_eq!(len, 256);
            reading
        }
        other => panic!("{:?}", other),
    };
    let gif = b"GIF89a\x01\x00\x01\x00\x80\x00\x00".to_vec();
    let seeking = match reading.resume(Some(gif)) {
        Step::Seek(Target::Start(0), seeking) => seeking,
        other => panic!("{:?}", other),
    };
    let response = responded(seeking.resume(Some(0)));
    assert_eq!(fields(&response)[1], ("Content-Type", "image/gif"));
}

#[test]
fn nothing_is_known_of_a_new_stream() {
    let seeking = match SeekStream::new().get_response(None) {
        Step::Seek(Target::Current, seeking) => seeking,
        other => panic!("{:?}", other),
    };
    let seeking = match seeking.resume(Some(0)) {
        Step::Seek(Target::End, seeking) => seeking,
        other => panic!("{:?}", other),
    };
    let seeking = match seeking.resume(Some(5)) {
        Step::Seek(Target::Start(0), seeking) => seeking,
        other => panic!("{:?}", other),
    };
    let seeking = match seeking.resume(Some(0)) {
        Step::Seek(Target::Start(0), seeking) => seeking,
        other => panic!("{:?}", other),
    };
    assert!(matches!(seeking.resume(Some(0)), Step::Read(PRELUDE_LEN, _)));
}

#[test]
fn failures_of_the_stream_are_server_errors() {
    let error = |step: Step| {
        matches!(step, Step::Done(Outcome::Refuse(Status::InternalServerError, _)))
    };
    match SeekStream::new().get_response(None) {
        Step::Seek(_, seeking) => assert!(error(seeking.resume(None))),
        other => panic!("{:?}", other),
    }
    match SeekStream::with_opts(Some(5), None).get_response(None) {
        Step::Seek(_, seeking) => assert!(error(seeking.resume(None))),
        other => panic!("{:?}", other),
    }
    match SeekStream::with_opts(Some(5), None).get_response(None) {
        Step::Seek(_, seeking) => match seeking.resume(Some(0)) {
            Step::Read(_, reading) => assert!(error(reading.resume(None))),
            other => panic!("{:?}", other),
        },
        other => panic!("{:?}", other),
    }
    match answer(100, text(), Some("bytes=5-6".to_string())) {
        Step::Seek(_, seeking) => assert!(error(seeking.resume(None))),
        other => panic!("{:?}", other),
    }
}

#[test]
fn order_and_repetition_do_not_matter() {
    let specs = [
        vec![ByteRange::FromToAll(0, 1), ByteRange::Last(2)],
        vec![ByteRange::Last(2), ByteRange::FromToAll(0, 1), ByteRange::Last(2)],
    ];
    for list in &specs {
        let response = responded(answer_ranges(4, text(), list));
        assert_eq!(sent(response, b"abcd"), "0-1:ab;2-3:cd;");
    }
}

#[test]
fn several_ranges_are_sent_sorted_and_once() {
    let range = Some("bytes=4-,0-1,4-,-1".to_string());
    let response = responded(answer(6, text(), range));
    assert_eq!(sent(response, b"abcdef"), "0-1:ab;4-5:ef;5-5:f;");
}

/// What a body of several parts holds, read with a large buffer: ranges and contents.
fn sent(response: Response, data: &[u8]) -> String {
    let mut reader = match response.body {
        Body::Multipart(reader) => reader,
        other => panic!("{:?}", other),
    };
    let mut at = 0usize;
    let mut all: Vec<u8> = Vec::new();
    loop {
        let mut buf = vec![0u8; 500];
        let mut event = Event::Start;
        let filled = loop {
            event = match reader.poll_read(&mut buf, event) {
                Action::Position { filled } => Event::Position { filled, position: at as u64 },
                Action::Seek { filled, start } => {
                    at = start as usize;
                    Event::Sought { filled }
                }
                Action::ReadExact { filled, count } => {
                    buf[filled..filled + count].copy_from_slice(&data[at..at + count]);
                    at += count;
                    Event::ReadExact { filled, count }
                }
                Action::Read { .. } => panic!("the buffer has space for every part"),
                Action::Done { filled } => break filled,
            };
        };
        if filled == 0 {
            break;
        }
        all.extend(&buf[..filled]);
    }
    let body = String::from_utf8(all).unwrap();
    let opening = format!("\r\n--{}\r\nContent-Range: bytes ", reader.boundary());
    let closing = format!("\r\n--{}--\r\n\r\n", reader.boundary());
    let mut summary = String::new();
    for part in body.strip_suffix(closing.as_str()).unwrap().split(opening.as_str()).skip(1) {
        let (range, rest) = part.split_once('/').unwrap();
        let content = rest.split_once("\r\nContent-Type: text/plain\r\n\r\n").unwrap().1;
        summary.push_str(&format!("{}:{};", range, content));
    }
    summary
}
