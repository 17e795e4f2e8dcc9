use seek_stream::multipart::{random_boundary, Action, Event, MultipartReader};

/// A stream in memory.
struct Stream {
    data: Vec<u8>,
    at: usize,
    chunk: usize,
}

fn reader(len: u64, ranges: Vec<(u64, u64)>) -> MultipartReader {
    MultipartReader::with_boundary(len, "text/plain".to_string(), ranges, "XYZ".to_string())
}

/// One call with a buffer of `size` bytes.
fn call(reader: &mut MultipartReader, stream: &mut Stream, size: usize) -> Vec<u8> {
    let mut buf = vec![b'?'; size];
    let mut event = Event::Start;
    loop {
        assert!(reader.admits(size, event));
        event = match reader.poll_read(&mut buf, event) {
            Action::Position { filled } => Event::Position { filled, position: stream.at as u64 },
            Action::Seek { filled, start } => {
                stream.at = start as usize;
                Event::Sought { filled }
            }
            Action::ReadExact { filled, count } => {
                let from = stream.at;
                buf[filled..filled + count].copy_from_slice(&stream.data[from..from + count]);
                stream.at += count;
                Event::ReadExact { filled, count }
            }
            Action::Read { filled } => {
                let from = stream.at;
                let count = (size - filled).min(stream.chunk).min(stream.data.len() - from);
                buf[filled..filled + count].copy_from_slice(&stream.data[from..from + count]);
                stream.at += count;
                Event::Read { filled, count }
            }
            Action::Done { filled } => {
                buf.truncate(filled);
                return buf;
            }
        }
    }
}

fn read_all(reader: &mut MultipartReader, stream: &mut Stream, size: usize) -> Vec<u8> {
    let mut all = Vec::new();
    loop {
        let bytes = call(reader, stream, size);
        if bytes.is_empty() {
            return all;
        }
        all.extend(bytes);
    }
}

fn alphabet(chunk: usize) -> Stream {
    Stream { data: (b'a'..=b'z').collect(), at: 7, chunk }
}

const HEADER_0: &str = "\r\n--XYZ\r\nContent-Range: bytes 0-3/26\r\nContent-Type: text/plain\r\n\r\n";
const HEADER_1: &str =
    "\r\n--XYZ\r\nContent-Range: bytes 10-25/26\r\nContent-Type: text/plain\r\n\r\n";
const CLOSER: &str = "\r\n--XYZ--\r\n\r\n";

fn whole_body() -> String {
    format!("{}abcd{}klmnopqrstuvwxyz{}", HEADER_0, HEADER_1, CLOSER)
}

#[test]
fn body_in_one_large_buffer() {
    let mut reader = reader(26, vec![(0, 3), (10, 25)]);
    let mut stream = alphabet(usize::MAX);
    assert_eq!(
        call(&mut reader, &mut stream, 1000),
        format!("{}abcd", HEADER_0).into_bytes()
    );
    assert_eq!(
        call(&mut reader, &mut stream, 1000),
        format!("{}klmnopqrstuvwxyz", HEADER_1).into_bytes()
    );
    assert_eq!(call(&mut reader, &mut stream, 1000), CLOSER.as_bytes());
    assert!(call(&mut reader, &mut stream, 1000).is_empty());
}

#[test]
fn body_is_delivered_with_any_buffer() {
    for size in (1usize..100).chain([200, 4096]) {
        for chunk in [1usize, 3, 100] {
            let mut reader = reader(26, vec![(0, 3), (10, 25)]);
            let mut stream = alphabet(chunk);
            assert_eq!(
                read_all(&mut reader, &mut stream, size),
                whole_body().into_bytes(),
                "{} {}",
                size,
                chunk
            );
        }
    }
}

#[test]
fn header_is_sent_in_pieces() {
    let mut reader = reader(26, vec![(0, 3)]);
    let mut stream = alphabet(usize::MAX);
    let first = call(&mut reader, &mut stream, 10);
    assert_eq!(first, &HEADER_0.as_bytes()[..10]);
    let second = call(&mut reader, &mut stream, HEADER_0.len() - 10);
    assert_eq!(second, &HEADER_0.as_bytes()[10..]);
    assert_eq!(call(&mut reader, &mut stream, 2), b"ab");
    assert_eq!(call(&mut reader, &mut stream, 2), b"cd");
    assert_eq!(call(&mut reader, &mut stream, 100), CLOSER.as_bytes());
    assert!(call(&mut reader, &mut stream, 100).is_empty());
}

#[test]
fn a_single_byte_of_a_header_is_kept() {
    let mut reader = reader(26, vec![(0, 3)]);
    let mut stream = alphabet(usize::MAX);
    let first = call(&mut reader, &mut stream, HEADER_0.len() - 1);
    assert_eq!(first, &HEADER_0.as_bytes()[..HEADER_0.len() - 1]);
    assert_eq!(call(&mut reader, &mut stream, 100), b"\nabcd");
    assert_eq!(
        call(&mut reader, &mut stream, CLOSER.len() - 1),
        &CLOSER.as_bytes()[..CLOSER.len() - 1]
    );
    assert_eq!(call(&mut reader, &mut stream, 100), b"\n");
    assert!(call(&mut reader, &mut stream, 100).is_empty());
}

#[test]
fn closing_boundary_in_two_calls() {
    let mut reader =
        MultipartReader::with_boundary(0, "text/plain".to_string(), vec![], "B".to_string());
    let mut stream = Stream { data: vec![], at: 0, chunk: 1 };
    assert_eq!(call(&mut reader, &mut stream, 10), b"\r\n--B--\r\n\r");
    assert_eq!(call(&mut reader, &mut stream, 10), b"\n");
    assert!(call(&mut reader, &mut stream, 10).is_empty());
}

#[test]
fn a_range_ends_with_the_buffer() {
    let mut reader = reader(26, vec![(4, 6)]);
    let mut stream = alphabet(usize::MAX);
    let header = "\r\n--XYZ\r\nContent-Range: bytes 4-6/26\r\nContent-Type: text/plain\r\n\r\n";
    let bytes = call(&mut reader, &mut stream, header.len() + 3);
    assert_eq!(bytes, format!("{}efg", header).into_bytes());
    assert_eq!(call(&mut reader, &mut stream, 100), CLOSER.as_bytes());
}

#[test]
fn an_empty_buffer_changes_nothing() {
    let mut reader = reader(26, vec![(0, 3), (10, 25)]);
    let mut stream = alphabet(5);
    assert!(call(&mut reader, &mut stream, 0).is_empty());
    assert_eq!(read_all(&mut reader, &mut stream, 500), whole_body().into_bytes());
    for size in [0usize, 1, 100] {
        assert!(call(&mut reader, &mut stream, size).is_empty());
    }
}

#[test]
fn no_ranges_leave_the_closing_boundary() {
    let mut reader = reader(26, vec![]);
    let mut stream = alphabet(5);
    assert_eq!(read_all(&mut reader, &mut stream, 100), CLOSER.as_bytes());
}

#[test]
fn content_type_is_sent_as_utf8() {
    let mut reader = MultipartReader::with_boundary(
        26,
        "text/\u{e9}".to_string(),
        vec![(0, 0)],
        "b".to_string(),
    );
    let mut stream = alphabet(5);
    assert_eq!(
        read_all(&mut reader, &mut stream, 100),
        "\r\n--b\r\nContent-Range: bytes 0-0/26\r\nContent-Type: text/\u{e9}\r\n\r\na\r\n--b--\r\n\r\n"
            .as_bytes()
    );
}

#[test]
fn steps_of_a_call() {
    let mut reader = reader(26, vec![(10, 25)]);
    let mut buf = vec![0u8; 100];
    assert_eq!(reader.poll_read(&mut buf, Event::Start), Action::Position { filled: 0 });
    assert_eq!(
        reader.poll_read(&mut buf, Event::Position { filled: 0, position: 3 }),
        Action::Seek { filled: 0, start: 10 }
    );
    let filled = HEADER_1.len();
    assert_eq!(
        reader.poll_read(&mut buf, Event::Sought { filled: 0 }),
        Action::Position { filled }
    );
    assert!(!reader.admits(100, Event::Position { filled, position: 27 }));
    assert!(!reader.admits(100, Event::Sought { filled }));
    assert_eq!(
        reader.poll_read(&mut buf, Event::Position { filled, position: 10 }),
        Action::ReadExact { filled, count: 16 }
    );
    assert_eq!(
        reader.poll_read(&mut buf, Event::ReadExact { filled, count: 16 }),
        Action::Done { filled: filled + 16 }
    );
}

#[test]
fn a_long_range_is_read_in_chunks() {
    let mut reader = reader(26, vec![(10, 25)]);
    let mut buf = vec![0u8; HEADER_1.len() + 5];
    let filled = HEADER_1.len();
    reader.poll_read(&mut buf, Event::Start);
    reader.poll_read(&mut buf, Event::Position { filled: 0, position: 0 });
    reader.poll_read(&mut buf, Event::Sought { filled: 0 });
    assert_eq!(
        reader.poll_read(&mut buf, Event::Position { filled, position: 10 }),
        Action::Read { filled }
    );
    assert_eq!(
        reader.poll_read(&mut buf, Event::Read { filled, count: 2 }),
        Action::Done { filled: filled + 2 }
    );
}

#[test]
fn boundaries_are_random_and_short() {
    let a = random_boundary();
    let b = random_boundary();
    assert_ne!(a, b);
    for boundary in [a, b] {
        assert!(boundary.len() >= 30 && boundary.len() <= 60);
        assert!(boundary.chars().all(|c| c.is_ascii_digit() || ('a'..='f').contains(&c)));
    }
    let reader = MultipartReader::new(26, "text/plain".to_string(), vec![(0, 3)]);
    assert!(reader.boundary().len() >= 30 && reader.boundary().len() <= 70);
    assert_ne!(reader.boundary(), "0".repeat(30));
}

#[test]
fn a_call_that_stops_goes_on_with_another_buffer() {
    let mut reader = reader(26, vec![(0, 3), (10, 25)]);
    let mut stream = alphabet(usize::MAX);
    // The stream has moved, but does not read: the header is handed over as it is.
    let mut buf = vec![0u8; HEADER_0.len() + 2];
    reader.poll_read(&mut buf, Event::Start);
    reader.poll_read(&mut buf, Event::Position { filled: 0, position: 7 });
    stream.at = 0;
    let filled = HEADER_0.len();
    assert_eq!(reader.poll_read(&mut buf, Event::Sought { filled: 0 }), Action::Position { filled });
    assert_eq!(
        reader.poll_read(&mut buf, Event::Position { filled, position: 0 }),
        Action::Read { filled }
    );
    let mut all = buf[..filled].to_vec();
    // The range still ends where it ends.
    assert_eq!(call(&mut reader, &mut stream, 1000), b"abcd");
    all.extend(b"abcd");
    all.extend(read_all(&mut reader, &mut stream, 1000));
    assert_eq!(all, whole_body().into_bytes());
}

#[test]
fn reads_beyond_the_range_are_not_admitted() {
    let mut reader = reader(26, vec![(2, 5)]);
    let mut buf = vec![0u8; 5000];
    reader.poll_read(&mut buf, Event::Start);
    reader.poll_read(&mut buf, Event::Position { filled: 0, position: 0 });
    let filled = match reader.poll_read(&mut buf, Event::Sought { filled: 0 }) {
        Action::Position { filled } => filled,
        other => panic!("{:?}", other),
    };
    assert!(reader.admits(5000, Event::Read { filled, count: 4 }));
    assert!(reader.admits(5000, Event::ReadExact { filled, count: 4 }));
    assert!(reader.admits(5000, Event::Read { filled, count: 0 }));
    assert!(!reader.admits(5000, Event::Read { filled, count: 5 }));
    assert!(!reader.admits(5000, Event::ReadExact { filled, count: 4000 }));
}

#[test]
fn a_range_of_more_than_four_gigabytes_is_read_in_chunks() {
    let end = (1u64 << 32) + 9;
    let mut reader = reader(1 << 40, vec![(10, end)]);
    let mut buf = vec![0u8; 500];
    reader.poll_read(&mut buf, Event::Start);
    reader.poll_read(&mut buf, Event::Position { filled: 0, position: 0 });
    let filled = match reader.poll_read(&mut buf, Event::Sought { filled: 0 }) {
        Action::Position { filled } => filled,
        other => panic!("{:?}", other),
    };
    assert_eq!(
        reader.poll_read(&mut buf, Event::Position { filled, position: 10 }),
        Action::Read { filled }
    );
    assert_eq!(
        reader.poll_read(&mut buf, Event::Position { filled, position: end }),
        Action::ReadExact { filled, count: 1 }
    );
}
