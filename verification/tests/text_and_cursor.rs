use seek_stream::cursor::Cursor;
use seek_stream::text::{decimal_text, hex_string};

#[test]
fn decimal_notation() {
    assert_eq!(decimal_text(0), "0");
    assert_eq!(decimal_text(9), "9");
    assert_eq!(decimal_text(10), "10");
    assert_eq!(decimal_text(1203), "1203");
    assert_eq!(decimal_text(u64::MAX), "18446744073709551615");
}

#[test]
fn hexadecimal_notation_has_no_leading_zeros() {
    assert_eq!(hex_string(&[]), "");
    assert_eq!(hex_string(&[0, 1, 10, 15, 16, 171, 255]), "01af10abff");
}

#[test]
fn hexadecimal_notation_agrees_with_formatting() {
    for byte in 0..=255u8 {
        assert_eq!(hex_string(&[byte]), format!("{:x}", byte));
    }
}

#[test]
fn cursor_overwrites_and_extends() {
    let mut cursor = Cursor::new();
    cursor.write_all(b"abcdef");
    assert_eq!(cursor.position(), 6);
    cursor.rewind();
    cursor.write_all(b"XY");
    assert_eq!(cursor.position(), 2);
    assert_eq!(cursor.len(), 6);
    let mut out = [b'.'; 4];
    assert_eq!(cursor.read(&mut out, 1), 3);
    assert_eq!(&out, b".cde");
    cursor.write_all(b"123");
    assert_eq!(cursor.len(), 8);
    cursor.rewind();
    let mut out = [0u8; 10];
    assert_eq!(cursor.read(&mut out, 0), 8);
    assert_eq!(&out[..8], b"XYcde123");
    assert_eq!(cursor.read(&mut out, 8), 0);
    cursor.clear();
    assert_eq!(cursor.len(), 0);
    assert_eq!(cursor.position(), 0);
}
