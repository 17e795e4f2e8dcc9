//! How a client reads the texts that the library writes.

use crate::multipart::{
    boundary_line, content_range, content_range_text, header_line, random_boundary, Reader,
};
use crate::text::{
    decimal, decimal_text, hex_byte, hex_string, hex_text, lemma_encode_concat,
    lemma_hex_text_len,
};
use vstd::prelude::*;
use vstd::utf8::encode_utf8;

verus! {

/// The number that a digit stands for, `a` to `f` being ten to fifteen.
pub open spec fn digit_value(digit: char) -> int {
    if digit as int <= '9' as int {
        digit as int - '0' as int
    } else {
        10 + (digit as int - 'a' as int)
    }
}

/// The number that decimal digits stand for.
pub open spec fn decimal_value(digits: Seq<char>) -> int
    decreases digits.len(),
{
    if digits.len() == 0 {
        0
    } else {
        decimal_value(digits.drop_last()) * 10 + digit_value(digits.last())
    }
}

/// `text` is `n` in decimal notation: digits, without a leading zero, that stand for `n`.
pub open spec fn reads_decimal(text: Seq<char>, n: int) -> bool {
    &&& text.len() > 0
    &&& forall|i: int|
        0 <= i < text.len() ==> '0' as int <= (#[trigger] text[i]) as int <= '9' as int
    &&& text.len() > 1 ==> text[0] != '0'
    &&& decimal_value(text) == n
}

/// A lower-case hexadecimal digit.
pub open spec fn is_hex_digit(c: char) -> bool {
    '0' as int <= c as int <= '9' as int || 'a' as int <= c as int <= 'f' as int
}

/// `text` is `byte` in hexadecimal notation, without a leading zero.
pub open spec fn reads_hex(text: Seq<char>, byte: u8) -> bool {
    ||| text.len() == 1 && is_hex_digit(text[0]) && digit_value(text[0]) == byte
    ||| {
        &&& text.len() == 2
        &&& is_hex_digit(text[0])
        &&& is_hex_digit(text[1])
        &&& text[0] != '0'
        &&& digit_value(text[0]) * 16 + digit_value(text[1]) == byte
    }
}

/// `text` is each of `bytes` in hexadecimal notation, one after the other.
pub open spec fn reads_hex_bytes(text: Seq<char>, bytes: Seq<u8>) -> bool
    decreases bytes.len(),
{
    if bytes.len() == 0 {
        text.len() == 0
    } else {
        exists|at: int|
            0 <= at <= text.len() && #[trigger] reads_hex(text.skip(at), bytes.last())
                && reads_hex_bytes(text.take(at), bytes.drop_last())
    }
}

/// Decimal notation stands for the number that was written.
pub proof fn lemma_decimal(n: nat)
    ensures
        reads_decimal(decimal(n), n as int),
        n > 0 ==> decimal(n)[0] != '0',
    decreases n,
{
    if n < 10 {
        assert(decimal(n).drop_last() =~= Seq::empty());
        assert(decimal_value(Seq::<char>::empty()) == 0);
    } else {
        let text = decimal(n);
        let before = decimal(n / 10);
        lemma_decimal(n / 10);
        assert(text.drop_last() =~= before);
        assert(text[0] == before[0]);
        assert forall|i: int| 0 <= i < text.len() implies '0' as int <= (#[trigger] text[i]) as int
            <= '9' as int by {
            if i < before.len() {
                assert(text[i] == before[i]);
            }
        }
    }
}

/// Decimal notation stands for the number that was written.
pub proof fn law_decimal_reads_back(n: u64, text: String)
    requires
        call_ensures(decimal_text, (n,), text),
    ensures
        reads_decimal(text@, n as int),
{
    lemma_decimal(n as nat);
}

/// A number has one decimal notation.
pub proof fn law_decimal_notation_is_unique(a: Seq<char>, b: Seq<char>, n: int)
    requires
        reads_decimal(a, n),
        reads_decimal(b, n),
    ensures
        a == b,
    decreases a.len(),
{
    lemma_leading_digit(a);
    lemma_leading_digit(b);
    let a1 = a.drop_last();
    let b1 = b.drop_last();
    assert(a =~= a1.push(a.last()));
    assert(b =~= b1.push(b.last()));
    assert(a.last() == a[a.len() - 1]);
    assert(b.last() == b[b.len() - 1]);
    assert(decimal_value(a1) == n / 10 && decimal_value(b1) == n / 10);
    assert(digit_value(a.last()) == digit_value(b.last()));
    assert(a.last() == b.last());
    if a.len() > 1 && b.len() > 1 {
        assert(reads_decimal(a1, n / 10)) by {
            assert forall|i: int| 0 <= i < a1.len() implies '0' as int <= (#[trigger] a1[i]) as int
                <= '9' as int by {
                assert(a1[i] == a[i]);
            }
            assert(a1[0] == a[0]);
        }
        assert(reads_decimal(b1, n / 10)) by {
            assert forall|i: int| 0 <= i < b1.len() implies '0' as int <= (#[trigger] b1[i]) as int
                <= '9' as int by {
                assert(b1[i] == b[i]);
            }
            assert(b1[0] == b[0]);
        }
        law_decimal_notation_is_unique(a1, b1, n / 10);
    } else {
        assert(decimal_value(Seq::<char>::empty()) == 0);
        assert(a.len() == 1 ==> a1 =~= Seq::empty());
        assert(b.len() == 1 ==> b1 =~= Seq::empty());
    }
}

/// Decimal digits do not stand for a negative number, and stand for zero only where the
/// first of them is zero.
proof fn lemma_leading_digit(text: Seq<char>)
    requires
        text.len() > 0,
        forall|i: int|
            0 <= i < text.len() ==> '0' as int <= (#[trigger] text[i]) as int <= '9' as int,
    ensures
        decimal_value(text) >= 0,
        text[0] != '0' ==> decimal_value(text) > 0,
        text.len() > 1 ==> decimal_value(text.drop_last()) >= 0,
        text.len() > 1 && text[0] != '0' ==> decimal_value(text.drop_last()) > 0,
    decreases text.len(),
{
    let before = text.drop_last();
    assert(text.last() == text[text.len() - 1]);
    if before.len() > 0 {
        assert forall|i: int| 0 <= i < before.len() implies '0' as int <= (#[trigger] before[i]) as int
            <= '9' as int by {
            assert(before[i] == text[i]);
        }
        assert(before[0] == text[0]);
        lemma_leading_digit(before);
    } else {
        assert(decimal_value(before) == 0);
    }
}

/// Hexadecimal notation stands for the bytes that were written.
pub proof fn lemma_hex(bytes: Seq<u8>)
    ensures
        reads_hex_bytes(hex_text(bytes), bytes),
        forall|i: int| 0 <= i < hex_text(bytes).len() ==> is_hex_digit(#[trigger] hex_text(bytes)[i]),
    decreases bytes.len(),
{
    if bytes.len() > 0 {
        let text = hex_text(bytes);
        let before = hex_text(bytes.drop_last());
        let last = hex_byte(bytes.last());
        lemma_hex(bytes.drop_last());
        assert(text.skip(before.len() as int) =~= last);
        assert(text.take(before.len() as int) =~= before);
        assert(reads_hex(last, bytes.last()));
        assert forall|i: int| 0 <= i < text.len() implies is_hex_digit(#[trigger] text[i]) by {
            if i < before.len() {
                assert(text[i] == before[i]);
            } else {
                assert(text[i] == last[i - before.len()]);
            }
        }
    }
}

/// Hexadecimal notation stands for the bytes that were written.
pub proof fn law_hex_reads_back(bytes: &[u8], text: String)
    requires
        call_ensures(hex_string, (bytes,), text),
    ensures
        reads_hex_bytes(text@, bytes@),
        forall|i: int| 0 <= i < text@.len() ==> is_hex_digit(#[trigger] text@[i]),
{
    lemma_hex(bytes@);
}

/// A boundary is thirty bytes in hexadecimal notation, and holds nothing but digits.
pub proof fn law_boundary_is_hexadecimal(boundary: String)
    requires
        call_ensures(random_boundary, (), boundary),
    ensures
        exists|bytes: Seq<u8>|
            bytes.len() == 30 && #[trigger] reads_hex_bytes(boundary@, bytes),
        forall|i: int| 0 <= i < boundary@.len() ==> is_hex_digit(#[trigger] boundary@[i]),
        30 <= boundary@.len() <= 60,
{
    let bytes = choose|bytes: Seq<u8>|
        bytes.len() == 30 && boundary@ == #[trigger] hex_text(bytes);
    lemma_hex(bytes);
    lemma_hex_text_len(bytes);
}

/// A client that reads `text` as the value of a `Content-Range` field learns that it has the
/// bytes from `first` to `last` of `total` ones.
pub open spec fn reads_content_range(text: Seq<char>, first: int, last: int, total: int) -> bool {
    exists|a: Seq<char>, b: Seq<char>, c: Seq<char>|
        {
            &&& text == "bytes "@ + a + "-"@ + b + "/"@ + c
            &&& #[trigger] reads_decimal(a, first)
            &&& #[trigger] reads_decimal(b, last)
            &&& #[trigger] reads_decimal(c, total)
        }
}

/// The value of a `Content-Range` field can be read in one way only.
pub proof fn law_content_range_has_one_reading(
    text: Seq<char>,
    a: (int, int, int),
    b: (int, int, int),
)
    requires
        reads_content_range(text, a.0, a.1, a.2),
        reads_content_range(text, b.0, b.1, b.2),
    ensures
        a == b,
{
    let (a0, a1, a2) = choose|x: Seq<char>, y: Seq<char>, z: Seq<char>|
        {
            &&& text == "bytes "@ + x + "-"@ + y + "/"@ + z
            &&& #[trigger] reads_decimal(x, a.0)
            &&& #[trigger] reads_decimal(y, a.1)
            &&& #[trigger] reads_decimal(z, a.2)
        };
    let (b0, b1, b2) = choose|x: Seq<char>, y: Seq<char>, z: Seq<char>|
        {
            &&& text == "bytes "@ + x + "-"@ + y + "/"@ + z
            &&& #[trigger] reads_decimal(x, b.0)
            &&& #[trigger] reads_decimal(y, b.1)
            &&& #[trigger] reads_decimal(z, b.2)
        };
    reveal_strlit("bytes ");
    reveal_strlit("-");
    reveal_strlit("/");
    let rest = text.skip(6);
    assert(rest =~= a0 + seq!['-'] + (a1 + seq!['/'] + a2));
    assert(rest =~= b0 + seq!['-'] + (b1 + seq!['/'] + b2));
    lemma_split(a0, '-', a1 + seq!['/'] + a2, b0, b1 + seq!['/'] + b2);
    lemma_split(a1, '/', a2, b1, b2);
}

/// Where digits end and another character follows can be told from the text.
proof fn lemma_split(a: Seq<char>, mark: char, c: Seq<char>, b: Seq<char>, d: Seq<char>)
    requires
        a + seq![mark] + c == b + seq![mark] + d,
        !is_hex_digit(mark),
        forall|i: int| 0 <= i < a.len() ==> is_hex_digit(#[trigger] a[i]),
        forall|i: int| 0 <= i < b.len() ==> is_hex_digit(#[trigger] b[i]),
    ensures
        a == b,
        c == d,
{
    let text = a + seq![mark] + c;
    assert(text[a.len() as int] == mark);
    assert(text[b.len() as int] == mark) by {
        assert((b + seq![mark] + d)[b.len() as int] == mark);
    }
    if a.len() < b.len() {
        assert((b + seq![mark] + d)[a.len() as int] == b[a.len() as int]);
    }
    if b.len() < a.len() {
        assert(text[b.len() as int] == a[b.len() as int]);
    }
    assert(a =~= text.take(a.len() as int));
    assert(b =~= (b + seq![mark] + d).take(a.len() as int));
    assert(c =~= text.skip(a.len() as int + 1));
    assert(d =~= (b + seq![mark] + d).skip(a.len() as int + 1));
}

/// A `Content-Range` field names what it was written for.
pub proof fn lemma_content_range(start: u64, end: u64, stream_len: u64)
    ensures
        reads_content_range(
            content_range(start, end, stream_len),
            start as int,
            end as int,
            stream_len as int,
        ),
{
    lemma_decimal(start as nat);
    lemma_decimal(end as nat);
    lemma_decimal(stream_len as nat);
    assert(reads_decimal(decimal(start as nat), start as int));
    assert(reads_decimal(decimal(end as nat), end as int));
    assert(reads_decimal(decimal(stream_len as nat), stream_len as int));
}

/// A `Content-Range` field names the offsets and the length that it was written for.
pub proof fn law_content_range_reads_back(start: u64, end: u64, stream_len: u64, text: String)
    requires
        call_ensures(content_range_text, (start, end, stream_len), text),
    ensures
        reads_content_range(text@, start as int, end as int, stream_len as int),
{
    lemma_content_range(start, end, stream_len);
}

/// A client that reads `bytes` in a multipart body with this boundary learns that a part
/// begins, that it has the bytes from `first` to `last` of `total` ones, and that its content
/// type is `content_type`.
pub open spec fn reads_part_header(
    bytes: Seq<u8>,
    boundary: Seq<char>,
    content_type: Seq<char>,
    first: int,
    last: int,
    total: int,
) -> bool {
    exists|range: Seq<char>|
        {
            &&& #[trigger] reads_content_range(range, first, last, total)
            &&& bytes == encode_utf8(
                "\r\n--"@ + boundary + "\r\nContent-Range: "@ + range + "\r\nContent-Type: "@
                    + content_type + "\r\n\r\n"@,
            )
        }
}

/// The header of a part names the range, the length of the stream and the content type that
/// the part has.
pub proof fn law_part_header_reads_back(reader: Reader, range: (u64, u64))
    ensures
        reads_part_header(
            reader.part_header(range),
            reader.boundary,
            reader.content_type,
            range.0 as int,
            range.1 as int,
            reader.stream_len as int,
        ),
{
    let value = content_range(range.0, range.1, reader.stream_len);
    let first = boundary_line(reader.boundary);
    let second = header_line("Content-Range"@, value);
    let third = header_line("Content-Type"@, reader.content_type);
    let text = "\r\n--"@ + reader.boundary + "\r\nContent-Range: "@ + value + "\r\nContent-Type: "@
        + reader.content_type + "\r\n\r\n"@;
    lemma_content_range(range.0, range.1, reader.stream_len);
    lemma_encode_concat(first, second);
    lemma_encode_concat(first + second, third);
    lemma_encode_concat(first + second + third, "\r\n"@);
    assert(first + second + third + "\r\n"@ =~= text) by {
        reveal_strlit("\r\n");
        reveal_strlit(": ");
        reveal_strlit("Content-Range");
        reveal_strlit("Content-Type");
        reveal_strlit("\r\nContent-Range: ");
        reveal_strlit("\r\nContent-Type: ");
        reveal_strlit("\r\n\r\n");
        assert("\r\nContent-Range: "@ =~= "\r\n"@ + "Content-Range"@ + ": "@);
        assert("\r\nContent-Type: "@ =~= "\r\n"@ + "Content-Type"@ + ": "@);
        assert("\r\n\r\n"@ =~= "\r\n"@ + "\r\n"@);
        assert(first + second + third + "\r\n"@ =~= "\r\n--"@ + reader.boundary + ("\r\n"@
            + "Content-Range"@ + ": "@) + value + ("\r\n"@ + "Content-Type"@ + ": "@)
            + reader.content_type + ("\r\n"@ + "\r\n"@));
    }
}

} // verus!
