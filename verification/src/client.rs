//! Which bytes of a stream a client asks for, and which ranges it gets for them.

use crate::ranges::{
    all_satisfiable, canonical, clamped, clamped_ranges, header_ranges, is_digit, is_digit_run,
    lemma_canonical_exists, number, numbers_fit, parsed_ranges, parts, range_error, range_errors,
    range_header_parts, satisfiable, select_ranges, sorted_distinct, to_satisfiable_range, ByteRange,
    Ranges, Selection,
};
use vstd::prelude::*;
use vstd::utf8::encode_utf8;

verus! {

/// The byte at `offset` of a stream of `length` bytes belongs to a range with these offsets.
pub open spec fn asks_for(from: Option<u64>, to: Option<u64>, length: u64, offset: int) -> bool {
    &&& 0 <= offset < length
    &&& match (from, to) {
        (Some(first), Some(last)) => first <= offset <= last,
        (Some(first), None) => first <= offset,
        (None, Some(count)) => length - offset <= count,
        (None, None) => false,
    }
}

/// More bytes are counted from the end than there are.
pub open spec fn asks_too_much(from: Option<u64>, to: Option<u64>, length: u64) -> bool {
    from is None && (to matches Some(count) && count > length)
}

/// `range` has the bytes that a range with these offsets asks for and no others, and at least
/// one of them.
pub open spec fn resolves(
    from: Option<u64>,
    to: Option<u64>,
    length: u64,
    range: (u64, u64),
) -> bool {
    &&& !asks_too_much(from, to, length)
    &&& range.0 <= range.1 < length
    &&& forall|offset: int|
        range.0 <= offset <= range.1 <==> #[trigger] asks_for(from, to, length, offset)
}

/// Why no range has the bytes that a range with these offsets asks for.
pub open spec fn complaint(from: Option<u64>, to: Option<u64>, length: u64) -> Seq<char> {
    match (from, to) {
        (None, None) => "You need at least one value to satisfy a range request"@,
        (Some(first), Some(last)) if first <= last =>
            "A byte-range-spec is unsatisfiable if its first-byte-pos is not that of a byte."@,
        (None, Some(count)) if count > 0 =>
            "A byte-range-spec is unsatisfiable if its first-byte-pos is not that of a byte."@,
        _ =>
            "A byte-range-spec is invalid if the last-byte-pos value is present and less than the first-byte-pos."@,
    }
}

/// A range is resolved where the stream has bytes that it asks for, and to these bytes.
proof fn lemma_resolves(from: Option<u64>, to: Option<u64>, length: u64)
    ensures
        satisfiable(from, to, length) ==> resolves(from, to, length, clamped(from, to, length)),
        !satisfiable(from, to, length) ==> {
            &&& range_error(from, to, length)@ == complaint(from, to, length)
            &&& forall|offset: int|
                asks_too_much(from, to, length) || !#[trigger] asks_for(from, to, length, offset)
        },
{
}

/// Two ranges with the same bytes are the same.
proof fn lemma_resolves_once(
    from: Option<u64>,
    to: Option<u64>,
    length: u64,
    a: (u64, u64),
    b: (u64, u64),
)
    requires
        resolves(from, to, length, a),
        resolves(from, to, length, b),
    ensures
        a == b,
{
    assert(asks_for(from, to, length, a.0 as int) && asks_for(from, to, length, a.1 as int));
    assert(asks_for(from, to, length, b.0 as int) && asks_for(from, to, length, b.1 as int));
}

/// Of a stream, a range has exactly the bytes from its first offset to its last one, from its
/// first offset on, or as many as it counts from the end. It is refused where the stream has
/// no such byte, or fewer than are counted.
pub proof fn law_range_has_the_bytes_asked_for(
    from: Option<u64>,
    to: Option<u64>,
    length: u64,
    result: Result<(u64, u64), &'static str>,
)
    requires
        call_ensures(to_satisfiable_range, (from, to, length), result),
    ensures
        forall|range: (u64, u64)|
            result == Ok::<_, &'static str>(range) <==> #[trigger] resolves(from, to, length, range),
        result is Ok <==> !asks_too_much(from, to, length) && exists|offset: int|
            asks_for(from, to, length, offset),
        result matches Err(reason) ==> reason@ == complaint(from, to, length),
{
    lemma_resolves(from, to, length);
    assert forall|range: (u64, u64)| #[trigger] resolves(from, to, length, range) implies result
        == Ok::<_, &'static str>(range) by {
        assert(asks_for(from, to, length, range.0 as int));
        lemma_resolves_once(from, to, length, range, clamped(from, to, length));
    }
    if let Ok(range) = result {
        assert(asks_for(from, to, length, range.0 as int));
    }
}

/// A range without a last offset goes to the last byte, one that is counted from the end has
/// as many bytes, and one with both offsets ends at its last offset or at the last byte.
pub proof fn law_ranges_end_where_they_should(
    offset: u64,
    last: u64,
    length: u64,
    open: Result<(u64, u64), &'static str>,
    suffix: Result<(u64, u64), &'static str>,
    both: Result<(u64, u64), &'static str>,
)
    requires
        call_ensures(to_satisfiable_range, (Some(offset), None, length), open),
        call_ensures(to_satisfiable_range, (None, Some(offset), length), suffix),
        call_ensures(to_satisfiable_range, (Some(offset), Some(last), length), both),
    ensures
        offset < length ==> (open matches Ok(range) && range.0 == offset && range.1 + 1 == length),
        0 < offset <= length ==> (suffix matches Ok(range) && range.0 + offset == length && range.1
            + 1 == length),
        offset <= last < length ==> (both matches Ok(range) && range.0 == offset && range.1 == last),
        offset < length <= last ==> both == open,
{
}

/// The range that an element of a `Range` header asks for.
pub open spec fn element_resolves(element: ByteRange, length: u64, range: (u64, u64)) -> bool {
    match element {
        ByteRange::FromTo(first) => resolves(Some(first), None, length, range),
        ByteRange::FromToAll(first, last) => resolves(Some(first), Some(last), length, range),
        ByteRange::Last(count) => resolves(None, Some(count), length, range),
    }
}

/// Some range is what the element asks for.
pub open spec fn is_served(element: ByteRange, length: u64) -> bool {
    exists|range: (u64, u64)| element_resolves(element, length, range)
}

/// Why an element cannot be served.
pub open spec fn element_complaint(element: ByteRange, length: u64) -> Seq<char> {
    match element {
        ByteRange::FromTo(first) => complaint(Some(first), None, length),
        ByteRange::FromToAll(first, last) => complaint(Some(first), Some(last), length),
        ByteRange::Last(count) => complaint(None, Some(count), length),
    }
}

/// The offsets of an element lead to the range that it asks for.
pub proof fn law_element_has_the_bytes_asked_for(
    element: ByteRange,
    length: u64,
    offsets: (Option<u64>, Option<u64>),
    result: Result<(u64, u64), &'static str>,
)
    requires
        call_ensures(range_header_parts, (&element,), offsets),
        call_ensures(to_satisfiable_range, (offsets.0, offsets.1, length), result),
    ensures
        forall|range: (u64, u64)|
            result == Ok::<_, &'static str>(range) <==> #[trigger] element_resolves(
                element,
                length,
                range,
            ),
        result matches Err(reason) ==> reason@ == element_complaint(element, length),
{
    law_range_has_the_bytes_asked_for(offsets.0, offsets.1, length, result);
    assert forall|range: (u64, u64)|
        result == Ok::<_, &'static str>(range) <==> #[trigger] element_resolves(
            element,
            length,
            range,
        ) by {
        assert(element_resolves(element, length, range) <==> resolves(
            offsets.0,
            offsets.1,
            length,
            range,
        ));
    }
}

/// An element is resolved as its offsets are.
proof fn lemma_element(element: ByteRange, length: u64)
    ensures
        ({
            let (from, to) = parts(element);
            &&& is_served(element, length) <==> satisfiable(from, to, length)
            &&& satisfiable(from, to, length) ==> element_resolves(
                element,
                length,
                clamped(from, to, length),
            )
            &&& !satisfiable(from, to, length) ==> range_error(from, to, length)@
                == element_complaint(element, length)
        }),
{
    let (from, to) = parts(element);
    lemma_resolves(from, to, length);
    if satisfiable(from, to, length) {
        assert(element_resolves(element, length, clamped(from, to, length)));
    }
    if is_served(element, length) {
        let range = choose|range: (u64, u64)| element_resolves(element, length, range);
        assert(asks_for(from, to, length, range.0 as int));
    }
}

/// An element has one range at most.
proof fn lemma_element_once(element: ByteRange, length: u64, a: (u64, u64), b: (u64, u64))
    requires
        element_resolves(element, length, a),
        element_resolves(element, length, b),
    ensures
        a == b,
{
    let (from, to) = parts(element);
    lemma_resolves_once(from, to, length, a, b);
}

/// Some element asks for `range`.
pub open spec fn is_asked(elements: Seq<ByteRange>, length: u64, range: (u64, u64)) -> bool {
    exists|i: int|
        0 <= i < elements.len() && #[trigger] element_resolves(elements[i], length, range)
}

/// There are elements, and all of them can be served.
pub open spec fn are_served(elements: Seq<ByteRange>, length: u64) -> bool {
    &&& elements.len() > 0
    &&& forall|i: int| 0 <= i < elements.len() ==> is_served(#[trigger] elements[i], length)
}

/// Why elements cannot be served, for each of those that cannot and in their order.
pub open spec fn complaints(elements: Seq<ByteRange>, length: u64) -> Seq<Seq<char>> {
    elements.filter(|element: ByteRange| !is_served(element, length)).map_values(
        |element: ByteRange| element_complaint(element, length),
    )
}

/// The texts of reasons.
pub open spec fn texts(reasons: Seq<&'static str>) -> Seq<Seq<char>> {
    reasons.map_values(|reason: &'static str| reason@)
}

/// `ranges` are those that some element asks for, each of them once, and those that begin
/// earlier, or end earlier where they begin together, come first.
pub open spec fn holds_what_is_asked(
    ranges: Seq<(u64, u64)>,
    elements: Seq<ByteRange>,
    length: u64,
) -> bool {
    &&& forall|range: (u64, u64)| #[trigger]
        ranges.contains(range) <==> is_asked(elements, length, range)
    &&& forall|i: int, j: int|
        0 <= i < j < ranges.len() ==> (#[trigger] ranges[i]).0 < (#[trigger] ranges[j]).0 || (
        ranges[i].0 == ranges[j].0 && ranges[i].1 < ranges[j].1)
}

pub proof fn lemma_served(elements: Seq<ByteRange>, length: u64)
    ensures
        are_served(elements, length) <==> elements.len() > 0 && all_satisfiable(elements, length),
{
    assert forall|i: int| 0 <= i < elements.len() implies is_served(#[trigger] elements[i], length)
        == satisfiable(parts(elements[i]).0, parts(elements[i]).1, length) by {
        lemma_element(elements[i], length);
    }
    if elements.len() > 0 && are_served(elements, length) {
        assert forall|i: int| 0 <= i < elements.len() implies satisfiable(
            parts(#[trigger] elements[i]).0,
            parts(elements[i]).1,
            length,
        ) by {
            assert(is_served(elements[i], length));
        }
    }
}

pub proof fn lemma_asked(elements: Seq<ByteRange>, length: u64)
    requires
        all_satisfiable(elements, length),
    ensures
        holds_what_is_asked(canonical(clamped_ranges(elements, length)), elements, length),
{
    let all = clamped_ranges(elements, length);
    let ranges = canonical(all);
    lemma_canonical_exists(all);
    assert forall|range: (u64, u64)| #[trigger] ranges.contains(range) <==> is_asked(
        elements,
        length,
        range,
    ) by {
        assert(ranges.contains(range) <==> all.contains(range));
        if all.contains(range) {
            let k = choose|k: int| 0 <= k < all.len() && all[k] == range;
            lemma_element(elements[k], length);
            assert(element_resolves(elements[k], length, range));
        }
        if is_asked(elements, length, range) {
            let k = choose|k: int|
                0 <= k < elements.len() && #[trigger] element_resolves(elements[k], length, range);
            lemma_element(elements[k], length);
            lemma_element_once(elements[k], length, range, all[k]);
            assert(all[k] == range);
        }
    }
}

pub proof fn lemma_complaints(elements: Seq<ByteRange>, length: u64)
    ensures
        texts(range_errors(elements, length)) == complaints(elements, length),
    decreases elements.len(),
{
    reveal(Seq::filter);
    if elements.len() > 0 {
        let before = elements.drop_last();
        let unserved = |element: ByteRange| !is_served(element, length);
        lemma_complaints(before, length);
        lemma_element(elements.last(), length);
        assert(elements.filter(unserved) == if unserved(elements.last()) {
            before.filter(unserved).push(elements.last())
        } else {
            before.filter(unserved)
        });
        if is_served(elements.last(), length) {
            assert(complaints(elements, length) == complaints(before, length));
        } else {
            assert(complaints(elements, length) =~= complaints(before, length).push(
                element_complaint(elements.last(), length),
            ));
            assert(texts(range_errors(elements, length)) =~= texts(range_errors(before, length)).push(
                element_complaint(elements.last(), length),
            ));
        }
    } else {
        assert(texts(range_errors(elements, length)) =~= complaints(elements, length));
    }
}

/// The elements of a `Range` header select the ranges that they ask for, or are refused for
/// what is wrong with them where one of them cannot be served or there is none.
pub proof fn law_selection_has_what_is_asked(
    elements: Vec<ByteRange>,
    length: u64,
    selection: Selection,
)
    requires
        call_ensures(select_ranges, (&elements, length), selection),
    ensures
        match selection {
            Selection::Ranges(ranges) => {
                &&& are_served(elements@, length)
                &&& holds_what_is_asked(ranges@, elements@, length)
            },
            Selection::Unsatisfiable(reasons) => {
                &&& !are_served(elements@, length)
                &&& texts(reasons@) == complaints(elements@, length)
            },
        },
{
    lemma_served(elements@, length);
    lemma_complaints(elements@, length);
    if all_satisfiable(elements@, length) {
        lemma_asked(elements@, length);
    }
}

/// Sorting keeps every range, once, and puts those that begin earlier, or end earlier where
/// they begin together, first.
pub proof fn law_sorting_keeps_every_range_once(ranges: Ranges, sorted: Ranges)
    requires
        call_ensures(sorted_distinct, (&ranges,), sorted),
    ensures
        forall|range: (u64, u64)| #[trigger]
            sorted@.contains(range) <==> (exists|i: int|
                0 <= i < ranges@.len() && #[trigger] ranges@[i] == range),
        forall|i: int, j: int|
            0 <= i < j < sorted@.len() ==> (#[trigger] sorted@[i]).0 < (#[trigger] sorted@[j]).0 || (
            sorted@[i].0 == sorted@[j].0 && sorted@[i].1 < sorted@[j].1),
{
    assert forall|range: (u64, u64)| #[trigger] sorted@.contains(range) <==> (exists|i: int|
        0 <= i < ranges@.len() && #[trigger] ranges@[i] == range) by {
        assert(sorted@.contains(range) <==> ranges@.contains(range));
    }
}

/// The number that ASCII digits stand for.
pub open spec fn ascii_value(digits: Seq<u8>) -> int
    decreases digits.len(),
{
    if digits.len() == 0 {
        0
    } else {
        ascii_value(digits.drop_last()) * 10 + (digits.last() - '0' as int)
    }
}

/// No digits that follow each other in `bytes` stand for a number beyond 64 bits.
pub open spec fn has_small_numbers(bytes: Seq<u8>) -> bool {
    forall|i: int, j: int|
        0 <= i <= j <= bytes.len() && (forall|k: int|
            i <= k < j ==> '0' as int <= #[trigger] bytes[k] <= '9' as int) ==> ascii_value(
            #[trigger] bytes.subrange(i, j),
        ) < 0x1_0000_0000_0000_0000
}

proof fn lemma_value(digits: Seq<u8>)
    requires
        forall|k: int| 0 <= k < digits.len() ==> '0' as int <= #[trigger] digits[k] <= '9' as int,
    ensures
        ascii_value(digits) == number(digits),
    decreases digits.len(),
{
    if digits.len() > 0 {
        let before = digits.drop_last();
        assert forall|k: int| 0 <= k < before.len() implies '0' as int <= #[trigger] before[k]
            <= '9' as int by {
            assert(before[k] == digits[k]);
        }
        assert(digits.last() == digits[digits.len() - 1]);
        lemma_value(before);
    }
}

pub proof fn lemma_small_numbers(bytes: Seq<u8>)
    ensures
        numbers_fit(bytes) == has_small_numbers(bytes),
{
    assert forall|i: int, j: int|
        0 <= i <= j <= bytes.len() && (forall|k: int|
            i <= k < j ==> '0' as int <= #[trigger] bytes[k] <= '9' as int) implies is_digit_run(
        bytes,
        i,
        j,
    ) && ascii_value(#[trigger] bytes.subrange(i, j)) == number(bytes.subrange(i, j)) by {
        let run = bytes.subrange(i, j);
        assert forall|k: int| 0 <= k < run.len() implies '0' as int <= #[trigger] run[k]
            <= '9' as int by {
            assert(run[k] == bytes[i + k]);
        }
        lemma_value(run);
    }
    if has_small_numbers(bytes) {
        assert forall|i: int, j: int| #[trigger] is_digit_run(bytes, i, j) implies number(
            bytes.subrange(i, j),
        ) <= u64::MAX by {
            assert forall|k: int| i <= k < j implies '0' as int <= #[trigger] bytes[k]
                <= '9' as int by {
                assert(is_digit(bytes[k]));
            }
            assert(ascii_value(bytes.subrange(i, j)) == number(bytes.subrange(i, j)));
        }
    }
}

/// A `Range` header is read element by element, unless it has a number beyond 64 bits.
pub proof fn law_header_is_read(header: &str, elements: Option<Vec<ByteRange>>)
    requires
        call_ensures(header_ranges, (header,), elements),
    ensures
        elements is Some <==> has_small_numbers(encode_utf8(header@)),
        elements matches Some(list) ==> list@ == parsed_ranges(header@),
{
    lemma_small_numbers(encode_utf8(header@));
}

} // verus!
