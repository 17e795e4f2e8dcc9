//! The ranges that a `Range` header asks for, and the ranges that answer it.

use vstd::prelude::*;
use vstd::utf8::encode_utf8;

verus! {

/// Closed intervals of byte offsets, each a first and a last offset.
pub type Ranges = Vec<(u64, u64)>;

/// One element of a `Range` header.
#[derive(Clone, Copy, Debug, PartialEq, Eq, Structural)]
pub enum ByteRange {
    /// From an offset to the end of the stream.
    FromTo(u64),
    /// From an offset to another one, which belongs to the range.
    FromToAll(u64, u64),
    /// A number of bytes at the end of the stream.
    Last(u64),
}

/// The message for a range that names neither a first nor a last offset.
pub const NO_BOUNDS: &'static str = "You need at least one value to satisfy a range request";

/// The message for a range whose last offset comes before its first one.
pub const LAST_BEFORE_FIRST: &'static str =
    "A byte-range-spec is invalid if the last-byte-pos value is present and less than the first-byte-pos.";

/// The message for a range whose first offset lies outside the stream.
pub const OUTSIDE: &'static str =
    "A byte-range-spec is unsatisfiable if its first-byte-pos is not that of a byte.";

/// The first and the last offset that a range names in a stream of `length` bytes,
/// computed without limits. A missing last offset is that of the last byte, and a
/// missing first offset makes the other number a count from the end.
pub open spec fn bounds(from: Option<u64>, to: Option<u64>, length: u64) -> (int, int) {
    match (from, to) {
        (Some(first), Some(last)) => (first as int, last as int),
        (Some(first), None) => (first as int, length - 1),
        (None, Some(count)) => (length - count, length - 1),
        (None, None) => (0, 0),
    }
}

/// The range names an offset, its first offset is that of a byte of the stream, and its
/// last offset does not come before it.
pub open spec fn satisfiable(from: Option<u64>, to: Option<u64>, length: u64) -> bool {
    let (start, end) = bounds(from, to, length);
    (from is Some || to is Some) && 0 <= start < length && start <= end
}

/// The offsets of a satisfiable range, the last one no further than the last byte.
pub open spec fn clamped(from: Option<u64>, to: Option<u64>, length: u64) -> (u64, u64) {
    let (start, end) = bounds(from, to, length);
    (start as u64, if end >= length { (length - 1) as u64 } else { end as u64 })
}

/// What is wrong with a range that is not satisfiable.
pub open spec fn range_error(from: Option<u64>, to: Option<u64>, length: u64) -> &'static str {
    if from is None && to is None {
        NO_BOUNDS
    } else if bounds(from, to, length).1 < bounds(from, to, length).0 {
        LAST_BEFORE_FIRST
    } else {
        OUTSIDE
    }
}

/// Converts a range to a satisfiable range of a stream of `length` bytes.
pub fn to_satisfiable_range(from: Option<u64>, to: Option<u64>, length: u64) -> (range: Result<
    (u64, u64),
    &'static str,
>)
    ensures
        satisfiable(from, to, length) ==> range == Ok::<_, &'static str>(clamped(from, to, length)),
        !satisfiable(from, to, length) ==> range == Err::<(u64, u64), _>(
            range_error(from, to, length),
        ),
{
    let (start, end) = match (from, to) {
        (Some(x), Some(z)) => (x, z),
        (Some(x), None) => {
            if length == 0 {
                return Err(LAST_BEFORE_FIRST);
            }
            (x, length - 1)
        },
        (None, Some(z)) => {
            if z == 0 {
                return Err(LAST_BEFORE_FIRST);
            }
            if z > length {
                return Err(OUTSIDE);
            }
            (length - z, length - 1)
        },
        (None, None) => return Err(NO_BOUNDS),
    };
    if end < start {
        return Err(LAST_BEFORE_FIRST);
    }
    if start >= length {
        return Err(OUTSIDE);
    }
    if end >= length {
        Ok((start, length - 1))
    } else {
        Ok((start, end))
    }
}

/// A satisfiable range is converted to one that is not empty and lies within the stream.
pub proof fn law_satisfiable_range_is_within(from: Option<u64>, to: Option<u64>, length: u64)
    requires
        satisfiable(from, to, length),
    ensures
        clamped(from, to, length).0 <= clamped(from, to, length).1 < length,
{
}

/// The offsets that an element of a `Range` header names.
pub open spec fn parts(header: ByteRange) -> (Option<u64>, Option<u64>) {
    match header {
        ByteRange::FromTo(x) => (Some(x), None),
        ByteRange::FromToAll(x, y) => (Some(x), Some(y)),
        ByteRange::Last(x) => (None, Some(x)),
    }
}

/// Splits an element of a `Range` header into the offsets that it names.
pub fn range_header_parts(header: &ByteRange) -> (offsets: (Option<u64>, Option<u64>))
    ensures
        offsets == parts(*header),
{
    match *header {
        ByteRange::FromTo(x) => (Some(x), None),
        ByteRange::FromToAll(x, y) => (Some(x), Some(y)),
        ByteRange::Last(x) => (None, Some(x)),
    }
}

/// The lexicographic order of ranges: by first offset, then by last offset.
pub open spec fn precedes(a: (u64, u64), b: (u64, u64)) -> bool {
    a.0 < b.0 || (a.0 == b.0 && a.1 < b.1)
}

/// Every range comes after those before it, so that none occurs twice.
pub open spec fn strictly_increasing(ranges: Seq<(u64, u64)>) -> bool {
    forall|i: int, j: int|
        0 <= i < j < ranges.len() ==> precedes(#[trigger] ranges[i], #[trigger] ranges[j])
}

/// The two sequences hold the same ranges, whatever their order and number.
pub open spec fn same_ranges(a: Seq<(u64, u64)>, b: Seq<(u64, u64)>) -> bool {
    forall|range: (u64, u64)| #[trigger] a.contains(range) <==> #[trigger] b.contains(range)
}

/// The ranges of `ranges`, sorted and each of them once.
pub open spec fn canonical(ranges: Seq<(u64, u64)>) -> Seq<(u64, u64)> {
    choose|sorted: Seq<(u64, u64)>|
        strictly_increasing(sorted) && #[trigger] same_ranges(sorted, ranges)
}

/// Adds a range to sorted, distinct ranges, at its place and unless it is there.
fn insert_range(ranges: &mut Ranges, range: (u64, u64))
    requires
        strictly_increasing(old(ranges)@),
    ensures
        strictly_increasing(final(ranges)@),
        forall|r: (u64, u64)| #[trigger]
            final(ranges)@.contains(r) <==> old(ranges)@.contains(r) || r == range,
{
    let mut at: usize = 0;
    while at < ranges.len() && (ranges[at].0 < range.0 || (ranges[at].0 == range.0 && ranges[at].1
        < range.1))
        invariant
            ranges@ == old(ranges)@,
            at <= ranges@.len(),
            forall|i: int| 0 <= i < at ==> precedes(#[trigger] ranges@[i], range),
        decreases ranges@.len() - at,
    {
        at += 1;
    }
    if at < ranges.len() && ranges[at].0 == range.0 && ranges[at].1 == range.1 {
        assert(ranges@[at as int] == range);
        return;
    }
    let ghost before = ranges@;
    ranges.insert(at, range);
    proof {
        assert(at < before.len() ==> precedes(range, before[at as int]));
        assert forall|i: int, j: int| 0 <= i < j < ranges@.len() implies precedes(
            #[trigger] ranges@[i],
            #[trigger] ranges@[j],
        ) by {
            if i < at && at < j {
                assert(precedes(before[i], before[j - 1]));
            } else if at < i {
                assert(precedes(before[i - 1], before[j - 1]));
            } else if i == at {
                if at + 1 < j {
                    assert(precedes(before[at as int], before[j - 1]));
                }
            }
        }
        assert(ranges@[at as int] == range);
        assert forall|r: (u64, u64)| before.contains(r) implies #[trigger] ranges@.contains(r) by {
            let i = choose|i: int| 0 <= i < before.len() && before[i] == r;
            if i < at {
                assert(ranges@[i] == r);
            } else {
                assert(ranges@[i + 1] == r);
            }
        }
    }
}

/// Sorts ranges and drops those that occur more than once.
pub fn sorted_distinct(ranges: &Ranges) -> (sorted: Ranges)
    ensures
        strictly_increasing(sorted@),
        same_ranges(sorted@, ranges@),
        sorted@ == canonical(ranges@),
{
    let mut sorted: Ranges = Vec::new();
    let mut i: usize = 0;
    while i < ranges.len()
        invariant
            i <= ranges@.len(),
            strictly_increasing(sorted@),
            same_ranges(sorted@, ranges@.take(i as int)),
        decreases ranges@.len() - i,
    {
        let ghost before = sorted@;
        insert_range(&mut sorted, ranges[i]);
        proof {
            let done = ranges@.take(i as int);
            let next = ranges@.take(i + 1);
            assert(next =~= done.push(ranges@[i as int]));
            assert forall|r: (u64, u64)| #[trigger] sorted@.contains(r) <==> #[trigger] next.contains(
                r,
            ) by {
                assert(before.contains(r) <==> done.contains(r));
                if done.contains(r) {
                    let k = choose|k: int| 0 <= k < done.len() && done[k] == r;
                    assert(next[k] == r);
                }
                if r == ranges@[i as int] {
                    assert(next[i as int] == r);
                }
            }
        }
        i += 1;
    }
    assert(ranges@.take(i as int) =~= ranges@);
    proof {
        lemma_canonical(sorted@, ranges@);
    }
    sorted
}

/// Sorted, distinct ranges are determined by which ranges they are.
pub proof fn law_sorted_distinct_unique(a: Seq<(u64, u64)>, b: Seq<(u64, u64)>)
    requires
        strictly_increasing(a),
        strictly_increasing(b),
        same_ranges(a, b),
    ensures
        a == b,
    decreases a.len(),
{
    if a.len() == 0 {
        if b.len() > 0 {
            assert(b.contains(b[0]));
            assert(a.contains(b[0]));
        }
        assert(a =~= b);
    } else {
        assert(a.contains(a[0]));
        assert(b.contains(a[0]));
        let j = choose|j: int| 0 <= j < b.len() && b[j] == a[0];
        assert(b.contains(b[0]));
        assert(a.contains(b[0]));
        let i = choose|i: int| 0 <= i < a.len() && a[i] == b[0];
        assert(a[0] == b[0]) by {
            if i > 0 && j > 0 {
                assert(precedes(a[0], a[i]));
                assert(precedes(b[0], b[j]));
            }
        }
        let a1 = a.drop_first();
        let b1 = b.drop_first();
        assert forall|i: int, j: int| 0 <= i < j < a1.len() implies precedes(
            #[trigger] a1[i],
            #[trigger] a1[j],
        ) by {
            assert(precedes(a[i + 1], a[j + 1]));
        }
        assert forall|i: int, j: int| 0 <= i < j < b1.len() implies precedes(
            #[trigger] b1[i],
            #[trigger] b1[j],
        ) by {
            assert(precedes(b[i + 1], b[j + 1]));
        }
        assert forall|r: (u64, u64)| #[trigger] a1.contains(r) <==> #[trigger] b1.contains(r) by {
            if a1.contains(r) {
                let k = choose|k: int| 0 <= k < a1.len() && a1[k] == r;
                assert(a[k + 1] == r);
                assert(precedes(a[0], a[k + 1]));
                assert(a.contains(r));
                assert(b.contains(r));
                let l = choose|l: int| 0 <= l < b.len() && b[l] == r;
                assert(b1[l - 1] == r);
            }
            if b1.contains(r) {
                let k = choose|k: int| 0 <= k < b1.len() && b1[k] == r;
                assert(b[k + 1] == r);
                assert(precedes(b[0], b[k + 1]));
                assert(b.contains(r));
                assert(a.contains(r));
                let l = choose|l: int| 0 <= l < a.len() && a[l] == r;
                assert(a1[l - 1] == r);
            }
        }
        law_sorted_distinct_unique(a1, b1);
        assert(a =~= seq![a[0]] + a1);
        assert(b =~= seq![b[0]] + b1);
    }
}

/// Whatever is sorted, distinct and holds the same ranges is the canonical form.
pub proof fn lemma_canonical(sorted: Seq<(u64, u64)>, ranges: Seq<(u64, u64)>)
    requires
        strictly_increasing(sorted),
        same_ranges(sorted, ranges),
    ensures
        sorted == canonical(ranges),
{
    let other = canonical(ranges);
    assert(strictly_increasing(other) && same_ranges(other, ranges));
    assert forall|range: (u64, u64)| #[trigger] sorted.contains(range) <==> #[trigger] other.contains(
        range,
    ) by {
        assert(sorted.contains(range) <==> ranges.contains(range));
        assert(other.contains(range) <==> ranges.contains(range));
    }
    law_sorted_distinct_unique(sorted, other);
}

/// Sorted, distinct ranges with one more range.
proof fn lemma_insert(sorted: Seq<(u64, u64)>, range: (u64, u64)) -> (result: Seq<(u64, u64)>)
    requires
        strictly_increasing(sorted),
    ensures
        strictly_increasing(result),
        forall|r: (u64, u64)| #[trigger]
            result.contains(r) <==> sorted.contains(r) || r == range,
    decreases sorted.len(),
{
    if sorted.len() == 0 {
        let result = seq![range];
        assert(result[0] == range);
        result
    } else {
        let last = sorted.last();
        let before = sorted.drop_last();
        assert(sorted =~= before.push(last));
        assert forall|r: (u64, u64)| #[trigger] sorted.contains(r) <==> before.contains(r) || r
            == last by {
            if before.contains(r) {
                let k = choose|k: int| 0 <= k < before.len() && before[k] == r;
                assert(sorted[k] == r);
            }
            assert(sorted[sorted.len() - 1] == last);
        }
        if precedes(last, range) {
            let result = sorted.push(range);
            assert forall|r: (u64, u64)| #[trigger] result.contains(r) <==> sorted.contains(r) || r
                == range by {
                if sorted.contains(r) {
                    let k = choose|k: int| 0 <= k < sorted.len() && sorted[k] == r;
                    assert(result[k] == r);
                }
                assert(result[sorted.len() as int] == range);
            }
            result
        } else if last == range {
            sorted
        } else {
            let shorter = lemma_insert(before, range);
            let result = shorter.push(last);
            assert forall|i: int, j: int| 0 <= i < j < result.len() implies precedes(
                #[trigger] result[i],
                #[trigger] result[j],
            ) by {
                if j == shorter.len() {
                    assert(shorter.contains(shorter[i]));
                    if shorter[i] != range {
                        let k = choose|k: int| 0 <= k < before.len() && before[k] == shorter[i];
                        assert(precedes(sorted[k], sorted[sorted.len() - 1]));
                    }
                }
            }
            assert forall|r: (u64, u64)| #[trigger] result.contains(r) <==> sorted.contains(r) || r
                == range by {
                if shorter.contains(r) {
                    let k = choose|k: int| 0 <= k < shorter.len() && shorter[k] == r;
                    assert(result[k] == r);
                }
                assert(result[shorter.len() as int] == last);
            }
            result
        }
    }
}

/// Sorted, distinct ranges that hold the same ranges as `ranges`.
proof fn lemma_sort(ranges: Seq<(u64, u64)>) -> (sorted: Seq<(u64, u64)>)
    ensures
        strictly_increasing(sorted),
        same_ranges(sorted, ranges),
    decreases ranges.len(),
{
    if ranges.len() == 0 {
        ranges
    } else {
        let before = ranges.drop_last();
        let shorter = lemma_sort(before);
        let sorted = lemma_insert(shorter, ranges.last());
        assert forall|r: (u64, u64)| #[trigger] sorted.contains(r) <==> #[trigger] ranges.contains(
            r,
        ) by {
            if before.contains(r) {
                let k = choose|k: int| 0 <= k < before.len() && before[k] == r;
                assert(ranges[k] == r);
            }
            assert(ranges[ranges.len() - 1] == ranges.last());
            if ranges.contains(r) && r != ranges.last() {
                let k = choose|k: int| 0 <= k < ranges.len() && ranges[k] == r;
                assert(before[k] == r);
            }
        }
        sorted
    }
}

/// Every list of ranges has a canonical form.
pub proof fn lemma_canonical_exists(ranges: Seq<(u64, u64)>)
    ensures
        strictly_increasing(canonical(ranges)),
        same_ranges(canonical(ranges), ranges),
{
    let sorted = lemma_sort(ranges);
    assert(strictly_increasing(sorted) && same_ranges(sorted, ranges));
}

/// The canonical form depends only on which ranges there are.
pub proof fn law_canonical_ignores_order(a: Seq<(u64, u64)>, b: Seq<(u64, u64)>)
    requires
        same_ranges(a, b),
    ensures
        canonical(a) == canonical(b),
{
    lemma_canonical_exists(a);
    let sorted = canonical(a);
    assert forall|range: (u64, u64)| #[trigger] sorted.contains(range) <==> #[trigger] b.contains(
        range,
    ) by {
        assert(sorted.contains(range) <==> a.contains(range));
        assert(a.contains(range) <==> b.contains(range));
    }
    lemma_canonical(sorted, b);
}

/// An ASCII digit.
pub open spec fn is_digit(byte: u8) -> bool {
    48 <= byte <= 57
}

/// The bytes from `start` up to `end` are all ASCII digits.
pub open spec fn is_digit_run(bytes: Seq<u8>, start: int, end: int) -> bool {
    &&& 0 <= start <= end <= bytes.len()
    &&& forall|i: int| start <= i < end ==> is_digit(#[trigger] bytes[i])
}

/// The number that ASCII digits denote.
pub open spec fn number(digits: Seq<u8>) -> nat
    decreases digits.len(),
{
    if digits.len() == 0 {
        0
    } else {
        (number(digits.drop_last()) * 10 + (digits.last() - 48)) as nat
    }
}

/// No run of digits denotes a number beyond 64 bits.
pub open spec fn numbers_fit(bytes: Seq<u8>) -> bool {
    forall|start: int, end: int| #[trigger]
        is_digit_run(bytes, start, end) ==> number(bytes.subrange(start, end)) <= u64::MAX
}

/// Leading digits do not make a number smaller.
proof fn lemma_number_suffix(digits: Seq<u8>, skipped: int)
    requires
        0 <= skipped <= digits.len(),
        is_digit_run(digits, 0, digits.len() as int),
    ensures
        number(digits.skip(skipped)) <= number(digits),
    decreases digits.len(),
{
    if skipped < digits.len() {
        assert(is_digit(digits[digits.len() - 1]));
        assert forall|i: int| 0 <= i < digits.len() - 1 implies is_digit(
            #[trigger] digits.drop_last()[i],
        ) by {
            assert(is_digit(digits[i]));
        }
        lemma_number_suffix(digits.drop_last(), skipped);
        assert(digits.skip(skipped).drop_last() =~= digits.drop_last().skip(skipped));
    } else {
        assert(digits.skip(skipped) =~= Seq::empty());
    }
}

/// Tells whether every number in `bytes` fits in 64 bits.
fn check_numbers(bytes: &[u8]) -> (fit: bool)
    ensures
        fit == numbers_fit(bytes@),
{
    let mut i: usize = 0;
    let mut value: u64 = 0;
    let ghost mut start: int = 0;
    while i < bytes.len()
        invariant
            i <= bytes@.len(),
            is_digit_run(bytes@, start, i as int),
            start > 0 ==> !is_digit(bytes@[start - 1]),
            value == number(bytes@.subrange(start, i as int)),
            forall|a: int, b: int|
                b <= i && #[trigger] is_digit_run(bytes@, a, b) ==> number(bytes@.subrange(a, b))
                    <= u64::MAX,
        decreases bytes@.len() - i,
    {
        let byte: u8 = bytes[i];
        if 48 <= byte && byte <= 57 {
            let next: u128 = value as u128 * 10 + (byte - 48) as u128;
            let ghost run = bytes@.subrange(start, i + 1);
            proof {
                assert(run.drop_last() =~= bytes@.subrange(start, i as int));
                assert(next == number(run));
                assert(is_digit_run(bytes@, start, i + 1));
            }
            if next > u64::MAX as u128 {
                return false;
            }
            value = next as u64;
            proof {
                assert forall|a: int, b: int|
                    b <= i + 1 && #[trigger] is_digit_run(bytes@, a, b) implies number(
                    bytes@.subrange(a, b),
                ) <= u64::MAX by {
                    if b == i + 1 {
                        if a < start {
                            assert(is_digit(bytes@[start - 1]));
                        }
                        assert forall|k: int| 0 <= k < run.len() implies is_digit(
                            #[trigger] run[k],
                        ) by {
                            assert(is_digit(bytes@[start + k]));
                        }
                        lemma_number_suffix(run, a - start);
                        assert(run.skip(a - start) =~= bytes@.subrange(a, b));
                    }
                }
            }
        } else {
            value = 0;
            proof {
                assert forall|a: int, b: int|
                    b <= i + 1 && #[trigger] is_digit_run(bytes@, a, b) implies number(
                    bytes@.subrange(a, b),
                ) <= u64::MAX by {
                    if b == i + 1 && a <= i {
                        assert(is_digit(bytes@[i as int]));
                    }
                }
                start = i + 1;
                assert(bytes@.subrange(start, i + 1) =~= Seq::empty());
            }
        }
        i += 1;
    }
    true
}

/// The ranges that `range_header` reads from a header.
pub uninterp spec fn parsed_ranges(header: Seq<char>) -> Seq<ByteRange>;

/// Calls `range_header::ByteRange::parse`, which reads the elements of a `Range` header
/// in their order, leaves out those whose last offset comes before the first one, and
/// returns none at all for a header that is not well formed. Claimed of it: the elements
/// depend on the header alone. Which elements a header gives is not stated. It panics on
/// a number beyond 64 bits. Resource limits are left aside: with almost no stack left, or
/// under a limit on calls that a process can set, the parser `pest` behind it gives up and
/// the header counts as not well formed.
#[verifier::external_body]
fn parse_header(header: &str) -> (ranges: Vec<ByteRange>)
    requires
        numbers_fit(encode_utf8(header@)),
    ensures
        ranges@ == parsed_ranges(header@),
{
    range_header::ByteRange::parse(header)
        .into_iter()
        .map(|range| match range {
            range_header::ByteRange::FromTo(x) => ByteRange::FromTo(x),
            range_header::ByteRange::FromToAll(x, y) => ByteRange::FromToAll(x, y),
            range_header::ByteRange::Last(x) => ByteRange::Last(x),
        })
        .collect()
}

/// Reads the elements of a `Range` header, unless a number in it exceeds 64 bits.
pub fn header_ranges(header: &str) -> (ranges: Option<Vec<ByteRange>>)
    ensures
        ranges is Some <==> numbers_fit(encode_utf8(header@)),
        ranges matches Some(list) ==> list@ == parsed_ranges(header@),
{
    if check_numbers(header.as_bytes()) {
        Some(parse_header(header))
    } else {
        None
    }
}

/// What the elements of a `Range` header select.
#[derive(Debug)]
pub enum Selection {
    /// There is no element, or some cannot be satisfied, for these reasons.
    Unsatisfiable(Vec<&'static str>),
    /// The ranges to serve, sorted and distinct.
    Ranges(Ranges),
}

/// Every element can be satisfied.
pub open spec fn all_satisfiable(specs: Seq<ByteRange>, length: u64) -> bool {
    forall|i: int|
        0 <= i < specs.len() ==> satisfiable(
            parts(#[trigger] specs[i]).0,
            parts(specs[i]).1,
            length,
        )
}

/// The satisfiable ranges of the elements, in their order.
pub open spec fn clamped_ranges(specs: Seq<ByteRange>, length: u64) -> Seq<(u64, u64)> {
    specs.map_values(|spec: ByteRange| clamped(parts(spec).0, parts(spec).1, length))
}

/// What is wrong with the elements that cannot be satisfied, in their order.
pub open spec fn range_errors(specs: Seq<ByteRange>, length: u64) -> Seq<&'static str>
    decreases specs.len(),
{
    if specs.len() == 0 {
        Seq::empty()
    } else {
        let before = range_errors(specs.drop_last(), length);
        let (from, to) = parts(specs.last());
        if satisfiable(from, to, length) {
            before
        } else {
            before.push(range_error(from, to, length))
        }
    }
}

/// What elements select from a stream of `length` bytes.
pub open spec fn selects(specs: Seq<ByteRange>, length: u64, selection: Selection) -> bool {
    match selection {
        Selection::Unsatisfiable(errors) => {
            &&& specs.len() == 0 || !all_satisfiable(specs, length)
            &&& errors@ == range_errors(specs, length)
        },
        Selection::Ranges(ranges) => {
            &&& all_satisfiable(specs, length)
            &&& specs.len() > 0
            &&& ranges@ == canonical(clamped_ranges(specs, length))
            &&& ranges@.len() > 0
        },
    }
}

/// Selects the ranges of a stream of `length` bytes that the elements of a `Range`
/// header ask for.
pub fn select_ranges(specs: &Vec<ByteRange>, length: u64) -> (selection: Selection)
    ensures
        selects(specs@, length, selection),
{
    let mut ranges: Ranges = Vec::new();
    let mut errors: Vec<&'static str> = Vec::new();
    let mut i: usize = 0;
    while i < specs.len()
        invariant
            i <= specs@.len(),
            errors@ == range_errors(specs@.take(i as int), length),
            errors@.len() == 0 <==> all_satisfiable(specs@.take(i as int), length),
            errors@.len() == 0 ==> ranges@ == clamped_ranges(specs@.take(i as int), length),
        decreases specs@.len() - i,
    {
        let (from, to) = range_header_parts(&specs[i]);
        let ghost done = specs@.take(i as int);
        let ghost next = specs@.take(i + 1);
        assert(next[i as int] == specs@[i as int]);
        assert(next.drop_last() =~= done);
        assert(forall|k: int| 0 <= k < i ==> next[k] == #[trigger] done[k]);
        assert(all_satisfiable(next, length) <==> all_satisfiable(done, length) && satisfiable(
            from,
            to,
            length,
        ));
        match to_satisfiable_range(from, to, length) {
            Ok(range) => {
                ranges.push(range);
                assert(clamped_ranges(next, length) =~= clamped_ranges(done, length).push(range));
            },
            Err(error) => {
                errors.push(error);
            },
        }
        i += 1;
    }
    assert(specs@.take(i as int) =~= specs@);
    if errors.len() > 0 || ranges.len() == 0 {
        return Selection::Unsatisfiable(errors);
    }
    let sorted = sorted_distinct(&ranges);
    assert(ranges@.contains(ranges@[0]));
    assert(sorted@.contains(ranges@[0]));
    Selection::Ranges(sorted)
}

/// Whether elements can be satisfied, and with which ranges, does not depend on their
/// order or on repetitions.
pub proof fn law_reordered_elements_select_alike(
    a: Seq<ByteRange>,
    b: Seq<ByteRange>,
    length: u64,
)
    requires
        forall|spec: ByteRange| #[trigger] a.contains(spec) <==> #[trigger] b.contains(spec),
    ensures
        all_satisfiable(a, length) == all_satisfiable(b, length),
        a.len() == 0 <==> b.len() == 0,
        same_ranges(clamped_ranges(a, length), clamped_ranges(b, length)),
{
    lemma_elements_included(a, b, length);
    lemma_elements_included(b, a, length);
}

/// What holds of the elements of `a` holds of those of `b`, and the ranges of `b` are found
/// among those of `a`, where `a` has all elements of `b`.
proof fn lemma_elements_included(a: Seq<ByteRange>, b: Seq<ByteRange>, length: u64)
    requires
        forall|spec: ByteRange| #[trigger] b.contains(spec) ==> a.contains(spec),
    ensures
        all_satisfiable(a, length) ==> all_satisfiable(b, length),
        a.len() == 0 ==> b.len() == 0,
        forall|range: (u64, u64)| #[trigger]
            clamped_ranges(b, length).contains(range) ==> clamped_ranges(a, length).contains(range),
{
    assert forall|i: int| 0 <= i < b.len() implies a.contains(#[trigger] b[i]) by {
        assert(b.contains(b[i]));
    }
    if all_satisfiable(a, length) {
        assert forall|i: int| 0 <= i < b.len() implies satisfiable(
            parts(#[trigger] b[i]).0,
            parts(b[i]).1,
            length,
        ) by {
            let k = choose|k: int| 0 <= k < a.len() && a[k] == b[i];
        }
    }
    if b.len() > 0 {
        let k = choose|k: int| 0 <= k < a.len() && a[k] == b[0];
    }
    let ra = clamped_ranges(a, length);
    let rb = clamped_ranges(b, length);
    assert forall|range: (u64, u64)| #[trigger] rb.contains(range) implies ra.contains(range) by {
        let i = choose|i: int| 0 <= i < rb.len() && rb[i] == range;
        let k = choose|k: int| 0 <= k < a.len() && a[k] == b[i];
        assert(ra[k] == range);
    }
}

} // verus!
