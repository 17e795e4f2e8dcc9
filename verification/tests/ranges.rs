use seek_stream::ranges::{
    header_ranges, range_header_parts, select_ranges, sorted_distinct, to_satisfiable_range,
    ByteRange, Selection, LAST_BEFORE_FIRST, NO_BOUNDS, OUTSIDE,
};

fn selected(specs: &[ByteRange], length: u64) -> Vec<(u64, u64)> {
    match select_ranges(&specs.to_vec(), length) {
        Selection::Ranges(ranges) => ranges,
        other => panic!("{:?}", other),
    }
}

#[test]
fn range_with_both_offsets() {
    assert_eq!(to_satisfiable_range(Some(0), Some(0), 10), Ok((0, 0)));
    assert_eq!(to_satisfiable_range(Some(2), Some(5), 10), Ok((2, 5)));
    assert_eq!(to_satisfiable_range(Some(2), Some(9), 10), Ok((2, 9)));
}

#[test]
fn last_offset_is_clamped_to_the_last_byte() {
    assert_eq!(to_satisfiable_range(Some(2), Some(10), 10), Ok((2, 9)));
    assert_eq!(to_satisfiable_range(Some(2), Some(50), 10), Ok((2, 9)));
    assert_eq!(to_satisfiable_range(Some(0), Some(u64::MAX), u64::MAX), Ok((0, u64::MAX - 1)));
}

#[test]
fn range_behind_the_stream() {
    assert_eq!(to_satisfiable_range(Some(200), Some(300), 100), Err(OUTSIDE));
    assert_eq!(to_satisfiable_range(Some(10), Some(10), 10), Err(OUTSIDE));
    assert_eq!(to_satisfiable_range(Some(0), Some(0), 0), Err(OUTSIDE));
}

#[test]
fn range_without_last_offset() {
    assert_eq!(to_satisfiable_range(Some(3), None, 10), Ok((3, 9)));
    assert_eq!(to_satisfiable_range(Some(9), None, 10), Ok((9, 9)));
    assert_eq!(to_satisfiable_range(Some(10), None, 10), Err(LAST_BEFORE_FIRST));
    assert_eq!(to_satisfiable_range(Some(0), None, 0), Err(LAST_BEFORE_FIRST));
}

#[test]
fn range_counted_from_the_end() {
    assert_eq!(to_satisfiable_range(None, Some(3), 10), Ok((7, 9)));
    assert_eq!(to_satisfiable_range(None, Some(10), 10), Ok((0, 9)));
    assert_eq!(to_satisfiable_range(None, Some(0), 10), Err(LAST_BEFORE_FIRST));
    assert_eq!(to_satisfiable_range(None, Some(0), 0), Err(LAST_BEFORE_FIRST));
    assert_eq!(to_satisfiable_range(None, Some(11), 10), Err(OUTSIDE));
    assert_eq!(to_satisfiable_range(None, Some(1), 0), Err(OUTSIDE));
}

#[test]
fn range_errors() {
    assert_eq!(
        to_satisfiable_range(None, None, 10),
        Err("You need at least one value to satisfy a range request")
    );
    assert_eq!(to_satisfiable_range(None, None, 0), Err(NO_BOUNDS));
    assert_eq!(
        to_satisfiable_range(Some(5), Some(4), 10),
        Err("A byte-range-spec is invalid if the last-byte-pos value is present and less than the first-byte-pos.")
    );
}

#[test]
fn parts_of_a_header_element() {
    assert_eq!(range_header_parts(&ByteRange::FromTo(4)), (Some(4), None));
    assert_eq!(range_header_parts(&ByteRange::FromToAll(4, 8)), (Some(4), Some(8)));
    assert_eq!(range_header_parts(&ByteRange::Last(8)), (None, Some(8)));
}

#[test]
fn ranges_are_sorted_and_distinct() {
    let ranges = vec![(5, 9), (0, 3), (5, 6), (0, 3), (5, 9), (0, 4)];
    assert_eq!(sorted_distinct(&ranges), vec![(0, 3), (0, 4), (5, 6), (5, 9)]);
    assert_eq!(sorted_distinct(&vec![]), vec![]);
}

#[test]
fn header_is_parsed() {
    assert_eq!(header_ranges("bytes=10-100"), Some(vec![ByteRange::FromToAll(10, 100)]));
    assert_eq!(header_ranges("bytes=10-"), Some(vec![ByteRange::FromTo(10)]));
    assert_eq!(header_ranges("bytes=-100"), Some(vec![ByteRange::Last(100)]));
    assert_eq!(
        header_ranges("bytes=5-6, 0-1,-2,7-"),
        Some(vec![
            ByteRange::FromToAll(5, 6),
            ByteRange::FromToAll(0, 1),
            ByteRange::Last(2),
            ByteRange::FromTo(7),
        ])
    );
    assert_eq!(header_ranges("bytes=6-5"), Some(vec![]));
    assert_eq!(header_ranges("invalid input"), Some(vec![]));
    assert_eq!(header_ranges(""), Some(vec![]));
}

#[test]
fn numbers_of_a_header_fit_in_64_bits() {
    assert_eq!(
        header_ranges("bytes=18446744073709551615-"),
        Some(vec![ByteRange::FromTo(u64::MAX)])
    );
    assert_eq!(
        header_ranges("bytes=000000000000000000000000000001-"),
        Some(vec![ByteRange::FromTo(1)])
    );
    assert_eq!(header_ranges("bytes=18446744073709551616-"), None);
    assert_eq!(header_ranges("bytes=0-1,-99999999999999999999"), None);
    assert_eq!(header_ranges("unit=99999999999999999999-"), None);
    assert_eq!(header_ranges("1844674407370955161 5"), Some(vec![]));
}

#[test]
fn selection_of_ranges() {
    let specs = [
        ByteRange::Last(2),
        ByteRange::FromToAll(0, 3),
        ByteRange::FromTo(8),
        ByteRange::FromToAll(0, 3),
        ByteRange::FromToAll(2, 50),
    ];
    assert_eq!(selected(&specs, 10), vec![(0, 3), (2, 9), (8, 9)]);
}

#[test]
fn selection_ignores_order_and_repetition() {
    let a = [ByteRange::FromTo(5), ByteRange::FromToAll(1, 2), ByteRange::FromTo(5)];
    let b = [ByteRange::FromToAll(1, 2), ByteRange::FromTo(5)];
    assert_eq!(selected(&a, 10), selected(&b, 10));
}

fn errors(specs: &[ByteRange], length: u64) -> Vec<&'static str> {
    match select_ranges(&specs.to_vec(), length) {
        Selection::Unsatisfiable(errors) => errors,
        other => panic!("{:?}", other),
    }
}

#[test]
fn selection_of_nothing() {
    assert!(errors(&[], 10).is_empty());
    let some = [
        ByteRange::Last(11),
        ByteRange::FromToAll(0, 3),
        ByteRange::FromTo(10),
        ByteRange::FromToAll(20, 30),
    ];
    assert_eq!(errors(&some, 10), vec![OUTSIDE, LAST_BEFORE_FIRST, OUTSIDE]);
    assert_eq!(errors(&[ByteRange::FromTo(0)], 0), vec![LAST_BEFORE_FIRST]);
}

#[test]
fn the_same_range_can_be_written_in_many_ways() {
    for specs in [
        [ByteRange::FromTo(7), ByteRange::FromToAll(7, 9)],
        [ByteRange::Last(3), ByteRange::FromToAll(7, 100)],
    ] {
        assert_eq!(selected(&specs, 10), vec![(7, 9)]);
    }
}
