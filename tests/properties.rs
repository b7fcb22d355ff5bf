use getitem::fields::{filtered_line, split_with_positions, LineToken};
use getitem::pick::pick;
use getitem::rows::{islice, ISlice};
use getitem::slice::{normalize_indices, slice_from_spec, Slice, SpecError};

fn lines(v: &[&str]) -> Vec<String> {
    v.iter().map(|s| s.to_string()).collect()
}

fn four() -> Vec<String> {
    lines(&["A 1 x", "B 2 y", "C 3 z", "D 4 w"])
}

#[test]
fn last_two_rows_first_two_fields() {
    let expected = lines(&["C 3", "D 4"]);
    assert_eq!(pick(four(), "-2:", "0:2", None).unwrap(), expected);
    assert_eq!(pick(four(), "-2:", "0:2", Some(4)).unwrap(), expected);
}

#[test]
fn start_beyond_length_selects_nothing() {
    let input = lines(&["a", "b", "c"]);
    assert!(pick(input.clone(), "5:10", ":", Some(3)).unwrap().is_empty());
    assert!(pick(input, "5:10", ":", None).unwrap().is_empty());
}

#[test]
fn whitespace_heavy_line() {
    let out = pick(lines(&["   x    y  "]), ":", "1", None).unwrap();
    assert_eq!(out, lines(&["        y"]));
}

#[test]
fn later_field_keeps_its_column() {
    let out = filtered_line("  abc def", slice_from_spec("1:").unwrap()).unwrap();
    assert_eq!(out, "      def");
}

#[test]
fn minus_one_is_last_row() {
    let out = pick(four(), "-1", ":", None).unwrap();
    assert_eq!(out, lines(&["D 4 w"]));
}

#[test]
fn negative_row_matches_positive_row() {
    for n in -4i64..-1 {
        let neg = pick(four(), &n.to_string(), ":", None).unwrap();
        let pos = pick(four(), &(4 + n).to_string(), ":", None).unwrap();
        assert_eq!(neg, pos);
        assert_eq!(neg.len(), 1);
    }
}

#[test]
fn row_range_in_order() {
    let out = pick(four(), "1:3", ":", Some(4)).unwrap();
    assert_eq!(out, lines(&["B 2 y", "C 3 z"]));
}

#[test]
fn identity_slice_keeps_tidy_lines() {
    let input = lines(&["a b", "  c   d", "e\n"]);
    assert_eq!(pick(input.clone(), ":", ":", None).unwrap(), input);
}

#[test]
fn identity_slice_twice_is_once() {
    let input = lines(&["x  y ", "", "\tz", "p q\n"]);
    let once = pick(input, ":", ":", None).unwrap();
    let twice = pick(once.clone(), ":", ":", None).unwrap();
    assert_eq!(once, twice);
    assert_eq!(once, lines(&["x  y", " z", "p q\n"]));
}

#[test]
fn trailing_newline_is_kept() {
    let out = filtered_line("a b c\n", slice_from_spec("-1").unwrap()).unwrap();
    assert_eq!(out, "    c\n");
}

#[test]
fn blank_lines_are_dropped() {
    let input = lines(&["", "   ", "a"]);
    assert_eq!(pick(input, ":", ":", None).unwrap(), lines(&["a"]));
}

#[test]
fn column_end_past_the_last_field() {
    let out = filtered_line("a b c", slice_from_spec("1:10").unwrap()).unwrap();
    assert_eq!(out, "  b c");
}

#[test]
fn empty_column_range() {
    assert_eq!(filtered_line("a b c", slice_from_spec("2:1").unwrap()), None);
    assert_eq!(filtered_line("a b c", slice_from_spec("5").unwrap()), None);
}

#[test]
fn negative_start_before_first_field() {
    let out = filtered_line("a b c", slice_from_spec("-10:2").unwrap()).unwrap();
    assert_eq!(out, "a b");
}

#[test]
fn unicode_whitespace_separates_fields() {
    let out = filtered_line("a\u{00A0}b", slice_from_spec("1").unwrap()).unwrap();
    assert_eq!(out, "   b");
}

#[test]
fn tokens_record_byte_offsets() {
    let toks = split_with_positions("  ab\tc  d ");
    assert_eq!(
        toks,
        vec![
            LineToken { start: 2, end: 4 },
            LineToken { start: 5, end: 6 },
            LineToken { start: 8, end: 9 },
        ]
    );
    assert!(split_with_positions("").is_empty());
    assert!(split_with_positions(" \t ").is_empty());
}

#[test]
fn given_line_count_resolves_negative_rows() {
    assert!(pick(four(), "-2:", ":", Some(10)).unwrap().is_empty());
    assert_eq!(pick(four(), "-2:", ":", Some(3)).unwrap(), lines(&["B 2 y", "C 3 z", "D 4 w"]));
}

#[test]
fn parses_slice_specs() {
    let s = slice_from_spec("-1").unwrap();
    assert_eq!((s.start, s.end), (Some(-1), None));
    let s = slice_from_spec("3").unwrap();
    assert_eq!((s.start, s.end), (Some(3), Some(4)));
    let s = slice_from_spec("-3").unwrap();
    assert_eq!((s.start, s.end), (Some(-3), Some(-2)));
    let s = slice_from_spec(":").unwrap();
    assert_eq!((s.start, s.end), (None, None));
    let s = slice_from_spec("+2:-5").unwrap();
    assert_eq!((s.start, s.end), (Some(2), Some(-5)));
    let s = slice_from_spec("-2147483648:2147483647").unwrap();
    assert_eq!((s.start, s.end), (Some(-2147483648), Some(2147483647)));
}

#[test]
fn rejects_bad_integers() {
    assert_eq!(slice_from_spec("a:b").unwrap_err(), SpecError::BadInteger);
    assert_eq!(slice_from_spec("").unwrap_err(), SpecError::BadInteger);
    assert_eq!(slice_from_spec("-").unwrap_err(), SpecError::BadInteger);
    assert_eq!(slice_from_spec("2147483648").unwrap_err(), SpecError::BadInteger);
    assert_eq!(slice_from_spec("1:x").unwrap_err(), SpecError::BadInteger);
}

#[test]
fn rejects_extra_colons() {
    assert_eq!(slice_from_spec("1:2:3").unwrap_err(), SpecError::TooManyColons);
    assert_eq!(pick(four(), "::", ":", None).unwrap_err(), SpecError::TooManyColons);
    assert_eq!(pick(four(), "0", "x", None).unwrap_err(), SpecError::BadInteger);
}

#[test]
fn normalizes_against_length() {
    assert_eq!(normalize_indices(-2, Some(-1), Some(5)), (3, Some(4)));
    assert_eq!(normalize_indices(-100, None, Some(3)), (-97, None));
    assert_eq!(normalize_indices(1, Some(4), Some(3)), (1, Some(4)));
    assert_eq!(normalize_indices(-2, Some(-1), None), (-2, Some(-1)));
}

#[test]
fn slice_handed_out_one_at_a_time() {
    let mut it = ISlice::new(vec![10, 20, 30, 40, 50], Slice { start: Some(1), end: Some(3) }, None);
    assert_eq!(it.next(), Some(20));
    assert_eq!(it.next(), Some(30));
    assert_eq!(it.next(), None);
    assert_eq!(it.next(), None);
}

#[test]
fn buffered_slice_with_negative_bounds() {
    let r = islice(vec![1, 2, 3, 4, 5], Slice { start: Some(-3), end: Some(-1) }, None);
    assert_eq!(r, vec![3, 4]);
    let r = islice(vec![1, 2, 3], Slice { start: Some(-100), end: None }, None);
    assert_eq!(r, vec![1, 2, 3]);
    let r: Vec<i32> = islice(vec![], Slice { start: Some(-1), end: None }, None);
    assert!(r.is_empty());
}
