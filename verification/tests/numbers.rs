use mini_warehouse::text::{number_text, parse_number, split_ranges, to_chars};

fn read(text: &str) -> Option<i64> {
    let chars = to_chars(text);
    parse_number(&chars, 0, chars.len())
}

#[test]
fn plain_numbers_are_read() {
    assert_eq!(read("0"), Some(0));
    assert_eq!(read("42"), Some(42));
    assert_eq!(read("-17"), Some(-17));
}

#[test]
fn a_plus_sign_and_leading_zeros_are_accepted() {
    assert_eq!(read("+5"), Some(5));
    assert_eq!(read("007"), Some(7));
    assert_eq!(read("-0"), Some(0));
}

#[test]
fn the_ends_of_the_range_are_read() {
    assert_eq!(read("9223372036854775807"), Some(i64::MAX));
    assert_eq!(read("-9223372036854775808"), Some(i64::MIN));
}

#[test]
fn numbers_out_of_range_are_refused() {
    assert_eq!(read("9223372036854775808"), None);
    assert_eq!(read("-9223372036854775809"), None);
    assert_eq!(read("99999999999999999999999999999999999999999999"), None);
}

#[test]
fn what_is_no_number_is_refused() {
    assert_eq!(read(""), None);
    assert_eq!(read("+"), None);
    assert_eq!(read("-"), None);
    assert_eq!(read("12a"), None);
    assert_eq!(read(" 12"), None);
    assert_eq!(read("1_000"), None);
    assert_eq!(read("id"), None);
    assert_eq!(read("٣"), None);
}

#[test]
fn a_number_is_read_from_the_middle_of_a_line() {
    let chars = to_chars("ab,123,cd");
    assert_eq!(parse_number(&chars, 3, 6), Some(123));
    assert_eq!(parse_number(&chars, 3, 7), None);
}

#[test]
fn numbers_are_written_in_the_shortest_form() {
    assert_eq!(number_text(0), "0");
    assert_eq!(number_text(7), "7");
    assert_eq!(number_text(10), "10");
    assert_eq!(number_text(-305), "-305");
    assert_eq!(number_text(i64::MAX), "9223372036854775807");
    assert_eq!(number_text(i64::MIN), "-9223372036854775808");
}

#[test]
fn written_numbers_are_read_back() {
    for n in [0, 1, -1, 9, 10, 99, 100, -100, 123456789, i64::MAX, i64::MIN] {
        assert_eq!(read(&number_text(n)), Some(n));
    }
}

#[test]
fn the_characters_of_a_text_come_in_order() {
    assert_eq!(to_chars("kürsi"), vec!['k', 'ü', 'r', 's', 'i']);
    assert_eq!(to_chars(""), Vec::<char>::new());
}

#[test]
fn fields_are_found_between_commas() {
    let chars = to_chars("1,Chair,5");
    assert_eq!(split_ranges(&chars, 0, chars.len(), ','), vec![(0, 1), (2, 7), (8, 9)]);
}

#[test]
fn empty_fields_are_kept() {
    let chars = to_chars(",a,,");
    assert_eq!(split_ranges(&chars, 0, chars.len(), ','), vec![(0, 0), (1, 2), (3, 3), (4, 4)]);
    let none = to_chars("");
    assert_eq!(split_ranges(&none, 0, 0, ','), vec![(0, 0)]);
}

#[test]
fn lines_are_found_between_line_feeds() {
    let chars = to_chars("a\nbc\n");
    assert_eq!(split_ranges(&chars, 0, chars.len(), '\n'), vec![(0, 1), (2, 4), (5, 5)]);
}
