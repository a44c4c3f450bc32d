use mini_warehouse::timestamp::{time_layout, time_now, Timestamp};

#[test]
fn a_time_is_written_as_date_time_and_offset() {
    let time = Timestamp::new(1_600_000_000, 7 * 3600).unwrap();
    assert_eq!(time.text(), "2020-09-13 19:26:40 +0700");
    assert_eq!(Timestamp::new(0, 0).unwrap().text(), "1970-01-01 00:00:00 +0000");
    assert_eq!(Timestamp::new(0, -19800).unwrap().text(), "1969-12-31 18:30:00 -0530");
}

#[test]
fn a_time_keeps_its_two_numbers() {
    let time = Timestamp::new(1_600_000_000, 25200).unwrap();
    assert_eq!(time.secs(), 1_600_000_000);
    assert_eq!(time.offset(), 25200);
}

#[test]
fn a_time_field_is_read() {
    let time = Timestamp::parse("2021-03-04 05:06:07 +0700").unwrap();
    assert_eq!(time.secs(), 1_614_809_167);
    assert_eq!(time.offset(), 25200);
}

#[test]
fn a_written_time_is_read_back() {
    let time = Timestamp::new(1_600_000_000, -3 * 3600).unwrap();
    assert_eq!(Timestamp::parse(&time.text()), Some(time));
}

#[test]
fn a_read_time_is_written_back_as_it_was() {
    let text = "2021-03-04 05:06:07 +0700";
    assert_eq!(Timestamp::parse(text).unwrap().text(), text);
}

#[test]
fn an_offset_with_a_colon_is_read_too() {
    let time = Timestamp::parse("2021-03-04 05:06:07 +07:00").unwrap();
    assert_eq!(time.text(), "2021-03-04 05:06:07 +0700");
}

#[test]
fn what_is_no_time_is_refused() {
    assert_eq!(Timestamp::parse(""), None);
    assert_eq!(Timestamp::parse("time"), None);
    assert_eq!(Timestamp::parse("2021-03-04 05:06:07"), None);
    assert_eq!(Timestamp::parse("2021-02-30 05:06:07 +0700"), None);
    assert_eq!(Timestamp::parse("2021-03-04 25:06:07 +0700"), None);
}

#[test]
fn numbers_that_are_no_time_are_refused() {
    assert_eq!(Timestamp::new(0, 86_400), None);
    assert_eq!(Timestamp::new(0, -86_400), None);
    assert_eq!(Timestamp::new(i64::MAX, 0), None);
    assert!(Timestamp::new(0, 86_399).is_some());
}

#[test]
fn the_clock_gives_a_time_that_can_be_written() {
    let now = time_now().unwrap();
    assert_eq!(Timestamp::parse(&now.text()).map(|t| t.secs()), Some(now.secs()));
    assert!(now.secs() > 1_600_000_000);
}

#[test]
fn the_layout_is_date_time_and_offset() {
    assert_eq!(time_layout(), "%Y-%m-%d %H:%M:%S %z");
}
