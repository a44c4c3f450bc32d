use mini_warehouse::error::ParseError;
use mini_warehouse::history::{
    filter_history, history_line, historys_text, parse_history, parse_historys, History, Historys,
};
use mini_warehouse::timestamp::Timestamp;

fn at(secs: i64) -> Timestamp {
    Timestamp::new(secs, 7 * 3600).unwrap()
}

fn event(id: i64, name: &str, operation: &str, stock: i64) -> History {
    History {
        id,
        name: name.to_string(),
        operation: operation.to_string(),
        stock,
        time: at(1_600_000_000 + id),
    }
}

fn log(events: &[History]) -> Historys {
    let mut hiss = Historys::new();
    for e in events {
        hiss.add(e.clone());
    }
    hiss
}

#[test]
fn reads_a_history_line() {
    let parsed = parse_history("4,Chair,masuk,5,2020-09-13 19:26:40 +0700").unwrap();
    assert_eq!(
        parsed,
        History {
            id: 4,
            name: "Chair".to_string(),
            operation: "masuk".to_string(),
            stock: 5,
            time: at(1_600_000_000),
        }
    );
}

#[test]
fn writes_a_history_line() {
    let line = history_line(&History {
        id: 4,
        name: "Chair".to_string(),
        operation: "keluar".to_string(),
        stock: 5,
        time: at(1_600_000_000),
    });
    assert_eq!(line, "4,Chair,keluar,5,2020-09-13 19:26:40 +0700");
}

#[test]
fn a_written_history_line_is_read_back() {
    let first = event(9, "Meja", "edit", -4);
    assert_eq!(parse_history(&history_line(&first)), Ok(first));
}

#[test]
fn a_well_formed_history_line_is_written_back_as_it_was() {
    let line = "12,Rak Buku,hapus,0,2021-03-04 05:06:07 -0330";
    assert_eq!(history_line(&parse_history(line).unwrap()), line);
}

#[test]
fn the_history_heading_is_no_event() {
    assert_eq!(parse_history("id,name,operation,stock,time"), Err(ParseError::InvalidId));
}

#[test]
fn each_field_of_a_history_line_is_asked_for_in_turn() {
    assert_eq!(parse_history("x"), Err(ParseError::InvalidId));
    assert_eq!(parse_history("1"), Err(ParseError::MissingField("name".to_string())));
    assert_eq!(parse_history("1,,masuk"), Err(ParseError::MissingField("name".to_string())));
    assert_eq!(parse_history("1,a"), Err(ParseError::MissingField("operation".to_string())));
    assert_eq!(parse_history("1,a,,5"), Err(ParseError::MissingField("operation".to_string())));
    assert_eq!(parse_history("1,a,masuk"), Err(ParseError::StockPerabot));
    assert_eq!(parse_history("1,a,masuk,x"), Err(ParseError::InvalidId));
    assert_eq!(parse_history("1,a,masuk,5"), Err(ParseError::StockPerabot));
    assert_eq!(parse_history("1,a,masuk,5,soon"), Err(ParseError::InvalidTime));
    assert_eq!(parse_history("1,a,masuk,5,"), Err(ParseError::InvalidTime));
}

#[test]
fn any_operation_that_is_not_empty_is_read() {
    let parsed = parse_history("1,a,pindah,5,2020-09-13 19:26:40 +0700").unwrap();
    assert_eq!(parsed.operation, "pindah");
}

#[test]
fn a_new_history_is_empty() {
    assert_eq!(Historys::new().into_vec(), vec![]);
    assert_eq!(Historys::new().next_id(), 1);
    assert!(!Historys::new().is_full());
}

#[test]
fn events_are_listed_newest_first() {
    let hiss = log(&[event(2, "b", "masuk", 1), event(3, "c", "edit", 2), event(1, "a", "hapus", 0)]);
    let ids: Vec<i64> = hiss.into_vec().iter().map(|h| h.id).collect();
    assert_eq!(ids, vec![3, 2, 1]);
}

#[test]
fn the_listing_does_not_depend_on_the_order_of_adding() {
    let one = log(&[event(1, "a", "masuk", 1), event(2, "b", "masuk", 1), event(3, "c", "masuk", 1)]);
    let other = log(&[event(3, "c", "masuk", 1), event(1, "a", "masuk", 1), event(2, "b", "masuk", 1)]);
    assert_eq!(one.into_vec(), other.into_vec());
}

#[test]
fn the_next_event_number_is_one_more_than_the_greatest() {
    assert_eq!(log(&[event(4, "a", "masuk", 1), event(2, "b", "masuk", 1)]).next_id(), 5);
}

#[test]
fn a_history_file_is_read_line_by_line() {
    let text = "id,name,operation,stock,time\n\
                2,Chair,keluar,3,2020-09-13 19:26:40 +0700\n\
                nonsense\n\
                1,Chair,masuk,5,2020-09-13 19:26:39 +0700\n"
        .to_string();
    let ids: Vec<i64> = parse_historys(text).into_vec().iter().map(|h| h.id).collect();
    assert_eq!(ids, vec![2, 1]);
}

#[test]
fn a_history_file_is_written_with_its_heading() {
    let text = historys_text(&vec![event(2, "b", "edit", 7), event(1, "a", "masuk", 5)]);
    assert_eq!(
        text,
        "id,name,operation,stock,time\n\
         2,b,edit,7,2020-09-13 19:26:42 +0700\n\
         1,a,masuk,5,2020-09-13 19:26:41 +0700\n"
    );
    assert_eq!(historys_text(&vec![]), "id,name,operation,stock,time\n");
}

#[test]
fn a_written_history_file_is_read_back() {
    let rows = log(&[event(1, "a", "masuk", 5), event(2, "b", "edit", 7)]).into_vec();
    assert_eq!(parse_historys(historys_text(&rows)).into_vec(), rows);
}

#[test]
fn filtering_keeps_the_order_and_only_exact_matches() {
    let rows = vec![
        event(5, "a", "masuk", 1),
        event(4, "b", "keluar", 1),
        event(3, "c", "masuk", 1),
        event(2, "d", "Masuk", 1),
        event(1, "e", "masuk ", 1),
    ];
    let ids: Vec<i64> =
        filter_history(rows, "masuk".to_string()).iter().map(|h| h.id).collect();
    assert_eq!(ids, vec![5, 3]);
}

#[test]
fn filtering_may_leave_nothing() {
    assert_eq!(filter_history(vec![event(1, "a", "masuk", 1)], "hapus".to_string()), vec![]);
    assert_eq!(filter_history(vec![], "hapus".to_string()), vec![]);
}
