use mini_warehouse::error::ParseError;
use mini_warehouse::perabot::{parse_perabot, perabot_line, Perabot};
use mini_warehouse::perabots::{parse_perabots, perabots_text};

fn perabot(id: i64, name: &str, stock: i64) -> Perabot {
    Perabot { id, name: name.to_string(), stock }
}

#[test]
fn reads_a_stock_line() {
    assert_eq!(parse_perabot("1,Chair,5"), Ok(perabot(1, "Chair", 5)));
    assert_eq!(parse_perabot("-3,Meja Makan,-12"), Ok(perabot(-3, "Meja Makan", -12)));
}

#[test]
fn writes_a_stock_line() {
    assert_eq!(perabot_line(&perabot(12, "Meja Makan", -3)), "12,Meja Makan,-3");
}

#[test]
fn a_written_line_is_read_back() {
    let first = perabot(44, "Lemari Kaca", 1200);
    assert_eq!(parse_perabot(&perabot_line(&first)), Ok(first));
}

#[test]
fn a_well_formed_line_is_written_back_as_it_was() {
    for line in ["1,Chair,5", "20,kursi,0", "-7,a b c,-1"] {
        assert_eq!(perabot_line(&parse_perabot(line).unwrap()), line);
    }
}

#[test]
fn the_heading_is_not_an_item() {
    assert_eq!(parse_perabot("id,name,stock"), Err(ParseError::InvalidId));
}

#[test]
fn a_bad_number_is_an_invalid_id() {
    assert_eq!(parse_perabot("x,Chair,5"), Err(ParseError::InvalidId));
    assert_eq!(parse_perabot(",Chair,5"), Err(ParseError::InvalidId));
    assert_eq!(parse_perabot("1,Chair,five"), Err(ParseError::InvalidId));
    assert_eq!(parse_perabot("1,Chair,"), Err(ParseError::InvalidId));
    assert_eq!(parse_perabot(""), Err(ParseError::InvalidId));
}

#[test]
fn an_empty_or_absent_name_is_missing() {
    assert_eq!(parse_perabot("1,,5"), Err(ParseError::MissingField("name".to_string())));
    assert_eq!(parse_perabot("1"), Err(ParseError::MissingField("name".to_string())));
}

#[test]
fn an_absent_stock_is_reported() {
    assert_eq!(parse_perabot("1,Chair"), Err(ParseError::StockPerabot));
}

#[test]
fn the_number_is_looked_at_before_the_name() {
    assert_eq!(parse_perabot("x,,5"), Err(ParseError::InvalidId));
}

#[test]
fn fields_after_the_third_are_not_looked_at() {
    assert_eq!(parse_perabot("1,Chair,5,more"), Ok(perabot(1, "Chair", 5)));
}

#[test]
fn a_comma_in_a_name_spoils_the_line() {
    assert_eq!(parse_perabot("1,Chair, big,5"), Err(ParseError::InvalidId));
}

#[test]
fn a_stock_file_is_read_line_by_line() {
    let text = "id,name,stock\n1,Chair,5\n\nbroken\n2,Table,0\n".to_string();
    let loaded = parse_perabots(text).into_vec();
    assert_eq!(loaded, vec![perabot(1, "Chair", 5), perabot(2, "Table", 0)]);
}

#[test]
fn a_later_line_takes_the_place_of_an_earlier_one() {
    let loaded = parse_perabots("3,Old,1\n1,Chair,5\n3,New,2".to_string()).into_vec();
    assert_eq!(loaded, vec![perabot(1, "Chair", 5), perabot(3, "New", 2)]);
}

#[test]
fn an_empty_file_holds_nothing() {
    assert_eq!(parse_perabots(String::new()).into_vec(), vec![]);
}

#[test]
fn a_stock_file_is_written_with_its_heading() {
    let text = perabots_text(&vec![perabot(1, "Chair", 5), perabot(2, "Table", 0)]);
    assert_eq!(text, "id,name,stock\n1,Chair,5\n2,Table,0\n");
    assert_eq!(perabots_text(&vec![]), "id,name,stock\n");
}

#[test]
fn a_written_stock_file_is_read_back() {
    let rows = vec![perabot(1, "Chair", 5), perabot(2, "Table", 0), perabot(9, "Rak", 31)];
    assert_eq!(parse_perabots(perabots_text(&rows)).into_vec(), rows);
}
