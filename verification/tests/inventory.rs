use mini_warehouse::error::ParseError;
use mini_warehouse::perabot::Perabot;
use mini_warehouse::perabots::{first_equal, Perabots};

fn perabot(id: i64, name: &str, stock: i64) -> Perabot {
    Perabot { id, name: name.to_string(), stock }
}

fn store(rows: &[(i64, &str, i64)]) -> Perabots {
    let mut pers = Perabots::new();
    for (id, name, stock) in rows {
        pers.add(perabot(*id, name, *stock));
    }
    pers
}

#[test]
fn a_new_store_is_empty() {
    assert_eq!(Perabots::new().into_vec(), vec![]);
    assert_eq!(Perabots::new().next_id(), 1);
}

#[test]
fn items_are_listed_by_ascending_number() {
    let pers = store(&[(3, "c", 1), (1, "a", 2), (2, "b", 3)]);
    assert_eq!(pers.into_vec(), vec![perabot(1, "a", 2), perabot(2, "b", 3), perabot(3, "c", 1)]);
}

#[test]
fn adding_under_a_number_in_use_replaces() {
    let pers = store(&[(1, "a", 2), (1, "b", 7)]);
    assert_eq!(pers.into_vec(), vec![perabot(1, "b", 7)]);
}

#[test]
fn the_next_number_is_one_more_than_the_greatest() {
    assert_eq!(store(&[(1, "a", 0)]).next_id(), 2);
    assert_eq!(store(&[(5, "a", 0), (2, "b", 0)]).next_id(), 6);
    assert_eq!(store(&[(-4, "a", 0)]).next_id(), -3);
}

#[test]
fn the_next_number_is_never_in_use() {
    let mut pers = Perabots::new();
    for name in ["a", "b", "c", "d"] {
        let id = pers.next_id();
        assert!(pers.get(id).is_none());
        pers.add(perabot(id, name, 1));
    }
    let ids: Vec<i64> = pers.into_vec().iter().map(|p| p.id).collect();
    assert_eq!(ids, vec![1, 2, 3, 4]);
}

#[test]
fn a_full_store_says_so() {
    assert!(store(&[(i64::MAX, "a", 0)]).is_full());
    assert!(!store(&[(i64::MAX - 1, "a", 0)]).is_full());
    assert!(!Perabots::new().is_full());
}

#[test]
fn stock_grows_and_shrinks() {
    let mut pers = store(&[(1, "Chair", 5)]);
    assert_eq!(pers.tambah(1, 3), 8);
    assert_eq!(pers.keluar(1, 10), -2);
    assert_eq!(pers.into_vec(), vec![perabot(1, "Chair", -2)]);
}

#[test]
fn edit_files_a_whole_item() {
    let mut pers = store(&[(1, "Chair", 5)]);
    pers.edit(1, "chair", 9);
    pers.edit(4, "Rak", 2);
    assert_eq!(pers.into_vec(), vec![perabot(1, "chair", 9), perabot(4, "Rak", 2)]);
}

#[test]
fn remove_hands_the_item_back() {
    let mut pers = store(&[(1, "a", 2), (2, "b", 3)]);
    assert_eq!(pers.remove(&2), Some(perabot(2, "b", 3)));
    assert_eq!(pers.remove(&2), None);
    assert_eq!(pers.into_vec(), vec![perabot(1, "a", 2)]);
}

#[test]
fn get_finds_an_item_by_number() {
    let pers = store(&[(1, "a", 2), (2, "b", 3)]);
    assert_eq!(pers.get(2), Some(&perabot(2, "b", 3)));
    assert_eq!(pers.get(3), None);
}

#[test]
fn search_looks_past_letter_case() {
    let pers = store(&[(1, "Chair", 5), (2, "Table", 0)]);
    assert_eq!(pers.search("chair"), Some(1));
    assert_eq!(pers.search("TABLE"), Some(2));
    assert_eq!(pers.search("Lamp"), None);
    assert_eq!(pers.search("ÉTAGÈRE"), None);
}

#[test]
fn search_looks_past_letter_case_beyond_ascii() {
    let pers = store(&[(1, "Étagère", 5)]);
    assert_eq!(pers.search("ÉTAGÈRE"), Some(1));
}

#[test]
fn search_takes_the_smallest_number_among_matches() {
    let pers = store(&[(7, "chair", 1), (3, "CHAIR", 2), (5, "Chair", 3)]);
    assert_eq!(pers.search("Chair"), Some(3));
}

#[test]
fn search_does_not_empty_the_store() {
    let pers = store(&[(1, "Chair", 5)]);
    assert_eq!(pers.search("chair"), Some(1));
    assert_eq!(pers.search("chair"), Some(1));
    assert_eq!(pers.into_vec().len(), 1);
}

#[test]
fn search_stock_wants_the_exact_name() {
    let pers = store(&[(1, "Chair", 5)]);
    assert_eq!(pers.search_stock("Chair", &5), Ok(1));
    assert_eq!(pers.search_stock("Chair", &0), Ok(1));
    assert_eq!(pers.search_stock("chair", &1), Err(ParseError::FoundPerabot));
}

#[test]
fn search_stock_refuses_more_than_there_is() {
    let pers = store(&[(1, "Chair", 5)]);
    assert_eq!(pers.search_stock("Chair", &6), Err(ParseError::StockPerabot));
}

#[test]
fn search_empty_wants_no_stock_left() {
    let pers = store(&[(1, "Chair", 5), (2, "Table", 0)]);
    assert_eq!(pers.search_empty("table"), Ok(2));
    assert_eq!(pers.search_empty("CHAIR"), Err(ParseError::StockPerabotAda));
    assert_eq!(pers.search_empty("Lamp"), Err(ParseError::FoundPerabot));
}

#[test]
fn numbers_above_the_gap_move_down() {
    let mut pers = store(&[(1, "a", 1), (2, "b", 2), (3, "c", 3), (4, "d", 4)]);
    pers.remove(&2);
    pers.sort_perabots(2);
    assert_eq!(pers.into_vec(), vec![perabot(1, "a", 1), perabot(2, "c", 3), perabot(3, "d", 4)]);
}

#[test]
fn closing_a_gap_at_the_end_changes_nothing() {
    let mut pers = store(&[(1, "a", 1), (2, "b", 2)]);
    pers.sort_perabots(3);
    assert_eq!(pers.into_vec(), vec![perabot(1, "a", 1), perabot(2, "b", 2)]);
}

#[test]
fn an_item_that_moves_onto_a_number_replaces_what_was_there() {
    let mut pers = store(&[(1, "a", 1), (2, "b", 2), (3, "c", 3)]);
    pers.sort_perabots(2);
    assert_eq!(pers.into_vec(), vec![perabot(1, "a", 1), perabot(2, "c", 3)]);
}

#[test]
fn closing_a_gap_keeps_other_gaps() {
    let mut pers = store(&[(1, "a", 1), (5, "b", 2), (9, "c", 3)]);
    pers.sort_perabots(3);
    assert_eq!(pers.into_vec(), vec![perabot(1, "a", 1), perabot(4, "b", 2), perabot(8, "c", 3)]);
}

#[test]
fn closing_a_gap_at_the_greatest_number_there_is() {
    let mut pers = store(&[(i64::MAX, "a", 1)]);
    pers.sort_perabots(i64::MAX);
    assert_eq!(pers.into_vec(), vec![perabot(i64::MAX, "a", 1)]);
}

#[test]
fn the_first_equal_text_is_found() {
    let names: Vec<String> = ["a", "b", "a"].iter().map(|s| s.to_string()).collect();
    assert_eq!(first_equal(&names, &"a".to_string()), Some(0));
    assert_eq!(first_equal(&names, &"b".to_string()), Some(1));
    assert_eq!(first_equal(&names, &"A".to_string()), None);
    assert_eq!(first_equal(&vec![], &"a".to_string()), None);
}
