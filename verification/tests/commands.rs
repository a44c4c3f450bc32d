use mini_warehouse::command::{
    chosen_history, edit, hapus, history, keluar, masuk, try_edit, try_hapus, try_keluar,
    try_masuk, Masuk, Riwayat,
};
use mini_warehouse::error::ParseError;
use mini_warehouse::history::{History, Historys};
use mini_warehouse::perabot::Perabot;
use mini_warehouse::perabots::Perabots;
use mini_warehouse::timestamp::Timestamp;

fn now() -> Timestamp {
    Timestamp::new(1_600_000_000, 7 * 3600).unwrap()
}

fn perabot(id: i64, name: &str, stock: i64) -> Perabot {
    Perabot { id, name: name.to_string(), stock }
}

fn event(id: i64, name: &str, operation: &str, stock: i64) -> History {
    History { id, name: name.to_string(), operation: operation.to_string(), stock, time: now() }
}

fn items(pers: &Perabots) -> Vec<Perabot> {
    let mut copy = Perabots::new();
    let mut id = 0;
    let mut seen = Vec::new();
    while seen.len() < 64 && id < 64 {
        if let Some(p) = pers.get(id) {
            seen.push(p.clone());
            copy.add(p.clone());
        }
        id += 1;
    }
    copy.into_vec()
}

#[test]
fn chair_from_first_stock_in_to_delete() {
    let mut pers = Perabots::new();
    let mut hiss = Historys::new();

    assert_eq!(masuk(&mut pers, &mut hiss, "Chair", 5, now()), Masuk::Baru { id: 1 });
    assert_eq!(items(&pers), vec![perabot(1, "Chair", 5)]);

    assert_eq!(
        masuk(&mut pers, &mut hiss, "chair", 3, now()),
        Masuk::Bertambah { id: 1, total: 8 }
    );
    assert_eq!(items(&pers), vec![perabot(1, "Chair", 8)]);

    assert_eq!(keluar(&mut pers, &mut hiss, "Chair", 10, now()), Err(ParseError::StockPerabot));
    assert_eq!(items(&pers), vec![perabot(1, "Chair", 8)]);

    assert_eq!(keluar(&mut pers, &mut hiss, "Chair", 8, now()), Ok(0));
    assert_eq!(items(&pers), vec![perabot(1, "Chair", 0)]);

    assert_eq!(hapus(&mut pers, &mut hiss, "CHAIR", now()), Ok(()));
    assert_eq!(pers.into_vec(), vec![]);

    assert_eq!(
        hiss.into_vec(),
        vec![
            event(4, "CHAIR", "hapus", 0),
            event(3, "Chair", "keluar", 8),
            event(2, "chair", "masuk", 3),
            event(1, "Chair", "masuk", 5),
        ]
    );
}

#[test]
fn stock_in_numbers_new_items_one_after_another() {
    let mut pers = Perabots::new();
    let mut hiss = Historys::new();
    assert_eq!(masuk(&mut pers, &mut hiss, "a", 1, now()), Masuk::Baru { id: 1 });
    assert_eq!(masuk(&mut pers, &mut hiss, "b", 1, now()), Masuk::Baru { id: 2 });
    assert_eq!(masuk(&mut pers, &mut hiss, "A", 1, now()), Masuk::Bertambah { id: 1, total: 2 });
    assert_eq!(masuk(&mut pers, &mut hiss, "c", 1, now()), Masuk::Baru { id: 3 });
    assert_eq!(pers.next_id(), 4);
    assert_eq!(hiss.next_id(), 5);
}

#[test]
fn stock_out_wants_the_exact_name() {
    let mut pers = Perabots::new();
    let mut hiss = Historys::new();
    masuk(&mut pers, &mut hiss, "Chair", 5, now());
    assert_eq!(keluar(&mut pers, &mut hiss, "chair", 1, now()), Err(ParseError::FoundPerabot));
    assert_eq!(items(&pers), vec![perabot(1, "Chair", 5)]);
    assert_eq!(hiss.into_vec().len(), 1);
}

#[test]
fn stock_out_takes_exactly_what_is_asked() {
    let mut pers = Perabots::new();
    let mut hiss = Historys::new();
    masuk(&mut pers, &mut hiss, "Chair", 5, now());
    assert_eq!(keluar(&mut pers, &mut hiss, "Chair", 2, now()), Ok(3));
    assert_eq!(items(&pers), vec![perabot(1, "Chair", 3)]);
    assert_eq!(hiss.into_vec()[0], event(2, "Chair", "keluar", 2));
}

#[test]
fn edit_sets_the_stock_and_keeps_the_name_as_stored() {
    let mut pers = Perabots::new();
    let mut hiss = Historys::new();
    masuk(&mut pers, &mut hiss, "Chair", 5, now());
    assert_eq!(edit(&mut pers, &mut hiss, "CHAIR", 40, now()), Ok(()));
    assert_eq!(items(&pers), vec![perabot(1, "Chair", 40)]);
    assert_eq!(hiss.into_vec()[0], event(2, "CHAIR", "edit", 40));
}

#[test]
fn edit_of_an_unknown_name_changes_nothing() {
    let mut pers = Perabots::new();
    let mut hiss = Historys::new();
    masuk(&mut pers, &mut hiss, "Chair", 5, now());
    assert_eq!(
        edit(&mut pers, &mut hiss, "Lamp", 40, now()),
        Err(ParseError::PerabotNotFound("Lamp".to_string()))
    );
    assert_eq!(items(&pers), vec![perabot(1, "Chair", 5)]);
    assert_eq!(hiss.into_vec().len(), 1);
}

#[test]
fn delete_wants_an_empty_stock() {
    let mut pers = Perabots::new();
    let mut hiss = Historys::new();
    masuk(&mut pers, &mut hiss, "Chair", 5, now());
    assert_eq!(hapus(&mut pers, &mut hiss, "chair", now()), Err(ParseError::StockPerabotAda));
    assert_eq!(hapus(&mut pers, &mut hiss, "Lamp", now()), Err(ParseError::FoundPerabot));
    assert_eq!(items(&pers), vec![perabot(1, "Chair", 5)]);
    assert_eq!(hiss.into_vec().len(), 1);
}

#[test]
fn delete_closes_the_gap_in_the_numbers() {
    let mut pers = Perabots::new();
    let mut hiss = Historys::new();
    masuk(&mut pers, &mut hiss, "a", 1, now());
    masuk(&mut pers, &mut hiss, "b", 0, now());
    masuk(&mut pers, &mut hiss, "c", 3, now());
    masuk(&mut pers, &mut hiss, "d", 4, now());
    assert_eq!(hapus(&mut pers, &mut hiss, "B", now()), Ok(()));
    assert_eq!(pers.into_vec(), vec![perabot(1, "a", 1), perabot(2, "c", 3), perabot(3, "d", 4)]);
    let newest = &hiss.into_vec()[0];
    assert_eq!(newest, &event(5, "B", "hapus", 0));
}

#[test]
fn history_numbers_are_never_given_twice() {
    let mut pers = Perabots::new();
    let mut hiss = Historys::new();
    masuk(&mut pers, &mut hiss, "a", 0, now());
    hapus(&mut pers, &mut hiss, "a", now()).unwrap();
    masuk(&mut pers, &mut hiss, "b", 0, now());
    let ids: Vec<i64> = hiss.into_vec().iter().map(|h| h.id).collect();
    assert_eq!(ids, vec![3, 2, 1]);
    assert_eq!(pers.into_vec(), vec![perabot(1, "b", 0)]);
}

#[test]
fn the_checked_commands_do_the_same_where_the_numbers_fit() {
    let mut pers = Perabots::new();
    let mut hiss = Historys::new();
    assert_eq!(try_masuk(&mut pers, &mut hiss, "Chair", 5, now()), Some(Masuk::Baru { id: 1 }));
    assert_eq!(try_keluar(&mut pers, &mut hiss, "Chair", 9, now()), Some(Err(ParseError::StockPerabot)));
    assert_eq!(try_keluar(&mut pers, &mut hiss, "Chair", 5, now()), Some(Ok(0)));
    assert_eq!(try_edit(&mut pers, &mut hiss, "chair", 0, now()), Some(Ok(())));
    assert_eq!(
        try_edit(&mut pers, &mut hiss, "lamp", 0, now()),
        Some(Err(ParseError::PerabotNotFound("lamp".to_string())))
    );
    assert_eq!(try_hapus(&mut pers, &mut hiss, "chair", now()), Some(Ok(())));
    assert_eq!(pers.into_vec(), vec![]);
    assert_eq!(hiss.into_vec().len(), 4);
}

#[test]
fn the_checked_commands_refuse_numbers_that_do_not_fit() {
    let mut pers = Perabots::new();
    let mut hiss = Historys::new();
    pers.add(perabot(1, "Chair", i64::MAX));
    assert_eq!(try_masuk(&mut pers, &mut hiss, "chair", 1, now()), None);
    assert_eq!(try_keluar(&mut pers, &mut hiss, "Chair", -1, now()), None);
    assert_eq!(items(&pers), vec![perabot(1, "Chair", i64::MAX)]);

    let mut full = Perabots::new();
    full.add(perabot(i64::MAX, "Chair", 0));
    assert_eq!(try_masuk(&mut full, &mut hiss, "Lamp", 1, now()), None);
    assert_eq!(hiss.into_vec(), vec![]);
}

#[test]
fn the_checked_commands_refuse_a_full_history() {
    let mut pers = Perabots::new();
    pers.add(perabot(1, "Chair", 0));
    let mut hiss = Historys::new();
    hiss.add(event(i64::MAX, "x", "masuk", 1));
    assert_eq!(try_masuk(&mut pers, &mut hiss, "Chair", 1, now()), None);
    assert_eq!(try_keluar(&mut pers, &mut hiss, "Chair", 0, now()), None);
    assert_eq!(try_edit(&mut pers, &mut hiss, "Chair", 1, now()), None);
    assert_eq!(try_hapus(&mut pers, &mut hiss, "Chair", now()), None);
    assert_eq!(try_keluar(&mut pers, &mut hiss, "Lamp", 0, now()), Some(Err(ParseError::FoundPerabot)));
    assert_eq!(items(&pers), vec![perabot(1, "Chair", 0)]);
    assert_eq!(hiss.into_vec().len(), 1);
}

#[test]
fn an_empty_history_shows_nothing_whatever_is_asked() {
    assert_eq!(history(vec![], None), Riwayat::Kosong);
    assert_eq!(history(vec![], Some("nonsense".to_string())), Riwayat::Kosong);
}

#[test]
fn the_whole_history_is_shown_where_nothing_is_asked() {
    let rows = vec![event(2, "a", "edit", 1), event(1, "a", "masuk", 1)];
    assert_eq!(history(rows.clone(), None), Riwayat::Isi(rows));
}

#[test]
fn the_history_of_one_operation_is_asked_for_in_any_letter_case() {
    let rows = vec![event(3, "a", "masuk", 1), event(2, "a", "edit", 1), event(1, "a", "masuk", 1)];
    assert_eq!(
        history(rows.clone(), Some("MASUK".to_string())),
        Riwayat::Isi(vec![event(3, "a", "masuk", 1), event(1, "a", "masuk", 1)])
    );
    assert_eq!(history(rows.clone(), Some("Hapus".to_string())), Riwayat::Isi(vec![]));
    assert_eq!(history(rows, Some("keluar".to_string())), Riwayat::Isi(vec![]));
}

#[test]
fn an_unknown_operation_is_invalid() {
    let rows = vec![event(1, "a", "masuk", 1)];
    assert_eq!(history(rows.clone(), Some("jual".to_string())), Riwayat::Invalid);
    assert_eq!(history(rows, Some(String::new())), Riwayat::Invalid);
}

#[test]
fn the_operation_is_taken_as_it_stands_once_it_is_in_lower_case() {
    let rows = vec![event(2, "a", "edit", 1), event(1, "a", "masuk", 1)];
    assert_eq!(
        chosen_history(rows.clone(), Some("edit".to_string())),
        Riwayat::Isi(vec![event(2, "a", "edit", 1)])
    );
    assert_eq!(chosen_history(rows, Some("EDIT".to_string())), Riwayat::Invalid);
}
