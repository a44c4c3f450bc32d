use mini_warehouse::error::ParseError;

#[test]
fn every_error_has_its_sentence() {
    assert_eq!(ParseError::InvalidId.message(), "id must be a number");
    assert_eq!(ParseError::FoundPerabot.message(), "Perabot tidak ditemukan");
    assert_eq!(ParseError::StockPerabot.message(), "Stock perabot kurang atau habis");
    assert_eq!(ParseError::StockPerabotAda.message(), "Stock belum kosong");
    assert_eq!(ParseError::MissingField("name".to_string()).message(), "Missing: name");
    assert_eq!(
        ParseError::PerabotNotFound("Kursi".to_string()).message(),
        "Tidak ada perabotan dengan nama Kursi pada list"
    );
    assert_eq!(
        ParseError::InvalidTime.message(),
        "time must be a date, a time of day and an offset"
    );
}
