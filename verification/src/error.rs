//! What can go wrong while a line is read or a command is carried out.

use vstd::prelude::*;

verus! {

/// Why a line could not be read, or why a command was turned down.
#[derive(Debug, Clone, PartialEq, Eq)]
pub enum ParseError {
    /// A number field does not hold a base-ten 64-bit integer.
    InvalidId,
    /// No item has the name that was asked for.
    FoundPerabot,
    /// More was asked for than is in stock. It is also what a line without
    /// a stock field, or a history line without a time field, is answered
    /// with.
    StockPerabot,
    /// The item still has stock, so it cannot be deleted.
    StockPerabotAda,
    /// The named field is empty or absent.
    MissingField(String),
    /// No item of this name is on the list.
    PerabotNotFound(String),
    /// The time field does not hold a date, a time of day and an offset.
    InvalidTime,
}

/// A `ParseError` as a mathematical value.
pub enum ParseErrorView {
    InvalidId,
    FoundPerabot,
    StockPerabot,
    StockPerabotAda,
    MissingField(Seq<char>),
    PerabotNotFound(Seq<char>),
    InvalidTime,
}

impl View for ParseError {
    type V = ParseErrorView;

    open spec fn view(&self) -> ParseErrorView {
        match self {
            ParseError::InvalidId => ParseErrorView::InvalidId,
            ParseError::FoundPerabot => ParseErrorView::FoundPerabot,
            ParseError::StockPerabot => ParseErrorView::StockPerabot,
            ParseError::StockPerabotAda => ParseErrorView::StockPerabotAda,
            ParseError::MissingField(field) => ParseErrorView::MissingField(field@),
            ParseError::PerabotNotFound(name) => ParseErrorView::PerabotNotFound(name@),
            ParseError::InvalidTime => ParseErrorView::InvalidTime,
        }
    }
}

/// The sentence that tells a user of the error `e`.
pub open spec fn message_of(e: ParseErrorView) -> Seq<char> {
    match e {
        ParseErrorView::InvalidId => "id must be a number"@,
        ParseErrorView::FoundPerabot => "Perabot tidak ditemukan"@,
        ParseErrorView::StockPerabot => "Stock perabot kurang atau habis"@,
        ParseErrorView::StockPerabotAda => "Stock belum kosong"@,
        ParseErrorView::MissingField(field) => "Missing: "@ + field,
        ParseErrorView::PerabotNotFound(name) => "Tidak ada perabotan dengan nama "@ + name
            + " pada list"@,
        ParseErrorView::InvalidTime => "time must be a date, a time of day and an offset"@,
    }
}

impl ParseError {
    /// The sentence that tells a user of this error.
    pub fn message(&self) -> (text: String)
        ensures
            text@ == message_of(self@),
    {
        match self {
            ParseError::InvalidId => "id must be a number".to_owned(),
            ParseError::FoundPerabot => "Perabot tidak ditemukan".to_owned(),
            ParseError::StockPerabot => "Stock perabot kurang atau habis".to_owned(),
            ParseError::StockPerabotAda => "Stock belum kosong".to_owned(),
            ParseError::MissingField(field) => {
                let mut text = "Missing: ".to_owned();
                text.append(field.as_str());
                text
            },
            ParseError::PerabotNotFound(name) => {
                let mut text = "Tidak ada perabotan dengan nama ".to_owned();
                text.append(name.as_str());
                text.append(" pada list");
                text
            },
            ParseError::InvalidTime => "time must be a date, a time of day and an offset".to_owned(),
        }
    }
}

} // verus!
