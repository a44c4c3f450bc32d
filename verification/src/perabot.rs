//! One stock record and the line it is kept in.

use crate::error::{ParseError, ParseErrorView};
use crate::table::Record;
use crate::text::{decimal, number_value, parse_number, push_number, split, split_ranges, to_chars};
use vstd::prelude::*;

verus! {

/// A piece of furniture on the list: its number, its name and how many are
/// in stock.
#[derive(Debug, Clone, PartialEq, Eq)]
pub struct Perabot {
    pub id: i64,
    pub name: String,
    pub stock: i64,
}

/// A `Perabot` as a mathematical value.
pub struct PerabotView {
    pub id: int,
    pub name: Seq<char>,
    pub stock: int,
}

impl View for Perabot {
    type V = PerabotView;

    open spec fn view(&self) -> PerabotView {
        PerabotView { id: self.id as int, name: self.name@, stock: self.stock as int }
    }
}

impl Record for Perabot {
    open spec fn key_of(content: PerabotView) -> int {
        content.id
    }

    fn key(&self) -> (k: i64) {
        self.id
    }
}

/// What a stock line holds, or why it holds nothing. The fields are the
/// pieces of the line between commas: a number, a name that is not empty
/// and the stock. Fields after the third are not looked at.
pub open spec fn perabot_of_line(line: Seq<char>) -> Result<PerabotView, ParseErrorView> {
    let fields = split(line, ',');
    match number_value(fields[0]) {
        None => Err(ParseErrorView::InvalidId),
        Some(id) => {
            if fields.len() < 2 || fields[1].len() == 0 {
                Err(ParseErrorView::MissingField("name"@))
            } else if fields.len() < 3 {
                Err(ParseErrorView::StockPerabot)
            } else {
                match number_value(fields[2]) {
                    None => Err(ParseErrorView::InvalidId),
                    Some(stock) => Ok(PerabotView { id, name: fields[1], stock }),
                }
            }
        },
    }
}

/// The line that a stock record is kept in: number, name and stock with
/// commas between them.
pub open spec fn line_of_perabot(p: PerabotView) -> Seq<char> {
    decimal(p.id) + seq![','] + p.name + seq![','] + decimal(p.stock)
}

/// Reads one stock line.
pub fn parse_perabot(perabot: &str) -> (parsed: Result<Perabot, ParseError>)
    ensures
        match parsed {
            Ok(p) => perabot_of_line(perabot@) == Ok::<PerabotView, ParseErrorView>(p@),
            Err(e) => perabot_of_line(perabot@) == Err::<PerabotView, ParseErrorView>(e@),
        },
{
    let chars = to_chars(perabot);
    let fields = split_ranges(&chars, 0, chars.len(), ',');
    assert(chars@.subrange(0, chars.len() as int) =~= perabot@);
    let id = match parse_number(&chars, fields[0].0, fields[0].1) {
        Some(id) => id,
        None => {
            return Err(ParseError::InvalidId);
        },
    };
    if fields.len() < 2 || fields[1].0 == fields[1].1 {
        return Err(ParseError::MissingField("name".to_owned()));
    }
    let name = perabot.substring_char(fields[1].0, fields[1].1).to_owned();
    if fields.len() < 3 {
        return Err(ParseError::StockPerabot);
    }
    let stock = match parse_number(&chars, fields[2].0, fields[2].1) {
        Some(stock) => stock,
        None => {
            return Err(ParseError::InvalidId);
        },
    };
    Ok(Perabot { id, name, stock })
}

/// Writes the line that `perabot` is kept in.
pub fn perabot_line(perabot: &Perabot) -> (line: String)
    ensures
        line@ == line_of_perabot(perabot@),
{
    let mut line = String::new();
    push_number(&mut line, perabot.id);
    proof {
        reveal_strlit(",");
    }
    line.append(",");
    line.append(perabot.name.as_str());
    line.append(",");
    push_number(&mut line, perabot.stock);
    assert(line@ =~= line_of_perabot(perabot@));
    line
}

} // verus!
