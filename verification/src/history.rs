//! The history: one event for every change to the inventory, never changed
//! afterwards, and the line each event is kept in.

use crate::error::{ParseError, ParseErrorView};
use crate::table::{contents, descending, holds_exactly, is_listing, keyed, next_key, Record, Table};
use crate::text::{decimal, number_value, parse_number, push_number, split, split_ranges, to_chars};
use crate::timestamp::{text_of_time, time_of_text, writable, Timestamp, TimestampView};
use vstd::prelude::*;

verus! {

/// What was done to an item, how much of it, and when.
#[derive(Debug, Clone, PartialEq, Eq)]
pub struct History {
    pub id: i64,
    pub name: String,
    pub operation: String,
    pub stock: i64,
    pub time: Timestamp,
}

/// A `History` as a mathematical value.
pub struct HistoryView {
    pub id: int,
    pub name: Seq<char>,
    pub operation: Seq<char>,
    pub stock: int,
    pub time: TimestampView,
}

impl View for History {
    type V = HistoryView;

    open spec fn view(&self) -> HistoryView {
        HistoryView {
            id: self.id as int,
            name: self.name@,
            operation: self.operation@,
            stock: self.stock as int,
            time: self.time@,
        }
    }
}

impl Record for History {
    open spec fn key_of(content: HistoryView) -> int {
        content.id
    }

    fn key(&self) -> (k: i64) {
        self.id
    }
}

/// What a history line holds, or why it holds nothing. The fields are the
/// pieces of the line between commas: a number, a name and an operation that
/// are not empty, the stock and the time. Fields after the fifth are not
/// looked at.
pub open spec fn history_of_line(line: Seq<char>) -> Result<HistoryView, ParseErrorView> {
    let fields = split(line, ',');
    if number_value(fields[0]) is None {
        Err(ParseErrorView::InvalidId)
    } else if fields.len() < 2 || fields[1].len() == 0 {
        Err(ParseErrorView::MissingField("name"@))
    } else if fields.len() < 3 || fields[2].len() == 0 {
        Err(ParseErrorView::MissingField("operation"@))
    } else if fields.len() < 4 {
        Err(ParseErrorView::StockPerabot)
    } else if number_value(fields[3]) is None {
        Err(ParseErrorView::InvalidId)
    } else if fields.len() < 5 {
        Err(ParseErrorView::StockPerabot)
    } else if time_of_text(fields[4]) is None {
        Err(ParseErrorView::InvalidTime)
    } else {
        Ok(
            HistoryView {
                id: number_value(fields[0])->0,
                name: fields[1],
                operation: fields[2],
                stock: number_value(fields[3])->0,
                time: time_of_text(fields[4])->0,
            },
        )
    }
}

/// The line that an event is kept in: number, name, operation, stock and
/// time with commas between them.
pub open spec fn line_of_history(h: HistoryView) -> Seq<char> {
    decimal(h.id) + seq![','] + h.name + seq![','] + h.operation + seq![','] + decimal(h.stock)
        + seq![','] + text_of_time(h.time)
}

/// Reads one history line.
pub fn parse_history(history: &str) -> (parsed: Result<History, ParseError>)
    ensures
        match parsed {
            Ok(h) => history_of_line(history@) == Ok::<HistoryView, ParseErrorView>(h@)
                && writable(h.time@),
            Err(e) => history_of_line(history@) == Err::<HistoryView, ParseErrorView>(e@),
        },
{
    let chars = to_chars(history);
    let fields = split_ranges(&chars, 0, chars.len(), ',');
    assert(chars@.subrange(0, chars.len() as int) =~= history@);
    let id = match parse_number(&chars, fields[0].0, fields[0].1) {
        Some(id) => id,
        None => {
            return Err(ParseError::InvalidId);
        },
    };
    if fields.len() < 2 || fields[1].0 == fields[1].1 {
        return Err(ParseError::MissingField("name".to_owned()));
    }
    let name = history.substring_char(fields[1].0, fields[1].1).to_owned();
    if fields.len() < 3 || fields[2].0 == fields[2].1 {
        return Err(ParseError::MissingField("operation".to_owned()));
    }
    let operation = history.substring_char(fields[2].0, fields[2].1).to_owned();
    if fields.len() < 4 {
        return Err(ParseError::StockPerabot);
    }
    let stock = match parse_number(&chars, fields[3].0, fields[3].1) {
        Some(stock) => stock,
        None => {
            return Err(ParseError::InvalidId);
        },
    };
    if fields.len() < 5 {
        return Err(ParseError::StockPerabot);
    }
    let time = match Timestamp::parse(history.substring_char(fields[4].0, fields[4].1)) {
        Some(time) => time,
        None => {
            return Err(ParseError::InvalidTime);
        },
    };
    Ok(History { id, name, operation, stock, time })
}

/// Writes the line that `history` is kept in.
pub fn history_line(history: &History) -> (line: String)
    ensures
        line@ == line_of_history(history@),
{
    let mut line = String::new();
    push_number(&mut line, history.id);
    proof {
        reveal_strlit(",");
    }
    line.append(",");
    line.append(history.name.as_str());
    line.append(",");
    line.append(history.operation.as_str());
    line.append(",");
    push_number(&mut line, history.stock);
    line.append(",");
    let time = history.time.text();
    line.append(time.as_str());
    assert(line@ =~= line_of_history(history@));
    line
}

/// The history that the lines of a history file hold: each line that can be
/// read files its event under the event's number, a later line in place of
/// an earlier one; a line that cannot be read is passed over.
pub open spec fn historys_of_lines(lines: Seq<Seq<char>>) -> Map<int, HistoryView>
    decreases lines.len(),
{
    if lines.len() == 0 {
        Map::empty()
    } else {
        let earlier = historys_of_lines(lines.drop_last());
        match history_of_line(lines.last()) {
            Ok(h) => earlier.insert(h.id, h),
            Err(_) => earlier,
        }
    }
}

/// The text of a history file with these events: the heading, then one line
/// for each event, every line closed by a line feed.
pub open spec fn text_of_historys(rows: Seq<HistoryView>) -> Seq<char>
    decreases rows.len(),
{
    if rows.len() == 0 {
        "id,name,operation,stock,time\n"@
    } else {
        text_of_historys(rows.drop_last()) + line_of_history(rows.last()) + seq!['\n']
    }
}

/// The events of `rows` whose operation is exactly `operation`, in the order
/// they come in.
pub open spec fn with_operation(rows: Seq<HistoryView>, operation: Seq<char>) -> Seq<HistoryView>
    decreases rows.len(),
{
    if rows.len() == 0 {
        Seq::empty()
    } else {
        let earlier = with_operation(rows.drop_last(), operation);
        if rows.last().operation == operation {
            earlier.push(rows.last())
        } else {
            earlier
        }
    }
}

/// Read backwards, an ascending listing of a map holds the same entries by
/// descending key.
pub proof fn lemma_reversed_listing(m: Map<int, HistoryView>, rows: Seq<HistoryView>)
    requires
        is_listing::<History>(m, rows),
    ensures
        descending::<History>(rows.reverse()),
        holds_exactly::<History>(m, rows.reverse()),
{
    let back = rows.reverse();
    assert forall|i: int, j: int| 0 <= i < j < back.len() implies History::key_of(back[i])
        > History::key_of(back[j]) by {
        assert(back[i] == rows[rows.len() - 1 - i]);
        assert(back[j] == rows[rows.len() - 1 - j]);
    }
    assert forall|i: int| 0 <= i < back.len() implies m.dom().contains(
        History::key_of(#[trigger] back[i]),
    ) && m[History::key_of(back[i])] == back[i] by {
        assert(back[i] == rows[rows.len() - 1 - i]);
    }
    assert forall|k: int| #[trigger] m.dom().contains(k) implies exists|i: int|
        0 <= i < back.len() && History::key_of(#[trigger] back[i]) == k by {
        let at = choose|at: int| 0 <= at < rows.len() && History::key_of(#[trigger] rows[at]) == k;
        assert(back[rows.len() - 1 - at] == rows[at]);
        assert(History::key_of(back[rows.len() - 1 - at]) == k);
    }
}

/// The history: at most one event under each number.
pub struct Historys {
    inner: Table<History>,
}

impl View for Historys {
    type V = Map<int, HistoryView>;

    closed spec fn view(&self) -> Map<int, HistoryView> {
        self.inner@
    }
}

impl Historys {
    /// The empty history.
    pub fn new() -> (historys: Self)
        ensures
            historys@ == Map::<int, HistoryView>::empty(),
    {
        Historys { inner: Table::new() }
    }

    /// Files `history` under its number, in place of the event that was
    /// there if there was one.
    pub fn add(&mut self, history: History)
        ensures
            final(self)@ == old(self)@.insert(history.id as int, history@),
    {
        self.inner.insert(history);
    }

    /// The events by descending number: the newest first.
    pub fn into_vec(self) -> (historys: Vec<History>)
        ensures
            descending::<History>(contents(historys@)),
            holds_exactly::<History>(self@, contents(historys@)),
            keyed::<History>(self@),
            self@.dom().finite(),
    {
        let mut rows = self.inner.into_rows();
        let ghost listed = contents(rows@);
        let ghost whole = rows@;
        let mut historys: Vec<History> = Vec::new();
        while rows.len() > 0
            invariant
                rows.len() + historys.len() == whole.len(),
                rows@ == whole.take(rows.len() as int),
                listed == contents(whole),
                forall|i: int|
                    0 <= i < historys.len() ==> (#[trigger] historys[i])@ == listed[whole.len() - 1
                        - i],
            decreases rows.len(),
        {
            let ghost n = rows.len() as int;
            assert(rows[n - 1] == whole[n - 1]);
            match rows.pop() {
                Some(history) => {
                    historys.push(history);
                },
                None => {},
            }
            assert(rows@ =~= whole.take(n - 1));
        }
        proof {
            assert(contents(historys@) =~= listed.reverse());
            lemma_reversed_listing(self@, listed);
        }
        historys
    }

    /// Of every history: each event sits under its own number, the numbers
    /// fit in 64 bits, and the events are finitely many.
    pub proof fn lemma_view(&self)
        ensures
            keyed::<History>(self@),
            self@.dom().finite(),
            forall|k: int| #[trigger] self@.dom().contains(k) ==> i64::MIN <= k <= i64::MAX,
    {
        self.inner.lemma_view();
        assert forall|k: int| #[trigger] self@.dom().contains(k) implies i64::MIN <= k
            <= i64::MAX by {
            let row = choose|row: History| History::key_of(#[trigger] row@) == k;
            assert(row@.id == row.id as int);
        }
    }

    /// Whether no number is left for a new event.
    pub fn is_full(&self) -> (full: bool)
        ensures
            full == (next_key(self@) > i64::MAX),
    {
        self.inner.is_full()
    }

    /// The number for the next new event: one more than the greatest number
    /// in use, or 1 for the empty history.
    pub fn next_id(&self) -> (id: i64)
        requires
            next_key(self@) <= i64::MAX,
        ensures
            id == next_key(self@),
            !self@.dom().contains(id as int),
    {
        self.inner.next_id()
    }
}

/// Reads a history file: every line that holds an event files it under the
/// event's number; the heading and every other line that cannot be read are
/// passed over.
pub fn parse_historys(historys: String) -> (loaded: Historys)
    ensures
        loaded@ == historys_of_lines(split(historys@, '\n')),
{
    let text = historys.as_str();
    let chars = to_chars(text);
    let lines = split_ranges(&chars, 0, chars.len(), '\n');
    assert(chars@.subrange(0, chars.len() as int) =~= historys@);
    let ghost all = split(historys@, '\n');
    let mut loaded = Historys::new();
    let mut i: usize = 0;
    assert(all.take(0) =~= Seq::<Seq<char>>::empty());
    while i < lines.len()
        invariant
            i <= lines.len(),
            chars@ == text@,
            text@ == historys@,
            all == split(historys@, '\n'),
            lines.len() == all.len(),
            forall|k: int|
                0 <= k < lines.len() ==> 0 <= (#[trigger] lines[k]).0 <= lines[k].1 <= chars.len()
                    && chars@.subrange(lines[k].0 as int, lines[k].1 as int) == all[k],
            loaded@ == historys_of_lines(all.take(i as int)),
        decreases lines.len() - i,
    {
        let line = text.substring_char(lines[i].0, lines[i].1);
        proof {
            assert(all.take(i + 1).drop_last() =~= all.take(i as int));
            assert(all.take(i + 1).last() == all[i as int]);
        }
        match parse_history(line) {
            Ok(history) => {
                loaded.add(history);
            },
            Err(_) => {},
        }
        i = i + 1;
    }
    assert(all.take(i as int) =~= all);
    loaded
}

/// Writes a history file with these events: the heading, then one line for
/// each event in the order given.
pub fn historys_text(historys: &Vec<History>) -> (text: String)
    ensures
        text@ == text_of_historys(contents(historys@)),
{
    let ghost c = contents(historys@);
    let mut text = "id,name,operation,stock,time\n".to_owned();
    let mut i: usize = 0;
    assert(c.take(0) =~= Seq::<HistoryView>::empty());
    proof {
        reveal_strlit("\n");
    }
    while i < historys.len()
        invariant
            i <= historys.len(),
            c == contents(historys@),
            "\n"@ == seq!['\n'],
            text@ == text_of_historys(c.take(i as int)),
        decreases historys.len() - i,
    {
        proof {
            assert(c.take(i + 1).drop_last() =~= c.take(i as int));
            assert(c.take(i + 1).last() == historys[i as int]@);
        }
        let line = history_line(&historys[i]);
        text.append(line.as_str());
        text.append("\n");
        i = i + 1;
    }
    assert(c.take(i as int) =~= c);
    text
}

/// The events whose operation is exactly `opsi`, in the order they come in.
pub fn filter_history(historys: Vec<History>, opsi: String) -> (chosen: Vec<History>)
    ensures
        contents(chosen@) == with_operation(contents(historys@), opsi@),
{
    let ghost c = contents(historys@);
    let mut rest = historys;
    let mut backwards: Vec<History> = Vec::new();
    proof {
        assert(rest@ =~= historys@.take(rest.len() as int));
        assert(c.take(rest.len() as int) =~= c);
        assert(contents(backwards@).reverse() =~= Seq::<HistoryView>::empty());
        assert(with_operation(c, opsi@) + Seq::<HistoryView>::empty() =~= with_operation(
            c,
            opsi@,
        ));
    }
    // Taken from the end, so that what is chosen comes out backwards.
    while rest.len() > 0
        invariant
            rest.len() <= historys.len(),
            rest@ == historys@.take(rest.len() as int),
            c == contents(historys@),
            with_operation(c, opsi@) == with_operation(c.take(rest.len() as int), opsi@)
                + contents(backwards@).reverse(),
        decreases rest.len(),
    {
        let ghost n = rest.len() as int;
        let ghost before = contents(backwards@);
        assert(rest[n - 1] == historys[n - 1]);
        match rest.pop() {
            Some(history) => {
                proof {
                    assert(c.take(n).drop_last() =~= c.take(n - 1));
                    assert(c.take(n).last() == history@);
                }
                if history.operation == opsi {
                    backwards.push(history);
                    proof {
                        let after = contents(backwards@);
                        assert(after =~= before.push(history@));
                        assert(after.reverse() =~= seq![history@] + before.reverse());
                        assert(with_operation(c.take(n - 1), opsi@).push(history@)
                            + before.reverse() =~= with_operation(c.take(n - 1), opsi@)
                            + after.reverse());
                    }
                }
            },
            None => {},
        }
        assert(rest@ =~= historys@.take(n - 1));
    }
    assert(c.take(0) =~= Seq::<HistoryView>::empty());
    let ghost turned = contents(backwards@);
    let mut chosen: Vec<History> = Vec::new();
    while backwards.len() > 0
        invariant
            backwards.len() + chosen.len() == turned.len(),
            contents(backwards@) == turned.take(backwards.len() as int),
            forall|i: int|
                0 <= i < chosen.len() ==> (#[trigger] chosen[i])@ == turned[turned.len() - 1 - i],
        decreases backwards.len(),
    {
        let ghost n = backwards.len() as int;
        let ghost last = backwards[n - 1]@;
        assert(contents(backwards@)[n - 1] == last);
        match backwards.pop() {
            Some(history) => {
                chosen.push(history);
            },
            None => {},
        }
        assert(contents(backwards@) =~= turned.take(n - 1));
    }
    assert(contents(chosen@) =~= turned.reverse());
    assert(with_operation(c, opsi@) =~= turned.reverse());
    chosen
}

} // verus!
