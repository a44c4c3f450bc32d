//! What holds of the library as a whole: lines that are read and written
//! back, numbers that stock-ins give out, the numbers after a delete, and the
//! order of the history.

use crate::command::after_masuk;
use crate::error::ParseErrorView;
use crate::history::{
    history_of_line, historys_of_lines, line_of_history, text_of_historys, with_operation, History,
    HistoryView,
};
use crate::perabot::{line_of_perabot, perabot_of_line, Perabot, PerabotView};
use crate::perabots::{
    compacted, first_match, is_first_match, perabots_of_lines, text_of_perabots, with_id,
};
use crate::table::{descending, is_last_key, keyed, next_key, Record};
use crate::text::{
    decimal, free_of, is_canonical_number, is_digit, join, lemma_canonical_is_written_back,
    lemma_decimal_is_plain, lemma_decimal_is_read_back, lemma_join_split, lemma_run_len,
    lemma_split_join, number_value, split,
};
use crate::timestamp::{text_of_time, time_of_text, TimestampView};
use vstd::prelude::*;

verus! {

/// A stock line as it is written: exactly three fields, a name that is not
/// empty, and both numbers in their shortest form.
pub open spec fn well_formed_perabot_line(line: Seq<char>) -> bool {
    let fields = split(line, ',');
    &&& fields.len() == 3
    &&& is_canonical_number(fields[0])
    &&& fields[1].len() > 0
    &&& is_canonical_number(fields[2])
}

/// An item that a stock line can hold: numbers of 64 bits and a name that is
/// not empty and has no comma.
pub open spec fn writable_perabot(p: PerabotView) -> bool {
    &&& i64::MIN <= p.id <= i64::MAX
    &&& i64::MIN <= p.stock <= i64::MAX
    &&& p.name.len() > 0
    &&& free_of(p.name, ',')
}

/// A time field as it is written: one that holds a time which is written as
/// that very field.
pub open spec fn well_formed_time(field: Seq<char>) -> bool {
    time_of_text(field) matches Some(time) && text_of_time(time) == field
}

/// A history line as it is written: exactly five fields, a name and an
/// operation that are not empty, both numbers in their shortest form, and a
/// time field as it is written.
pub open spec fn well_formed_history_line(line: Seq<char>) -> bool {
    let fields = split(line, ',');
    &&& fields.len() == 5
    &&& is_canonical_number(fields[0])
    &&& fields[1].len() > 0
    &&& fields[2].len() > 0
    &&& is_canonical_number(fields[3])
    &&& well_formed_time(fields[4])
}

/// An event that a history line can hold: numbers of 64 bits, a name and an
/// operation that are not empty and have no comma, and a time whose field has
/// no comma and is read back as that time.
pub open spec fn writable_history(h: HistoryView) -> bool {
    &&& i64::MIN <= h.id <= i64::MAX
    &&& i64::MIN <= h.stock <= i64::MAX
    &&& h.name.len() > 0
    &&& free_of(h.name, ',')
    &&& h.operation.len() > 0
    &&& free_of(h.operation, ',')
    &&& free_of(text_of_time(h.time), ',')
    &&& time_of_text(text_of_time(h.time)) == Some(h.time)
}

/// Three pieces joined are the pieces with the separator between them.
proof fn lemma_join_three(parts: Seq<Seq<char>>, sep: char)
    requires
        parts.len() == 3,
    ensures
        join(parts, sep) == parts[0] + seq![sep] + parts[1] + seq![sep] + parts[2],
{
    reveal_with_fuel(join, 4);
    let p1 = parts.skip(1);
    let p2 = p1.skip(1);
    assert(p1[0] == parts[1]);
    assert(p2[0] == parts[2]);
    assert(join(p2, sep) == parts[2]);
    assert(join(p1, sep) == parts[1] + seq![sep] + parts[2]);
    assert(join(parts, sep) =~= parts[0] + seq![sep] + parts[1] + seq![sep] + parts[2]);
}

/// Reading a well-formed stock line and writing the item gives the line
/// back.
pub proof fn law_perabot_line_is_written_back(line: Seq<char>)
    requires
        well_formed_perabot_line(line),
    ensures
        perabot_of_line(line) is Ok,
        line_of_perabot(perabot_of_line(line)->Ok_0) == line,
{
    let fields = split(line, ',');
    lemma_join_split(line, ',');
    lemma_join_three(fields, ',');
    lemma_canonical_is_written_back(fields[0]);
    lemma_canonical_is_written_back(fields[2]);
}

/// Writing an item and reading the line gives the item back.
pub proof fn law_perabot_is_read_back(p: PerabotView)
    requires
        writable_perabot(p),
    ensures
        perabot_of_line(line_of_perabot(p)) == Ok::<PerabotView, ParseErrorView>(p),
        well_formed_perabot_line(line_of_perabot(p)),
{
    let parts = seq![decimal(p.id), p.name, decimal(p.stock)];
    let line = line_of_perabot(p);
    lemma_decimal_is_plain(p.id);
    lemma_decimal_is_plain(p.stock);
    lemma_decimal_is_read_back(p.id);
    lemma_decimal_is_read_back(p.stock);
    lemma_join_three(parts, ',');
    assert(join(parts, ',') == line);
    assert forall|i: int| 0 <= i < parts.len() implies free_of(#[trigger] parts[i], ',') by {}
    lemma_split_join(parts, ',');
    let fields = split(line, ',');
    assert(fields == parts);
    assert(fields[0] == decimal(p.id));
    assert(fields[1] == p.name);
    assert(fields[2] == decimal(p.stock));
}

/// Reading a well-formed history line and writing the event gives the line
/// back.
pub proof fn law_history_line_is_written_back(line: Seq<char>)
    requires
        well_formed_history_line(line),
    ensures
        history_of_line(line) is Ok,
        line_of_history(history_of_line(line)->Ok_0) == line,
{
    let fields = split(line, ',');
    lemma_join_split(line, ',');
    lemma_join_five(fields, ',');
    lemma_canonical_is_written_back(fields[0]);
    lemma_canonical_is_written_back(fields[3]);
}

/// Five pieces joined are the pieces with the separator between them.
proof fn lemma_join_five(parts: Seq<Seq<char>>, sep: char)
    requires
        parts.len() == 5,
    ensures
        join(parts, sep) == parts[0] + seq![sep] + parts[1] + seq![sep] + parts[2] + seq![sep]
            + parts[3] + seq![sep] + parts[4],
{
    reveal_with_fuel(join, 6);
    let p1 = parts.skip(1);
    let p2 = p1.skip(1);
    let p3 = p2.skip(1);
    let p4 = p3.skip(1);
    assert(p1[0] == parts[1]);
    assert(p2[0] == parts[2]);
    assert(p3[0] == parts[3]);
    assert(p4[0] == parts[4]);
    assert(join(p4, sep) == parts[4]);
    assert(join(p3, sep) == parts[3] + seq![sep] + parts[4]);
    assert(join(p2, sep) == parts[2] + seq![sep] + join(p3, sep));
    assert(join(p1, sep) == parts[1] + seq![sep] + join(p2, sep));
    assert(join(parts, sep) =~= parts[0] + seq![sep] + parts[1] + seq![sep] + parts[2] + seq![sep]
        + parts[3] + seq![sep] + parts[4]);
}

/// Writing an event and reading the line gives the event back.
pub proof fn law_history_is_read_back(h: HistoryView)
    requires
        writable_history(h),
    ensures
        history_of_line(line_of_history(h)) == Ok::<HistoryView, ParseErrorView>(h),
{
    let parts = seq![decimal(h.id), h.name, h.operation, decimal(h.stock), text_of_time(h.time)];
    let line = line_of_history(h);
    lemma_decimal_is_plain(h.id);
    lemma_decimal_is_plain(h.stock);
    lemma_decimal_is_read_back(h.id);
    lemma_decimal_is_read_back(h.stock);
    lemma_join_five(parts, ',');
    assert(join(parts, ',') == line);
    assert forall|i: int| 0 <= i < parts.len() implies free_of(#[trigger] parts[i], ',') by {}
    lemma_split_join(parts, ',');
    let fields = split(line, ',');
    assert(fields == parts);
    assert(fields[0] == decimal(h.id));
    assert(fields[1] == h.name);
    assert(fields[2] == h.operation);
    assert(fields[3] == decimal(h.stock));
    assert(fields[4] == text_of_time(h.time));
}

/// The text of a file: the heading and each line, every one closed by a line
/// feed.
pub open spec fn file_text(heading: Seq<char>, lines: Seq<Seq<char>>) -> Seq<char>
    decreases lines.len(),
{
    if lines.len() == 0 {
        heading + seq!['\n']
    } else {
        file_text(heading, lines.drop_last()) + lines.last() + seq!['\n']
    }
}

/// Joining one more piece puts the separator and the piece at the end.
proof fn lemma_join_push(parts: Seq<Seq<char>>, piece: Seq<char>, sep: char)
    requires
        parts.len() >= 1,
    ensures
        join(parts.push(piece), sep) == join(parts, sep) + seq![sep] + piece,
    decreases parts.len(),
{
    let longer = parts.push(piece);
    assert(longer[0] == parts[0]);
    if parts.len() == 1 {
        assert(longer.skip(1) =~= seq![piece]);
        assert(join(longer.skip(1), sep) == piece);
    } else {
        assert(longer.skip(1) =~= parts.skip(1).push(piece));
        lemma_join_push(parts.skip(1), piece, sep);
        assert(join(longer, sep) =~= join(parts, sep) + seq![sep] + piece);
    }
}

/// The text of a file is its heading and lines joined by line feeds, with
/// one more line feed at the end.
proof fn lemma_file_text_is_joined(heading: Seq<char>, lines: Seq<Seq<char>>)
    ensures
        file_text(heading, lines) == join(seq![heading] + lines, '\n') + seq!['\n'],
    decreases lines.len(),
{
    if lines.len() == 0 {
        assert(seq![heading] + lines =~= seq![heading]);
    } else {
        let shorter = lines.drop_last();
        lemma_file_text_is_joined(heading, shorter);
        assert(seq![heading] + lines =~= (seq![heading] + shorter).push(lines.last()));
        lemma_join_push(seq![heading] + shorter, lines.last(), '\n');
        assert(file_text(heading, lines) =~= join(seq![heading] + lines, '\n') + seq!['\n']);
    }
}

/// The lines of a file's text, where neither the heading nor a line holds a
/// line feed: the heading, the lines, and an empty line after the last line
/// feed.
pub proof fn lemma_lines_of_file_text(heading: Seq<char>, lines: Seq<Seq<char>>)
    requires
        free_of(heading, '\n'),
        forall|i: int| 0 <= i < lines.len() ==> free_of(#[trigger] lines[i], '\n'),
    ensures
        split(file_text(heading, lines), '\n') == (seq![heading] + lines).push(Seq::empty()),
{
    let parts = seq![heading] + lines;
    let all = parts.push(Seq::<char>::empty());
    lemma_file_text_is_joined(heading, lines);
    lemma_join_push(parts, Seq::<char>::empty(), '\n');
    assert(join(all, '\n') =~= file_text(heading, lines));
    assert forall|i: int| 0 <= i < all.len() implies free_of(#[trigger] all[i], '\n') by {
        if 1 <= i < parts.len() {
            assert(all[i] == lines[i - 1]);
        }
    }
    lemma_split_join(all, '\n');
}

/// A line that begins with `id,` holds no number in its first field.
proof fn lemma_heading_has_no_number(line: Seq<char>)
    requires
        line.len() > 2,
        line[0] == 'i',
        line[1] == 'd',
        line[2] == ',',
    ensures
        number_value(split(line, ',')[0]) is None,
{
    lemma_run_len(line, ',', 2);
    let field = split(line, ',')[0];
    assert(field =~= line.take(2));
    assert(!is_digit(field[0]));
}

/// The lines that the items `rows` are written as.
pub open spec fn perabot_lines(rows: Seq<PerabotView>) -> Seq<Seq<char>> {
    Seq::new(rows.len(), |i: int| line_of_perabot(rows[i]))
}

/// The lines that the events `rows` are written as.
pub open spec fn history_lines(rows: Seq<HistoryView>) -> Seq<Seq<char>> {
    Seq::new(rows.len(), |i: int| line_of_history(rows[i]))
}

/// The inventory that holds `rows`, each under its own number, a later one
/// in place of an earlier one.
pub open spec fn perabots_of_rows(rows: Seq<PerabotView>) -> Map<int, PerabotView>
    decreases rows.len(),
{
    if rows.len() == 0 {
        Map::empty()
    } else {
        perabots_of_rows(rows.drop_last()).insert(rows.last().id, rows.last())
    }
}

/// The history that holds `rows`, each under its own number, a later one in
/// place of an earlier one.
pub open spec fn historys_of_rows(rows: Seq<HistoryView>) -> Map<int, HistoryView>
    decreases rows.len(),
{
    if rows.len() == 0 {
        Map::empty()
    } else {
        historys_of_rows(rows.drop_last()).insert(rows.last().id, rows.last())
    }
}

/// The text of a stock file is its heading and the lines of its items.
proof fn lemma_text_of_perabots(rows: Seq<PerabotView>)
    ensures
        text_of_perabots(rows) == file_text("id,name,stock"@, perabot_lines(rows)),
    decreases rows.len(),
{
    if rows.len() == 0 {
        reveal_strlit("id,name,stock");
        reveal_strlit("id,name,stock\n");
        assert("id,name,stock\n"@ =~= "id,name,stock"@ + seq!['\n']);
    } else {
        lemma_text_of_perabots(rows.drop_last());
        assert(perabot_lines(rows).drop_last() =~= perabot_lines(rows.drop_last()));
    }
}

/// The text of a history file is its heading and the lines of its events.
proof fn lemma_text_of_historys(rows: Seq<HistoryView>)
    ensures
        text_of_historys(rows) == file_text("id,name,operation,stock,time"@, history_lines(rows)),
    decreases rows.len(),
{
    if rows.len() == 0 {
        reveal_strlit("id,name,operation,stock,time");
        reveal_strlit("id,name,operation,stock,time\n");
        assert("id,name,operation,stock,time\n"@ =~= "id,name,operation,stock,time"@ + seq![
            '\n',
        ]);
    } else {
        lemma_text_of_historys(rows.drop_last());
        assert(history_lines(rows).drop_last() =~= history_lines(rows.drop_last()));
    }
}

/// Reading the heading and the lines of items gives the items.
proof fn lemma_perabots_of_written_lines(rows: Seq<PerabotView>)
    requires
        forall|i: int| 0 <= i < rows.len() ==> writable_perabot(#[trigger] rows[i]),
    ensures
        perabots_of_lines(seq!["id,name,stock"@] + perabot_lines(rows)) == perabots_of_rows(rows),
    decreases rows.len(),
{
    let heading = "id,name,stock"@;
    let lines = seq![heading] + perabot_lines(rows);
    if rows.len() == 0 {
        reveal_strlit("id,name,stock");
        lemma_heading_has_no_number(heading);
        assert(lines =~= seq![heading]);
        assert(lines.drop_last() =~= Seq::<Seq<char>>::empty());
        assert(perabots_of_lines(lines.drop_last()) == Map::<int, PerabotView>::empty());
    } else {
        let shorter = rows.drop_last();
        lemma_perabots_of_written_lines(shorter);
        assert(lines.drop_last() =~= seq![heading] + perabot_lines(shorter));
        assert(lines.last() == line_of_perabot(rows.last()));
        law_perabot_is_read_back(rows.last());
    }
}

/// Reading the heading and the lines of events gives the events.
proof fn lemma_historys_of_written_lines(rows: Seq<HistoryView>)
    requires
        forall|i: int| 0 <= i < rows.len() ==> writable_history(#[trigger] rows[i]),
    ensures
        historys_of_lines(seq!["id,name,operation,stock,time"@] + history_lines(rows))
            == historys_of_rows(rows),
    decreases rows.len(),
{
    let heading = "id,name,operation,stock,time"@;
    let lines = seq![heading] + history_lines(rows);
    if rows.len() == 0 {
        reveal_strlit("id,name,operation,stock,time");
        lemma_heading_has_no_number(heading);
        assert(lines =~= seq![heading]);
        assert(lines.drop_last() =~= Seq::<Seq<char>>::empty());
        assert(historys_of_lines(lines.drop_last()) == Map::<int, HistoryView>::empty());
    } else {
        let shorter = rows.drop_last();
        lemma_historys_of_written_lines(shorter);
        assert(lines.drop_last() =~= seq![heading] + history_lines(shorter));
        assert(lines.last() == line_of_history(rows.last()));
        law_history_is_read_back(rows.last());
    }
}

/// Writing a stock file and reading it gives the items back, where every
/// item can be held by a line and no name holds a line feed.
pub proof fn law_stock_file_is_read_back(rows: Seq<PerabotView>)
    requires
        forall|i: int|
            0 <= i < rows.len() ==> writable_perabot(#[trigger] rows[i]) && free_of(
                rows[i].name,
                '\n',
            ),
    ensures
        perabots_of_lines(split(text_of_perabots(rows), '\n')) == perabots_of_rows(rows),
{
    let heading = "id,name,stock"@;
    let lines = perabot_lines(rows);
    reveal_strlit("id,name,stock");
    assert forall|i: int| 0 <= i < lines.len() implies free_of(#[trigger] lines[i], '\n') by {
        lemma_decimal_is_plain(rows[i].id);
        lemma_decimal_is_plain(rows[i].stock);
        assert(writable_perabot(rows[i]));
    }
    lemma_text_of_perabots(rows);
    lemma_lines_of_file_text(heading, lines);
    lemma_perabots_of_written_lines(rows);
    let read = (seq![heading] + lines).push(Seq::<char>::empty());
    assert(read.drop_last() =~= seq![heading] + lines);
    assert(split(Seq::<char>::empty(), ',')[0] =~= Seq::<char>::empty());
}

/// Writing a history file and reading it gives the events back, where every
/// event can be held by a line and no name, operation or time field holds a
/// line feed.
pub proof fn law_history_file_is_read_back(rows: Seq<HistoryView>)
    requires
        forall|i: int|
            0 <= i < rows.len() ==> writable_history(#[trigger] rows[i]) && free_of(
                rows[i].name,
                '\n',
            ) && free_of(rows[i].operation, '\n') && free_of(text_of_time(rows[i].time), '\n'),
    ensures
        historys_of_lines(split(text_of_historys(rows), '\n')) == historys_of_rows(rows),
{
    let heading = "id,name,operation,stock,time"@;
    let lines = history_lines(rows);
    reveal_strlit("id,name,operation,stock,time");
    assert forall|i: int| 0 <= i < lines.len() implies free_of(#[trigger] lines[i], '\n') by {
        lemma_decimal_is_plain(rows[i].id);
        lemma_decimal_is_plain(rows[i].stock);
        assert(writable_history(rows[i]));
    }
    lemma_text_of_historys(rows);
    lemma_lines_of_file_text(heading, lines);
    lemma_historys_of_written_lines(rows);
    let read = (seq![heading] + lines).push(Seq::<char>::empty());
    assert(read.drop_last() =~= seq![heading] + lines);
    assert(split(Seq::<char>::empty(), ',')[0] =~= Seq::<char>::empty());
}

/// The inventory holds exactly the numbers from 1 to `n`, each item under
/// its own number.
pub open spec fn dense(m: Map<int, PerabotView>, n: int) -> bool {
    &&& forall|k: int| #[trigger] m.dom().contains(k) <==> 1 <= k <= n
    &&& keyed::<Perabot>(m)
}

/// The inventory after the stock-ins `ops`, each a name and a quantity, on
/// the empty inventory.
pub open spec fn after_stock_ins(ops: Seq<(Seq<char>, int)>) -> Map<int, PerabotView>
    decreases ops.len(),
{
    if ops.len() == 0 {
        Map::empty()
    } else {
        after_masuk(after_stock_ins(ops.drop_last()), ops.last().0, ops.last().1)
    }
}

/// The next number of an inventory with the numbers from 1 to `n` is
/// `n + 1`.
pub proof fn lemma_next_key_of_dense(m: Map<int, PerabotView>, n: int)
    requires
        n >= 0,
        dense(m, n),
    ensures
        next_key(m) == n + 1,
        !m.dom().contains(next_key(m)),
{
    if n >= 1 {
        assert(m.dom().contains(n));
        assert(is_last_key(m, n));
        let chosen = choose|k: int| is_last_key(m, k);
        assert(m.dom().contains(chosen));
        assert(chosen == n);
    } else {
        assert forall|k: int| !is_last_key(m, k) by {
            assert(!m.dom().contains(k));
        }
    }
}

/// After any stock-ins on the empty inventory the numbers in use are those
/// from 1 up to some `n`, and the next number is `n + 1`: one more than the
/// greatest in use, and in use by no item.
pub proof fn law_stock_ins_number_densely(ops: Seq<(Seq<char>, int)>)
    ensures
        next_key(after_stock_ins(ops)) >= 1,
        next_key(after_stock_ins(ops)) <= ops.len() + 1,
        dense(after_stock_ins(ops), next_key(after_stock_ins(ops)) - 1),
        !after_stock_ins(ops).dom().contains(next_key(after_stock_ins(ops))),
    decreases ops.len(),
{
    let m = after_stock_ins(ops);
    if ops.len() == 0 {
        assert(dense(m, 0));
        lemma_next_key_of_dense(m, 0);
    } else {
        let before = after_stock_ins(ops.drop_last());
        law_stock_ins_number_densely(ops.drop_last());
        let n = next_key(before) - 1;
        let name = ops.last().0;
        let stock = ops.last().1;
        match first_match(before, name, false) {
            Some(id) => {
                assert(is_first_match(before, id, name, false));
                assert(before.dom().contains(id));
                assert(dense(m, n)) by {
                    assert forall|k: int| #[trigger] m.dom().contains(k) <==> 1 <= k <= n by {
                        assert(before.dom().contains(k) <==> 1 <= k <= n);
                    }
                    assert forall|k: int| #[trigger] m.dom().contains(k) implies Perabot::key_of(
                        m[k],
                    ) == k by {
                        assert(before.dom().contains(k));
                    }
                }
                lemma_next_key_of_dense(m, n);
            },
            None => {
                assert(dense(m, n + 1)) by {
                    assert forall|k: int| #[trigger] m.dom().contains(k) <==> 1 <= k <= n + 1 by {
                        assert(before.dom().contains(k) <==> 1 <= k <= n);
                    }
                    assert forall|k: int| #[trigger] m.dom().contains(k) implies Perabot::key_of(
                        m[k],
                    ) == k by {
                        if k != n + 1 {
                            assert(before.dom().contains(k));
                        }
                    }
                }
                lemma_next_key_of_dense(m, n + 1);
            },
        }
    }
}

/// Deleting the item numbered `k` from an inventory with the numbers from 1
/// to `n` leaves the numbers from 1 to `n - 1`: the items below `k` as they
/// were, each item above `k` under the number one less.
pub proof fn law_delete_closes_the_gap(m: Map<int, PerabotView>, n: int, k: int)
    requires
        dense(m, n),
        1 <= k <= n,
    ensures
        dense(compacted(m.remove(k), k), n - 1),
        forall|j: int| 1 <= j < k ==> #[trigger] compacted(m.remove(k), k)[j] == m[j],
        forall|j: int|
            k < j <= n ==> compacted(m.remove(k), k)[j - 1] == with_id(#[trigger] m[j], j - 1),
{
    let gone = m.remove(k);
    let after = compacted(gone, k);
    assert forall|j: int| #[trigger] after.dom().contains(j) <==> 1 <= j <= n - 1 by {
        assert(m.dom().contains(j) <==> 1 <= j <= n);
        assert(m.dom().contains(j + 1) <==> 1 <= j + 1 <= n);
    }
    assert forall|j: int| #[trigger] after.dom().contains(j) implies Perabot::key_of(after[j])
        == j by {
        assert(m.dom().contains(j) <==> 1 <= j <= n);
        assert(m.dom().contains(j + 1) <==> 1 <= j + 1 <= n);
    }
    assert forall|j: int| 1 <= j < k implies #[trigger] after[j] == m[j] by {
        assert(m.dom().contains(j));
    }
    assert forall|j: int| k < j <= n implies after[j - 1] == with_id(#[trigger] m[j], j - 1) by {
        assert(m.dom().contains(j));
        assert(gone.dom().contains(j - 1 + 1));
    }
}

/// Choosing the events of one operation keeps the order they come in: of
/// events listed newest first, the chosen ones are listed newest first. Every
/// chosen event has exactly that operation and is one of the events, and
/// every event of that operation is chosen.
pub proof fn law_filter_keeps_the_order(rows: Seq<HistoryView>, operation: Seq<char>)
    ensures
        forall|i: int|
            0 <= i < with_operation(rows, operation).len() ==> (#[trigger] with_operation(
                rows,
                operation,
            )[i]).operation == operation && rows.contains(with_operation(rows, operation)[i]),
        forall|i: int|
            0 <= i < rows.len() && (#[trigger] rows[i]).operation == operation
                ==> with_operation(rows, operation).contains(rows[i]),
        descending::<History>(rows) ==> descending::<History>(with_operation(rows, operation)),
        with_operation(rows, operation).len() <= rows.len(),
    decreases rows.len(),
{
    let chosen = with_operation(rows, operation);
    if rows.len() > 0 {
        let shorter = rows.drop_last();
        let earlier = with_operation(shorter, operation);
        law_filter_keeps_the_order(shorter, operation);
        let last = rows.last();
        assert forall|i: int| 0 <= i < chosen.len() implies (#[trigger] chosen[i]).operation
            == operation && rows.contains(chosen[i]) by {
            if i < earlier.len() {
                assert(chosen[i] == earlier[i]);
                assert(shorter.contains(earlier[i]));
                let at = choose|at: int| 0 <= at < shorter.len() && shorter[at] == earlier[i];
                assert(rows[at] == chosen[i]);
            } else {
                assert(chosen[i] == last);
                assert(rows[rows.len() - 1] == last);
            }
        }
        assert forall|i: int| 0 <= i < rows.len() && (#[trigger] rows[i]).operation
            == operation implies chosen.contains(rows[i]) by {
            if i < shorter.len() {
                assert(shorter[i] == rows[i]);
                assert(earlier.contains(shorter[i]));
                let at = choose|at: int| 0 <= at < earlier.len() && earlier[at] == rows[i];
                assert(chosen[at] == rows[i]);
            } else {
                assert(chosen[chosen.len() - 1] == rows[i]);
            }
        }
        if descending::<History>(rows) {
            assert(descending::<History>(shorter)) by {
                assert forall|i: int, j: int| 0 <= i < j < shorter.len() implies History::key_of(
                    shorter[i],
                ) > History::key_of(shorter[j]) by {
                    assert(History::key_of(rows[i]) > History::key_of(rows[j]));
                }
            }
            assert forall|i: int, j: int| 0 <= i < j < chosen.len() implies History::key_of(
                chosen[i],
            ) > History::key_of(chosen[j]) by {
                assert(chosen[i] == earlier[i]);
                if j < earlier.len() {
                    assert(chosen[j] == earlier[j]);
                    assert(History::key_of(earlier[i]) > History::key_of(earlier[j]));
                } else {
                    assert(chosen[j] == last);
                    assert(shorter.contains(earlier[i]));
                    let at = choose|at: int| 0 <= at < shorter.len() && shorter[at] == earlier[i];
                    assert(History::key_of(rows[at]) > History::key_of(rows[rows.len() - 1]));
                }
            }
        }
    }
}

} // verus!
