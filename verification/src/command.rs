//! The commands: what each one does to the inventory and what it adds to the
//! history.

use crate::error::{ParseError, ParseErrorView};
use crate::history::{filter_history, with_operation, History, HistoryView, Historys};
use crate::perabot::{Perabot, PerabotView};
use crate::perabots::{
    compacted, deletable, first_match, is_first_match, sellable, with_stock, Perabots,
};
use crate::table::{contents, next_key};
use crate::text::{lowercase, to_lowercase};
use crate::timestamp::{Timestamp, TimestampView};
use vstd::pervasive::unreached;
use vstd::prelude::*;

verus! {

/// What a stock-in did.
#[derive(Debug, Clone, Copy, PartialEq, Eq)]
pub enum Masuk {
    /// The item numbered `id` was there already and now has `total` in stock.
    Bertambah { id: i64, total: i64 },
    /// A new item was made under the number `id`.
    Baru { id: i64 },
}

/// `done` is the failure `e`.
pub open spec fn failed_with<T>(done: Result<T, ParseError>, e: ParseErrorView) -> bool {
    match done {
        Ok(_) => false,
        Err(x) => x@ == e,
    }
}

/// The history `h` with one more event, under the next number.
pub open spec fn logged(
    h: Map<int, HistoryView>,
    name: Seq<char>,
    operation: Seq<char>,
    stock: int,
    time: TimestampView,
) -> Map<int, HistoryView> {
    h.insert(next_key(h), HistoryView { id: next_key(h), name, operation, stock, time })
}

/// The inventory `m` after `stock` of `name` came in: added to the first
/// item of that name, letter case aside, or put down as a new item under the
/// next number.
pub open spec fn after_masuk(m: Map<int, PerabotView>, name: Seq<char>, stock: int) -> Map<
    int,
    PerabotView,
> {
    match first_match(m, name, false) {
        Some(id) => m.insert(id, with_stock(m[id], m[id].stock + stock)),
        None => m.insert(next_key(m), PerabotView { id: next_key(m), name, stock }),
    }
}

/// What a stock-in answers: which item it added to or made.
pub open spec fn masuk_answer(m: Map<int, PerabotView>, name: Seq<char>, stock: int) -> Masuk {
    match first_match(m, name, false) {
        Some(id) => Masuk::Bertambah { id: id as i64, total: (m[id].stock + stock) as i64 },
        None => Masuk::Baru { id: next_key(m) as i64 },
    }
}

/// The numbers that a stock-in writes all fit in 64 bits.
pub open spec fn masuk_fits(
    m: Map<int, PerabotView>,
    h: Map<int, HistoryView>,
    name: Seq<char>,
    stock: int,
) -> bool {
    &&& next_key(h) <= i64::MAX
    &&& match first_match(m, name, false) {
        Some(id) => i64::MIN <= m[id].stock + stock <= i64::MAX,
        None => next_key(m) <= i64::MAX,
    }
}

/// The numbers that a stock-out writes all fit in 64 bits.
pub open spec fn keluar_fits(
    m: Map<int, PerabotView>,
    h: Map<int, HistoryView>,
    name: Seq<char>,
    stock: int,
) -> bool {
    sellable(m, name, stock) matches Ok(id) ==> next_key(h) <= i64::MAX && m[id].stock - stock
        <= i64::MAX
}

/// The number that an edit writes fits in 64 bits.
pub open spec fn edit_fits(m: Map<int, PerabotView>, h: Map<int, HistoryView>, name: Seq<char>) -> bool {
    first_match(m, name, false) is Some ==> next_key(h) <= i64::MAX
}

/// The number that a delete writes fits in 64 bits.
pub open spec fn hapus_fits(m: Map<int, PerabotView>, h: Map<int, HistoryView>, name: Seq<char>) -> bool {
    deletable(m, name) is Ok ==> next_key(h) <= i64::MAX
}

/// What a stock-out leaves behind and answers.
pub open spec fn keluar_effect(
    m: Map<int, PerabotView>,
    h: Map<int, HistoryView>,
    name: Seq<char>,
    stock: int,
    time: TimestampView,
    m2: Map<int, PerabotView>,
    h2: Map<int, HistoryView>,
    done: Result<i64, ParseError>,
) -> bool {
    match sellable(m, name, stock) {
        Ok(id) => done == Ok::<i64, ParseError>((m[id].stock - stock) as i64) && m2 == m.insert(
            id,
            with_stock(m[id], m[id].stock - stock),
        ) && h2 == logged(h, name, "keluar"@, stock, time),
        Err(e) => failed_with(done, e) && m2 == m && h2 == h,
    }
}

/// What an edit leaves behind and answers.
pub open spec fn edit_effect(
    m: Map<int, PerabotView>,
    h: Map<int, HistoryView>,
    name: Seq<char>,
    stock: int,
    time: TimestampView,
    m2: Map<int, PerabotView>,
    h2: Map<int, HistoryView>,
    done: Result<(), ParseError>,
) -> bool {
    match first_match(m, name, false) {
        Some(id) => done is Ok && m2 == m.insert(id, with_stock(m[id], stock)) && h2 == logged(
            h,
            name,
            "edit"@,
            stock,
            time,
        ),
        None => failed_with(done, ParseErrorView::PerabotNotFound(name)) && m2 == m && h2 == h,
    }
}

/// What a delete leaves behind and answers.
pub open spec fn hapus_effect(
    m: Map<int, PerabotView>,
    h: Map<int, HistoryView>,
    name: Seq<char>,
    time: TimestampView,
    m2: Map<int, PerabotView>,
    h2: Map<int, HistoryView>,
    done: Result<(), ParseError>,
) -> bool {
    match deletable(m, name) {
        Ok(id) => done is Ok && m2 == compacted(m.remove(id), id) && h2 == logged(
            h,
            name,
            "hapus"@,
            0,
            time,
        ),
        Err(e) => failed_with(done, e) && m2 == m && h2 == h,
    }
}

/// Adds the event to the history under the next number.
fn log(hiss: &mut Historys, name: &str, operation: &str, stock: i64, time: Timestamp)
    requires
        next_key(old(hiss)@) <= i64::MAX,
    ensures
        final(hiss)@ == logged(old(hiss)@, name@, operation@, stock as int, time@),
{
    let id = hiss.next_id();
    hiss.add(History { id, name: name.to_owned(), operation: operation.to_owned(), stock, time });
}

/// Stock-in: `stock` of `name` comes in. Where an item of that name is on
/// the list, letter case aside, its stock grows; where none is, a new item is
/// made under the next number. Either way the history gets a `masuk` event.
pub fn masuk(pers: &mut Perabots, hiss: &mut Historys, name: &str, stock: i64, time: Timestamp) -> (done:
    Masuk)
    requires
        masuk_fits(old(pers)@, old(hiss)@, name@, stock as int),
    ensures
        final(pers)@ == after_masuk(old(pers)@, name@, stock as int),
        final(hiss)@ == logged(old(hiss)@, name@, "masuk"@, stock as int, time@),
        done == masuk_answer(old(pers)@, name@, stock as int),
{
    let done = match pers.search(name) {
        Some(id) => {
            let total = pers.tambah(id, stock);
            Masuk::Bertambah { id, total }
        },
        None => {
            let id = pers.next_id();
            pers.add(Perabot { id, name: name.to_owned(), stock });
            Masuk::Baru { id }
        },
    };
    log(hiss, name, "masuk", stock, time);
    done
}

/// Stock-out: `stock` of the item named exactly `name` goes out, where the
/// item is on the list and has that much. Then its stock shrinks, the history
/// gets a `keluar` event and the new stock is returned. Else nothing changes
/// and the error says why.
pub fn keluar(pers: &mut Perabots, hiss: &mut Historys, name: &str, stock: i64, time: Timestamp) -> (done:
    Result<i64, ParseError>)
    requires
        keluar_fits(old(pers)@, old(hiss)@, name@, stock as int),
    ensures
        keluar_effect(
            old(pers)@,
            old(hiss)@,
            name@,
            stock as int,
            time@,
            final(pers)@,
            final(hiss)@,
            done,
        ),
{
    match pers.search_stock(name, &stock) {
        Ok(id) => {
            let total = pers.keluar(id, stock);
            log(hiss, name, "keluar", stock, time);
            Ok(total)
        },
        Err(e) => Err(e),
    }
}

/// Edit: the first item named `name`, letter case aside, gets the stock
/// `stock` and keeps its name as it is stored, and the history gets an `edit`
/// event. Where no item has that name nothing changes.
pub fn edit(pers: &mut Perabots, hiss: &mut Historys, name: &str, stock: i64, time: Timestamp) -> (done:
    Result<(), ParseError>)
    requires
        edit_fits(old(pers)@, old(hiss)@, name@),
    ensures
        edit_effect(
            old(pers)@,
            old(hiss)@,
            name@,
            stock as int,
            time@,
            final(pers)@,
            final(hiss)@,
            done,
        ),
{
    match pers.search(name) {
        Some(id) => {
            assert(is_first_match(pers@, id as int, name@, false));
            let stored = match pers.get(id) {
                Some(perabot) => perabot.name.clone(),
                None => unreached(),
            };
            pers.edit(id, stored.as_str(), stock);
            assert(final(pers)@ =~= old(pers)@.insert(
                id as int,
                with_stock(old(pers)@[id as int], stock as int),
            ));
            log(hiss, name, "edit", stock, time);
            Ok(())
        },
        None => Err(ParseError::PerabotNotFound(name.to_owned())),
    }
}

/// Delete: the first item named `name`, letter case aside, leaves the list
/// where it has no stock, the items numbered above it move down by one, and
/// the history gets a `hapus` event. Else nothing changes and the error says
/// why.
pub fn hapus(pers: &mut Perabots, hiss: &mut Historys, name: &str, time: Timestamp) -> (done: Result<
    (),
    ParseError,
>)
    requires
        hapus_fits(old(pers)@, old(hiss)@, name@),
    ensures
        hapus_effect(old(pers)@, old(hiss)@, name@, time@, final(pers)@, final(hiss)@, done),
{
    match pers.search_empty(name) {
        Ok(id) => {
            pers.remove(&id);
            pers.sort_perabots(id);
            log(hiss, name, "hapus", 0, time);
            Ok(())
        },
        Err(e) => Err(e),
    }
}

/// Whether `a + b` fits in 64 bits.
fn sum_fits(a: i64, b: i64) -> (fits: bool)
    ensures
        fits == (i64::MIN <= a + b <= i64::MAX),
{
    let sum: i128 = a as i128 + b as i128;
    -9223372036854775808 <= sum && sum <= 9223372036854775807
}

/// Whether `a - b` fits in 64 bits.
fn difference_fits(a: i64, b: i64) -> (fits: bool)
    ensures
        fits == (i64::MIN <= a - b <= i64::MAX),
{
    let difference: i128 = a as i128 - b as i128;
    -9223372036854775808 <= difference && difference <= 9223372036854775807
}

/// Stock-in, where the numbers it writes fit in 64 bits; where they do not,
/// nothing changes and the answer is `None`.
pub fn try_masuk(pers: &mut Perabots, hiss: &mut Historys, name: &str, stock: i64, time: Timestamp) -> (done:
    Option<Masuk>)
    ensures
        done is Some == masuk_fits(old(pers)@, old(hiss)@, name@, stock as int),
        done matches Some(answer) ==> answer == masuk_answer(old(pers)@, name@, stock as int)
            && final(pers)@ == after_masuk(old(pers)@, name@, stock as int) && final(hiss)@
            == logged(old(hiss)@, name@, "masuk"@, stock as int, time@),
        done is None ==> final(pers)@ == old(pers)@ && final(hiss)@ == old(hiss)@,
{
    if hiss.is_full() {
        return None;
    }
    let fits = match pers.search(name) {
        Some(id) => match pers.get(id) {
            Some(perabot) => sum_fits(perabot.stock, stock),
            None => false,
        },
        None => !pers.is_full(),
    };
    if fits {
        Some(masuk(pers, hiss, name, stock, time))
    } else {
        None
    }
}

/// Stock-out, where the numbers it writes fit in 64 bits; where they do not,
/// nothing changes and the answer is `None`.
pub fn try_keluar(pers: &mut Perabots, hiss: &mut Historys, name: &str, stock: i64, time: Timestamp) -> (done:
    Option<Result<i64, ParseError>>)
    ensures
        done is Some == keluar_fits(old(pers)@, old(hiss)@, name@, stock as int),
        done matches Some(r) ==> keluar_effect(
            old(pers)@,
            old(hiss)@,
            name@,
            stock as int,
            time@,
            final(pers)@,
            final(hiss)@,
            r,
        ),
        done is None ==> final(pers)@ == old(pers)@ && final(hiss)@ == old(hiss)@,
{
    let fits = match pers.search_stock(name, &stock) {
        Ok(id) => match pers.get(id) {
            Some(perabot) => !hiss.is_full() && difference_fits(perabot.stock, stock),
            None => false,
        },
        Err(_) => true,
    };
    if fits {
        Some(keluar(pers, hiss, name, stock, time))
    } else {
        None
    }
}

/// Edit, where the number it writes fits in 64 bits; where it does not,
/// nothing changes and the answer is `None`.
pub fn try_edit(pers: &mut Perabots, hiss: &mut Historys, name: &str, stock: i64, time: Timestamp) -> (done:
    Option<Result<(), ParseError>>)
    ensures
        done is Some == edit_fits(old(pers)@, old(hiss)@, name@),
        done matches Some(r) ==> edit_effect(
            old(pers)@,
            old(hiss)@,
            name@,
            stock as int,
            time@,
            final(pers)@,
            final(hiss)@,
            r,
        ),
        done is None ==> final(pers)@ == old(pers)@ && final(hiss)@ == old(hiss)@,
{
    if pers.search(name).is_some() && hiss.is_full() {
        return None;
    }
    Some(edit(pers, hiss, name, stock, time))
}

/// Delete, where the number it writes fits in 64 bits; where it does not,
/// nothing changes and the answer is `None`.
pub fn try_hapus(pers: &mut Perabots, hiss: &mut Historys, name: &str, time: Timestamp) -> (done: Option<
    Result<(), ParseError>,
>)
    ensures
        done is Some == hapus_fits(old(pers)@, old(hiss)@, name@),
        done matches Some(r) ==> hapus_effect(
            old(pers)@,
            old(hiss)@,
            name@,
            time@,
            final(pers)@,
            final(hiss)@,
            r,
        ),
        done is None ==> final(pers)@ == old(pers)@ && final(hiss)@ == old(hiss)@,
{
    if pers.search_empty(name).is_ok() && hiss.is_full() {
        return None;
    }
    Some(hapus(pers, hiss, name, time))
}

/// What the history command shows.
#[derive(Debug, Clone, PartialEq, Eq)]
pub enum Riwayat {
    /// There is no event at all.
    Kosong,
    /// The operation asked for is none of the four.
    Invalid,
    /// These events, in the order they were given in.
    Isi(Vec<History>),
}

/// `text` names one of the four operations.
pub open spec fn is_operation(text: Seq<char>) -> bool {
    text == "masuk"@ || text == "keluar"@ || text == "edit"@ || text == "hapus"@
}

/// What the history command shows of `rows` for the operation `wanted`,
/// which is already in lower case.
pub open spec fn shown(rows: Seq<HistoryView>, wanted: Option<Seq<char>>) -> Option<Seq<HistoryView>> {
    match wanted {
        None => Some(rows),
        Some(operation) => if is_operation(operation) {
            Some(with_operation(rows, operation))
        } else {
            None
        },
    }
}

/// What the history command shows of `historys`: all of them, or those of
/// the operation `wanted`, which is already in lower case.
pub fn chosen_history(historys: Vec<History>, wanted: Option<String>) -> (riwayat: Riwayat)
    ensures
        historys.len() == 0 ==> riwayat is Kosong,
        historys.len() > 0 ==> match shown(
            contents(historys@),
            match wanted {
                Some(w) => Some(w@),
                None => None,
            },
        ) {
            Some(rows) => riwayat matches Riwayat::Isi(chosen) && contents(chosen@) == rows,
            None => riwayat is Invalid,
        },
{
    if historys.len() == 0 {
        return Riwayat::Kosong;
    }
    match wanted {
        None => Riwayat::Isi(historys),
        Some(operation) => {
            let known = operation == "masuk".to_owned() || operation == "keluar".to_owned()
                || operation == "edit".to_owned() || operation == "hapus".to_owned();
            if known {
                Riwayat::Isi(filter_history(historys, operation))
            } else {
                Riwayat::Invalid
            }
        },
    }
}

/// The history command: nothing where there is no event; else all events, or
/// those of the operation `opsi`, letter case aside.
pub fn history(historys: Vec<History>, opsi: Option<String>) -> (riwayat: Riwayat)
    ensures
        historys.len() == 0 ==> riwayat is Kosong,
        historys.len() > 0 ==> match shown(
            contents(historys@),
            match opsi {
                Some(p) => Some(lowercase(p@)),
                None => None,
            },
        ) {
            Some(rows) => riwayat matches Riwayat::Isi(chosen) && contents(chosen@) == rows,
            None => riwayat is Invalid,
        },
{
    let wanted = match opsi {
        Some(p) => Some(to_lowercase(p.as_str())),
        None => None,
    };
    chosen_history(historys, wanted)
}

} // verus!
