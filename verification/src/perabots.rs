//! The inventory: stock records by number.

use crate::error::{ParseError, ParseErrorView};
use crate::perabot::{
    line_of_perabot, parse_perabot, perabot_line, perabot_of_line, Perabot, PerabotView,
};
use crate::table::{
    ascending, contents, is_listing, keyed, keyed_map, lemma_keyed_map, lemma_listing_map, next_key,
    Record, Table,
};
use crate::text::{lowercase, split, split_ranges, to_chars, to_lowercase};
use vstd::pervasive::unreached;
use vstd::prelude::*;

verus! {

/// `stored` is the name of an item that is asked for as `wanted`: the same
/// text where the match is exact, the same text in lower case where it is
/// not.
pub open spec fn name_matches(stored: Seq<char>, wanted: Seq<char>, exact: bool) -> bool {
    if exact {
        stored == wanted
    } else {
        lowercase(stored) == lowercase(wanted)
    }
}

/// `k` is the smallest number of an item of `m` whose name matches `wanted`.
pub open spec fn is_first_match(
    m: Map<int, PerabotView>,
    k: int,
    wanted: Seq<char>,
    exact: bool,
) -> bool {
    &&& m.dom().contains(k)
    &&& name_matches(m[k].name, wanted, exact)
    &&& forall|j: int| #[trigger]
        m.dom().contains(j) && name_matches(m[j].name, wanted, exact) ==> k <= j
}

/// The smallest number of an item of `m` whose name matches `wanted`, if
/// any item's does.
pub open spec fn first_match(m: Map<int, PerabotView>, wanted: Seq<char>, exact: bool) -> Option<
    int,
> {
    if exists|k: int| is_first_match(m, k, wanted, exact) {
        Some(choose|k: int| is_first_match(m, k, wanted, exact))
    } else {
        None
    }
}

/// The item `p` with its stock set to `stock`.
pub open spec fn with_stock(p: PerabotView, stock: int) -> PerabotView {
    PerabotView { id: p.id, name: p.name, stock }
}

/// The item `p` under the number `id`.
pub open spec fn with_id(p: PerabotView, id: int) -> PerabotView {
    PerabotView { id, name: p.name, stock: p.stock }
}

/// The inventory after the numbers above `gap` have moved down by one to
/// close it. An item that moves onto a number takes the place of the item
/// that was there.
pub open spec fn compacted(m: Map<int, PerabotView>, gap: int) -> Map<int, PerabotView> {
    Map::new(
        |k: int| (k >= gap && m.dom().contains(k + 1)) || (k <= gap && m.dom().contains(k)),
        |k: int|
            if k >= gap && m.dom().contains(k + 1) {
                with_id(m[k + 1], k)
            } else {
                m[k]
            },
    )
}

/// The item `p` after the numbers above `gap` have moved down by one.
pub open spec fn shifted(p: PerabotView, gap: int) -> PerabotView {
    if p.id > gap {
        with_id(p, p.id - 1)
    } else {
        p
    }
}

/// The number of the item that can be sold as `wanted`, `quantity` of it:
/// the first item of exactly that name, if it has that much in stock.
pub open spec fn sellable(m: Map<int, PerabotView>, wanted: Seq<char>, quantity: int) -> Result<
    int,
    ParseErrorView,
> {
    match first_match(m, wanted, true) {
        None => Err(ParseErrorView::FoundPerabot),
        Some(id) => if quantity > m[id].stock {
            Err(ParseErrorView::StockPerabot)
        } else {
            Ok(id)
        },
    }
}

/// The number of the item that can be deleted as `wanted`: the first item
/// of that name, letter case aside, if it has no stock left.
pub open spec fn deletable(m: Map<int, PerabotView>, wanted: Seq<char>) -> Result<
    int,
    ParseErrorView,
> {
    match first_match(m, wanted, false) {
        None => Err(ParseErrorView::FoundPerabot),
        Some(id) => if m[id].stock == 0 {
            Ok(id)
        } else {
            Err(ParseErrorView::StockPerabotAda)
        },
    }
}

/// The inventory that the lines of a stock file hold: each line that can be
/// read files its item under the item's number, a later line in place of an
/// earlier one; a line that cannot be read is passed over.
pub open spec fn perabots_of_lines(lines: Seq<Seq<char>>) -> Map<int, PerabotView>
    decreases lines.len(),
{
    if lines.len() == 0 {
        Map::empty()
    } else {
        let earlier = perabots_of_lines(lines.drop_last());
        match perabot_of_line(lines.last()) {
            Ok(p) => earlier.insert(p.id, p),
            Err(_) => earlier,
        }
    }
}

/// The text of a stock file with these items: the heading, then one line
/// for each item, every line closed by a line feed.
pub open spec fn text_of_perabots(rows: Seq<PerabotView>) -> Seq<char>
    decreases rows.len(),
{
    if rows.len() == 0 {
        "id,name,stock\n"@
    } else {
        text_of_perabots(rows.drop_last()) + line_of_perabot(rows.last()) + seq!['\n']
    }
}

/// The first row whose name matches is the first match of the map that the
/// rows list.
pub proof fn lemma_first_match_at(
    m: Map<int, PerabotView>,
    rows: Seq<PerabotView>,
    i: int,
    wanted: Seq<char>,
    exact: bool,
)
    requires
        is_listing::<Perabot>(m, rows),
        0 <= i < rows.len(),
        name_matches(rows[i].name, wanted, exact),
        forall|j: int| 0 <= j < i ==> !name_matches((#[trigger] rows[j]).name, wanted, exact),
    ensures
        first_match(m, wanted, exact) == Some(rows[i].id),
        m.dom().contains(rows[i].id),
        m[rows[i].id] == rows[i],
{
    let k = rows[i].id;
    assert(Perabot::key_of(rows[i]) == k);
    assert forall|j: int| #[trigger]
        m.dom().contains(j) && name_matches(m[j].name, wanted, exact) implies k <= j by {
        let at = choose|at: int| 0 <= at < rows.len() && Perabot::key_of(#[trigger] rows[at]) == j;
        assert(m[Perabot::key_of(rows[at])] == rows[at]);
        if at > i {
            assert(Perabot::key_of(rows[i]) < Perabot::key_of(rows[at]));
        }
    }
    assert(is_first_match(m, k, wanted, exact));
    let chosen = choose|c: int| is_first_match(m, c, wanted, exact);
    assert(chosen == k);
}

/// Where no row's name matches, the map that the rows list has no match.
pub proof fn lemma_no_match(
    m: Map<int, PerabotView>,
    rows: Seq<PerabotView>,
    wanted: Seq<char>,
    exact: bool,
)
    requires
        is_listing::<Perabot>(m, rows),
        forall|j: int| 0 <= j < rows.len() ==> !name_matches((#[trigger] rows[j]).name, wanted, exact),
    ensures
        first_match(m, wanted, exact) is None,
{
    assert forall|k: int| !is_first_match(m, k, wanted, exact) by {
        if m.dom().contains(k) {
            let at = choose|at: int| 0 <= at < rows.len() && Perabot::key_of(#[trigger] rows[at]) == k;
            assert(m[Perabot::key_of(rows[at])] == rows[at]);
        }
    }
}

/// Moving the numbers above the gap down keeps the rows in order and gives
/// the compacted map, where no row sits on the gap while another sits just
/// above it.
pub proof fn lemma_shifted_rows(rows: Seq<PerabotView>, gap: int)
    requires
        ascending::<Perabot>(rows),
        forall|i: int, j: int|
            0 <= i < rows.len() && 0 <= j < rows.len() ==> !((#[trigger] rows[i]).id == gap && (
            #[trigger] rows[j]).id == gap + 1),
    ensures
        ascending::<Perabot>(Seq::new(rows.len(), |i: int| shifted(rows[i], gap))),
        keyed_map::<Perabot>(Seq::new(rows.len(), |i: int| shifted(rows[i], gap))) == compacted(
            keyed_map::<Perabot>(rows),
            gap,
        ),
{
    let after = Seq::new(rows.len(), |i: int| shifted(rows[i], gap));
    assert forall|i: int, j: int| 0 <= i < j < after.len() implies Perabot::key_of(after[i])
        < Perabot::key_of(after[j]) by {
        assert(Perabot::key_of(rows[i]) < Perabot::key_of(rows[j]));
    }
    lemma_keyed_map::<Perabot>(rows);
    lemma_keyed_map::<Perabot>(after);
    let m0 = keyed_map::<Perabot>(rows);
    let m1 = keyed_map::<Perabot>(after);
    let target = compacted(m0, gap);
    assert forall|k: int| m1.dom().contains(k) implies target.dom().contains(k) && m1[k]
        == target[k] by {
        let i = choose|i: int| 0 <= i < after.len() && Perabot::key_of(#[trigger] after[i]) == k;
        assert(m1[Perabot::key_of(after[i])] == after[i]);
        assert(m0[Perabot::key_of(rows[i])] == rows[i]);
        if rows[i].id <= gap && m0.dom().contains(k + 1) {
            let j = choose|j: int| 0 <= j < rows.len() && Perabot::key_of(#[trigger] rows[j]) == k + 1;
            assert(!(rows[i].id == gap && rows[j].id == gap + 1));
        }
    }
    assert forall|k: int| target.dom().contains(k) implies m1.dom().contains(k) by {
        if k >= gap && m0.dom().contains(k + 1) {
            let j = choose|j: int| 0 <= j < rows.len() && Perabot::key_of(#[trigger] rows[j]) == k + 1;
            assert(Perabot::key_of(after[j]) == k);
        } else {
            let j = choose|j: int| 0 <= j < rows.len() && Perabot::key_of(#[trigger] rows[j]) == k;
            assert(Perabot::key_of(after[j]) == k);
        }
    }
    assert(m1 =~= target);
}

/// The place of the first of `names` that is the text `wanted`.
pub fn first_equal(names: &Vec<String>, wanted: &String) -> (found: Option<usize>)
    ensures
        match found {
            Some(i) => i < names.len() && names[i as int]@ == wanted@ && forall|j: int|
                0 <= j < i ==> (#[trigger] names[j])@ != wanted@,
            None => forall|j: int| 0 <= j < names.len() ==> (#[trigger] names[j])@ != wanted@,
        },
{
    let mut i: usize = 0;
    while i < names.len()
        invariant
            i <= names.len(),
            forall|j: int| 0 <= j < i ==> (#[trigger] names[j])@ != wanted@,
        decreases names.len() - i,
    {
        if names[i] == *wanted {
            return Some(i);
        }
        i = i + 1;
    }
    None
}

/// The names of `rows` as they are compared: as they stand where the match
/// is exact, in lower case where it is not.
fn compared_names(rows: &Vec<Perabot>, exact: bool) -> (names: Vec<String>)
    ensures
        names.len() == rows.len(),
        forall|i: int|
            0 <= i < rows.len() ==> (#[trigger] names[i])@ == (if exact {
                rows[i].name@
            } else {
                lowercase(rows[i].name@)
            }),
{
    let mut names: Vec<String> = Vec::new();
    let mut i: usize = 0;
    while i < rows.len()
        invariant
            i <= rows.len(),
            names.len() == i,
            forall|j: int|
                0 <= j < i ==> (#[trigger] names[j])@ == (if exact {
                    rows[j].name@
                } else {
                    lowercase(rows[j].name@)
                }),
        decreases rows.len() - i,
    {
        let name = if exact {
            rows[i].name.clone()
        } else {
            to_lowercase(rows[i].name.as_str())
        };
        names.push(name);
        i = i + 1;
    }
    names
}

/// The inventory: at most one stock record under each number.
pub struct Perabots {
    inner: Table<Perabot>,
}

impl View for Perabots {
    type V = Map<int, PerabotView>;

    closed spec fn view(&self) -> Map<int, PerabotView> {
        self.inner@
    }
}

impl Perabots {
    /// The empty inventory.
    pub fn new() -> (perabots: Self)
        ensures
            perabots@ == Map::<int, PerabotView>::empty(),
    {
        Perabots { inner: Table::new() }
    }

    /// Adds `stock_tambah` to the stock of the item numbered `id` and
    /// returns the new stock.
    pub fn tambah(&mut self, id: i64, stock_tambah: i64) -> (total: i64)
        requires
            old(self)@.dom().contains(id as int),
            i64::MIN <= old(self)@[id as int].stock + stock_tambah <= i64::MAX,
        ensures
            total == old(self)@[id as int].stock + stock_tambah,
            final(self)@ == old(self)@.insert(
                id as int,
                with_stock(old(self)@[id as int], total as int),
            ),
    {
        match self.inner.remove(id) {
            Some(perabot) => {
                let total = perabot.stock + stock_tambah;
                self.inner.insert(Perabot { id: perabot.id, name: perabot.name, stock: total });
                assert(final(self)@ =~= old(self)@.insert(
                    id as int,
                    with_stock(old(self)@[id as int], total as int),
                ));
                total
            },
            None => unreached(),
        }
    }

    /// Takes `stock_keluar` from the stock of the item numbered `id` and
    /// returns the new stock, which is negative where more is taken than
    /// there was.
    pub fn keluar(&mut self, id: i64, stock_keluar: i64) -> (total: i64)
        requires
            old(self)@.dom().contains(id as int),
            i64::MIN <= old(self)@[id as int].stock - stock_keluar <= i64::MAX,
        ensures
            total == old(self)@[id as int].stock - stock_keluar,
            final(self)@ == old(self)@.insert(
                id as int,
                with_stock(old(self)@[id as int], total as int),
            ),
    {
        match self.inner.remove(id) {
            Some(perabot) => {
                let total = perabot.stock - stock_keluar;
                self.inner.insert(Perabot { id: perabot.id, name: perabot.name, stock: total });
                assert(final(self)@ =~= old(self)@.insert(
                    id as int,
                    with_stock(old(self)@[id as int], total as int),
                ));
                total
            },
            None => unreached(),
        }
    }

    /// Files an item of this name and stock under `id`, in place of the
    /// item that was there if there was one.
    pub fn edit(&mut self, id: i64, name: &str, stock: i64)
        ensures
            final(self)@ == old(self)@.insert(
                id as int,
                PerabotView { id: id as int, name: name@, stock: stock as int },
            ),
    {
        self.inner.insert(Perabot { id, name: name.to_owned(), stock });
    }

    /// Files `perabot` under its number, in place of the item that was
    /// there if there was one.
    pub fn add(&mut self, perabot: Perabot)
        ensures
            final(self)@ == old(self)@.insert(perabot.id as int, perabot@),
    {
        self.inner.insert(perabot);
    }

    /// Takes out the item numbered `id`, if there is one, and hands it
    /// back.
    pub fn remove(&mut self, id: &i64) -> (removed: Option<Perabot>)
        ensures
            final(self)@ == old(self)@.remove(*id as int),
            match removed {
                Some(perabot) => old(self)@.dom().contains(*id as int) && perabot@ == old(
                    self,
                )@[*id as int] && perabot.id == *id,
                None => !old(self)@.dom().contains(*id as int),
            },
    {
        self.inner.remove(*id)
    }

    /// The items by ascending number.
    pub fn into_vec(self) -> (perabots: Vec<Perabot>)
        ensures
            is_listing::<Perabot>(self@, contents(perabots@)),
            keyed::<Perabot>(self@),
            self@.dom().finite(),
    {
        self.inner.into_rows()
    }

    /// The number for the next new item: one more than the greatest number
    /// in use, or 1 for the empty inventory.
    pub fn next_id(&self) -> (id: i64)
        requires
            next_key(self@) <= i64::MAX,
        ensures
            id == next_key(self@),
            !self@.dom().contains(id as int),
    {
        self.inner.next_id()
    }

    /// Of every inventory: each item sits under its own number, the numbers
    /// fit in 64 bits, and the items are finitely many.
    pub proof fn lemma_view(&self)
        ensures
            keyed::<Perabot>(self@),
            self@.dom().finite(),
            forall|k: int| #[trigger] self@.dom().contains(k) ==> i64::MIN <= k <= i64::MAX,
    {
        self.inner.lemma_view();
        assert forall|k: int| #[trigger] self@.dom().contains(k) implies i64::MIN <= k
            <= i64::MAX by {
            let row = choose|row: Perabot| Perabot::key_of(#[trigger] row@) == k;
            assert(row@.id == row.id as int);
        }
    }

    /// Whether no number is left for a new item.
    pub fn is_full(&self) -> (full: bool)
        ensures
            full == (next_key(self@) > i64::MAX),
    {
        self.inner.is_full()
    }

    /// The item numbered `id`, if there is one.
    pub fn get(&self, id: i64) -> (found: Option<&Perabot>)
        ensures
            match found {
                Some(perabot) => self@.dom().contains(id as int) && perabot@ == self@[id as int]
                    && perabot.id == id,
                None => !self@.dom().contains(id as int),
            },
    {
        self.inner.get(id)
    }

    /// The first item whose name matches `name`, by ascending number.
    fn locate(&self, name: &str, exact: bool) -> (found: Option<&Perabot>)
        ensures
            match found {
                Some(perabot) => first_match(self@, name@, exact) == Some(perabot.id as int)
                    && self@.dom().contains(perabot.id as int) && self@[perabot.id as int]
                    == perabot@,
                None => first_match(self@, name@, exact) is None,
            },
    {
        let rows = self.inner.rows();
        let names = compared_names(rows, exact);
        let wanted = if exact {
            name.to_owned()
        } else {
            to_lowercase(name)
        };
        let ghost c = contents(rows@);
        match first_equal(&names, &wanted) {
            Some(i) => {
                proof {
                    assert(c[i as int] == rows[i as int]@);
                    assert forall|j: int| 0 <= j < i implies !name_matches(
                        (#[trigger] c[j]).name,
                        name@,
                        exact,
                    ) by {
                        assert(names[j]@ != wanted@);
                    }
                    lemma_first_match_at(self@, c, i as int, name@, exact);
                }
                Some(&rows[i])
            },
            None => {
                proof {
                    assert forall|j: int| 0 <= j < c.len() implies !name_matches(
                        (#[trigger] c[j]).name,
                        name@,
                        exact,
                    ) by {
                        assert(names[j]@ != wanted@);
                    }
                    lemma_no_match(self@, c, name@, exact);
                }
                None
            },
        }
    }

    /// The number of the first item named `name`, letter case aside.
    pub fn search(&self, name: &str) -> (found: Option<i64>)
        ensures
            match found {
                Some(id) => first_match(self@, name@, false) == Some(id as int),
                None => first_match(self@, name@, false) is None,
            },
    {
        match self.locate(name, false) {
            Some(perabot) => Some(perabot.id),
            None => None,
        }
    }

    /// The number of the first item named exactly `name_buy`, where it has
    /// at least `stock_keluar` in stock.
    pub fn search_stock(&self, name_buy: &str, stock_keluar: &i64) -> (found: Result<
        i64,
        ParseError,
    >)
        ensures
            match found {
                Ok(id) => sellable(self@, name_buy@, *stock_keluar as int) == Ok::<
                    int,
                    ParseErrorView,
                >(id as int),
                Err(e) => sellable(self@, name_buy@, *stock_keluar as int) == Err::<
                    int,
                    ParseErrorView,
                >(e@),
            },
    {
        match self.locate(name_buy, true) {
            Some(perabot) => {
                if *stock_keluar > perabot.stock {
                    Err(ParseError::StockPerabot)
                } else {
                    Ok(perabot.id)
                }
            },
            None => Err(ParseError::FoundPerabot),
        }
    }

    /// The number of the first item named `name`, letter case aside, where
    /// it has no stock left.
    pub fn search_empty(&self, name: &str) -> (found: Result<i64, ParseError>)
        ensures
            match found {
                Ok(id) => deletable(self@, name@) == Ok::<int, ParseErrorView>(id as int),
                Err(e) => deletable(self@, name@) == Err::<int, ParseErrorView>(e@),
            },
    {
        match self.locate(name, false) {
            Some(perabot) => {
                if perabot.stock == 0 {
                    Ok(perabot.id)
                } else {
                    Err(ParseError::StockPerabotAda)
                }
            },
            None => Err(ParseError::FoundPerabot),
        }
    }

    /// Closes the gap that deleting the item numbered `id_del` left: every
    /// item with a greater number moves down by one.
    pub fn sort_perabots(&mut self, id_del: i64)
        ensures
            final(self)@ == compacted(old(self)@, id_del as int),
    {
        let crowded = id_del < i64::MAX && self.inner.get(id_del + 1).is_some();
        if crowded {
            self.inner.remove(id_del);
        }
        let ghost kept = self.inner@;
        assert(compacted(kept, id_del as int) =~= compacted(old(self)@, id_del as int));
        let mut table: Table<Perabot> = Table::new();
        std::mem::swap(&mut table, &mut self.inner);
        let rows = table.into_rows();
        let ghost c = contents(rows@);
        let mut moved: Vec<Perabot> = Vec::new();
        let mut i: usize = 0;
        while i < rows.len()
            invariant
                i <= rows.len(),
                moved.len() == i,
                c == contents(rows@),
                forall|j: int| 0 <= j < i ==> (#[trigger] moved[j])@ == shifted(c[j], id_del as int),
            decreases rows.len() - i,
        {
            let perabot = &rows[i];
            assert(c[i as int] == perabot@);
            let id = if perabot.id > id_del {
                perabot.id - 1
            } else {
                perabot.id
            };
            moved.push(Perabot { id, name: perabot.name.clone(), stock: perabot.stock });
            i = i + 1;
        }
        proof {
            assert forall|a: int, b: int| 0 <= a < c.len() && 0 <= b < c.len() implies !((
            #[trigger] c[a]).id == id_del && (#[trigger] c[b]).id == id_del + 1) by {
                assert(c[a] == rows[a]@);
                assert(c[b] == rows[b]@);
                assert(kept[Perabot::key_of(c[a])] == c[a]);
                assert(kept[Perabot::key_of(c[b])] == c[b]);
            }
            lemma_shifted_rows(c, id_del as int);
            lemma_keyed_map::<Perabot>(c);
            lemma_listing_map::<Perabot>(kept, c);
            assert(contents(moved@) =~= Seq::new(c.len(), |i: int| shifted(c[i], id_del as int)));
        }
        self.inner = Table::from_rows(moved);
        proof {
            lemma_listing_map::<Perabot>(self.inner@, contents(moved@));
        }
    }
}

/// Reads a stock file: every line that holds an item files it under the
/// item's number; the heading and every other line that cannot be read are
/// passed over.
pub fn parse_perabots(perabots: String) -> (loaded: Perabots)
    ensures
        loaded@ == perabots_of_lines(split(perabots@, '\n')),
{
    let text = perabots.as_str();
    let chars = to_chars(text);
    let lines = split_ranges(&chars, 0, chars.len(), '\n');
    assert(chars@.subrange(0, chars.len() as int) =~= perabots@);
    let ghost all = split(perabots@, '\n');
    let mut loaded = Perabots::new();
    let mut i: usize = 0;
    assert(all.take(0) =~= Seq::<Seq<char>>::empty());
    while i < lines.len()
        invariant
            i <= lines.len(),
            chars@ == text@,
            text@ == perabots@,
            all == split(perabots@, '\n'),
            lines.len() == all.len(),
            forall|k: int|
                0 <= k < lines.len() ==> 0 <= (#[trigger] lines[k]).0 <= lines[k].1 <= chars.len()
                    && chars@.subrange(lines[k].0 as int, lines[k].1 as int) == all[k],
            loaded@ == perabots_of_lines(all.take(i as int)),
        decreases lines.len() - i,
    {
        let line = text.substring_char(lines[i].0, lines[i].1);
        proof {
            assert(all.take(i + 1).drop_last() =~= all.take(i as int));
            assert(all.take(i + 1).last() == all[i as int]);
        }
        match parse_perabot(line) {
            Ok(perabot) => {
                loaded.add(perabot);
            },
            Err(_) => {},
        }
        i = i + 1;
    }
    assert(all.take(i as int) =~= all);
    loaded
}

/// Writes a stock file with these items: the heading, then one line for
/// each item in the order given.
pub fn perabots_text(perabots: &Vec<Perabot>) -> (text: String)
    ensures
        text@ == text_of_perabots(contents(perabots@)),
{
    let ghost c = contents(perabots@);
    let mut text = "id,name,stock\n".to_owned();
    let mut i: usize = 0;
    assert(c.take(0) =~= Seq::<PerabotView>::empty());
    proof {
        reveal_strlit("\n");
    }
    while i < perabots.len()
        invariant
            i <= perabots.len(),
            c == contents(perabots@),
            "\n"@ == seq!['\n'],
            text@ == text_of_perabots(c.take(i as int)),
        decreases perabots.len() - i,
    {
        proof {
            assert(c.take(i + 1).drop_last() =~= c.take(i as int));
            assert(c.take(i + 1).last() == perabots[i as int]@);
        }
        let line = perabot_line(&perabots[i]);
        text.append(line.as_str());
        text.append("\n");
        i = i + 1;
    }
    assert(c.take(i as int) =~= c);
    text
}

} // verus!
