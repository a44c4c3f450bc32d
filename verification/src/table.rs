//! Rows filed under integer keys and kept in ascending key order: the
//! ordered map that both the inventory and the history are built on.

use vstd::prelude::*;

verus! {

/// A row that is filed under an integer key.
pub trait Record: View + Sized {
    /// The key that a row with this content is filed under.
    spec fn key_of(content: Self::V) -> int;

    /// The key of this row.
    fn key(&self) -> (k: i64)
        ensures
            k as int == Self::key_of(self@),
    ;
}

/// What the rows hold, row by row.
pub open spec fn contents<T: View>(rows: Seq<T>) -> Seq<T::V> {
    Seq::new(rows.len(), |i: int| rows[i]@)
}

/// The keys of `rows` grow strictly from each row to the next.
pub open spec fn ascending<T: Record>(rows: Seq<T::V>) -> bool {
    forall|i: int, j: int| 0 <= i < j < rows.len() ==> T::key_of(rows[i]) < T::key_of(rows[j])
}

/// The keys of `rows` shrink strictly from each row to the next.
pub open spec fn descending<T: Record>(rows: Seq<T::V>) -> bool {
    forall|i: int, j: int| 0 <= i < j < rows.len() ==> T::key_of(rows[i]) > T::key_of(rows[j])
}

/// `rows` holds exactly the entries of `m`, each under its own key.
pub open spec fn holds_exactly<T: Record>(m: Map<int, T::V>, rows: Seq<T::V>) -> bool {
    &&& forall|i: int|
        0 <= i < rows.len() ==> m.dom().contains(T::key_of(#[trigger] rows[i])) && m[T::key_of(
            rows[i],
        )] == rows[i]
    &&& forall|k: int| #[trigger]
        m.dom().contains(k) ==> exists|i: int|
            0 <= i < rows.len() && T::key_of(#[trigger] rows[i]) == k
}

/// `rows` lists the entries of `m` by ascending key.
pub open spec fn is_listing<T: Record>(m: Map<int, T::V>, rows: Seq<T::V>) -> bool {
    ascending::<T>(rows) && holds_exactly::<T>(m, rows)
}

/// Every entry of `m` is filed under its own key.
pub open spec fn keyed<T: Record>(m: Map<int, T::V>) -> bool {
    forall|k: int| #[trigger] m.dom().contains(k) ==> T::key_of(m[k]) == k
}

/// `k` is the greatest key of `m`.
pub open spec fn is_last_key<V>(m: Map<int, V>, k: int) -> bool {
    m.dom().contains(k) && forall|j: int| #[trigger] m.dom().contains(j) ==> j <= k
}

/// One more than the greatest key of `m`, or 1 where `m` has no greatest
/// key: the number that the next new entry gets.
pub open spec fn next_key<V>(m: Map<int, V>) -> int {
    if exists|k: int| is_last_key(m, k) {
        (choose|k: int| is_last_key(m, k)) + 1
    } else {
        1
    }
}

/// The map from each key that occurs in `rows` to a row with that key.
pub open spec fn keyed_map<T: Record>(rows: Seq<T::V>) -> Map<int, T::V> {
    Map::new(
        |k: int| exists|i: int| 0 <= i < rows.len() && T::key_of(#[trigger] rows[i]) == k,
        |k: int| rows[choose|i: int| 0 <= i < rows.len() && T::key_of(#[trigger] rows[i]) == k],
    )
}

/// Rows in ascending order list the map made of them.
pub proof fn lemma_keyed_map<T: Record>(rows: Seq<T::V>)
    requires
        ascending::<T>(rows),
    ensures
        is_listing::<T>(keyed_map::<T>(rows), rows),
        keyed::<T>(keyed_map::<T>(rows)),
        keyed_map::<T>(rows).dom().finite(),
{
    let m = keyed_map::<T>(rows);
    assert forall|i: int| 0 <= i < rows.len() implies m.dom().contains(
        T::key_of(#[trigger] rows[i]),
    ) && m[T::key_of(rows[i])] == rows[i] by {
        let k = T::key_of(rows[i]);
        let j = choose|j: int| 0 <= j < rows.len() && T::key_of(#[trigger] rows[j]) == k;
        assert(j == i) by {
            if j < i {
                assert(T::key_of(rows[j]) < T::key_of(rows[i]));
            } else if i < j {
                assert(T::key_of(rows[i]) < T::key_of(rows[j]));
            }
        }
    }
    lemma_keys_finite::<T>(rows);
}

/// The keys that occur in a sequence of rows are finitely many.
pub proof fn lemma_keys_finite<T: Record>(rows: Seq<T::V>)
    ensures
        keyed_map::<T>(rows).dom().finite(),
    decreases rows.len(),
{
    let dom = keyed_map::<T>(rows).dom();
    if rows.len() == 0 {
        assert(dom =~= Set::<int>::empty());
    } else {
        let shorter = rows.drop_last();
        lemma_keys_finite::<T>(shorter);
        let before = keyed_map::<T>(shorter).dom();
        let k = T::key_of(rows.last());
        assert forall|x: int| dom.contains(x) <==> before.insert(k).contains(x) by {
            if dom.contains(x) {
                let i = choose|i: int| 0 <= i < rows.len() && T::key_of(#[trigger] rows[i]) == x;
                if i < rows.len() - 1 {
                    assert(T::key_of(shorter[i]) == x);
                }
            }
            if before.contains(x) {
                let i = choose|i: int|
                    0 <= i < shorter.len() && T::key_of(#[trigger] shorter[i]) == x;
                assert(T::key_of(rows[i]) == x);
            }
            if x == k {
                assert(T::key_of(rows[rows.len() - 1]) == x);
            }
        }
        assert(dom =~= before.insert(k));
    }
}

/// A map has one listing by ascending key only: two such listings are the
/// same sequence.
pub proof fn law_listing_is_unique<T: Record>(m: Map<int, T::V>, a: Seq<T::V>, b: Seq<T::V>)
    requires
        is_listing::<T>(m, a),
        is_listing::<T>(m, b),
    ensures
        a == b,
{
    lemma_listing_prefix::<T>(m, a, b, a.len() as int);
    lemma_listing_prefix::<T>(m, b, a, b.len() as int);
    assert(a =~= b);
}

/// Two ascending listings of one map agree on their first `n` rows.
proof fn lemma_listing_prefix<T: Record>(m: Map<int, T::V>, a: Seq<T::V>, b: Seq<T::V>, n: int)
    requires
        is_listing::<T>(m, a),
        is_listing::<T>(m, b),
        0 <= n <= a.len(),
    ensures
        n <= b.len(),
        forall|i: int| 0 <= i < n ==> a[i] == b[i],
    decreases n,
{
    if n > 0 {
        lemma_listing_prefix::<T>(m, a, b, n - 1);
        let i = n - 1;
        let k = T::key_of(a[i]);
        assert(m.dom().contains(k));
        let j = choose|j: int| 0 <= j < b.len() && T::key_of(#[trigger] b[j]) == k;
        if j < i {
            assert(a[j] == b[j]);
            assert(T::key_of(a[j]) < T::key_of(a[i]));
        }
        assert(i < b.len());
        let kb = T::key_of(b[i]);
        assert(m.dom().contains(kb));
        let ja = choose|ja: int| 0 <= ja < a.len() && T::key_of(#[trigger] a[ja]) == kb;
        if ja < i {
            assert(a[ja] == b[ja]);
            assert(T::key_of(b[ja]) < T::key_of(b[i]));
        }
        if j > i {
            assert(T::key_of(b[i]) < T::key_of(b[j]));
        }
        if ja > i {
            assert(T::key_of(a[i]) < T::key_of(a[ja]));
        }
        assert(k == kb);
        assert(m[k] == a[i]);
        assert(m[kb] == b[i]);
    }
}

/// A map is the map made of its ascending listing.
pub proof fn lemma_listing_map<T: Record>(m: Map<int, T::V>, rows: Seq<T::V>)
    requires
        is_listing::<T>(m, rows),
    ensures
        m == keyed_map::<T>(rows),
{
    lemma_keyed_map::<T>(rows);
    let made = keyed_map::<T>(rows);
    assert forall|k: int| m.dom().contains(k) implies made.dom().contains(k) && m[k]
        == made[k] by {
        let i = choose|i: int| 0 <= i < rows.len() && T::key_of(#[trigger] rows[i]) == k;
        assert(m[T::key_of(rows[i])] == rows[i]);
        assert(made[T::key_of(rows[i])] == rows[i]);
    }
    assert forall|k: int| made.dom().contains(k) implies m.dom().contains(k) by {
        let i = choose|i: int| 0 <= i < rows.len() && T::key_of(#[trigger] rows[i]) == k;
        assert(m.dom().contains(T::key_of(rows[i])));
    }
    assert(m =~= made);
}

/// Putting a row in at its place keeps the order and files the row in the
/// map.
pub proof fn lemma_insert_at<T: Record>(rows: Seq<T::V>, p: int, row: T::V)
    requires
        ascending::<T>(rows),
        0 <= p <= rows.len(),
        forall|i: int| 0 <= i < p ==> T::key_of(#[trigger] rows[i]) < T::key_of(row),
        forall|i: int| p <= i < rows.len() ==> T::key_of(#[trigger] rows[i]) > T::key_of(row),
    ensures
        ascending::<T>(rows.insert(p, row)),
        keyed_map::<T>(rows.insert(p, row)) == keyed_map::<T>(rows).insert(T::key_of(row), row),
{
    let after = rows.insert(p, row);
    let id = T::key_of(row);
    assert forall|i: int, j: int| 0 <= i < j < after.len() implies T::key_of(after[i])
        < T::key_of(after[j]) by {
        if i < p {
            assert(after[i] == rows[i]);
        } else if i > p {
            assert(after[i] == rows[i - 1]);
        }
        if j < p {
            assert(after[j] == rows[j]);
        } else if j > p {
            assert(after[j] == rows[j - 1]);
        }
    }
    lemma_keyed_map::<T>(rows);
    lemma_keyed_map::<T>(after);
    let m0 = keyed_map::<T>(rows);
    let m1 = keyed_map::<T>(after);
    let target = m0.insert(id, row);
    assert(after[p] == row);
    assert forall|k: int| m1.dom().contains(k) implies target.dom().contains(k) && m1[k]
        == target[k] by {
        let i = choose|i: int| 0 <= i < after.len() && T::key_of(#[trigger] after[i]) == k;
        assert(m1[T::key_of(after[i])] == after[i]);
        if i < p {
            assert(after[i] == rows[i]);
            assert(m0[T::key_of(rows[i])] == rows[i]);
        } else if i > p {
            assert(after[i] == rows[i - 1]);
            assert(m0[T::key_of(rows[i - 1])] == rows[i - 1]);
        }
    }
    assert forall|k: int| target.dom().contains(k) implies m1.dom().contains(k) by {
        if k == id {
            assert(T::key_of(after[p]) == k);
        } else {
            let i = choose|i: int| 0 <= i < rows.len() && T::key_of(#[trigger] rows[i]) == k;
            if i < p {
                assert(after[i] == rows[i]);
                assert(T::key_of(after[i]) == k);
            } else {
                assert(after[i + 1] == rows[i]);
                assert(T::key_of(after[i + 1]) == k);
            }
        }
    }
    assert(m1 =~= target);
}

/// Taking a row out keeps the order and takes its key out of the map.
pub proof fn lemma_remove_at<T: Record>(rows: Seq<T::V>, p: int)
    requires
        ascending::<T>(rows),
        0 <= p < rows.len(),
    ensures
        ascending::<T>(rows.remove(p)),
        keyed_map::<T>(rows.remove(p)) == keyed_map::<T>(rows).remove(T::key_of(rows[p])),
{
    let after = rows.remove(p);
    let id = T::key_of(rows[p]);
    assert forall|i: int, j: int| 0 <= i < j < after.len() implies T::key_of(after[i])
        < T::key_of(after[j]) by {
        let bi = if i < p { i } else { i + 1 };
        let bj = if j < p { j } else { j + 1 };
        assert(after[i] == rows[bi]);
        assert(after[j] == rows[bj]);
    }
    lemma_keyed_map::<T>(rows);
    lemma_keyed_map::<T>(after);
    let m0 = keyed_map::<T>(rows);
    let m1 = keyed_map::<T>(after);
    let target = m0.remove(id);
    assert forall|k: int| m1.dom().contains(k) implies target.dom().contains(k) && m1[k]
        == target[k] by {
        let i = choose|i: int| 0 <= i < after.len() && T::key_of(#[trigger] after[i]) == k;
        let bi = if i < p { i } else { i + 1 };
        assert(m1[T::key_of(after[i])] == after[i]);
        assert(after[i] == rows[bi]);
        assert(m0[T::key_of(rows[bi])] == rows[bi]);
        if bi < p {
            assert(T::key_of(rows[bi]) < T::key_of(rows[p]));
        } else {
            assert(T::key_of(rows[p]) < T::key_of(rows[bi]));
        }
    }
    assert forall|k: int| target.dom().contains(k) implies m1.dom().contains(k) by {
        let i = choose|i: int| 0 <= i < rows.len() && T::key_of(#[trigger] rows[i]) == k;
        let ai = if i < p { i } else { i - 1 };
        assert(after[ai] == rows[i]);
        assert(T::key_of(after[ai]) == k);
    }
    assert(m1 =~= target);
}

/// A key that no row has is not in the map.
pub proof fn lemma_key_absent<T: Record>(rows: Seq<T::V>, id: int)
    requires
        forall|i: int| 0 <= i < rows.len() ==> T::key_of(#[trigger] rows[i]) != id,
    ensures
        !keyed_map::<T>(rows).dom().contains(id),
{
}

/// The next key of the map that ascending rows make: one more than the key of
/// the last row, or 1 where there is no row; it is the key of no row.
pub proof fn lemma_next_key_of_rows<T: Record>(rows: Seq<T::V>)
    requires
        ascending::<T>(rows),
    ensures
        rows.len() == 0 ==> next_key(keyed_map::<T>(rows)) == 1,
        rows.len() > 0 ==> next_key(keyed_map::<T>(rows)) == T::key_of(rows.last()) + 1,
        !keyed_map::<T>(rows).dom().contains(next_key(keyed_map::<T>(rows))),
{
    let m = keyed_map::<T>(rows);
    lemma_keyed_map::<T>(rows);
    if rows.len() == 0 {
        assert forall|k: int| !m.dom().contains(k) by {
            if m.dom().contains(k) {
                let i = choose|i: int| 0 <= i < rows.len() && T::key_of(#[trigger] rows[i]) == k;
            }
        }
        assert forall|k: int| !is_last_key(m, k) by {
            assert(!m.dom().contains(k));
        }
    } else {
        let n = rows.len() as int;
        let last = T::key_of(rows[n - 1]);
        assert forall|j: int| #[trigger] m.dom().contains(j) implies j <= last by {
            let i = choose|i: int| 0 <= i < rows.len() && T::key_of(#[trigger] rows[i]) == j;
            if i < n - 1 {
                assert(T::key_of(rows[i]) < T::key_of(rows[n - 1]));
            }
        }
        assert(m.dom().contains(T::key_of(rows[n - 1])));
        assert(is_last_key(m, last));
        let chosen = choose|k: int| is_last_key(m, k);
        assert(m.dom().contains(chosen));
        assert(chosen == last);
    }
}

/// Of the map that rows make: every entry sits under its own key, every key
/// is the key of one of the rows, and the keys are finitely many.
pub proof fn lemma_keyed_map_is_keyed<T: Record>(rows: Seq<T::V>)
    ensures
        keyed::<T>(keyed_map::<T>(rows)),
        keyed_map::<T>(rows).dom().finite(),
        forall|k: int| #[trigger]
            keyed_map::<T>(rows).dom().contains(k) ==> exists|i: int|
                0 <= i < rows.len() && T::key_of(#[trigger] rows[i]) == k,
{
    lemma_keys_finite::<T>(rows);
}

/// An ordered map from integer keys to rows, each filed under its own key.
pub struct Table<T: Record> {
    rows: Vec<T>,
}

impl<T: Record> View for Table<T> {
    type V = Map<int, T::V>;

    closed spec fn view(&self) -> Map<int, T::V> {
        keyed_map::<T>(contents(self.rows@))
    }
}

impl<T: Record> Table<T> {
    #[verifier::type_invariant]
    spec fn sorted(&self) -> bool {
        ascending::<T>(contents(self.rows@))
    }

    /// The empty table.
    pub fn new() -> (table: Self)
        ensures
            table@ == Map::<int, T::V>::empty(),
    {
        let table = Table { rows: Vec::new() };
        assert(table@ =~= Map::<int, T::V>::empty());
        table
    }

    /// The table of `rows`, which come in ascending key order.
    pub fn from_rows(rows: Vec<T>) -> (table: Self)
        requires
            ascending::<T>(contents(rows@)),
        ensures
            is_listing::<T>(table@, contents(rows@)),
            keyed::<T>(table@),
            table@.dom().finite(),
    {
        proof {
            lemma_keyed_map::<T>(contents(rows@));
        }
        Table { rows }
    }

    /// The rows by ascending key.
    pub fn rows(&self) -> (rows: &Vec<T>)
        ensures
            is_listing::<T>(self@, contents(rows@)),
            keyed::<T>(self@),
            self@.dom().finite(),
    {
        proof {
            use_type_invariant(self);
            lemma_keyed_map::<T>(contents(self.rows@));
        }
        &self.rows
    }

    /// Gives the rows up, by ascending key.
    pub fn into_rows(self) -> (rows: Vec<T>)
        ensures
            is_listing::<T>(self@, contents(rows@)),
            keyed::<T>(self@),
            self@.dom().finite(),
    {
        proof {
            use_type_invariant(&self);
            lemma_keyed_map::<T>(contents(self.rows@));
        }
        self.rows
    }

    /// How many rows come before the place of key `id`: the rows with a
    /// smaller key.
    fn place(rows: &Vec<T>, id: i64) -> (p: usize)
        requires
            ascending::<T>(contents(rows@)),
        ensures
            p <= rows.len(),
            forall|i: int| 0 <= i < p ==> T::key_of(#[trigger] contents(rows@)[i]) < id,
            forall|i: int| p <= i < rows.len() ==> T::key_of(#[trigger] contents(rows@)[i]) >= id,
    {
        let ghost c = contents(rows@);
        let mut p: usize = 0;
        while p < rows.len() && rows[p].key() < id
            invariant
                p <= rows.len(),
                c == contents(rows@),
                forall|i: int| 0 <= i < p ==> T::key_of(#[trigger] c[i]) < id,
            decreases rows.len() - p,
        {
            assert(c[p as int] == rows[p as int]@);
            p = p + 1;
        }
        proof {
            assert forall|i: int| p <= i < rows.len() implies T::key_of(#[trigger] c[i])
                >= id by {
                assert(c[p as int] == rows[p as int]@);
                if p < i {
                    assert(T::key_of(c[p as int]) < T::key_of(c[i]));
                }
            }
        }
        p
    }

    /// The row filed under `id`, if there is one.
    pub fn get(&self, id: i64) -> (found: Option<&T>)
        ensures
            match found {
                Some(row) => self@.dom().contains(id as int) && row@ == self@[id as int]
                    && T::key_of(row@) == id,
                None => !self@.dom().contains(id as int),
            },
    {
        proof {
            use_type_invariant(self);
        }
        let ghost c = contents(self.rows@);
        proof {
            lemma_keyed_map::<T>(c);
        }
        let p = Self::place(&self.rows, id);
        if p < self.rows.len() && self.rows[p].key() == id {
            assert(c[p as int] == self.rows[p as int]@);
            assert(keyed_map::<T>(c)[T::key_of(c[p as int])] == c[p as int]);
            Some(&self.rows[p])
        } else {
            proof {
                assert forall|i: int| 0 <= i < c.len() implies T::key_of(#[trigger] c[i]) != id by {
                    if i >= p {
                        assert(T::key_of(c[i]) >= id);
                        assert(c[p as int] == self.rows[p as int]@);
                        if i > p {
                            assert(T::key_of(c[p as int]) < T::key_of(c[i]));
                        }
                    }
                }
                lemma_key_absent::<T>(c, id as int);
            }
            None
        }
    }

    /// The key for the next new row: one more than the greatest key in use,
    /// or 1 for the empty table.
    pub fn next_id(&self) -> (id: i64)
        requires
            next_key(self@) <= i64::MAX,
        ensures
            id == next_key(self@),
            !self@.dom().contains(id as int),
    {
        proof {
            use_type_invariant(self);
            lemma_next_key_of_rows::<T>(contents(self.rows@));
        }
        if self.rows.len() == 0 {
            1
        } else {
            self.rows[self.rows.len() - 1].key() + 1
        }
    }

    /// Whether the greatest key in use is the greatest number there is, so
    /// that no next key can be given.
    pub fn is_full(&self) -> (full: bool)
        ensures
            full == (next_key(self@) > i64::MAX),
            next_key(self@) >= i64::MIN + 1,
    {
        proof {
            use_type_invariant(self);
            lemma_next_key_of_rows::<T>(contents(self.rows@));
        }
        if self.rows.len() == 0 {
            false
        } else {
            self.rows[self.rows.len() - 1].key() == i64::MAX
        }
    }

    /// Of every table: each row sits under its own key, each key is the key
    /// of a row, and the keys are finitely many.
    pub proof fn lemma_view(&self)
        ensures
            keyed::<T>(self@),
            self@.dom().finite(),
            forall|k: int| #[trigger]
                self@.dom().contains(k) ==> exists|row: T| T::key_of(#[trigger] row@) == k,
    {
        let c = contents(self.rows@);
        lemma_keyed_map_is_keyed::<T>(c);
        assert forall|k: int| #[trigger] self@.dom().contains(k) implies exists|row: T|
            T::key_of(#[trigger] row@) == k by {
            let i = choose|i: int| 0 <= i < c.len() && T::key_of(#[trigger] c[i]) == k;
            assert(c[i] == self.rows@[i]@);
            assert(T::key_of(self.rows@[i]@) == k);
        }
    }

    /// Files `row` under its key, in place of the row that was filed there
    /// if there was one.
    pub fn insert(&mut self, row: T)
        ensures
            final(self)@ == old(self)@.insert(T::key_of(row@), row@),
    {
        proof {
            use_type_invariant(&*self);
        }
        let mut rows: Vec<T> = Vec::new();
        std::mem::swap(&mut rows, &mut self.rows);
        let ghost before = contents(rows@);
        let id = row.key();
        let p = Self::place(&rows, id);
        let ghost mut middle = before;
        if p < rows.len() && rows[p].key() == id {
            rows.remove(p);
            proof {
                assert(before[p as int] == old(self).rows[p as int]@);
                lemma_remove_at::<T>(before, p as int);
                middle = before.remove(p as int);
                assert(contents(rows@) =~= middle);
                assert forall|i: int| p <= i < middle.len() implies T::key_of(
                    #[trigger] middle[i],
                ) > id by {
                    assert(middle[i] == before[i + 1]);
                    assert(T::key_of(before[p as int]) < T::key_of(before[i + 1]));
                }
                assert forall|i: int| 0 <= i < p implies T::key_of(#[trigger] middle[i]) < id by {
                    assert(middle[i] == before[i]);
                }
            }
        } else {
            proof {
                assert forall|i: int| p <= i < middle.len() implies T::key_of(
                    #[trigger] middle[i],
                ) > id by {
                    assert(T::key_of(before[i]) >= id);
                    if i == p {
                        assert(before[p as int] == old(self).rows[p as int]@);
                    } else {
                        assert(before[p as int] == old(self).rows[p as int]@);
                        assert(T::key_of(before[p as int]) < T::key_of(before[i]));
                    }
                }
            }
        }
        rows.insert(p, row);
        proof {
            lemma_insert_at::<T>(middle, p as int, row@);
            assert(contents(rows@) =~= middle.insert(p as int, row@));
            assert(keyed_map::<T>(before).remove(id as int).insert(id as int, row@)
                =~= keyed_map::<T>(before).insert(id as int, row@));
        }
        self.rows = rows;
    }

    /// Takes out the row filed under `id`, if there is one, and hands it
    /// back.
    pub fn remove(&mut self, id: i64) -> (removed: Option<T>)
        ensures
            final(self)@ == old(self)@.remove(id as int),
            match removed {
                Some(row) => old(self)@.dom().contains(id as int) && row@ == old(self)@[id as int]
                    && T::key_of(row@) == id,
                None => !old(self)@.dom().contains(id as int),
            },
    {
        proof {
            use_type_invariant(&*self);
        }
        let mut rows: Vec<T> = Vec::new();
        std::mem::swap(&mut rows, &mut self.rows);
        let ghost before = contents(rows@);
        proof {
            lemma_keyed_map::<T>(before);
        }
        let p = Self::place(&rows, id);
        if p < rows.len() && rows[p].key() == id {
            let row = rows.remove(p);
            proof {
                assert(before[p as int] == row@);
                lemma_remove_at::<T>(before, p as int);
                assert(contents(rows@) =~= before.remove(p as int));
                assert(keyed_map::<T>(before)[T::key_of(before[p as int])] == before[p as int]);
            }
            self.rows = rows;
            Some(row)
        } else {
            proof {
                assert forall|i: int| 0 <= i < before.len() implies T::key_of(
                    #[trigger] before[i],
                ) != id by {
                    if i >= p {
                        assert(T::key_of(before[i]) >= id);
                        assert(before[p as int] == rows[p as int]@);
                        if i > p {
                            assert(T::key_of(before[p as int]) < T::key_of(before[i]));
                        }
                    }
                }
                lemma_key_absent::<T>(before, id as int);
                assert(keyed_map::<T>(before) =~= keyed_map::<T>(before).remove(id as int));
            }
            self.rows = rows;
            None
        }
    }
}

} // verus!
