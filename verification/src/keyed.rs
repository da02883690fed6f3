//! A small table of unique keys.

use vstd::prelude::*;

use crate::text::same;

verus! {

/// A key that can be compared by its view.
pub trait Keyed: View {
    fn same_key(&self, other: &Self) -> (same: bool)
        ensures
            same == (self@ == other@),
    ;
}

impl Keyed for String {
    fn same_key(&self, other: &Self) -> (is_same: bool) {
        same(self.as_str(), other.as_str())
    }
}

impl Keyed for u128 {
    fn same_key(&self, other: &Self) -> (is_same: bool) {
        *self == *other
    }
}

/// The map of a sequence of rows: a later row wins.
pub open spec fn rows_map<K: Keyed, V>(rows: Seq<(K, V)>) -> Map<K::V, V>
    decreases rows.len(),
{
    if rows.len() == 0 {
        Map::empty()
    } else {
        rows_map(rows.drop_last()).insert(rows.last().0@, rows.last().1)
    }
}

/// No key occurs twice.
pub open spec fn distinct<K: Keyed, V>(rows: Seq<(K, V)>) -> bool {
    forall|i: int, j: int|
        0 <= i < j < rows.len() ==> (#[trigger] rows[i]).0@ != (#[trigger] rows[j]).0@
}

/// A table of unique keys.
pub struct Table<K: Keyed, V> {
    rows: Vec<(K, V)>,
}

impl<K: Keyed, V> View for Table<K, V> {
    type V = Map<K::V, V>;

    closed spec fn view(&self) -> Map<K::V, V> {
        rows_map(self.rows@)
    }
}

/// What a table of distinct rows maps.
proof fn lemma_rows<K: Keyed, V>(rows: Seq<(K, V)>)
    requires
        distinct(rows),
    ensures
        forall|i: int|
            0 <= i < rows.len() ==> rows_map(rows).contains_key((#[trigger] rows[i]).0@)
                && rows_map(rows)[rows[i].0@] == rows[i].1,
        forall|k: K::V| #[trigger]
            rows_map(rows).contains_key(k) ==> exists|i: int|
                0 <= i < rows.len() && (#[trigger] rows[i]).0@ == k,
        rows_map(rows).dom().finite(),
        rows_map(rows).dom().len() == rows.len(),
    decreases rows.len(),
{
    if rows.len() > 0 {
        let head = rows.drop_last();
        assert(distinct(head)) by {
            assert forall|i: int, j: int| 0 <= i < j < head.len() implies (#[trigger] head[i]).0@
                != (#[trigger] head[j]).0@ by {
                assert(rows[i].0@ != rows[j].0@);
            }
        }
        lemma_rows(head);
        let last = rows.len() - 1;
        assert forall|i: int| 0 <= i < rows.len() implies rows_map(rows).contains_key(
            (#[trigger] rows[i]).0@,
        ) && rows_map(rows)[rows[i].0@] == rows[i].1 by {
            if i < last {
                assert(rows[i] == head[i]);
                assert(rows[i].0@ != rows[last].0@);
            }
        }
        assert forall|k: K::V| #[trigger] rows_map(rows).contains_key(k) implies exists|i: int|
            0 <= i < rows.len() && (#[trigger] rows[i]).0@ == k by {
            if k == rows[last].0@ {
            } else {
                assert(rows_map(head).contains_key(k));
                let i = choose|i: int| 0 <= i < head.len() && (#[trigger] head[i]).0@ == k;
                assert(rows[i].0@ == k);
            }
        }
        assert(!rows_map(head).contains_key(rows[last].0@)) by {
            if rows_map(head).contains_key(rows[last].0@) {
                let i = choose|i: int|
                    0 <= i < head.len() && (#[trigger] head[i]).0@ == rows[last].0@;
                assert(rows[i].0@ != rows[last].0@);
            }
        }
        assert(rows_map(rows).dom() =~= rows_map(head).dom().insert(rows[last].0@));
    }
}

impl<K: Keyed, V> Table<K, V> {
    /// Unique keys.
    pub closed spec fn wf(&self) -> bool {
        distinct(self.rows@)
    }

    /// The number of rows.
    pub closed spec fn count(&self) -> nat {
        self.rows@.len()
    }

    /// The row of number `i`, in an order of the table's own.
    pub closed spec fn row(&self, i: int) -> (K, V) {
        self.rows@[i]
    }

    pub fn new() -> (table: Self)
        ensures
            table.wf(),
            table@ == Map::<K::V, V>::empty(),
            table.count() == 0,
    {
        Table { rows: Vec::new() }
    }

    pub fn len(&self) -> (n: usize)
        requires
            self.wf(),
        ensures
            n == self.count(),
            self@.dom().finite(),
            n == self@.dom().len(),
    {
        proof {
            lemma_rows(self.rows@);
        }
        self.rows.len()
    }

    /// The rows and the map say the same.
    pub proof fn lemma_row(&self)
        requires
            self.wf(),
        ensures
            self@.dom().finite(),
            self.count() == self@.dom().len(),
            forall|i: int|
                0 <= i < self.count() ==> self@.contains_key((#[trigger] self.row(i)).0@)
                    && self@[self.row(i).0@] == self.row(i).1,
            forall|k: K::V| #[trigger]
                self@.contains_key(k) ==> exists|i: int|
                    0 <= i < self.count() && (#[trigger] self.row(i)).0@ == k,
            forall|i: int, j: int|
                0 <= i < j < self.count() ==> (#[trigger] self.row(i)).0@ != (
                #[trigger] self.row(j)).0@,
    {
        lemma_rows(self.rows@);
        assert forall|k: K::V| #[trigger] self@.contains_key(k) implies exists|i: int|
            0 <= i < self.count() && (#[trigger] self.row(i)).0@ == k by {
            let i = choose|i: int| 0 <= i < self.rows@.len() && (#[trigger] self.rows@[i]).0@ == k;
            assert(self.row(i).0@ == k);
        }
        assert forall|i: int, j: int| 0 <= i < j < self.count() implies (#[trigger] self.row(i)).0@
            != (#[trigger] self.row(j)).0@ by {
            assert(self.rows@[i].0@ != self.rows@[j].0@);
        }
    }

    /// The row of number `i`.
    pub fn at(&self, i: usize) -> (row: &(K, V))
        requires
            i < self.count(),
        ensures
            *row == self.row(i as int),
    {
        &self.rows[i]
    }

    /// The number of the row of `key`.
    pub fn find(&self, key: &K) -> (at: Option<usize>)
        requires
            self.wf(),
        ensures
            match at {
                Some(i) => i < self.count() && self.row(i as int).0@ == key@ && self@.contains_key(
                    key@,
                ) && self@[key@] == self.row(i as int).1,
                None => !self@.contains_key(key@),
            },
    {
        let mut i: usize = 0;
        proof {
            lemma_rows(self.rows@);
        }
        while i < self.rows.len()
            invariant
                i <= self.rows@.len(),
                forall|j: int| 0 <= j < i ==> (#[trigger] self.rows@[j]).0@ != key@,
                forall|j: int|
                    0 <= j < self.rows@.len() ==> self@.contains_key((#[trigger] self.rows@[j]).0@)
                        && self@[self.rows@[j].0@] == self.rows@[j].1,
            decreases self.rows@.len() - i,
        {
            if self.rows[i].0.same_key(key) {
                return Some(i);
            }
            i += 1;
        }
        proof {
            if self@.contains_key(key@) {
                let j = choose|j: int|
                    0 <= j < self.rows@.len() && (#[trigger] self.rows@[j]).0@ == key@;
                assert(self.rows@[j].0@ != key@);
            }
        }
        None
    }

    /// The value of `key`.
    pub fn get(&self, key: &K) -> (value: Option<&V>)
        requires
            self.wf(),
        ensures
            match value {
                Some(v) => self@.contains_key(key@) && self@[key@] == *v,
                None => !self@.contains_key(key@),
            },
    {
        match self.find(key) {
            Some(i) => Some(&self.rows[i].1),
            None => None,
        }
    }

    /// Adds a row for a key that has none.
    pub fn add_absent(&mut self, key: K, value: V)
        requires
            old(self).wf(),
            !old(self)@.contains_key(key@),
        ensures
            final(self).wf(),
            final(self)@ == old(self)@.insert(key@, value),
    {
        let ghost before = self.rows@;
        proof {
            lemma_rows(before);
        }
        self.rows.push((key, value));
        proof {
            let now = self.rows@;
            assert(now.drop_last() =~= before);
            assert forall|i: int, j: int| 0 <= i < j < now.len() implies (#[trigger] now[i]).0@ != (
            #[trigger] now[j]).0@ by {
                if j < before.len() {
                    assert(before[i].0@ != before[j].0@);
                } else {
                    assert(now[i] == before[i]);
                    assert(rows_map(before).contains_key(before[i].0@));
                }
            }
        }
    }

    /// Takes out the row of number `i`.
    pub fn take(&mut self, i: usize) -> (row: (K, V))
        requires
            old(self).wf(),
            i < old(self).count(),
        ensures
            final(self).wf(),
            row == old(self).row(i as int),
            final(self)@ == old(self)@.remove(row.0@),
            final(self).count() == old(self).count() - 1,
            forall|j: int|
                0 <= j < final(self).count() ==> #[trigger] final(self).row(j) == (if j < i {
                    old(self).row(j)
                } else {
                    old(self).row(j + 1)
                }),
    {
        let ghost before = self.rows@;
        let row = self.rows.remove(i);
        proof {
            let now = self.rows@;
            assert(distinct(now)) by {
                assert forall|a: int, b: int| 0 <= a < b < now.len() implies (#[trigger] now[a]).0@
                    != (#[trigger] now[b]).0@ by {
                    let x = if a < i { a } else { a + 1 };
                    let y = if b < i { b } else { b + 1 };
                    assert(before[x].0@ != before[y].0@);
                }
            }
            lemma_rows(before);
            lemma_rows(now);
            assert forall|k: K::V| #[trigger] rows_map(now).dom().contains(k) <==> rows_map(
                before,
            ).remove(row.0@).dom().contains(k) by {
                if rows_map(now).contains_key(k) {
                    let a = choose|a: int| 0 <= a < now.len() && (#[trigger] now[a]).0@ == k;
                    let x = if a < i { a } else { a + 1 };
                    assert(before[x].0@ == k);
                    assert(before[x].0@ != before[i as int].0@);
                }
                if rows_map(before).contains_key(k) && k != row.0@ {
                    let x = choose|x: int| 0 <= x < before.len() && (#[trigger] before[x]).0@ == k;
                    let a = if x < i { x } else { x - 1 };
                    assert(now[a].0@ == k);
                }
            }
            assert forall|k: K::V| rows_map(now).contains_key(k) implies #[trigger] rows_map(now)[k]
                == rows_map(before).remove(row.0@)[k] by {
                let a = choose|a: int| 0 <= a < now.len() && (#[trigger] now[a]).0@ == k;
                let x = if a < i { a } else { a + 1 };
                assert(before[x] == now[a]);
                assert(before[x].0@ == k);
            }
            assert(rows_map(now) =~= rows_map(before).remove(row.0@));
        }
        row
    }

    /// Takes out the value of `key`.
    pub fn take_key(&mut self, key: &K) -> (value: Option<V>)
        requires
            old(self).wf(),
        ensures
            final(self).wf(),
            final(self)@ == old(self)@.remove(key@),
            match value {
                Some(v) => old(self)@.contains_key(key@) && old(self)@[key@] == v,
                None => !old(self)@.contains_key(key@),
            },
    {
        match self.find(key) {
            Some(i) => {
                let row = self.take(i);
                Some(row.1)
            },
            None => {
                assert(self@.remove(key@) =~= self@);
                None
            },
        }
    }

    /// Sets the value of `key`.
    pub fn put(&mut self, key: K, value: V)
        requires
            old(self).wf(),
        ensures
            final(self).wf(),
            final(self)@ == old(self)@.insert(key@, value),
    {
        self.drop_key(&key);
        self.add_absent(key, value);
        assert(self@ =~= old(self)@.insert(key@, value));
    }

    /// Removes the row of `key`, if there is one.
    pub fn drop_key(&mut self, key: &K)
        requires
            old(self).wf(),
        ensures
            final(self).wf(),
            final(self)@ == old(self)@.remove(key@),
    {
        match self.find(key) {
            Some(i) => {
                let row = self.take(i);
            },
            None => {
                assert(self@.remove(key@) =~= self@);
            },
        }
    }
}

} // verus!
