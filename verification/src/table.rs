//! A keyed table: rows in insertion order, at most one per key, read as a map.
use vstd::prelude::*;

use crate::bytes;

verus! {

/// What a table can be keyed by.
pub trait Key: View + Sized {
    /// Whether two keys denote the same row.
    fn same(&self, other: &Self) -> (r: bool)
        ensures
            r == (self@ == other@),
    ;

    /// A second key for the same row.
    fn copied(&self) -> (r: Self)
        ensures
            r@ == self@,
    ;
}

/// What a table can hold.
pub trait Row: View + Sized {
    /// A second value with the same contents.
    fn copied(&self) -> (r: Self)
        ensures
            r@ == self@,
    ;
}

impl Key for String {
    fn same(&self, other: &Self) -> (r: bool) {
        *self == *other
    }

    fn copied(&self) -> (r: Self) {
        self.clone()
    }
}

impl Key for Vec<u8> {
    fn same(&self, other: &Self) -> (r: bool) {
        bytes::same_bytes(self.as_slice(), other.as_slice())
    }

    fn copied(&self) -> (r: Self) {
        bytes::to_vec(self.as_slice())
    }
}

impl Key for (String, String) {
    fn same(&self, other: &Self) -> (r: bool) {
        self.0 == other.0 && self.1 == other.1
    }

    fn copied(&self) -> (r: Self) {
        (self.0.clone(), self.1.clone())
    }
}

/// Whether one of the rows stands under the key.
pub open spec fn holds<K: Key, V: Row>(rows: Seq<(K, V)>, id: K::V) -> bool {
    exists|i: int| 0 <= i < rows.len() && (#[trigger] rows[i]).0@ == id
}

/// A row that stands under the key.
pub open spec fn place<K: Key, V: Row>(rows: Seq<(K, V)>, id: K::V) -> int {
    choose|i: int| 0 <= i < rows.len() && (#[trigger] rows[i]).0@ == id
}

/// Whether no two rows stand under one key.
pub open spec fn distinct<K: Key, V: Row>(rows: Seq<(K, V)>) -> bool {
    forall|i: int, j: int|
        0 <= i < j < rows.len() ==> (#[trigger] rows[i]).0@ != (#[trigger] rows[j]).0@
}

/// The map from the keys of some rows to their contents.
pub open spec fn map_of<K: Key, V: Row>(rows: Seq<(K, V)>) -> Map<K::V, V::V> {
    Map::new(|id: K::V| holds(rows, id), |id: K::V| rows[place(rows, id)].1@)
}

/// Rows keyed by `K`. The view is the map from keys to row contents.
pub struct Table<K, V> {
    rows: Vec<(K, V)>,
}

impl<K: Key, V: Row> View for Table<K, V> {
    type V = Map<K::V, V::V>;

    closed spec fn view(&self) -> Map<K::V, V::V> {
        map_of(self.rows@)
    }
}

/// A row of distinct rows is what the map gives for its key.
pub proof fn lemma_row<K: Key, V: Row>(rows: Seq<(K, V)>, i: int)
    requires
        distinct(rows),
        0 <= i < rows.len(),
    ensures
        map_of(rows).dom().contains(rows[i].0@),
        map_of(rows)[rows[i].0@] == rows[i].1@,
{
    let id = rows[i].0@;
    assert(holds(rows, id));
    let p = place(rows, id);
    assert(rows[p].0@ == id);
}

/// One more row under a new key is one more entry of the map.
pub proof fn lemma_push<K: Key, V: Row>(rows: Seq<(K, V)>, row: (K, V))
    requires
        distinct(rows),
        !holds(rows, row.0@),
    ensures
        distinct(rows.push(row)),
        map_of(rows.push(row)) == map_of(rows).insert(row.0@, row.1@),
{
    let more = rows.push(row);
    let n = rows.len() as int;
    assert forall|i: int| 0 <= i < n implies (#[trigger] more[i]).0@ != row.0@ by {
        assert(more[i] == rows[i]);
    }
    assert(distinct(more));
    assert forall|id: K::V| #[trigger] map_of(more).dom().contains(id) <==> map_of(rows).insert(
        row.0@,
        row.1@,
    ).dom().contains(id) by {
        if holds(more, id) {
            let p = place(more, id);
            if p != n {
                lemma_row(rows, p);
            }
        }
        if holds(rows, id) {
            let p = place(rows, id);
            assert(more[p].0@ == id);
        }
        assert(more[n].0@ == row.0@);
    }
    assert forall|id: K::V| #[trigger] map_of(more).dom().contains(id) implies map_of(more)[id]
        == map_of(rows).insert(row.0@, row.1@)[id] by {
        let p = place(more, id);
        lemma_row(more, p);
        if p != n {
            lemma_row(rows, p);
        }
    }
    assert(map_of(more) =~= map_of(rows).insert(row.0@, row.1@));
}

impl<K: Key, V: Row> Table<K, V> {
    /// No key has two rows.
    pub closed spec fn wf(&self) -> bool {
        distinct(self.rows@)
    }

    /// How many rows there are.
    pub closed spec fn count(&self) -> nat {
        self.rows@.len()
    }

    /// The key of the row in place `i`.
    pub closed spec fn key_at(&self, i: int) -> K::V {
        self.rows@[i].0@
    }

    proof fn lemma_at(&self, i: int)
        requires
            self.wf(),
            0 <= i < self.rows@.len(),
        ensures
            self@.dom().contains(self.rows@[i].0@),
            self@[self.rows@[i].0@] == self.rows@[i].1@,
    {
        lemma_row(self.rows@, i);
    }

    /// Each row is one entry of the map, and each entry of the map one row.
    pub proof fn lemma_rows(&self)
        requires
            self.wf(),
        ensures
            forall|i: int|
                0 <= i < self.count() ==> self@.dom().contains(#[trigger] self.key_at(i)),
            forall|i: int, j: int|
                0 <= i < j < self.count() ==> #[trigger] self.key_at(i) != #[trigger] self.key_at(j),
            forall|id: K::V| #[trigger]
                self@.dom().contains(id) ==> exists|i: int|
                    0 <= i < self.count() && #[trigger] self.key_at(i) == id,
    {
        assert forall|i: int| 0 <= i < self.count() implies self@.dom().contains(
            #[trigger] self.key_at(i),
        ) by {
            self.lemma_at(i);
        }
        assert forall|id: K::V| #[trigger] self@.dom().contains(id) implies exists|i: int|
            0 <= i < self.count() && #[trigger] self.key_at(i) == id by {
            let p = place(self.rows@, id);
            assert(self.key_at(p) == id);
        }
    }

    /// A table has finitely many rows.
    pub proof fn lemma_finite(&self)
        ensures
            self@.dom().finite(),
    {
        let ids = self.rows@.map_values(|r: (K, V)| r.0@).to_set();
        vstd::seq_lib::seq_to_set_is_finite(self.rows@.map_values(|r: (K, V)| r.0@));
        assert forall|id: K::V| #[trigger] self@.dom().contains(id) implies ids.contains(id) by {
            let p = place(self.rows@, id);
            assert(self.rows@.map_values(|r: (K, V)| r.0@)[p] == id);
        }
        vstd::set_lib::lemma_set_subset_finite(ids, self@.dom());
    }

    /// An empty table.
    pub fn new() -> (r: Self)
        ensures
            r.wf(),
            r@ == Map::<K::V, V::V>::empty(),
            r.count() == 0,
    {
        let r = Table { rows: Vec::new() };
        assert(r@ =~= Map::<K::V, V::V>::empty());
        r
    }

    fn find(&self, key: &K) -> (r: Option<usize>)
        requires
            self.wf(),
        ensures
            r is Some <==> self@.dom().contains(key@),
            r matches Some(i) ==> i < self.rows@.len() && self.rows@[i as int].0@ == key@
                && self@[key@] == self.rows@[i as int].1@,
    {
        let mut i: usize = 0;
        while i < self.rows.len()
            invariant
                self.wf(),
                i <= self.rows@.len(),
                forall|j: int| 0 <= j < i ==> (#[trigger] self.rows@[j]).0@ != key@,
            decreases self.rows@.len() - i,
        {
            if self.rows[i].0.same(key) {
                proof {
                    self.lemma_at(i as int);
                }
                return Some(i);
            }
            i = i + 1;
        }
        None
    }

    /// Whether there is a row under `key`.
    pub fn contains(&self, key: &K) -> (r: bool)
        requires
            self.wf(),
        ensures
            r == self@.dom().contains(key@),
    {
        self.find(key).is_some()
    }

    /// The row under `key`, if there is one.
    pub fn get(&self, key: &K) -> (r: Option<&V>)
        requires
            self.wf(),
        ensures
            r is Some <==> self@.dom().contains(key@),
            r matches Some(v) ==> v@ == self@[key@],
    {
        match self.find(key) {
            Some(i) => Some(&self.rows[i].1),
            None => None,
        }
    }

    /// Inserts a row, in place of the one under the same key if there is one.
    pub fn put(&mut self, key: K, value: V)
        requires
            old(self).wf(),
        ensures
            final(self).wf(),
            final(self)@ == old(self)@.insert(key@, value@),
    {
        let ghost before = *self;
        match self.find(&key) {
            Some(i) => {
                self.rows.set(i, (key, value));
                proof {
                    let rows = self.rows@;
                    assert forall|id: K::V| #[trigger] self@.dom().contains(id) <==> before@.insert(
                        key@,
                        value@,
                    ).dom().contains(id) by {
                        if holds(rows, id) {
                            let p = place(rows, id);
                            if p != i {
                                before.lemma_at(p);
                            }
                        }
                        if before@.dom().contains(id) {
                            let p = place(before.rows@, id);
                            assert(rows[p].0@ == id);
                        }
                        assert(rows[i as int].0@ == key@);
                    }
                    assert forall|id: K::V| #[trigger] self@.dom().contains(id) implies self@[id]
                        == before@.insert(key@, value@)[id] by {
                        let p = place(rows, id);
                        self.lemma_at(p);
                        if p != i {
                            before.lemma_at(p);
                        }
                    }
                    assert(self@ =~= before@.insert(key@, value@));
                }
            },
            None => {
                proof {
                    lemma_push(self.rows@, (key, value));
                }
                self.rows.push((key, value));
            },
        }
    }

    /// Takes out the row under `key`, if there is one, and says whether there was.
    pub fn remove(&mut self, key: &K) -> (r: bool)
        requires
            old(self).wf(),
        ensures
            final(self).wf(),
            final(self)@ == old(self)@.remove(key@),
            r == old(self)@.dom().contains(key@),
    {
        let ghost before = *self;
        match self.find(key) {
            Some(i) => {
                self.rows.remove(i);
                proof {
                    let rows = self.rows@;
                    assert forall|id: K::V| #[trigger] self@.dom().contains(id) <==> before@.remove(
                        key@,
                    ).dom().contains(id) by {
                        if holds(rows, id) {
                            let p = place(rows, id);
                            let q = if p < i { p } else { p + 1 };
                            assert(before.rows@[q].0@ == id);
                            before.lemma_at(q);
                        }
                        if before@.remove(key@).dom().contains(id) {
                            let p = place(before.rows@, id);
                            let q = if p < i { p } else { p - 1 };
                            assert(rows[q].0@ == id);
                        }
                    }
                    assert forall|id: K::V| #[trigger] self@.dom().contains(id) implies self@[id]
                        == before@.remove(key@)[id] by {
                        let p = place(rows, id);
                        self.lemma_at(p);
                        let q = if p < i { p } else { p + 1 };
                        assert(before.rows@[q] == rows[p]);
                        before.lemma_at(q);
                    }
                    assert(self@ =~= before@.remove(key@));
                }
                true
            },
            None => {
                assert(self@ =~= before@.remove(key@));
                false
            },
        }
    }

    /// How many rows there are.
    pub fn len(&self) -> (r: usize)
        ensures
            r == self.count(),
    {
        self.rows.len()
    }

    /// The row in place `i`.
    pub fn row(&self, i: usize) -> (r: (&K, &V))
        requires
            self.wf(),
            i < self.count(),
        ensures
            r.0@ == self.key_at(i as int),
            self@.dom().contains(r.0@),
            r.1@ == self@[r.0@],
    {
        proof {
            self.lemma_at(i as int);
        }
        (&self.rows[i].0, &self.rows[i].1)
    }

    /// The rows, one per key.
    pub fn to_rows(&self) -> (r: Vec<(K, V)>)
        requires
            self.wf(),
        ensures
            distinct(r@),
            map_of(r@) == self@,
            r@.len() == self.count(),
            forall|i: int| 0 <= i < r@.len() ==> (#[trigger] r@[i]).0@ == self.key_at(i),
    {
        let mut out: Vec<(K, V)> = Vec::new();
        let mut i: usize = 0;
        while i < self.rows.len()
            invariant
                self.wf(),
                i <= self.rows@.len(),
                out@.len() == i,
                forall|j: int|
                    0 <= j < i ==> (#[trigger] out@[j]).0@ == self.rows@[j].0@ && out@[j].1@
                        == self.rows@[j].1@,
            decreases self.rows@.len() - i,
        {
            out.push((self.rows[i].0.copied(), self.rows[i].1.copied()));
            i = i + 1;
        }
        proof {
            assert forall|a: int, b: int| 0 <= a < b < out@.len() implies (#[trigger] out@[a]).0@
                != (#[trigger] out@[b]).0@ by {
                assert(self.rows@[a].0@ != self.rows@[b].0@);
            }
            lemma_same_map(out@, self.rows@);
        }
        out
    }

    /// The table made of some rows; none where two of them have the same key.
    pub fn from_rows(rows: Vec<(K, V)>) -> (r: Option<Self>)
        ensures
            r is Some <==> distinct(rows@),
            r matches Some(t) ==> t.wf() && t@ == map_of(rows@),
    {
        let mut i: usize = 0;
        while i < rows.len()
            invariant
                i <= rows@.len(),
                forall|a: int, b: int|
                    0 <= a < b < i ==> (#[trigger] rows@[a]).0@ != (#[trigger] rows@[b]).0@,
            decreases rows@.len() - i,
        {
            let mut j: usize = 0;
            while j < i
                invariant
                    j <= i < rows@.len(),
                    forall|a: int| 0 <= a < j ==> (#[trigger] rows@[a]).0@ != rows@[i as int].0@,
                decreases i - j,
            {
                if rows[j].0.same(&rows[i].0) {
                    return None;
                }
                j = j + 1;
            }
            i = i + 1;
        }
        Some(Table { rows })
    }

    /// A second table with the same rows.
    pub fn copied(&self) -> (r: Self)
        requires
            self.wf(),
        ensures
            r.wf(),
            r@ == self@,
    {
        let rows = self.to_rows();
        Table { rows }
    }
}

/// Rows with the same keys and contents, place by place, are the same map.
pub proof fn lemma_same_map<K: Key, V: Row>(a: Seq<(K, V)>, b: Seq<(K, V)>)
    requires
        distinct(a),
        distinct(b),
        a.len() == b.len(),
        forall|i: int|
            0 <= i < a.len() ==> (#[trigger] a[i]).0@ == b[i].0@ && a[i].1@ == b[i].1@,
    ensures
        map_of(a) == map_of(b),
{
    assert forall|id: K::V| #[trigger] map_of(a).dom().contains(id) <==> map_of(b).dom().contains(
        id,
    ) by {
        if holds(a, id) {
            let p = place(a, id);
            assert(b[p].0@ == id);
        }
        if holds(b, id) {
            let p = place(b, id);
            assert(a[p].0@ == id);
        }
    }
    assert forall|id: K::V| #[trigger] map_of(a).dom().contains(id) implies map_of(a)[id] == map_of(
        b,
    )[id] by {
        let p = place(a, id);
        lemma_row(a, p);
        assert(a[p].0@ == b[p].0@);
        lemma_row(b, p);
    }
    assert(map_of(a) =~= map_of(b));
}

} // verus!
