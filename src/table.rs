//! A keyed table: the in-memory model of one typed column family.
use vstd::prelude::*;

verus! {

/// A key that can be compared by its view.
pub trait Key: View + Sized {
    fn same(&self, other: &Self) -> (r: bool)
        ensures
            r == (self@ == other@),
    ;

    fn duplicate(&self) -> (r: Self)
        ensures
            r@ == self@,
    ;
}

impl Key for Vec<u8> {
    fn same(&self, other: &Self) -> (r: bool) {
        if self.len() != other.len() {
            assert(self@.len() != other@.len());
            return false;
        }
        let mut i: usize = 0;
        while i < self.len()
            invariant
                self.len() == other.len(),
                i <= self.len(),
                forall|j: int| 0 <= j < i ==> self@[j] == other@[j],
            decreases self.len() - i,
        {
            if self[i] != other[i] {
                return false;
            }
            i = i + 1;
        }
        assert(self@ =~= other@);
        true
    }

    fn duplicate(&self) -> (r: Self) {
        let mut out: Vec<u8> = Vec::new();
        let mut i: usize = 0;
        while i < self.len()
            invariant
                i <= self.len(),
                out@ =~= self@.take(i as int),
            decreases self.len() - i,
        {
            out.push(self[i]);
            i = i + 1;
            assert(out@ =~= self@.take(i as int));
        }
        assert(self@.take(self.len() as int) =~= self@);
        out
    }
}

impl Key for String {
    fn same(&self, other: &Self) -> (r: bool) {
        self.eq(other)
    }

    fn duplicate(&self) -> (r: Self) {
        self.clone()
    }
}

impl Key for u64 {
    fn same(&self, other: &Self) -> (r: bool) {
        *self == *other
    }

    fn duplicate(&self) -> (r: Self) {
        *self
    }
}

impl Key for u32 {
    fn same(&self, other: &Self) -> (r: bool) {
        *self == *other
    }

    fn duplicate(&self) -> (r: Self) {
        *self
    }
}

impl<A: Key, B: Key> Key for (A, B) {
    fn same(&self, other: &Self) -> (r: bool) {
        self.0.same(&other.0) && self.1.same(&other.1)
    }

    fn duplicate(&self) -> (r: Self) {
        (self.0.duplicate(), self.1.duplicate())
    }
}

impl<A: Key, B: Key, C: Key> Key for (A, B, C) {
    fn same(&self, other: &Self) -> (r: bool) {
        self.0.same(&other.0) && self.1.same(&other.1) && self.2.same(&other.2)
    }

    fn duplicate(&self) -> (r: Self) {
        (self.0.duplicate(), self.1.duplicate(), self.2.duplicate())
    }
}

/// Rows of a table, each key present at most once.
pub struct Table<K, V> {
    entries: Vec<(K, V)>,
}

/// The map that a list of rows with distinct keys stands for.
pub open spec fn rows_map<KV, V>(rows: Seq<(KV, V)>) -> Map<KV, V> {
    Map::new(
        |k: KV| exists|i: int| 0 <= i < rows.len() && rows[i].0 == k,
        |k: KV| rows[choose|i: int| 0 <= i < rows.len() && rows[i].0 == k].1,
    )
}

pub open spec fn keys_distinct<KV, V>(rows: Seq<(KV, V)>) -> bool {
    forall|i: int, j: int| 0 <= i < j < rows.len() ==> rows[i].0 != rows[j].0
}

impl<K: Key, V> Table<K, V> {
    /// The rows as key views and values, in storage order.
    pub closed spec fn rows(&self) -> Seq<(K::V, V)> {
        self.entries@.map_values(|e: (K, V)| (e.0@, e.1))
    }

    pub open spec fn wf(&self) -> bool {
        keys_distinct(self.rows())
    }

    pub open spec fn view(&self) -> Map<K::V, V> {
        rows_map(self.rows())
    }

    proof fn lemma_row_value(rows: Seq<(K::V, V)>, i: int)
        requires
            keys_distinct(rows),
            0 <= i < rows.len(),
        ensures
            rows_map(rows).contains_key(rows[i].0),
            rows_map(rows)[rows[i].0] == rows[i].1,
    {
        let k = rows[i].0;
        assert(rows_map(rows).contains_key(k));
        let j = choose|j: int| 0 <= j < rows.len() && rows[j].0 == k;
        assert(j == i) by {
            if j < i {
            } else if i < j {
            }
        }
    }

    /// Every row stands in the map under its key.
    pub proof fn lemma_rows(&self)
        requires
            self.wf(),
        ensures
            forall|i: int|
                0 <= i < self.rows().len() ==> #[trigger] self@.contains_key(self.rows()[i].0)
                    && self@[self.rows()[i].0] == self.rows()[i].1,
            forall|k: K::V|
                #[trigger] self@.contains_key(k) ==> exists|i: int|
                    0 <= i < self.rows().len() && self.rows()[i].0 == k,
            self.rows().len() == self@.dom().len(),
    {
        assert forall|i: int| 0 <= i < self.rows().len() implies #[trigger] self@.contains_key(
            self.rows()[i].0,
        ) && self@[self.rows()[i].0] == self.rows()[i].1 by {
            Self::lemma_row_value(self.rows(), i);
        }
        Self::lemma_dom_len(self.rows());
    }

    proof fn lemma_dom_len(rows: Seq<(K::V, V)>)
        requires
            keys_distinct(rows),
        ensures
            rows_map(rows).dom().len() == rows.len(),
            rows_map(rows).dom().finite(),
        decreases rows.len(),
    {
        if rows.len() == 0 {
            assert(rows_map(rows).dom() =~= Set::empty());
        } else {
            let front = rows.drop_last();
            Self::lemma_dom_len(front);
            let k = rows.last().0;
            assert(rows_map(rows).dom() =~= rows_map(front).dom().insert(k)) by {
                assert forall|x: K::V| #[trigger] rows_map(rows).dom().contains(x) implies rows_map(
                    front,
                ).dom().insert(k).contains(x) by {
                    let i = choose|i: int| 0 <= i < rows.len() && rows[i].0 == x;
                    if i < rows.len() - 1 {
                        assert(front[i].0 == x);
                    }
                }
                assert forall|x: K::V| #[trigger] rows_map(front).dom().insert(k).contains(
                    x,
                ) implies rows_map(rows).dom().contains(x) by {
                    if x == k {
                        assert(rows[rows.len() - 1].0 == x);
                    } else {
                        let i = choose|i: int| 0 <= i < front.len() && front[i].0 == x;
                        assert(rows[i].0 == x);
                    }
                }
            }
            assert(!rows_map(front).dom().contains(k)) by {
                if rows_map(front).dom().contains(k) {
                    let i = choose|i: int| 0 <= i < front.len() && front[i].0 == k;
                    assert(rows[i].0 == rows[rows.len() - 1].0);
                }
            }
        }
    }

    proof fn lemma_update(rows: Seq<(K::V, V)>, i: int, v: V)
        requires
            keys_distinct(rows),
            0 <= i < rows.len(),
        ensures
            keys_distinct(rows.update(i, (rows[i].0, v))),
            rows_map(rows.update(i, (rows[i].0, v))) == rows_map(rows).insert(rows[i].0, v),
    {
        let k = rows[i].0;
        let after = rows.update(i, (k, v));
        let m = rows_map(rows).insert(k, v);
        assert forall|x: K::V| #[trigger] rows_map(after).contains_key(x) implies m.contains_key(x) by {
            let j = choose|j: int| 0 <= j < after.len() && after[j].0 == x;
            assert(rows[j].0 == x);
        }
        assert forall|x: K::V| #[trigger] m.contains_key(x) implies rows_map(after).contains_key(x) by {
            let j = choose|j: int| 0 <= j < rows.len() && rows[j].0 == x;
            assert(after[j].0 == x);
        }
        assert(rows_map(after).dom() =~= m.dom());
        assert forall|x: K::V| #[trigger] rows_map(after).contains_key(x) implies rows_map(after)[x]
            == m[x] by {
            let j = choose|j: int| 0 <= j < after.len() && after[j].0 == x;
            Self::lemma_row_value(after, j);
            if x != k {
                Self::lemma_row_value(rows, j);
            }
        }
        assert(rows_map(after) =~= m);
    }

    pub proof fn lemma_push(rows: Seq<(K::V, V)>, k: K::V, v: V)
        requires
            keys_distinct(rows),
            !rows_map(rows).contains_key(k),
        ensures
            keys_distinct(rows.push((k, v))),
            rows_map(rows.push((k, v))) == rows_map(rows).insert(k, v),
    {
        let after = rows.push((k, v));
        assert(keys_distinct(after)) by {
            assert forall|i: int, j: int| 0 <= i < j < after.len() implies after[i].0
                != after[j].0 by {
                if j == rows.len() {
                    Self::lemma_row_value(rows, i);
                }
            }
        }
        let m = rows_map(rows).insert(k, v);
        assert forall|x: K::V| #[trigger] rows_map(after).contains_key(x) implies m.contains_key(x) by {
            let j = choose|j: int| 0 <= j < after.len() && after[j].0 == x;
            if j < rows.len() {
                assert(rows[j].0 == x);
            }
        }
        assert forall|x: K::V| #[trigger] m.contains_key(x) implies rows_map(after).contains_key(x) by {
            if x == k {
                assert(after[rows.len() as int].0 == x);
            } else {
                let j = choose|j: int| 0 <= j < rows.len() && rows[j].0 == x;
                assert(after[j].0 == x);
            }
        }
        assert(rows_map(after).dom() =~= m.dom());
        assert forall|x: K::V| #[trigger] rows_map(after).contains_key(x) implies rows_map(after)[x]
            == m[x] by {
            let j = choose|j: int| 0 <= j < after.len() && after[j].0 == x;
            Self::lemma_row_value(after, j);
            if x != k {
                Self::lemma_row_value(rows, j);
            }
        }
        assert(rows_map(after) =~= m);
    }

    pub fn new() -> (r: Self)
        ensures
            r.wf(),
            r@ == Map::<K::V, V>::empty(),
    {
        let r = Table { entries: Vec::new() };
        assert(r@ =~= Map::<K::V, V>::empty());
        r
    }

    pub fn len(&self) -> (r: usize)
        requires
            self.wf(),
        ensures
            r == self@.dom().len(),
            r == self.rows().len(),
    {
        proof {
            self.lemma_rows();
        }
        self.entries.len()
    }

    /// The row at a position of the storage order.
    pub fn row(&self, i: usize) -> (r: (&K, &V))
        requires
            self.wf(),
            i < self.rows().len(),
        ensures
            r.0@ == self.rows()[i as int].0,
            *r.1 == self.rows()[i as int].1,
            self@.contains_key(r.0@),
            self@[r.0@] == *r.1,
    {
        proof {
            self.lemma_rows();
        }
        let e = &self.entries[i];
        (&e.0, &e.1)
    }

    fn position(&self, k: &K) -> (r: Option<usize>)
        requires
            self.wf(),
        ensures
            match r {
                Some(i) => i < self.rows().len() && self.rows()[i as int].0 == k@,
                None => !self@.contains_key(k@),
            },
    {
        let mut i: usize = 0;
        while i < self.entries.len()
            invariant
                self.wf(),
                i <= self.entries.len(),
                forall|j: int| 0 <= j < i ==> self.rows()[j].0 != k@,
            decreases self.entries.len() - i,
        {
            if self.entries[i].0.same(k) {
                return Some(i);
            }
            i = i + 1;
        }
        proof {
            if self@.contains_key(k@) {
                let j = choose|j: int| 0 <= j < self.rows().len() && self.rows()[j].0 == k@;
            }
        }
        None
    }

    pub fn contains_key(&self, k: &K) -> (r: bool)
        requires
            self.wf(),
        ensures
            r == self@.contains_key(k@),
    {
        proof {
            self.lemma_rows();
        }
        self.position(k).is_some()
    }

    pub fn get(&self, k: &K) -> (r: Option<&V>)
        requires
            self.wf(),
        ensures
            match r {
                Some(v) => self@.contains_key(k@) && self@[k@] == *v,
                None => !self@.contains_key(k@),
            },
    {
        proof {
            self.lemma_rows();
        }
        match self.position(k) {
            Some(i) => Some(&self.entries[i].1),
            None => None,
        }
    }

    pub fn insert(&mut self, k: K, v: V)
        requires
            old(self).wf(),
        ensures
            final(self).wf(),
            final(self)@ == old(self)@.insert(k@, v),
    {
        let ghost kv = k@;
        match self.position(&k) {
            Some(i) => {
                let ghost before = self.rows();
                self.entries.set(i, (k, v));
                proof {
                    assert(self.rows() =~= before.update(i as int, (kv, v)));
                    Self::lemma_update(before, i as int, v);
                }
            },
            None => {
                let ghost before = self.rows();
                self.entries.push((k, v));
                proof {
                    assert(self.rows() =~= before.push((kv, v)));
                    Self::lemma_push(before, kv, v);
                }
            },
        }
    }

    pub fn remove(&mut self, k: &K) -> (r: Option<V>)
        requires
            old(self).wf(),
        ensures
            final(self).wf(),
            final(self)@ == old(self)@.remove(k@),
            match r {
                Some(v) => old(self)@.contains_key(k@) && old(self)@[k@] == v,
                None => !old(self)@.contains_key(k@),
            },
    {
        match self.position(k) {
            Some(i) => {
                let ghost before = self.rows();
                let ghost kv = k@;
                let e = self.entries.remove(i);
                proof {
                    Self::lemma_row_value(before, i as int);
                    assert(self.rows() =~= before.remove(i as int));
                    let after = self.rows();
                    assert(keys_distinct(after)) by {
                        assert forall|a: int, b: int| 0 <= a < b < after.len() implies after[a].0
                            != after[b].0 by {
                            let a0 = if a < i { a } else { a + 1 };
                            let b0 = if b < i { b } else { b + 1 };
                            assert(after[a] == before[a0]);
                            assert(after[b] == before[b0]);
                        }
                    }
                    assert(self@ =~= old(self)@.remove(kv)) by {
                        assert forall|x: K::V| #[trigger] self@.contains_key(x) == old(
                            self,
                        )@.remove(kv).contains_key(x) by {
                            if x != kv && old(self)@.contains_key(x) {
                                let j = choose|j: int| 0 <= j < before.len() && before[j].0 == x;
                                let j2 = if j < i { j } else { j - 1 };
                                assert(after[j2].0 == x);
                            }
                            if self@.contains_key(x) {
                                let j = choose|j: int| 0 <= j < after.len() && after[j].0 == x;
                                let j0 = if j < i { j } else { j + 1 };
                                assert(before[j0].0 == x);
                            }
                        }
                        assert forall|x: K::V| #[trigger] self@.contains_key(x) implies self@[x]
                            == old(self)@.remove(kv)[x] by {
                            let j = choose|j: int| 0 <= j < after.len() && after[j].0 == x;
                            let j0 = if j < i { j } else { j + 1 };
                            Self::lemma_row_value(after, j);
                            Self::lemma_row_value(before, j0);
                        }
                    }
                }
                Some(e.1)
            },
            None => {
                assert(old(self)@.remove(k@) =~= old(self)@);
                None
            },
        }
    }
}

/// Rows mapped value by value stand for the mapped map.
pub proof fn lemma_rows_map_values<KV, V, W>(rows: Seq<(KV, V)>, out: Seq<(KV, W)>, f: spec_fn(V) -> W)
    requires
        keys_distinct(rows),
        out.len() == rows.len(),
        forall|i: int| 0 <= i < rows.len() ==> #[trigger] out[i] == (rows[i].0, f(rows[i].1)),
    ensures
        keys_distinct(out),
        rows_map(out) == Map::new(
            |k: KV| rows_map(rows).contains_key(k),
            |k: KV| f(rows_map(rows)[k]),
        ),
{
    assert forall|i: int, j: int| 0 <= i < j < out.len() implies out[i].0 != out[j].0 by {
        assert(out[i].0 == rows[i].0);
        assert(out[j].0 == rows[j].0);
    }
    let m = Map::new(|k: KV| rows_map(rows).contains_key(k), |k: KV| f(rows_map(rows)[k]));
    assert forall|k: KV| #[trigger] rows_map(out).contains_key(k) == m.contains_key(k) by {
        if rows_map(out).contains_key(k) {
            let i = choose|i: int| 0 <= i < out.len() && out[i].0 == k;
            assert(rows[i].0 == k);
        }
        if m.contains_key(k) {
            let i = choose|i: int| 0 <= i < rows.len() && rows[i].0 == k;
            assert(out[i].0 == k);
        }
    }
    assert forall|k: KV| #[trigger] rows_map(out).contains_key(k) implies rows_map(out)[k] == m[k] by {
        let i = choose|i: int| 0 <= i < out.len() && out[i].0 == k;
        let j = choose|j: int| 0 <= j < out.len() && out[j].0 == k;
        assert(i == j) by {
            if i != j {
                if i < j {
                    assert(out[i].0 != out[j].0);
                } else {
                    assert(out[j].0 != out[i].0);
                }
            }
        }
        let a = choose|a: int| 0 <= a < rows.len() && rows[a].0 == k;
        assert(rows[i].0 == k);
        assert(a == i) by {
            if a < i {
                assert(rows[a].0 != rows[i].0);
            } else if i < a {
                assert(rows[i].0 != rows[a].0);
            }
        }
    }
    assert(rows_map(out) =~= m);
}

impl<K: Key, V> Table<K, V> {
    /// The rows, in storage order, consuming the table.
    pub fn into_rows(self) -> (r: Vec<(K, V)>)
        ensures
            r@.map_values(|e: (K, V)| (e.0@, e.1)) == self.rows(),
    {
        self.entries
    }
}

} // verus!
