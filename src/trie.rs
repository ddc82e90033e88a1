//! A Merkle-Patricia trie as its contents, with the root of those contents.
use vstd::prelude::*;
use crate::digest::pairs_view;
use crate::table::{keys_distinct, lemma_rows_map_values, rows_map, Key, Table};

verus! {

/// The root of a Merkle-Patricia trie (Keccak-256, keys as given) holding
/// exactly the given entries.
pub uninterp spec fn trie_root_of(entries: Map<Seq<u8>, Seq<u8>>) -> Seq<u8>;

/// Relies on ethereum::util::trie_root: a 32-byte root that depends on the
/// entries alone (the crate sorts them by key).
#[verifier::external_body]
fn trie_root(entries: &Vec<(Vec<u8>, Vec<u8>)>) -> (r: Vec<u8>)
    requires
        keys_distinct(pairs_view(entries@)),
    ensures
        r@ == trie_root_of(rows_map(pairs_view(entries@))),
        r@.len() == 32,
{
    ethereum::util::trie_root(entries.iter().map(|e| (e.0.as_slice(), e.1.as_slice()))).as_bytes().to_vec()
}

/// A trie open for changes.
pub struct TrieMut {
    entries: Table<Vec<u8>, Vec<u8>>,
}

/// The byte-string contents of a table.
pub open spec fn contents(t: Table<Vec<u8>, Vec<u8>>) -> Map<Seq<u8>, Seq<u8>> {
    Map::new(|k: Seq<u8>| t@.contains_key(k), |k: Seq<u8>| t@[k]@)
}

pub open spec fn value_view(v: Vec<u8>) -> Seq<u8> {
    v@
}

impl TrieMut {
    pub closed spec fn wf(&self) -> bool {
        self.entries.wf()
    }

    pub closed spec fn view(&self) -> Map<Seq<u8>, Seq<u8>> {
        contents(self.entries)
    }

    pub fn new() -> (r: TrieMut)
        ensures
            r.wf(),
            r.view() == Map::<Seq<u8>, Seq<u8>>::empty(),
    {
        let r = TrieMut { entries: Table::new() };
        assert(r.view() =~= Map::<Seq<u8>, Seq<u8>>::empty());
        r
    }

    pub fn get(&self, key: &Vec<u8>) -> (r: Option<Vec<u8>>)
        requires
            self.wf(),
        ensures
            match r {
                Some(v) => self.view().contains_key(key@) && v@ == self.view()[key@],
                None => !self.view().contains_key(key@),
            },
    {
        match self.entries.get(key) {
            Some(v) => Some(v.duplicate()),
            None => None,
        }
    }

    pub fn contains(&self, key: &Vec<u8>) -> (r: bool)
        requires
            self.wf(),
        ensures
            r == self.view().contains_key(key@),
    {
        self.entries.contains_key(key)
    }

    pub fn is_empty(&self) -> (r: bool)
        requires
            self.wf(),
        ensures
            r == (self.view() == Map::<Seq<u8>, Seq<u8>>::empty()),
    {
        let n = self.entries.len();
        proof {
            if n == 0 {
                assert(self.view() =~= Map::<Seq<u8>, Seq<u8>>::empty());
            } else {
                let rows = self.entries.rows();
                self.entries.lemma_rows();
                assert(self.view().contains_key(rows[0].0));
            }
        }
        n == 0
    }

    /// Sets a key, returning the value it held.
    pub fn insert(&mut self, key: Vec<u8>, value: Vec<u8>) -> (r: Option<Vec<u8>>)
        requires
            old(self).wf(),
        ensures
            final(self).wf(),
            final(self).view() == old(self).view().insert(key@, value@),
            match r {
                Some(v) => old(self).view().contains_key(key@) && v@ == old(self).view()[key@],
                None => !old(self).view().contains_key(key@),
            },
    {
        let ghost k = key@;
        let ghost v = value@;
        let prev = self.entries.remove(&key);
        self.entries.insert(key, value);
        assert(self.view() =~= old(self).view().insert(k, v));
        prev
    }

    /// Removes a key, returning the value it held.
    pub fn remove(&mut self, key: &Vec<u8>) -> (r: Option<Vec<u8>>)
        requires
            old(self).wf(),
        ensures
            final(self).wf(),
            final(self).view() == old(self).view().remove(key@),
            match r {
                Some(v) => old(self).view().contains_key(key@) && v@ == old(self).view()[key@],
                None => !old(self).view().contains_key(key@),
            },
    {
        let r = self.entries.remove(key);
        assert(self.view() =~= old(self).view().remove(key@));
        r
    }

    /// The root of the trie's contents.
    pub fn root(&self) -> (r: Vec<u8>)
        requires
            self.wf(),
        ensures
            r@ == trie_root_of(self.view()),
            r@.len() == 32,
    {
        let n = self.entries.len();
        let ghost rows = self.entries.rows();
        let ghost f = |v: Vec<u8>| value_view(v);
        let mut out: Vec<(Vec<u8>, Vec<u8>)> = Vec::new();
        let mut i: usize = 0;
        while i < n
            invariant
                self.wf(),
                n == rows.len(),
                rows == self.entries.rows(),
                i <= n,
                out.len() == i,
                forall|j: int| 0 <= j < i ==> #[trigger] pairs_view(out@)[j] == (rows[j].0, value_view(rows[j].1)),
            decreases n - i,
        {
            let (k, v) = self.entries.row(i);
            let ghost before = out@;
            out.push((k.duplicate(), v.duplicate()));
            proof {
                assert forall|j: int| 0 <= j < i + 1 implies #[trigger] pairs_view(out@)[j] == (rows[j].0, value_view(rows[j].1)) by {
                    assert(pairs_view(out@)[j] == (out@[j].0@, out@[j].1@));
                    if j < i {
                        assert(out@[j] == before[j]);
                        assert(pairs_view(before)[j] == (before[j].0@, before[j].1@));
                    }
                }
            }
            i = i + 1;
        }
        proof {
            lemma_rows_map_values(rows, pairs_view(out@), f);
            assert(rows_map(pairs_view(out@)) =~= self.view());
        }
        trie_root(&out)
    }
}

/// Applying the same edits to tries with the same contents gives the same
/// root, and edits of different keys give the same root in either order.
pub proof fn lemma_trie_root_deterministic(
    m: Map<Seq<u8>, Seq<u8>>,
    n: Map<Seq<u8>, Seq<u8>>,
    k1: Seq<u8>,
    v1: Seq<u8>,
    k2: Seq<u8>,
    v2: Seq<u8>,
)
    requires
        k1 != k2,
    ensures
        m == n ==> trie_root_of(m.insert(k1, v1).remove(k2)) == trie_root_of(n.insert(k1, v1).remove(k2)),
        trie_root_of(m.insert(k1, v1).insert(k2, v2)) == trie_root_of(m.insert(k2, v2).insert(k1, v1)),
        trie_root_of(m.insert(k1, v1).remove(k2)) == trie_root_of(m.remove(k2).insert(k1, v1)),
{
    assert(m.insert(k1, v1).insert(k2, v2) =~= m.insert(k2, v2).insert(k1, v1));
    assert(m.insert(k1, v1).remove(k2) =~= m.remove(k2).insert(k1, v1));
}

/// One edit of a trie.
pub enum TrieEdit {
    Insert(Vec<u8>, Vec<u8>),
    Remove(Vec<u8>),
}

/// The contents after each edit in turn.
pub open spec fn edited(m: Map<Seq<u8>, Seq<u8>>, edits: Seq<TrieEdit>) -> Map<Seq<u8>, Seq<u8>>
    decreases edits.len(),
{
    if edits.len() == 0 {
        m
    } else {
        let front = edited(m, edits.drop_last());
        match edits.last() {
            TrieEdit::Insert(k, v) => front.insert(k@, v@),
            TrieEdit::Remove(k) => front.remove(k@),
        }
    }
}

impl TrieMut {
    /// Applies edits in order.
    pub fn apply_edits(&mut self, edits: Vec<TrieEdit>)
        requires
            old(self).wf(),
        ensures
            final(self).wf(),
            final(self).view() == edited(old(self).view(), edits@),
    {
        let ghost all = edits@;
        let total = edits.len();
        let mut rest = edits;
        let mut i: usize = 0;
        while rest.len() > 0
            invariant
                self.wf(),
                i <= all.len(),
                all.len() == total,
                rest@ == all.skip(i as int),
                rest.len() == all.len() - i,
                self.view() == edited(old(self).view(), all.take(i as int)),
            decreases rest.len(),
        {
            let e = rest.remove(0);
            proof {
                assert(all[i as int] == e);
                assert(rest@ =~= all.skip(i + 1));
                assert(all.take(i + 1).drop_last() =~= all.take(i as int));
            }
            match e {
                TrieEdit::Insert(k, v) => {
                    let _ = self.insert(k, v);
                },
                TrieEdit::Remove(k) => {
                    let _ = self.remove(&k);
                },
            }
            i = i + 1;
        }
        assert(all.take(i as int) =~= all);
    }

    /// A copy with the same contents.
    pub fn snapshot(&self) -> (r: TrieMut)
        requires
            self.wf(),
        ensures
            r.wf(),
            r.view() == self.view(),
    {
        let n = self.entries.len();
        let ghost rows = self.entries.rows();
        let mut out = TrieMut::new();
        let mut i: usize = 0;
        proof {
            assert(contents_of(rows.take(0)) =~= Map::<Seq<u8>, Seq<u8>>::empty());
        }
        while i < n
            invariant
                self.wf(),
                out.wf(),
                n == rows.len(),
                rows == self.entries.rows(),
                keys_distinct(rows),
                i <= n,
                out.view() == contents_of(rows.take(i as int)),
            decreases n - i,
        {
            let (k, v) = self.entries.row(i);
            let _ = out.insert(k.duplicate(), v.duplicate());
            proof {
                let front = rows.take(i as int);
                assert(!rows_map(front).contains_key(rows[i as int].0)) by {
                    if rows_map(front).contains_key(rows[i as int].0) {
                        let j = choose|j: int| 0 <= j < front.len() && front[j].0 == rows[i as int].0;
                        assert(rows[j].0 == rows[i as int].0);
                    }
                }
                Table::<Vec<u8>, Vec<u8>>::lemma_push(front, rows[i as int].0, rows[i as int].1);
                assert(rows.take(i + 1) =~= front.push((rows[i as int].0, rows[i as int].1)));
                assert(out.view() =~= contents_of(rows.take(i + 1)));
            }
            i = i + 1;
        }
        proof {
            assert(rows.take(n as int) =~= rows);
            assert(out.view() =~= self.view());
        }
        out
    }
}

/// The byte-string contents that a list of rows stands for.
pub open spec fn contents_of(rows: Seq<(Seq<u8>, Vec<u8>)>) -> Map<Seq<u8>, Seq<u8>> {
    Map::new(|k: Seq<u8>| rows_map(rows).contains_key(k), |k: Seq<u8>| rows_map(rows)[k]@)
}

/// Committed tries, each under its root.
pub struct TrieStore {
    tries: Table<Vec<u8>, TrieMut>,
}

impl TrieStore {
    pub closed spec fn wf(&self) -> bool {
        &&& self.tries.wf()
        &&& forall|r: Seq<u8>| #[trigger] self.tries@.contains_key(r) ==> self.tries@[r].wf()
            && r == trie_root_of(self.tries@[r].view())
    }

    /// The contents committed under each root.
    pub closed spec fn view(&self) -> Map<Seq<u8>, Map<Seq<u8>, Seq<u8>>> {
        Map::new(|r: Seq<u8>| self.tries@.contains_key(r), |r: Seq<u8>| self.tries@[r].view())
    }

    /// A store holding the empty trie, returned with its root.
    pub fn create_root() -> (r: (TrieStore, Vec<u8>))
        ensures
            r.0.wf(),
            r.1@ == trie_root_of(Map::empty()),
            r.0.view() == Map::<Seq<u8>, Map<Seq<u8>, Seq<u8>>>::empty().insert(r.1@, Map::empty()),
    {
        let mut st = TrieStore { tries: Table::new() };
        let root = st.commit(&TrieMut::new());
        assert(st.view() =~= Map::<Seq<u8>, Map<Seq<u8>, Seq<u8>>>::empty().insert(root@, Map::empty()));
        (st, root)
    }

    /// Keeps a copy of a trie under its root, and returns the root.
    pub fn commit(&mut self, trie: &TrieMut) -> (root: Vec<u8>)
        requires
            old(self).wf(),
            trie.wf(),
        ensures
            final(self).wf(),
            root@ == trie_root_of(trie.view()),
            final(self).view() == old(self).view().insert(root@, trie.view()),
    {
        let root = trie.root();
        let copy = trie.snapshot();
        self.tries.insert(root.duplicate(), copy);
        assert(self.view() =~= old(self).view().insert(root@, trie.view()));
        root
    }

    /// A trie open for changes on the contents committed under a root.
    pub fn open_mut(&self, root: &Vec<u8>) -> (r: Option<TrieMut>)
        requires
            self.wf(),
        ensures
            match r {
                Some(t) => t.wf() && self.view().contains_key(root@) && t.view() == self.view()[root@]
                    && trie_root_of(t.view()) == root@,
                None => !self.view().contains_key(root@),
            },
    {
        match self.tries.get(root) {
            Some(t) => Some(t.snapshot()),
            None => None,
        }
    }
}

/// Two tries opened at the same committed root and given the same edits
/// commit to the same root.
pub proof fn lemma_same_root_same_edits(
    store: Map<Seq<u8>, Map<Seq<u8>, Seq<u8>>>,
    root: Seq<u8>,
    first: Map<Seq<u8>, Seq<u8>>,
    second: Map<Seq<u8>, Seq<u8>>,
    edits: Seq<TrieEdit>,
)
    requires
        store.contains_key(root),
        first == store[root],
        second == store[root],
    ensures
        trie_root_of(edited(first, edits)) == trie_root_of(edited(second, edits)),
{
}

} // verus!
