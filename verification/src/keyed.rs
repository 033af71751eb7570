//! A table with a text primary key: at most one row per key. Its view is the
//! sequence of `(key, value)` rows; lookups, upserts and deletions by key are
//! stated over that sequence.

use vstd::prelude::*;

verus! {

/// No two rows share a key.
pub open spec fn unique_keys<W>(s: Seq<(Seq<char>, W)>) -> bool {
    forall|i: int, j: int|
        0 <= i < s.len() && 0 <= j < s.len() && i != j ==> #[trigger] s[i].0 != #[trigger] s[j].0
}

pub open spec fn has_key<W>(s: Seq<(Seq<char>, W)>, k: Seq<char>) -> bool {
    exists|i: int| 0 <= i < s.len() && #[trigger] s[i].0 == k
}

/// The position of the row with key `k` (meaningful when `has_key`).
pub open spec fn key_pos<W>(s: Seq<(Seq<char>, W)>, k: Seq<char>) -> int {
    choose|i: int| 0 <= i < s.len() && #[trigger] s[i].0 == k
}

/// The value stored under `k`, if any.
pub open spec fn lookup<W>(s: Seq<(Seq<char>, W)>, k: Seq<char>) -> Option<W> {
    if has_key(s, k) {
        Some(s[key_pos(s, k)].1)
    } else {
        None
    }
}

/// `INSERT ... ON CONFLICT(key) DO UPDATE` / `INSERT OR REPLACE`.
pub open spec fn upserted<W>(s: Seq<(Seq<char>, W)>, k: Seq<char>, v: W) -> Seq<(Seq<char>, W)> {
    if has_key(s, k) {
        s.update(key_pos(s, k), (k, v))
    } else {
        s.push((k, v))
    }
}

/// `INSERT OR IGNORE`.
pub open spec fn inserted_if_absent<W>(s: Seq<(Seq<char>, W)>, k: Seq<char>, v: W) -> Seq<
    (Seq<char>, W),
> {
    if has_key(s, k) {
        s
    } else {
        s.push((k, v))
    }
}

/// `DELETE ... WHERE key = k`.
pub open spec fn removed<W>(s: Seq<(Seq<char>, W)>, k: Seq<char>) -> Seq<(Seq<char>, W)> {
    if has_key(s, k) {
        s.remove(key_pos(s, k))
    } else {
        s
    }
}

pub proof fn lemma_key_pos_unique<W>(s: Seq<(Seq<char>, W)>, k: Seq<char>, i: int)
    requires
        unique_keys(s),
        0 <= i < s.len(),
        s[i].0 == k,
    ensures
        has_key(s, k),
        key_pos(s, k) == i,
        lookup(s, k) == Some(s[i].1),
{
}

pub proof fn lemma_upserted<W>(s: Seq<(Seq<char>, W)>, k: Seq<char>, v: W)
    requires
        unique_keys(s),
    ensures
        unique_keys(upserted(s, k, v)),
        lookup(upserted(s, k, v), k) == Some(v),
        forall|k2: Seq<char>| k2 != k ==> lookup(upserted(s, k, v), k2) == #[trigger] lookup(s, k2),
{
    let t = upserted(s, k, v);
    if has_key(s, k) {
        let p = key_pos(s, k);
        lemma_key_pos_unique(t, k, p);
        assert forall|k2: Seq<char>| k2 != k implies lookup(t, k2) == #[trigger] lookup(s, k2) by {
            if has_key(s, k2) {
                let q = key_pos(s, k2);
                lemma_key_pos_unique(t, k2, q);
            } else if has_key(t, k2) {
                let q = key_pos(t, k2);
                assert(s[q].0 == k2);
            }
        }
    } else {
        lemma_key_pos_unique(t, k, s.len() as int);
        assert forall|k2: Seq<char>| k2 != k implies lookup(t, k2) == #[trigger] lookup(s, k2) by {
            if has_key(s, k2) {
                let q = key_pos(s, k2);
                lemma_key_pos_unique(t, k2, q);
            } else if has_key(t, k2) {
                let q = key_pos(t, k2);
                assert(s[q].0 == k2);
            }
        }
    }
}

pub proof fn lemma_inserted_if_absent<W>(s: Seq<(Seq<char>, W)>, k: Seq<char>, v: W)
    requires
        unique_keys(s),
    ensures
        unique_keys(inserted_if_absent(s, k, v)),
        lookup(inserted_if_absent(s, k, v), k) == (if has_key(s, k) {
            lookup(s, k)
        } else {
            Some(v)
        }),
        forall|k2: Seq<char>|
            k2 != k ==> lookup(inserted_if_absent(s, k, v), k2) == #[trigger] lookup(s, k2),
{
    if !has_key(s, k) {
        lemma_upserted(s, k, v);
    }
}

pub proof fn lemma_removed<W>(s: Seq<(Seq<char>, W)>, k: Seq<char>)
    requires
        unique_keys(s),
    ensures
        unique_keys(removed(s, k)),
        lookup(removed(s, k), k) == None::<W>,
        forall|k2: Seq<char>| k2 != k ==> lookup(removed(s, k), k2) == #[trigger] lookup(s, k2),
{
    let t = removed(s, k);
    if has_key(s, k) {
        let p = key_pos(s, k);
        assert forall|i: int, j: int|
            0 <= i < t.len() && 0 <= j < t.len() && i != j implies #[trigger] t[i].0
            != #[trigger] t[j].0 by {
            let i2 = if i < p {
                i
            } else {
                i + 1
            };
            let j2 = if j < p {
                j
            } else {
                j + 1
            };
            assert(t[i] == s[i2] && t[j] == s[j2]);
        }
        if has_key(t, k) {
            let q = key_pos(t, k);
            let q2 = if q < p {
                q
            } else {
                q + 1
            };
            assert(t[q] == s[q2]);
        }
        assert forall|k2: Seq<char>| k2 != k implies lookup(t, k2) == #[trigger] lookup(s, k2) by {
            if has_key(s, k2) {
                let q = key_pos(s, k2);
                let q2 = if q < p {
                    q
                } else {
                    q - 1
                };
                assert(t[q2] == s[q]);
                lemma_key_pos_unique(t, k2, q2);
            } else if has_key(t, k2) {
                let q = key_pos(t, k2);
                let q2 = if q < p {
                    q
                } else {
                    q + 1
                };
                assert(t[q] == s[q2]);
            }
        }
    }
}

/// A table keyed by text.
pub struct Keyed<V: View> {
    rows: Vec<(String, V)>,
}

impl<V: View> View for Keyed<V> {
    type V = Seq<(Seq<char>, V::V)>;

    closed spec fn view(&self) -> Seq<(Seq<char>, V::V)> {
        self.rows@.map_values(|e: (String, V)| (e.0@, e.1@))
    }
}

impl<V: View> Keyed<V> {
    #[verifier::type_invariant]
    pub open spec fn keys_are_unique(&self) -> bool {
        unique_keys(self@)
    }

    /// An empty table.
    pub fn new() -> (t: Self)
        ensures
            t@ == Seq::<(Seq<char>, V::V)>::empty(),
    {
        let t = Keyed { rows: Vec::new() };
        assert(t@ =~= Seq::<(Seq<char>, V::V)>::empty());
        t
    }

    pub fn len(&self) -> (n: usize)
        ensures
            n == self@.len(),
    {
        self.rows.len()
    }

    /// The key of the `i`-th row.
    pub fn key_at(&self, i: usize) -> (k: &String)
        requires
            i < self@.len(),
        ensures
            k@ == self@[i as int].0,
    {
        &self.rows[i].0
    }

    /// The value of the `i`-th row.
    pub fn value_at(&self, i: usize) -> (v: &V)
        requires
            i < self@.len(),
        ensures
            v@ == self@[i as int].1,
    {
        &self.rows[i].1
    }

    /// The position of the row with key `k`.
    pub fn find(&self, k: &String) -> (r: Option<usize>)
        ensures
            r is None <==> !has_key(self@, k@),
            r matches Some(i) ==> i < self@.len() && key_pos(self@, k@) == i && self@[i as int].0
                == k@,
    {
        proof {
            use_type_invariant(self);
        }
        let mut i: usize = 0;
        while i < self.rows.len()
            invariant
                i <= self.rows.len(),
                self@.len() == self.rows.len(),
                forall|j: int| 0 <= j < i ==> #[trigger] self@[j].0 != k@,
                unique_keys(self@),
            decreases self.rows.len() - i,
        {
            assert(self@[i as int].0 == self.rows@[i as int].0@);
            if self.rows[i].0 == *k {
                proof {
                    lemma_key_pos_unique(self@, k@, i as int);
                }
                return Some(i);
            }
            i = i + 1;
        }
        None
    }

    /// The value stored under `k`.
    pub fn get(&self, k: &String) -> (r: Option<&V>)
        ensures
            r matches Some(v) ==> lookup(self@, k@) == Some(v@),
            r is None ==> lookup(self@, k@) is None,
    {
        match self.find(k) {
            Some(i) => Some(&self.rows[i].1),
            None => None,
        }
    }

    pub fn contains(&self, k: &String) -> (r: bool)
        ensures
            r == has_key(self@, k@),
    {
        self.find(k).is_some()
    }

    /// Stores `v` under `k`, replacing any row with that key.
    pub fn upsert(&mut self, k: String, v: V)
        ensures
            final(self)@ == upserted(old(self)@, k@, v@),
    {
        proof {
            use_type_invariant(&*self);
            lemma_upserted(self@, k@, v@);
        }
        let ghost kv = k@;
        let ghost vv = v@;
        let found = self.find(&k);
        let mut rows: Vec<(String, V)> = Vec::new();
        std::mem::swap(&mut rows, &mut self.rows);
        match found {
            Some(i) => {
                rows.set(i, (k, v));
            },
            None => {
                rows.push((k, v));
            },
        }
        assert(rows@.map_values(|e: (String, V)| (e.0@, e.1@)) =~= upserted(old(self)@, kv, vv));
        self.rows = rows;
    }

    /// Stores `v` under `k` unless a row with that key exists.
    pub fn insert_if_absent(&mut self, k: String, v: V)
        ensures
            final(self)@ == inserted_if_absent(old(self)@, k@, v@),
    {
        proof {
            use_type_invariant(&*self);
            lemma_inserted_if_absent(self@, k@, v@);
        }
        if !self.contains(&k) {
            let ghost kv = k@;
            let ghost vv = v@;
            let mut rows: Vec<(String, V)> = Vec::new();
            std::mem::swap(&mut rows, &mut self.rows);
            rows.push((k, v));
            assert(rows@.map_values(|e: (String, V)| (e.0@, e.1@)) =~= inserted_if_absent(
                old(self)@,
                kv,
                vv,
            ));
            self.rows = rows;
        }
    }

    /// Deletes the row with key `k`, if any.
    pub fn remove(&mut self, k: &String)
        ensures
            final(self)@ == removed(old(self)@, k@),
    {
        proof {
            use_type_invariant(&*self);
            lemma_removed(self@, k@);
        }
        match self.find(k) {
            Some(i) => {
                let mut rows: Vec<(String, V)> = Vec::new();
                std::mem::swap(&mut rows, &mut self.rows);
                rows.remove(i);
                assert(rows@.map_values(|e: (String, V)| (e.0@, e.1@)) =~= removed(
                    old(self)@,
                    k@,
                ));
                self.rows = rows;
            },
            None => {},
        }
    }
}

} // verus!
