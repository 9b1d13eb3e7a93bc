//! Tables keyed by hash, held as a list of entries with distinct keys.
//!
//! A hash is 256 bits wide, so no integer type can key a `HashMap` by it, and
//! with the library's own `Hash` as the key vstd's `HashMap` contracts rest
//! on a derived `Hash` and `Eq` that Verus does not read. The table is
//! therefore a list whose keys are kept distinct, and its view is proved.

use vstd::prelude::*;

verus! {

/// The table that a list of entries denotes; a later entry wins over an earlier one.
pub open spec fn entries_view<V>(s: Seq<(crate::sha256::Hash, V)>) -> Map<nat, V>
    decreases s.len(),
{
    if s.len() == 0 {
        Map::empty()
    } else {
        entries_view(s.drop_last()).insert(s.last().0@, s.last().1)
    }
}

/// No two entries have the same key.
pub open spec fn keys_distinct<V>(s: Seq<(crate::sha256::Hash, V)>) -> bool {
    forall|i: int, j: int| 0 <= i < j < s.len() ==> s[i].0@ != s[j].0@
}

/// With distinct keys, a key is in the table exactly when some entry has it,
/// and the table gives each entry's value for its key.
pub proof fn lemma_entries_view<V>(s: Seq<(crate::sha256::Hash, V)>)
    requires
        keys_distinct(s),
    ensures
        forall|k: nat| #[trigger]
            entries_view(s).contains_key(k) <==> exists|i: int| 0 <= i < s.len() && s[i].0@ == k,
        forall|i: int| 0 <= i < s.len() ==> #[trigger] entries_view(s)[s[i].0@] == s[i].1,
    decreases s.len(),
{
    if s.len() > 0 {
        let t = s.drop_last();
        assert(keys_distinct(t)) by {
            assert forall|i: int, j: int| 0 <= i < j < t.len() implies t[i].0@ != t[j].0@ by {
                assert(t[i] == s[i] && t[j] == s[j]);
            }
        }
        lemma_entries_view(t);
        assert forall|k: nat| #[trigger]
            entries_view(s).contains_key(k) <==> exists|i: int| 0 <= i < s.len() && s[i].0@ == k by {
            if entries_view(s).contains_key(k) {
                if k == s.last().0@ {
                    assert(s[s.len() - 1].0@ == k);
                } else {
                    assert(entries_view(t).contains_key(k));
                    let i = choose|i: int| 0 <= i < t.len() && t[i].0@ == k;
                    assert(s[i] == t[i]);
                }
            }
            if exists|i: int| 0 <= i < s.len() && s[i].0@ == k {
                let i = choose|i: int| 0 <= i < s.len() && s[i].0@ == k;
                if i < s.len() - 1 {
                    assert(t[i] == s[i]);
                    assert(entries_view(t).contains_key(k));
                }
            }
        }
        assert forall|i: int| 0 <= i < s.len() implies #[trigger] entries_view(s)[s[i].0@] == s[i].1 by {
            if i < s.len() - 1 {
                assert(t[i] == s[i]);
                assert(s[i].0@ != s.last().0@);
                assert(entries_view(t)[t[i].0@] == t[i].1);
            }
        }
    }
}

/// A table from hashes to values.
pub struct OutputMap<V> {
    entries: Vec<(crate::sha256::Hash, V)>,
}

impl<V> View for OutputMap<V> {
    type V = Map<nat, V>;

    closed spec fn view(&self) -> Map<nat, V> {
        entries_view(self.entries@)
    }
}

impl<V: Copy> OutputMap<V> {
    /// The table is well formed: no key occurs twice.
    pub closed spec fn wf(&self) -> bool {
        keys_distinct(self.entries@)
    }

    /// The empty table.
    pub fn new() -> (r: Self)
        ensures
            r.wf(),
            r@ == Map::<nat, V>::empty(),
    {
        OutputMap { entries: Vec::new() }
    }

    /// The index of the entry for `k`, if any.
    fn find(&self, k: &crate::sha256::Hash) -> (r: Option<usize>)
        requires
            self.wf(),
        ensures
            match r {
                Some(i) => i < self.entries@.len() && self.entries@[i as int].0@ == k@,
                None => !self@.contains_key(k@),
            },
    {
        proof {
            lemma_entries_view(self.entries@);
        }
        let mut i: usize = 0;
        while i < self.entries.len()
            invariant
                i <= self.entries@.len(),
                forall|j: int| 0 <= j < i ==> self.entries@[j].0@ != k@,
            decreases self.entries@.len() - i,
        {
            if self.entries[i].0.eq(k) {
                return Some(i);
            }
            i = i + 1;
        }
        None
    }

    /// The value for `k`, if any.
    pub fn get(&self, k: &crate::sha256::Hash) -> (r: Option<V>)
        requires
            self.wf(),
        ensures
            r == (if self@.contains_key(k@) {
                Some(self@[k@])
            } else {
                None
            }),
    {
        proof {
            lemma_entries_view(self.entries@);
        }
        match self.find(k) {
            Some(i) => Some(self.entries[i].1),
            None => None,
        }
    }

    /// Whether `k` has a value.
    pub fn contains_key(&self, k: &crate::sha256::Hash) -> (r: bool)
        requires
            self.wf(),
        ensures
            r == self@.contains_key(k@),
    {
        proof {
            lemma_entries_view(self.entries@);
        }
        self.find(k).is_some()
    }

    /// Sets the value for `k` to `v`.
    pub fn insert(&mut self, k: crate::sha256::Hash, v: V)
        requires
            old(self).wf(),
        ensures
            final(self).wf(),
            final(self)@ == old(self)@.insert(k@, v),
    {
        proof {
            lemma_entries_view(self.entries@);
        }
        let ghost old_entries = self.entries@;
        match self.find(&k) {
            Some(i) => {
                self.entries.set(i, (k, v));
                proof {
                    let s = self.entries@;
                    assert(keys_distinct(s));
                    lemma_entries_view(s);
                    lemma_entries_view(old_entries);
                    assert forall|key: nat| #[trigger] entries_view(s).contains_key(key)
                        <==> old(self)@.insert(k@, v).contains_key(key) by {
                        if entries_view(s).contains_key(key) {
                            let j = choose|j: int| 0 <= j < s.len() && s[j].0@ == key;
                            if j != i {
                                assert(old_entries[j] == s[j]);
                                assert(entries_view(old_entries).contains_key(key));
                            }
                        }
                        if old(self)@.insert(k@, v).contains_key(key) {
                            if key == k@ {
                                assert(s[i as int].0@ == key);
                            } else {
                                assert(entries_view(old_entries).contains_key(key));
                                let j = choose|j: int| 0 <= j < old_entries.len() && old_entries[j].0@ == key;
                                assert(s[j] == old_entries[j]);
                            }
                        }
                    }
                    assert forall|key: nat| #[trigger] entries_view(s).contains_key(key) implies
                        entries_view(s)[key] == old(self)@.insert(k@, v)[key] by {
                        let j = choose|j: int| 0 <= j < s.len() && s[j].0@ == key;
                        if j != i {
                            assert(old_entries[j] == s[j]);
                        }
                    }
                    assert(entries_view(s) =~= old(self)@.insert(k@, v));
                }
            },
            None => {
                self.entries.push((k, v));
                proof {
                    let s = self.entries@;
                    assert(s.drop_last() =~= old_entries);
                    assert forall|a: int, b: int| 0 <= a < b < s.len() implies s[a].0@ != s[b].0@ by {
                        if b == s.len() - 1 {
                            assert(old(self)@.contains_key(old_entries[a].0@));
                        }
                    }
                }
            },
        }
    }

    /// Removes the value for `k`, if any.
    pub fn remove(&mut self, k: &crate::sha256::Hash)
        requires
            old(self).wf(),
        ensures
            final(self).wf(),
            final(self)@ == old(self)@.remove(k@),
    {
        proof {
            lemma_entries_view(self.entries@);
        }
        let ghost old_entries = self.entries@;
        match self.find(k) {
            Some(i) => {
                self.entries.remove(i);
                proof {
                    let s = self.entries@;
                    assert forall|a: int, b: int| 0 <= a < b < s.len() implies s[a].0@ != s[b].0@ by {
                        let oa = if a < i { a } else { a + 1 };
                        let ob = if b < i { b } else { b + 1 };
                        assert(s[a] == old_entries[oa]);
                        assert(s[b] == old_entries[ob]);
                    }
                    lemma_entries_view(s);
                    assert forall|key: nat| #[trigger] entries_view(s).contains_key(key)
                        <==> old(self)@.remove(k@).contains_key(key) by {
                        if exists|j: int| 0 <= j < s.len() && s[j].0@ == key {
                            let j = choose|j: int| 0 <= j < s.len() && s[j].0@ == key;
                            let oj = if j < i { j } else { j + 1 };
                            assert(s[j] == old_entries[oj]);
                        }
                        if old(self)@.contains_key(key) && key != k@ {
                            let j = choose|j: int| 0 <= j < old_entries.len() && old_entries[j].0@ == key;
                            let nj = if j < i { j } else { j - 1 };
                            assert(s[nj] == old_entries[j]);
                        }
                    }
                    assert forall|key: nat| #[trigger] entries_view(s).contains_key(key) implies
                        entries_view(s)[key] == old(self)@.remove(k@)[key] by {
                        let j = choose|j: int| 0 <= j < s.len() && s[j].0@ == key;
                        let oj = if j < i { j } else { j + 1 };
                        assert(s[j] == old_entries[oj]);
                    }
                    assert(entries_view(s) =~= old(self)@.remove(k@));
                }
            },
            None => {
                assert(old(self)@.remove(k@) =~= old(self)@);
            },
        }
    }
}

} // verus!
