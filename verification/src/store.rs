//! Keyed storage. Every piece of chain state lives in a `StoreMap`: an
//! association list kept sorted by key, standing for an account- or
//! era-indexed storage map. Keeping the entries sorted makes every walk
//! over a store deterministic, ascending by key.

use vstd::prelude::*;

verus! {

/// The entries as a mathematical map; a later entry wins, though a sorted
/// store never holds a key twice.
pub open spec fn map_of<T>(s: Seq<(u64, T)>) -> Map<u64, T>
    decreases s.len(),
{
    if s.len() == 0 {
        Map::empty()
    } else {
        map_of(s.drop_last()).insert(s.last().0, s.last().1)
    }
}

/// Index of the last entry holding key `k`, or -1 when there is none.
pub open spec fn index_of_key<T>(s: Seq<(u64, T)>, k: u64) -> int
    decreases s.len(),
{
    if s.len() == 0 {
        -1
    } else if s.last().0 == k {
        s.len() - 1
    } else {
        index_of_key(s.drop_last(), k)
    }
}

/// How many entries hold a key below `k`; in a sorted store this is where
/// a fresh entry for `k` goes in.
pub open spec fn count_below<T>(s: Seq<(u64, T)>, k: u64) -> int
    decreases s.len(),
{
    if s.len() == 0 {
        0
    } else {
        count_below(s.drop_last(), k) + if s.last().0 < k { 1int } else { 0int }
    }
}

/// Entries strictly ascend by key.
pub open spec fn sorted_by_key<T>(s: Seq<(u64, T)>) -> bool {
    forall|i: int, j: int| 0 <= i < j < s.len() ==> s[i].0 < s[j].0
}

/// What `index_of_key` finds is an entry for `k`; when it finds nothing,
/// the map has no entry for `k` either.
pub proof fn lemma_index_of_key<T>(s: Seq<(u64, T)>, k: u64)
    ensures
        -1 <= index_of_key(s, k) < s.len(),
        index_of_key(s, k) == -1 ==> !map_of(s).dom().contains(k),
        index_of_key(s, k) >= 0 ==> {
            &&& 0 <= index_of_key(s, k) < s.len()
            &&& s[index_of_key(s, k)].0 == k
            &&& map_of(s).dom().contains(k)
            &&& map_of(s)[k] == s[index_of_key(s, k)].1
        },
    decreases s.len(),
{
    if s.len() > 0 {
        lemma_index_of_key(s.drop_last(), k);
    }
}

/// Any entry holding `k` keeps `index_of_key` from missing it.
pub proof fn lemma_index_of_key_finds<T>(s: Seq<(u64, T)>, k: u64, i: int)
    requires
        0 <= i < s.len(),
        s[i].0 == k,
    ensures
        i <= index_of_key(s, k) < s.len(),
    decreases s.len(),
{
    if i < s.len() - 1 && s.last().0 != k {
        lemma_index_of_key_finds(s.drop_last(), k, i);
    }
}

/// In a sorted store, the entry at each index is what the map holds for
/// that entry's key.
pub proof fn lemma_sorted_entry_in_map<T>(s: Seq<(u64, T)>, i: int)
    requires
        sorted_by_key(s),
        0 <= i < s.len(),
    ensures
        map_of(s).dom().contains(s[i].0),
        map_of(s)[s[i].0] == s[i].1,
{
    lemma_index_of_key_finds(s, s[i].0, i);
    lemma_index_of_key(s, s[i].0);
    let j = index_of_key(s, s[i].0);
    assert(i == j) by {
        if i < j {
            assert(s[i].0 < s[j].0);
        }
    }
}

/// Putting a fresh entry where it keeps the store sorted inserts its key
/// into the map.
pub proof fn lemma_map_of_insert<T>(s: Seq<(u64, T)>, i: int, k: u64, v: T)
    requires
        sorted_by_key(s),
        0 <= i <= s.len(),
        forall|j: int| 0 <= j < i ==> s[j].0 < k,
        forall|j: int| i <= j < s.len() ==> s[j].0 > k,
    ensures
        map_of(s.insert(i, (k, v))) == map_of(s).insert(k, v),
        sorted_by_key(s.insert(i, (k, v))),
    decreases s.len(),
{
    let t = s.insert(i, (k, v));
    assert forall|a: int, b: int| 0 <= a < b < t.len() implies t[a].0 < t[b].0 by {}
    if i == s.len() {
        assert(t.drop_last() =~= s);
        assert(map_of(t) == map_of(s).insert(k, v));
    } else {
        assert(t.last() == s.last());
        assert(t.drop_last() =~= s.drop_last().insert(i, (k, v)));
        lemma_map_of_insert(s.drop_last(), i, k, v);
        assert(map_of(t) == map_of(s.drop_last()).insert(k, v).insert(s.last().0, s.last().1));
        assert(k != s.last().0);
        assert(map_of(s.drop_last()).insert(k, v).insert(s.last().0, s.last().1)
            =~= map_of(s.drop_last()).insert(s.last().0, s.last().1).insert(k, v));
    }
}

/// Replacing the value of an entry updates its key in the map.
pub proof fn lemma_map_of_update<T>(s: Seq<(u64, T)>, i: int, v: T)
    requires
        sorted_by_key(s),
        0 <= i < s.len(),
    ensures
        map_of(s.update(i, (s[i].0, v))) == map_of(s).insert(s[i].0, v),
        sorted_by_key(s.update(i, (s[i].0, v))),
    decreases s.len(),
{
    let k = s[i].0;
    let t = s.update(i, (k, v));
    assert forall|a: int, b: int| 0 <= a < b < t.len() implies t[a].0 < t[b].0 by {}
    if i == s.len() - 1 {
        assert(t.drop_last() =~= s.drop_last());
        assert(map_of(t) == map_of(s.drop_last()).insert(k, v));
        assert(map_of(s.drop_last()).insert(k, v)
            =~= map_of(s.drop_last()).insert(s.last().0, s.last().1).insert(k, v));
    } else {
        assert(t.last() == s.last());
        assert(t.drop_last() =~= s.drop_last().update(i, (k, v)));
        assert(s.drop_last()[i].0 == k);
        lemma_map_of_update(s.drop_last(), i, v);
        assert(k != s.last().0);
        assert(map_of(s.drop_last()).insert(k, v).insert(s.last().0, s.last().1)
            =~= map_of(s.drop_last()).insert(s.last().0, s.last().1).insert(k, v));
    }
}

/// Taking an entry out removes its key from the map.
pub proof fn lemma_map_of_remove<T>(s: Seq<(u64, T)>, i: int)
    requires
        sorted_by_key(s),
        0 <= i < s.len(),
    ensures
        map_of(s.remove(i)) == map_of(s).remove(s[i].0),
        sorted_by_key(s.remove(i)),
    decreases s.len(),
{
    let k = s[i].0;
    let t = s.remove(i);
    assert forall|a: int, b: int| 0 <= a < b < t.len() implies t[a].0 < t[b].0 by {}
    if i == s.len() - 1 {
        assert(t =~= s.drop_last());
        lemma_index_of_key(s.drop_last(), k);
        if index_of_key(s.drop_last(), k) >= 0 {
            let j = index_of_key(s.drop_last(), k);
            assert(s.drop_last()[j] == s[j]);
            assert(s[j].0 == s[i].0 && j < i);
            assert(s[j].0 < s[i].0);
            assert(false);
        }
        assert(!map_of(s.drop_last()).dom().contains(k));
        assert(map_of(s.drop_last()) =~= map_of(s.drop_last()).insert(k, s[i].1).remove(k));
    } else {
        assert(t.last() == s.last());
        assert(t.drop_last() =~= s.drop_last().remove(i));
        assert(s.drop_last()[i].0 == k);
        lemma_map_of_remove(s.drop_last(), i);
        assert(map_of(t) == map_of(s.drop_last()).remove(k).insert(s.last().0, s.last().1));
        assert(k != s.last().0);
        assert(map_of(s.drop_last()).remove(k).insert(s.last().0, s.last().1)
            =~= map_of(s.drop_last()).insert(s.last().0, s.last().1).remove(k));
    }
}

/// A keyed store: an association list sorted by key.
pub struct StoreMap<T> {
    entries: Vec<(u64, T)>,
}

impl<T> StoreMap<T> {
    /// The entries in ascending key order.
    pub closed spec fn entries(self) -> Seq<(u64, T)> {
        self.entries@
    }

    /// The store as a mathematical map from key to value.
    pub open spec fn view(self) -> Map<u64, T> {
        map_of(self.entries())
    }

    /// The entries strictly ascend by key; every store keeps this.
    pub open spec fn wf(self) -> bool {
        sorted_by_key(self.entries())
    }

    /// An empty store.
    pub fn new() -> (r: Self)
        ensures
            r.wf(),
            r@ == Map::<u64, T>::empty(),
            r.entries() == Seq::<(u64, T)>::empty(),
    {
        StoreMap { entries: Vec::new() }
    }

    /// How many entries the store holds.
    pub fn len(&self) -> (r: usize)
        ensures
            r == self.entries().len(),
    {
        self.entries.len()
    }

    /// The key of the entry at position `i` of the ascending key order.
    pub fn key_at(&self, i: usize) -> (r: u64)
        requires
            self.wf(),
            i < self.entries().len(),
        ensures
            r == self.entries()[i as int].0,
            self@.dom().contains(r),
            self@[r] == self.entries()[i as int].1,
    {
        proof {
            lemma_sorted_entry_in_map(self.entries(), i as int);
        }
        self.entries[i].0
    }

    /// The value of the entry at position `i` of the ascending key order.
    pub fn val_at(&self, i: usize) -> (r: &T)
        requires
            self.wf(),
            i < self.entries().len(),
        ensures
            *r == self.entries()[i as int].1,
            self@.dom().contains(self.entries()[i as int].0),
            self@[self.entries()[i as int].0] == self.entries()[i as int].1,
    {
        proof {
            lemma_sorted_entry_in_map(self.entries(), i as int);
        }
        &self.entries[i].1
    }

    /// Where an entry for `k` stands, or where one would go in: the first
    /// position whose key is not below `k`.
    fn position(&self, k: u64) -> (r: usize)
        requires
            self.wf(),
        ensures
            r <= self.entries().len(),
            forall|j: int| 0 <= j < r ==> self.entries()[j].0 < k,
            r < self.entries().len() ==> self.entries()[r as int].0 >= k,
            r as int == count_below(self.entries(), k),
    {
        proof {
            lemma_count_below_sorted(self.entries(), k);
        }
        let n = self.entries.len();
        let mut i: usize = 0;
        while i < n
            invariant
                i <= n,
                n == self.entries().len(),
                self.wf(),
                forall|j: int| 0 <= j < i ==> self.entries()[j].0 < k,
            decreases n - i,
        {
            if self.entries[i].0 >= k {
                proof {
                    lemma_count_below_is_position(self.entries(), k, i as int);
                }
                return i;
            }
            i = i + 1;
        }
        proof {
            lemma_count_below_is_position(self.entries(), k, n as int);
        }
        n
    }

    /// Whether the store holds an entry for `k`.
    pub fn contains_key(&self, k: u64) -> (r: bool)
        requires
            self.wf(),
        ensures
            r <==> self@.dom().contains(k),
    {
        proof {
            lemma_index_of_key(self.entries(), k);
        }
        let i = self.position(k);
        if i < self.entries.len() && self.entries[i].0 == k {
            proof {
                lemma_sorted_entry_in_map(self.entries(), i as int);
            }
            true
        } else {
            proof {
                lemma_no_entry_for_key(self.entries(), k, i as int);
            }
            false
        }
    }

    /// The value held for `k`, if any.
    pub fn get(&self, k: u64) -> (r: Option<&T>)
        requires
            self.wf(),
        ensures
            match r {
                Some(v) => self@.dom().contains(k) && *v == self@[k],
                None => !self@.dom().contains(k),
            },
    {
        proof {
            lemma_index_of_key(self.entries(), k);
        }
        let i = self.position(k);
        if i < self.entries.len() && self.entries[i].0 == k {
            proof {
                lemma_sorted_entry_in_map(self.entries(), i as int);
            }
            Some(&self.entries[i].1)
        } else {
            proof {
                lemma_no_entry_for_key(self.entries(), k, i as int);
            }
            None
        }
    }

    /// Puts `v` under `k`, replacing what the store held for `k`.
    pub fn insert(&mut self, k: u64, v: T)
        requires
            old(self).wf(),
        ensures
            final(self).wf(),
            final(self)@ == old(self)@.insert(k, v),
            old(self)@.dom().contains(k) ==> final(self).entries()
                == old(self).entries().update(index_of_key(old(self).entries(), k), (k, v)),
            !old(self)@.dom().contains(k) ==> final(self).entries()
                == old(self).entries().insert(count_below(old(self).entries(), k), (k, v)),
    {
        proof {
            lemma_index_of_key(old(self).entries(), k);
        }
        let i = self.position(k);
        if i < self.entries.len() && self.entries[i].0 == k {
            proof {
                lemma_sorted_entry_in_map(self.entries(), i as int);
                lemma_index_of_key_finds(self.entries(), k, i as int);
                let j = index_of_key(self.entries(), k);
                if i as int != j {
                    assert(self.entries()[i as int].0 < self.entries()[j].0);
                }
                lemma_map_of_update(self.entries(), i as int, v);
            }
            self.entries[i] = (k, v);
        } else {
            proof {
                lemma_no_entry_for_key(self.entries(), k, i as int);
                assert forall|j: int| i <= j < self.entries().len()
                    implies self.entries()[j].0 > k by {
                    if j > i {
                        assert(self.entries()[i as int].0 < self.entries()[j].0);
                    }
                }
                lemma_map_of_insert(self.entries(), i as int, k, v);
            }
            self.entries.insert(i, (k, v));
        }
    }

    /// Takes the entry for `k` out and hands its value back, if the store
    /// holds one.
    pub fn take(&mut self, k: u64) -> (r: Option<T>)
        requires
            old(self).wf(),
        ensures
            final(self).wf(),
            final(self)@ == old(self)@.remove(k),
            match r {
                Some(v) => old(self)@.dom().contains(k) && v == old(self)@[k]
                    && final(self).entries()
                        == old(self).entries().remove(index_of_key(old(self).entries(), k)),
                None => !old(self)@.dom().contains(k)
                    && final(self).entries() == old(self).entries(),
            },
    {
        proof {
            lemma_index_of_key(old(self).entries(), k);
        }
        let i = self.position(k);
        if i < self.entries.len() && self.entries[i].0 == k {
            proof {
                lemma_sorted_entry_in_map(self.entries(), i as int);
                lemma_index_of_key_finds(self.entries(), k, i as int);
                let j = index_of_key(self.entries(), k);
                if i as int != j {
                    assert(self.entries()[i as int].0 < self.entries()[j].0);
                }
                lemma_map_of_remove(self.entries(), i as int);
            }
            let entry = self.entries.remove(i);
            Some(entry.1)
        } else {
            proof {
                lemma_no_entry_for_key(self.entries(), k, i as int);
                assert(map_of(self.entries()).remove(k) =~= map_of(self.entries()));
            }
            None
        }
    }

    /// Takes the entry for `k` out, if the store holds one.
    pub fn remove(&mut self, k: u64)
        requires
            old(self).wf(),
        ensures
            final(self).wf(),
            final(self)@ == old(self)@.remove(k),
            old(self)@.dom().contains(k) ==> final(self).entries()
                == old(self).entries().remove(index_of_key(old(self).entries(), k)),
            !old(self)@.dom().contains(k) ==> final(self).entries() == old(self).entries(),
    {
        proof {
            lemma_index_of_key(old(self).entries(), k);
        }
        let i = self.position(k);
        if i < self.entries.len() && self.entries[i].0 == k {
            proof {
                lemma_sorted_entry_in_map(self.entries(), i as int);
                lemma_index_of_key_finds(self.entries(), k, i as int);
                let j = index_of_key(self.entries(), k);
                if i as int != j {
                    assert(self.entries()[i as int].0 < self.entries()[j].0);
                }
                lemma_map_of_remove(self.entries(), i as int);
            }
            let _ = self.entries.remove(i);
        } else {
            proof {
                lemma_no_entry_for_key(self.entries(), k, i as int);
                assert(map_of(self.entries()).remove(k) =~= map_of(self.entries()));
            }
        }
    }
}

/// When the scan for `k` ran past every key below `k` and stopped on a
/// larger one, the store holds nothing for `k`.
proof fn lemma_no_entry_for_key<T>(s: Seq<(u64, T)>, k: u64, i: int)
    requires
        sorted_by_key(s),
        0 <= i <= s.len(),
        forall|j: int| 0 <= j < i ==> s[j].0 < k,
        i < s.len() ==> s[i].0 > k,
    ensures
        !map_of(s).dom().contains(k),
{
    lemma_index_of_key(s, k);
    if map_of(s).dom().contains(k) {
        let j = index_of_key(s, k);
        assert(s[j].0 == k);
        if j >= i {
            if j > i {
                assert(s[i].0 < s[j].0);
            }
        }
        assert(false);
    }
}

/// In a sorted store, the entries below `k` form a prefix.
pub proof fn lemma_count_below_sorted<T>(s: Seq<(u64, T)>, k: u64)
    requires
        sorted_by_key(s),
    ensures
        0 <= count_below(s, k) <= s.len(),
    decreases s.len(),
{
    if s.len() > 0 {
        lemma_count_below_sorted(s.drop_last(), k);
    }
}

/// The first position whose key is not below `k` counts the keys below `k`.
proof fn lemma_count_below_is_position<T>(s: Seq<(u64, T)>, k: u64, i: int)
    requires
        sorted_by_key(s),
        0 <= i <= s.len(),
        forall|j: int| 0 <= j < i ==> s[j].0 < k,
        i < s.len() ==> s[i].0 >= k,
    ensures
        count_below(s, k) == i,
    decreases s.len(),
{
    if s.len() > 0 {
        if i == s.len() {
            lemma_count_below_is_position(s.drop_last(), k, i - 1);
        } else {
            assert(s.last().0 >= k) by {
                if s.len() - 1 > i {
                    assert(s[i].0 < s[s.len() - 1].0);
                }
            }
            lemma_count_below_is_position(s.drop_last(), k, i);
        }
    }
}

} // verus!
