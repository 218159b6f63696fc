//! The in-memory state map each module owns: an association vector with
//! pairwise-distinct keys, whose mathematical value is a `Map` from the
//! keys' views to the stored values.

use vstd::prelude::*;

verus! {

/// A key whose executable equality decides equality of views.
pub trait StateKey: View + Sized {
    fn key_eq(&self, other: &Self) -> (r: bool)
        ensures
            r <==> self@ == other@,
    ;
}

/// The map a sequence of entries denotes, later entries winning.
pub open spec fn assoc_map<K: View, V>(s: Seq<(K, V)>) -> Map<K::V, V>
    decreases s.len(),
{
    if s.len() == 0 {
        Map::empty()
    } else {
        assoc_map(s.drop_last()).insert(s.last().0@, s.last().1)
    }
}

/// Keys are pairwise distinct.
pub open spec fn assoc_distinct<K: View, V>(s: Seq<(K, V)>) -> bool {
    forall|i: int, j: int| 0 <= i < j < s.len() ==> s[i].0@ != s[j].0@
}

/// A key is in the map exactly when some entry holds it.
pub proof fn lemma_assoc_map_domain<K: View, V>(s: Seq<(K, V)>, k: K::V)
    ensures
        assoc_map(s).contains_key(k) <==> exists|i: int| 0 <= i < s.len() && (#[trigger] s[i]).0@
            == k,
    decreases s.len(),
{
    if s.len() > 0 {
        lemma_assoc_map_domain(s.drop_last(), k);
        if s.last().0@ == k {
            assert(s[s.len() - 1].0@ == k);
        } else if assoc_map(s).contains_key(k) {
            let i = choose|i: int| 0 <= i < s.drop_last().len() && (#[trigger] s.drop_last()[i]).0@
                == k;
            assert(s[i].0@ == k);
        } else {
            assert forall|i: int| 0 <= i < s.len() implies (#[trigger] s[i]).0@ != k by {
                if i < s.len() - 1 {
                    assert(s.drop_last()[i].0@ == s[i].0@);
                }
            }
        }
    }
}

/// With distinct keys, the map's value at an entry's key is that entry's
/// value.
pub proof fn lemma_assoc_map_at<K: View, V>(s: Seq<(K, V)>, i: int)
    requires
        assoc_distinct(s),
        0 <= i < s.len(),
    ensures
        assoc_map(s).contains_key(s[i].0@),
        assoc_map(s)[s[i].0@] == s[i].1,
    decreases s.len(),
{
    if i == s.len() - 1 {
    } else {
        assert(assoc_distinct(s.drop_last()));
        assert(s.drop_last()[i] == s[i]);
        lemma_assoc_map_at(s.drop_last(), i);
        assert(s[i].0@ != s.last().0@);
    }
}

/// Updating the value at an existing key updates the map at that key.
pub proof fn lemma_assoc_map_update<K: View, V>(s: Seq<(K, V)>, i: int, e: (K, V))
    requires
        assoc_distinct(s),
        0 <= i < s.len(),
        e.0@ == s[i].0@,
    ensures
        assoc_map(s.update(i, e)) =~= assoc_map(s).insert(e.0@, e.1),
    decreases s.len(),
{
    if i == s.len() - 1 {
        assert(s.update(i, e).drop_last() =~= s.drop_last());
        assert(s.update(i, e).last() == e);
    } else {
        assert(assoc_distinct(s.drop_last()));
        assert(s.drop_last()[i] == s[i]);
        lemma_assoc_map_update(s.drop_last(), i, e);
        assert(s.update(i, e).drop_last() =~= s.drop_last().update(i, e));
        assert(s.update(i, e).last() == s.last());
        assert(s[i].0@ != s.last().0@);
    }
}

/// Removing an entry removes its key from the map.
pub proof fn lemma_assoc_map_remove<K: View, V>(s: Seq<(K, V)>, i: int)
    requires
        assoc_distinct(s),
        0 <= i < s.len(),
    ensures
        assoc_map(s.remove(i)) =~= assoc_map(s).remove(s[i].0@),
    decreases s.len(),
{
    if i == s.len() - 1 {
        assert(s.remove(i) =~= s.drop_last());
        lemma_assoc_map_domain(s.drop_last(), s[i].0@);
        assert forall|j: int| 0 <= j < s.drop_last().len() implies (#[trigger] s.drop_last()[j]).0@
            != s[i].0@ by {
            assert(s[j].0@ != s[i].0@);
        }
        assert(!assoc_map(s.drop_last()).contains_key(s[i].0@));
    } else {
        assert(assoc_distinct(s.drop_last()));
        assert(s.drop_last()[i] == s[i]);
        lemma_assoc_map_remove(s.drop_last(), i);
        assert(s.remove(i).drop_last() =~= s.drop_last().remove(i));
        assert(s.remove(i).last() == s.last());
        assert(s[i].0@ != s.last().0@);
    }
}

impl StateKey for String {
    fn key_eq(&self, other: &Self) -> (r: bool) {
        self.eq(other)
    }
}

/// The association vector itself.
#[derive(Debug)]
pub struct StateMap<K, V> {
    entries: Vec<(K, V)>,
}

impl<K: StateKey, V: Copy> StateMap<K, V> {
    /// Its mathematical value.
    pub closed spec fn view_map(&self) -> Map<K::V, V> {
        assoc_map(self.entries@)
    }

    /// Pairwise-distinct keys; established at construction, preserved by
    /// every operation.
    pub closed spec fn wf(&self) -> bool {
        assoc_distinct(self.entries@)
    }

    /// A fresh, empty map.
    pub fn new() -> (r: Self)
        ensures
            r.wf(),
            r.view_map() == Map::<K::V, V>::empty(),
    {
        StateMap { entries: Vec::new() }
    }

    /// The index holding `key`, if any.
    fn find(&self, key: &K) -> (r: Option<usize>)
        ensures
            match r {
                Some(i) => i < self.entries@.len() && self.entries@[i as int].0@ == key@,
                None => forall|i: int|
                    0 <= i < self.entries@.len() ==> (#[trigger] self.entries@[i]).0@ != key@,
            },
    {
        let n: usize = self.entries.len();
        let mut i: usize = 0;
        while i < n
            invariant
                i <= n,
                n == self.entries@.len(),
                forall|j: int| 0 <= j < i ==> (#[trigger] self.entries@[j]).0@ != key@,
            decreases n - i,
        {
            if self.entries[i].0.key_eq(key) {
                return Some(i);
            }
            i += 1;
        }
        None
    }

    /// The stored value at `key`, if any.
    pub fn get(&self, key: &K) -> (r: Option<V>)
        requires
            self.wf(),
        ensures
            match r {
                Some(v) => self.view_map().contains_key(key@) && self.view_map()[key@] == v,
                None => !self.view_map().contains_key(key@),
            },
    {
        match self.find(key) {
            Some(i) => {
                proof {
                    lemma_assoc_map_at(self.entries@, i as int);
                }
                Some(self.entries[i].1)
            },
            None => {
                proof {
                    lemma_assoc_map_domain(self.entries@, key@);
                }
                None
            },
        }
    }

    /// Store `value` at `key`, replacing any previous value.
    pub fn set(&mut self, key: K, value: V)
        requires
            old(self).wf(),
        ensures
            final(self).wf(),
            final(self).view_map() == old(self).view_map().insert(key@, value),
    {
        match self.find(&key) {
            Some(i) => {
                proof {
                    lemma_assoc_map_update(self.entries@, i as int, (key, value));
                }
                self.entries.set(i, (key, value));
                assert(assoc_distinct(self.entries@));
            },
            None => {
                proof {
                    lemma_assoc_map_domain(self.entries@, key@);
                }
                let ghost olds = self.entries@;
                self.entries.push((key, value));
                proof {
                    assert(self.entries@.drop_last() =~= olds);
                    assert(assoc_distinct(self.entries@)) by {
                        assert forall|i: int, j: int|
                            0 <= i < j < self.entries@.len() implies (#[trigger] self.entries@[i]).0@
                            != (#[trigger] self.entries@[j]).0@ by {
                            if j == self.entries@.len() - 1 {
                                assert(self.entries@[i].0@ == olds[i].0@);
                            } else {
                                assert(self.entries@[i] == olds[i]);
                                assert(self.entries@[j] == olds[j]);
                            }
                        }
                    }
                }
            },
        }
    }

    /// Remove the entry at `key`, if any.
    pub fn remove(&mut self, key: &K)
        requires
            old(self).wf(),
        ensures
            final(self).wf(),
            final(self).view_map() == old(self).view_map().remove(key@),
    {
        match self.find(key) {
            Some(i) => {
                proof {
                    lemma_assoc_map_remove(self.entries@, i as int);
                }
                let ghost olds = self.entries@;
                self.entries.remove(i);
                proof {
                    assert(assoc_distinct(self.entries@)) by {
                        assert forall|a: int, b: int|
                            0 <= a < b < self.entries@.len() implies (#[trigger] self.entries@[a]).0@
                            != (#[trigger] self.entries@[b]).0@ by {
                            let a0 = if a < i as int {
                                a
                            } else {
                                a + 1
                            };
                            let b0 = if b < i as int {
                                b
                            } else {
                                b + 1
                            };
                            assert(self.entries@[a] == olds[a0]);
                            assert(self.entries@[b] == olds[b0]);
                        }
                    }
                }
            },
            None => {
                proof {
                    lemma_assoc_map_domain(self.entries@, key@);
                    assert(assoc_map(self.entries@).remove(key@) =~= assoc_map(self.entries@));
                }
            },
        }
    }

}

} // verus!
