//! The durable key-value layer under the modules' in-memory maps: an
//! abstract byte-key to byte-value store with `get`, `put`, `delete` and a
//! prefix scan, plus the in-memory implementation that tests run on.

use vstd::prelude::*;

verus! {

/// The contents of a sequence of key-value entries, later entries winning.
pub open spec fn entries_map(s: Seq<(Vec<u8>, Vec<u8>)>) -> Map<Seq<u8>, Seq<u8>>
    decreases s.len(),
{
    if s.len() == 0 {
        Map::empty()
    } else {
        entries_map(s.drop_last()).insert(s.last().0@, s.last().1@)
    }
}

/// Strict lexicographic order on byte keys: a proper prefix comes first;
/// otherwise the first differing byte decides.
pub open spec fn lex_lt(a: Seq<u8>, b: Seq<u8>) -> bool
    decreases a.len(),
{
    if b.len() == 0 {
        false
    } else if a.len() == 0 {
        true
    } else if a[0] < b[0] {
        true
    } else if a[0] > b[0] {
        false
    } else {
        lex_lt(a.skip(1), b.skip(1))
    }
}

/// Two keys are ordered one way or the other, or they are equal.
pub proof fn lemma_lex_total(a: Seq<u8>, b: Seq<u8>)
    ensures
        lex_lt(a, b) || lex_lt(b, a) || a == b,
    decreases a.len(),
{
    if a.len() == 0 && b.len() == 0 {
        assert(a =~= b);
    } else if a.len() > 0 && b.len() > 0 && a[0] == b[0] {
        lemma_lex_total(a.skip(1), b.skip(1));
        if a.skip(1) == b.skip(1) {
            assert(a.skip(1).len() == b.skip(1).len());
            assert(a.len() == b.len());
            assert forall|i: int| 0 <= i < a.len() implies a[i] == b[i] by {
                if i > 0 {
                    assert(a[i] == a.skip(1)[i - 1]);
                    assert(b[i] == b.skip(1)[i - 1]);
                }
            }
            assert(a =~= b);
        }
    }
}

/// No key is below itself.
pub proof fn lemma_lex_irrefl(a: Seq<u8>)
    ensures
        !lex_lt(a, a),
    decreases a.len(),
{
    if a.len() > 0 {
        lemma_lex_irrefl(a.skip(1));
    }
}

/// At most one direction of the order holds.
pub proof fn lemma_lex_asym(a: Seq<u8>, b: Seq<u8>)
    ensures
        !(lex_lt(a, b) && lex_lt(b, a)),
    decreases a.len(),
{
    if a.len() > 0 && b.len() > 0 && a[0] == b[0] {
        lemma_lex_asym(a.skip(1), b.skip(1));
    }
}

/// The order is transitive.
pub proof fn lemma_lex_trans(a: Seq<u8>, b: Seq<u8>, c: Seq<u8>)
    requires
        lex_lt(a, b),
        lex_lt(b, c),
    ensures
        lex_lt(a, c),
    decreases a.len(),
{
    if a.len() > 0 && b.len() > 0 && c.len() > 0 && a[0] == b[0] && b[0] == c[0] {
        lemma_lex_trans(a.skip(1), b.skip(1), c.skip(1));
    }
}

/// Three-way key comparison: 0 below, 1 equal, 2 above.
#[verifier::loop_isolation(false)]
pub fn compare_keys(a: &Vec<u8>, b: &Vec<u8>) -> (r: u8)
    ensures
        r == 0 ==> lex_lt(a@, b@),
        r == 1 ==> a@ == b@,
        r == 2 ==> lex_lt(b@, a@),
        r == 0 || r == 1 || r == 2,
{
    let alen: usize = a.len();
    let blen: usize = b.len();
    let mut i: usize = 0;
    proof {
        assert(a@.skip(0) =~= a@);
        assert(b@.skip(0) =~= b@);
    }
    while i < alen && i < blen
        invariant
            i <= alen,
            i <= blen,
            alen == a@.len(),
            blen == b@.len(),
            lex_lt(a@, b@) == lex_lt(a@.skip(i as int), b@.skip(i as int)),
            lex_lt(b@, a@) == lex_lt(b@.skip(i as int), a@.skip(i as int)),
            forall|k: int| 0 <= k < i ==> a@[k] == b@[k],
        decreases alen - i,
    {
        proof {
            assert(a@.skip(i as int)[0] == a@[i as int]);
            assert(b@.skip(i as int)[0] == b@[i as int]);
        }
        if a[i] < b[i] {
            return 0;
        }
        if a[i] > b[i] {
            return 2;
        }
        proof {
            assert(a@.skip(i as int).skip(1) =~= a@.skip(i + 1));
            assert(b@.skip(i as int).skip(1) =~= b@.skip(i + 1));
        }
        i += 1;
    }
    if alen == blen {
        proof {
            assert(a@ =~= b@);
        }
        1
    } else if alen < blen {
        proof {
            assert(a@.skip(i as int).len() == 0);
            assert(b@.skip(i as int).len() > 0);
        }
        0
    } else {
        proof {
            assert(b@.skip(i as int).len() == 0);
            assert(a@.skip(i as int).len() > 0);
        }
        2
    }
}

/// Keys are pairwise distinct.
pub open spec fn distinct_keys(s: Seq<(Vec<u8>, Vec<u8>)>) -> bool {
    forall|i: int, j: int| 0 <= i < j < s.len() ==> s[i].0@ != s[j].0@
}

/// Keys are in strictly ascending lexicographic order.
pub open spec fn sorted_keys(s: Seq<(Vec<u8>, Vec<u8>)>) -> bool {
    forall|i: int, j: int| 0 <= i < j < s.len() ==> #[trigger] lex_lt(s[i].0@, s[j].0@)
}

/// An ordered byte-key to byte-value store.  Its mathematical value is a map
/// from key bytes to value bytes.  `scan_prefix` hands back every pair whose
/// key starts with the prefix, each exactly once, in ascending key order.
pub trait KeyValueStore: Sized {
    /// The store's mathematical value.  The default is only a placeholder so
    /// that unverified backends outside this crate can implement the trait;
    /// a verified implementation overrides it.
    open spec fn contents(&self) -> Map<Seq<u8>, Seq<u8>> {
        Map::empty()
    }

    /// The store's own well-formedness; constructors establish it and every
    /// operation preserves it.  The default is a placeholder in the same
    /// way.
    open spec fn wf(&self) -> bool {
        true
    }

    /// Whether this backend's writes cannot fail.  The cautious default is
    /// `false`; the in-memory store overrides it, which makes the
    /// write-through round trip derivable there.
    open spec fn infallible(&self) -> bool {
        false
    }

    fn get(&self, key: &Vec<u8>) -> (r: Option<Vec<u8>>)
        requires
            self.wf(),
        ensures
            match r {
                Some(v) => self.contents().contains_key(key@) && self.contents()[key@] == v@,
                None => !self.contents().contains_key(key@),
            },
    ;

    fn put(&mut self, key: &Vec<u8>, value: &Vec<u8>) -> (r: Result<(), String>)
        requires
            old(self).wf(),
        ensures
            final(self).wf(),
            final(self).infallible() == old(self).infallible(),
            old(self).infallible() ==> r is Ok,
            r is Ok ==> final(self).contents() == old(self).contents().insert(key@, value@),
            r is Err ==> final(self).contents() == old(self).contents(),
    ;

    fn delete(&mut self, key: &Vec<u8>) -> (r: Result<(), String>)
        requires
            old(self).wf(),
        ensures
            final(self).wf(),
            final(self).infallible() == old(self).infallible(),
            old(self).infallible() ==> r is Ok,
            r is Ok ==> final(self).contents() == old(self).contents().remove(key@),
            r is Err ==> final(self).contents() == old(self).contents(),
    ;

    fn scan_prefix(&self, prefix: &Vec<u8>) -> (r: Vec<(Vec<u8>, Vec<u8>)>)
        requires
            self.wf(),
        ensures
            forall|i: int|
                0 <= i < r@.len() ==> {
                    &&& self.contents().contains_key((#[trigger] r@[i]).0@)
                    &&& self.contents()[r@[i].0@] == r@[i].1@
                    &&& prefix@.is_prefix_of(r@[i].0@)
                },
            forall|k: Seq<u8>|
                self.contents().contains_key(k) && prefix@.is_prefix_of(k) ==> exists|i: int|
                    0 <= i < r@.len() && (#[trigger] r@[i]).0@ == k,
            forall|i: int, j: int| 0 <= i < j < r@.len() ==> r@[i].0@ != r@[j].0@,
            forall|i: int, j: int|
                0 <= i < j < r@.len() ==> #[trigger] lex_lt(r@[i].0@, r@[j].0@),
    ;
}

/// Either `put` persisted the new value under `k`, or it failed and the
/// store is unchanged.
pub open spec fn wrote_or_kept(
    oldc: Map<Seq<u8>, Seq<u8>>,
    newc: Map<Seq<u8>, Seq<u8>>,
    k: Seq<u8>,
    v: Seq<u8>,
) -> bool {
    newc == oldc.insert(k, v) || newc == oldc
}

/// Each of two `put`s either persisted its value or failed and left the
/// store as it was.
pub open spec fn two_writes_or_kept(
    oldc: Map<Seq<u8>, Seq<u8>>,
    newc: Map<Seq<u8>, Seq<u8>>,
    k1: Seq<u8>,
    v1: Seq<u8>,
    k2: Seq<u8>,
    v2: Seq<u8>,
) -> bool {
    ||| newc == oldc.insert(k1, v1).insert(k2, v2)
    ||| newc == oldc.insert(k1, v1)
    ||| newc == oldc.insert(k2, v2)
    ||| newc == oldc
}

/// Either `delete` erased `k`, or it failed and the store is unchanged.
pub open spec fn erased_or_kept(
    oldc: Map<Seq<u8>, Seq<u8>>,
    newc: Map<Seq<u8>, Seq<u8>>,
    k: Seq<u8>,
) -> bool {
    newc == oldc.remove(k) || newc == oldc
}

/// The in-memory store: an association vector with pairwise-distinct keys.
/// Fresh and empty at construction, so every test starts from clean state.
pub struct MemStore {
    entries: Vec<(Vec<u8>, Vec<u8>)>,
}

// ---------------------------------------------------------------------------
// Lemmas relating the association vector to its map.
// ---------------------------------------------------------------------------
/// A key is in the map exactly when some entry holds it.
proof fn lemma_entries_map_domain(s: Seq<(Vec<u8>, Vec<u8>)>, k: Seq<u8>)
    ensures
        entries_map(s).contains_key(k) <==> exists|i: int| 0 <= i < s.len() && (#[trigger] s[i]).0@
            == k,
    decreases s.len(),
{
    if s.len() > 0 {
        lemma_entries_map_domain(s.drop_last(), k);
        if s.last().0@ == k {
            assert(s[s.len() - 1].0@ == k);
        } else if entries_map(s).contains_key(k) {
            let i = choose|i: int| 0 <= i < s.drop_last().len() && (#[trigger] s.drop_last()[i]).0@
                == k;
            assert(s[i].0@ == k);
        } else {
            assert forall|i: int| 0 <= i < s.len() implies (#[trigger] s[i]).0@ != k by {
                if i < s.len() - 1 {
                    assert(s.drop_last()[i].0@ == s[i].0@);
                }
            }
        }
    }
}

/// With distinct keys, the map's value at an entry's key is that entry's
/// value.
proof fn lemma_entries_map_at(s: Seq<(Vec<u8>, Vec<u8>)>, i: int)
    requires
        distinct_keys(s),
        0 <= i < s.len(),
    ensures
        entries_map(s).contains_key(s[i].0@),
        entries_map(s)[s[i].0@] == s[i].1@,
    decreases s.len(),
{
    if i == s.len() - 1 {
    } else {
        assert(distinct_keys(s.drop_last()));
        assert(s.drop_last()[i] == s[i]);
        lemma_entries_map_at(s.drop_last(), i);
        assert(s[i].0@ != s.last().0@);
    }
}

/// Updating the value at an existing key updates the map at that key.
proof fn lemma_entries_map_update(s: Seq<(Vec<u8>, Vec<u8>)>, i: int, e: (Vec<u8>, Vec<u8>))
    requires
        distinct_keys(s),
        0 <= i < s.len(),
        e.0@ == s[i].0@,
    ensures
        entries_map(s.update(i, e)) =~= entries_map(s).insert(e.0@, e.1@),
    decreases s.len(),
{
    if i == s.len() - 1 {
        assert(s.update(i, e).drop_last() =~= s.drop_last());
        assert(s.update(i, e).last() == e);
    } else {
        assert(distinct_keys(s.drop_last()));
        assert(s.drop_last()[i] == s[i]);
        lemma_entries_map_update(s.drop_last(), i, e);
        assert(s.update(i, e).drop_last() =~= s.drop_last().update(i, e));
        assert(s.update(i, e).last() == s.last());
        assert(s[i].0@ != s.last().0@);
    }
}

/// Removing an entry removes its key from the map.
proof fn lemma_entries_map_remove(s: Seq<(Vec<u8>, Vec<u8>)>, i: int)
    requires
        distinct_keys(s),
        0 <= i < s.len(),
    ensures
        entries_map(s.remove(i)) =~= entries_map(s).remove(s[i].0@),
    decreases s.len(),
{
    if i == s.len() - 1 {
        assert(s.remove(i) =~= s.drop_last());
        lemma_entries_map_domain(s.drop_last(), s[i].0@);
        assert forall|j: int| 0 <= j < s.drop_last().len() implies (#[trigger] s.drop_last()[j]).0@
            != s[i].0@ by {
            assert(s[j].0@ != s[i].0@);
        }
        assert(!entries_map(s.drop_last()).contains_key(s[i].0@));
    } else {
        assert(distinct_keys(s.drop_last()));
        assert(s.drop_last()[i] == s[i]);
        lemma_entries_map_remove(s.drop_last(), i);
        assert(s.remove(i).drop_last() =~= s.drop_last().remove(i));
        assert(s.remove(i).last() == s.last());
        assert(s[i].0@ != s.last().0@);
    }
}

/// Inserting an entry with a fresh key, at any position, inserts its key
/// in the map.
proof fn lemma_entries_map_insert_at(s: Seq<(Vec<u8>, Vec<u8>)>, p: int, e: (Vec<u8>, Vec<u8>))
    requires
        0 <= p <= s.len(),
        forall|j: int| 0 <= j < s.len() ==> (#[trigger] s[j]).0@ != e.0@,
    ensures
        entries_map(s.insert(p, e)) =~= entries_map(s).insert(e.0@, e.1@),
    decreases s.len(),
{
    if p == s.len() {
        assert(s.insert(p, e).drop_last() =~= s);
        assert(s.insert(p, e).last() == e);
    } else {
        assert(s.insert(p, e).last() == s.last());
        assert(s.insert(p, e).drop_last() =~= s.drop_last().insert(p, e));
        assert(forall|j: int|
            0 <= j < s.drop_last().len() ==> (#[trigger] s.drop_last()[j]).0@ != e.0@);
        lemma_entries_map_insert_at(s.drop_last(), p, e);
        assert(s.last().0@ != e.0@);
        assert(entries_map(s.drop_last()).insert(e.0@, e.1@).insert(s.last().0@, s.last().1@)
            =~= entries_map(s.drop_last()).insert(s.last().0@, s.last().1@).insert(e.0@, e.1@));
    }
}

impl MemStore {
    /// A fresh, empty store.
    pub fn new() -> (r: MemStore)
        ensures
            r.wf(),
            r.contents() == Map::<Seq<u8>, Seq<u8>>::empty(),
    {
        MemStore { entries: Vec::new() }
    }

    /// The index holding `key`, if any.
    fn find(&self, key: &Vec<u8>) -> (r: Option<usize>)
        ensures
            match r {
                Some(i) => i < self.entries@.len() && self.entries@[i as int].0@ == key@,
                None => forall|i: int|
                    0 <= i < self.entries@.len() ==> (#[trigger] self.entries@[i]).0@ != key@,
            },
    {
        let n: usize = self.entries.len();
        let mut i: usize = 0;
        while i < n
            invariant
                i <= n,
                n == self.entries@.len(),
                forall|j: int| 0 <= j < i ==> (#[trigger] self.entries@[j]).0@ != key@,
            decreases n - i,
        {
            if bytes_eq(&self.entries[i].0, key) {
                return Some(i);
            }
            i += 1;
        }
        None
    }
}

/// Byte-vector equality.
pub fn bytes_eq(a: &Vec<u8>, b: &Vec<u8>) -> (r: bool)
    ensures
        r <==> a@ == b@,
{
    let n: usize = a.len();
    if n != b.len() {
        assert(a@.len() != b@.len());
        return false;
    }
    let mut i: usize = 0;
    while i < n
        invariant
            i <= n,
            n == a@.len(),
            n == b@.len(),
            forall|j: int| 0 <= j < i ==> a@[j] == b@[j],
        decreases n - i,
    {
        if a[i] != b[i] {
            return false;
        }
        i += 1;
    }
    proof {
        assert(a@ =~= b@);
    }
    true
}

impl KeyValueStore for MemStore {
    closed spec fn contents(&self) -> Map<Seq<u8>, Seq<u8>> {
        entries_map(self.entries@)
    }

    closed spec fn wf(&self) -> bool {
        distinct_keys(self.entries@) && sorted_keys(self.entries@)
    }

    closed spec fn infallible(&self) -> bool {
        true
    }

    fn get(&self, key: &Vec<u8>) -> (r: Option<Vec<u8>>) {
        match self.find(key) {
            Some(i) => {
                proof {
                    lemma_entries_map_at(self.entries@, i as int);
                }
                Some(clone_bytes(&self.entries[i].1))
            },
            None => {
                proof {
                    lemma_entries_map_domain(self.entries@, key@);
                }
                None
            },
        }
    }

    #[verifier::loop_isolation(false)]
    fn put(&mut self, key: &Vec<u8>, value: &Vec<u8>) -> (r: Result<(), String>) {
        let entry = (clone_bytes(key), clone_bytes(value));
        let n: usize = self.entries.len();
        let mut p: usize = 0;
        let mut stop = false;
        while !stop && p < n
            invariant
                p <= n,
                forall|j: int| 0 <= j < p ==> lex_lt((#[trigger] self.entries@[j]).0@, key@),
                stop ==> p < n && !lex_lt(self.entries@[p as int].0@, key@),
            decreases n - p, (if stop {
                0int
            } else {
                1int
            }),
        {
            let c = compare_keys(&self.entries[p].0, key);
            if c == 0 {
                p += 1;
            } else {
                proof {
                    if c == 1 {
                        lemma_lex_irrefl(key@);
                    } else {
                        lemma_lex_asym(self.entries@[p as int].0@, key@);
                    }
                }
                stop = true;
            }
        }
        if p < n && bytes_eq(&self.entries[p].0, key) {
            proof {
                lemma_entries_map_update(self.entries@, p as int, entry);
            }
            let ghost olds = self.entries@;
            self.entries.set(p, entry);
            proof {
                assert(forall|idx: int|
                    0 <= idx < self.entries@.len() ==> (#[trigger] self.entries@[idx]).0@
                        == olds[idx].0@);
                assert(distinct_keys(self.entries@));
                assert(sorted_keys(self.entries@)) by {
                    assert forall|a: int, b: int|
                        0 <= a < b < self.entries@.len() implies #[trigger] lex_lt(
                        self.entries@[a].0@,
                        self.entries@[b].0@,
                    ) by {
                        assert(lex_lt(olds[a].0@, olds[b].0@));
                    }
                }
            }
        } else {
            proof {
                assert forall|j: int|
                    p <= j < n implies lex_lt(key@, (#[trigger] self.entries@[j]).0@) by {
                    assert(self.entries@[p as int].0@ != key@);
                    lemma_lex_total(self.entries@[p as int].0@, key@);
                    assert(lex_lt(key@, self.entries@[p as int].0@));
                    if j > p {
                        assert(lex_lt(self.entries@[p as int].0@, self.entries@[j].0@));
                        lemma_lex_trans(key@, self.entries@[p as int].0@, self.entries@[j].0@);
                    }
                }
                assert forall|j: int|
                    0 <= j < n implies (#[trigger] self.entries@[j]).0@ != key@ by {
                    lemma_lex_irrefl(key@);
                }
                lemma_entries_map_insert_at(self.entries@, p as int, entry);
            }
            let ghost olds = self.entries@;
            self.entries.insert(p, entry);
            proof {
                assert forall|a: int, b: int|
                    0 <= a < b < self.entries@.len() implies #[trigger] lex_lt(
                    self.entries@[a].0@,
                    self.entries@[b].0@,
                ) && self.entries@[a].0@ != self.entries@[b].0@ by {
                    let pa = p as int;
                    let ka = if a < pa {
                        olds[a].0@
                    } else if a == pa {
                        key@
                    } else {
                        olds[a - 1].0@
                    };
                    assert(self.entries@[a].0@ == ka);
                    let kb = if b < pa {
                        olds[b].0@
                    } else if b == pa {
                        key@
                    } else {
                        olds[b - 1].0@
                    };
                    assert(self.entries@[b].0@ == kb);
                    if a == pa {
                        assert(lex_lt(key@, olds[b - 1].0@));
                    } else if b == pa {
                        assert(lex_lt(olds[a].0@, key@));
                    } else if a < pa && b > pa {
                        assert(lex_lt(olds[a].0@, olds[b - 1].0@));
                    } else {
                        assert(lex_lt(ka, kb));
                    }
                    lemma_lex_asym(ka, kb);
                    lemma_lex_irrefl(ka);
                }
                assert(distinct_keys(self.entries@));
                assert(sorted_keys(self.entries@));
            }
        }
        Ok(())
    }

    fn delete(&mut self, key: &Vec<u8>) -> (r: Result<(), String>) {
        match self.find(key) {
            Some(i) => {
                proof {
                    lemma_entries_map_remove(self.entries@, i as int);
                }
                let ghost olds = self.entries@;
                self.entries.remove(i);
                proof {
                    assert(distinct_keys(self.entries@)) by {
                        assert forall|a: int, b: int|
                            0 <= a < b < self.entries@.len() implies (#[trigger] self.entries@[a]).0@
                            != (#[trigger] self.entries@[b]).0@ by {
                            let a0 = if a < i as int {
                                a
                            } else {
                                a + 1
                            };
                            let b0 = if b < i as int {
                                b
                            } else {
                                b + 1
                            };
                            assert(self.entries@[a] == olds[a0]);
                            assert(self.entries@[b] == olds[b0]);
                        }
                    }
                    assert(sorted_keys(self.entries@)) by {
                        assert forall|a: int, b: int|
                            0 <= a < b < self.entries@.len() implies #[trigger] lex_lt(
                            self.entries@[a].0@,
                            self.entries@[b].0@,
                        ) by {
                            let a0 = if a < i as int {
                                a
                            } else {
                                a + 1
                            };
                            let b0 = if b < i as int {
                                b
                            } else {
                                b + 1
                            };
                            assert(self.entries@[a] == olds[a0]);
                            assert(self.entries@[b] == olds[b0]);
                            assert(lex_lt(olds[a0].0@, olds[b0].0@));
                        }
                    }
                }
            },
            None => {
                proof {
                    lemma_entries_map_domain(self.entries@, key@);
                    assert(entries_map(self.entries@).remove(key@) =~= entries_map(self.entries@));
                }
            },
        }
        Ok(())
    }

    fn scan_prefix(&self, prefix: &Vec<u8>) -> (r: Vec<(Vec<u8>, Vec<u8>)>) {
        let n: usize = self.entries.len();
        let mut out: Vec<(Vec<u8>, Vec<u8>)> = Vec::new();
        let mut i: usize = 0;
        while i < n
            invariant
                i <= n,
                n == self.entries@.len(),
                distinct_keys(self.entries@),
                sorted_keys(self.entries@),
                forall|a: int|
                    0 <= a < out@.len() ==> {
                        &&& entries_map(self.entries@).contains_key((#[trigger] out@[a]).0@)
                        &&& entries_map(self.entries@)[out@[a].0@] == out@[a].1@
                        &&& prefix@.is_prefix_of(out@[a].0@)
                    },
                forall|j: int|
                    0 <= j < i && prefix@.is_prefix_of((#[trigger] self.entries@[j]).0@)
                        ==> exists|a: int| 0 <= a < out@.len() && (#[trigger] out@[a]).0@
                        == self.entries@[j].0@,
                forall|a: int, b: int| 0 <= a < b < out@.len() ==> out@[a].0@ != out@[b].0@,
                forall|a: int, b: int|
                    0 <= a < b < out@.len() ==> #[trigger] lex_lt(out@[a].0@, out@[b].0@),
                forall|a: int|
                    0 <= a < out@.len() ==> exists|j: int|
                        0 <= j < i && (#[trigger] out@[a]).0@ == self.entries@[j].0@,
            decreases n - i,
        {
            let ghost out0 = out@;
            if starts_with(&self.entries[i].0, prefix) {
                proof {
                    lemma_entries_map_at(self.entries@, i as int);
                }
                let pair = (clone_bytes(&self.entries[i].0), clone_bytes(&self.entries[i].1));
                out.push(pair);
            }
            proof {
                assert forall|j: int|
                    0 <= j < i + 1 && prefix@.is_prefix_of((#[trigger] self.entries@[j]).0@)
                    implies exists|a: int| 0 <= a < out@.len() && (#[trigger] out@[a]).0@
                    == self.entries@[j].0@ by {
                    if j < i {
                        let a = choose|a: int|
                            0 <= a < out0.len() && (#[trigger] out0[a]).0@ == self.entries@[j].0@;
                        assert(out@[a].0@ == self.entries@[j].0@);
                    } else {
                        assert(out@[out@.len() - 1].0@ == self.entries@[j].0@);
                    }
                }
                assert forall|a: int, b: int|
                    0 <= a < b < out@.len() implies #[trigger] lex_lt(out@[a].0@, out@[b].0@) by {
                    if b < out0.len() {
                        assert(out@[a] == out0[a]);
                        assert(out@[b] == out0[b]);
                    } else {
                        assert(out@[a] == out0[a]);
                        let j = choose|j: int|
                            0 <= j < i && (#[trigger] out0[a]).0@ == self.entries@[j].0@;
                        assert(lex_lt(self.entries@[j].0@, self.entries@[i as int].0@));
                        assert(out@[b].0@ == self.entries@[i as int].0@);
                    }
                }
            }
            i += 1;
        }
        proof {
            assert forall|k: Seq<u8>|
                entries_map(self.entries@).contains_key(k) && prefix@.is_prefix_of(k)
                implies exists|a: int| 0 <= a < out@.len() && (#[trigger] out@[a]).0@ == k by {
                lemma_entries_map_domain(self.entries@, k);
                let j = choose|j: int|
                    0 <= j < self.entries@.len() && (#[trigger] self.entries@[j]).0@ == k;
            }
        }
        out
    }
}

/// Copy a byte vector.
fn clone_bytes(v: &Vec<u8>) -> (r: Vec<u8>)
    ensures
        r@ == v@,
{
    let n: usize = v.len();
    let mut out: Vec<u8> = Vec::new();
    let mut i: usize = 0;
    while i < n
        invariant
            i <= n,
            n == v@.len(),
            out@ == v@.subrange(0, i as int),
        decreases n - i,
    {
        out.push(v[i]);
        assert(out@ =~= v@.subrange(0, i + 1));
        i += 1;
    }
    assert(out@ =~= v@);
    out
}

/// Whether `v` starts with `prefix`.
fn starts_with(v: &Vec<u8>, prefix: &Vec<u8>) -> (r: bool)
    ensures
        r <==> prefix@.is_prefix_of(v@),
{
    let np: usize = prefix.len();
    if np > v.len() {
        assert(!prefix@.is_prefix_of(v@));
        return false;
    }
    let mut i: usize = 0;
    while i < np
        invariant
            i <= np,
            np == prefix@.len(),
            np <= v@.len(),
            forall|j: int| 0 <= j < i ==> prefix@[j] == v@[j],
        decreases np - i,
    {
        if prefix[i] != v[i] {
            assert(!prefix@.is_prefix_of(v@));
            return false;
        }
        i += 1;
    }
    proof {
        assert(prefix@ =~= v@.subrange(0, np as int));
    }
    true
}

} // verus!
