//! The system module: the block height counter and the per-account nonce
//! map, hydrated from the store at construction and written through on every
//! mutation.

use vstd::prelude::*;

use crate::account::AccountId32;
use crate::codec::{decode_le, encode_le, le_bytes, push_bytes, spec_decode_le};
use crate::state_map::StateMap;
use crate::store::{wrote_or_kept, KeyValueStore};

verus! {

/// The store key of the block height: the bytes of `system:block_number`.
pub open spec fn spec_block_number_key() -> Seq<u8> {
    seq![
        115u8, 121u8, 115u8, 116u8, 101u8, 109u8, 58u8, 98u8, 108u8, 111u8, 99u8, 107u8, 95u8,
        110u8, 117u8, 109u8, 98u8, 101u8, 114u8,
    ]
}

/// The key prefix of nonce entries: the bytes of `system:nonce:`.
pub open spec fn spec_nonce_prefix() -> Seq<u8> {
    seq![115u8, 121u8, 115u8, 116u8, 101u8, 109u8, 58u8, 110u8, 111u8, 110u8, 99u8, 101u8, 58u8]
}

/// The store key of one account's nonce.
pub open spec fn spec_nonce_key(who: Seq<u8>) -> Seq<u8> {
    spec_nonce_prefix() + who
}

fn block_number_key() -> (r: Vec<u8>)
    ensures
        r@ == spec_block_number_key(),
{
    let mut v: Vec<u8> = Vec::new();
    v.push(115);
    v.push(121);
    v.push(115);
    v.push(116);
    v.push(101);
    v.push(109);
    v.push(58);
    v.push(98);
    v.push(108);
    v.push(111);
    v.push(99);
    v.push(107);
    v.push(95);
    v.push(110);
    v.push(117);
    v.push(109);
    v.push(98);
    v.push(101);
    v.push(114);
    proof {
        assert(v@ =~= spec_block_number_key());
    }
    v
}

fn nonce_prefix() -> (r: Vec<u8>)
    ensures
        r@ == spec_nonce_prefix(),
{
    let mut v: Vec<u8> = Vec::new();
    v.push(115);
    v.push(121);
    v.push(115);
    v.push(116);
    v.push(101);
    v.push(109);
    v.push(58);
    v.push(110);
    v.push(111);
    v.push(110);
    v.push(99);
    v.push(101);
    v.push(58);
    proof {
        assert(v@ =~= spec_nonce_prefix());
    }
    v
}

fn nonce_key(who: &AccountId32) -> (r: Vec<u8>)
    ensures
        r@ == spec_nonce_key(who@),
{
    let mut v = nonce_prefix();
    push_bytes(&mut v, who.as_bytes().as_slice());
    v
}

/// The block height a store holds: the decoded value under the height key,
/// or zero when absent or undecodable.
pub open spec fn spec_stored_block_number(c: Map<Seq<u8>, Seq<u8>>) -> u32 {
    if c.contains_key(spec_block_number_key()) {
        match spec_decode_le(c[spec_block_number_key()], 0, 4) {
            Some(v) => v.0 as u32,
            None => 0,
        }
    } else {
        0
    }
}

/// The nonce map a store holds: every 32-byte account whose nonce key is
/// present with a decodable value.
pub open spec fn spec_hydrated_nonces(c: Map<Seq<u8>, Seq<u8>>) -> Map<Seq<u8>, u32> {
    Map::new(
        |who: Seq<u8>|
            who.len() == 32 && c.contains_key(spec_nonce_key(who)) && spec_decode_le(
                c[spec_nonce_key(who)],
                0,
                4,
            ) is Some,
        |who: Seq<u8>| ((spec_decode_le(c[spec_nonce_key(who)], 0, 4)->Some_0).0) as u32,
    )
}

/// Every account the partial hydrated map holds agrees with the store.
spec fn hydr_sound(m: Map<Seq<u8>, u32>, c: Map<Seq<u8>, Seq<u8>>) -> bool {
    forall|w: Seq<u8>| #[trigger] m.contains_key(w) ==> spec_hydrated_nonces(c).contains_key(w)
        && m[w] == spec_hydrated_nonces(c)[w]
}

/// Every processed scan entry with a well-formed key and value is in the
/// partial hydrated map.
spec fn hydr_covers(m: Map<Seq<u8>, u32>, found: Seq<(Vec<u8>, Vec<u8>)>, upto: int) -> bool {
    forall|j: int|
        0 <= j < upto && (#[trigger] found[j]).0@.len() == 45 && spec_decode_le(
            found[j].1@,
            0,
            4,
        ) is Some ==> m.contains_key(found[j].0@.skip(13))
}

/// The system module's state.
#[derive(Debug)]
pub struct Pallet {
    block_number: u32,
    nonce: StateMap<AccountId32, u32>,
}

impl Pallet {
    pub closed spec fn wf(&self) -> bool {
        self.nonce.wf()
    }

    /// The current block height.
    pub closed spec fn spec_block_number(&self) -> u32 {
        self.block_number
    }

    /// The nonce map: only accounts with a recorded nonce appear.
    pub closed spec fn nonces(&self) -> Map<Seq<u8>, u32> {
        self.nonce.view_map()
    }

    /// The nonce of `who`: the recorded value, or zero.
    pub open spec fn spec_nonce(&self, who: Seq<u8>) -> u32 {
        if self.nonces().contains_key(who) {
            self.nonces()[who]
        } else {
            0
        }
    }

    /// Hydrate the module from the store.
    #[verifier::loop_isolation(false)]
    pub fn new<S: KeyValueStore>(store: &S) -> (r: Self)
        requires
            store.wf(),
        ensures
            r.wf(),
            r.spec_block_number() == spec_stored_block_number(store.contents()),
            r.nonces() == spec_hydrated_nonces(store.contents()),
    {
        let ghost c = store.contents();
        let block_number: u32 = match store.get(&block_number_key()) {
            Some(bytes) => match decode_le(&bytes, 0, 4) {
                Some((v, _)) => {
                    proof {
                        crate::codec::lemma_decode_le_bound(bytes@, 0, 4);
                        assert(crate::codec::pow256(4) == 0x100000000) by {
                            reveal_with_fuel(crate::codec::pow256, 5);
                        }
                    }
                    v as u32
                },
                None => 0,
            },
            None => 0,
        };
        let mut nonce: StateMap<AccountId32, u32> = StateMap::new();
        let prefix = nonce_prefix();
        let found = store.scan_prefix(&prefix);
        let n: usize = found.len();
        let mut i: usize = 0;
        while i < n
            invariant
                i <= n,
                n == found@.len(),
                nonce.wf(),
                hydr_sound(nonce.view_map(), c),
                hydr_covers(nonce.view_map(), found@, i as int),
            decreases n - i,
        {
            let keylen: usize = found[i].0.len();
            if keylen == 45 {
                match crate::codec::read_bytes32(&found[i].0, 13) {
                    Some((who, _)) => {
                        match decode_le(&found[i].1, 0, 4) {
                            Some((v, _)) => {
                                proof {
                                    crate::codec::lemma_decode_le_bound(found@[i as int].1@, 0, 4);
                                    assert(crate::codec::pow256(4) == 0x100000000) by {
                                        reveal_with_fuel(crate::codec::pow256, 5);
                                    }
                                    let k = found@[i as int].0@;
                                    assert(k =~= spec_nonce_key(who@)) by {
                                        assert(prefix@.is_prefix_of(k));
                                        assert(who@ == k.subrange(13, 45));
                                    }
                                    assert(c.contains_key(spec_nonce_key(who@)));
                                    assert(c[spec_nonce_key(who@)] == found@[i as int].1@);
                                    assert(who@.len() == 32);
                                    assert(spec_hydrated_nonces(c).contains_key(who@));
                                    assert(spec_hydrated_nonces(c)[who@] == v as u32);
                                }
                                let ghost pre = nonce.view_map();
                                nonce.set(AccountId32(who), v as u32);
                                assert(found@[i as int].0@.skip(13) =~= who@);
                                proof {
                                    assert(nonce.view_map() == pre.insert(who@, v as u32));
                                    assert(hydr_sound(nonce.view_map(), c)) by {
                                        assert forall|w: Seq<u8>|
                                            #[trigger] nonce.view_map().contains_key(w)
                                            implies spec_hydrated_nonces(c).contains_key(w)
                                            && nonce.view_map()[w] == spec_hydrated_nonces(c)[w] by {
                                            if w == who@ {
                                            } else {
                                                assert(pre.contains_key(w));
                                                assert(nonce.view_map()[w] == pre[w]);
                                            }
                                        }
                                    }
                                    assert(hydr_covers(nonce.view_map(), found@, i + 1)) by {
                                        assert forall|j: int|
                                            0 <= j < i + 1 && (#[trigger] found@[j]).0@.len() == 45
                                            && spec_decode_le(found@[j].1@, 0, 4) is Some
                                            implies nonce.view_map().contains_key(
                                            found@[j].0@.skip(13),
                                        ) by {
                                            if j < i {
                                                assert(pre.contains_key(found@[j].0@.skip(13)));
                                            } else {
                                                assert(found@[j].0@.skip(13) == who@);
                                            }
                                        }
                                    }
                                }
                            },
                            None => {
                                assert(spec_decode_le(found@[i as int].1@, 0, 4) is None);
                                assert(hydr_covers(nonce.view_map(), found@, i + 1));
                            },
                        }
                    },
                    None => {
                        assert(false);
                    },
                }
            } else {
                assert(hydr_covers(nonce.view_map(), found@, i + 1));
            }
            i += 1;
        }
        proof {
            assert(nonce.view_map() =~= spec_hydrated_nonces(c)) by {
                assert forall|w: Seq<u8>| spec_hydrated_nonces(c).contains_key(w)
                    implies nonce.view_map().contains_key(w) by {
                    assert(c.contains_key(spec_nonce_key(w)));
                    assert(prefix@.is_prefix_of(spec_nonce_key(w)));
                    let j = choose|j: int|
                        0 <= j < found@.len() && (#[trigger] found@[j]).0@ == spec_nonce_key(w);
                    assert(found@[j].0@.len() == 45);
                    assert(found@[j].1@ == c[spec_nonce_key(w)]);
                    assert(found@[j].0@.skip(13) =~= w);
                }
            }
        }
        Pallet { block_number, nonce }
    }

    /// Read the block height.
    pub fn block_number(&self) -> (r: u32)
        ensures
            r == self.spec_block_number(),
    {
        self.block_number
    }

    /// Read the nonce of `who`, zero for unknown accounts.
    pub fn nonce(&self, who: &AccountId32) -> (r: u32)
        requires
            self.wf(),
        ensures
            r == self.spec_nonce(who@),
    {
        match self.nonce.get(who) {
            Some(v) => v,
            None => 0,
        }
    }

    /// Advance the block height by one and persist it.
    pub fn inc_block_number<S: KeyValueStore>(&mut self, store: &mut S)
        requires
            old(self).wf(),
            old(store).wf(),
            old(self).spec_block_number() < u32::MAX,
        ensures
            final(self).wf(),
            final(store).wf(),
            final(self).spec_block_number() == old(self).spec_block_number() + 1,
            final(self).nonces() == old(self).nonces(),
            final(store).infallible() == old(store).infallible(),
            wrote_or_kept(
                old(store).contents(),
                final(store).contents(),
                spec_block_number_key(),
                le_bytes(final(self).spec_block_number() as nat, 4),
            ),
            old(store).infallible() ==> final(store).contents() == old(store).contents().insert(
                spec_block_number_key(),
                le_bytes(final(self).spec_block_number() as nat, 4),
            ),
    {
        self.block_number = self.block_number + 1;
        let mut encoded: Vec<u8> = Vec::new();
        encode_le(self.block_number as u128, 4, &mut encoded);
        let _ = store.put(&block_number_key(), &encoded);
    }

    /// Record `who`'s next nonce and persist it.
    pub fn inc_nonce<S: KeyValueStore>(&mut self, store: &mut S, who: &AccountId32)
        requires
            old(self).wf(),
            old(store).wf(),
            old(self).spec_nonce(who@) < u32::MAX,
        ensures
            final(self).wf(),
            final(store).wf(),
            final(self).spec_block_number() == old(self).spec_block_number(),
            final(self).nonces() == old(self).nonces().insert(
                who@,
                (old(self).spec_nonce(who@) + 1) as u32,
            ),
            final(store).infallible() == old(store).infallible(),
            wrote_or_kept(
                old(store).contents(),
                final(store).contents(),
                spec_nonce_key(who@),
                le_bytes((old(self).spec_nonce(who@) + 1) as nat, 4),
            ),
            old(store).infallible() ==> final(store).contents() == old(store).contents().insert(
                spec_nonce_key(who@),
                le_bytes((old(self).spec_nonce(who@) + 1) as nat, 4),
            ),
    {
        let user_nonce = self.nonce(who);
        let new_nonce = user_nonce + 1;
        self.nonce.set(*who, new_nonce);
        let key = nonce_key(who);
        let mut encoded: Vec<u8> = Vec::new();
        encode_le(new_nonce as u128, 4, &mut encoded);
        let _ = store.put(&key, &encoded);
    }
}

/// A persisted nonce reads back: hydrating from a store whose nonce key
/// for `who` holds the encoding of `n` yields exactly `n`.  With an
/// infallible store this closes the write-then-rehydrate round trip for
/// `inc_nonce`.
pub proof fn lemma_persisted_nonce_reads_back(c: Map<Seq<u8>, Seq<u8>>, who: Seq<u8>, n: u32)
    requires
        who.len() == 32,
    ensures
        spec_hydrated_nonces(c.insert(spec_nonce_key(who), le_bytes(n as nat, 4))).contains_key(
            who,
        ),
        spec_hydrated_nonces(c.insert(spec_nonce_key(who), le_bytes(n as nat, 4)))[who] == n,
{
    let enc = le_bytes(n as nat, 4);
    crate::codec::lemma_le_bytes_len(n as nat, 4);
    assert(crate::codec::pow256(4) == 0x100000000) by {
        reveal_with_fuel(crate::codec::pow256, 5);
    }
    assert(enc.subrange(0, 4) =~= enc);
    crate::codec::lemma_decode_le_of_encode(enc, 0, n as nat, 4);
}

} // verus!