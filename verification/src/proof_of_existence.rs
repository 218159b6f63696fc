//! The proof-of-existence module: a map from claimed content to its owner,
//! mutated by the dispatchable `create_claim` and `revoke_claim`, hydrated
//! from the store at construction and written through on every mutation.

use vstd::prelude::*;

use crate::account::AccountId32;
use crate::codec::{
    decode_string, encode_string, push_bytes, spec_decode_compact_u32, spec_decode_string,
    spec_encode_string, string_len_ok,
};
use crate::state_map::StateMap;
use crate::store::{bytes_eq, erased_or_kept, wrote_or_kept, KeyValueStore};
use crate::support::DispatchResult;

verus! {

/// The dispatchable calls this module exposes.
#[allow(non_camel_case_types)]
#[derive(Debug)]
pub enum Call {
    create_claim { claim: String },
    revoke_claim { claim: String },
}

/// The key prefix of claim entries: the bytes of `poe:`.
pub open spec fn spec_claim_prefix() -> Seq<u8> {
    seq![112u8, 111u8, 101u8, 58u8]
}

/// The store key of one claim: the prefix, then the claim's wire form.
pub open spec fn spec_claim_key(content: Seq<char>) -> Seq<u8> {
    spec_claim_prefix() + spec_encode_string(content)
}

fn claim_prefix() -> (r: Vec<u8>)
    ensures
        r@ == spec_claim_prefix(),
{
    let mut v: Vec<u8> = Vec::new();
    v.push(112);
    v.push(111);
    v.push(101);
    v.push(58);
    proof {
        assert(v@ =~= spec_claim_prefix());
    }
    v
}

fn claim_key(content: &String) -> (r: Vec<u8>)
    requires
        string_len_ok(content@),
    ensures
        r@ == spec_claim_key(content@),
{
    let mut v = claim_prefix();
    encode_string(content, &mut v);
    v
}

/// The claim map a store holds: every content whose canonical claim key is
/// present with an owner value of at least 32 bytes; the owner is the
/// value's first 32 bytes.
pub open spec fn spec_hydrated_claims(c: Map<Seq<u8>, Seq<u8>>) -> Map<Seq<char>, Seq<u8>> {
    Map::new(
        |s: Seq<char>|
            string_len_ok(s) && c.contains_key(spec_claim_key(s)) && c[spec_claim_key(s)].len()
                >= 32,
        |s: Seq<char>| c[spec_claim_key(s)].subrange(0, 32),
    )
}

/// The content a scan entry's key decodes to.
spec fn entry_content(e: (Vec<u8>, Vec<u8>)) -> Seq<char> {
    (spec_decode_string(e.0@, 4)->Some_0).0
}

/// Whether a scan entry hydrates a claim: its key past the prefix is the
/// canonical wire form of its decoded content, fully consumed, and its value
/// holds an owner.
spec fn entry_usable(e: (Vec<u8>, Vec<u8>)) -> bool {
    &&& spec_decode_string(e.0@, 4) is Some
    &&& (spec_decode_string(e.0@, 4)->Some_0).1 == e.0@.len()
    &&& e.0@ == spec_claim_key(entry_content(e))
    &&& e.1@.len() >= 32
}

/// Every content the partial hydrated map holds agrees with the store.
spec fn hydr_sound(m: Map<Seq<char>, AccountId32>, c: Map<Seq<u8>, Seq<u8>>) -> bool {
    forall|s: Seq<char>| #[trigger] m.contains_key(s) ==> spec_hydrated_claims(c).contains_key(s)
        && m[s]@ == spec_hydrated_claims(c)[s]
}

/// Every processed usable scan entry is in the partial hydrated map.
spec fn hydr_covers(m: Map<Seq<char>, AccountId32>, found: Seq<(Vec<u8>, Vec<u8>)>, upto: int) -> bool {
    forall|j: int|
        0 <= j < upto && entry_usable(#[trigger] found[j]) ==> m.contains_key(
            entry_content(found[j]),
        )
}

/// The proof-of-existence module's state.
#[derive(Debug)]
pub struct Pallet {
    claims: StateMap<String, AccountId32>,
}

impl Pallet {
    pub closed spec fn wf(&self) -> bool {
        self.claims.wf()
    }

    /// The claim map: each claimed content to its owner's bytes.
    pub closed spec fn claims(&self) -> Map<Seq<char>, Seq<u8>> {
        Map::new(
            |s: Seq<char>| self.claims.view_map().contains_key(s),
            |s: Seq<char>| self.claims.view_map()[s]@,
        )
    }

    /// Hydrate the module from the store.
    #[verifier::loop_isolation(false)]
    pub fn new<S: KeyValueStore>(store: &S) -> (r: Self)
        requires
            store.wf(),
        ensures
            r.wf(),
            r.claims() == spec_hydrated_claims(store.contents()),
    {
        let ghost c = store.contents();
        let mut claims: StateMap<String, AccountId32> = StateMap::new();
        let prefix = claim_prefix();
        let found = store.scan_prefix(&prefix);
        let n: usize = found.len();
        let mut i: usize = 0;
        while i < n
            invariant
                i <= n,
                n == found@.len(),
                claims.wf(),
                hydr_sound(claims.view_map(), c),
                hydr_covers(claims.view_map(), found@, i as int),
            decreases n - i,
        {
            let ghost entry = found@[i as int];
            match decode_string(&found[i].0, 4) {
                Some((s, end)) => {
                    proof {
                        assert(spec_decode_string(entry.0@, 4) == Some((s@, end as int)));
                        let dc = spec_decode_compact_u32(entry.0@, 4);
                        assert(dc is Some);
                        let nn = (dc->Some_0).0;
                        let p1 = (dc->Some_0).1;
                        crate::codec::lemma_decode_compact_bound(entry.0@, 4);
                        let bytes = entry.0@.subrange(p1, p1 + nn as int);
                        assert(0 <= p1);
                        assert(p1 + nn as int <= entry.0@.len());
                        assert(bytes.len() == nn as int);
                        assert(vstd::utf8::valid_utf8(bytes));
                        assert(s@ == vstd::utf8::decode_utf8(bytes));
                        vstd::utf8::decode_utf8_encode_utf8(bytes);
                        assert(vstd::utf8::encode_utf8(s@) == bytes);
                        assert(string_len_ok(s@));
                    }
                    if end == found[i].0.len() && found[i].1.len() >= 32 {
                        let mut canon = claim_prefix();
                        encode_string(&s, &mut canon);
                        if bytes_eq(&canon, &found[i].0) {
                            proof {
                                assert(entry.0@ == spec_claim_key(s@));
                                assert(entry_content(entry) == s@);
                                assert(entry_usable(entry));
                            }
                            match crate::codec::read_bytes32(&found[i].1, 0) {
                                Some((owner, _)) => {
                                    proof {
                                        assert(c.contains_key(spec_claim_key(s@)));
                                        assert(c[spec_claim_key(s@)] == entry.1@);
                                        assert(spec_hydrated_claims(c).contains_key(s@));
                                        assert(spec_hydrated_claims(c)[s@] == owner@);
                                    }
                                    let ghost pre = claims.view_map();
                                    claims.set(s, AccountId32(owner));
                                    proof {
                                        let ghost sv = entry_content(entry);
                                        assert(claims.view_map() == pre.insert(
                                            sv,
                                            AccountId32(owner),
                                        ));
                                        assert(hydr_sound(claims.view_map(), c)) by {
                                            assert forall|w: Seq<char>|
                                                #[trigger] claims.view_map().contains_key(w)
                                                implies spec_hydrated_claims(c).contains_key(w)
                                                && claims.view_map()[w]@ == spec_hydrated_claims(
                                                c,
                                            )[w] by {
                                                if w != sv {
                                                    assert(pre.contains_key(w));
                                                    assert(claims.view_map()[w] == pre[w]);
                                                }
                                            }
                                        }
                                        assert(hydr_covers(claims.view_map(), found@, i + 1)) by {
                                            assert forall|j: int|
                                                0 <= j < i + 1 && entry_usable(
                                                    #[trigger] found@[j],
                                                ) implies claims.view_map().contains_key(
                                                entry_content(found@[j]),
                                            ) by {
                                                if j < i {
                                                    assert(pre.contains_key(
                                                        entry_content(found@[j]),
                                                    ));
                                                }
                                            }
                                        }
                                    }
                                },
                                None => {
                                    assert(false);
                                },
                            }
                        } else {
                            proof {
                                assert(canon@ == spec_claim_key(s@));
                                assert(!entry_usable(entry)) by {
                                    if entry_usable(entry) {
                                        assert(entry_content(entry) == s@);
                                        assert(entry.0@ == canon@);
                                    }
                                }
                                assert(hydr_covers(claims.view_map(), found@, i + 1));
                            }
                        }
                    } else {
                        proof {
                            assert(!entry_usable(entry)) by {
                                if entry_usable(entry) {
                                    assert((spec_decode_string(entry.0@, 4)->Some_0).1
                                        == entry.0@.len());
                                }
                            }
                            assert(hydr_covers(claims.view_map(), found@, i + 1));
                        }
                    }
                },
                None => {
                    proof {
                        assert(!entry_usable(entry));
                        assert(hydr_covers(claims.view_map(), found@, i + 1));
                    }
                },
            }
            i += 1;
        }
        let r = Pallet { claims };
        proof {
            assert forall|s: Seq<char>| #[trigger] spec_hydrated_claims(c).contains_key(s)
                implies r.claims.view_map().contains_key(s) by {
                    let key = spec_claim_key(s);
                    let enc = spec_encode_string(s);
                    assert(c.contains_key(key));
                    assert(prefix@.is_prefix_of(key)) by {
                        assert(key.subrange(0, 4) =~= spec_claim_prefix());
                    }
                    let j = choose|j: int|
                        0 <= j < found@.len() && (#[trigger] found@[j]).0@ == key;
                    assert(found@[j].0@.subrange(0, 4 + enc.len() as int) =~= key);
                    crate::codec::lemma_split_concat(found@[j].0@, 0, spec_claim_prefix(), enc);
                    crate::codec::lemma_decode_string_of_encode(found@[j].0@, 4, s);
                    assert(entry_usable(found@[j]));
                    assert(entry_content(found@[j]) == s);
                }
            assert(r.claims().dom() =~= spec_hydrated_claims(c).dom()) by {
                assert forall|s: Seq<char>| #[trigger] r.claims().dom().contains(s)
                    implies spec_hydrated_claims(c).dom().contains(s) by {
                    assert(r.claims.view_map().contains_key(s));
                }
                assert forall|s: Seq<char>| #[trigger] spec_hydrated_claims(c).dom().contains(s)
                    implies r.claims().dom().contains(s) by {
                    assert(r.claims.view_map().contains_key(s));
                }
            }
            assert forall|s: Seq<char>| #[trigger] r.claims().dom().contains(s)
                implies r.claims()[s] == spec_hydrated_claims(c)[s] by {
                assert(r.claims.view_map().contains_key(s));
                assert(r.claims()[s] == r.claims.view_map()[s]@);
            }
            assert(r.claims() =~= spec_hydrated_claims(c));
        }
        r
    }

    /// Look a claim's owner up.
    pub fn get_claim(&self, claim: &String) -> (r: Option<AccountId32>)
        requires
            self.wf(),
        ensures
            match r {
                Some(o) => self.claims().contains_key(claim@) && self.claims()[claim@] == o@,
                None => !self.claims().contains_key(claim@),
            },
    {
        self.claims.get(claim)
    }

    /// Record `claim` as owned by `caller`.  Fails when the content is
    /// already claimed; a failed call changes nothing.
    pub fn create_claim<S: KeyValueStore>(
        &mut self,
        store: &mut S,
        caller: AccountId32,
        claim: String,
    ) -> (r: DispatchResult)
        requires
            old(self).wf(),
            old(store).wf(),
            string_len_ok(claim@),
        ensures
            final(self).wf(),
            final(store).wf(),
            old(self).claims().contains_key(claim@) ==> r == Err::<(), &'static str>(
                "this content is already claimed",
            ) && final(self).claims() == old(self).claims() && final(store).contents()
                == old(store).contents(),
            !old(self).claims().contains_key(claim@) ==> r == Ok::<(), &'static str>(())
                && final(self).claims() == old(self).claims().insert(claim@, caller@)
                && wrote_or_kept(
                old(store).contents(),
                final(store).contents(),
                spec_claim_key(claim@),
                caller@,
            ),
            final(store).infallible() == old(store).infallible(),
            old(store).infallible() && !old(self).claims().contains_key(claim@)
                ==> final(store).contents() == old(store).contents().insert(
                spec_claim_key(claim@),
                caller@,
            ),
    {
        match self.claims.get(&claim) {
            Some(_) => Err("this content is already claimed"),
            None => {
                let key = claim_key(&claim);
                let ghost cv = claim@;
                let ghost pre = self.claims.view_map();
                self.claims.set(claim, caller);
                let mut encoded: Vec<u8> = Vec::new();
                push_bytes(&mut encoded, caller.as_bytes().as_slice());
                let _ = store.put(&key, &encoded);
                proof {
                    assert(self.claims.view_map() == pre.insert(cv, caller));
                    assert(self.claims() =~= old(self).claims().insert(cv, caller@));
                }
                Ok(())
            },
        }
    }

    /// Remove `claim`.  Fails when the content is unclaimed or owned by
    /// someone else; a failed call changes nothing.
    pub fn revoke_claim<S: KeyValueStore>(
        &mut self,
        store: &mut S,
        caller: AccountId32,
        claim: String,
    ) -> (r: DispatchResult)
        requires
            old(self).wf(),
            old(store).wf(),
            string_len_ok(claim@),
        ensures
            final(self).wf(),
            final(store).wf(),
            !old(self).claims().contains_key(claim@) ==> r == Err::<(), &'static str>(
                "claim does not exist",
            ),
            old(self).claims().contains_key(claim@) && old(self).claims()[claim@] != caller@ ==> r
                == Err::<(), &'static str>("caller is not owner"),
            r is Err ==> final(self).claims() == old(self).claims() && final(store).contents()
                == old(store).contents(),
            old(self).claims().contains_key(claim@) && old(self).claims()[claim@] == caller@ ==> r
                == Ok::<(), &'static str>(()) && final(self).claims() == old(self).claims().remove(
                claim@,
            ) && erased_or_kept(
                old(store).contents(),
                final(store).contents(),
                spec_claim_key(claim@),
            ),
            final(store).infallible() == old(store).infallible(),
            old(store).infallible() && old(self).claims().contains_key(claim@)
                && old(self).claims()[claim@] == caller@ ==> final(store).contents()
                == old(store).contents().remove(spec_claim_key(claim@)),
    {
        match self.claims.get(&claim) {
            None => Err("claim does not exist"),
            Some(owner) => {
                if !(owner == caller) {
                    return Err("caller is not owner");
                }
                let key = claim_key(&claim);
                let ghost cv = claim@;
                let ghost pre = self.claims.view_map();
                self.claims.remove(&claim);
                let _ = store.delete(&key);
                proof {
                    assert(self.claims.view_map() == pre.remove(cv));
                    assert(self.claims() =~= old(self).claims().remove(cv));
                }
                Ok(())
            },
        }
    }
}

/// A persisted claim reads back: hydrating from a store whose claim key for
/// `content` holds a 32-byte owner yields that owner.  With an infallible
/// store this closes the write-then-rehydrate round trip for
/// `create_claim`.
pub proof fn lemma_persisted_claim_reads_back(
    c: Map<Seq<u8>, Seq<u8>>,
    content: Seq<char>,
    owner: Seq<u8>,
)
    requires
        string_len_ok(content),
        owner.len() == 32,
    ensures
        spec_hydrated_claims(c.insert(spec_claim_key(content), owner)).contains_key(content),
        spec_hydrated_claims(c.insert(spec_claim_key(content), owner))[content] == owner,
{
    assert(owner.subrange(0, 32) =~= owner);
}

} // verus!
