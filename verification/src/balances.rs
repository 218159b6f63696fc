//! The balances module: one unsigned 128-bit balance per account, mutated by
//! `set_balance` (genesis) and the dispatchable `transfer`.

use vstd::prelude::*;

use crate::account::AccountId32;
use crate::codec::{decode_le, encode_le, le_bytes, push_bytes, spec_decode_le};
use crate::state_map::StateMap;
use crate::store::{two_writes_or_kept, wrote_or_kept, KeyValueStore};
use crate::support::DispatchResult;

verus! {

/// The dispatchable calls this module exposes.
#[allow(non_camel_case_types)]
#[derive(Clone, Copy, Debug)]
pub enum Call {
    transfer { to: AccountId32, amount: u128 },
}

/// The key prefix of balance entries: the bytes of `balances:`.
pub open spec fn spec_balance_prefix() -> Seq<u8> {
    seq![98u8, 97u8, 108u8, 97u8, 110u8, 99u8, 101u8, 115u8, 58u8]
}

/// The store key of one account's balance.
pub open spec fn spec_balance_key(who: Seq<u8>) -> Seq<u8> {
    spec_balance_prefix() + who
}

fn balance_prefix() -> (r: Vec<u8>)
    ensures
        r@ == spec_balance_prefix(),
{
    let mut v: Vec<u8> = Vec::new();
    v.push(98);
    v.push(97);
    v.push(108);
    v.push(97);
    v.push(110);
    v.push(99);
    v.push(101);
    v.push(115);
    v.push(58);
    proof {
        assert(v@ =~= spec_balance_prefix());
    }
    v
}

fn balance_key(who: &AccountId32) -> (r: Vec<u8>)
    ensures
        r@ == spec_balance_key(who@),
{
    let mut v = balance_prefix();
    push_bytes(&mut v, who.as_bytes().as_slice());
    v
}

/// The balance map a store holds: every 32-byte account whose balance key is
/// present with a decodable value.
pub open spec fn spec_hydrated_balances(c: Map<Seq<u8>, Seq<u8>>) -> Map<Seq<u8>, u128> {
    Map::new(
        |who: Seq<u8>|
            who.len() == 32 && c.contains_key(spec_balance_key(who)) && spec_decode_le(
                c[spec_balance_key(who)],
                0,
                16,
            ) is Some,
        |who: Seq<u8>| ((spec_decode_le(c[spec_balance_key(who)], 0, 16)->Some_0).0) as u128,
    )
}

/// Every account the partial hydrated map holds agrees with the store.
spec fn hydr_sound(m: Map<Seq<u8>, u128>, c: Map<Seq<u8>, Seq<u8>>) -> bool {
    forall|w: Seq<u8>| #[trigger] m.contains_key(w) ==> spec_hydrated_balances(c).contains_key(w)
        && m[w] == spec_hydrated_balances(c)[w]
}

/// Every processed scan entry with a well-formed key and value is in the
/// partial hydrated map.
spec fn hydr_covers(m: Map<Seq<u8>, u128>, found: Seq<(Vec<u8>, Vec<u8>)>, upto: int) -> bool {
    forall|j: int|
        0 <= j < upto && (#[trigger] found[j]).0@.len() == 41 && spec_decode_le(
            found[j].1@,
            0,
            16,
        ) is Some ==> m.contains_key(found[j].0@.skip(9))
}

/// The balances module's state.
#[derive(Debug)]
pub struct Pallet {
    balances: StateMap<AccountId32, u128>,
}

impl Pallet {
    pub closed spec fn wf(&self) -> bool {
        self.balances.wf()
    }

    /// The balance map: only accounts with a recorded balance appear.
    pub closed spec fn balances(&self) -> Map<Seq<u8>, u128> {
        self.balances.view_map()
    }

    /// The balance of `who`: the recorded value, or zero.
    pub open spec fn spec_balance(&self, who: Seq<u8>) -> u128 {
        if self.balances().contains_key(who) {
            self.balances()[who]
        } else {
            0
        }
    }

    /// Hydrate the module from the store.
    #[verifier::loop_isolation(false)]
    pub fn new<S: KeyValueStore>(store: &S) -> (r: Self)
        requires
            store.wf(),
        ensures
            r.wf(),
            r.balances() == spec_hydrated_balances(store.contents()),
    {
        let ghost c = store.contents();
        let mut balances: StateMap<AccountId32, u128> = StateMap::new();
        let prefix = balance_prefix();
        let found = store.scan_prefix(&prefix);
        let n: usize = found.len();
        let mut i: usize = 0;
        while i < n
            invariant
                i <= n,
                n == found@.len(),
                balances.wf(),
                hydr_sound(balances.view_map(), c),
                hydr_covers(balances.view_map(), found@, i as int),
            decreases n - i,
        {
            let keylen: usize = found[i].0.len();
            if keylen == 41 {
                match crate::codec::read_bytes32(&found[i].0, 9) {
                    Some((who, _)) => {
                        match decode_le(&found[i].1, 0, 16) {
                            Some((v, _)) => {
                                proof {
                                    let k = found@[i as int].0@;
                                    assert(k =~= spec_balance_key(who@)) by {
                                        assert(prefix@.is_prefix_of(k));
                                        assert(who@ == k.subrange(9, 41));
                                    }
                                    assert(c.contains_key(spec_balance_key(who@)));
                                    assert(c[spec_balance_key(who@)] == found@[i as int].1@);
                                    assert(who@.len() == 32);
                                    assert(spec_hydrated_balances(c).contains_key(who@));
                                    assert(spec_hydrated_balances(c)[who@] == v as u128);
                                }
                                let ghost pre = balances.view_map();
                                balances.set(AccountId32(who), v);
                                assert(found@[i as int].0@.skip(9) =~= who@);
                                proof {
                                    assert(balances.view_map() == pre.insert(who@, v));
                                    assert(hydr_sound(balances.view_map(), c)) by {
                                        assert forall|w: Seq<u8>|
                                            #[trigger] balances.view_map().contains_key(w)
                                            implies spec_hydrated_balances(c).contains_key(w)
                                            && balances.view_map()[w] == spec_hydrated_balances(c)[w] by {
                                            if w == who@ {
                                            } else {
                                                assert(pre.contains_key(w));
                                                assert(balances.view_map()[w] == pre[w]);
                                            }
                                        }
                                    }
                                    assert(hydr_covers(balances.view_map(), found@, i + 1)) by {
                                        assert forall|j: int|
                                            0 <= j < i + 1 && (#[trigger] found@[j]).0@.len() == 41
                                            && spec_decode_le(found@[j].1@, 0, 16) is Some
                                            implies balances.view_map().contains_key(
                                            found@[j].0@.skip(9),
                                        ) by {
                                            if j < i {
                                                assert(pre.contains_key(found@[j].0@.skip(9)));
                                            } else {
                                                assert(found@[j].0@.skip(9) == who@);
                                            }
                                        }
                                    }
                                }
                            },
                            None => {
                                assert(spec_decode_le(found@[i as int].1@, 0, 16) is None);
                                assert(hydr_covers(balances.view_map(), found@, i + 1));
                            },
                        }
                    },
                    None => {
                        assert(false);
                    },
                }
            } else {
                assert(hydr_covers(balances.view_map(), found@, i + 1));
            }
            i += 1;
        }
        proof {
            assert(balances.view_map() =~= spec_hydrated_balances(c)) by {
                assert forall|w: Seq<u8>| spec_hydrated_balances(c).contains_key(w)
                    implies balances.view_map().contains_key(w) by {
                    assert(c.contains_key(spec_balance_key(w)));
                    assert(prefix@.is_prefix_of(spec_balance_key(w)));
                    let j = choose|j: int|
                        0 <= j < found@.len() && (#[trigger] found@[j]).0@ == spec_balance_key(w);
                    assert(found@[j].0@.len() == 41);
                    assert(found@[j].1@ == c[spec_balance_key(w)]);
                    assert(found@[j].0@.skip(9) =~= w);
                }
            }
        }
        Pallet { balances }
    }

    /// Read the balance of `who`, zero for unknown accounts.
    pub fn balance(&self, who: &AccountId32) -> (r: u128)
        requires
            self.wf(),
        ensures
            r == self.spec_balance(who@),
    {
        match self.balances.get(who) {
            Some(v) => v,
            None => 0,
        }
    }

    /// Write `who`'s balance unconditionally and persist it.  Used by
    /// genesis funding, never by dispatch.
    pub fn set_balance<S: KeyValueStore>(
        &mut self,
        store: &mut S,
        who: &AccountId32,
        amount: u128,
    )
        requires
            old(self).wf(),
            old(store).wf(),
        ensures
            final(self).wf(),
            final(store).wf(),
            final(self).balances() == old(self).balances().insert(who@, amount),
            final(store).infallible() == old(store).infallible(),
            wrote_or_kept(
                old(store).contents(),
                final(store).contents(),
                spec_balance_key(who@),
                le_bytes(amount as nat, 16),
            ),
            old(store).infallible() ==> final(store).contents() == old(store).contents().insert(
                spec_balance_key(who@),
                le_bytes(amount as nat, 16),
            ),
    {
        self.balances.set(*who, amount);
        let key = balance_key(who);
        let mut encoded: Vec<u8> = Vec::new();
        encode_le(amount, 16, &mut encoded);
        let _ = store.put(&key, &encoded);
    }

    /// Move `amount` from `caller` to `to`.  Fails with *Not enough funds.*
    /// when the caller's balance is short, then with *Overflow* when the
    /// recipient's balance would not fit.  A failed transfer changes
    /// nothing, and a transfer to oneself that passes both checks is a
    /// no-op: crediting what was just debited must leave the balance as it
    /// was, or the sum of all balances would grow.
    pub fn transfer<S: KeyValueStore>(
        &mut self,
        store: &mut S,
        caller: AccountId32,
        to: AccountId32,
        amount: u128,
    ) -> (r: DispatchResult)
        requires
            old(self).wf(),
            old(store).wf(),
        ensures
            final(self).wf(),
            final(store).wf(),
            old(self).spec_balance(caller@) < amount ==> r == Err::<(), &'static str>(
                "Not enough funds.",
            ),
            old(self).spec_balance(caller@) >= amount && old(self).spec_balance(to@) + amount
                > u128::MAX ==> r == Err::<(), &'static str>("Overflow"),
            old(self).spec_balance(caller@) >= amount && old(self).spec_balance(to@) + amount
                <= u128::MAX && caller@ == to@ ==> r == Ok::<(), &'static str>(())
                && final(self).balances() == old(self).balances() && final(store).contents()
                == old(store).contents(),
            old(self).spec_balance(caller@) >= amount && caller@ != to@ && old(self).spec_balance(
                to@,
            ) + amount <= u128::MAX ==> r == Ok::<(), &'static str>(()) && final(self).balances()
                == old(self).balances().insert(
                caller@,
                (old(self).spec_balance(caller@) - amount) as u128,
            ).insert(to@, (old(self).spec_balance(to@) + amount) as u128) && two_writes_or_kept(
                old(store).contents(),
                final(store).contents(),
                spec_balance_key(caller@),
                le_bytes((old(self).spec_balance(caller@) - amount) as nat, 16),
                spec_balance_key(to@),
                le_bytes((old(self).spec_balance(to@) + amount) as nat, 16),
            ),
            r is Err ==> final(self).balances() == old(self).balances() && final(store).contents()
                == old(store).contents(),
            final(store).infallible() == old(store).infallible(),
            old(store).infallible() && old(self).spec_balance(caller@) >= amount && caller@ != to@
                && old(self).spec_balance(to@) + amount <= u128::MAX ==> final(store).contents()
                == old(store).contents().insert(
                spec_balance_key(caller@),
                le_bytes((old(self).spec_balance(caller@) - amount) as nat, 16),
            ).insert(
                spec_balance_key(to@),
                le_bytes((old(self).spec_balance(to@) + amount) as nat, 16),
            ),
    {
        let caller_balance = self.balance(&caller);
        let to_balance = self.balance(&to);
        if caller_balance < amount {
            return Err("Not enough funds.");
        }
        let new_caller_balance = caller_balance - amount;
        if to_balance > u128::MAX - amount {
            return Err("Overflow");
        }
        let new_to_balance = to_balance + amount;
        if caller == to {
            return Ok(());
        }
        self.set_balance(store, &caller, new_caller_balance);
        let ghost mid = store.contents();
        self.set_balance(store, &to, new_to_balance);
        proof {
            assert(wrote_or_kept(
                old(store).contents(),
                mid,
                spec_balance_key(caller@),
                le_bytes(new_caller_balance as nat, 16),
            ));
            assert(wrote_or_kept(
                mid,
                store.contents(),
                spec_balance_key(to@),
                le_bytes(new_to_balance as nat, 16),
            ));
        }
        Ok(())
    }
}

/// A persisted balance reads back: hydrating from a store whose balance
/// key for `who` holds the encoding of `amount` yields exactly `amount`.
/// With an infallible store this closes the write-then-rehydrate round
/// trip for `set_balance`.
pub proof fn lemma_persisted_balance_reads_back(
    c: Map<Seq<u8>, Seq<u8>>,
    who: Seq<u8>,
    amount: u128,
)
    requires
        who.len() == 32,
    ensures
        spec_hydrated_balances(
            c.insert(spec_balance_key(who), le_bytes(amount as nat, 16)),
        ).contains_key(who),
        spec_hydrated_balances(c.insert(spec_balance_key(who), le_bytes(amount as nat, 16)))[who]
            == amount,
{
    let enc = le_bytes(amount as nat, 16);
    crate::codec::lemma_le_bytes_len(amount as nat, 16);
    assert(crate::codec::pow256(16) == 0x100000000000000000000000000000000) by {
        reveal_with_fuel(crate::codec::pow256, 17);
    }
    assert(enc.subrange(0, 16) =~= enc);
    crate::codec::lemma_decode_le_of_encode(enc, 0, amount as nat, 16);
}

} // verus!
