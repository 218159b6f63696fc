use rust_state_machine::keyring::AccountKeyring::{Alice, Bob, Charlie};
use rust_state_machine::store::MemStore;
use rust_state_machine::system::Pallet;

fn new() -> (Pallet, MemStore) {
    let store = MemStore::new();
    (Pallet::new(&store), store)
}

#[test]
fn block_number_starts_at_zero() {
    let (s, _store) = new();
    assert_eq!(s.block_number(), 0);
}

#[test]
fn inc_block_number_increments_by_one() {
    let (mut s, mut store) = new();
    s.inc_block_number(&mut store);
    assert_eq!(s.block_number(), 1);
    s.inc_block_number(&mut store);
    assert_eq!(s.block_number(), 2);
}

#[test]
fn nonce_starts_at_zero_for_unknown_account() {
    let (s, _store) = new();
    assert_eq!(s.nonce(&Alice.public()), 0);
}

#[test]
fn inc_nonce_increments_target_account() {
    let (mut s, mut store) = new();
    s.inc_nonce(&mut store, &Alice.public());
    assert_eq!(s.nonce(&Alice.public()), 1);
}

#[test]
fn inc_nonce_does_not_affect_other_accounts() {
    let (mut s, mut store) = new();
    s.inc_nonce(&mut store, &Alice.public());
    assert_eq!(s.nonce(&Bob.public()), 0);
}

#[test]
fn inc_nonce_multiple_times() {
    let (mut s, mut store) = new();
    s.inc_nonce(&mut store, &Alice.public());
    s.inc_nonce(&mut store, &Alice.public());
    s.inc_nonce(&mut store, &Alice.public());
    assert_eq!(s.nonce(&Alice.public()), 3);
}

#[test]
fn multiple_accounts_track_nonces_independently() {
    let (mut s, mut store) = new();
    s.inc_nonce(&mut store, &Alice.public());
    s.inc_nonce(&mut store, &Alice.public());
    s.inc_nonce(&mut store, &Bob.public());
    assert_eq!(s.nonce(&Alice.public()), 2);
    assert_eq!(s.nonce(&Bob.public()), 1);
    assert_eq!(s.nonce(&Charlie.public()), 0);
}

#[test]
fn system_rehydrates_from_store() {
    let mut store = MemStore::new();
    let mut s = Pallet::new(&store);
    s.inc_block_number(&mut store);
    s.inc_nonce(&mut store, &Alice.public());
    s.inc_nonce(&mut store, &Alice.public());
    let s2 = Pallet::new(&store);
    assert_eq!(s2.block_number(), 1);
    assert_eq!(s2.nonce(&Alice.public()), 2);
    assert_eq!(s2.nonce(&Bob.public()), 0);
}
