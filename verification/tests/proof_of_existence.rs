use rust_state_machine::keyring::AccountKeyring::{Alice, Bob};
use rust_state_machine::proof_of_existence::Pallet;
use rust_state_machine::store::MemStore;

fn new() -> (Pallet, MemStore) {
    let store = MemStore::new();
    (Pallet::new(&store), store)
}

#[test]
fn get_claim_returns_none_for_missing_content() {
    let (poe, _store) = new();
    assert_eq!(poe.get_claim(&"ghost".to_string()), None);
}

#[test]
fn create_claim_stores_owner() {
    let (mut poe, mut store) = new();
    assert_eq!(poe.create_claim(&mut store, Alice.public(), "doc".to_string()), Ok(()));
    assert_eq!(poe.get_claim(&"doc".to_string()), Some(Alice.public()));
}

#[test]
fn create_duplicate_claim_fails() {
    let (mut poe, mut store) = new();
    poe.create_claim(&mut store, Alice.public(), "doc".to_string()).unwrap();
    assert_eq!(
        poe.create_claim(&mut store, Bob.public(), "doc".to_string()),
        Err("this content is already claimed")
    );
    // original owner unchanged
    assert_eq!(poe.get_claim(&"doc".to_string()), Some(Alice.public()));
}

#[test]
fn revoke_claim_removes_it() {
    let (mut poe, mut store) = new();
    poe.create_claim(&mut store, Alice.public(), "doc".to_string()).unwrap();
    assert_eq!(poe.revoke_claim(&mut store, Alice.public(), "doc".to_string()), Ok(()));
    assert_eq!(poe.get_claim(&"doc".to_string()), None);
}

#[test]
fn revoke_nonexistent_claim_fails() {
    let (mut poe, mut store) = new();
    assert_eq!(
        poe.revoke_claim(&mut store, Alice.public(), "ghost".to_string()),
        Err("claim does not exist")
    );
}

#[test]
fn revoke_claim_wrong_owner_fails() {
    let (mut poe, mut store) = new();
    poe.create_claim(&mut store, Alice.public(), "doc".to_string()).unwrap();
    assert_eq!(
        poe.revoke_claim(&mut store, Bob.public(), "doc".to_string()),
        Err("caller is not owner")
    );
    // claim still belongs to alice
    assert_eq!(poe.get_claim(&"doc".to_string()), Some(Alice.public()));
}

#[test]
fn reclaim_after_revoke_succeeds() {
    let (mut poe, mut store) = new();
    poe.create_claim(&mut store, Alice.public(), "doc".to_string()).unwrap();
    poe.revoke_claim(&mut store, Alice.public(), "doc".to_string()).unwrap();
    assert_eq!(poe.create_claim(&mut store, Bob.public(), "doc".to_string()), Ok(()));
    assert_eq!(poe.get_claim(&"doc".to_string()), Some(Bob.public()));
}

#[test]
fn multiple_claims_are_independent() {
    let (mut poe, mut store) = new();
    poe.create_claim(&mut store, Alice.public(), "doc1".to_string()).unwrap();
    poe.create_claim(&mut store, Bob.public(), "doc2".to_string()).unwrap();
    assert_eq!(poe.get_claim(&"doc1".to_string()), Some(Alice.public()));
    assert_eq!(poe.get_claim(&"doc2".to_string()), Some(Bob.public()));
}

#[test]
fn revoking_one_claim_does_not_affect_others() {
    let (mut poe, mut store) = new();
    poe.create_claim(&mut store, Alice.public(), "doc1".to_string()).unwrap();
    poe.create_claim(&mut store, Alice.public(), "doc2".to_string()).unwrap();
    poe.revoke_claim(&mut store, Alice.public(), "doc1".to_string()).unwrap();
    assert_eq!(poe.get_claim(&"doc1".to_string()), None);
    assert_eq!(poe.get_claim(&"doc2".to_string()), Some(Alice.public()));
}

#[test]
fn claims_rehydrate_from_store() {
    let mut store = MemStore::new();
    let mut poe = Pallet::new(&store);
    poe.create_claim(&mut store, Alice.public(), "doc".to_string()).unwrap();
    let poe2 = Pallet::new(&store);
    assert_eq!(poe2.get_claim(&"doc".to_string()), Some(Alice.public()));
}
