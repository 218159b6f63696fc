use rust_state_machine::balances::Pallet;
use rust_state_machine::keyring::AccountKeyring::{Alice, Bob, Charlie};
use rust_state_machine::store::MemStore;

fn new() -> (Pallet, MemStore) {
    let store = MemStore::new();
    (Pallet::new(&store), store)
}

#[test]
fn unknown_account_balance_is_zero() {
    let (p, _store) = new();
    assert_eq!(p.balance(&Alice.public()), 0);
}

#[test]
fn set_and_get_balance() {
    let (mut p, mut store) = new();
    p.set_balance(&mut store, &Alice.public(), 100);
    assert_eq!(p.balance(&Alice.public()), 100);
    assert_eq!(p.balance(&Bob.public()), 0);
}

#[test]
fn transfer_ok() {
    let (mut p, mut store) = new();
    p.set_balance(&mut store, &Alice.public(), 100);
    assert_eq!(p.transfer(&mut store, Alice.public(), Bob.public(), 40), Ok(()));
    assert_eq!(p.balance(&Alice.public()), 60);
    assert_eq!(p.balance(&Bob.public()), 40);
}

#[test]
fn transfer_exact_balance_empties_sender() {
    let (mut p, mut store) = new();
    p.set_balance(&mut store, &Alice.public(), 100);
    assert_eq!(p.transfer(&mut store, Alice.public(), Bob.public(), 100), Ok(()));
    assert_eq!(p.balance(&Alice.public()), 0);
    assert_eq!(p.balance(&Bob.public()), 100);
}

#[test]
fn transfer_insufficient_funds_leaves_balances_unchanged() {
    let (mut p, mut store) = new();
    p.set_balance(&mut store, &Alice.public(), 50);
    assert_eq!(
        p.transfer(&mut store, Alice.public(), Bob.public(), 51),
        Err("Not enough funds.")
    );
    assert_eq!(p.balance(&Alice.public()), 50);
    assert_eq!(p.balance(&Bob.public()), 0);
}

#[test]
fn transfer_from_zero_balance_fails() {
    let (mut p, mut store) = new();
    assert_eq!(
        p.transfer(&mut store, Alice.public(), Bob.public(), 1),
        Err("Not enough funds.")
    );
}

#[test]
fn multiple_transfers_accumulate() {
    let (mut p, mut store) = new();
    p.set_balance(&mut store, &Alice.public(), 100);
    p.transfer(&mut store, Alice.public(), Bob.public(), 30).unwrap();
    p.transfer(&mut store, Alice.public(), Bob.public(), 30).unwrap();
    assert_eq!(p.balance(&Alice.public()), 40);
    assert_eq!(p.balance(&Bob.public()), 60);
}

#[test]
fn transfer_overflow_is_rejected() {
    let (mut p, mut store) = new();
    p.set_balance(&mut store, &Alice.public(), 10);
    p.set_balance(&mut store, &Bob.public(), u128::MAX);
    assert_eq!(p.transfer(&mut store, Alice.public(), Bob.public(), 1), Err("Overflow"));
    assert_eq!(p.balance(&Alice.public()), 10);
    assert_eq!(p.balance(&Bob.public()), u128::MAX);
}

#[test]
fn balances_rehydrate_from_store() {
    let mut store = MemStore::new();
    let mut p = Pallet::new(&store);
    p.set_balance(&mut store, &Alice.public(), 777);
    let p2 = Pallet::new(&store);
    assert_eq!(p2.balance(&Alice.public()), 777);
    assert_eq!(p2.balance(&Bob.public()), 0);
}

#[test]
fn transfer_conserves_total_supply() {
    let (mut p, mut store) = new();
    p.set_balance(&mut store, &Alice.public(), 700);
    p.set_balance(&mut store, &Bob.public(), 200);
    p.set_balance(&mut store, &Charlie.public(), 100);
    let total = |p: &Pallet| {
        p.balance(&Alice.public()) + p.balance(&Bob.public()) + p.balance(&Charlie.public())
    };
    assert_eq!(total(&p), 1000);
    p.transfer(&mut store, Alice.public(), Charlie.public(), 250).unwrap();
    assert_eq!(total(&p), 1000);
    // A failed transfer moves nothing.
    assert!(p.transfer(&mut store, Bob.public(), Alice.public(), 9999).is_err());
    assert_eq!(total(&p), 1000);
    // A self-transfer moves nothing either.
    p.transfer(&mut store, Bob.public(), Bob.public(), 50).unwrap();
    assert_eq!(total(&p), 1000);
}

#[test]
fn self_transfer_is_a_funded_no_op() {
    let (mut p, mut store) = new();
    p.set_balance(&mut store, &Alice.public(), 100);
    // A funded self-transfer succeeds and moves nothing: the supply is
    // conserved.
    assert_eq!(p.transfer(&mut store, Alice.public(), Alice.public(), 40), Ok(()));
    assert_eq!(p.balance(&Alice.public()), 100);
    // An unfunded self-transfer still fails the balance check.
    assert_eq!(
        p.transfer(&mut store, Alice.public(), Alice.public(), 101),
        Err("Not enough funds.")
    );
    assert_eq!(p.balance(&Alice.public()), 100);
    // The recipient-overflow check comes before the self-transfer no-op.
    p.set_balance(&mut store, &Alice.public(), u128::MAX);
    assert_eq!(
        p.transfer(&mut store, Alice.public(), Alice.public(), 1),
        Err("Overflow")
    );
    assert_eq!(p.balance(&Alice.public()), u128::MAX);
}
