use rust_state_machine::balances;
use rust_state_machine::extrinsic::UncheckedExtrinsic;
use rust_state_machine::keyring::{from_name, AccountKeyring};
use rust_state_machine::keyring::AccountKeyring::{Alice, Bob};
use rust_state_machine::mempool::Mempool;
use rust_state_machine::runtime::{Runtime, RuntimeCall};
use rust_state_machine::schedule::{author_index, current_slot, secs_until_next_slot};
use rust_state_machine::store::MemStore;

fn signed_transfer(
    from: AccountKeyring,
    nonce: u32,
    to: AccountKeyring,
    amount: u128,
) -> UncheckedExtrinsic {
    let call = RuntimeCall::balances(balances::Call::transfer { to: to.public(), amount });
    UncheckedExtrinsic::new_signed(&from.seed(), nonce, call)
}

#[test]
fn nonce_gap_is_sealed_out_of_the_block() {
    // Mempool holds Alice's nonces 0 and 2 while the runtime expects 0:
    // only nonce 0 is admitted; the gap drops nonce 2 from this block.
    let rt = Runtime::new(MemStore::new());
    let mut pool: Mempool<UncheckedExtrinsic> = Mempool::new();
    pool.submit(signed_transfer(Alice, 0, Bob, 10)).unwrap();
    pool.submit(signed_transfer(Alice, 2, Bob, 10)).unwrap();

    let candidates = pool.drain_for_block(10);
    let block = rt.build_block(candidates);

    assert_eq!(block.header.block_number, 1);
    assert_eq!(block.extrinsics.len(), 1);
    assert_eq!(block.extrinsics[0].nonce, 0);
}

#[test]
fn consecutive_nonces_are_all_admitted() {
    let rt = Runtime::new(MemStore::new());
    let mut pool: Mempool<UncheckedExtrinsic> = Mempool::new();
    pool.submit(signed_transfer(Alice, 1, Bob, 10)).unwrap();
    pool.submit(signed_transfer(Alice, 0, Bob, 10)).unwrap();
    pool.submit(signed_transfer(Bob, 0, Alice, 5)).unwrap();

    let block = rt.build_block(pool.drain_for_block(10));

    assert_eq!(block.extrinsics.len(), 3);
    let alice_nonces: Vec<u32> = block
        .extrinsics
        .iter()
        .filter(|e| e.signer == Alice.public())
        .map(|e| e.nonce)
        .collect();
    assert_eq!(alice_nonces, vec![0, 1]);
}

#[test]
fn evict_included_removes_matching_pairs() {
    let mut pool: Mempool<UncheckedExtrinsic> = Mempool::new();
    pool.submit(signed_transfer(Alice, 0, Bob, 10)).unwrap();
    pool.submit(signed_transfer(Alice, 1, Bob, 10)).unwrap();
    pool.submit(signed_transfer(Bob, 0, Alice, 5)).unwrap();

    pool.evict_included(&vec![(Alice.public(), 0), (Bob.public(), 0)]);

    assert_eq!(pool.len(), 1);
    let left = pool.drain_for_block(10);
    assert_eq!(left[0].signer, Alice.public());
    assert_eq!(left[0].nonce, 1);
}

#[test]
fn pending_from_counts_one_signer_only() {
    let mut pool: Mempool<UncheckedExtrinsic> = Mempool::new();
    pool.submit(signed_transfer(Alice, 0, Bob, 10)).unwrap();
    pool.submit(signed_transfer(Alice, 1, Bob, 10)).unwrap();
    pool.submit(signed_transfer(Bob, 0, Alice, 5)).unwrap();
    assert_eq!(pool.pending_from(&Alice.public()), 2);
    assert_eq!(pool.pending_from(&Bob.public()), 1);
}

#[test]
fn slot_schedule_is_deterministic() {
    assert_eq!(current_slot(0), 0);
    assert_eq!(current_slot(19), 0);
    assert_eq!(current_slot(20), 1);
    assert_eq!(current_slot(1_000_000), 50_000);
    assert_eq!(author_index(7, 3), 1);
    assert_eq!(author_index(9, 3), 0);
    assert_eq!(secs_until_next_slot(20), 20);
    assert_eq!(secs_until_next_slot(25), 15);
}

#[test]
fn keyring_lookup_is_case_insensitive() {
    assert_eq!(from_name("alice"), Some(AccountKeyring::Alice));
    assert_eq!(from_name("ALICE"), Some(AccountKeyring::Alice));
    assert_eq!(from_name("Bob"), Some(AccountKeyring::Bob));
    assert_eq!(from_name("cHaRlIe"), Some(AccountKeyring::Charlie));
    assert_eq!(from_name("dave"), None);
    assert_eq!(from_name(""), None);
}

#[test]
fn dev_accounts_are_distinct() {
    let a = AccountKeyring::Alice.public();
    let b = AccountKeyring::Bob.public();
    let c = AccountKeyring::Charlie.public();
    assert_ne!(a, b);
    assert_ne!(a, c);
    assert_ne!(b, c);
    assert!(rust_state_machine::keyring::dev_accounts_distinct());
}
