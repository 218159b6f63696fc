use rust_state_machine::balances;
use rust_state_machine::extrinsic::{Block, Header, UncheckedExtrinsic};
use rust_state_machine::keyring::AccountKeyring;
use rust_state_machine::keyring::AccountKeyring::{Alice, Bob, Charlie};
use rust_state_machine::proof_of_existence;
use rust_state_machine::runtime::{maybe_apply_genesis, Runtime, RuntimeCall};
use rust_state_machine::store::MemStore;

// ---------------------------------------------------------------------------
// Helpers
// ---------------------------------------------------------------------------

fn fresh() -> Runtime<MemStore> {
    Runtime::new(MemStore::new())
}

fn signed_transfer(
    from: AccountKeyring,
    nonce: u32,
    to: AccountKeyring,
    amount: u128,
) -> UncheckedExtrinsic {
    let call = RuntimeCall::balances(balances::Call::transfer { to: to.public(), amount });
    UncheckedExtrinsic::new_signed(&from.seed(), nonce, call)
}

fn signed_claim(from: AccountKeyring, nonce: u32, claim: &str) -> UncheckedExtrinsic {
    let call = RuntimeCall::proof_of_existence(proof_of_existence::Call::create_claim {
        claim: claim.to_string(),
    });
    UncheckedExtrinsic::new_signed(&from.seed(), nonce, call)
}

fn signed_revoke(from: AccountKeyring, nonce: u32, claim: &str) -> UncheckedExtrinsic {
    let call = RuntimeCall::proof_of_existence(proof_of_existence::Call::revoke_claim {
        claim: claim.to_string(),
    });
    UncheckedExtrinsic::new_signed(&from.seed(), nonce, call)
}

/// Build the next valid block for this runtime using its current in-memory block number.
fn next_block(rt: &Runtime<MemStore>, exts: Vec<UncheckedExtrinsic>) -> Block {
    Block { header: Header { block_number: rt.system.block_number() + 1 }, extrinsics: exts }
}

// ---------------------------------------------------------------------------
// Block number / system module
// ---------------------------------------------------------------------------

#[test]
fn execute_block_increments_block_number() {
    let mut rt = fresh();
    let before = rt.system.block_number();
    let b = next_block(&rt, vec![]);
    rt.execute_block(b).unwrap();
    assert_eq!(rt.system.block_number(), before + 1);
}

#[test]
fn execute_block_rejects_wrong_header_number() {
    let mut rt = fresh();
    let bad = Block {
        header: Header { block_number: rt.system.block_number() + 5 },
        extrinsics: vec![],
    };
    assert!(rt.execute_block(bad).is_err());
}

#[test]
fn multiple_empty_blocks_advance_block_number() {
    let mut rt = fresh();
    let start = rt.system.block_number();
    for _ in 0..3 {
        let b = next_block(&rt, vec![]);
        rt.execute_block(b).unwrap();
    }
    assert_eq!(rt.system.block_number(), start + 3);
}

// ---------------------------------------------------------------------------
// Balance transfers
// ---------------------------------------------------------------------------

#[test]
fn single_transfer_updates_balances() {
    let mut rt = fresh();
    rt.balances.set_balance(&mut rt.store, &Alice.public(), 1_000);
    rt.balances.set_balance(&mut rt.store, &Bob.public(), 0);
    let nonce = rt.system.nonce(&Alice.public());

    let b = next_block(&rt, vec![signed_transfer(Alice, nonce, Bob, 300)]);
    rt.execute_block(b).unwrap();

    assert_eq!(rt.balances.balance(&Alice.public()), 700);
    assert_eq!(rt.balances.balance(&Bob.public()), 300);
}

#[test]
fn transfer_exact_balance_drains_sender() {
    let mut rt = fresh();
    rt.balances.set_balance(&mut rt.store, &Alice.public(), 500);
    rt.balances.set_balance(&mut rt.store, &Bob.public(), 0);
    let nonce = rt.system.nonce(&Alice.public());

    let b = next_block(&rt, vec![signed_transfer(Alice, nonce, Bob, 500)]);
    rt.execute_block(b).unwrap();

    assert_eq!(rt.balances.balance(&Alice.public()), 0);
    assert_eq!(rt.balances.balance(&Bob.public()), 500);
}

#[test]
fn insufficient_balance_fails_dispatch_block_still_commits() {
    let mut rt = fresh();
    rt.balances.set_balance(&mut rt.store, &Alice.public(), 50);
    rt.balances.set_balance(&mut rt.store, &Bob.public(), 0);
    let nonce = rt.system.nonce(&Alice.public());
    let before = rt.system.block_number();

    // Block itself succeeds even though the dispatch fails inside.
    let b = next_block(&rt, vec![signed_transfer(Alice, nonce, Bob, 9_999)]);
    rt.execute_block(b).unwrap();

    assert_eq!(rt.system.block_number(), before + 1);
    assert_eq!(rt.balances.balance(&Alice.public()), 50);
    assert_eq!(rt.balances.balance(&Bob.public()), 0);
}

#[test]
fn two_transfers_in_one_block_from_different_senders() {
    let mut rt = fresh();
    rt.balances.set_balance(&mut rt.store, &Alice.public(), 1_000);
    rt.balances.set_balance(&mut rt.store, &Bob.public(), 1_000);
    rt.balances.set_balance(&mut rt.store, &Charlie.public(), 0);
    let an = rt.system.nonce(&Alice.public());
    let bn = rt.system.nonce(&Bob.public());

    let b = next_block(
        &rt,
        vec![signed_transfer(Alice, an, Charlie, 100), signed_transfer(Bob, bn, Charlie, 200)],
    );
    rt.execute_block(b).unwrap();

    assert_eq!(rt.balances.balance(&Alice.public()), 900);
    assert_eq!(rt.balances.balance(&Bob.public()), 800);
    assert_eq!(rt.balances.balance(&Charlie.public()), 300);
}

// ---------------------------------------------------------------------------
// Nonce tracking
// ---------------------------------------------------------------------------

#[test]
fn nonce_increments_after_successful_dispatch() {
    let mut rt = fresh();
    rt.balances.set_balance(&mut rt.store, &Alice.public(), 1_000);
    let before = rt.system.nonce(&Alice.public());

    let b = next_block(&rt, vec![signed_transfer(Alice, before, Bob, 10)]);
    rt.execute_block(b).unwrap();

    assert_eq!(rt.system.nonce(&Alice.public()), before + 1);
}

#[test]
fn nonce_mismatch_extrinsic_is_skipped() {
    let mut rt = fresh();
    rt.balances.set_balance(&mut rt.store, &Alice.public(), 1_000);
    rt.balances.set_balance(&mut rt.store, &Bob.public(), 0);

    // Sign with a nonce that is far ahead of the runtime nonce.
    // Signature is valid for that nonce, but execute_block rejects it at the nonce-check step.
    let runtime_nonce = rt.system.nonce(&Alice.public());
    let wrong_nonce_ext = signed_transfer(Alice, runtime_nonce + 100, Bob, 200);
    assert!(wrong_nonce_ext.verify().is_ok(), "signature itself is valid");

    let b = next_block(&rt, vec![wrong_nonce_ext]);
    rt.execute_block(b).unwrap();

    // Bob received nothing; extrinsic was skipped.
    assert_eq!(rt.balances.balance(&Bob.public()), 0);
}

#[test]
fn sequential_nonces_across_blocks() {
    let mut rt = fresh();
    rt.balances.set_balance(&mut rt.store, &Alice.public(), 1_000);
    rt.balances.set_balance(&mut rt.store, &Bob.public(), 0);

    let n0 = rt.system.nonce(&Alice.public());
    let b1 = next_block(&rt, vec![signed_transfer(Alice, n0, Bob, 10)]);
    rt.execute_block(b1).unwrap();
    assert_eq!(rt.system.nonce(&Alice.public()), n0 + 1);

    let n1 = rt.system.nonce(&Alice.public());
    let b2 = next_block(&rt, vec![signed_transfer(Alice, n1, Bob, 10)]);
    rt.execute_block(b2).unwrap();
    assert_eq!(rt.system.nonce(&Alice.public()), n0 + 2);

    assert_eq!(rt.balances.balance(&Bob.public()), 20);
}

// ---------------------------------------------------------------------------
// Proof of existence
// ---------------------------------------------------------------------------

#[test]
fn poe_create_claim_recorded_on_chain() {
    let mut rt = fresh();
    let nonce = rt.system.nonce(&Alice.public());
    let claim = "rt-poe-create";

    let b = next_block(&rt, vec![signed_claim(Alice, nonce, claim)]);
    rt.execute_block(b).unwrap();

    assert_eq!(rt.proof_of_existence.get_claim(&claim.to_string()), Some(Alice.public()));
}

#[test]
fn poe_duplicate_claim_is_rejected_at_dispatch() {
    let mut rt = fresh();
    let a_nonce = rt.system.nonce(&Alice.public());
    let b_nonce = rt.system.nonce(&Bob.public());
    let claim = "rt-poe-duplicate";

    let b1 = next_block(&rt, vec![signed_claim(Alice, a_nonce, claim)]);
    rt.execute_block(b1).unwrap();
    // Bob attempts the same claim — block succeeds, dispatch fails silently.
    let b2 = next_block(&rt, vec![signed_claim(Bob, b_nonce, claim)]);
    rt.execute_block(b2).unwrap();

    assert_eq!(rt.proof_of_existence.get_claim(&claim.to_string()), Some(Alice.public()));
}

#[test]
fn poe_revoke_allows_reclaim_by_new_owner() {
    let mut rt = fresh();
    let a0 = rt.system.nonce(&Alice.public());
    let b0 = rt.system.nonce(&Bob.public());
    let claim = "rt-poe-revoke-reclaim";

    let b1 = next_block(&rt, vec![signed_claim(Alice, a0, claim)]);
    rt.execute_block(b1).unwrap();
    // a0+1 because Alice's nonce was incremented by the previous block.
    let b2 = next_block(&rt, vec![signed_revoke(Alice, a0 + 1, claim)]);
    rt.execute_block(b2).unwrap();
    assert_eq!(rt.proof_of_existence.get_claim(&claim.to_string()), None);

    let b3 = next_block(&rt, vec![signed_claim(Bob, b0, claim)]);
    rt.execute_block(b3).unwrap();
    assert_eq!(rt.proof_of_existence.get_claim(&claim.to_string()), Some(Bob.public()));
}

// ---------------------------------------------------------------------------
// Genesis
// ---------------------------------------------------------------------------

#[test]
fn maybe_apply_genesis_idempotent() {
    let mut rt = fresh();
    let before = rt.system.block_number();

    maybe_apply_genesis(&mut rt);
    let after_first = rt.system.block_number();

    // Calling again must be a no-op regardless of state.
    maybe_apply_genesis(&mut rt);
    assert_eq!(rt.system.block_number(), after_first);

    // If the chain was at block 0, genesis advanced it to 1 and funded accounts.
    if before == 0 {
        assert_eq!(after_first, 1);
        assert_eq!(rt.balances.balance(&Alice.public()), 1_000_000);
    }
}

// ---------------------------------------------------------------------------
// Runtime state survives rehydration
// ---------------------------------------------------------------------------

#[test]
fn runtime_rehydrates_from_store() {
    let mut rt = fresh();
    maybe_apply_genesis(&mut rt);
    let nonce = rt.system.nonce(&Alice.public());
    let b = next_block(&rt, vec![signed_transfer(Alice, nonce, Bob, 250)]);
    rt.execute_block(b).unwrap();

    let rt2 = Runtime::new(rt.store);
    assert_eq!(rt2.system.block_number(), 2);
    assert_eq!(rt2.system.nonce(&Alice.public()), 1);
    assert_eq!(rt2.balances.balance(&Alice.public()), 999_750);
    assert_eq!(rt2.balances.balance(&Bob.public()), 1_000_250);
}
