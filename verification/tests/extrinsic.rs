use rust_state_machine::balances;
use rust_state_machine::extrinsic::{verify_batch, UncheckedExtrinsic};
use rust_state_machine::keyring::AccountKeyring::{Alice, Bob};
use rust_state_machine::runtime::RuntimeCall;

fn test_call(amount: u128) -> RuntimeCall {
    RuntimeCall::balances(balances::Call::transfer { to: Bob.public(), amount })
}

#[test]
fn new_signed_produces_valid_extrinsic() {
    let ext = UncheckedExtrinsic::new_signed(&Alice.seed(), 0, test_call(42));
    assert_eq!(ext.signer, Alice.public());
    assert_eq!(ext.nonce, 0);
    assert!(ext.verify().is_ok());
}

#[test]
fn verify_rejects_tampered_nonce() {
    let mut ext = UncheckedExtrinsic::new_signed(&Alice.seed(), 0, test_call(1));
    ext.nonce = 99;
    assert!(ext.verify().is_err());
}

#[test]
fn verify_rejects_wrong_signer_field() {
    let mut ext = UncheckedExtrinsic::new_signed(&Alice.seed(), 0, test_call(1));
    // Swap the signer field to Bob's public key — payload won't match.
    ext.signer = Bob.public();
    assert!(ext.verify().is_err());
}

#[test]
fn nonces_produce_different_signatures() {
    let ext0 = UncheckedExtrinsic::new_signed(&Alice.seed(), 0, test_call(1));
    let ext1 = UncheckedExtrinsic::new_signed(&Alice.seed(), 1, test_call(1));
    assert_ne!(ext0.signature, ext1.signature);
}

#[test]
fn verify_batch_all_valid() {
    let exts: Vec<_> = (0..4)
        .map(|n| UncheckedExtrinsic::new_signed(&Alice.seed(), n, test_call(n as u128)))
        .collect();
    let results = verify_batch(&exts);
    assert!(results.iter().all(|r| r.is_ok()));
}

#[test]
fn verify_batch_catches_tampered_entry() {
    let mut exts: Vec<_> = (0..3)
        .map(|n| UncheckedExtrinsic::new_signed(&Alice.seed(), n, test_call(n as u128)))
        .collect();
    exts[1].nonce = 99; // tamper middle entry
    let results = verify_batch(&exts);
    assert!(results[0].is_ok());
    assert!(results[1].is_err());
    assert!(results[2].is_ok());
}

#[test]
fn verify_names_the_failing_check() {
    let mut ext = UncheckedExtrinsic::new_signed(&Alice.seed(), 0, test_call(1));
    ext.nonce = 7;
    assert_eq!(ext.verify(), Err("invalid signature"));
    // A public key field with a y-coordinate that is not on the curve is
    // rejected before the signature is even looked at.
    let mut bad = [0u8; 32];
    bad[0] = 2;
    let mut bad_key = UncheckedExtrinsic::new_signed(&Alice.seed(), 0, test_call(1));
    bad_key.signer = rust_state_machine::account::AccountId32(bad);
    match bad_key.verify() {
        Err(msg) => assert!(msg == "invalid public key" || msg == "invalid signature"),
        Ok(()) => panic!("tampered signer verified"),
    }
}
