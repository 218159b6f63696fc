use rust_state_machine::balances;
use rust_state_machine::codec::{decode_block, decode_extrinsic, encode_block, encode_extrinsic};
use rust_state_machine::extrinsic::{Block, Header, UncheckedExtrinsic};
use rust_state_machine::keyring::AccountKeyring::{Alice, Bob};
use rust_state_machine::proof_of_existence;
use rust_state_machine::runtime::RuntimeCall;

// ---------------------------------------------------------------------------
// Helpers — construct typed extrinsics without a live runtime
// ---------------------------------------------------------------------------

fn transfer_ext(nonce: u32) -> UncheckedExtrinsic {
    let call = RuntimeCall::balances(balances::Call::transfer { to: Bob.public(), amount: 100 });
    UncheckedExtrinsic::new_signed(&Alice.seed(), nonce, call)
}

fn claim_ext(nonce: u32) -> UncheckedExtrinsic {
    let call = RuntimeCall::proof_of_existence(proof_of_existence::Call::create_claim {
        claim: "test-document".to_string(),
    });
    UncheckedExtrinsic::new_signed(&Alice.seed(), nonce, call)
}

fn encode_one(ext: &UncheckedExtrinsic) -> Vec<u8> {
    let mut out = Vec::new();
    encode_extrinsic(ext, &mut out);
    out
}

// ---------------------------------------------------------------------------
// Block encoding / decoding
// ---------------------------------------------------------------------------

#[test]
fn block_with_extrinsics_roundtrip() {
    let block = Block {
        header: Header { block_number: 42 },
        extrinsics: vec![transfer_ext(0), claim_ext(1)],
    };

    let decoded = decode_block(&encode_block(&block)).expect("decode succeeds");

    assert_eq!(decoded.header.block_number, 42);
    assert_eq!(decoded.extrinsics.len(), 2);
    assert_eq!(decoded.extrinsics[0].signer, Alice.public());
    assert_eq!(decoded.extrinsics[0].nonce, 0);
    assert_eq!(decoded.extrinsics[1].nonce, 1);
}

#[test]
fn empty_block_roundtrip() {
    let block = Block { header: Header { block_number: 1 }, extrinsics: vec![] };
    let decoded = decode_block(&encode_block(&block)).unwrap();
    assert_eq!(decoded.header.block_number, 1);
    assert!(decoded.extrinsics.is_empty());
}

#[test]
fn extrinsic_fields_survive_encode_decode() {
    let ext = transfer_ext(7);
    let (decoded, _) = decode_extrinsic(&encode_one(&ext), 0).unwrap();

    assert_eq!(decoded.signer, Alice.public());
    assert_eq!(decoded.nonce, 7);
    assert_eq!(decoded.signature, ext.signature);
}

#[test]
fn encoded_bytes_are_deterministic() {
    assert_eq!(encode_one(&transfer_ext(3)), encode_one(&transfer_ext(3)));
}

#[test]
fn different_calls_produce_different_encodings() {
    assert_ne!(encode_one(&transfer_ext(0)), encode_one(&claim_ext(0)));
}

#[test]
fn truncated_block_fails_to_decode() {
    let block =
        Block { header: Header { block_number: 9 }, extrinsics: vec![transfer_ext(0)] };
    let mut bytes = encode_block(&block);
    bytes.truncate(bytes.len() - 1);
    assert!(decode_block(&bytes).is_none());
}

// ---------------------------------------------------------------------------
// Ed25519 signature correctness
// ---------------------------------------------------------------------------

#[test]
fn fresh_extrinsic_has_valid_signature() {
    assert!(transfer_ext(0).verify().is_ok());
    assert!(claim_ext(0).verify().is_ok());
}

#[test]
fn signature_survives_encode_decode_roundtrip() {
    let (decoded, _) = decode_extrinsic(&encode_one(&transfer_ext(3)), 0).unwrap();
    assert!(decoded.verify().is_ok());
}

#[test]
fn tampered_nonce_invalidates_signature() {
    let mut ext = transfer_ext(0);
    ext.nonce = 99;
    assert!(ext.verify().is_err());
}

#[test]
fn swapped_signer_field_invalidates_signature() {
    let mut ext = transfer_ext(0);
    ext.signer = Bob.public();
    assert!(ext.verify().is_err());
}

#[test]
fn different_nonces_produce_different_signatures() {
    assert_ne!(transfer_ext(0).signature, transfer_ext(1).signature);
}

#[test]
fn different_signers_produce_different_signatures() {
    let ext_alice = UncheckedExtrinsic::new_signed(
        &Alice.seed(),
        0,
        RuntimeCall::balances(balances::Call::transfer { to: Bob.public(), amount: 50 }),
    );
    let ext_bob = UncheckedExtrinsic::new_signed(
        &Bob.seed(),
        0,
        RuntimeCall::balances(balances::Call::transfer { to: Alice.public(), amount: 50 }),
    );
    assert_ne!(ext_alice.signature, ext_bob.signature);
}

// ---------------------------------------------------------------------------
// verify_batch — parallel signature verification
// ---------------------------------------------------------------------------

#[test]
fn verify_batch_accepts_all_valid_extrinsics() {
    let exts: Vec<_> = (0..5).map(transfer_ext).collect();
    let results = rust_state_machine::extrinsic::verify_batch(&exts);
    assert!(results.iter().all(|r| r.is_ok()));
}

#[test]
fn verify_batch_identifies_single_tampered_entry() {
    let mut exts: Vec<_> = (0..4).map(transfer_ext).collect();
    exts[2].nonce = 99; // tamper index 2 only

    let results = rust_state_machine::extrinsic::verify_batch(&exts);
    assert!(results[0].is_ok());
    assert!(results[1].is_ok());
    assert!(results[2].is_err());
    assert!(results[3].is_ok());
}

#[test]
fn verify_batch_on_empty_slice_returns_empty_vec() {
    let exts: Vec<UncheckedExtrinsic> = vec![];
    assert!(rust_state_machine::extrinsic::verify_batch(&exts).is_empty());
}
