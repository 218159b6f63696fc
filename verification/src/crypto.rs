//! Trusted bindings to the Ed25519 primitives of `ed25519_dalek`.
//!
//! What a key, a signature, or a verification outcome *is* cannot be stated
//! in a few lines, so each result is given a name: an uninterpreted function
//! of the plain values it depends on.  Every contract below states only what
//! the crate's source and documentation show.

use ed25519_dalek::Signer;
use ed25519_dalek::Verifier;
use vstd::prelude::*;

verus! {

/// The Ed25519 public key derived from a 32-byte secret seed.
pub uninterp spec fn ed25519_public_of(seed: Seq<u8>) -> Seq<u8>;

/// The Ed25519 signature by the key with secret seed `seed` over `msg`.
/// Ed25519 signing is deterministic, so this is a function of the two alone.
pub uninterp spec fn ed25519_signature_of(seed: Seq<u8>, msg: Seq<u8>) -> Seq<u8>;

/// Whether 32 bytes are a well-formed Ed25519 public key.
pub uninterp spec fn ed25519_key_ok(pk: Seq<u8>) -> bool;

/// Whether `sig` is a valid Ed25519 signature over `msg` under the key `pk`.
pub uninterp spec fn ed25519_sig_ok(pk: Seq<u8>, msg: Seq<u8>, sig: Seq<u8>) -> bool;

/// The outcome of checking one signature.
#[derive(Clone, Copy, Debug, PartialEq, Eq, Structural)]
pub enum SigCheck {
    Valid,
    BadKey,
    BadSig,
}

/// Relies on `SigningKey::from_bytes` and `SigningKey::verifying_key`:
/// the public key is a function of the seed alone, and is always a
/// well-formed key.
#[verifier::external_body]
pub fn derive_public_key(seed: &[u8; 32]) -> (r: [u8; 32])
    ensures
        r@ == ed25519_public_of(seed@),
        ed25519_key_ok(r@),
{
    let sk = ed25519_dalek::SigningKey::from_bytes(seed);
    *sk.verifying_key().as_bytes()
}

/// Relies on `Signer::sign` for `SigningKey`: signing is deterministic in
/// seed and message, and a fresh signature verifies under the signer's own
/// public key.
#[verifier::external_body]
pub fn sign_message(seed: &[u8; 32], msg: &Vec<u8>) -> (r: [u8; 64])
    ensures
        r@ == ed25519_signature_of(seed@, msg@),
        ed25519_sig_ok(ed25519_public_of(seed@), msg@, r@),
{
    let sk = ed25519_dalek::SigningKey::from_bytes(seed);
    sk.sign(msg.as_slice()).to_bytes()
}

/// Relies on `VerifyingKey::from_bytes` and `Verifier::verify`:
/// `from_bytes` fails exactly on bytes that are not a well-formed key, and
/// `verify` accepts exactly the valid signatures for the key and message.
#[verifier::external_body]
pub fn check_signature(pk: &[u8; 32], msg: &Vec<u8>, sig: &[u8; 64]) -> (r: SigCheck)
    ensures
        r == SigCheck::BadKey <==> !ed25519_key_ok(pk@),
        ed25519_key_ok(pk@) ==> (r == SigCheck::Valid <==> ed25519_sig_ok(pk@, msg@, sig@)),
{
    match ed25519_dalek::VerifyingKey::from_bytes(pk) {
        Err(_) => SigCheck::BadKey,
        Ok(vk) => {
            let s = ed25519_dalek::Signature::from_bytes(sig);
            match vk.verify(msg.as_slice(), &s) {
                Ok(()) => SigCheck::Valid,
                Err(_) => SigCheck::BadSig,
            }
        },
    }
}

} // verus!
