//! Signed call envelopes and blocks.

use rayon::iter::IntoParallelRefIterator;
use rayon::iter::ParallelIterator;
use vstd::prelude::*;

use crate::account::AccountId32;
use crate::codec::{
    encode_signing_payload, spec_call_ok, spec_decode_extrinsic, spec_encode_extrinsic,
    spec_extrinsic_ok, spec_signing_payload,
};
use crate::crypto::{
    check_signature, derive_public_key, ed25519_key_ok, ed25519_public_of, ed25519_sig_ok,
    ed25519_signature_of, sign_message, SigCheck,
};
use crate::runtime::{CallView, RuntimeCall};
use crate::support::DispatchResult;

verus! {

/// A block header: the only field is the block's height.
#[derive(Clone, Copy, Debug)]
pub struct Header {
    pub block_number: u32,
}

/// The signed call envelope, in the only form that exists on the wire:
/// the claimed signer, an Ed25519 signature over the signing payload,
/// the signer's nonce, and the call itself.
#[derive(Debug)]
pub struct UncheckedExtrinsic {
    /// Ed25519 public key of the sender.
    pub signer: AccountId32,
    /// Ed25519 signature over the encoding of `(signer bytes, nonce, call)`.
    pub signature: [u8; 64],
    pub nonce: u32,
    pub call: RuntimeCall,
}

/// An ordered batch of extrinsics under one header.
#[derive(Debug)]
pub struct Block {
    pub header: Header,
    pub extrinsics: Vec<UncheckedExtrinsic>,
}

/// The mathematical value of an extrinsic.
pub struct ExtrinsicView {
    pub signer: Seq<u8>,
    pub signature: Seq<u8>,
    pub nonce: u32,
    pub call: CallView,
}

/// The mathematical value of a block.
pub struct BlockView {
    pub block_number: u32,
    pub extrinsics: Seq<ExtrinsicView>,
}

impl View for UncheckedExtrinsic {
    type V = ExtrinsicView;

    open spec fn view(&self) -> ExtrinsicView {
        ExtrinsicView {
            signer: self.signer@,
            signature: self.signature@,
            nonce: self.nonce,
            call: self.call@,
        }
    }
}

impl DeepView for UncheckedExtrinsic {
    type V = ExtrinsicView;

    open spec fn deep_view(&self) -> ExtrinsicView {
        self.view()
    }
}

impl View for Block {
    type V = BlockView;

    open spec fn view(&self) -> BlockView {
        BlockView { block_number: self.header.block_number, extrinsics: self.extrinsics.deep_view() }
    }
}

/// The outcome of verifying an extrinsic: `Ok` exactly when the claimed
/// signer is a well-formed key carrying a valid signature over the signing
/// payload rebuilt from the claimed signer and nonce; otherwise the error
/// that names which check failed.
pub open spec fn spec_verify_extrinsic(e: ExtrinsicView) -> DispatchResult {
    if !ed25519_key_ok(e.signer) {
        Err("invalid public key")
    } else if ed25519_sig_ok(e.signer, spec_signing_payload(e.signer, e.nonce, e.call), e.signature) {
        Ok(())
    } else {
        Err("invalid signature")
    }
}

impl UncheckedExtrinsic {
    /// Sign `call` with nonce `nonce` for the key with secret seed `seed`,
    /// and wrap the result in its wire envelope.  The fresh envelope
    /// verifies.
    pub fn new_signed(seed: &[u8; 32], nonce: u32, call: RuntimeCall) -> (r: Self)
        requires
            spec_call_ok(call@),
        ensures
            r.signer@ == ed25519_public_of(seed@),
            r.nonce == nonce,
            r.call@ == call@,
            r.signature@ == ed25519_signature_of(
                seed@,
                spec_signing_payload(ed25519_public_of(seed@), nonce, call@),
            ),
            spec_verify_extrinsic(r@) == Ok::<(), &'static str>(()),
            spec_extrinsic_ok(r@),
    {
        let signer = AccountId32(derive_public_key(seed));
        let payload = encode_signing_payload(&signer, nonce, &call);
        let signature = sign_message(seed, &payload);
        UncheckedExtrinsic { signer, signature, nonce, call }
    }

    /// Check this envelope's signature against the payload rebuilt from its
    /// own claimed signer and nonce.
    pub fn verify(&self) -> (r: DispatchResult)
        requires
            spec_call_ok(self.call@),
        ensures
            r == spec_verify_extrinsic(self@),
    {
        let payload = encode_signing_payload(&self.signer, self.nonce, &self.call);
        match check_signature(self.signer.as_bytes(), &payload, &self.signature) {
            SigCheck::Valid => Ok(()),
            SigCheck::BadKey => Err("invalid public key"),
            SigCheck::BadSig => Err("invalid signature"),
        }
    }
}

/// Relies on rayon's `par_iter().map(..).collect()`: it returns the image of
/// each element in the input order; the function mapped is the library's own
/// `verify`, whose contract pins each element's result.
#[verifier::external_body]
fn par_verify(exts: &Vec<UncheckedExtrinsic>) -> (r: Vec<DispatchResult>)
    requires
        forall|i: int| 0 <= i < exts@.len() ==> spec_call_ok(#[trigger] exts@[i].call@),
    ensures
        r@.len() == exts@.len(),
        forall|i: int|
            0 <= i < exts@.len() ==> r@[i] == spec_verify_extrinsic(#[trigger] exts@[i]@),
{
    exts.par_iter().map(|e| e.verify()).collect()
}

/// Verify a batch of extrinsics on the worker pool: one result per
/// extrinsic, in the input order, each equal to what `verify` returns on
/// that extrinsic alone.
pub fn verify_batch(exts: &Vec<UncheckedExtrinsic>) -> (r: Vec<DispatchResult>)
    requires
        forall|i: int| 0 <= i < exts@.len() ==> spec_call_ok(#[trigger] exts@[i].call@),
    ensures
        r@.len() == exts@.len(),
        forall|i: int|
            0 <= i < exts@.len() ==> r@[i] == spec_verify_extrinsic(#[trigger] exts@[i]@),
{
    par_verify(exts)
}

/// An extrinsic that verifies still verifies after an encode/decode round
/// trip: decoding its wire form yields a value equal to it, on which
/// verification returns the same outcome.
pub proof fn lemma_round_trip_preserves_verify(s: Seq<u8>, pos: int, e: ExtrinsicView)
    requires
        spec_extrinsic_ok(e),
        0 <= pos,
        pos + spec_encode_extrinsic(e).len() <= s.len(),
        s.subrange(pos, pos + spec_encode_extrinsic(e).len() as int) == spec_encode_extrinsic(e),
    ensures
        spec_decode_extrinsic(s, pos) is Some,
        (spec_decode_extrinsic(s, pos)->Some_0).0 == e,
        spec_verify_extrinsic((spec_decode_extrinsic(s, pos)->Some_0).0) == spec_verify_extrinsic(
            e,
        ),
{
    crate::codec::lemma_decode_extrinsic_of_encode(s, pos, e);
}

} // verus!
