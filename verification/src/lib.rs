//! A minimal replicated blockchain state machine.
//!
//! The crate is organised leaves-first:
//!
//! * [`account`] — 32-byte account identifiers and hex conversion.
//! * [`crypto`] — trusted bindings to the Ed25519 primitives.
//! * [`keyring`] — the fixed development identities.
//! * [`codec`] — the deterministic binary encoding of all on-wire types.
//! * [`store`] — the ordered key-value persistence layer.
//! * [`state_map`] — the in-memory association maps the modules own.
//! * [`extrinsic`] — signed call envelopes, blocks, and batch verification.
//! * [`system`] — block height and per-account nonces.
//! * [`balances`] — per-account balances and transfers.
//! * [`proof_of_existence`] — content-to-owner claims.
//! * [`runtime`] — call dispatch and block execution.
//! * [`mempool`] — the pending-extrinsic FIFO.
//! * [`schedule`] — the slot-based authorship schedule.
//! * [`support`] — the dispatch result type.

pub mod account;
pub mod balances;
pub mod codec;
pub mod crypto;
pub mod extrinsic;
pub mod keyring;
pub mod mempool;
pub mod proof_of_existence;
pub mod runtime;
pub mod schedule;
pub mod state_map;
pub mod store;
pub mod support;
pub mod system;
