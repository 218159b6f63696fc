//! The runtime: the typed call enum routed to the owning module, and block
//! execution over the three modules.

use vstd::prelude::*;

use crate::account::AccountId32;
use crate::balances;
use crate::codec::spec_call_ok;
use crate::extrinsic::{spec_verify_extrinsic, Block, BlockView, ExtrinsicView, UncheckedExtrinsic};
use crate::proof_of_existence;
use crate::extrinsic::Header;
use crate::keyring::{spec_seed, AccountKeyring};
use crate::store::KeyValueStore;
use crate::support::DispatchResult;
use crate::system;

verus! {

/// One call for one module: a two-level tagged union, one top-level variant
/// per module, whose payload is that module's own call enum.
#[allow(non_camel_case_types)]
#[derive(Debug)]
pub enum RuntimeCall {
    balances(balances::Call),
    proof_of_existence(proof_of_existence::Call),
}

/// The mathematical value of a call: the module call with every field
/// replaced by its mathematical value.
pub enum CallView {
    Transfer { to: Seq<u8>, amount: u128 },
    CreateClaim { claim: Seq<char> },
    RevokeClaim { claim: Seq<char> },
}

impl View for RuntimeCall {
    type V = CallView;

    open spec fn view(&self) -> CallView {
        match self {
            RuntimeCall::balances(balances::Call::transfer { to, amount }) => CallView::Transfer {
                to: to@,
                amount: *amount,
            },
            RuntimeCall::proof_of_existence(proof_of_existence::Call::create_claim { claim }) => (
            CallView::CreateClaim { claim: claim@ }),
            RuntimeCall::proof_of_existence(proof_of_existence::Call::revoke_claim { claim }) => (
            CallView::RevokeClaim { claim: claim@ }),
        }
    }
}

/// The whole chain state, as mathematics: the block height, and the three
/// modules' maps.
pub struct StateView {
    pub block_number: u32,
    pub nonces: Map<Seq<u8>, u32>,
    pub balances: Map<Seq<u8>, u128>,
    pub claims: Map<Seq<char>, Seq<u8>>,
}

/// The nonce of `who` in `s`: the recorded value, or zero.
pub open spec fn spec_nonce_of(s: StateView, who: Seq<u8>) -> u32 {
    if s.nonces.contains_key(who) {
        s.nonces[who]
    } else {
        0
    }
}

/// The balance of `who` in `s`: the recorded value, or zero.
pub open spec fn spec_balance_of(s: StateView, who: Seq<u8>) -> u128 {
    if s.balances.contains_key(who) {
        s.balances[who]
    } else {
        0
    }
}

/// What one dispatched call does to the state, and what it returns: the
/// transfer's two balance checks, or the claim map's existence and
/// ownership checks, exactly as the owning module applies them.
pub open spec fn spec_dispatch(s: StateView, caller: Seq<u8>, call: CallView) -> (
    StateView,
    DispatchResult,
) {
    match call {
        CallView::Transfer { to, amount } => {
            let cb = spec_balance_of(s, caller);
            let tb = spec_balance_of(s, to);
            if cb < amount {
                (s, Err("Not enough funds."))
            } else if tb + amount > u128::MAX {
                (s, Err("Overflow"))
            } else if caller == to {
                (s, Ok(()))
            } else {
                (
                    StateView {
                        balances: s.balances.insert(caller, (cb - amount) as u128).insert(
                            to,
                            (tb + amount) as u128,
                        ),
                        ..s
                    },
                    Ok(()),
                )
            }
        },
        CallView::CreateClaim { claim } => {
            if s.claims.contains_key(claim) {
                (s, Err("this content is already claimed"))
            } else {
                (StateView { claims: s.claims.insert(claim, caller), ..s }, Ok(()))
            }
        },
        CallView::RevokeClaim { claim } => {
            if !s.claims.contains_key(claim) {
                (s, Err("claim does not exist"))
            } else if s.claims[claim] != caller {
                (s, Err("caller is not owner"))
            } else {
                (StateView { claims: s.claims.remove(claim), ..s }, Ok(()))
            }
        },
    }
}

/// What one extrinsic does to the state: skipped outright on a bad
/// signature or a nonce mismatch; otherwise the signer's nonce increments
/// and the call is dispatched, whether or not the dispatch succeeds.
pub open spec fn spec_apply_extrinsic(s: StateView, e: ExtrinsicView) -> StateView {
    if spec_verify_extrinsic(e) is Err {
        s
    } else if spec_nonce_of(s, e.signer) != e.nonce {
        s
    } else {
        let s1 = StateView { nonces: s.nonces.insert(e.signer, (e.nonce + 1) as u32), ..s };
        spec_dispatch(s1, e.signer, e.call).0
    }
}

/// Applying a sequence of extrinsics in order.
pub open spec fn spec_apply_extrinsics(s: StateView, exts: Seq<ExtrinsicView>) -> StateView
    decreases exts.len(),
{
    if exts.len() == 0 {
        s
    } else {
        spec_apply_extrinsics(spec_apply_extrinsic(s, exts[0]), exts.skip(1))
    }
}

/// What a whole block does: the height always advances by one; a header
/// that does not name the new height is fatal (and leaves the advanced
/// height behind); otherwise every extrinsic is applied in block order.
pub open spec fn spec_execute_block(s: StateView, b: BlockView) -> (StateView, DispatchResult) {
    let s1 = StateView { block_number: (s.block_number + 1) as u32, ..s };
    if b.block_number != s1.block_number {
        (s1, Err("block number does not match what is expected"))
    } else {
        (spec_apply_extrinsics(s1, b.extrinsics), Ok(()))
    }
}

/// Applying one more extrinsic at the end of a sequence.
pub proof fn lemma_apply_extrinsics_snoc(s: StateView, exts: Seq<ExtrinsicView>, i: int)
    requires
        0 <= i < exts.len(),
    ensures
        spec_apply_extrinsics(s, exts.take(i + 1)) == spec_apply_extrinsic(
            spec_apply_extrinsics(s, exts.take(i)),
            exts[i],
        ),
    decreases i,
{
    if i == 0 {
        assert(exts.take(1) =~= seq![exts[0]]);
        assert(exts.take(0) =~= Seq::<ExtrinsicView>::empty());
        assert(seq![exts[0]].skip(1) =~= Seq::<ExtrinsicView>::empty());
        assert(seq![exts[0]][0] == exts[0]);
        assert(spec_apply_extrinsics(s, exts.take(0)) == s);
        assert(spec_apply_extrinsics(s, seq![exts[0]]) == spec_apply_extrinsics(
            spec_apply_extrinsic(s, exts[0]),
            Seq::<ExtrinsicView>::empty(),
        ));
    } else {
        lemma_apply_extrinsics_snoc(spec_apply_extrinsic(s, exts[0]), exts.skip(1), i - 1);
        assert(exts.take(i + 1).skip(1) =~= exts.skip(1).take(i));
        assert(exts.take(i).skip(1) =~= exts.skip(1).take(i - 1));
        assert(exts.take(i + 1)[0] == exts[0]);
        assert(exts.take(i)[0] == exts[0]);
        assert(exts.skip(1)[i - 1] == exts[i]);
    }
}

/// The runtime: one store handle and the three modules that own the state.
#[derive(Debug)]
pub struct Runtime<S: KeyValueStore> {
    pub store: S,
    pub system: system::Pallet,
    pub balances: balances::Pallet,
    pub proof_of_existence: proof_of_existence::Pallet,
}

impl<S: KeyValueStore> Runtime<S> {
    pub closed spec fn wf(&self) -> bool {
        self.store.wf() && self.system.wf() && self.balances.wf() && self.proof_of_existence.wf()
    }

    /// The chain state this runtime holds in memory.
    pub open spec fn state(&self) -> StateView {
        StateView {
            block_number: self.system.spec_block_number(),
            nonces: self.system.nonces(),
            balances: self.balances.balances(),
            claims: self.proof_of_existence.claims(),
        }
    }

    /// Hydrate a runtime from the store: each module re-reads its slice of
    /// persisted state.
    pub fn new(store: S) -> (r: Self)
        requires
            store.wf(),
        ensures
            r.wf(),
            r.state() == (StateView {
                block_number: system::spec_stored_block_number(store.contents()),
                nonces: system::spec_hydrated_nonces(store.contents()),
                balances: balances::spec_hydrated_balances(store.contents()),
                claims: proof_of_existence::spec_hydrated_claims(store.contents()),
            }),
    {
        let system = system::Pallet::new(&store);
        let balances = balances::Pallet::new(&store);
        let proof_of_existence = proof_of_existence::Pallet::new(&store);
        Runtime { store, system, balances, proof_of_existence }
    }

    /// Route one call to its owning module on behalf of `caller`.
    pub fn dispatch(&mut self, caller: AccountId32, call: &RuntimeCall) -> (r: DispatchResult)
        requires
            old(self).wf(),
            spec_call_ok(call@),
        ensures
            final(self).wf(),
            (final(self).state(), r) == spec_dispatch(old(self).state(), caller@, call@),
    {
        match call {
            RuntimeCall::balances(balances::Call::transfer { to, amount }) => {
                self.balances.transfer(&mut self.store, caller, *to, *amount)
            },
            RuntimeCall::proof_of_existence(proof_of_existence::Call::create_claim { claim }) => {
                let claim_copy = claim.clone();
                self.proof_of_existence.create_claim(&mut self.store, caller, claim_copy)
            },
            RuntimeCall::proof_of_existence(proof_of_existence::Call::revoke_claim { claim }) => {
                let claim_copy = claim.clone();
                self.proof_of_existence.revoke_claim(&mut self.store, caller, claim_copy)
            },
        }
    }

    /// Execute one block: advance the height, reject a header that does not
    /// name the new height, then verify every signature on the worker pool
    /// and apply the extrinsics in order.  No extrinsic error is fatal.
    #[verifier::loop_isolation(false)]
    pub fn execute_block(&mut self, block: Block) -> (r: DispatchResult)
        requires
            old(self).wf(),
            old(self).state().block_number < u32::MAX,
            forall|i: int|
                0 <= i < block@.extrinsics.len() ==> (#[trigger] block@.extrinsics[i]).nonce
                    < u32::MAX,
            forall|i: int|
                0 <= i < block@.extrinsics.len() ==> spec_call_ok(
                    (#[trigger] block@.extrinsics[i]).call,
                ),
        ensures
            final(self).wf(),
            (final(self).state(), r) == spec_execute_block(old(self).state(), block@),
            r is Ok <==> block@.block_number == old(self).state().block_number + 1,
    {
        self.system.inc_block_number(&mut self.store);
        if block.header.block_number != self.system.block_number() {
            return Err("block number does not match what is expected");
        }
        proof {
            assert forall|k: int| 0 <= k < block.extrinsics@.len() implies spec_call_ok(
                #[trigger] block.extrinsics@[k].call@,
            ) by {
                assert(block@.extrinsics[k] == block.extrinsics@[k]@);
            }
        }
        let verify_results = crate::extrinsic::verify_batch(&block.extrinsics);
        let n: usize = block.extrinsics.len();
        let ghost start = self.state();
        let mut i: usize = 0;
        while i < n
            invariant
                i <= n,
                n == block@.extrinsics.len(),
                self.wf(),
                self.state() == spec_apply_extrinsics(start, block@.extrinsics.take(i as int)),
                self.state().block_number == start.block_number,
            decreases n - i,
        {
            proof {
                lemma_apply_extrinsics_snoc(start, block@.extrinsics, i as int);
                assert(block.extrinsics@[i as int]@ == block@.extrinsics[i as int]);
            }
            let ext = &block.extrinsics[i];
            let ok = match verify_results[i] {
                Ok(()) => true,
                Err(_) => false,
            };
            if ok {
                if self.system.nonce(&ext.signer) == ext.nonce {
                    self.system.inc_nonce(&mut self.store, &ext.signer);
                    let _ = self.dispatch(ext.signer, &ext.call);
                }
            }
            proof {
                assert(block@.extrinsics.take(i + 1).take(i as int) =~= block@.extrinsics.take(
                    i as int,
                ));
            }
            i += 1;
        }
        proof {
            assert(block@.extrinsics.take(n as int) =~= block@.extrinsics);
        }
        Ok(())
    }
}

/// How many of the first `upto` extrinsics carry `who`'s signature.
pub open spec fn spec_count_signer(s: Seq<ExtrinsicView>, who: Seq<u8>, upto: int) -> int
    decreases upto,
{
    if upto <= 0 {
        0
    } else {
        spec_count_signer(s, who, upto - 1) + if s[upto - 1].signer == who {
            1int
        } else {
            0int
        }
    }
}

/// The signer count looks only at the first `upto` elements.
proof fn lemma_count_signer_prefix(s1: Seq<ExtrinsicView>, s2: Seq<ExtrinsicView>, who: Seq<u8>, upto: int)
    requires
        0 <= upto <= s1.len(),
        upto <= s2.len(),
        forall|k: int| 0 <= k < upto ==> s1[k] == s2[k],
    ensures
        spec_count_signer(s1, who, upto) == spec_count_signer(s2, who, upto),
    decreases upto,
{
    if upto > 0 {
        lemma_count_signer_prefix(s1, s2, who, upto - 1);
    }
}

/// The signer count never decreases as the prefix grows.
proof fn lemma_count_signer_mono(s: Seq<ExtrinsicView>, who: Seq<u8>, i: int, j: int)
    requires
        0 <= i <= j,
    ensures
        spec_count_signer(s, who, i) <= spec_count_signer(s, who, j),
    decreases j - i,
{
    if i < j {
        lemma_count_signer_mono(s, who, i, j - 1);
    }
}

/// At a position signed by `who`, the count so far is strictly below the
/// total.
proof fn lemma_count_signer_strict(s: Seq<ExtrinsicView>, who: Seq<u8>, i: int)
    requires
        0 <= i < s.len(),
        s[i].signer == who,
    ensures
        spec_count_signer(s, who, i) < spec_count_signer(s, who, s.len() as int),
{
    lemma_count_signer_mono(s, who, i + 1, s.len() as int);
}

/// Whether `e` is the next extrinsic its signer can contribute, given what
/// the block already holds.
pub open spec fn spec_admissible(s0: StateView, rviews: Seq<ExtrinsicView>, e: ExtrinsicView) -> bool {
    e.nonce as int == spec_nonce_of(s0, e.signer) + spec_count_signer(
        rviews,
        e.signer,
        rviews.len() as int,
    )
}

/// Per signer, the admitted nonces run from the signer's current nonce with
/// no gap: each entry's nonce is the signer's nonce plus the number of
/// earlier entries from the same signer.
pub open spec fn consecutive_nonces(s0: StateView, rv: Seq<ExtrinsicView>) -> bool {
    forall|i: int|
        0 <= i < rv.len() ==> (#[trigger] rv[i]).nonce as int == spec_nonce_of(s0, rv[i].signer)
            + spec_count_signer(rv, rv[i].signer, i)
}

/// Every entry of `rv` is the view of some candidate.
pub open spec fn drawn_from(rv: Seq<ExtrinsicView>, candidates: Seq<ExtrinsicView>) -> bool {
    forall|i: int| #![trigger rv[i]] 0 <= i < rv.len() ==> candidates.contains(rv[i])
}

/// No candidate in `rest` is the next its signer could contribute.
pub open spec fn none_admissible(
    s0: StateView,
    rv: Seq<ExtrinsicView>,
    rest: Seq<ExtrinsicView>,
) -> bool {
    forall|p: int| 0 <= p < rest.len() ==> !spec_admissible(s0, rv, #[trigger] rest[p])
}

/// Every original candidate is admitted or still in the pool.
spec fn build_covered(
    orig: Seq<ExtrinsicView>,
    result: Seq<ExtrinsicView>,
    pool: Seq<ExtrinsicView>,
) -> bool {
    forall|j: int|
        #![trigger orig[j]]
        0 <= j < orig.len() ==> result.contains(orig[j]) || pool.contains(orig[j])
}

/// Admitting one admissible candidate preserves the authoring invariants.
#[verifier::rlimit(100)]
#[verifier::spinoff_prover]
proof fn lemma_build_step(
    s0: StateView,
    orig: Seq<ExtrinsicView>,
    pre_result: Seq<ExtrinsicView>,
    pre_pool: Seq<ExtrinsicView>,
    j: int,
)
    requires
        0 <= j < pre_pool.len(),
        consecutive_nonces(s0, pre_result),
        drawn_from(pre_result, orig),
        drawn_from(pre_pool, orig),
        build_covered(orig, pre_result, pre_pool),
        spec_admissible(s0, pre_result, pre_pool[j]),
    ensures
        consecutive_nonces(s0, pre_result.push(pre_pool[j])),
        drawn_from(pre_result.push(pre_pool[j]), orig),
        drawn_from(pre_pool.remove(j), orig),
        build_covered(orig, pre_result.push(pre_pool[j]), pre_pool.remove(j)),
{
    let rv = pre_result.push(pre_pool[j]);
    let pool = pre_pool.remove(j);
    assert(consecutive_nonces(s0, rv)) by {
        assert forall|i: int|
            0 <= i < rv.len() implies (#[trigger] rv[i]).nonce as int == spec_nonce_of(
            s0,
            rv[i].signer,
        ) + spec_count_signer(rv, rv[i].signer, i) by {
            lemma_count_signer_prefix(pre_result, rv, rv[i].signer, i);
            if i < rv.len() - 1 {
                assert(rv[i] == pre_result[i]);
            } else {
                assert(rv[i] == pre_pool[j]);
                assert(pre_result.len() == i);
            }
        }
    }
    assert(drawn_from(rv, orig)) by {
        assert forall|i: int| #![trigger rv[i]] 0 <= i < rv.len() implies orig.contains(rv[i]) by {
            if i < rv.len() - 1 {
                assert(rv[i] == pre_result[i]);
            } else {
                assert(rv[i] == pre_pool[j]);
            }
        }
    }
    assert(drawn_from(pool, orig)) by {
        assert forall|p: int| #![trigger pool[p]] 0 <= p < pool.len() implies orig.contains(
            pool[p],
        ) by {
            if p < j {
                assert(pool[p] == pre_pool[p]);
            } else {
                assert(pool[p] == pre_pool[p + 1]);
            }
        }
    }
    assert(build_covered(orig, rv, pool)) by {
        assert forall|a: int|
            #![trigger orig[a]]
            0 <= a < orig.len() implies rv.contains(orig[a]) || pool.contains(orig[a]) by {
            if pre_result.contains(orig[a]) {
                let i = choose|i: int| 0 <= i < pre_result.len() && pre_result[i] == orig[a];
                assert(rv[i] == orig[a]);
            } else {
                let p = choose|p: int| 0 <= p < pre_pool.len() && pre_pool[p] == orig[a];
                if p == j {
                    assert(rv[rv.len() - 1] == orig[a]);
                } else if p < j {
                    assert(pool[p] == orig[a]);
                } else {
                    assert(pool[p - 1] == orig[a]);
                }
            }
        }
    }
}

/// When nothing in the pool is admissible, no original candidate is.
proof fn lemma_build_final(
    s0: StateView,
    orig: Seq<ExtrinsicView>,
    result: Seq<ExtrinsicView>,
    pool: Seq<ExtrinsicView>,
)
    requires
        consecutive_nonces(s0, result),
        build_covered(orig, result, pool),
        none_admissible(s0, result, pool),
    ensures
        none_admissible(s0, result, orig),
{
    assert forall|a: int|
        0 <= a < orig.len() implies !spec_admissible(s0, result, #[trigger] orig[a]) by {
        if result.contains(orig[a]) {
            let i = choose|i: int| 0 <= i < result.len() && result[i] == orig[a];
            lemma_count_signer_strict(result, result[i].signer, i);
        } else {
            let p = choose|p: int| 0 <= p < pool.len() && pool[p] == orig[a];
            assert(!spec_admissible(s0, result, pool[p]));
        }
    }
}

/// At the start of authoring, nothing is admitted and the whole pool is
/// the candidate list.
proof fn lemma_build_init(orig: Seq<ExtrinsicView>)
    ensures
        drawn_from(orig, orig),
        drawn_from(Seq::<ExtrinsicView>::empty(), orig),
        build_covered(orig, Seq::<ExtrinsicView>::empty(), orig),
{
    assert forall|i: int| #![trigger orig[i]] 0 <= i < orig.len() implies orig.contains(
        orig[i],
    ) by {}
}

/// How many extrinsics of `v` carry `who`'s signature.
fn count_signer_in(v: &Vec<UncheckedExtrinsic>, who: &AccountId32) -> (r: usize)
    ensures
        r as int == spec_count_signer(crate::mempool::views_of(v@), who@, v@.len() as int),
        r <= v@.len(),
{
    let n: usize = v.len();
    let mut cnt: usize = 0;
    let mut j: usize = 0;
    while j < n
        invariant
            j <= n,
            n == v@.len(),
            cnt <= j,
            cnt as int == spec_count_signer(crate::mempool::views_of(v@), who@, j as int),
        decreases n - j,
    {
        if v[j].signer == *who {
            cnt += 1;
        }
        j += 1;
    }
    cnt
}

impl<S: KeyValueStore> Runtime<S> {
    /// The first candidate whose nonce is the next its signer can
    /// contribute, if any.
    #[verifier::loop_isolation(false)]
    fn find_admissible(&self, pool: &Vec<UncheckedExtrinsic>, result: &Vec<UncheckedExtrinsic>) -> (r:
        Option<usize>)
        requires
            self.wf(),
        ensures
            match r {
                Some(j) => j < pool@.len() && spec_admissible(
                    self.state(),
                    crate::mempool::views_of(result@),
                    pool@[j as int]@,
                ),
                None => none_admissible(
                    self.state(),
                    crate::mempool::views_of(result@),
                    crate::mempool::views_of(pool@),
                ),
            },
    {
        let m: usize = pool.len();
        let mut j: usize = 0;
        while j < m
            invariant
                j <= m,
                forall|a: int|
                    0 <= a < j ==> !spec_admissible(
                        self.state(),
                        crate::mempool::views_of(result@),
                        (#[trigger] pool@[a])@,
                    ),
            decreases m - j,
        {
            let base = self.system.nonce(&pool[j].signer);
            let cnt = count_signer_in(result, &pool[j].signer);
            if pool[j].nonce as u128 == base as u128 + cnt as u128 {
                return Some(j);
            }
            j += 1;
        }
        proof {
            assert forall|p: int|
                0 <= p < crate::mempool::views_of(pool@).len() implies !spec_admissible(
                self.state(),
                crate::mempool::views_of(result@),
                #[trigger] crate::mempool::views_of(pool@)[p],
            ) by {
                assert(crate::mempool::views_of(pool@)[p] == (pool@[p])@);
            }
        }
        None
    }

    /// Assemble the next block from drained mempool candidates: for each
    /// signer, admit the run of nonces starting at the signer's current
    /// nonce with no gap; everything else is dropped.  The header names the
    /// next height.
    #[verifier::loop_isolation(false)]
    pub fn build_block(&self, candidates: Vec<UncheckedExtrinsic>) -> (r: Block)
        requires
            self.wf(),
            self.state().block_number < u32::MAX,
        ensures
            r@.block_number == self.state().block_number + 1,
            consecutive_nonces(self.state(), r@.extrinsics),
            drawn_from(r@.extrinsics, crate::mempool::views_of(candidates@)),
            none_admissible(
                self.state(),
                r@.extrinsics,
                crate::mempool::views_of(candidates@),
            ),
    {
        let ghost s0 = self.state();
        let ghost orig = crate::mempool::views_of(candidates@);
        let mut pool = candidates;
        let mut result: Vec<UncheckedExtrinsic> = Vec::new();
        let mut done = false;
        proof {
            lemma_build_init(orig);
            assert(crate::mempool::views_of(result@) =~= Seq::<ExtrinsicView>::empty());
            assert(crate::mempool::views_of(pool@) =~= orig);
        }
        while !done
            invariant
                self.wf(),
                consecutive_nonces(s0, crate::mempool::views_of(result@)),
                drawn_from(crate::mempool::views_of(result@), orig),
                drawn_from(crate::mempool::views_of(pool@), orig),
                build_covered(orig, crate::mempool::views_of(result@), crate::mempool::views_of(pool@)),
                done ==> none_admissible(
                    s0,
                    crate::mempool::views_of(result@),
                    crate::mempool::views_of(pool@),
                ),
            decreases pool@.len(), (if done {
                0int
            } else {
                1int
            }),
        {
            match self.find_admissible(&pool, &result) {
                Some(j) => {
                    proof {
                        lemma_build_step(
                            s0,
                            orig,
                            crate::mempool::views_of(result@),
                            crate::mempool::views_of(pool@),
                            j as int,
                        );
                    }
                    let ghost pre_result = result@;
                    let ghost pre_pool = pool@;
                    let e = pool.remove(j);
                    result.push(e);
                    proof {
                        assert(crate::mempool::views_of(result@) =~= crate::mempool::views_of(
                            pre_result,
                        ).push(crate::mempool::views_of(pre_pool)[j as int]));
                        assert(crate::mempool::views_of(pool@) =~= crate::mempool::views_of(
                            pre_pool,
                        ).remove(j as int));
                    }
                },
                None => {
                    done = true;
                },
            }
        }
        proof {
            lemma_build_final(
                s0,
                orig,
                crate::mempool::views_of(result@),
                crate::mempool::views_of(pool@),
            );
        }
        let number = self.system.block_number() + 1;
        let b = Block { header: Header { block_number: number }, extrinsics: result };
        proof {
            assert(b@.extrinsics =~= crate::mempool::views_of(b.extrinsics@));
        }
        b
    }
}

/// Executing a chain of blocks in order, from `s`.
pub open spec fn spec_apply_chain(s: StateView, blocks: Seq<BlockView>) -> StateView
    decreases blocks.len(),
{
    if blocks.len() == 0 {
        s
    } else {
        spec_apply_chain(spec_execute_block(s, blocks[0]).0, blocks.skip(1))
    }
}

/// Whether every block of the chain executes without a header mismatch.
pub open spec fn spec_chain_ok(s: StateView, blocks: Seq<BlockView>) -> bool
    decreases blocks.len(),
{
    blocks.len() == 0 || (spec_execute_block(s, blocks[0]).1 is Ok && spec_chain_ok(
        spec_execute_block(s, blocks[0]).0,
        blocks.skip(1),
    ))
}

/// After `k` successful block executions the height is the initial height
/// plus `k`.
pub proof fn lemma_chain_advances_height(s: StateView, blocks: Seq<BlockView>)
    requires
        spec_chain_ok(s, blocks),
        s.block_number + blocks.len() <= u32::MAX,
    ensures
        spec_apply_chain(s, blocks).block_number == s.block_number + blocks.len(),
    decreases blocks.len(),
{
    if blocks.len() > 0 {
        let s1 = spec_execute_block(s, blocks[0]).0;
        lemma_apply_extrinsics_keep_height(
            StateView { block_number: (s.block_number + 1) as u32, ..s },
            blocks[0].extrinsics,
        );
        lemma_chain_advances_height(s1, blocks.skip(1));
    }
}

/// Applying extrinsics never changes the height.
pub proof fn lemma_apply_extrinsics_keep_height(s: StateView, exts: Seq<ExtrinsicView>)
    ensures
        spec_apply_extrinsics(s, exts).block_number == s.block_number,
    decreases exts.len(),
{
    if exts.len() > 0 {
        lemma_apply_extrinsics_keep_height(spec_apply_extrinsic(s, exts[0]), exts.skip(1));
    }
}

/// An accepted extrinsic increments its signer's nonce by exactly one and
/// touches nobody else's; a skipped extrinsic touches no nonce at all.
pub proof fn lemma_extrinsic_nonce_increment(s: StateView, e: ExtrinsicView)
    requires
        e.nonce < u32::MAX,
    ensures
        spec_verify_extrinsic(e) is Ok && spec_nonce_of(s, e.signer) == e.nonce ==> spec_nonce_of(
            spec_apply_extrinsic(s, e),
            e.signer,
        ) == e.nonce + 1,
        spec_verify_extrinsic(e) is Ok && spec_nonce_of(s, e.signer) == e.nonce ==> forall|
            w: Seq<u8>,
        |
            w != e.signer ==> #[trigger] spec_nonce_of(spec_apply_extrinsic(s, e), w)
                == spec_nonce_of(s, w),
        !(spec_verify_extrinsic(e) is Ok && spec_nonce_of(s, e.signer) == e.nonce) ==> spec_apply_extrinsic(
            s,
            e,
        ).nonces == s.nonces,
{
}

/// Whether `e` would be accepted in state `s`: its signature verifies and
/// its nonce is the signer's current nonce.
pub open spec fn spec_accepted(s: StateView, e: ExtrinsicView) -> bool {
    spec_verify_extrinsic(e) is Ok && spec_nonce_of(s, e.signer) == e.nonce
}

/// How many extrinsics signed by `w` are accepted while applying `exts` in
/// order from `s` (acceptance is judged against the evolving state).
pub open spec fn spec_accepted_count(s: StateView, exts: Seq<ExtrinsicView>, w: Seq<u8>) -> int
    decreases exts.len(),
{
    if exts.len() == 0 {
        0
    } else {
        (if spec_accepted(s, exts[0]) && exts[0].signer == w {
            1int
        } else {
            0int
        }) + spec_accepted_count(spec_apply_extrinsic(s, exts[0]), exts.skip(1), w)
    }
}

/// Applying a batch of extrinsics moves every account's nonce up by exactly
/// the number of its accepted extrinsics: one increment per accepted
/// extrinsic, even when its dispatch fails, and none for a skipped one.
pub proof fn lemma_apply_extrinsics_nonce_accounting(
    s: StateView,
    exts: Seq<ExtrinsicView>,
    w: Seq<u8>,
)
    requires
        forall|i: int| 0 <= i < exts.len() ==> (#[trigger] exts[i]).nonce < u32::MAX,
    ensures
        spec_nonce_of(spec_apply_extrinsics(s, exts), w) as int == spec_nonce_of(s, w)
            + spec_accepted_count(s, exts, w),
    decreases exts.len(),
{
    if exts.len() > 0 {
        let s2 = spec_apply_extrinsic(s, exts[0]);
        assert(forall|i: int|
            0 <= i < exts.skip(1).len() ==> (#[trigger] exts.skip(1)[i]).nonce < u32::MAX);
        lemma_apply_extrinsics_nonce_accounting(s2, exts.skip(1), w);
        if spec_accepted(s, exts[0]) {
            assert(exts[0].nonce < u32::MAX);
            if exts[0].signer == w {
                assert(spec_nonce_of(s2, w) as int == spec_nonce_of(s, w) + 1);
            } else {
                assert(spec_nonce_of(s2, w) == spec_nonce_of(s, w));
            }
        } else {
            assert(s2 == s);
        }
    }
}

/// The per-block form: a block that executes without a header mismatch
/// moves every account's nonce up by exactly its number of accepted
/// extrinsics, in block order.
pub proof fn lemma_block_nonce_accounting(s: StateView, b: BlockView, w: Seq<u8>)
    requires
        spec_execute_block(s, b).1 is Ok,
        forall|i: int| 0 <= i < b.extrinsics.len() ==> (#[trigger] b.extrinsics[i]).nonce
            < u32::MAX,
    ensures
        spec_nonce_of(spec_execute_block(s, b).0, w) as int == spec_nonce_of(s, w)
            + spec_accepted_count(
            StateView { block_number: (s.block_number + 1) as u32, ..s },
            b.extrinsics,
            w,
        ),
{
    let s1 = StateView { block_number: (s.block_number + 1) as u32, ..s };
    lemma_apply_extrinsics_nonce_accounting(s1, b.extrinsics, w);
}

/// A transfer conserves the sum of the two balances involved and leaves
/// every other balance unchanged; a failed transfer, like a funded
/// self-transfer, leaves every balance unchanged.
pub proof fn lemma_transfer_moves_only_two(s: StateView, caller: Seq<u8>, to: Seq<u8>, amount: u128)
    ensures
        spec_dispatch(s, caller, CallView::Transfer { to, amount }).1 is Ok ==> {
            let s2 = spec_dispatch(s, caller, CallView::Transfer { to, amount }).0;
            &&& spec_balance_of(s2, caller) + spec_balance_of(s2, to) == spec_balance_of(s, caller)
                + spec_balance_of(s, to)
            &&& forall|w: Seq<u8>|
                w != caller && w != to ==> #[trigger] spec_balance_of(s2, w) == spec_balance_of(
                    s,
                    w,
                )
        },
        spec_dispatch(s, caller, CallView::Transfer { to, amount }).1 is Err ==> spec_dispatch(
            s,
            caller,
            CallView::Transfer { to, amount },
        ).0 == s,
{
}

/// The sum of the balances of a list of accounts.
pub open spec fn spec_sum_balances(keys: Seq<Seq<u8>>, s: StateView) -> int
    decreases keys.len(),
{
    if keys.len() == 0 {
        0
    } else {
        spec_balance_of(s, keys.last()) + spec_sum_balances(keys.drop_last(), s)
    }
}

/// How often a key occurs in a list of accounts.
pub open spec fn spec_key_count(keys: Seq<Seq<u8>>, k: Seq<u8>) -> int
    decreases keys.len(),
{
    if keys.len() == 0 {
        0
    } else {
        spec_key_count(keys.drop_last(), k) + if keys.last() == k {
            1int
        } else {
            0int
        }
    }
}

/// When only two balances move, by opposite amounts, a sum over any account
/// list changes by the amount times the difference of the two keys' counts.
proof fn lemma_sum_two_deltas(
    keys: Seq<Seq<u8>>,
    s1: StateView,
    s2: StateView,
    caller: Seq<u8>,
    to: Seq<u8>,
    amount: u128,
)
    requires
        caller != to,
        spec_balance_of(s2, caller) as int == spec_balance_of(s1, caller) - amount,
        spec_balance_of(s2, to) as int == spec_balance_of(s1, to) + amount,
        forall|w: Seq<u8>|
            w != caller && w != to ==> #[trigger] spec_balance_of(s2, w) == spec_balance_of(
                s1,
                w,
            ),
    ensures
        spec_sum_balances(keys, s2) == spec_sum_balances(keys, s1) - amount * spec_key_count(
            keys,
            caller,
        ) + amount * spec_key_count(keys, to),
    decreases keys.len(),
{
    if keys.len() == 0 {
    } else {
        lemma_sum_two_deltas(keys.drop_last(), s1, s2, caller, to, amount);
        let cc = spec_key_count(keys.drop_last(), caller);
        let ct = spec_key_count(keys.drop_last(), to);
        if keys.last() == caller {
            assert(amount * (cc + 1) == amount * cc + amount) by (nonlinear_arith);
        } else if keys.last() == to {
            assert(amount * (ct + 1) == amount * ct + amount) by (nonlinear_arith);
        } else {
            assert(spec_balance_of(s2, keys.last()) == spec_balance_of(s1, keys.last()));
        }
    }
}

/// The sum of all balances is invariant under any transfer: over any
/// enumeration of accounts that lists the sender and the recipient once
/// each, the total before and after is the same, whether the transfer
/// succeeded, failed, or was a self-transfer.
pub proof fn lemma_transfer_conserves_total(
    keys: Seq<Seq<u8>>,
    s: StateView,
    caller: Seq<u8>,
    to: Seq<u8>,
    amount: u128,
)
    requires
        spec_key_count(keys, caller) == 1,
        spec_key_count(keys, to) == 1,
    ensures
        spec_sum_balances(keys, spec_dispatch(s, caller, CallView::Transfer { to, amount }).0)
            == spec_sum_balances(keys, s),
{
    let s2 = spec_dispatch(s, caller, CallView::Transfer { to, amount }).0;
    if spec_dispatch(s, caller, CallView::Transfer { to, amount }).1 is Ok && caller != to
        && spec_balance_of(s, caller) >= amount {
        lemma_sum_two_deltas(keys, s, s2, caller, to, amount);
        assert(amount * 1int == amount) by (nonlinear_arith);
    } else {
        assert(s2 == s);
    }
}

/// Right after a successful claim creation the claim maps to its creator;
/// right after a successful revocation it is gone.
pub proof fn lemma_claim_lifecycle(s: StateView, who: Seq<u8>, claim: Seq<char>)
    ensures
        !s.claims.contains_key(claim) ==> {
            let s2 = spec_dispatch(s, who, CallView::CreateClaim { claim }).0;
            spec_dispatch(s, who, CallView::CreateClaim { claim }).1 is Ok
                && s2.claims.contains_key(claim) && s2.claims[claim] == who
        },
        s.claims.contains_key(claim) && s.claims[claim] == who ==> {
            let s2 = spec_dispatch(s, who, CallView::RevokeClaim { claim }).0;
            spec_dispatch(s, who, CallView::RevokeClaim { claim }).1 is Ok
                && !s2.claims.contains_key(claim)
        },
{
}

/// One development account's public key bytes.
pub open spec fn spec_dev_account(k: AccountKeyring) -> Seq<u8> {
    crate::crypto::ed25519_public_of(spec_seed(k))
}

/// The state after genesis funding on a fresh chain: the three development
/// accounts hold one million units each and the height is one.
pub open spec fn spec_genesis_state(s: StateView) -> StateView {
    StateView {
        block_number: 1u32,
        nonces: s.nonces,
        balances: s.balances.insert(spec_dev_account(AccountKeyring::Alice), 1000000).insert(
            spec_dev_account(AccountKeyring::Bob),
            1000000,
        ).insert(spec_dev_account(AccountKeyring::Charlie), 1000000),
        claims: s.claims,
    }
}

/// Seed the development accounts on a brand-new chain (height zero) and
/// execute the empty genesis block; a second call is a no-op.
pub fn maybe_apply_genesis<S: KeyValueStore>(runtime: &mut Runtime<S>)
    requires
        old(runtime).wf(),
    ensures
        final(runtime).wf(),
        old(runtime).state().block_number != 0 ==> final(runtime).state() == old(runtime).state(),
        old(runtime).state().block_number == 0 ==> final(runtime).state() == spec_genesis_state(
            old(runtime).state(),
        ),
{
    if runtime.system.block_number() != 0 {
        return ;
    }
    runtime.balances.set_balance(
        &mut runtime.store,
        &AccountKeyring::Alice.public(),
        1_000_000,
    );
    runtime.balances.set_balance(&mut runtime.store, &AccountKeyring::Bob.public(), 1_000_000);
    runtime.balances.set_balance(
        &mut runtime.store,
        &AccountKeyring::Charlie.public(),
        1_000_000,
    );
    let genesis = Block { header: Header { block_number: 1 }, extrinsics: Vec::new() };
    let ghost pre = runtime.state();
    proof {
        assert(genesis@.extrinsics =~= Seq::<ExtrinsicView>::empty());
    }
    match runtime.execute_block(genesis) {
        Ok(()) => {},
        Err(_) => {
            proof {
                assert(false);
            }
        },
    }
}

} // verus!
