//! The mempool: a bounded FIFO of pending extrinsics with an optional
//! capacity cap and an optional block-fill watermark.

use std::collections::VecDeque;
use vstd::prelude::*;

use crate::account::AccountId32;
use crate::extrinsic::UncheckedExtrinsic;

verus! {

/// Returned by `submit` when the pool is at capacity.
#[derive(Debug)]
pub struct MempoolFull;

/// The pending-extrinsic FIFO.  Its mathematical value is the sequence of
/// pending entries, oldest first.
#[derive(Debug)]
pub struct Mempool<T> {
    pending: VecDeque<T>,
    max_capacity: Option<usize>,
    block_limit: Option<usize>,
}

impl<T> Mempool<T> {
    /// The pending entries, oldest first.
    pub closed spec fn pending_view(&self) -> Seq<T> {
        self.pending@
    }

    /// The capacity cap, if one was set.
    pub closed spec fn spec_max_capacity(&self) -> Option<usize> {
        self.max_capacity
    }

    /// The block-fill watermark, if one was set.
    pub closed spec fn spec_block_limit(&self) -> Option<usize> {
        self.block_limit
    }

    /// An unbounded pool.
    pub fn new() -> (r: Self)
        ensures
            r.pending_view() == Seq::<T>::empty(),
            r.spec_max_capacity() is None,
            r.spec_block_limit() is None,
    {
        Mempool { pending: VecDeque::new(), max_capacity: None, block_limit: None }
    }

    /// A pool that rejects new entries once `max_len` are pending.
    pub fn with_capacity(max_len: usize) -> (r: Self)
        ensures
            r.pending_view() == Seq::<T>::empty(),
            r.spec_max_capacity() == Some(max_len),
            r.spec_block_limit() is None,
    {
        Mempool { pending: VecDeque::new(), max_capacity: Some(max_len), block_limit: None }
    }

    /// A pool that signals block-seal once `block_limit` entries are
    /// pending.
    pub fn with_block_limit(block_limit: usize) -> (r: Self)
        ensures
            r.pending_view() == Seq::<T>::empty(),
            r.spec_max_capacity() is None,
            r.spec_block_limit() == Some(block_limit),
    {
        Mempool { pending: VecDeque::new(), max_capacity: None, block_limit: Some(block_limit) }
    }

    /// Whether enough entries have accumulated to fill a block.
    pub fn is_block_ready(&self) -> (r: bool)
        ensures
            r == match self.spec_block_limit() {
                Some(limit) => self.pending_view().len() >= limit,
                None => false,
            },
    {
        match self.block_limit {
            Some(limit) => self.pending.len() >= limit,
            None => false,
        }
    }

    /// The block-fill watermark.
    pub fn block_limit(&self) -> (r: Option<usize>)
        ensures
            r == self.spec_block_limit(),
    {
        self.block_limit
    }

    /// The pending entries, oldest first, for read-only iteration.
    pub fn pending_extrinsics(&self) -> (r: Vec<&T>)
        ensures
            r@.len() == self.pending_view().len(),
            forall|i: int| 0 <= i < r@.len() ==> *(#[trigger] r@[i]) == self.pending_view()[i],
    {
        let n: usize = self.pending.len();
        let mut out: Vec<&T> = Vec::new();
        let mut i: usize = 0;
        while i < n
            invariant
                i <= n,
                n == self.pending@.len(),
                out@.len() == i,
                forall|j: int| 0 <= j < i ==> *(#[trigger] out@[j]) == self.pending@[j],
            decreases n - i,
        {
            out.push(&self.pending[i]);
            i += 1;
        }
        out
    }

    /// Add an entry at the back, unless the pool is at capacity.
    pub fn submit(&mut self, ext: T) -> (r: Result<(), MempoolFull>)
        ensures
            final(self).spec_max_capacity() == old(self).spec_max_capacity(),
            final(self).spec_block_limit() == old(self).spec_block_limit(),
            match old(self).spec_max_capacity() {
                Some(max) => old(self).pending_view().len() >= max,
                None => false,
            } ==> r is Err && final(self).pending_view() == old(self).pending_view(),
            !match old(self).spec_max_capacity() {
                Some(max) => old(self).pending_view().len() >= max,
                None => false,
            } ==> r is Ok && final(self).pending_view() == old(self).pending_view().push(ext),
    {
        match self.max_capacity {
            Some(max) => {
                if self.pending.len() >= max {
                    return Err(MempoolFull);
                }
            },
            None => {},
        }
        self.pending.push_back(ext);
        Ok(())
    }

    /// Take up to `n` entries from the front, oldest first: exactly the `n`
    /// oldest pending entries, in insertion order.
    #[verifier::loop_isolation(false)]
    pub fn drain_for_block(&mut self, n: usize) -> (r: Vec<T>)
        ensures
            final(self).spec_max_capacity() == old(self).spec_max_capacity(),
            final(self).spec_block_limit() == old(self).spec_block_limit(),
            r@ == old(self).pending_view().take(
                if n <= old(self).pending_view().len() {
                    n as int
                } else {
                    old(self).pending_view().len() as int
                },
            ),
            final(self).pending_view() == old(self).pending_view().skip(
                if n <= old(self).pending_view().len() {
                    n as int
                } else {
                    old(self).pending_view().len() as int
                },
            ),
    {
        let total: usize = self.pending.len();
        let limit: usize = if n <= total {
            n
        } else {
            total
        };
        let mut exts: Vec<T> = Vec::new();
        let mut i: usize = 0;
        while i < limit
            invariant
                i <= limit,
                self.max_capacity == old(self).max_capacity,
                self.block_limit == old(self).block_limit,
                exts@.len() == i,
                exts@ + self.pending@ == old(self).pending@,
            decreases limit - i,
        {
            match self.pending.pop_front() {
                Some(ext) => {
                    exts.push(ext);
                    proof {
                        assert(exts@ + self.pending@ =~= old(self).pending@);
                    }
                },
                None => {
                    proof {
                        assert(false);
                    }
                },
            }
            i += 1;
        }
        proof {
            assert(exts@ =~= old(self).pending@.take(limit as int));
            assert(self.pending@ =~= old(self).pending@.skip(limit as int));
        }
        exts
    }

    /// Remove and return the entry at `index`, if it exists.
    pub fn remove(&mut self, index: usize) -> (r: Option<T>)
        ensures
            final(self).spec_max_capacity() == old(self).spec_max_capacity(),
            final(self).spec_block_limit() == old(self).spec_block_limit(),
            index < old(self).pending_view().len() ==> r == Some(
                old(self).pending_view()[index as int],
            ) && final(self).pending_view() == old(self).pending_view().remove(index as int),
            index >= old(self).pending_view().len() ==> r is None && final(self).pending_view()
                == old(self).pending_view(),
    {
        if index < self.pending.len() {
            self.pending.remove(index)
        } else {
            None
        }
    }

    /// The number of pending entries.
    pub fn len(&self) -> (r: usize)
        ensures
            r == self.pending_view().len(),
    {
        self.pending.len()
    }

    /// Whether nothing is pending.
    pub fn is_empty(&self) -> (r: bool)
        ensures
            r == (self.pending_view().len() == 0),
    {
        self.pending.len() == 0
    }

    /// The subsequence of `s` selected by a same-length boolean mask, in
    /// order.
    pub open spec fn mask_filter(s: Seq<T>, keep: Seq<bool>) -> Seq<T>
        decreases s.len(),
    {
        if s.len() == 0 {
            Seq::empty()
        } else if keep.len() == s.len() && keep.last() {
            Self::mask_filter(s.drop_last(), keep.drop_last()).push(s.last())
        } else {
            Self::mask_filter(s.drop_last(), keep.drop_last())
        }
    }

    /// `newv` is exactly the subsequence of `oldv` selected by `keep`, in
    /// the old order, and `keep` records what `f` returned on each entry.
    pub open spec fn retained_by<F: Fn(&T) -> bool>(
        oldv: Seq<T>,
        newv: Seq<T>,
        f: F,
        keep: Seq<bool>,
    ) -> bool {
        &&& keep.len() == oldv.len()
        &&& newv == Self::mask_filter(oldv, keep)
        &&& forall|i: int|
            0 <= i < oldv.len() ==> #[trigger] call_ensures(f, (&oldv[i],), keep[i])
    }

    /// One run of `f` over the old entries, recorded as a mask, produced
    /// the new entries: the new queue is the in-order subsequence of the
    /// old one whose entries `f` accepted, and every dropped entry is one
    /// `f` rejected.
    pub open spec fn spec_retained<F: Fn(&T) -> bool>(oldv: Seq<T>, newv: Seq<T>, f: F) -> bool {
        exists|keep: Seq<bool>| Self::retained_by(oldv, newv, f, keep)
    }

    /// Keep only the entries `f` accepts, preserving their order; every
    /// dropped entry is one `f` rejected.
    #[verifier::loop_isolation(false)]
    pub fn retain<F: Fn(&T) -> bool>(&mut self, f: F)
        requires
            forall|x: &T| call_requires(f, (x,)),
        ensures
            final(self).spec_max_capacity() == old(self).spec_max_capacity(),
            final(self).spec_block_limit() == old(self).spec_block_limit(),
            final(self).pending_view().len() <= old(self).pending_view().len(),
            Self::spec_retained(old(self).pending_view(), final(self).pending_view(), f),
    {
        let n: usize = self.pending.len();
        let mut kept: VecDeque<T> = VecDeque::new();
        let ghost mut keepg: Seq<bool> = Seq::empty();
        let mut i: usize = 0;
        proof {
            assert(old(self).pending@.take(0) =~= Seq::<T>::empty());
            assert(kept@ =~= Seq::<T>::empty());
        }
        while i < n
            invariant
                i <= n,
                n == old(self).pending@.len(),
                self.pending@ == old(self).pending@.skip(i as int),
                self.max_capacity == old(self).max_capacity,
                self.block_limit == old(self).block_limit,
                kept@.len() <= i,
                keepg.len() == i,
                kept@ == Self::mask_filter(old(self).pending@.take(i as int), keepg),
                forall|k: int|
                    0 <= k < i ==> #[trigger] call_ensures(f, (&old(self).pending@[k],), keepg[k]),
            decreases n - i,
        {
            match self.pending.pop_front() {
                Some(ext) => {
                    proof {
                        assert(old(self).pending@.skip(i as int)[0] == old(self).pending@[i as int]);
                        assert(old(self).pending@.skip(i as int).skip(1) =~= old(
                            self,
                        ).pending@.skip(i + 1));
                    }
                    let keep_it = f(&ext);
                    let ghost pre_keepg = keepg;
                    if keep_it {
                        kept.push_back(ext);
                    }
                    proof {
                        keepg = keepg.push(keep_it);
                        let t1 = old(self).pending@.take(i + 1);
                        assert(t1.drop_last() =~= old(self).pending@.take(i as int));
                        assert(keepg.drop_last() =~= pre_keepg);
                        assert(t1.last() == old(self).pending@[i as int]);
                        assert(kept@ == Self::mask_filter(t1, keepg));
                        assert forall|k: int|
                            0 <= k < i + 1 implies #[trigger] call_ensures(
                            f,
                            (&old(self).pending@[k],),
                            keepg[k],
                        ) by {
                            if k < i {
                                assert(keepg[k] == pre_keepg[k]);
                            } else {
                                assert(keepg[k] == keep_it);
                            }
                        }
                    }
                },
                None => {
                    proof {
                        assert(false);
                    }
                },
            }
            i += 1;
        }
        proof {
            assert(old(self).pending@.take(n as int) =~= old(self).pending@);
        }
        self.pending = kept;
        proof {
            assert(Self::retained_by(old(self).pending@, self.pending@, f, keepg));
            assert(Self::spec_retained(old(self).pending@, self.pending@, f));
        }
    }
}

/// The views of a sequence of extrinsics.
pub open spec fn views_of(s: Seq<UncheckedExtrinsic>) -> Seq<crate::extrinsic::ExtrinsicView> {
    s.map_values(|e: UncheckedExtrinsic| e@)
}

impl Mempool<UncheckedExtrinsic> {
    /// How many pending extrinsics carry `who`'s signature; the RPC nonce
    /// answer adds this to the runtime nonce.
    pub fn pending_from(&self, who: &AccountId32) -> (r: usize)
        ensures
            r as int == crate::runtime::spec_count_signer(
                views_of(self.pending_view()),
                who@,
                self.pending_view().len() as int,
            ),
    {
        let n: usize = self.pending.len();
        let mut cnt: usize = 0;
        let mut j: usize = 0;
        while j < n
            invariant
                j <= n,
                n == self.pending@.len(),
                cnt <= j,
                cnt as int == crate::runtime::spec_count_signer(
                    views_of(self.pending@),
                    who@,
                    j as int,
                ),
            decreases n - j,
        {
            if self.pending[j].signer == *who {
                cnt += 1;
            }
            j += 1;
        }
        cnt
    }

    /// Evict every pending extrinsic whose `(signer, nonce)` pair was
    /// included in an applied peer block, so this node does not seal a
    /// duplicate.
    #[verifier::loop_isolation(false)]
    pub fn evict_included(&mut self, included: &Vec<(AccountId32, u32)>)
        ensures
            final(self).spec_max_capacity() == old(self).spec_max_capacity(),
            final(self).spec_block_limit() == old(self).spec_block_limit(),
            views_of(final(self).pending_view()) == views_of(old(self).pending_view()).filter(
                |e: crate::extrinsic::ExtrinsicView|
                    !exists|k: int|
                        0 <= k < included@.len() && (#[trigger] included@[k]).0@ == e.signer
                            && included@[k].1 == e.nonce,
            ),
    {
        let ghost pred = |e: crate::extrinsic::ExtrinsicView|
            !exists|k: int|
                0 <= k < included@.len() && (#[trigger] included@[k]).0@ == e.signer
                    && included@[k].1 == e.nonce;
        let n: usize = self.pending.len();
        let mut kept: VecDeque<UncheckedExtrinsic> = VecDeque::new();
        let mut i: usize = 0;
        while i < n
            invariant
                i <= n,
                n == old(self).pending@.len(),
                self.pending@ == old(self).pending@.skip(i as int),
                self.max_capacity == old(self).max_capacity,
                self.block_limit == old(self).block_limit,
                views_of(kept@) == views_of(old(self).pending@.take(i as int)).filter(pred),
            decreases n - i,
        {
            match self.pending.pop_front() {
                Some(ext) => {
                    proof {
                        assert(old(self).pending@.skip(i as int)[0] == old(self).pending@[i as int]);
                        assert(old(self).pending@.skip(i as int).skip(1) =~= old(
                            self,
                        ).pending@.skip(i + 1));
                    }
                    let ghost ev = ext@;
                    let mut hit = false;
                    let m: usize = included.len();
                    let mut k: usize = 0;
                    while k < m
                        invariant
                            k <= m,
                            m == included@.len(),
                            hit <==> exists|a: int|
                                0 <= a < k && (#[trigger] included@[a]).0@ == ev.signer
                                    && included@[a].1 == ev.nonce,
                            ext@ == ev,
                        decreases m - k,
                    {
                        if included[k].0 == ext.signer && included[k].1 == ext.nonce {
                            proof {
                                assert((included@[k as int]).0@ == ev.signer);
                            }
                            hit = true;
                        }
                        k += 1;
                    }
                    proof {
                        assert(hit <==> !pred(ev));
                        let prev = views_of(old(self).pending@.take(i as int));
                        let cur = views_of(old(self).pending@.take(i + 1));
                        assert(cur.drop_last() =~= prev) by {
                            assert(old(self).pending@.take(i + 1).drop_last() =~= old(
                                self,
                            ).pending@.take(i as int));
                        }
                        assert(cur.last() == ev) by {
                            assert(old(self).pending@.take(i + 1).last() == old(
                                self,
                            ).pending@[i as int]);
                        }
                        reveal_with_fuel(Seq::filter, 2);
                        assert(cur.filter(pred) == if pred(ev) {
                            prev.filter(pred).push(ev)
                        } else {
                            prev.filter(pred)
                        });
                    }
                    if !hit {
                        kept.push_back(ext);
                        proof {
                            assert(views_of(kept@) =~= views_of(old(self).pending@.take(i + 1)).filter(
                                pred,
                            ));
                        }
                    } else {
                        proof {
                            assert(views_of(kept@) =~= views_of(old(self).pending@.take(i + 1)).filter(
                                pred,
                            ));
                        }
                    }
                },
                None => {
                    proof {
                        assert(false);
                    }
                },
            }
            i += 1;
        }
        proof {
            assert(old(self).pending@.take(n as int) =~= old(self).pending@);
        }
        self.pending = kept;
    }
}

} // verus!
