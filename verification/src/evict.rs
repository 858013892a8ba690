//! Keeping the subpools within their limits.
//!
//! A subpool that is over its limit gives up its worst transaction together
//! with the later transactions of the same sender, again and again until it
//! is within the limit.

use crate::config::PoolConfig;
use crate::held::{
    entry_ok, holds_submission, in_order, lemma_holds_without_range, lemma_stats_empty,
    same_submission, same_submissions, without_range, HeldTx, SenderInfo,
};
use crate::ordering::TransactionOrdering;
use crate::state::SubPool;
use crate::txpool::{limit_kept, limit_of, limits_kept, TxPool};
use vstd::prelude::*;

verus! {

/// How far the nonce of a held transaction is above its sender's on-chain
/// nonce.
pub open spec fn nonce_distance(h: HeldTx, accounts: Seq<SenderInfo>) -> int {
    h.tx.nonce - accounts[h.id.sender.0 as int].state_nonce
}

/// Whether `a` has to leave `pool` before `b`.
///
/// * Pending: the lower rank goes first, of two with the same rank the one
///   submitted later.
/// * Base fee: the lower fee cap goes first, of two with the same fee cap the
///   one submitted later.
/// * Blob: the lower blob fee cap goes first, of two with the same blob fee
///   cap the one submitted later.
/// * Queued: the nonce further from the on-chain nonce goes first, of two
///   equally far the one submitted earlier.
pub open spec fn leaves_before(
    a: HeldTx,
    b: HeldTx,
    pool: SubPool,
    accounts: Seq<SenderInfo>,
) -> bool {
    match pool {
        SubPool::Pending => a.priority.level() < b.priority.level() || (a.priority.level()
            == b.priority.level() && a.submission_id > b.submission_id),
        SubPool::BaseFee => a.tx.max_fee_per_gas < b.tx.max_fee_per_gas || (a.tx.max_fee_per_gas
            == b.tx.max_fee_per_gas && a.submission_id > b.submission_id),
        SubPool::Blob => a.tx.spec_blob_fee_cap() < b.tx.spec_blob_fee_cap() || (
        a.tx.spec_blob_fee_cap() == b.tx.spec_blob_fee_cap() && a.submission_id > b.submission_id),
        SubPool::Queued => nonce_distance(a, accounts) > nonce_distance(b, accounts) || (
        nonce_distance(a, accounts) == nonce_distance(b, accounts) && a.submission_id
            < b.submission_id),
    }
}

/// The transaction at `w` is in `pool` and leaves it before any other.
pub open spec fn is_worst(txs: Seq<HeldTx>, accounts: Seq<SenderInfo>, pool: SubPool, w: int) -> bool {
    &&& 0 <= w < txs.len()
    &&& txs[w].subpool == pool
    &&& forall|j: int|
        0 <= j < txs.len() && j != w && (#[trigger] txs[j]).subpool == pool ==> leaves_before(
            txs[w],
            txs[j],
            pool,
            accounts,
        )
}

/// The places from `w` up to, not including, `e` hold the transaction at `w`
/// and every later transaction of its sender.
pub open spec fn is_tail_of_sender(txs: Seq<HeldTx>, w: int, e: int) -> bool {
    &&& 0 <= w < e <= txs.len()
    &&& forall|k: int| w <= k < e ==> (#[trigger] txs[k]).id.sender == txs[w].id.sender
    &&& e < txs.len() ==> txs[e].id.sender != txs[w].id.sender
}

/// `after` is `before` without the worst transaction of `pool` and the later
/// transactions of its sender, which are `removed`; `w` and `e` are the
/// places where they stood.
pub open spec fn evicts(
    before: Seq<HeldTx>,
    after: Seq<HeldTx>,
    removed: Seq<HeldTx>,
    accounts: Seq<SenderInfo>,
    pool: SubPool,
    w: int,
    e: int,
) -> bool {
    &&& is_worst(before, accounts, pool, w)
    &&& is_tail_of_sender(before, w, e)
    &&& removed == before.subrange(w, e)
    &&& same_submissions(without_range(before, w, e), after)
}

/// What `whole` holds is what `kept` holds together with what `gone` holds.
pub open spec fn splits_into(whole: Seq<HeldTx>, kept: Seq<HeldTx>, gone: Seq<HeldTx>) -> bool {
    forall|h: HeldTx| #[trigger]
        holds_submission(whole, h) <==> (holds_submission(kept, h) || holds_submission(gone, h))
}

/// The first subpool that is over its limit, in the order pending, base
/// fee, blob, queued.
pub open spec fn first_exceeded(txs: Seq<HeldTx>, config: PoolConfig) -> Option<SubPool> {
    if !limit_kept(txs, SubPool::Pending, config) {
        Some(SubPool::Pending)
    } else if !limit_kept(txs, SubPool::BaseFee, config) {
        Some(SubPool::BaseFee)
    } else if !limit_kept(txs, SubPool::Blob, config) {
        Some(SubPool::Blob)
    } else if !limit_kept(txs, SubPool::Queued, config) {
        Some(SubPool::Queued)
    } else {
        None
    }
}

/// No transaction of the sequence is in `pool`.
pub open spec fn subpool_is_empty(txs: Seq<HeldTx>, pool: SubPool) -> bool {
    forall|i: int| 0 <= i < txs.len() ==> (#[trigger] txs[i]).subpool != pool
}

/// Sequences with the same submissions at the same places hold the same
/// submissions.
pub proof fn lemma_holds_same_submissions(a: Seq<HeldTx>, b: Seq<HeldTx>, h: HeldTx)
    requires
        same_submissions(a, b),
    ensures
        holds_submission(a, h) == holds_submission(b, h),
{
    if holds_submission(a, h) {
        let i = choose|i: int| 0 <= i < a.len() && same_submission(#[trigger] a[i], h);
        assert(same_submission(a[i], b[i]));
        assert(same_submission(b[i], h));
    }
    if holds_submission(b, h) {
        let i = choose|i: int| 0 <= i < b.len() && same_submission(#[trigger] b[i], h);
        assert(same_submission(a[i], b[i]));
        assert(same_submission(a[i], h));
    }
}

/// What two sequences put one after the other hold is what the one or the
/// other holds.
pub proof fn lemma_holds_concat(a: Seq<HeldTx>, b: Seq<HeldTx>, h: HeldTx)
    ensures
        holds_submission(a + b, h) == (holds_submission(a, h) || holds_submission(b, h)),
{
    let c = a + b;
    if holds_submission(c, h) {
        let i = choose|i: int| 0 <= i < c.len() && same_submission(#[trigger] c[i], h);
        if i < a.len() {
            assert(c[i] == a[i]);
        } else {
            assert(c[i] == b[i - a.len()]);
        }
    }
    if holds_submission(a, h) {
        let i = choose|i: int| 0 <= i < a.len() && same_submission(#[trigger] a[i], h);
        assert(c[i] == a[i]);
    }
    if holds_submission(b, h) {
        let i = choose|i: int| 0 <= i < b.len() && same_submission(#[trigger] b[i], h);
        assert(c[i + a.len()] == b[i]);
    }
}

/// What a sequence holds is what a range of it holds or what is left
/// without that range.
pub proof fn lemma_holds_split(a: Seq<HeldTx>, start: int, end: int, h: HeldTx)
    requires
        0 <= start <= end <= a.len(),
    ensures
        holds_submission(a, h) == (holds_submission(without_range(a, start, end), h)
            || holds_submission(a.subrange(start, end), h)),
{
    lemma_holds_without_range(a, start, end, h);
    let r = a.subrange(start, end);
    if holds_submission(a, h) {
        let i = choose|i: int| 0 <= i < a.len() && same_submission(#[trigger] a[i], h);
        if start <= i < end {
            assert(r[i - start] == a[i]);
            assert(same_submission(r[i - start], h));
        }
    }
    if holds_submission(r, h) {
        let k = choose|k: int| 0 <= k < r.len() && same_submission(#[trigger] r[k], h);
        assert(r[k] == a[k + start]);
        assert(same_submission(a[k + start], h));
    }
}

/// The pool `b` is the pool `a` after the first subpool that is over its
/// limit has given up its worst transaction and the later ones of the same
/// sender, which are `removed`, and the rest was sorted into subpools anew.
pub open spec fn evicted_once<O: TransactionOrdering>(
    a: TxPool<O>,
    b: TxPool<O>,
    removed: Seq<HeldTx>,
) -> bool {
    &&& b.consistent()
    &&& b.same_surroundings(&a)
    &&& first_exceeded(a@, a.spec_config()) matches Some(pool) && exists|w: int, e: int| #[trigger]
        evicts(a@, b@, removed, a.accounts(), pool, w, e)
}

/// The pool `b` is the pool `a` with its limits enforced: as long as a
/// subpool is over its limit, the first such subpool gives up its worst
/// transaction and the later ones of the same sender. `removed` is what has
/// left, in the order in which it left.
pub open spec fn enforced<O: TransactionOrdering>(
    a: TxPool<O>,
    b: TxPool<O>,
    removed: Seq<HeldTx>,
) -> bool
    decreases a@.len(),
{
    if limits_kept(a@, a.spec_config()) {
        b@ == a@ && b.same_surroundings(&a) && removed.len() == 0
    } else {
        exists|mid: TxPool<O>, first: Seq<HeldTx>| #[trigger]
            evicted_once(a, mid, first) && mid@.len() < a@.len() && first.len() <= removed.len()
                && removed.subrange(0, first.len() as int) == first && enforced(
                mid,
                b,
                removed.subrange(first.len() as int, removed.len() as int),
            )
    }
}

/// Whatever comes of enforcing the limits of `cur` comes of enforcing the
/// limits of `origin`, with `done` having left before.
pub open spec fn continues<O: TransactionOrdering>(
    origin: TxPool<O>,
    cur: TxPool<O>,
    done: Seq<HeldTx>,
) -> bool {
    forall|target: TxPool<O>, rest: Seq<HeldTx>| #[trigger]
        enforced(cur, target, rest) ==> enforced(origin, target, done + rest)
}

/// One more step of enforcing the limits.
pub proof fn lemma_continues_step<O: TransactionOrdering>(
    origin: TxPool<O>,
    cur: TxPool<O>,
    next: TxPool<O>,
    done: Seq<HeldTx>,
    removed: Seq<HeldTx>,
)
    requires
        continues(origin, cur, done),
        !limits_kept(cur@, cur.spec_config()),
        evicted_once(cur, next, removed),
        next@.len() < cur@.len(),
    ensures
        continues(origin, next, done + removed),
{
    assert forall|target: TxPool<O>, rest: Seq<HeldTx>| #[trigger]
        enforced(next, target, rest) implies enforced(origin, target, (done + removed) + rest) by {
        let all = removed + rest;
        assert(all.subrange(0, removed.len() as int) =~= removed);
        assert(all.subrange(removed.len() as int, all.len() as int) =~= rest);
        assert(evicted_once(cur, next, removed) && next@.len() < cur@.len() && removed.len()
            <= all.len() && all.subrange(0, removed.len() as int) == removed && enforced(
            next,
            target,
            all.subrange(removed.len() as int, all.len() as int),
        ));
        assert(enforced(cur, target, all));
        assert(enforced(origin, target, done + all));
        assert(done + all =~= (done + removed) + rest);
    }
}

impl<O: TransactionOrdering> TxPool<O> {
    /// Whether the transaction at `a` has to leave `pool` before the one at `b`.
    fn leaves_before_at(&self, a: usize, b: usize, pool: SubPool) -> (r: bool)
        requires
            self.structural(),
            a < self@.len(),
            b < self@.len(),
        ensures
            r == leaves_before(self@[a as int], self@[b as int], pool, self.accounts()),
    {
        let x = self.txs[a];
        let y = self.txs[b];
        proof {
            assert(entry_ok(
                self@[a as int],
                self.sender_table()@,
                self.accounts(),
                self.spec_next_submission_id(),
            ));
            assert(entry_ok(
                self@[b as int],
                self.sender_table()@,
                self.accounts(),
                self.spec_next_submission_id(),
            ));
        }
        match pool {
            SubPool::Pending => {
                y.priority.gt(&x.priority) || (x.priority.eq_level(&y.priority) && x.submission_id
                    > y.submission_id)
            },
            SubPool::BaseFee => {
                x.tx.max_fee_per_gas < y.tx.max_fee_per_gas || (x.tx.max_fee_per_gas
                    == y.tx.max_fee_per_gas && x.submission_id > y.submission_id)
            },
            SubPool::Blob => {
                let fx = x.tx.blob_fee_cap();
                let fy = y.tx.blob_fee_cap();
                fx < fy || (fx == fy && x.submission_id > y.submission_id)
            },
            SubPool::Queued => {
                let dx: u64 = x.tx.nonce - self.accounts[x.id.sender.0 as usize].state_nonce;
                let dy: u64 = y.tx.nonce - self.accounts[y.id.sender.0 as usize].state_nonce;
                dx > dy || (dx == dy && x.submission_id < y.submission_id)
            },
        }
    }

    /// The place of the transaction that leaves `pool` before any other;
    /// `None` where the subpool is empty.
    pub fn worst(&self, pool: SubPool) -> (r: Option<usize>)
        requires
            self.structural(),
        ensures
            r matches Some(w) ==> is_worst(self@, self.accounts(), pool, w as int),
            r is None <==> subpool_is_empty(self@, pool),
    {
        let mut found: Option<usize> = None;
        let mut i: usize = 0;
        while i < self.txs.len()
            invariant
                i <= self.txs.len(),
                self.structural(),
                found is None ==> forall|k: int|
                    0 <= k < i ==> (#[trigger] self.txs@[k]).subpool != pool,
                found matches Some(w) ==> w < i && self.txs@[w as int].subpool == pool && forall|
                    j: int,
                |
                    0 <= j < i && j != w && (#[trigger] self.txs@[j]).subpool == pool
                        ==> leaves_before(self.txs@[w as int], self.txs@[j], pool, self.accounts@),
            decreases self.txs.len() - i,
        {
            if self.txs[i].subpool == pool {
                match found {
                    None => {
                        found = Some(i);
                    },
                    Some(w) => {
                        proof {
                            assert(in_order(self.txs@[w as int], self.txs@[i as int]));
                        }
                        if self.leaves_before_at(i, w, pool) {
                            found = Some(i);
                        }
                    },
                }
            }
            i = i + 1;
        }
        proof {
            if let Some(w) = found {
                assert(self@[w as int].subpool == pool);
            }
        }
        found
    }

    /// The first subpool that is over its limit, in the order pending, base
    /// fee, blob, queued; `None` where every subpool is within its limit.
    pub fn exceeded_subpool(&self) -> (r: Option<SubPool>)
        ensures
            r == first_exceeded(self@, self.spec_config()),
            r is None <==> limits_kept(self@, self.spec_config()),
            r matches Some(p) ==> !limit_kept(self@, p, self.spec_config()),
    {
        let (count, bytes) = self.subpool_stats(SubPool::Pending);
        if limit_of(&self.config, SubPool::Pending).is_exceeded(count, bytes) {
            return Some(SubPool::Pending);
        }
        let (count, bytes) = self.subpool_stats(SubPool::BaseFee);
        if limit_of(&self.config, SubPool::BaseFee).is_exceeded(count, bytes) {
            return Some(SubPool::BaseFee);
        }
        let (count, bytes) = self.subpool_stats(SubPool::Blob);
        if limit_of(&self.config, SubPool::Blob).is_exceeded(count, bytes) {
            return Some(SubPool::Blob);
        }
        let (count, bytes) = self.subpool_stats(SubPool::Queued);
        if limit_of(&self.config, SubPool::Queued).is_exceeded(count, bytes) {
            return Some(SubPool::Queued);
        }
        None
    }

    /// Whether any subpool is over its limit.
    pub fn is_exceeded(&self) -> (r: bool)
        ensures
            r == !limits_kept(self@, self.spec_config()),
    {
        self.exceeded_subpool().is_some()
    }

    /// Copies the transactions at the places from `start` up to, not
    /// including, `end`.
    pub(crate) fn copy_range(&self, start: usize, end: usize) -> (r: Vec<HeldTx>)
        requires
            start <= end <= self@.len(),
        ensures
            r@ == self@.subrange(start as int, end as int),
    {
        let mut out: Vec<HeldTx> = Vec::new();
        let mut k: usize = start;
        while k < end
            invariant
                start <= k <= end <= self.txs.len(),
                out@ == self.txs@.subrange(start as int, k as int),
            decreases end - k,
        {
            out.push(self.txs[k]);
            proof {
                assert(out@ =~= self.txs@.subrange(start as int, k as int + 1));
            }
            k = k + 1;
        }
        out
    }

    /// Takes the worst transaction of `pool` out of the pool, together with
    /// every later transaction of its sender, and sorts the rest into
    /// subpools anew. Returns what was taken out; nothing where the subpool
    /// is empty.
    pub fn discard_worst(&mut self, pool: SubPool) -> (removed: Vec<HeldTx>)
        requires
            old(self).consistent(),
        ensures
            final(self).consistent(),
            final(self).same_surroundings(old(self)),
            subpool_is_empty(old(self)@, pool) ==> removed@.len() == 0 && final(self)@ == old(self)@,
            !subpool_is_empty(old(self)@, pool) ==> exists|w: int, e: int| #[trigger]
                evicts(old(self)@, final(self)@, removed@, old(self).accounts(), pool, w, e),
    {
        match self.worst(pool) {
            None => Vec::new(),
            Some(w) => {
                let n = self.txs.len();
                let sender = self.txs[w].id.sender;
                let e = self.run_end(w + 1, sender);
                let removed = self.copy_range(w, e);
                self.remove_range(w, e);
                self.reclassify();
                proof {
                    assert(is_tail_of_sender(old(self)@, w as int, e as int));
                    assert(evicts(
                        old(self)@,
                        self@,
                        removed@,
                        old(self).accounts(),
                        pool,
                        w as int,
                        e as int,
                    ));
                    assert(!subpool_is_empty(old(self)@, pool)) by {
                        assert(old(self)@[w as int].subpool == pool);
                    }
                }
                removed
            },
        }
    }

    /// Takes transactions out of the pool until every subpool is within its
    /// limit: as long as one is over it, the first such subpool gives up its
    /// worst transaction and the later ones of the same sender. Returns what
    /// was taken out.
    pub fn enforce_limits(&mut self) -> (discarded: Vec<HeldTx>)
        requires
            old(self).consistent(),
        ensures
            final(self).wf(),
            final(self).same_surroundings(old(self)),
            limits_kept(old(self)@, old(self).spec_config()) ==> discarded@.len() == 0 && final(self)@ == old(self)@,
            final(self)@.len() + discarded@.len() == old(self)@.len(),
            splits_into(old(self)@, final(self)@, discarded@),
            enforced(*old(self), *final(self), discarded@),
    {
        let mut discarded: Vec<HeldTx> = Vec::new();
        let mut over = self.exceeded_subpool();
        proof {
            assert forall|target: TxPool<O>, rest: Seq<HeldTx>| #[trigger]
                enforced(*self, target, rest) implies enforced(
                *old(self),
                target,
                discarded@ + rest,
            ) by {
                assert(discarded@ + rest =~= rest);
            }
        }
        while over.is_some()
            invariant
                self.consistent(),
                self.same_surroundings(old(self)),
                over == first_exceeded(self@, self.spec_config()),
                over is None <==> limits_kept(self@, self.spec_config()),
                over matches Some(p) ==> !limit_kept(self@, p, self.spec_config()),
                limits_kept(old(self)@, old(self).spec_config()) ==> discarded@.len() == 0
                    && self@ == old(self)@,
                self@.len() + discarded@.len() == old(self)@.len(),
                splits_into(old(self)@, self@, discarded@),
                continues(*old(self), *self, discarded@),
            decreases self@.len(),
        {
            let pool = over.unwrap();
            let ghost before = self@;
            let ghost current = *self;
            let ghost before_discarded = discarded@;
            proof {
                if subpool_is_empty(before, pool) {
                    lemma_stats_empty(before, pool, before.len() as int);
                }
            }
            let mut removed = self.discard_worst(pool);
            proof {
                let (w, e) = choose|w: int, e: int| #[trigger]
                    evicts(before, self@, removed@, old(self).accounts(), pool, w, e);
                assert(removed@.len() == e - w);
                assert forall|h: HeldTx| #[trigger]
                    holds_submission(old(self)@, h) <==> (holds_submission(self@, h)
                        || holds_submission(before_discarded + removed@, h)) by {
                    lemma_holds_split(before, w, e, h);
                    lemma_holds_same_submissions(without_range(before, w, e), self@, h);
                    lemma_holds_concat(before_discarded, removed@, h);
                }
                assert(splits_into(old(self)@, self@, before_discarded + removed@));
                assert(evicted_once(current, *self, removed@));
                lemma_continues_step(*old(self), current, *self, before_discarded, removed@);
            }
            discarded.append(&mut removed);
            over = self.exceeded_subpool();
        }
        proof {
            assert(enforced(*self, *self, Seq::<HeldTx>::empty()));
            assert(discarded@ + Seq::<HeldTx>::empty() =~= discarded@);
        }
        discarded
    }
}

} // verus!
