//! Keeping the pool as its users see it in step with the chain, and taking
//! transactions out of it on request.

use crate::blobstore::BlobStore;
use crate::error::PoolResult;
use crate::evict::{lemma_holds_same_submissions, splits_into};
use crate::held::{holds_hash, holds_submission, same_submission, HeldTx};
use crate::intake::{batch_added, not_mined_upto};
use crate::maintain::{
    holds_none_of, order_retained, reconciled, CanonicalStateUpdate, ChangedAccount,
    OnNewCanonicalStateOutcome,
};
use crate::ordering::TransactionOrdering;
use crate::pool::{
    holds_blob_tx, lemma_hashes_after_removal, lemma_sidecars_after_removal, limits_enforced,
    settled, stores_none_of, AddedTransactionOutcome, Pool,
};
use crate::primitives::TxHash;
use crate::transaction::TransactionOrigin;
use crate::txpool::{BlockInfo, TxPool};
use crate::validate::{PoolTransaction, TransactionValidator};
use vstd::prelude::*;

verus! {

/// The pool `before` was brought in step with the new tip and then had its
/// limits enforced, which gave the pool `after`; `mined` is what was held
/// under the mined hashes, `discarded` what else has left.
pub open spec fn brought_in_step<T: TransactionOrdering>(
    before: TxPool<T>,
    after: TxPool<T>,
    update: CanonicalStateUpdate,
    mined: Seq<HeldTx>,
    discarded: Seq<HeldTx>,
) -> bool {
    exists|mid: TxPool<T>, overtaken: Seq<HeldTx>| #[trigger]
        reconciled(before, mid, update, mined, overtaken) && settled(
            mid,
            after,
            overtaken,
            discarded,
        )
}

/// The pool `before` lost the transactions under the hashes and then had
/// its limits enforced, which gave the pool `after`; `all_gone` is what has
/// left.
pub open spec fn removed_and_settled<T: TransactionOrdering>(
    before: TxPool<T>,
    after: TxPool<T>,
    hashes: Seq<TxHash>,
    all_gone: Seq<HeldTx>,
) -> bool {
    exists|mid: TxPool<T>, removed: Seq<HeldTx>| #[trigger]
        settled(mid, after, removed, all_gone) && mid.consistent() && mid.same_surroundings(&before)
            && crate::maintain::holds_all_but(before@, mid@, hashes) && splits_into(
            before@,
            mid@,
            removed,
        )
}

/// The pool `before` lost the transactions of the sender and then had its
/// limits enforced, which gave the pool `after`; `all_gone` is what has
/// left.
pub open spec fn sender_removed_and_settled<T: TransactionOrdering>(
    before: TxPool<T>,
    after: TxPool<T>,
    sender: crate::primitives::Address,
    all_gone: Seq<HeldTx>,
) -> bool {
    exists|mid: TxPool<T>, removed: Seq<HeldTx>| #[trigger]
        settled(mid, after, removed, all_gone) && mid.consistent() && mid.same_surroundings(&before)
            && crate::maintain::holds_all_but_sender(before@, mid@, sender) && splits_into(
            before@,
            mid@,
            removed,
        )
}

/// The pool `before` recorded the changed accounts, lost what they have
/// overtaken, and then had its limits enforced, which gave the pool
/// `after`; `all_gone` is what has left. What the pool knows of an account
/// that no change names is what it knew.
pub open spec fn accounts_updated_and_settled<T: TransactionOrdering>(
    before: TxPool<T>,
    after: TxPool<T>,
    changed: Seq<ChangedAccount>,
    all_gone: Seq<HeldTx>,
) -> bool {
    exists|mid: TxPool<T>, removed: Seq<HeldTx>| #[trigger]
        settled(mid, after, removed, all_gone) && mid.consistent() && mid.spec_block_info()
            == before.spec_block_info() && mid.spec_config() == before.spec_config()
            && mid.spec_ordering() == before.spec_ordering() && mid.spec_next_submission_id()
            == before.spec_next_submission_id() && crate::maintain::holds_the_current(
            before@,
            mid@,
            changed,
        ) && splits_into(before@, mid@, removed) && mid.accounts_recorded(changed)
            && before.accounts_kept(&mid, changed)
}

/// The pool `before` recorded the tip and the fees, sorted its
/// transactions into subpools anew, and then had its limits enforced, which
/// gave the pool `after`; `evicted` is what has left.
pub open spec fn block_info_set_and_settled<T: TransactionOrdering>(
    before: TxPool<T>,
    after: TxPool<T>,
    info: BlockInfo,
    evicted: Seq<HeldTx>,
) -> bool {
    exists|mid: TxPool<T>| #[trigger]
        limits_enforced(mid, after, evicted) && mid.consistent() && mid.spec_block_info() == info
            && crate::held::same_submissions(before@, mid@) && mid.sender_table()
            == before.sender_table() && mid.accounts() == before.accounts() && mid.spec_config()
            == before.spec_config() && mid.spec_ordering() == before.spec_ordering()
            && mid.spec_next_submission_id() == before.spec_next_submission_id()
}

/// What a new tip did to the pool, and what came of offering the
/// transactions of the blocks left behind to the pool again.
#[derive(Debug)]
pub struct ReorgOutcome {
    /// What the new tip did to the pool.
    pub outcome: OnNewCanonicalStateOutcome,
    /// What the pool said of each transaction that was offered again.
    pub readmitted: Vec<PoolResult<AddedTransactionOutcome>>,
    /// What had to go for the limits after the transactions were offered
    /// again.
    pub evicted: Vec<HeldTx>,
}

/// The pool `before` was brought in step with the new tip, which gave the
/// pool `mid`; then those of the `removed` transactions that are not among
/// the mined ones were offered to it again as transactions from the
/// network, which gave the pool `after`.
pub open spec fn stepped_then_offered<V, T, S>(
    before: Pool<V, T, S>,
    mid: Pool<V, T, S>,
    after: Pool<V, T, S>,
    update: CanonicalStateUpdate,
    removed: Seq<PoolTransaction>,
    r: ReorgOutcome,
) -> bool where V: TransactionValidator, T: TransactionOrdering, S: BlobStore {
    &&& mid.wf()
    &&& brought_in_step(
        before.spec_inner(),
        mid.spec_inner(),
        update,
        r.outcome.mined@,
        r.outcome.discarded@,
    )
    &&& batch_added(
        mid,
        after,
        TransactionOrigin::External,
        not_mined_upto(removed, update.mined_transactions@, removed.len() as int),
        r.readmitted@,
        r.evicted@,
    )
}

/// The pool `before` was brought in step with the new tip and then offered
/// again what the new chain has left behind, which gave the pool `after`.
pub open spec fn reorganized<V, T, S>(
    before: Pool<V, T, S>,
    after: Pool<V, T, S>,
    update: CanonicalStateUpdate,
    removed: Seq<PoolTransaction>,
    r: ReorgOutcome,
) -> bool where V: TransactionValidator, T: TransactionOrdering, S: BlobStore {
    exists|mid: Pool<V, T, S>| #[trigger]
        stepped_then_offered(before, mid, after, update, removed, r)
}

impl<V, T, S> Pool<V, T, S> where V: TransactionValidator, T: TransactionOrdering, S: BlobStore {
    /// Brings the pool in step with a new tip that has left blocks behind:
    /// first as `on_canonical_state_change` does, then the transactions of
    /// the blocks left behind are offered to the pool again as `readmit`
    /// does. Nothing under a mined hash is held or stored afterwards.
    pub fn on_reorg(&mut self, update: &CanonicalStateUpdate, removed: Vec<PoolTransaction>) -> (r:
        ReorgOutcome)
        requires
            old(self).wf(),
        ensures
            final(self).wf(),
            final(self).spec_validator() == old(self).spec_validator(),
            r.outcome.block_hash == update.block_hash,
            holds_none_of(final(self).spec_inner()@, update.mined_transactions@),
            stores_none_of(final(self).spec_blob_store().contents(), update.mined_transactions@),
            order_retained(old(self).spec_inner()@, final(self).spec_inner()@),
            reorganized(*old(self), *final(self), *update, removed@, r),
    {
        let outcome = self.on_canonical_state_change(update);
        let ghost mid = *self;
        let (readmitted, evicted) = self.readmit(removed, &update.mined_transactions);
        let r = ReorgOutcome { outcome, readmitted, evicted };
        proof {
            crate::maintain::lemma_order_retained(old(self).spec_inner()@, self.spec_inner()@);
            assert(stepped_then_offered(*old(self), mid, *self, *update, removed@, r));
        }
        r
    }

    /// Brings the pool in step with a new tip of the chain: see
    /// `reconciled` for what the new tip does to the pool of transactions.
    /// After that the limits of the subpools are enforced, and the sidecars
    /// of everything that has left the pool leave the store.
    pub fn on_canonical_state_change(&mut self, update: &CanonicalStateUpdate) -> (r:
        OnNewCanonicalStateOutcome)
        requires
            old(self).wf(),
        ensures
            final(self).wf(),
            final(self).spec_validator() == old(self).spec_validator(),
            final(self).spec_blob_store().contents().submap_of(
                old(self).spec_blob_store().contents(),
            ),
            r.block_hash == update.block_hash,
            holds_none_of(final(self).spec_inner()@, update.mined_transactions@),
            stores_none_of(final(self).spec_blob_store().contents(), update.mined_transactions@),
            order_retained(old(self).spec_inner()@, final(self).spec_inner()@),
            brought_in_step(
                old(self).spec_inner(),
                final(self).spec_inner(),
                *update,
                r.mined@,
                r.discarded@,
            ),
    {
        let ghost before = self.pool;
        let ghost contents = self.blob_store.contents();
        let outcome = self.pool.on_canonical_state_change(update);
        let ghost mid = self.pool;
        let ghost first = outcome.discarded@;
        let mined = outcome.mined;
        proof {
            lemma_sidecars_after_removal(before@, mid@, mined@ + first, contents);
            assert forall|hash: TxHash| #[trigger] contents.contains_key(hash) implies (holds_blob_tx(
                mid@,
                hash,
            ) || holds_blob_tx(mined@ + first, hash)) by {}
        }
        self.drop_sidecars(&mined, Ghost(first));
        let ghost kept = self.blob_store.contents();
        let all_gone = self.settle(outcome.discarded);
        proof {
            vstd::map_lib::lemma_submap_of_trans(self.blob_store.contents(), kept, contents);
            let evicted = choose|evicted: Seq<HeldTx>| #[trigger]
                limits_enforced(mid, self.pool, evicted) && all_gone@ == first + evicted;
            assert(settled(mid, self.pool, first, all_gone@));
            assert forall|k: int| 0 <= k < update.mined_transactions@.len() implies !holds_hash(
                self.pool@,
                #[trigger] update.mined_transactions@[k],
            ) by {
                lemma_hashes_after_removal(mid@, self.pool@, evicted, update.mined_transactions@[k]);
            }
            assert forall|k: int|
                0 <= k < update.mined_transactions@.len() implies !self.blob_store.contents().contains_key(
            #[trigger] update.mined_transactions@[k]) by {
                let hash = update.mined_transactions@[k];
                if self.blob_store.contents().contains_key(hash) {
                    assert(holds_blob_tx(self.pool@, hash) || holds_blob_tx(
                        Seq::<HeldTx>::empty(),
                        hash,
                    ));
                    let i = choose|i: int|
                        0 <= i < self.pool@.len() && (#[trigger] self.pool@[i]).tx.hash == hash
                            && self.pool@[i].tx.spec_is_eip4844();
                    assert(holds_hash(self.pool@, hash));
                }
            }
            crate::maintain::lemma_order_retained(before@, self.pool@);
            assert(reconciled(before, mid, *update, mined@, first));
            assert(brought_in_step(before, self.pool, *update, mined@, all_gone@));
        }
        OnNewCanonicalStateOutcome { block_hash: outcome.block_hash, mined, discarded: all_gone }
    }

    /// Tells the pool of a new tip and of the fees of the next block. Every
    /// transaction is sorted into its subpool anew, the limits are enforced,
    /// and the sidecars of what had to go leave the store. Returns what had
    /// to go.
    pub fn set_block_info(&mut self, info: BlockInfo) -> (evicted: Vec<HeldTx>)
        requires
            old(self).wf(),
        ensures
            final(self).wf(),
            final(self).spec_validator() == old(self).spec_validator(),
            final(self).spec_blob_store().contents().submap_of(
                old(self).spec_blob_store().contents(),
            ),
            final(self).spec_inner().spec_block_info() == info,
            block_info_set_and_settled(
                old(self).spec_inner(),
                final(self).spec_inner(),
                info,
                evicted@,
            ),
    {
        let ghost before = self.pool;
        let ghost contents = self.blob_store.contents();
        self.pool.set_block_info(info);
        let ghost mid = self.pool;
        proof {
            assert(splits_into(before@, mid@, Seq::<HeldTx>::empty())) by {
                assert forall|h: HeldTx| #[trigger]
                    holds_submission(before@, h) <==> (holds_submission(mid@, h)
                        || holds_submission(Seq::<HeldTx>::empty(), h)) by {
                    lemma_holds_same_submissions(before@, mid@, h);
                }
            }
            lemma_sidecars_after_removal(before@, mid@, Seq::<HeldTx>::empty(), contents);
        }
        let evicted = self.settle(Vec::new());
        proof {
            let out = choose|out: Seq<HeldTx>| #[trigger]
                limits_enforced(mid, self.pool, out) && evicted@ == Seq::<HeldTx>::empty() + out;
            assert(evicted@ =~= out);
            assert(limits_enforced(mid, self.pool, evicted@));
        }
        evicted
    }

    /// Records what the chain says of the accounts. The transactions that
    /// the accounts have overtaken leave the pool, the rest is sorted into
    /// subpools anew, the limits are enforced, and the sidecars of what has
    /// left leave the store. Returns what has left.
    pub fn update_accounts(&mut self, accounts: &Vec<ChangedAccount>) -> (all_gone: Vec<HeldTx>)
        requires
            old(self).wf(),
        ensures
            final(self).wf(),
            final(self).spec_validator() == old(self).spec_validator(),
            final(self).spec_blob_store().contents().submap_of(
                old(self).spec_blob_store().contents(),
            ),
            accounts_updated_and_settled(
                old(self).spec_inner(),
                final(self).spec_inner(),
                accounts@,
                all_gone@,
            ),
    {
        let ghost before = self.pool;
        let ghost contents = self.blob_store.contents();
        let removed = self.pool.update_accounts(accounts);
        let ghost mid = self.pool;
        let ghost first = removed@;
        proof {
            lemma_sidecars_after_removal(before@, mid@, first, contents);
        }
        let all_gone = self.settle(removed);
        proof {
            assert(settled(mid, self.pool, first, all_gone@));
        }
        all_gone
    }

    /// Takes the transactions with the given hashes out of the pool. The
    /// rest is sorted into subpools anew, the limits are enforced, and the
    /// sidecars of what has left leave the store. Returns what has left.
    pub fn remove_transactions(&mut self, hashes: &Vec<TxHash>) -> (all_gone: Vec<HeldTx>)
        requires
            old(self).wf(),
        ensures
            final(self).wf(),
            final(self).spec_validator() == old(self).spec_validator(),
            final(self).spec_blob_store().contents().submap_of(
                old(self).spec_blob_store().contents(),
            ),
            holds_none_of(final(self).spec_inner()@, hashes@),
            removed_and_settled(
                old(self).spec_inner(),
                final(self).spec_inner(),
                hashes@,
                all_gone@,
            ),
    {
        let ghost before = self.pool;
        let ghost contents = self.blob_store.contents();
        let removed = self.pool.remove_transactions(hashes);
        let ghost mid = self.pool;
        let ghost first = removed@;
        proof {
            lemma_sidecars_after_removal(before@, mid@, first, contents);
        }
        let all_gone = self.settle(removed);
        proof {
            assert(settled(mid, self.pool, first, all_gone@));
            let evicted = choose|evicted: Seq<HeldTx>| #[trigger]
                limits_enforced(mid, self.pool, evicted) && all_gone@ == first + evicted;
            assert forall|k: int| 0 <= k < hashes@.len() implies !holds_hash(
                self.pool@,
                #[trigger] hashes@[k],
            ) by {
                let hash = hashes@[k];
                lemma_hashes_after_removal(mid@, self.pool@, evicted, hash);
                if holds_hash(mid@, hash) {
                    let i = choose|i: int| 0 <= i < mid@.len() && (#[trigger] mid@[i]).tx.hash == hash;
                    assert(same_submission(mid@[i], mid@[i]));
                    assert(holds_submission(mid@, mid@[i]));
                    assert(hashes@.contains(mid@[i].tx.hash));
                }
            }
        }
        all_gone
    }

    /// Takes every transaction of the sender out of the pool. The rest is
    /// sorted into subpools anew, the limits are enforced, and the sidecars
    /// of what has left leave the store. Returns what has left.
    pub fn remove_transactions_by_sender(&mut self, sender: &crate::primitives::Address) -> (all_gone:
        Vec<HeldTx>)
        requires
            old(self).wf(),
        ensures
            final(self).wf(),
            final(self).spec_validator() == old(self).spec_validator(),
            final(self).spec_blob_store().contents().submap_of(
                old(self).spec_blob_store().contents(),
            ),
            sender_removed_and_settled(
                old(self).spec_inner(),
                final(self).spec_inner(),
                *sender,
                all_gone@,
            ),
    {
        let ghost before = self.pool;
        let ghost contents = self.blob_store.contents();
        let removed = self.pool.remove_transactions_by_sender(sender);
        let ghost mid = self.pool;
        let ghost first = removed@;
        proof {
            lemma_sidecars_after_removal(before@, mid@, first, contents);
        }
        let all_gone = self.settle(removed);
        proof {
            assert(settled(mid, self.pool, first, all_gone@));
        }
        all_gone
    }
}

} // verus!
