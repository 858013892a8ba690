//! Taking transactions into the pool as its users see it: what the
//! validator has passed on goes into the pool of transactions, and the
//! sidecar of a blob transaction into the store.

use crate::blobstore::{BlobAndProofView, BlobStore, BlobTransactionSidecar};
use crate::error::{
    BlobStoreError, Eip4844PoolTransactionError, InvalidPoolTransactionError, PoolError,
    PoolErrorKind, PoolResult,
};
use crate::evict::splits_into;
use crate::held::{
    holds_hash, holds_submission, same_submission, strictly_ordered, HeldTx, SenderInfo,
};
use crate::insert::{refusal, AddedTransaction};
use crate::maintain::holds_none_of;
use crate::ordering::TransactionOrdering;
use crate::pool::{
    holds_blob_tx, lemma_hashes_after_removal, lemma_holds_blob_tx_concat, limits_enforced,
    sidecars_kept, sidecars_match, sidecars_owned, stores_none_of, AddedTransactionOutcome, Pool,
};
use crate::primitives::{TxHash, U256};
use crate::transaction::{TransactionOrigin, Tx};
use crate::txpool::TxPool;
use crate::validate::{
    outcome_of, PoolTransaction, TransactionValidationOutcome, TransactionValidator,
    ValidTransaction,
};
use vstd::prelude::*;

verus! {

/// The transaction of a validated outcome and the sidecar that came with
/// it.
pub open spec fn spec_sidecar(valid: ValidTransaction) -> Option<BlobTransactionSidecar> {
    match valid {
        ValidTransaction::Valid(_) => None,
        ValidTransaction::ValidWithSidecar { sidecar, .. } => Some(sidecar),
    }
}

/// Why the pool refuses what the validator has passed on, before anything
/// is changed: the validator's own refusal; a blob transaction without
/// sidecar; or one of the reasons that `refusal` lists.
pub open spec fn early_refusal<T: TransactionOrdering>(
    pool: TxPool<T>,
    origin: TransactionOrigin,
    outcome: TransactionValidationOutcome,
) -> Option<PoolErrorKind> {
    match outcome {
        TransactionValidationOutcome::Invalid(_, e) => Some(PoolErrorKind::InvalidTransaction(e)),
        TransactionValidationOutcome::Error(_) => Some(PoolErrorKind::ValidationUnavailable),
        TransactionValidationOutcome::Valid { state_nonce, transaction, .. } => {
            let tx = transaction.spec_transaction();
            if tx.spec_is_eip4844() && spec_sidecar(transaction) is None {
                Some(
                    PoolErrorKind::InvalidTransaction(
                        InvalidPoolTransactionError::Eip4844(
                            Eip4844PoolTransactionError::MissingEip4844BlobSidecar,
                        ),
                    ),
                )
            } else {
                refusal(
                    pool@,
                    pool.sender_table(),
                    pool.spec_next_submission_id(),
                    pool.spec_config(),
                    tx,
                    origin,
                    state_nonce,
                )
            }
        },
    }
}

/// What the store holds after the pool took the transaction is of what it
/// held before and the sidecar that came with a blob transaction: under
/// the hash of the transaction stands that sidecar, under any other hash
/// what stood there before.
pub open spec fn stored_after(
    before: Map<TxHash, Seq<BlobAndProofView>>,
    after: Map<TxHash, Seq<BlobAndProofView>>,
    tx: Tx,
    sidecar: Option<BlobTransactionSidecar>,
) -> bool {
    after.submap_of(
        if tx.spec_is_eip4844() {
            match sidecar {
                Some(s) => before.insert(tx.hash, s@),
                None => before,
            }
        } else {
            before
        },
    )
}

/// The sidecar that came with a blob transaction stands in the store under
/// the hash of the transaction.
pub open spec fn sidecar_stands(
    contents: Map<TxHash, Seq<BlobAndProofView>>,
    tx: Tx,
    sidecar: Option<BlobTransactionSidecar>,
) -> bool {
    tx.spec_is_eip4844() ==> (sidecar matches Some(s) && contents.contains_key(tx.hash)
        && contents[tx.hash] == s@)
}

/// A blob transaction that the pool holds has its sidecar in the store, and
/// where the store holds of what it held before and the sidecar that came
/// with the transaction, it is that sidecar.
pub proof fn lemma_sidecar_stands(
    txs: Seq<HeldTx>,
    before: Map<TxHash, Seq<BlobAndProofView>>,
    after: Map<TxHash, Seq<BlobAndProofView>>,
    tx: Tx,
    sidecar: Option<BlobTransactionSidecar>,
    i: int,
)
    requires
        sidecars_kept(txs, after),
        stored_after(before, after, tx, sidecar),
        0 <= i < txs.len(),
        txs[i].tx == tx,
        tx.spec_is_eip4844() ==> sidecar is Some,
    ensures
        sidecar_stands(after, tx, sidecar),
{
    if tx.spec_is_eip4844() {
        assert(holds_blob_tx(txs, tx.hash));
        assert(after.dom().contains(tx.hash));
        let with_new = before.insert(tx.hash, sidecar->0@);
        assert(after.submap_of(with_new));
        assert(with_new.dom().contains(tx.hash));
        assert(after[tx.hash] == with_new[tx.hash]);
    }
}

/// The pool `before` took the transaction, which gave the pool `mid` and
/// the account of it in `added`, and then enforced its limits, which gave
/// the pool `after`. What is still held of any other sender is held as it
/// was.
pub open spec fn took<T: TransactionOrdering>(
    before: TxPool<T>,
    mid: TxPool<T>,
    after: TxPool<T>,
    tx: Tx,
    origin: TransactionOrigin,
    propagate: bool,
    info: SenderInfo,
    added: AddedTransaction,
    evicted: Seq<HeldTx>,
) -> bool {
    &&& before.admitted(&mid, tx, origin, propagate, info, added)
    &&& mid.consistent()
    &&& limits_enforced(mid, after, evicted)
    &&& before.keeps_other_senders(&after, added.transaction.id.sender)
}

impl<V, T, S> Pool<V, T, S> where V: TransactionValidator, T: TransactionOrdering, S: BlobStore {
    /// What the pool does with what the validator has passed on, before it
    /// looks at its limits.
    ///
    /// Where `early_refusal` gives a reason, the pool refuses for that
    /// reason and nothing changes. Else the sidecar of a blob transaction
    /// goes into the store; where the store refuses it, the pool refuses the
    /// transaction and nothing changes. Else the pool takes the transaction
    /// as `admitted` says.
    pub open spec fn validated_taken(
        &self,
        after: &Self,
        origin: TransactionOrigin,
        outcome: TransactionValidationOutcome,
        r: PoolResult<AddedTransaction>,
    ) -> bool {
        let hash = outcome.spec_tx_hash();
        match early_refusal(self.spec_inner(), origin, outcome) {
            Some(kind) => r == Err::<AddedTransaction, PoolError>(PoolError { hash, kind })
                && self.unchanged(after),
            None => match r {
                Err(e) => self.store_refused(after, outcome, e),
                Ok(added) => added.transaction.tx.hash == hash && (
                outcome matches TransactionValidationOutcome::Valid {
                    balance,
                    state_nonce,
                    transaction,
                    propagate,
                    ..
                } && self.spec_inner().admitted(
                    &after.spec_inner(),
                    transaction.spec_transaction(),
                    origin,
                    propagate,
                    SenderInfo { state_nonce, balance },
                    added,
                ) && stored_after(
                    self.spec_blob_store().contents(),
                    after.spec_blob_store().contents(),
                    transaction.spec_transaction(),
                    spec_sidecar(transaction),
                ) && sidecar_stands(
                    after.spec_blob_store().contents(),
                    transaction.spec_transaction(),
                    spec_sidecar(transaction),
                )),
            },
        }
    }

    /// The store has refused the sidecar of a blob transaction for a reason
    /// of its own, and the pool has refused the transaction with the
    /// store's error; nothing has changed. A transaction without blobs is
    /// never refused so.
    pub open spec fn store_refused(
        &self,
        after: &Self,
        outcome: TransactionValidationOutcome,
        e: PoolError,
    ) -> bool {
        outcome matches TransactionValidationOutcome::Valid { transaction, .. } && {
            &&& transaction.spec_transaction().spec_is_eip4844()
            &&& spec_sidecar(transaction) is Some
            &&& e.hash == outcome.spec_tx_hash()
            &&& e.kind matches PoolErrorKind::BlobStore(err) && self.spec_blob_store().may_fail_with(
                err,
            )
            &&& self.unchanged(after)
        }
    }

    /// What the pool does with what the validator has passed on.
    ///
    /// The pool refuses or takes the transaction as `validated_taken` says.
    /// Where it has taken it, it enforces its limits. Where the transaction
    /// is then no longer held, the pool reports that it was discarded; else
    /// it reports the subpool of the transaction, what the transaction has
    /// replaced and what else has left the pool.
    pub open spec fn validated_added(
        &self,
        after: &Self,
        origin: TransactionOrigin,
        outcome: TransactionValidationOutcome,
        r: PoolResult<AddedTransactionOutcome>,
    ) -> bool {
        let hash = outcome.spec_tx_hash();
        match early_refusal(self.spec_inner(), origin, outcome) {
            Some(kind) => r == Err::<AddedTransactionOutcome, PoolError>(PoolError { hash, kind })
                && self.unchanged(after),
            None => match r {
                Err(e) => e.hash == hash && (self.store_refused(after, outcome, e) || (e.kind
                    == PoolErrorKind::DiscardedOnInsert && !holds_hash(after.spec_inner()@, hash)
                    && self.spec_took(after, origin, outcome))),
                Ok(out) => {
                    &&& out.hash == hash
                    &&& self.took_and_reported(after, origin, outcome, out)
                    &&& exists|i: int|
                        0 <= i < after.spec_inner()@.len() && (#[trigger] after.spec_inner()@[i]).tx.hash
                            == hash && after.spec_inner()@[i].subpool == out.subpool
                },
            },
        }
    }

    /// The pool took the transaction of a valid outcome and enforced its
    /// limits, and `out` reports it: the transaction that gave way, and
    /// everything that has left the pool on this occasion, first what left
    /// when the transaction was taken, then what had to go for the limits.
    pub open spec fn took_and_reported(
        &self,
        after: &Self,
        origin: TransactionOrigin,
        outcome: TransactionValidationOutcome,
        out: AddedTransactionOutcome,
    ) -> bool {
        outcome matches TransactionValidationOutcome::Valid {
            balance,
            state_nonce,
            transaction,
            propagate,
            ..
        } && stored_after(
            self.spec_blob_store().contents(),
            after.spec_blob_store().contents(),
            transaction.spec_transaction(),
            spec_sidecar(transaction),
        ) && sidecar_stands(
            after.spec_blob_store().contents(),
            transaction.spec_transaction(),
            spec_sidecar(transaction),
        ) && exists|mid: TxPool<T>, added: AddedTransaction, evicted: Seq<HeldTx>| #[trigger]
            took(
                self.spec_inner(),
                mid,
                after.spec_inner(),
                transaction.spec_transaction(),
                origin,
                propagate,
                SenderInfo { state_nonce, balance },
                added,
                evicted,
            ) && out.replaced == added.replaced && out.discarded@ == spec_departed(added) + evicted
    }

    /// The pool took the transaction of a valid outcome and enforced its
    /// limits.
    pub open spec fn spec_took(
        &self,
        after: &Self,
        origin: TransactionOrigin,
        outcome: TransactionValidationOutcome,
    ) -> bool {
        outcome matches TransactionValidationOutcome::Valid {
            balance,
            state_nonce,
            transaction,
            propagate,
            ..
        } && stored_after(
            self.spec_blob_store().contents(),
            after.spec_blob_store().contents(),
            transaction.spec_transaction(),
            spec_sidecar(transaction),
        ) && exists|mid: TxPool<T>, added: AddedTransaction, evicted: Seq<HeldTx>| #[trigger]
            took(
                self.spec_inner(),
                mid,
                after.spec_inner(),
                transaction.spec_transaction(),
                origin,
                propagate,
                SenderInfo { state_nonce, balance },
                added,
                evicted,
            )
    }

    /// What the pool does once the store has answered: `stored` is what the
    /// store said when the sidecar of a blob transaction was handed to it,
    /// and `Ok` for a transaction without blobs, of which the store is not
    /// asked. Where the store refused, the pool refuses the transaction with
    /// the store's error and nothing changes. Else the pool takes the
    /// transaction as `admitted` says, and the sidecars of what has left the
    /// pool leave the store.
    ///
    /// Nothing refuses the transaction beforehand, and the store holds a
    /// sidecar under its hash if and only if it is a blob transaction whose
    /// sidecar the store took.
    pub fn take_stored(
        &mut self,
        origin: TransactionOrigin,
        tx: Tx,
        propagate: bool,
        balance: U256,
        state_nonce: u64,
        stored: Result<(), BlobStoreError>,
    ) -> (r: PoolResult<AddedTransaction>)
        requires
            old(self).spec_inner().consistent(),
            old(self).spec_blob_store().wf(),
            refusal(
                old(self).spec_inner()@,
                old(self).spec_inner().sender_table(),
                old(self).spec_inner().spec_next_submission_id(),
                old(self).spec_inner().spec_config(),
                tx,
                origin,
                state_nonce,
            ) is None,
            sidecars_match(
                old(self).spec_inner()@,
                old(self).spec_blob_store().contents().remove(tx.hash),
            ),
            old(self).spec_blob_store().contents().contains_key(tx.hash) == (stored is Ok
                && tx.spec_is_eip4844()),
        ensures
            final(self).consistent(),
            final(self).spec_validator() == old(self).spec_validator(),
            match stored {
                Err(e) => r == Err::<AddedTransaction, PoolError>(
                    PoolError { hash: tx.hash, kind: PoolErrorKind::BlobStore(e) },
                ) && old(self).unchanged(final(self)),
                Ok(_) => r matches Ok(added) && added.transaction.tx.hash == tx.hash && old(
                    self,
                ).spec_inner().admitted(
                    &final(self).spec_inner(),
                    tx,
                    origin,
                    propagate,
                    SenderInfo { state_nonce, balance },
                    added,
                ) && final(self).spec_blob_store().contents().submap_of(
                    old(self).spec_blob_store().contents(),
                ),
            },
    {
        let ghost stored_contents = self.blob_store.contents();
        let ghost contents = stored_contents.remove(tx.hash);
        match stored {
            Err(e) => {
                proof {
                    assert(contents =~= stored_contents);
                }
                Err(PoolError::new(tx.hash, PoolErrorKind::BlobStore(e)))
            },
            Ok(_) => {
                let ghost before = self.pool;
                match self.pool.add_transaction(tx, origin, propagate, balance, state_nonce) {
                    Err(e) => Err(e),
                    Ok(added) => {
                        let ghost mid = self.pool;
                        let gone = departed(&added);
                        proof {
                            assert(splits_into(mid@, mid@, Seq::<HeldTx>::empty())) by {
                                assert forall|h: HeldTx| #[trigger]
                                    holds_submission(mid@, h) <==> (holds_submission(mid@, h)
                                        || holds_submission(Seq::<HeldTx>::empty(), h)) by {}
                            }
                            lemma_sidecars_after_taking(
                                before@,
                                mid@,
                                mid@,
                                added.transaction,
                                added.replaced,
                                added.stale@,
                                gone@,
                                Seq::empty(),
                                state_nonce,
                                contents,
                                stored_contents,
                            );
                            assert(gone@ + Seq::<HeldTx>::empty() =~= gone@);
                        }
                        self.drop_sidecars(&gone, Ghost(Seq::empty()));
                        Ok(added)
                    },
                }
            },
        }
    }

    /// Takes what the validator has passed on into the pool without
    /// looking at the limits of the subpools; see `validated_taken`.
    pub fn take_validated(&mut self, origin: TransactionOrigin, outcome: TransactionValidationOutcome) -> (r:
        PoolResult<AddedTransaction>)
        requires
            old(self).consistent(),
        ensures
            final(self).consistent(),
            final(self).spec_validator() == old(self).spec_validator(),
            old(self).validated_taken(final(self), origin, outcome, r),
    {
        match outcome {
            TransactionValidationOutcome::Invalid(tx, e) => Err(
                PoolError::new(tx.hash, PoolErrorKind::InvalidTransaction(e)),
            ),
            TransactionValidationOutcome::Error(hash) => Err(
                PoolError::new(hash, PoolErrorKind::ValidationUnavailable),
            ),
            TransactionValidationOutcome::Valid {
                balance,
                state_nonce,
                bytecode_hash,
                transaction,
                propagate,
                authorities,
            } => {
                let (tx, sidecar) = match transaction {
                    ValidTransaction::Valid(tx) => (tx, None),
                    ValidTransaction::ValidWithSidecar { transaction, sidecar } => (
                        transaction,
                        Some(sidecar),
                    ),
                };
                let blob = tx.is_eip4844();
                if blob && sidecar.is_none() {
                    return Err(
                        PoolError::new(
                            tx.hash,
                            PoolErrorKind::InvalidTransaction(
                                InvalidPoolTransactionError::Eip4844(
                                    Eip4844PoolTransactionError::MissingEip4844BlobSidecar,
                                ),
                            ),
                        ),
                    );
                }
                if let Some(kind) = self.pool.check_admission(&tx, origin, state_nonce) {
                    return Err(PoolError::new(tx.hash, kind));
                }
                let ghost contents = self.blob_store.contents();
                let ghost sidecar_view = sidecar;
                let stored: Result<(), BlobStoreError> = if blob {
                    match sidecar {
                        Some(data) => self.blob_store.insert(tx.hash, data),
                        None => Ok(()),
                    }
                } else {
                    Ok(())
                };
                proof {
                    assert(!contents.contains_key(tx.hash)) by {
                        if contents.contains_key(tx.hash) {
                            assert(holds_blob_tx(self.pool@, tx.hash) || holds_blob_tx(
                                Seq::<HeldTx>::empty(),
                                tx.hash,
                            ));
                            let i = choose|i: int|
                                0 <= i < self.pool@.len() && (#[trigger] self.pool@[i]).tx.hash
                                    == tx.hash && self.pool@[i].tx.spec_is_eip4844();
                            assert(holds_hash(self.pool@, tx.hash));
                        }
                    }
                    assert(self.blob_store.contents().remove(tx.hash) =~= contents);
                }
                let ghost mid = *self;
                let r = self.take_stored(origin, tx, propagate, balance, state_nonce, stored);
                proof {
                    if r is Ok {
                        let held = r->Ok_0.transaction;
                        assert(self.blob_store.contents().submap_of(mid.blob_store.contents()));
                        let i = choose|i: int|
                            0 <= i < self.pool@.len() && #[trigger] self.pool@[i] == held;
                        lemma_sidecar_stands(
                            self.pool@,
                            contents,
                            self.blob_store.contents(),
                            tx,
                            sidecar_view,
                            i,
                        );
                    }
                }
                r
            },
        }
    }

    /// Takes what the validator has passed on into the pool; see
    /// `validated_added`.
    pub fn add_validated(&mut self, origin: TransactionOrigin, outcome: TransactionValidationOutcome) -> (r:
        PoolResult<AddedTransactionOutcome>)
        requires
            old(self).wf(),
        ensures
            final(self).wf(),
            final(self).spec_validator() == old(self).spec_validator(),
            old(self).validated_added(final(self), origin, outcome, r),
    {
        let ghost before = self.pool;
        let ghost first = self.blob_store.contents();
        let ghost seen = outcome;
        match self.take_validated(origin, outcome) {
            Err(e) => Err(e),
            Ok(added) => {
                let ghost mid = self.pool;
                let ghost stored = self.blob_store.contents();
                let hash = added.transaction.tx.hash;
                let mut gone = departed(&added);
                let mut evicted = self.settle(Vec::new());
                let ghost out = choose|out: Seq<HeldTx>| #[trigger]
                    limits_enforced(mid, self.pool, out) && evicted@ == Seq::<HeldTx>::empty() + out;
                proof {
                    assert(evicted@ =~= out);
                    match seen {
                        TransactionValidationOutcome::Valid {
                            balance,
                            state_nonce,
                            transaction,
                            propagate,
                            ..
                        } => {
                            lemma_took_keeps_others(
                                before,
                                mid,
                                self.pool,
                                added.transaction,
                                state_nonce,
                                out,
                            );
                            assert(took(
                                before,
                                mid,
                                self.pool,
                                transaction.spec_transaction(),
                                origin,
                                propagate,
                                SenderInfo { state_nonce, balance },
                                added,
                                out,
                            ));
                            assert(stored_after(
                                first,
                                self.blob_store.contents(),
                                transaction.spec_transaction(),
                                spec_sidecar(transaction),
                            )) by {
                                let tx = transaction.spec_transaction();
                                let with_new = if tx.spec_is_eip4844() {
                                    match spec_sidecar(transaction) {
                                        Some(s) => first.insert(tx.hash, s@),
                                        None => first,
                                    }
                                } else {
                                    first
                                };
                                assert(stored.submap_of(with_new));
                                vstd::map_lib::lemma_submap_of_trans(
                                    self.blob_store.contents(),
                                    stored,
                                    with_new,
                                );
                            }
                        },
                        _ => {},
                    }
                }
                gone.append(&mut evicted);
                proof {
                    assert(gone@ =~= spec_departed(added) + out);
                }
                match self.pool.get(&hash) {
                    Some(now) => {
                        let reported = AddedTransactionOutcome {
                            hash,
                            subpool: now.subpool,
                            replaced: added.replaced,
                            discarded: gone,
                        };
                        proof {
                            match seen {
                                TransactionValidationOutcome::Valid {
                                    balance,
                                    state_nonce,
                                    transaction,
                                    propagate,
                                    ..
                                } => {
                                    assert(took(
                                        before,
                                        mid,
                                        self.pool,
                                        transaction.spec_transaction(),
                                        origin,
                                        propagate,
                                        SenderInfo { state_nonce, balance },
                                        added,
                                        out,
                                    ) && reported.replaced == added.replaced && reported.discarded@
                                        == spec_departed(added) + out);
                                    let i = choose|i: int|
                                        0 <= i < self.pool@.len() && #[trigger] self.pool@[i]
                                            == now;
                                    assert(self.pool@[i].tx.hash == hash);
                                    assert(holds_hash(mid@, hash));
                                    lemma_held_under_hash(
                                        mid@,
                                        self.pool@,
                                        out,
                                        added.transaction,
                                        i,
                                    );
                                    lemma_sidecar_stands(
                                        self.pool@,
                                        first,
                                        self.blob_store.contents(),
                                        transaction.spec_transaction(),
                                        spec_sidecar(transaction),
                                        i,
                                    );
                                    assert(old(self).took_and_reported(self, origin, seen, reported));
                                },
                                _ => {},
                            }
                        }
                        Ok(reported)
                    },
                    None => Err(PoolError::new(hash, PoolErrorKind::DiscardedOnInsert)),
                }
            },
        }
    }

    /// Checks a transaction and, where it is found valid, takes it into the
    /// pool; see `validated_added` for what the pool does with what the
    /// validator says.
    pub fn add_transaction(&mut self, origin: TransactionOrigin, transaction: PoolTransaction) -> (r:
        PoolResult<AddedTransactionOutcome>)
        requires
            old(self).wf(),
        ensures
            final(self).wf(),
            final(self).spec_validator() == old(self).spec_validator(),
            old(self).added(final(self), origin, transaction, r),
    {
        let outcome = self.validator.validate_transaction(origin, transaction);
        let ghost seen = outcome;
        let r = self.add_validated(origin, outcome);
        proof {
            assert(outcome_of(old(self).spec_validator(), origin, transaction, seen));
            assert(old(self).validated_added(self, origin, seen, r));
        }
        r
    }

    /// The validator was asked of the transaction with the origin, and the
    /// pool did with the transaction what `validated_added` says of what
    /// the validator said.
    pub open spec fn added(
        &self,
        after: &Self,
        origin: TransactionOrigin,
        transaction: PoolTransaction,
        r: PoolResult<AddedTransactionOutcome>,
    ) -> bool {
        exists|outcome: TransactionValidationOutcome|
            outcome_of(self.spec_validator(), origin, transaction, outcome)
                && #[trigger] self.validated_added(after, origin, outcome, r)
    }

    /// Checks the transactions one after the other and takes those that are
    /// found valid into the pool, then enforces the limits of the subpools
    /// once. The results come in the order of the transactions; with them
    /// comes what had to go for the limits.
    ///
    /// A transaction that the pool took and no longer holds at the end is
    /// reported as discarded.
    pub fn add_transactions(&mut self, origin: TransactionOrigin, transactions: Vec<PoolTransaction>) -> (r: (
        Vec<PoolResult<AddedTransactionOutcome>>,
        Vec<HeldTx>,
    ))
        requires
            old(self).wf(),
        ensures
            final(self).wf(),
            final(self).spec_validator() == old(self).spec_validator(),
            r.0@.len() == transactions@.len(),
            forall|k: int|
                0 <= k < r.0@.len() ==> reported(
                    final(self).spec_inner()@,
                    transactions@[k].transaction.hash,
                    #[trigger] r.0@[k],
                ),
            holds_only(
                old(self).spec_inner()@,
                final(self).spec_inner()@,
                transactions@,
                transactions@.len() as int,
            ),
            batch_added(*old(self), *final(self), origin, transactions@, r.0@, r.1@),
    {
        let ghost given = transactions@;
        let ghost offered = transactions@;
        let n = transactions.len();
        proof {
            assert forall|target: Pool<V, T, S>, rest: Seq<PoolResult<AddedTransaction>>| #[trigger]
                taken_in_turn(*self, target, origin, offered.subrange(0, offered.len() as int), rest) implies taken_in_turn(
                *self,
                target,
                origin,
                offered,
                Seq::<PoolResult<AddedTransaction>>::empty() + rest,
            ) by {
                assert(offered.subrange(0, offered.len() as int) =~= offered);
                assert(Seq::<PoolResult<AddedTransaction>>::empty() + rest =~= rest);
            }
        }
        let mut rest = reverse(transactions);
        let mut taken: Vec<PoolResult<AddedTransaction>> = Vec::new();
        while rest.len() > 0
            invariant
                self.consistent(),
                self.spec_validator() == old(self).spec_validator(),
                n == given.len(),
                rest@.len() + taken@.len() == n,
                offered == given,
                batch_continues(*old(self), *self, origin, offered, taken@.len() as int, taken@),
                holds_only(old(self).pool@, self.pool@, given, taken@.len() as int),
                forall|j: int| 0 <= j < rest@.len() ==> rest@[j] == given[n - 1 - j],
                forall|k: int|
                    0 <= k < taken@.len() ==> result_hash(#[trigger] taken@[k])
                        == given[k].transaction.hash && !is_discarded(taken@[k]),
            decreases rest.len(),
        {
            let ghost k = taken@.len() as int;
            match rest.pop() {
                Some(t) => {
                    let ghost hash = t.transaction.hash;
                    let ghost before = *self;
                    let ghost done = taken@;
                    let outcome = self.validator.validate_transaction(origin, t);
                    let ghost seen = outcome;
                    let r = self.take_validated(origin, outcome);
                    proof {
                        assert(before.validated_taken(self, origin, seen, r));
                        assert(offered[k] == t);
                        assert(outcome_of(before.spec_validator(), origin, t, seen));
                        assert(taken_once(before, *self, origin, offered[k], seen, r));
                        lemma_batch_step(*old(self), before, *self, origin, offered, k, done, seen, r);
                        assert(result_hash(r) == hash);
                        assert(!is_discarded(r));
                        assert(given[k].transaction.hash == hash);
                        assert forall|x: TxHash| #[trigger]
                            holds_hash(self.pool@, x) implies holds_hash(old(self).pool@, x)
                            || exists|j: int|
                            0 <= j < k + 1 && j < given.len() && (#[trigger] given[j]).transaction.hash
                                == x by {
                            match r {
                                Ok(added) => {
                                    match seen {
                                        TransactionValidationOutcome::Valid { state_nonce, .. } => {
                                            lemma_hashes_after_admission(
                                                before.pool@,
                                                self.pool@,
                                                added.transaction,
                                                state_nonce,
                                                x,
                                            );
                                        },
                                        _ => {},
                                    }
                                },
                                Err(_) => {},
                            }
                            if holds_hash(before.pool@, x) && !holds_hash(old(self).pool@, x) {
                                let j = choose|j: int|
                                    0 <= j < k && j < given.len() && (
                                    #[trigger] given[j]).transaction.hash == x;
                                assert(0 <= j < k + 1 && given[j].transaction.hash == x);
                            }
                        }
                    }
                    taken.push(r);
                },
                None => {},
            }
        }
        let ghost unsettled = self.pool;
        let ghost mid = *self;
        proof {
            assert(offered.subrange(n as int, offered.len() as int) =~= Seq::<PoolTransaction>::empty());
            assert(taken_in_turn(
                mid,
                mid,
                origin,
                offered.subrange(n as int, offered.len() as int),
                Seq::<PoolResult<AddedTransaction>>::empty(),
            ));
            assert(taken@ + Seq::<PoolResult<AddedTransaction>>::empty() =~= taken@);
            assert(taken_in_turn(*old(self), mid, origin, offered, taken@));
        }
        let evicted = self.settle(Vec::new());
        proof {
            let out = choose|out: Seq<HeldTx>| #[trigger]
                limits_enforced(unsettled, self.pool, out) && evicted@ == Seq::<HeldTx>::empty()
                    + out;
            assert(evicted@ =~= out);
            assert forall|x: TxHash| #[trigger]
                holds_hash(self.pool@, x) implies holds_hash(old(self).pool@, x) || exists|j: int|
                0 <= j < n && j < given.len() && (#[trigger] given[j]).transaction.hash == x by {
                lemma_hashes_after_removal(unsettled@, self.pool@, out, x);
            }
        }
        let mut results: Vec<PoolResult<AddedTransactionOutcome>> = Vec::new();
        let mut k: usize = 0;
        while k < taken.len()
            invariant
                k <= taken.len(),
                taken@.len() == n,
                n == given.len(),
                results@.len() == k,
                self.wf(),
                forall|j: int|
                    0 <= j < results@.len() ==> report_matches(
                        self.pool@,
                        taken@[j],
                        #[trigger] results@[j],
                    ),
                holds_only(old(self).pool@, self.pool@, given, n as int),
                forall|j: int|
                    0 <= j < taken@.len() ==> result_hash(#[trigger] taken@[j])
                        == given[j].transaction.hash && !is_discarded(taken@[j]),
                forall|j: int|
                    0 <= j < results@.len() ==> reported(
                        self.pool@,
                        given[j].transaction.hash,
                        #[trigger] results@[j],
                    ),
            decreases taken.len() - k,
        {
            let ghost hash = given[k as int].transaction.hash;
            proof {
                assert(result_hash(taken@[k as int]) == hash && !is_discarded(taken@[k as int]));
            }
            let result = match &taken[k] {
                Err(e) => Err(PoolError::new(e.hash, e.kind)),
                Ok(added) => {
                    let hash = added.transaction.tx.hash;
                    match self.pool.get(&hash) {
                        Some(now) => {
                            proof {
                                let i = choose|i: int|
                                    0 <= i < self.pool@.len() && #[trigger] self.pool@[i] == now;
                                let f = crate::query::first_place_of_hash(self.pool@, hash, 0);
                                crate::query::lemma_first_place_is_a_place(self.pool@, hash, 0, i);
                                crate::held::lemma_unique_position(self.pool@, f, i);
                            }
                            Ok(
                                AddedTransactionOutcome {
                                    hash,
                                    subpool: now.subpool,
                                    replaced: added.replaced,
                                    discarded: departed(added),
                                },
                            )
                        },
                        None => Err(PoolError::new(hash, PoolErrorKind::DiscardedOnInsert)),
                    }
                },
            };
            results.push(result);
            k = k + 1;
        }
        (results, evicted)
    }

    /// Offers the transactions of blocks that are no longer part of the
    /// chain to the pool again, as transactions from the network. A
    /// transaction under one of the hashes in `mined` is passed over: the
    /// chain has it still. The others are offered in their order, as
    /// `add_transactions` offers them, and returned is what that says of
    /// them.
    pub fn readmit(&mut self, removed: Vec<PoolTransaction>, mined: &Vec<TxHash>) -> (r: (
        Vec<PoolResult<AddedTransactionOutcome>>,
        Vec<HeldTx>,
    ))
        requires
            old(self).wf(),
        ensures
            final(self).wf(),
            final(self).spec_validator() == old(self).spec_validator(),
            holds_none_of(old(self).spec_inner()@, mined@) ==> holds_none_of(
                final(self).spec_inner()@,
                mined@,
            ) && stores_none_of(final(self).spec_blob_store().contents(), mined@),
            r.0@.len() == not_mined_upto(removed@, mined@, removed@.len() as int).len(),
            batch_added(
                *old(self),
                *final(self),
                TransactionOrigin::External,
                not_mined_upto(removed@, mined@, removed@.len() as int),
                r.0@,
                r.1@,
            ),
    {
        let ghost all = removed@;
        let mut rest = reverse(removed);
        let mut offered: Vec<PoolTransaction> = Vec::new();
        while rest.len() > 0
            invariant
                rest@.len() <= all.len(),
                forall|j: int| 0 <= j < rest@.len() ==> rest@[j] == all[all.len() - 1 - j],
                offered@ == not_mined_upto(all, mined@, all.len() - rest@.len()),
                forall|j: int|
                    0 <= j < offered@.len() ==> !mined@.contains(
                        (#[trigger] offered@[j]).transaction.hash,
                    ),
            decreases rest.len(),
        {
            let ghost k = all.len() - rest@.len();
            match rest.pop() {
                Some(t) => {
                    assert(t == all[k]);
                    if !crate::maintain::hash_in(mined, &t.transaction.hash) {
                        offered.push(t);
                    }
                },
                None => {},
            }
        }
        let ghost given = offered@;
        let r = self.add_transactions(TransactionOrigin::External, offered);
        proof {
            if holds_none_of(old(self).pool@, mined@) {
                assert forall|k: int| 0 <= k < mined@.len() implies !holds_hash(
                    self.pool@,
                    #[trigger] mined@[k],
                ) by {
                    let x = mined@[k];
                    if holds_hash(self.pool@, x) {
                        assert(!holds_hash(old(self).pool@, x));
                        let j = choose|j: int|
                            0 <= j < given.len() && (#[trigger] given[j]).transaction.hash == x;
                        assert(mined@.contains(x));
                    }
                }
                assert forall|k: int|
                    0 <= k < mined@.len() implies !self.blob_store.contents().contains_key(
                #[trigger] mined@[k]) by {
                    let x = mined@[k];
                    if self.blob_store.contents().contains_key(x) {
                        assert(holds_blob_tx(self.pool@, x) || holds_blob_tx(
                            Seq::<HeldTx>::empty(),
                            x,
                        ));
                        let i = choose|i: int|
                            0 <= i < self.pool@.len() && (#[trigger] self.pool@[i]).tx.hash == x
                                && self.pool@[i].tx.spec_is_eip4844();
                        assert(holds_hash(self.pool@, x));
                    }
                }
            }
        }
        r
    }
}

/// What left the pool when it took a transaction, before it looked at its
/// limits: the stale transactions of the sender and the transaction that
/// was replaced.
pub fn departed(added: &AddedTransaction) -> (r: Vec<HeldTx>)
    ensures
        r@ == spec_departed(*added),
{
    let mut out: Vec<HeldTx> = Vec::new();
    let mut k: usize = 0;
    while k < added.stale.len()
        invariant
            k <= added.stale.len(),
            out@ == added.stale@.subrange(0, k as int),
        decreases added.stale.len() - k,
    {
        out.push(added.stale[k]);
        proof {
            assert(out@ =~= added.stale@.subrange(0, k as int + 1));
        }
        k = k + 1;
    }
    proof {
        assert(added.stale@.subrange(0, k as int) =~= added.stale@);
    }
    match added.replaced {
        Some(x) => {
            out.push(x);
        },
        None => {},
    }
    out
}

/// After the pool took a transaction and enforced its limits, the store
/// (to which the sidecar of a new blob transaction was added beforehand)
/// holds a sidecar for every held blob transaction, and none but for the
/// held and the departed ones.
pub proof fn lemma_sidecars_after_taking(
    before: Seq<HeldTx>,
    mid: Seq<HeldTx>,
    after: Seq<HeldTx>,
    held: HeldTx,
    replaced: Option<HeldTx>,
    stale: Seq<HeldTx>,
    left: Seq<HeldTx>,
    evicted: Seq<HeldTx>,
    on_chain_nonce: u64,
    contents: Map<TxHash, Seq<BlobAndProofView>>,
    stored: Map<TxHash, Seq<BlobAndProofView>>,
)
    requires
        strictly_ordered(before),
        sidecars_match(before, contents),
        crate::insert::holds_after_admission(before, mid, held, on_chain_nonce),
        crate::insert::holds_the_stale(before, stale, held.id.sender, on_chain_nonce),
        replaced == crate::insert::incumbent(before, held.id),
        left == (match replaced {
            Some(x) => stale.push(x),
            None => stale,
        }),
        splits_into(mid, after, evicted),
        held.tx.spec_is_eip4844() ==> stored.contains_key(held.tx.hash),
        forall|h: TxHash| #[trigger] contents.contains_key(h) ==> stored.contains_key(h),
        forall|h: TxHash| #[trigger]
            stored.contains_key(h) ==> contents.contains_key(h) || (h == held.tx.hash
                && held.tx.spec_is_eip4844()),
    ensures
        sidecars_kept(after, stored),
        sidecars_owned(after, left + evicted, stored),
{
    assert forall|hash: TxHash| #[trigger] holds_blob_tx(after, hash) implies stored.contains_key(
        hash,
    ) by {
        let i = choose|i: int|
            0 <= i < after.len() && (#[trigger] after[i]).tx.hash == hash
                && after[i].tx.spec_is_eip4844();
        let x = after[i];
        assert(same_submission(x, x));
        assert(holds_submission(after, x));
        assert(holds_submission(mid, x));
        if !same_submission(held, x) {
            assert(holds_submission(before, x));
            let j = choose|j: int| 0 <= j < before.len() && same_submission(#[trigger] before[j], x);
            assert(holds_blob_tx(before, hash));
        }
    }
    assert forall|hash: TxHash| #[trigger] stored.contains_key(hash) implies (holds_blob_tx(
        after,
        hash,
    ) || holds_blob_tx(left + evicted, hash)) by {
        lemma_holds_blob_tx_concat(left, evicted, hash);
        let x = if contents.contains_key(hash) {
            assert(holds_blob_tx(before, hash) || holds_blob_tx(Seq::<HeldTx>::empty(), hash));
            let j = choose|j: int|
                0 <= j < before.len() && (#[trigger] before[j]).tx.hash == hash
                    && before[j].tx.spec_is_eip4844();
            before[j]
        } else {
            held
        };
        assert(x.tx.hash == hash && x.tx.spec_is_eip4844());
        assert(same_submission(x, x));
        if contents.contains_key(hash) {
            assert(holds_submission(before, x));
        }
        if holds_submission(mid, x) {
            if holds_submission(after, x) {
                let i = choose|i: int| 0 <= i < after.len() && same_submission(#[trigger] after[i], x);
                assert(after[i].tx.hash == hash);
            } else {
                let i = choose|i: int|
                    0 <= i < evicted.len() && same_submission(#[trigger] evicted[i], x);
                assert(evicted[i].tx.hash == hash);
            }
        } else {
            assert(holds_submission(before, x));
            if crate::insert::is_stale(x, held.id.sender, on_chain_nonce) {
                assert(holds_submission(stale, x));
                let i = choose|i: int| 0 <= i < stale.len() && same_submission(#[trigger] stale[i], x);
                assert(left[i] == stale[i]);
                assert(left[i].tx.hash == hash);
            } else {
                assert(x.id == held.id);
                let j = choose|j: int| 0 <= j < before.len() && same_submission(#[trigger] before[j], x);
                assert(crate::held::holds_id(before, held.id));
                let p = crate::insert::place_of_id(before, held.id);
                if j != p {
                    crate::insert::lemma_unique_position_by_id(before, j, p);
                }
                assert(replaced == Some(before[p]));
                assert(left[stale.len() as int] == before[p]);
                assert(left[stale.len() as int].tx.hash == hash);
            }
        }
    }
}

/// After the pool took a transaction and enforced its limits, what is
/// still held of any other sender is held as it was.
pub proof fn lemma_took_keeps_others<T: TransactionOrdering>(
    before: TxPool<T>,
    mid: TxPool<T>,
    after: TxPool<T>,
    held: HeldTx,
    on_chain_nonce: u64,
    evicted: Seq<HeldTx>,
)
    requires
        before.consistent(),
        mid.consistent(),
        crate::insert::holds_after_admission(before@, mid@, held, on_chain_nonce),
        mid.spec_block_info() == before.spec_block_info(),
        mid.spec_ordering() == before.spec_ordering(),
        forall|k: int|
            0 <= k < before.accounts().len() && k != held.id.sender.0 ==> #[trigger] mid.accounts()[k]
                == before.accounts()[k],
        limits_enforced(mid, after, evicted),
    ensures
        before.keeps_other_senders(&after, held.id.sender),
{
    crate::laws::lemma_admission_keeps_runs(before@, mid@, held, on_chain_nonce);
    assert forall|s: crate::identifier::SenderId| s != held.id.sender implies #[trigger]
        crate::laws::run_kept(before@, after@, s) by {
        assert(crate::laws::run_kept(before@, mid@, s));
        crate::laws::lemma_eviction_keeps_runs(mid, after, evicted, s);
        crate::laws::lemma_run_kept_twice(before@, mid@, after@, s);
    }
    crate::laws::lemma_kept_runs_keep_their_tags(before, after, held.id.sender);
}

/// What is held under the hash of a held transaction after the limits were
/// enforced is that transaction.
pub proof fn lemma_held_under_hash(
    mid: Seq<HeldTx>,
    after: Seq<HeldTx>,
    evicted: Seq<HeldTx>,
    held: HeldTx,
    i: int,
)
    requires
        strictly_ordered(mid),
        splits_into(mid, after, evicted),
        exists|j: int| 0 <= j < mid.len() && #[trigger] mid[j] == held,
        0 <= i < after.len(),
        after[i].tx.hash == held.tx.hash,
    ensures
        after[i].tx == held.tx,
{
    let x = after[i];
    assert(same_submission(x, x));
    assert(holds_submission(after, x));
    assert(holds_submission(mid, x));
    let k = choose|k: int| 0 <= k < mid.len() && same_submission(#[trigger] mid[k], x);
    let j = choose|j: int| 0 <= j < mid.len() && #[trigger] mid[j] == held;
    crate::held::lemma_unique_position(mid, k, j);
}

/// Whatever `after` holds under a hash, `before` held under that hash,
/// unless it is the hash of one of the first `n` transactions offered.
pub open spec fn holds_only(
    before: Seq<HeldTx>,
    after: Seq<HeldTx>,
    offered: Seq<PoolTransaction>,
    n: int,
) -> bool {
    forall|hash: TxHash| #[trigger]
        holds_hash(after, hash) ==> holds_hash(before, hash) || exists|k: int|
            0 <= k < n && k < offered.len() && (#[trigger] offered[k]).transaction.hash == hash
}

/// Whatever the pool holds under a hash after it took a transaction, it
/// held under that hash before, unless it is the hash of that transaction.
pub proof fn lemma_hashes_after_admission(
    before: Seq<HeldTx>,
    after: Seq<HeldTx>,
    held: HeldTx,
    on_chain_nonce: u64,
    hash: TxHash,
)
    requires
        crate::insert::holds_after_admission(before, after, held, on_chain_nonce),
    ensures
        holds_hash(after, hash) ==> holds_hash(before, hash) || hash == held.tx.hash,
{
    if holds_hash(after, hash) {
        let i = choose|i: int| 0 <= i < after.len() && (#[trigger] after[i]).tx.hash == hash;
        let x = after[i];
        assert(same_submission(x, x));
        assert(holds_submission(after, x));
        if !same_submission(held, x) {
            assert(holds_submission(before, x));
            let j = choose|j: int| 0 <= j < before.len() && same_submission(#[trigger] before[j], x);
            assert(before[j].tx.hash == hash);
        }
    }
}

/// Those of the first `n` transactions whose hash is not among `mined`, in
/// their order.
pub open spec fn not_mined_upto(
    offered: Seq<PoolTransaction>,
    mined: Seq<TxHash>,
    n: int,
) -> Seq<PoolTransaction>
    decreases n,
{
    if n <= 0 || n > offered.len() {
        Seq::empty()
    } else if mined.contains(offered[n - 1].transaction.hash) {
        not_mined_upto(offered, mined, n - 1)
    } else {
        not_mined_upto(offered, mined, n - 1).push(offered[n - 1])
    }
}

/// What left the pool when it took a transaction, before it looked at its
/// limits: the stale transactions of the sender and the transaction that
/// was replaced.
pub open spec fn spec_departed(added: AddedTransaction) -> Seq<HeldTx> {
    match added.replaced {
        Some(x) => added.stale@.push(x),
        None => added.stale@,
    }
}

/// The pool `before` was offered the transaction: its validator was asked
/// of the transaction with the origin and said `outcome`, and the pool did
/// with that what `validated_taken` says, which gave the pool `mid` and the
/// result `result`.
pub open spec fn taken_once<V, T, S>(
    before: Pool<V, T, S>,
    mid: Pool<V, T, S>,
    origin: TransactionOrigin,
    offered: PoolTransaction,
    outcome: TransactionValidationOutcome,
    result: PoolResult<AddedTransaction>,
) -> bool where V: TransactionValidator, T: TransactionOrdering, S: BlobStore {
    &&& mid.consistent()
    &&& mid.spec_validator() == before.spec_validator()
    &&& outcome_of(before.spec_validator(), origin, offered, outcome)
    &&& before.validated_taken(&mid, origin, outcome, result)
}

/// The pool `before` was offered the transactions one after the other, and
/// did with each what `validated_taken` says of what the validator said of
/// it, which gave the pool `after` and the results.
pub open spec fn taken_in_turn<V, T, S>(
    before: Pool<V, T, S>,
    after: Pool<V, T, S>,
    origin: TransactionOrigin,
    offered: Seq<PoolTransaction>,
    results: Seq<PoolResult<AddedTransaction>>,
) -> bool where V: TransactionValidator, T: TransactionOrdering, S: BlobStore
    decreases offered.len(),
{
    if offered.len() == 0 {
        after == before && results.len() == 0
    } else {
        results.len() == offered.len() && exists|
            mid: Pool<V, T, S>,
            outcome: TransactionValidationOutcome,
        | #[trigger]
            taken_once(before, mid, origin, offered[0], outcome, results[0]) && taken_in_turn(
                mid,
                after,
                origin,
                offered.drop_first(),
                results.drop_first(),
            )
    }
}

/// Whatever comes of offering the transactions from place `k` on to the
/// pool `cur` comes of offering all of them to the pool `first`, with
/// `done` being the results so far.
pub open spec fn batch_continues<V, T, S>(
    first: Pool<V, T, S>,
    cur: Pool<V, T, S>,
    origin: TransactionOrigin,
    offered: Seq<PoolTransaction>,
    k: int,
    done: Seq<PoolResult<AddedTransaction>>,
) -> bool where V: TransactionValidator, T: TransactionOrdering, S: BlobStore {
    forall|target: Pool<V, T, S>, rest: Seq<PoolResult<AddedTransaction>>| #[trigger]
        taken_in_turn(cur, target, origin, offered.subrange(k, offered.len() as int), rest)
            ==> taken_in_turn(first, target, origin, offered, done + rest)
}

/// One more transaction of a batch.
pub proof fn lemma_batch_step<V, T, S>(
    first: Pool<V, T, S>,
    cur: Pool<V, T, S>,
    next: Pool<V, T, S>,
    origin: TransactionOrigin,
    offered: Seq<PoolTransaction>,
    k: int,
    done: Seq<PoolResult<AddedTransaction>>,
    outcome: TransactionValidationOutcome,
    result: PoolResult<AddedTransaction>,
) where V: TransactionValidator, T: TransactionOrdering, S: BlobStore
    requires
        0 <= k < offered.len(),
        batch_continues(first, cur, origin, offered, k, done),
        taken_once(cur, next, origin, offered[k], outcome, result),
    ensures
        batch_continues(first, next, origin, offered, k + 1, done.push(result)),
{
    let n = offered.len() as int;
    assert forall|target: Pool<V, T, S>, rest: Seq<PoolResult<AddedTransaction>>| #[trigger]
        taken_in_turn(next, target, origin, offered.subrange(k + 1, n), rest) implies taken_in_turn(
        first,
        target,
        origin,
        offered,
        done.push(result) + rest,
    ) by {
        let tail = offered.subrange(k, n);
        let all = seq![result] + rest;
        assert(tail.drop_first() =~= offered.subrange(k + 1, n));
        assert(all.drop_first() =~= rest);
        assert(tail[0] == offered[k]);
        assert(all[0] == result);
        assert(taken_once(cur, next, origin, tail[0], outcome, all[0]) && taken_in_turn(
            next,
            target,
            origin,
            tail.drop_first(),
            all.drop_first(),
        ));
        assert(taken_in_turn(cur, target, origin, tail, all));
        assert(done + all =~= done.push(result) + rest);
    }
}

/// What is reported of a transaction of a batch: a refusal as it was; a
/// transaction that the pool took and does not hold at the end as
/// discarded; a transaction that the pool took and holds at the end with
/// its subpool at the end, with what it replaced, and with what left when
/// the pool took it.
pub open spec fn report_matches(
    txs: Seq<HeldTx>,
    taken: PoolResult<AddedTransaction>,
    result: PoolResult<AddedTransactionOutcome>,
) -> bool {
    match taken {
        Err(e) => result matches Err(e2) && e2 == e,
        Ok(added) => {
            let hash = added.transaction.tx.hash;
            if holds_hash(txs, hash) {
                result matches Ok(out) && out.hash == hash && out.subpool
                    == txs[crate::query::first_place_of_hash(txs, hash, 0)].subpool && out.replaced
                    == added.replaced && out.discarded@ == spec_departed(added)
            } else {
                result matches Err(e) && e == (PoolError {
                    hash,
                    kind: PoolErrorKind::DiscardedOnInsert,
                })
            }
        },
    }
}

/// The pool `before` was offered the transactions as `taken_in_turn` says
/// and then enforced its limits, which gave the pool `after`; the results
/// are what `report_matches` says, and `evicted` is what had to go for the
/// limits. What the store holds at the end is of what it held before the
/// limits were enforced.
pub open spec fn batch_added<V, T, S>(
    before: Pool<V, T, S>,
    after: Pool<V, T, S>,
    origin: TransactionOrigin,
    offered: Seq<PoolTransaction>,
    results: Seq<PoolResult<AddedTransactionOutcome>>,
    evicted: Seq<HeldTx>,
) -> bool where V: TransactionValidator, T: TransactionOrdering, S: BlobStore {
    exists|mid: Pool<V, T, S>, taken: Seq<PoolResult<AddedTransaction>>| #[trigger]
        taken_in_turn(before, mid, origin, offered, taken) && limits_enforced(
            mid.spec_inner(),
            after.spec_inner(),
            evicted,
        ) && after.spec_blob_store().contents().submap_of(mid.spec_blob_store().contents())
            && results.len() == taken.len() && forall|k: int|
            0 <= k < results.len() ==> report_matches(after.spec_inner()@, taken[k], #[trigger] results[k])
}

/// Whether the result says that the transaction was discarded.
pub open spec fn is_discarded(r: PoolResult<AddedTransaction>) -> bool {
    r matches Err(e) && e.kind == PoolErrorKind::DiscardedOnInsert
}

/// The hash of the transaction that the result is about.
pub open spec fn result_hash(r: PoolResult<AddedTransaction>) -> TxHash {
    match r {
        Ok(added) => added.transaction.tx.hash,
        Err(e) => e.hash,
    }
}

/// The result is about the transaction with the hash: a success tells the
/// subpool in which the pool holds the transaction; a report that the
/// transaction was discarded tells that the pool does not hold it.
pub open spec fn reported(
    txs: Seq<HeldTx>,
    hash: TxHash,
    r: PoolResult<AddedTransactionOutcome>,
) -> bool {
    match r {
        Ok(out) => out.hash == hash && exists|i: int|
            0 <= i < txs.len() && (#[trigger] txs[i]).tx.hash == hash && txs[i].subpool
                == out.subpool,
        Err(e) => e.hash == hash && (e.kind == PoolErrorKind::DiscardedOnInsert ==> !holds_hash(
            txs,
            hash,
        )),
    }
}

/// The sequence back to front.
pub fn reverse<A>(v: Vec<A>) -> (r: Vec<A>)
    ensures
        r@.len() == v@.len(),
        forall|j: int| 0 <= j < r@.len() ==> r@[j] == v@[v@.len() - 1 - j],
{
    let mut v = v;
    let ghost given = v@;
    let mut out: Vec<A> = Vec::new();
    while v.len() > 0
        invariant
            out@.len() + v@.len() == given.len(),
            v@ == given.subrange(0, v@.len() as int),
            forall|j: int| 0 <= j < out@.len() ==> out@[j] == given[given.len() - 1 - j],
        decreases v.len(),
    {
        match v.pop() {
            Some(x) => {
                out.push(x);
            },
            None => {},
        }
    }
    out
}

} // verus!
