//! The pool as its users see it: a validator in front, the pool of
//! transactions in the middle, and the store of sidecars beside it.

use crate::blobstore::{BlobAndProofView, BlobStore, BlobTransactionSidecar};
use crate::config::PoolConfig;
use crate::error::BlobStoreError;
use crate::evict::splits_into;
use crate::held::{holds_hash, holds_submission, same_submission, strictly_ordered, HeldTx};
use crate::ordering::{CoinbaseTipOrdering, TransactionOrdering};
use crate::primitives::TxHash;
use crate::state::SubPool;
use crate::txpool::{limits_kept, BlockInfo, PoolSize, TxPool};
use crate::validate::{EthTransactionValidator, StateProvider, TransactionValidator};
use vstd::prelude::*;

verus! {

/// Whether the sequence holds a blob transaction with the hash.
pub open spec fn holds_blob_tx(txs: Seq<HeldTx>, hash: TxHash) -> bool {
    exists|i: int|
        0 <= i < txs.len() && (#[trigger] txs[i]).tx.hash == hash && txs[i].tx.spec_is_eip4844()
}

/// The store holds a sidecar for every held blob transaction.
pub open spec fn sidecars_kept(txs: Seq<HeldTx>, contents: Map<TxHash, Seq<BlobAndProofView>>) -> bool {
    forall|hash: TxHash| #[trigger] holds_blob_tx(txs, hash) ==> contents.contains_key(hash)
}

/// The store holds no sidecar but for the blob transactions of `txs` and of
/// `gone`.
pub open spec fn sidecars_owned(
    txs: Seq<HeldTx>,
    gone: Seq<HeldTx>,
    contents: Map<TxHash, Seq<BlobAndProofView>>,
) -> bool {
    forall|hash: TxHash| #[trigger]
        contents.contains_key(hash) ==> (holds_blob_tx(txs, hash) || holds_blob_tx(gone, hash))
}

/// The store holds a sidecar for a transaction if and only if that
/// transaction is a held blob transaction.
pub open spec fn sidecars_match(txs: Seq<HeldTx>, contents: Map<TxHash, Seq<BlobAndProofView>>) -> bool {
    &&& sidecars_kept(txs, contents)
    &&& sidecars_owned(txs, Seq::empty(), contents)
}

/// Whether the store holds no sidecar at all, as the store of a new pool has
/// to.
pub fn holds_no_sidecar<S: BlobStore>(store: &S) -> (r: bool)
    requires
        store.wf(),
    ensures
        r == (store.contents() == Map::<TxHash, Seq<BlobAndProofView>>::empty()),
{
    let n = store.blobs_len();
    proof {
        if n == 0 {
            store.contents().dom().lemma_len0_is_empty();
            assert(store.contents() =~= Map::<TxHash, Seq<BlobAndProofView>>::empty());
        } else if store.contents() == Map::<TxHash, Seq<BlobAndProofView>>::empty() {
            assert(store.contents().dom() =~= Set::<TxHash>::empty());
        }
    }
    n == 0
}

/// What the pool did with a transaction that it took and kept.
#[derive(Debug)]
pub struct AddedTransactionOutcome {
    /// The hash of the transaction.
    pub hash: TxHash,
    /// The subpool that the transaction is in.
    pub subpool: SubPool,
    /// The transaction that gave way to it.
    pub replaced: Option<HeldTx>,
    /// The transactions that left the pool on this occasion: those that the
    /// chain has overtaken, and those that had to go for the limits.
    pub discarded: Vec<HeldTx>,
}

/// A generic, customizable transaction pool: transactions are
/// checked by `V`, ranked by `T`, and their sidecars are kept in `S`.
#[derive(Debug)]
pub struct Pool<V, T: TransactionOrdering, S> {
    pub(crate) validator: V,
    pub(crate) blob_store: S,
    pub(crate) pool: TxPool<T>,
}

/// Type alias for default ethereum transaction pool
pub type EthTransactionPool<Client, S> = Pool<EthTransactionValidator<Client>, CoinbaseTipOrdering, S>;

impl<V, T, S> Pool<V, T, S> where V: TransactionValidator, T: TransactionOrdering, S: BlobStore {
    /// The pool of transactions.
    pub open(crate) spec fn spec_inner(&self) -> TxPool<T> {
        self.pool
    }

    /// The store of sidecars.
    pub open(crate) spec fn spec_blob_store(&self) -> S {
        self.blob_store
    }

    /// The validator.
    pub open(crate) spec fn spec_validator(&self) -> V {
        self.validator
    }

    /// What holds of the pool between any two operations: the pool of
    /// transactions is sound and every subpool is within its limit; the
    /// store is sound; and the store holds a sidecar for a transaction if
    /// and only if that transaction is a held blob transaction.
    pub open spec fn wf(&self) -> bool {
        &&& self.spec_inner().wf()
        &&& self.spec_blob_store().wf()
        &&& sidecars_match(self.spec_inner()@, self.spec_blob_store().contents())
    }

    /// Create a new transaction pool instance.
    pub fn new(validator: V, ordering: T, blob_store: S, config: PoolConfig) -> (r: Self)
        requires
            blob_store.wf(),
            blob_store.contents() == Map::<TxHash, Seq<BlobAndProofView>>::empty(),
        ensures
            r.wf(),
            r.spec_inner()@.len() == 0,
            r.spec_inner().spec_config() == config,
            r.spec_inner().spec_ordering() == ordering,
            r.spec_validator() == validator,
            r.spec_blob_store() == blob_store,
    {
        Pool { validator, blob_store, pool: TxPool::new(ordering, config) }
    }

    /// Returns the wrapped pool.
    pub fn inner(&self) -> (r: &TxPool<T>)
        ensures
            *r == self.spec_inner(),
    {
        &self.pool
    }

    /// Get the config the pool was configured with.
    pub fn config(&self) -> (r: &PoolConfig)
        ensures
            *r == self.spec_inner().spec_config(),
    {
        self.pool.config()
    }

    /// Number of transactions in the entire pool
    pub fn len(&self) -> (r: usize)
        ensures
            r == self.spec_inner()@.len(),
    {
        self.pool.len()
    }

    /// Whether the pool is empty
    pub fn is_empty(&self) -> (r: bool)
        ensures
            r == (self.spec_inner()@.len() == 0),
    {
        self.pool.is_empty()
    }

    /// Returns whether or not the pool is over its configured size and transaction count limits.
    pub fn is_exceeded(&self) -> (r: bool)
        ensures
            r == !limits_kept(self.spec_inner()@, self.spec_inner().spec_config()),
    {
        self.pool.is_exceeded()
    }

    /// Returns the configured blob store.
    pub fn blob_store(&self) -> (r: &S)
        ensures
            *r == self.spec_blob_store(),
    {
        &self.blob_store
    }

    /// How many transactions each subpool holds, and of how many bytes.
    pub fn pool_size(&self) -> (r: PoolSize)
        ensures
            r.pending == crate::held::count_in(self.spec_inner()@, SubPool::Pending),
            r.basefee == crate::held::count_in(self.spec_inner()@, SubPool::BaseFee),
            r.queued == crate::held::count_in(self.spec_inner()@, SubPool::Queued),
            r.blob == crate::held::count_in(self.spec_inner()@, SubPool::Blob),
            r.pending_size == crate::query::capped(
                crate::held::bytes_in(self.spec_inner()@, SubPool::Pending),
            ),
            r.basefee_size == crate::query::capped(
                crate::held::bytes_in(self.spec_inner()@, SubPool::BaseFee),
            ),
            r.queued_size == crate::query::capped(
                crate::held::bytes_in(self.spec_inner()@, SubPool::Queued),
            ),
            r.blob_size == crate::query::capped(
                crate::held::bytes_in(self.spec_inner()@, SubPool::Blob),
            ),
            r.total == self.spec_inner()@.len(),
    {
        self.pool.size()
    }

    /// What the pool knows of the chain's tip.
    pub fn block_info(&self) -> (r: BlockInfo)
        ensures
            r == self.spec_inner().spec_block_info(),
    {
        self.pool.block_info()
    }

    /// The transaction with this hash, where the pool holds it.
    pub fn get(&self, hash: &TxHash) -> (r: Option<HeldTx>)
        ensures
            r is Some <==> holds_hash(self.spec_inner()@, *hash),
            r matches Some(h) ==> h.tx.hash == *hash && exists|i: int|
                0 <= i < self.spec_inner()@.len() && #[trigger] self.spec_inner()@[i] == h,
    {
        self.pool.get(hash)
    }

    /// Whether the pool holds a transaction with this hash.
    pub fn contains(&self, hash: &TxHash) -> (r: bool)
        ensures
            r == holds_hash(self.spec_inner()@, *hash),
    {
        self.pool.contains(hash)
    }

    /// Takes the sidecars of transactions that have left the pool out of the
    /// store. What the store still holds is what it held.
    pub(crate) fn drop_sidecars(&mut self, gone: &Vec<HeldTx>, others: Ghost<Seq<HeldTx>>)
        requires
            old(self).spec_blob_store().wf(),
            strictly_ordered(old(self).spec_inner()@),
            sidecars_kept(old(self).spec_inner()@, old(self).spec_blob_store().contents()),
            sidecars_owned(
                old(self).spec_inner()@,
                gone@ + others@,
                old(self).spec_blob_store().contents(),
            ),
        ensures
            final(self).spec_blob_store().wf(),
            final(self).spec_inner() == old(self).spec_inner(),
            final(self).spec_validator() == old(self).spec_validator(),
            sidecars_kept(final(self).spec_inner()@, final(self).spec_blob_store().contents()),
            sidecars_owned(
                final(self).spec_inner()@,
                others@,
                final(self).spec_blob_store().contents(),
            ),
            final(self).spec_blob_store().contents().submap_of(
                old(self).spec_blob_store().contents(),
            ),
    {
        let mut k: usize = 0;
        proof {
            assert(gone@.subrange(0, gone@.len() as int) =~= gone@);
        }
        while k < gone.len()
            invariant
                k <= gone.len(),
                self.blob_store.wf(),
                self.pool == old(self).pool,
                self.validator == old(self).validator,
                strictly_ordered(self.pool@),
                sidecars_kept(self.pool@, self.blob_store.contents()),
                sidecars_owned(
                    self.pool@,
                    gone@.subrange(k as int, gone@.len() as int) + others@,
                    self.blob_store.contents(),
                ),
                self.blob_store.contents().submap_of(old(self).blob_store.contents()),
            decreases gone.len() - k,
        {
            let item = gone[k];
            let ghost rest = gone@.subrange(k as int, gone@.len() as int);
            let ghost later = gone@.subrange(k as int + 1, gone@.len() as int);
            let ghost before = self.blob_store.contents();
            let hash = item.tx.hash;
            let held = self.pool.get(&hash);
            let still_blob = match held {
                Some(h) => h.tx.is_eip4844(),
                None => false,
            };
            proof {
                assert forall|h: TxHash| #[trigger]
                    holds_blob_tx(rest + others@, h) implies holds_blob_tx(later + others@, h) || h
                    == hash by {
                    lemma_holds_blob_tx_concat(rest, others@, h);
                    lemma_holds_blob_tx_concat(later, others@, h);
                    if holds_blob_tx(rest, h) {
                        let i = choose|i: int|
                            0 <= i < rest.len() && (#[trigger] rest[i]).tx.hash == h
                                && rest[i].tx.spec_is_eip4844();
                        if i > 0 {
                            assert(later[i - 1] == rest[i]);
                        } else {
                            assert(rest[0] == item);
                        }
                    }
                }
            }
            if !still_blob {
                self.blob_store.delete(hash);
                proof {
                    assert(self.blob_store.contents().submap_of(old(self).blob_store.contents())) by {
                        assert forall|k: TxHash| #[trigger]
                            self.blob_store.contents().dom().contains(k) implies old(
                            self,
                        ).blob_store.contents().dom().contains(k)
                            && self.blob_store.contents()[k] == old(self).blob_store.contents()[k] by {
                            assert(before.dom().contains(k));
                            assert(before[k] == self.blob_store.contents()[k]);
                        }
                    }
                    assert(!holds_blob_tx(self.pool@, hash)) by {
                        if holds_blob_tx(self.pool@, hash) {
                            let i = choose|i: int|
                                0 <= i < self.pool@.len() && (#[trigger] self.pool@[i]).tx.hash
                                    == hash && self.pool@[i].tx.spec_is_eip4844();
                            assert(holds_hash(self.pool@, hash));
                            let h = held->0;
                            let j = choose|j: int|
                                0 <= j < self.pool@.len() && #[trigger] self.pool@[j] == h;
                            crate::held::lemma_unique_position(self.pool@, i, j);
                        }
                    }
                    assert forall|h: TxHash| #[trigger]
                        self.blob_store.contents().contains_key(h) implies (holds_blob_tx(
                        self.pool@,
                        h,
                    ) || holds_blob_tx(later + others@, h)) by {
                        assert(before.contains_key(h));
                        assert(holds_blob_tx(self.pool@, h) || holds_blob_tx(rest + others@, h));
                    }
                    assert forall|h: TxHash| #[trigger]
                        holds_blob_tx(self.pool@, h) implies self.blob_store.contents().contains_key(
                        h,
                    ) by {
                        assert(before.contains_key(h));
                    }
                }
            } else {
                proof {
                    assert(holds_blob_tx(self.pool@, hash)) by {
                        let h = held->0;
                        let j = choose|j: int|
                            0 <= j < self.pool@.len() && #[trigger] self.pool@[j] == h;
                        assert(self.pool@[j].tx.hash == hash && self.pool@[j].tx.spec_is_eip4844());
                    }
                    assert forall|h: TxHash| #[trigger]
                        self.blob_store.contents().contains_key(h) implies (holds_blob_tx(
                        self.pool@,
                        h,
                    ) || holds_blob_tx(later + others@, h)) by {
                        assert(holds_blob_tx(self.pool@, h) || holds_blob_tx(rest + others@, h));
                    }
                }
            }
            k = k + 1;
        }
        proof {
            assert(gone@.subrange(gone@.len() as int, gone@.len() as int) + others@ =~= others@);
        }
    }

    /// Nothing has changed between `self` and `after`.
    pub open spec fn unchanged(&self, after: &Self) -> bool {
        &&& after.spec_inner()@ == self.spec_inner()@
        &&& after.spec_inner().same_surroundings(&self.spec_inner())
        &&& after.spec_blob_store().contents() == self.spec_blob_store().contents()
        &&& after.spec_validator() == self.spec_validator()
    }

    /// What holds of the pool while a batch of transactions is taken in: as
    /// `wf`, but for the limits of the subpools.
    pub open spec fn consistent(&self) -> bool {
        &&& self.spec_inner().consistent()
        &&& self.spec_blob_store().wf()
        &&& sidecars_match(self.spec_inner()@, self.spec_blob_store().contents())
    }

    /// Enforces the limits of the subpools and takes the sidecars of
    /// everything that has left the pool out of the store. `gone` is what
    /// has left already; returned is what has left in all.
    pub(crate) fn settle(&mut self, gone: Vec<HeldTx>) -> (all_gone: Vec<HeldTx>)
        requires
            old(self).spec_inner().consistent(),
            old(self).spec_blob_store().wf(),
            sidecars_kept(old(self).spec_inner()@, old(self).spec_blob_store().contents()),
            sidecars_owned(old(self).spec_inner()@, gone@, old(self).spec_blob_store().contents()),
        ensures
            final(self).wf(),
            final(self).spec_validator() == old(self).spec_validator(),
            settled(old(self).spec_inner(), final(self).spec_inner(), gone@, all_gone@),
            final(self).spec_blob_store().contents().submap_of(
                old(self).spec_blob_store().contents(),
            ),
    {
        let mut gone = gone;
        let ghost first = gone@;
        let ghost mid = self.pool;
        let ghost contents = self.blob_store.contents();
        let mut evicted = self.pool.enforce_limits();
        let ghost out = evicted@;
        gone.append(&mut evicted);
        proof {
            assert(limits_enforced(mid, self.pool, out));
            assert forall|hash: TxHash| #[trigger]
                holds_blob_tx(self.pool@, hash) implies contents.contains_key(hash) by {
                let i = choose|i: int|
                    0 <= i < self.pool@.len() && (#[trigger] self.pool@[i]).tx.hash == hash
                        && self.pool@[i].tx.spec_is_eip4844();
                let x = self.pool@[i];
                assert(same_submission(x, x));
                assert(holds_submission(self.pool@, x));
                assert(holds_submission(mid@, x));
                let j = choose|j: int| 0 <= j < mid@.len() && same_submission(#[trigger] mid@[j], x);
                assert(holds_blob_tx(mid@, hash));
            }
            assert forall|hash: TxHash| #[trigger] contents.contains_key(hash) implies (holds_blob_tx(
                self.pool@,
                hash,
            ) || holds_blob_tx(first + out, hash)) by {
                lemma_holds_blob_tx_concat(first, out, hash);
                if holds_blob_tx(mid@, hash) {
                    let j = choose|j: int|
                        0 <= j < mid@.len() && (#[trigger] mid@[j]).tx.hash == hash
                            && mid@[j].tx.spec_is_eip4844();
                    let x = mid@[j];
                    assert(same_submission(x, x));
                    assert(holds_submission(mid@, x));
                    if holds_submission(self.pool@, x) {
                        let i = choose|i: int|
                            0 <= i < self.pool@.len() && same_submission(#[trigger] self.pool@[i], x);
                        assert(self.pool@[i].tx.hash == hash);
                    } else {
                        let i = choose|i: int| 0 <= i < out.len() && same_submission(#[trigger] out[i], x);
                        assert(out[i].tx.hash == hash);
                    }
                }
            }
        }
        proof {
            assert(gone@ + Seq::<HeldTx>::empty() =~= gone@);
        }
        self.drop_sidecars(&gone, Ghost(Seq::empty()));
        gone
    }

    /// Asks the store to delete the sidecar of a transaction, unless the pool
    /// holds that transaction. The store holds sidecars of held
    /// transactions only, so what it holds stays as it is.
    pub fn delete_blob(&mut self, tx: TxHash)
        requires
            old(self).wf(),
        ensures
            final(self).wf(),
            old(self).unchanged(final(self)),
    {
        if !self.pool.contains(&tx) {
            let ghost contents = self.blob_store.contents();
            self.blob_store.delete(tx);
            proof {
                assert(!contents.contains_key(tx)) by {
                    if contents.contains_key(tx) {
                        assert(holds_blob_tx(self.pool@, tx) || holds_blob_tx(
                            Seq::<HeldTx>::empty(),
                            tx,
                        ));
                        let i = choose|i: int|
                            0 <= i < self.pool@.len() && (#[trigger] self.pool@[i]).tx.hash == tx
                                && self.pool@[i].tx.spec_is_eip4844();
                        assert(holds_hash(self.pool@, tx));
                    }
                }
                assert(self.blob_store.contents() =~= contents);
            }
        }
    }

    /// Lets the store give back the memory of deleted sidecars.
    pub fn cleanup_blobs(&mut self)
        requires
            old(self).wf(),
        ensures
            final(self).wf(),
            old(self).unchanged(final(self)),
    {
        self.blob_store.cleanup();
    }

    /// The sidecar of a transaction, where the store holds one. Fails only
    /// where the store itself fails.
    pub fn get_blob(&self, tx: TxHash) -> (r: Result<Option<&BlobTransactionSidecar>, BlobStoreError>)
        requires
            self.wf(),
        ensures
            r matches Ok(found) ==> match found {
                Some(s) => self.spec_blob_store().contents().contains_key(tx)
                    && self.spec_blob_store().contents()[tx] == s@ && holds_blob_tx(
                    self.spec_inner()@,
                    tx,
                ),
                None => !holds_blob_tx(self.spec_inner()@, tx),
            },
            r matches Err(e) ==> self.spec_blob_store().may_fail_with(e),
    {
        let r = self.blob_store.get(tx);
        proof {
            if self.blob_store.contents().contains_key(tx) {
                assert(holds_blob_tx(self.pool@, tx) || holds_blob_tx(Seq::<HeldTx>::empty(), tx));
            }
        }
        r
    }

    /// A stream of the pending transactions as they are now, best first.
    pub fn best_transactions(&self) -> (r: crate::best::BestTransactions)
        requires
            self.wf(),
        ensures
            r@.wf(),
            r@ == (crate::best::BestView {
                all: crate::query::pending_entries(self.spec_inner()@),
                invalid: Set::<u32>::empty(),
                last_priority: None,
                skip_blobs: false,
                live: false,
                budget: 0,
            }),
    {
        self.pool.best_transactions()
    }

    /// A stream of the pending transactions that pay the given fees, best
    /// first.
    pub fn best_transactions_with_attributes(&self, base_fee: u64, blob_fee: u64) -> (r:
        crate::filters::BestTransactionsWithFees)
        requires
            self.wf(),
        ensures
            r.inner().wf(),
            r.inner() == (crate::best::BestView {
                all: crate::query::pending_entries(self.spec_inner()@),
                invalid: Set::<u32>::empty(),
                last_priority: None,
                skip_blobs: false,
                live: false,
                budget: 0,
            }),
            r.spec_base_fee() == base_fee,
            r.spec_blob_fee() == blob_fee,
    {
        self.pool.best_transactions_with_attributes(base_fee, blob_fee)
    }

    /// How many transactions are pending, and how many are queued.
    pub fn pending_and_queued_txn_count(&self) -> (r: (usize, usize))
        ensures
            r.0 == crate::held::count_in(self.spec_inner()@, SubPool::Pending),
            r.1 == crate::held::count_in(self.spec_inner()@, SubPool::Queued),
    {
        self.pool.pending_and_queued_txn_count()
    }

    /// The hashes of the held transactions, in order of sender and nonce.
    pub fn all_transaction_hashes(&self) -> (r: Vec<TxHash>)
        ensures
            r@ == Seq::new(self.spec_inner()@.len(), |i: int| self.spec_inner()@[i].tx.hash),
    {
        self.pool.all_transaction_hashes()
    }

    /// The pending transactions, in order of sender and nonce.
    pub fn pending_transactions(&self) -> (r: Vec<HeldTx>)
        ensures
            r@ == crate::query::in_subpool(self.spec_inner()@, SubPool::Pending),
    {
        self.pool.pending_transactions()
    }

    /// The queued transactions, in order of sender and nonce.
    pub fn queued_transactions(&self) -> (r: Vec<HeldTx>)
        ensures
            r@ == crate::query::in_subpool(self.spec_inner()@, SubPool::Queued),
    {
        self.pool.queued_transactions()
    }

    /// Every held transaction, in order of sender and nonce.
    pub fn all_transactions(&self) -> (r: Vec<HeldTx>)
        ensures
            r@ == self.spec_inner()@,
    {
        self.pool.all_transactions()
    }

    /// The transactions with the given hashes that the pool holds, in the
    /// order of the hashes.
    pub fn get_all(&self, hashes: &Vec<TxHash>) -> (r: Vec<HeldTx>)
        ensures
            r@ == crate::query::found_upto(self.spec_inner()@, hashes@, hashes@.len() as int),
    {
        self.pool.get_all(hashes)
    }

    /// The transactions of `sender`, in order of nonce.
    pub fn get_transactions_by_sender(&self, sender: &crate::primitives::Address) -> (r: Vec<HeldTx>)
        requires
            self.wf(),
        ensures
            crate::query::is_chain_of(self.spec_inner()@, *sender, r@),
    {
        self.pool.get_transactions_by_sender(sender)
    }

    /// The transaction of `sender` with `nonce`, where the pool holds it.
    pub fn get_transaction_by_sender_and_nonce(&self, sender: &crate::primitives::Address, nonce: u64) -> (r:
        Option<HeldTx>)
        requires
            self.wf(),
        ensures
            r is Some <==> exists|i: int|
                0 <= i < self.spec_inner()@.len() && (#[trigger] self.spec_inner()@[i]).tx.sender
                    == *sender && self.spec_inner()@[i].tx.nonce == nonce,
            r matches Some(h) ==> h.tx.sender == *sender && h.tx.nonce == nonce && exists|i: int|
                0 <= i < self.spec_inner()@.len() && #[trigger] self.spec_inner()@[i] == h,
    {
        self.pool.get_transaction_by_sender_and_nonce(sender, nonce)
    }

    /// The sidecars of those of the transactions that the store holds; see
    /// `BlobStore::get_all`. Fails only where the store itself fails.
    pub fn get_all_blobs(&self, tx_hashes: &Vec<TxHash>) -> (r: Result<
        Vec<(TxHash, &BlobTransactionSidecar)>,
        BlobStoreError,
    >)
        requires
            self.wf(),
        ensures
            r matches Ok(found) ==> crate::blobstore::listing(found@)
                == crate::blobstore::listed_upto(
                self.spec_blob_store().contents(),
                tx_hashes@,
                tx_hashes@.len() as int,
            ),
            r matches Err(e) ==> self.spec_blob_store().may_fail_with(e),
    {
        self.blob_store.get_all(tx_hashes)
    }

    /// The sidecars of the transactions, all of them or an error; see
    /// `BlobStore::get_exact`. Fails only where the store itself fails or
    /// holds no sidecar for one of the transactions.
    pub fn get_all_blobs_exact(&self, tx_hashes: &Vec<TxHash>) -> (r: Result<
        Vec<&BlobTransactionSidecar>,
        BlobStoreError,
    >)
        requires
            self.wf(),
        ensures
            r matches Ok(found) ==> found@.len() == tx_hashes@.len() && forall|j: int|
                0 <= j < tx_hashes@.len() ==> self.spec_blob_store().contents().contains_key(
                    #[trigger] tx_hashes@[j],
                ) && self.spec_blob_store().contents()[tx_hashes@[j]] == found@[j]@,
            r matches Err(e) ==> self.spec_blob_store().may_fail_with(e) || crate::blobstore::misses_one(
                self.spec_blob_store().contents(),
                tx_hashes@,
                e,
            ),
    {
        self.blob_store.get_exact(tx_hashes)
    }

    /// For each versioned hash a held blob with that hash, where there is
    /// one; see `BlobStore::get_by_versioned_hashes_v1`. Fails only where
    /// the store itself fails.
    pub fn get_blobs_for_versioned_hashes_v1(&self, versioned_hashes: &Vec<crate::primitives::B256>) -> (r:
        Result<Vec<Option<&crate::blobstore::BlobAndProof>>, BlobStoreError>)
        requires
            self.wf(),
        ensures
            r matches Ok(found) ==> found@.len() == versioned_hashes@.len() && forall|k: int|
                0 <= k < found@.len() ==> crate::blobstore::answers_versioned_hash(
                    self.spec_blob_store().contents(),
                    versioned_hashes@[k],
                    match #[trigger] found@[k] {
                        Some(b) => Some(b@),
                        None => None,
                    },
                ),
            r matches Err(e) ==> self.spec_blob_store().may_fail_with(e),
    {
        self.blob_store.get_by_versioned_hashes_v1(versioned_hashes)
    }

    /// For every versioned hash a held blob with that hash, or nothing at
    /// all; see `BlobStore::get_by_versioned_hashes_v2`. Fails only where
    /// the store itself fails.
    pub fn get_blobs_for_versioned_hashes_v2(&self, versioned_hashes: &Vec<crate::primitives::B256>) -> (r:
        Result<Option<Vec<&crate::blobstore::BlobAndProof>>, BlobStoreError>)
        requires
            self.wf(),
        ensures
            r matches Ok(answer) ==> match answer {
                Some(found) => found@.len() == versioned_hashes@.len() && forall|k: int|
                    0 <= k < found@.len() ==> (#[trigger] found@[k])@.versioned_hash
                        == versioned_hashes@[k] && crate::blobstore::holds_blob(
                        self.spec_blob_store().contents(),
                        found@[k]@,
                    ),
                None => exists|k: int|
                    0 <= k < versioned_hashes@.len() && !crate::blobstore::holds_versioned_hash(
                        self.spec_blob_store().contents(),
                        #[trigger] versioned_hashes@[k],
                    ),
            },
            r matches Err(e) ==> self.spec_blob_store().may_fail_with(e),
    {
        self.blob_store.get_by_versioned_hashes_v2(versioned_hashes)
    }
}

/// After transactions have left the pool, the store still holds a sidecar
/// for every held blob transaction, and none but for the held and the
/// departed ones.
pub proof fn lemma_sidecars_after_removal(
    before: Seq<HeldTx>,
    after: Seq<HeldTx>,
    gone: Seq<HeldTx>,
    contents: Map<TxHash, Seq<BlobAndProofView>>,
)
    requires
        sidecars_match(before, contents),
        splits_into(before, after, gone),
    ensures
        sidecars_kept(after, contents),
        sidecars_owned(after, gone, contents),
{
    assert forall|hash: TxHash| #[trigger] holds_blob_tx(after, hash) implies contents.contains_key(
        hash,
    ) by {
        let i = choose|i: int|
            0 <= i < after.len() && (#[trigger] after[i]).tx.hash == hash
                && after[i].tx.spec_is_eip4844();
        assert(same_submission(after[i], after[i]));
        assert(holds_submission(after, after[i]));
        assert(holds_submission(before, after[i]));
        let j = choose|j: int| 0 <= j < before.len() && same_submission(#[trigger] before[j], after[i]);
        assert(holds_blob_tx(before, hash));
    }
    assert forall|hash: TxHash| #[trigger] contents.contains_key(hash) implies (holds_blob_tx(
        after,
        hash,
    ) || holds_blob_tx(gone, hash)) by {
        assert(holds_blob_tx(before, hash) || holds_blob_tx(Seq::<HeldTx>::empty(), hash));
        assert(holds_blob_tx(before, hash));
        let j = choose|j: int|
            0 <= j < before.len() && (#[trigger] before[j]).tx.hash == hash
                && before[j].tx.spec_is_eip4844();
        assert(same_submission(before[j], before[j]));
        assert(holds_submission(before, before[j]));
        if holds_submission(after, before[j]) {
            let i = choose|i: int| 0 <= i < after.len() && same_submission(#[trigger] after[i], before[j]);
            assert(after[i].tx.hash == hash);
        } else {
            let i = choose|i: int| 0 <= i < gone.len() && same_submission(#[trigger] gone[i], before[j]);
            assert(gone[i].tx.hash == hash);
        }
    }
}

/// What two sequences put one after the other hold.
pub proof fn lemma_holds_blob_tx_concat(a: Seq<HeldTx>, b: Seq<HeldTx>, hash: TxHash)
    ensures
        holds_blob_tx(a + b, hash) <==> (holds_blob_tx(a, hash) || holds_blob_tx(b, hash)),
{
    let c = a + b;
    if holds_blob_tx(c, hash) {
        let i = choose|i: int|
            0 <= i < c.len() && (#[trigger] c[i]).tx.hash == hash && c[i].tx.spec_is_eip4844();
        if i < a.len() {
            assert(a[i] == c[i]);
        } else {
            assert(b[i - a.len()] == c[i]);
        }
    }
    if holds_blob_tx(a, hash) {
        let i = choose|i: int|
            0 <= i < a.len() && (#[trigger] a[i]).tx.hash == hash && a[i].tx.spec_is_eip4844();
        assert(c[i] == a[i]);
    }
    if holds_blob_tx(b, hash) {
        let i = choose|i: int|
            0 <= i < b.len() && (#[trigger] b[i]).tx.hash == hash && b[i].tx.spec_is_eip4844();
        assert(c[i + a.len()] == b[i]);
    }
}

/// The pool `after` is the pool `mid` with its limits enforced, and
/// `evicted` is what had to go.
pub open spec fn limits_enforced<T: TransactionOrdering>(
    mid: TxPool<T>,
    after: TxPool<T>,
    evicted: Seq<HeldTx>,
) -> bool {
    &&& after.wf()
    &&& after.same_surroundings(&mid)
    &&& limits_kept(mid@, mid.spec_config()) ==> evicted.len() == 0 && after@ == mid@
    &&& splits_into(mid@, after@, evicted)
    &&& crate::evict::enforced(mid, after, evicted)
}

/// The store holds no sidecar under any of the hashes.
pub open spec fn stores_none_of(contents: Map<TxHash, Seq<BlobAndProofView>>, hashes: Seq<TxHash>) -> bool {
    forall|k: int| 0 <= k < hashes.len() ==> !contents.contains_key(#[trigger] hashes[k])
}

/// The pool `after` is the pool `mid` with its limits enforced; `gone` is
/// what had left before, `all_gone` what has left in all.
pub open spec fn settled<T: TransactionOrdering>(
    mid: TxPool<T>,
    after: TxPool<T>,
    gone: Seq<HeldTx>,
    all_gone: Seq<HeldTx>,
) -> bool {
    exists|evicted: Seq<HeldTx>| #[trigger]
        limits_enforced(mid, after, evicted) && all_gone == gone + evicted
}

/// Everything that the pool holds afterwards under a hash, it held before.
pub proof fn lemma_hashes_after_removal(before: Seq<HeldTx>, after: Seq<HeldTx>, gone: Seq<HeldTx>, hash: TxHash)
    requires
        splits_into(before, after, gone),
    ensures
        holds_hash(after, hash) ==> holds_hash(before, hash),
{
    if holds_hash(after, hash) {
        let i = choose|i: int| 0 <= i < after.len() && (#[trigger] after[i]).tx.hash == hash;
        assert(same_submission(after[i], after[i]));
        assert(holds_submission(after, after[i]));
        assert(holds_submission(before, after[i]));
        let j = choose|j: int| 0 <= j < before.len() && same_submission(#[trigger] before[j], after[i]);
        assert(before[j].tx.hash == hash);
    }
}

impl<Client: StateProvider, S: BlobStore> Pool<EthTransactionValidator<Client>, CoinbaseTipOrdering, S> {
    /// Returns a new [`Pool`] that checks transactions with an
    /// [`EthTransactionValidator`] and ranks them by what they tip.
    pub fn eth_pool(validator: EthTransactionValidator<Client>, blob_store: S, config: PoolConfig) -> (r:
        Self)
        requires
            blob_store.wf(),
            blob_store.contents() == Map::<TxHash, Seq<BlobAndProofView>>::empty(),
        ensures
            r.wf(),
            r.spec_inner()@.len() == 0,
            r.spec_inner().spec_config() == config,
            r.spec_validator() == validator,
            r.spec_blob_store() == blob_store,
    {
        Self::new(validator, CoinbaseTipOrdering::new(), blob_store, config)
    }
}

} // verus!
