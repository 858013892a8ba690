//! What can be asked of the pool.

use crate::best::{
    entries_ordered, is_place_of, spec_insert, BestEntry, BestTransactions, BestView,
    PendingTransaction,
};
use crate::filters::BestTransactionsWithFees;
use crate::held::{bytes_in, count_in, entry_ok, holds_hash, in_order, strictly_ordered, HeldTx};
use crate::identifier::TransactionId;
use crate::ordering::TransactionOrdering;
use crate::primitives::{Address, TxHash};
use crate::state::SubPool;
use crate::traits::ValidPoolTransaction;
use crate::txpool::{PoolSize, TxPool};
use vstd::prelude::*;

verus! {

/// The held transaction as a stream of pending transactions takes it.
pub open spec fn spec_to_pending(h: HeldTx) -> PendingTransaction {
    PendingTransaction {
        submission_id: h.submission_id,
        transaction: ValidPoolTransaction {
            transaction: h.tx,
            transaction_id: h.id,
            propagate: h.propagate,
            origin: h.origin,
        },
        priority: h.priority,
    }
}

impl HeldTx {
    /// The held transaction as a stream of pending transactions takes it.
    pub fn to_pending(&self) -> (r: PendingTransaction)
        ensures
            r == spec_to_pending(*self),
    {
        PendingTransaction {
            submission_id: self.submission_id,
            transaction: self.to_valid(),
            priority: self.priority,
        }
    }

    /// The transaction with what the pool has added to it.
    pub fn to_valid(&self) -> (r: ValidPoolTransaction)
        ensures
            r == spec_to_pending(*self).transaction,
    {
        ValidPoolTransaction {
            transaction: self.tx,
            transaction_id: self.id,
            propagate: self.propagate,
            origin: self.origin,
        }
    }
}

/// Those of the first `n` transactions that are in `pool`, in their order.
pub open spec fn in_subpool_upto(txs: Seq<HeldTx>, pool: SubPool, n: int) -> Seq<HeldTx>
    decreases n,
{
    if n <= 0 || n > txs.len() {
        Seq::empty()
    } else if txs[n - 1].subpool == pool {
        in_subpool_upto(txs, pool, n - 1).push(txs[n - 1])
    } else {
        in_subpool_upto(txs, pool, n - 1)
    }
}

/// The transactions in `pool`, in order of sender and nonce.
pub open spec fn in_subpool(txs: Seq<HeldTx>, pool: SubPool) -> Seq<HeldTx> {
    in_subpool_upto(txs, pool, txs.len() as int)
}

/// The pending ones of the first `n` transactions as a stream takes them:
/// each is offered unless the one before it in the stream is the
/// transaction right before it of the same sender.
pub open spec fn pending_entries_upto(txs: Seq<HeldTx>, n: int) -> Seq<BestEntry>
    decreases n,
{
    if n <= 0 || n > txs.len() {
        Seq::empty()
    } else if txs[n - 1].subpool == SubPool::Pending {
        let before = pending_entries_upto(txs, n - 1);
        before.push(
            BestEntry {
                tx: spec_to_pending(txs[n - 1]),
                independent: !(before.len() > 0 && before.last().tx.spec_id().spec_descendant()
                    == Some(txs[n - 1].id)),
            },
        )
    } else {
        pending_entries_upto(txs, n - 1)
    }
}

/// The pending transactions as a stream takes them.
pub open spec fn pending_entries(txs: Seq<HeldTx>) -> Seq<BestEntry> {
    pending_entries_upto(txs, txs.len() as int)
}

/// The places from `s` up to, not including, `e` are those of the
/// transactions of `sender`.
pub open spec fn is_run_of(txs: Seq<HeldTx>, sender: Address, s: int, e: int) -> bool {
    &&& 0 <= s <= e <= txs.len()
    &&& forall|i: int| 0 <= i < txs.len() ==> ((s <= i < e) <==> (#[trigger] txs[i]).tx.sender == sender)
}

/// `part` is the transactions of `sender` in `txs`, in order of nonce.
pub open spec fn is_chain_of(txs: Seq<HeldTx>, sender: Address, part: Seq<HeldTx>) -> bool {
    exists|s: int, e: int| #[trigger] is_run_of(txs, sender, s, e) && part == txs.subrange(s, e)
}

/// What the stream holds of the first `n` transactions is ordered, and
/// every entry of it comes before the transactions from `n` on.
pub proof fn lemma_pending_entries(txs: Seq<HeldTx>, n: int)
    requires
        strictly_ordered(txs),
        0 <= n <= txs.len(),
    ensures
        entries_ordered(pending_entries_upto(txs, n)),
        pending_entries_upto(txs, n).len() <= n,
        forall|k: int, j: int|
            0 <= k < pending_entries_upto(txs, n).len() && n <= j < txs.len() ==> (
            #[trigger] pending_entries_upto(txs, n)[k]).tx.spec_id().spec_lt((#[trigger] txs[j]).id),
        forall|k: int|
            0 <= k < pending_entries_upto(txs, n).len() ==> exists|i: int|
                0 <= i < n && (#[trigger] pending_entries_upto(txs, n)[k]).tx == spec_to_pending(
                    txs[i],
                ) && txs[i].subpool == SubPool::Pending,
    decreases n,
{
    if n > 0 {
        lemma_pending_entries(txs, n - 1);
        let before = pending_entries_upto(txs, n - 1);
        let now = pending_entries_upto(txs, n);
        assert forall|k: int, j: int| 0 <= k < now.len() && n <= j < txs.len() implies (
        #[trigger] now[k]).tx.spec_id().spec_lt((#[trigger] txs[j]).id) by {
            if k < before.len() {
                assert(now[k] == before[k]);
            } else {
                assert(in_order(txs[n - 1], txs[j]));
            }
        }
        assert forall|i: int, j: int| 0 <= i < j < now.len() implies (
        #[trigger] now[i]).tx.spec_id().spec_lt((#[trigger] now[j]).tx.spec_id()) by {
            if j < before.len() {
                assert(before[i].tx.spec_id().spec_lt(before[j].tx.spec_id()));
            } else {
                assert(now[i] == before[i]);
                assert(before[i].tx.spec_id().spec_lt(txs[n - 1].id));
            }
        }
        assert forall|k: int| 0 <= k < now.len() implies exists|i: int|
            0 <= i < n && (#[trigger] now[k]).tx == spec_to_pending(txs[i]) && txs[i].subpool
                == SubPool::Pending by {
            if k < before.len() {
                assert(now[k] == before[k]);
                let i = choose|i: int|
                    0 <= i < n - 1 && before[k].tx == spec_to_pending(txs[i]) && txs[i].subpool
                        == SubPool::Pending;
                assert(0 <= i < n && now[k].tx == spec_to_pending(txs[i]));
            } else {
                assert(now[k].tx == spec_to_pending(txs[n - 1]));
            }
        }
    }
}

impl<O: TransactionOrdering> TxPool<O> {
    /// The transaction with this hash, where the pool holds it.
    pub fn get(&self, hash: &TxHash) -> (r: Option<HeldTx>)
        ensures
            r is Some <==> holds_hash(self@, *hash),
            r matches Some(h) ==> h.tx.hash == *hash && exists|i: int|
                0 <= i < self@.len() && #[trigger] self@[i] == h,
    {
        match self.find_hash(hash) {
            Some(i) => {
                let h = self.txs[i];
                proof {
                    assert(self@[i as int] == h);
                }
                Some(h)
            },
            None => None,
        }
    }

    /// The transactions with the given hashes that the pool holds, in the
    /// order of the hashes.
    pub fn get_all(&self, hashes: &Vec<TxHash>) -> (r: Vec<HeldTx>)
        ensures
            r@ == found_upto(self@, hashes@, hashes@.len() as int),
    {
        let mut out: Vec<HeldTx> = Vec::new();
        let mut k: usize = 0;
        while k < hashes.len()
            invariant
                k <= hashes.len(),
                out@ == found_upto(self@, hashes@, k as int),
            decreases hashes.len() - k,
        {
            match self.find_hash(&hashes[k]) {
                Some(i) => {
                    proof {
                        assert(holds_hash(self@, hashes@[k as int]));
                        lemma_first_place_of_hash(self@, hashes@[k as int], 0, i as int);
                    }
                    out.push(self.txs[i]);
                },
                None => {},
            }
            k = k + 1;
        }
        out
    }

    /// The transactions of `sender`, in order of nonce.
    pub fn get_transactions_by_sender(&self, sender: &Address) -> (r: Vec<HeldTx>)
        requires
            self.structural(),
        ensures
            is_chain_of(self@, *sender, r@),
    {
        match self.senders.sender_id(sender) {
            None => {
                proof {
                    assert forall|i: int| 0 <= i < self@.len() implies (#[trigger] self@[i]).tx.sender
                        != *sender by {
                        assert(entry_ok(
                            self@[i],
                            self.senders@,
                            self.accounts@,
                            self.next_submission_id,
                        ));
                        assert(self.senders@.contains(self@[i].tx.sender));
                    }
                    assert(is_run_of(self@, *sender, 0, 0));
                    assert(Seq::<HeldTx>::empty() =~= self@.subrange(0, 0));
                }
                let out: Vec<HeldTx> = Vec::new();
                proof {
                    assert(out@ =~= self@.subrange(0, 0));
                }
                out
            },
            Some(sid) => {
                let s = self.position(&TransactionId::new(sid, 0));
                let e = self.run_end(s, sid);
                proof {
                    crate::identifier::lemma_interner_bijection(self.senders, *sender, *sender, 0);
                    assert forall|i: int| 0 <= i < self@.len() implies ((s <= i < e) <==> (
                    #[trigger] self@[i]).tx.sender == *sender) by {
                        assert(entry_ok(
                            self@[i],
                            self.senders@,
                            self.accounts@,
                            self.next_submission_id,
                        ));
                        crate::identifier::lemma_interner_bijection(
                            self.senders,
                            *sender,
                            self@[i].tx.sender,
                            self@[i].id.sender.0 as int,
                        );
                        if i < s {
                            assert(self@[i].id.spec_lt(TransactionId { sender: sid, nonce: 0 }));
                        } else if i >= e {
                            assert(!self@[e as int].id.spec_lt(
                                TransactionId { sender: sid, nonce: 0 },
                            ));
                            if i > e {
                                assert(in_order(self@[e as int], self@[i]));
                            }
                        }
                    }
                    assert(is_run_of(self@, *sender, s as int, e as int));
                }
                self.copy_range(s, e)
            },
        }
    }

    /// The transaction of `sender` with `nonce`, where the pool holds it.
    pub fn get_transaction_by_sender_and_nonce(&self, sender: &Address, nonce: u64) -> (r: Option<
        HeldTx,
    >)
        requires
            self.structural(),
        ensures
            r is Some <==> exists|i: int|
                0 <= i < self@.len() && (#[trigger] self@[i]).tx.sender == *sender
                    && self@[i].tx.nonce == nonce,
            r matches Some(h) ==> h.tx.sender == *sender && h.tx.nonce == nonce && exists|i: int|
                0 <= i < self@.len() && #[trigger] self@[i] == h,
    {
        let found = match self.senders.sender_id(sender) {
            None => None,
            Some(sid) => {
                let id = TransactionId::new(sid, nonce);
                match self.find_id(&id) {
                    Some(p) => Some(self.txs[p]),
                    None => None,
                }
            },
        };
        proof {
            crate::identifier::lemma_interner_bijection(self.senders, *sender, *sender, 0);
            match found {
                Some(h) => {
                    let sid = self.senders.spec_sender_id(*sender)->0;
                    let p = crate::insert::place_of_id(
                        self@,
                        TransactionId { sender: sid, nonce },
                    );
                    assert(entry_ok(self@[p], self.senders@, self.accounts@, self.next_submission_id));
                    assert(self@[p] == h);
                },
                None => {
                    if exists|i: int|
                        0 <= i < self@.len() && (#[trigger] self@[i]).tx.sender == *sender
                            && self@[i].tx.nonce == nonce {
                        let i = choose|i: int|
                            0 <= i < self@.len() && (#[trigger] self@[i]).tx.sender == *sender
                                && self@[i].tx.nonce == nonce;
                        assert(entry_ok(
                            self@[i],
                            self.senders@,
                            self.accounts@,
                            self.next_submission_id,
                        ));
                        crate::identifier::lemma_interner_bijection(
                            self.senders,
                            *sender,
                            self@[i].tx.sender,
                            self@[i].id.sender.0 as int,
                        );
                        assert(self.senders@.contains(*sender));
                        let sid = self.senders.spec_sender_id(*sender)->0;
                        assert(self@[i].id == TransactionId { sender: sid, nonce });
                    }
                },
            }
        }
        found
    }

    /// The transactions in `pool`, in order of sender and nonce.
    pub fn transactions_in(&self, pool: SubPool) -> (r: Vec<HeldTx>)
        ensures
            r@ == in_subpool(self@, pool),
    {
        let mut out: Vec<HeldTx> = Vec::new();
        let mut i: usize = 0;
        while i < self.txs.len()
            invariant
                i <= self.txs.len(),
                out@ == in_subpool_upto(self.txs@, pool, i as int),
            decreases self.txs.len() - i,
        {
            if self.txs[i].subpool == pool {
                out.push(self.txs[i]);
            }
            i = i + 1;
        }
        out
    }

    /// The pending transactions, in order of sender and nonce.
    pub fn pending_transactions(&self) -> (r: Vec<HeldTx>)
        ensures
            r@ == in_subpool(self@, SubPool::Pending),
    {
        self.transactions_in(SubPool::Pending)
    }

    /// The queued transactions, in order of sender and nonce.
    pub fn queued_transactions(&self) -> (r: Vec<HeldTx>)
        ensures
            r@ == in_subpool(self@, SubPool::Queued),
    {
        self.transactions_in(SubPool::Queued)
    }

    /// Every held transaction, in order of sender and nonce.
    pub fn all_transactions(&self) -> (r: Vec<HeldTx>)
        ensures
            r@ == self@,
    {
        let out = self.copy_range(0, self.txs.len());
        proof {
            assert(self@.subrange(0, self@.len() as int) =~= self@);
        }
        out
    }

    /// The hashes of the held transactions, in order of sender and nonce.
    pub fn all_transaction_hashes(&self) -> (r: Vec<TxHash>)
        ensures
            r@ == Seq::new(self@.len(), |i: int| self@[i].tx.hash),
    {
        let mut out: Vec<TxHash> = Vec::new();
        let mut i: usize = 0;
        while i < self.txs.len()
            invariant
                i <= self.txs.len(),
                out@ == Seq::new(i as nat, |k: int| self.txs@[k].tx.hash),
            decreases self.txs.len() - i,
        {
            out.push(self.txs[i].tx.hash);
            proof {
                assert(out@ =~= Seq::new((i + 1) as nat, |k: int| self.txs@[k].tx.hash));
            }
            i = i + 1;
        }
        out
    }

    /// How many transactions are pending, and how many are queued.
    pub fn pending_and_queued_txn_count(&self) -> (r: (usize, usize))
        ensures
            r.0 == count_in(self@, SubPool::Pending),
            r.1 == count_in(self@, SubPool::Queued),
    {
        let (pending, _) = self.subpool_stats(SubPool::Pending);
        let (queued, _) = self.subpool_stats(SubPool::Queued);
        (pending, queued)
    }

    /// How many transactions each subpool holds, and of how many bytes. A
    /// number of bytes that does not fit is given as the largest number
    /// there is; that does not happen while the subpool is within its limit.
    pub fn size(&self) -> (r: PoolSize)
        ensures
            r.pending == count_in(self@, SubPool::Pending),
            r.basefee == count_in(self@, SubPool::BaseFee),
            r.queued == count_in(self@, SubPool::Queued),
            r.blob == count_in(self@, SubPool::Blob),
            r.pending_size == capped(bytes_in(self@, SubPool::Pending)),
            r.basefee_size == capped(bytes_in(self@, SubPool::BaseFee)),
            r.queued_size == capped(bytes_in(self@, SubPool::Queued)),
            r.blob_size == capped(bytes_in(self@, SubPool::Blob)),
            r.total == self@.len(),
    {
        let (pending, pending_bytes) = self.subpool_stats(SubPool::Pending);
        let (basefee, basefee_bytes) = self.subpool_stats(SubPool::BaseFee);
        let (queued, queued_bytes) = self.subpool_stats(SubPool::Queued);
        let (blob, blob_bytes) = self.subpool_stats(SubPool::Blob);
        PoolSize {
            pending,
            pending_size: cap_to_usize(pending_bytes),
            basefee,
            basefee_size: cap_to_usize(basefee_bytes),
            queued,
            queued_size: cap_to_usize(queued_bytes),
            blob,
            blob_size: cap_to_usize(blob_bytes),
            total: self.txs.len(),
        }
    }

    /// A stream of the pending transactions as they are now, best first. It
    /// takes in nothing new and passes over nothing.
    pub fn best_transactions(&self) -> (r: BestTransactions)
        requires
            strictly_ordered(self@),
        ensures
            r@.wf(),
            r@ == (BestView {
                all: pending_entries(self@),
                invalid: Set::<u32>::empty(),
                last_priority: None,
                skip_blobs: false,
                live: false,
                budget: 0,
            }),
    {
        let mut best = BestTransactions::new();
        let mut i: usize = 0;
        proof {
            assert(best@.all =~= pending_entries_upto(self.txs@, 0));
        }
        while i < self.txs.len()
            invariant
                i <= self.txs.len(),
                strictly_ordered(self.txs@),
                best@.wf(),
                best@ == (BestView {
                    all: pending_entries_upto(self.txs@, i as int),
                    invalid: Set::<u32>::empty(),
                    last_priority: None,
                    skip_blobs: false,
                    live: false,
                    budget: 0,
                }),
            decreases self.txs.len() - i,
        {
            let h = self.txs[i];
            if h.subpool.is_pending() {
                let ghost before = best@;
                proof {
                    lemma_pending_entries(self.txs@, i as int);
                }
                best.add_transaction(h.to_pending());
                proof {
                    let tx = spec_to_pending(h);
                    let p = choose|p: int| #[trigger]
                        is_place_of(before.all, tx.spec_id(), p) && best@ == spec_insert(
                            before,
                            tx,
                            p,
                        );
                    if p < before.all.len() {
                        assert(before.all[p].tx.spec_id().spec_lt(self.txs@[i as int].id));
                    }
                    assert(p == before.all.len());
                    assert(best@.all =~= pending_entries_upto(self.txs@, i as int + 1));
                }
            }
            i = i + 1;
        }
        best
    }

    /// A stream of the pending transactions that pay the given fees, best
    /// first.
    pub fn best_transactions_with_attributes(&self, base_fee: u64, blob_fee: u64) -> (r:
        BestTransactionsWithFees)
        requires
            strictly_ordered(self@),
        ensures
            r.inner().wf(),
            r.inner() == (BestView {
                all: pending_entries(self@),
                invalid: Set::<u32>::empty(),
                last_priority: None,
                skip_blobs: false,
                live: false,
                budget: 0,
            }),
            r.spec_base_fee() == base_fee,
            r.spec_blob_fee() == blob_fee,
    {
        BestTransactionsWithFees::new(self.best_transactions(), base_fee, blob_fee)
    }
}

/// The number as a `usize`, or the largest `usize` where it does not fit.
pub open spec fn capped(n: nat) -> usize {
    if n <= usize::MAX {
        n as usize
    } else {
        usize::MAX
    }
}

/// The number as a `usize`, or the largest `usize` where it does not fit.
pub fn cap_to_usize(n: u128) -> (r: usize)
    ensures
        r == capped(n as nat),
{
    if n <= usize::MAX as u128 {
        n as usize
    } else {
        usize::MAX
    }
}

/// The first place from `from` on at which the hash is held; the length of
/// the sequence where there is none.
pub open spec fn first_place_of_hash(txs: Seq<HeldTx>, hash: TxHash, from: int) -> int
    decreases txs.len() - from,
{
    if from < 0 || from >= txs.len() {
        txs.len() as int
    } else if txs[from].tx.hash == hash {
        from
    } else {
        first_place_of_hash(txs, hash, from + 1)
    }
}

/// The first place from `from` on at which the hash is held is `i`, where
/// the hash is held at `i` and nowhere between `from` and `i`.
pub proof fn lemma_first_place_of_hash(txs: Seq<HeldTx>, hash: TxHash, from: int, i: int)
    requires
        0 <= from <= i < txs.len(),
        txs[i].tx.hash == hash,
        forall|k: int| from <= k < i ==> (#[trigger] txs[k]).tx.hash != hash,
    ensures
        first_place_of_hash(txs, hash, from) == i,
    decreases i - from,
{
    if from < i {
        assert(txs[from].tx.hash != hash);
        lemma_first_place_of_hash(txs, hash, from + 1, i);
    }
}

/// Where the hash is held at `i`, the first place from `from` on at which it
/// is held is a place between `from` and `i` at which it is held.
pub proof fn lemma_first_place_is_a_place(txs: Seq<HeldTx>, hash: TxHash, from: int, i: int)
    requires
        0 <= from <= i < txs.len(),
        txs[i].tx.hash == hash,
    ensures
        from <= first_place_of_hash(txs, hash, from) <= i,
        txs[first_place_of_hash(txs, hash, from)].tx.hash == hash,
    decreases i - from,
{
    if txs[from].tx.hash != hash {
        lemma_first_place_is_a_place(txs, hash, from + 1, i);
    }
}

/// The transactions held under the first `n` hashes, in the order of the
/// hashes.
pub open spec fn found_upto(txs: Seq<HeldTx>, hashes: Seq<TxHash>, n: int) -> Seq<HeldTx>
    decreases n,
{
    if n <= 0 || n > hashes.len() {
        Seq::empty()
    } else if holds_hash(txs, hashes[n - 1]) {
        found_upto(txs, hashes, n - 1).push(txs[first_place_of_hash(txs, hashes[n - 1], 0)])
    } else {
        found_upto(txs, hashes, n - 1)
    }
}

} // verus!
