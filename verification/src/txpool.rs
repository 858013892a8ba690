//! The pool of validated transactions.
//!
//! All transactions are held in one vector ordered by sender and nonce. The
//! subpool of each is a field of its entry, recomputed by one pass in order
//! whenever the transactions or the state of the chain change.

use crate::config::PoolConfig;
use crate::held::{
    bytes_in, bytes_upto, caches, classified, classified_at, continues_sender, count_in, count_upto,
    cumulative_cost, entries_ok, entry_ok, holds_hash, in_order, lemma_classified_frame,
    lemma_cumulative_cost_frame, lemma_stats_bound, lemma_structure_without_range, same_submission,
    same_submissions, slots_respected, strictly_ordered, without_range, HeldTx, SenderInfo,
};
use crate::identifier::{SenderId, SenderIdentifiers, TransactionId};
use crate::ordering::TransactionOrdering;
use crate::primitives::{lemma_u256_range, Address, TxHash, B256, U256};
use crate::state::{classify_transaction, SubPool};
use vstd::prelude::*;

verus! {

/// What the pool knows of the chain's tip and of the next block.
#[derive(Clone, Copy, Debug, PartialEq, Eq)]
pub struct BlockInfo {
    /// The hash of the last block the pool was told of.
    pub last_seen_block_hash: B256,
    /// The number of that block.
    pub last_seen_block_number: u64,
    /// The gas limit of a block.
    pub block_gas_limit: u64,
    /// The base fee of the next block.
    pub pending_basefee: u64,
    /// The blob fee of the next block, where blobs are active.
    pub pending_blob_fee: Option<u128>,
}

impl BlockInfo {
    /// The blob fee of the next block, zero where blobs are not active.
    pub open spec fn spec_blob_fee(&self) -> u128 {
        match self.pending_blob_fee {
            Some(f) => f,
            None => 0,
        }
    }

    /// The blob fee of the next block, zero where blobs are not active.
    pub fn blob_fee(&self) -> (r: u128)
        ensures
            r == self.spec_blob_fee(),
    {
        match self.pending_blob_fee {
            Some(f) => f,
            None => 0,
        }
    }
}

/// What a new pool takes the chain to be: no block seen yet, the gas limit
/// of the configuration, the lowest base fee that the pool is set up for,
/// and no blob fee.
pub open spec fn spec_first_block_info(config: PoolConfig) -> BlockInfo {
    BlockInfo {
        last_seen_block_hash: B256 { hi: 0, lo: 0 },
        last_seen_block_number: 0,
        block_gas_limit: config.gas_limit,
        pending_basefee: config.minimal_protocol_basefee,
        pending_blob_fee: None,
    }
}

/// How many transactions each subpool holds, and of how many bytes.
#[derive(Clone, Copy, Debug, PartialEq, Eq, Structural)]
pub struct PoolSize {
    /// The number of pending transactions.
    pub pending: usize,
    /// The sum of their encoded sizes.
    pub pending_size: usize,
    /// The number of transactions in the base-fee subpool.
    pub basefee: usize,
    /// The sum of their encoded sizes.
    pub basefee_size: usize,
    /// The number of queued transactions.
    pub queued: usize,
    /// The sum of their encoded sizes.
    pub queued_size: usize,
    /// The number of transactions in the blob subpool.
    pub blob: usize,
    /// The sum of their encoded sizes.
    pub blob_size: usize,
    /// The number of transactions in the pool.
    pub total: usize,
}

/// The pool of validated transactions, ranked by `O`.
#[derive(Debug)]
pub struct TxPool<O: TransactionOrdering> {
    pub(crate) ordering: O,
    pub(crate) config: PoolConfig,
    pub(crate) info: BlockInfo,
    pub(crate) senders: SenderIdentifiers,
    pub(crate) accounts: Vec<SenderInfo>,
    pub(crate) txs: Vec<HeldTx>,
    pub(crate) next_submission_id: u64,
}

impl<O: TransactionOrdering> View for TxPool<O> {
    type V = Seq<HeldTx>;

    /// The held transactions in order of sender and nonce.
    open(crate) spec fn view(&self) -> Seq<HeldTx> {
        self.txs@
    }
}

/// The subpool holds no more than the configuration lets it.
pub open spec fn limit_kept(txs: Seq<HeldTx>, pool: SubPool, config: PoolConfig) -> bool {
    !spec_limit_of(config, pool).spec_is_exceeded(count_in(txs, pool), bytes_in(txs, pool))
}

/// The limit that the configuration sets for a subpool.
pub open spec fn spec_limit_of(config: PoolConfig, pool: SubPool) -> crate::config::SubPoolLimit {
    match pool {
        SubPool::Pending => config.pending_limit,
        SubPool::BaseFee => config.basefee_limit,
        SubPool::Blob => config.blob_limit,
        SubPool::Queued => config.queued_limit,
    }
}

/// The limit that the configuration sets for a subpool.
pub fn limit_of(config: &PoolConfig, pool: SubPool) -> (r: crate::config::SubPoolLimit)
    ensures
        r == spec_limit_of(*config, pool),
{
    match pool {
        SubPool::Pending => config.pending_limit,
        SubPool::BaseFee => config.basefee_limit,
        SubPool::Blob => config.blob_limit,
        SubPool::Queued => config.queued_limit,
    }
}

/// Every subpool is within its limit.
pub open spec fn limits_kept(txs: Seq<HeldTx>, config: PoolConfig) -> bool {
    &&& limit_kept(txs, SubPool::Pending, config)
    &&& limit_kept(txs, SubPool::BaseFee, config)
    &&& limit_kept(txs, SubPool::Blob, config)
    &&& limit_kept(txs, SubPool::Queued, config)
}

/// An ordered sequence stays ordered, sound and within the slots when the
/// subpools, costs and ranks of its entries are rewritten.
pub proof fn lemma_structure_of_same_submissions(
    a: Seq<HeldTx>,
    b: Seq<HeldTx>,
    senders: Seq<Address>,
    accounts: Seq<SenderInfo>,
    next_submission_id: u64,
    cap: usize,
)
    requires
        same_submissions(a, b),
        strictly_ordered(a),
        entries_ok(a, senders, accounts, next_submission_id),
        slots_respected(a, cap),
    ensures
        strictly_ordered(b),
        entries_ok(b, senders, accounts, next_submission_id),
        slots_respected(b, cap),
{
    assert forall|i: int, j: int| 0 <= i < j < b.len() implies in_order(
        #[trigger] b[i],
        #[trigger] b[j],
    ) by {
        assert(same_submission(a[i], b[i]));
        assert(same_submission(a[j], b[j]));
        assert(in_order(a[i], a[j]));
    }
    assert forall|i: int| 0 <= i < b.len() implies entry_ok(
        #[trigger] b[i],
        senders,
        accounts,
        next_submission_id,
    ) by {
        assert(same_submission(a[i], b[i]));
        assert(entry_ok(a[i], senders, accounts, next_submission_id));
    }
    assert forall|i: int, j: int|
        0 <= i < j < b.len() && (#[trigger] b[i]).id.sender == (#[trigger] b[j]).id.sender implies j
        - i < cap by {
        assert(same_submission(a[i], b[i]));
        assert(same_submission(a[j], b[j]));
    }
}

impl<O: TransactionOrdering> TxPool<O> {
    /// The table of senders.
    pub open(crate) spec fn sender_table(&self) -> SenderIdentifiers {
        self.senders
    }

    /// What the chain says of each sender, by sender identifier.
    pub open(crate) spec fn accounts(&self) -> Seq<SenderInfo> {
        self.accounts@
    }

    /// What the pool knows of the chain's tip.
    pub open(crate) spec fn spec_block_info(&self) -> BlockInfo {
        self.info
    }

    /// The configuration.
    pub open(crate) spec fn spec_config(&self) -> PoolConfig {
        self.config
    }

    /// The ordering.
    pub open(crate) spec fn spec_ordering(&self) -> O {
        self.ordering
    }

    /// The submission number that the next transaction gets.
    pub open(crate) spec fn spec_next_submission_id(&self) -> u64 {
        self.next_submission_id
    }

    /// The base fee of the next block.
    pub open spec fn spec_base_fee(&self) -> u64 {
        self.spec_block_info().pending_basefee
    }

    /// The blob fee of the next block.
    pub open spec fn spec_blob_fee(&self) -> u128 {
        self.spec_block_info().spec_blob_fee()
    }

    /// The held transactions are ordered by sender and nonce without a
    /// hash or a submission number twice; each belongs to a known sender and
    /// has a nonce that is not below the on-chain nonce; no sender has more
    /// than the configured number of them.
    pub open spec fn structural(&self) -> bool {
        &&& self.sender_table().wf()
        &&& self.accounts().len() == self.sender_table()@.len()
        &&& strictly_ordered(self@)
        &&& entries_ok(
            self@,
            self.sender_table()@,
            self.accounts(),
            self.spec_next_submission_id(),
        )
        &&& slots_respected(self@, self.spec_config().max_account_slots)
    }

    /// Every held transaction has the rank that the ordering gives it at the
    /// current base fee.
    pub open spec fn ranked(&self) -> bool {
        forall|i: int|
            0 <= i < self@.len() ==> (#[trigger] self@[i]).priority
                == self.spec_ordering().spec_priority(self@[i].tx, self.spec_base_fee())
    }

    /// Every held transaction is in the subpool that the classification
    /// rule gives it.
    pub open spec fn sorted_into_subpools(&self) -> bool {
        classified(self@, self.accounts(), self.spec_base_fee(), self.spec_blob_fee())
    }

    /// The pool is sound but for the limits of the subpools.
    pub open spec fn consistent(&self) -> bool {
        &&& self.structural()
        &&& self.sorted_into_subpools()
        &&& self.ranked()
    }

    /// What holds of the pool between any two operations.
    pub open spec fn wf(&self) -> bool {
        &&& self.consistent()
        &&& limits_kept(self@, self.spec_config())
    }

    /// The two pools differ in their transactions at most.
    pub open spec fn same_surroundings(&self, other: &Self) -> bool {
        &&& self.sender_table() == other.sender_table()
        &&& self.accounts() == other.accounts()
        &&& self.spec_block_info() == other.spec_block_info()
        &&& self.spec_config() == other.spec_config()
        &&& self.spec_ordering() == other.spec_ordering()
        &&& self.spec_next_submission_id() == other.spec_next_submission_id()
    }

    /// Every transaction of another sender than `sender` that both pools
    /// hold is held in the same way in both: in the same subpool, with the
    /// same cumulative cost and the same rank.
    pub open spec fn keeps_other_senders(&self, after: &Self, sender: SenderId) -> bool {
        forall|i: int, j: int|
            0 <= i < self@.len() && 0 <= j < after@.len() && same_submission(
                #[trigger] self@[i],
                #[trigger] after@[j],
            ) && self@[i].id.sender != sender ==> after@[j] == self@[i]
    }

    /// Whether the pool holds a transaction with this hash.
    pub open spec fn spec_contains(&self, hash: TxHash) -> bool {
        holds_hash(self@, hash)
    }

    /// An empty pool.
    pub fn new(ordering: O, config: PoolConfig) -> (r: Self)
        ensures
            r.wf(),
            r@.len() == 0,
            r.spec_config() == config,
            r.spec_ordering() == ordering,
            r.sender_table()@.len() == 0,
            r.spec_next_submission_id() == 0,
            r.spec_block_info() == spec_first_block_info(config),
    {
        Self::starting_at(ordering, config, 0)
    }

    /// An empty pool that numbers its submissions from `first_submission_id`
    /// on.
    pub fn starting_at(ordering: O, config: PoolConfig, first_submission_id: u64) -> (r: Self)
        ensures
            r.wf(),
            r@.len() == 0,
            r.spec_config() == config,
            r.spec_ordering() == ordering,
            r.sender_table()@.len() == 0,
            r.spec_next_submission_id() == first_submission_id,
            r.spec_block_info() == spec_first_block_info(config),
    {
        let info = BlockInfo {
            last_seen_block_hash: B256::new(0, 0),
            last_seen_block_number: 0,
            block_gas_limit: config.gas_limit,
            pending_basefee: config.minimal_protocol_basefee,
            pending_blob_fee: None,
        };
        TxPool {
            ordering,
            config,
            info,
            senders: SenderIdentifiers::new(),
            accounts: Vec::new(),
            txs: Vec::new(),
            next_submission_id: first_submission_id,
        }
    }

    /// The configuration.
    pub fn config(&self) -> (r: &PoolConfig)
        ensures
            *r == self.spec_config(),
    {
        &self.config
    }

    /// What the pool knows of the chain's tip.
    pub fn block_info(&self) -> (r: BlockInfo)
        ensures
            r == self.spec_block_info(),
    {
        self.info
    }

    /// The number of held transactions.
    pub fn len(&self) -> (r: usize)
        ensures
            r == self@.len(),
    {
        self.txs.len()
    }

    /// Whether the pool holds nothing.
    pub fn is_empty(&self) -> (r: bool)
        ensures
            r == (self@.len() == 0),
    {
        self.txs.len() == 0
    }

    /// The place of the transaction with this hash.
    pub(crate) fn find_hash(&self, hash: &TxHash) -> (r: Option<usize>)
        ensures
            r matches Some(i) ==> i < self@.len() && self@[i as int].tx.hash == *hash && forall|
                k: int,
            | 0 <= k < i ==> (#[trigger] self@[k]).tx.hash != *hash,
            r is None ==> !holds_hash(self@, *hash),
    {
        let mut i: usize = 0;
        while i < self.txs.len()
            invariant
                i <= self.txs.len(),
                forall|k: int| 0 <= k < i ==> (#[trigger] self.txs@[k]).tx.hash != *hash,
            decreases self.txs.len() - i,
        {
            let h = self.txs[i].tx.hash;
            if h.hi == hash.hi && h.lo == hash.lo {
                return Some(i);
            }
            i = i + 1;
        }
        None
    }

    /// The first place whose transaction does not come before `id`.
    pub(crate) fn position(&self, id: &TransactionId) -> (r: usize)
        requires
            strictly_ordered(self@),
        ensures
            r <= self@.len(),
            forall|k: int| 0 <= k < r ==> (#[trigger] self@[k]).id.spec_lt(*id),
            forall|k: int| r <= k < self@.len() ==> !(#[trigger] self@[k]).id.spec_lt(*id),
    {
        let mut i: usize = 0;
        while i < self.txs.len()
            invariant
                i <= self.txs.len(),
                strictly_ordered(self.txs@),
                forall|k: int| 0 <= k < i ==> (#[trigger] self.txs@[k]).id.spec_lt(*id),
            decreases self.txs.len() - i,
        {
            if !self.txs[i].id.lt(id) {
                assert forall|k: int| i <= k < self.txs@.len() implies !(
                #[trigger] self.txs@[k]).id.spec_lt(*id) by {
                    if k > i {
                        assert(in_order(self.txs@[i as int], self.txs@[k]));
                    }
                }
                return i;
            }
            i = i + 1;
        }
        i
    }

    /// How many transactions the subpool holds, and of how many bytes.
    pub fn subpool_stats(&self, pool: SubPool) -> (r: (usize, u128))
        ensures
            r.0 == count_in(self@, pool),
            r.1 == bytes_in(self@, pool),
    {
        let mut count: usize = 0;
        let mut bytes: u128 = 0;
        let mut i: usize = 0;
        while i < self.txs.len()
            invariant
                i <= self.txs.len(),
                count == count_upto(self.txs@, pool, i as int),
                bytes == bytes_upto(self.txs@, pool, i as int),
            decreases self.txs.len() - i,
        {
            proof {
                lemma_stats_bound(self.txs@, pool, i as int);
                lemma_stats_bound(self.txs@, pool, i as int + 1);
                assert((i + 1) * usize::MAX <= usize::MAX * usize::MAX) by (nonlinear_arith)
                    requires
                        i + 1 <= usize::MAX,
                ;
                assert(usize::MAX * usize::MAX <= 0xFFFF_FFFF_FFFF_FFFF * 0xFFFF_FFFF_FFFF_FFFF)
                    by (nonlinear_arith)
                    requires
                        usize::MAX <= 0xFFFF_FFFF_FFFF_FFFF,
                ;
            }
            if self.txs[i].subpool == pool {
                count = count + 1;
                bytes = bytes + self.txs[i].tx.encoded_size as u128;
            }
            i = i + 1;
        }
        (count, bytes)
    }

    /// Sorts every held transaction into its subpool anew, and recomputes
    /// the cumulative costs and the ranks.
    pub(crate) fn reclassify(&mut self)
        requires
            old(self).structural(),
        ensures
            final(self).consistent(),
            same_submissions(old(self)@, final(self)@),
            final(self).same_surroundings(old(self)),
    {
        let n = self.txs.len();
        let base_fee = self.info.pending_basefee;
        let blob_fee = self.info.blob_fee();
        let mut i: usize = 0;
        let mut running: Option<U256> = None;
        while i < n
            invariant
                i <= n,
                n == self.txs@.len(),
                old(self).structural(),
                same_submissions(old(self).txs@, self.txs@),
                self.same_surroundings(old(self)),
                base_fee == self.info.pending_basefee,
                blob_fee == self.info.spec_blob_fee(),
                forall|k: int|
                    0 <= k < i ==> #[trigger] classified_at(
                        self.txs@,
                        self.accounts@,
                        base_fee,
                        blob_fee,
                        k,
                    ),
                forall|k: int|
                    0 <= k < i ==> (#[trigger] self.txs@[k]).priority
                        == self.ordering.spec_priority(self.txs@[k].tx, base_fee),
                i > 0 ==> caches(running, cumulative_cost(self.txs@, i - 1)),
            decreases n - i,
        {
            let cur = self.txs[i];
            proof {
                assert(same_submission(old(self).txs@[i as int], cur));
                assert(entry_ok(
                    old(self).txs@[i as int],
                    self.senders@,
                    self.accounts@,
                    self.next_submission_id,
                ));
            }
            let account = self.accounts[cur.id.sender.0 as usize];
            let mut same_sender = false;
            let mut prev: Option<SubPool> = None;
            if i > 0 {
                let before = self.txs[i - 1];
                same_sender = before.id.sender.0 == cur.id.sender.0;
                if before.id.is_followed_by(&cur.id) {
                    prev = Some(before.subpool);
                }
            }
            let total: Option<U256> = if same_sender {
                match running {
                    Some(c) => c.checked_add(&cur.tx.cost),
                    None => None,
                }
            } else {
                Some(cur.tx.cost)
            };
            let exceeds = match total {
                Some(c) => c.gt(&account.balance),
                None => true,
            };
            let subpool = classify_transaction(
                &cur.tx,
                prev,
                account.state_nonce,
                exceeds,
                base_fee,
                blob_fee,
            );
            let priority = self.ordering.priority(&cur.tx, base_fee);
            let updated = HeldTx {
                tx: cur.tx,
                id: cur.id,
                subpool,
                submission_id: cur.submission_id,
                cumulative_cost: total,
                priority,
                origin: cur.origin,
                propagate: cur.propagate,
            };
            let ghost before_seq = self.txs@;
            self.txs[i] = updated;
            proof {
                let after_seq = self.txs@;
                assert(after_seq == before_seq.update(i as int, updated));
                assert forall|k: int| 0 <= k < i implies #[trigger] classified_at(
                    after_seq,
                    self.accounts@,
                    base_fee,
                    blob_fee,
                    k,
                ) by {
                    assert(classified_at(before_seq, self.accounts@, base_fee, blob_fee, k));
                    lemma_classified_frame(
                        before_seq,
                        after_seq,
                        self.accounts@,
                        base_fee,
                        blob_fee,
                        k,
                    );
                }
                if i > 0 {
                    lemma_cumulative_cost_frame(before_seq, after_seq, i as int - 1);
                }
                assert(continues_sender(after_seq, i as int) == same_sender);
                assert(caches(total, cumulative_cost(after_seq, i as int)));
                lemma_u256_range(account.balance, account.balance);
                assert(exceeds == (cumulative_cost(after_seq, i as int) > account.balance@));
                assert(classified_at(after_seq, self.accounts@, base_fee, blob_fee, i as int));
                assert forall|k: int| 0 <= k < after_seq.len() implies same_submission(
                    #[trigger] old(self).txs@[k],
                    after_seq[k],
                ) by {
                    assert(same_submission(old(self).txs@[k], before_seq[k]));
                }
            }
            running = total;
            i = i + 1;
        }
        proof {
            lemma_structure_of_same_submissions(
                old(self).txs@,
                self.txs@,
                self.senders@,
                self.accounts@,
                self.next_submission_id,
                self.config.max_account_slots,
            );
        }
    }
}

impl<O: TransactionOrdering> TxPool<O> {
    /// Takes the transactions at the places from `start` up to, not
    /// including, `end` out of the pool.
    pub(crate) fn remove_range(&mut self, start: usize, end: usize)
        requires
            old(self).structural(),
            start <= end <= old(self)@.len(),
        ensures
            final(self).structural(),
            final(self)@ == without_range(old(self)@, start as int, end as int),
            final(self).same_surroundings(old(self)),
    {
        let n = self.txs.len();
        let gap = end - start;
        let ghost target = without_range(self.txs@, start as int, end as int);
        let mut k: usize = end;
        while k < n
            invariant
                start <= end <= k <= n,
                gap == end - start,
                n == self.txs@.len(),
                n == old(self).txs@.len(),
                target == without_range(old(self).txs@, start as int, end as int),
                self.same_surroundings(old(self)),
                forall|j: int| 0 <= j < k - gap ==> #[trigger] self.txs@[j] == target[j],
                forall|j: int| k <= j < n ==> #[trigger] self.txs@[j] == old(self).txs@[j],
            decreases n - k,
        {
            let moved = self.txs[k];
            self.txs[k - gap] = moved;
            k = k + 1;
        }
        self.txs.truncate(n - gap);
        proof {
            assert(self.txs@ =~= target);
            lemma_structure_without_range(
                old(self).txs@,
                start as int,
                end as int,
                self.senders@,
                self.accounts@,
                self.next_submission_id,
                self.config.max_account_slots,
            );
        }
    }

    /// The first place from `from` on whose transaction is not of `sender`.
    pub(crate) fn run_end(&self, from: usize, sender: SenderId) -> (r: usize)
        requires
            from <= self@.len(),
        ensures
            from <= r <= self@.len(),
            forall|k: int| from <= k < r ==> (#[trigger] self@[k]).id.sender == sender,
            r < self@.len() ==> self@[r as int].id.sender != sender,
    {
        let mut k: usize = from;
        while k < self.txs.len() && self.txs[k].id.sender.0 == sender.0
            invariant
                from <= k <= self.txs.len(),
                forall|j: int| from <= j < k ==> (#[trigger] self.txs@[j]).id.sender == sender,
            decreases self.txs.len() - k,
        {
            k = k + 1;
        }
        k
    }
}

} // verus!
