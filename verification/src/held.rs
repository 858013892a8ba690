//! A transaction as the pool holds it, and the properties of the sequence
//! of all held transactions.
//!
//! The pool keeps its transactions in one sequence ordered by sender and
//! nonce, so that the transactions of one sender stand next to each other in
//! nonce order. Everything the pool promises is stated over that sequence.

use crate::identifier::TransactionId;
use crate::ordering::Priority;
use crate::primitives::{pow2_256, Address, TxHash, U256};
use crate::state::{classify, SubPool};
use crate::transaction::{TransactionOrigin, Tx};
use vstd::prelude::*;

verus! {

/// A transaction in the pool together with what the pool knows of it.
#[derive(Clone, Copy, Debug, PartialEq, Eq)]
pub struct HeldTx {
    /// The transaction.
    pub tx: Tx,
    /// Its interned sender and its nonce.
    pub id: TransactionId,
    /// The subpool it is in.
    pub subpool: SubPool,
    /// The number it got when the pool took it; later ones get higher numbers.
    pub submission_id: u64,
    /// The sum of the costs of the sender's held transactions up to and
    /// including this one; `None` where the sum does not fit in 256 bits.
    pub cumulative_cost: Option<U256>,
    /// Its rank for block production at the current base fee.
    pub priority: Priority,
    /// Where it came from.
    pub origin: TransactionOrigin,
    /// Whether it may be passed on to the network.
    pub propagate: bool,
}

/// What the chain says of a sender's account.
#[derive(Clone, Copy, Debug, PartialEq, Eq, Structural)]
pub struct SenderInfo {
    /// The nonce of the sender's next transaction on chain.
    pub state_nonce: u64,
    /// The balance of the account.
    pub balance: U256,
}

/// Whether `cache` stands for the number `n`: the 256-bit number `n`, or
/// `None` where `n` does not fit.
pub open spec fn caches(cache: Option<U256>, n: nat) -> bool {
    match cache {
        Some(v) => v@ == n,
        None => n >= pow2_256(),
    }
}

/// What has to hold of any two held transactions, the first standing before
/// the second: they are in order of sender and nonce, and they differ in
/// hash and in submission number.
pub open spec fn in_order(a: HeldTx, b: HeldTx) -> bool {
    &&& a.id.spec_lt(b.id)
    &&& a.tx.hash != b.tx.hash
    &&& a.submission_id != b.submission_id
}

/// The sequence is strictly ordered by sender and nonce, and no hash and no
/// submission number occurs twice.
pub open spec fn strictly_ordered(txs: Seq<HeldTx>) -> bool {
    forall|i: int, j: int| 0 <= i < j < txs.len() ==> in_order(#[trigger] txs[i], #[trigger] txs[j])
}

/// No sender has more than `cap` transactions in the sequence.
pub open spec fn slots_respected(txs: Seq<HeldTx>, cap: usize) -> bool {
    forall|i: int, j: int|
        0 <= i < j < txs.len() && (#[trigger] txs[i]).id.sender == (#[trigger] txs[j]).id.sender
            ==> j - i < cap
}

/// What has to hold of a held transaction by itself: its identifier is that
/// of its sender and nonce, its nonce is not below the sender's on-chain
/// nonce, and its submission number has been given out.
pub open spec fn entry_ok(
    h: HeldTx,
    senders: Seq<Address>,
    accounts: Seq<SenderInfo>,
    next_submission_id: u64,
) -> bool {
    &&& (h.id.sender.0 as int) < senders.len()
    &&& senders[h.id.sender.0 as int] == h.tx.sender
    &&& h.id.nonce == h.tx.nonce
    &&& h.tx.nonce >= accounts[h.id.sender.0 as int].state_nonce
    &&& h.submission_id < next_submission_id
}

/// Every held transaction is sound by itself.
pub open spec fn entries_ok(
    txs: Seq<HeldTx>,
    senders: Seq<Address>,
    accounts: Seq<SenderInfo>,
    next_submission_id: u64,
) -> bool {
    forall|i: int|
        0 <= i < txs.len() ==> entry_ok(#[trigger] txs[i], senders, accounts, next_submission_id)
}

/// Whether the transaction at `i` has the same sender as the one before it.
pub open spec fn continues_sender(txs: Seq<HeldTx>, i: int) -> bool {
    0 < i < txs.len() && txs[i - 1].id.sender == txs[i].id.sender
}

/// The sum of the costs of the transactions of the sender of `txs[i]` up to
/// and including `txs[i]`.
pub open spec fn cumulative_cost(txs: Seq<HeldTx>, i: int) -> nat
    decreases i,
{
    if i < 0 || i >= txs.len() {
        0
    } else if continues_sender(txs, i) {
        cumulative_cost(txs, i - 1) + txs[i].tx.cost@
    } else {
        txs[i].tx.cost@
    }
}

/// The subpool of the transaction with the nonce right below that of
/// `txs[i]`, where the pool holds it.
pub open spec fn predecessor_subpool(txs: Seq<HeldTx>, i: int) -> Option<SubPool> {
    if 0 < i < txs.len() && txs[i - 1].id.spec_descendant() == Some(txs[i].id) {
        Some(txs[i - 1].subpool)
    } else {
        None
    }
}

/// The subpool that the classification rule gives the transaction at `i`.
pub open spec fn expected_subpool(
    txs: Seq<HeldTx>,
    accounts: Seq<SenderInfo>,
    base_fee: u64,
    blob_fee: u128,
    i: int,
) -> SubPool {
    classify(
        txs[i].tx,
        predecessor_subpool(txs, i),
        accounts[txs[i].id.sender.0 as int].state_nonce,
        cumulative_cost(txs, i),
        accounts[txs[i].id.sender.0 as int].balance@,
        base_fee,
        blob_fee,
    )
}

/// The transaction at `i` is in the subpool that the classification rule
/// gives it, and its cached cumulative cost is right.
pub open spec fn classified_at(
    txs: Seq<HeldTx>,
    accounts: Seq<SenderInfo>,
    base_fee: u64,
    blob_fee: u128,
    i: int,
) -> bool {
    &&& txs[i].subpool == expected_subpool(txs, accounts, base_fee, blob_fee, i)
    &&& caches(txs[i].cumulative_cost, cumulative_cost(txs, i))
}

/// Every held transaction is in the subpool that the classification rule
/// gives it.
pub open spec fn classified(
    txs: Seq<HeldTx>,
    accounts: Seq<SenderInfo>,
    base_fee: u64,
    blob_fee: u128,
) -> bool {
    forall|i: int|
        0 <= i < txs.len() ==> #[trigger] classified_at(txs, accounts, base_fee, blob_fee, i)
}

/// How many of the first `n` transactions are in `pool`.
pub open spec fn count_upto(txs: Seq<HeldTx>, pool: SubPool, n: int) -> nat
    decreases n,
{
    if n <= 0 || n > txs.len() {
        0
    } else if txs[n - 1].subpool == pool {
        count_upto(txs, pool, n - 1) + 1
    } else {
        count_upto(txs, pool, n - 1)
    }
}

/// The sum of the encoded sizes of those of the first `n` transactions that
/// are in `pool`.
pub open spec fn bytes_upto(txs: Seq<HeldTx>, pool: SubPool, n: int) -> nat
    decreases n,
{
    if n <= 0 || n > txs.len() {
        0
    } else if txs[n - 1].subpool == pool {
        bytes_upto(txs, pool, n - 1) + txs[n - 1].tx.encoded_size as nat
    } else {
        bytes_upto(txs, pool, n - 1)
    }
}

/// How many transactions are in `pool`.
pub open spec fn count_in(txs: Seq<HeldTx>, pool: SubPool) -> nat {
    count_upto(txs, pool, txs.len() as int)
}

/// The sum of the encoded sizes of the transactions in `pool`.
pub open spec fn bytes_in(txs: Seq<HeldTx>, pool: SubPool) -> nat {
    bytes_upto(txs, pool, txs.len() as int)
}

/// Whether a transaction with this hash is held.
pub open spec fn holds_hash(txs: Seq<HeldTx>, hash: TxHash) -> bool {
    exists|i: int| 0 <= i < txs.len() && (#[trigger] txs[i]).tx.hash == hash
}

/// Whether a transaction with this identifier is held.
pub open spec fn holds_id(txs: Seq<HeldTx>, id: TransactionId) -> bool {
    exists|i: int| 0 <= i < txs.len() && (#[trigger] txs[i]).id == id
}

/// What of a held transaction does not depend on the state of the chain.
pub open spec fn same_submission(a: HeldTx, b: HeldTx) -> bool {
    &&& a.tx == b.tx
    &&& a.id == b.id
    &&& a.submission_id == b.submission_id
    &&& a.origin == b.origin
    &&& a.propagate == b.propagate
}

/// Whether `txs` holds the submission `h`, whatever its subpool.
pub open spec fn holds_submission(txs: Seq<HeldTx>, h: HeldTx) -> bool {
    exists|i: int| 0 <= i < txs.len() && same_submission(#[trigger] txs[i], h)
}

/// The two sequences hold the same submissions at the same places.
pub open spec fn same_submissions(a: Seq<HeldTx>, b: Seq<HeldTx>) -> bool {
    &&& a.len() == b.len()
    &&& forall|i: int| 0 <= i < a.len() ==> same_submission(#[trigger] a[i], b[i])
}

/// The cumulative cost at `k` depends on the transactions up to `k` only.
pub proof fn lemma_cumulative_cost_frame(a: Seq<HeldTx>, b: Seq<HeldTx>, k: int)
    requires
        0 <= k < a.len(),
        k < b.len(),
        forall|j: int| 0 <= j <= k ==> (#[trigger] a[j]).tx == b[j].tx && a[j].id == b[j].id,
    ensures
        cumulative_cost(a, k) == cumulative_cost(b, k),
    decreases k,
{
    if k > 0 {
        assert(a[k - 1].id == b[k - 1].id);
        assert(a[k].id == b[k].id);
        lemma_cumulative_cost_frame(a, b, k - 1);
    }
}

/// Whether the transaction at `k` is classified depends on the transactions
/// up to `k` only.
pub proof fn lemma_classified_frame(
    a: Seq<HeldTx>,
    b: Seq<HeldTx>,
    accounts: Seq<SenderInfo>,
    base_fee: u64,
    blob_fee: u128,
    k: int,
)
    requires
        0 <= k < a.len(),
        k < b.len(),
        forall|j: int| 0 <= j <= k ==> #[trigger] a[j] == b[j],
    ensures
        classified_at(a, accounts, base_fee, blob_fee, k) == classified_at(
            b,
            accounts,
            base_fee,
            blob_fee,
            k,
        ),
{
    lemma_cumulative_cost_frame(a, b, k);
    assert(a[k] == b[k]);
    if k > 0 {
        assert(a[k - 1] == b[k - 1]);
    }
}

/// A prefix of `n` transactions holds at most `n` of a subpool, of at most
/// `n` times the largest size.
pub proof fn lemma_stats_bound(txs: Seq<HeldTx>, pool: SubPool, n: int)
    requires
        0 <= n <= txs.len(),
    ensures
        count_upto(txs, pool, n) <= n,
        bytes_upto(txs, pool, n) <= n * usize::MAX,
    decreases n,
{
    if n > 0 {
        lemma_stats_bound(txs, pool, n - 1);
        assert((n - 1) * usize::MAX + usize::MAX == n * usize::MAX) by (nonlinear_arith);
    }
}

/// A subpool without any transaction counts nothing.
pub proof fn lemma_stats_empty(txs: Seq<HeldTx>, pool: SubPool, n: int)
    requires
        0 <= n <= txs.len(),
        forall|i: int| 0 <= i < n ==> (#[trigger] txs[i]).subpool != pool,
    ensures
        count_upto(txs, pool, n) == 0,
        bytes_upto(txs, pool, n) == 0,
    decreases n,
{
    if n > 0 {
        assert(txs[n - 1].subpool != pool);
        lemma_stats_empty(txs, pool, n - 1);
    }
}

/// In an ordered sequence a transaction is found by its hash, by its
/// identifier or by its submission number at one place only.
pub proof fn lemma_unique_position(txs: Seq<HeldTx>, i: int, j: int)
    requires
        strictly_ordered(txs),
        0 <= i < txs.len(),
        0 <= j < txs.len(),
        txs[i].tx.hash == txs[j].tx.hash || txs[i].id == txs[j].id || txs[i].submission_id
            == txs[j].submission_id,
    ensures
        i == j,
{
    if i < j {
        assert(in_order(txs[i], txs[j]));
    } else if j < i {
        assert(in_order(txs[j], txs[i]));
    }
}

/// The sequence without the places from `start` up to, not including, `end`.
pub open spec fn without_range(a: Seq<HeldTx>, start: int, end: int) -> Seq<HeldTx> {
    a.subrange(0, start) + a.subrange(end, a.len() as int)
}

/// Where the transaction at place `k` of `without_range` stood before.
pub open spec fn place_before_removal(k: int, start: int, end: int) -> int {
    if k < start {
        k
    } else {
        k + (end - start)
    }
}

/// Taking a range out of an ordered sequence leaves it ordered, sound and
/// within the slots.
pub proof fn lemma_structure_without_range(
    a: Seq<HeldTx>,
    start: int,
    end: int,
    senders: Seq<Address>,
    accounts: Seq<SenderInfo>,
    next_submission_id: u64,
    cap: usize,
)
    requires
        0 <= start <= end <= a.len(),
        strictly_ordered(a),
        entries_ok(a, senders, accounts, next_submission_id),
        slots_respected(a, cap),
    ensures
        strictly_ordered(without_range(a, start, end)),
        entries_ok(without_range(a, start, end), senders, accounts, next_submission_id),
        slots_respected(without_range(a, start, end), cap),
        without_range(a, start, end).len() == a.len() - (end - start),
        forall|k: int|
            0 <= k < without_range(a, start, end).len() ==> #[trigger] without_range(
                a,
                start,
                end,
            )[k] == a[place_before_removal(k, start, end)],
{
    let b = without_range(a, start, end);
    assert forall|k: int| 0 <= k < b.len() implies #[trigger] b[k] == a[place_before_removal(
        k,
        start,
        end,
    )] by {}
    assert forall|i: int, j: int| 0 <= i < j < b.len() implies in_order(
        #[trigger] b[i],
        #[trigger] b[j],
    ) by {
        let i0 = place_before_removal(i, start, end);
        let j0 = place_before_removal(j, start, end);
        assert(b[i] == a[i0]);
        assert(b[j] == a[j0]);
        assert(in_order(a[i0], a[j0]));
    }
    assert forall|i: int| 0 <= i < b.len() implies entry_ok(
        #[trigger] b[i],
        senders,
        accounts,
        next_submission_id,
    ) by {
        let i0 = place_before_removal(i, start, end);
        assert(b[i] == a[i0]);
        assert(entry_ok(a[i0], senders, accounts, next_submission_id));
    }
    assert forall|i: int, j: int|
        0 <= i < j < b.len() && (#[trigger] b[i]).id.sender == (#[trigger] b[j]).id.sender implies j
        - i < cap by {
        let i0 = place_before_removal(i, start, end);
        let j0 = place_before_removal(j, start, end);
        assert(b[i] == a[i0]);
        assert(b[j] == a[j0]);
        assert(a[i0].id.sender == a[j0].id.sender);
    }
}

/// What is held after a range was taken out is what was held outside the
/// range.
pub proof fn lemma_holds_without_range(a: Seq<HeldTx>, start: int, end: int, h: HeldTx)
    requires
        0 <= start <= end <= a.len(),
    ensures
        holds_submission(without_range(a, start, end), h) <==> exists|i: int|
            0 <= i < a.len() && !(start <= i < end) && same_submission(#[trigger] a[i], h),
{
    let b = without_range(a, start, end);
    if holds_submission(b, h) {
        let k = choose|k: int| 0 <= k < b.len() && same_submission(#[trigger] b[k], h);
        let i0 = place_before_removal(k, start, end);
        assert(b[k] == a[i0]);
        assert(0 <= i0 < a.len() && !(start <= i0 < end) && same_submission(a[i0], h));
    }
    if exists|i: int| 0 <= i < a.len() && !(start <= i < end) && same_submission(#[trigger] a[i], h) {
        let i = choose|i: int|
            0 <= i < a.len() && !(start <= i < end) && same_submission(#[trigger] a[i], h);
        let k = if i < start {
            i
        } else {
            i - (end - start)
        };
        assert(b[k] == a[i]);
        assert(same_submission(b[k], h));
    }
}

} // verus!
