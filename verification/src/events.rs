//! What the pool tells its listeners.

use crate::held::HeldTx;
use crate::maintain::OnNewCanonicalStateOutcome;
use crate::pool::AddedTransactionOutcome;
use crate::primitives::{TxHash, B256};
use crate::state::SubPool;
use vstd::prelude::*;

verus! {

/// What has happened to a transaction.
#[derive(Clone, Copy, Debug, PartialEq, Eq, Structural)]
pub enum TransactionEvent {
    /// The transaction is ready for the next block.
    Pending,
    /// The transaction is held but not ready.
    Queued,
    /// The transaction is in the block with this hash.
    Mined(B256),
    /// The transaction with this hash has taken the place of the transaction.
    Replaced(TxHash),
    /// The transaction has left the pool for good.
    Discarded,
    /// The transaction was found invalid.
    Invalid,
    /// The transaction was passed on to the network.
    Propagated,
}

/// An event with the hash of the transaction that it is about.
#[derive(Clone, Copy, Debug, PartialEq, Eq, Structural)]
pub struct FullTransactionEvent {
    /// The hash of the transaction.
    pub hash: TxHash,
    /// What has happened to it.
    pub event: TransactionEvent,
}

/// Which transactions a listener wants to hear of.
#[derive(Clone, Copy, Debug, PartialEq, Eq, Structural)]
pub enum TransactionListenerKind {
    /// Every transaction.
    All,
    /// Only the transactions that may be passed on to the network.
    PropagateOnly,
}

impl TransactionListenerKind {
    /// Whether the listener wants only what may be passed on.
    pub fn is_propagate_only(&self) -> (r: bool)
        ensures
            r == (*self == TransactionListenerKind::PropagateOnly),
    {
        match self {
            TransactionListenerKind::PropagateOnly => true,
            TransactionListenerKind::All => false,
        }
    }

    /// Whether the listener hears of a transaction that may (or may not)
    /// be passed on.
    pub fn hears_of(&self, propagate: bool) -> (r: bool)
        ensures
            r == (*self == TransactionListenerKind::All || propagate),
    {
        match self {
            TransactionListenerKind::All => true,
            TransactionListenerKind::PropagateOnly => propagate,
        }
    }
}

/// The event that tells the subpool of a transaction: `Pending` for the
/// pending subpool, `Queued` for any other.
pub open spec fn spec_event_of(subpool: SubPool) -> TransactionEvent {
    if subpool == SubPool::Pending {
        TransactionEvent::Pending
    } else {
        TransactionEvent::Queued
    }
}

/// The event that tells the subpool of a transaction.
pub fn event_of(subpool: SubPool) -> (r: TransactionEvent)
    ensures
        r == spec_event_of(subpool),
{
    match subpool {
        SubPool::Pending => TransactionEvent::Pending,
        _ => TransactionEvent::Queued,
    }
}

/// The events of the first `n` departed transactions after a transaction
/// was taken: the one that was replaced hears that, any other hears that it
/// was discarded.
pub open spec fn departed_events_upto(
    discarded: Seq<HeldTx>,
    replaced: Option<HeldTx>,
    by: TxHash,
    n: int,
) -> Seq<FullTransactionEvent>
    decreases n,
{
    if n <= 0 || n > discarded.len() {
        Seq::empty()
    } else {
        let h = discarded[n - 1];
        departed_events_upto(discarded, replaced, by, n - 1).push(
            FullTransactionEvent {
                hash: h.tx.hash,
                event: if replaced matches Some(x) && x.tx.hash == h.tx.hash {
                    TransactionEvent::Replaced(by)
                } else {
                    TransactionEvent::Discarded
                },
            },
        )
    }
}

/// What the listeners hear after the pool took a transaction: first the
/// subpool of the new transaction, then what has become of every
/// transaction that has left.
pub fn added_events(outcome: &AddedTransactionOutcome) -> (r: Vec<FullTransactionEvent>)
    ensures
        r@ == seq![
            FullTransactionEvent { hash: outcome.hash, event: spec_event_of(outcome.subpool) },
        ] + departed_events_upto(
            outcome.discarded@,
            outcome.replaced,
            outcome.hash,
            outcome.discarded@.len() as int,
        ),
{
    let mut out: Vec<FullTransactionEvent> = Vec::new();
    out.push(FullTransactionEvent { hash: outcome.hash, event: event_of(outcome.subpool) });
    let ghost first = out@;
    let mut k: usize = 0;
    while k < outcome.discarded.len()
        invariant
            k <= outcome.discarded.len(),
            out@ == first + departed_events_upto(
                outcome.discarded@,
                outcome.replaced,
                outcome.hash,
                k as int,
            ),
        decreases outcome.discarded.len() - k,
    {
        let h = outcome.discarded[k];
        let was_replaced = match outcome.replaced {
            Some(x) => x.tx.hash == h.tx.hash,
            None => false,
        };
        let event = if was_replaced {
            TransactionEvent::Replaced(outcome.hash)
        } else {
            TransactionEvent::Discarded
        };
        out.push(FullTransactionEvent { hash: h.tx.hash, event });
        k = k + 1;
    }
    out
}

/// The same event for each of the first `n` transactions.
pub open spec fn events_upto(txs: Seq<HeldTx>, event: TransactionEvent, n: int) -> Seq<
    FullTransactionEvent,
>
    decreases n,
{
    if n <= 0 || n > txs.len() {
        Seq::empty()
    } else {
        events_upto(txs, event, n - 1).push(FullTransactionEvent { hash: txs[n - 1].tx.hash, event })
    }
}

/// The same event for each of the transactions.
pub fn events_for(txs: &Vec<HeldTx>, event: TransactionEvent) -> (r: Vec<FullTransactionEvent>)
    ensures
        r@ == events_upto(txs@, event, txs@.len() as int),
{
    let mut out: Vec<FullTransactionEvent> = Vec::new();
    let mut k: usize = 0;
    while k < txs.len()
        invariant
            k <= txs.len(),
            out@ == events_upto(txs@, event, k as int),
        decreases txs.len() - k,
    {
        out.push(FullTransactionEvent { hash: txs[k].tx.hash, event });
        k = k + 1;
    }
    out
}

/// What the listeners hear after a new tip: the mined transactions are
/// mined in the block of the tip, the others that have left are discarded.
pub fn canonical_events(outcome: &OnNewCanonicalStateOutcome) -> (r: Vec<FullTransactionEvent>)
    ensures
        r@ == events_upto(
            outcome.mined@,
            TransactionEvent::Mined(outcome.block_hash),
            outcome.mined@.len() as int,
        ) + events_upto(
            outcome.discarded@,
            TransactionEvent::Discarded,
            outcome.discarded@.len() as int,
        ),
{
    let mut out = events_for(&outcome.mined, TransactionEvent::Mined(outcome.block_hash));
    let mut rest = events_for(&outcome.discarded, TransactionEvent::Discarded);
    out.append(&mut rest);
    out
}

/// The transactions stand in order of sender and nonce, no sender and nonce
/// twice.
pub open spec fn ids_increase(txs: Seq<HeldTx>) -> bool {
    forall|i: int, j: int| 0 <= i < j < txs.len() ==> (#[trigger] txs[i]).id.spec_lt((#[trigger] txs[j]).id)
}

/// The held transactions of a pool stand in order of sender and nonce.
pub proof fn lemma_held_ids_increase(txs: Seq<HeldTx>)
    requires
        crate::held::strictly_ordered(txs),
    ensures
        ids_increase(txs),
{
    assert forall|i: int, j: int| 0 <= i < j < txs.len() implies (#[trigger] txs[i]).id.spec_lt(
        (#[trigger] txs[j]).id,
    ) by {
        assert(crate::held::in_order(txs[i], txs[j]));
    }
}

/// Whether the transactions stand in order of sender and nonce, no sender
/// and nonce twice.
pub fn in_order_of_ids(txs: &Vec<HeldTx>) -> (r: bool)
    ensures
        r == ids_increase(txs@),
{
    let mut k: usize = 1;
    while k < txs.len()
        invariant
            1 <= k,
            forall|i: int, j: int|
                0 <= i < j < k && j < txs@.len() ==> (#[trigger] txs@[i]).id.spec_lt(
                    (#[trigger] txs@[j]).id,
                ),
        decreases txs.len() - k,
    {
        if !txs[k - 1].id.lt(&txs[k].id) {
            return false;
        }
        proof {
            assert forall|i: int, j: int| 0 <= i < j < k + 1 && j < txs@.len() implies (
            #[trigger] txs@[i]).id.spec_lt((#[trigger] txs@[j]).id) by {
                if j == k && i < k - 1 {
                    assert(txs@[i].id.spec_lt(txs@[k - 1].id));
                }
            }
        }
        k = k + 1;
    }
    true
}

/// Whether the transaction at `j` of `after` stood at `i` of `before` and
/// has changed between the pending subpool and the others.
pub open spec fn has_moved(before: Seq<HeldTx>, after: Seq<HeldTx>, i: int, j: int) -> bool {
    &&& 0 <= i < before.len()
    &&& 0 <= j < after.len()
    &&& before[i].id == after[j].id
    &&& before[i].tx.hash == after[j].tx.hash
    &&& spec_event_of(before[i].subpool) != spec_event_of(after[j].subpool)
}

/// What the listeners hear of the transactions that were held before and
/// are held afterwards, among the first `i` of `before` and the first `j` of
/// `after`: one that has become pending is pending, one that is pending no
/// longer is queued. The events come in the order of sender and nonce.
pub open spec fn moves_upto(before: Seq<HeldTx>, after: Seq<HeldTx>, i: int, j: int) -> Seq<
    FullTransactionEvent,
>
    decreases i + j,
{
    if i <= 0 || j <= 0 || i > before.len() || j > after.len() {
        Seq::empty()
    } else if before[i - 1].id == after[j - 1].id {
        if has_moved(before, after, i - 1, j - 1) {
            moves_upto(before, after, i - 1, j - 1).push(
                FullTransactionEvent {
                    hash: after[j - 1].tx.hash,
                    event: spec_event_of(after[j - 1].subpool),
                },
            )
        } else {
            moves_upto(before, after, i - 1, j - 1)
        }
    } else if before[i - 1].id.spec_lt(after[j - 1].id) {
        moves_upto(before, after, i, j - 1)
    } else {
        moves_upto(before, after, i - 1, j)
    }
}

/// Leaving out a transaction of `after` that comes behind everything of
/// the first `i` of `before` changes nothing, and the same the other way
/// round.
proof fn lemma_moves_skip(before: Seq<HeldTx>, after: Seq<HeldTx>, i: int, j: int)
    requires
        ids_increase(before),
        ids_increase(after),
        0 <= i <= before.len(),
        0 <= j <= after.len(),
    ensures
        j < after.len() && (i == 0 || before[i - 1].id.spec_lt(after[j].id)) ==> moves_upto(
            before,
            after,
            i,
            j + 1,
        ) == moves_upto(before, after, i, j),
        i < before.len() && (j == 0 || after[j - 1].id.spec_lt(before[i].id)) ==> moves_upto(
            before,
            after,
            i + 1,
            j,
        ) == moves_upto(before, after, i, j),
    decreases i + j,
{
    if j < after.len() && (i == 0 || before[i - 1].id.spec_lt(after[j].id)) {
        if i > 0 {
            assert(before[i - 1].id != after[j].id);
        }
    }
    if i < before.len() && (j == 0 || after[j - 1].id.spec_lt(before[i].id)) {
        if j > 0 {
            assert(before[i].id != after[j - 1].id);
            assert(!before[i].id.spec_lt(after[j - 1].id));
        }
    }
}

/// What the listeners hear of the transactions that were held before and
/// are held afterwards: one that has become pending is pending, one that is
/// pending no longer is queued. `before` and `after` are the held
/// transactions in order of sender and nonce.
pub fn moves(before: &Vec<HeldTx>, after: &Vec<HeldTx>) -> (r: Vec<FullTransactionEvent>)
    requires
        ids_increase(before@),
        ids_increase(after@),
    ensures
        r@ == moves_upto(before@, after@, before@.len() as int, after@.len() as int),
{
    let mut out: Vec<FullTransactionEvent> = Vec::new();
    let mut i: usize = 0;
    let mut j: usize = 0;
    while i < before.len() && j < after.len()
        invariant
            i <= before.len(),
            j <= after.len(),
            ids_increase(before@),
            ids_increase(after@),
            out@ == moves_upto(before@, after@, i as int, j as int),
            i > 0 && j < after@.len() ==> before@[i - 1].id.spec_lt(after@[j as int].id),
            j > 0 && i < before@.len() ==> after@[j - 1].id.spec_lt(before@[i as int].id),
        decreases before.len() - i + after.len() - j,
    {
        let b = before[i];
        let a = after[j];
        proof {
            lemma_moves_skip(before@, after@, i as int, j as int);
            if i + 1 < before@.len() {
                assert(before@[i as int].id.spec_lt(before@[i + 1].id));
            }
            if j + 1 < after@.len() {
                assert(after@[j as int].id.spec_lt(after@[j + 1].id));
            }
        }
        if b.id == a.id {
            let was = event_of(b.subpool);
            let is = event_of(a.subpool);
            if b.tx.hash == a.tx.hash && was != is {
                out.push(FullTransactionEvent { hash: a.tx.hash, event: is });
            }
            i = i + 1;
            j = j + 1;
        } else if b.id.lt(&a.id) {
            i = i + 1;
        } else {
            j = j + 1;
        }
    }
    proof {
        lemma_moves_tail(before@, after@, i as int, j as int);
    }
    out
}

/// Once one of the two sequences is used up, what is left of the other adds
/// nothing.
proof fn lemma_moves_tail(before: Seq<HeldTx>, after: Seq<HeldTx>, i: int, j: int)
    requires
        ids_increase(before),
        ids_increase(after),
        0 <= i <= before.len(),
        0 <= j <= after.len(),
        i == before.len() || j == after.len(),
        i > 0 && j < after.len() ==> before[i - 1].id.spec_lt(after[j].id),
        j > 0 && i < before.len() ==> after[j - 1].id.spec_lt(before[i].id),
    ensures
        moves_upto(before, after, before.len() as int, after.len() as int) == moves_upto(
            before,
            after,
            i,
            j,
        ),
    decreases before.len() - i + after.len() - j,
{
    if i < before.len() {
        lemma_moves_skip(before, after, i, j);
        if i + 1 < before.len() {
            assert(before[i].id.spec_lt(before[i + 1].id));
        }
        lemma_moves_tail(before, after, i + 1, j);
    } else if j < after.len() {
        lemma_moves_skip(before, after, i, j);
        if j + 1 < after.len() {
            assert(after[j].id.spec_lt(after[j + 1].id));
        }
        lemma_moves_tail(before, after, i, j + 1);
    }
}

} // verus!
