//! Taking a validated transaction into the pool.

use crate::config::{replaces, spec_replaces, PoolConfig};
use crate::error::{InvalidPoolTransactionError, PoolError, PoolErrorKind, PoolResult};
use crate::evict::lemma_holds_same_submissions;
use crate::held::{
    entries_ok, entry_ok, holds_hash, holds_id, holds_submission, in_order,
    lemma_holds_without_range, lemma_structure_without_range, lemma_unique_position,
    place_before_removal, same_submission, same_submissions, slots_respected, strictly_ordered,
    without_range, HeldTx, SenderInfo,
};
use crate::identifier::{SenderId, SenderIdentifiers, TransactionId, MAX_SENDERS};
use crate::ordering::{Priority, TransactionOrdering};
use crate::primitives::{Address, TxHash, U256};
use crate::state::SubPool;
use crate::transaction::{TransactionOrigin, Tx};
use crate::txpool::TxPool;
use vstd::prelude::*;
use vstd::set_lib::{lemma_int_range, set_int_range};

verus! {

/// What the pool did with a transaction it took.
#[derive(Debug)]
pub struct AddedTransaction {
    /// The transaction as the pool holds it now.
    pub transaction: HeldTx,
    /// The transaction of the same sender and nonce that gave way to it.
    pub replaced: Option<HeldTx>,
    /// The sender's transactions that the chain has overtaken: their nonces
    /// are below the on-chain nonce that came with the new transaction.
    pub stale: Vec<HeldTx>,
}

/// Whether the chain has overtaken the held transaction: it is of `sender`
/// and its nonce is below the on-chain nonce.
pub open spec fn is_stale(h: HeldTx, sender: SenderId, on_chain_nonce: u64) -> bool {
    h.id.sender == sender && h.id.nonce < on_chain_nonce
}

/// The places from `s` up to, not including, `e` are those of the stale
/// transactions of `sender`.
pub open spec fn stale_range(
    txs: Seq<HeldTx>,
    sender: SenderId,
    on_chain_nonce: u64,
    s: int,
    e: int,
) -> bool {
    &&& 0 <= s <= e <= txs.len()
    &&& forall|i: int|
        0 <= i < txs.len() ==> ((s <= i < e) <==> is_stale(#[trigger] txs[i], sender, on_chain_nonce))
}

/// Whether the transaction at `i` is of `sender` and not stale.
pub open spec fn is_live_at(txs: Seq<HeldTx>, sender: SenderId, on_chain_nonce: u64, i: int) -> bool {
    0 <= i < txs.len() && txs[i].id.sender == sender && txs[i].id.nonce >= on_chain_nonce
}

/// How many transactions of `sender` with a nonce of at least
/// `on_chain_nonce` the sequence holds.
pub open spec fn live_slots(txs: Seq<HeldTx>, sender: SenderId, on_chain_nonce: u64) -> nat {
    Set::new(|i: int| is_live_at(txs, sender, on_chain_nonce, i)).len()
}

/// A place where the sequence holds the identifier.
pub open spec fn place_of_id(txs: Seq<HeldTx>, id: TransactionId) -> int {
    choose|i: int| 0 <= i < txs.len() && (#[trigger] txs[i]).id == id
}

/// The identifier that the pool gives a transaction of `sender` with
/// `nonce`, where the sender is known.
pub open spec fn known_id(senders: SenderIdentifiers, sender: Address, nonce: u64) -> Option<
    TransactionId,
> {
    match senders.spec_sender_id(sender) {
        Some(sid) => Some(TransactionId { sender: sid, nonce }),
        None => None,
    }
}

/// Why the pool refuses a transaction, if it does. The reasons are tried in
/// this order:
///
/// 1. the pool holds a transaction with the same hash;
/// 2. the nonce is below the on-chain nonce;
/// 3. the transaction is not local and its fee cap is below the lowest base
///    fee that the pool is set up for;
/// 4. no submission number or sender identifier is left;
/// 5. the pool holds a transaction of the same sender and nonce that the new
///    one does not outbid;
/// 6. the pool holds no such transaction, and the sender has as many
///    transactions that are not stale as one sender may have.
pub open spec fn refusal(
    txs: Seq<HeldTx>,
    senders: SenderIdentifiers,
    next_submission_id: u64,
    config: PoolConfig,
    tx: Tx,
    origin: TransactionOrigin,
    on_chain_nonce: u64,
) -> Option<PoolErrorKind> {
    if holds_hash(txs, tx.hash) {
        Some(PoolErrorKind::AlreadyImported)
    } else if tx.nonce < on_chain_nonce {
        Some(
            PoolErrorKind::InvalidTransaction(InvalidPoolTransactionError::NonceNotConsistent),
        )
    } else if !config.local_transactions_config.spec_is_local(origin, tx.sender)
        && tx.max_fee_per_gas < config.minimal_protocol_basefee as u128 {
        Some(PoolErrorKind::FeeCapBelowMinimumProtocolFeeCap(tx.max_fee_per_gas))
    } else if next_submission_id == u64::MAX {
        Some(PoolErrorKind::Internal)
    } else {
        match known_id(senders, tx.sender, tx.nonce) {
            None => if senders@.len() >= MAX_SENDERS {
                Some(PoolErrorKind::Internal)
            } else if config.max_account_slots == 0 {
                Some(PoolErrorKind::SpammerExceededCapacity(tx.sender))
            } else {
                None
            },
            Some(id) => if holds_id(txs, id) {
                let incumbent = txs[place_of_id(txs, id)];
                if spec_replaces(
                    tx,
                    incumbent.tx,
                    config.price_bumps.spec_price_bump(incumbent.tx.tx_type),
                ) {
                    None
                } else {
                    Some(PoolErrorKind::ReplacementUnderpriced)
                }
            } else if live_slots(txs, id.sender, on_chain_nonce) >= config.max_account_slots {
                Some(PoolErrorKind::SpammerExceededCapacity(tx.sender))
            } else {
                None
            },
        }
    }
}

/// The places `lo` up to `hi` are those of the transactions of `sender` that
/// are not stale.
pub proof fn lemma_live_slots(
    txs: Seq<HeldTx>,
    sender: SenderId,
    on_chain_nonce: u64,
    lo: int,
    hi: int,
)
    requires
        0 <= lo <= hi <= txs.len(),
        forall|i: int| 0 <= i < txs.len() ==> ((lo <= i < hi) <==> #[trigger] is_live_at(
            txs,
            sender,
            on_chain_nonce,
            i,
        )),
    ensures
        live_slots(txs, sender, on_chain_nonce) == hi - lo,
{
    lemma_int_range(lo, hi);
    assert(Set::new(|i: int| is_live_at(txs, sender, on_chain_nonce, i)) =~= set_int_range(lo, hi))
        by {
        assert forall|i: int|
            Set::new(|i: int| is_live_at(txs, sender, on_chain_nonce, i)).contains(i)
                == set_int_range(lo, hi).contains(i) by {
            if 0 <= i < txs.len() {
                assert((lo <= i < hi) <==> is_live_at(txs, sender, on_chain_nonce, i));
            }
        }
    }
}

/// A transaction put at its place in an ordered sequence leaves the
/// sequence ordered, sound and within the slots, where the sender has room.
pub proof fn lemma_structure_with_insert(
    b: Seq<HeldTx>,
    p: int,
    h: HeldTx,
    senders: Seq<Address>,
    accounts: Seq<SenderInfo>,
    next_submission_id: u64,
    cap: usize,
)
    requires
        strictly_ordered(b),
        entries_ok(b, senders, accounts, next_submission_id),
        slots_respected(b, cap),
        0 <= p <= b.len(),
        forall|k: int| 0 <= k < p ==> (#[trigger] b[k]).id.spec_lt(h.id),
        forall|k: int| p <= k < b.len() ==> h.id.spec_lt((#[trigger] b[k]).id),
        forall|k: int| 0 <= k < b.len() ==> (#[trigger] b[k]).tx.hash != h.tx.hash,
        h.submission_id == next_submission_id,
        next_submission_id < u64::MAX,
        entry_ok(h, senders, accounts, (next_submission_id + 1) as u64),
        cap > 0,
        forall|i: int, j: int|
            0 <= i <= j < b.len() && (#[trigger] b[i]).id.sender == h.id.sender && (
            #[trigger] b[j]).id.sender == h.id.sender ==> j - i + 1 < cap,
    ensures
        strictly_ordered(b.insert(p, h)),
        entries_ok(b.insert(p, h), senders, accounts, (next_submission_id + 1) as u64),
        slots_respected(b.insert(p, h), cap),
{
    let c = b.insert(p, h);
    let next = (next_submission_id + 1) as u64;
    assert forall|i: int| 0 <= i < c.len() implies entry_ok(
        #[trigger] c[i],
        senders,
        accounts,
        next,
    ) by {
        if i < p {
            assert(c[i] == b[i]);
            assert(entry_ok(b[i], senders, accounts, next_submission_id));
        } else if i > p {
            assert(c[i] == b[i - 1]);
            assert(entry_ok(b[i - 1], senders, accounts, next_submission_id));
        }
    }
    assert forall|i: int, j: int| 0 <= i < j < c.len() implies in_order(
        #[trigger] c[i],
        #[trigger] c[j],
    ) by {
        let i0 = if i < p {
            i
        } else {
            i - 1
        };
        let j0 = if j < p {
            j
        } else {
            j - 1
        };
        if i == p {
            assert(c[j] == b[j0]);
            assert(entry_ok(b[j0], senders, accounts, next_submission_id));
        } else if j == p {
            assert(c[i] == b[i0]);
            assert(entry_ok(b[i0], senders, accounts, next_submission_id));
        } else {
            assert(c[i] == b[i0]);
            assert(c[j] == b[j0]);
            assert(in_order(b[i0], b[j0]));
        }
    }
    assert forall|i: int, j: int|
        0 <= i < j < c.len() && (#[trigger] c[i]).id.sender == (#[trigger] c[j]).id.sender implies j
        - i < cap by {
        let i0 = if i < p {
            i
        } else {
            i - 1
        };
        let j0 = if j < p {
            j
        } else {
            j - 1
        };
        if i == p {
            assert(c[j] == b[j0]);
            if p < j0 {
                assert(in_order(b[p], b[j0]));
            }
            assert(b[p].id.sender == h.id.sender);
            assert(j0 - p + 1 < cap);
        } else if j == p {
            assert(c[i] == b[i0]);
            if i0 < p - 1 {
                assert(in_order(b[i0], b[p - 1]));
            }
            assert(b[p - 1].id.sender == h.id.sender);
            assert((p - 1) - i0 + 1 < cap);
        } else {
            assert(c[i] == b[i0]);
            assert(c[j] == b[j0]);
            if i < p && p < j {
                assert(b[i0].id.spec_lt(h.id));
                assert(h.id.spec_lt(b[j0].id));
                assert(b[i0].id.sender == h.id.sender);
                assert(j0 - i0 + 1 < cap);
            } else {
                assert(j0 - i0 == j - i);
            }
        }
    }
}

/// A transaction put in the place of one with the same sender and nonce
/// leaves the sequence ordered, sound and within the slots.
pub proof fn lemma_structure_with_replacement(
    b: Seq<HeldTx>,
    p: int,
    h: HeldTx,
    senders: Seq<Address>,
    accounts: Seq<SenderInfo>,
    next_submission_id: u64,
    cap: usize,
)
    requires
        strictly_ordered(b),
        entries_ok(b, senders, accounts, next_submission_id),
        slots_respected(b, cap),
        0 <= p < b.len(),
        b[p].id == h.id,
        forall|k: int| 0 <= k < b.len() ==> (#[trigger] b[k]).tx.hash != h.tx.hash,
        h.submission_id == next_submission_id,
        next_submission_id < u64::MAX,
        entry_ok(h, senders, accounts, (next_submission_id + 1) as u64),
    ensures
        strictly_ordered(b.update(p, h)),
        entries_ok(b.update(p, h), senders, accounts, (next_submission_id + 1) as u64),
        slots_respected(b.update(p, h), cap),
{
    let c = b.update(p, h);
    let next = (next_submission_id + 1) as u64;
    assert forall|i: int| 0 <= i < c.len() implies entry_ok(
        #[trigger] c[i],
        senders,
        accounts,
        next,
    ) by {
        if i != p {
            assert(entry_ok(b[i], senders, accounts, next_submission_id));
        }
    }
    assert forall|i: int, j: int| 0 <= i < j < c.len() implies in_order(
        #[trigger] c[i],
        #[trigger] c[j],
    ) by {
        assert(in_order(b[i], b[j]));
        assert(entry_ok(b[i], senders, accounts, next_submission_id));
        assert(entry_ok(b[j], senders, accounts, next_submission_id));
    }
    assert forall|i: int, j: int|
        0 <= i < j < c.len() && (#[trigger] c[i]).id.sender == (#[trigger] c[j]).id.sender implies j
        - i < cap by {
        assert(b[i].id.sender == b[j].id.sender);
    }
}

impl<O: TransactionOrdering> TxPool<O> {
    /// The place of the transaction with this identifier.
    pub(crate) fn find_id(&self, id: &TransactionId) -> (r: Option<usize>)
        requires
            strictly_ordered(self@),
        ensures
            r is Some <==> holds_id(self@, *id),
            r matches Some(i) ==> i < self@.len() && self@[i as int].id == *id && i == place_of_id(
                self@,
                *id,
            ),
    {
        let p = self.position(id);
        if p < self.txs.len() && self.txs[p].id == *id {
            proof {
                let q = place_of_id(self@, *id);
                lemma_unique_position(self@, p as int, q);
            }
            Some(p)
        } else {
            proof {
                if holds_id(self@, *id) {
                    let q = place_of_id(self@, *id);
                    assert(self@[q].id == *id);
                    if q < p {
                        assert(self@[q].id.spec_lt(*id));
                    } else if q > p {
                        assert(in_order(self@[p as int], self@[q]));
                        assert(!self@[p as int].id.spec_lt(*id));
                    }
                }
            }
            None
        }
    }

    /// How many transactions of `sender` with a nonce of at least
    /// `on_chain_nonce` the pool holds.
    pub(crate) fn count_live(&self, sender: SenderId, on_chain_nonce: u64) -> (r: usize)
        requires
            strictly_ordered(self@),
        ensures
            r == live_slots(self@, sender, on_chain_nonce),
    {
        let lo = self.position(&TransactionId::new(sender, on_chain_nonce));
        let hi = self.run_end(lo, sender);
        proof {
            assert forall|i: int| 0 <= i < self@.len() implies ((lo <= i < hi) <==> #[trigger]
                is_live_at(self@, sender, on_chain_nonce, i)) by {
                if i < lo {
                    assert(self@[i].id.spec_lt(TransactionId { sender, nonce: on_chain_nonce }));
                } else if i < hi {
                    assert(self@[i].id.sender == sender);
                    assert(!self@[i].id.spec_lt(TransactionId { sender, nonce: on_chain_nonce }));
                } else {
                    assert(hi < self@.len());
                    assert(self@[hi as int].id.sender != sender);
                    assert(!self@[hi as int].id.spec_lt(
                        TransactionId { sender, nonce: on_chain_nonce },
                    ));
                    if i > hi {
                        assert(in_order(self@[hi as int], self@[i]));
                    }
                }
            }
            lemma_live_slots(self@, sender, on_chain_nonce, lo as int, hi as int);
        }
        hi - lo
    }

    /// Why the pool would refuse the transaction, if it would.
    pub fn check_admission(&self, tx: &Tx, origin: TransactionOrigin, on_chain_nonce: u64) -> (r: Option<
        PoolErrorKind,
    >)
        requires
            self.structural(),
        ensures
            r == refusal(
                self@,
                self.sender_table(),
                self.spec_next_submission_id(),
                self.spec_config(),
                *tx,
                origin,
                on_chain_nonce,
            ),
    {
        if self.find_hash(&tx.hash).is_some() {
            return Some(PoolErrorKind::AlreadyImported);
        }
        if tx.nonce < on_chain_nonce {
            return Some(
                PoolErrorKind::InvalidTransaction(InvalidPoolTransactionError::NonceNotConsistent),
            );
        }
        if !self.config.local_transactions_config.is_local(origin, &tx.sender) && tx.max_fee_per_gas
            < self.config.minimal_protocol_basefee as u128 {
            return Some(PoolErrorKind::FeeCapBelowMinimumProtocolFeeCap(tx.max_fee_per_gas));
        }
        if self.next_submission_id == u64::MAX {
            return Some(PoolErrorKind::Internal);
        }
        match self.senders.sender_id(&tx.sender) {
            None => {
                if self.senders.len() >= MAX_SENDERS {
                    Some(PoolErrorKind::Internal)
                } else if self.config.max_account_slots == 0 {
                    Some(PoolErrorKind::SpammerExceededCapacity(tx.sender))
                } else {
                    None
                }
            },
            Some(sid) => {
                let id = TransactionId::new(sid, tx.nonce);
                match self.find_id(&id) {
                    Some(p) => {
                        let incumbent = self.txs[p];
                        let bump = self.config.price_bumps.price_bump(incumbent.tx.tx_type);
                        if replaces(tx, &incumbent.tx, bump) {
                            None
                        } else {
                            Some(PoolErrorKind::ReplacementUnderpriced)
                        }
                    },
                    None => {
                        if self.count_live(sid, on_chain_nonce) >= self.config.max_account_slots {
                            Some(PoolErrorKind::SpammerExceededCapacity(tx.sender))
                        } else {
                            None
                        }
                    },
                }
            },
        }
    }
}

/// `after` is `before` without the stale transactions of `sender`, which are
/// `stale` and stood at the places from `s` up to, not including, `e`.
pub open spec fn stale_removed(
    before: Seq<HeldTx>,
    after: Seq<HeldTx>,
    stale: Seq<HeldTx>,
    sender: SenderId,
    on_chain_nonce: u64,
    s: int,
    e: int,
) -> bool {
    &&& stale_range(before, sender, on_chain_nonce, s, e)
    &&& after == without_range(before, s, e)
    &&& stale == before.subrange(s, e)
}

/// `after` is `before` without the stale transactions of `sender`, which are
/// `stale`.
pub open spec fn stale_taken_out(
    before: Seq<HeldTx>,
    after: Seq<HeldTx>,
    stale: Seq<HeldTx>,
    sender: SenderId,
    on_chain_nonce: u64,
) -> bool {
    exists|s: int, e: int| #[trigger]
        stale_removed(before, after, stale, sender, on_chain_nonce, s, e)
}

/// `stale` is the stale transactions of `sender` in `before`, in the order
/// of their nonces.
pub open spec fn stale_listed(
    before: Seq<HeldTx>,
    stale: Seq<HeldTx>,
    sender: SenderId,
    on_chain_nonce: u64,
) -> bool {
    exists|s: int, e: int| #[trigger]
        stale_range(before, sender, on_chain_nonce, s, e) && stale == before.subrange(s, e)
}

/// No transaction of the sequence is a stale one of `sender`.
pub open spec fn none_stale(txs: Seq<HeldTx>, sender: SenderId, on_chain_nonce: u64) -> bool {
    forall|i: int| 0 <= i < txs.len() ==> !is_stale(#[trigger] txs[i], sender, on_chain_nonce)
}

/// What is held after the stale transactions were taken out is what was
/// held and is not stale, and what was taken out is what was held and is
/// stale.
pub proof fn lemma_holds_after_stale_removed(
    before: Seq<HeldTx>,
    after: Seq<HeldTx>,
    stale: Seq<HeldTx>,
    sender: SenderId,
    on_chain_nonce: u64,
    s: int,
    e: int,
    h: HeldTx,
)
    requires
        stale_removed(before, after, stale, sender, on_chain_nonce, s, e),
    ensures
        holds_submission(after, h) <==> (holds_submission(before, h) && !is_stale(
            h,
            sender,
            on_chain_nonce,
        )),
        holds_submission(stale, h) <==> (holds_submission(before, h) && is_stale(
            h,
            sender,
            on_chain_nonce,
        )),
{
    lemma_holds_without_range(before, s, e, h);
    if holds_submission(after, h) {
        let i = choose|i: int|
            0 <= i < before.len() && !(s <= i < e) && same_submission(#[trigger] before[i], h);
        assert(!is_stale(before[i], sender, on_chain_nonce));
    }
    if holds_submission(before, h) {
        let i = choose|i: int| 0 <= i < before.len() && same_submission(#[trigger] before[i], h);
        assert((s <= i < e) <==> is_stale(before[i], sender, on_chain_nonce));
        if s <= i < e {
            assert(stale[i - s] == before[i]);
            assert(same_submission(stale[i - s], h));
        }
    }
    if holds_submission(stale, h) {
        let k = choose|k: int| 0 <= k < stale.len() && same_submission(#[trigger] stale[k], h);
        assert(stale[k] == before[k + s]);
        assert(is_stale(before[k + s], sender, on_chain_nonce));
        assert(same_submission(before[k + s], h));
    }
}

/// What a sequence holds after a transaction was put in is that transaction
/// and what it held before.
pub proof fn lemma_holds_after_insert(b: Seq<HeldTx>, p: int, new: HeldTx, h: HeldTx)
    requires
        0 <= p <= b.len(),
    ensures
        holds_submission(b.insert(p, new), h) <==> (same_submission(new, h) || holds_submission(
            b,
            h,
        )),
{
    let c = b.insert(p, new);
    if holds_submission(c, h) {
        let i = choose|i: int| 0 <= i < c.len() && same_submission(#[trigger] c[i], h);
        if i < p {
            assert(c[i] == b[i]);
        } else if i > p {
            assert(c[i] == b[i - 1]);
            assert(same_submission(b[i - 1], h));
        }
    }
    if same_submission(new, h) {
        assert(c[p] == new);
    }
    if holds_submission(b, h) {
        let i = choose|i: int| 0 <= i < b.len() && same_submission(#[trigger] b[i], h);
        if i < p {
            assert(c[i] == b[i]);
        } else {
            assert(c[i + 1] == b[i]);
            assert(same_submission(c[i + 1], h));
        }
    }
}

/// What an ordered sequence holds after a transaction took the place of
/// another is that transaction and what it held before under another
/// identifier.
pub proof fn lemma_holds_after_replacement(b: Seq<HeldTx>, p: int, new: HeldTx, h: HeldTx)
    requires
        strictly_ordered(b),
        0 <= p < b.len(),
        b[p].id == new.id,
    ensures
        holds_submission(b.update(p, new), h) <==> (same_submission(new, h) || (holds_submission(
            b,
            h,
        ) && h.id != new.id)),
{
    let c = b.update(p, new);
    if holds_submission(c, h) {
        let i = choose|i: int| 0 <= i < c.len() && same_submission(#[trigger] c[i], h);
        if i != p {
            assert(c[i] == b[i]);
            lemma_unique_position_by_id(b, i, p);
        }
    }
    if same_submission(new, h) {
        assert(c[p] == new);
    }
    if holds_submission(b, h) && h.id != new.id {
        let i = choose|i: int| 0 <= i < b.len() && same_submission(#[trigger] b[i], h);
        assert(c[i] == b[i]);
    }
}

/// Two places of an ordered sequence with the same identifier are one place.
pub proof fn lemma_unique_position_by_id(txs: Seq<HeldTx>, i: int, j: int)
    requires
        strictly_ordered(txs),
        0 <= i < txs.len(),
        0 <= j < txs.len(),
        i != j,
    ensures
        txs[i].id != txs[j].id,
{
    if txs[i].id == txs[j].id {
        lemma_unique_position(txs, i, j);
    }
}

impl<O: TransactionOrdering> TxPool<O> {
    /// What the pool knows of the sender after it was told `info`: the sender
    /// has the identifier `sid`, and the account under that identifier is
    /// `info`. Nothing else has changed but the held transactions.
    pub open spec fn account_recorded(
        &self,
        after: &Self,
        sender: Address,
        info: SenderInfo,
        sid: SenderId,
    ) -> bool {
        &&& after.sender_table().wf()
        &&& after.sender_table().spec_sender_id(sender) == Some(sid)
        &&& (sid.0 as int) < after.accounts().len()
        &&& if self.sender_table()@.contains(sender) {
            &&& after.sender_table()@ == self.sender_table()@
            &&& after.accounts() == self.accounts().update(sid.0 as int, info)
        } else {
            &&& after.sender_table()@ == self.sender_table()@.push(sender)
            &&& after.accounts() == self.accounts().push(info)
        }
        &&& after.spec_block_info() == self.spec_block_info()
        &&& after.spec_config() == self.spec_config()
        &&& after.spec_ordering() == self.spec_ordering()
    }

    /// Records what the chain says of a sender and takes the sender's stale
    /// transactions out of the pool. Returns the sender's identifier and the
    /// stale transactions.
    pub(crate) fn apply_account(&mut self, sender: Address, info: SenderInfo) -> (r: (
        SenderId,
        Vec<HeldTx>,
    ))
        requires
            old(self).structural(),
            old(self).sender_table()@.contains(sender) || old(self).sender_table()@.len()
                < MAX_SENDERS,
        ensures
            final(self).structural(),
            old(self).account_recorded(final(self), sender, info, r.0),
            final(self).spec_next_submission_id() == old(self).spec_next_submission_id(),
            stale_taken_out(old(self)@, final(self)@, r.1@, r.0, info.state_nonce),
            none_stale(final(self)@, r.0, info.state_nonce),
    {
        let ghost old_senders = self.senders@;
        let ghost old_accounts = self.accounts@;
        match self.senders.sender_id(&sender) {
            Some(sid) => {
                let first = TransactionId::new(sid, 0);
                let live = TransactionId::new(sid, info.state_nonce);
                let s = self.position(&first);
                let e = self.position(&live);
                proof {
                    if e < s {
                        assert(self@[e as int].id.spec_lt(first));
                        assert(!self@[e as int].id.spec_lt(live));
                    }
                    assert forall|i: int| 0 <= i < self@.len() implies ((s <= i < e) <==> is_stale(
                        #[trigger] self@[i],
                        sid,
                        info.state_nonce,
                    )) by {
                        if i < s {
                            assert(self@[i].id.spec_lt(first));
                        } else if i < e {
                            assert(!self@[i].id.spec_lt(first));
                            assert(self@[i].id.spec_lt(live));
                        } else {
                            assert(!self@[i].id.spec_lt(live));
                        }
                    }
                    assert(stale_range(self@, sid, info.state_nonce, s as int, e as int));
                }
                let stale = self.copy_range(s, e);
                self.remove_range(s, e);
                let ghost mid = self.txs@;
                proof {
                    lemma_structure_without_range(
                        old(self)@,
                        s as int,
                        e as int,
                        old_senders,
                        old_accounts,
                        self.next_submission_id,
                        self.config.max_account_slots,
                    );
                    assert forall|i: int| 0 <= i < mid.len() implies !is_stale(
                        #[trigger] mid[i],
                        sid,
                        info.state_nonce,
                    ) by {
                        let i0 = place_before_removal(i, s as int, e as int);
                        assert(mid[i] == old(self)@[i0]);
                    }
                }
                self.accounts[sid.0 as usize] = info;
                proof {
                    assert(self.accounts@ == old_accounts.update(sid.0 as int, info));
                    assert forall|i: int| 0 <= i < mid.len() implies entry_ok(
                        #[trigger] mid[i],
                        self.senders@,
                        self.accounts@,
                        self.next_submission_id,
                    ) by {
                        assert(entry_ok(mid[i], old_senders, old_accounts, self.next_submission_id));
                        assert(!is_stale(mid[i], sid, info.state_nonce));
                    }
                    assert(stale_removed(
                        old(self)@,
                        self@,
                        stale@,
                        sid,
                        info.state_nonce,
                        s as int,
                        e as int,
                    ));
                    assert(stale_taken_out(old(self)@, self@, stale@, sid, info.state_nonce));
                    assert(none_stale(self@, sid, info.state_nonce));
                }
                (sid, stale)
            },
            None => {
                let created = self.senders.sender_id_or_create(sender);
                let sid = created.unwrap();
                self.accounts.push(info);
                proof {
                    assert(self.senders@ == old_senders.push(sender));
                    assert(self.accounts@ == old_accounts.push(info));
                    assert(self.senders@.contains(sender)) by {
                        assert(self.senders@[old_senders.len() as int] == sender);
                    }
                    crate::identifier::lemma_interner_bijection(
                        self.senders,
                        sender,
                        sender,
                        old_senders.len() as int,
                    );
                    assert forall|i: int| 0 <= i < self@.len() implies entry_ok(
                        #[trigger] self@[i],
                        self.senders@,
                        self.accounts@,
                        self.next_submission_id,
                    ) && !is_stale(self@[i], sid, info.state_nonce) by {
                        assert(entry_ok(self@[i], old_senders, old_accounts, self.next_submission_id));
                    }
                    assert(self@ =~= without_range(old(self)@, 0, 0));
                    assert(Seq::<HeldTx>::empty() =~= old(self)@.subrange(0, 0));
                }
                let none: Vec<HeldTx> = Vec::new();
                proof {
                    assert(none@ =~= old(self)@.subrange(0, 0));
                    assert(stale_range(old(self)@, sid, info.state_nonce, 0, 0));
                    assert(stale_removed(old(self)@, self@, none@, sid, info.state_nonce, 0, 0));
                    assert(stale_taken_out(old(self)@, self@, none@, sid, info.state_nonce));
                    assert(none_stale(self@, sid, info.state_nonce));
                }
                (sid, none)
            },
        }
    }
}

/// A sender with live transactions at the places `i` and `j` has at least
/// as many live transactions as there are places from `i` to `j`.
pub proof fn lemma_live_slots_at_least(
    txs: Seq<HeldTx>,
    sender: SenderId,
    on_chain_nonce: u64,
    i: int,
    j: int,
)
    requires
        strictly_ordered(txs),
        i <= j,
        is_live_at(txs, sender, on_chain_nonce, i),
        is_live_at(txs, sender, on_chain_nonce, j),
    ensures
        live_slots(txs, sender, on_chain_nonce) >= j - i + 1,
{
    let live = Set::new(|k: int| is_live_at(txs, sender, on_chain_nonce, k));
    let all = set_int_range(0, txs.len() as int);
    let between = set_int_range(i, j + 1);
    lemma_int_range(0, txs.len() as int);
    lemma_int_range(i, j + 1);
    assert(live.subset_of(all));
    vstd::set_lib::lemma_len_subset(live, all);
    assert(between.subset_of(live)) by {
        assert forall|k: int| between.contains(k) implies live.contains(k) by {
            if i < k {
                assert(in_order(txs[i], txs[k]));
            }
            if k < j {
                assert(in_order(txs[k], txs[j]));
            }
        }
    }
    vstd::set_lib::lemma_len_subset(between, live);
}

/// The submission that the pool makes of a transaction it takes.
pub open spec fn new_submission(
    tx: Tx,
    id: TransactionId,
    submission_id: u64,
    origin: TransactionOrigin,
    propagate: bool,
) -> HeldTx {
    HeldTx {
        tx,
        id,
        subpool: SubPool::Queued,
        submission_id,
        cumulative_cost: None,
        priority: Priority::Unranked,
        origin,
        propagate,
    }
}

/// What `after` holds is the submission `new` and what `before` held that
/// is neither a stale transaction of the sender of `new` nor the
/// transaction with the identifier of `new`.
pub open spec fn holds_after_admission(
    before: Seq<HeldTx>,
    after: Seq<HeldTx>,
    new: HeldTx,
    on_chain_nonce: u64,
) -> bool {
    forall|h: HeldTx| #[trigger]
        holds_submission(after, h) <==> (same_submission(new, h) || (holds_submission(before, h)
            && !is_stale(h, new.id.sender, on_chain_nonce) && h.id != new.id))
}

/// What `stale` holds is what `before` held that is a stale transaction of
/// `sender`.
pub open spec fn holds_the_stale(
    before: Seq<HeldTx>,
    stale: Seq<HeldTx>,
    sender: SenderId,
    on_chain_nonce: u64,
) -> bool {
    forall|h: HeldTx| #[trigger]
        holds_submission(stale, h) <==> (holds_submission(before, h) && is_stale(
            h,
            sender,
            on_chain_nonce,
        ))
}

/// The transaction that `before` held under the identifier, if any.
pub open spec fn incumbent(before: Seq<HeldTx>, id: TransactionId) -> Option<HeldTx> {
    if holds_id(before, id) {
        Some(before[place_of_id(before, id)])
    } else {
        None
    }
}

/// The sender has room for one more transaction: fewer than `cap`
/// transactions of that sender stand in the sequence.
pub open spec fn has_room(txs: Seq<HeldTx>, sender: SenderId, cap: usize) -> bool {
    &&& cap > 0
    &&& forall|i: int, j: int|
        0 <= i <= j < txs.len() && (#[trigger] txs[i]).id.sender == sender && (
        #[trigger] txs[j]).id.sender == sender ==> j - i + 1 < cap
}

/// No transaction of the sequence has the hash.
pub open spec fn hash_is_new(txs: Seq<HeldTx>, hash: TxHash) -> bool {
    forall|k: int| 0 <= k < txs.len() ==> (#[trigger] txs[k]).tx.hash != hash
}

/// What `after` holds is the submission `new` and what `before` held under
/// another identifier.
pub open spec fn holds_after_placing(before: Seq<HeldTx>, after: Seq<HeldTx>, new: HeldTx) -> bool {
    forall|h: HeldTx| #[trigger]
        holds_submission(after, h) <==> (same_submission(new, h) || (holds_submission(before, h)
            && h.id != new.id))
}

/// Whether any two live transactions of the sender in the sequence are
/// fewer than `cap` places apart, both counted.
pub open spec fn live_within(
    txs: Seq<HeldTx>,
    sender: SenderId,
    on_chain_nonce: u64,
    cap: usize,
) -> bool {
    forall|i: int, j: int|
        i <= j && #[trigger] is_live_at(txs, sender, on_chain_nonce, i) && #[trigger] is_live_at(
            txs,
            sender,
            on_chain_nonce,
            j,
        ) ==> j - i + 1 < cap
}

/// A sender with fewer than `cap` live transactions has any two of them
/// fewer than `cap` places apart.
pub proof fn lemma_live_within(txs: Seq<HeldTx>, sender: SenderId, on_chain_nonce: u64, cap: usize)
    requires
        strictly_ordered(txs),
        live_slots(txs, sender, on_chain_nonce) < cap,
    ensures
        live_within(txs, sender, on_chain_nonce, cap),
{
    assert forall|i: int, j: int|
        i <= j && #[trigger] is_live_at(txs, sender, on_chain_nonce, i) && #[trigger] is_live_at(
            txs,
            sender,
            on_chain_nonce,
            j,
        ) implies j - i + 1 < cap by {
        lemma_live_slots_at_least(txs, sender, on_chain_nonce, i, j);
    }
}

/// What holds of the sequence after the stale transactions of a sender were
/// taken out, given what held before: a hash that was new is new, the
/// transaction under an identifier that is not stale is the same, and the
/// sender has room where the live transactions were few enough.
pub proof fn lemma_after_stale_removed(
    before: Seq<HeldTx>,
    after: Seq<HeldTx>,
    stale: Seq<HeldTx>,
    sender: SenderId,
    on_chain_nonce: u64,
    s: int,
    e: int,
    hash: TxHash,
    id: TransactionId,
    cap: usize,
)
    requires
        strictly_ordered(before),
        stale_removed(before, after, stale, sender, on_chain_nonce, s, e),
        id.sender == sender,
        id.nonce >= on_chain_nonce,
    ensures
        !holds_hash(before, hash) ==> hash_is_new(after, hash),
        incumbent(after, id) == incumbent(before, id),
        holds_id(after, id) == holds_id(before, id),
        cap > 0 && live_within(before, sender, on_chain_nonce, cap) ==> has_room(after, sender, cap),
{
    assert forall|k: int| 0 <= k < after.len() implies #[trigger] after[k] == before[place_before_removal(
        k,
        s,
        e,
    )] by {}
    if !holds_hash(before, hash) {
        assert forall|k: int| 0 <= k < after.len() implies (#[trigger] after[k]).tx.hash
            != hash by {
            let k0 = place_before_removal(k, s, e);
            assert(after[k] == before[k0]);
        }
    }
    if holds_id(after, id) {
        let k = place_of_id(after, id);
        let k0 = place_before_removal(k, s, e);
        assert(after[k] == before[k0]);
        assert(holds_id(before, id));
        let i = place_of_id(before, id);
        lemma_unique_position(before, i, k0);
    }
    if holds_id(before, id) {
        let i = place_of_id(before, id);
        assert(!is_stale(before[i], sender, on_chain_nonce));
        let k = if i < s {
            i
        } else {
            i - (e - s)
        };
        assert(after[k] == before[place_before_removal(k, s, e)]);
        assert(holds_id(after, id));
    }
    if cap > 0 && live_within(before, sender, on_chain_nonce, cap) {
        assert forall|i: int, j: int|
            0 <= i <= j < after.len() && (#[trigger] after[i]).id.sender == sender && (
            #[trigger] after[j]).id.sender == sender implies j - i + 1 < cap by {
            let i0 = place_before_removal(i, s, e);
            let j0 = place_before_removal(j, s, e);
            assert(after[i] == before[i0]);
            assert(after[j] == before[j0]);
            assert(!is_stale(before[i0], sender, on_chain_nonce));
            assert(!is_stale(before[j0], sender, on_chain_nonce));
            assert(is_live_at(before, sender, on_chain_nonce, i0));
            assert(is_live_at(before, sender, on_chain_nonce, j0));
        }
    }
}

/// What is held after the stale transactions left and a transaction was
/// placed.
pub proof fn lemma_holds_after_admission(
    before: Seq<HeldTx>,
    b: Seq<HeldTx>,
    c: Seq<HeldTx>,
    d: Seq<HeldTx>,
    stale: Seq<HeldTx>,
    new: HeldTx,
    held: HeldTx,
    on_chain_nonce: u64,
    s: int,
    e: int,
)
    requires
        stale_removed(before, b, stale, new.id.sender, on_chain_nonce, s, e),
        holds_after_placing(b, c, new),
        same_submissions(c, d),
        same_submission(new, held),
    ensures
        holds_after_admission(before, d, held, on_chain_nonce),
        holds_the_stale(before, stale, held.id.sender, on_chain_nonce),
{
    assert forall|h: HeldTx| #[trigger]
        holds_submission(d, h) <==> (same_submission(held, h) || (holds_submission(before, h)
            && !is_stale(h, held.id.sender, on_chain_nonce) && h.id != held.id)) by {
        lemma_holds_same_submissions(c, d, h);
        assert(holds_submission(c, h) <==> (same_submission(new, h) || (holds_submission(b, h)
            && h.id != new.id)));
        lemma_holds_after_stale_removed(before, b, stale, new.id.sender, on_chain_nonce, s, e, h);
    }
    assert forall|h: HeldTx| #[trigger]
        holds_submission(stale, h) <==> (holds_submission(before, h) && is_stale(
            h,
            held.id.sender,
            on_chain_nonce,
        )) by {
        lemma_holds_after_stale_removed(before, b, stale, new.id.sender, on_chain_nonce, s, e, h);
    }
}

impl<O: TransactionOrdering> TxPool<O> {
    /// What taking the transaction did to the pool: the sender's account was
    /// brought up to date, the sender's stale transactions left, the
    /// transaction took its place (that of the transaction with the same
    /// sender and nonce where there was one), and every transaction was
    /// sorted into its subpool anew. The transactions of every other sender
    /// are held as they were.
    pub open spec fn admitted(
        &self,
        after: &Self,
        tx: Tx,
        origin: TransactionOrigin,
        propagate: bool,
        info: SenderInfo,
        added: AddedTransaction,
    ) -> bool {
        let held = added.transaction;
        &&& self.account_recorded(after, tx.sender, info, held.id.sender)
        &&& after.spec_next_submission_id() == self.spec_next_submission_id() + 1
        &&& same_submission(
            held,
            new_submission(
                tx,
                TransactionId { sender: held.id.sender, nonce: tx.nonce },
                self.spec_next_submission_id(),
                origin,
                propagate,
            ),
        )
        &&& exists|i: int| 0 <= i < after@.len() && #[trigger] after@[i] == held
        &&& added.replaced == incumbent(self@, held.id)
        &&& holds_after_admission(self@, after@, held, info.state_nonce)
        &&& holds_the_stale(self@, added.stale@, held.id.sender, info.state_nonce)
        &&& stale_listed(self@, added.stale@, held.id.sender, info.state_nonce)
        &&& self.keeps_other_senders(after, held.id.sender)
    }

    /// Puts a new submission at its place, in the place of the transaction
    /// with the same identifier where there is one. Returns the place and
    /// the transaction that gave way.
    pub(crate) fn place(&mut self, new: HeldTx) -> (r: (usize, Option<HeldTx>))
        requires
            old(self).structural(),
            hash_is_new(old(self)@, new.tx.hash),
            new.submission_id == old(self).spec_next_submission_id(),
            old(self).spec_next_submission_id() < u64::MAX,
            entry_ok(
                new,
                old(self).sender_table()@,
                old(self).accounts(),
                (old(self).spec_next_submission_id() + 1) as u64,
            ),
            !holds_id(old(self)@, new.id) ==> has_room(
                old(self)@,
                new.id.sender,
                old(self).spec_config().max_account_slots,
            ),
        ensures
            final(self).structural(),
            final(self).spec_next_submission_id() == old(self).spec_next_submission_id() + 1,
            final(self).sender_table() == old(self).sender_table(),
            final(self).accounts() == old(self).accounts(),
            final(self).spec_block_info() == old(self).spec_block_info(),
            final(self).spec_config() == old(self).spec_config(),
            final(self).spec_ordering() == old(self).spec_ordering(),
            r.0 < final(self)@.len(),
            final(self)@[r.0 as int] == new,
            r.1 == incumbent(old(self)@, new.id),
            holds_after_placing(old(self)@, final(self)@, new),
    {
        let ghost b = self.txs@;
        let ghost cap = self.config.max_account_slots;
        let ghost next = self.next_submission_id;
        let id = new.id;
        let p = self.position(&id);
        let mut replaced: Option<HeldTx> = None;
        if p < self.txs.len() && self.txs[p].id == id {
            replaced = Some(self.txs[p]);
            proof {
                assert(holds_id(b, id));
                lemma_unique_position(b, place_of_id(b, id), p as int);
                lemma_structure_with_replacement(
                    b,
                    p as int,
                    new,
                    self.senders@,
                    self.accounts@,
                    next,
                    cap,
                );
            }
            self.txs[p] = new;
            proof {
                assert(self.txs@ == b.update(p as int, new));
                assert forall|h: HeldTx| #[trigger]
                    holds_submission(self.txs@, h) <==> (same_submission(new, h) || (
                    holds_submission(b, h) && h.id != new.id)) by {
                    lemma_holds_after_replacement(b, p as int, new, h);
                }
            }
        } else {
            proof {
                assert(!holds_id(b, id)) by {
                    if holds_id(b, id) {
                        let q = place_of_id(b, id);
                        if q < p {
                            assert(b[q].id.spec_lt(id));
                        } else if q > p {
                            assert(in_order(b[p as int], b[q]));
                        }
                    }
                }
                assert forall|k: int| p <= k < b.len() implies id.spec_lt((#[trigger] b[k]).id) by {
                    assert(!b[k].id.spec_lt(id));
                    assert(b[k].id != id);
                }
                lemma_structure_with_insert(
                    b,
                    p as int,
                    new,
                    self.senders@,
                    self.accounts@,
                    next,
                    cap,
                );
            }
            self.txs.insert(p, new);
            proof {
                assert forall|h: HeldTx| #[trigger]
                    holds_submission(self.txs@, h) <==> (same_submission(new, h) || (
                    holds_submission(b, h) && h.id != new.id)) by {
                    lemma_holds_after_insert(b, p as int, new, h);
                    if holds_submission(b, h) && h.id == id {
                        let k = choose|k: int| 0 <= k < b.len() && same_submission(#[trigger] b[k], h);
                        assert(b[k].id == id);
                    }
                }
            }
        }
        self.next_submission_id = self.next_submission_id + 1;
        (p, replaced)
    }

    /// Takes a validated transaction into the pool.
    ///
    /// `on_chain_balance` and `on_chain_nonce` are what the chain says of the
    /// sender's account. The pool refuses the transaction for the reasons
    /// that `refusal` lists, and is then unchanged. Else it records the
    /// account, drops the sender's transactions with a nonce below the
    /// on-chain nonce, puts the transaction at its place (in the place of the
    /// transaction with the same sender and nonce, where it outbids it), and
    /// sorts every transaction into its subpool anew. The limits of the
    /// subpools are not looked at here.
    pub fn add_transaction(
        &mut self,
        tx: Tx,
        origin: TransactionOrigin,
        propagate: bool,
        on_chain_balance: U256,
        on_chain_nonce: u64,
    ) -> (r: PoolResult<AddedTransaction>)
        requires
            old(self).consistent(),
        ensures
            final(self).consistent(),
            match r {
                Ok(added) => {
                    &&& refusal(
                        old(self)@,
                        old(self).sender_table(),
                        old(self).spec_next_submission_id(),
                        old(self).spec_config(),
                        tx,
                        origin,
                        on_chain_nonce,
                    ) is None
                    &&& old(self).admitted(
                        final(self),
                        tx,
                        origin,
                        propagate,
                        SenderInfo { state_nonce: on_chain_nonce, balance: on_chain_balance },
                        added,
                    )
                },
                Err(e) => {
                    &&& Some(e.kind) == refusal(
                        old(self)@,
                        old(self).sender_table(),
                        old(self).spec_next_submission_id(),
                        old(self).spec_config(),
                        tx,
                        origin,
                        on_chain_nonce,
                    )
                    &&& e.hash == tx.hash
                    &&& final(self)@ == old(self)@
                    &&& final(self).same_surroundings(old(self))
                },
            },
    {
        if let Some(kind) = self.check_admission(&tx, origin, on_chain_nonce) {
            return Err(PoolError::new(tx.hash, kind));
        }
        let info = SenderInfo { state_nonce: on_chain_nonce, balance: on_chain_balance };
        let ghost before = self@;
        let ghost cap = self.config.max_account_slots;
        let ghost known = self.senders@.contains(tx.sender);
        let (sid, stale) = self.apply_account(tx.sender, info);
        let id = TransactionId::new(sid, tx.nonce);
        let new = HeldTx {
            tx,
            id,
            subpool: SubPool::Queued,
            submission_id: self.next_submission_id,
            cumulative_cost: None,
            priority: Priority::Unranked,
            origin,
            propagate,
        };
        let ghost b = self.txs@;
        let ghost (s, e) = choose|s: int, e: int| #[trigger]
            stale_removed(before, b, stale@, sid, on_chain_nonce, s, e);
        proof {
            crate::identifier::lemma_interner_bijection(self.senders, tx.sender, tx.sender, 0);
            if known {
                if !holds_id(before, id) {
                    lemma_live_within(before, sid, on_chain_nonce, cap);
                }
            } else {
                assert forall|i: int| 0 <= i < before.len() implies (#[trigger] before[i]).id.sender
                    != sid by {
                    assert(entry_ok(
                        before[i],
                        old(self).senders@,
                        old(self).accounts@,
                        old(self).next_submission_id,
                    ));
                }
                assert(live_within(before, sid, on_chain_nonce, cap));
                assert(!holds_id(before, id)) by {
                    if holds_id(before, id) {
                        let i = place_of_id(before, id);
                        assert(before[i].id.sender != sid);
                    }
                }
            }
            lemma_after_stale_removed(
                before,
                b,
                stale@,
                sid,
                on_chain_nonce,
                s,
                e,
                tx.hash,
                id,
                cap,
            );
        }
        let (p, replaced) = self.place(new);
        let ghost c = self.txs@;
        self.reclassify();
        let held = self.txs[p];
        proof {
            assert(same_submission(c[p as int], held));
            lemma_holds_after_admission(
                before,
                b,
                c,
                self@,
                stale@,
                new,
                held,
                on_chain_nonce,
                s,
                e,
            );
            assert(self@[p as int] == held);
            assert(stale_range(before, sid, on_chain_nonce, s, e) && stale@ == before.subrange(s, e));
            crate::laws::lemma_admission_keeps_runs(before, self@, held, on_chain_nonce);
            crate::laws::lemma_kept_runs_keep_their_tags(*old(self), *self, held.id.sender);
        }
        Ok(AddedTransaction { transaction: held, replaced, stale })
    }
}

} // verus!
