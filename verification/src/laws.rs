//! What holds of every pool that is sound, stated one by one.
//!
//! Every operation of the pool keeps the pool sound (`consistent`, and `wf`
//! where the limits are enforced); the lemmas here say what that means for
//! the transactions held.

use crate::config::{spec_replaces, PoolConfig};
use crate::held::{
    bytes_in, classified_at, continues_sender, count_in, cumulative_cost, entry_ok,
    expected_subpool, holds_submission, in_order, same_submission, HeldTx,
};
use crate::identifier::SenderId;
use crate::insert::{incumbent, known_id, refusal};
use crate::ordering::TransactionOrdering;
use crate::query::capped;
use crate::state::SubPool;
use crate::transaction::Tx;
use crate::txpool::{limit_kept, spec_limit_of, TxPool};
use vstd::prelude::*;

verus! {

/// No hash is held twice, and no sender and nonce is held twice: two held
/// transactions with the same hash, or with the same sender and nonce, are
/// one transaction.
pub proof fn lemma_no_duplicates<O: TransactionOrdering>(pool: TxPool<O>, i: int, j: int)
    requires
        pool.consistent(),
        0 <= i < pool@.len(),
        0 <= j < pool@.len(),
        pool@[i].tx.hash == pool@[j].tx.hash || (pool@[i].tx.sender == pool@[j].tx.sender
            && pool@[i].tx.nonce == pool@[j].tx.nonce),
    ensures
        i == j,
{
    lemma_same_sender_same_identifier(pool, i, j);
    crate::held::lemma_unique_position(pool@, i, j);
}

/// Two held transactions have the same sender address if and only if they
/// have the same sender identifier, and the nonce of the identifier is the
/// nonce of the transaction.
pub proof fn lemma_same_sender_same_identifier<O: TransactionOrdering>(
    pool: TxPool<O>,
    i: int,
    j: int,
)
    requires
        pool.structural(),
        0 <= i < pool@.len(),
        0 <= j < pool@.len(),
    ensures
        (pool@[i].tx.sender == pool@[j].tx.sender) <==> (pool@[i].id.sender == pool@[j].id.sender),
        pool@[i].id.nonce == pool@[i].tx.nonce,
        pool@[i].tx.nonce >= pool.accounts()[pool@[i].id.sender.0 as int].state_nonce,
{
    assert(entry_ok(
        pool@[i],
        pool.sender_table()@,
        pool.accounts(),
        pool.spec_next_submission_id(),
    ));
    assert(entry_ok(
        pool@[j],
        pool.sender_table()@,
        pool.accounts(),
        pool.spec_next_submission_id(),
    ));
    crate::identifier::lemma_interner_bijection(
        pool.sender_table(),
        pool@[i].tx.sender,
        pool@[j].tx.sender,
        pool@[i].id.sender.0 as int,
    );
    crate::identifier::lemma_interner_bijection(
        pool.sender_table(),
        pool@[j].tx.sender,
        pool@[i].tx.sender,
        pool@[j].id.sender.0 as int,
    );
}

/// The held transactions of one sender stand in the order of their nonces,
/// which strictly increase.
pub proof fn lemma_nonces_increase<O: TransactionOrdering>(pool: TxPool<O>, i: int, j: int)
    requires
        pool.consistent(),
        0 <= i < j < pool@.len(),
        pool@[i].tx.sender == pool@[j].tx.sender,
    ensures
        pool@[i].tx.nonce < pool@[j].tx.nonce,
{
    lemma_same_sender_same_identifier(pool, i, j);
    lemma_same_sender_same_identifier(pool, j, i);
    assert(in_order(pool@[i], pool@[j]));
}

/// A held transaction that is not queued stands right behind its
/// predecessor: its nonce is the on-chain nonce of its sender, or the
/// transaction before it is of the same sender, has the nonce right below,
/// and is pending. (A queued transaction may stand behind a gap.)
pub proof fn lemma_contiguous_unless_queued<O: TransactionOrdering>(pool: TxPool<O>, i: int)
    requires
        pool.consistent(),
        0 <= i < pool@.len(),
        pool@[i].subpool != SubPool::Queued,
    ensures
        pool@[i].tx.nonce == pool.accounts()[pool@[i].id.sender.0 as int].state_nonce || (i > 0
            && pool@[i - 1].tx.sender == pool@[i].tx.sender && pool@[i - 1].tx.nonce + 1
            == pool@[i].tx.nonce && pool@[i - 1].subpool == SubPool::Pending),
{
    assert(classified_at(pool@, pool.accounts(), pool.spec_base_fee(), pool.spec_blob_fee(), i));
    lemma_same_sender_same_identifier(pool, i, i);
    if i > 0 {
        lemma_same_sender_same_identifier(pool, i - 1, i);
    }
}

/// Below a pending transaction there is no gap: every nonce from the
/// on-chain nonce of its sender up to its own is held, and is pending. The
/// transaction with the nonce `d` below stands `d` places before it.
pub proof fn lemma_pending_is_gapless<O: TransactionOrdering>(pool: TxPool<O>, i: int, d: int)
    requires
        pool.consistent(),
        0 <= i < pool@.len(),
        pool@[i].subpool == SubPool::Pending,
        0 <= d <= pool@[i].tx.nonce - pool.accounts()[pool@[i].id.sender.0 as int].state_nonce,
    ensures
        0 <= i - d,
        pool@[i - d].tx.sender == pool@[i].tx.sender,
        pool@[i - d].tx.nonce == pool@[i].tx.nonce - d,
        pool@[i - d].subpool == SubPool::Pending,
    decreases d,
{
    if d > 0 {
        lemma_contiguous_unless_queued(pool, i);
        lemma_same_sender_same_identifier(pool, i - 1, i);
        lemma_pending_is_gapless(pool, i - 1, d - 1);
    }
}

/// Every held transaction is in the subpool that the classification rule
/// gives it for the present state of the chain.
pub proof fn lemma_classification_is_sound<O: TransactionOrdering>(pool: TxPool<O>, i: int)
    requires
        pool.consistent(),
        0 <= i < pool@.len(),
    ensures
        pool@[i].subpool == expected_subpool(
            pool@,
            pool.accounts(),
            pool.spec_base_fee(),
            pool.spec_blob_fee(),
            i,
        ),
        pool@[i].priority == pool.spec_ordering().spec_priority(pool@[i].tx, pool.spec_base_fee()),
{
    assert(classified_at(pool@, pool.accounts(), pool.spec_base_fee(), pool.spec_blob_fee(), i));
}

/// A transaction that may take the place of another pays strictly more in
/// every fee field that both have, and at least the bump more.
pub proof fn lemma_replacement_pays_more(new: Tx, old: Tx, bump: u32)
    requires
        spec_replaces(new, old, bump),
    ensures
        new.max_fee_per_gas > old.max_fee_per_gas,
        new.max_fee_per_gas * 100 >= old.max_fee_per_gas * (100 + bump),
        new.max_priority_fee_per_gas > old.max_priority_fee_per_gas,
        new.max_priority_fee_per_gas * 100 >= old.max_priority_fee_per_gas * (100 + bump),
        new.max_fee_per_blob_gas matches Some(n) ==> (old.max_fee_per_blob_gas matches Some(o) ==> n
            > o && n * 100 >= o * (100 + bump)),
{
}

/// Where the pool does not refuse a transaction whose sender and nonce it
/// holds already, the transaction outbids the one held.
pub proof fn lemma_admitted_replacement_outbids(
    txs: Seq<HeldTx>,
    senders: crate::identifier::SenderIdentifiers,
    next_submission_id: u64,
    config: PoolConfig,
    tx: Tx,
    origin: crate::transaction::TransactionOrigin,
    on_chain_nonce: u64,
)
    requires
        refusal(txs, senders, next_submission_id, config, tx, origin, on_chain_nonce) is None,
        known_id(senders, tx.sender, tx.nonce) matches Some(id) && incumbent(txs, id) is Some,
    ensures
        known_id(senders, tx.sender, tx.nonce) matches Some(id) && (incumbent(
            txs,
            id,
        ) matches Some(old) && spec_replaces(
            tx,
            old.tx,
            config.price_bumps.spec_price_bump(old.tx.tx_type),
        )),
{
}

/// In a pool whose limits are enforced, no subpool holds more transactions
/// or more bytes than it may.
pub proof fn lemma_limits_hold<O: TransactionOrdering>(pool: TxPool<O>, subpool: SubPool)
    requires
        pool.wf(),
    ensures
        count_in(pool@, subpool) <= spec_limit_of(pool.spec_config(), subpool).max_txs,
        bytes_in(pool@, subpool) <= spec_limit_of(pool.spec_config(), subpool).max_size,
{
    assert(limit_kept(pool@, subpool, pool.spec_config()));
}

/// In a pool whose limits are enforced, the size reported for a subpool is
/// the sum of the encoded sizes of the transactions in that subpool.
pub proof fn lemma_sizes_are_exact<O: TransactionOrdering>(pool: TxPool<O>, subpool: SubPool)
    requires
        pool.wf(),
    ensures
        capped(bytes_in(pool@, subpool)) == bytes_in(pool@, subpool),
{
    lemma_limits_hold(pool, subpool);
}

/// What the pool holds and what it knows of the chain settle the subpool,
/// the cumulative cost and the rank of every held transaction: two sound
/// pools with the same surroundings that hold the same submissions at the
/// same places hold them in the same way, place by place.
pub proof fn lemma_submissions_settle_the_pool<O: TransactionOrdering>(
    a: TxPool<O>,
    b: TxPool<O>,
    i: int,
)
    requires
        a.consistent(),
        b.consistent(),
        a.same_surroundings(&b),
        crate::held::same_submissions(a@, b@),
        0 <= i < a@.len(),
    ensures
        a@[i] == b@[i],
    decreases i,
{
    if i > 0 {
        lemma_submissions_settle_the_pool(a, b, i - 1);
    }
    assert(crate::held::same_submission(a@[i], b@[i]));
    assert(classified_at(a@, a.accounts(), a.spec_base_fee(), a.spec_blob_fee(), i));
    assert(classified_at(b@, b.accounts(), b.spec_base_fee(), b.spec_blob_fee(), i));
    assert(crate::held::cumulative_cost(a@, i) == crate::held::cumulative_cost(b@, i)) by {
        assert forall|j: int| 0 <= j <= i implies (#[trigger] a@[j]).tx == b@[j].tx && a@[j].id
            == b@[j].id by {
            assert(crate::held::same_submission(a@[j], b@[j]));
        }
        crate::held::lemma_cumulative_cost_frame(a@, b@, i);
    }
    match (a@[i].cumulative_cost, b@[i].cumulative_cost) {
        (Some(x), Some(y)) => {
            crate::primitives::lemma_u256_range(x, y);
        },
        (Some(x), None) => {
            crate::primitives::lemma_u256_range(x, x);
        },
        (None, Some(y)) => {
            crate::primitives::lemma_u256_range(y, y);
        },
        (None, None) => {},
    }
}

/// What `b` holds of the sender is of what `a` holds of the sender, and with
/// a transaction `b` holds every transaction of the sender with a lower
/// nonce that `a` holds: `b` holds the first part of what `a` holds of the
/// sender.
pub open spec fn run_kept(a: Seq<HeldTx>, b: Seq<HeldTx>, sender: SenderId) -> bool {
    &&& forall|h: HeldTx|
        h.id.sender == sender && #[trigger] holds_submission(b, h) ==> holds_submission(a, h)
    &&& forall|g: HeldTx, h: HeldTx|
        g.id.sender == sender && h.id.sender == sender && #[trigger] holds_submission(a, g)
            && #[trigger] holds_submission(b, h) && g.id.nonce < h.id.nonce ==> holds_submission(
            b,
            g,
        )
}

/// The tags of a sender's transactions depend only on what the pool holds of
/// that sender, on the sender's account and on the fees: where two sound
/// pools know the same of the account and of the fees, and the second holds
/// the first part of what the first holds of the sender, every transaction
/// of the sender that both hold is held in the same way, with the same
/// subpool, the same cumulative cost and the same rank.
pub proof fn lemma_run_keeps_its_tags<O: TransactionOrdering>(
    a: TxPool<O>,
    b: TxPool<O>,
    i: int,
    j: int,
)
    requires
        a.consistent(),
        b.consistent(),
        a.spec_base_fee() == b.spec_base_fee(),
        a.spec_blob_fee() == b.spec_blob_fee(),
        a.spec_ordering() == b.spec_ordering(),
        0 <= i < a@.len(),
        0 <= j < b@.len(),
        same_submission(a@[i], b@[j]),
        run_kept(a@, b@, a@[i].id.sender),
        a.accounts()[a@[i].id.sender.0 as int] == b.accounts()[a@[i].id.sender.0 as int],
    ensures
        b@[j] == a@[i],
        cumulative_cost(b@, j) == cumulative_cost(a@, i),
    decreases j,
{
    let x = a@[i];
    let y = b@[j];
    let s = x.id.sender;
    assert(same_submission(x, x));
    assert(same_submission(y, y));
    assert(holds_submission(a@, x));
    assert(holds_submission(b@, y));
    if j > 0 && b@[j - 1].id.sender == s {
        let g = b@[j - 1];
        assert(same_submission(g, g));
        assert(holds_submission(b@, g));
        assert(holds_submission(a@, g));
        let p = choose|p: int| 0 <= p < a@.len() && same_submission(#[trigger] a@[p], g);
        assert(in_order(b@[j - 1], b@[j]));
        if p > i {
            assert(in_order(a@[i], a@[p]));
        }
        assert(p < i);
        if p < i - 1 {
            let m = a@[i - 1];
            assert(in_order(a@[p], m));
            assert(in_order(m, x));
            assert(same_submission(m, m));
            assert(holds_submission(a@, m));
            assert(holds_submission(b@, m));
            let q = choose|q: int| 0 <= q < b@.len() && same_submission(#[trigger] b@[q], m);
            if q < j - 1 {
                assert(in_order(b@[q], b@[j - 1]));
            } else if q > j {
                assert(in_order(b@[j], b@[q]));
            }
            assert(false);
        }
        assert(p == i - 1);
        lemma_run_keeps_its_tags(a, b, i - 1, j - 1);
        assert(continues_sender(a@, i));
        assert(continues_sender(b@, j));
    } else {
        if i > 0 && a@[i - 1].id.sender == s {
            let m = a@[i - 1];
            assert(in_order(m, x));
            assert(same_submission(m, m));
            assert(holds_submission(a@, m));
            assert(holds_submission(b@, m));
            let q = choose|q: int| 0 <= q < b@.len() && same_submission(#[trigger] b@[q], m);
            if q > j {
                assert(in_order(b@[j], b@[q]));
            }
            assert(q < j);
            if q < j - 1 {
                assert(in_order(b@[q], b@[j - 1]));
                assert(in_order(b@[j - 1], b@[j]));
            }
            assert(false);
        }
        assert(!continues_sender(a@, i));
        assert(!continues_sender(b@, j));
    }
    assert(cumulative_cost(b@, j) == cumulative_cost(a@, i));
    assert(crate::held::predecessor_subpool(b@, j) == crate::held::predecessor_subpool(a@, i));
    assert(classified_at(a@, a.accounts(), a.spec_base_fee(), a.spec_blob_fee(), i));
    assert(classified_at(b@, b.accounts(), b.spec_base_fee(), b.spec_blob_fee(), j));
    match (x.cumulative_cost, y.cumulative_cost) {
        (Some(u), Some(v)) => {
            crate::primitives::lemma_u256_range(u, v);
        },
        (Some(u), None) => {
            crate::primitives::lemma_u256_range(u, u);
        },
        (None, Some(v)) => {
            crate::primitives::lemma_u256_range(v, v);
        },
        (None, None) => {},
    }
}

/// Of every sender but `sender`, `b` holds the first part of what `a` holds.
pub open spec fn runs_kept_but(a: Seq<HeldTx>, b: Seq<HeldTx>, sender: SenderId) -> bool {
    forall|s: SenderId| s != sender ==> #[trigger] run_kept(a, b, s)
}

/// The first part of the first part is a first part.
pub proof fn lemma_run_kept_twice(a: Seq<HeldTx>, b: Seq<HeldTx>, c: Seq<HeldTx>, sender: SenderId)
    requires
        run_kept(a, b, sender),
        run_kept(b, c, sender),
    ensures
        run_kept(a, c, sender),
{
    assert forall|g: HeldTx, h: HeldTx|
        g.id.sender == sender && h.id.sender == sender && #[trigger] holds_submission(a, g)
            && #[trigger] holds_submission(c, h) && g.id.nonce < h.id.nonce implies holds_submission(
        c,
        g,
    ) by {
        assert(holds_submission(b, h));
        assert(holds_submission(b, g));
    }
}

/// Taking a transaction into the pool leaves what the pool holds of every
/// other sender.
pub proof fn lemma_admission_keeps_runs(
    before: Seq<HeldTx>,
    after: Seq<HeldTx>,
    held: HeldTx,
    on_chain_nonce: u64,
)
    requires
        crate::insert::holds_after_admission(before, after, held, on_chain_nonce),
    ensures
        runs_kept_but(before, after, held.id.sender),
{
    assert forall|s: SenderId| s != held.id.sender implies #[trigger] run_kept(before, after, s) by {
        assert forall|h: HeldTx| h.id.sender == s && #[trigger] holds_submission(
            after,
            h,
        ) implies holds_submission(before, h) by {}
        assert forall|g: HeldTx, h: HeldTx|
            g.id.sender == s && h.id.sender == s && #[trigger] holds_submission(before, g)
                && #[trigger] holds_submission(after, h) && g.id.nonce
                < h.id.nonce implies holds_submission(after, g) by {
            assert(!crate::insert::is_stale(g, held.id.sender, on_chain_nonce));
        }
    }
}

/// Enforcing the limits leaves of every sender the first part of what the
/// pool held: with a transaction go the later ones of its sender, and no
/// other.
pub proof fn lemma_eviction_keeps_runs<O: TransactionOrdering>(
    a: TxPool<O>,
    b: TxPool<O>,
    removed: Seq<HeldTx>,
    sender: SenderId,
)
    requires
        a.consistent(),
        crate::evict::enforced(a, b, removed),
    ensures
        run_kept(a@, b@, sender),
    decreases a@.len(),
{
    if !crate::txpool::limits_kept(a@, a.spec_config()) {
        let (mid, first) = choose|mid: TxPool<O>, first: Seq<HeldTx>| #[trigger]
            crate::evict::evicted_once(a, mid, first) && mid@.len() < a@.len() && first.len()
                <= removed.len() && removed.subrange(0, first.len() as int) == first
                && crate::evict::enforced(
                mid,
                b,
                removed.subrange(first.len() as int, removed.len() as int),
            );
        let pool = crate::evict::first_exceeded(a@, a.spec_config())->0;
        let (w, e) = choose|w: int, e: int| #[trigger]
            crate::evict::evicts(a@, mid@, first, a.accounts(), pool, w, e);
        let rest = crate::held::without_range(a@, w, e);
        assert forall|h: HeldTx| h.id.sender == sender && #[trigger] holds_submission(
            mid@,
            h,
        ) implies holds_submission(a@, h) by {
            crate::evict::lemma_holds_same_submissions(rest, mid@, h);
            crate::held::lemma_holds_without_range(a@, w, e, h);
        }
        assert forall|g: HeldTx, h: HeldTx|
            g.id.sender == sender && h.id.sender == sender && #[trigger] holds_submission(a@, g)
                && #[trigger] holds_submission(mid@, h) && g.id.nonce
                < h.id.nonce implies holds_submission(mid@, g) by {
            crate::evict::lemma_holds_same_submissions(rest, mid@, h);
            crate::evict::lemma_holds_same_submissions(rest, mid@, g);
            crate::held::lemma_holds_without_range(a@, w, e, h);
            crate::held::lemma_holds_without_range(a@, w, e, g);
            let ih = choose|ih: int|
                0 <= ih < a@.len() && !(w <= ih < e) && same_submission(#[trigger] a@[ih], h);
            let ig = choose|ig: int| 0 <= ig < a@.len() && same_submission(#[trigger] a@[ig], g);
            if w <= ig < e {
                assert(a@[ig].id.sender == a@[w].id.sender);
                if ih >= e {
                    if ih > e {
                        assert(in_order(a@[e], a@[ih]));
                    }
                    assert(in_order(a@[w], a@[e]));
                    assert(false);
                }
                assert(ih < w);
                assert(in_order(a@[ih], a@[ig]));
                assert(false);
            }
        }
        assert(run_kept(a@, mid@, sender));
        lemma_eviction_keeps_runs(
            mid,
            b,
            removed.subrange(first.len() as int, removed.len() as int),
            sender,
        );
        lemma_run_kept_twice(a@, mid@, b@, sender);
    }
}

/// Where two sound pools know the same of the fees and of every account
/// but that of `sender`, and the second holds of every other sender the
/// first part of what the first holds, every transaction of another sender
/// that both hold is held in the same way in both.
pub proof fn lemma_kept_runs_keep_their_tags<O: TransactionOrdering>(
    a: TxPool<O>,
    b: TxPool<O>,
    sender: SenderId,
)
    requires
        a.consistent(),
        b.consistent(),
        a.spec_base_fee() == b.spec_base_fee(),
        a.spec_blob_fee() == b.spec_blob_fee(),
        a.spec_ordering() == b.spec_ordering(),
        runs_kept_but(a@, b@, sender),
        forall|k: int|
            0 <= k < a.accounts().len() && k != sender.0 ==> #[trigger] b.accounts()[k]
                == a.accounts()[k],
    ensures
        a.keeps_other_senders(&b, sender),
{
    assert forall|i: int, j: int|
        0 <= i < a@.len() && 0 <= j < b@.len() && same_submission(
            #[trigger] a@[i],
            #[trigger] b@[j],
        ) && a@[i].id.sender != sender implies b@[j] == a@[i] by {
        assert(entry_ok(a@[i], a.sender_table()@, a.accounts(), a.spec_next_submission_id()));
        assert(run_kept(a@, b@, a@[i].id.sender));
        assert(b.accounts()[a@[i].id.sender.0 as int] == a.accounts()[a@[i].id.sender.0 as int]);
        lemma_run_keeps_its_tags(a, b, i, j);
    }
}

/// A stream made from a sound pool offers exactly the transactions that are
/// first in line: a pending transaction is offered if and only if its nonce
/// is the on-chain nonce of its sender.
pub proof fn lemma_offered_are_first_in_line<O: TransactionOrdering>(pool: TxPool<O>, n: int, k: int)
    requires
        pool.consistent(),
        0 <= n <= pool@.len(),
        0 <= k < crate::query::pending_entries_upto(pool@, n).len(),
    ensures
        ({
            let e = crate::query::pending_entries_upto(pool@, n)[k];
            e.independent <==> e.tx.transaction.transaction.nonce
                == pool.accounts()[e.tx.spec_id().sender.0 as int].state_nonce
        }),
    decreases n,
{
    let before = crate::query::pending_entries_upto(pool@, n - 1);
    if pool@[n - 1].subpool == SubPool::Pending {
        if k < before.len() {
            lemma_offered_are_first_in_line(pool, n - 1, k);
        } else {
            let h = pool@[n - 1];
            lemma_contiguous_unless_queued(pool, n - 1);
            lemma_same_sender_same_identifier(pool, n - 1, n - 1);
            crate::query::lemma_pending_entries(pool@, n - 1);
            if before.len() > 0 {
                let last = before.last();
                let i = choose|i: int|
                    0 <= i < n - 1 && before[before.len() - 1].tx == crate::query::spec_to_pending(
                        pool@[i],
                    ) && pool@[i].subpool == SubPool::Pending;
                lemma_same_sender_same_identifier(pool, i, n - 1);
                if h.tx.nonce != pool.accounts()[h.id.sender.0 as int].state_nonce {
                    lemma_last_pending_entry(pool@, n - 1);
                }
            }
        }
    } else {
        lemma_offered_are_first_in_line(pool, n - 1, k);
    }
}

/// Where the transaction at the last of the first `n` places is pending, it
/// is the last that a stream takes of them.
pub proof fn lemma_last_pending_entry(txs: Seq<HeldTx>, n: int)
    requires
        0 < n <= txs.len(),
        txs[n - 1].subpool == SubPool::Pending,
    ensures
        crate::query::pending_entries_upto(txs, n).len() > 0,
        crate::query::pending_entries_upto(txs, n).last().tx == crate::query::spec_to_pending(
            txs[n - 1],
        ),
{
}

} // verus!
