//! Keeping the pool in step with the chain, and taking transactions out of
//! it on request.

use crate::evict::{
    lemma_holds_concat, lemma_holds_same_submissions, lemma_holds_split, splits_into,
};
use crate::held::{
    entry_ok, holds_hash, holds_submission, in_order, lemma_holds_without_range,
    lemma_unique_position, place_before_removal, same_submission, same_submissions,
    strictly_ordered, without_range, HeldTx, SenderInfo,
};
use crate::identifier::{SenderId, TransactionId, MAX_SENDERS};
use crate::insert::{lemma_holds_after_stale_removed, stale_removed};
use crate::ordering::TransactionOrdering;
use crate::primitives::{Address, TxHash, B256, U256};
use crate::txpool::{BlockInfo, TxPool};
use vstd::prelude::*;

verus! {

/// What a new block has done to an account.
#[derive(Clone, Copy, Debug, PartialEq, Eq, Structural)]
pub struct ChangedAccount {
    /// The address of the account.
    pub address: Address,
    /// The nonce of the account after the block.
    pub nonce: u64,
    /// The balance of the account after the block.
    pub balance: U256,
}

/// What the pool is told when the chain has a new tip.
#[derive(Debug)]
pub struct CanonicalStateUpdate {
    /// The hash of the new tip.
    pub block_hash: B256,
    /// The number of the new tip.
    pub block_number: u64,
    /// The base fee of the block after the new tip.
    pub pending_block_base_fee: u64,
    /// The blob fee of the block after the new tip, where blobs are active.
    pub pending_block_blob_fee: Option<u128>,
    /// The accounts that the new blocks have changed.
    pub changed_accounts: Vec<ChangedAccount>,
    /// The hashes of the transactions in the new blocks.
    pub mined_transactions: Vec<TxHash>,
}

/// What a new tip did to the pool.
#[derive(Debug)]
pub struct OnNewCanonicalStateOutcome {
    /// The hash of the new tip.
    pub block_hash: B256,
    /// The held transactions that were mined.
    pub mined: Vec<HeldTx>,
    /// The held transactions that the chain has overtaken otherwise.
    pub discarded: Vec<HeldTx>,
}

/// `after` holds none of the hashes.
pub open spec fn holds_none_of(after: Seq<HeldTx>, hashes: Seq<TxHash>) -> bool {
    forall|k: int| 0 <= k < hashes.len() ==> !holds_hash(after, #[trigger] hashes[k])
}

/// What `after` holds is what `before` held under a hash that is not among
/// `hashes`.
pub open spec fn holds_all_but(before: Seq<HeldTx>, after: Seq<HeldTx>, hashes: Seq<TxHash>) -> bool {
    forall|h: HeldTx| #[trigger]
        holds_submission(after, h) <==> (holds_submission(before, h) && !hashes.contains(
            h.tx.hash,
        ))
}

/// What `after` holds is what `before` held of another sender than `sender`.
pub open spec fn holds_all_but_sender(
    before: Seq<HeldTx>,
    after: Seq<HeldTx>,
    sender: Address,
) -> bool {
    forall|h: HeldTx| #[trigger]
        holds_submission(after, h) <==> (holds_submission(before, h) && h.tx.sender != sender)
}

/// Two transactions that both sequences hold stand in the same order in
/// both.
pub open spec fn order_retained(before: Seq<HeldTx>, after: Seq<HeldTx>) -> bool {
    forall|i: int, j: int, i0: int, j0: int|
        0 <= i < j < after.len() && 0 <= i0 < before.len() && 0 <= j0 < before.len()
            && same_submission(#[trigger] after[i], #[trigger] before[i0]) && same_submission(
            #[trigger] after[j],
            #[trigger] before[j0],
        ) ==> i0 < j0
}

/// What an ordered sequence holds without the transaction at one place is
/// what it held under another hash.
pub proof fn lemma_holds_without_one(a: Seq<HeldTx>, i: int, h: HeldTx)
    requires
        strictly_ordered(a),
        0 <= i < a.len(),
    ensures
        holds_submission(without_range(a, i, i + 1), h) <==> (holds_submission(a, h) && h.tx.hash
            != a[i].tx.hash),
{
    lemma_holds_without_range(a, i, i + 1, h);
    if holds_submission(a, h) && h.tx.hash != a[i].tx.hash {
        let k = choose|k: int| 0 <= k < a.len() && same_submission(#[trigger] a[k], h);
        assert(k != i);
    }
    if holds_submission(without_range(a, i, i + 1), h) {
        let k = choose|k: int|
            0 <= k < a.len() && !(i <= k < i + 1) && same_submission(#[trigger] a[k], h);
        if h.tx.hash == a[i].tx.hash {
            lemma_unique_position(a, i, k);
        }
    }
}

/// What two ordered sequences both hold stands in the same order in both.
pub proof fn lemma_order_retained(before: Seq<HeldTx>, after: Seq<HeldTx>)
    requires
        strictly_ordered(before),
        strictly_ordered(after),
    ensures
        order_retained(before, after),
{
    assert forall|i: int, j: int, i0: int, j0: int|
        0 <= i < j < after.len() && 0 <= i0 < before.len() && 0 <= j0 < before.len()
            && same_submission(#[trigger] after[i], #[trigger] before[i0]) && same_submission(
            #[trigger] after[j],
            #[trigger] before[j0],
        ) implies i0 < j0 by {
        assert(in_order(after[i], after[j]));
        if j0 < i0 {
            assert(in_order(before[j0], before[i0]));
        }
    }
}

impl<O: TransactionOrdering> TxPool<O> {
    /// Tells the pool of a new tip and of the fees of the next block, and
    /// sorts every transaction into its subpool anew.
    pub fn set_block_info(&mut self, info: BlockInfo)
        requires
            old(self).consistent(),
        ensures
            final(self).consistent(),
            final(self).spec_block_info() == info,
            same_submissions(old(self)@, final(self)@),
            final(self).sender_table() == old(self).sender_table(),
            final(self).accounts() == old(self).accounts(),
            final(self).spec_config() == old(self).spec_config(),
            final(self).spec_ordering() == old(self).spec_ordering(),
            final(self).spec_next_submission_id() == old(self).spec_next_submission_id(),
    {
        self.info = info;
        self.reclassify();
    }

    /// Whether the pool holds a transaction with this hash.
    pub fn contains(&self, hash: &TxHash) -> (r: bool)
        ensures
            r == self.spec_contains(*hash),
    {
        self.find_hash(hash).is_some()
    }

    /// Takes the transactions with the given hashes out of the pool, and
    /// sorts the rest into subpools anew. Returns what was taken out.
    pub fn remove_transactions(&mut self, hashes: &Vec<TxHash>) -> (removed: Vec<HeldTx>)
        requires
            old(self).consistent(),
        ensures
            final(self).consistent(),
            final(self).same_surroundings(old(self)),
            holds_all_but(old(self)@, final(self)@, hashes@),
            splits_into(old(self)@, final(self)@, removed@),
            final(self)@.len() + removed@.len() == old(self)@.len(),
    {
        let mut removed: Vec<HeldTx> = Vec::new();
        let mut k: usize = 0;
        while k < hashes.len()
            invariant
                k <= hashes.len(),
                self.structural(),
                self.same_surroundings(old(self)),
                holds_all_but(old(self)@, self@, hashes@.subrange(0, k as int)),
                splits_into(old(self)@, self@, removed@),
                self@.len() + removed@.len() == old(self)@.len(),
            decreases hashes.len() - k,
        {
            let ghost cur = self@;
            let ghost gone = removed@;
            let ghost done = hashes@.subrange(0, k as int);
            let hash = hashes[k];
            proof {
                assert(hashes@.subrange(0, k as int + 1) =~= done.push(hash));
            }
            match self.find_hash(&hash) {
                Some(i) => {
                    let n = self.txs.len();
                    let taken = self.txs[i];
                    removed.push(taken);
                    self.remove_range(i, i + 1);
                    proof {
                        assert(removed@ =~= gone + cur.subrange(i as int, i as int + 1));
                        assert forall|h: HeldTx| #[trigger]
                            holds_submission(self@, h) <==> (holds_submission(old(self)@, h)
                                && !done.push(hash).contains(h.tx.hash)) by {
                            lemma_holds_without_one(cur, i as int, h);
                            assert(holds_submission(cur, h) <==> (holds_submission(old(self)@, h)
                                && !done.contains(h.tx.hash)));
                            lemma_contains_push(done, hash, h.tx.hash);
                        }
                        assert forall|h: HeldTx| #[trigger]
                            holds_submission(old(self)@, h) <==> (holds_submission(self@, h)
                                || holds_submission(removed@, h)) by {
                            lemma_holds_split(cur, i as int, i as int + 1, h);
                            lemma_holds_concat(gone, cur.subrange(i as int, i as int + 1), h);
                            assert(holds_submission(old(self)@, h) <==> (holds_submission(cur, h)
                                || holds_submission(gone, h)));
                        }
                    }
                },
                None => {
                    proof {
                        assert forall|h: HeldTx| #[trigger]
                            holds_submission(self@, h) <==> (holds_submission(old(self)@, h)
                                && !done.push(hash).contains(h.tx.hash)) by {
                            assert(holds_submission(cur, h) <==> (holds_submission(old(self)@, h)
                                && !done.contains(h.tx.hash)));
                            lemma_contains_push(done, hash, h.tx.hash);
                            if holds_submission(cur, h) && h.tx.hash == hash {
                                let j = choose|j: int|
                                    0 <= j < cur.len() && same_submission(#[trigger] cur[j], h);
                                assert(cur[j].tx.hash == hash);
                            }
                        }
                    }
                },
            }
            k = k + 1;
        }
        proof {
            assert(hashes@.subrange(0, k as int) =~= hashes@);
        }
        let ghost mid = self@;
        self.reclassify();
        proof {
            assert forall|h: HeldTx| #[trigger]
                holds_submission(self@, h) <==> (holds_submission(old(self)@, h)
                    && !hashes@.contains(h.tx.hash)) by {
                lemma_holds_same_submissions(mid, self@, h);
                assert(holds_submission(mid, h) <==> (holds_submission(old(self)@, h)
                    && !hashes@.contains(h.tx.hash)));
            }
            assert forall|h: HeldTx| #[trigger]
                holds_submission(old(self)@, h) <==> (holds_submission(self@, h)
                    || holds_submission(removed@, h)) by {
                lemma_holds_same_submissions(mid, self@, h);
                assert(holds_submission(old(self)@, h) <==> (holds_submission(mid, h)
                    || holds_submission(removed@, h)));
            }
        }
        removed
    }

    /// Takes every transaction of `sender` out of the pool, and sorts the
    /// rest into subpools anew. Returns what was taken out.
    pub fn remove_transactions_by_sender(&mut self, sender: &Address) -> (removed: Vec<HeldTx>)
        requires
            old(self).consistent(),
        ensures
            final(self).consistent(),
            final(self).same_surroundings(old(self)),
            holds_all_but_sender(old(self)@, final(self)@, *sender),
            splits_into(old(self)@, final(self)@, removed@),
            final(self)@.len() + removed@.len() == old(self)@.len(),
    {
        let ghost before = self@;
        match self.senders.sender_id(sender) {
            None => {
                proof {
                    assert forall|h: HeldTx| #[trigger]
                        holds_submission(before, h) <==> (holds_submission(before, h)
                            && h.tx.sender != *sender) by {
                        if holds_submission(before, h) {
                            let i = choose|i: int|
                                0 <= i < before.len() && same_submission(#[trigger] before[i], h);
                            assert(entry_ok(
                                before[i],
                                self.senders@,
                                self.accounts@,
                                self.next_submission_id,
                            ));
                            assert(self.senders@.contains(before[i].tx.sender));
                        }
                    }
                    assert(splits_into(before, before, Seq::<HeldTx>::empty())) by {
                        assert forall|h: HeldTx| #[trigger]
                            holds_submission(before, h) <==> (holds_submission(before, h)
                                || holds_submission(Seq::<HeldTx>::empty(), h)) by {}
                    }
                }
                Vec::new()
            },
            Some(sid) => {
                let s = self.position(&TransactionId::new(sid, 0));
                let e = self.run_end(s, sid);
                let removed = self.copy_range(s, e);
                proof {
                    crate::identifier::lemma_interner_bijection(self.senders, *sender, *sender, 0);
                    assert forall|i: int| 0 <= i < before.len() implies ((s <= i < e) <==> (
                    #[trigger] before[i]).tx.sender == *sender) by {
                        assert(entry_ok(
                            before[i],
                            self.senders@,
                            self.accounts@,
                            self.next_submission_id,
                        ));
                        crate::identifier::lemma_interner_bijection(
                            self.senders,
                            *sender,
                            before[i].tx.sender,
                            before[i].id.sender.0 as int,
                        );
                        if i < s {
                            assert(before[i].id.spec_lt(TransactionId { sender: sid, nonce: 0 }));
                        } else if i >= e {
                            assert(!before[e as int].id.spec_lt(
                                TransactionId { sender: sid, nonce: 0 },
                            ));
                            if i > e {
                                assert(in_order(before[e as int], before[i]));
                            }
                        }
                    }
                }
                self.remove_range(s, e);
                let ghost mid = self@;
                self.reclassify();
                proof {
                    assert forall|h: HeldTx| #[trigger]
                        holds_submission(self@, h) <==> (holds_submission(before, h) && h.tx.sender
                            != *sender) by {
                        lemma_holds_same_submissions(mid, self@, h);
                        lemma_holds_without_range(before, s as int, e as int, h);
                        if holds_submission(before, h) && h.tx.sender != *sender {
                            let i = choose|i: int|
                                0 <= i < before.len() && same_submission(#[trigger] before[i], h);
                            assert(!(s <= i < e));
                        }
                    }
                    assert forall|h: HeldTx| #[trigger]
                        holds_submission(before, h) <==> (holds_submission(self@, h)
                            || holds_submission(removed@, h)) by {
                        lemma_holds_same_submissions(mid, self@, h);
                        lemma_holds_split(before, s as int, e as int, h);
                    }
                }
                removed
            },
        }
    }
}

/// A sequence with one more element contains what it contained and that
/// element.
pub proof fn lemma_contains_push(s: Seq<TxHash>, x: TxHash, y: TxHash)
    ensures
        s.push(x).contains(y) <==> (s.contains(y) || x == y),
{
    let t = s.push(x);
    if t.contains(y) {
        let i = choose|i: int| 0 <= i < t.len() && t[i] == y;
        if i < s.len() {
            assert(s[i] == y);
        }
    }
    if s.contains(y) {
        let i = choose|i: int| 0 <= i < s.len() && s[i] == y;
        assert(t[i] == y);
    }
    if x == y {
        assert(t[s.len() as int] == y);
    }
}

/// Whether a changed account has overtaken the transaction: the account is
/// that of the sender and its nonce is above that of the transaction.
pub open spec fn overtaken_by_account(h: HeldTx, changed: Seq<ChangedAccount>) -> bool {
    exists|k: int|
        0 <= k < changed.len() && (#[trigger] changed[k]).address == h.tx.sender && h.tx.nonce
            < changed[k].nonce
}

/// Whether a mined transaction has overtaken the transaction: `before` held
/// a transaction of the same sender under one of the mined hashes whose
/// nonce is not below that of the transaction.
pub open spec fn overtaken_by_mined(h: HeldTx, before: Seq<HeldTx>, mined: Seq<TxHash>) -> bool {
    exists|k: int, i: int|
        0 <= k < mined.len() && 0 <= i < before.len() && (#[trigger] before[i]).tx.hash
            == #[trigger] mined[k] && before[i].tx.sender == h.tx.sender && h.tx.nonce
            <= before[i].tx.nonce
}

/// What `after` holds is what `before` held that no changed account has
/// overtaken.
pub open spec fn holds_the_current(
    before: Seq<HeldTx>,
    after: Seq<HeldTx>,
    changed: Seq<ChangedAccount>,
) -> bool {
    forall|h: HeldTx| #[trigger]
        holds_submission(after, h) <==> (holds_submission(before, h) && !overtaken_by_account(
            h,
            changed,
        ))
}

/// What `after` holds is what `origin` held that no mined transaction has
/// overtaken.
pub open spec fn holds_the_unmined(
    origin: Seq<HeldTx>,
    after: Seq<HeldTx>,
    mined: Seq<TxHash>,
) -> bool {
    forall|h: HeldTx| #[trigger]
        holds_submission(after, h) <==> (holds_submission(origin, h) && !overtaken_by_mined(
            h,
            origin,
            mined,
        ))
}

/// What `after` holds is what `before` held that neither a mined
/// transaction nor a changed account has overtaken.
pub open spec fn holds_the_surviving(
    before: Seq<HeldTx>,
    after: Seq<HeldTx>,
    mined: Seq<TxHash>,
    changed: Seq<ChangedAccount>,
) -> bool {
    forall|h: HeldTx| #[trigger]
        holds_submission(after, h) <==> (holds_submission(before, h) && !overtaken_by_mined(
            h,
            before,
            mined,
        ) && !overtaken_by_account(h, changed))
}

/// Whether one of the changes is to the account with the address.
pub open spec fn names(changed: Seq<ChangedAccount>, address: Address) -> bool {
    exists|k: int| 0 <= k < changed.len() && (#[trigger] changed[k]).address == address
}

/// The nonce right after `n`, and `n` itself where there is none.
pub open spec fn next_nonce(n: u64) -> u64 {
    if n < u64::MAX {
        (n + 1) as u64
    } else {
        n
    }
}

/// What the mined transactions do to what the pool knows of the account with
/// the address: the balance stays, and the on-chain nonce moves past every
/// transaction of the account that the pool held under a mined hash. It is
/// the nonce right after one of them, or, where the pool held none, what it
/// was.
pub open spec fn account_after_mined(
    held: Seq<HeldTx>,
    mined: Seq<TxHash>,
    address: Address,
    before: SenderInfo,
    after: SenderInfo,
) -> bool {
    &&& after.balance == before.balance
    &&& after.state_nonce >= before.state_nonce
    &&& forall|i: int|
        0 <= i < held.len() && (#[trigger] held[i]).tx.sender == address && mined.contains(
            held[i].tx.hash,
        ) ==> after.state_nonce >= next_nonce(held[i].tx.nonce)
    &&& after.state_nonce != before.state_nonce ==> exists|i: int|
        0 <= i < held.len() && (#[trigger] held[i]).tx.sender == address && mined.contains(
            held[i].tx.hash,
        ) && after.state_nonce == next_nonce(held[i].tx.nonce)
}

/// No later change is to the same account as the change at `k`.
pub open spec fn is_last_change(changed: Seq<ChangedAccount>, k: int) -> bool {
    forall|j: int| k < j < changed.len() ==> (#[trigger] changed[j]).address != changed[k].address
}

impl<O: TransactionOrdering> TxPool<O> {
    /// The senders that the pool knew keep their identifiers, a sender that
    /// it has come to know is named by one of the changes, and what the pool
    /// knows of an account that no change names is what it knew.
    pub open spec fn accounts_kept(&self, after: &Self, changed: Seq<ChangedAccount>) -> bool {
        &&& self.sender_table()@.is_prefix_of(after.sender_table()@)
        &&& forall|k: int|
            self.sender_table()@.len() <= k < after.sender_table()@.len() ==> names(
                changed,
                #[trigger] after.sender_table()@[k],
            )
        &&& forall|k: int|
            0 <= k < self.sender_table()@.len() && !names(changed, self.sender_table()@[k])
                ==> #[trigger] after.accounts()[k] == self.accounts()[k]
    }

    /// The senders keep their identifiers, and what the pool knows of each
    /// account is what `account_after_mined` says.
    pub open spec fn accounts_after_mined(&self, after: &Self, mined: Seq<TxHash>) -> bool {
        &&& after.sender_table() == self.sender_table()
        &&& after.accounts().len() == self.accounts().len()
        &&& forall|k: int|
            0 <= k < self.accounts().len() ==> account_after_mined(
                self@,
                mined,
                self.sender_table()@[k],
                self.accounts()[k],
                #[trigger] after.accounts()[k],
            )
    }

    /// What a new tip does to what the pool knows of the accounts: the
    /// senders that the pool knew keep their identifiers, and a sender that
    /// it has come to know is named by one of the changes. Of an account
    /// that no change names the balance stays, and the on-chain nonce moves
    /// past the transactions of the account that the pool held under a mined
    /// hash, as `account_after_mined` says; where the pool held none, the
    /// account stays as it was.
    pub open spec fn accounts_reconciled(
        &self,
        after: &Self,
        mined: Seq<TxHash>,
        changed: Seq<ChangedAccount>,
    ) -> bool {
        &&& self.sender_table()@.is_prefix_of(after.sender_table()@)
        &&& forall|k: int|
            self.sender_table()@.len() <= k < after.sender_table()@.len() ==> names(
                changed,
                #[trigger] after.sender_table()@[k],
            )
        &&& forall|k: int|
            0 <= k < self.sender_table()@.len() && !names(changed, self.sender_table()@[k])
                ==> account_after_mined(
                self@,
                mined,
                self.sender_table()@[k],
                self.accounts()[k],
                #[trigger] after.accounts()[k],
            )
    }

    /// The pool knows of every changed account what the last change to it
    /// says, as far as the account has a sender identifier.
    pub open spec fn accounts_recorded(&self, changed: Seq<ChangedAccount>) -> bool {
        forall|k: int|
            0 <= k < changed.len() && is_last_change(changed, k) ==> (match self.sender_table().spec_sender_id(
                (#[trigger] changed[k]).address,
            ) {
                Some(sid) => self.accounts()[sid.0 as int] == (SenderInfo {
                    state_nonce: changed[k].nonce,
                    balance: changed[k].balance,
                }),
                None => true,
            })
    }

    /// Whether a held submission belongs to `sender` with the identifier
    /// `sid`.
    pub(crate) proof fn lemma_sender_of_held(&self, h: HeldTx, sender: Address, sid: SenderId)
        requires
            self.structural(),
            holds_submission(self@, h),
            self.sender_table().spec_sender_id(sender) == Some(sid),
        ensures
            (h.id.sender == sid) <==> (h.tx.sender == sender),
            h.id.nonce == h.tx.nonce,
            self.sender_table()@.contains(h.tx.sender),
    {
        let i = choose|i: int| 0 <= i < self@.len() && same_submission(#[trigger] self@[i], h);
        assert(entry_ok(self@[i], self.senders@, self.accounts@, self.next_submission_id));
        crate::identifier::lemma_interner_bijection(
            self.senders,
            sender,
            h.tx.sender,
            h.id.sender.0 as int,
        );
    }

    /// What is kept under a list of changes is kept under the list with one
    /// more change.
    pub(crate) proof fn lemma_accounts_kept_more(
        &self,
        after: &Self,
        done: Seq<ChangedAccount>,
        change: ChangedAccount,
    )
        requires
            self.accounts_kept(after, done),
        ensures
            self.accounts_kept(after, done.push(change)),
    {
        let next = done.push(change);
        assert forall|a: Address| names(done, a) implies names(next, a) by {
            let j = choose|j: int| 0 <= j < done.len() && (#[trigger] done[j]).address == a;
            assert(next[j] == done[j]);
        }
        assert forall|k: int|
            self.sender_table()@.len() <= k < after.sender_table()@.len() implies names(
            next,
            #[trigger] after.sender_table()@[k],
        ) by {
            assert(names(done, after.sender_table()@[k]));
        }
    }

    /// Recording one more changed account keeps what the pool knows of the
    /// accounts that no change names.
    pub(crate) proof fn lemma_accounts_kept_step(
        &self,
        cur: &Self,
        after: &Self,
        done: Seq<ChangedAccount>,
        change: ChangedAccount,
        info: SenderInfo,
        sid: SenderId,
    )
        requires
            cur.sender_table().wf(),
            cur.accounts().len() == cur.sender_table()@.len(),
            self.accounts_kept(cur, done),
            cur.account_recorded(after, change.address, info, sid),
        ensures
            self.accounts_kept(after, done.push(change)),
    {
        let next = done.push(change);
        self.lemma_accounts_kept_more(cur, done, change);
        assert(next[done.len() as int] == change);
        assert(names(next, change.address));
        crate::identifier::lemma_interner_bijection(
            after.sender_table(),
            change.address,
            change.address,
            0,
        );
        assert(after.sender_table()@[sid.0 as int] == change.address);
        assert forall|k: int|
            self.sender_table()@.len() <= k < after.sender_table()@.len() implies names(
            next,
            #[trigger] after.sender_table()@[k],
        ) by {
            if k < cur.sender_table()@.len() {
                assert(after.sender_table()@[k] == cur.sender_table()@[k]);
                assert(names(next, cur.sender_table()@[k]));
            }
        }
        assert forall|k: int|
            0 <= k < self.sender_table()@.len() && !names(
                next,
                self.sender_table()@[k],
            ) implies #[trigger] after.accounts()[k] == self.accounts()[k] by {
            assert(cur.accounts()[k] == self.accounts()[k]);
            assert(cur.sender_table()@[k] == self.sender_table()@[k]);
            assert(after.sender_table()@[k] == cur.sender_table()@[k]);
            assert(k != sid.0);
        }
    }

    /// Records what the chain says of the accounts, takes the transactions
    /// that the accounts have overtaken out of the pool, and sorts the rest
    /// into subpools anew. Returns what was taken out.
    ///
    /// A change to an account that the pool has never seen is recorded as
    /// long as sender identifiers are left.
    pub fn update_accounts(&mut self, changed: &Vec<ChangedAccount>) -> (removed: Vec<HeldTx>)
        requires
            old(self).consistent(),
        ensures
            final(self).consistent(),
            final(self).spec_block_info() == old(self).spec_block_info(),
            final(self).spec_config() == old(self).spec_config(),
            final(self).spec_ordering() == old(self).spec_ordering(),
            final(self).spec_next_submission_id() == old(self).spec_next_submission_id(),
            holds_the_current(old(self)@, final(self)@, changed@),
            splits_into(old(self)@, final(self)@, removed@),
            final(self)@.len() + removed@.len() == old(self)@.len(),
            final(self).accounts_recorded(changed@),
            old(self).accounts_kept(final(self), changed@),
    {
        let removed = self.apply_accounts(changed);
        let ghost mid = self@;
        self.reclassify();
        proof {
            assert forall|h: HeldTx| #[trigger]
                holds_submission(self@, h) <==> (holds_submission(old(self)@, h)
                    && !overtaken_by_account(h, changed@)) by {
                lemma_holds_same_submissions(mid, self@, h);
                assert(holds_submission(mid, h) <==> (holds_submission(old(self)@, h)
                    && !overtaken_by_account(h, changed@)));
            }
            assert forall|h: HeldTx| #[trigger]
                holds_submission(old(self)@, h) <==> (holds_submission(self@, h)
                    || holds_submission(removed@, h)) by {
                lemma_holds_same_submissions(mid, self@, h);
                assert(holds_submission(old(self)@, h) <==> (holds_submission(mid, h)
                    || holds_submission(removed@, h)));
            }
        }
        removed
    }

    /// Records the accounts and takes the overtaken transactions out,
    /// without sorting the rest into subpools.
    pub(crate) fn apply_accounts(&mut self, changed: &Vec<ChangedAccount>) -> (removed: Vec<HeldTx>)
        requires
            old(self).structural(),
        ensures
            final(self).structural(),
            final(self).spec_block_info() == old(self).spec_block_info(),
            final(self).spec_config() == old(self).spec_config(),
            final(self).spec_ordering() == old(self).spec_ordering(),
            final(self).spec_next_submission_id() == old(self).spec_next_submission_id(),
            holds_the_current(old(self)@, final(self)@, changed@),
            splits_into(old(self)@, final(self)@, removed@),
            final(self)@.len() + removed@.len() == old(self)@.len(),
            final(self).accounts_recorded(changed@),
            old(self).accounts_kept(final(self), changed@),
    {
        let mut removed: Vec<HeldTx> = Vec::new();
        let mut k: usize = 0;
        proof {
            assert(holds_the_current(self@, self@, changed@.subrange(0, 0)));
            assert(splits_into(self@, self@, removed@)) by {
                assert forall|h: HeldTx| #[trigger]
                    holds_submission(self@, h) <==> (holds_submission(self@, h)
                        || holds_submission(removed@, h)) by {}
            }
        }
        while k < changed.len()
            invariant
                k <= changed.len(),
                self.structural(),
                self.spec_block_info() == old(self).spec_block_info(),
                self.spec_config() == old(self).spec_config(),
                self.spec_ordering() == old(self).spec_ordering(),
                self.spec_next_submission_id() == old(self).spec_next_submission_id(),
                holds_the_current(old(self)@, self@, changed@.subrange(0, k as int)),
                splits_into(old(self)@, self@, removed@),
                self@.len() + removed@.len() == old(self)@.len(),
                self.accounts_recorded(changed@.subrange(0, k as int)),
                old(self).accounts_kept(self, changed@.subrange(0, k as int)),
            decreases changed.len() - k,
        {
            let change = changed[k];
            let ghost cur = *self;
            let ghost gone = removed@;
            let ghost done = changed@.subrange(0, k as int);
            let ghost next = changed@.subrange(0, k as int + 1);
            proof {
                assert(next =~= done.push(change));
            }
            let known = self.senders.sender_id(&change.address).is_some();
            if known || self.senders.len() < MAX_SENDERS {
                let info = SenderInfo { state_nonce: change.nonce, balance: change.balance };
                let (sid, mut stale) = self.apply_account(change.address, info);
                proof {
                    old(self).lemma_accounts_kept_step(&cur, self, done, change, info, sid);
                    let (s, e) = choose|s: int, e: int| #[trigger]
                        stale_removed(cur@, self@, stale@, sid, change.nonce, s, e);
                    assert(stale@.len() == e - s);
                    assert forall|h: HeldTx| #[trigger]
                        holds_submission(self@, h) <==> (holds_submission(old(self)@, h)
                            && !overtaken_by_account(h, next)) by {
                        lemma_holds_after_stale_removed(
                            cur@,
                            self@,
                            stale@,
                            sid,
                            change.nonce,
                            s,
                            e,
                            h,
                        );
                        assert(holds_submission(cur@, h) <==> (holds_submission(old(self)@, h)
                            && !overtaken_by_account(h, done)));
                        lemma_overtaken_push(h, done, change);
                        if holds_submission(cur@, h) {
                            if known {
                                cur.lemma_sender_of_held(h, change.address, sid);
                            } else {
                                let i = choose|i: int|
                                    0 <= i < cur@.len() && same_submission(#[trigger] cur@[i], h);
                                assert(entry_ok(
                                    cur@[i],
                                    cur.senders@,
                                    cur.accounts@,
                                    cur.next_submission_id,
                                ));
                                assert(cur.senders@.contains(h.tx.sender));
                            }
                        }
                    }
                    assert forall|h: HeldTx| #[trigger]
                        holds_submission(old(self)@, h) <==> (holds_submission(self@, h)
                            || holds_submission(gone + stale@, h)) by {
                        lemma_holds_after_stale_removed(
                            cur@,
                            self@,
                            stale@,
                            sid,
                            change.nonce,
                            s,
                            e,
                            h,
                        );
                        lemma_holds_concat(gone, stale@, h);
                        assert(holds_submission(old(self)@, h) <==> (holds_submission(cur@, h)
                            || holds_submission(gone, h)));
                    }
                    assert(self.accounts_recorded(next)) by {
                        assert forall|j: int|
                            0 <= j < next.len() && is_last_change(next, j) implies (match self.sender_table().spec_sender_id(
                            (#[trigger] next[j]).address) {
                            Some(other) => self.accounts()[other.0 as int] == (SenderInfo {
                                state_nonce: next[j].nonce,
                                balance: next[j].balance,
                            }),
                            None => true,
                        }) by {
                            if j < k {
                                assert(next[j] == done[j]);
                                assert(next[k as int].address != next[j].address);
                                assert(is_last_change(done, j)) by {
                                    assert forall|l: int| j < l < done.len() implies (
                                    #[trigger] done[l]).address != done[j].address by {
                                        assert(next[l] == done[l]);
                                    }
                                }
                                cur.lemma_sender_id_kept(self, done[j].address, change.address, sid);
                            }
                        }
                    }
                }
                removed.append(&mut stale);
            } else {
                proof {
                    old(self).lemma_accounts_kept_more(self, done, change);
                    assert forall|h: HeldTx| #[trigger]
                        holds_submission(self@, h) <==> (holds_submission(old(self)@, h)
                            && !overtaken_by_account(h, next)) by {
                        assert(holds_submission(cur@, h) <==> (holds_submission(old(self)@, h)
                            && !overtaken_by_account(h, done)));
                        lemma_overtaken_push(h, done, change);
                        if holds_submission(cur@, h) {
                            let i = choose|i: int|
                                0 <= i < cur@.len() && same_submission(#[trigger] cur@[i], h);
                            assert(entry_ok(
                                cur@[i],
                                cur.senders@,
                                cur.accounts@,
                                cur.next_submission_id,
                            ));
                            assert(cur.senders@.contains(h.tx.sender));
                        }
                    }
                    assert(self.accounts_recorded(next)) by {
                        assert forall|j: int|
                            0 <= j < next.len() && is_last_change(next, j) implies (match self.sender_table().spec_sender_id(
                            (#[trigger] next[j]).address) {
                            Some(other) => self.accounts()[other.0 as int] == (SenderInfo {
                                state_nonce: next[j].nonce,
                                balance: next[j].balance,
                            }),
                            None => true,
                        }) by {
                            if j < k {
                                assert(next[j] == done[j]);
                                assert(is_last_change(done, j)) by {
                                    assert forall|l: int| j < l < done.len() implies (
                                    #[trigger] done[l]).address != done[j].address by {
                                        assert(next[l] == done[l]);
                                    }
                                }
                            }
                        }
                    }
                }
            }
            k = k + 1;
        }
        proof {
            assert(changed@.subrange(0, k as int) =~= changed@);
        }
        removed
    }

    /// Recording the account of one sender leaves what the pool knows of
    /// any other sender as it was.
    pub(crate) proof fn lemma_sender_id_kept(
        &self,
        after: &Self,
        other: Address,
        sender: Address,
        sid: SenderId,
    )
        requires
            self.sender_table().wf(),
            self.accounts().len() == self.sender_table()@.len(),
            other != sender,
            exists|info: SenderInfo| #[trigger] self.account_recorded(after, sender, info, sid),
        ensures
            after.sender_table().spec_sender_id(other) == self.sender_table().spec_sender_id(other),
            self.sender_table().spec_sender_id(other) matches Some(o) ==> after.accounts()[o.0 as int]
                == self.accounts()[o.0 as int],
    {
        let info = choose|info: SenderInfo| #[trigger]
            self.account_recorded(after, sender, info, sid);
        let a = self.sender_table();
        let b = after.sender_table();
        crate::identifier::lemma_interner_bijection(a, other, sender, 0);
        crate::identifier::lemma_interner_bijection(b, other, sender, 0);
        if a@.contains(other) {
            let i = a@.index_of(other);
            assert(a@[i] == other);
            assert(b@[i] == other);
            crate::identifier::lemma_interner_bijection(b, other, other, i);
        } else {
            if b@.contains(other) {
                let i = b@.index_of(other);
                assert(b@[i] == other);
                if i < a@.len() {
                    assert(a@[i] == other);
                }
            }
        }
    }
}

/// A transaction is overtaken by a list of changes with one more change
/// where it was overtaken by the list or is overtaken by that change.
pub proof fn lemma_overtaken_push(h: HeldTx, done: Seq<ChangedAccount>, change: ChangedAccount)
    ensures
        overtaken_by_account(h, done.push(change)) <==> (overtaken_by_account(h, done) || (
        change.address == h.tx.sender && h.tx.nonce < change.nonce)),
{
    let next = done.push(change);
    if overtaken_by_account(h, next) {
        let k = choose|k: int|
            0 <= k < next.len() && (#[trigger] next[k]).address == h.tx.sender && h.tx.nonce
                < next[k].nonce;
        if k < done.len() {
            assert(done[k] == next[k]);
        }
    }
    if overtaken_by_account(h, done) {
        let k = choose|k: int|
            0 <= k < done.len() && (#[trigger] done[k]).address == h.tx.sender && h.tx.nonce
                < done[k].nonce;
        assert(next[k] == done[k]);
    }
    if change.address == h.tx.sender && h.tx.nonce < change.nonce {
        assert(next[done.len() as int] == change);
    }
}

/// Whether the mined transaction `m` has overtaken `h`: they are of the
/// same sender and the nonce of `h` is not above that of `m`.
pub open spec fn overtaken_by(h: HeldTx, m: HeldTx) -> bool {
    m.tx.sender == h.tx.sender && h.tx.nonce <= m.tx.nonce
}

/// A transaction is overtaken by a list of mined hashes with one more hash
/// where it was overtaken by the list or by the transaction held under that
/// hash.
pub proof fn lemma_overtaken_by_mined_push(
    h: HeldTx,
    before: Seq<HeldTx>,
    done: Seq<TxHash>,
    hash: TxHash,
)
    ensures
        overtaken_by_mined(h, before, done.push(hash)) <==> (overtaken_by_mined(h, before, done)
            || exists|i: int|
            0 <= i < before.len() && (#[trigger] before[i]).tx.hash == hash && overtaken_by(
                h,
                before[i],
            )),
{
    let next = done.push(hash);
    if overtaken_by_mined(h, before, next) {
        let (k, i) = choose|k: int, i: int|
            0 <= k < next.len() && 0 <= i < before.len() && (#[trigger] before[i]).tx.hash
                == #[trigger] next[k] && before[i].tx.sender == h.tx.sender && h.tx.nonce
                <= before[i].tx.nonce;
        if k < done.len() {
            assert(done[k] == next[k]);
        } else {
            assert(before[i].tx.hash == hash && overtaken_by(h, before[i]));
        }
    }
    if overtaken_by_mined(h, before, done) {
        let (k, i) = choose|k: int, i: int|
            0 <= k < done.len() && 0 <= i < before.len() && (#[trigger] before[i]).tx.hash
                == #[trigger] done[k] && before[i].tx.sender == h.tx.sender && h.tx.nonce
                <= before[i].tx.nonce;
        assert(next[k] == done[k]);
    }
    if exists|i: int|
        0 <= i < before.len() && (#[trigger] before[i]).tx.hash == hash && overtaken_by(
            h,
            before[i],
        ) {
        let i = choose|i: int|
            0 <= i < before.len() && (#[trigger] before[i]).tx.hash == hash && overtaken_by(
                h,
                before[i],
            );
        assert(next[done.len() as int] == hash);
    }
}

/// What overtakes a transaction that has overtaken another, has overtaken
/// that other too.
pub proof fn lemma_overtaken_by_mined_transitive(
    h: HeldTx,
    m: HeldTx,
    before: Seq<HeldTx>,
    done: Seq<TxHash>,
)
    requires
        overtaken_by_mined(m, before, done),
        overtaken_by(h, m),
    ensures
        overtaken_by_mined(h, before, done),
{
    let (k, i) = choose|k: int, i: int|
        0 <= k < done.len() && 0 <= i < before.len() && (#[trigger] before[i]).tx.hash
            == #[trigger] done[k] && before[i].tx.sender == m.tx.sender && m.tx.nonce
            <= before[i].tx.nonce;
    assert(before[i].tx.hash == done[k] && before[i].tx.sender == h.tx.sender && h.tx.nonce
        <= before[i].tx.nonce);
}

/// Whether the transaction at `j` is of the sender of the one at `i` and has
/// a nonce that is not above that of the one at `i`.
pub open spec fn overtaken_at(txs: Seq<HeldTx>, i: int, j: int) -> bool {
    txs[j].id.sender == txs[i].id.sender && txs[j].id.nonce <= txs[i].id.nonce
}

/// `after` is `before` without the transaction at `i` and the earlier ones
/// of its sender, which are `removed` and stood from place `s` on.
pub open spec fn advanced_past(
    before: Seq<HeldTx>,
    after: Seq<HeldTx>,
    removed: Seq<HeldTx>,
    i: int,
    s: int,
) -> bool {
    &&& 0 <= s <= i < before.len()
    &&& after == without_range(before, s, i + 1)
    &&& removed == before.subrange(s, i + 1)
    &&& forall|j: int| 0 <= j < before.len() ==> ((s <= j <= i) <==> #[trigger] overtaken_at(before, i, j))
}

/// `after` is `before` without the transaction at `i` and the earlier ones
/// of its sender, which are `removed`.
pub open spec fn advances_past(
    before: Seq<HeldTx>,
    after: Seq<HeldTx>,
    removed: Seq<HeldTx>,
    i: int,
) -> bool {
    exists|s: int| #[trigger] advanced_past(before, after, removed, i, s)
}

impl<O: TransactionOrdering> TxPool<O> {
    /// Takes the transaction at place `i` and every earlier transaction of
    /// its sender out of the pool, and moves the sender's on-chain nonce
    /// past it. Returns what was taken out.
    pub(crate) fn advance_past(&mut self, i: usize) -> (removed: Vec<HeldTx>)
        requires
            old(self).structural(),
            i < old(self)@.len(),
        ensures
            final(self).structural(),
            final(self).sender_table() == old(self).sender_table(),
            final(self).spec_block_info() == old(self).spec_block_info(),
            final(self).spec_config() == old(self).spec_config(),
            final(self).spec_ordering() == old(self).spec_ordering(),
            final(self).spec_next_submission_id() == old(self).spec_next_submission_id(),
            advances_past(old(self)@, final(self)@, removed@, i as int),
            final(self).accounts() == old(self).accounts().update(
                old(self)@[i as int].id.sender.0 as int,
                SenderInfo {
                    state_nonce: next_nonce(old(self)@[i as int].id.nonce),
                    balance: old(self).accounts()[old(self)@[i as int].id.sender.0 as int].balance,
                },
            ),
    {
        let ghost before = self@;
        let n = self.txs.len();
        let mined = self.txs[i];
        let sid = mined.id.sender;
        let s = self.position(&TransactionId::new(sid, 0));
        proof {
            assert(entry_ok(before[i as int], self.senders@, self.accounts@, self.next_submission_id));
            if s > i {
                assert(before[i as int].id.spec_lt(TransactionId { sender: sid, nonce: 0 }));
            }
            assert forall|j: int| 0 <= j < before.len() implies ((s <= j <= i) <==> #[trigger]
                overtaken_at(before, i as int, j)) by {
                if j < s {
                    assert(before[j].id.spec_lt(TransactionId { sender: sid, nonce: 0 }));
                } else if j < i {
                    assert(!before[j].id.spec_lt(TransactionId { sender: sid, nonce: 0 }));
                    assert(in_order(before[j], before[i as int]));
                } else if j > i {
                    assert(in_order(before[i as int], before[j]));
                }
            }
        }
        let removed = self.copy_range(s, i + 1);
        self.remove_range(s, i + 1);
        let ghost mid = self@;
        let ghost old_accounts = self.accounts@;
        let balance = self.accounts[sid.0 as usize].balance;
        let nonce = if mined.id.nonce < u64::MAX {
            mined.id.nonce + 1
        } else {
            u64::MAX
        };
        self.accounts[sid.0 as usize] = SenderInfo { state_nonce: nonce, balance };
        proof {
            assert forall|j: int| 0 <= j < mid.len() implies entry_ok(
                #[trigger] mid[j],
                self.senders@,
                self.accounts@,
                self.next_submission_id,
            ) by {
                let j0 = place_before_removal(j, s as int, i as int + 1);
                assert(mid[j] == before[j0]);
                assert(entry_ok(mid[j], self.senders@, old_accounts, self.next_submission_id));
                assert(!overtaken_at(before, i as int, j0));
            }
            assert(advanced_past(before, self@, removed@, i as int, s as int));
        }
        removed
    }
}

/// What `part` holds is what `all` holds under one of the hashes.
pub open spec fn holds_those_with(all: Seq<HeldTx>, part: Seq<HeldTx>, hashes: Seq<TxHash>) -> bool {
    forall|h: HeldTx| #[trigger]
        holds_submission(part, h) <==> (holds_submission(all, h) && hashes.contains(h.tx.hash))
}

/// Whether the hash is among the hashes.
pub fn hash_in(hashes: &Vec<TxHash>, hash: &TxHash) -> (r: bool)
    ensures
        r == hashes@.contains(*hash),
{
    let mut k: usize = 0;
    while k < hashes.len()
        invariant
            k <= hashes.len(),
            forall|j: int| 0 <= j < k ==> hashes@[j] != *hash,
        decreases hashes.len() - k,
    {
        if hashes[k] == *hash {
            return true;
        }
        k = k + 1;
    }
    false
}

/// Sorts the transactions into those under one of the hashes and the
/// others, each in the order in which they came.
pub fn split_by_hash(all: &Vec<HeldTx>, hashes: &Vec<TxHash>) -> (r: (Vec<HeldTx>, Vec<HeldTx>))
    ensures
        holds_those_with(all@, r.0@, hashes@),
        holds_all_but(all@, r.1@, hashes@),
        r.0@.len() + r.1@.len() == all@.len(),
{
    let mut with: Vec<HeldTx> = Vec::new();
    let mut without: Vec<HeldTx> = Vec::new();
    let mut k: usize = 0;
    proof {
        assert(holds_those_with(all@.subrange(0, 0), with@, hashes@));
        assert(holds_all_but(all@.subrange(0, 0), without@, hashes@));
    }
    while k < all.len()
        invariant
            k <= all.len(),
            holds_those_with(all@.subrange(0, k as int), with@, hashes@),
            holds_all_but(all@.subrange(0, k as int), without@, hashes@),
            with@.len() + without@.len() == k,
        decreases all.len() - k,
    {
        let item = all[k];
        let ghost seen = all@.subrange(0, k as int);
        let ghost with_before = with@;
        let ghost without_before = without@;
        proof {
            assert(all@.subrange(0, k as int + 1) =~= seen + seq![item]);
        }
        if hash_in(hashes, &item.tx.hash) {
            with.push(item);
            proof {
                assert(with@ =~= with_before + seq![item]);
                assert forall|h: HeldTx| #[trigger]
                    holds_submission(with@, h) <==> (holds_submission(seen + seq![item], h)
                        && hashes@.contains(h.tx.hash)) by {
                    lemma_holds_concat(with_before, seq![item], h);
                    lemma_holds_concat(seen, seq![item], h);
                    lemma_holds_one(item, h);
                    assert(holds_submission(with_before, h) <==> (holds_submission(seen, h)
                        && hashes@.contains(h.tx.hash)));
                }
                assert forall|h: HeldTx| #[trigger]
                    holds_submission(without@, h) <==> (holds_submission(seen + seq![item], h)
                        && !hashes@.contains(h.tx.hash)) by {
                    lemma_holds_concat(seen, seq![item], h);
                    lemma_holds_one(item, h);
                    assert(holds_submission(without_before, h) <==> (holds_submission(seen, h)
                        && !hashes@.contains(h.tx.hash)));
                }
            }
        } else {
            without.push(item);
            proof {
                assert(without@ =~= without_before + seq![item]);
                assert forall|h: HeldTx| #[trigger]
                    holds_submission(without@, h) <==> (holds_submission(seen + seq![item], h)
                        && !hashes@.contains(h.tx.hash)) by {
                    lemma_holds_concat(without_before, seq![item], h);
                    lemma_holds_concat(seen, seq![item], h);
                    lemma_holds_one(item, h);
                    assert(holds_submission(without_before, h) <==> (holds_submission(seen, h)
                        && !hashes@.contains(h.tx.hash)));
                }
                assert forall|h: HeldTx| #[trigger]
                    holds_submission(with@, h) <==> (holds_submission(seen + seq![item], h)
                        && hashes@.contains(h.tx.hash)) by {
                    lemma_holds_concat(seen, seq![item], h);
                    lemma_holds_one(item, h);
                    assert(holds_submission(with_before, h) <==> (holds_submission(seen, h)
                        && hashes@.contains(h.tx.hash)));
                }
            }
        }
        k = k + 1;
    }
    proof {
        assert(all@.subrange(0, k as int) =~= all@);
    }
    (with, without)
}

/// A sequence of one transaction holds that transaction only.
pub proof fn lemma_holds_one(item: HeldTx, h: HeldTx)
    ensures
        holds_submission(seq![item], h) <==> same_submission(item, h),
{
    let s = seq![item];
    if holds_submission(s, h) {
        let i = choose|i: int| 0 <= i < s.len() && same_submission(#[trigger] s[i], h);
        assert(s[i] == item);
    }
    if same_submission(item, h) {
        assert(s[0] == item);
    }
}

impl<O: TransactionOrdering> TxPool<O> {
    /// After the transaction at `i` and the earlier ones of its sender have
    /// left, the pool holds what no transaction under the hashes seen so far
    /// has overtaken.
    pub(crate) proof fn lemma_unmined_after_advance(
        &self,
        origin: Seq<HeldTx>,
        done: Seq<TxHash>,
        hash: TxHash,
        i: int,
        after: Seq<HeldTx>,
        removed: Seq<HeldTx>,
    )
        requires
            self.structural(),
            strictly_ordered(origin),
            holds_the_unmined(origin, self@, done),
            0 <= i < self@.len(),
            self@[i].tx.hash == hash,
            advances_past(self@, after, removed, i),
        ensures
            holds_the_unmined(origin, after, done.push(hash)),
    {
        let cur = self@;
        let s = choose|s: int| #[trigger] advanced_past(cur, after, removed, i, s);
        assert(same_submission(cur[i], cur[i]));
        assert(holds_submission(cur, cur[i]));
        assert(holds_submission(origin, cur[i]));
        let i1 = choose|i1: int| 0 <= i1 < origin.len() && same_submission(#[trigger] origin[i1], cur[i]);
        assert(entry_ok(cur[i], self.senders@, self.accounts@, self.next_submission_id));
        assert forall|h: HeldTx| #[trigger]
            holds_submission(after, h) <==> (holds_submission(origin, h) && !overtaken_by_mined(
                h,
                origin,
                done.push(hash),
            )) by {
            lemma_overtaken_by_mined_push(h, origin, done, hash);
            lemma_holds_without_range(cur, s, i + 1, h);
            assert(holds_submission(cur, h) <==> (holds_submission(origin, h)
                && !overtaken_by_mined(h, origin, done)));
            if holds_submission(cur, h) {
                let j = choose|j: int| 0 <= j < cur.len() && same_submission(#[trigger] cur[j], h);
                assert(entry_ok(cur[j], self.senders@, self.accounts@, self.next_submission_id));
                crate::identifier::lemma_interner_bijection(
                    self.senders,
                    cur[i].tx.sender,
                    cur[j].tx.sender,
                    0,
                );
                assert(overtaken_at(cur, i, j) <==> overtaken_by(h, cur[i]));
                assert((s <= j <= i) <==> overtaken_at(cur, i, j));
                if exists|i0: int|
                    0 <= i0 < origin.len() && (#[trigger] origin[i0]).tx.hash == hash
                        && overtaken_by(h, origin[i0]) {
                    let i0 = choose|i0: int|
                        0 <= i0 < origin.len() && (#[trigger] origin[i0]).tx.hash == hash
                            && overtaken_by(h, origin[i0]);
                    lemma_unique_position(origin, i0, i1);
                    assert(overtaken_by(h, cur[i]));
                }
                if overtaken_by(h, cur[i]) {
                    assert(origin[i1].tx.hash == hash && overtaken_by(h, origin[i1]));
                }
                if !(s <= j <= i) {
                    assert(holds_submission(after, h));
                }
                if holds_submission(after, h) {
                    let j2 = choose|j2: int|
                        0 <= j2 < cur.len() && !(s <= j2 < i + 1) && same_submission(
                            #[trigger] cur[j2],
                            h,
                        );
                    if j != j2 {
                        crate::insert::lemma_unique_position_by_id(cur, j, j2);
                    }
                }
            }
        }
    }

    /// Where the pool holds no transaction under a hash, it holds what no
    /// transaction under the hashes seen so far or under that hash has
    /// overtaken.
    pub(crate) proof fn lemma_unmined_without_hash(
        &self,
        origin: Seq<HeldTx>,
        done: Seq<TxHash>,
        hash: TxHash,
    )
        requires
            holds_the_unmined(origin, self@, done),
            !holds_hash(self@, hash),
        ensures
            holds_the_unmined(origin, self@, done.push(hash)),
    {
        let cur = self@;
        assert forall|h: HeldTx| #[trigger]
            holds_submission(cur, h) <==> (holds_submission(origin, h) && !overtaken_by_mined(
                h,
                origin,
                done.push(hash),
            )) by {
            lemma_overtaken_by_mined_push(h, origin, done, hash);
            assert(holds_submission(cur, h) <==> (holds_submission(origin, h)
                && !overtaken_by_mined(h, origin, done)));
            if holds_submission(cur, h) && exists|i0: int|
                0 <= i0 < origin.len() && (#[trigger] origin[i0]).tx.hash == hash && overtaken_by(
                    h,
                    origin[i0],
                ) {
                let i0 = choose|i0: int|
                    0 <= i0 < origin.len() && (#[trigger] origin[i0]).tx.hash == hash
                        && overtaken_by(h, origin[i0]);
                let m = origin[i0];
                assert(same_submission(origin[i0], m));
                assert(holds_submission(origin, m));
                assert(holds_submission(cur, m) <==> (holds_submission(origin, m)
                    && !overtaken_by_mined(m, origin, done)));
                if holds_submission(cur, m) {
                    let j = choose|j: int| 0 <= j < cur.len() && same_submission(#[trigger] cur[j], m);
                    assert(cur[j].tx.hash == hash);
                }
                lemma_overtaken_by_mined_transitive(h, m, origin, done);
            }
        }
    }

    /// After the on-chain nonce of the sender of the transaction at `i` has
    /// moved past it, the accounts are what the mined hashes seen so far and
    /// the hash of that transaction make of them.
    pub(crate) proof fn lemma_mined_step_held(
        &self,
        cur: &Self,
        after: &Self,
        gone: Seq<HeldTx>,
        done: Seq<TxHash>,
        hash: TxHash,
        i: int,
    )
        requires
            self.structural(),
            cur.structural(),
            self.accounts_after_mined(cur, done),
            splits_into(self@, cur@, gone),
            0 <= i < cur@.len(),
            cur@[i].tx.hash == hash,
            after.sender_table() == cur.sender_table(),
            after.accounts() == cur.accounts().update(
                cur@[i].id.sender.0 as int,
                SenderInfo {
                    state_nonce: next_nonce(cur@[i].id.nonce),
                    balance: cur.accounts()[cur@[i].id.sender.0 as int].balance,
                },
            ),
        ensures
            self.accounts_after_mined(after, done.push(hash)),
    {
        let next = done.push(hash);
        let x = cur@[i];
        let sid = x.id.sender.0 as int;
        assert(entry_ok(x, cur.sender_table()@, cur.accounts(), cur.spec_next_submission_id()));
        assert(same_submission(x, x));
        assert(holds_submission(cur@, x));
        assert(holds_submission(self@, x));
        let j0 = choose|j0: int| 0 <= j0 < self@.len() && same_submission(#[trigger] self@[j0], x);
        assert(next[done.len() as int] == hash);
        assert(next.contains(hash));
        assert forall|k: int| 0 <= k < self.accounts().len() implies account_after_mined(
            self@,
            next,
            self.sender_table()@[k],
            self.accounts()[k],
            #[trigger] after.accounts()[k],
        ) by {
            let address = self.sender_table()@[k];
            let first = self.accounts()[k];
            let now = cur.accounts()[k];
            let then = after.accounts()[k];
            assert(account_after_mined(self@, done, address, first, now));
            assert forall|j: int|
                0 <= j < self@.len() && (#[trigger] self@[j]).tx.sender == address && next.contains(
                    self@[j].tx.hash,
                ) implies then.state_nonce >= next_nonce(self@[j].tx.nonce) by {
                lemma_contains_push(done, hash, self@[j].tx.hash);
                if self@[j].tx.hash == hash {
                    crate::held::lemma_unique_position(self@, j, j0);
                    assert(k == sid);
                }
            }
            if then.state_nonce != first.state_nonce {
                if k == sid {
                    assert(self@[j0].tx.sender == address);
                    assert(then.state_nonce == next_nonce(self@[j0].tx.nonce));
                } else {
                    let j = choose|j: int|
                        0 <= j < self@.len() && (#[trigger] self@[j]).tx.sender == address
                            && done.contains(self@[j].tx.hash) && now.state_nonce == next_nonce(
                            self@[j].tx.nonce,
                        );
                    lemma_contains_push(done, hash, self@[j].tx.hash);
                }
                if k == sid && then.state_nonce != next_nonce(self@[j0].tx.nonce) {
                    assert(false);
                }
            }
        }
    }

    /// Where the pool holds nothing under a hash, the accounts are what the
    /// mined hashes seen so far and that hash make of them.
    pub(crate) proof fn lemma_mined_step_absent(&self, cur: &Self, done: Seq<TxHash>, hash: TxHash)
        requires
            self.accounts_after_mined(cur, done),
            holds_the_unmined(self@, cur@, done),
            !holds_hash(cur@, hash),
        ensures
            self.accounts_after_mined(cur, done.push(hash)),
    {
        let next = done.push(hash);
        assert forall|k: int| 0 <= k < self.accounts().len() implies account_after_mined(
            self@,
            next,
            self.sender_table()@[k],
            self.accounts()[k],
            #[trigger] cur.accounts()[k],
        ) by {
            let address = self.sender_table()@[k];
            let first = self.accounts()[k];
            let now = cur.accounts()[k];
            assert(account_after_mined(self@, done, address, first, now));
            assert forall|j: int|
                0 <= j < self@.len() && (#[trigger] self@[j]).tx.sender == address && next.contains(
                    self@[j].tx.hash,
                ) implies now.state_nonce >= next_nonce(self@[j].tx.nonce) by {
                lemma_contains_push(done, hash, self@[j].tx.hash);
                if !done.contains(self@[j].tx.hash) {
                    let x = self@[j];
                    assert(same_submission(x, x));
                    assert(holds_submission(self@, x));
                    if holds_submission(cur@, x) {
                        let c = choose|c: int|
                            0 <= c < cur@.len() && same_submission(#[trigger] cur@[c], x);
                        assert(cur@[c].tx.hash == hash);
                    }
                    assert(overtaken_by_mined(x, self@, done));
                    let (m, o) = choose|m: int, o: int|
                        0 <= m < done.len() && 0 <= o < self@.len() && (#[trigger] self@[o]).tx.hash
                            == #[trigger] done[m] && self@[o].tx.sender == x.tx.sender && x.tx.nonce
                            <= self@[o].tx.nonce;
                    assert(done.contains(self@[o].tx.hash));
                    assert(now.state_nonce >= next_nonce(self@[o].tx.nonce));
                }
            }
            if now.state_nonce != first.state_nonce {
                let j = choose|j: int|
                    0 <= j < self@.len() && (#[trigger] self@[j]).tx.sender == address
                        && done.contains(self@[j].tx.hash) && now.state_nonce == next_nonce(
                        self@[j].tx.nonce,
                    );
                lemma_contains_push(done, hash, self@[j].tx.hash);
            }
        }
    }

    /// Takes the transactions under the mined hashes out of the pool,
    /// together with the earlier transactions of their senders, and moves
    /// the senders' on-chain nonces past them.
    pub(crate) fn remove_mined(&mut self, mined: &Vec<TxHash>) -> (removed: Vec<HeldTx>)
        requires
            old(self).structural(),
        ensures
            final(self).structural(),
            final(self).sender_table() == old(self).sender_table(),
            final(self).spec_block_info() == old(self).spec_block_info(),
            final(self).spec_config() == old(self).spec_config(),
            final(self).spec_ordering() == old(self).spec_ordering(),
            final(self).spec_next_submission_id() == old(self).spec_next_submission_id(),
            holds_the_unmined(old(self)@, final(self)@, mined@),
            splits_into(old(self)@, final(self)@, removed@),
            final(self)@.len() + removed@.len() == old(self)@.len(),
            old(self).accounts_after_mined(final(self), mined@),
    {
        let mut removed: Vec<HeldTx> = Vec::new();
        let mut k: usize = 0;
        proof {
            assert(holds_the_unmined(self@, self@, mined@.subrange(0, 0)));
            assert(splits_into(self@, self@, removed@)) by {
                assert forall|h: HeldTx| #[trigger]
                    holds_submission(self@, h) <==> (holds_submission(self@, h)
                        || holds_submission(removed@, h)) by {}
            }
        }
        while k < mined.len()
            invariant
                k <= mined.len(),
                self.structural(),
                strictly_ordered(old(self)@),
                self.sender_table() == old(self).sender_table(),
                self.spec_block_info() == old(self).spec_block_info(),
                self.spec_config() == old(self).spec_config(),
                self.spec_ordering() == old(self).spec_ordering(),
                self.spec_next_submission_id() == old(self).spec_next_submission_id(),
                holds_the_unmined(old(self)@, self@, mined@.subrange(0, k as int)),
                splits_into(old(self)@, self@, removed@),
                self@.len() + removed@.len() == old(self)@.len(),
                old(self).structural(),
                old(self).accounts_after_mined(self, mined@.subrange(0, k as int)),
            decreases mined.len() - k,
        {
            let hash = mined[k];
            let ghost cur = *self;
            let ghost gone = removed@;
            let ghost done = mined@.subrange(0, k as int);
            proof {
                assert(mined@.subrange(0, k as int + 1) =~= done.push(hash));
            }
            match self.find_hash(&hash) {
                Some(i) => {
                    let mut left = self.advance_past(i);
                    proof {
                        old(self).lemma_mined_step_held(&cur, self, gone, done, hash, i as int);
                        cur.lemma_unmined_after_advance(
                            old(self)@,
                            done,
                            hash,
                            i as int,
                            self@,
                            left@,
                        );
                        let s = choose|s: int| #[trigger]
                            advanced_past(cur@, self@, left@, i as int, s);
                        assert(left@.len() == i + 1 - s);
                        assert forall|h: HeldTx| #[trigger]
                            holds_submission(old(self)@, h) <==> (holds_submission(self@, h)
                                || holds_submission(gone + left@, h)) by {
                            lemma_holds_split(cur@, s, i as int + 1, h);
                            lemma_holds_concat(gone, left@, h);
                            assert(holds_submission(old(self)@, h) <==> (holds_submission(cur@, h)
                                || holds_submission(gone, h)));
                        }
                    }
                    removed.append(&mut left);
                },
                None => {
                    proof {
                        cur.lemma_unmined_without_hash(old(self)@, done, hash);
                        old(self).lemma_mined_step_absent(&cur, done, hash);
                    }
                },
            }
            k = k + 1;
        }
        proof {
            assert(mined@.subrange(0, k as int) =~= mined@);
        }
        removed
    }

    /// Brings the pool in step with a new tip of the chain.
    ///
    /// The fees of the next block are recorded. Every held transaction
    /// under one of the mined hashes leaves the pool together with the
    /// earlier transactions of its sender, whose on-chain nonce moves past
    /// it. The changed accounts are recorded, and the transactions with a
    /// nonce below the nonce of their account leave. What is left is sorted
    /// into subpools anew. The limits of the subpools are not looked at
    /// here.
    pub fn on_canonical_state_change(&mut self, update: &CanonicalStateUpdate) -> (r:
        OnNewCanonicalStateOutcome)
        requires
            old(self).consistent(),
        ensures
            r.block_hash == update.block_hash,
            reconciled(*old(self), *final(self), *update, r.mined@, r.discarded@),
    {
        let ghost before = self@;
        let mut removed = self.remove_mined(&update.mined_transactions);
        let ghost unmined = self@;
        let ghost without_mined = *self;
        let ghost first = removed@;
        let mut behind = self.apply_accounts(&update.changed_accounts);
        let ghost current = self@;
        let ghost recorded = *self;
        let ghost second = behind@;
        removed.append(&mut behind);
        self.info =
        BlockInfo {
            last_seen_block_hash: update.block_hash,
            last_seen_block_number: update.block_number,
            block_gas_limit: self.info.block_gas_limit,
            pending_basefee: update.pending_block_base_fee,
            pending_blob_fee: update.pending_block_blob_fee,
        };
        self.reclassify();
        let (mined, discarded) = split_by_hash(&removed, &update.mined_transactions);
        proof {
            let hashes = update.mined_transactions@;
            let changed = update.changed_accounts@;
            assert forall|h: HeldTx| #[trigger]
                holds_submission(self@, h) <==> (holds_submission(before, h)
                    && !overtaken_by_mined(h, before, hashes) && !overtaken_by_account(
                    h,
                    changed,
                )) by {
                lemma_holds_same_submissions(current, self@, h);
                assert(holds_submission(current, h) <==> (holds_submission(unmined, h)
                    && !overtaken_by_account(h, changed)));
                assert(holds_submission(unmined, h) <==> (holds_submission(before, h)
                    && !overtaken_by_mined(h, before, hashes)));
            }
            assert forall|k: int| 0 <= k < hashes.len() implies !holds_hash(
                self@,
                #[trigger] hashes[k],
            ) by {
                if holds_hash(self@, hashes[k]) {
                    let i = choose|i: int|
                        0 <= i < self@.len() && (#[trigger] self@[i]).tx.hash == hashes[k];
                    let h = self@[i];
                    assert(same_submission(self@[i], h));
                    assert(holds_submission(self@, h));
                    assert(holds_submission(before, h));
                    let i0 = choose|i0: int|
                        0 <= i0 < before.len() && same_submission(#[trigger] before[i0], h);
                    assert(before[i0].tx.hash == hashes[k] && before[i0].tx.sender == h.tx.sender
                        && h.tx.nonce <= before[i0].tx.nonce);
                    assert(overtaken_by_mined(h, before, hashes));
                }
            }
            assert forall|h: HeldTx| #[trigger]
                holds_submission(before, h) <==> (holds_submission(self@, h)
                    || holds_submission(removed@, h)) by {
                lemma_holds_same_submissions(current, self@, h);
                lemma_holds_concat(first, second, h);
                assert(holds_submission(before, h) <==> (holds_submission(unmined, h)
                    || holds_submission(first, h)));
                assert(holds_submission(unmined, h) <==> (holds_submission(current, h)
                    || holds_submission(second, h)));
            }
            assert forall|h: HeldTx| #[trigger]
                holds_submission(before, h) <==> (holds_submission(self@, h)
                    || holds_submission(mined@ + discarded@, h)) by {
                lemma_holds_concat(mined@, discarded@, h);
                assert(holds_submission(mined@, h) <==> (holds_submission(removed@, h)
                    && hashes.contains(h.tx.hash)));
                assert(holds_submission(discarded@, h) <==> (holds_submission(removed@, h)
                    && !hashes.contains(h.tx.hash)));
                assert(holds_submission(before, h) <==> (holds_submission(self@, h)
                    || holds_submission(removed@, h)));
            }
            assert forall|h: HeldTx| #[trigger]
                holds_submission(mined@, h) <==> (holds_submission(before, h) && hashes.contains(
                    h.tx.hash,
                )) by {
                assert(holds_submission(mined@, h) <==> (holds_submission(removed@, h)
                    && hashes.contains(h.tx.hash)));
                assert(holds_submission(before, h) <==> (holds_submission(self@, h)
                    || holds_submission(removed@, h)));
                if holds_submission(self@, h) && hashes.contains(h.tx.hash) {
                    let i = choose|i: int|
                        0 <= i < self@.len() && same_submission(#[trigger] self@[i], h);
                    let k = choose|k: int| 0 <= k < hashes.len() && hashes[k] == h.tx.hash;
                    assert(self@[i].tx.hash == hashes[k]);
                    assert(holds_hash(self@, hashes[k]));
                }
            }
            lemma_order_retained(before, self@);
            assert(old(self).accounts_reconciled(self, hashes, changed)) by {
                assert(self.sender_table() == recorded.sender_table());
                assert(self.accounts() == recorded.accounts());
                assert forall|k: int|
                    0 <= k < old(self).sender_table()@.len() && !names(
                        changed,
                        old(self).sender_table()@[k],
                    ) implies account_after_mined(
                    old(self)@,
                    hashes,
                    old(self).sender_table()@[k],
                    old(self).accounts()[k],
                    #[trigger] self.accounts()[k],
                ) by {
                    assert(recorded.accounts()[k] == without_mined.accounts()[k]);
                    assert(account_after_mined(
                        old(self)@,
                        hashes,
                        old(self).sender_table()@[k],
                        old(self).accounts()[k],
                        without_mined.accounts()[k],
                    ));
                }
            }
        }
        OnNewCanonicalStateOutcome { block_hash: update.block_hash, mined, discarded }
    }
}

/// What bringing the pool in step with a new tip does: the tip and the fees
/// are recorded; what the pool holds afterwards is what it held that
/// neither a mined transaction nor a changed account has overtaken, in the
/// order in which it stood; nothing under a mined hash is held any more;
/// `mined` is what was held under the mined hashes, and `mined` and
/// `discarded` together are what has left; the changed accounts are
/// recorded; an account that no change names keeps its balance, and its
/// on-chain nonce moves past the mined transactions of the account that
/// the pool held, and else stays.
pub open spec fn reconciled<O: TransactionOrdering>(
    before: TxPool<O>,
    after: TxPool<O>,
    update: CanonicalStateUpdate,
    mined: Seq<HeldTx>,
    discarded: Seq<HeldTx>,
) -> bool {
    &&& after.consistent()
    &&& after.spec_block_info() == (BlockInfo {
        last_seen_block_hash: update.block_hash,
        last_seen_block_number: update.block_number,
        block_gas_limit: before.spec_block_info().block_gas_limit,
        pending_basefee: update.pending_block_base_fee,
        pending_blob_fee: update.pending_block_blob_fee,
    })
    &&& after.spec_config() == before.spec_config()
    &&& after.spec_ordering() == before.spec_ordering()
    &&& after.spec_next_submission_id() == before.spec_next_submission_id()
    &&& holds_the_surviving(before@, after@, update.mined_transactions@, update.changed_accounts@)
    &&& holds_none_of(after@, update.mined_transactions@)
    &&& holds_those_with(before@, mined, update.mined_transactions@)
    &&& splits_into(before@, after@, mined + discarded)
    &&& after@.len() + mined.len() + discarded.len() == before@.len()
    &&& order_retained(before@, after@)
    &&& after.accounts_recorded(update.changed_accounts@)
    &&& before.accounts_reconciled(&after, update.mined_transactions@, update.changed_accounts@)
}

} // verus!
