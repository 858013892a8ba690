//! The stream of transactions that are ready for the next block.
//!
//! The stream starts from a copy of the pending transactions. Of every
//! sender it offers the first transaction only; once that one was given out,
//! the sender's next one is offered. Among the offered transactions the one
//! with the highest rank goes first.

use crate::error::InvalidPoolTransactionError;
use crate::identifier::{SenderId, TransactionId};
use crate::ordering::Priority;
use crate::traits::{StreamState, ValidPoolTransaction};
use std::collections::HashSet;
use tokio::sync::broadcast::Receiver;
use tokio::sync::broadcast::error::TryRecvError;
use vstd::prelude::*;

verus! {

broadcast use vstd::std_specs::hash::group_hash_axioms;

/// The receiving end of a channel on which every subscriber gets every value.
#[verifier::external_type_specification]
#[verifier::external_body]
#[verifier::reject_recursive_types(T)]
pub struct ExReceiver<T>(Receiver<T>);

/// A pending transaction with its rank.
#[derive(Clone, Copy, Debug, PartialEq, Eq)]
pub struct PendingTransaction {
    /// The number the transaction got when the pool took it.
    pub submission_id: u64,
    /// The transaction.
    pub transaction: ValidPoolTransaction,
    /// Its rank.
    pub priority: Priority,
}

impl PendingTransaction {
    /// The identifier of the transaction.
    pub open spec fn spec_id(&self) -> TransactionId {
        self.transaction.transaction_id
    }

    /// The identifier of the transaction that this one has to precede.
    pub fn unlocks(&self) -> (r: Option<TransactionId>)
        ensures
            r == self.spec_id().spec_descendant(),
    {
        self.transaction.transaction_id.descendant()
    }
}

/// What a look into the channel of new pending transactions gave.
#[derive(Clone, Copy, Debug, PartialEq, Eq)]
pub enum Polled {
    /// A transaction.
    Item(PendingTransaction),
    /// Nothing but the news that transactions were lost.
    Lagged,
    /// Nothing for now.
    Empty,
    /// Nothing, and nothing will come.
    Closed,
}

/// Looks into the channel without waiting: `tokio`'s
/// `broadcast::Receiver::try_recv`. Nothing is claimed of what it gives: that
/// depends on who has sent what.
#[verifier::external_body]
fn poll_receiver(receiver: &mut Receiver<PendingTransaction>) -> (r: Polled) {
    match receiver.try_recv() {
        Ok(tx) => Polled::Item(tx),
        Err(TryRecvError::Lagged(_)) => Polled::Lagged,
        Err(TryRecvError::Empty) => Polled::Empty,
        Err(TryRecvError::Closed) => Polled::Closed,
    }
}

/// A transaction of the stream, and whether the stream offers it.
#[derive(Clone, Copy, Debug, PartialEq, Eq)]
pub struct BestEntry {
    /// The transaction.
    pub tx: PendingTransaction,
    /// Whether it is first in line for its sender.
    pub independent: bool,
}

/// Whether `a` is served before `b`: it has the higher rank, or the same
/// rank and the lower submission number, or the same of both and the lower
/// identifier.
pub open spec fn ranks_before(a: PendingTransaction, b: PendingTransaction) -> bool {
    ||| a.priority.level() > b.priority.level()
    ||| (a.priority.level() == b.priority.level() && a.submission_id < b.submission_id)
    ||| (a.priority.level() == b.priority.level() && a.submission_id == b.submission_id
        && a.spec_id().spec_lt(b.spec_id()))
}

/// The entries are strictly ordered by sender and nonce.
pub open spec fn entries_ordered(all: Seq<BestEntry>) -> bool {
    forall|i: int, j: int|
        0 <= i < j < all.len() ==> (#[trigger] all[i]).tx.spec_id().spec_lt(
            (#[trigger] all[j]).tx.spec_id(),
        )
}

/// The place of the offered entry among the first `n` that is served before
/// the others.
pub open spec fn best_upto(all: Seq<BestEntry>, n: int) -> Option<int>
    decreases n,
{
    if n <= 0 || n > all.len() {
        None
    } else if !all[n - 1].independent {
        best_upto(all, n - 1)
    } else {
        match best_upto(all, n - 1) {
            None => Some(n - 1),
            Some(p) => if ranks_before(all[n - 1].tx, all[p].tx) {
                Some(n - 1)
            } else {
                Some(p)
            },
        }
    }
}

/// The place of the offered entry that is served first.
pub open spec fn best_place(all: Seq<BestEntry>) -> Option<int> {
    best_upto(all, all.len() as int)
}

/// The entries with those of `sender` no longer offered.
pub open spec fn block_sender(all: Seq<BestEntry>, sender: SenderId) -> Seq<BestEntry> {
    Seq::new(
        all.len(),
        |i: int|
            if all[i].tx.spec_id().sender == sender {
                BestEntry { tx: all[i].tx, independent: false }
            } else {
                all[i]
            },
    )
}

/// The entries with the one at place `p` offered, where it is the
/// transaction right after `id`.
pub open spec fn unlock_at(all: Seq<BestEntry>, p: int, id: TransactionId) -> Seq<BestEntry> {
    if 0 <= p < all.len() && id.spec_descendant() == Some(all[p].tx.spec_id()) {
        all.update(p, BestEntry { tx: all[p].tx, independent: true })
    } else {
        all
    }
}

/// The state of a stream.
#[verifier::ext_equal]
pub struct BestView {
    /// The transactions not given out yet, in order of sender and nonce.
    pub all: Seq<BestEntry>,
    /// The senders of which the stream gives nothing any more.
    pub invalid: Set<u32>,
    /// The rank of the transaction given out last, kept while the stream
    /// takes in new transactions.
    pub last_priority: Option<Priority>,
    /// Whether blob transactions are passed over.
    pub skip_blobs: bool,
    /// Whether the stream takes in new transactions.
    pub live: bool,
    /// How many looks into the channel of new transactions the stream has
    /// left.
    pub budget: nat,
}

impl BestView {
    /// The entries are ordered, nothing of an invalid sender is offered, and
    /// the rank given out last is kept only while the stream is live.
    pub open spec fn wf(self) -> bool {
        &&& entries_ordered(self.all)
        &&& forall|i: int|
            0 <= i < self.all.len() && (#[trigger] self.all[i]).independent
                ==> !self.invalid.contains(self.all[i].tx.spec_id().sender.0)
        &&& !self.live ==> self.last_priority is None
    }

    /// A bound on the number of transactions that the stream can still
    /// give.
    pub open spec fn remaining(self) -> nat {
        if self.live {
            self.all.len() + self.budget
        } else {
            self.all.len()
        }
    }

    /// The state after the sender was marked invalid.
    pub open spec fn with_invalid(self, sender: SenderId) -> BestView {
        BestView {
            all: block_sender(self.all, sender),
            invalid: self.invalid.insert(sender.0),
            ..self
        }
    }
}

/// What the stream gives next, and its state after that, where it takes in
/// nothing new.
///
/// The offered transaction that is served first leaves the stream. Where
/// blob transactions are passed over and it is one, its sender is marked
/// invalid and the search goes on. Else it is given out, and the
/// transaction right after it is offered from now on.
pub open spec fn spec_next(s: BestView) -> (BestView, Option<PendingTransaction>)
    decreases s.all.len(),
{
    match best_place(s.all) {
        None => (s, None),
        Some(p) => if 0 <= p < s.all.len() {
            let t = s.all[p].tx;
            let rest = BestView { all: s.all.remove(p), ..s };
            if s.skip_blobs && t.transaction.transaction.spec_is_eip4844() {
                spec_next(rest.with_invalid(t.spec_id().sender))
            } else {
                (
                    BestView {
                        all: unlock_at(rest.all, p, t.spec_id()),
                        last_priority: if s.live {
                            Some(t.priority)
                        } else {
                            s.last_priority
                        },
                        ..rest
                    },
                    Some(t),
                )
            }
        } else {
            (s, None)
        },
    }
}

/// The place that `best_upto` gives is that of an offered entry which is
/// served before every other offered entry among the first `n`; it gives
/// none only where none of them is offered.
pub proof fn lemma_best_upto(all: Seq<BestEntry>, n: int)
    requires
        entries_ordered(all),
        0 <= n <= all.len(),
    ensures
        match best_upto(all, n) {
            Some(p) => 0 <= p < n && all[p].independent && forall|j: int|
                0 <= j < n && j != p && (#[trigger] all[j]).independent ==> ranks_before(
                    all[p].tx,
                    all[j].tx,
                ),
            None => forall|j: int| 0 <= j < n ==> !(#[trigger] all[j]).independent,
        },
    decreases n,
{
    if n > 0 {
        lemma_best_upto(all, n - 1);
        if all[n - 1].independent {
            match best_upto(all, n - 1) {
                None => {},
                Some(p) => {
                    assert(all[p].tx.spec_id().spec_lt(all[n - 1].tx.spec_id()));
                    if ranks_before(all[n - 1].tx, all[p].tx) {
                        assert forall|j: int|
                            0 <= j < n && j != n - 1 && (#[trigger] all[j]).independent implies ranks_before(
                            all[n - 1].tx,
                            all[j].tx,
                        ) by {
                            if j != p {
                                assert(ranks_before(all[p].tx, all[j].tx));
                            }
                        }
                    }
                },
            }
        }
    }
}

/// Whether the rank is above the rank given out last.
pub open spec fn spec_outranks_last(priority: Priority, last: Option<Priority>) -> bool {
    match last {
        Some(p) => priority.level() > p.level(),
        None => false,
    }
}

/// The state after the stream took in the transaction: it stands at its
/// place (in the place of the entry with the same identifier, where there is
/// one), and it is offered where the stream does not hold the transaction
/// right before it and its sender is not invalid.
pub open spec fn spec_insert(s: BestView, tx: PendingTransaction, p: int) -> BestView {
    let has_ancestor = 0 < p <= s.all.len() && s.all[p - 1].tx.spec_id().spec_descendant() == Some(
        tx.spec_id(),
    );
    let entry = BestEntry {
        tx,
        independent: !has_ancestor && !s.invalid.contains(tx.spec_id().sender.0),
    };
    if 0 <= p < s.all.len() && s.all[p].tx.spec_id() == tx.spec_id() {
        BestView { all: s.all.update(p, entry), ..s }
    } else {
        BestView { all: s.all.insert(p, entry), ..s }
    }
}

/// The place where a transaction with the identifier stands or has to
/// stand: before it the identifiers are lower, from it on they are not.
pub open spec fn is_place_of(all: Seq<BestEntry>, id: TransactionId, p: int) -> bool {
    &&& 0 <= p <= all.len()
    &&& forall|k: int| 0 <= k < p ==> (#[trigger] all[k]).tx.spec_id().spec_lt(id)
    &&& forall|k: int| p <= k < all.len() ==> !(#[trigger] all[k]).tx.spec_id().spec_lt(id)
}

/// The stream of transactions for the next block.
#[derive(Debug)]
pub struct BestTransactions {
    /// The transactions not given out yet, in order of sender and nonce.
    pub(crate) all: Vec<BestEntry>,
    /// The senders of which the stream gives nothing any more.
    pub(crate) invalid: HashSet<u32>,
    /// Where transactions arrive that became pending after the stream was
    /// made.
    pub(crate) new_transaction_receiver: Option<Receiver<PendingTransaction>>,
    /// The rank of the transaction given out last.
    pub(crate) last_priority: Option<Priority>,
    /// Whether blob transactions are passed over.
    pub(crate) skip_blobs: bool,
    /// How many looks into the channel the stream has left.
    pub(crate) update_budget: usize,
}

impl View for BestTransactions {
    type V = BestView;

    open(crate) spec fn view(&self) -> BestView {
        BestView {
            all: self.all@,
            invalid: self.invalid@,
            last_priority: self.last_priority,
            skip_blobs: self.skip_blobs,
            live: self.new_transaction_receiver is Some,
            budget: self.update_budget as nat,
        }
    }
}

impl BestTransactions {
    /// A stream without any transaction.
    pub fn new() -> (r: Self)
        ensures
            r@.wf(),
            r@.all.len() == 0,
            r@.invalid == Set::<u32>::empty(),
            r@.last_priority is None,
            !r@.skip_blobs,
            !r@.live,
            r@.budget == 0,
    {
        BestTransactions {
            all: Vec::new(),
            invalid: HashSet::new(),
            new_transaction_receiver: None,
            last_priority: None,
            skip_blobs: false,
            update_budget: 0,
        }
    }

    /// How many transactions the stream holds.
    pub fn len(&self) -> (r: usize)
        ensures
            r == self@.all.len(),
    {
        self.all.len()
    }

    /// Whether the stream holds a transaction with the identifier.
    pub fn contains(&self, id: &TransactionId) -> (r: bool)
        requires
            self@.wf(),
        ensures
            r == exists|i: int| 0 <= i < self@.all.len() && (#[trigger] self@.all[i]).tx.spec_id() == *id,
    {
        let p = self.place_of(id);
        let found = p < self.all.len() && self.all[p].tx.transaction.transaction_id == *id;
        proof {
            if !found && exists|i: int|
                0 <= i < self@.all.len() && (#[trigger] self@.all[i]).tx.spec_id() == *id {
                let i = choose|i: int|
                    0 <= i < self@.all.len() && (#[trigger] self@.all[i]).tx.spec_id() == *id;
                if i < p {
                    assert(self@.all[i].tx.spec_id().spec_lt(*id));
                } else if i > p {
                    assert(self@.all[p as int].tx.spec_id().spec_lt(self@.all[i].tx.spec_id()));
                    assert(!self@.all[p as int].tx.spec_id().spec_lt(*id));
                }
            }
        }
        found
    }

    /// How many transactions the stream offers.
    pub fn independent_len(&self) -> (r: usize)
        ensures
            r == count_offered(self@.all, self@.all.len() as int),
    {
        let mut count: usize = 0;
        let mut i: usize = 0;
        while i < self.all.len()
            invariant
                i <= self.all.len(),
                count == count_offered(self.all@, i as int),
                count <= i,
            decreases self.all.len() - i,
        {
            if self.all[i].independent {
                count = count + 1;
            }
            i = i + 1;
        }
        count
    }

    /// Whether the stream offers this transaction.
    pub fn is_independent(&self, tx: &PendingTransaction) -> (r: bool)
        requires
            self@.wf(),
        ensures
            r == exists|i: int|
                0 <= i < self@.all.len() && (#[trigger] self@.all[i]).tx == *tx
                    && self@.all[i].independent,
    {
        let id = tx.transaction.transaction_id;
        let p = self.place_of(&id);
        if p < self.all.len() {
            let e = self.all[p];
            let found = e.independent && e.tx.submission_id == tx.submission_id
                && e.tx.priority.eq_level(&tx.priority) && same_valid(&e.tx.transaction, &tx.transaction);
            proof {
                if !found && exists|i: int|
                    0 <= i < self@.all.len() && (#[trigger] self@.all[i]).tx == *tx
                        && self@.all[i].independent {
                    let i = choose|i: int|
                        0 <= i < self@.all.len() && (#[trigger] self@.all[i]).tx == *tx
                            && self@.all[i].independent;
                    if i < p {
                        assert(self@.all[i].tx.spec_id().spec_lt(id));
                    } else if i > p {
                        assert(self@.all[p as int].tx.spec_id().spec_lt(
                            self@.all[i].tx.spec_id(),
                        ));
                    }
                }
            }
            found
        } else {
            proof {
                assert forall|i: int| 0 <= i < self@.all.len() implies (#[trigger] self@.all[i]).tx
                    != *tx by {
                    assert(self@.all[i].tx.spec_id().spec_lt(id));
                }
            }
            false
        }
    }

    /// The place where a transaction with the identifier stands or has to
    /// stand.
    pub(crate) fn place_of(&self, id: &TransactionId) -> (r: usize)
        requires
            entries_ordered(self@.all),
        ensures
            is_place_of(self@.all, *id, r as int),
    {
        let mut i: usize = self.all.len();
        while i > 0 && !self.all[i - 1].tx.transaction.transaction_id.lt(id)
            invariant
                i <= self.all.len(),
                forall|k: int| i <= k < self.all@.len() ==> !(#[trigger] self.all@[k]).tx.spec_id().spec_lt(*id),
            decreases i,
        {
            i = i - 1;
        }
        proof {
            assert forall|k: int| 0 <= k < i implies (#[trigger] self.all@[k]).tx.spec_id().spec_lt(
                *id,
            ) by {
                if k < i - 1 {
                    assert(self.all@[k].tx.spec_id().spec_lt(self.all@[i - 1].tx.spec_id()));
                }
            }
        }
        i
    }
}

/// How many of the first `n` entries are offered.
pub open spec fn count_offered(all: Seq<BestEntry>, n: int) -> nat
    decreases n,
{
    if n <= 0 || n > all.len() {
        0
    } else if all[n - 1].independent {
        count_offered(all, n - 1) + 1
    } else {
        count_offered(all, n - 1)
    }
}

/// Whether the two are the same transaction with the same additions.
pub fn same_valid(a: &ValidPoolTransaction, b: &ValidPoolTransaction) -> (r: bool)
    ensures
        r == (*a == *b),
{
    a.transaction_id == b.transaction_id && a.propagate == b.propagate && a.origin == b.origin
        && same_tx(&a.transaction, &b.transaction)
}

/// Whether the two transactions agree in every field.
pub fn same_tx(a: &crate::transaction::Tx, b: &crate::transaction::Tx) -> (r: bool)
    ensures
        r == (*a == *b),
{
    a.hash == b.hash && a.sender == b.sender && a.nonce == b.nonce && a.gas_limit == b.gas_limit
        && a.max_fee_per_gas == b.max_fee_per_gas && a.max_priority_fee_per_gas
        == b.max_priority_fee_per_gas && a.max_fee_per_blob_gas == b.max_fee_per_blob_gas
        && a.tx_type == b.tx_type && a.value == b.value && a.encoded_size == b.encoded_size
        && a.blob_gas_limit == b.blob_gas_limit && a.cost == b.cost
}

/// Whether the state `b` may come of the state `a` by taking in new
/// transactions: nothing changes but the entries and the budget; an offered
/// entry was an entry before or has a rank that is not above the rank given
/// out last; the entries and the budget together have not grown; and a
/// stream that is not live does not change at all.
pub open spec fn updates_applied(a: BestView, b: BestView) -> bool {
    &&& b.invalid == a.invalid
    &&& b.last_priority == a.last_priority
    &&& b.skip_blobs == a.skip_blobs
    &&& b.live == a.live
    &&& b.budget <= a.budget
    &&& b.all.len() + b.budget <= a.all.len() + a.budget
    &&& !a.live ==> b == a
    &&& forall|j: int|
        0 <= j < b.all.len() && (#[trigger] b.all[j]).independent ==> (was_entry(a.all, b.all[j])
            || !spec_outranks_last(b.all[j].tx.priority, a.last_priority))
}

/// What the stream does with what a look into the channel gave: a
/// transaction whose rank is not above the rank given out last is taken in
/// as `spec_insert` says, and the stream looks again; a transaction with a
/// higher rank is left out, and the stream looks again; the news that
/// transactions were lost changes nothing, and the stream looks again; an
/// empty or a closed channel changes nothing and ends the looking.
pub open spec fn polled_taken(before: BestView, after: BestView, polled: Polled, go_on: bool) -> bool {
    match polled {
        Polled::Item(tx) => if spec_outranks_last(tx.priority, before.last_priority) {
            go_on && after == before
        } else {
            go_on && exists|p: int| #[trigger]
                is_place_of(before.all, tx.spec_id(), p) && after == spec_insert(before, tx, p)
        },
        Polled::Lagged => go_on && after == before,
        Polled::Empty => !go_on && after == before,
        Polled::Closed => !go_on && after == before,
    }
}

/// What the stream does with what a look into the channel gave keeps what
/// `updates_applied` asks for, but for the budget: an offered entry was an
/// entry before or has a rank that is not above the rank given out last.
pub proof fn lemma_polled_is_update(before: BestView, after: BestView, polled: Polled, go_on: bool)
    requires
        polled_taken(before, after, polled, go_on),
    ensures
        after.invalid == before.invalid,
        after.last_priority == before.last_priority,
        after.skip_blobs == before.skip_blobs,
        after.live == before.live,
        after.budget == before.budget,
        after.all.len() <= before.all.len() + 1,
        forall|j: int|
            0 <= j < after.all.len() && (#[trigger] after.all[j]).independent ==> (was_entry(
                before.all,
                after.all[j],
            ) || !spec_outranks_last(after.all[j].tx.priority, before.last_priority)),
{
    match polled {
        Polled::Item(tx) => {
            if !spec_outranks_last(tx.priority, before.last_priority) {
                let p = choose|p: int| #[trigger]
                    is_place_of(before.all, tx.spec_id(), p) && after == spec_insert(before, tx, p);
                assert forall|j: int|
                    0 <= j < after.all.len() && (#[trigger] after.all[j]).independent implies (
                was_entry(before.all, after.all[j]) || !spec_outranks_last(
                    after.all[j].tx.priority,
                    before.last_priority,
                )) by {
                    if after.all[j].tx != tx {
                        if 0 <= p < before.all.len() && before.all[p].tx.spec_id() == tx.spec_id() {
                            assert(after.all[j] == before.all[j]);
                        } else if j < p {
                            assert(after.all[j] == before.all[j]);
                        } else {
                            assert(after.all[j] == before.all[j - 1]);
                        }
                    }
                }
            } else {
                assert forall|j: int|
                    0 <= j < after.all.len() && (#[trigger] after.all[j]).independent implies was_entry(
                    before.all,
                    after.all[j],
                ) by {}
            }
        },
        _ => {
            assert forall|j: int|
                0 <= j < after.all.len() && (#[trigger] after.all[j]).independent implies was_entry(
                before.all,
                after.all[j],
            ) by {}
        },
    }
}

/// Whether the entry is among the entries.
pub open spec fn was_entry(all: Seq<BestEntry>, e: BestEntry) -> bool {
    exists|i: int| 0 <= i < all.len() && #[trigger] all[i] == e
}

/// One look into the channel: a live stream spends one of the looks that
/// it has left, and deals with what the look gave as `polled_taken` says.
pub open spec fn looked_once(before: BestView, after: BestView, polled: Polled, go_on: bool) -> bool {
    &&& before.live
    &&& before.budget > 0
    &&& polled_taken(
        BestView { budget: (before.budget - 1) as nat, ..before },
        after,
        polled,
        go_on,
    )
}

/// The stream has looked into the channel, and the looks gave `looks`, one
/// after the other: it looks as long as it is live and has a look left, and
/// it stops after a look of which `polled_taken` says that it ends the
/// looking.
pub open spec fn looks_taken(before: BestView, after: BestView, looks: Seq<Polled>) -> bool
    decreases looks.len(),
{
    if looks.len() == 0 {
        after == before && (!before.live || before.budget == 0)
    } else {
        exists|mid: BestView, go_on: bool| #[trigger]
            looked_once(before, mid, looks[0], go_on) && if go_on {
                looks_taken(mid, after, looks.drop_first())
            } else {
                looks.len() == 1 && after == mid
            }
    }
}

/// The stream has taken in what has arrived: it has looked into the channel
/// until a look ended the looking or no look was left.
pub open spec fn drained(before: BestView, after: BestView) -> bool {
    exists|looks: Seq<Polled>| #[trigger] looks_taken(before, after, looks)
}

/// Whatever comes of the looks that the stream `cur` takes comes of the
/// looks that the stream `first` takes, `done` being what the looks gave so
/// far.
pub open spec fn looks_continue(first: BestView, cur: BestView, done: Seq<Polled>) -> bool {
    forall|target: BestView, rest: Seq<Polled>| #[trigger]
        looks_taken(cur, target, rest) ==> looks_taken(first, target, done + rest)
}

/// One more look after which the stream looks again.
pub proof fn lemma_look_step(
    first: BestView,
    cur: BestView,
    next: BestView,
    done: Seq<Polled>,
    polled: Polled,
)
    requires
        looks_continue(first, cur, done),
        looked_once(cur, next, polled, true),
    ensures
        looks_continue(first, next, done.push(polled)),
{
    assert forall|target: BestView, rest: Seq<Polled>| #[trigger]
        looks_taken(next, target, rest) implies looks_taken(
        first,
        target,
        done.push(polled) + rest,
    ) by {
        let all = seq![polled] + rest;
        assert(all[0] == polled);
        assert(all.drop_first() =~= rest);
        assert(looked_once(cur, next, all[0], true));
        assert(looks_taken(cur, target, all));
        assert(looks_taken(first, target, done + all));
        assert(done + all =~= done.push(polled) + rest);
    }
}

/// Every look costs one of the looks that the stream has left: after the
/// looks the stream has as many fewer as it took. A live stream that has a
/// look left takes one at the least.
pub proof fn lemma_looks_are_spent(before: BestView, after: BestView, looks: Seq<Polled>)
    requires
        looks_taken(before, after, looks),
    ensures
        after.budget + looks.len() == before.budget,
        after.live == before.live,
        before.live && before.budget > 0 ==> looks.len() > 0,
    decreases looks.len(),
{
    if looks.len() > 0 {
        let (mid, go_on) = choose|mid: BestView, go_on: bool| #[trigger]
            looked_once(before, mid, looks[0], go_on) && if go_on {
                looks_taken(mid, after, looks.drop_first())
            } else {
                looks.len() == 1 && after == mid
            };
        lemma_polled_is_update(
            BestView { budget: (before.budget - 1) as nat, ..before },
            mid,
            looks[0],
            go_on,
        );
        if go_on {
            lemma_looks_are_spent(mid, after, looks.drop_first());
        }
    }
}

/// What one call for the next transaction does: the stream takes in new
/// transactions, which brings it to the state `mid`, and then gives what
/// `spec_next` says.
pub open spec fn steps_through(
    before: BestView,
    mid: BestView,
    after: BestView,
    given: Option<ValidPoolTransaction>,
) -> bool {
    &&& mid.wf()
    &&& updates_applied(before, mid)
    &&& drained(before, mid)
    &&& spec_next(mid).0 == after
    &&& given == (match spec_next(mid).1 {
        Some(t) => Some(t.transaction),
        None => None,
    })
}

/// What one call for the next transaction does.
pub open spec fn steps(before: BestView, after: BestView, given: Option<ValidPoolTransaction>) -> bool {
    exists|mid: BestView| #[trigger] steps_through(before, mid, after, given)
}

/// Taking in a transaction keeps the state sound.
pub proof fn lemma_insert_wf(s: BestView, tx: PendingTransaction, p: int)
    requires
        s.wf(),
        is_place_of(s.all, tx.spec_id(), p),
    ensures
        spec_insert(s, tx, p).wf(),
{
    let r = spec_insert(s, tx, p);
    let id = tx.spec_id();
    if 0 <= p < s.all.len() && s.all[p].tx.spec_id() == id {
        assert forall|i: int, j: int| 0 <= i < j < r.all.len() implies (
        #[trigger] r.all[i]).tx.spec_id().spec_lt((#[trigger] r.all[j]).tx.spec_id()) by {
            assert(s.all[i].tx.spec_id().spec_lt(s.all[j].tx.spec_id()));
        }
    } else {
        assert forall|i: int, j: int| 0 <= i < j < r.all.len() implies (
        #[trigger] r.all[i]).tx.spec_id().spec_lt((#[trigger] r.all[j]).tx.spec_id()) by {
            let i0 = if i < p {
                i
            } else {
                i - 1
            };
            let j0 = if j < p {
                j
            } else {
                j - 1
            };
            if i == p {
                assert(r.all[j] == s.all[j0]);
                assert(!s.all[j0].tx.spec_id().spec_lt(id));
                if p < s.all.len() && j0 > p {
                    assert(s.all[p].tx.spec_id().spec_lt(s.all[j0].tx.spec_id()));
                    assert(!s.all[p].tx.spec_id().spec_lt(id));
                }
            } else if j == p {
                assert(r.all[i] == s.all[i0]);
            } else {
                assert(r.all[i] == s.all[i0]);
                assert(r.all[j] == s.all[j0]);
                assert(s.all[i0].tx.spec_id().spec_lt(s.all[j0].tx.spec_id()));
            }
        }
        assert forall|i: int| 0 <= i < r.all.len() && (#[trigger] r.all[i]).independent implies !r.invalid.contains(
        r.all[i].tx.spec_id().sender.0) by {
            if i < p {
                assert(r.all[i] == s.all[i]);
            } else if i > p {
                assert(r.all[i] == s.all[i - 1]);
            }
        }
    }
}

impl BestTransactions {
    /// Takes a pending transaction into the stream. It is offered where the
    /// stream does not hold the transaction right before it and its sender
    /// is not invalid; it takes the place of a transaction with the same
    /// sender and nonce.
    pub fn add_transaction(&mut self, tx: PendingTransaction)
        requires
            old(self)@.wf(),
        ensures
            final(self)@.wf(),
            exists|p: int| #[trigger]
                is_place_of(old(self)@.all, tx.spec_id(), p) && final(self)@ == spec_insert(
                    old(self)@,
                    tx,
                    p,
                ),
    {
        let id = tx.transaction.transaction_id;
        let p = self.place_of(&id);
        let has_ancestor = p > 0 && self.all[p - 1].tx.transaction.transaction_id.is_followed_by(&id);
        let valid = !self.invalid.contains(&id.sender.0);
        let entry = BestEntry { tx, independent: !has_ancestor && valid };
        proof {
            lemma_insert_wf(self@, tx, p as int);
        }
        if p < self.all.len() && self.all[p].tx.transaction.transaction_id == id {
            self.all[p] = entry;
        } else {
            self.all.insert(p, entry);
        }
        proof {
            assert(self@.all == spec_insert(old(self)@, tx, p as int).all);
            assert(self@ == spec_insert(old(self)@, tx, p as int));
            assert(is_place_of(old(self)@.all, tx.spec_id(), p as int));
        }
    }

    /// No longer offers the transactions of the sender.
    pub(crate) fn block(&mut self, sender: SenderId)
        ensures
            final(self).all@ == block_sender(old(self).all@, sender),
            final(self).invalid == old(self).invalid,
            final(self).new_transaction_receiver == old(self).new_transaction_receiver,
            final(self).last_priority == old(self).last_priority,
            final(self).skip_blobs == old(self).skip_blobs,
            final(self).update_budget == old(self).update_budget,
    {
        let mut i: usize = 0;
        while i < self.all.len()
            invariant
                i <= self.all.len(),
                self.all@.len() == old(self).all@.len(),
                forall|k: int| 0 <= k < i ==> #[trigger] self.all@[k] == block_sender(
                    old(self).all@,
                    sender,
                )[k],
                forall|k: int| i <= k < self.all@.len() ==> #[trigger] self.all@[k] == old(
                    self,
                ).all@[k],
                self.invalid == old(self).invalid,
                self.new_transaction_receiver == old(self).new_transaction_receiver,
                self.last_priority == old(self).last_priority,
                self.skip_blobs == old(self).skip_blobs,
                self.update_budget == old(self).update_budget,
            decreases self.all.len() - i,
        {
            let e = self.all[i];
            if e.tx.transaction.transaction_id.sender.0 == sender.0 {
                self.all[i] = BestEntry { tx: e.tx, independent: false };
            }
            i = i + 1;
        }
        proof {
            assert(self.all@ =~= block_sender(old(self).all@, sender));
        }
    }

    /// Whether the entry at place `a` is served before the one at `b`.
    fn ranks_before_at(&self, a: usize, b: usize) -> (r: bool)
        requires
            a < self@.all.len(),
            b < self@.all.len(),
        ensures
            r == ranks_before(self@.all[a as int].tx, self@.all[b as int].tx),
    {
        let x = self.all[a].tx;
        let y = self.all[b].tx;
        if x.priority.gt(&y.priority) {
            true
        } else if y.priority.gt(&x.priority) {
            false
        } else if x.submission_id != y.submission_id {
            x.submission_id < y.submission_id
        } else {
            x.transaction.transaction_id.lt(&y.transaction.transaction_id)
        }
    }

    /// The place of the offered transaction that is served first.
    pub(crate) fn find_best(&self) -> (r: Option<usize>)
        ensures
            match r {
                Some(p) => best_place(self@.all) == Some(p as int),
                None => best_place(self@.all) is None,
            },
    {
        let mut found: Option<usize> = None;
        let mut i: usize = 0;
        while i < self.all.len()
            invariant
                i <= self.all.len(),
                match found {
                    Some(p) => p < i && best_upto(self.all@, i as int) == Some(p as int),
                    None => best_upto(self.all@, i as int) is None,
                },
            decreases self.all.len() - i,
        {
            if self.all[i].independent {
                match found {
                    None => {
                        found = Some(i);
                    },
                    Some(p) => {
                        if self.ranks_before_at(i, p) {
                            found = Some(i);
                        }
                    },
                }
            }
            i = i + 1;
        }
        found
    }
}

/// Marking a sender invalid keeps the state sound.
pub proof fn lemma_with_invalid_wf(s: BestView, sender: SenderId)
    requires
        s.wf(),
    ensures
        s.with_invalid(sender).wf(),
        s.with_invalid(sender).all.len() == s.all.len(),
{
    let r = s.with_invalid(sender);
    assert forall|i: int, j: int| 0 <= i < j < r.all.len() implies (
    #[trigger] r.all[i]).tx.spec_id().spec_lt((#[trigger] r.all[j]).tx.spec_id()) by {
        assert(s.all[i].tx.spec_id().spec_lt(s.all[j].tx.spec_id()));
    }
    assert forall|i: int| 0 <= i < r.all.len() && (#[trigger] r.all[i]).independent implies !r.invalid.contains(
    r.all[i].tx.spec_id().sender.0) by {
        assert(s.all[i].independent);
    }
}

/// Taking the entry at a place out keeps the state sound.
pub proof fn lemma_remove_wf(s: BestView, p: int)
    requires
        s.wf(),
        0 <= p < s.all.len(),
    ensures
        (BestView { all: s.all.remove(p), ..s }).wf(),
{
    let r = BestView { all: s.all.remove(p), ..s };
    assert forall|i: int, j: int| 0 <= i < j < r.all.len() implies (
    #[trigger] r.all[i]).tx.spec_id().spec_lt((#[trigger] r.all[j]).tx.spec_id()) by {
        let i0 = if i < p {
            i
        } else {
            i + 1
        };
        let j0 = if j < p {
            j
        } else {
            j + 1
        };
        assert(r.all[i] == s.all[i0]);
        assert(r.all[j] == s.all[j0]);
        assert(s.all[i0].tx.spec_id().spec_lt(s.all[j0].tx.spec_id()));
    }
    assert forall|i: int| 0 <= i < r.all.len() && (#[trigger] r.all[i]).independent implies !r.invalid.contains(
    r.all[i].tx.spec_id().sender.0) by {
        let i0 = if i < p {
            i
        } else {
            i + 1
        };
        assert(r.all[i] == s.all[i0]);
    }
}

/// What holds of the state after the stream gave a transaction out: the
/// state is sound, it holds fewer transactions, and the transaction given
/// out was offered before. What is offered afterwards was offered before
/// and is served after the transaction given out, or it is the transaction
/// right after that one. A live stream has kept the rank of the transaction
/// given out.
pub proof fn lemma_spec_next(s: BestView)
    requires
        s.wf(),
    ensures
        spec_next(s).0.wf(),
        spec_next(s).0.live == s.live,
        spec_next(s).0.skip_blobs == s.skip_blobs,
        spec_next(s).0.budget == s.budget,
        spec_next(s).0.all.len() <= s.all.len(),
        spec_next(s).1 matches Some(t) ==> {
            &&& spec_next(s).0.all.len() < s.all.len()
            &&& was_entry(s.all, BestEntry { tx: t, independent: true })
            &&& !(s.skip_blobs && t.transaction.transaction.spec_is_eip4844())
            &&& s.live ==> spec_next(s).0.last_priority == Some(t.priority)
            &&& forall|j: int|
                0 <= j < spec_next(s).0.all.len() && (#[trigger] spec_next(s).0.all[j]).independent
                    ==> (t.spec_id().spec_descendant() == Some(spec_next(s).0.all[j].tx.spec_id())
                    || (ranks_before(t, spec_next(s).0.all[j].tx) && was_entry(
                    s.all,
                    spec_next(s).0.all[j],
                )))
        },
        spec_next(s).1 is None ==> forall|j: int|
            0 <= j < spec_next(s).0.all.len() ==> !(#[trigger] spec_next(s).0.all[j]).independent,
    decreases s.all.len(),
{
    lemma_best_upto(s.all, s.all.len() as int);
    match best_place(s.all) {
        None => {},
        Some(p) => {
            let t = s.all[p].tx;
            let rest = BestView { all: s.all.remove(p), ..s };
            lemma_remove_wf(s, p);
            assert forall|j: int| 0 <= j < rest.all.len() implies #[trigger] rest.all[j] == s.all[if j
                < p {
                j
            } else {
                j + 1
            }] by {}
            if s.skip_blobs && t.transaction.transaction.spec_is_eip4844() {
                let blocked = rest.with_invalid(t.spec_id().sender);
                lemma_with_invalid_wf(rest, t.spec_id().sender);
                lemma_spec_next(blocked);
                let out = spec_next(blocked);
                match out.1 {
                    Some(u) => {
                        let e = BestEntry { tx: u, independent: true };
                        let i = choose|i: int| 0 <= i < blocked.all.len() && #[trigger] blocked.all[i] == e;
                        assert(rest.all[i] == e);
                        assert(s.all[if i < p {
                            i
                        } else {
                            i + 1
                        }] == e);
                        assert forall|j: int|
                            0 <= j < out.0.all.len() && (#[trigger] out.0.all[j]).independent implies (
                        u.spec_id().spec_descendant() == Some(out.0.all[j].tx.spec_id()) || (
                        ranks_before(u, out.0.all[j].tx) && was_entry(s.all, out.0.all[j]))) by {
                            if !(u.spec_id().spec_descendant() == Some(out.0.all[j].tx.spec_id())) {
                                let k = choose|k: int|
                                    0 <= k < blocked.all.len() && #[trigger] blocked.all[k]
                                        == out.0.all[j];
                                assert(rest.all[k] == out.0.all[j]);
                                assert(s.all[if k < p {
                                    k
                                } else {
                                    k + 1
                                }] == out.0.all[j]);
                            }
                        }
                    },
                    None => {},
                }
            } else {
                let after = unlock_at(rest.all, p, t.spec_id());
                let out = spec_next(s).0;
                assert(out.all == after);
                assert(s.all[p] == BestEntry { tx: t, independent: true });
                assert forall|i: int, j: int| 0 <= i < j < after.len() implies (
                #[trigger] after[i]).tx.spec_id().spec_lt((#[trigger] after[j]).tx.spec_id()) by {
                    assert(rest.all[i].tx.spec_id().spec_lt(rest.all[j].tx.spec_id()));
                }
                assert forall|j: int| 0 <= j < after.len() && (#[trigger] after[j]).independent implies !out.invalid.contains(
                after[j].tx.spec_id().sender.0) by {
                    if !rest.all[j].independent {
                        assert(j == p);
                    }
                }
                assert forall|j: int| 0 <= j < after.len() && (#[trigger] after[j]).independent implies (
                t.spec_id().spec_descendant() == Some(after[j].tx.spec_id()) || (ranks_before(
                    t,
                    after[j].tx,
                ) && was_entry(s.all, after[j]))) by {
                    if rest.all[j].independent {
                        let j0 = if j < p {
                            j
                        } else {
                            j + 1
                        };
                        assert(rest.all[j] == s.all[j0]);
                        assert(after[j] == rest.all[j]);
                    }
                }
            }
        },
    }
}

/// Of two transactions that a stream gives out one after the other, the
/// second does not have a higher rank than the first, unless it is the
/// transaction right after the first of the same sender, which the first
/// has set free.
///
/// `first_state` is the state from which the stream gave the first
/// transaction, `second_state` the state from which it gave the second;
/// between the two the stream may have taken in new transactions.
pub proof fn lemma_best_ordering(
    first_state: BestView,
    second_state: BestView,
    first: PendingTransaction,
    second: PendingTransaction,
)
    requires
        first_state.wf(),
        spec_next(first_state).1 == Some(first),
        updates_applied(spec_next(first_state).0, second_state),
        spec_next(second_state).1 == Some(second),
    ensures
        second.priority.level() <= first.priority.level() || first.spec_id().spec_descendant()
            == Some(second.spec_id()),
{
    let between = spec_next(first_state).0;
    lemma_spec_next(first_state);
    lemma_given_is_offered(second_state);
    let e = BestEntry { tx: second, independent: true };
    let j = choose|j: int| 0 <= j < second_state.all.len() && #[trigger] second_state.all[j] == e;
    assert(second_state.all[j].independent);
    if was_entry(between.all, e) {
        let i = choose|i: int| 0 <= i < between.all.len() && #[trigger] between.all[i] == e;
        assert(between.all[i].independent);
    } else {
        assert(!spec_outranks_last(second.priority, between.last_priority));
        if !between.live {
            assert(second_state == between);
        }
    }
}

/// The transaction that a stream gives out was offered.
pub proof fn lemma_given_is_offered(s: BestView)
    ensures
        spec_next(s).1 matches Some(t) ==> was_entry(s.all, BestEntry { tx: t, independent: true }),
    decreases s.all.len(),
{
    match best_place(s.all) {
        None => {},
        Some(p) => {
            if 0 <= p < s.all.len() {
                lemma_best_place_is_offered(s.all, s.all.len() as int);
                let t = s.all[p].tx;
                let rest = BestView { all: s.all.remove(p), ..s };
                if s.skip_blobs && t.transaction.transaction.spec_is_eip4844() {
                    let blocked = rest.with_invalid(t.spec_id().sender);
                    lemma_given_is_offered(blocked);
                    match spec_next(blocked).1 {
                        Some(u) => {
                            let e = BestEntry { tx: u, independent: true };
                            let i = choose|i: int|
                                0 <= i < blocked.all.len() && #[trigger] blocked.all[i] == e;
                            assert(rest.all[i] == e);
                            assert(s.all[if i < p {
                                i
                            } else {
                                i + 1
                            }] == e);
                        },
                        None => {},
                    }
                } else {
                    assert(s.all[p] == BestEntry { tx: t, independent: true });
                }
            }
        },
    }
}

/// The place that `best_upto` gives is that of an offered entry.
pub proof fn lemma_best_place_is_offered(all: Seq<BestEntry>, n: int)
    requires
        0 <= n <= all.len(),
    ensures
        best_upto(all, n) matches Some(p) ==> 0 <= p < n && all[p].independent,
    decreases n,
{
    if n > 0 {
        lemma_best_place_is_offered(all, n - 1);
    }
}

impl BestTransactions {
    /// Gives the next transaction out of what the stream holds, without
    /// looking for new ones.
    pub fn next_ready(&mut self) -> (r: Option<ValidPoolTransaction>)
        requires
            old(self)@.wf(),
        ensures
            final(self)@.wf(),
            final(self)@ == spec_next(old(self)@).0,
            r == (match spec_next(old(self)@).1 {
                Some(t) => Some(t.transaction),
                None => None,
            }),
    {
        proof {
            lemma_spec_next(self@);
        }
        loop
            invariant
                self@.wf(),
                spec_next(self@) == spec_next(old(self)@),
            decreases self.all.len(),
        {
            let ghost cur = self@;
            proof {
                lemma_best_upto(cur.all, cur.all.len() as int);
                lemma_spec_next(cur);
            }
            match self.find_best() {
                None => {
                    return None;
                },
                Some(p) => {
                    let best = self.all.remove(p).tx;
                    let id = best.transaction.transaction_id;
                    proof {
                        lemma_remove_wf(cur, p as int);
                    }
                    if self.skip_blobs && best.transaction.transaction.is_eip4844() {
                        self.invalid.insert(id.sender.0);
                        self.block(id.sender);
                        proof {
                            let rest = BestView { all: cur.all.remove(p as int), ..cur };
                            assert(self@.all == rest.with_invalid(id.sender).all);
                            assert(self@ == rest.with_invalid(id.sender));
                            lemma_with_invalid_wf(rest, id.sender);
                        }
                    } else {
                        if p < self.all.len() && id.is_followed_by(
                            &self.all[p].tx.transaction.transaction_id,
                        ) {
                            let e = self.all[p];
                            self.all[p] = BestEntry { tx: e.tx, independent: true };
                        }
                        if self.new_transaction_receiver.is_some() {
                            self.last_priority = Some(best.priority);
                        }
                        proof {
                            assert(self@.all == spec_next(cur).0.all);
                            assert(self@ == spec_next(cur).0);
                        }
                        return Some(best.transaction);
                    }
                },
            }
        }
    }

    /// Whether the rank is above the rank given out last.
    fn outranks_last(&self, priority: &Priority) -> (r: bool)
        ensures
            r == spec_outranks_last(*priority, self@.last_priority),
    {
        match &self.last_priority {
            Some(last) => priority.gt(last),
            None => false,
        }
    }

    /// Deals with what a look into the channel gave. A transaction whose rank
    /// is not above the rank given out last is taken in; one with a higher
    /// rank is left out, so that what the stream gives does not go back up.
    /// Tells whether to look again: after any transaction, taken in or left
    /// out, and after the news that transactions were lost; not once the
    /// channel is empty or closed.
    pub fn take_polled(&mut self, polled: Polled) -> (go_on: bool)
        requires
            old(self)@.wf(),
        ensures
            final(self)@.wf(),
            polled_taken(old(self)@, final(self)@, polled, go_on),
    {
        match polled {
            Polled::Item(tx) => {
                if !self.outranks_last(&tx.priority) {
                    self.add_transaction(tx);
                }
                true
            },
            Polled::Lagged => true,
            Polled::Empty => false,
            Polled::Closed => false,
        }
    }

    /// Takes in the transactions that have arrived since the last look, as
    /// far as the budget goes: a live stream looks into the channel as long
    /// as it has a look left, every look is dealt with as `take_polled`
    /// says, and the looking ends when that says to stop.
    pub fn add_new_transactions(&mut self)
        requires
            old(self)@.wf(),
        ensures
            final(self)@.wf(),
            updates_applied(old(self)@, final(self)@),
            drained(old(self)@, final(self)@),
    {
        let ghost mut done: Seq<Polled> = Seq::empty();
        proof {
            assert forall|target: BestView, rest: Seq<Polled>| #[trigger]
                looks_taken(self@, target, rest) implies looks_taken(
                old(self)@,
                target,
                done + rest,
            ) by {
                assert(done + rest =~= rest);
            }
        }
        while self.update_budget > 0 && self.new_transaction_receiver.is_some()
            invariant
                self@.wf(),
                updates_applied(old(self)@, self@),
                looks_continue(old(self)@, self@, done),
            decreases self.update_budget,
        {
            let ghost cur = self@;
            self.update_budget = self.update_budget - 1;
            let polled = match &mut self.new_transaction_receiver {
                Some(receiver) => poll_receiver(receiver),
                None => Polled::Closed,
            };
            let ghost before = self@;
            let go_on = self.take_polled(polled);
            proof {
                lemma_polled_is_update(before, self@, polled, go_on);
                assert(before == (BestView { budget: (cur.budget - 1) as nat, ..cur }));
                assert(looked_once(cur, self@, polled, go_on));
            }
            if !go_on {
                proof {
                    let last = seq![polled];
                    assert(last[0] == polled);
                    assert(looks_taken(cur, self@, last));
                    assert(looks_taken(old(self)@, self@, done + last));
                }
                return ;
            }
            proof {
                lemma_look_step(old(self)@, cur, self@, done, polled);
                done = done.push(polled);
            }
        }
        proof {
            let none = Seq::<Polled>::empty();
            assert(looks_taken(self@, self@, none));
            assert(looks_taken(old(self)@, self@, done + none));
        }
    }

    /// Tells the stream where new pending transactions arrive, and how many
    /// looks into the channel it may take in all.
    pub fn set_receiver(&mut self, receiver: Receiver<PendingTransaction>, budget: usize)
        requires
            old(self)@.wf(),
        ensures
            final(self)@ == (BestView { live: true, budget: budget as nat, ..old(self)@ }),
            final(self)@.wf(),
    {
        self.new_transaction_receiver = Some(receiver);
        self.update_budget = budget;
    }

    /// Whether the stream takes in new transactions.
    pub fn has_receiver(&self) -> (r: bool)
        ensures
            r == self@.live,
    {
        self.new_transaction_receiver.is_some()
    }
}

impl crate::traits::BestTransactions for BestTransactions {
    open spec fn wf(&self) -> bool {
        self@.wf()
    }

    open spec fn remaining(&self) -> nat {
        self@.remaining()
    }

    open spec fn state(&self) -> StreamState {
        StreamState::of(self@)
    }

    /// The stream takes in what has arrived and gives what `spec_next`
    /// says; one that is not live takes in nothing.
    open spec fn gives(&self, after: StreamState, r: Option<ValidPoolTransaction>) -> bool {
        &&& after == StreamState::of(after.view)
        &&& steps(self@, after.view, r)
        &&& !self@.live ==> steps_through(self@, self@, after.view, r)
    }

    /// The sender of the transaction is marked invalid.
    open spec fn marks_invalid(
        &self,
        after: StreamState,
        transaction: ValidPoolTransaction,
        kind: InvalidPoolTransactionError,
    ) -> bool {
        after == StreamState::of(self@.with_invalid(transaction.transaction_id.sender))
    }

    /// The stream is live no longer and has forgotten the rank given out
    /// last.
    open spec fn drops_updates(&self, after: StreamState) -> bool {
        after == StreamState::of(BestView { live: false, last_priority: None, ..self@ })
    }

    /// Nothing changes but whether blob transactions are passed over.
    open spec fn sets_skip_blobs(&self, after: StreamState, skip_blobs: bool) -> bool {
        after == StreamState::of(BestView { skip_blobs, ..self@ })
    }

    /// Takes in the transactions that have arrived, then gives out the
    /// offered transaction that is served first.
    fn next(&mut self) -> (r: Option<ValidPoolTransaction>)
        ensures
            steps(old(self)@, final(self)@, r),
            !old(self)@.live ==> steps_through(old(self)@, old(self)@, final(self)@, r),
    {
        self.add_new_transactions();
        let ghost mid = self@;
        proof {
            lemma_spec_next(mid);
        }
        let r = self.next_ready();
        proof {
            assert(steps_through(old(self)@, mid, self@, r));
        }
        r
    }

    /// Marks the sender of the transaction invalid: nothing of that sender
    /// is offered any more.
    fn mark_invalid(&mut self, transaction: &ValidPoolTransaction, kind: InvalidPoolTransactionError)
        ensures
            final(self)@ == old(self)@.with_invalid(transaction.transaction_id.sender),
    {
        let sender = transaction.transaction_id.sender;
        proof {
            lemma_with_invalid_wf(self@, sender);
        }
        self.invalid.insert(sender.0);
        self.block(sender);
        proof {
            assert(self@.all == old(self)@.with_invalid(sender).all);
        }
    }

    /// Drops the channel of new transactions and the rank given out last.
    fn no_updates(&mut self)
        ensures
            final(self)@ == (BestView { live: false, last_priority: None, ..old(self)@ }),
    {
        self.new_transaction_receiver = None;
        self.last_priority = None;
    }

    fn skip_blobs(&mut self)
        ensures
            final(self)@ == (BestView { skip_blobs: true, ..old(self)@ }),
    {
        self.set_skip_blobs(true);
    }

    fn set_skip_blobs(&mut self, skip_blobs: bool)
        ensures
            final(self)@ == (BestView { skip_blobs, ..old(self)@ }),
    {
        self.skip_blobs = skip_blobs;
    }
}

/// The offered ones of the first `n` entries, in their order.
pub open spec fn offered_upto(all: Seq<BestEntry>, n: int) -> Seq<PendingTransaction>
    decreases n,
{
    if n <= 0 || n > all.len() {
        Seq::empty()
    } else if all[n - 1].independent {
        offered_upto(all, n - 1).push(all[n - 1].tx)
    } else {
        offered_upto(all, n - 1)
    }
}

impl BestTransactions {
    /// The transactions that the stream offers, in order of sender and
    /// nonce.
    pub fn independent(&self) -> (r: Vec<PendingTransaction>)
        ensures
            r@ == offered_upto(self@.all, self@.all.len() as int),
    {
        let mut out: Vec<PendingTransaction> = Vec::new();
        let mut i: usize = 0;
        while i < self.all.len()
            invariant
                i <= self.all.len(),
                out@ == offered_upto(self.all@, i as int),
            decreases self.all.len() - i,
        {
            if self.all[i].independent {
                out.push(self.all[i].tx);
            }
            i = i + 1;
        }
        out
    }
}

} // verus!
