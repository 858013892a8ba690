//! Streams that pass over or reorder what another stream gives.

use crate::best::{
    lemma_spec_next, lemma_with_invalid_wf, spec_next, steps_through, BestTransactions, BestView,
    PendingTransaction,
};
use crate::error::InvalidPoolTransactionError;
use crate::primitives::Address;
use crate::traits::{SetAside, StreamState, ValidPoolTransaction};
use std::collections::VecDeque;
use vstd::prelude::*;

verus! {

/// What a stream that asks for fees gives next, and the state of the stream
/// below it after that, where that stream takes in nothing new.
///
/// What the stream below gives is given on where it pays the fees. Else its
/// sender is marked invalid and the search goes on.
pub open spec fn spec_next_with_fees(s: BestView, base_fee: u64, blob_fee: u64) -> (
    BestView,
    Option<PendingTransaction>,
)
    decreases s.all.len(),
{
    let (after, given) = spec_next(s);
    match given {
        None => (after, None),
        Some(t) => if t.transaction.transaction.spec_satisfies_fees(base_fee, blob_fee) {
            (after, Some(t))
        } else if after.all.len() < s.all.len() {
            spec_next_with_fees(after.with_invalid(t.spec_id().sender), base_fee, blob_fee)
        } else {
            (after, None)
        },
    }
}

/// One call for the next transaction of a stream of pending transactions:
/// it takes the stream from `before` to `mid` and gives `got`.
pub open spec fn fee_step(before: BestView, mid: BestView, got: Option<ValidPoolTransaction>) -> bool {
    &&& crate::best::steps(before, mid, got)
    &&& !before.live ==> steps_through(before, before, mid, got)
}

/// What a stream that asks for fees gives over the stream `before`, and
/// the state `after` in which this leaves the stream below, whether that
/// stream is live or not: it asks the stream below for its next transaction
/// again and again. Where the stream below gives none, it gives none. A
/// transaction that pays the fees is given on. Of one that does not the
/// sender is marked invalid, and it asks again.
pub open spec fn fee_steps(
    before: BestView,
    after: BestView,
    base_fee: u64,
    blob_fee: u64,
    r: Option<ValidPoolTransaction>,
) -> bool
    decreases before.remaining(),
{
    exists|mid: BestView, got: Option<ValidPoolTransaction>| #[trigger]
        fee_step(before, mid, got) && match got {
            None => r is None && after == mid,
            Some(t) => if t.transaction.spec_satisfies_fees(base_fee, blob_fee) {
                r == Some(t) && after == mid
            } else {
                mid.with_invalid(t.transaction_id.sender).remaining() < before.remaining()
                    && fee_steps(
                    mid.with_invalid(t.transaction_id.sender),
                    after,
                    base_fee,
                    blob_fee,
                    r,
                )
            },
        }
}

/// Whatever comes of asking for the fees over the stream `cur` comes of
/// asking for them over the stream `first`.
pub open spec fn fee_continues(first: BestView, cur: BestView, base_fee: u64, blob_fee: u64) -> bool {
    forall|target: BestView, r: Option<ValidPoolTransaction>| #[trigger]
        fee_steps(cur, target, base_fee, blob_fee, r) ==> fee_steps(
            first,
            target,
            base_fee,
            blob_fee,
            r,
        )
}

/// One more transaction that does not pay the fees.
pub proof fn lemma_fee_refused(
    first: BestView,
    cur: BestView,
    mid: BestView,
    t: ValidPoolTransaction,
    base_fee: u64,
    blob_fee: u64,
)
    requires
        fee_continues(first, cur, base_fee, blob_fee),
        fee_step(cur, mid, Some(t)),
        !t.transaction.spec_satisfies_fees(base_fee, blob_fee),
        mid.with_invalid(t.transaction_id.sender).remaining() < cur.remaining(),
    ensures
        fee_continues(first, mid.with_invalid(t.transaction_id.sender), base_fee, blob_fee),
{
    assert forall|target: BestView, r: Option<ValidPoolTransaction>| #[trigger]
        fee_steps(
            mid.with_invalid(t.transaction_id.sender),
            target,
            base_fee,
            blob_fee,
            r,
        ) implies fee_steps(first, target, base_fee, blob_fee, r) by {
        assert(fee_step(cur, mid, Some(t)));
        assert(fee_steps(cur, target, base_fee, blob_fee, r));
    }
}

/// A stream that gives only what pays a base fee and a blob fee.
#[derive(Debug)]
pub struct BestTransactionsWithFees {
    pub(crate) best: BestTransactions,
    pub(crate) base_fee: u64,
    pub(crate) base_fee_per_blob_gas: u64,
}

impl BestTransactionsWithFees {
    /// The stream below.
    pub open(crate) spec fn inner(&self) -> BestView {
        self.best@
    }

    /// The base fee asked for.
    pub open(crate) spec fn spec_base_fee(&self) -> u64 {
        self.base_fee
    }

    /// The blob fee asked for.
    pub open(crate) spec fn spec_blob_fee(&self) -> u64 {
        self.base_fee_per_blob_gas
    }

    /// A stream over `best` that asks for the fees.
    pub fn new(best: BestTransactions, base_fee: u64, base_fee_per_blob_gas: u64) -> (r: Self)
        ensures
            r.inner() == best@,
            r.spec_base_fee() == base_fee,
            r.spec_blob_fee() == base_fee_per_blob_gas,
    {
        BestTransactionsWithFees { best, base_fee, base_fee_per_blob_gas }
    }
}

impl crate::traits::BestTransactions for BestTransactionsWithFees {
    open spec fn wf(&self) -> bool {
        self.inner().wf()
    }

    open spec fn remaining(&self) -> nat {
        self.inner().remaining()
    }

    open spec fn state(&self) -> StreamState {
        StreamState::of(self.inner())
    }

    /// What is given and the state afterwards are what `fee_steps` says;
    /// what is given pays the fees; and where the stream below is not live,
    /// what is given and the state afterwards are what `spec_next_with_fees`
    /// says.
    open spec fn gives(&self, after: StreamState, r: Option<ValidPoolTransaction>) -> bool {
        &&& after == StreamState::of(after.view)
        &&& fee_steps(self.inner(), after.view, self.spec_base_fee(), self.spec_blob_fee(), r)
        &&& r matches Some(t) ==> t.transaction.spec_satisfies_fees(
            self.spec_base_fee(),
            self.spec_blob_fee(),
        )
        &&& !self.inner().live ==> {
            let expected = spec_next_with_fees(
                self.inner(),
                self.spec_base_fee(),
                self.spec_blob_fee(),
            );
            &&& after.view == expected.0
            &&& r == (match expected.1 {
                Some(t) => Some(t.transaction),
                None => None,
            })
        }
    }

    /// The sender is marked invalid in the stream below.
    open spec fn marks_invalid(
        &self,
        after: StreamState,
        transaction: ValidPoolTransaction,
        kind: InvalidPoolTransactionError,
    ) -> bool {
        after == StreamState::of(self.inner().with_invalid(transaction.transaction_id.sender))
    }

    /// The stream below is live no longer.
    open spec fn drops_updates(&self, after: StreamState) -> bool {
        after == StreamState::of(BestView { live: false, last_priority: None, ..self.inner() })
    }

    /// The stream below is told whether to pass over blob transactions.
    open spec fn sets_skip_blobs(&self, after: StreamState, skip_blobs: bool) -> bool {
        after == StreamState::of(BestView { skip_blobs, ..self.inner() })
    }

    /// The next transaction of the stream below that pays the fees. The
    /// sender of one that does not is marked invalid.
    fn next(&mut self) -> (r: Option<ValidPoolTransaction>)
        ensures
            final(self).spec_base_fee() == old(self).spec_base_fee(),
            final(self).spec_blob_fee() == old(self).spec_blob_fee(),
            fee_steps(
                old(self).inner(),
                final(self).inner(),
                old(self).spec_base_fee(),
                old(self).spec_blob_fee(),
                r,
            ),
            r matches Some(t) ==> t.transaction.spec_satisfies_fees(
                old(self).spec_base_fee(),
                old(self).spec_blob_fee(),
            ),
            !old(self).inner().live ==> {
                let expected = spec_next_with_fees(
                    old(self).inner(),
                    old(self).spec_base_fee(),
                    old(self).spec_blob_fee(),
                );
                &&& final(self).inner() == expected.0
                &&& r == (match expected.1 {
                    Some(t) => Some(t.transaction),
                    None => None,
                })
            },
    {
        loop
            invariant
                self.best@.wf(),
                self.base_fee == old(self).base_fee,
                self.base_fee_per_blob_gas == old(self).base_fee_per_blob_gas,
                self.best@.remaining() <= old(self).best@.remaining(),
                self.best@.live == old(self).best@.live,
                !old(self).best@.live ==> spec_next_with_fees(
                    self.best@,
                    self.base_fee,
                    self.base_fee_per_blob_gas,
                ) == spec_next_with_fees(
                    old(self).best@,
                    old(self).base_fee,
                    old(self).base_fee_per_blob_gas,
                ),
                fee_continues(
                    old(self).best@,
                    self.best@,
                    self.base_fee,
                    self.base_fee_per_blob_gas,
                ),
            decreases self.best@.remaining(),
        {
            let ghost cur = self.best@;
            proof {
                lemma_spec_next(cur);
            }
            let given = crate::traits::BestTransactions::next(&mut self.best);
            let ghost after = self.best@;
            proof {
                let mid = choose|mid: BestView| #[trigger] steps_through(cur, mid, self.best@, given);
                lemma_spec_next(mid);
                assert(fee_step(cur, after, given));
            }
            match given {
                None => {
                    proof {
                        assert(fee_steps(
                            cur,
                            after,
                            self.base_fee,
                            self.base_fee_per_blob_gas,
                            None,
                        ));
                    }
                    return None;
                },
                Some(best) => {
                    if best.transaction.satisfies_fees(self.base_fee, self.base_fee_per_blob_gas) {
                        proof {
                            assert(fee_steps(
                                cur,
                                after,
                                self.base_fee,
                                self.base_fee_per_blob_gas,
                                Some(best),
                            ));
                        }
                        return Some(best);
                    }
                    crate::traits::BestTransactions::mark_invalid(
                        &mut self.best,
                        &best,
                        InvalidPoolTransactionError::Underpriced,
                    );
                    proof {
                        lemma_with_invalid_wf(after, best.transaction_id.sender);
                        lemma_fee_refused(
                            old(self).best@,
                            cur,
                            after,
                            best,
                            self.base_fee,
                            self.base_fee_per_blob_gas,
                        );
                    }
                },
            }
        }
    }

    fn mark_invalid(&mut self, transaction: &ValidPoolTransaction, kind: InvalidPoolTransactionError)
        ensures
            final(self).inner() == old(self).inner().with_invalid(transaction.transaction_id.sender),
            final(self).spec_base_fee() == old(self).spec_base_fee(),
            final(self).spec_blob_fee() == old(self).spec_blob_fee(),
    {
        crate::traits::BestTransactions::mark_invalid(&mut self.best, transaction, kind);
    }

    fn no_updates(&mut self)
        ensures
            final(self).inner() == (BestView {
                live: false,
                last_priority: None,
                ..old(self).inner()
            }),
            final(self).spec_base_fee() == old(self).spec_base_fee(),
            final(self).spec_blob_fee() == old(self).spec_blob_fee(),
    {
        crate::traits::BestTransactions::no_updates(&mut self.best);
    }

    fn skip_blobs(&mut self)
        ensures
            final(self).inner() == (BestView { skip_blobs: true, ..old(self).inner() }),
            final(self).spec_base_fee() == old(self).spec_base_fee(),
            final(self).spec_blob_fee() == old(self).spec_blob_fee(),
    {
        self.set_skip_blobs(true);
    }

    fn set_skip_blobs(&mut self, skip_blobs: bool)
        ensures
            final(self).inner() == (BestView { skip_blobs, ..old(self).inner() }),
            final(self).spec_base_fee() == old(self).spec_base_fee(),
            final(self).spec_blob_fee() == old(self).spec_blob_fee(),
    {
        crate::traits::BestTransactions::set_skip_blobs(&mut self.best, skip_blobs);
    }
}

/// Whether the predicate can be asked of any transaction.
pub open spec fn total_predicate<P: Fn(&ValidPoolTransaction) -> bool>(predicate: P) -> bool {
    forall|t: ValidPoolTransaction| #[trigger] call_requires(predicate, (&t,))
}

/// One step of a filter: the stream `before` gave `got`, which left it as
/// `mid`; the predicate said `accepted` of what it gave; and where the
/// predicate refused it, the stream was told that the transaction is
/// invalid, which left it as `marked`.
pub open spec fn filter_step<I: crate::traits::BestTransactions, P: Fn(&ValidPoolTransaction) -> bool>(
    before: I,
    mid: I,
    got: Option<ValidPoolTransaction>,
    predicate: P,
    accepted: bool,
    marked: I,
) -> bool {
    &&& before.gives(mid.state(), got)
    &&& got matches Some(t) ==> {
        &&& call_ensures(predicate, (&t,), accepted)
        &&& !accepted ==> mid.marks_invalid(
            marked.state(),
            t,
            InvalidPoolTransactionError::TxTypeNotSupported,
        )
    }
}

/// What a filter over the stream `before` gives, and the state `after` in
/// which this leaves the stream below it: the filter asks the stream for
/// its next transaction again and again. Where the stream gives none, the
/// filter gives none. A transaction that the predicate accepts is given on.
/// Of one that it refuses the stream is told that it is invalid, and the
/// filter asks again.
pub open spec fn filter_steps<I: crate::traits::BestTransactions, P: Fn(&ValidPoolTransaction) -> bool>(
    before: I,
    after: StreamState,
    predicate: P,
    r: Option<ValidPoolTransaction>,
) -> bool
    decreases before.remaining(),
{
    exists|mid: I, got: Option<ValidPoolTransaction>, accepted: bool, marked: I| #[trigger]
        filter_step(before, mid, got, predicate, accepted, marked) && match got {
            None => r is None && after == mid.state(),
            Some(t) => if accepted {
                r == Some(t) && after == mid.state()
            } else {
                marked.remaining() < before.remaining() && filter_steps(
                    marked,
                    after,
                    predicate,
                    r,
                )
            },
        }
}

/// Whatever comes of a filter over the stream `cur` comes of a filter over
/// the stream `first`.
pub open spec fn filter_continues<I: crate::traits::BestTransactions, P: Fn(&ValidPoolTransaction) -> bool>(
    first: I,
    cur: I,
    predicate: P,
) -> bool {
    forall|target: StreamState, r: Option<ValidPoolTransaction>| #[trigger]
        filter_steps(cur, target, predicate, r) ==> filter_steps(first, target, predicate, r)
}

/// One more transaction that the predicate has refused.
pub proof fn lemma_filter_refused<I: crate::traits::BestTransactions, P: Fn(&ValidPoolTransaction) -> bool>(
    first: I,
    cur: I,
    mid: I,
    marked: I,
    t: ValidPoolTransaction,
    predicate: P,
)
    requires
        filter_continues(first, cur, predicate),
        filter_step(cur, mid, Some(t), predicate, false, marked),
        marked.remaining() < cur.remaining(),
    ensures
        filter_continues(first, marked, predicate),
{
    assert forall|target: StreamState, r: Option<ValidPoolTransaction>| #[trigger]
        filter_steps(marked, target, predicate, r) implies filter_steps(
        first,
        target,
        predicate,
        r,
    ) by {
        assert(filter_step(cur, mid, Some(t), predicate, false, marked));
        assert(filter_steps(cur, target, predicate, r));
    }
}

/// A stream that gives of another stream's transactions those that a
/// predicate accepts. The sender of a transaction that the predicate
/// refuses is marked invalid in the stream below.
pub struct BestTransactionFilter<I, P> {
    pub(crate) best: I,
    pub(crate) predicate: P,
}

impl<I, P> BestTransactionFilter<I, P> {
    /// The stream below.
    pub open(crate) spec fn inner(&self) -> I {
        self.best
    }

    /// The predicate.
    pub open(crate) spec fn spec_predicate(&self) -> P {
        self.predicate
    }

    /// Create a new [`BestTransactionFilter`] with the given predicate.
    pub fn new(best: I, predicate: P) -> (r: Self)
        ensures
            r.inner() == best,
            r.spec_predicate() == predicate,
    {
        Self { best, predicate }
    }
}

impl<I, P> crate::traits::BestTransactions for BestTransactionFilter<I, P> where
    I: crate::traits::BestTransactions,
    P: Fn(&ValidPoolTransaction) -> bool,
 {
    /// The stream below is sound, and the predicate can be asked of any
    /// transaction.
    open spec fn wf(&self) -> bool {
        &&& self.inner().wf()
        &&& total_predicate(self.spec_predicate())
    }

    open spec fn remaining(&self) -> nat {
        self.inner().remaining()
    }

    /// The state of a filter is that of the stream below it.
    open spec fn state(&self) -> StreamState {
        self.inner().state()
    }

    /// What is given and the state of the stream below afterwards are what
    /// `filter_steps` says.
    open spec fn gives(&self, after: StreamState, r: Option<ValidPoolTransaction>) -> bool {
        filter_steps(self.inner(), after, self.spec_predicate(), r)
    }

    /// The stream below is told that the transaction is invalid.
    open spec fn marks_invalid(
        &self,
        after: StreamState,
        transaction: ValidPoolTransaction,
        kind: InvalidPoolTransactionError,
    ) -> bool {
        self.inner().marks_invalid(after, transaction, kind)
    }

    /// The stream below is told to take in nothing new.
    open spec fn drops_updates(&self, after: StreamState) -> bool {
        self.inner().drops_updates(after)
    }

    /// The stream below is told whether to pass over blob transactions.
    open spec fn sets_skip_blobs(&self, after: StreamState, skip_blobs: bool) -> bool {
        self.inner().sets_skip_blobs(after, skip_blobs)
    }

    /// The next transaction of the stream below that the predicate accepts.
    /// Of every transaction that the predicate refuses on the way, the
    /// stream below is told that it is invalid.
    fn next(&mut self) -> (r: Option<ValidPoolTransaction>)
        ensures
            final(self).spec_predicate() == old(self).spec_predicate(),
            r matches Some(t) ==> call_ensures(old(self).spec_predicate(), (&t,), true),
            filter_steps(
                old(self).inner(),
                final(self).inner().state(),
                old(self).spec_predicate(),
                r,
            ),
    {
        loop
            invariant
                self.best.wf(),
                self.predicate == old(self).predicate,
                total_predicate(self.predicate),
                self.best.remaining() <= old(self).best.remaining(),
                filter_continues(old(self).best, self.best, self.predicate),
            decreases self.best.remaining(),
        {
            let ghost cur = self.best;
            let given = self.best.next();
            let ghost mid = self.best;
            match given {
                None => {
                    proof {
                        assert(filter_step(cur, mid, given, self.predicate, true, mid));
                        assert(filter_steps(cur, mid.state(), self.predicate, None));
                    }
                    return None;
                },
                Some(best) => {
                    if (self.predicate)(&best) {
                        proof {
                            assert(filter_step(cur, mid, given, self.predicate, true, mid));
                            assert(filter_steps(cur, mid.state(), self.predicate, Some(best)));
                        }
                        return Some(best);
                    }
                    self.best.mark_invalid(&best, InvalidPoolTransactionError::TxTypeNotSupported);
                    proof {
                        assert(filter_step(cur, mid, given, self.predicate, false, self.best));
                        lemma_filter_refused(
                            old(self).best,
                            cur,
                            mid,
                            self.best,
                            best,
                            self.predicate,
                        );
                    }
                },
            }
        }
    }

    fn mark_invalid(&mut self, transaction: &ValidPoolTransaction, kind: InvalidPoolTransactionError)
        ensures
            final(self).spec_predicate() == old(self).spec_predicate(),
            old(self).inner().marks_invalid(final(self).inner().state(), *transaction, kind),
    {
        self.best.mark_invalid(transaction, kind);
    }

    fn no_updates(&mut self)
        ensures
            final(self).spec_predicate() == old(self).spec_predicate(),
            old(self).inner().drops_updates(final(self).inner().state()),
    {
        self.best.no_updates();
    }

    fn skip_blobs(&mut self)
        ensures
            final(self).spec_predicate() == old(self).spec_predicate(),
            old(self).inner().sets_skip_blobs(final(self).inner().state(), true),
    {
        self.set_skip_blobs(true);
    }

    fn set_skip_blobs(&mut self, skip_blobs: bool)
        ensures
            final(self).spec_predicate() == old(self).spec_predicate(),
            old(self).inner().sets_skip_blobs(final(self).inner().state(), skip_blobs),
    {
        self.best.set_skip_blobs(skip_blobs);
    }
}

/// The transactions of the sequence that carry no blobs, in their order.
pub open spec fn without_blobs(s: Seq<ValidPoolTransaction>) -> Seq<ValidPoolTransaction>
    decreases s.len(),
{
    if s.len() == 0 {
        Seq::empty()
    } else if s.last().transaction.spec_is_eip4844() {
        without_blobs(s.drop_last())
    } else {
        without_blobs(s.drop_last()).push(s.last())
    }
}

/// Whether the address is among the addresses.
pub fn address_in(addresses: &Vec<Address>, address: &Address) -> (r: bool)
    ensures
        r == addresses@.contains(*address),
{
    let mut k: usize = 0;
    while k < addresses.len()
        invariant
            k <= addresses.len(),
            forall|j: int| 0 <= j < k ==> addresses@[j] != *address,
        decreases addresses.len() - k,
    {
        if addresses[k] == *address {
            return true;
        }
        k = k + 1;
    }
    false
}

/// Wrapper over a stream that prioritizes transactions of certain senders,
/// capping the total gas of the transactions it puts first.
///
/// While the gas put first is below the cap, the stream looks through the
/// stream below for a transaction of one of the senders that fits under the
/// cap, and sets aside what it passes over. What was set aside is given out
/// in the order in which it came, before anything else of the stream below.
#[derive(Debug)]
pub struct BestTransactionsWithPrioritizedSenders<I> {
    /// Inner stream.
    inner: I,
    /// The senders whose transactions are put first.
    prioritized_senders: Vec<Address>,
    /// The most gas that the transactions put first may have in all.
    max_prioritized_gas: u64,
    /// The transactions set aside, which are the first to go once nothing is
    /// put first any more.
    buffer: VecDeque<ValidPoolTransaction>,
    /// The gas of the transactions put first so far.
    prioritized_gas: u64,
}

impl<I> BestTransactionsWithPrioritizedSenders<I> {
    /// The stream below.
    pub closed spec fn inner(&self) -> I {
        self.inner
    }

    /// The senders whose transactions are put first.
    pub closed spec fn senders(&self) -> Seq<Address> {
        self.prioritized_senders@
    }

    /// The most gas that the transactions put first may have in all.
    pub closed spec fn spec_max_prioritized_gas(&self) -> u64 {
        self.max_prioritized_gas
    }

    /// The transactions set aside.
    pub closed spec fn buffered(&self) -> Seq<ValidPoolTransaction> {
        self.buffer@
    }

    /// The gas of the transactions put first so far.
    pub closed spec fn spec_prioritized_gas(&self) -> u64 {
        self.prioritized_gas
    }

    /// Whether the stream puts the transaction first in its present state.
    pub open spec fn puts_first(&self, t: ValidPoolTransaction) -> bool {
        &&& self.spec_prioritized_gas() < self.spec_max_prioritized_gas()
        &&& self.senders().contains(t.transaction.sender)
        &&& self.spec_prioritized_gas() + t.transaction.gas_limit
            <= self.spec_max_prioritized_gas()
    }

    /// Constructs a new [`BestTransactionsWithPrioritizedSenders`].
    pub fn new(prioritized_senders: Vec<Address>, max_prioritized_gas: u64, inner: I) -> (r: Self)
        ensures
            r.inner() == inner,
            r.senders() == prioritized_senders@,
            r.spec_max_prioritized_gas() == max_prioritized_gas,
            r.buffered() == Seq::<ValidPoolTransaction>::empty(),
            r.spec_prioritized_gas() == 0,
    {
        Self {
            inner,
            prioritized_senders,
            max_prioritized_gas,
            buffer: VecDeque::new(),
            prioritized_gas: 0,
        }
    }
}

/// Whether a stream that has put `gas` first puts the transaction first:
/// its sender is one of the senders, and its gas fits under the cap.
pub open spec fn fits_first(
    senders: Seq<Address>,
    gas: u64,
    max: u64,
    t: ValidPoolTransaction,
) -> bool {
    senders.contains(t.transaction.sender) && gas + t.transaction.gas_limit <= max
}

/// What the stream below gave, as a sequence of one transaction or of none.
pub open spec fn given_below(r: Option<ValidPoolTransaction>) -> Seq<ValidPoolTransaction> {
    match r {
        Some(t) => seq![t],
        None => Seq::empty(),
    }
}

/// What a stream gives that puts nothing first any more, over the stream
/// `inner` and with `buffered` set aside, and the state `after` in which
/// this leaves it: what was set aside first; where nothing is set aside,
/// what the stream below gives. `asked` is what the stream below gave.
pub open spec fn served<I: crate::traits::BestTransactions>(
    inner: I,
    buffered: Seq<ValidPoolTransaction>,
    gas: u64,
    after: StreamState,
    r: Option<ValidPoolTransaction>,
    asked: Seq<ValidPoolTransaction>,
) -> bool {
    if buffered.len() > 0 {
        asked.len() == 0 && r == Some(buffered[0]) && after == inner.state().above(
            SetAside { buffered: buffered.drop_first(), gas },
        )
    } else {
        asked == given_below(r) && exists|last: I| #[trigger]
            inner.gives(last.state(), r) && after == last.state().above(
                SetAside { buffered, gas },
            )
    }
}

/// What a stream that puts the transactions of `senders` first gives, over
/// the stream `inner`, with `buffered` set aside and `gas` put first so far,
/// and the state `after` in which this leaves it; `asked` is what the
/// stream below gave on the way, in order.
///
/// While the gas put first is below the cap, the stream asks the stream
/// below for its next transaction. One that fits is given, and its gas is
/// added to the gas put first. One that does not is set aside behind what
/// was set aside before, and the stream asks again. Once the stream below
/// gives nothing, or from the start where the cap is reached, the stream
/// gives as `served` says.
pub open spec fn prioritized_asked<I: crate::traits::BestTransactions>(
    inner: I,
    buffered: Seq<ValidPoolTransaction>,
    gas: u64,
    senders: Seq<Address>,
    max: u64,
    after: StreamState,
    r: Option<ValidPoolTransaction>,
    asked: Seq<ValidPoolTransaction>,
) -> bool
    decreases inner.remaining(),
{
    if gas < max {
        exists|mid: I, got: Option<ValidPoolTransaction>| #[trigger]
            inner.gives(mid.state(), got) && match got {
                None => served(mid, buffered, gas, after, r, asked),
                Some(t) => asked.len() > 0 && asked[0] == t && if fits_first(senders, gas, max, t) {
                    asked.len() == 1 && r == Some(t) && after == mid.state().above(
                        SetAside { buffered, gas: (gas + t.transaction.gas_limit) as u64 },
                    )
                } else {
                    mid.remaining() < inner.remaining() && prioritized_asked(
                        mid,
                        buffered.push(t),
                        gas,
                        senders,
                        max,
                        after,
                        r,
                        asked.drop_first(),
                    )
                },
            }
    } else {
        served(inner, buffered, gas, after, r, asked)
    }
}

/// What a stream that puts the transactions of `senders` first gives, and
/// the state in which this leaves it: what `prioritized_asked` says, for
/// what the stream below gave on the way.
pub open spec fn prioritized_steps<I: crate::traits::BestTransactions>(
    inner: I,
    buffered: Seq<ValidPoolTransaction>,
    gas: u64,
    senders: Seq<Address>,
    max: u64,
    after: StreamState,
    r: Option<ValidPoolTransaction>,
) -> bool {
    exists|asked: Seq<ValidPoolTransaction>| #[trigger]
        prioritized_asked(inner, buffered, gas, senders, max, after, r, asked)
}

/// Whatever comes of the stream over `cur` with `held` set aside comes of
/// the stream over `first` with `buffered` set aside, `done` being what the
/// stream below gave so far.
pub open spec fn prioritized_continues<I: crate::traits::BestTransactions>(
    first: I,
    buffered: Seq<ValidPoolTransaction>,
    cur: I,
    held: Seq<ValidPoolTransaction>,
    gas: u64,
    senders: Seq<Address>,
    max: u64,
    done: Seq<ValidPoolTransaction>,
) -> bool {
    forall|target: StreamState, r: Option<ValidPoolTransaction>, rest: Seq<ValidPoolTransaction>| #[trigger]
        prioritized_asked(cur, held, gas, senders, max, target, r, rest) ==> prioritized_asked(
            first,
            buffered,
            gas,
            senders,
            max,
            target,
            r,
            done + rest,
        )
}

/// One more transaction that was set aside.
pub proof fn lemma_set_aside<I: crate::traits::BestTransactions>(
    first: I,
    buffered: Seq<ValidPoolTransaction>,
    cur: I,
    held: Seq<ValidPoolTransaction>,
    mid: I,
    t: ValidPoolTransaction,
    gas: u64,
    senders: Seq<Address>,
    max: u64,
    done: Seq<ValidPoolTransaction>,
)
    requires
        prioritized_continues(first, buffered, cur, held, gas, senders, max, done),
        gas < max,
        cur.gives(mid.state(), Some(t)),
        !fits_first(senders, gas, max, t),
        mid.remaining() < cur.remaining(),
    ensures
        prioritized_continues(first, buffered, mid, held.push(t), gas, senders, max, done.push(t)),
{
    assert forall|target: StreamState, r: Option<ValidPoolTransaction>, rest: Seq<ValidPoolTransaction>| #[trigger]
        prioritized_asked(mid, held.push(t), gas, senders, max, target, r, rest) implies prioritized_asked(
        first,
        buffered,
        gas,
        senders,
        max,
        target,
        r,
        done.push(t) + rest,
    ) by {
        let all = seq![t] + rest;
        assert(all[0] == t);
        assert(all.drop_first() =~= rest);
        assert(cur.gives(mid.state(), Some(t)));
        assert(prioritized_asked(cur, held, gas, senders, max, target, r, all));
        assert(done + all =~= done.push(t) + rest);
    }
}

/// Nothing that the stream below gives is lost or given twice: what is set
/// aside after a call, with what the call gave, is what was set aside
/// before with what the stream below gave during the call, in the same
/// order. Either the last that the stream below gave was put first, and
/// everything before it was set aside; or the first of what was set aside
/// and of what the stream below gave was given, and the rest is set aside.
pub open spec fn nothing_lost(
    buffered: Seq<ValidPoolTransaction>,
    gas: u64,
    senders: Seq<Address>,
    max: u64,
    after: SetAside,
    r: Option<ValidPoolTransaction>,
    asked: Seq<ValidPoolTransaction>,
) -> bool {
    ||| {
        &&& asked.len() > 0
        &&& r == Some(asked.last())
        &&& gas < max
        &&& fits_first(senders, gas, max, asked.last())
        &&& after.gas == gas + asked.last().transaction.gas_limit
        &&& after.buffered == buffered + asked.drop_last()
    }
    ||| {
        &&& after.gas == gas
        &&& (buffered + asked).len() > 0 ==> r == Some((buffered + asked)[0]) && after.buffered == (
        buffered + asked).drop_first()
        &&& (buffered + asked).len() == 0 ==> r is None && after.buffered.len() == 0
    }
}

/// A call of a stream that puts some senders first loses nothing of what
/// the stream below gives and gives nothing twice.
pub proof fn lemma_prioritized_keeps_all<I: crate::traits::BestTransactions>(
    inner: I,
    buffered: Seq<ValidPoolTransaction>,
    gas: u64,
    senders: Seq<Address>,
    max: u64,
    after: StreamState,
    r: Option<ValidPoolTransaction>,
    asked: Seq<ValidPoolTransaction>,
)
    requires
        prioritized_asked(inner, buffered, gas, senders, max, after, r, asked),
    ensures
        after.layers.len() > 0,
        nothing_lost(buffered, gas, senders, max, after.top(), r, asked),
    decreases inner.remaining(),
{
    if gas < max {
        let (mid, got) = choose|mid: I, got: Option<ValidPoolTransaction>| #[trigger]
            inner.gives(mid.state(), got) && match got {
                None => served(mid, buffered, gas, after, r, asked),
                Some(t) => asked.len() > 0 && asked[0] == t && if fits_first(senders, gas, max, t) {
                    asked.len() == 1 && r == Some(t) && after == mid.state().above(
                        SetAside { buffered, gas: (gas + t.transaction.gas_limit) as u64 },
                    )
                } else {
                    mid.remaining() < inner.remaining() && prioritized_asked(
                        mid,
                        buffered.push(t),
                        gas,
                        senders,
                        max,
                        after,
                        r,
                        asked.drop_first(),
                    )
                },
            };
        match got {
            None => {
                lemma_served_keeps_all(mid, buffered, gas, senders, max, after, r, asked);
            },
            Some(t) => {
                if fits_first(senders, gas, max, t) {
                    assert(asked.drop_last() =~= Seq::<ValidPoolTransaction>::empty());
                    assert(buffered + asked.drop_last() =~= buffered);
                } else {
                    let rest = asked.drop_first();
                    lemma_prioritized_keeps_all(
                        mid,
                        buffered.push(t),
                        gas,
                        senders,
                        max,
                        after,
                        r,
                        rest,
                    );
                    assert(buffered.push(t) + rest =~= buffered + asked);
                    if rest.len() > 0 {
                        assert(rest.last() == asked.last());
                        assert(buffered.push(t) + rest.drop_last() =~= buffered + asked.drop_last());
                    }
                }
            },
        }
    } else {
        lemma_served_keeps_all(inner, buffered, gas, senders, max, after, r, asked);
    }
}

/// A stream that puts nothing first any more loses nothing and gives
/// nothing twice.
pub proof fn lemma_served_keeps_all<I: crate::traits::BestTransactions>(
    inner: I,
    buffered: Seq<ValidPoolTransaction>,
    gas: u64,
    senders: Seq<Address>,
    max: u64,
    after: StreamState,
    r: Option<ValidPoolTransaction>,
    asked: Seq<ValidPoolTransaction>,
)
    requires
        served(inner, buffered, gas, after, r, asked),
    ensures
        after.layers.len() > 0,
        nothing_lost(buffered, gas, senders, max, after.top(), r, asked),
{
    let all = buffered + asked;
    if buffered.len() > 0 {
        let held = SetAside { buffered: buffered.drop_first(), gas };
        assert(after.layers == inner.state().layers.push(held));
        assert(after.top() == held);
        assert(all =~= buffered);
    } else {
        let last = choose|last: I| #[trigger]
            inner.gives(last.state(), r) && after == last.state().above(
                SetAside { buffered, gas },
            );
        let held = SetAside { buffered, gas };
        assert(after.layers == last.state().layers.push(held));
        assert(after.top() == held);
        assert(all =~= asked);
        match r {
            Some(t) => {
                assert(all[0] == t);
                assert(all.drop_first() =~= buffered);
            },
            None => {},
        }
    }
}

impl<I: crate::traits::BestTransactions> BestTransactionsWithPrioritizedSenders<I> {
    /// Gives what was set aside first; where nothing is set aside, what the
    /// stream below gives.
    fn serve(&mut self) -> (r: Option<ValidPoolTransaction>)
        requires
            old(self).inner.wf(),
        ensures
            final(self).inner.wf(),
            final(self).prioritized_senders == old(self).prioritized_senders,
            final(self).max_prioritized_gas == old(self).max_prioritized_gas,
            final(self).prioritized_gas == old(self).prioritized_gas,
            served(
                old(self).inner,
                old(self).buffer@,
                old(self).prioritized_gas,
                crate::traits::BestTransactions::state(final(self)),
                r,
                if old(self).buffer@.len() > 0 {
                    Seq::empty()
                } else {
                    given_below(r)
                },
            ),
            old(self).buffer@.len() > 0 ==> r == Some(old(self).buffer@[0]) && final(self).buffer@
                == old(self).buffer@.drop_first() && final(self).inner == old(self).inner,
            old(self).buffer@.len() == 0 ==> final(self).buffer@.len() == 0,
            r is Some ==> final(self).inner.remaining() + final(self).buffer@.len() < old(
                self,
            ).inner.remaining() + old(self).buffer@.len(),
            final(self).inner.remaining() + final(self).buffer@.len() <= old(self).inner.remaining()
                + old(self).buffer@.len(),
    {
        let ghost held = self.buffer@;
        match self.buffer.pop_front() {
            Some(item) => {
                proof {
                    assert(self.buffer@ == held.drop_first());
                }
                Some(item)
            },
            None => {
                let r = self.inner.next();
                proof {
                    assert(self.buffer@ =~= held);
                    assert(old(self).inner.gives(self.inner.state(), r));
                }
                r
            },
        }
    }
}

impl<I> crate::traits::BestTransactions for BestTransactionsWithPrioritizedSenders<I> where
    I: crate::traits::BestTransactions,
 {
    open spec fn wf(&self) -> bool {
        self.inner().wf()
    }

    open spec fn remaining(&self) -> nat {
        self.inner().remaining() + self.buffered().len()
    }

    /// The state of the stream below, and above it what this stream has set
    /// aside and how much gas it has put first.
    open spec fn state(&self) -> StreamState {
        self.inner().state().above(
            SetAside { buffered: self.buffered(), gas: self.spec_prioritized_gas() },
        )
    }

    /// What is given and the state afterwards are what `prioritized_steps`
    /// says.
    open spec fn gives(&self, after: StreamState, r: Option<ValidPoolTransaction>) -> bool {
        prioritized_steps(
            self.inner(),
            self.buffered(),
            self.spec_prioritized_gas(),
            self.senders(),
            self.spec_max_prioritized_gas(),
            after,
            r,
        )
    }

    /// The stream below is told that the transaction is invalid; what was
    /// set aside stays.
    open spec fn marks_invalid(
        &self,
        after: StreamState,
        transaction: ValidPoolTransaction,
        kind: InvalidPoolTransactionError,
    ) -> bool {
        &&& after.layers.len() > 0
        &&& self.inner().marks_invalid(after.below(), transaction, kind)
        &&& after.top() == (SetAside {
            buffered: self.buffered(),
            gas: self.spec_prioritized_gas(),
        })
    }

    /// The stream below is told to take in nothing new; what was set aside
    /// stays.
    open spec fn drops_updates(&self, after: StreamState) -> bool {
        &&& after.layers.len() > 0
        &&& self.inner().drops_updates(after.below())
        &&& after.top() == (SetAside {
            buffered: self.buffered(),
            gas: self.spec_prioritized_gas(),
        })
    }

    /// The stream below is told whether to pass over blob transactions;
    /// where it is to pass over them, the blob transactions set aside are
    /// dropped.
    open spec fn sets_skip_blobs(&self, after: StreamState, skip_blobs: bool) -> bool {
        &&& after.layers.len() > 0
        &&& self.inner().sets_skip_blobs(after.below(), skip_blobs)
        &&& after.top() == (SetAside {
            buffered: if skip_blobs {
                without_blobs(self.buffered())
            } else {
                self.buffered()
            },
            gas: self.spec_prioritized_gas(),
        })
    }

    /// A transaction of one of the senders that fits under the cap, where
    /// the stream below has one in store; else what was set aside first;
    /// else what the stream below gives. What the stream below gives on the
    /// way and does not fit is set aside; see `prioritized_steps`.
    fn next(&mut self) -> (r: Option<ValidPoolTransaction>)
        ensures
            final(self).senders() == old(self).senders(),
            final(self).spec_max_prioritized_gas() == old(self).spec_max_prioritized_gas(),
            prioritized_steps(
                old(self).inner(),
                old(self).buffered(),
                old(self).spec_prioritized_gas(),
                old(self).senders(),
                old(self).spec_max_prioritized_gas(),
                final(self).state(),
                r,
            ),
            match r {
                Some(t) => {
                    ||| {
                        &&& old(self).puts_first(t)
                        &&& final(self).spec_prioritized_gas() == old(self).spec_prioritized_gas()
                            + t.transaction.gas_limit
                        &&& old(self).buffered().is_prefix_of(final(self).buffered())
                    }
                    ||| {
                        &&& final(self).spec_prioritized_gas() == old(self).spec_prioritized_gas()
                        &&& old(self).buffered().len() > 0 ==> t == old(self).buffered()[0]
                            && old(self).buffered().drop_first().is_prefix_of(
                            final(self).buffered(),
                        )
                        &&& old(self).buffered().len() == 0 && old(
                            self,
                        ).spec_prioritized_gas() >= old(self).spec_max_prioritized_gas()
                            ==> final(self).buffered().len() == 0
                    }
                },
                None => {
                    &&& final(self).buffered().len() == 0
                    &&& old(self).buffered().len() == 0
                    &&& final(self).spec_prioritized_gas() == old(self).spec_prioritized_gas()
                },
            },
    {
        let ghost gas = self.prioritized_gas;
        let ghost senders = self.prioritized_senders@;
        let ghost max = self.max_prioritized_gas;
        let ghost mut done: Seq<ValidPoolTransaction> = Seq::empty();
        proof {
            assert forall|
                target: StreamState,
                r: Option<ValidPoolTransaction>,
                rest: Seq<ValidPoolTransaction>,
            | #[trigger]
                prioritized_asked(
                    self.inner,
                    self.buffer@,
                    gas,
                    senders,
                    max,
                    target,
                    r,
                    rest,
                ) implies prioritized_asked(
                self.inner,
                self.buffer@,
                gas,
                senders,
                max,
                target,
                r,
                done + rest,
            ) by {
                assert(done + rest =~= rest);
            }
        }
        if self.prioritized_gas < self.max_prioritized_gas {
            loop
                invariant
                    self.inner.wf(),
                    self.prioritized_senders == old(self).prioritized_senders,
                    self.max_prioritized_gas == old(self).max_prioritized_gas,
                    self.prioritized_gas == old(self).prioritized_gas,
                    self.prioritized_gas < self.max_prioritized_gas,
                    gas == self.prioritized_gas,
                    senders == self.prioritized_senders@,
                    max == self.max_prioritized_gas,
                    old(self).buffer@.is_prefix_of(self.buffer@),
                    self.inner.remaining() + self.buffer@.len() <= old(self).inner.remaining() + old(
                        self,
                    ).buffer@.len(),
                    prioritized_continues(
                        old(self).inner,
                        old(self).buffer@,
                        self.inner,
                        self.buffer@,
                        gas,
                        senders,
                        max,
                        done,
                    ),
                decreases self.inner.remaining(),
            {
                let ghost cur = self.inner;
                let ghost held = self.buffer@;
                let given = self.inner.next();
                let ghost mid = self.inner;
                match given {
                    None => {
                        let r = self.serve();
                        proof {
                            let after = crate::traits::BestTransactions::state(self);
                            let last = if held.len() > 0 {
                                Seq::empty()
                            } else {
                                given_below(r)
                            };
                            assert(cur.gives(mid.state(), given));
                            assert(prioritized_asked(cur, held, gas, senders, max, after, r, last));
                            assert(prioritized_asked(
                                old(self).inner,
                                old(self).buffer@,
                                gas,
                                senders,
                                max,
                                after,
                                r,
                                done + last,
                            ));
                            if held.len() > 0 && old(self).buffer@.len() > 0 {
                                assert(old(self).buffer@.drop_first().is_prefix_of(
                                    held.drop_first(),
                                ));
                            }
                        }
                        return r;
                    },
                    Some(item) => {
                        if address_in(&self.prioritized_senders, &item.transaction.sender) {
                            match self.prioritized_gas.checked_add(item.transaction.gas_limit) {
                                Some(total) => {
                                    if total <= self.max_prioritized_gas {
                                        self.prioritized_gas = total;
                                        proof {
                                            let after = crate::traits::BestTransactions::state(self);
                                            assert(fits_first(senders, gas, max, item));
                                            assert(cur.gives(mid.state(), given));
                                            assert(after == mid.state().above(
                                                SetAside {
                                                    buffered: held,
                                                    gas: (gas + item.transaction.gas_limit) as u64,
                                                },
                                            ));
                                            let last = seq![item];
                                            assert(last[0] == item);
                                            assert(prioritized_asked(
                                                cur,
                                                held,
                                                gas,
                                                senders,
                                                max,
                                                after,
                                                Some(item),
                                                last,
                                            ));
                                            assert(prioritized_asked(
                                                old(self).inner,
                                                old(self).buffer@,
                                                gas,
                                                senders,
                                                max,
                                                after,
                                                Some(item),
                                                done + last,
                                            ));
                                        }
                                        return Some(item);
                                    }
                                },
                                None => {},
                            }
                        }
                        self.buffer.push_back(item);
                        proof {
                            assert(held.is_prefix_of(self.buffer@));
                            lemma_set_aside(
                                old(self).inner,
                                old(self).buffer@,
                                cur,
                                held,
                                mid,
                                item,
                                gas,
                                senders,
                                max,
                                done,
                            );
                            done = done.push(item);
                        }
                    },
                }
            }
        } else {
            let r = self.serve();
            proof {
                let after = crate::traits::BestTransactions::state(self);
                let last = if old(self).buffer@.len() > 0 {
                    Seq::empty()
                } else {
                    given_below(r)
                };
                assert(prioritized_asked(
                    old(self).inner,
                    old(self).buffer@,
                    gas,
                    senders,
                    max,
                    after,
                    r,
                    last,
                ));
            }
            r
        }
    }

    fn mark_invalid(&mut self, transaction: &ValidPoolTransaction, kind: InvalidPoolTransactionError)
        ensures
            final(self).senders() == old(self).senders(),
            final(self).spec_max_prioritized_gas() == old(self).spec_max_prioritized_gas(),
            final(self).spec_prioritized_gas() == old(self).spec_prioritized_gas(),
            final(self).buffered() == old(self).buffered(),
            old(self).inner().marks_invalid(final(self).inner().state(), *transaction, kind),
    {
        self.inner.mark_invalid(transaction, kind);
        proof {
            let below = self.inner.state();
            let held = SetAside { buffered: self.buffer@, gas: self.prioritized_gas };
            assert(below.layers.push(held).drop_last() =~= below.layers);
            assert(crate::traits::BestTransactions::state(self).below() =~= below);
        }
    }

    fn no_updates(&mut self)
        ensures
            final(self).senders() == old(self).senders(),
            final(self).spec_max_prioritized_gas() == old(self).spec_max_prioritized_gas(),
            final(self).spec_prioritized_gas() == old(self).spec_prioritized_gas(),
            final(self).buffered() == old(self).buffered(),
            old(self).inner().drops_updates(final(self).inner().state()),
    {
        self.inner.no_updates();
        proof {
            let below = self.inner.state();
            let held = SetAside { buffered: self.buffer@, gas: self.prioritized_gas };
            assert(below.layers.push(held).drop_last() =~= below.layers);
            assert(crate::traits::BestTransactions::state(self).below() =~= below);
        }
    }

    fn skip_blobs(&mut self)
        ensures
            final(self).senders() == old(self).senders(),
            final(self).spec_max_prioritized_gas() == old(self).spec_max_prioritized_gas(),
            final(self).spec_prioritized_gas() == old(self).spec_prioritized_gas(),
            final(self).buffered() == without_blobs(old(self).buffered()),
            old(self).inner().sets_skip_blobs(final(self).inner().state(), true),
    {
        self.set_skip_blobs(true);
    }

    /// Tells the stream below whether to pass over blob transactions; where
    /// it is to pass over them, the blob transactions set aside are dropped.
    fn set_skip_blobs(&mut self, skip_blobs: bool)
        ensures
            final(self).senders() == old(self).senders(),
            final(self).spec_max_prioritized_gas() == old(self).spec_max_prioritized_gas(),
            final(self).spec_prioritized_gas() == old(self).spec_prioritized_gas(),
            final(self).buffered() == (if skip_blobs {
                without_blobs(old(self).buffered())
            } else {
                old(self).buffered()
            }),
            old(self).inner().sets_skip_blobs(final(self).inner().state(), skip_blobs),
    {
        if skip_blobs {
            let n = self.buffer.len();
            let mut i: usize = 0;
            proof {
                assert(old(self).buffer@.subrange(0, 0) =~= Seq::empty());
                assert(self.buffer@ =~= old(self).buffer@.subrange(0, n as int) + without_blobs(
                    old(self).buffer@.subrange(0, 0),
                ));
            }
            while i < n
                invariant
                    i <= n,
                    n == old(self).buffer@.len(),
                    self.inner == old(self).inner,
                    self.prioritized_senders == old(self).prioritized_senders,
                    self.max_prioritized_gas == old(self).max_prioritized_gas,
                    self.prioritized_gas == old(self).prioritized_gas,
                    self.buffer@ == old(self).buffer@.subrange(i as int, n as int) + without_blobs(
                        old(self).buffer@.subrange(0, i as int),
                    ),
                    self.buffer@.len() <= n,
                decreases n - i,
            {
                let ghost seen = old(self).buffer@.subrange(0, i as int);
                let ghost kept = without_blobs(seen);
                let ghost next = old(self).buffer@.subrange(0, i as int + 1);
                match self.buffer.pop_front() {
                    Some(item) => {
                        proof {
                            assert(item == old(self).buffer@[i as int]);
                            assert(next.drop_last() =~= seen);
                            assert(next.last() == item);
                        }
                        if !item.transaction.is_eip4844() {
                            self.buffer.push_back(item);
                        }
                        proof {
                            assert(self.buffer@ =~= old(self).buffer@.subrange(
                                i as int + 1,
                                n as int,
                            ) + without_blobs(next));
                        }
                    },
                    None => {},
                }
                i = i + 1;
            }
            proof {
                assert(old(self).buffer@.subrange(0, n as int) =~= old(self).buffer@);
                assert(old(self).buffer@.subrange(n as int, n as int) =~= Seq::empty());
                assert(self.buffer@ =~= without_blobs(old(self).buffer@));
            }
        }
        self.inner.set_skip_blobs(skip_blobs);
        proof {
            let below = self.inner.state();
            let held = SetAside { buffered: self.buffer@, gas: self.prioritized_gas };
            assert(below.layers.push(held).drop_last() =~= below.layers);
            assert(crate::traits::BestTransactions::state(self).below() =~= below);
        }
    }
}

} // verus!
