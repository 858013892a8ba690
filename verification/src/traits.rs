//! What the parts of the pool offer to each other and to their users.

use crate::best::BestView;
use crate::error::InvalidPoolTransactionError;
use crate::identifier::{SenderId, TransactionId};
use crate::primitives::{Address, TxHash};
use crate::transaction::{TransactionOrigin, Tx};
use vstd::prelude::*;

verus! {

/// A validated transaction with what the pool has added to it.
#[derive(Clone, Copy, Debug, PartialEq, Eq)]
pub struct ValidPoolTransaction {
    /// The transaction.
    pub transaction: Tx,
    /// Its interned sender and its nonce.
    pub transaction_id: TransactionId,
    /// Whether it may be passed on to the network.
    pub propagate: bool,
    /// Where it came from.
    pub origin: TransactionOrigin,
}

impl ValidPoolTransaction {
    /// The hash of the transaction.
    pub fn hash(&self) -> (r: TxHash)
        ensures
            r == self.transaction.hash,
    {
        self.transaction.hash
    }

    /// The identifier of the transaction.
    pub fn id(&self) -> (r: TransactionId)
        ensures
            r == self.transaction_id,
    {
        self.transaction_id
    }

    /// The address of the sender.
    pub fn sender(&self) -> (r: Address)
        ensures
            r == self.transaction.sender,
    {
        self.transaction.sender
    }

    /// The identifier of the sender.
    pub fn sender_id(&self) -> (r: SenderId)
        ensures
            r == self.transaction_id.sender,
    {
        self.transaction_id.sender
    }

    /// The nonce of the transaction.
    pub fn nonce(&self) -> (r: u64)
        ensures
            r == self.transaction.nonce,
    {
        self.transaction.nonce
    }

    /// The most the transaction pays per unit of gas.
    pub fn max_fee_per_gas(&self) -> (r: u128)
        ensures
            r == self.transaction.max_fee_per_gas,
    {
        self.transaction.max_fee_per_gas
    }

    /// The most gas the transaction may use.
    pub fn gas_limit(&self) -> (r: u64)
        ensures
            r == self.transaction.gas_limit,
    {
        self.transaction.gas_limit
    }

    /// Whether the transaction carries blobs.
    pub fn is_eip4844(&self) -> (r: bool)
        ensures
            r == self.transaction.spec_is_eip4844(),
    {
        self.transaction.is_eip4844()
    }
}

/// What a stream that puts some senders first holds beside the stream
/// below it.
pub struct SetAside {
    /// The transactions that were passed over and wait to be given out.
    pub buffered: Seq<ValidPoolTransaction>,
    /// The gas of the transactions put first so far.
    pub gas: u64,
}

/// The state of a stream as a value: the state of the stream of pending
/// transactions at the bottom, and what each stream above it that sets
/// transactions aside holds, from the bottom up.
#[verifier::ext_equal]
pub struct StreamState {
    /// The state of the stream at the bottom.
    pub view: BestView,
    /// What the streams above it hold, from the bottom up.
    pub layers: Seq<SetAside>,
}

impl StreamState {
    /// The state of a stream of pending transactions by itself.
    pub open spec fn of(view: BestView) -> StreamState {
        StreamState { view, layers: Seq::empty() }
    }

    /// The state with what one more stream above holds.
    pub open spec fn above(self, held: SetAside) -> StreamState {
        StreamState { view: self.view, layers: self.layers.push(held) }
    }

    /// The state of the stream below the topmost one.
    pub open spec fn below(self) -> StreamState {
        StreamState { view: self.view, layers: self.layers.drop_last() }
    }

    /// What the topmost stream holds.
    pub open spec fn top(self) -> SetAside {
        self.layers.last()
    }
}

/// A stream of transactions for the next block, best first.
pub trait BestTransactions {
    /// What holds of the stream between any two calls.
    open spec fn wf(&self) -> bool {
        true
    }

    /// A bound on the number of transactions that the stream can still give.
    open spec fn remaining(&self) -> nat {
        0
    }

    /// The state of the stream as a value. A stream that says nothing of
    /// its state has some state or other.
    open spec fn state(&self) -> StreamState {
        arbitrary()
    }

    /// What `next` does: whether it may leave the stream in the state
    /// `after` and give `r`. A stream says here what it gives; a stream that
    /// says nothing may give anything.
    open spec fn gives(&self, after: StreamState, r: Option<ValidPoolTransaction>) -> bool {
        true
    }

    /// What `mark_invalid` does: whether it leaves the stream in the state
    /// `after` when it is told of the transaction.
    open spec fn marks_invalid(
        &self,
        after: StreamState,
        transaction: ValidPoolTransaction,
        kind: InvalidPoolTransactionError,
    ) -> bool {
        true
    }

    /// What `no_updates` does: whether it leaves the stream in the state
    /// `after`.
    open spec fn drops_updates(&self, after: StreamState) -> bool {
        true
    }

    /// What `set_skip_blobs` does: whether it leaves the stream in the
    /// state `after`.
    open spec fn sets_skip_blobs(&self, after: StreamState, skip_blobs: bool) -> bool {
        true
    }

    /// The next transaction, if there is one.
    fn next(&mut self) -> (r: Option<ValidPoolTransaction>)
        requires
            old(self).wf(),
        ensures
            final(self).wf(),
            r is Some ==> final(self).remaining() < old(self).remaining(),
            r is None ==> final(self).remaining() <= old(self).remaining(),
            old(self).gives(final(self).state(), r),
    ;

    /// Tells the stream that the transaction cannot go into the block: the
    /// stream gives no further transaction of its sender.
    fn mark_invalid(&mut self, transaction: &ValidPoolTransaction, kind: InvalidPoolTransactionError)
        requires
            old(self).wf(),
        ensures
            final(self).wf(),
            final(self).remaining() <= old(self).remaining(),
            old(self).marks_invalid(final(self).state(), *transaction, kind),
    ;

    /// Tells the stream to give what it holds now and nothing that comes to
    /// the pool later.
    fn no_updates(&mut self)
        requires
            old(self).wf(),
        ensures
            final(self).wf(),
            final(self).remaining() <= old(self).remaining(),
            old(self).drops_updates(final(self).state()),
    ;

    /// Tells the stream to pass over blob transactions.
    fn skip_blobs(&mut self)
        requires
            old(self).wf(),
        ensures
            final(self).wf(),
            final(self).remaining() <= old(self).remaining(),
            old(self).sets_skip_blobs(final(self).state(), true),
    ;

    /// Tells the stream whether to pass over blob transactions.
    fn set_skip_blobs(&mut self, skip_blobs: bool)
        requires
            old(self).wf(),
        ensures
            final(self).wf(),
            final(self).remaining() <= old(self).remaining(),
            old(self).sets_skip_blobs(final(self).state(), skip_blobs),
    ;
}

} // verus!
