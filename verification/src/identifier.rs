//! Identifiers of senders and of their transactions.
use vstd::prelude::*;

verus! {

/// A dense integer handle that stands for the address of a sender.
#[derive(Clone, Copy, Debug, PartialEq, Eq, Structural, PartialOrd, Ord, Hash)]
pub struct SenderId(pub u64);

impl SenderId {
    /// The smallest identifier that a transaction of this sender can have:
    /// the inclusive lower bound of the sender's run in an index that is
    /// ordered by identifier.
    pub fn start_bound(self) -> (bound: TransactionId)
        ensures
            bound == (TransactionId { sender: self, nonce: 0 }),
            forall|id: TransactionId| id.sender == self ==> !id.precedes(bound),
    {
        TransactionId { sender: self, nonce: 0 }
    }
}

impl From<u64> for SenderId {
    /// The handle with the number `value`.
    fn from(value: u64) -> (id: Self) {
        SenderId(value)
    }
}

impl vstd::std_specs::convert::FromSpecImpl<u64> for SenderId {
    open spec fn obeys_from_spec() -> bool {
        true
    }

    open spec fn from_spec(value: u64) -> Self {
        SenderId(value)
    }
}

/// The identifier of a transaction: who sent it, and under which nonce.
///
/// Identifiers are ordered by sender first and by nonce second, so that in
/// ascending order the transactions of one sender stand together, lowest
/// nonce first.
#[derive(Clone, Copy, Debug, PartialEq, Eq, Structural, PartialOrd, Ord, Hash)]
pub struct TransactionId {
    /// The sender of the transaction.
    pub sender: SenderId,
    /// The nonce of the transaction.
    pub nonce: u64,
}

impl TransactionId {
    /// The strict order of identifiers: by sender, then by nonce.
    pub open spec fn precedes(self, other: TransactionId) -> bool {
        self.sender.0 < other.sender.0 || (self.sender == other.sender && self.nonce
            < other.nonce)
    }

    /// An identifier from its two parts.
    pub fn new(sender: SenderId, nonce: u64) -> (id: Self)
        ensures
            id == (TransactionId { sender, nonce }),
    {
        TransactionId { sender, nonce }
    }

    /// Whether this identifier stands strictly before `other`.
    pub fn is_before(&self, other: &TransactionId) -> (before: bool)
        ensures
            before == self.precedes(*other),
    {
        self.sender.0 < other.sender.0 || (self.sender.0 == other.sender.0 && self.nonce
            < other.nonce)
    }
}

/// That `precedes` is a strict total order on identifiers.
pub proof fn lemma_precedes_is_strict_total_order(
    a: TransactionId,
    b: TransactionId,
    c: TransactionId,
)
    ensures
        !a.precedes(a),
        a.precedes(b) && b.precedes(c) ==> a.precedes(c),
        a.precedes(b) || b.precedes(a) || a == b,
        a.precedes(b) ==> !b.precedes(a),
{
}

} // verus!
