//! The transaction handle that the pool holds, and the limits of a sub-pool.
use std::sync::Arc;
use vstd::prelude::*;

use crate::identifier::{SenderId, TransactionId};

verus! {

/// A transaction that has passed validation, with what a pool reads of it.
///
/// The pool never looks into `transaction`; it holds the handle, usually
/// behind an `Arc`, and hands it back unchanged.
#[derive(Debug)]
pub struct ValidPoolTransaction<T> {
    /// The transaction itself.
    pub transaction: T,
    /// The identifier of the transaction.
    pub transaction_id: TransactionId,
    /// The most that the transaction pays per unit of gas.
    pub max_fee_per_gas: u128,
    /// The number of bytes that the transaction counts for.
    pub size: usize,
    /// When the transaction was validated, on a clock that never runs backwards.
    pub timestamp: u64,
}

impl<T> ValidPoolTransaction<T> {
    /// The identifier of the transaction.
    pub fn id(&self) -> (id: &TransactionId)
        ensures
            *id == self.transaction_id,
    {
        &self.transaction_id
    }

    /// The sender of the transaction.
    pub fn sender_id(&self) -> (sender: SenderId)
        ensures
            sender == self.transaction_id.sender,
    {
        self.transaction_id.sender
    }

    /// The nonce of the transaction.
    pub fn nonce(&self) -> (nonce: u64)
        ensures
            nonce == self.transaction_id.nonce,
    {
        self.transaction_id.nonce
    }

    /// The most that the transaction pays per unit of gas.
    pub fn max_fee_per_gas(&self) -> (fee: u128)
        ensures
            fee == self.max_fee_per_gas,
    {
        self.max_fee_per_gas
    }

    /// The number of bytes that the transaction counts for.
    pub fn size(&self) -> (size: usize)
        ensures
            size == self.size,
    {
        self.size
    }
}

impl<T: Clone> Clone for ValidPoolTransaction<T> {
    /// A validated transaction around a clone of the transaction, with the
    /// same identifier, fee, size and timestamp.
    fn clone(&self) -> (copy: Self)
        ensures
            cloned(self.transaction, copy.transaction),
            copy.transaction_id == self.transaction_id,
            copy.max_fee_per_gas == self.max_fee_per_gas,
            copy.size == self.size,
            copy.timestamp == self.timestamp,
    {
        ValidPoolTransaction {
            transaction: self.transaction.clone(),
            transaction_id: self.transaction_id,
            max_fee_per_gas: self.max_fee_per_gas,
            size: self.size,
            timestamp: self.timestamp,
        }
    }
}

/// `Arc::clone`: a second handle to the allocation that `handle` points to.
/// Nothing is copied but the handle, so both give the same value.
#[verifier::external_body]
pub(crate) fn share<X>(handle: &Arc<X>) -> (shared: Arc<X>)
    ensures
        shared == *handle,
{
    Arc::clone(handle)
}

/// The limits of a sub-pool.
#[derive(Clone, Copy, Debug, PartialEq, Eq, Structural)]
pub struct SubPoolLimit {
    /// The largest number of transactions that the sub-pool may hold.
    pub max_txs: usize,
    /// The largest number of bytes that the sub-pool may hold.
    pub max_size: usize,
}

} // verus!
