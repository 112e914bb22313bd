//! The orders under which parked transactions are ranked.
use std::ops::Deref;
use std::sync::Arc;
use vstd::prelude::*;

use crate::transaction::{ValidPoolTransaction, share};

verus! {

/// A wrapper around a shared transaction that gives it a rank.
///
/// The rank is a strict weak order: two transactions may tie, and ties are
/// transitive. Of two transactions the one that ranks above is the better one.
///
/// A wrapper is made from the shared transaction with `from`, gives it back
/// with `into`, lends it with `deref`, and `clone` makes a second wrapper
/// around the same transaction. What these four do is stated here, by a
/// lemma for each, which every wrapper proves of its own implementation.
pub trait ParkedOrd: Clone + From<Arc<ValidPoolTransaction<Self::Transaction>>> + Into<
    Arc<ValidPoolTransaction<Self::Transaction>>,
> + Deref<Target = Arc<ValidPoolTransaction<Self::Transaction>>> {
    /// The type of the transaction inside the handle.
    type Transaction;

    /// The shared transaction that this wrapper holds.
    spec fn inner(&self) -> Arc<ValidPoolTransaction<Self::Transaction>>;

    /// The wrapper around a shared transaction.
    spec fn wrap(tx: Arc<ValidPoolTransaction<Self::Transaction>>) -> Self;

    /// Whether this transaction ranks strictly below `other`.
    spec fn ranks_below(&self, other: &Self) -> bool;

    /// A wrapper is nothing but its transaction: `wrap` and `inner` undo
    /// each other.
    proof fn lemma_wrap_inner(tx: Arc<ValidPoolTransaction<Self::Transaction>>, wrapped: &Self)
        ensures
            Self::wrap(tx).inner() == tx,
            Self::wrap(wrapped.inner()) == *wrapped,
    ;

    /// The rank is irreflexive and transitive, and so is the tie.
    proof fn lemma_strict_weak_order(a: &Self, b: &Self, c: &Self)
        ensures
            !a.ranks_below(a),
            a.ranks_below(b) && b.ranks_below(c) ==> a.ranks_below(c),
            !a.ranks_below(b) && !b.ranks_below(c) ==> !a.ranks_below(c),
    ;

    /// `from` wraps the shared transaction.
    proof fn lemma_from(tx: Arc<ValidPoolTransaction<Self::Transaction>>, wrapped: &Self)
        requires
            call_ensures(
                <Self as From<Arc<ValidPoolTransaction<Self::Transaction>>>>::from,
                (tx,),
                *wrapped,
            ),
        ensures
            *wrapped == Self::wrap(tx),
    ;

    /// `into` gives the shared transaction back.
    proof fn lemma_into(wrapped: Self, tx: Arc<ValidPoolTransaction<Self::Transaction>>)
        requires
            call_ensures(
                <Self as Into<Arc<ValidPoolTransaction<Self::Transaction>>>>::into,
                (wrapped,),
                tx,
            ),
        ensures
            tx == wrapped.inner(),
    ;

    /// `deref` lends the shared transaction.
    proof fn lemma_deref(wrapped: &Self, tx: &Arc<ValidPoolTransaction<Self::Transaction>>)
        requires
            call_ensures(<Self as Deref>::deref, (wrapped,), tx),
        ensures
            *tx == wrapped.inner(),
    ;

    /// `clone` gives a second wrapper around the same shared transaction.
    proof fn lemma_clone(wrapped: &Self, copy: &Self)
        requires
            cloned::<Self>(*wrapped, *copy),
        ensures
            *copy == *wrapped,
    ;

    /// Whether this transaction ranks strictly below `other`.
    fn is_below(&self, other: &Self) -> (below: bool)
        ensures
            below == self.ranks_below(other),
    ;
}

/// Ranks transactions by the fee they offer: the higher `max_fee_per_gas`,
/// the better.
#[derive(Debug)]
pub struct BasefeeOrd<T>(pub Arc<ValidPoolTransaction<T>>);

impl<T> Clone for BasefeeOrd<T> {
    /// A second wrapper around the same shared transaction.
    fn clone(&self) -> (copy: Self)
        ensures
            copy == *self,
    {
        BasefeeOrd(share(&self.0))
    }
}

impl<T> Deref for BasefeeOrd<T> {
    type Target = Arc<ValidPoolTransaction<T>>;

    /// The shared transaction, borrowed.
    fn deref(&self) -> (tx: &Arc<ValidPoolTransaction<T>>)
        ensures
            *tx == self.0,
    {
        &self.0
    }
}

impl<T> From<Arc<ValidPoolTransaction<T>>> for BasefeeOrd<T> {
    /// Wraps a shared transaction.
    fn from(value: Arc<ValidPoolTransaction<T>>) -> (wrapped: Self) {
        BasefeeOrd(value)
    }
}

impl<T> vstd::std_specs::convert::FromSpecImpl<Arc<ValidPoolTransaction<T>>> for BasefeeOrd<T> {
    open spec fn obeys_from_spec() -> bool {
        true
    }

    open spec fn from_spec(value: Arc<ValidPoolTransaction<T>>) -> Self {
        BasefeeOrd(value)
    }
}

impl<T> From<BasefeeOrd<T>> for Arc<ValidPoolTransaction<T>> {
    /// Gives the shared transaction back.
    fn from(value: BasefeeOrd<T>) -> (tx: Self) {
        value.0
    }
}

impl<T> vstd::std_specs::convert::FromSpecImpl<BasefeeOrd<T>> for Arc<ValidPoolTransaction<T>> {
    open spec fn obeys_from_spec() -> bool {
        true
    }

    open spec fn from_spec(value: BasefeeOrd<T>) -> Self {
        value.0
    }
}

impl<T> ParkedOrd for BasefeeOrd<T> {
    type Transaction = T;

    open spec fn inner(&self) -> Arc<ValidPoolTransaction<T>> {
        self.0
    }

    open spec fn wrap(tx: Arc<ValidPoolTransaction<T>>) -> Self {
        BasefeeOrd(tx)
    }

    open spec fn ranks_below(&self, other: &Self) -> bool {
        self.0.max_fee_per_gas < other.0.max_fee_per_gas
    }

    proof fn lemma_wrap_inner(tx: Arc<ValidPoolTransaction<T>>, wrapped: &Self) {
    }

    proof fn lemma_strict_weak_order(a: &Self, b: &Self, c: &Self) {
    }

    proof fn lemma_from(tx: Arc<ValidPoolTransaction<T>>, wrapped: &Self) {
    }

    proof fn lemma_into(wrapped: Self, tx: Arc<ValidPoolTransaction<T>>) {
    }

    proof fn lemma_deref(wrapped: &Self, tx: &Arc<ValidPoolTransaction<T>>) {
    }

    proof fn lemma_clone(wrapped: &Self, copy: &Self) {
    }

    fn is_below(&self, other: &Self) -> (below: bool) {
        self.0.max_fee_per_gas() < other.0.max_fee_per_gas()
    }
}

/// Ranks transactions by the fee they offer, and those that offer the same
/// by age: the higher `max_fee_per_gas` the better, and of two with the same
/// fee the one with the lower `timestamp`.
#[derive(Debug)]
pub struct QueuedOrd<T>(pub Arc<ValidPoolTransaction<T>>);

impl<T> Clone for QueuedOrd<T> {
    /// A second wrapper around the same shared transaction.
    fn clone(&self) -> (copy: Self)
        ensures
            copy == *self,
    {
        QueuedOrd(share(&self.0))
    }
}

impl<T> Deref for QueuedOrd<T> {
    type Target = Arc<ValidPoolTransaction<T>>;

    /// The shared transaction, borrowed.
    fn deref(&self) -> (tx: &Arc<ValidPoolTransaction<T>>)
        ensures
            *tx == self.0,
    {
        &self.0
    }
}

impl<T> From<Arc<ValidPoolTransaction<T>>> for QueuedOrd<T> {
    /// Wraps a shared transaction.
    fn from(value: Arc<ValidPoolTransaction<T>>) -> (wrapped: Self) {
        QueuedOrd(value)
    }
}

impl<T> vstd::std_specs::convert::FromSpecImpl<Arc<ValidPoolTransaction<T>>> for QueuedOrd<T> {
    open spec fn obeys_from_spec() -> bool {
        true
    }

    open spec fn from_spec(value: Arc<ValidPoolTransaction<T>>) -> Self {
        QueuedOrd(value)
    }
}

impl<T> From<QueuedOrd<T>> for Arc<ValidPoolTransaction<T>> {
    /// Gives the shared transaction back.
    fn from(value: QueuedOrd<T>) -> (tx: Self) {
        value.0
    }
}

impl<T> vstd::std_specs::convert::FromSpecImpl<QueuedOrd<T>> for Arc<ValidPoolTransaction<T>> {
    open spec fn obeys_from_spec() -> bool {
        true
    }

    open spec fn from_spec(value: QueuedOrd<T>) -> Self {
        value.0
    }
}

impl<T> ParkedOrd for QueuedOrd<T> {
    type Transaction = T;

    open spec fn inner(&self) -> Arc<ValidPoolTransaction<T>> {
        self.0
    }

    open spec fn wrap(tx: Arc<ValidPoolTransaction<T>>) -> Self {
        QueuedOrd(tx)
    }

    open spec fn ranks_below(&self, other: &Self) -> bool {
        self.0.max_fee_per_gas < other.0.max_fee_per_gas || (self.0.max_fee_per_gas
            == other.0.max_fee_per_gas && self.0.timestamp > other.0.timestamp)
    }

    proof fn lemma_wrap_inner(tx: Arc<ValidPoolTransaction<T>>, wrapped: &Self) {
    }

    proof fn lemma_strict_weak_order(a: &Self, b: &Self, c: &Self) {
    }

    proof fn lemma_from(tx: Arc<ValidPoolTransaction<T>>, wrapped: &Self) {
    }

    proof fn lemma_into(wrapped: Self, tx: Arc<ValidPoolTransaction<T>>) {
    }

    proof fn lemma_deref(wrapped: &Self, tx: &Arc<ValidPoolTransaction<T>>) {
    }

    proof fn lemma_clone(wrapped: &Self, copy: &Self) {
    }

    fn is_below(&self, other: &Self) -> (below: bool) {
        let mine: u128 = self.0.max_fee_per_gas();
        let theirs: u128 = other.0.max_fee_per_gas();
        mine < theirs || (mine == theirs && self.0.timestamp > other.0.timestamp)
    }
}

} // verus!
