//! The records that the pool keeps, and what holds of sequences of them.
use std::ops::Deref;
use std::sync::Arc;
use vstd::prelude::*;

use crate::identifier::{SenderId, TransactionId, lemma_precedes_is_strict_total_order};
use crate::ordering::ParkedOrd;
use crate::transaction::ValidPoolTransaction;

verus! {

/// A transaction in the pool, with the number under which it was submitted.
#[derive(Debug)]
pub struct ParkedPoolTransaction<T: ParkedOrd> {
    /// Tells when the transaction came into the pool: later submissions have
    /// higher numbers, until the counter wraps.
    pub submission_id: u64,
    /// The transaction, wrapped for its rank.
    pub transaction: T,
}

impl<T: ParkedOrd> ParkedPoolTransaction<T> {
    /// The record of a transaction that is submitted under `submission_id`.
    pub open spec fn submitted(
        submission_id: u64,
        tx: Arc<ValidPoolTransaction<T::Transaction>>,
    ) -> Self {
        ParkedPoolTransaction { submission_id, transaction: T::wrap(tx) }
    }

    /// The identifier of the transaction.
    pub open spec fn id(&self) -> TransactionId {
        self.transaction.inner().transaction_id
    }

    /// The sender of the transaction.
    pub open spec fn sender(&self) -> SenderId {
        self.transaction.inner().transaction_id.sender
    }

    /// The number of bytes that the transaction counts for.
    pub open spec fn size(&self) -> usize {
        self.transaction.inner().size
    }

    /// The most that the transaction pays per unit of gas.
    pub open spec fn max_fee_per_gas(&self) -> u128 {
        self.transaction.inner().max_fee_per_gas
    }

    /// The order of the records: by the rank of the transactions, and among
    /// those that tie, the later submission below the earlier one. So of two
    /// transactions of the same rank the older one is the better.
    pub open spec fn ranks_below(&self, other: &Self) -> bool {
        self.transaction.ranks_below(&other.transaction) || (!other.transaction.ranks_below(
            &self.transaction,
        ) && self.submission_id > other.submission_id)
    }

    /// The order of the records is a strict weak order, as the rank of the
    /// transactions is: irreflexive, asymmetric and transitive, and of three
    /// records the first is not below the third where it is not below the
    /// second, nor the second below the third.
    pub proof fn lemma_strict_order(a: &Self, b: &Self, c: &Self)
        ensures
            !a.ranks_below(a),
            a.ranks_below(b) ==> !b.ranks_below(a),
            a.ranks_below(b) && b.ranks_below(c) ==> a.ranks_below(c),
            !a.ranks_below(b) && !b.ranks_below(c) ==> !a.ranks_below(c),
    {
        T::lemma_strict_weak_order(&a.transaction, &b.transaction, &c.transaction);
        T::lemma_strict_weak_order(&a.transaction, &c.transaction, &b.transaction);
        T::lemma_strict_weak_order(&b.transaction, &a.transaction, &c.transaction);
        T::lemma_strict_weak_order(&b.transaction, &c.transaction, &a.transaction);
        T::lemma_strict_weak_order(&c.transaction, &a.transaction, &b.transaction);
        T::lemma_strict_weak_order(&c.transaction, &b.transaction, &a.transaction);
        T::lemma_strict_weak_order(&a.transaction, &b.transaction, &a.transaction);
    }

    /// The record of `tx`, submitted under `submission_id`.
    pub fn new(submission_id: u64, tx: Arc<ValidPoolTransaction<T::Transaction>>) -> (entry: Self)
        ensures
            entry == Self::submitted(submission_id, tx),
    {
        let transaction = T::from(tx);
        proof {
            T::lemma_from(tx, &transaction);
        }
        ParkedPoolTransaction { submission_id, transaction }
    }

    /// The shared transaction, borrowed.
    pub fn handle(&self) -> (tx: &Arc<ValidPoolTransaction<T::Transaction>>)
        ensures
            *tx == self.transaction.inner(),
    {
        let tx = self.transaction.deref();
        proof {
            T::lemma_deref(&self.transaction, tx);
        }
        tx
    }

    /// Gives the shared transaction back.
    pub fn into_handle(self) -> (tx: Arc<ValidPoolTransaction<T::Transaction>>)
        ensures
            tx == self.transaction.inner(),
    {
        let wrapped = self.transaction;
        let tx: Arc<ValidPoolTransaction<T::Transaction>> = wrapped.into();
        proof {
            T::lemma_into(wrapped, tx);
        }
        tx
    }

    /// The identifier of the transaction.
    pub fn transaction_id(&self) -> (id: TransactionId)
        ensures
            id == self.id(),
    {
        *self.handle().id()
    }

    /// Whether this record is ordered strictly below `other`.
    pub fn is_below(&self, other: &Self) -> (below: bool)
        ensures
            below == self.ranks_below(other),
    {
        if self.transaction.is_below(&other.transaction) {
            true
        } else if other.transaction.is_below(&self.transaction) {
            false
        } else {
            self.submission_id > other.submission_id
        }
    }

}

impl<T: ParkedOrd> Clone for ParkedPoolTransaction<T> {
    /// A second record of the same submission, around the same shared
    /// transaction.
    fn clone(&self) -> (copy: Self)
        ensures
            copy == *self,
    {
        let transaction = self.transaction.clone();
        proof {
            T::lemma_clone(&self.transaction, &transaction);
        }
        ParkedPoolTransaction { submission_id: self.submission_id, transaction }
    }
}

/// Whether the identifiers rise strictly along the sequence.
pub open spec fn ascending_by_id<T: ParkedOrd>(entries: Seq<ParkedPoolTransaction<T>>) -> bool {
    forall|i: int, j: int|
        #![trigger entries[i], entries[j]]
        0 <= i < j < entries.len() ==> entries[i].id().precedes(entries[j].id())
}

/// Whether no record is ordered below one that stands before it.
pub open spec fn ascending_by_rank<T: ParkedOrd>(entries: Seq<ParkedPoolTransaction<T>>) -> bool {
    forall|i: int, j: int|
        #![trigger entries[i], entries[j]]
        0 <= i < j < entries.len() ==> !entries[j].ranks_below(&entries[i])
}

/// Whether one of the records has the identifier `id`.
pub open spec fn has_id<T: ParkedOrd>(
    entries: Seq<ParkedPoolTransaction<T>>,
    id: TransactionId,
) -> bool {
    exists|i: int| 0 <= i < entries.len() && (#[trigger] entries[i]).id() == id
}

/// Where the record with the identifier `id` stands.
pub open spec fn index_of_id<T: ParkedOrd>(
    entries: Seq<ParkedPoolTransaction<T>>,
    id: TransactionId,
) -> int {
    choose|i: int| 0 <= i < entries.len() && (#[trigger] entries[i]).id() == id
}

/// The records as a map from their identifiers.
pub open spec fn by_id_map<T: ParkedOrd>(entries: Seq<ParkedPoolTransaction<T>>) -> Map<
    TransactionId,
    ParkedPoolTransaction<T>,
> {
    Map::new(
        |id: TransactionId| has_id(entries, id),
        |id: TransactionId| entries[index_of_id(entries, id)],
    )
}

/// The sum of the sizes of the records.
pub open spec fn total_size<T: ParkedOrd>(entries: Seq<ParkedPoolTransaction<T>>) -> nat
    decreases entries.len(),
{
    if entries.len() == 0 {
        0
    } else {
        total_size(entries.drop_last()) + entries.last().size() as nat
    }
}

/// Along rising identifiers the senders never fall.
pub proof fn lemma_senders_rise<T: ParkedOrd>(
    entries: Seq<ParkedPoolTransaction<T>>,
    i: int,
    j: int,
)
    requires
        ascending_by_id(entries),
        0 <= i <= j < entries.len(),
    ensures
        entries[i].sender().0 <= entries[j].sender().0,
{
    if i < j {
        assert(entries[i].id().precedes(entries[j].id()));
    }
}

/// A shorter sequence of rising identifiers rises too.
pub proof fn lemma_ascending_prefix<T: ParkedOrd>(entries: Seq<ParkedPoolTransaction<T>>, n: int)
    requires
        ascending_by_id(entries),
        0 <= n <= entries.len(),
    ensures
        ascending_by_id(entries.take(n)),
{
    let shorter = entries.take(n);
    assert forall|i: int, j: int|
        #![trigger shorter[i], shorter[j]]
        0 <= i < j < shorter.len() implies shorter[i].id().precedes(shorter[j].id()) by {
        assert(shorter[i] == entries[i] && shorter[j] == entries[j]);
    }
}

/// In a sequence with rising identifiers, a record is found by its
/// identifier: the map gives each record back under its own.
pub proof fn lemma_by_id_map_index<T: ParkedOrd>(entries: Seq<ParkedPoolTransaction<T>>, i: int)
    requires
        ascending_by_id(entries),
        0 <= i < entries.len(),
    ensures
        has_id(entries, entries[i].id()),
        index_of_id(entries, entries[i].id()) == i,
        by_id_map(entries).contains_key(entries[i].id()),
        by_id_map(entries)[entries[i].id()] == entries[i],
{
    let id = entries[i].id();
    let k = index_of_id(entries, id);
    assert(0 <= k < entries.len() && entries[k].id() == id);
    if k < i {
        assert(entries[k].id().precedes(entries[i].id()));
    } else if i < k {
        assert(entries[i].id().precedes(entries[k].id()));
    }
}

/// Putting a record with a new identifier in its place keeps the identifiers
/// rising, and adds the record to the map.
pub proof fn lemma_insert_by_id<T: ParkedOrd>(
    entries: Seq<ParkedPoolTransaction<T>>,
    at: int,
    entry: ParkedPoolTransaction<T>,
)
    requires
        ascending_by_id(entries),
        0 <= at <= entries.len(),
        forall|i: int| 0 <= i < at ==> (#[trigger] entries[i]).id().precedes(entry.id()),
        forall|i: int|
            at <= i < entries.len() ==> entry.id().precedes((#[trigger] entries[i]).id()),
    ensures
        ascending_by_id(entries.insert(at, entry)),
        !has_id(entries, entry.id()),
        by_id_map(entries.insert(at, entry)) == by_id_map(entries).insert(entry.id(), entry),
        total_size(entries.insert(at, entry)) == total_size(entries) + entry.size(),
{
    let after = entries.insert(at, entry);
    assert forall|i: int, j: int|
        #![trigger after[i], after[j]]
        0 <= i < j < after.len() implies after[i].id().precedes(after[j].id()) by {
        let a = if i < at { entries[i] } else if i == at { entry } else { entries[i - 1] };
        let b = if j < at { entries[j] } else if j == at { entry } else { entries[j - 1] };
        assert(after[i] == a);
        assert(after[j] == b);
    }
    if has_id(entries, entry.id()) {
        let k = index_of_id(entries, entry.id());
        assert(entries[k].id() == entry.id());
        lemma_precedes_is_strict_total_order(entry.id(), entry.id(), entry.id());
    }
    assert forall|id: TransactionId|
        has_id(after, id) <==> (id == entry.id() || has_id(entries, id)) by {
        if has_id(after, id) {
            let k = index_of_id(after, id);
            if k < at {
                assert(entries[k].id() == id);
            } else if k > at {
                assert(entries[k - 1].id() == id);
            }
        }
        if id == entry.id() {
            assert(after[at].id() == id);
        }
        if has_id(entries, id) {
            let k = index_of_id(entries, id);
            if k < at {
                assert(after[k].id() == id);
            } else {
                assert(after[k + 1].id() == id);
            }
        }
    }
    assert forall|id: TransactionId| has_id(after, id) implies by_id_map(after)[id] == by_id_map(
        entries,
    ).insert(entry.id(), entry)[id] by {
        let k = index_of_id(after, id);
        lemma_by_id_map_index(after, k);
        if k < at {
            lemma_by_id_map_index(entries, k);
        } else if k > at {
            lemma_by_id_map_index(entries, k - 1);
        }
    }
    assert(by_id_map(after) =~= by_id_map(entries).insert(entry.id(), entry));
    lemma_total_size_insert(entries, at, entry);
}

/// Taking a record out keeps the identifiers rising, and takes the record
/// out of the map.
pub proof fn lemma_remove_by_id<T: ParkedOrd>(entries: Seq<ParkedPoolTransaction<T>>, at: int)
    requires
        ascending_by_id(entries),
        0 <= at < entries.len(),
    ensures
        ascending_by_id(entries.remove(at)),
        !has_id(entries.remove(at), entries[at].id()),
        by_id_map(entries.remove(at)) == by_id_map(entries).remove(entries[at].id()),
        total_size(entries.remove(at)) == total_size(entries) - entries[at].size(),
{
    let after = entries.remove(at);
    let gone = entries[at].id();
    assert forall|i: int, j: int|
        #![trigger after[i], after[j]]
        0 <= i < j < after.len() implies after[i].id().precedes(after[j].id()) by {
        let a = if i < at { entries[i] } else { entries[i + 1] };
        let b = if j < at { entries[j] } else { entries[j + 1] };
        assert(after[i] == a);
        assert(after[j] == b);
    }
    assert forall|id: TransactionId| has_id(after, id) <==> (id != gone && has_id(entries, id)) by {
        if has_id(after, id) {
            let k = index_of_id(after, id);
            let from = if k < at { k } else { k + 1 };
            assert(entries[from].id() == id);
            lemma_by_id_map_index(entries, from);
            lemma_by_id_map_index(entries, at);
        }
        if id != gone && has_id(entries, id) {
            let k = index_of_id(entries, id);
            if k < at {
                assert(after[k].id() == id);
            } else {
                assert(after[k - 1].id() == id);
            }
        }
    }
    assert forall|id: TransactionId| has_id(after, id) implies by_id_map(after)[id] == by_id_map(
        entries,
    ).remove(gone)[id] by {
        let k = index_of_id(after, id);
        lemma_by_id_map_index(after, k);
        if k < at {
            lemma_by_id_map_index(entries, k);
        } else {
            lemma_by_id_map_index(entries, k + 1);
        }
    }
    assert(by_id_map(after) =~= by_id_map(entries).remove(gone));
    lemma_total_size_remove(entries, at);
}

/// A record that is put in adds its size to the sum.
pub proof fn lemma_total_size_insert<T: ParkedOrd>(
    entries: Seq<ParkedPoolTransaction<T>>,
    at: int,
    entry: ParkedPoolTransaction<T>,
)
    requires
        0 <= at <= entries.len(),
    ensures
        total_size(entries.insert(at, entry)) == total_size(entries) + entry.size(),
    decreases entries.len(),
{
    let after = entries.insert(at, entry);
    if at == entries.len() {
        assert(after.drop_last() =~= entries);
    } else {
        assert(after.drop_last() =~= entries.drop_last().insert(at, entry));
        assert(after.last() == entries.last());
        lemma_total_size_insert(entries.drop_last(), at, entry);
    }
}

/// A record that is taken out takes its size from the sum.
pub proof fn lemma_total_size_remove<T: ParkedOrd>(entries: Seq<ParkedPoolTransaction<T>>, at: int)
    requires
        0 <= at < entries.len(),
    ensures
        total_size(entries.remove(at)) == total_size(entries) - entries[at].size(),
    decreases entries.len(),
{
    let after = entries.remove(at);
    if at == entries.len() - 1 {
        assert(after =~= entries.drop_last());
    } else {
        assert(after.drop_last() =~= entries.drop_last().remove(at));
        assert(after.last() == entries.last());
        lemma_total_size_remove(entries.drop_last(), at);
    }
}

/// Putting a record behind all that are not above it, and before the first
/// that is, keeps the order of the records.
pub proof fn lemma_insert_by_rank<T: ParkedOrd>(
    entries: Seq<ParkedPoolTransaction<T>>,
    at: int,
    entry: ParkedPoolTransaction<T>,
)
    requires
        ascending_by_rank(entries),
        0 <= at <= entries.len(),
        forall|i: int| #![trigger entries[i]] 0 <= i < at ==> !entry.ranks_below(&entries[i]),
        at < entries.len() ==> entry.ranks_below(&entries[at]),
    ensures
        ascending_by_rank(entries.insert(at, entry)),
{
    let after = entries.insert(at, entry);
    assert forall|i: int, j: int|
        #![trigger after[i], after[j]]
        0 <= i < j < after.len() implies !after[j].ranks_below(&after[i]) by {
        let a = if i < at { entries[i] } else if i == at { entry } else { entries[i - 1] };
        let b = if j < at { entries[j] } else if j == at { entry } else { entries[j - 1] };
        assert(after[i] == a);
        assert(after[j] == b);
        if i == at {
            // `b` stands at or behind the first record above `entry`
            assert(!entries[j - 1].ranks_below(&entries[at]) || j - 1 == at);
            ParkedPoolTransaction::lemma_strict_order(&b, &entry, &entries[at]);
        }
    }
}

/// Taking a record out keeps the order of the records.
pub proof fn lemma_remove_by_rank<T: ParkedOrd>(entries: Seq<ParkedPoolTransaction<T>>, at: int)
    requires
        ascending_by_rank(entries),
        0 <= at < entries.len(),
    ensures
        ascending_by_rank(entries.remove(at)),
{
    let after = entries.remove(at);
    assert forall|i: int, j: int|
        #![trigger after[i], after[j]]
        0 <= i < j < after.len() implies !after[j].ranks_below(&after[i]) by {
        let a = if i < at { entries[i] } else { entries[i + 1] };
        let b = if j < at { entries[j] } else { entries[j + 1] };
        assert(after[i] == a);
        assert(after[j] == b);
    }
}

/// Whether `at` is the place of the identifier `id` among the records: all
/// before it have lower identifiers, and none from it on has.
pub open spec fn is_place_of<T: ParkedOrd>(
    entries: Seq<ParkedPoolTransaction<T>>,
    at: int,
    id: TransactionId,
) -> bool {
    &&& 0 <= at <= entries.len()
    &&& forall|i: int| 0 <= i < at ==> (#[trigger] entries[i]).id().precedes(id)
    &&& forall|i: int| at <= i < entries.len() ==> !(#[trigger] entries[i]).id().precedes(id)
}

/// The record with the identifier `id` stands at the place of `id`, if there
/// is one; if there is none, a record with that identifier can be put there.
pub proof fn lemma_place<T: ParkedOrd>(
    entries: Seq<ParkedPoolTransaction<T>>,
    at: int,
    id: TransactionId,
)
    requires
        ascending_by_id(entries),
        is_place_of(entries, at, id),
    ensures
        has_id(entries, id) <==> (at < entries.len() && entries[at].id() == id),
        has_id(entries, id) ==> index_of_id(entries, id) == at,
        !has_id(entries, id) ==> forall|i: int|
            at <= i < entries.len() ==> id.precedes((#[trigger] entries[i]).id()),
{
    if has_id(entries, id) {
        let k = index_of_id(entries, id);
        assert(entries[k].id() == id);
        lemma_precedes_is_strict_total_order(id, id, id);
        if k > at {
            assert(entries[at].id().precedes(entries[k].id()));
        }
        assert(k == at);
    }
    if at < entries.len() && entries[at].id() == id {
        assert(has_id(entries, id));
    }
    if !has_id(entries, id) {
        assert forall|i: int| at <= i < entries.len() implies id.precedes(
            (#[trigger] entries[i]).id(),
        ) by {
            lemma_precedes_is_strict_total_order(id, entries[i].id(), id);
        }
    }
}

/// Whether `after` is `before` with `entry` put in at the place of its
/// identifier.
pub open spec fn placed_into<T: ParkedOrd>(
    before: Seq<ParkedPoolTransaction<T>>,
    after: Seq<ParkedPoolTransaction<T>>,
    entry: ParkedPoolTransaction<T>,
) -> bool {
    exists|at: int|
        is_place_of(before, at, entry.id()) && after == #[trigger] before.insert(at, entry)
}

/// Whether `at` is the place of `entry` by rank: behind all records that are
/// not above it, and before the first that is.
pub open spec fn is_rank_place_of<T: ParkedOrd>(
    entries: Seq<ParkedPoolTransaction<T>>,
    at: int,
    entry: ParkedPoolTransaction<T>,
) -> bool {
    &&& 0 <= at <= entries.len()
    &&& forall|i: int| #![trigger entries[i]] 0 <= i < at ==> !entry.ranks_below(&entries[i])
    &&& at < entries.len() ==> entry.ranks_below(&entries[at])
}

/// Whether `after` is `before` with `entry` put in at its place by rank.
pub open spec fn ranked_into<T: ParkedOrd>(
    before: Seq<ParkedPoolTransaction<T>>,
    after: Seq<ParkedPoolTransaction<T>>,
    entry: ParkedPoolTransaction<T>,
) -> bool {
    exists|at: int|
        is_rank_place_of(before, at, entry) && after == #[trigger] before.insert(at, entry)
}

/// Whether `after` is `before` with a record of the identifier `id` taken
/// out.
pub open spec fn removed_from<T: ParkedOrd>(
    before: Seq<ParkedPoolTransaction<T>>,
    after: Seq<ParkedPoolTransaction<T>>,
    id: TransactionId,
) -> bool {
    exists|at: int|
        0 <= at < before.len() && before[at].id() == id && after == #[trigger] before.remove(at)
}

/// The shared transactions of the records.
pub open spec fn handles_of<T: ParkedOrd>(entries: Seq<ParkedPoolTransaction<T>>) -> Seq<
    Arc<ValidPoolTransaction<T::Transaction>>,
> {
    entries.map_values(|entry: ParkedPoolTransaction<T>| entry.transaction.inner())
}

/// The identifiers of the records.
pub open spec fn ids_of<T: ParkedOrd>(entries: Seq<ParkedPoolTransaction<T>>) -> Seq<
    TransactionId,
> {
    entries.map_values(|entry: ParkedPoolTransaction<T>| entry.id())
}

} // verus!
