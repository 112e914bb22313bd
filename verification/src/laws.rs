//! What holds of the pool across its operations.
use vstd::prelude::*;

use crate::basefee::{
    lemma_satisfying_base_fee, satisfies_base_fee, satisfying_among, satisfying_base_fee,
};
use crate::entry::{
    ParkedPoolTransaction, ascending_by_id, by_id_map, has_id, ids_of, index_of_id, is_place_of,
    is_rank_place_of, lemma_by_id_map_index, lemma_remove_by_id, placed_into, ranked_into,
    removed_from, total_size,
};
use crate::identifier::TransactionId;
use crate::ordering::ParkedOrd;
use crate::parked::ParkedPool;

verus! {

/// Both orders of a pool hold the same transactions, and the size that the
/// pool reports is the sum of their sizes.
pub proof fn lemma_both_orders_agree<T: ParkedOrd>(pool: ParkedPool<T>)
    requires
        pool.wf(),
    ensures
        pool.by_id().len() == pool.best().len(),
        pool.by_id().to_multiset() == pool.best().to_multiset(),
        pool.size_of() == total_size(pool.by_id()),
        pool@.dom().finite(),
        pool@.len() == pool.by_id().len(),
{
    lemma_map_len(pool.by_id());
}

/// A sequence with rising identifiers has as many records as its map has
/// keys.
pub proof fn lemma_map_len<T: ParkedOrd>(entries: Seq<ParkedPoolTransaction<T>>)
    requires
        ascending_by_id(entries),
    ensures
        by_id_map(entries).dom().finite(),
        by_id_map(entries).len() == entries.len(),
    decreases entries.len(),
{
    if entries.len() == 0 {
        assert(by_id_map(entries).dom() =~= Set::<TransactionId>::empty());
    } else {
        let last = entries.len() - 1;
        let earlier = entries.remove(last);
        lemma_remove_by_id(entries, last);
        lemma_map_len(earlier);
        lemma_by_id_map_index(entries, last);
        assert(by_id_map(entries).dom() =~= by_id_map(earlier).dom().insert(entries[last].id()));
    }
}

/// After a transaction is added and removed again the pool holds what it
/// held before, in both orders, and reports the same size. Only the
/// submission counter has moved on.
///
/// `added` is the pool after `add_transaction`, `after` the pool after
/// `remove_transaction` with the identifier of the transaction: the
/// conditions on them are what the two operations ensure.
pub proof fn lemma_add_then_remove<T: ParkedOrd>(
    before: ParkedPool<T>,
    added: ParkedPool<T>,
    after: ParkedPool<T>,
    entry: ParkedPoolTransaction<T>,
)
    requires
        before.wf(),
        added.wf(),
        after.wf(),
        !before@.contains_key(entry.id()),
        added@ == before@.insert(entry.id(), entry),
        placed_into(before.by_id(), added.by_id(), entry),
        ranked_into(before.best(), added.best(), entry),
        added.submission_id() == ParkedPool::<T>::following(before.submission_id()),
        after@ == added@.remove(entry.id()),
        after.by_id() == added.by_id().remove(index_of_id(added.by_id(), entry.id())),
        removed_from(added.best(), after.best(), entry.id()),
        after.submission_id() == added.submission_id(),
    ensures
        after@ == before@,
        after.by_id() == before.by_id(),
        after.best() == before.best(),
        after.size_of() == before.size_of(),
        after.submission_id() == ParkedPool::<T>::following(before.submission_id()),
{
    assert(after@ =~= before@);
    let at = choose|at: int|
        is_place_of(before.by_id(), at, entry.id()) && added.by_id()
            == #[trigger] before.by_id().insert(at, entry);
    assert(added.by_id()[at] == entry);
    lemma_by_id_map_index(added.by_id(), at);
    assert(after.by_id() =~= before.by_id());
    let put = choose|put: int|
        is_rank_place_of(before.best(), put, entry) && added.best()
            == #[trigger] before.best().insert(put, entry);
    let taken = choose|taken: int|
        0 <= taken < added.best().len() && added.best()[taken].id() == entry.id() && after.best()
            == #[trigger] added.best().remove(taken);
    if taken != put {
        // another record of `best` would have the identifier of `entry`
        let from = if taken < put {
            taken
        } else {
            taken - 1
        };
        let other = before.best()[from];
        assert(added.best()[taken] == other);
        vstd::seq_lib::to_multiset_contains(before.best(), other);
        vstd::seq_lib::to_multiset_contains(before.by_id(), other);
        assert(before.best().contains(other));
        let i = choose|i: int| 0 <= i < before.by_id().len() && before.by_id()[i] == other;
        assert(has_id(before.by_id(), entry.id()));
    }
    assert(after.best() =~= before.best());
}

/// No transaction satisfies a base fee that is above what every transaction
/// offers. With fees below `u64::MAX`, as all fees are that a chain has ever
/// seen, `u64::MAX` is such a base fee: a sweep with it removes nothing.
pub proof fn lemma_base_fee_above_all<T: ParkedOrd>(
    entries: Seq<ParkedPoolTransaction<T>>,
    basefee: u64,
)
    requires
        forall|i: int|
            0 <= i < entries.len() ==> (#[trigger] entries[i]).max_fee_per_gas() < basefee,
    ensures
        satisfying_base_fee(entries, basefee) == Seq::<ParkedPoolTransaction<T>>::empty(),
{
    assert forall|i: int| 0 <= i < entries.len() implies !satisfies_base_fee(
        entries,
        i,
        basefee,
    ) by {
        assert(entries[i].max_fee_per_gas() < basefee);
    }
    lemma_none_satisfying(entries, entries.len(), basefee);
}

/// Where no record satisfies the base fee, the sweep finds none.
pub proof fn lemma_none_satisfying<T: ParkedOrd>(
    entries: Seq<ParkedPoolTransaction<T>>,
    count: nat,
    basefee: u64,
)
    requires
        count <= entries.len(),
        forall|i: int| 0 <= i < count ==> !satisfies_base_fee(entries, i, basefee),
    ensures
        satisfying_among(entries, count, basefee) == Seq::<ParkedPoolTransaction<T>>::empty(),
    decreases count,
{
    if count > 0 {
        lemma_none_satisfying(entries, (count - 1) as nat, basefee);
    }
}

/// After a sweep no transaction in the pool satisfies the same base fee: a
/// second sweep removes nothing.
///
/// `after` is the pool after `enforce_basefee`: the condition on it is what
/// the operation ensures.
pub proof fn lemma_enforce_basefee_twice<T: ParkedOrd>(
    before: ParkedPool<T>,
    after: ParkedPool<T>,
    basefee: u64,
)
    requires
        before.wf(),
        after.wf(),
        after@ == before@.remove_keys(
            ids_of(satisfying_base_fee(before.by_id(), basefee)).to_set(),
        ),
    ensures
        satisfying_base_fee(after.by_id(), basefee) == Seq::<ParkedPoolTransaction<T>>::empty(),
{
    let old_entries = before.by_id();
    let entries = after.by_id();
    let found = satisfying_base_fee(old_entries, basefee);
    lemma_satisfying_base_fee(old_entries, basefee);
    assert forall|j: int| 0 <= j < entries.len() implies !satisfies_base_fee(
        entries,
        j,
        basefee,
    ) by {
        let entry = entries[j];
        lemma_by_id_map_index(entries, j);
        assert(before@.contains_key(entry.id()) && before@[entry.id()] == entry);
        let i = index_of_id(old_entries, entry.id());
        assert(has_id(old_entries, entry.id()));
        assert(old_entries[i] == entry);
        // `entry` stayed: it did not satisfy the base fee
        if satisfies_base_fee(old_entries, i, basefee) {
            assert(found.contains(old_entries[i]));
            let k = choose|k: int| 0 <= k < found.len() && found[k] == entry;
            assert(ids_of(found)[k] == entry.id());
            assert(ids_of(found).to_set().contains(entry.id()));
        }
        let low = choose|low: int|
            0 <= low <= i && (#[trigger] old_entries[low]).sender() == old_entries[i].sender()
                && !(old_entries[low].max_fee_per_gas() >= basefee);
        // the transaction that holds it back stayed too, at or before it
        let parked = old_entries[low];
        lemma_by_id_map_index(old_entries, low);
        assert(!satisfies_base_fee(old_entries, low, basefee));
        if ids_of(found).to_set().contains(parked.id()) {
            let k = choose|k: int| 0 <= k < ids_of(found).len() && ids_of(found)[k] == parked.id();
            assert(found[k].id() == parked.id());
            assert(before@[found[k].id()] == found[k]);
            assert(found.contains(found[k]));
        }
        assert(after@.contains_key(parked.id()) && after@[parked.id()] == parked);
        let m = index_of_id(entries, parked.id());
        assert(has_id(entries, parked.id()));
        assert(entries[m] == parked);
        if m > j {
            assert(entries[j].id().precedes(entries[m].id()));
            if low < i {
                assert(old_entries[low].id().precedes(old_entries[i].id()));
            }
        }
    }
    lemma_none_satisfying(entries, entries.len(), basefee);
}

} // verus!
