//! The pool of parked transactions.
use std::sync::Arc;
use vstd::prelude::*;

use crate::entry::{
    ParkedPoolTransaction, ascending_by_id, ascending_by_rank, by_id_map, handles_of, index_of_id,
    is_place_of, is_rank_place_of, lemma_by_id_map_index, lemma_insert_by_id, lemma_insert_by_rank,
    lemma_place, lemma_remove_by_id, lemma_remove_by_rank, placed_into, ranked_into, removed_from,
    total_size,
};
use crate::identifier::{TransactionId, lemma_precedes_is_strict_total_order};
use crate::ordering::ParkedOrd;
use crate::transaction::{ValidPoolTransaction, share};

verus! {

/// A pool of transactions that are parked: they wait for a change from
/// outside (of the base fee, of an earlier transaction, of the balance) that
/// lets them move on to the pending pool.
///
/// The pool keeps every transaction under two orders: `by_id`, ascending by
/// identifier, and `best`, ascending by rank, the best transaction last.
/// At all times both hold the same transactions.
pub struct ParkedPool<T: ParkedOrd> {
    /// The number that the next transaction is submitted under.
    submission_id: u64,
    /// All transactions in the pool, ascending by identifier.
    by_id: Vec<ParkedPoolTransaction<T>>,
    /// All transactions in the pool, ascending by rank.
    best: Vec<ParkedPoolTransaction<T>>,
    /// The sum of the sizes of all transactions in the pool.
    size_of: usize,
}

impl<T: ParkedOrd> View for ParkedPool<T> {
    type V = Map<TransactionId, ParkedPoolTransaction<T>>;

    /// The transactions in the pool, each under its identifier.
    open spec fn view(&self) -> Map<TransactionId, ParkedPoolTransaction<T>> {
        by_id_map(self.by_id())
    }
}

impl<T: ParkedOrd> ParkedPool<T> {
    /// The transactions in the pool, ascending by identifier.
    pub closed spec fn by_id(&self) -> Seq<ParkedPoolTransaction<T>> {
        self.by_id@
    }

    /// The transactions in the pool, ascending by rank: the best one last.
    pub closed spec fn best(&self) -> Seq<ParkedPoolTransaction<T>> {
        self.best@
    }

    /// The number that the next transaction is submitted under.
    pub closed spec fn submission_id(&self) -> u64 {
        self.submission_id
    }

    /// The size that the pool reports.
    pub closed spec fn size_of(&self) -> usize {
        self.size_of
    }

    /// What holds of the pool between any two operations:
    /// no identifier occurs twice and the identifiers rise along `by_id`,
    /// `best` is in the order of the records and holds the same records as
    /// `by_id`, and the reported size is the sum of their sizes.
    pub open spec fn wf(&self) -> bool {
        &&& ascending_by_id(self.by_id())
        &&& ascending_by_rank(self.best())
        &&& self.best().to_multiset() == self.by_id().to_multiset()
        &&& self.best().len() == self.by_id().len()
        &&& self.size_of() == total_size(self.by_id())
    }

    /// Whether the submission numbers tell the order of the submissions: all
    /// lie below the counter, and no two transactions in the pool have the
    /// same. This holds of a pool from the start until the counter wraps.
    pub open spec fn submissions_in_order(&self) -> bool {
        &&& forall|id: TransactionId|
            self@.contains_key(id) ==> (#[trigger] self@[id]).submission_id
                < self.submission_id()
        &&& forall|a: TransactionId, b: TransactionId|
            self@.contains_key(a) && self@.contains_key(b) && a != b
                ==> (#[trigger] self@[a]).submission_id != (#[trigger] self@[b]).submission_id
    }

    /// The number that follows `id`, and 0 after the last one.
    pub open spec fn following(id: u64) -> u64 {
        if id == u64::MAX {
            0
        } else {
            (id + 1) as u64
        }
    }

    /// Hands out the next submission number and moves the counter on.
    fn next_id(&mut self) -> (id: u64)
        ensures
            id == old(self).submission_id(),
            final(self).submission_id() == Self::following(id),
            final(self).by_id() == old(self).by_id(),
            final(self).best() == old(self).best(),
            final(self).size_of() == old(self).size_of(),
    {
        let id: u64 = self.submission_id;
        self.submission_id = self.submission_id.wrapping_add(1);
        id
    }

    /// The place of `id` in `by_id`.
    pub(crate) fn place_by_id(&self, id: &TransactionId) -> (at: usize)
        requires
            ascending_by_id(self.by_id()),
        ensures
            is_place_of(self.by_id(), at as int, *id),
    {
        let mut low: usize = 0;
        let mut high: usize = self.by_id.len();
        while low < high
            invariant
                low <= high <= self.by_id@.len(),
                ascending_by_id(self.by_id@),
                forall|i: int| 0 <= i < low ==> (#[trigger] self.by_id@[i]).id().precedes(*id),
                forall|i: int|
                    high <= i < self.by_id@.len() ==> !(#[trigger] self.by_id@[i]).id().precedes(
                        *id,
                    ),
            decreases high - low,
        {
            let middle: usize = low + (high - low) / 2;
            if self.by_id[middle].transaction_id().is_before(id) {
                proof {
                    assert forall|i: int| 0 <= i < middle + 1 implies (#[trigger] self.by_id@[i])
                        .id().precedes(*id) by {
                        lemma_precedes_is_strict_total_order(
                            self.by_id@[i].id(),
                            self.by_id@[middle as int].id(),
                            *id,
                        );
                    }
                }
                low = middle + 1;
            } else {
                proof {
                    assert forall|i: int| middle <= i < self.by_id@.len() implies !(
                    #[trigger] self.by_id@[i]).id().precedes(*id) by {
                        lemma_precedes_is_strict_total_order(
                            self.by_id@[middle as int].id(),
                            self.by_id@[i].id(),
                            *id,
                        );
                    }
                }
                high = middle;
            }
        }
        low
    }

    /// The place of `entry` in `best`: behind all records that are not above
    /// it, and before the first that is.
    fn place_by_rank(&self, entry: &ParkedPoolTransaction<T>) -> (at: usize)
        requires
            ascending_by_rank(self.best()),
        ensures
            is_rank_place_of(self.best(), at as int, *entry),
    {
        let mut low: usize = 0;
        let mut high: usize = self.best.len();
        while low < high
            invariant
                low <= high <= self.best@.len(),
                ascending_by_rank(self.best@),
                forall|i: int|
                    #![trigger self.best@[i]]
                    0 <= i < low ==> !entry.ranks_below(&self.best@[i]),
                forall|i: int|
                    #![trigger self.best@[i]]
                    high <= i < self.best@.len() ==> entry.ranks_below(&self.best@[i]),
            decreases high - low,
        {
            let middle: usize = low + (high - low) / 2;
            if entry.is_below(&self.best[middle]) {
                proof {
                    assert forall|i: int|
                        #![trigger self.best@[i]]
                        middle <= i < self.best@.len() implies entry.ranks_below(
                        &self.best@[i],
                    ) by {
                        ParkedPoolTransaction::lemma_strict_order(
                            entry,
                            &self.best@[i],
                            &self.best@[middle as int],
                        );
                    }
                }
                high = middle;
            } else {
                proof {
                    assert forall|i: int|
                        #![trigger self.best@[i]]
                        0 <= i < middle + 1 implies !entry.ranks_below(&self.best@[i]) by {
                        ParkedPoolTransaction::lemma_strict_order(
                            entry,
                            &self.best@[middle as int],
                            &self.best@[i],
                        );
                    }
                }
                low = middle + 1;
            }
        }
        low
    }

    /// Where `entry` stands in `best`.
    fn find_in_best(&self, entry: &ParkedPoolTransaction<T>) -> (at: usize)
        requires
            ascending_by_rank(self.best()),
            self.best().contains(*entry),
        ensures
            at < self.best().len(),
            self.best()[at as int].id() == entry.id(),
    {
        let ghost stands = choose|k: int| 0 <= k < self.best@.len() && self.best@[k] == *entry;
        // the first record that is not below `entry`
        let mut low: usize = 0;
        let mut high: usize = self.best.len();
        while low < high
            invariant
                low <= high <= self.best@.len(),
                ascending_by_rank(self.best@),
                forall|i: int|
                    #![trigger self.best@[i]]
                    0 <= i < low ==> self.best@[i].ranks_below(entry),
                forall|i: int|
                    #![trigger self.best@[i]]
                    high <= i < self.best@.len() ==> !self.best@[i].ranks_below(entry),
            decreases high - low,
        {
            let middle: usize = low + (high - low) / 2;
            if self.best[middle].is_below(entry) {
                proof {
                    assert forall|i: int|
                        #![trigger self.best@[i]]
                        0 <= i < middle + 1 implies self.best@[i].ranks_below(entry) by {
                        ParkedPoolTransaction::lemma_strict_order(
                            &self.best@[middle as int],
                            &self.best@[i],
                            entry,
                        );
                    }
                }
                low = middle + 1;
            } else {
                proof {
                    assert forall|i: int|
                        #![trigger self.best@[i]]
                        middle <= i < self.best@.len() implies !self.best@[i].ranks_below(
                        entry,
                    ) by {
                        ParkedPoolTransaction::lemma_strict_order(
                            &self.best@[i],
                            &self.best@[middle as int],
                            entry,
                        );
                    }
                }
                high = middle;
            }
        }
        proof {
            ParkedPoolTransaction::lemma_strict_order(entry, entry, entry);
            assert(!self.best@[stands].ranks_below(entry));
        }
        // among the records that tie with `entry`, the one with its identifier
        let id = entry.transaction_id();
        let mut at: usize = low;
        while at < self.best.len() && self.best[at].transaction_id() != id
            invariant
                at <= stands < self.best@.len(),
                self.best@[stands] == *entry,
                id == entry.id(),
            decreases self.best@.len() - at,
        {
            at = at + 1;
        }
        at
    }

    /// Adds a transaction to the pool, under the next submission number.
    ///
    /// The pool must not hold a transaction with the same identifier, and
    /// the size that the pool reports must stay within `usize`.
    pub fn add_transaction(&mut self, tx: Arc<ValidPoolTransaction<T::Transaction>>)
        requires
            old(self).wf(),
            !old(self)@.contains_key(tx.transaction_id),
            old(self).size_of() + tx.size <= usize::MAX,
        ensures
            final(self).wf(),
            final(self)@ == old(self)@.insert(
                tx.transaction_id,
                ParkedPoolTransaction::submitted(old(self).submission_id(), tx),
            ),
            placed_into(
                old(self).by_id(),
                final(self).by_id(),
                ParkedPoolTransaction::submitted(old(self).submission_id(), tx),
            ),
            ranked_into(
                old(self).best(),
                final(self).best(),
                ParkedPoolTransaction::submitted(old(self).submission_id(), tx),
            ),
            final(self).submission_id() == Self::following(old(self).submission_id()),
            final(self).size_of() == old(self).size_of() + tx.size,
            old(self).submissions_in_order() && old(self).submission_id() < u64::MAX
                ==> final(self).submissions_in_order(),
    {
        let id = *tx.id();
        let submission_id: u64 = self.next_id();
        self.size_of = self.size_of + tx.size();
        let transaction = ParkedPoolTransaction::new(submission_id, tx);
        let at: usize = self.place_by_id(&id);
        let ranked_at: usize = self.place_by_rank(&transaction);
        proof {
            T::lemma_wrap_inner(tx, &transaction.transaction);
            lemma_place(self.by_id@, at as int, id);
            lemma_insert_by_id(self.by_id@, at as int, transaction);
            lemma_insert_by_rank(self.best@, ranked_at as int, transaction);
            vstd::seq_lib::to_multiset_insert(self.by_id@, at as int, transaction);
            vstd::seq_lib::to_multiset_insert(self.best@, ranked_at as int, transaction);
        }
        self.by_id.insert(at, transaction.clone());
        self.best.insert(ranked_at, transaction);
    }

    /// Removes the transaction with the identifier `id` from the pool and
    /// gives it back, or `None` if the pool holds no such transaction.
    pub fn remove_transaction(&mut self, id: &TransactionId) -> (removed: Option<
        Arc<ValidPoolTransaction<T::Transaction>>,
    >)
        requires
            old(self).wf(),
        ensures
            final(self).wf(),
            final(self)@ == old(self)@.remove(*id),
            final(self).submission_id() == old(self).submission_id(),
            old(self).submissions_in_order() ==> final(self).submissions_in_order(),
            match removed {
                Some(tx) => {
                    &&& old(self)@.contains_key(*id)
                    &&& tx == old(self)@[*id].transaction.inner()
                    &&& final(self).by_id() == old(self).by_id().remove(
                        index_of_id(old(self).by_id(), *id),
                    )
                    &&& removed_from(old(self).best(), final(self).best(), *id)
                    &&& final(self).size_of() == old(self).size_of() - tx.size
                },
                None => {
                    &&& !old(self)@.contains_key(*id)
                    &&& final(self).by_id() == old(self).by_id()
                    &&& final(self).best() == old(self).best()
                    &&& final(self).size_of() == old(self).size_of()
                },
            },
    {
        let at: usize = self.place_by_id(id);
        proof {
            lemma_place(self.by_id@, at as int, *id);
        }
        if at < self.by_id.len() && self.by_id[at].transaction_id() == *id {
            proof {
                lemma_by_id_map_index(self.by_id@, at as int);
                lemma_remove_by_id(self.by_id@, at as int);
                vstd::seq_lib::to_multiset_remove(self.by_id@, at as int);
                vstd::seq_lib::to_multiset_contains(self.by_id@, self.by_id@[at as int]);
                vstd::seq_lib::to_multiset_contains(self.best@, self.by_id@[at as int]);
                assert(self.by_id@.contains(self.by_id@[at as int]));
            }
            let ranked_at: usize = self.find_in_best(&self.by_id[at]);
            proof {
                // the record found in `best` is the one that leaves `by_id`
                let found = self.best@[ranked_at as int];
                vstd::seq_lib::to_multiset_contains(self.best@, found);
                vstd::seq_lib::to_multiset_contains(self.by_id@, found);
                assert(self.best@.contains(found));
                let k = choose|k: int| 0 <= k < self.by_id@.len() && self.by_id@[k] == found;
                lemma_by_id_map_index(self.by_id@, k);
                assert(k == at);
                lemma_remove_by_rank(self.best@, ranked_at as int);
                vstd::seq_lib::to_multiset_remove(self.best@, ranked_at as int);
                lemma_total_size_at_least(self.by_id@, at as int);
            }
            let entry = self.by_id.remove(at);
            let _ = self.best.remove(ranked_at);
            self.size_of = self.size_of - entry.handle().size();
            Some(entry.into_handle())
        } else {
            proof {
                assert(by_id_map(self.by_id@) =~= by_id_map(self.by_id@).remove(*id));
            }
            None
        }
    }

    /// The record at the index `i` of `by_id`.
    pub(crate) fn entry(&self, i: usize) -> (entry: &ParkedPoolTransaction<T>)
        requires
            i < self.by_id().len(),
        ensures
            *entry == self.by_id()[i as int],
    {
        &self.by_id[i]
    }

    /// The record with the identifier `id`, if the pool holds one.
    pub(crate) fn get(&self, id: &TransactionId) -> (found: Option<&ParkedPoolTransaction<T>>)
        requires
            self.wf(),
        ensures
            match found {
                Some(entry) => self@.contains_key(*id) && *entry == self@[*id],
                None => !self@.contains_key(*id),
            },
    {
        let at: usize = self.place_by_id(id);
        proof {
            lemma_place(self.by_id@, at as int, *id);
        }
        if at < self.by_id.len() && self.by_id[at].transaction_id() == *id {
            proof {
                lemma_by_id_map_index(self.by_id@, at as int);
            }
            Some(&self.by_id[at])
        } else {
            None
        }
    }

    /// All transactions in the pool, ascending by identifier.
    pub fn all(&self) -> (txs: Vec<Arc<ValidPoolTransaction<T::Transaction>>>)
        ensures
            txs@ == handles_of(self.by_id()),
    {
        let mut txs: Vec<Arc<ValidPoolTransaction<T::Transaction>>> = Vec::new();
        let mut next: usize = 0;
        while next < self.by_id.len()
            invariant
                next <= self.by_id@.len(),
                txs@ == handles_of(self.by_id@.take(next as int)),
            decreases self.by_id@.len() - next,
        {
            proof {
                assert(handles_of(self.by_id@.take(next as int)).push(
                    self.by_id@[next as int].transaction.inner(),
                ) == handles_of(self.by_id@.take(next + 1)));
            }
            txs.push(share(self.by_id[next].handle()));
            next = next + 1;
        }
        proof {
            assert(self.by_id@.take(next as int) == self.by_id@);
        }
        txs
    }

    /// The size that the pool reports: the sum of the sizes of its
    /// transactions.
    pub fn size(&self) -> (size: usize)
        ensures
            size == self.size_of(),
    {
        self.size_of
    }

    /// The number of transactions in the pool.
    pub fn len(&self) -> (len: usize)
        ensures
            len == self.by_id().len(),
    {
        self.by_id.len()
    }

    /// Whether the pool holds no transaction.
    pub fn is_empty(&self) -> (empty: bool)
        ensures
            empty == (self.by_id().len() == 0),
    {
        self.by_id.len() == 0
    }

    /// Whether the pool holds a transaction with the identifier `id`.
    pub fn contains(&self, id: &TransactionId) -> (held: bool)
        requires
            self.wf(),
        ensures
            held == self@.contains_key(*id),
    {
        let at: usize = self.place_by_id(id);
        proof {
            lemma_place(self.by_id@, at as int, *id);
        }
        at < self.by_id.len() && self.by_id[at].transaction_id() == *id
    }

    /// Whether both orders hold the same number of transactions.
    pub fn assert_invariants(&self) -> (same: bool)
        ensures
            same == (self.by_id().len() == self.best().len()),
            self.wf() ==> same,
    {
        self.by_id.len() == self.best.len()
    }
}

impl<T: ParkedOrd> Default for ParkedPool<T> {
    /// The empty pool, with the submission counter at 0.
    fn default() -> (pool: Self)
        ensures
            pool.wf(),
            pool.by_id() == Seq::<ParkedPoolTransaction<T>>::empty(),
            pool.best() == Seq::<ParkedPoolTransaction<T>>::empty(),
            pool.submission_id() == 0,
            pool.size_of() == 0,
            pool.submissions_in_order(),
    {
        ParkedPool { submission_id: 0, by_id: Vec::new(), best: Vec::new(), size_of: 0 }
    }
}

/// A copy of every record, in the same order.
fn duplicate_all<T: ParkedOrd>(entries: &Vec<ParkedPoolTransaction<T>>) -> (copies: Vec<
    ParkedPoolTransaction<T>,
>)
    ensures
        copies@ == entries@,
{
    let mut copies: Vec<ParkedPoolTransaction<T>> = Vec::new();
    let mut next: usize = 0;
    while next < entries.len()
        invariant
            next <= entries@.len(),
            copies@ == entries@.take(next as int),
        decreases entries@.len() - next,
    {
        proof {
            assert(entries@.take(next as int).push(entries@[next as int]) == entries@.take(
                next + 1,
            ));
        }
        copies.push(entries[next].clone());
        next = next + 1;
    }
    proof {
        assert(entries@.take(next as int) == entries@);
    }
    copies
}

impl<T: ParkedOrd> Clone for ParkedPool<T> {
    /// A second pool that holds the same shared transactions, under the
    /// same submission numbers.
    fn clone(&self) -> (copy: Self)
        ensures
            copy.by_id() == self.by_id(),
            copy.best() == self.best(),
            copy.submission_id() == self.submission_id(),
            copy.size_of() == self.size_of(),
            self.wf() ==> copy.wf(),
    {
        ParkedPool {
            submission_id: self.submission_id,
            by_id: duplicate_all(&self.by_id),
            best: duplicate_all(&self.best),
            size_of: self.size_of,
        }
    }
}

/// The sum of the sizes is at least the size of each record.
pub proof fn lemma_total_size_at_least<T: ParkedOrd>(
    entries: Seq<ParkedPoolTransaction<T>>,
    at: int,
)
    requires
        0 <= at < entries.len(),
    ensures
        total_size(entries) >= entries[at].size(),
    decreases entries.len(),
{
    if at < entries.len() - 1 {
        lemma_total_size_at_least(entries.drop_last(), at);
    }
}

} // verus!
