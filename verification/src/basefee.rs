//! The sweep of a pool that is ranked by fee, when the base fee has changed.
use std::sync::Arc;
use vstd::prelude::*;

use crate::entry::{
    ParkedPoolTransaction, ascending_by_id, by_id_map, handles_of, has_id, ids_of, index_of_id,
    lemma_by_id_map_index, lemma_senders_rise,
};
use crate::identifier::TransactionId;
use crate::ordering::{BasefeeOrd, ParkedOrd};
use crate::parked::ParkedPool;
use crate::removal::{
    distinct_ids, lemma_ascending_is_distinct, lemma_permutation_is_distinct, lemma_without_none,
    lemma_without_one_more, without,
};
use crate::transaction::{ValidPoolTransaction, share};

verus! {

/// Whether the transaction at the index `at` satisfies the base fee: it
/// offers at least `basefee`, and so do all transactions of the same sender
/// that stand before it. A transaction behind one that is still parked is
/// parked too, whatever it offers itself.
pub open spec fn satisfies_base_fee<T: ParkedOrd>(
    entries: Seq<ParkedPoolTransaction<T>>,
    at: int,
    basefee: u64,
) -> bool {
    forall|i: int|
        0 <= i <= at && (#[trigger] entries[i]).sender() == entries[at].sender()
            ==> entries[i].max_fee_per_gas() >= basefee
}

/// Those of the first `count` records that satisfy the base fee, in the
/// order of the records.
pub open spec fn satisfying_among<T: ParkedOrd>(
    entries: Seq<ParkedPoolTransaction<T>>,
    count: nat,
    basefee: u64,
) -> Seq<ParkedPoolTransaction<T>>
    decreases count,
{
    if count == 0 {
        Seq::empty()
    } else if satisfies_base_fee(entries, count - 1, basefee) {
        satisfying_among(entries, (count - 1) as nat, basefee).push(entries[count - 1])
    } else {
        satisfying_among(entries, (count - 1) as nat, basefee)
    }
}

/// The records that satisfy the base fee, in the order of the records.
pub open spec fn satisfying_base_fee<T: ParkedOrd>(
    entries: Seq<ParkedPoolTransaction<T>>,
    basefee: u64,
) -> Seq<ParkedPoolTransaction<T>> {
    satisfying_among(entries, entries.len(), basefee)
}

/// Whether the record stands among the first `count` and satisfies the base
/// fee there.
pub open spec fn satisfies_before<T: ParkedOrd>(
    entries: Seq<ParkedPoolTransaction<T>>,
    count: nat,
    basefee: u64,
    entry: ParkedPoolTransaction<T>,
) -> bool {
    exists|i: int|
        0 <= i < count && #[trigger] entries[i] == entry && satisfies_base_fee(
            entries,
            i,
            basefee,
        )
}

/// What `satisfying_among` gives: the records among the first `count` that
/// satisfy the base fee, and no others, with rising identifiers.
pub proof fn lemma_satisfying_among<T: ParkedOrd>(
    entries: Seq<ParkedPoolTransaction<T>>,
    count: nat,
    basefee: u64,
)
    requires
        ascending_by_id(entries),
        count <= entries.len(),
    ensures
        satisfying_among(entries, count, basefee).len() <= count,
        forall|k: int|
            0 <= k < satisfying_among(entries, count, basefee).len() ==> satisfies_before(
                entries,
                count,
                basefee,
                #[trigger] satisfying_among(entries, count, basefee)[k],
            ),
        forall|i: int|
            0 <= i < count && satisfies_base_fee(entries, i, basefee) ==> satisfying_among(
                entries,
                count,
                basefee,
            ).contains(#[trigger] entries[i]),
        ascending_by_id(satisfying_among(entries, count, basefee)),
    decreases count,
{
    if count > 0 {
        let fewer = (count - 1) as nat;
        lemma_satisfying_among(entries, fewer, basefee);
        let before = satisfying_among(entries, fewer, basefee);
        let found = satisfying_among(entries, count, basefee);
        assert forall|k: int| 0 <= k < found.len() implies satisfies_before(
            entries,
            count,
            basefee,
            #[trigger] found[k],
        ) by {
            if k < before.len() {
                assert(found[k] == before[k]);
                assert(satisfies_before(entries, fewer, basefee, before[k]));
                let i = choose|i: int|
                    0 <= i < fewer && #[trigger] entries[i] == before[k] && satisfies_base_fee(
                        entries,
                        i,
                        basefee,
                    );
                assert(entries[i] == found[k]);
            } else {
                assert(entries[count - 1] == found[k]);
            }
        }
        assert forall|i: int|
            0 <= i < count && satisfies_base_fee(entries, i, basefee) implies found.contains(
            #[trigger] entries[i],
        ) by {
            if i < fewer {
                assert(before.contains(entries[i]));
                let k = choose|k: int| 0 <= k < before.len() && before[k] == entries[i];
                assert(found[k] == entries[i]);
            } else {
                assert(found[found.len() - 1] == entries[i]);
            }
        }
        assert forall|j: int, k: int|
            #![trigger found[j], found[k]]
            0 <= j < k < found.len() implies found[j].id().precedes(found[k].id()) by {
            if k < before.len() {
                assert(before[j].id().precedes(before[k].id()));
            } else {
                assert(satisfies_before(entries, fewer, basefee, before[j]));
                let i = choose|i: int|
                    0 <= i < fewer && #[trigger] entries[i] == before[j] && satisfies_base_fee(
                        entries,
                        i,
                        basefee,
                    );
                assert(entries[i].id().precedes(entries[count - 1].id()));
            }
        }
    }
}

/// The records that satisfy the base fee are records of the pool, each
/// under its own identifier, and no identifier occurs twice among them.
pub proof fn lemma_satisfying_base_fee<T: ParkedOrd>(
    entries: Seq<ParkedPoolTransaction<T>>,
    basefee: u64,
)
    requires
        ascending_by_id(entries),
    ensures
        satisfying_base_fee(entries, basefee).len() <= entries.len(),
        ascending_by_id(satisfying_base_fee(entries, basefee)),
        forall|k: int|
            0 <= k < satisfying_base_fee(entries, basefee).len() ==> {
                &&& by_id_map(entries).contains_key(
                    (#[trigger] satisfying_base_fee(entries, basefee)[k]).id(),
                )
                &&& by_id_map(entries)[satisfying_base_fee(entries, basefee)[k].id()]
                    == satisfying_base_fee(entries, basefee)[k]
            },
        forall|i: int|
            0 <= i < entries.len() ==> (satisfies_base_fee(entries, i, basefee)
                <==> satisfying_base_fee(entries, basefee).contains(#[trigger] entries[i])),
{
    let found = satisfying_base_fee(entries, basefee);
    lemma_satisfying_among(entries, entries.len(), basefee);
    assert forall|k: int| 0 <= k < found.len() implies {
        &&& by_id_map(entries).contains_key((#[trigger] found[k]).id())
        &&& by_id_map(entries)[found[k].id()] == found[k]
    } by {
        assert(satisfies_before(entries, entries.len(), basefee, found[k]));
        let i = choose|i: int|
            0 <= i < entries.len() && #[trigger] entries[i] == found[k] && satisfies_base_fee(
                entries,
                i,
                basefee,
            );
        lemma_by_id_map_index(entries, i);
    }
    assert forall|i: int| 0 <= i < entries.len() implies (satisfies_base_fee(entries, i, basefee)
        <==> found.contains(#[trigger] entries[i])) by {
        if found.contains(entries[i]) {
            let k = choose|k: int| 0 <= k < found.len() && found[k] == entries[i];
            assert(satisfies_before(entries, entries.len(), basefee, found[k]));
            let j = choose|j: int|
                0 <= j < entries.len() && #[trigger] entries[j] == found[k] && satisfies_base_fee(
                    entries,
                    j,
                    basefee,
                );
            lemma_by_id_map_index(entries, i);
            lemma_by_id_map_index(entries, j);
        }
    }
}

impl<T> ParkedPool<BasefeeOrd<T>> {
    /// The identifiers of the transactions that satisfy the base fee, in
    /// ascending order.
    pub fn satisfy_base_fee_ids(&self, basefee: u64) -> (ids: Vec<TransactionId>)
        requires
            self.wf(),
        ensures
            ids@ == ids_of(satisfying_base_fee(self.by_id(), basefee)),
    {
        let mut ids: Vec<TransactionId> = Vec::new();
        let mut at: usize = 0;
        let ghost entries = self.by_id();
        while at < self.len()
            invariant
                entries == self.by_id(),
                ascending_by_id(entries),
                at <= entries.len(),
                ids@ == ids_of(satisfying_among(entries, at as nat, basefee)),
                at < entries.len() ==> forall|i: int|
                    0 <= i < at && (#[trigger] entries[i]).sender() == entries[at as int].sender()
                        ==> entries[i].max_fee_per_gas() >= basefee,
            decreases entries.len() - at,
        {
            let entry = self.entry(at);
            if entry.handle().max_fee_per_gas() < basefee as u128 {
                // still parked: so are the later transactions of the sender
                let sender = entry.handle().sender_id();
                let ghost parked = at as int;
                at = at + 1;
                while at < self.len() && self.entry(at).handle().sender_id() == sender
                    invariant
                        entries == self.by_id(),
                        ascending_by_id(entries),
                        0 <= parked < at <= entries.len(),
                        entries[parked].sender() == sender,
                        entries[parked].max_fee_per_gas() < basefee,
                        entries[at - 1].sender() == sender,
                        ids@ == ids_of(satisfying_among(entries, at as nat, basefee)),
                    decreases entries.len() - at,
                {
                    proof {
                        assert(entries[parked].sender() == entries[at as int].sender());
                        assert(!satisfies_base_fee(entries, at as int, basefee));
                    }
                    at = at + 1;
                }
                proof {
                    if at < entries.len() {
                        assert forall|i: int|
                            0 <= i < at && (#[trigger] entries[i]).sender()
                                == entries[at as int].sender()
                            implies entries[i].max_fee_per_gas() >= basefee by {
                            lemma_senders_rise(entries, i, at - 1);
                            lemma_senders_rise(entries, at - 1, at as int);
                        }
                    }
                }
            } else {
                proof {
                    assert(satisfies_base_fee(entries, at as int, basefee));
                    assert(ids_of(satisfying_among(entries, at as nat, basefee)).push(
                        entries[at as int].id(),
                    ) == ids_of(satisfying_among(entries, (at + 1) as nat, basefee)));
                }
                ids.push(entry.transaction_id());
                at = at + 1;
                proof {
                    if at < entries.len() {
                        assert forall|i: int|
                            0 <= i < at && (#[trigger] entries[i]).sender()
                                == entries[at as int].sender()
                            implies entries[i].max_fee_per_gas() >= basefee by {
                            if i < at - 1 {
                                lemma_senders_rise(entries, i, at - 1);
                                lemma_senders_rise(entries, at - 1, at as int);
                            }
                        }
                    }
                }
            }
        }
        ids
    }

    /// The transactions that satisfy the base fee, ascending by identifier.
    /// They stay in the pool.
    pub fn satisfy_base_fee_transactions(&self, basefee: u64) -> (txs: Vec<
        Arc<ValidPoolTransaction<T>>,
    >)
        requires
            self.wf(),
        ensures
            txs@ == handles_of(satisfying_base_fee(self.by_id(), basefee)),
    {
        let ids = self.satisfy_base_fee_ids(basefee);
        let mut txs: Vec<Arc<ValidPoolTransaction<T>>> = Vec::new();
        let ghost found = satisfying_base_fee(self.by_id(), basefee);
        proof {
            lemma_satisfying_base_fee(self.by_id(), basefee);
        }
        let mut next: usize = 0;
        while next < ids.len()
            invariant
                self.wf(),
                found == satisfying_base_fee(self.by_id(), basefee),
                ids@ == ids_of(found),
                next <= ids@.len(),
                txs@ == handles_of(found.take(next as int)),
                forall|k: int|
                    0 <= k < found.len() ==> {
                        &&& self@.contains_key((#[trigger] found[k]).id())
                        &&& self@[found[k].id()] == found[k]
                    },
            decreases ids@.len() - next,
        {
            proof {
                assert(ids@[next as int] == found[next as int].id());
                assert(handles_of(found.take(next as int)).push(
                    found[next as int].transaction.inner(),
                ) == handles_of(found.take(next + 1)));
            }
            match self.get(&ids[next]) {
                Some(entry) => {
                    txs.push(share(entry.handle()));
                },
                None => {},
            }
            next = next + 1;
        }
        proof {
            assert(found.take(next as int) == found);
        }
        txs
    }

    /// Removes the transactions that satisfy the base fee, and gives them
    /// back, ascending by identifier: they can move on to the pending pool.
    /// The transactions that stay are those that offer less than `basefee`,
    /// and those behind them.
    pub fn enforce_basefee(&mut self, basefee: u64) -> (removed: Vec<Arc<ValidPoolTransaction<T>>>)
        requires
            old(self).wf(),
        ensures
            final(self).wf(),
            final(self).submission_id() == old(self).submission_id(),
            old(self).submissions_in_order() ==> final(self).submissions_in_order(),
            removed@ == handles_of(satisfying_base_fee(old(self).by_id(), basefee)),
            final(self)@ == old(self)@.remove_keys(
                ids_of(satisfying_base_fee(old(self).by_id(), basefee)).to_set(),
            ),
            final(self).by_id() == without(
                old(self).by_id(),
                ids_of(satisfying_base_fee(old(self).by_id(), basefee)).to_set(),
            ),
            final(self).best() == without(
                old(self).best(),
                ids_of(satisfying_base_fee(old(self).by_id(), basefee)).to_set(),
            ),
            final(self).by_id().len() == old(self).by_id().len() - removed@.len(),
            removed@.len() == 0 ==> {
                &&& final(self).by_id() == old(self).by_id()
                &&& final(self).best() == old(self).best()
                &&& final(self).size_of() == old(self).size_of()
            },
    {
        let to_remove = self.satisfy_base_fee_ids(basefee);
        let mut removed: Vec<Arc<ValidPoolTransaction<T>>> = Vec::new();
        let ghost found = satisfying_base_fee(self.by_id(), basefee);
        proof {
            lemma_satisfying_base_fee(self.by_id(), basefee);
            let none = to_remove@.take(0).to_set();
            assert(self@ =~= self@.remove_keys(none));
            lemma_without_none(self.by_id(), none);
            lemma_without_none(self.best(), none);
            lemma_ascending_is_distinct(self.by_id());
            lemma_permutation_is_distinct(self.by_id(), self.best());
        }
        let mut next: usize = 0;
        while next < to_remove.len()
            invariant
                self.wf(),
                self.submission_id() == old(self).submission_id(),
                to_remove@ == ids_of(found),
                ascending_by_id(found),
                next <= to_remove@.len(),
                removed@ == handles_of(found.take(next as int)),
                self@ == old(self)@.remove_keys(to_remove@.take(next as int).to_set()),
                distinct_ids(old(self).by_id()),
                distinct_ids(old(self).best()),
                self.by_id() == without(old(self).by_id(), to_remove@.take(next as int).to_set()),
                self.best() == without(old(self).best(), to_remove@.take(next as int).to_set()),
                self.by_id().len() == old(self).by_id().len() - next,
                next == 0 ==> {
                    &&& self.by_id() == old(self).by_id()
                    &&& self.best() == old(self).best()
                    &&& self.size_of() == old(self).size_of()
                },
                forall|k: int|
                    0 <= k < found.len() ==> {
                        &&& old(self)@.contains_key((#[trigger] found[k]).id())
                        &&& old(self)@[found[k].id()] == found[k]
                    },
            decreases to_remove@.len() - next,
        {
            let id = to_remove[next];
            let ghost before = *self;
            proof {
                let gone = to_remove@.take(next as int);
                assert(id == found[next as int].id());
                assert(!gone.to_set().contains(id)) by {
                    if gone.contains(id) {
                        let j = choose|j: int| 0 <= j < gone.len() && gone[j] == id;
                        assert(found[j].id().precedes(found[next as int].id()));
                    }
                }
                assert(self@.contains_key(id));
                assert(has_id(self.by_id(), id));
                let at = index_of_id(self.by_id(), id);
                assert(0 <= at < self.by_id().len());
                assert(self.by_id()[at].id() == id);
                lemma_without_one_more(old(self).by_id(), gone.to_set(), at);
                assert(to_remove@.take(next + 1) == gone.push(id));
                gone.lemma_push_to_set_commute(id);
                assert(handles_of(found.take(next as int)).push(
                    found[next as int].transaction.inner(),
                ) == handles_of(found.take(next + 1)));
            }
            match self.remove_transaction(&id) {
                Some(tx) => {
                    removed.push(tx);
                },
                None => {},
            }
            proof {
                let ranked_at = choose|ranked_at: int|
                    0 <= ranked_at < before.best().len() && before.best()[ranked_at].id() == id
                        && self.best() == #[trigger] before.best().remove(ranked_at);
                lemma_without_one_more(
                    old(self).best(),
                    to_remove@.take(next as int).to_set(),
                    ranked_at,
                );
                assert(self@ =~= old(self)@.remove_keys(to_remove@.take(next + 1).to_set()));
            }
            next = next + 1;
        }
        proof {
            assert(found.take(next as int) == found);
            assert(to_remove@.take(next as int) == to_remove@);
        }
        removed
    }
}

} // verus!
