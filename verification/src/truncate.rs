//! Eviction: bringing the pool down to a limit.
use std::sync::Arc;
use vstd::prelude::*;

use crate::by_sender::{ids_of_sender, lemma_ids_of_run, lemma_ids_of_sender, lemma_run_of_sender};
use crate::entry::{
    ParkedPoolTransaction, ascending_by_id, has_id, index_of_id, lemma_by_id_map_index,
};
use crate::identifier::{SenderId, TransactionId};
use crate::ordering::ParkedOrd;
use crate::parked::ParkedPool;
use crate::removal::{
    distinct_ids, lemma_ascending_is_distinct, lemma_permutation_is_distinct, lemma_without_none,
    lemma_without_one_more, lemma_without_twice, without,
};
use crate::senders::{SubmissionSenderId, distinct_senders, has_sender, senders_by_submission_id};
use crate::transaction::{SubPoolLimit, ValidPoolTransaction};

verus! {

/// The identifiers that leave the pool when `excess` transactions are to
/// go, in the order in which they leave.
///
/// The senders give up their transactions in turn, the last of `senders`
/// first. A sender with no more transactions than are still to go loses them
/// all, lowest nonce first. The first sender with more loses only as many as
/// are still to go, those with the highest nonces, and with that the
/// eviction ends.
pub open spec fn evicted_ids<T: ParkedOrd>(
    entries: Seq<ParkedPoolTransaction<T>>,
    senders: Seq<SubmissionSenderId>,
    excess: nat,
) -> Seq<TransactionId>
    decreases senders.len(),
{
    if excess == 0 || senders.len() == 0 {
        Seq::empty()
    } else {
        let ids = ids_of_sender(entries, senders.last().sender_id);
        if ids.len() <= excess {
            ids + evicted_ids(entries, senders.drop_last(), (excess - ids.len()) as nat)
        } else {
            ids.subrange(ids.len() - excess, ids.len() as int)
        }
    }
}

/// The identifiers that leave a pool that may hold `max_txs` transactions:
/// none if it holds no more, and else as many as it holds too many. The
/// sender that has gone longest without a submission is the first to give up
/// transactions.
pub open spec fn truncated_ids<T: ParkedOrd>(
    entries: Seq<ParkedPoolTransaction<T>>,
    max_txs: usize,
) -> Seq<TransactionId> {
    if entries.len() <= max_txs {
        Seq::empty()
    } else {
        evicted_ids(
            entries,
            senders_by_submission_id(entries),
            (entries.len() - max_txs) as nat,
        )
    }
}

/// Taking out a record of another sender leaves the identifiers of a sender
/// as they are.
pub proof fn lemma_ids_of_sender_remove<T: ParkedOrd>(
    entries: Seq<ParkedPoolTransaction<T>>,
    at: int,
    sender: SenderId,
)
    requires
        0 <= at < entries.len(),
        entries[at].sender() != sender,
    ensures
        ids_of_sender(entries.remove(at), sender) == ids_of_sender(entries, sender),
    decreases entries.len(),
{
    let after = entries.remove(at);
    if at == entries.len() - 1 {
        assert(after == entries.drop_last());
    } else {
        assert(after.drop_last() == entries.drop_last().remove(at));
        assert(after.last() == entries.last());
        lemma_ids_of_sender_remove(entries.drop_last(), at, sender);
    }
}

impl<T: ParkedOrd> ParkedPool<T> {
    /// Removes the transactions with the identifiers `ids[from..]`, all of
    /// `sender`, in that order, and appends them to `removed`.
    fn remove_each(
        &mut self,
        ids: &Vec<TransactionId>,
        from: usize,
        sender: SenderId,
        removed: &mut Vec<Arc<ValidPoolTransaction<T::Transaction>>>,
    )
        requires
            old(self).wf(),
            from <= ids@.len(),
            forall|k: int|
                from <= k < ids@.len() ==> old(self)@.contains_key(#[trigger] ids@[k])
                    && ids@[k].sender == sender,
            forall|j: int, k: int|
                #![trigger ids@[j], ids@[k]]
                from <= j < k < ids@.len() ==> ids@[j] != ids@[k],
        ensures
            final(self).wf(),
            final(self).submission_id() == old(self).submission_id(),
            final(self)@ == old(self)@.remove_keys(
                ids@.subrange(from as int, ids@.len() as int).to_set(),
            ),
            final(self).by_id() == without(
                old(self).by_id(),
                ids@.subrange(from as int, ids@.len() as int).to_set(),
            ),
            final(self).best() == without(
                old(self).best(),
                ids@.subrange(from as int, ids@.len() as int).to_set(),
            ),
            final(self).by_id().len() == old(self).by_id().len() - (ids@.len() - from),
            final(removed)@.len() == old(removed)@.len() + (ids@.len() - from),
            forall|k: int|
                0 <= k < old(removed)@.len() ==> #[trigger] final(removed)@[k] == old(removed)@[k],
            forall|k: int|
                from <= k < ids@.len() ==> #[trigger] final(removed)@[old(removed)@.len() + k
                    - from] == old(self)@[ids@[k]].transaction.inner(),
            forall|other: SenderId|
                other != sender ==> #[trigger] ids_of_sender(final(self).by_id(), other)
                    == ids_of_sender(old(self).by_id(), other),
    {
        let mut next: usize = from;
        proof {
            let none = ids@.subrange(from as int, next as int).to_set();
            lemma_without_none(self.by_id(), none);
            lemma_without_none(self.best(), none);
            lemma_ascending_is_distinct(self.by_id());
            lemma_permutation_is_distinct(self.by_id(), self.best());
        }
        while next < ids.len()
            invariant
                from <= next <= ids@.len(),
                self.wf(),
                self.submission_id() == old(self).submission_id(),
                self@ == old(self)@.remove_keys(ids@.subrange(from as int, next as int).to_set()),
                distinct_ids(old(self).by_id()),
                distinct_ids(old(self).best()),
                self.by_id() == without(
                    old(self).by_id(),
                    ids@.subrange(from as int, next as int).to_set(),
                ),
                self.best() == without(
                    old(self).best(),
                    ids@.subrange(from as int, next as int).to_set(),
                ),
                self.by_id().len() == old(self).by_id().len() - (next - from),
                removed@.len() == old(removed)@.len() + (next - from),
                forall|k: int|
                    0 <= k < old(removed)@.len() ==> #[trigger] removed@[k] == old(removed)@[k],
                forall|k: int|
                    from <= k < next ==> #[trigger] removed@[old(removed)@.len() + k - from] == old(
                        self,
                    )@[ids@[k]].transaction.inner(),
                forall|other: SenderId|
                    other != sender ==> #[trigger] ids_of_sender(self.by_id(), other)
                        == ids_of_sender(old(self).by_id(), other),
                forall|k: int|
                    from <= k < ids@.len() ==> old(self)@.contains_key(#[trigger] ids@[k])
                        && ids@[k].sender == sender,
                forall|j: int, k: int|
                    #![trigger ids@[j], ids@[k]]
                    from <= j < k < ids@.len() ==> ids@[j] != ids@[k],
            decreases ids@.len() - next,
        {
            let id = ids[next];
            let ghost before = *self;
            let ghost gone = ids@.subrange(from as int, next as int);
            proof {
                assert(!gone.to_set().contains(id)) by {
                    if gone.contains(id) {
                        let j = choose|j: int| 0 <= j < gone.len() && gone[j] == id;
                        assert(ids@[from + j] == id);
                    }
                }
                assert(self@.contains_key(id));
                let at = index_of_id(self.by_id(), id);
                assert(has_id(self.by_id(), id));
                assert(self.by_id()[at].id() == id);
                assert forall|other: SenderId| other != sender implies #[trigger] ids_of_sender(
                    self.by_id().remove(at),
                    other,
                ) == ids_of_sender(self.by_id(), other) by {
                    lemma_ids_of_sender_remove(self.by_id(), at, other);
                }
                lemma_without_one_more(old(self).by_id(), gone.to_set(), at);
            }
            match self.remove_transaction(&id) {
                Some(tx) => {
                    removed.push(tx);
                },
                None => {},
            }
            proof {
                let ranked_at = choose|ranked_at: int|
                    0 <= ranked_at < before.best().len() && before.best()[ranked_at].id() == id
                        && self.best() == #[trigger] before.best().remove(ranked_at);
                lemma_without_one_more(old(self).best(), gone.to_set(), ranked_at);
                let wider = ids@.subrange(from as int, next + 1);
                assert(wider == gone.push(id));
                gone.lemma_push_to_set_commute(id);
                assert(self@ =~= old(self)@.remove_keys(wider.to_set()));
            }
            next = next + 1;
        }
    }

    /// Removes transactions until the pool holds no more than
    /// `limit.max_txs`, and gives back those that were removed, in the
    /// order in which they left. `limit.max_size` is not looked at.
    ///
    /// The senders give up their transactions in turn: first the sender
    /// whose last submission is the oldest, then the next oldest, and so on.
    /// A sender loses all its transactions, unless fewer are still to go:
    /// then it loses those with the highest nonces, and keeps the others.
    pub fn truncate_pool(&mut self, limit: SubPoolLimit) -> (removed: Vec<
        Arc<ValidPoolTransaction<T::Transaction>>,
    >)
        requires
            old(self).wf(),
        ensures
            final(self).wf(),
            final(self).submission_id() == old(self).submission_id(),
            old(self).submissions_in_order() ==> final(self).submissions_in_order(),
            final(self)@ == old(self)@.remove_keys(
                truncated_ids(old(self).by_id(), limit.max_txs).to_set(),
            ),
            removed@.len() == truncated_ids(old(self).by_id(), limit.max_txs).len(),
            forall|k: int|
                0 <= k < removed@.len() ==> old(self)@.contains_key(
                    #[trigger] truncated_ids(old(self).by_id(), limit.max_txs)[k],
                ),
            forall|k: int|
                0 <= k < removed@.len() ==> #[trigger] removed@[k] == old(self)@[truncated_ids(
                    old(self).by_id(),
                    limit.max_txs,
                )[k]].transaction.inner(),
            final(self).by_id() == without(
                old(self).by_id(),
                truncated_ids(old(self).by_id(), limit.max_txs).to_set(),
            ),
            final(self).best() == without(
                old(self).best(),
                truncated_ids(old(self).by_id(), limit.max_txs).to_set(),
            ),
            old(self).by_id().len() <= limit.max_txs ==> {
                &&& final(self).by_id() == old(self).by_id()
                &&& final(self).best() == old(self).best()
                &&& final(self).size_of() == old(self).size_of()
            },
            old(self).by_id().len() > limit.max_txs ==> {
                &&& final(self).by_id().len() == limit.max_txs
                &&& removed@.len() == old(self).by_id().len() - limit.max_txs
            },
    {
        let mut removed: Vec<Arc<ValidPoolTransaction<T::Transaction>>> = Vec::new();
        if self.len() <= limit.max_txs {
            proof {
                let none = Seq::<TransactionId>::empty().to_set();
                assert(self@ =~= self@.remove_keys(none));
                lemma_without_none(self.by_id(), none);
                lemma_without_none(self.best(), none);
            }
            return removed;
        }
        let mut sender_ids = self.get_senders_by_submission_id();
        let mut drop: usize = self.len() - limit.max_txs;
        let ghost before = *self;
        let ghost senders = sender_ids@;
        let ghost excess = drop as nat;
        let ghost mut gone: Seq<TransactionId> = Seq::empty();
        proof {
            assert(self@ =~= before@.remove_keys(gone.to_set()));
            assert(gone + evicted_ids(before.by_id(), senders, excess) == evicted_ids(
                before.by_id(),
                senders,
                excess,
            ));
            lemma_without_none(self.by_id(), gone.to_set());
            lemma_without_none(self.best(), gone.to_set());
        }
        while drop > 0 && sender_ids.len() > 0
            invariant
                self.wf(),
                before.wf(),
                self.submission_id() == before.submission_id(),
                self@ == before@.remove_keys(gone.to_set()),
                self.by_id() == without(before.by_id(), gone.to_set()),
                self.best() == without(before.best(), gone.to_set()),
                gone + evicted_ids(before.by_id(), sender_ids@, drop as nat) == evicted_ids(
                    before.by_id(),
                    senders,
                    excess,
                ),
                removed@.len() == gone.len(),
                gone.len() + drop == excess,
                forall|k: int| 0 <= k < gone.len() ==> before@.contains_key(#[trigger] gone[k]),
                forall|k: int|
                    0 <= k < removed@.len() ==> #[trigger] removed@[k]
                        == before@[gone[k]].transaction.inner(),
                distinct_senders(sender_ids@),
                forall|k: int|
                    0 <= k < sender_ids@.len() ==> ids_of_sender(
                        self.by_id(),
                        (#[trigger] sender_ids@[k]).sender_id,
                    ) == ids_of_sender(before.by_id(), sender_ids@[k].sender_id),
                self.by_id().len() == limit.max_txs + drop,
                drop > 0 ==> forall|i: int|
                    0 <= i < self.by_id().len() ==> has_sender(
                        sender_ids@,
                        (#[trigger] self.by_id()[i]).sender(),
                    ),
            decreases sender_ids@.len(),
        {
            let ghost current = *self;
            let ghost listed = sender_ids@;
            let ghost taken = removed@;
            let record = sender_ids.pop().unwrap();
            let list = self.get_txs_by_sender(record.sender_id);
            let from: usize = if list.len() <= drop {
                0
            } else {
                list.len() - drop
            };
            let ghost leaving = list@.subrange(from as int, list@.len() as int);
            proof {
                assert(listed.last() == record);
                assert(sender_ids@ == listed.drop_last());
                assert(list@ == ids_of_sender(before.by_id(), record.sender_id)) by {
                    assert(listed[listed.len() - 1].sender_id == record.sender_id);
                }
                if from == 0 {
                    assert(leaving == list@);
                }
                assert((gone + leaving) + evicted_ids(
                    before.by_id(),
                    sender_ids@,
                    (drop - leaving.len()) as nat,
                ) == gone + evicted_ids(before.by_id(), listed, drop as nat)) by {
                    let rest = evicted_ids(
                        before.by_id(),
                        sender_ids@,
                        (drop - leaving.len()) as nat,
                    );
                    if from == 0 {
                        assert((gone + leaving) + rest == gone + (leaving + rest));
                    } else {
                        assert(rest == Seq::<TransactionId>::empty());
                        assert((gone + leaving) + rest == gone + leaving);
                    }
                }
            }
            self.remove_each(&list, from, record.sender_id, &mut removed);
            drop = drop - (list.len() - from);
            proof {
                let wider = gone + leaving;
                vstd::seq_lib::seq_to_set_distributes_over_add(gone, leaving);
                assert(self@ =~= before@.remove_keys(wider.to_set()));
                lemma_without_twice(before.by_id(), gone.to_set(), leaving.to_set());
                lemma_without_twice(before.best(), gone.to_set(), leaving.to_set());
                assert forall|k: int| 0 <= k < wider.len() implies before@.contains_key(
                    #[trigger] wider[k],
                ) by {
                    if k >= gone.len() {
                        assert(wider[k] == list@[from + (k - gone.len())]);
                        assert(current@.contains_key(list@[from + (k - gone.len())]));
                    } else {
                        assert(wider[k] == gone[k]);
                    }
                }
                assert forall|k: int| 0 <= k < removed@.len() implies #[trigger] removed@[k]
                    == before@[wider[k]].transaction.inner() by {
                    if k >= gone.len() {
                        let m = from + (k - gone.len());
                        assert(removed@[taken.len() + m - from]
                            == current@[list@[m]].transaction.inner());
                        assert(current@.contains_key(list@[m]));
                        assert(wider[k] == list@[m]);
                    } else {
                        assert(removed@[k] == taken[k]);
                        assert(wider[k] == gone[k]);
                        assert(taken[k] == before@[gone[k]].transaction.inner());
                    }
                }
                assert forall|k: int| 0 <= k < sender_ids@.len() implies ids_of_sender(
                    self.by_id(),
                    (#[trigger] sender_ids@[k]).sender_id,
                ) == ids_of_sender(before.by_id(), sender_ids@[k].sender_id) by {
                    assert(sender_ids@[k] == listed[k]);
                    assert(listed[k].sender_id != listed[listed.len() - 1].sender_id);
                }
                assert(distinct_senders(sender_ids@)) by {
                    assert forall|i: int, j: int|
                        #![trigger sender_ids@[i], sender_ids@[j]]
                        0 <= i < j < sender_ids@.len() implies sender_ids@[i].sender_id
                        != sender_ids@[j].sender_id by {
                        assert(sender_ids@[i] == listed[i] && sender_ids@[j] == listed[j]);
                    }
                }
                if drop > 0 {
                    assert(from == 0);
                    assert forall|i: int| 0 <= i < self.by_id().len() implies has_sender(
                        sender_ids@,
                        (#[trigger] self.by_id()[i]).sender(),
                    ) by {
                        let entry = self.by_id()[i];
                        lemma_by_id_map_index(self.by_id(), i);
                        assert(current@.contains_key(entry.id()));
                        let j = index_of_id(current.by_id(), entry.id());
                        assert(has_id(current.by_id(), entry.id()));
                        assert(current.by_id()[j].id() == entry.id());
                        lemma_by_id_map_index(current.by_id(), j);
                        assert(current.by_id()[j] == entry);
                        assert(has_sender(listed, current.by_id()[j].sender()));
                        let k = choose|k: int|
                            0 <= k < listed.len() && (#[trigger] listed[k]).sender_id
                                == entry.sender();
                        if k == listed.len() - 1 {
                            assert(list@.contains(entry.id()));
                            assert(leaving.to_set().contains(entry.id()));
                        }
                        assert(sender_ids@[k].sender_id == entry.sender());
                    }
                }
                gone = wider;
            }
        }
        proof {
            if drop > 0 {
                if self.by_id().len() > 0 {
                    assert(has_sender(sender_ids@, self.by_id()[0].sender()));
                }
            }
            assert(gone + Seq::<TransactionId>::empty() == gone);
        }
        removed
    }
}

/// Of the identifiers of a sender, those that leave are the last ones: the
/// first `kept` stay, and all others leave.
pub proof fn lemma_evicted_suffix<T: ParkedOrd>(
    entries: Seq<ParkedPoolTransaction<T>>,
    senders: Seq<SubmissionSenderId>,
    excess: nat,
    sender: SenderId,
) -> (kept: int)
    requires
        ascending_by_id(entries),
        distinct_senders(senders),
    ensures
        0 <= kept <= ids_of_sender(entries, sender).len(),
        forall|k: int|
            0 <= k < ids_of_sender(entries, sender).len() ==> (evicted_ids(
                entries,
                senders,
                excess,
            ).contains(#[trigger] ids_of_sender(entries, sender)[k]) <==> k >= kept),
    decreases senders.len(),
{
    let ids = ids_of_sender(entries, sender);
    let gone = evicted_ids(entries, senders, excess);
    lemma_ids_of_sender(entries, sender);
    if excess == 0 || senders.len() == 0 {
        ids.len() as int
    } else {
        let last = senders.last().sender_id;
        let leaving = ids_of_sender(entries, last);
        lemma_ids_of_sender(entries, last);
        if last == sender {
            if leaving.len() <= excess {
                assert forall|k: int| 0 <= k < ids.len() implies gone.contains(
                    #[trigger] ids[k],
                ) by {
                    assert(gone[k] == ids[k]);
                }
                0
            } else {
                let kept = leaving.len() - excess;
                assert forall|k: int| 0 <= k < ids.len() implies (gone.contains(#[trigger] ids[k])
                    <==> k >= kept) by {
                    if k >= kept {
                        assert(gone[k - kept] == ids[k]);
                    }
                    if gone.contains(ids[k]) {
                        let m = choose|m: int| 0 <= m < gone.len() && gone[m] == ids[k];
                        assert(ids[kept + m] == ids[k]);
                        if kept + m < k {
                            assert(ids[kept + m].nonce < ids[k].nonce);
                        } else if k < kept + m {
                            assert(ids[k].nonce < ids[kept + m].nonce);
                        }
                    }
                }
                kept
            }
        } else {
            if leaving.len() <= excess {
                let rest = senders.drop_last();
                assert(distinct_senders(rest)) by {
                    assert forall|i: int, j: int|
                        #![trigger rest[i], rest[j]]
                        0 <= i < j < rest.len() implies rest[i].sender_id != rest[j].sender_id by {
                        assert(rest[i] == senders[i] && rest[j] == senders[j]);
                    }
                }
                let kept = lemma_evicted_suffix(
                    entries,
                    rest,
                    (excess - leaving.len()) as nat,
                    sender,
                );
                let later = evicted_ids(entries, rest, (excess - leaving.len()) as nat);
                assert forall|k: int| 0 <= k < ids.len() implies (gone.contains(#[trigger] ids[k])
                    <==> k >= kept) by {
                    if gone.contains(ids[k]) {
                        let m = choose|m: int| 0 <= m < gone.len() && gone[m] == ids[k];
                        if m < leaving.len() {
                            assert(leaving[m].sender == last);
                        } else {
                            assert(later[m - leaving.len()] == ids[k]);
                        }
                    }
                    if later.contains(ids[k]) {
                        let m = choose|m: int| 0 <= m < later.len() && later[m] == ids[k];
                        assert(gone[leaving.len() + m] == ids[k]);
                    }
                }
                kept
            } else {
                assert forall|k: int| 0 <= k < ids.len() implies !gone.contains(
                    #[trigger] ids[k],
                ) by {
                    if gone.contains(ids[k]) {
                        let m = choose|m: int| 0 <= m < gone.len() && gone[m] == ids[k];
                        assert(leaving[leaving.len() - excess + m].sender == last);
                    }
                }
                ids.len() as int
            }
        }
    }
}

/// Eviction takes trailers: where a transaction leaves, all transactions of
/// the same sender with higher nonces leave too. So no transaction stays
/// behind a gap that the eviction has made.
pub proof fn lemma_eviction_takes_trailers<T: ParkedOrd>(
    entries: Seq<ParkedPoolTransaction<T>>,
    senders: Seq<SubmissionSenderId>,
    excess: nat,
    i: int,
    j: int,
)
    requires
        ascending_by_id(entries),
        distinct_senders(senders),
        0 <= i < j < entries.len(),
        entries[i].sender() == entries[j].sender(),
        evicted_ids(entries, senders, excess).contains(entries[i].id()),
    ensures
        evicted_ids(entries, senders, excess).contains(entries[j].id()),
{
    let sender = entries[i].sender();
    let ids = ids_of_sender(entries, sender);
    let kept = lemma_evicted_suffix(entries, senders, excess, sender);
    let start = lemma_run_of_sender(entries, sender);
    lemma_ids_of_run(entries, start, ids.len() as int, sender);
    assert(ids[i - start] == entries[i].id());
    assert(ids[j - start] == entries[j].id());
}

} // verus!
