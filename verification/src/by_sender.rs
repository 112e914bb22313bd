//! The transactions of one sender.
use vstd::prelude::*;

use crate::entry::{
    ParkedPoolTransaction, ascending_by_id, has_id, index_of_id, is_place_of, lemma_senders_rise,
};
use crate::identifier::{SenderId, TransactionId};
use crate::ordering::ParkedOrd;
use crate::parked::ParkedPool;

verus! {

/// The identifiers of the transactions of `sender`, in the order of the
/// records.
pub open spec fn ids_of_sender<T: ParkedOrd>(
    entries: Seq<ParkedPoolTransaction<T>>,
    sender: SenderId,
) -> Seq<TransactionId>
    decreases entries.len(),
{
    if entries.len() == 0 {
        Seq::empty()
    } else if entries.last().sender() == sender {
        ids_of_sender(entries.drop_last(), sender).push(entries.last().id())
    } else {
        ids_of_sender(entries.drop_last(), sender)
    }
}

/// Whether the transactions of `sender` are the `count` records from
/// `start` on, and no others.
pub open spec fn is_run_of<T: ParkedOrd>(
    entries: Seq<ParkedPoolTransaction<T>>,
    start: int,
    count: int,
    sender: SenderId,
) -> bool {
    &&& 0 <= start
    &&& 0 <= count
    &&& start + count <= entries.len()
    &&& forall|i: int|
        0 <= i < entries.len() ==> ((#[trigger] entries[i]).sender() == sender <==> start <= i
            < start + count)
}

/// The identifiers of a sender whose transactions stand together are those
/// of the run, in its order.
pub proof fn lemma_ids_of_run<T: ParkedOrd>(
    entries: Seq<ParkedPoolTransaction<T>>,
    start: int,
    count: int,
    sender: SenderId,
)
    requires
        is_run_of(entries, start, count, sender),
    ensures
        ids_of_sender(entries, sender).len() == count,
        forall|k: int|
            0 <= k < count ==> #[trigger] ids_of_sender(entries, sender)[k] == entries[start
                + k].id(),
    decreases entries.len(),
{
    if entries.len() > 0 {
        let earlier = entries.drop_last();
        let last = entries.len() - 1;
        assert(entries[last] == entries.last());
        if entries.last().sender() == sender {
            assert(start + count == entries.len());
            assert(forall|i: int| 0 <= i < earlier.len() ==> earlier[i] == entries[i]);
            assert(is_run_of(earlier, start, count - 1, sender));
            lemma_ids_of_run(earlier, start, count - 1, sender);
            assert forall|k: int| 0 <= k < count implies #[trigger] ids_of_sender(
                entries,
                sender,
            )[k] == entries[start + k].id() by {
                if k < count - 1 {
                    assert(ids_of_sender(earlier, sender)[k] == earlier[start + k].id());
                }
            }
        } else {
            assert(forall|i: int| 0 <= i < earlier.len() ==> earlier[i] == entries[i]);
            if start + count <= earlier.len() {
                assert(is_run_of(earlier, start, count, sender));
                lemma_ids_of_run(earlier, start, count, sender);
                assert forall|k: int| 0 <= k < count implies #[trigger] ids_of_sender(
                    entries,
                    sender,
                )[k] == entries[start + k].id() by {
                    assert(ids_of_sender(earlier, sender)[k] == earlier[start + k].id());
                }
            } else {
                assert(count == 0);
                assert(is_run_of(earlier, 0, 0, sender));
                lemma_ids_of_run(earlier, 0, 0, sender);
            }
        }
    } else {
        assert(count == 0);
    }
}

/// In a sequence with rising identifiers the transactions of a sender stand
/// together, from the place of the sender's lowest identifier on.
pub proof fn lemma_run_of_sender<T: ParkedOrd>(
    entries: Seq<ParkedPoolTransaction<T>>,
    sender: SenderId,
) -> (start: int)
    requires
        ascending_by_id(entries),
    ensures
        is_place_of(entries, start, (TransactionId { sender, nonce: 0 })),
        is_run_of(entries, start, ids_of_sender(entries, sender).len() as int, sender),
    decreases entries.len(),
{
    let bound = TransactionId { sender, nonce: 0 };
    if entries.len() == 0 {
        0
    } else {
        let earlier = entries.drop_last();
        let last = entries.len() - 1;
        assert(entries[last] == entries.last());
        assert(forall|i: int| 0 <= i < earlier.len() ==> earlier[i] == entries[i]);
        assert(ascending_by_id(earlier)) by {
            assert forall|i: int, j: int|
                #![trigger earlier[i], earlier[j]]
                0 <= i < j < earlier.len() implies earlier[i].id().precedes(earlier[j].id()) by {
                assert(earlier[i] == entries[i] && earlier[j] == entries[j]);
            }
        }
        let before = lemma_run_of_sender(earlier, sender);
        let count = ids_of_sender(earlier, sender).len() as int;
        if entries.last().sender() == sender {
            // the run reaches the end of the earlier records, or begins here
            if count > 0 {
                if before + count < last {
                    assert(entries[before + count - 1].sender() == sender);
                    lemma_senders_rise(entries, before + count - 1, before + count);
                    lemma_senders_rise(entries, before + count, last);
                    assert(earlier[before + count].sender() == sender);
                }
                assert(is_run_of(entries, before, count + 1, sender));
                before
            } else {
                assert forall|i: int| 0 <= i < last implies (#[trigger] entries[i]).id().precedes(
                    bound,
                ) by {
                    assert(earlier[i].sender() != sender);
                    lemma_senders_rise(entries, i, last);
                }
                assert(is_run_of(entries, last, 1, sender));
                last
            }
        } else {
            if entries.last().id().precedes(bound) {
                // all senders lie below
                assert forall|i: int| 0 <= i < entries.len() implies (#[trigger] entries[i]).id()
                    .precedes(bound) && entries[i].sender() != sender by {
                    lemma_senders_rise(entries, i, last);
                }
                assert(count == 0) by {
                    if count > 0 {
                        assert(earlier[before].sender() == sender);
                    }
                }
                assert(is_run_of(entries, entries.len() as int, 0, sender));
                entries.len() as int
            } else {
                assert(is_run_of(entries, before, count, sender));
                before
            }
        }
    }
}

/// The identifiers of a sender, as a pool with rising identifiers holds
/// them: each is that of a transaction of the sender in the pool, the nonces
/// rise along the list, every transaction of the sender is in it, and in the
/// pool they stand together, with no other transaction between them.
pub proof fn lemma_ids_of_sender<T: ParkedOrd>(
    entries: Seq<ParkedPoolTransaction<T>>,
    sender: SenderId,
)
    requires
        ascending_by_id(entries),
    ensures
        forall|k: int|
            0 <= k < ids_of_sender(entries, sender).len() ==> (#[trigger] ids_of_sender(
                entries,
                sender,
            )[k]).sender == sender && has_id(entries, ids_of_sender(entries, sender)[k]),
        forall|j: int, k: int|
            #![trigger ids_of_sender(entries, sender)[j], ids_of_sender(entries, sender)[k]]
            0 <= j < k < ids_of_sender(entries, sender).len() ==> ids_of_sender(
                entries,
                sender,
            )[j].nonce < ids_of_sender(entries, sender)[k].nonce,
        forall|i: int|
            0 <= i < entries.len() && (#[trigger] entries[i]).sender() == sender
                ==> ids_of_sender(entries, sender).contains(entries[i].id()),
        exists|start: int|
            is_run_of(entries, start, ids_of_sender(entries, sender).len() as int, sender)
                && forall|k: int|
                0 <= k < ids_of_sender(entries, sender).len() ==> #[trigger] ids_of_sender(
                    entries,
                    sender,
                )[k] == entries[start + k].id(),
        ids_of_sender(entries, sender).len() <= entries.len(),
{
    let ids = ids_of_sender(entries, sender);
    let start = lemma_run_of_sender(entries, sender);
    lemma_ids_of_run(entries, start, ids.len() as int, sender);
    assert forall|k: int| 0 <= k < ids.len() implies (#[trigger] ids[k]).sender == sender && has_id(
        entries,
        ids[k],
    ) by {
        assert(entries[start + k].id() == ids[k]);
    }
    assert forall|j: int, k: int|
        #![trigger ids[j], ids[k]]
        0 <= j < k < ids.len() implies ids[j].nonce < ids[k].nonce by {
        assert(entries[start + j].id().precedes(entries[start + k].id()));
    }
    assert forall|i: int|
        0 <= i < entries.len() && (#[trigger] entries[i]).sender() == sender implies ids.contains(
        entries[i].id(),
    ) by {
        assert(ids[i - start] == entries[i].id());
    }
}

impl<T: ParkedOrd> ParkedPool<T> {
    /// The identifiers of the transactions of `sender` in the pool, lowest
    /// nonce first.
    pub fn get_txs_by_sender(&self, sender: SenderId) -> (ids: Vec<TransactionId>)
        requires
            self.wf(),
        ensures
            ids@ == ids_of_sender(self.by_id(), sender),
            forall|k: int|
                0 <= k < ids@.len() ==> (#[trigger] ids@[k]).sender == sender
                    && self@.contains_key(ids@[k]),
            forall|j: int, k: int|
                #![trigger ids@[j], ids@[k]]
                0 <= j < k < ids@.len() ==> ids@[j].nonce < ids@[k].nonce,
            forall|id: TransactionId|
                self@.contains_key(id) && id.sender == sender ==> ids@.contains(id),
            exists|start: int|
                is_run_of(self.by_id(), start, ids@.len() as int, sender) && forall|k: int|
                    0 <= k < ids@.len() ==> #[trigger] ids@[k] == self.by_id()[start + k].id(),
    {
        let bound = sender.start_bound();
        let start: usize = self.place_by_id(&bound);
        let mut ids: Vec<TransactionId> = Vec::new();
        let mut at: usize = start;
        while at < self.len() && self.entry(at).handle().sender_id() == sender
            invariant
                start <= at <= self.by_id().len(),
                ids@.len() == at - start,
                forall|k: int|
                    0 <= k < ids@.len() ==> #[trigger] ids@[k] == self.by_id()[start + k].id(),
                forall|i: int| start <= i < at ==> (#[trigger] self.by_id()[i]).sender() == sender,
            decreases self.by_id().len() - at,
        {
            ids.push(self.entry(at).transaction_id());
            at = at + 1;
        }
        proof {
            let entries = self.by_id();
            assert forall|i: int| 0 <= i < entries.len() implies ((#[trigger] entries[i]).sender()
                == sender <==> start <= i < at) by {
                if i < start {
                    assert(entries[i].id().precedes(bound));
                } else if i >= at {
                    assert(!entries[at as int].id().precedes(bound));
                    lemma_senders_rise(entries, at as int, i);
                }
            }
            assert(is_run_of(entries, start as int, at - start, sender));
            lemma_ids_of_run(entries, start as int, at - start, sender);
            assert(ids@ =~= ids_of_sender(entries, sender));
            lemma_ids_of_sender(entries, sender);
            assert forall|id: TransactionId|
                self@.contains_key(id) && id.sender == sender implies ids@.contains(id) by {
                let i = index_of_id(entries, id);
                assert(entries[i].id() == id);
            }
        }
        ids
    }
}

} // verus!
