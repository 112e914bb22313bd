//! What is left of a sequence of records when some of them leave.
use vstd::prelude::*;

use crate::entry::{ParkedPoolTransaction, ascending_by_id};
use crate::identifier::TransactionId;
use crate::ordering::ParkedOrd;

verus! {

/// The records whose identifiers are not in `gone`, in their order.
pub open spec fn without<T: ParkedOrd>(
    entries: Seq<ParkedPoolTransaction<T>>,
    gone: Set<TransactionId>,
) -> Seq<ParkedPoolTransaction<T>>
    decreases entries.len(),
{
    if entries.len() == 0 {
        Seq::empty()
    } else if gone.contains(entries.last().id()) {
        without(entries.drop_last(), gone)
    } else {
        without(entries.drop_last(), gone).push(entries.last())
    }
}

/// Whether no identifier occurs twice among the records.
pub open spec fn distinct_ids<T: ParkedOrd>(entries: Seq<ParkedPoolTransaction<T>>) -> bool {
    forall|i: int, j: int|
        #![trigger entries[i], entries[j]]
        0 <= i < j < entries.len() ==> entries[i].id() != entries[j].id()
}

/// Identifiers that rise do not repeat.
pub proof fn lemma_ascending_is_distinct<T: ParkedOrd>(entries: Seq<ParkedPoolTransaction<T>>)
    requires
        ascending_by_id(entries),
    ensures
        distinct_ids(entries),
{
    assert forall|i: int, j: int|
        #![trigger entries[i], entries[j]]
        0 <= i < j < entries.len() implies entries[i].id() != entries[j].id() by {
        assert(entries[i].id().precedes(entries[j].id()));
    }
}

/// A sequence with the same records as one without repeated identifiers has
/// none either.
pub proof fn lemma_permutation_is_distinct<T: ParkedOrd>(
    entries: Seq<ParkedPoolTransaction<T>>,
    shuffled: Seq<ParkedPoolTransaction<T>>,
)
    requires
        distinct_ids(entries),
        shuffled.to_multiset() == entries.to_multiset(),
    ensures
        distinct_ids(shuffled),
{
    assert(entries.no_duplicates()) by {
        assert forall|i: int, j: int|
            0 <= i < entries.len() && 0 <= j < entries.len() && i != j implies entries[i]
            != entries[j] by {
            if i < j {
                assert(entries[i].id() != entries[j].id());
            } else {
                assert(entries[j].id() != entries[i].id());
            }
        }
    }
    entries.lemma_multiset_has_no_duplicates();
    shuffled.lemma_multiset_has_no_duplicates_conv();
    assert forall|i: int, j: int|
        #![trigger shuffled[i], shuffled[j]]
        0 <= i < j < shuffled.len() implies shuffled[i].id() != shuffled[j].id() by {
        vstd::seq_lib::to_multiset_contains(shuffled, shuffled[i]);
        vstd::seq_lib::to_multiset_contains(entries, shuffled[i]);
        vstd::seq_lib::to_multiset_contains(shuffled, shuffled[j]);
        vstd::seq_lib::to_multiset_contains(entries, shuffled[j]);
        assert(shuffled.contains(shuffled[i]));
        assert(shuffled.contains(shuffled[j]));
        let a = choose|a: int| 0 <= a < entries.len() && entries[a] == shuffled[i];
        let b = choose|b: int| 0 <= b < entries.len() && entries[b] == shuffled[j];
        if a < b {
            assert(entries[a].id() != entries[b].id());
        } else if b < a {
            assert(entries[b].id() != entries[a].id());
        } else {
            assert(shuffled[i] == shuffled[j]);
        }
    }
}

/// Every record that is left was there before, and its identifier is not in
/// `gone`.
pub proof fn lemma_without_members<T: ParkedOrd>(
    entries: Seq<ParkedPoolTransaction<T>>,
    gone: Set<TransactionId>,
)
    ensures
        without(entries, gone).len() <= entries.len(),
        forall|k: int|
            0 <= k < without(entries, gone).len() ==> entries.contains(
                #[trigger] without(entries, gone)[k],
            ) && !gone.contains(without(entries, gone)[k].id()),
    decreases entries.len(),
{
    if entries.len() > 0 {
        let earlier = entries.drop_last();
        let left = without(entries, gone);
        lemma_without_members(earlier, gone);
        assert forall|k: int| 0 <= k < left.len() implies entries.contains(#[trigger] left[k])
            && !gone.contains(left[k].id()) by {
            if k < without(earlier, gone).len() {
                assert(left[k] == without(earlier, gone)[k]);
                assert(earlier.contains(left[k]));
                let i = choose|i: int| 0 <= i < earlier.len() && earlier[i] == left[k];
                assert(entries[i] == left[k]);
            } else {
                assert(entries[entries.len() - 1] == left[k]);
            }
        }
    }
}

/// Nothing leaves where no record has an identifier in `gone`.
pub proof fn lemma_without_none<T: ParkedOrd>(
    entries: Seq<ParkedPoolTransaction<T>>,
    gone: Set<TransactionId>,
)
    requires
        forall|i: int| 0 <= i < entries.len() ==> !gone.contains((#[trigger] entries[i]).id()),
    ensures
        without(entries, gone) == entries,
    decreases entries.len(),
{
    if entries.len() > 0 {
        let earlier = entries.drop_last();
        assert forall|i: int| 0 <= i < earlier.len() implies !gone.contains(
            (#[trigger] earlier[i]).id(),
        ) by {
            assert(earlier[i] == entries[i]);
        }
        lemma_without_none(earlier, gone);
        assert(entries[entries.len() - 1] == entries.last());
        assert(earlier.push(entries.last()) == entries);
    }
}

/// An identifier that no record has makes no difference.
pub proof fn lemma_without_absent<T: ParkedOrd>(
    entries: Seq<ParkedPoolTransaction<T>>,
    gone: Set<TransactionId>,
    id: TransactionId,
)
    requires
        forall|i: int| 0 <= i < entries.len() ==> (#[trigger] entries[i]).id() != id,
    ensures
        without(entries, gone.insert(id)) == without(entries, gone),
    decreases entries.len(),
{
    if entries.len() > 0 {
        let earlier = entries.drop_last();
        assert forall|i: int| 0 <= i < earlier.len() implies (#[trigger] earlier[i]).id() != id by {
            assert(earlier[i] == entries[i]);
        }
        lemma_without_absent(earlier, gone, id);
        assert(entries[entries.len() - 1] == entries.last());
    }
}

/// When one more record leaves, what is left is what was left before,
/// without that record.
pub proof fn lemma_without_one_more<T: ParkedOrd>(
    entries: Seq<ParkedPoolTransaction<T>>,
    gone: Set<TransactionId>,
    at: int,
)
    requires
        distinct_ids(entries),
        0 <= at < without(entries, gone).len(),
    ensures
        without(entries, gone).remove(at) == without(
            entries,
            gone.insert(without(entries, gone)[at].id()),
        ),
    decreases entries.len(),
{
    let left = without(entries, gone);
    let id = left[at].id();
    let earlier = entries.drop_last();
    let last = entries.last();
    let before = without(earlier, gone);
    assert(entries.len() > 0);
    assert(entries[entries.len() - 1] == last);
    assert(distinct_ids(earlier)) by {
        assert forall|i: int, j: int|
            #![trigger earlier[i], earlier[j]]
            0 <= i < j < earlier.len() implies earlier[i].id() != earlier[j].id() by {
            assert(earlier[i] == entries[i] && earlier[j] == entries[j]);
        }
    }
    assert forall|i: int| 0 <= i < earlier.len() implies (#[trigger] earlier[i]).id()
        != last.id() by {
        assert(earlier[i] == entries[i]);
    }
    if gone.contains(last.id()) {
        lemma_without_one_more(earlier, gone, at);
    } else if at == before.len() {
        lemma_without_absent(earlier, gone, id);
        assert(left.remove(at) == before);
    } else {
        lemma_without_members(earlier, gone);
        assert(earlier.contains(before[at]));
        let i = choose|i: int| 0 <= i < earlier.len() && earlier[i] == before[at];
        assert(earlier[i].id() != last.id());
        lemma_without_one_more(earlier, gone, at);
        assert(left.remove(at) == before.remove(at).push(last));
    }
}

/// Leaving in two rounds is leaving in one.
pub proof fn lemma_without_twice<T: ParkedOrd>(
    entries: Seq<ParkedPoolTransaction<T>>,
    first: Set<TransactionId>,
    second: Set<TransactionId>,
)
    ensures
        without(without(entries, first), second) == without(entries, first.union(second)),
    decreases entries.len(),
{
    if entries.len() > 0 {
        let earlier = entries.drop_last();
        let last = entries.last();
        lemma_without_twice(earlier, first, second);
        if !first.contains(last.id()) {
            let left = without(earlier, first).push(last);
            assert(left.drop_last() == without(earlier, first));
            assert(left.last() == last);
        }
    }
}

} // verus!
