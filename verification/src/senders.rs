//! The senders of the pool, in the order of their last submission.
use vstd::prelude::*;

use crate::entry::{
    ParkedPoolTransaction, ascending_by_id, lemma_ascending_prefix, lemma_senders_rise,
};
use crate::identifier::SenderId;
use crate::ordering::ParkedOrd;
use crate::parked::ParkedPool;

verus! {

/// A sender, with the number of the last submission of that sender.
#[derive(Clone, Copy, Debug, PartialEq, Eq, Structural)]
pub struct SubmissionSenderId {
    /// The sender.
    pub sender_id: SenderId,
    /// The highest submission number among the sender's transactions.
    pub submission_id: u64,
}

impl SubmissionSenderId {
    /// A record from its two parts.
    pub fn new(sender_id: SenderId, submission_id: u64) -> (record: Self)
        ensures
            record == (SubmissionSenderId { sender_id, submission_id }),
    {
        SubmissionSenderId { sender_id, submission_id }
    }

    /// The order of the records: the later last submission first, and of
    /// two senders with the same submission number the one with the lower
    /// handle.
    pub open spec fn sorts_before(self, other: SubmissionSenderId) -> bool {
        self.submission_id > other.submission_id || (self.submission_id == other.submission_id
            && self.sender_id.0 < other.sender_id.0)
    }

    /// Whether this record is ordered strictly before `other`.
    pub fn is_before(&self, other: &SubmissionSenderId) -> (before: bool)
        ensures
            before == self.sorts_before(*other),
    {
        self.submission_id > other.submission_id || (self.submission_id == other.submission_id
            && self.sender_id.0 < other.sender_id.0)
    }
}

/// Whether `submission_id` is the highest submission number among the
/// transactions of `sender`.
pub open spec fn is_last_submission<T: ParkedOrd>(
    entries: Seq<ParkedPoolTransaction<T>>,
    sender: SenderId,
    submission_id: u64,
) -> bool {
    &&& exists|i: int|
        0 <= i < entries.len() && (#[trigger] entries[i]).sender() == sender
            && entries[i].submission_id == submission_id
    &&& forall|i: int|
        0 <= i < entries.len() && (#[trigger] entries[i]).sender() == sender
            ==> entries[i].submission_id <= submission_id
}

/// Whether one of the records is that of `sender`.
pub open spec fn has_sender(records: Seq<SubmissionSenderId>, sender: SenderId) -> bool {
    exists|k: int| 0 <= k < records.len() && (#[trigger] records[k]).sender_id == sender
}

/// The records with one more submission taken in: it raises the number of
/// the last record if that is of the same sender, and else adds a record.
pub open spec fn with_submission(
    records: Seq<SubmissionSenderId>,
    sender: SenderId,
    submission_id: u64,
) -> Seq<SubmissionSenderId> {
    if records.len() > 0 && records.last().sender_id == sender {
        if records.last().submission_id < submission_id {
            records.update(
                records.len() - 1,
                SubmissionSenderId { sender_id: sender, submission_id },
            )
        } else {
            records
        }
    } else {
        records.push(SubmissionSenderId { sender_id: sender, submission_id })
    }
}

/// One record for each run of transactions of the same sender, in the order
/// of the runs, with the highest submission number of the run.
pub open spec fn last_submissions<T: ParkedOrd>(entries: Seq<ParkedPoolTransaction<T>>) -> Seq<
    SubmissionSenderId,
>
    decreases entries.len(),
{
    if entries.len() == 0 {
        Seq::empty()
    } else {
        with_submission(
            last_submissions(entries.drop_last()),
            entries.last().sender(),
            entries.last().submission_id,
        )
    }
}

/// Where `record` goes in a sorted sequence: behind the last record that is
/// not ordered after it.
pub open spec fn sorted_place(sorted: Seq<SubmissionSenderId>, record: SubmissionSenderId) -> int
    decreases sorted.len(),
{
    if sorted.len() == 0 {
        0
    } else if record.sorts_before(sorted.last()) {
        sorted_place(sorted.drop_last(), record)
    } else {
        sorted.len() as int
    }
}

/// The records in their order: the latest submission first.
pub open spec fn sort_by_submission(records: Seq<SubmissionSenderId>) -> Seq<SubmissionSenderId>
    decreases records.len(),
{
    if records.len() == 0 {
        Seq::empty()
    } else {
        let sorted = sort_by_submission(records.drop_last());
        sorted.insert(sorted_place(sorted, records.last()), records.last())
    }
}

/// The senders of the transactions, each once, with the number of its last
/// submission: the sender that submitted last comes first, and the one that
/// has gone longest without a submission comes last.
pub open spec fn senders_by_submission_id<T: ParkedOrd>(
    entries: Seq<ParkedPoolTransaction<T>>,
) -> Seq<SubmissionSenderId> {
    sort_by_submission(last_submissions(entries))
}

/// Whether the records stand in their order: every record is ordered
/// strictly before those behind it, so that the submission numbers never
/// rise along the sequence.
pub open spec fn newest_first(records: Seq<SubmissionSenderId>) -> bool {
    forall|i: int, j: int|
        #![trigger records[i], records[j]]
        0 <= i < j < records.len() ==> records[i].sorts_before(records[j])
}

/// Whether no sender occurs twice among the records.
pub open spec fn distinct_senders(records: Seq<SubmissionSenderId>) -> bool {
    forall|i: int, j: int|
        #![trigger records[i], records[j]]
        0 <= i < j < records.len() ==> records[i].sender_id != records[j].sender_id
}

/// Whether `records` lists the senders of `entries` by their last
/// submissions: every record gives a sender with the number of its last
/// submission, every sender has a record and only one, and the records
/// stand in their order, the latest submission first.
pub open spec fn lists_senders_by_submission<T: ParkedOrd>(
    entries: Seq<ParkedPoolTransaction<T>>,
    records: Seq<SubmissionSenderId>,
) -> bool {
    &&& forall|k: int|
        0 <= k < records.len() ==> is_last_submission(
            entries,
            (#[trigger] records[k]).sender_id,
            records[k].submission_id,
        )
    &&& forall|i: int|
        0 <= i < entries.len() ==> has_sender(records, (#[trigger] entries[i]).sender())
    &&& distinct_senders(records)
    &&& newest_first(records)
}

/// Whether `records` are the runs of senders in `entries`: every record
/// gives a sender with the number of its last submission, every sender has a
/// record, the senders rise, and the last record is that of the last entry.
pub open spec fn groups_by_sender<T: ParkedOrd>(
    entries: Seq<ParkedPoolTransaction<T>>,
    records: Seq<SubmissionSenderId>,
) -> bool {
    &&& forall|k: int|
        0 <= k < records.len() ==> is_last_submission(
            entries,
            (#[trigger] records[k]).sender_id,
            records[k].submission_id,
        )
    &&& forall|i: int|
        0 <= i < entries.len() ==> has_sender(records, (#[trigger] entries[i]).sender())
    &&& forall|i: int, j: int|
        #![trigger records[i], records[j]]
        0 <= i < j < records.len() ==> records[i].sender_id.0 < records[j].sender_id.0
    &&& entries.len() > 0 ==> records.len() > 0 && records.last().sender_id
        == entries.last().sender()
    &&& records.len() <= entries.len()
}

/// The last submission of a sender stays what it is when an entry of another
/// sender is added.
proof fn lemma_last_submission_kept<T: ParkedOrd>(
    earlier: Seq<ParkedPoolTransaction<T>>,
    entry: ParkedPoolTransaction<T>,
    sender: SenderId,
    submission_id: u64,
)
    requires
        is_last_submission(earlier, sender, submission_id),
        entry.sender() != sender,
    ensures
        is_last_submission(earlier.push(entry), sender, submission_id),
{
    let entries = earlier.push(entry);
    let w = choose|i: int|
        0 <= i < earlier.len() && (#[trigger] earlier[i]).sender() == sender
            && earlier[i].submission_id == submission_id;
    assert(entries[w] == earlier[w]);
    assert forall|i: int|
        0 <= i < entries.len() && (#[trigger] entries[i]).sender()
            == sender implies entries[i].submission_id <= submission_id by {
        assert(entries[i] == earlier[i]);
    }
}

/// The last submission of a sender when one more entry of that sender is
/// added: the higher of the two numbers.
proof fn lemma_last_submission_raised<T: ParkedOrd>(
    earlier: Seq<ParkedPoolTransaction<T>>,
    entry: ParkedPoolTransaction<T>,
    submission_id: u64,
    raised: u64,
)
    requires
        is_last_submission(earlier, entry.sender(), submission_id),
        raised == submission_id || raised == entry.submission_id,
        raised >= submission_id,
        raised >= entry.submission_id,
    ensures
        is_last_submission(earlier.push(entry), entry.sender(), raised),
{
    let entries = earlier.push(entry);
    let sender = entry.sender();
    let w = choose|i: int|
        0 <= i < earlier.len() && (#[trigger] earlier[i]).sender() == sender
            && earlier[i].submission_id == submission_id;
    assert(entries[w] == earlier[w]);
    assert(entries[earlier.len() as int] == entry);
    assert forall|i: int|
        0 <= i < entries.len() && (#[trigger] entries[i]).sender()
            == sender implies entries[i].submission_id <= raised by {
        if i < earlier.len() {
            assert(entries[i] == earlier[i]);
        }
    }
}

/// The last submission of a sender whose first entry is added.
proof fn lemma_last_submission_first<T: ParkedOrd>(
    earlier: Seq<ParkedPoolTransaction<T>>,
    entry: ParkedPoolTransaction<T>,
)
    requires
        forall|i: int|
            0 <= i < earlier.len() ==> (#[trigger] earlier[i]).sender() != entry.sender(),
    ensures
        is_last_submission(earlier.push(entry), entry.sender(), entry.submission_id),
{
    let entries = earlier.push(entry);
    assert(entries[earlier.len() as int] == entry);
    assert forall|i: int|
        0 <= i < entries.len() && (#[trigger] entries[i]).sender()
            == entry.sender() implies entries[i].submission_id <= entry.submission_id by {
        if i < earlier.len() {
            assert(entries[i] == earlier[i]);
        }
    }
}

/// Taking one more entry into the runs of senders.
pub proof fn lemma_with_submission<T: ParkedOrd>(
    earlier: Seq<ParkedPoolTransaction<T>>,
    before: Seq<SubmissionSenderId>,
    entry: ParkedPoolTransaction<T>,
)
    requires
        ascending_by_id(earlier.push(entry)),
        groups_by_sender(earlier, before),
    ensures
        groups_by_sender(
            earlier.push(entry),
            with_submission(before, entry.sender(), entry.submission_id),
        ),
{
    let entries = earlier.push(entry);
    let records = with_submission(before, entry.sender(), entry.submission_id);
    let last = earlier.len() as int;
    let same_run = before.len() > 0 && before.last().sender_id == entry.sender();
    assert(entries[last] == entry);
    // the senders of the runs so far do not lie above that of the entry
    assert forall|k: int| 0 <= k < before.len() implies (#[trigger] before[k]).sender_id.0
        <= entry.sender().0 by {
        assert(before.last().sender_id == earlier.last().sender());
        assert(earlier.last() == entries[last - 1]);
        lemma_senders_rise(entries, last - 1, last);
        if k < before.len() - 1 {
            assert(before[k].sender_id.0 < before[before.len() - 1].sender_id.0);
        }
    }
    assert forall|k: int| 0 <= k < before.len() && !(same_run && k == before.len() - 1) implies (
    #[trigger] before[k]).sender_id != entry.sender() by {
        if same_run {
            assert(before[k].sender_id.0 < before[before.len() - 1].sender_id.0);
        }
    }
    if !same_run {
        assert forall|i: int| 0 <= i < earlier.len() implies (#[trigger] earlier[i]).sender()
            != entry.sender() by {
            assert(has_sender(before, earlier[i].sender()));
            let j = choose|j: int|
                0 <= j < before.len() && (#[trigger] before[j]).sender_id == earlier[i].sender();
            assert(before[j].sender_id != entry.sender());
        }
        lemma_last_submission_first(earlier, entry);
    }
    assert forall|k: int| 0 <= k < records.len() implies is_last_submission(
        entries,
        (#[trigger] records[k]).sender_id,
        records[k].submission_id,
    ) by {
        if k < before.len() && !(same_run && k == before.len() - 1) {
            assert(records[k] == before[k]);
            lemma_last_submission_kept(
                earlier,
                entry,
                before[k].sender_id,
                before[k].submission_id,
            );
        } else if same_run {
            lemma_last_submission_raised(
                earlier,
                entry,
                before.last().submission_id,
                records[k].submission_id,
            );
        }
    }
    assert forall|i: int| 0 <= i < entries.len() implies has_sender(
        records,
        (#[trigger] entries[i]).sender(),
    ) by {
        if i < last {
            assert(entries[i] == earlier[i]);
            assert(has_sender(before, earlier[i].sender()));
            let j = choose|j: int|
                0 <= j < before.len() && (#[trigger] before[j]).sender_id == earlier[i].sender();
            assert(records[j].sender_id == entries[i].sender());
        } else {
            assert(records[records.len() - 1].sender_id == entries[i].sender());
        }
    }
    assert forall|i: int, j: int|
        #![trigger records[i], records[j]]
        0 <= i < j < records.len() implies records[i].sender_id.0 < records[j].sender_id.0 by {
        if j < before.len() {
            assert(before[i].sender_id.0 < before[j].sender_id.0);
        } else {
            assert(before[i].sender_id != entry.sender());
            assert(before[i].sender_id.0 <= entry.sender().0);
        }
    }
}

/// What `last_submissions` gives: the runs of senders.
pub proof fn lemma_last_submissions<T: ParkedOrd>(entries: Seq<ParkedPoolTransaction<T>>)
    requires
        ascending_by_id(entries),
    ensures
        groups_by_sender(entries, last_submissions(entries)),
    decreases entries.len(),
{
    if entries.len() > 0 {
        let earlier = entries.drop_last();
        assert(earlier == entries.take(entries.len() - 1));
        lemma_ascending_prefix(entries, entries.len() - 1);
        lemma_last_submissions(earlier);
        assert(earlier.push(entries.last()) == entries);
        lemma_with_submission(earlier, last_submissions(earlier), entries.last());
    }
}

/// What `sorted_place` gives in a sequence that is in order: all records
/// before the place are ordered before `record`, and all others after it.
pub proof fn lemma_sorted_place(sorted: Seq<SubmissionSenderId>, record: SubmissionSenderId)
    requires
        newest_first(sorted),
        !has_sender(sorted, record.sender_id),
    ensures
        0 <= sorted_place(sorted, record) <= sorted.len(),
        forall|i: int|
            0 <= i < sorted_place(sorted, record) ==> (#[trigger] sorted[i]).sorts_before(record),
        forall|i: int|
            sorted_place(sorted, record) <= i < sorted.len() ==> record.sorts_before(
                #[trigger] sorted[i],
            ),
    decreases sorted.len(),
{
    if sorted.len() > 0 {
        let shorter = sorted.drop_last();
        let last = sorted.len() - 1;
        assert forall|i: int, j: int|
            #![trigger shorter[i], shorter[j]]
            0 <= i < j < shorter.len() implies shorter[i].sorts_before(shorter[j]) by {
            assert(shorter[i] == sorted[i] && shorter[j] == sorted[j]);
        }
        if has_sender(shorter, record.sender_id) {
            let k = choose|k: int|
                0 <= k < shorter.len() && (#[trigger] shorter[k]).sender_id == record.sender_id;
            assert(sorted[k] == shorter[k]);
        }
        if record.sorts_before(sorted.last()) {
            lemma_sorted_place(shorter, record);
            let at = sorted_place(shorter, record);
            assert forall|i: int| 0 <= i < at implies (#[trigger] sorted[i]).sorts_before(
                record,
            ) by {
                assert(shorter[i] == sorted[i]);
            }
            assert forall|i: int| at <= i < sorted.len() implies record.sorts_before(
                #[trigger] sorted[i],
            ) by {
                if i < last {
                    assert(shorter[i] == sorted[i]);
                }
            }
        } else {
            assert(sorted[last].sender_id != record.sender_id);
            assert(sorted[last].sorts_before(record));
            assert forall|i: int| 0 <= i < sorted.len() implies (#[trigger] sorted[i]).sorts_before(
                record,
            ) by {
                if i < last {
                    assert(sorted[i].sorts_before(sorted[last]));
                }
            }
        }
    }
}

/// Putting a record of a new sender at its place keeps the records in order
/// and the senders distinct.
pub proof fn lemma_sorted_insert(sorted: Seq<SubmissionSenderId>, record: SubmissionSenderId)
    requires
        newest_first(sorted),
        distinct_senders(sorted),
        !has_sender(sorted, record.sender_id),
    ensures
        0 <= sorted_place(sorted, record) <= sorted.len(),
        newest_first(sorted.insert(sorted_place(sorted, record), record)),
        distinct_senders(sorted.insert(sorted_place(sorted, record), record)),
{
    lemma_sorted_place(sorted, record);
    let at = sorted_place(sorted, record);
    let after = sorted.insert(at, record);
    assert forall|i: int, j: int|
        #![trigger after[i], after[j]]
        0 <= i < j < after.len() implies after[i].sorts_before(after[j]) && after[i].sender_id
        != after[j].sender_id by {
        let a = if i < at { sorted[i] } else if i == at { record } else { sorted[i - 1] };
        let b = if j < at { sorted[j] } else if j == at { record } else { sorted[j - 1] };
        assert(after[i] == a);
        assert(after[j] == b);
    }
}

/// A record is in the sequence after an insertion if it is the one put in,
/// or was there before.
pub proof fn lemma_insert_contains(
    records: Seq<SubmissionSenderId>,
    at: int,
    record: SubmissionSenderId,
    other: SubmissionSenderId,
)
    requires
        0 <= at <= records.len(),
    ensures
        records.insert(at, record).contains(other) <==> (other == record || records.contains(
            other,
        )),
{
    let after = records.insert(at, record);
    if after.contains(other) {
        let k = choose|k: int| 0 <= k < after.len() && after[k] == other;
        if k != at {
            let from = if k < at { k } else { k - 1 };
            assert(records[from] == other);
        }
    }
    if other == record {
        assert(after[at] == other);
    }
    if records.contains(other) {
        let k = choose|k: int| 0 <= k < records.len() && records[k] == other;
        let to = if k < at { k } else { k + 1 };
        assert(after[to] == other);
    }
}

/// What `sort_by_submission` gives for records of distinct senders: the same
/// records, in order.
pub proof fn lemma_sort_by_submission(records: Seq<SubmissionSenderId>)
    requires
        distinct_senders(records),
    ensures
        sort_by_submission(records).len() == records.len(),
        forall|record: SubmissionSenderId|
            #![trigger sort_by_submission(records).contains(record)]
            #![trigger records.contains(record)]
            sort_by_submission(records).contains(record) <==> records.contains(record),
        newest_first(sort_by_submission(records)),
        distinct_senders(sort_by_submission(records)),
    decreases records.len(),
{
    if records.len() > 0 {
        let earlier = records.drop_last();
        let last = records.len() - 1;
        let record = records.last();
        assert(distinct_senders(earlier)) by {
            assert forall|i: int, j: int|
                #![trigger earlier[i], earlier[j]]
                0 <= i < j < earlier.len() implies earlier[i].sender_id != earlier[j].sender_id by {
                assert(earlier[i] == records[i] && earlier[j] == records[j]);
            }
        }
        lemma_sort_by_submission(earlier);
        let sorted = sort_by_submission(earlier);
        if has_sender(sorted, record.sender_id) {
            let i = choose|i: int|
                0 <= i < sorted.len() && (#[trigger] sorted[i]).sender_id == record.sender_id;
            assert(sorted.contains(sorted[i]));
            assert(earlier.contains(sorted[i]));
            let k = choose|k: int| 0 <= k < earlier.len() && earlier[k] == sorted[i];
            assert(records[k] == earlier[k]);
            assert(records[k].sender_id != records[last].sender_id);
        }
        lemma_sorted_insert(sorted, record);
        let at = sorted_place(sorted, record);
        let after = sorted.insert(at, record);
        assert forall|x: SubmissionSenderId| after.contains(x) <==> records.contains(x) by {
            lemma_insert_contains(sorted, at, record, x);
            if earlier.contains(x) {
                let m = choose|m: int| 0 <= m < earlier.len() && earlier[m] == x;
                assert(records[m] == x);
            }
            if records.contains(x) {
                let k = choose|k: int| 0 <= k < records.len() && records[k] == x;
                if k < last {
                    assert(earlier[k] == x);
                }
            }
        }
    }
}

/// The senders of a pool in the order of their last submissions: every
/// sender occurs once, with the highest submission number among its
/// transactions, and the numbers never rise along the list. Read from its
/// end, the list begins with the sender that has gone longest without a
/// submission.
pub proof fn lemma_senders_by_submission_id<T: ParkedOrd>(entries: Seq<ParkedPoolTransaction<T>>)
    requires
        ascending_by_id(entries),
    ensures
        lists_senders_by_submission(entries, senders_by_submission_id(entries)),
        senders_by_submission_id(entries).len() <= entries.len(),
{
    let grouped = last_submissions(entries);
    let sorted = sort_by_submission(grouped);
    lemma_last_submissions(entries);
    assert(distinct_senders(grouped));
    lemma_sort_by_submission(grouped);
    assert forall|k: int| 0 <= k < sorted.len() implies is_last_submission(
        entries,
        (#[trigger] sorted[k]).sender_id,
        sorted[k].submission_id,
    ) by {
        assert(sorted.contains(sorted[k]));
        assert(grouped.contains(sorted[k]));
        let m = choose|m: int| 0 <= m < grouped.len() && grouped[m] == sorted[k];
        assert(is_last_submission(entries, grouped[m].sender_id, grouped[m].submission_id));
    }
    assert forall|i: int| 0 <= i < entries.len() implies has_sender(
        sorted,
        (#[trigger] entries[i]).sender(),
    ) by {
        assert(has_sender(grouped, entries[i].sender()));
        let m = choose|m: int|
            0 <= m < grouped.len() && (#[trigger] grouped[m]).sender_id == entries[i].sender();
        assert(grouped.contains(grouped[m]));
        assert(sorted.contains(grouped[m]));
        let k = choose|k: int| 0 <= k < sorted.len() && sorted[k] == grouped[m];
        assert(sorted[k].sender_id == entries[i].sender());
    }
}

/// Where `record` goes among `sorted`.
fn place_of_record(sorted: &Vec<SubmissionSenderId>, record: &SubmissionSenderId) -> (at: usize)
    ensures
        at == sorted_place(sorted@, *record),
{
    let mut at: usize = sorted.len();
    proof {
        assert(sorted@.take(at as int) == sorted@);
    }
    while at > 0 && record.is_before(&sorted[at - 1])
        invariant
            at <= sorted@.len(),
            sorted_place(sorted@, *record) == sorted_place(sorted@.take(at as int), *record),
        decreases at,
    {
        proof {
            assert(sorted@.take(at as int).drop_last() == sorted@.take(at - 1));
        }
        at = at - 1;
    }
    at
}

/// The records in their order: the latest submission first.
fn sort_records(records: &Vec<SubmissionSenderId>) -> (sorted: Vec<SubmissionSenderId>)
    ensures
        sorted@ == sort_by_submission(records@),
{
    let mut sorted: Vec<SubmissionSenderId> = Vec::new();
    let mut next: usize = 0;
    while next < records.len()
        invariant
            next <= records@.len(),
            sorted@ == sort_by_submission(records@.take(next as int)),
        decreases records@.len() - next,
    {
        let record = records[next];
        let at: usize = place_of_record(&sorted, &record);
        proof {
            assert(records@.take(next + 1).drop_last() == records@.take(next as int));
            assert(records@.take(next + 1).last() == record);
            lemma_sorted_place_bounds(sorted@, record);
        }
        sorted.insert(at, record);
        next = next + 1;
    }
    proof {
        assert(records@.take(next as int) == records@);
    }
    sorted
}

/// The place of a record lies within the sequence, or at its end.
pub proof fn lemma_sorted_place_bounds(sorted: Seq<SubmissionSenderId>, record: SubmissionSenderId)
    ensures
        0 <= sorted_place(sorted, record) <= sorted.len(),
    decreases sorted.len(),
{
    if sorted.len() > 0 && record.sorts_before(sorted.last()) {
        lemma_sorted_place_bounds(sorted.drop_last(), record);
    }
}

impl<T: ParkedOrd> ParkedPool<T> {
    /// One record for each sender in the pool, in the order of `by_id`,
    /// with the highest submission number among the sender's transactions.
    fn last_submissions(&self) -> (records: Vec<SubmissionSenderId>)
        ensures
            records@ == last_submissions(self.by_id()),
    {
        let mut records: Vec<SubmissionSenderId> = Vec::new();
        let mut next: usize = 0;
        while next < self.len()
            invariant
                next <= self.by_id().len(),
                records@ == last_submissions(self.by_id().take(next as int)),
            decreases self.by_id().len() - next,
        {
            let entry = self.entry(next);
            let sender = entry.handle().sender_id();
            let known: usize = records.len();
            proof {
                assert(self.by_id().take(next + 1).drop_last() == self.by_id().take(next as int));
                assert(self.by_id().take(next + 1).last() == *entry);
            }
            if known > 0 && records[known - 1].sender_id == sender {
                if records[known - 1].submission_id < entry.submission_id {
                    records[known - 1] = SubmissionSenderId::new(sender, entry.submission_id);
                }
            } else {
                records.push(SubmissionSenderId::new(sender, entry.submission_id));
            }
            next = next + 1;
        }
        proof {
            assert(self.by_id().take(next as int) == self.by_id());
        }
        records
    }

    /// The senders in the pool, each once, with the number of its last
    /// submission. The sender that submitted last comes first, the one that
    /// has gone longest without a submission comes last.
    pub fn get_senders_by_submission_id(&self) -> (senders: Vec<SubmissionSenderId>)
        requires
            self.wf(),
        ensures
            senders@ == senders_by_submission_id(self.by_id()),
            lists_senders_by_submission(self.by_id(), senders@),
    {
        let records = self.last_submissions();
        proof {
            lemma_senders_by_submission_id(self.by_id());
        }
        sort_records(&records)
    }
}

} // verus!
