use parked_pool::{
    BasefeeOrd, ParkedOrd, ParkedPool, ParkedPoolTransaction, QueuedOrd, SenderId, SubPoolLimit,
    SubmissionSenderId, TransactionId, ValidPoolTransaction,
};
use std::sync::Arc;

type Tx = Arc<ValidPoolTransaction<&'static str>>;

fn id(sender: u64, nonce: u64) -> TransactionId {
    TransactionId::new(SenderId::from(sender), nonce)
}

fn tx(sender: u64, nonce: u64, fee: u128, size: usize) -> Tx {
    Arc::new(ValidPoolTransaction {
        transaction: "payload",
        transaction_id: id(sender, nonce),
        max_fee_per_gas: fee,
        size,
        timestamp: 0,
    })
}

fn stamped(sender: u64, nonce: u64, fee: u128, timestamp: u64) -> Tx {
    Arc::new(ValidPoolTransaction {
        transaction: "payload",
        transaction_id: id(sender, nonce),
        max_fee_per_gas: fee,
        size: 1,
        timestamp,
    })
}

fn ids_in(pool: &ParkedPool<BasefeeOrd<&'static str>>) -> Vec<TransactionId> {
    pool.all().iter().map(|tx| *tx.id()).collect()
}

fn ids_of(txs: &[Tx]) -> Vec<TransactionId> {
    txs.iter().map(|tx| *tx.id()).collect()
}

fn pool_of(txs: &[Tx]) -> ParkedPool<BasefeeOrd<&'static str>> {
    let mut pool = ParkedPool::default();
    for tx in txs {
        pool.add_transaction(tx.clone());
    }
    pool
}

#[test]
fn empty_pool_holds_nothing() {
    let pool = ParkedPool::<BasefeeOrd<&'static str>>::default();
    assert_eq!(pool.len(), 0);
    assert_eq!(pool.size(), 0);
    assert!(pool.is_empty());
    assert!(pool.all().is_empty());
    assert!(!pool.contains(&id(0, 0)));
    assert!(pool.get_senders_by_submission_id().is_empty());
    assert!(pool.get_txs_by_sender(SenderId::from(0)).is_empty());
    assert!(pool.assert_invariants());
}

#[test]
fn add_counts_transactions_and_bytes() {
    let mut pool = ParkedPool::<BasefeeOrd<&'static str>>::default();
    pool.add_transaction(tx(1, 0, 10, 100));
    assert_eq!(pool.len(), 1);
    assert_eq!(pool.size(), 100);
    pool.add_transaction(tx(1, 1, 10, 23));
    pool.add_transaction(tx(0, 7, 10, 4));
    assert_eq!(pool.len(), 3);
    assert_eq!(pool.size(), 127);
    assert!(pool.contains(&id(1, 0)));
    assert!(pool.contains(&id(1, 1)));
    assert!(pool.contains(&id(0, 7)));
    assert!(!pool.contains(&id(0, 0)));
    assert!(!pool.is_empty());
    assert!(pool.assert_invariants());
}

#[test]
fn all_is_ascending_by_sender_then_nonce() {
    let pool = pool_of(&[
        tx(2, 5, 1, 1),
        tx(0, 9, 1, 1),
        tx(2, 1, 1, 1),
        tx(1, 0, 1, 1),
        tx(0, 3, 1, 1),
        tx(2, 3, 1, 1),
    ]);
    assert_eq!(
        ids_in(&pool),
        vec![id(0, 3), id(0, 9), id(1, 0), id(2, 1), id(2, 3), id(2, 5)]
    );
}

#[test]
fn all_hands_out_the_shared_transactions() {
    let first = tx(0, 0, 1, 1);
    let mut pool = ParkedPool::<BasefeeOrd<&'static str>>::default();
    pool.add_transaction(first.clone());
    let handles = pool.all();
    assert_eq!(handles.len(), 1);
    assert!(Arc::ptr_eq(&handles[0], &first));
    // one handle here, two in the pool, one handed out
    assert_eq!(Arc::strong_count(&first), 4);
    assert_eq!(pool.len(), 1);
}

#[test]
fn remove_gives_the_transaction_back() {
    let first = tx(3, 1, 10, 40);
    let second = tx(3, 2, 10, 2);
    let mut pool = pool_of(&[first.clone(), second.clone()]);
    let removed = pool.remove_transaction(&id(3, 1)).unwrap();
    assert!(Arc::ptr_eq(&removed, &first));
    assert_eq!(pool.len(), 1);
    assert_eq!(pool.size(), 2);
    assert!(!pool.contains(&id(3, 1)));
    assert!(pool.contains(&id(3, 2)));
    assert!(pool.assert_invariants());
    drop(removed);
    // the pool has let go of both of its handles
    assert_eq!(Arc::strong_count(&first), 1);
    assert_eq!(Arc::strong_count(&second), 3);
}

#[test]
fn remove_of_an_absent_transaction_is_none() {
    let mut pool = pool_of(&[tx(1, 0, 10, 5)]);
    assert!(pool.remove_transaction(&id(1, 1)).is_none());
    assert!(pool.remove_transaction(&id(0, 0)).is_none());
    assert_eq!(pool.len(), 1);
    assert_eq!(pool.size(), 5);
    assert!(pool.remove_transaction(&id(1, 0)).is_some());
    assert!(pool.remove_transaction(&id(1, 0)).is_none());
    assert_eq!(pool.len(), 0);
    assert_eq!(pool.size(), 0);
}

#[test]
fn add_then_remove_restores_the_pool() {
    let mut pool = pool_of(&[tx(0, 0, 5, 10), tx(0, 1, 6, 11), tx(2, 0, 5, 12)]);
    let before_ids = ids_in(&pool);
    let before_senders = pool.get_senders_by_submission_id();
    let added = tx(1, 4, 5, 99);
    pool.add_transaction(added.clone());
    assert_eq!(pool.len(), 4);
    assert_eq!(pool.size(), 132);
    let removed = pool.remove_transaction(added.id()).unwrap();
    assert!(Arc::ptr_eq(&removed, &added));
    assert_eq!(ids_in(&pool), before_ids);
    assert_eq!(pool.len(), 3);
    assert_eq!(pool.size(), 33);
    assert_eq!(pool.get_senders_by_submission_id(), before_senders);
    assert!(pool.assert_invariants());
}

#[test]
fn txs_by_sender_are_the_senders_run() {
    let pool = pool_of(&[
        tx(1, 7, 1, 1),
        tx(0, 0, 1, 1),
        tx(1, 2, 1, 1),
        tx(2, 0, 1, 1),
        tx(1, 4, 1, 1),
    ]);
    assert_eq!(pool.get_txs_by_sender(SenderId::from(1)), vec![id(1, 2), id(1, 4), id(1, 7)]);
    assert_eq!(pool.get_txs_by_sender(SenderId::from(0)), vec![id(0, 0)]);
    assert_eq!(pool.get_txs_by_sender(SenderId::from(2)), vec![id(2, 0)]);
    assert!(pool.get_txs_by_sender(SenderId::from(3)).is_empty());
}

#[test]
fn txs_by_sender_at_the_ends_of_the_range() {
    let pool = pool_of(&[
        tx(u64::MAX, u64::MAX, 1, 1),
        tx(0, 0, 1, 1),
        tx(u64::MAX, 0, 1, 1),
        tx(0, u64::MAX, 1, 1),
    ]);
    assert_eq!(pool.get_txs_by_sender(SenderId::from(0)), vec![id(0, 0), id(0, u64::MAX)]);
    assert_eq!(
        pool.get_txs_by_sender(SenderId::from(u64::MAX)),
        vec![id(u64::MAX, 0), id(u64::MAX, u64::MAX)]
    );
    assert!(pool.get_txs_by_sender(SenderId::from(1)).is_empty());
}

#[test]
fn senders_carry_their_last_submission() {
    // submissions 0..=5, in this order
    let pool = pool_of(&[
        tx(5, 1, 1, 1),
        tx(3, 0, 1, 1),
        tx(5, 0, 1, 1),
        tx(4, 0, 1, 1),
        tx(3, 1, 1, 1),
        tx(5, 2, 1, 1),
    ]);
    assert_eq!(
        pool.get_senders_by_submission_id(),
        vec![
            SubmissionSenderId { sender_id: SenderId::from(5), submission_id: 5 },
            SubmissionSenderId { sender_id: SenderId::from(3), submission_id: 4 },
            SubmissionSenderId { sender_id: SenderId::from(4), submission_id: 3 },
        ]
    );
}

#[test]
fn senders_occur_once_and_never_rise() {
    let mut pool = ParkedPool::<BasefeeOrd<&'static str>>::default();
    for round in 0..5u64 {
        for sender in [4u64, 1, 3, 0, 2] {
            if (sender + round) % 3 != 0 {
                pool.add_transaction(tx(sender, round, 1, 1));
            }
        }
    }
    let senders = pool.get_senders_by_submission_id();
    assert_eq!(senders.len(), 5);
    for (at, record) in senders.iter().enumerate() {
        for later in &senders[at + 1..] {
            assert_ne!(record.sender_id, later.sender_id);
            assert!(record.submission_id > later.submission_id);
        }
    }
}

#[test]
fn submission_counter_goes_on_after_a_removal() {
    let mut pool = pool_of(&[tx(0, 0, 1, 1), tx(1, 0, 1, 1)]);
    pool.remove_transaction(&id(1, 0));
    pool.add_transaction(tx(2, 0, 1, 1));
    assert_eq!(
        pool.get_senders_by_submission_id(),
        vec![
            SubmissionSenderId { sender_id: SenderId::from(2), submission_id: 2 },
            SubmissionSenderId { sender_id: SenderId::from(0), submission_id: 0 },
        ]
    );
}

#[test]
fn truncate_below_the_limit_removes_nothing() {
    let mut pool = pool_of(&[tx(0, 0, 1, 3), tx(1, 0, 1, 4)]);
    let removed = pool.truncate_pool(SubPoolLimit { max_txs: 2, max_size: 0 });
    assert!(removed.is_empty());
    assert_eq!(pool.len(), 2);
    assert_eq!(pool.size(), 7);
    let removed = pool.truncate_pool(SubPoolLimit { max_txs: 3, max_size: usize::MAX });
    assert!(removed.is_empty());
    assert_eq!(ids_in(&pool), vec![id(0, 0), id(1, 0)]);
}

#[test]
fn truncate_takes_the_oldest_senders_in_removal_order() {
    // sender 7 submitted first, then 2, then 5
    let mut pool = pool_of(&[
        tx(7, 0, 1, 1),
        tx(7, 1, 1, 1),
        tx(2, 0, 1, 1),
        tx(5, 0, 1, 1),
        tx(5, 1, 1, 1),
    ]);
    let removed = pool.truncate_pool(SubPoolLimit { max_txs: 2, max_size: usize::MAX });
    assert_eq!(ids_of(&removed), vec![id(7, 0), id(7, 1), id(2, 0)]);
    assert_eq!(ids_in(&pool), vec![id(5, 0), id(5, 1)]);
    assert_eq!(pool.size(), 2);
    assert!(pool.assert_invariants());
}

#[test]
fn truncate_takes_only_the_tail_of_the_last_sender() {
    // sender 1 is the oldest, with five transactions; three must go
    let mut pool = pool_of(&[
        tx(1, 0, 1, 10),
        tx(1, 1, 1, 20),
        tx(1, 2, 1, 30),
        tx(1, 3, 1, 40),
        tx(1, 4, 1, 50),
        tx(0, 0, 1, 1),
    ]);
    let removed = pool.truncate_pool(SubPoolLimit { max_txs: 3, max_size: usize::MAX });
    assert_eq!(ids_of(&removed), vec![id(1, 2), id(1, 3), id(1, 4)]);
    assert_eq!(ids_in(&pool), vec![id(0, 0), id(1, 0), id(1, 1)]);
    assert_eq!(pool.len(), 3);
    assert_eq!(pool.size(), 31);
}

#[test]
fn truncate_takes_one_from_a_long_run() {
    let mut pool = pool_of(&[
        tx(1, 0, 1, 1),
        tx(1, 1, 1, 1),
        tx(1, 2, 1, 1),
        tx(1, 3, 1, 1),
        tx(1, 4, 1, 1),
    ]);
    let removed = pool.truncate_pool(SubPoolLimit { max_txs: 4, max_size: usize::MAX });
    assert_eq!(ids_of(&removed), vec![id(1, 4)]);
    assert_eq!(ids_in(&pool), vec![id(1, 0), id(1, 1), id(1, 2), id(1, 3)]);
}

#[test]
fn truncate_goes_by_the_last_submission_of_a_sender() {
    // sender 0 came first, but has submitted again after sender 1
    let mut pool = pool_of(&[tx(0, 0, 1, 1), tx(1, 0, 1, 1), tx(1, 1, 1, 1), tx(0, 1, 1, 1)]);
    let removed = pool.truncate_pool(SubPoolLimit { max_txs: 1, max_size: usize::MAX });
    assert_eq!(ids_of(&removed), vec![id(1, 0), id(1, 1), id(0, 1)]);
    assert_eq!(ids_in(&pool), vec![id(0, 0)]);
}

#[test]
fn truncate_to_nothing_empties_the_pool() {
    let mut pool = pool_of(&[tx(0, 0, 1, 5), tx(1, 0, 1, 6), tx(0, 1, 1, 7)]);
    let removed = pool.truncate_pool(SubPoolLimit { max_txs: 0, max_size: 0 });
    assert_eq!(ids_of(&removed), vec![id(1, 0), id(0, 0), id(0, 1)]);
    assert!(pool.is_empty());
    assert_eq!(pool.size(), 0);
    assert!(pool.get_senders_by_submission_id().is_empty());
}

#[test]
fn a_fee_equal_to_the_base_fee_satisfies_it() {
    let mut pool = pool_of(&[tx(0, 0, 100, 1), tx(1, 0, 99, 1), tx(2, 0, 101, 1)]);
    assert_eq!(pool.satisfy_base_fee_ids(100), vec![id(0, 0), id(2, 0)]);
    let removed = pool.enforce_basefee(100);
    assert_eq!(ids_of(&removed), vec![id(0, 0), id(2, 0)]);
    assert_eq!(ids_in(&pool), vec![id(1, 0)]);
}

#[test]
fn a_parked_transaction_holds_back_the_later_ones() {
    let mut pool = pool_of(&[
        tx(0, 0, 50, 1),
        tx(0, 1, 10, 1),
        tx(0, 2, 50, 1),
        tx(0, 3, 50, 1),
        tx(1, 0, 50, 1),
        tx(1, 1, 50, 1),
        tx(2, 0, 10, 1),
        tx(2, 1, 50, 1),
    ]);
    assert_eq!(pool.satisfy_base_fee_ids(20), vec![id(0, 0), id(1, 0), id(1, 1)]);
    let removed = pool.enforce_basefee(20);
    assert_eq!(ids_of(&removed), vec![id(0, 0), id(1, 0), id(1, 1)]);
    assert_eq!(ids_in(&pool), vec![id(0, 1), id(0, 2), id(0, 3), id(2, 0), id(2, 1)]);
    assert_eq!(pool.size(), 5);
    assert!(pool.assert_invariants());
}

#[test]
fn satisfying_transactions_stay_in_the_pool() {
    let cheap = tx(0, 0, 5, 1);
    let dear = tx(1, 0, 500, 1);
    let pool = pool_of(&[cheap.clone(), dear.clone()]);
    let found = pool.satisfy_base_fee_transactions(6);
    assert_eq!(found.len(), 1);
    assert!(Arc::ptr_eq(&found[0], &dear));
    assert_eq!(pool.len(), 2);
    let found = pool.satisfy_base_fee_transactions(0);
    assert_eq!(ids_of(&found), vec![id(0, 0), id(1, 0)]);
    assert!(Arc::ptr_eq(&found[0], &cheap));
    assert_eq!(pool.len(), 2);
}

#[test]
fn the_highest_base_fee_removes_nothing_below_it() {
    let mut pool = pool_of(&[tx(0, 0, 1, 2), tx(1, 0, u64::MAX as u128 - 1, 3)]);
    let removed = pool.enforce_basefee(u64::MAX);
    assert!(removed.is_empty());
    assert_eq!(ids_in(&pool), vec![id(0, 0), id(1, 0)]);
    assert_eq!(pool.size(), 5);
}

#[test]
fn a_fee_beyond_sixty_four_bits_satisfies_every_base_fee() {
    let mut pool =
        pool_of(&[tx(0, 0, u64::MAX as u128, 1), tx(1, 0, u128::MAX, 1), tx(2, 0, 0, 1)]);
    let removed = pool.enforce_basefee(u64::MAX);
    assert_eq!(ids_of(&removed), vec![id(0, 0), id(1, 0)]);
    assert_eq!(ids_in(&pool), vec![id(2, 0)]);
}

#[test]
fn a_base_fee_of_zero_removes_everything() {
    let mut pool = pool_of(&[tx(0, 0, 0, 1), tx(0, 1, 9, 1), tx(4, 2, 0, 1)]);
    let removed = pool.enforce_basefee(0);
    assert_eq!(ids_of(&removed), vec![id(0, 0), id(0, 1), id(4, 2)]);
    assert!(pool.is_empty());
}

#[test]
fn a_second_sweep_removes_nothing() {
    for basefee in [0u64, 5, 10, 11, 50, 51, u64::MAX] {
        let mut pool = pool_of(&[
            tx(0, 0, 10, 1),
            tx(0, 1, 50, 1),
            tx(1, 0, 50, 1),
            tx(1, 1, 10, 1),
            tx(1, 2, 50, 1),
            tx(2, 0, 5, 1),
        ]);
        pool.enforce_basefee(basefee);
        let kept = ids_in(&pool);
        let size = pool.size();
        let again = pool.enforce_basefee(basefee);
        assert!(again.is_empty());
        assert_eq!(ids_in(&pool), kept);
        assert_eq!(pool.size(), size);
        assert!(pool.assert_invariants());
    }
}

#[test]
fn both_orders_agree_after_removals() {
    let mut pool = ParkedPool::<BasefeeOrd<&'static str>>::default();
    let mut state: u64 = 0x9e37_79b9_7f4a_7c15;
    let mut held: Vec<TransactionId> = Vec::new();
    let mut bytes = 0usize;
    for step in 0..200u64 {
        state = state.wrapping_mul(6364136223846793005).wrapping_add(1442695040888963407);
        let sender = (state >> 33) % 7;
        let fee = ((state >> 13) % 5) as u128;
        let size = ((state >> 50) % 100) as usize;
        pool.add_transaction(tx(sender, step, fee, size));
        held.push(id(sender, step));
        bytes += size;
    }
    assert!(pool.assert_invariants());
    assert_eq!(pool.size(), bytes);
    let mut left = 200;
    for (at, id) in held.iter().enumerate() {
        state = state.wrapping_mul(6364136223846793005).wrapping_add(1442695040888963407);
        if (state >> 40) % 2 == 0 {
            let removed = pool.remove_transaction(id).unwrap();
            assert_eq!(removed.id(), id);
            bytes -= removed.size();
            left -= 1;
            assert!(!pool.contains(id));
        } else {
            assert!(pool.contains(id));
        }
        assert!(pool.assert_invariants());
        assert_eq!(pool.len(), left);
        assert_eq!(pool.size(), bytes);
        assert!(at < 200);
    }
    let kept = ids_in(&pool);
    assert_eq!(kept.len(), left);
    assert!(kept.windows(2).all(|pair| pair[0] < pair[1]));
}

#[test]
fn a_copy_of_the_pool_goes_its_own_way() {
    let mut pool = pool_of(&[tx(0, 0, 1, 4), tx(0, 1, 1, 5)]);
    let mut copy = pool.clone();
    copy.remove_transaction(&id(0, 0));
    copy.add_transaction(tx(9, 9, 1, 6));
    assert_eq!(ids_in(&pool), vec![id(0, 0), id(0, 1)]);
    assert_eq!(pool.size(), 9);
    assert_eq!(ids_in(&copy), vec![id(0, 1), id(9, 9)]);
    assert_eq!(copy.size(), 11);
    // both took the submission number 2 for their next transaction
    pool.add_transaction(tx(5, 0, 1, 1));
    assert_eq!(pool.get_senders_by_submission_id()[0].submission_id, 2);
    assert_eq!(copy.get_senders_by_submission_id()[0].submission_id, 2);
}

#[test]
fn identifiers_are_ordered_by_sender_then_nonce() {
    assert!(id(0, 5).is_before(&id(1, 0)));
    assert!(id(1, 0).is_before(&id(1, 1)));
    assert!(!id(1, 1).is_before(&id(1, 1)));
    assert!(!id(1, 1).is_before(&id(1, 0)));
    assert!(!id(2, 0).is_before(&id(1, 9)));
    assert!(id(0, u64::MAX).is_before(&id(1, 0)));
    // the derived order is the same one
    assert!(id(0, 5) < id(1, 0));
    assert!(id(1, 0) < id(1, 1));
    assert!(id(2, 0) > id(1, 9));
    assert_eq!(id(3, 3), id(3, 3));
}

#[test]
fn start_bound_is_the_senders_lowest_identifier() {
    let sender = SenderId::from(4);
    assert_eq!(sender.start_bound(), id(4, 0));
    assert!(!id(4, 0).is_before(&sender.start_bound()));
    assert!(id(3, u64::MAX).is_before(&sender.start_bound()));
    assert_eq!(SenderId::from(17), SenderId(17));
}

#[test]
fn validated_transaction_gives_its_parts() {
    let tx = stamped(6, 2, 77, 1234);
    assert_eq!(*tx.id(), id(6, 2));
    assert_eq!(tx.sender_id(), SenderId::from(6));
    assert_eq!(tx.nonce(), 2);
    assert_eq!(tx.max_fee_per_gas(), 77);
    assert_eq!(tx.size(), 1);
    assert_eq!(tx.timestamp, 1234);
}

#[test]
fn basefee_order_ranks_by_fee_alone() {
    let low = BasefeeOrd::from(stamped(0, 0, 5, 100));
    let high = BasefeeOrd::from(stamped(1, 0, 6, 1));
    let tie = BasefeeOrd::from(stamped(2, 0, 5, 1));
    assert!(low.is_below(&high));
    assert!(!high.is_below(&low));
    assert!(!low.is_below(&tie));
    assert!(!tie.is_below(&low));
    assert!(!low.is_below(&low));
}

#[test]
fn queued_order_ranks_by_fee_then_age() {
    let low = QueuedOrd::from(stamped(0, 0, 5, 1));
    let high = QueuedOrd::from(stamped(1, 0, 6, 100));
    let young = QueuedOrd::from(stamped(2, 0, 5, 2));
    let twin = QueuedOrd::from(stamped(3, 0, 5, 1));
    // the higher fee is the better one, whatever the age
    assert!(low.is_below(&high));
    assert!(!high.is_below(&low));
    // of two with the same fee the older one is the better one
    assert!(young.is_below(&low));
    assert!(!low.is_below(&young));
    assert!(!low.is_below(&twin));
    assert!(!twin.is_below(&low));
}

#[test]
fn wrappers_hold_the_shared_transaction() {
    let shared = stamped(0, 0, 5, 1);
    let wrapped = BasefeeOrd::from(shared.clone());
    assert!(Arc::ptr_eq(&wrapped, &shared));
    assert_eq!(wrapped.max_fee_per_gas(), 5);
    let copy = wrapped.clone();
    assert!(Arc::ptr_eq(&copy, &shared));
    assert_eq!(Arc::strong_count(&shared), 3);
    let handle: Tx = copy.into();
    assert!(Arc::ptr_eq(&handle, &shared));
    assert!(Arc::ptr_eq(&Tx::from(wrapped), &shared));
    assert_eq!(Arc::strong_count(&shared), 2);
    let queued = QueuedOrd::from(shared.clone());
    assert!(Arc::ptr_eq(&queued.clone(), &shared));
    assert_eq!(queued.timestamp, 1);
    let handle: Tx = queued.into();
    assert!(Arc::ptr_eq(&handle, &shared));
}

#[test]
fn records_rank_the_older_submission_above_on_a_tie() {
    let older = ParkedPoolTransaction {
        submission_id: 3,
        transaction: BasefeeOrd::from(stamped(0, 0, 5, 1)),
    };
    let newer = ParkedPoolTransaction {
        submission_id: 4,
        transaction: BasefeeOrd::from(stamped(1, 0, 5, 1)),
    };
    let dear = ParkedPoolTransaction {
        submission_id: 9,
        transaction: BasefeeOrd::from(stamped(2, 0, 6, 1)),
    };
    assert!(newer.is_below(&older));
    assert!(!older.is_below(&newer));
    assert!(older.is_below(&dear));
    assert!(newer.is_below(&dear));
    assert!(!dear.is_below(&newer));
    assert!(!older.is_below(&older));
    assert_eq!(older.transaction_id(), id(0, 0));
    assert_eq!(newer.clone().submission_id, 4);
    assert_eq!(newer.handle().nonce(), 0);
    assert_eq!(*dear.into_handle().id(), id(2, 0));
    let made = ParkedPoolTransaction::<BasefeeOrd<&'static str>>::new(7, stamped(4, 4, 1, 1));
    assert_eq!(made.submission_id, 7);
    assert_eq!(made.transaction_id(), id(4, 4));
}

#[test]
fn submission_records_sort_the_latest_first() {
    let early = SubmissionSenderId::new(SenderId::from(9), 1);
    let late = SubmissionSenderId::new(SenderId::from(0), 2);
    let twin = SubmissionSenderId::new(SenderId::from(3), 2);
    assert!(late.is_before(&early));
    assert!(!early.is_before(&late));
    assert!(late.is_before(&twin));
    assert!(!twin.is_before(&late));
    assert!(!late.is_before(&late));
    assert_eq!(early.sender_id, SenderId::from(9));
    assert_eq!(early.submission_id, 1);
}

#[test]
fn a_queued_pool_keeps_both_orders() {
    let mut pool = ParkedPool::<QueuedOrd<&'static str>>::default();
    pool.add_transaction(stamped(1, 1, 9, 30));
    pool.add_transaction(stamped(1, 0, 9, 20));
    pool.add_transaction(stamped(0, 0, 3, 10));
    pool.add_transaction(stamped(2, 0, 9, 20));
    assert!(pool.assert_invariants());
    assert_eq!(pool.len(), 4);
    assert_eq!(pool.size(), 4);
    assert_eq!(pool.get_txs_by_sender(SenderId::from(1)), vec![id(1, 0), id(1, 1)]);
    let removed = pool.truncate_pool(SubPoolLimit { max_txs: 1, max_size: usize::MAX });
    let removed: Vec<TransactionId> = removed.iter().map(|tx| *tx.id()).collect();
    assert_eq!(removed, vec![id(1, 0), id(1, 1), id(0, 0)]);
    assert!(pool.contains(&id(2, 0)));
    assert!(pool.assert_invariants());
}
