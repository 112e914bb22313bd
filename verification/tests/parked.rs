use parked_pool::{
    BasefeeOrd, ParkedPool, SenderId, SubPoolLimit, TransactionId, ValidPoolTransaction,
};
use std::collections::HashSet;
use std::sync::Arc;

/// The lowest base fee that the protocol allows.
const MIN_PROTOCOL_BASE_FEE: u128 = 7;

type Address = [u8; 20];

fn address(last: u8) -> Address {
    let mut bytes = [0u8; 20];
    bytes[19] = last;
    bytes
}

/// A transaction with a dynamic fee, as far as a pool is concerned.
#[derive(Clone, Debug)]
struct MockTransaction {
    sender: Address,
    nonce: u64,
    max_fee_per_gas: u128,
}

impl MockTransaction {
    fn eip1559() -> Self {
        MockTransaction { sender: address(0xee), nonce: 0, max_fee_per_gas: MIN_PROTOCOL_BASE_FEE }
    }

    fn sender(&self) -> Address {
        self.sender
    }

    fn nonce(&self) -> u64 {
        self.nonce
    }

    fn inc_price(&self) -> Self {
        self.inc_price_by(1)
    }

    fn inc_price_by(&self, value: u128) -> Self {
        let mut next = self.clone();
        next.max_fee_per_gas = self.max_fee_per_gas.checked_add(value).unwrap();
        next
    }

    fn decr_price(&self) -> Self {
        let mut next = self.clone();
        next.max_fee_per_gas = self.max_fee_per_gas.checked_sub(1).unwrap();
        next
    }

    fn inc_nonce(&self) -> Self {
        let mut next = self.clone();
        next.nonce = self.nonce + 1;
        next
    }
}

/// Transactions of one sender with consecutive nonces.
fn dependent(sender: Address, nonce: u64, count: u64) -> Vec<MockTransaction> {
    (0..count)
        .map(|offset| MockTransaction {
            sender,
            nonce: nonce + offset,
            max_fee_per_gas: MIN_PROTOCOL_BASE_FEE,
        })
        .collect()
}

/// Hands out one handle per address, counting up from 0.
#[derive(Default)]
struct SenderIdentifiers {
    known: Vec<(Address, SenderId)>,
}

impl SenderIdentifiers {
    fn sender_id(&self, address: &Address) -> Option<SenderId> {
        self.known.iter().find(|(known, _)| known == address).map(|(_, id)| *id)
    }

    fn sender_id_or_create(&mut self, address: Address) -> SenderId {
        if let Some(id) = self.sender_id(&address) {
            return id;
        }
        let id = SenderId::from(self.known.len() as u64);
        self.known.push((address, id));
        id
    }
}

/// Turns mock transactions into validated ones.
#[derive(Default)]
struct MockTransactionFactory {
    ids: SenderIdentifiers,
    clock: u64,
}

impl MockTransactionFactory {
    fn validated_arc(
        &mut self,
        transaction: MockTransaction,
    ) -> Arc<ValidPoolTransaction<MockTransaction>> {
        let sender = self.ids.sender_id_or_create(transaction.sender);
        self.clock += 1;
        Arc::new(ValidPoolTransaction {
            transaction_id: TransactionId::new(sender, transaction.nonce),
            max_fee_per_gas: transaction.max_fee_per_gas,
            size: 1,
            timestamp: self.clock,
            transaction,
        })
    }
}

#[test]
fn test_enforce_parked_basefee() {
    let mut f = MockTransactionFactory::default();
    let mut pool = ParkedPool::<BasefeeOrd<MockTransaction>>::default();
    let tx = f.validated_arc(MockTransaction::eip1559().inc_price());
    pool.add_transaction(tx.clone());

    assert!(pool.contains(tx.id()));
    assert_eq!(pool.len(), 1);

    let removed = pool.enforce_basefee(u64::MAX);
    assert!(removed.is_empty());

    let removed = pool.enforce_basefee((tx.max_fee_per_gas() - 1) as u64);
    assert_eq!(removed.len(), 1);
    assert!(pool.is_empty());
}

#[test]
fn test_enforce_parked_basefee_descendant() {
    let mut f = MockTransactionFactory::default();
    let mut pool = ParkedPool::<BasefeeOrd<MockTransaction>>::default();
    let t = MockTransaction::eip1559().inc_price_by(10);
    let root_tx = f.validated_arc(t.clone());
    pool.add_transaction(root_tx.clone());

    let descendant_tx = f.validated_arc(t.inc_nonce().decr_price());
    pool.add_transaction(descendant_tx.clone());

    assert!(pool.contains(root_tx.id()));
    assert!(pool.contains(descendant_tx.id()));
    assert_eq!(pool.len(), 2);

    let removed = pool.enforce_basefee(u64::MAX);
    assert!(removed.is_empty());
    assert_eq!(pool.len(), 2);
    // two dependent tx in the pool with decreasing fee

    {
        let mut pool2 = pool.clone();
        let removed = pool2.enforce_basefee(root_tx.max_fee_per_gas() as u64);
        assert_eq!(removed.len(), 1);
        assert_eq!(pool2.len(), 1);
        // root got popped - descendant should be skipped
        assert!(!pool2.contains(root_tx.id()));
        assert!(pool2.contains(descendant_tx.id()));
    }

    // remove root transaction via descendant tx fee
    let removed = pool.enforce_basefee(descendant_tx.max_fee_per_gas() as u64);
    assert_eq!(removed.len(), 2);
    assert!(pool.is_empty());
}

#[test]
fn truncate_parked_by_submission_id() {
    // this test ensures that we evict from the pool by sender
    let mut f = MockTransactionFactory::default();
    let mut pool = ParkedPool::<BasefeeOrd<MockTransaction>>::default();

    let a_sender = address(0x0a);
    let b_sender = address(0x0b);
    let c_sender = address(0x0c);
    let d_sender = address(0x0d);

    // create a chain of transactions by sender A, B, C
    let mut tx_set = dependent(a_sender, 0, 4);
    let a = tx_set.clone();

    let b = dependent(b_sender, 0, 3);
    tx_set.extend(b.clone());

    // C has the same number of txs as B
    let c = dependent(c_sender, 0, 3);
    tx_set.extend(c.clone());

    let d = dependent(d_sender, 0, 1);
    tx_set.extend(d.clone());

    let all_txs = tx_set;

    // just construct a list of all txs to add
    let expected_parked = vec![c[0].clone(), c[1].clone(), c[2].clone(), d[0].clone()]
        .into_iter()
        .map(|tx| (tx.sender(), tx.nonce()))
        .collect::<HashSet<_>>();

    // we expect the truncate operation to go through the senders and to remove the
    // transactions of those that have gone longest without a submission, until the pool is
    // not over the limit
    let expected_removed = vec![
        a[0].clone(),
        a[1].clone(),
        a[2].clone(),
        a[3].clone(),
        b[0].clone(),
        b[1].clone(),
        b[2].clone(),
    ]
    .into_iter()
    .map(|tx| (tx.sender(), tx.nonce()))
    .collect::<HashSet<_>>();

    // add all the transactions to the pool
    for tx in all_txs {
        pool.add_transaction(f.validated_arc(tx));
    }

    // we should end up with the most recently submitted transactions
    let pool_limit = SubPoolLimit { max_txs: 4, max_size: usize::MAX };

    // truncate the pool
    let removed = pool.truncate_pool(pool_limit);
    assert_eq!(removed.len(), expected_removed.len());

    // get the inner txs from the removed txs
    let removed = removed
        .into_iter()
        .map(|tx| (tx.transaction.sender(), tx.transaction.nonce()))
        .collect::<HashSet<_>>();
    assert_eq!(removed, expected_removed);

    // get the parked pool
    let parked = pool.all();
    assert_eq!(parked.len(), expected_parked.len());

    // get the inner txs from the parked txs
    let parked = parked
        .into_iter()
        .map(|tx| (tx.transaction.sender(), tx.transaction.nonce()))
        .collect::<HashSet<_>>();
    assert_eq!(parked, expected_parked);
}

#[test]
fn test_senders_by_submission_id() {
    // this test ensures that we evict from the pool by sender
    let mut f = MockTransactionFactory::default();
    let mut pool = ParkedPool::<BasefeeOrd<MockTransaction>>::default();

    let a_sender = address(0x0a);
    let b_sender = address(0x0b);
    let c_sender = address(0x0c);
    let d_sender = address(0x0d);

    // create a chain of transactions by sender A, B, C
    let mut tx_set = dependent(a_sender, 0, 4);
    let a = tx_set.clone();

    let b = dependent(b_sender, 0, 3);
    tx_set.extend(b.clone());

    // C has the same number of txs as B
    let c = dependent(c_sender, 0, 3);
    tx_set.extend(c.clone());

    let d = dependent(d_sender, 0, 1);
    tx_set.extend(d.clone());

    let all_txs = tx_set;

    // add all the transactions to the pool
    for tx in all_txs {
        pool.add_transaction(f.validated_arc(tx));
    }

    // get senders by submission id - a4, b3, c3, d1, reversed
    let senders = pool
        .get_senders_by_submission_id()
        .into_iter()
        .map(|s| s.sender_id)
        .collect::<Vec<_>>();
    assert_eq!(senders.len(), 4);
    let expected_senders = vec![d_sender, c_sender, b_sender, a_sender]
        .into_iter()
        .map(|s| f.ids.sender_id(&s).unwrap())
        .collect::<Vec<_>>();
    assert_eq!(senders, expected_senders);

    // manually order the txs
    let mut pool = ParkedPool::<BasefeeOrd<MockTransaction>>::default();
    let all_txs = vec![d[0].clone(), b[0].clone(), c[0].clone(), a[0].clone()];

    // add all the transactions to the pool
    for tx in all_txs {
        pool.add_transaction(f.validated_arc(tx));
    }

    let senders = pool
        .get_senders_by_submission_id()
        .into_iter()
        .map(|s| s.sender_id)
        .collect::<Vec<_>>();
    assert_eq!(senders.len(), 4);
    let expected_senders = vec![a_sender, c_sender, b_sender, d_sender]
        .into_iter()
        .map(|s| f.ids.sender_id(&s).unwrap())
        .collect::<Vec<_>>();
    assert_eq!(senders, expected_senders);
}
