use trie_witness::blob_pool::{
    BestTransactionsAttributes, BlobTransactions, PendingFees, PoolTransaction, TransactionId,
};

fn tx(sender: u64, nonce: u64, blob_fee: u128, gas_fee: u128) -> PoolTransaction {
    PoolTransaction {
        id: TransactionId { sender, nonce },
        size: 100,
        is_eip4844: true,
        max_fee_per_gas: gas_fee,
        max_fee_per_blob_gas: Some(blob_fee),
    }
}

#[test]
fn add_remove_and_size_tracking() {
    let mut pool = BlobTransactions::new();
    assert!(pool.is_empty());
    pool.add_transaction(tx(1, 0, 100, 100));
    pool.add_transaction(tx(2, 0, 100, 100));
    assert_eq!(pool.len(), 2);
    assert_eq!(pool.size(), 200);
    assert!(pool.contains(&TransactionId { sender: 1, nonce: 0 }));
    pool.assert_invariants();
    let removed = pool.remove_transaction(&TransactionId { sender: 1, nonce: 0 });
    assert_eq!(removed.unwrap().id, TransactionId { sender: 1, nonce: 0 });
    assert_eq!(pool.len(), 1);
    assert_eq!(pool.size(), 100);
    assert!(!pool.contains(&TransactionId { sender: 1, nonce: 0 }));
    assert!(pool.remove_transaction(&TransactionId { sender: 9, nonce: 9 }).is_none());
    pool.assert_invariants();
}

#[test]
fn satisfy_attributes_reports_nothing() {
    let mut pool = BlobTransactions::new();
    pool.add_transaction(tx(1, 0, 100, 100));
    let attrs = BestTransactionsAttributes { basefee: 1, blob_fee: Some(1) };
    assert!(pool.satisfy_attributes(attrs).is_empty());
}

#[test]
fn fee_scan_skips_a_failing_senders_tail() {
    let mut pool = BlobTransactions::new();
    // sender 1: nonce 0 passes, nonce 1 fails, nonce 2 would pass but is
    // parked behind the failure
    pool.add_transaction(tx(1, 0, 100, 100));
    pool.add_transaction(tx(1, 1, 5, 100));
    pool.add_transaction(tx(1, 2, 100, 100));
    // sender 2 passes on both fees
    pool.add_transaction(tx(2, 0, 50, 80));
    let fees = PendingFees { base_fee: 60, blob_fee: 40 };
    let ids = pool.satisfy_pending_fee_ids(&fees);
    assert_eq!(
        ids,
        vec![TransactionId { sender: 1, nonce: 0 }, TransactionId { sender: 2, nonce: 0 }]
    );
}

#[test]
fn enforce_pending_fees_removes_the_satisfying_set() {
    let mut pool = BlobTransactions::new();
    pool.add_transaction(tx(1, 0, 100, 100));
    pool.add_transaction(tx(1, 1, 5, 100));
    pool.add_transaction(tx(2, 0, 50, 80));
    let fees = PendingFees { base_fee: 60, blob_fee: 40 };
    let removed = pool.enforce_pending_fees(&fees);
    assert_eq!(removed.len(), 2);
    assert_eq!(removed[0].id, TransactionId { sender: 1, nonce: 0 });
    assert_eq!(removed[1].id, TransactionId { sender: 2, nonce: 0 });
    // the parked descendant stays behind
    assert_eq!(pool.len(), 1);
    assert!(pool.contains(&TransactionId { sender: 1, nonce: 1 }));
    pool.assert_invariants();
}

#[test]
fn blob_fee_cap_below_minimum_fails_the_scan() {
    let mut pool = BlobTransactions::new();
    let mut t = tx(3, 0, 100, 100);
    t.max_fee_per_blob_gas = None;
    pool.add_transaction(t);
    let fees = PendingFees { base_fee: 0, blob_fee: 0 };
    assert!(pool.satisfy_pending_fee_ids(&fees).is_empty());
}

#[test]
fn submission_tags_increase() {
    let mut pool = BlobTransactions::new();
    assert_eq!(pool.next_id(), 0);
    assert_eq!(pool.next_id(), 1);
    pool.add_transaction(tx(1, 0, 1, 1));
    assert_eq!(pool.next_id(), 3);
}
