use los_node::ledger::{Block, BlockType};
use los_node::mempool::{Mempool, TX_EXPIRATION_SECS};

fn create_test_block(account: &str, amount: u128) -> Block {
    Block {
        account: account.to_string(),
        previous: "0".to_string(),
        block_type: BlockType::Send,
        amount,
        link: "target_address".to_string(),
        signature: "test_signature".to_string(),
        public_key: "test_pubkey".to_string(),
        work: 0,
        timestamp: 1234567890,
        fee: 0,
    }
}

/// A hash that tells the test blocks apart (the node hashes the block's
/// contents; any injective naming does for the pool).
fn test_hash(block: &Block) -> String {
    format!("{}:{}:{}", block.account, block.amount, block.timestamp)
}

fn add(mempool: &mut Mempool, block: Block, fee: u64, priority: u64) -> Result<String, String> {
    let hash = test_hash(&block);
    mempool.add_transaction(hash, block, fee, priority)
}

#[test]
fn test_add_transaction() {
    let mut mempool = Mempool::new();
    let block = create_test_block("sender1", 1000);

    let result = add(&mut mempool, block, 100, 1000);
    assert!(result.is_ok());
    assert_eq!(mempool.len(), 1);
}

#[test]
fn test_duplicate_rejection() {
    let mut mempool = Mempool::new();
    let block = create_test_block("sender1", 1000);

    add(&mut mempool, block.clone(), 100, 1000).unwrap();
    let result = add(&mut mempool, block, 100, 1000);

    assert!(result.is_err());
    assert_eq!(mempool.len(), 1);
}

#[test]
fn test_priority_queue() {
    let mut mempool = Mempool::new();

    let block1 = create_test_block("sender1", 1000);
    let block2 = create_test_block("sender2", 2000);
    let block3 = create_test_block("sender3", 3000);

    add(&mut mempool, block1, 100, 500).unwrap(); // Low priority
    add(&mut mempool, block2, 200, 1000).unwrap(); // High priority
    add(&mut mempool, block3, 150, 750).unwrap(); // Medium priority

    let next = mempool.get_next_transactions(3);
    assert_eq!(next.len(), 3);

    // Highest priority should be first
    let first_tx = mempool.get_transaction(&next[0]).unwrap();
    assert_eq!(first_tx.priority, 1000);
}

#[test]
fn test_remove_transaction() {
    let mut mempool = Mempool::new();
    let block = create_test_block("sender1", 1000);

    let hash = add(&mut mempool, block, 100, 1000).unwrap();
    assert_eq!(mempool.len(), 1);

    let removed = mempool.remove_transaction(&hash);
    assert!(removed.is_some());
    assert_eq!(mempool.len(), 0);
}

#[test]
fn test_get_by_sender() {
    let mut mempool = Mempool::new();

    let block1 = create_test_block("sender1", 1000);
    let block2 = create_test_block("sender1", 2000);
    let block3 = create_test_block("sender2", 3000);

    add(&mut mempool, block1, 100, 1000).unwrap();
    add(&mut mempool, block2, 100, 1000).unwrap();
    add(&mut mempool, block3, 100, 1000).unwrap();

    let sender1_txs = mempool.get_transactions_by_sender("sender1");
    assert_eq!(sender1_txs.len(), 2);

    let sender2_txs = mempool.get_transactions_by_sender("sender2");
    assert_eq!(sender2_txs.len(), 1);
}

#[test]
fn add_returns_the_hash_and_refusal_messages() {
    let mut mempool = Mempool::new();
    let block = create_test_block("sender1", 1);
    assert_eq!(mempool.add_transaction("h1".to_string(), block.clone(), 1, 5), Ok("h1".to_string()));
    assert_eq!(
        mempool.add_transaction("h1".to_string(), block.clone(), 1, 5),
        Err("Transaction already in mempool".to_string())
    );
    let mut no_account = block.clone();
    no_account.account = String::new();
    assert_eq!(
        mempool.add_transaction("h2".to_string(), no_account, 1, 5),
        Err("Invalid block: empty account".to_string())
    );
    let mut unsigned = block;
    unsigned.signature = String::new();
    assert_eq!(
        mempool.add_transaction("h3".to_string(), unsigned, 1, 5),
        Err("Invalid block: missing signature".to_string())
    );
    let stats = mempool.stats();
    assert_eq!(stats.size, 1);
    assert_eq!(stats.total_received, 4);
    assert_eq!(stats.total_accepted, 1);
    assert_eq!(stats.total_rejected, 3);
    assert_eq!(stats.total_expired, 0);
    assert_eq!(stats.unique_senders, 1);
}

#[test]
fn next_transactions_order_by_priority_then_arrival() {
    let mut mempool = Mempool::new();
    for (name, priority) in [("a", 5u64), ("b", 9), ("c", 5), ("d", 7)] {
        let block = create_test_block(name, 1);
        mempool.add_transaction(name.to_string(), block, 0, priority).unwrap();
    }
    assert_eq!(mempool.get_next_transactions(10), vec!["b", "d", "a", "c"]);
    assert_eq!(mempool.get_next_transactions(2), vec!["b", "d"]);
    assert!(mempool.get_next_transactions(0).is_empty());
}

#[test]
fn expired_transactions_are_dropped_and_counted() {
    let mut mempool = Mempool::new();
    let old_block = create_test_block("old", 1);
    let new_block = create_test_block("new", 1);
    mempool.add_transaction_at("old".to_string(), old_block, 0, 1, 100).unwrap();
    mempool.add_transaction_at("new".to_string(), new_block, 0, 1, 50_000).unwrap();
    // Exactly the expiry age does not expire yet.
    assert_eq!(mempool.remove_expired_at(100 + TX_EXPIRATION_SECS), 0);
    assert_eq!(mempool.remove_expired_at(101 + TX_EXPIRATION_SECS), 1);
    assert!(!mempool.contains("old"));
    assert!(mempool.contains("new"));
    assert_eq!(mempool.stats().total_expired, 1);
    assert_eq!(mempool.get_transaction("new").unwrap().received_at, 50_000);
}

#[test]
fn add_then_remove_gives_the_transaction_back() {
    let mut mempool = Mempool::new();
    let block = create_test_block("s", 42);
    mempool.add_transaction_at("x".to_string(), block, 7, 9, 3).unwrap();
    let tx = mempool.remove_transaction("x").unwrap();
    assert_eq!(tx.fee, 7);
    assert_eq!(tx.priority, 9);
    assert_eq!(tx.received_at, 3);
    assert_eq!(tx.block.amount, 42);
    assert!(mempool.remove_transaction("x").is_none());
    assert!(mempool.is_empty());
}

#[test]
fn clear_empties_the_pool() {
    let mut mempool = Mempool::new();
    add(&mut mempool, create_test_block("a", 1), 0, 1).unwrap();
    add(&mut mempool, create_test_block("b", 1), 0, 1).unwrap();
    mempool.clear();
    assert!(mempool.is_empty());
    assert_eq!(mempool.stats().unique_senders, 0);
}
