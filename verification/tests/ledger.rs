use los_node::ledger::{circulating_supply, supply_from_peer, AccountState, Block, BlockType, LedgerState, TOTAL_SUPPLY_CIL};
use los_node::metrics::ledger_metrics;

fn block(account: &str, amount: u128) -> Block {
    Block {
        account: account.to_string(),
        previous: "0".to_string(),
        block_type: BlockType::Send,
        amount,
        link: "to".to_string(),
        signature: "sig".to_string(),
        public_key: "pk".to_string(),
        work: 0,
        timestamp: 1,
        fee: 0,
    }
}

fn account(head: &str, balance: u128, count: u64) -> AccountState {
    AccountState { head: head.to_string(), balance, block_count: count, is_validator: false }
}

#[test]
fn blocks_are_added_once() {
    let mut l = LedgerState::new(1_000);
    assert!(l.insert_block("h1".to_string(), block("a", 5)));
    assert!(!l.insert_block("h1".to_string(), block("a", 9)));
    assert_eq!(l.block_count(), 1);
    assert_eq!(l.block("h1").unwrap().amount, 5);
    assert!(l.block("h2").is_none());
}

#[test]
fn accounts_are_set_and_read() {
    let mut l = LedgerState::new(0);
    assert!(l.account("a").is_none());
    l.set_account("a".to_string(), account("x", 10, 1));
    l.set_account("a".to_string(), account("y", 20, 2));
    let a = l.account("a").unwrap();
    assert_eq!(a.head, "y");
    assert_eq!(a.balance, 20);
    assert_eq!(a.block_count, 2);
}

#[test]
fn claimed_sends_are_remembered() {
    let mut l = LedgerState::new(0);
    assert!(!l.is_claimed("s1"));
    l.claim_send("s1".to_string());
    l.claim_send("s1".to_string());
    assert!(l.is_claimed("s1"));
    assert!(!l.is_claimed("s2"));
}

#[test]
fn merge_adopts_longer_chains_and_missing_blocks() {
    let mut ours = LedgerState::new(500);
    ours.accumulated_fees_cil = 7;
    ours.set_account("a".to_string(), account("a3", 30, 3));
    ours.set_account("b".to_string(), account("b1", 10, 1));
    ours.insert_block("h1".to_string(), block("a", 1));

    let mut theirs = LedgerState::new(400);
    theirs.accumulated_fees_cil = 5;
    theirs.set_account("a".to_string(), account("a2", 99, 2));
    theirs.set_account("b".to_string(), account("b4", 40, 4));
    theirs.set_account("c".to_string(), account("c1", 1, 1));
    theirs.insert_block("h1".to_string(), block("a", 1000));
    theirs.insert_block("h2".to_string(), block("b", 2));
    theirs.claim_send("s9".to_string());

    assert_eq!(ours.merge_from_peer(&theirs), 1);
    assert_eq!(ours.account("a").unwrap().head, "a3");
    assert_eq!(ours.account("b").unwrap().head, "b4");
    assert_eq!(ours.account("c").unwrap().balance, 1);
    assert_eq!(ours.block("h1").unwrap().amount, 1);
    assert_eq!(ours.block("h2").unwrap().amount, 2);
    assert_eq!(ours.block_count(), 2);
    assert!(ours.is_claimed("s9"));
    assert_eq!(ours.remaining_supply, 400);
    assert_eq!(ours.accumulated_fees_cil, 7);

    // Merging the same state again changes nothing.
    assert_eq!(ours.merge_from_peer(&theirs), 0);
    assert_eq!(ours.block_count(), 2);
    assert_eq!(ours.account("b").unwrap().block_count, 4);
}

fn chain_block(account: &str, block_type: BlockType, previous: &str, link: &str, amount: u128) -> Block {
    let mut b = block(account, amount);
    b.block_type = block_type;
    b.previous = previous.to_string();
    b.link = link.to_string();
    b
}

#[test]
fn history_walks_the_chain_newest_first() {
    let mut l = LedgerState::new(0);
    l.insert_block("h1".to_string(), chain_block("A", BlockType::Mint, "0", "genesis_src", 100));
    l.insert_block("h2".to_string(), chain_block("A", BlockType::Send, "h1", "B", 40));
    l.insert_block("sB".to_string(), chain_block("B", BlockType::Send, "0", "A", 7));
    l.insert_block("h3".to_string(), chain_block("A", BlockType::Receive, "h2", "sB", 7));
    l.set_account("A".to_string(), account("h3", 67, 3));

    let h = l.transaction_history("A");
    let rows: Vec<(&str, &str, &str, u128)> =
        h.iter().map(|e| (e.hash.as_str(), e.from.as_str(), e.to.as_str(), e.amount)).collect();
    assert_eq!(
        rows,
        vec![("h3", "B", "A", 7), ("h2", "A", "B", 40), ("h1", "SYSTEM", "genesis_src", 100)]
    );
    assert_eq!(h[1].block_type, BlockType::Send);
    assert!(l.transaction_history("nobody").is_empty());
}

#[test]
fn history_stops_at_a_missing_block_and_receive_of_unknown_send() {
    let mut l = LedgerState::new(0);
    l.insert_block("r1".to_string(), chain_block("A", BlockType::Receive, "gone", "unknown", 5));
    l.set_account("A".to_string(), account("r1", 5, 2));
    let h = l.transaction_history("A");
    assert_eq!(h.len(), 1);
    assert_eq!(h[0].from, "SYSTEM");
    assert_eq!(h[0].to, "A");
}

#[test]
fn history_of_a_looping_chain_is_cut_at_the_block_count() {
    let mut l = LedgerState::new(0);
    l.insert_block("c1".to_string(), chain_block("C", BlockType::Change, "c2", "rep", 0));
    l.insert_block("c2".to_string(), chain_block("C", BlockType::Change, "c1", "rep", 0));
    l.insert_block("x".to_string(), chain_block("X", BlockType::Mint, "0", "src", 1));
    l.set_account("C".to_string(), account("c1", 0, 2));
    let hashes: Vec<String> = l.transaction_history("C").into_iter().map(|e| e.hash).collect();
    assert_eq!(hashes, vec!["c1", "c2", "c1"]);
}

#[test]
fn ledger_metrics_count_stored_blocks_and_validators() {
    let mut l = LedgerState::new(0);
    l.insert_block("a".to_string(), chain_block("A", BlockType::Send, "0", "B", 1));
    l.insert_block("b".to_string(), chain_block("B", BlockType::Receive, "0", "a", 1));
    l.insert_block("c".to_string(), chain_block("A", BlockType::Mint, "a", "src", 1));
    l.insert_block("d".to_string(), chain_block("A", BlockType::Send, "c", "B", 1));
    l.insert_block("d".to_string(), chain_block("A", BlockType::Mint, "c", "B", 1));
    let mut v = account("d", 5_000, 3);
    v.is_validator = true;
    l.set_account("A".to_string(), v);
    let mut small = account("b", 10, 1);
    small.is_validator = true;
    l.set_account("B".to_string(), small);
    l.set_account("C".to_string(), account("0", 1_000_000, 0));
    let c = ledger_metrics(&l, 1_000);
    assert_eq!(c.blocks_total, 4);
    assert_eq!(c.accounts_total, 3);
    assert_eq!(c.active_validators, 1);
    assert_eq!(c.send_blocks, 2);
    assert_eq!(c.receive_blocks, 1);
    assert_eq!(c.mint_blocks, 1);
    assert_eq!(l.block_types().len(), 4);
    assert_eq!(l.account_summaries().len(), 3);
}

#[test]
fn circulating_supply_is_total_less_remaining() {
    assert_eq!(TOTAL_SUPPLY_CIL, 2_193_623_600_000_000_000);
    assert_eq!(circulating_supply(0), TOTAL_SUPPLY_CIL);
    assert_eq!(circulating_supply(5), TOTAL_SUPPLY_CIL - 5);
    assert_eq!(circulating_supply(TOTAL_SUPPLY_CIL), 0);
    assert_eq!(circulating_supply(TOTAL_SUPPLY_CIL + 1), 0);
}

#[test]
fn peer_supply_claims_are_checked_against_our_mints() {
    let cap = 10_000u128;
    // Our count: 10 000 - 3 000 = 7 000, tolerance 100.
    assert_eq!(supply_from_peer(7_050, 8_000, 3_000, cap), Some(7_000));
    assert_eq!(supply_from_peer(6_900, 8_000, 3_000, cap), Some(7_000));
    assert_eq!(supply_from_peer(6_899, 8_000, 3_000, cap), None);
    assert_eq!(supply_from_peer(7_101, 8_000, 3_000, cap), None);
    // Only a smaller, non-zero claim is considered.
    assert_eq!(supply_from_peer(7_000, 7_000, 3_000, cap), None);
    assert_eq!(supply_from_peer(0, 8_000, 10_000, cap), None);
    // Minting past the cap saturates our count at zero.
    assert_eq!(supply_from_peer(50, 8_000, 20_000, cap), Some(0));
}

#[test]
fn confirm_vote_needs_a_known_send_and_enough_balance() {
    let mut l = LedgerState::new(0);
    l.insert_block("tx".to_string(), block("alice", 40));
    l.set_account("alice".to_string(), account("tx", 50, 1));
    // Stored send, balance covers the amount.
    assert!(l.confirm_vote("tx", "alice", 40, &None, false));
    // Amount differs from the stored send.
    assert!(!l.confirm_vote("tx", "alice", 41, &None, false));
    // Balance too low for the amount.
    assert!(!l.confirm_vote("tx", "alice", 60, &Some(block("alice", 60)), true));
    // Unknown hash: only a checked embedded send counts.
    assert!(!l.confirm_vote("other", "alice", 30, &Some(block("alice", 30)), false));
    assert!(l.confirm_vote("other", "alice", 30, &Some(block("alice", 30)), true));
    // An embedded block that is not a send does not count.
    let mut receive = block("alice", 30);
    receive.block_type = BlockType::Receive;
    assert!(!l.confirm_vote("other", "alice", 30, &Some(receive), true));
    // Unknown sender has balance zero.
    assert!(!l.confirm_vote("other", "bob", 1, &Some(block("bob", 1)), true));
    assert!(l.confirm_vote("other", "bob", 0, &Some(block("bob", 0)), true));
}
