use los_node::ledger::{AccountState, Block, BlockType, LedgerState};
use los_node::slashing::{slash_consensus_reached, slash_request_admissible, slash_threshold};

fn block(account: &str, block_type: BlockType, link: &str) -> Block {
    Block {
        account: account.to_string(),
        previous: "0".to_string(),
        block_type,
        amount: 1,
        link: link.to_string(),
        signature: "sig".to_string(),
        public_key: "pk".to_string(),
        work: 0,
        timestamp: 1,
        fee: 0,
    }
}

fn account(head: &str, balance: u128) -> AccountState {
    AccountState { head: head.to_string(), balance, block_count: 1, is_validator: false }
}

#[test]
fn signed_requests_need_a_good_signature_and_legacy_ones_a_test_network() {
    assert!(slash_request_admissible(7, true, true));
    assert!(!slash_request_admissible(7, false, false));
    assert!(slash_request_admissible(3, false, false));
    assert!(!slash_request_admissible(3, true, true));
    assert!(!slash_request_admissible(5, true, false));
}

#[test]
fn threshold_is_more_than_two_thirds() {
    assert_eq!(slash_threshold(0), 1);
    assert_eq!(slash_threshold(1), 1);
    assert_eq!(slash_threshold(3), 3);
    assert_eq!(slash_threshold(4), 3);
    assert_eq!(slash_threshold(10), 7);
    assert_eq!(slash_threshold(100), 67);
    assert!(!slash_consensus_reached(2, 4));
    assert!(slash_consensus_reached(3, 4));
}

#[test]
fn evidence_needs_the_account_and_no_mint_of_the_txid() {
    let mut l = LedgerState::new(0);
    l.set_account("cheater".to_string(), account("h", 95));
    l.insert_block("m1".to_string(), block("x", BlockType::Mint, "MINT:TXID:abc123"));
    l.insert_block("s1".to_string(), block("x", BlockType::Send, "zzz999"));
    // The txid occurs in a Mint block's link: it was minted.
    assert!(!l.slash_evidence_valid("cheater", "abc"));
    // Only Mint blocks count.
    assert!(l.slash_evidence_valid("cheater", "zzz999"));
    // The accused account must exist.
    assert!(!l.slash_evidence_valid("nobody", "zzz999"));
}

#[test]
fn only_a_staked_validator_backs_a_proposal() {
    let mut l = LedgerState::new(0);
    l.set_account("cheater".to_string(), account("h", 95));
    l.set_account("me".to_string(), account("m", 1_000));
    assert!(l.slash_vote("me", 1_000, "cheater", "t1"));
    assert!(!l.slash_vote("me", 1_001, "cheater", "t1"));
    assert!(!l.slash_vote("stranger", 1, "cheater", "t1"));
    assert!(l.slash_vote("stranger", 0, "cheater", "t1"));
}

#[test]
fn penalty_is_a_tenth_of_the_balance() {
    let mut l = LedgerState::new(0);
    l.set_account("cheater".to_string(), account("h", 95));
    l.set_account("empty".to_string(), account("e", 0));
    assert_eq!(l.slash_penalty("cheater"), Some(("h".to_string(), 9)));
    assert_eq!(l.slash_penalty("empty"), None);
    assert_eq!(l.slash_penalty("nobody"), None);
}
