use los_node::confirmed::ConfirmedOutcome;
use los_node::ledger::{AccountState, Block, BlockType, LedgerState};

fn blk(account: &str, block_type: BlockType, previous: &str, amount: u128, link: &str, fee: u128) -> Block {
    Block {
        account: account.to_string(),
        previous: previous.to_string(),
        block_type,
        amount,
        link: link.to_string(),
        signature: "sig".to_string(),
        public_key: "pk".to_string(),
        work: 0,
        timestamp: 1,
        fee,
    }
}

fn acct(head: &str, balance: u128, count: u64) -> AccountState {
    AccountState { head: head.to_string(), balance, block_count: count, is_validator: false }
}

fn ledger() -> LedgerState {
    let mut l = LedgerState::new(0);
    l.set_account("alice".to_string(), acct("a1", 100, 1));
    l
}

fn pair(previous: &str, amount: u128, recv_previous: &str) -> (Block, Block) {
    (
        blk("alice", BlockType::Send, previous, amount, "bob", 2),
        blk("bob", BlockType::Receive, recv_previous, amount, "s1", 0),
    )
}

#[test]
fn a_confirmed_pair_moves_the_amount_once() {
    let mut l = ledger();
    let (send, recv) = pair("a1", 30, "0");
    let out = l.apply_confirmed(send.clone(), "s1".to_string(), recv.clone(), "r1".to_string(), true, true);
    assert_eq!(out, ConfirmedOutcome::Applied);
    let a = l.account("alice").unwrap();
    assert_eq!((a.head.as_str(), a.balance, a.block_count), ("s1", 68, 2));
    let b = l.account("bob").unwrap();
    assert_eq!((b.head.as_str(), b.balance, b.block_count), ("r1", 30, 1));
    assert!(l.block("s1").is_some() && l.block("r1").is_some());
    assert!(l.is_claimed("s1"));
    assert_eq!(l.accumulated_fees(), 2);
    // The same pair again changes nothing.
    let again = l.apply_confirmed(send, "s1".to_string(), recv, "r1".to_string(), true, true);
    assert_eq!(again, ConfirmedOutcome::AlreadyApplied);
    assert_eq!(l.account("alice").unwrap().balance, 68);
    assert_eq!(l.account("bob").unwrap().balance, 30);
}

#[test]
fn pairs_that_fail_their_checks_are_ignored() {
    let mut l = ledger();
    let (send, recv) = pair("a1", 30, "0");
    assert_eq!(l.apply_confirmed(send.clone(), "s1".to_string(), recv.clone(), "r1".to_string(), false, true), ConfirmedOutcome::Invalid);
    assert_eq!(l.apply_confirmed(send.clone(), "other".to_string(), recv.clone(), "r1".to_string(), true, true), ConfirmedOutcome::Invalid);
    let mut short = recv.clone();
    short.amount = 29;
    assert_eq!(l.apply_confirmed(send, "s1".to_string(), short, "r1".to_string(), true, true), ConfirmedOutcome::Invalid);
    assert_eq!(l.account("alice").unwrap().balance, 100);
    assert!(l.account("bob").is_none());
}

#[test]
fn a_send_off_the_chain_or_over_the_balance_is_rejected() {
    let mut l = ledger();
    let (send, recv) = pair("zz", 30, "0");
    assert_eq!(l.apply_confirmed(send, "s1".to_string(), recv, "r1".to_string(), true, true), ConfirmedOutcome::SendRejected);
    let (send, recv) = pair("a1", 99, "0");
    // 99 plus the fee of 2 exceeds 100.
    assert_eq!(l.apply_confirmed(send, "s1".to_string(), recv, "r1".to_string(), true, true), ConfirmedOutcome::SendRejected);
    assert_eq!(l.account("alice").unwrap().balance, 100);
    assert!(l.block("s1").is_none());
    // An unknown sender is created with an empty record, and stays.
    let mut l = LedgerState::new(0);
    let (send, recv) = pair("0", 5, "0");
    assert_eq!(l.apply_confirmed(send, "s1".to_string(), recv, "r1".to_string(), true, true), ConfirmedOutcome::SendRejected);
    let a = l.account("alice").unwrap();
    assert_eq!((a.head.as_str(), a.balance, a.block_count), ("0", 0, 0));
}

#[test]
fn a_receive_off_the_chain_undoes_the_send() {
    let mut l = ledger();
    l.set_account("bob".to_string(), acct("b5", 7, 5));
    let (send, recv) = pair("a1", 30, "0");
    assert_eq!(l.apply_confirmed(send, "s1".to_string(), recv, "r1".to_string(), true, true), ConfirmedOutcome::ReceiveRejected);
    let a = l.account("alice").unwrap();
    assert_eq!((a.head.as_str(), a.balance, a.block_count), ("a1", 100, 1));
    let b = l.account("bob").unwrap();
    assert_eq!((b.head.as_str(), b.balance, b.block_count), ("b5", 7, 5));
    assert!(l.block("s1").is_none() && l.block("r1").is_none());
    assert!(!l.is_claimed("s1"));
    assert_eq!(l.accumulated_fees(), 0);
}
