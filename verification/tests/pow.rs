use los_node::ledger::{Block, BlockType};
use los_node::pow::{solve_pow, MAX_POW_ITERATIONS};

fn block() -> Block {
    Block {
        account: "LOSa".to_string(),
        previous: "0".to_string(),
        block_type: BlockType::Mint,
        amount: 5,
        link: "FAUCET:TESTNET:1".to_string(),
        signature: String::new(),
        public_key: "pk".to_string(),
        work: 77,
        timestamp: 1,
        fee: 0,
    }
}

#[test]
fn first_accepted_nonce_is_kept() {
    let mut b = block();
    let found = solve_pow(&mut b, |c: &Block| {
        assert_eq!(c.amount, 5);
        c.work % 1000 == 999
    });
    assert!(found);
    assert_eq!(b.work, 999);
    assert_eq!(b.link, "FAUCET:TESTNET:1");
}

#[test]
fn nonce_zero_can_be_accepted() {
    let mut b = block();
    assert!(solve_pow(&mut b, |_c: &Block| true));
    assert_eq!(b.work, 0);
}

#[test]
fn search_gives_up_at_the_limit() {
    let mut b = block();
    assert!(!solve_pow(&mut b, |_c: &Block| false));
    assert_eq!(b.work, MAX_POW_ITERATIONS - 1);
}
