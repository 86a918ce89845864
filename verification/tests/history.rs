use los_node::format::CIL_PER_LOS;
use los_node::history::{history_line, history_row, history_row_defined, kind_text, table_row};
use los_node::ledger::{Block, BlockType};

fn block(block_type: BlockType, amount: u128, link: &str) -> Block {
    Block {
        account: "LOSsender".to_string(),
        previous: "0".to_string(),
        block_type,
        amount,
        link: link.to_string(),
        signature: "sig".to_string(),
        public_key: "pk".to_string(),
        work: 0,
        timestamp: 1,
        fee: 0,
    }
}

#[test]
fn send_row() {
    let b = block(BlockType::Send, 1_234_567 * CIL_PER_LOS + 5, "LOSabcdefgh1234");
    let r = history_row(&b, "0123456789abcdef");
    assert_eq!(r.kind, "📤 SEND");
    assert_eq!(r.amount, "-1.234.567");
    assert_eq!(r.detail, "To: los_abcdefgh");
    assert_eq!(r.hash, "...01234567");
}

#[test]
fn rows_of_every_block_type() {
    let r = history_row(&block(BlockType::Mint, 500 * CIL_PER_LOS, "genesis_supply_source"), "abc");
    assert_eq!((r.kind.as_str(), r.amount.as_str(), r.detail.as_str(), r.hash.as_str()),
        ("🔥 MINT", "+500", "Src: genesis_su", "-"));
    let r = history_row(&block(BlockType::Receive, CIL_PER_LOS - 1, "deadbeefcafe"), "12345678");
    assert_eq!((r.amount.as_str(), r.detail.as_str(), r.hash.as_str()), ("+0", "From Hash: deadbeef", "-"));
    let r = history_row(&block(BlockType::Change, 7 * CIL_PER_LOS, "LOS123"), "123456789");
    assert_eq!((r.kind.as_str(), r.amount.as_str(), r.detail.as_str(), r.hash.as_str()),
        ("🔄 CHANGE", "0", "Rep: LOS123", "...12345678"));
    let r = history_row(&block(BlockType::Slash, 2_000 * CIL_PER_LOS, "ev"), "");
    assert_eq!((r.kind.as_str(), r.amount.as_str(), r.detail.as_str()), ("⚖️ SLASH", "-2.000", "Evidence: ev"));
    let r = history_row(&block(BlockType::ContractDeploy, 0, "0123456789abcdefXYZ"), "");
    assert_eq!((r.kind.as_str(), r.amount.as_str(), r.detail.as_str()), ("📦 DEPLOY", "-0", "Code: 0123456789abcdef"));
    let r = history_row(&block(BlockType::ContractCall, 0, "LOScontract0123456789"), "");
    assert_eq!((r.kind.as_str(), r.detail.as_str()), ("⚙️ CALL", "Contract: LOScontract01234"));
    assert_eq!(kind_text(BlockType::Receive), "📥 RECEIVE");
}

#[test]
fn table_lines_match_left_aligned_formatting() {
    let header = table_row("TYPE", "AMOUNT (LOS)", "DETAIL / LINK", "HASH");
    assert_eq!(
        header,
        format!("| {:<14} | {:<14} | {:<24} | {:<22} |", "TYPE", "AMOUNT (LOS)", "DETAIL / LINK", "HASH")
    );
    let long = "a detail that is longer than its column";
    assert_eq!(table_row("x", "", long, "h"), format!("| {:<14} | {:<14} | {:<24} | {:<22} |", "x", "", long, "h"));
    let b = block(BlockType::Send, 42 * CIL_PER_LOS, "LOSabcdefgh1234");
    let r = history_row(&b, "ffffffffffff");
    assert_eq!(
        history_line(&b, "ffffffffffff"),
        format!("| {:<14} | {:<14} | {:<24} | {:<22} |", r.kind, r.amount, r.detail, r.hash)
    );
}

#[test]
fn rows_need_cuts_at_character_boundaries() {
    assert!(history_row_defined(&block(BlockType::Mint, 0, "ééééé"), "h"));
    assert_eq!(history_row(&block(BlockType::Mint, 0, "ééééé"), "h").detail, "Src: ééééé");
    assert!(!history_row_defined(&block(BlockType::Mint, 0, "aéééééé"), "h"));
    assert!(!history_row_defined(&block(BlockType::Send, 0, "LOSabcdefgé12"), "h"));
    assert!(history_row_defined(&block(BlockType::Send, 0, "LOSé"), "h"));
    assert!(history_row_defined(&block(BlockType::Receive, 0, "x"), "12345678é"));
    assert!(!history_row_defined(&block(BlockType::Receive, 0, "x"), "1234567é9"));
    assert_eq!(history_row(&block(BlockType::Receive, 0, "x"), "12345678é").hash, "...12345678");
}
