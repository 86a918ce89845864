use los_node::api::{
    api_status, faucet_check, faucet_refusal_reply, rejection_reply, FaucetRefusal, RejectionKind,
    ReplyFields,
};
use los_node::format::CIL_PER_LOS;
use los_node::ledger::BlockType;
use los_node::metrics::{count_blockchain_metrics, AccountSummary};
use los_node::persistence::{load_choice, LoadSource, SaveAction, SaveFlags};
use los_node::send::{check_send, refusal_message, SendFacts, SendPlan, SendRefusal};

fn fields(code: Option<u64>, status_is_error: bool, has_error_key: bool) -> ReplyFields {
    ReplyFields { code, status_is_error, has_error_key }
}

#[test]
fn reply_status_from_body_fields() {
    assert_eq!(api_status(&fields(None, false, false)), 200);
    assert_eq!(api_status(&fields(None, true, false)), 400);
    assert_eq!(api_status(&fields(None, false, true)), 400);
    assert_eq!(api_status(&fields(Some(404), true, true)), 404);
    assert_eq!(api_status(&fields(Some(201), false, false)), 201);
    assert_eq!(api_status(&fields(Some(42), false, false)), 500);
    assert_eq!(api_status(&fields(Some(1000), false, false)), 500);
    // The code is kept to 16 bits: 65 536 + 429 reads as 429.
    assert_eq!(api_status(&fields(Some(65_965), false, false)), 429);
}

#[test]
fn rejection_replies() {
    assert_eq!(
        rejection_reply(RejectionKind::RateLimited, ""),
        (429, "Rate limit exceeded. Please slow down your requests.".to_string())
    );
    assert_eq!(rejection_reply(RejectionKind::NotFound, "x"), (404, "Endpoint not found".to_string()));
    assert_eq!(
        rejection_reply(RejectionKind::BadBody, "missing field `to`"),
        (400, "Invalid request body: missing field `to`".to_string())
    );
    assert_eq!(
        rejection_reply(RejectionKind::MethodNotAllowed, ""),
        (405, "Method not allowed".to_string())
    );
    assert_eq!(rejection_reply(RejectionKind::Other, ""), (500, "Internal server error".to_string()));
}

fn good_send() -> SendFacts {
    SendFacts {
        sender_address_valid: true,
        target_address_valid: true,
        self_send: false,
        amount: 10,
        amount_cil: None,
        client_signed: false,
        has_public_key: false,
        sender_balance: Some(100 * CIL_PER_LOS),
        pending_total: 0,
        client_fee: None,
        base_fee: 1_000,
    }
}

#[test]
fn an_ordinary_send_is_admitted() {
    assert_eq!(
        check_send(&good_send()),
        Ok(SendPlan { amount_cil: 10 * CIL_PER_LOS, fee: 1_000, required_fee: 1_000, initial_power: 100 })
    );
    let mut f = good_send();
    f.amount_cil = Some(7);
    f.client_signed = true;
    f.has_public_key = true;
    f.client_fee = Some(2_000);
    assert_eq!(
        check_send(&f),
        Ok(SendPlan { amount_cil: 7, fee: 2_000, required_fee: 1_000, initial_power: 100 })
    );
}

#[test]
fn each_refusal_has_its_input() {
    let mut f = good_send();
    f.sender_address_valid = false;
    assert_eq!(check_send(&f), Err(SendRefusal::InvalidSender));
    let mut f = good_send();
    f.target_address_valid = false;
    assert_eq!(check_send(&f), Err(SendRefusal::InvalidTarget));
    let mut f = good_send();
    f.amount = 0;
    assert_eq!(check_send(&f), Err(SendRefusal::ZeroAmount));
    let mut f = good_send();
    f.self_send = true;
    assert_eq!(check_send(&f), Err(SendRefusal::SelfSend));
    let mut f = good_send();
    f.client_signed = true;
    assert_eq!(check_send(&f), Err(SendRefusal::MissingPublicKey));
    let mut f = good_send();
    f.sender_balance = None;
    assert_eq!(check_send(&f), Err(SendRefusal::SenderNotFound));
    let mut f = good_send();
    f.amount_cil = Some(u128::MAX);
    assert_eq!(check_send(&f), Err(SendRefusal::CostOverflow));
    let mut f = good_send();
    f.pending_total = 90 * CIL_PER_LOS;
    assert_eq!(check_send(&f), Err(SendRefusal::InsufficientBalance));
    let mut f = good_send();
    f.client_signed = true;
    f.has_public_key = true;
    f.client_fee = Some(999);
    assert_eq!(check_send(&f), Err(SendRefusal::FeeTooLow));
}

#[test]
fn blockchain_counts() {
    let types = vec![BlockType::Send, BlockType::Receive, BlockType::Send, BlockType::Mint, BlockType::Change];
    let accounts = vec![
        AccountSummary { is_validator: true, balance: 1_000 },
        AccountSummary { is_validator: true, balance: 999 },
        AccountSummary { is_validator: false, balance: 5_000 },
    ];
    let c = count_blockchain_metrics(&types, &accounts, 1_000);
    assert_eq!(c.blocks_total, 5);
    assert_eq!(c.accounts_total, 3);
    assert_eq!(c.active_validators, 1);
    assert_eq!(c.send_blocks, 2);
    assert_eq!(c.receive_blocks, 1);
    assert_eq!(c.mint_blocks, 1);
}

#[test]
fn saves_never_overlap_unless_forced() {
    let mut f = SaveFlags::new();
    assert_eq!(f.begin_save(false), SaveAction::Save);
    assert_eq!(f.begin_save(false), SaveAction::Defer);
    assert!(f.dirty);
    assert_eq!(f.begin_save(true), SaveAction::Save);
    f.finish_save();
    assert_eq!(f, SaveFlags { in_progress: false, dirty: false });
    f.mark_dirty();
    assert!(f.dirty && !f.in_progress);
}

#[test]
fn ledger_source_at_start() {
    assert_eq!(load_choice(false, true, true), LoadSource::Database);
    assert_eq!(load_choice(false, false, true), LoadSource::LegacyFile);
    assert_eq!(load_choice(true, false, true), LoadSource::LegacyFile);
    assert_eq!(load_choice(true, true, false), LoadSource::Fresh);
    assert_eq!(load_choice(false, false, false), LoadSource::Fresh);
}

#[test]
fn refusal_messages() {
    let mut f = good_send();
    f.pending_total = 90 * CIL_PER_LOS;
    assert_eq!(
        refusal_message(SendRefusal::InsufficientBalance, &f),
        "Insufficient balance (need 1000000000000 CIL for tx + 1000 CIL fee + 9000000000000 CIL pending)"
    );
    let mut f = good_send();
    f.client_signed = true;
    f.client_fee = Some(999);
    assert_eq!(
        refusal_message(SendRefusal::FeeTooLow, &f),
        "Client fee 999 CIL is below minimum required fee 1000 CIL"
    );
    assert_eq!(refusal_message(SendRefusal::SelfSend, &f), "Cannot send to your own address.");
    assert_eq!(refusal_message(SendRefusal::SenderNotFound, &f), "Sender account not found");
}

#[test]
fn faucet_claims_are_checked_in_order() {
    assert_eq!(faucet_check(true, true, "LOSa", true, None), Err(FaucetRefusal::Mainnet));
    assert_eq!(faucet_check(false, false, "LOSa", true, None), Err(FaucetRefusal::Disabled));
    assert_eq!(faucet_check(false, true, "", false, None), Err(FaucetRefusal::AddressRequired));
    assert_eq!(faucet_check(false, true, "bad", false, Some(5)), Err(FaucetRefusal::InvalidAddress));
    assert_eq!(faucet_check(false, true, "LOSa", true, Some(70)), Err(FaucetRefusal::Cooldown(70)));
    assert_eq!(faucet_check(false, true, "LOSa", true, None), Ok(()));
    assert_eq!(
        faucet_refusal_reply(FaucetRefusal::Cooldown(70)),
        (429, "Faucet cooldown active: try again in 70 seconds".to_string())
    );
    assert_eq!(
        faucet_refusal_reply(FaucetRefusal::RateLimited(3)),
        (429, "Rate limit exceeded: max 1 faucet claim per 2 minutes. Try again in 3 seconds.".to_string())
    );
    assert_eq!(faucet_refusal_reply(FaucetRefusal::Mainnet).0, 403);
}
