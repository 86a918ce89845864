use los_node::ledger::{AccountState, LedgerState};
use los_node::validators::{
    register_validator, registration_fresh, validator_status, RegisterRefusal, ValidatorFacts,
    ValidatorStatus,
};

fn account(balance: u128, is_validator: bool) -> AccountState {
    AccountState { head: "0".to_string(), balance, block_count: 0, is_validator }
}

#[test]
fn registration_timestamps_within_five_minutes() {
    assert!(registration_fresh(1_000, 1_000));
    assert!(registration_fresh(700, 1_000));
    assert!(registration_fresh(1_300, 1_000));
    assert!(!registration_fresh(699, 1_000));
    assert!(!registration_fresh(1_301, 1_000));
    assert!(!registration_fresh(0, 100));
}

#[test]
fn registration_marks_the_account_once() {
    let mut l = LedgerState::new(0);
    l.set_account("rich".to_string(), account(5_000, false));
    l.set_account("poor".to_string(), account(10, false));
    l.set_account("val".to_string(), account(5_000, true));
    assert_eq!(register_validator(&mut l, "nobody", false, 1_000), Err(RegisterRefusal::InsufficientStake));
    assert_eq!(register_validator(&mut l, "poor", false, 1_000), Err(RegisterRefusal::InsufficientStake));
    assert_eq!(register_validator(&mut l, "val", false, 1_000), Err(RegisterRefusal::AlreadyValidator));
    assert_eq!(register_validator(&mut l, "rich", true, 1_000), Err(RegisterRefusal::AlreadyValidator));
    assert!(!l.account("rich").unwrap().is_validator);
    assert_eq!(register_validator(&mut l, "rich", false, 1_000), Ok(5_000));
    assert!(l.account("rich").unwrap().is_validator);
    assert_eq!(l.account("rich").unwrap().balance, 5_000);
    assert_eq!(register_validator(&mut l, "rich", false, 1_000), Err(RegisterRefusal::AlreadyValidator));
    assert!(!l.account("poor").unwrap().is_validator);
}

fn facts() -> ValidatorFacts {
    ValidatorFacts {
        is_validator: true,
        is_genesis: false,
        is_self: false,
        in_peers: false,
        in_endpoints: false,
        in_reward_pool: false,
        balance: 2_000,
        min_stake: 1_000,
        reported_uptime: None,
    }
}

#[test]
fn validator_reports() {
    assert_eq!(
        validator_status(&facts()),
        ValidatorStatus { shown: true, connected: false, has_min_stake: true, active: false, uptime_pct: 0 }
    );
    let mut f = facts();
    f.in_endpoints = true;
    f.reported_uptime = Some(97);
    assert_eq!(
        validator_status(&f),
        ValidatorStatus { shown: true, connected: true, has_min_stake: true, active: true, uptime_pct: 97 }
    );
    let mut f = facts();
    f.is_self = true;
    f.balance = 999;
    assert_eq!(
        validator_status(&f),
        ValidatorStatus { shown: true, connected: true, has_min_stake: false, active: false, uptime_pct: 100 }
    );
    let mut f = facts();
    f.is_validator = false;
    f.is_genesis = true;
    let s = validator_status(&f);
    assert!(s.shown && !s.active);
    let mut f = facts();
    f.is_validator = false;
    assert!(!validator_status(&f).shown);
    let mut f = facts();
    f.in_reward_pool = true;
    assert!(validator_status(&f).active);
}
