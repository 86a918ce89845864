//! Validator registration and the status the node reports for validators.
use vstd::prelude::*;
use crate::ledger::{AccountState, LedgerState, LedgerView};

verus! {

/// Seconds a signed registration request stays acceptable, either way of
/// the node's clock.
pub const REGISTRATION_WINDOW_SECS: u64 = 300;

/// A registration request signed at `timestamp` is fresh at `now`: it carries
/// a timestamp, at most five minutes away from `now`.
pub open spec fn registration_is_fresh(timestamp: u64, now: u64) -> bool {
    timestamp != 0 && (if now >= timestamp {
        now - timestamp
    } else {
        timestamp - now
    }) <= REGISTRATION_WINDOW_SECS
}

/// Whether a registration signed at `timestamp` is fresh at `now` (see
/// `registration_is_fresh`).
pub fn registration_fresh(timestamp: u64, now: u64) -> (r: bool)
    ensures
        r == registration_is_fresh(timestamp, now),
{
    let diff = if now >= timestamp {
        now - timestamp
    } else {
        timestamp - now
    };
    timestamp != 0 && diff <= REGISTRATION_WINDOW_SECS
}

/// Why a registration is not carried out.
#[derive(Clone, Copy, Debug, PartialEq, Eq, Structural)]
pub enum RegisterRefusal {
    /// The account is a validator already (or a genesis validator).
    AlreadyValidator,
    /// The account is unknown or holds less than the registration minimum.
    InsufficientStake,
}

/// The answer to registering `address` as a validator: the stake registered,
/// or why not. A genesis validator counts as registered.
pub open spec fn register_outcome(
    v: LedgerView,
    address: Seq<char>,
    is_genesis: bool,
    min_register_cil: u128,
) -> Result<u128, RegisterRefusal> {
    if !v.accounts.contains_key(address) {
        Err(RegisterRefusal::InsufficientStake)
    } else if v.accounts[address].is_validator || is_genesis {
        Err(RegisterRefusal::AlreadyValidator)
    } else if v.accounts[address].balance < min_register_cil {
        Err(RegisterRefusal::InsufficientStake)
    } else {
        Ok(v.accounts[address].balance)
    }
}

/// The ledger after registering `address`: its account marked as a
/// validator when the registration is carried out, unchanged otherwise.
pub open spec fn after_register(
    v: LedgerView,
    address: Seq<char>,
    is_genesis: bool,
    min_register_cil: u128,
) -> LedgerView {
    if register_outcome(v, address, is_genesis, min_register_cil) is Ok {
        LedgerView {
            accounts: v.accounts.insert(
                address,
                AccountState { is_validator: true, ..v.accounts[address] },
            ),
            ..v
        }
    } else {
        v
    }
}

/// Registers the account `address` as a validator when it is not one yet
/// (`is_genesis` says whether it is a genesis validator) and holds at least
/// `min_register_cil`; returns its stake.
pub fn register_validator(
    ledger: &mut LedgerState,
    address: &str,
    is_genesis: bool,
    min_register_cil: u128,
) -> (r: Result<u128, RegisterRefusal>)
    requires
        old(ledger).wf(),
    ensures
        final(ledger).wf(),
        r == register_outcome(old(ledger)@, address@, is_genesis, min_register_cil),
        final(ledger)@ == after_register(old(ledger)@, address@, is_genesis, min_register_cil),
{
    let acc = match ledger.account(address) {
        Some(a) => a,
        None => return Err(RegisterRefusal::InsufficientStake),
    };
    if acc.is_validator || is_genesis {
        return Err(RegisterRefusal::AlreadyValidator);
    }
    if acc.balance < min_register_cil {
        return Err(RegisterRefusal::InsufficientStake);
    }
    let balance = acc.balance;
    ledger.set_account(address.to_owned(), AccountState { is_validator: true, ..acc });
    Ok(balance)
}

/// A registration that went through is not repeated: asking again answers
/// that the account is a validator already, and changes nothing.
pub proof fn lemma_register_once(v: LedgerView, address: Seq<char>, is_genesis: bool, min: u128)
    requires
        register_outcome(v, address, is_genesis, min) is Ok,
    ensures
        ({
            let w = after_register(v, address, is_genesis, min);
            &&& register_outcome(w, address, is_genesis, min) == Err::<u128, RegisterRefusal>(
                RegisterRefusal::AlreadyValidator,
            )
            &&& after_register(w, address, is_genesis, min) == w
        }),
{
}

/// What the node knows of a validator when it reports on it.
#[derive(Clone, Copy, Debug)]
pub struct ValidatorFacts {
    /// The account is marked as a validator.
    pub is_validator: bool,
    /// The account is a genesis bootstrap validator.
    pub is_genesis: bool,
    /// The account is this node's own.
    pub is_self: bool,
    /// A known peer address mentions the account.
    pub in_peers: bool,
    /// The account announced a network endpoint.
    pub in_endpoints: bool,
    /// The account is in the reward pool (a verified registration).
    pub in_reward_pool: bool,
    /// The account's balance, in CIL.
    pub balance: u128,
    /// The minimum stake of an active validator, in CIL.
    pub min_stake: u128,
    /// The uptime the reward pool reports, in percent, when it knows the
    /// validator.
    pub reported_uptime: Option<u64>,
}

/// What the node reports of a validator.
#[derive(Clone, Copy, Debug, PartialEq, Eq, Structural)]
pub struct ValidatorStatus {
    /// The validator appears in the list.
    pub shown: bool,
    pub connected: bool,
    pub has_min_stake: bool,
    pub active: bool,
    pub uptime_pct: u64,
}

/// The report on a validator: listed when marked as a validator or a genesis
/// validator; connected when it is this node, a known peer, or has announced
/// an endpoint; active when marked, staking the minimum, and connected,
/// genesis, or in the reward pool; its uptime as reported (100 for this node
/// and 0 for others when unknown).
pub open spec fn validator_report(f: ValidatorFacts) -> ValidatorStatus {
    let connected = f.is_self || f.in_peers || f.in_endpoints;
    let has_min_stake = f.balance >= f.min_stake;
    ValidatorStatus {
        shown: f.is_validator || f.is_genesis,
        connected,
        has_min_stake,
        active: has_min_stake && f.is_validator && (connected || f.is_genesis || f.in_reward_pool),
        uptime_pct: match f.reported_uptime {
            Some(u) => u,
            None => if f.is_self {
                100
            } else {
                0
            },
        },
    }
}

/// The report on a validator (see `validator_report`).
pub fn validator_status(f: &ValidatorFacts) -> (r: ValidatorStatus)
    ensures
        r == validator_report(*f),
{
    let connected = f.is_self || f.in_peers || f.in_endpoints;
    let has_min_stake = f.balance >= f.min_stake;
    let uptime_pct = match f.reported_uptime {
        Some(u) => u,
        None => if f.is_self {
            100
        } else {
            0
        },
    };
    ValidatorStatus {
        shown: f.is_validator || f.is_genesis,
        connected,
        has_min_stake,
        active: has_min_stake && f.is_validator && (connected || f.is_genesis || f.in_reward_pool),
        uptime_pct,
    }
}

/// An active validator is always listed and always staking the minimum.
pub proof fn lemma_active_is_shown(f: ValidatorFacts)
    ensures
        validator_report(f).active ==> validator_report(f).shown && validator_report(f).has_min_stake,
{
}

/// A validator is reported connected whenever it is this node, appears among
/// the known peers, or has announced an endpoint, and only then; a marked
/// validator staking the minimum that is connected is reported active.
pub proof fn lemma_connected_validators(f: ValidatorFacts)
    ensures
        f.in_peers ==> validator_report(f).connected,
        f.in_endpoints ==> validator_report(f).connected,
        f.is_self ==> validator_report(f).connected,
        validator_report(f).connected ==> f.is_self || f.in_peers || f.in_endpoints,
        (f.is_self || f.in_peers || f.in_endpoints) && f.is_validator && f.balance >= f.min_stake
            ==> validator_report(f).active,
        validator_report(f).active ==> f.is_validator && f.balance >= f.min_stake,
{
}

/// What the report says of a validator, field by field: listed when marked
/// or genesis; active exactly when marked, staking the minimum, and connected,
/// genesis or registered in the reward pool; the reported uptime when known,
/// else full for this node and none for others.
pub proof fn lemma_validator_report_fields(f: ValidatorFacts)
    ensures
        validator_report(f).shown <==> f.is_validator || f.is_genesis,
        validator_report(f).has_min_stake <==> f.balance >= f.min_stake,
        validator_report(f).active <==> f.is_validator && f.balance >= f.min_stake && (f.is_self
            || f.in_peers || f.in_endpoints || f.is_genesis || f.in_reward_pool),
        f.reported_uptime is Some ==> validator_report(f).uptime_pct == f.reported_uptime->0,
        f.reported_uptime is None && f.is_self ==> validator_report(f).uptime_pct == 100,
        f.reported_uptime is None && !f.is_self ==> validator_report(f).uptime_pct == 0,
{
}

} // verus!
