//! Admission checks of a send request at the REST API, before proof of work
//! and signatures.
use vstd::prelude::*;
use crate::format::{decimal, push_decimal, CIL_PER_LOS};
use vstd::string::StringExecFns;

verus! {

/// A send request, with the facts about it that other components establish
/// (address validity, the sender's account, the sends still pending).
#[derive(Clone, Copy, Debug)]
pub struct SendFacts {
    /// The sender address is a well-formed LOS address.
    pub sender_address_valid: bool,
    /// The target address is a well-formed LOS address.
    pub target_address_valid: bool,
    /// The target is the sender itself.
    pub self_send: bool,
    /// Amount in whole LOS.
    pub amount: u128,
    /// Amount in CIL, which takes precedence over `amount` when given.
    pub amount_cil: Option<u128>,
    /// The client signed the block itself.
    pub client_signed: bool,
    /// The client sent its public key.
    pub has_public_key: bool,
    /// The sender's balance in CIL, when the sender has an account.
    pub sender_balance: Option<u128>,
    /// CIL already committed by the sender's pending sends.
    pub pending_total: u128,
    /// The fee the client signed (client-signed requests), in CIL.
    pub client_fee: Option<u128>,
    /// The protocol's base fee, in CIL.
    pub base_fee: u128,
}

/// Why a send request is refused.
#[derive(Clone, Copy, Debug, PartialEq, Eq, Structural)]
pub enum SendRefusal {
    InvalidSender,
    InvalidTarget,
    ZeroAmount,
    SelfSend,
    MissingPublicKey,
    SenderNotFound,
    CostOverflow,
    InsufficientBalance,
    FeeTooLow,
}

/// An admitted send.
#[derive(Clone, Copy, Debug, PartialEq, Eq, Structural)]
pub struct SendPlan {
    /// Amount in CIL.
    pub amount_cil: u128,
    /// Fee the block carries, in CIL.
    pub fee: u128,
    /// The fee the protocol asks for, in CIL.
    pub required_fee: u128,
    /// The sender's voting power at admission (whole LOS of its balance).
    pub initial_power: u128,
}

/// The amount in CIL a request asks to send.
pub open spec fn send_amount(f: SendFacts) -> int {
    match f.amount_cil {
        Some(c) => c as int,
        None => f.amount * CIL_PER_LOS,
    }
}

/// The fee a block carries: the client's signed fee (zero when absent) for a
/// client-signed request, the base fee otherwise.
pub open spec fn block_fee(f: SendFacts) -> u128 {
    if f.client_signed {
        match f.client_fee {
            Some(c) => c,
            None => 0,
        }
    } else {
        f.base_fee
    }
}

/// The verdict on a send request, checks taken in this order: sender and
/// target addresses, a positive amount, no self-send, a public key for a
/// client-signed request, an existing sender account, a total cost (amount,
/// base fee and pending sends) that fits and is covered by the balance, and
/// a client fee not below the base fee.
pub open spec fn send_verdict(f: SendFacts) -> Result<SendPlan, SendRefusal> {
    if !f.sender_address_valid {
        Err(SendRefusal::InvalidSender)
    } else if !f.target_address_valid {
        Err(SendRefusal::InvalidTarget)
    } else if send_amount(f) == 0 {
        Err(SendRefusal::ZeroAmount)
    } else if f.self_send {
        Err(SendRefusal::SelfSend)
    } else if f.client_signed && !f.has_public_key {
        Err(SendRefusal::MissingPublicKey)
    } else if f.sender_balance is None {
        Err(SendRefusal::SenderNotFound)
    } else if send_amount(f) + f.base_fee > u128::MAX || send_amount(f) + f.base_fee
        + f.pending_total > u128::MAX {
        Err(SendRefusal::CostOverflow)
    } else if f.sender_balance->0 < send_amount(f) + f.base_fee + f.pending_total {
        Err(SendRefusal::InsufficientBalance)
    } else if f.client_signed && block_fee(f) < f.base_fee {
        Err(SendRefusal::FeeTooLow)
    } else {
        Ok(
            SendPlan {
                amount_cil: send_amount(f) as u128,
                fee: block_fee(f),
                required_fee: f.base_fee,
                initial_power: f.sender_balance->0 / CIL_PER_LOS,
            },
        )
    }
}

/// Checks a send request (see `send_verdict`). The amount in LOS is scaled
/// to CIL whether or not an amount in CIL is given, so it must not overflow.
pub fn check_send(f: &SendFacts) -> (r: Result<SendPlan, SendRefusal>)
    requires
        f.amount * CIL_PER_LOS <= u128::MAX,
    ensures
        r == send_verdict(*f),
{
    let scaled = f.amount * CIL_PER_LOS;
    let amount = match f.amount_cil {
        Some(c) => c,
        None => scaled,
    };
    if !f.sender_address_valid {
        return Err(SendRefusal::InvalidSender);
    }
    if !f.target_address_valid {
        return Err(SendRefusal::InvalidTarget);
    }
    if amount == 0 {
        return Err(SendRefusal::ZeroAmount);
    }
    if f.self_send {
        return Err(SendRefusal::SelfSend);
    }
    if f.client_signed && !f.has_public_key {
        return Err(SendRefusal::MissingPublicKey);
    }
    let balance = match f.sender_balance {
        Some(b) => b,
        None => return Err(SendRefusal::SenderNotFound),
    };
    let total = match amount.checked_add(f.base_fee) {
        Some(v) => match v.checked_add(f.pending_total) {
            Some(t) => t,
            None => return Err(SendRefusal::CostOverflow),
        },
        None => return Err(SendRefusal::CostOverflow),
    };
    if balance < total {
        return Err(SendRefusal::InsufficientBalance);
    }
    let fee = if f.client_signed {
        match f.client_fee {
            Some(c) => c,
            None => 0,
        }
    } else {
        f.base_fee
    };
    if f.client_signed && fee < f.base_fee {
        return Err(SendRefusal::FeeTooLow);
    }
    Ok(SendPlan { amount_cil: amount, fee, required_fee: f.base_fee, initial_power: balance / CIL_PER_LOS })
}

/// An admitted send never commits more than the sender holds: the amount,
/// the base fee and the pending sends are covered by the balance, the block
/// pays at least the base fee, and the amount is positive.
pub proof fn lemma_admitted_send_covered(f: SendFacts)
    requires
        send_verdict(f) is Ok,
    ensures
        ({
            let p = send_verdict(f)->Ok_0;
            &&& p.amount_cil > 0
            &&& p.amount_cil + f.base_fee + f.pending_total <= f.sender_balance->0
            &&& p.fee >= f.base_fee
            &&& !f.self_send
        }),
{
}

/// The message of the error reply to a refused send request `f` (replied
/// with status 400, as an error body without a code).
pub open spec fn refusal_text(r: SendRefusal, f: SendFacts) -> Seq<char> {
    match r {
        SendRefusal::InvalidSender => "Invalid sender address format. Must be Base58Check with LOS prefix."@,
        SendRefusal::InvalidTarget => "Invalid target address format. Must be Base58Check with LOS prefix."@,
        SendRefusal::ZeroAmount => "Amount must be greater than 0."@,
        SendRefusal::SelfSend => "Cannot send to your own address."@,
        SendRefusal::MissingPublicKey => "public_key field is REQUIRED when providing signature"@,
        SendRefusal::SenderNotFound => "Sender account not found"@,
        SendRefusal::CostOverflow => "Overflow: total transaction cost exceeds maximum"@,
        SendRefusal::InsufficientBalance => "Insufficient balance (need "@ + decimal(
            send_amount(f) as nat,
        ) + " CIL for tx + "@ + decimal(f.base_fee as nat) + " CIL fee + "@ + decimal(
            f.pending_total as nat,
        ) + " CIL pending)"@,
        SendRefusal::FeeTooLow => "Client fee "@ + decimal(block_fee(f) as nat)
            + " CIL is below minimum required fee "@ + decimal(f.base_fee as nat) + " CIL"@,
    }
}

/// The message of the error reply to the send request `f` refused for `r`
/// (see `refusal_text`).
pub fn refusal_message(r: SendRefusal, f: &SendFacts) -> (m: String)
    requires
        f.amount * CIL_PER_LOS <= u128::MAX,
    ensures
        m@ == refusal_text(r, *f),
{
    match r {
        SendRefusal::InvalidSender => String::from_str(
            "Invalid sender address format. Must be Base58Check with LOS prefix.",
        ),
        SendRefusal::InvalidTarget => String::from_str(
            "Invalid target address format. Must be Base58Check with LOS prefix.",
        ),
        SendRefusal::ZeroAmount => String::from_str("Amount must be greater than 0."),
        SendRefusal::SelfSend => String::from_str("Cannot send to your own address."),
        SendRefusal::MissingPublicKey => String::from_str(
            "public_key field is REQUIRED when providing signature",
        ),
        SendRefusal::SenderNotFound => String::from_str("Sender account not found"),
        SendRefusal::CostOverflow => String::from_str("Overflow: total transaction cost exceeds maximum"),
        SendRefusal::InsufficientBalance => {
            let amount = match f.amount_cil {
                Some(c) => c,
                None => f.amount * CIL_PER_LOS,
            };
            let mut m = String::from_str("Insufficient balance (need ");
            push_decimal(&mut m, amount);
            m.append(" CIL for tx + ");
            push_decimal(&mut m, f.base_fee);
            m.append(" CIL fee + ");
            push_decimal(&mut m, f.pending_total);
            m.append(" CIL pending)");
            m
        },
        SendRefusal::FeeTooLow => {
            let fee = if f.client_signed {
                match f.client_fee {
                    Some(c) => c,
                    None => 0,
                }
            } else {
                f.base_fee
            };
            let mut m = String::from_str("Client fee ");
            push_decimal(&mut m, fee);
            m.append(" CIL is below minimum required fee ");
            push_decimal(&mut m, f.base_fee);
            m.append(" CIL");
            m
        },
    }
}

/// Admission is complete: a request with valid addresses, a positive
/// amount, no self-send, a known sender whose balance covers the amount (in
/// CIL as given, or the LOS amount scaled), the base fee and the pending
/// sends, and, when client-signed, a public key and a signed fee of at least
/// the base fee, is admitted. The plan carries that amount, the block's fee
/// (the signed fee, or the base fee), the base fee as the required fee, and
/// the whole LOS of the balance as voting power.
pub proof fn lemma_covered_send_admitted(f: SendFacts, amount: int, balance: u128)
    requires
        f.sender_address_valid,
        f.target_address_valid,
        !f.self_send,
        amount == match f.amount_cil {
            Some(c) => c as int,
            None => f.amount * 100_000_000_000,
        },
        amount > 0,
        f.sender_balance == Some(balance),
        amount + f.base_fee + f.pending_total <= balance,
        f.client_signed ==> f.has_public_key && f.client_fee is Some && f.client_fee->0
            >= f.base_fee,
    ensures
        send_verdict(f) == Ok::<SendPlan, SendRefusal>(
            SendPlan {
                amount_cil: amount as u128,
                fee: if f.client_signed {
                    f.client_fee->0
                } else {
                    f.base_fee
                },
                required_fee: f.base_fee,
                initial_power: balance / 100_000_000_000,
            },
        ),
{
}

/// Refusal for want of balance is exact: a request that passes the earlier
/// checks is refused as uncovered only when the amount, the base fee and the
/// pending sends together exceed the balance.
pub proof fn lemma_insufficient_only_when_uncovered(f: SendFacts)
    requires
        send_verdict(f) == Err::<SendPlan, SendRefusal>(SendRefusal::InsufficientBalance),
    ensures
        f.sender_balance is Some,
        (match f.amount_cil {
            Some(c) => c as int,
            None => f.amount * 100_000_000_000,
        }) + f.base_fee + f.pending_total > f.sender_balance->0,
{
}

/// Each refusal names a check the request fails: an invalid sender (always
/// reported first), an invalid target, a zero amount, a self-send, a
/// client-signed request without a key, an unknown sender, or a signed fee
/// below the base fee.
pub proof fn lemma_send_refusal_reasons(f: SendFacts)
    ensures
        (send_verdict(f) == Err::<SendPlan, SendRefusal>(SendRefusal::InvalidSender))
            <==> !f.sender_address_valid,
        send_verdict(f) == Err::<SendPlan, SendRefusal>(SendRefusal::InvalidTarget)
            ==> !f.target_address_valid,
        send_verdict(f) == Err::<SendPlan, SendRefusal>(SendRefusal::ZeroAmount) ==> (match f.amount_cil {
            Some(c) => c as int,
            None => f.amount * 100_000_000_000,
        }) == 0,
        send_verdict(f) == Err::<SendPlan, SendRefusal>(SendRefusal::SelfSend) ==> f.self_send,
        send_verdict(f) == Err::<SendPlan, SendRefusal>(SendRefusal::MissingPublicKey)
            ==> f.client_signed && !f.has_public_key,
        send_verdict(f) == Err::<SendPlan, SendRefusal>(SendRefusal::SenderNotFound)
            ==> f.sender_balance is None,
        send_verdict(f) == Err::<SendPlan, SendRefusal>(SendRefusal::FeeTooLow) ==> f.client_signed
            && (match f.client_fee {
            Some(c) => c,
            None => 0,
        }) < f.base_fee,
{
}

} // verus!
