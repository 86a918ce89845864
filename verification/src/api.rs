//! HTTP status codes of the node's REST API replies.
use vstd::prelude::*;
use vstd::string::StringExecFns;
use crate::format::{decimal, push_decimal};

verus! {

/// The fields of a JSON reply body that decide its HTTP status.
#[derive(Clone, Copy, Debug)]
pub struct ReplyFields {
    /// The body's "code" field, when it holds a non-negative integer.
    pub code: Option<u64>,
    /// The body's "status" field is the string "error".
    pub status_is_error: bool,
    /// The body has an "error" field.
    pub has_error_key: bool,
}

/// `code` names an HTTP status (three digits).
pub open spec fn is_valid_status(code: int) -> bool {
    100 <= code <= 999
}

/// The status a reply body asks for: its "code" (kept to 16 bits), else 400
/// for an error body, else 200.
pub open spec fn requested_status(f: ReplyFields) -> int {
    match f.code {
        Some(c) => (c as int) % 65536,
        None => if f.status_is_error || f.has_error_key {
            400
        } else {
            200
        },
    }
}

/// The HTTP status of a reply: the requested one, or 500 when that is not a
/// valid status code.
pub open spec fn reply_status(f: ReplyFields) -> int {
    if is_valid_status(requested_status(f)) {
        requested_status(f)
    } else {
        500
    }
}

/// The HTTP status of a JSON reply with the given fields (see `reply_status`).
pub fn api_status(fields: &ReplyFields) -> (r: u16)
    ensures
        r == reply_status(*fields),
{
    let code: u16 = match fields.code {
        Some(c) => (c % 65536) as u16,
        None => if fields.status_is_error || fields.has_error_key {
            400
        } else {
            200
        },
    };
    if 100 <= code && code <= 999 {
        code
    } else {
        500
    }
}

/// An error body without an explicit code is answered with 400, a body
/// without error marks with 200, and every answer is a valid status.
pub proof fn lemma_reply_status(f: ReplyFields)
    ensures
        f.code is None && (f.status_is_error || f.has_error_key) ==> reply_status(f) == 400,
        f.code is None && !f.status_is_error && !f.has_error_key ==> reply_status(f) == 200,
        is_valid_status(reply_status(f)),
        f.code is Some && 100 <= f.code->0 <= 999 ==> reply_status(f) == f.code->0,
{
}

/// Why a request was turned away before reaching a handler.
#[derive(Clone, Copy, Debug, PartialEq, Eq, Structural)]
pub enum RejectionKind {
    /// The client exceeded its request rate.
    RateLimited,
    /// No route matches the path.
    NotFound,
    /// The JSON body could not be read.
    BadBody,
    /// The route exists for another method.
    MethodNotAllowed,
    /// Anything else.
    Other,
}

/// The HTTP status of a rejection.
pub open spec fn rejection_status(kind: RejectionKind) -> u16 {
    match kind {
        RejectionKind::RateLimited => 429,
        RejectionKind::NotFound => 404,
        RejectionKind::BadBody => 400,
        RejectionKind::MethodNotAllowed => 405,
        RejectionKind::Other => 500,
    }
}

/// The HTTP status and the message of the error reply to a rejected request;
/// `detail` describes a body that could not be read.
pub fn rejection_reply(kind: RejectionKind, detail: &str) -> (r: (u16, String))
    ensures
        r.0 == rejection_status(kind),
        r.1@ == match kind {
            RejectionKind::RateLimited => "Rate limit exceeded. Please slow down your requests."@,
            RejectionKind::NotFound => "Endpoint not found"@,
            RejectionKind::BadBody => "Invalid request body: "@ + detail@,
            RejectionKind::MethodNotAllowed => "Method not allowed"@,
            RejectionKind::Other => "Internal server error"@,
        },
{
    match kind {
        RejectionKind::RateLimited => (
            429,
            String::from_str("Rate limit exceeded. Please slow down your requests."),
        ),
        RejectionKind::NotFound => (404, String::from_str("Endpoint not found")),
        RejectionKind::BadBody => {
            let mut s = String::from_str("Invalid request body: ");
            s.append(detail);
            (400, s)
        },
        RejectionKind::MethodNotAllowed => (405, String::from_str("Method not allowed")),
        RejectionKind::Other => (500, String::from_str("Internal server error")),
    }
}

/// Why a faucet claim is refused before anything is minted.
#[derive(Clone, Copy, Debug, PartialEq, Eq, Structural)]
pub enum FaucetRefusal {
    /// The node runs on mainnet.
    Mainnet,
    /// The testnet mode has no faucet.
    Disabled,
    /// The request names no address.
    AddressRequired,
    /// The address is not a well-formed LOS address.
    InvalidAddress,
    /// The address claimed recently (recorded in the database); seconds left.
    Cooldown(u64),
    /// The in-memory limit on claims is reached; seconds to wait.
    RateLimited(u64),
}

/// The checks of a faucet claim before the in-memory rate limit, in this
/// order: mainnet, faucet switched off, empty address, malformed address,
/// and the database cooldown (`cooldown`, the seconds left when active).
pub open spec fn faucet_verdict(
    is_mainnet: bool,
    faucet_enabled: bool,
    address: Seq<char>,
    address_valid: bool,
    cooldown: Option<u64>,
) -> Result<(), FaucetRefusal> {
    if is_mainnet {
        Err(FaucetRefusal::Mainnet)
    } else if !faucet_enabled {
        Err(FaucetRefusal::Disabled)
    } else if address.len() == 0 {
        Err(FaucetRefusal::AddressRequired)
    } else if !address_valid {
        Err(FaucetRefusal::InvalidAddress)
    } else {
        match cooldown {
            Some(s) => Err(FaucetRefusal::Cooldown(s)),
            None => Ok(()),
        }
    }
}

/// Checks a faucet claim for `address` (see `faucet_verdict`).
pub fn faucet_check(
    is_mainnet: bool,
    faucet_enabled: bool,
    address: &str,
    address_valid: bool,
    cooldown: Option<u64>,
) -> (r: Result<(), FaucetRefusal>)
    ensures
        r == faucet_verdict(is_mainnet, faucet_enabled, address@, address_valid, cooldown),
{
    if is_mainnet {
        Err(FaucetRefusal::Mainnet)
    } else if !faucet_enabled {
        Err(FaucetRefusal::Disabled)
    } else if address.is_empty() {
        Err(FaucetRefusal::AddressRequired)
    } else if !address_valid {
        Err(FaucetRefusal::InvalidAddress)
    } else {
        match cooldown {
            Some(s) => Err(FaucetRefusal::Cooldown(s)),
            None => Ok(()),
        }
    }
}

/// The status and the message of the reply to a refused faucet claim.
pub open spec fn faucet_refusal_text(r: FaucetRefusal) -> (u16, Seq<char>) {
    match r {
        FaucetRefusal::Mainnet => (403, "Faucet is permanently disabled on mainnet"@),
        FaucetRefusal::Disabled => (403, "Faucet only available in Functional/Consensus testnet modes"@),
        FaucetRefusal::AddressRequired => (400, "Address required"@),
        FaucetRefusal::InvalidAddress => (
            400,
            "Invalid address format. Must be Base58Check with LOS prefix."@,
        ),
        FaucetRefusal::Cooldown(s) => (
            429,
            "Faucet cooldown active: try again in "@ + decimal(s as nat) + " seconds"@,
        ),
        FaucetRefusal::RateLimited(s) => (
            429,
            "Rate limit exceeded: max 1 faucet claim per 2 minutes. Try again in "@ + decimal(
                s as nat,
            ) + " seconds."@,
        ),
    }
}

/// The reply to a refused faucet claim (see `faucet_refusal_text`).
pub fn faucet_refusal_reply(r: FaucetRefusal) -> (out: (u16, String))
    ensures
        (out.0, out.1@) == faucet_refusal_text(r),
{
    match r {
        FaucetRefusal::Mainnet => (403, String::from_str("Faucet is permanently disabled on mainnet")),
        FaucetRefusal::Disabled => (
            403,
            String::from_str("Faucet only available in Functional/Consensus testnet modes"),
        ),
        FaucetRefusal::AddressRequired => (400, String::from_str("Address required")),
        FaucetRefusal::InvalidAddress => (
            400,
            String::from_str("Invalid address format. Must be Base58Check with LOS prefix."),
        ),
        FaucetRefusal::Cooldown(s) => {
            let mut m = String::from_str("Faucet cooldown active: try again in ");
            push_decimal(&mut m, s as u128);
            m.append(" seconds");
            (429, m)
        },
        FaucetRefusal::RateLimited(s) => {
            let mut m = String::from_str(
                "Rate limit exceeded: max 1 faucet claim per 2 minutes. Try again in ",
            );
            push_decimal(&mut m, s as u128);
            m.append(" seconds.");
            (429, m)
        },
    }
}

} // verus!
