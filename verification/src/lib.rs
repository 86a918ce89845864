//! Verified core of a LOS validator node: request rate limiting, the
//! transaction pool, the ledger merge and history, quorum, vote and
//! validator rules, the application of confirmed transfers, slashing and
//! liveness decisions, the reading of gossiped messages and the answer to
//! ledger requests, send and faucet admission, peer discovery, the choice of
//! the ledger's source at start, the proof-of-work search, and the
//! renderings the node's API and console use.
use vstd::prelude::*;

pub mod api;
mod clock;
pub mod confirmed;
pub mod consensus;
pub mod endpoint_limiter;
pub mod endpoints;
pub mod format;
pub mod gossip;
pub mod history;
pub mod liveness;
pub mod ledger;
pub mod mempool;
pub mod metrics;
pub mod persistence;
pub mod pow;
pub mod rate_limiter;
pub mod resync;
pub mod send;
pub mod slashing;
pub mod table;
pub mod validators;

verus! {

} // verus!
