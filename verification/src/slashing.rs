//! Handling of a gossiped proposal to slash an account for a fraudulent
//! transaction id (`SLASH_REQ:cheater:txid[:proposer:timestamp:signature:key]`):
//! whether the request is taken up, whether this node backs it, when enough
//! validators back it, and the penalty then applied.
use vstd::prelude::*;
use crate::endpoints::contains_part;
use crate::ledger::{balance_of, slash_evidence, LedgerState, LedgerView};

verus! {

/// Colon-separated parts of a signed slash request.
pub const SIGNED_SLASH_PARTS: usize = 7;

/// Colon-separated parts of the legacy, unsigned slash request.
pub const LEGACY_SLASH_PARTS: usize = 3;

/// Whether `t` occurs in `s` starting at index `i`.
fn occurs_at(s: &Vec<char>, t: &Vec<char>, i: usize) -> (r: bool)
    requires
        i + t@.len() <= s@.len(),
    ensures
        r == (s@.subrange(i as int, i + t@.len()) == t@),
{
    let m = t.len();
    let n = s.len();
    let mut j: usize = 0;
    while j < m
        invariant
            m == t@.len(),
            n == s@.len(),
            j <= m,
            i + m <= n,
            forall|k: int| 0 <= k < j ==> s@[i + k] == t@[k],
        decreases m - j,
    {
        if s[i + j] != t[j] {
            proof {
                let sub = s@.subrange(i as int, i + m);
                assert(sub[j as int] == s@[i + j]);
            }
            return false;
        }
        j += 1;
    }
    proof {
        assert(s@.subrange(i as int, i + m) =~= t@);
    }
    true
}

/// Whether `t` occurs in `s` as a contiguous part.
pub(crate) fn contains_chars(s: &Vec<char>, t: &Vec<char>) -> (r: bool)
    ensures
        r == contains_part(s@, t@),
{
    let n = s.len();
    let m = t.len();
    if m > n {
        return false;
    }
    let last = n - m;
    let mut i: usize = 0;
    while i < last
        invariant
            n == s@.len(),
            m == t@.len(),
            last == n - m,
            i <= last,
            forall|k: int| 0 <= k < i ==> #[trigger] s@.subrange(k, k + m) != t@,
        decreases last - i,
    {
        if occurs_at(s, t, i) {
            return true;
        }
        i += 1;
    }
    if occurs_at(s, t, last) {
        return true;
    }
    proof {
        if contains_part(s@, t@) {
            let k = choose|k: int|
                0 <= k && k + t@.len() <= s@.len() && #[trigger] s@.subrange(k, k + t@.len())
                    == t@;
            assert(k <= last);
        }
    }
    false
}

/// A request is taken up when it is signed and its signature checks out
/// against a key of the proposer (`signature_ok`), or, on a test network
/// only, when it has the legacy unsigned form. Any other shape is dropped.
pub open spec fn slash_request_taken(part_count: nat, signature_ok: bool, mainnet: bool) -> bool {
    (part_count == SIGNED_SLASH_PARTS && signature_ok) || (part_count == LEGACY_SLASH_PARTS
        && !mainnet)
}

/// Whether a slash request of `part_count` parts is taken up (see
/// `slash_request_taken`).
pub fn slash_request_admissible(part_count: usize, signature_ok: bool, mainnet: bool) -> (r: bool)
    ensures
        r == slash_request_taken(part_count as nat, signature_ok, mainnet),
{
    if part_count == SIGNED_SLASH_PARTS {
        signature_ok
    } else {
        part_count == LEGACY_SLASH_PARTS && !mainnet
    }
}

/// This node backs a proposal when it is itself a validator (its balance
/// reaches `min_stake`) and the evidence holds in its own ledger.
pub open spec fn backs_slash(
    v: LedgerView,
    my_address: Seq<char>,
    min_stake: u128,
    cheater: Seq<char>,
    txid: Seq<char>,
) -> bool {
    balance_of(v, my_address) >= min_stake && slash_evidence(v, cheater, txid)
}

/// Proposals needed to slash among `total_validators` validators: more than
/// two thirds (integer division) of them, counting at least one validator.
pub open spec fn slash_quorum(total_validators: u64) -> int {
    let t = if total_validators == 0 {
        1
    } else {
        total_validators as int
    };
    t * 2 / 3 + 1
}

/// Number of proposals needed to slash (see `slash_quorum`): more than two
/// thirds of the validators, and never more than there are.
pub fn slash_threshold(total_validators: u64) -> (r: u64)
    requires
        total_validators <= u64::MAX / 2,
    ensures
        r == slash_quorum(total_validators),
        ({
            let t = if total_validators == 0 {
                1
            } else {
                total_validators as int
            };
            3 * r > 2 * t && r <= t
        }),
{
    let t = if total_validators == 0 {
        1
    } else {
        total_validators
    };
    t * 2 / 3 + 1
}

/// Whether `proposal_count` open proposals against an account are enough to
/// execute the slash.
pub fn slash_consensus_reached(proposal_count: usize, total_validators: u64) -> (r: bool)
    requires
        total_validators <= u64::MAX / 2,
    ensures
        r == (proposal_count >= slash_quorum(total_validators)),
{
    let threshold = slash_threshold(total_validators);
    proposal_count as u64 >= threshold
}

/// What a slash takes from an account that exists and holds a balance: the
/// head its penalty block follows and a tenth of the balance, rounded down.
/// Nothing is taken from an unknown or empty account.
pub open spec fn penalty_of(v: LedgerView, cheater: Seq<char>) -> Option<(Seq<char>, u128)> {
    if v.accounts.contains_key(cheater) && v.accounts[cheater].balance > 0 {
        Some((v.accounts[cheater].head@, (v.accounts[cheater].balance / 10) as u128))
    } else {
        None
    }
}

impl LedgerState {
    /// Whether this node backs a slash proposal (see `backs_slash`).
    pub fn slash_vote(&self, my_address: &str, min_stake: u128, cheater: &str, fake_txid: &str) -> (r:
        bool)
        requires
            self.wf(),
        ensures
            r == backs_slash(self@, my_address@, min_stake, cheater@, fake_txid@),
    {
        let my_balance = match self.account(my_address) {
            Some(a) => a.balance,
            None => 0,
        };
        if my_balance < min_stake {
            return false;
        }
        self.slash_evidence_valid(cheater, fake_txid)
    }

    /// The previous head and amount of the penalty block for `cheater` (see
    /// `penalty_of`).
    pub fn slash_penalty(&self, cheater: &str) -> (r: Option<(String, u128)>)
        requires
            self.wf(),
        ensures
            match r {
                Some(p) => penalty_of(self@, cheater@) == Some((p.0@, p.1)),
                None => penalty_of(self@, cheater@) is None,
            },
    {
        match self.account(cheater) {
            Some(a) => {
                if a.balance > 0 {
                    Some((a.head, a.balance / 10))
                } else {
                    None
                }
            },
            None => None,
        }
    }
}

} // verus!
