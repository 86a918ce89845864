//! Quorum rules for confirming sends, the votes gathered on pending sends,
//! and the acceptance rule for state received from a peer.
use vstd::prelude::*;
use crate::format::CIL_PER_LOS;
use crate::table::{
    has_key, key_index, keys_unique, lemma_table_empty, lemma_table_index, lemma_table_push,
    lemma_table_remove, lemma_table_update, table_view,
};

verus! {

/// Voting power (in thousandths of a LOS of stake) a send needs to be
/// confirmed in production.
pub const SEND_CONSENSUS_THRESHOLD: u128 = 20_000;

/// Voting power a send needs when consensus is switched off (functional
/// testnet).
pub const TESTNET_FUNCTIONAL_THRESHOLD: u128 = 1;

/// The BFT quorum `2f + 1` with `f = (n - 1) / 3`, at least two; one for a
/// network of at most one validator.
pub open spec fn quorum(n: int) -> int {
    if n <= 1 {
        1
    } else {
        let q = 2 * ((n - 1) / 3) + 1;
        if q >= 2 {
            q
        } else {
            2
        }
    }
}

/// Minimum number of distinct voters a send needs among
/// `active_validator_count` active validators.
pub fn min_distinct_voters(active_validator_count: usize) -> (r: usize)
    ensures
        r == quorum(active_validator_count as int),
{
    if active_validator_count <= 1 {
        return 1;
    }
    let f = (active_validator_count - 1) / 3;
    let bft_quorum = 2 * f + 1;
    if bft_quorum >= 2 {
        bft_quorum
    } else {
        2
    }
}

/// With two or more validators no single validator confirms a send alone,
/// and from three validators on the quorum can be met without the sender's
/// own vote (the sender does not vote on its own send).
pub proof fn lemma_quorum_bounds(n: int)
    ensures
        n >= 2 ==> quorum(n) >= 2,
        n >= 3 ==> quorum(n) <= n - 1,
        n >= 1 ==> quorum(n) <= n,
        quorum(n) >= 1,
{
}

/// The quorum never shrinks as validators join.
pub proof fn lemma_quorum_monotone(n: int, m: int)
    requires
        n <= m,
    ensures
        quorum(n) <= quorum(m),
{
    if n > 1 {
        assert((n - 1) / 3 <= (m - 1) / 3) by (nonlinear_arith)
            requires
                1 <= n <= m,
        ;
    }
}

/// How a vote on a pending send is taken.
#[derive(Clone, Copy, Debug, PartialEq, Eq, Structural)]
pub enum VoteOutcome {
    /// The voter already voted on this send; the vote is ignored.
    Duplicate,
    /// The vote is counted; the send still lacks power or voters.
    Counted,
    /// The vote is counted and the send now has enough power and voters.
    Confirmed,
}

/// The votes gathered so far for one pending send.
pub struct VoteTally {
    voters: Vec<String>,
    /// Accumulated voting power, in thousandths of a LOS of stake.
    pub total_power: u128,
}

/// What a `VoteTally` holds.
#[verifier::ext_equal]
pub struct VoteTallyView {
    pub voters: Seq<Seq<char>>,
    pub total_power: u128,
}

/// Power added by a vote backed by `power_cil` (voting power in CIL).
pub open spec fn vote_power(power_cil: u128) -> int {
    (power_cil / CIL_PER_LOS) * 1000
}

/// The power needed, by whether consensus is switched on.
pub open spec fn vote_threshold(consensus_enabled: bool) -> u128 {
    if consensus_enabled {
        SEND_CONSENSUS_THRESHOLD
    } else {
        TESTNET_FUNCTIONAL_THRESHOLD
    }
}

/// The distinct voters needed, by whether consensus is switched on.
pub open spec fn voters_needed(active_validators: int, consensus_enabled: bool) -> int {
    if consensus_enabled {
        quorum(active_validators)
    } else {
        1
    }
}

/// A tally is confirmed once it has the power and the distinct voters needed.
pub open spec fn tally_confirmed(
    v: VoteTallyView,
    active_validators: int,
    consensus_enabled: bool,
) -> bool {
    v.total_power >= vote_threshold(consensus_enabled) && v.voters.len() >= voters_needed(
        active_validators,
        consensus_enabled,
    )
}

impl View for VoteTally {
    type V = VoteTallyView;

    closed spec fn view(&self) -> VoteTallyView {
        VoteTallyView {
            voters: self.voters@.map_values(|s: String| s@),
            total_power: self.total_power,
        }
    }
}

impl VoteTally {
    /// A tally with no votes and `initial_power` already counted.
    pub fn new(initial_power: u128) -> (r: Self)
        ensures
            r@ == (VoteTallyView { voters: Seq::empty(), total_power: initial_power }),
    {
        let r = VoteTally { voters: Vec::new(), total_power: initial_power };
        proof {
            assert(r@ =~= VoteTallyView { voters: Seq::empty(), total_power: initial_power });
        }
        r
    }

    /// Whether `voter` has voted.
    pub fn has_voted(&self, voter: &str) -> (r: bool)
        ensures
            r == self@.voters.contains(voter@),
    {
        let key = voter.to_owned();
        let n = self.voters.len();
        let mut i: usize = 0;
        while i < n
            invariant
                n == self.voters@.len(),
                i <= n,
                key@ == voter@,
                forall|j: int| 0 <= j < i ==> (#[trigger] self.voters@[j])@ != voter@,
            decreases n - i,
        {
            if self.voters[i] == key {
                proof {
                    assert(self@.voters[i as int] == voter@);
                }
                return true;
            }
            i += 1;
        }
        proof {
            if self@.voters.contains(voter@) {
                let j = choose|j: int| 0 <= j < self@.voters.len() && self@.voters[j] == voter@;
                assert(self.voters@[j]@ == voter@);
            }
        }
        false
    }

    /// Number of distinct voters.
    pub fn distinct_voters(&self) -> (r: usize)
        ensures
            r == self@.voters.len(),
    {
        self.voters.len()
    }

    /// Takes the vote of `voter`, whose voting power is `power_cil` CIL, on a
    /// send among `active_validators` active validators. A repeated voter is
    /// ignored; otherwise the voter is added, the power (whole LOS of it,
    /// scaled by a thousand) is counted, and the tally is confirmed once it
    /// reaches the threshold with enough distinct voters.
    pub fn record_vote(
        &mut self,
        voter: &str,
        power_cil: u128,
        active_validators: usize,
        consensus_enabled: bool,
    ) -> (r: VoteOutcome)
        requires
            old(self)@.total_power + vote_power(power_cil) <= u128::MAX,
        ensures
            old(self)@.voters.contains(voter@) ==> r == VoteOutcome::Duplicate && final(self)@ == old(
                self,
            )@,
            !old(self)@.voters.contains(voter@) ==> {
                &&& final(self)@ == (VoteTallyView {
                    voters: old(self)@.voters.push(voter@),
                    total_power: (old(self)@.total_power + vote_power(power_cil)) as u128,
                })
                &&& r == if tally_confirmed(final(self)@, active_validators as int, consensus_enabled) {
                    VoteOutcome::Confirmed
                } else {
                    VoteOutcome::Counted
                }
            },
    {
        if self.has_voted(voter) {
            return VoteOutcome::Duplicate;
        }
        let ghost old_voters = self@.voters;
        self.voters.push(voter.to_owned());
        if power_cil > 0 {
            let power_los = power_cil / CIL_PER_LOS;
            assert(power_los * 1000 <= u128::MAX) by (nonlinear_arith)
                requires
                    power_los == power_cil / CIL_PER_LOS,
                    CIL_PER_LOS == 100_000_000_000,
            ;
            self.total_power = self.total_power + power_los * 1000;
        }
        proof {
            assert(self@.voters =~= old_voters.push(voter@));
        }
        let min_voters = if consensus_enabled {
            min_distinct_voters(active_validators)
        } else {
            1
        };
        let threshold = if consensus_enabled {
            SEND_CONSENSUS_THRESHOLD
        } else {
            TESTNET_FUNCTIONAL_THRESHOLD
        };
        if self.total_power >= threshold && self.voters.len() >= min_voters {
            VoteOutcome::Confirmed
        } else {
            VoteOutcome::Counted
        }
    }
}

/// A repeated vote changes nothing, and a counted vote never undoes a
/// confirmation: power and voter count only grow.
pub proof fn lemma_confirmation_stable(
    v: VoteTallyView,
    voter: Seq<char>,
    power_cil: u128,
    active_validators: int,
    consensus_enabled: bool,
)
    requires
        tally_confirmed(v, active_validators, consensus_enabled),
        v.total_power + vote_power(power_cil) <= u128::MAX,
    ensures
        tally_confirmed(
            VoteTallyView {
                voters: v.voters.push(voter),
                total_power: (v.total_power + vote_power(power_cil)) as u128,
            },
            active_validators,
            consensus_enabled,
        ),
{
    assert(vote_power(power_cil) >= 0) by (nonlinear_arith)
        requires
            power_cil >= 0,
            CIL_PER_LOS == 100_000_000_000,
    ;
}

/// A peer's state of `incoming_blocks` blocks, of which `invalid` fail
/// proof-of-work or signature checks, is adopted only when fewer than a tenth
/// of its blocks fail.
pub open spec fn sync_state_ok(incoming_blocks: int, invalid: int) -> bool {
    10 * invalid < incoming_blocks
}

/// Whether a peer's state is accepted for merging (see `sync_state_ok`).
pub fn sync_state_acceptable(incoming_blocks: usize, invalid: usize) -> (r: bool)
    ensures
        r == sync_state_ok(incoming_blocks as int, invalid as int),
{
    (invalid as u128) * 10 < incoming_blocks as u128
}

/// A state with no invalid block is accepted unless it is empty; a state
/// with a tenth or more of its blocks invalid is refused; and a state that is
/// accepted stays accepted when fewer of its blocks are invalid or when it
/// holds more blocks.
pub proof fn lemma_sync_budget(n: int, invalid: int, fewer: int, more: int)
    requires
        0 <= fewer <= invalid,
        n <= more,
    ensures
        n > 0 ==> sync_state_ok(n, 0),
        invalid * 10 >= n ==> !sync_state_ok(n, invalid),
        sync_state_ok(n, invalid) ==> sync_state_ok(n, fewer) && sync_state_ok(more, invalid),
{
}

/// Why fetching a peer's state over REST fails.
#[derive(Clone, Copy, Debug, PartialEq, Eq, Structural)]
pub enum RestSyncFailure {
    /// The peer answered with an unsuccessful HTTP status.
    HttpStatus,
    /// The body could not be decompressed.
    Decompression,
    /// The decompressed body is not a ledger.
    Parse,
    /// A tenth or more of the peer's blocks fail validation.
    TooManyInvalid,
}

/// The outcome of fetching a peer's state over REST, before merging.
#[derive(Clone, Copy, Debug, PartialEq, Eq, Structural)]
pub enum RestSyncDecision {
    Failed(RestSyncFailure),
    /// Nothing to do: the peer says we are up to date (a JSON answer), or
    /// its state root equals ours.
    UpToDate,
    /// The peer's state is to be merged.
    Merge,
}

/// The decision on a REST fetch, its steps taken in this order: the HTTP
/// status, a JSON answer (we are up to date), decompression, parsing, equal
/// state roots, and the share of invalid blocks (see `sync_state_ok`). A fact
/// is consulted only when the steps before it passed.
pub open spec fn rest_sync_decision(
    status_ok: bool,
    json_answer: bool,
    decompressed: bool,
    parsed: bool,
    roots_equal: bool,
    incoming_blocks: int,
    invalid: int,
) -> RestSyncDecision {
    if !status_ok {
        RestSyncDecision::Failed(RestSyncFailure::HttpStatus)
    } else if json_answer {
        RestSyncDecision::UpToDate
    } else if !decompressed {
        RestSyncDecision::Failed(RestSyncFailure::Decompression)
    } else if !parsed {
        RestSyncDecision::Failed(RestSyncFailure::Parse)
    } else if roots_equal {
        RestSyncDecision::UpToDate
    } else if !sync_state_ok(incoming_blocks, invalid) {
        RestSyncDecision::Failed(RestSyncFailure::TooManyInvalid)
    } else {
        RestSyncDecision::Merge
    }
}

/// Decides a REST fetch of a peer's state (see `rest_sync_decision`).
pub fn decide_rest_sync(
    status_ok: bool,
    json_answer: bool,
    decompressed: bool,
    parsed: bool,
    roots_equal: bool,
    incoming_blocks: usize,
    invalid: usize,
) -> (r: RestSyncDecision)
    ensures
        r == rest_sync_decision(
            status_ok,
            json_answer,
            decompressed,
            parsed,
            roots_equal,
            incoming_blocks as int,
            invalid as int,
        ),
{
    if !status_ok {
        RestSyncDecision::Failed(RestSyncFailure::HttpStatus)
    } else if json_answer {
        RestSyncDecision::UpToDate
    } else if !decompressed {
        RestSyncDecision::Failed(RestSyncFailure::Decompression)
    } else if !parsed {
        RestSyncDecision::Failed(RestSyncFailure::Parse)
    } else if roots_equal {
        RestSyncDecision::UpToDate
    } else if !sync_state_acceptable(incoming_blocks, invalid) {
        RestSyncDecision::Failed(RestSyncFailure::TooManyInvalid)
    } else {
        RestSyncDecision::Merge
    }
}

/// What the node does with a vote received for a send.
#[derive(Clone, Copy, Debug, PartialEq, Eq, Structural)]
pub enum VoteAction {
    /// No send with that hash awaits votes; the vote is dropped.
    NotPending,
    /// The voter already voted on this send; the vote is dropped.
    Duplicate,
    /// The vote is counted; the send still waits.
    Counted,
    /// The vote is counted and the send now has the power and the voters it
    /// needs: it is to be finalized.
    Finalize,
}

/// The sends awaiting votes, by transaction hash, with their tallies.
pub struct PendingVotes {
    entries: Vec<(String, VoteTally)>,
}

pub open spec fn pending_key() -> spec_fn((String, VoteTally)) -> Seq<char> {
    |e: (String, VoteTally)| e.0@
}

pub open spec fn pending_val() -> spec_fn((String, VoteTally)) -> VoteTallyView {
    |e: (String, VoteTally)| e.1@
}

impl View for PendingVotes {
    type V = Map<Seq<char>, VoteTallyView>;

    closed spec fn view(&self) -> Map<Seq<char>, VoteTallyView> {
        table_view(self.entries@, pending_key(), pending_val())
    }
}

/// The pending sends and the action after a vote of `voter`, whose voting
/// power is `power_cil` CIL, on the send `tx_hash`, among `active_validators`
/// active validators: dropped when the send is not pending or the voter
/// already voted; otherwise counted (see `VoteTally::record_vote`), and the
/// send is to be finalized once its tally is confirmed.
pub open spec fn vote_step(
    m: Map<Seq<char>, VoteTallyView>,
    tx_hash: Seq<char>,
    voter: Seq<char>,
    power_cil: u128,
    active_validators: int,
    consensus_enabled: bool,
) -> (Map<Seq<char>, VoteTallyView>, VoteAction) {
    if !m.contains_key(tx_hash) {
        (m, VoteAction::NotPending)
    } else if m[tx_hash].voters.contains(voter) {
        (m, VoteAction::Duplicate)
    } else {
        let t = VoteTallyView {
            voters: m[tx_hash].voters.push(voter),
            total_power: (m[tx_hash].total_power + vote_power(power_cil)) as u128,
        };
        (
            m.insert(tx_hash, t),
            if tally_confirmed(t, active_validators, consensus_enabled) {
                VoteAction::Finalize
            } else {
                VoteAction::Counted
            },
        )
    }
}

impl PendingVotes {
    /// One tally per transaction hash.
    pub closed spec fn wf(&self) -> bool {
        keys_unique(self.entries@, pending_key())
    }

    /// No send awaits votes.
    pub fn new() -> (r: Self)
        ensures
            r.wf(),
            r@ == Map::<Seq<char>, VoteTallyView>::empty(),
    {
        let r = PendingVotes { entries: Vec::new() };
        proof {
            lemma_table_empty(r.entries@, pending_key(), pending_val());
        }
        r
    }

    fn find(&self, key: &str) -> (r: Option<usize>)
        requires
            self.wf(),
        ensures
            match r {
                Some(i) => i < self.entries@.len() && self.entries@[i as int].0@ == key@,
                None => !self@.contains_key(key@),
            },
    {
        let k = key.to_owned();
        let n = self.entries.len();
        let mut i: usize = 0;
        while i < n
            invariant
                n == self.entries@.len(),
                i <= n,
                k@ == key@,
                forall|j: int| 0 <= j < i ==> (#[trigger] self.entries@[j]).0@ != key@,
            decreases n - i,
        {
            if self.entries[i].0 == k {
                return Some(i);
            }
            i += 1;
        }
        proof {
            if self@.contains_key(key@) {
                let j = key_index(self.entries@, pending_key(), key@);
                assert(self.entries@[j].0@ == key@);
            }
        }
        None
    }

    /// Starts gathering votes for the send `tx_hash`, with `initial_power`
    /// already counted (the sender's own); a tally already open for that hash
    /// is replaced.
    pub fn open(&mut self, tx_hash: String, initial_power: u128)
        requires
            old(self).wf(),
        ensures
            final(self).wf(),
            final(self)@ == old(self)@.insert(
                tx_hash@,
                VoteTallyView { voters: Seq::empty(), total_power: initial_power },
            ),
    {
        let ghost s = self.entries@;
        let t = VoteTally::new(initial_power);
        match self.find(tx_hash.as_str()) {
            Some(i) => {
                proof {
                    lemma_table_update(s, pending_key(), pending_val(), i as int, (tx_hash, t));
                }
                self.entries.set(i, (tx_hash, t));
            },
            None => {
                proof {
                    if has_key(s, pending_key(), tx_hash@) {
                        let j = key_index(s, pending_key(), tx_hash@);
                        lemma_table_index(s, pending_key(), pending_val(), j);
                    }
                    lemma_table_push(s, pending_key(), pending_val(), (tx_hash, t));
                }
                self.entries.push((tx_hash, t));
            },
        }
    }

    /// Stops gathering votes for the send `tx_hash` (once it is finalized or
    /// dropped).
    pub fn close(&mut self, tx_hash: &str)
        requires
            old(self).wf(),
        ensures
            final(self).wf(),
            final(self)@ == old(self)@.remove(tx_hash@),
    {
        match self.find(tx_hash) {
            Some(i) => {
                proof {
                    lemma_table_remove(self.entries@, pending_key(), pending_val(), i as int);
                }
                self.entries.remove(i);
            },
            None => {
                proof {
                    assert(self@ =~= old(self)@.remove(tx_hash@));
                }
            },
        }
    }

    /// Takes the vote of `voter` on the send `tx_hash` (see `vote_step`).
    pub fn on_vote(
        &mut self,
        tx_hash: &str,
        voter: &str,
        power_cil: u128,
        active_validators: usize,
        consensus_enabled: bool,
    ) -> (r: VoteAction)
        requires
            old(self).wf(),
            old(self)@.contains_key(tx_hash@) ==> old(self)@[tx_hash@].total_power + vote_power(
                power_cil,
            ) <= u128::MAX,
        ensures
            final(self).wf(),
            (final(self)@, r) == vote_step(
                old(self)@,
                tx_hash@,
                voter@,
                power_cil,
                active_validators as int,
                consensus_enabled,
            ),
    {
        let i = match self.find(tx_hash) {
            Some(i) => i,
            None => return VoteAction::NotPending,
        };
        let ghost s = self.entries@;
        proof {
            lemma_table_index(s, pending_key(), pending_val(), i as int);
        }
        let (k, mut t) = self.entries.remove(i);
        let outcome = t.record_vote(voter, power_cil, active_validators, consensus_enabled);
        let ghost e = (k, t);
        self.entries.insert(i, (k, t));
        proof {
            assert(self.entries@ =~= s.update(i as int, e));
            lemma_table_update(s, pending_key(), pending_val(), i as int, e);
            if outcome == VoteOutcome::Duplicate {
                assert(self@ =~= old(self)@);
            }
        }
        match outcome {
            VoteOutcome::Duplicate => VoteAction::Duplicate,
            VoteOutcome::Counted => VoteAction::Counted,
            VoteOutcome::Confirmed => VoteAction::Finalize,
        }
    }
}

/// Once a send is to be finalized, every further new vote on it finalizes it
/// too: votes never take a confirmation back.
pub proof fn lemma_finalize_stays(
    m: Map<Seq<char>, VoteTallyView>,
    tx_hash: Seq<char>,
    voter: Seq<char>,
    power_cil: u128,
    next_voter: Seq<char>,
    next_power_cil: u128,
    active_validators: int,
    consensus_enabled: bool,
)
    requires
        vote_step(m, tx_hash, voter, power_cil, active_validators, consensus_enabled).1
            == VoteAction::Finalize,
    ensures
        ({
            let m2 = vote_step(m, tx_hash, voter, power_cil, active_validators, consensus_enabled).0;
            let a = vote_step(m2, tx_hash, next_voter, next_power_cil, active_validators, consensus_enabled).1;
            m2[tx_hash].total_power + vote_power(next_power_cil) <= u128::MAX ==> a
                == VoteAction::Finalize || a == VoteAction::Duplicate
        }),
{
    let m2 = vote_step(m, tx_hash, voter, power_cil, active_validators, consensus_enabled).0;
    if m2[tx_hash].total_power + vote_power(next_power_cil) <= u128::MAX && !m2[tx_hash].voters.contains(next_voter) {
        lemma_confirmation_stable(m2[tx_hash], next_voter, next_power_cil, active_validators, consensus_enabled);
    }
}

} // verus!
