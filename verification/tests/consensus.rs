use los_node::consensus::{
    decide_rest_sync, min_distinct_voters, sync_state_acceptable, RestSyncDecision, RestSyncFailure, PendingVotes, VoteAction, VoteOutcome, VoteTally,
};
use los_node::format::CIL_PER_LOS;

#[test]
fn quorum_follows_the_bft_formula() {
    assert_eq!(min_distinct_voters(0), 1);
    assert_eq!(min_distinct_voters(1), 1);
    assert_eq!(min_distinct_voters(2), 2);
    assert_eq!(min_distinct_voters(3), 2);
    assert_eq!(min_distinct_voters(4), 3);
    assert_eq!(min_distinct_voters(7), 5);
    assert_eq!(min_distinct_voters(10), 7);
    assert_eq!(min_distinct_voters(100), 67);
}

#[test]
fn quorum_never_exceeds_the_other_validators() {
    for n in 3..200usize {
        assert!(min_distinct_voters(n) <= n - 1);
        assert!(min_distinct_voters(n) <= min_distinct_voters(n + 1));
    }
}

#[test]
fn votes_confirm_with_power_and_voters() {
    // Four validators: a quorum of three voters, and 20 000 power units.
    let mut tally = VoteTally::new(0);
    let stake = 10_000 * CIL_PER_LOS; // 10 000 LOS give 10 000 000 units.
    assert_eq!(tally.record_vote("v1", stake, 4, true), VoteOutcome::Counted);
    assert_eq!(tally.record_vote("v1", stake, 4, true), VoteOutcome::Duplicate);
    assert_eq!(tally.distinct_voters(), 1);
    assert_eq!(tally.record_vote("v2", stake, 4, true), VoteOutcome::Counted);
    assert_eq!(tally.record_vote("v3", stake, 4, true), VoteOutcome::Confirmed);
    assert_eq!(tally.total_power, 30_000_000);
    assert!(tally.has_voted("v2"));
    assert!(!tally.has_voted("v4"));
}

#[test]
fn small_stakes_count_whole_los_only() {
    let mut tally = VoteTally::new(0);
    tally.record_vote("a", CIL_PER_LOS - 1, 1, true);
    assert_eq!(tally.total_power, 0);
    tally.record_vote("b", 19 * CIL_PER_LOS + 5, 1, true);
    assert_eq!(tally.total_power, 19_000);
    assert_eq!(tally.record_vote("c", CIL_PER_LOS, 1, true), VoteOutcome::Confirmed);
    assert_eq!(tally.total_power, 20_000);
}

#[test]
fn functional_mode_needs_one_voter() {
    let mut tally = VoteTally::new(1);
    assert_eq!(tally.record_vote("only", 0, 50, false), VoteOutcome::Confirmed);
    let mut empty = VoteTally::new(0);
    assert_eq!(empty.record_vote("only", 0, 50, false), VoteOutcome::Counted);
}

#[test]
fn peer_state_invalid_block_budget() {
    assert!(!sync_state_acceptable(0, 0));
    assert!(sync_state_acceptable(1, 0));
    assert!(!sync_state_acceptable(10, 1));
    assert!(!sync_state_acceptable(10, 3));
    assert!(sync_state_acceptable(11, 1));
    assert!(sync_state_acceptable(100, 9));
    assert!(!sync_state_acceptable(100, 10));
    assert!(!sync_state_acceptable(usize::MAX, usize::MAX));
}

#[test]
fn votes_on_pending_sends() {
    let stake = 10_000 * CIL_PER_LOS;
    let mut p = PendingVotes::new();
    assert_eq!(p.on_vote("tx", "v1", stake, 4, true), VoteAction::NotPending);
    p.open("tx".to_string(), 0);
    assert_eq!(p.on_vote("tx", "v1", stake, 4, true), VoteAction::Counted);
    assert_eq!(p.on_vote("tx", "v1", stake, 4, true), VoteAction::Duplicate);
    assert_eq!(p.on_vote("tx", "v2", stake, 4, true), VoteAction::Counted);
    assert_eq!(p.on_vote("other", "v3", stake, 4, true), VoteAction::NotPending);
    assert_eq!(p.on_vote("tx", "v3", stake, 4, true), VoteAction::Finalize);
    assert_eq!(p.on_vote("tx", "v4", 0, 4, true), VoteAction::Finalize);
    p.close("tx");
    assert_eq!(p.on_vote("tx", "v5", stake, 4, true), VoteAction::NotPending);
    // Reopening starts a fresh tally.
    p.open("tx".to_string(), 0);
    assert_eq!(p.on_vote("tx", "v1", stake, 1, false), VoteAction::Finalize);
}

#[test]
fn rest_sync_steps() {
    let f = |d| RestSyncDecision::Failed(d);
    assert_eq!(decide_rest_sync(false, true, true, true, true, 100, 0), f(RestSyncFailure::HttpStatus));
    assert_eq!(decide_rest_sync(true, true, false, false, false, 100, 90), RestSyncDecision::UpToDate);
    assert_eq!(decide_rest_sync(true, false, false, true, true, 100, 0), f(RestSyncFailure::Decompression));
    assert_eq!(decide_rest_sync(true, false, true, false, true, 100, 0), f(RestSyncFailure::Parse));
    assert_eq!(decide_rest_sync(true, false, true, true, true, 100, 90), RestSyncDecision::UpToDate);
    assert_eq!(decide_rest_sync(true, false, true, true, false, 10, 3), f(RestSyncFailure::TooManyInvalid));
    assert_eq!(decide_rest_sync(true, false, true, true, false, 100, 9), RestSyncDecision::Merge);
}
