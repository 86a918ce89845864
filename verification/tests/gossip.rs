use los_node::gossip::{
    gossip_kind, parse_confirm_response, AddressBook, MAX_PEERS, sync_delivery, GossipKind, SyncAnswer, SyncDelivery,
    SyncResponder, MAX_GOSSIP_SYNC_BYTES,
};

#[test]
fn messages_are_told_apart_by_their_tag() {
    assert_eq!(gossip_kind("ID:LOSabc:5"), GossipKind::Identity);
    assert_eq!(gossip_kind("SYNC_REQUEST:3"), GossipKind::SyncRequest);
    assert_eq!(gossip_kind("SLASH_REQ:x"), GossipKind::SlashRequest);
    assert_eq!(gossip_kind("CONFIRM_REQ:h:s:1:t"), GossipKind::ConfirmRequest);
    assert_eq!(gossip_kind("CONFIRM_RES:h"), GossipKind::ConfirmResponse);
    assert_eq!(gossip_kind("BLOCK_CONFIRMED:b"), GossipKind::BlockConfirmed);
    assert_eq!(gossip_kind("CONTRACT_DEPLOYED:c"), GossipKind::ContractDeployed);
    assert_eq!(gossip_kind("CONTRACT_CALLED:c"), GossipKind::ContractCalled);
    assert_eq!(gossip_kind("{\"account\":\"x\"}"), GossipKind::Other);
    assert_eq!(gossip_kind("ID"), GossipKind::Other);
    assert_eq!(gossip_kind("SYNC_GZIP:H4sI"), GossipKind::SyncGzip);
    assert_eq!(gossip_kind("SYNC_VIA_REST:h:3030|9"), GossipKind::SyncViaRest);
    assert_eq!(gossip_kind("VALIDATOR_HEARTBEAT:x"), GossipKind::ValidatorHeartbeat);
    assert_eq!(gossip_kind("VALIDATOR_HEARTBEAT_PROXY:x"), GossipKind::ValidatorHeartbeatProxy);
    assert_eq!(gossip_kind("VALIDATOR_REG:{}"), GossipKind::ValidatorRegistration);
    assert_eq!(gossip_kind("VALIDATOR_UNREG:{}"), GossipKind::ValidatorUnregistration);
    assert_eq!(gossip_kind("PEER_LIST:[]"), GossipKind::PeerList);
    assert_eq!(gossip_kind("CHECKPOINT_SIGN:1"), GossipKind::CheckpointSign);
    assert_eq!(gossip_kind("MINE_BLOCK:{}"), GossipKind::MineBlock);
    assert_eq!(gossip_kind(""), GossipKind::Other);
}

#[test]
fn confirmation_votes_are_read_by_position() {
    let v = parse_confirm_response("CONFIRM_RES:tx1:LOSreq:YES:LOSvoter:1700000000:ab12:cd34").unwrap();
    assert_eq!(v.tx_hash, "tx1");
    assert_eq!(v.requester, "LOSreq");
    assert_eq!(v.voter, "LOSvoter");
    assert_eq!(v.timestamp, "1700000000");
    assert_eq!(v.signature, "ab12");
    assert_eq!(v.public_key, "cd34");
    assert_eq!(v.signed_payload, "tx1:LOSreq:YES:LOSvoter:1700000000");
    // The fourth part is not looked at; the signed text always says YES.
    let w = parse_confirm_response("CONFIRM_RES:t:r:NO:v:1:s:k").unwrap();
    assert_eq!(w.signed_payload, "t:r:YES:v:1");
    assert!(parse_confirm_response("CONFIRM_RES:t:r:YES:v:1:s").is_none());
    assert!(parse_confirm_response("CONFIRM_RES:t:r:YES:v:1:s:k:extra").is_none());
    assert!(parse_confirm_response("CONFIRM_REQ:t:r:YES:v:1:s:k").is_none());
}

#[test]
fn ledger_requests_are_answered_at_most_every_fifteen_seconds() {
    let mut r = SyncResponder::new();
    // A first request at a time within fifteen seconds of the epoch counts
    // as too soon.
    assert_eq!(r.on_sync_request("LOSpeer", 0, 10, "LOSme", 5), SyncAnswer::RateLimited);
    assert_eq!(r.on_sync_request("LOSpeer", 3, 10, "LOSme", 1_000), SyncAnswer::SendLedger);
    assert_eq!(r.on_sync_request("LOSpeer", 3, 10, "LOSme", 1_014), SyncAnswer::RateLimited);
    assert_eq!(r.on_sync_request("LOSpeer", 3, 10, "LOSme", 1_015), SyncAnswer::SendLedger);
    assert_eq!(r.on_sync_request("LOSother", 10, 10, "LOSme", 1_015), SyncAnswer::NothingToSend);
    assert_eq!(r.on_sync_request("LOSme", 0, 10, "LOSme", 1_015), SyncAnswer::NothingToSend);
    // Old send times are forgotten, so a long-silent peer is answered.
    assert_eq!(r.on_sync_request("LOSpeer", 3, 10, "LOSme", 5_000), SyncAnswer::SendLedger);
}

#[test]
fn large_ledgers_are_redirected_to_rest() {
    assert!(matches!(sync_delivery(MAX_GOSSIP_SYNC_BYTES, 5, &None, 3030), SyncDelivery::Gossip));
    assert!(matches!(sync_delivery(MAX_GOSSIP_SYNC_BYTES + 1, 5, &None, 3030), SyncDelivery::Unavailable));
    match sync_delivery(MAX_GOSSIP_SYNC_BYTES + 1, 1234, &Some("abc.onion".to_string()), 3030) {
        SyncDelivery::RestRedirect(m) => assert_eq!(m, "SYNC_VIA_REST:abc.onion:3030|1234"),
        _ => panic!("expected a redirect"),
    }
}

#[test]
fn the_address_book_is_capped() {
    let mut b = AddressBook::new();
    assert_eq!(b.on_identity("los_a".to_string(), "LOSa1".to_string()), Some(true));
    assert_eq!(b.on_identity("los_a".to_string(), "LOSa2".to_string()), Some(false));
    assert_eq!(b.get("los_a"), Some("LOSa2".to_string()));
    for i in 1..MAX_PEERS {
        assert_eq!(b.on_identity(format!("p{}", i), format!("F{}", i)), Some(true));
    }
    assert_eq!(b.len(), MAX_PEERS);
    assert_eq!(b.on_identity("new".to_string(), "N".to_string()), None);
    assert_eq!(b.get("new"), None);
    assert_eq!(b.on_identity("p7".to_string(), "F7b".to_string()), Some(false));
    assert_eq!(b.get("p7"), Some("F7b".to_string()));
    assert_eq!(b.len(), MAX_PEERS);
}
