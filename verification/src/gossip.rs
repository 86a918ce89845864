//! The messages that peers gossip: what kind a message is, the fields of a
//! send confirmation, and the answer to a peer's request for the ledger.
use vstd::prelude::*;
use vstd::string::StringExecFns;
use crate::endpoints::{chars_of, ensure_host_port, push_range, split_chars, split_on, with_port};
use crate::format::{decimal, push_decimal};
use crate::table::{
    has_key, key_index, keys_unique, lemma_table_empty, lemma_table_index, lemma_table_len,
    lemma_table_push, lemma_table_update, table_view,
};

verus! {

/// The kinds of gossiped messages, by their leading tag.
#[derive(Clone, Copy, Debug, PartialEq, Eq, Structural)]
pub enum GossipKind {
    /// "ID:": a peer announces its address.
    Identity,
    /// "SYNC_GZIP:": a peer sends its compressed ledger.
    SyncGzip,
    /// "SYNC_REQUEST:": a peer asks for the ledger.
    SyncRequest,
    /// "SYNC_VIA_REST:": a peer points to its REST endpoint for a large ledger.
    SyncViaRest,
    /// "SLASH_REQ:": a peer reports a validator for slashing.
    SlashRequest,
    /// "CONFIRM_REQ:": a peer asks for votes on a send.
    ConfirmRequest,
    /// "CONFIRM_RES:": a validator votes on a send.
    ConfirmResponse,
    /// "VALIDATOR_HEARTBEAT:": a validator reports that it is alive.
    ValidatorHeartbeat,
    /// "VALIDATOR_HEARTBEAT_PROXY:": a heartbeat relayed for another validator.
    ValidatorHeartbeatProxy,
    /// "VALIDATOR_REG:": a validator announces its registration.
    ValidatorRegistration,
    /// "VALIDATOR_UNREG:": a validator announces its leave.
    ValidatorUnregistration,
    /// "PEER_LIST:": a peer shares the peers it knows.
    PeerList,
    /// "BLOCK_CONFIRMED:": a confirmed block is announced.
    BlockConfirmed,
    /// "CONTRACT_DEPLOYED:": a contract deployment is announced.
    ContractDeployed,
    /// "CONTRACT_CALLED:": a contract call is announced.
    ContractCalled,
    /// "CHECKPOINT_SIGN:": a validator signs a checkpoint.
    CheckpointSign,
    /// "MINE_BLOCK:": a mined block is announced.
    MineBlock,
    /// Anything else (such as a block in JSON).
    Other,
}

/// `s` begins with `prefix`.
pub open spec fn starts_with(s: Seq<char>, prefix: Seq<char>) -> bool {
    prefix.len() <= s.len() && s.subrange(0, prefix.len() as int) == prefix
}

/// The kind of a message with characters `m`: the first of the tags, in the
/// order below, that begins it.
pub open spec fn kind_of(m: Seq<char>) -> GossipKind {
    if starts_with(m, "ID:"@) {
        GossipKind::Identity
    } else if starts_with(m, "SYNC_GZIP:"@) {
        GossipKind::SyncGzip
    } else if starts_with(m, "SYNC_REQUEST:"@) {
        GossipKind::SyncRequest
    } else if starts_with(m, "SYNC_VIA_REST:"@) {
        GossipKind::SyncViaRest
    } else if starts_with(m, "SLASH_REQ:"@) {
        GossipKind::SlashRequest
    } else if starts_with(m, "CONFIRM_REQ:"@) {
        GossipKind::ConfirmRequest
    } else if starts_with(m, "CONFIRM_RES:"@) {
        GossipKind::ConfirmResponse
    } else if starts_with(m, "VALIDATOR_HEARTBEAT:"@) {
        GossipKind::ValidatorHeartbeat
    } else if starts_with(m, "VALIDATOR_HEARTBEAT_PROXY:"@) {
        GossipKind::ValidatorHeartbeatProxy
    } else if starts_with(m, "VALIDATOR_REG:"@) {
        GossipKind::ValidatorRegistration
    } else if starts_with(m, "VALIDATOR_UNREG:"@) {
        GossipKind::ValidatorUnregistration
    } else if starts_with(m, "PEER_LIST:"@) {
        GossipKind::PeerList
    } else if starts_with(m, "BLOCK_CONFIRMED:"@) {
        GossipKind::BlockConfirmed
    } else if starts_with(m, "CONTRACT_DEPLOYED:"@) {
        GossipKind::ContractDeployed
    } else if starts_with(m, "CONTRACT_CALLED:"@) {
        GossipKind::ContractCalled
    } else if starts_with(m, "CHECKPOINT_SIGN:"@) {
        GossipKind::CheckpointSign
    } else if starts_with(m, "MINE_BLOCK:"@) {
        GossipKind::MineBlock
    } else {
        GossipKind::Other
    }
}

/// Whether `c` begins with the characters of `prefix`.
fn has_prefix(c: &Vec<char>, prefix: &str) -> (r: bool)
    ensures
        r == starts_with(c@, prefix@),
{
    let p = chars_of(prefix);
    let n = p.len();
    if n > c.len() {
        return false;
    }
    let mut i: usize = 0;
    while i < n
        invariant
            n == p@.len(),
            p@ == prefix@,
            n <= c@.len(),
            i <= n,
            forall|k: int| 0 <= k < i ==> c@[k] == p@[k],
        decreases n - i,
    {
        if c[i] != p[i] {
            proof {
                assert(c@.subrange(0, n as int)[i as int] != p@[i as int]);
            }
            return false;
        }
        i += 1;
    }
    proof {
        assert(c@.subrange(0, n as int) =~= p@);
    }
    true
}

/// The kind of the message `data` (see `kind_of`).
pub fn gossip_kind(data: &str) -> (r: GossipKind)
    ensures
        r == kind_of(data@),
{
    let c = chars_of(data);
    if has_prefix(&c, "ID:") {
        GossipKind::Identity
    } else if has_prefix(&c, "SYNC_GZIP:") {
        GossipKind::SyncGzip
    } else if has_prefix(&c, "SYNC_REQUEST:") {
        GossipKind::SyncRequest
    } else if has_prefix(&c, "SYNC_VIA_REST:") {
        GossipKind::SyncViaRest
    } else if has_prefix(&c, "SLASH_REQ:") {
        GossipKind::SlashRequest
    } else if has_prefix(&c, "CONFIRM_REQ:") {
        GossipKind::ConfirmRequest
    } else if has_prefix(&c, "CONFIRM_RES:") {
        GossipKind::ConfirmResponse
    } else if has_prefix(&c, "VALIDATOR_HEARTBEAT:") {
        GossipKind::ValidatorHeartbeat
    } else if has_prefix(&c, "VALIDATOR_HEARTBEAT_PROXY:") {
        GossipKind::ValidatorHeartbeatProxy
    } else if has_prefix(&c, "VALIDATOR_REG:") {
        GossipKind::ValidatorRegistration
    } else if has_prefix(&c, "VALIDATOR_UNREG:") {
        GossipKind::ValidatorUnregistration
    } else if has_prefix(&c, "PEER_LIST:") {
        GossipKind::PeerList
    } else if has_prefix(&c, "BLOCK_CONFIRMED:") {
        GossipKind::BlockConfirmed
    } else if has_prefix(&c, "CONTRACT_DEPLOYED:") {
        GossipKind::ContractDeployed
    } else if has_prefix(&c, "CONTRACT_CALLED:") {
        GossipKind::ContractCalled
    } else if has_prefix(&c, "CHECKPOINT_SIGN:") {
        GossipKind::CheckpointSign
    } else if has_prefix(&c, "MINE_BLOCK:") {
        GossipKind::MineBlock
    } else {
        GossipKind::Other
    }
}

/// The fields of a vote on a send
/// ("CONFIRM_RES:tx_hash:requester:YES:voter:timestamp:signature:public_key").
#[derive(Clone, Debug)]
pub struct ConfirmResponse {
    pub tx_hash: String,
    pub requester: String,
    pub voter: String,
    pub timestamp: String,
    pub signature: String,
    pub public_key: String,
    /// The text the voter signed: "tx_hash:requester:YES:voter:timestamp".
    pub signed_payload: String,
}

/// The vote a message with characters `m` carries: a "CONFIRM_RES:" message
/// of exactly eight colon-separated parts, read by position (the fourth part
/// is not looked at).
pub open spec fn confirm_response_of(m: Seq<char>) -> Option<
    (Seq<char>, Seq<char>, Seq<char>, Seq<char>, Seq<char>, Seq<char>, Seq<char>),
> {
    let p = split_on(m, ':');
    if kind_of(m) == GossipKind::ConfirmResponse && p.len() == 8 {
        Some(
            (
                p[1],
                p[2],
                p[4],
                p[5],
                p[6],
                p[7],
                p[1] + ":"@ + p[2] + ":YES:"@ + p[4] + ":"@ + p[5],
            ),
        )
    } else {
        None
    }
}

/// A part of a split message, as a string.
fn piece(pieces: &Vec<Vec<char>>, i: usize) -> (r: String)
    requires
        i < pieces@.len(),
    ensures
        r@ == pieces@[i as int]@,
{
    let mut s = String::new();
    push_range(&mut s, &pieces[i], 0, pieces[i].len());
    proof {
        assert(pieces@[i as int]@.subrange(0, pieces@[i as int]@.len() as int) =~= pieces@[i as int]@);
    }
    s
}

/// The vote carried by `data`, if it is a well-formed "CONFIRM_RES:" message
/// (see `confirm_response_of`).
pub fn parse_confirm_response(data: &str) -> (r: Option<ConfirmResponse>)
    ensures
        match r {
            Some(v) => confirm_response_of(data@) == Some(
                (
                    v.tx_hash@,
                    v.requester@,
                    v.voter@,
                    v.timestamp@,
                    v.signature@,
                    v.public_key@,
                    v.signed_payload@,
                ),
            ),
            None => confirm_response_of(data@) is None,
        },
{
    if gossip_kind(data) != GossipKind::ConfirmResponse {
        return None;
    }
    let c = chars_of(data);
    let parts = split_chars(&c, ':');
    let ghost ps = parts@.map_values(|p: Vec<char>| p@);
    if parts.len() != 8 {
        return None;
    }
    proof {
        assert(ps.len() == 8);
        assert forall|k: int| 0 <= k < 8 implies #[trigger] ps[k] == parts@[k]@ by {}
    }
    let tx_hash = piece(&parts, 1);
    let requester = piece(&parts, 2);
    let voter = piece(&parts, 4);
    let timestamp = piece(&parts, 5);
    let signature = piece(&parts, 6);
    let public_key = piece(&parts, 7);
    let mut signed_payload = tx_hash.clone();
    signed_payload.append(":");
    signed_payload.append(requester.as_str());
    signed_payload.append(":YES:");
    signed_payload.append(voter.as_str());
    signed_payload.append(":");
    signed_payload.append(timestamp.as_str());
    Some(ConfirmResponse { tx_hash, requester, voter, timestamp, signature, public_key, signed_payload })
}

/// Seconds that must pass between two ledger sends to the same peer.
pub const SYNC_RESPONSE_INTERVAL_SECS: u64 = 15;

/// Seconds after which the time of a ledger send is forgotten.
pub const SYNC_RESPONSE_MEMORY_SECS: u64 = 300;

/// The largest compressed ledger sent by gossip, in bytes.
pub const MAX_GOSSIP_SYNC_BYTES: usize = 8_388_608;

/// What the node does with a peer's request for the ledger.
#[derive(Clone, Copy, Debug, PartialEq, Eq, Structural)]
pub enum SyncAnswer {
    /// The peer was answered less than fifteen seconds ago: the request is
    /// dropped.
    RateLimited,
    /// The peer is this node, or has at least as many blocks: nothing is sent.
    NothingToSend,
    /// The ledger is to be sent.
    SendLedger,
}

/// When the node last sent its ledger to each peer, in seconds.
pub struct SyncResponder {
    last_sent: Vec<(String, u64)>,
}

pub open spec fn sent_key() -> spec_fn((String, u64)) -> Seq<char> {
    |e: (String, u64)| e.0@
}

pub open spec fn sent_val() -> spec_fn((String, u64)) -> u64 {
    |e: (String, u64)| e.1
}

impl View for SyncResponder {
    type V = Map<Seq<char>, u64>;

    closed spec fn view(&self) -> Map<Seq<char>, u64> {
        table_view(self.last_sent@, sent_key(), sent_val())
    }
}

/// Seconds from `from` to `to`, zero when `to` lies before `from`.
pub open spec fn secs_between(from: u64, to: u64) -> int {
    if to >= from {
        to - from
    } else {
        0
    }
}

/// The send times after recording a send to `requester` at `now`, with the
/// times older than `SYNC_RESPONSE_MEMORY_SECS` forgotten.
pub open spec fn sent_after(m: Map<Seq<char>, u64>, requester: Seq<char>, now: u64) -> Map<Seq<char>, u64> {
    let n = m.insert(requester, now);
    Map::new(
        |k: Seq<char>| n.contains_key(k) && secs_between(n[k], now) < SYNC_RESPONSE_MEMORY_SECS,
        |k: Seq<char>| n[k],
    )
}

/// The send times and the answer to a request for the ledger from
/// `requester`, who has `their_count` blocks, at `now`, when this node
/// (`mine`) has `our_count` blocks: dropped when the requester was answered
/// (or last asked, counting from the epoch) less than fifteen seconds ago;
/// otherwise the request is recorded, and the ledger is sent when the
/// requester is another node that has fewer blocks.
pub open spec fn sync_step(
    m: Map<Seq<char>, u64>,
    requester: Seq<char>,
    their_count: int,
    our_count: int,
    mine: Seq<char>,
    now: u64,
) -> (Map<Seq<char>, u64>, SyncAnswer) {
    let last = if m.contains_key(requester) {
        m[requester]
    } else {
        0
    };
    if secs_between(last, now) < SYNC_RESPONSE_INTERVAL_SECS {
        (m, SyncAnswer::RateLimited)
    } else {
        (
            sent_after(m, requester, now),
            if our_count > their_count && requester != mine {
                SyncAnswer::SendLedger
            } else {
                SyncAnswer::NothingToSend
            },
        )
    }
}

impl SyncResponder {
    /// One time per peer.
    pub closed spec fn wf(&self) -> bool {
        keys_unique(self.last_sent@, sent_key())
    }

    /// No ledger sent yet.
    pub fn new() -> (r: Self)
        ensures
            r.wf(),
            r@ == Map::<Seq<char>, u64>::empty(),
    {
        let r = SyncResponder { last_sent: Vec::new() };
        proof {
            lemma_table_empty(r.last_sent@, sent_key(), sent_val());
        }
        r
    }

    fn find(&self, key: &str) -> (r: Option<usize>)
        requires
            self.wf(),
        ensures
            match r {
                Some(i) => i < self.last_sent@.len() && self.last_sent@[i as int].0@ == key@,
                None => !self@.contains_key(key@),
            },
    {
        let k = key.to_owned();
        let n = self.last_sent.len();
        let mut i: usize = 0;
        while i < n
            invariant
                n == self.last_sent@.len(),
                i <= n,
                k@ == key@,
                forall|j: int| 0 <= j < i ==> (#[trigger] self.last_sent@[j]).0@ != key@,
            decreases n - i,
        {
            if self.last_sent[i].0 == k {
                return Some(i);
            }
            i += 1;
        }
        proof {
            if self@.contains_key(key@) {
                let j = key_index(self.last_sent@, sent_key(), key@);
                assert(self.last_sent@[j].0@ == key@);
            }
        }
        None
    }

    /// Answers a request for the ledger (see `sync_step`).
    pub fn on_sync_request(
        &mut self,
        requester: &str,
        their_count: usize,
        our_count: usize,
        mine: &str,
        now: u64,
    ) -> (r: SyncAnswer)
        requires
            old(self).wf(),
        ensures
            final(self).wf(),
            (final(self)@, r) == sync_step(
                old(self)@,
                requester@,
                their_count as int,
                our_count as int,
                mine@,
                now,
            ),
    {
        let ghost m = self@;
        let last = match self.find(requester) {
            Some(i) => {
                proof {
                    lemma_table_index(self.last_sent@, sent_key(), sent_val(), i as int);
                }
                self.last_sent[i].1
            },
            None => 0,
        };
        if now.saturating_sub(last) < SYNC_RESPONSE_INTERVAL_SECS {
            return SyncAnswer::RateLimited;
        }
        let ghost n = m.insert(requester@, now);
        let mut kept: Vec<(String, u64)> = Vec::new();
        let len = self.last_sent.len();
        let mut i: usize = 0;
        let key = requester.to_owned();
        proof {
            lemma_table_empty(kept@, sent_key(), sent_val());
        }
        while i < len
            invariant
                self.wf(),
                m == self@,
                len == self.last_sent@.len(),
                i <= len,
                key@ == requester@,
                keys_unique(kept@, sent_key()),
                forall|k: Seq<char>|
                    #[trigger] table_view(kept@, sent_key(), sent_val()).contains_key(k) <==> (exists|j: int|
                        0 <= j < i && #[trigger] self.last_sent@[j].0@ == k && k != requester@
                            && secs_between(self.last_sent@[j].1, now) < SYNC_RESPONSE_MEMORY_SECS),
                forall|k: Seq<char>|
                    #[trigger] table_view(kept@, sent_key(), sent_val()).contains_key(k) ==> table_view(
                        kept@,
                        sent_key(),
                        sent_val(),
                    )[k] == m[k],
            decreases len - i,
        {
            let e = &self.last_sent[i];
            proof {
                lemma_table_index(self.last_sent@, sent_key(), sent_val(), i as int);
            }
            if e.0 != key && now.saturating_sub(e.1) < SYNC_RESPONSE_MEMORY_SECS {
                let ghost kv = kept@;
                let entry = (e.0.clone(), e.1);
                proof {
                    if has_key(kv, sent_key(), entry.0@) {
                        let j = key_index(kv, sent_key(), entry.0@);
                        lemma_table_index(kv, sent_key(), sent_val(), j);
                        let w = choose|w: int|
                            0 <= w < i && #[trigger] self.last_sent@[w].0@ == entry.0@ && entry.0@
                                != requester@ && secs_between(self.last_sent@[w].1, now)
                                < SYNC_RESPONSE_MEMORY_SECS;
                        assert(self.last_sent@[w].0@ == self.last_sent@[i as int].0@);
                    }
                    lemma_table_push(kv, sent_key(), sent_val(), entry);
                }
                kept.push(entry);
                proof {
                    assert forall|k: Seq<char>|
                        #[trigger] table_view(kept@, sent_key(), sent_val()).contains_key(k) <==> (exists|j: int|
                            0 <= j < i + 1 && #[trigger] self.last_sent@[j].0@ == k && k != requester@
                                && secs_between(self.last_sent@[j].1, now) < SYNC_RESPONSE_MEMORY_SECS) by {
                        if k == entry.0@ {
                            assert(self.last_sent@[i as int].0@ == k);
                        }
                    }
                }
            } else {
                proof {
                    assert forall|k: Seq<char>|
                        #[trigger] table_view(kept@, sent_key(), sent_val()).contains_key(k) <==> (exists|j: int|
                            0 <= j < i + 1 && #[trigger] self.last_sent@[j].0@ == k && k != requester@
                                && secs_between(self.last_sent@[j].1, now) < SYNC_RESPONSE_MEMORY_SECS) by {
                        if exists|j: int|
                            0 <= j < i + 1 && #[trigger] self.last_sent@[j].0@ == k && k != requester@
                                && secs_between(self.last_sent@[j].1, now) < SYNC_RESPONSE_MEMORY_SECS {
                            let j = choose|j: int|
                                0 <= j < i + 1 && #[trigger] self.last_sent@[j].0@ == k && k != requester@
                                    && secs_between(self.last_sent@[j].1, now) < SYNC_RESPONSE_MEMORY_SECS;
                            if j == i {
                                assert(false);
                            }
                        }
                    }
                }
            }
            i += 1;
        }
        let ghost kv = kept@;
        proof {
            if has_key(kv, sent_key(), requester@) {
                let j = key_index(kv, sent_key(), requester@);
                lemma_table_index(kv, sent_key(), sent_val(), j);
            }
            lemma_table_push(kv, sent_key(), sent_val(), (key, now));
        }
        kept.push((key, now));
        self.last_sent = kept;
        proof {
            let target = sent_after(m, requester@, now);
            assert forall|k: Seq<char>| #[trigger] self@.contains_key(k) <==> target.contains_key(k) by {
                if k != requester@ && m.contains_key(k) {
                    let j = key_index(old(self).last_sent@, sent_key(), k);
                    lemma_table_index(old(self).last_sent@, sent_key(), sent_val(), j);
                }
            }
            assert(self@ =~= target);
        }
        let me = mine.to_owned();
        let requester_is_me = requester.to_owned() == me;
        if our_count > their_count && !requester_is_me {
            SyncAnswer::SendLedger
        } else {
            SyncAnswer::NothingToSend
        }
    }
}

/// How the ledger is delivered to a peer that asked for it.
#[derive(Clone, Debug)]
pub enum SyncDelivery {
    /// The compressed ledger fits in a gossip message.
    Gossip,
    /// The ledger is too large: the peer is told to fetch it over REST with
    /// this message.
    RestRedirect(String),
    /// The ledger is too large and this node has no announced host.
    Unavailable,
}

/// The redirect message for a ledger of `our_count` blocks served at the
/// REST endpoint `rest_host`.
pub open spec fn redirect_text(rest_host: Seq<char>, our_count: nat) -> Seq<char> {
    "SYNC_VIA_REST:"@ + rest_host + "|"@ + decimal(our_count)
}

/// The delivery of a compressed ledger of `compressed_len` bytes and
/// `our_count` blocks: by gossip up to `MAX_GOSSIP_SYNC_BYTES`; otherwise a
/// redirect to this node's host (`our_host`, with `api_port` appended unless
/// it ends with a port); otherwise none.
pub fn sync_delivery(compressed_len: usize, our_count: usize, our_host: &Option<String>, api_port: u16) -> (r: SyncDelivery)
    ensures
        compressed_len <= MAX_GOSSIP_SYNC_BYTES ==> r is Gossip,
        compressed_len > MAX_GOSSIP_SYNC_BYTES ==> match our_host {
            Some(h) => r matches SyncDelivery::RestRedirect(msg) && msg@ == redirect_text(
                with_port(h@, api_port),
                our_count as nat,
            ),
            None => r is Unavailable,
        },
{
    if compressed_len <= MAX_GOSSIP_SYNC_BYTES {
        return SyncDelivery::Gossip;
    }
    match our_host {
        Some(h) => {
            let rest_host = ensure_host_port(h.as_str(), api_port);
            let mut msg = String::from_str("SYNC_VIA_REST:");
            msg.append(rest_host.as_str());
            msg.append("|");
            push_decimal(&mut msg, our_count as u128);
            SyncDelivery::RestRedirect(msg)
        },
        None => SyncDelivery::Unavailable,
    }
}

/// A peer is never sent the ledger twice within fifteen seconds: right after
/// a request is answered, the next one from the same peer within that time
/// is dropped and changes nothing.
pub proof fn lemma_sync_rate_limited(
    m: Map<Seq<char>, u64>,
    requester: Seq<char>,
    their_count: int,
    our_count: int,
    mine: Seq<char>,
    now: u64,
    next_count: int,
    later: u64,
)
    requires
        sync_step(m, requester, their_count, our_count, mine, now).1 != SyncAnswer::RateLimited,
        now <= later < now + SYNC_RESPONSE_INTERVAL_SECS,
    ensures
        ({
            let m2 = sync_step(m, requester, their_count, our_count, mine, now).0;
            sync_step(m2, requester, next_count, our_count, mine, later) == (
                m2,
                SyncAnswer::RateLimited,
            )
        }),
{
    let m2 = sync_step(m, requester, their_count, our_count, mine, now).0;
    assert(m2.contains_key(requester));
    assert(m2[requester] == now);
}

/// The most peers the address book holds.
pub const MAX_PEERS: usize = 10_000;

/// The peers this node knows: short address to full address.
pub struct AddressBook {
    entries: Vec<(String, String)>,
}

pub open spec fn book_key() -> spec_fn((String, String)) -> Seq<char> {
    |e: (String, String)| e.0@
}

pub open spec fn book_val() -> spec_fn((String, String)) -> Seq<char> {
    |e: (String, String)| e.1@
}

impl View for AddressBook {
    type V = Map<Seq<char>, Seq<char>>;

    closed spec fn view(&self) -> Map<Seq<char>, Seq<char>> {
        table_view(self.entries@, book_key(), book_val())
    }
}

/// The address book and the answer after a peer announced itself as `full`
/// with short form `short`: `None` (ignored) when the book is full and the
/// short address is new; else the address is recorded and the answer says
/// whether it was new.
pub open spec fn identity_step(m: Map<Seq<char>, Seq<char>>, short: Seq<char>, full: Seq<char>) -> (
    Map<Seq<char>, Seq<char>>,
    Option<bool>,
) {
    if m.dom().len() >= MAX_PEERS && !m.contains_key(short) {
        (m, None)
    } else {
        (m.insert(short, full), Some(!m.contains_key(short)))
    }
}

impl AddressBook {
    /// One entry per short address, and the book holds at most `MAX_PEERS`.
    pub closed spec fn wf(&self) -> bool {
        &&& keys_unique(self.entries@, book_key())
        &&& self.entries@.len() <= MAX_PEERS
    }

    /// No peer known.
    pub fn new() -> (r: Self)
        ensures
            r.wf(),
            r@ == Map::<Seq<char>, Seq<char>>::empty(),
    {
        let r = AddressBook { entries: Vec::new() };
        proof {
            lemma_table_empty(r.entries@, book_key(), book_val());
        }
        r
    }

    /// Number of known peers.
    pub fn len(&self) -> (n: usize)
        requires
            self.wf(),
        ensures
            n == self@.dom().len(),
            n <= MAX_PEERS,
    {
        proof {
            lemma_table_len(self.entries@, book_key(), book_val());
        }
        self.entries.len()
    }

    /// The full address recorded for `short`.
    pub fn get(&self, short: &str) -> (r: Option<String>)
        requires
            self.wf(),
        ensures
            match r {
                Some(f) => self@.contains_key(short@) && self@[short@] == f@,
                None => !self@.contains_key(short@),
            },
    {
        let k = short.to_owned();
        let n = self.entries.len();
        let mut i: usize = 0;
        while i < n
            invariant
                self.wf(),
                n == self.entries@.len(),
                i <= n,
                k@ == short@,
                forall|j: int| 0 <= j < i ==> (#[trigger] self.entries@[j]).0@ != short@,
            decreases n - i,
        {
            if self.entries[i].0 == k {
                proof {
                    lemma_table_index(self.entries@, book_key(), book_val(), i as int);
                }
                return Some(self.entries[i].1.clone());
            }
            i += 1;
        }
        proof {
            if self@.contains_key(short@) {
                let j = key_index(self.entries@, book_key(), short@);
                assert(self.entries@[j].0@ == short@);
            }
        }
        None
    }

    /// Records the announcement of a peer (see `identity_step`).
    pub fn on_identity(&mut self, short: String, full: String) -> (r: Option<bool>)
        requires
            old(self).wf(),
        ensures
            final(self).wf(),
            (final(self)@, r) == identity_step(old(self)@, short@, full@),
    {
        let ghost s = self.entries@;
        proof {
            lemma_table_len(s, book_key(), book_val());
        }
        let n = self.entries.len();
        let mut i: usize = 0;
        while i < n
            invariant
                n == self.entries@.len(),
                s == self.entries@,
                s == old(self).entries@,
                keys_unique(s, book_key()),
                s.len() <= MAX_PEERS,
                i <= n,
                forall|j: int| 0 <= j < i ==> (#[trigger] self.entries@[j]).0@ != short@,
            decreases n - i,
        {
            if self.entries[i].0 == short {
                proof {
                    lemma_table_index(s, book_key(), book_val(), i as int);
                    lemma_table_update(s, book_key(), book_val(), i as int, (short, full));
                }
                let ghost e = (short, full);
                self.entries.set(i, (short, full));
                proof {
                    assert(old(self)@.contains_key(e.0@));
                    assert(self.entries@ == s.update(i as int, e));
                    assert(self@ == old(self)@.insert(e.0@, e.1@));
                }
                return Some(false);
            }
            i += 1;
        }
        proof {
            if has_key(s, book_key(), short@) {
                let j = key_index(s, book_key(), short@);
                assert(s[j].0@ == short@);
            }
        }
        if n >= MAX_PEERS {
            return None;
        }
        proof {
            lemma_table_push(s, book_key(), book_val(), (short, full));
        }
        self.entries.push((short, full));
        Some(true)
    }
}

/// The address book never holds more than `MAX_PEERS` peers, and a peer
/// already known is always updated, even in a full book.
pub proof fn lemma_identity_bounded(m: Map<Seq<char>, Seq<char>>, short: Seq<char>, full: Seq<char>)
    requires
        m.dom().finite(),
        m.dom().len() <= MAX_PEERS,
    ensures
        identity_step(m, short, full).0.dom().len() <= MAX_PEERS,
        m.contains_key(short) ==> identity_step(m, short, full) == (m.insert(short, full), Some(false)),
{
    if !(m.dom().len() >= MAX_PEERS && !m.contains_key(short)) {
        if m.contains_key(short) {
            assert(m.insert(short, full).dom() =~= m.dom());
        } else {
            assert(m.insert(short, full).dom() =~= m.dom().insert(short));
        }
    }
}

/// A request that is not rate limited, from another node with fewer blocks
/// than ours, is answered with the ledger; and the ledger goes only to such a
/// requester.
pub proof fn lemma_ledger_sent_to_behind_peers(
    m: Map<Seq<char>, u64>,
    requester: Seq<char>,
    their_count: int,
    our_count: int,
    mine: Seq<char>,
    now: u64,
)
    ensures
        requester != mine && their_count < our_count && (m.contains_key(requester) ==> now
            >= m[requester] + SYNC_RESPONSE_INTERVAL_SECS) && (!m.contains_key(requester) ==> now
            >= SYNC_RESPONSE_INTERVAL_SECS) ==> sync_step(
            m,
            requester,
            their_count,
            our_count,
            mine,
            now,
        ).1 == SyncAnswer::SendLedger,
        sync_step(m, requester, their_count, our_count, mine, now).1 == SyncAnswer::SendLedger
            ==> requester != mine && their_count < our_count,
{
}

/// A requester answered (or, unknown, counted from the epoch) less than
/// `SYNC_RESPONSE_INTERVAL_SECS` seconds before `now` is refused as rate
/// limited and nothing is recorded; otherwise its request time is recorded.
pub proof fn lemma_sync_rate_limit_exact(
    m: Map<Seq<char>, u64>,
    requester: Seq<char>,
    their_count: int,
    our_count: int,
    mine: Seq<char>,
    now: u64,
)
    ensures
        ({
            let last: int = if m.contains_key(requester) {
                m[requester] as int
            } else {
                0
            };
            let r = sync_step(m, requester, their_count, our_count, mine, now);
            &&& (now < last + SYNC_RESPONSE_INTERVAL_SECS) ==> r == (m, SyncAnswer::RateLimited)
            &&& (now >= last + SYNC_RESPONSE_INTERVAL_SECS) ==> r.1 != SyncAnswer::RateLimited
                && r.0.contains_key(requester) && r.0[requester] == now
        }),
{
}

} // verus!
