//! Liveness of validators: the heartbeats they gossip
//! (`VALIDATOR_HEARTBEAT:address:timestamp:key:signature`, and the relayed
//! `VALIDATOR_HEARTBEAT_PROXY:wallet:node:timestamp:key:signature`), when one
//! is believed, and the record of when each validator was last seen alive.
use vstd::prelude::*;
use crate::endpoints::{all_ascii_digits, chars_of, find_first_colon, first_colon, push_range};
use crate::table::{
    has_key, key_index, keys_unique, lemma_table_empty, lemma_table_index, lemma_table_push,
    lemma_table_update, table_view,
};

verus! {

/// Seconds between heartbeats on a test network.
pub const TESTNET_HEARTBEAT_SECS: u64 = 10;

/// Seconds between heartbeats on the main network.
pub const MAINNET_HEARTBEAT_SECS: u64 = 60;

/// The value of the decimal digits `d`.
pub open spec fn digits_value(d: Seq<char>) -> nat
    decreases d.len(),
{
    if d.len() == 0 {
        0
    } else {
        digits_value(d.drop_last()) * 10 + ((d.last() as int - '0' as int) as nat)
    }
}

/// `s` without one leading plus sign.
pub open spec fn unsigned_digits(s: Seq<char>) -> Seq<char> {
    if s.len() > 0 && s[0] == '+' {
        s.skip(1)
    } else {
        s
    }
}

/// The `u64` that the text `s` denotes, as `str::parse::<u64>` reads it: an
/// optional plus sign, then at least one ASCII digit, with a value that fits.
pub open spec fn u64_text(s: Seq<char>) -> Option<u64> {
    let d = unsigned_digits(s);
    if d.len() > 0 && all_ascii_digits(d) && digits_value(d) <= u64::MAX {
        Some(digits_value(d) as u64)
    } else {
        None
    }
}

/// A prefix of a run of digits is worth no more than the run.
proof fn lemma_digits_prefix(d: Seq<char>, k: int)
    requires
        all_ascii_digits(d),
        0 <= k <= d.len(),
    ensures
        digits_value(d.take(k)) <= digits_value(d),
    decreases d.len(),
{
    if k < d.len() {
        let e = d.drop_last();
        assert(all_ascii_digits(e)) by {
            assert forall|i: int| 0 <= i < e.len() implies '0' <= #[trigger] e[i] <= '9' by {
                assert(e[i] == d[i]);
            }
        }
        lemma_digits_prefix(e, k);
        assert(e.take(k) =~= d.take(k));
        assert('0' <= d[d.len() - 1] <= '9');
    } else {
        assert(d.take(k) =~= d);
    }
}

/// The number the text `s` denotes (see `u64_text`).
pub fn parse_u64(s: &str) -> (r: Option<u64>)
    ensures
        r == u64_text(s@),
{
    let c = chars_of(s);
    let n = c.len();
    let start: usize = if n > 0 && c[0] == '+' {
        1
    } else {
        0
    };
    let ghost d = unsigned_digits(s@);
    proof {
        assert(d =~= c@.subrange(start as int, n as int));
    }
    if start == n {
        return None;
    }
    let mut acc: u64 = 0;
    let mut i: usize = start;
    proof {
        assert(c@.subrange(start as int, start as int) =~= Seq::<char>::empty());
    }
    while i < n
        invariant
            n == c@.len(),
            start <= i <= n,
            d == unsigned_digits(s@),
            d == c@.subrange(start as int, n as int),
            all_ascii_digits(c@.subrange(start as int, i as int)),
            acc == digits_value(c@.subrange(start as int, i as int)),
        decreases n - i,
    {
        let ch = c[i];
        let ghost p = c@.subrange(start as int, i + 1);
        proof {
            assert(p.drop_last() =~= c@.subrange(start as int, i as int));
            assert(d.take(i + 1 - start) =~= p);
        }
        if !('0' <= ch && ch <= '9') {
            proof {
                assert(d[i - start] == ch);
                assert(!all_ascii_digits(d));
            }
            return None;
        }
        proof {
            assert(all_ascii_digits(p)) by {
                assert forall|k: int| 0 <= k < p.len() implies '0' <= #[trigger] p[k] <= '9' by {
                    if k < p.len() - 1 {
                        assert(p[k] == c@.subrange(start as int, i as int)[k]);
                    }
                }
            }
        }
        let dv: u64 = (ch as u32 - '0' as u32) as u64;
        proof {
            assert(p.last() == ch);
            assert(dv == ch as int - '0' as int);
            assert(digits_value(p) == acc * 10 + dv);
        }
        match acc.checked_mul(10) {
            Some(m) => match m.checked_add(dv) {
                Some(a) => {
                    acc = a;
                },
                None => {
                    proof {
                        if all_ascii_digits(d) {
                            lemma_digits_prefix(d, i + 1 - start);
                        }
                    }
                    return None;
                },
            },
            None => {
                proof {
                    if all_ascii_digits(d) {
                        lemma_digits_prefix(d, i + 1 - start);
                    }
                }
                return None;
            },
        }
        i += 1;
    }
    Some(acc)
}

/// `s` cut at its first colon: the part before it and the rest after it.
pub open spec fn cut_colon(s: Seq<char>) -> Option<(Seq<char>, Seq<char>)> {
    match first_colon(s) {
        Some(i) => Some((s.take(i), s.skip(i + 1))),
        None => None,
    }
}

/// The four fields of a heartbeat body, as `splitn(4, ':')` yields them: the
/// first three are cut at colons and the fourth is all that follows; `None`
/// when the body has fewer than three colons.
pub open spec fn heartbeat_of(rest: Seq<char>) -> Option<(Seq<char>, Seq<char>, Seq<char>, Seq<char>)> {
    match cut_colon(rest) {
        Some((a, r1)) => match cut_colon(r1) {
            Some((b, r2)) => match cut_colon(r2) {
                Some((c, d)) => Some((a, b, c, d)),
                None => None,
            },
            None => None,
        },
        None => None,
    }
}

/// The fields of a heartbeat body (the message without its tag).
#[derive(Clone, Debug)]
pub struct Heartbeat {
    pub address: String,
    pub timestamp: String,
    pub public_key: String,
    pub signature: String,
}

/// `c` cut at its first colon (see `cut_colon`).
fn cut_at_colon(c: &Vec<char>) -> (r: Option<(String, Vec<char>)>)
    ensures
        match r {
            Some(p) => cut_colon(c@) == Some((p.0@, p.1@)),
            None => cut_colon(c@) is None,
        },
{
    match find_first_colon(c) {
        Some(i) => {
            let mut head = String::new();
            push_range(&mut head, c, 0, i);
            let n = c.len();
            let mut tail: Vec<char> = Vec::new();
            let mut k: usize = i + 1;
            while k < n
                invariant
                    n == c@.len(),
                    i < n,
                    i + 1 <= k <= n,
                    tail@ == c@.subrange(i + 1, k as int),
                decreases n - k,
            {
                tail.push(c[k]);
                proof {
                    assert(c@.subrange(i + 1, k + 1) =~= c@.subrange(i + 1, k as int).push(
                        c@[k as int],
                    ));
                }
                k += 1;
            }
            proof {
                assert(head@ =~= c@.take(i as int));
                assert(tail@ =~= c@.skip(i + 1));
            }
            Some((head, tail))
        },
        None => None,
    }
}

/// The fields of the heartbeat body `rest` (see `heartbeat_of`).
pub fn parse_heartbeat(rest: &str) -> (r: Option<Heartbeat>)
    ensures
        match r {
            Some(h) => heartbeat_of(rest@) == Some(
                (h.address@, h.timestamp@, h.public_key@, h.signature@),
            ),
            None => heartbeat_of(rest@) is None,
        },
{
    let c = chars_of(rest);
    let (address, r1) = match cut_at_colon(&c) {
        Some(p) => p,
        None => return None,
    };
    let (timestamp, r2) = match cut_at_colon(&r1) {
        Some(p) => p,
        None => return None,
    };
    let (public_key, r3) = match cut_at_colon(&r2) {
        Some(p) => p,
        None => return None,
    };
    let mut signature = String::new();
    push_range(&mut signature, &r3, 0, r3.len());
    proof {
        assert(r3@.subrange(0, r3@.len() as int) =~= r3@);
    }
    Some(Heartbeat { address, timestamp, public_key, signature })
}

/// The five fields of a relayed heartbeat body, as `splitn(5, ':')` yields
/// them: wallet, node, stamp, key, and all that follows as the signature;
/// `None` when the body has fewer than four colons.
pub open spec fn proxy_heartbeat_of(rest: Seq<char>) -> Option<
    (Seq<char>, Seq<char>, Seq<char>, Seq<char>, Seq<char>),
> {
    match cut_colon(rest) {
        Some((w, r1)) => match heartbeat_of(r1) {
            Some((n, t, k, sig)) => Some((w, n, t, k, sig)),
            None => None,
        },
        None => None,
    }
}

/// The fields of a relayed heartbeat body.
#[derive(Clone, Debug)]
pub struct ProxyHeartbeat {
    pub wallet: String,
    pub node: String,
    pub timestamp: String,
    pub public_key: String,
    pub signature: String,
}

/// The fields of the relayed heartbeat body `rest` (see `proxy_heartbeat_of`).
pub fn parse_proxy_heartbeat(rest: &str) -> (r: Option<ProxyHeartbeat>)
    ensures
        match r {
            Some(h) => proxy_heartbeat_of(rest@) == Some(
                (h.wallet@, h.node@, h.timestamp@, h.public_key@, h.signature@),
            ),
            None => proxy_heartbeat_of(rest@) is None,
        },
{
    let c = chars_of(rest);
    let (wallet, r1) = match cut_at_colon(&c) {
        Some(p) => p,
        None => return None,
    };
    let (node, r2) = match cut_at_colon(&r1) {
        Some(p) => p,
        None => return None,
    };
    let (timestamp, r3) = match cut_at_colon(&r2) {
        Some(p) => p,
        None => return None,
    };
    let (public_key, r4) = match cut_at_colon(&r3) {
        Some(p) => p,
        None => return None,
    };
    let mut signature = String::new();
    push_range(&mut signature, &r4, 0, r4.len());
    proof {
        assert(r4@.subrange(0, r4@.len() as int) =~= r4@);
    }
    Some(ProxyHeartbeat { wallet, node, timestamp, public_key, signature })
}

/// Seconds between heartbeats on the network in use.
pub open spec fn interval_of(testnet: bool) -> u64 {
    if testnet {
        TESTNET_HEARTBEAT_SECS
    } else {
        MAINNET_HEARTBEAT_SECS
    }
}

/// A heartbeat stamped `ts` is fresh at `now` when the two are at most two
/// heartbeat intervals apart, either way.
pub open spec fn heartbeat_fresh(ts: u64, now: u64, testnet: bool) -> bool {
    let gap = if now >= ts {
        now - ts
    } else {
        ts - now
    };
    gap <= 2 * interval_of(testnet)
}

/// Whether the stamp `ts` is fresh at `now` (see `heartbeat_fresh`).
pub fn is_fresh(ts: u64, now: u64, testnet: bool) -> (r: bool)
    ensures
        r == heartbeat_fresh(ts, now, testnet),
{
    let interval = if testnet {
        TESTNET_HEARTBEAT_SECS
    } else {
        MAINNET_HEARTBEAT_SECS
    };
    let gap = if now >= ts {
        now - ts
    } else {
        ts - now
    };
    gap <= interval * 2
}

/// A peer's own heartbeat is believed when it is not ours, names a valid
/// address (`address_valid`), carries a number as its stamp and that stamp is
/// fresh, its key derives to the address and signs the message
/// (`signature_ok`), and the address is a registered validator
/// (`registered`).
pub open spec fn heartbeat_believed(
    address: Seq<char>,
    my_address: Seq<char>,
    address_valid: bool,
    timestamp: Seq<char>,
    now: u64,
    testnet: bool,
    signature_ok: bool,
    registered: bool,
) -> bool {
    &&& address != my_address
    &&& address_valid
    &&& u64_text(timestamp) is Some
    &&& heartbeat_fresh(u64_text(timestamp)->0, now, testnet)
    &&& signature_ok
    &&& registered
}

/// A relayed heartbeat vouches for `wallet` when the wallet is not us, both
/// the wallet and the relaying node have valid addresses, the stamp is a
/// fresh number, the node's key derives to the node's address and signs the
/// message (`signature_ok`), and both are registered validators.
pub open spec fn proxy_heartbeat_believed(
    wallet: Seq<char>,
    my_address: Seq<char>,
    wallet_valid: bool,
    node_valid: bool,
    timestamp: Seq<char>,
    now: u64,
    testnet: bool,
    signature_ok: bool,
    wallet_registered: bool,
    node_registered: bool,
) -> bool {
    &&& wallet != my_address
    &&& wallet_valid && node_valid
    &&& u64_text(timestamp) is Some
    &&& heartbeat_fresh(u64_text(timestamp)->0, now, testnet)
    &&& signature_ok
    &&& wallet_registered && node_registered
}

/// When each validator was last seen alive, in seconds.
pub struct LivePeers {
    entries: Vec<(String, u64)>,
}

pub open spec fn live_key() -> spec_fn((String, u64)) -> Seq<char> {
    |e: (String, u64)| e.0@
}

pub open spec fn live_val() -> spec_fn((String, u64)) -> u64 {
    |e: (String, u64)| e.1
}

impl View for LivePeers {
    type V = Map<Seq<char>, u64>;

    closed spec fn view(&self) -> Map<Seq<char>, u64> {
        table_view(self.entries@, live_key(), live_val())
    }
}

impl LivePeers {
    /// One entry per validator.
    pub closed spec fn wf(&self) -> bool {
        keys_unique(self.entries@, live_key())
    }

    /// No validator seen yet.
    pub fn new() -> (r: Self)
        ensures
            r.wf(),
            r@ == Map::<Seq<char>, u64>::empty(),
    {
        let r = LivePeers { entries: Vec::new() };
        proof {
            lemma_table_empty(r.entries@, live_key(), live_val());
        }
        r
    }

    /// When `address` was last seen alive.
    pub fn last_seen(&self, address: &str) -> (r: Option<u64>)
        requires
            self.wf(),
        ensures
            match r {
                Some(t) => self@.contains_key(address@) && self@[address@] == t,
                None => !self@.contains_key(address@),
            },
    {
        let k = address.to_owned();
        let n = self.entries.len();
        let mut i: usize = 0;
        while i < n
            invariant
                self.wf(),
                n == self.entries@.len(),
                i <= n,
                k@ == address@,
                forall|j: int| 0 <= j < i ==> (#[trigger] self.entries@[j]).0@ != address@,
            decreases n - i,
        {
            if self.entries[i].0 == k {
                proof {
                    lemma_table_index(self.entries@, live_key(), live_val(), i as int);
                }
                return Some(self.entries[i].1);
            }
            i += 1;
        }
        proof {
            if self@.contains_key(address@) {
                let j = key_index(self.entries@, live_key(), address@);
                assert(self.entries@[j].0@ == address@);
            }
        }
        None
    }

    /// Records that `address` was seen alive at `now`.
    fn record(&mut self, address: String, now: u64)
        requires
            old(self).wf(),
        ensures
            final(self).wf(),
            final(self)@ == old(self)@.insert(address@, now),
    {
        let ghost s = self.entries@;
        let ghost e = (address, now);
        let n = self.entries.len();
        let mut i: usize = 0;
        while i < n
            invariant
                n == self.entries@.len(),
                s == self.entries@,
                s == old(self).entries@,
                e == (address, now),
                keys_unique(s, live_key()),
                i <= n,
                forall|j: int| 0 <= j < i ==> (#[trigger] self.entries@[j]).0@ != address@,
            decreases n - i,
        {
            if self.entries[i].0 == address {
                proof {
                    assert(s[i as int].0@ == e.0@);
                    lemma_table_update(s, live_key(), live_val(), i as int, e);
                }
                self.entries.set(i, (address, now));
                proof {
                    assert(self.entries@ == s.update(i as int, e));
                }
                return;
            }
            i += 1;
        }
        proof {
            if has_key(s, live_key(), address@) {
                let j = key_index(s, live_key(), address@);
                assert(s[j].0@ == address@);
            }
            lemma_table_push(s, live_key(), live_val(), e);
        }
        self.entries.push((address, now));
    }

    /// Takes in a peer's own heartbeat: when it is believed (see
    /// `heartbeat_believed`) the sender is recorded as alive at `now`, and
    /// the answer says whether it was.
    pub fn on_heartbeat(
        &mut self,
        address: String,
        my_address: &str,
        address_valid: bool,
        timestamp: &str,
        now: u64,
        testnet: bool,
        signature_ok: bool,
        registered: bool,
    ) -> (r: bool)
        requires
            old(self).wf(),
        ensures
            final(self).wf(),
            r == heartbeat_believed(
                address@,
                my_address@,
                address_valid,
                timestamp@,
                now,
                testnet,
                signature_ok,
                registered,
            ),
            final(self)@ == if r {
                old(self)@.insert(address@, now)
            } else {
                old(self)@
            },
    {
        let me = my_address.to_owned();
        let mine = address == me;
        if mine || !address_valid {
            return false;
        }
        let ts = match parse_u64(timestamp) {
            Some(t) => t,
            None => return false,
        };
        if !is_fresh(ts, now, testnet) || !signature_ok || !registered {
            return false;
        }
        self.record(address, now);
        true
    }

    /// Takes in a heartbeat that node `node` relays for `wallet`: when it is
    /// believed (see `proxy_heartbeat_believed`) the wallet is recorded as
    /// alive at `now`, and the answer says whether it was.
    pub fn on_proxy_heartbeat(
        &mut self,
        wallet: String,
        my_address: &str,
        wallet_valid: bool,
        node_valid: bool,
        timestamp: &str,
        now: u64,
        testnet: bool,
        signature_ok: bool,
        wallet_registered: bool,
        node_registered: bool,
    ) -> (r: bool)
        requires
            old(self).wf(),
        ensures
            final(self).wf(),
            r == proxy_heartbeat_believed(
                wallet@,
                my_address@,
                wallet_valid,
                node_valid,
                timestamp@,
                now,
                testnet,
                signature_ok,
                wallet_registered,
                node_registered,
            ),
            final(self)@ == if r {
                old(self)@.insert(wallet@, now)
            } else {
                old(self)@
            },
    {
        let me = my_address.to_owned();
        let mine = wallet == me;
        if mine || !wallet_valid || !node_valid {
            return false;
        }
        let ts = match parse_u64(timestamp) {
            Some(t) => t,
            None => return false,
        };
        if !is_fresh(ts, now, testnet) || !signature_ok || !wallet_registered || !node_registered {
            return false;
        }
        self.record(wallet, now);
        true
    }
}

} // verus!
