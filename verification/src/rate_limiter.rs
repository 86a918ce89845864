//! Per-IP token bucket rate limiter with integer millitoken arithmetic.
//!
//! Each client IP (held as a 128-bit integer; an IPv4 address is mapped into
//! the IPv6 space) owns a bucket of millitokens. A request costs one token
//! (1000 millitokens); buckets refill at `refill_rate` tokens per second up to
//! the burst capacity. Buckets that stay idle for ten minutes are dropped by a
//! periodic cleanup that runs at most every five minutes.
use vstd::prelude::*;
use crate::clock::{instant_now, nanos_since};
use std::time::Instant;
use crate::table::{
    has_key, key_index, keys_unique, lemma_table_empty, lemma_table_index, lemma_table_len,
    lemma_table_push, lemma_table_remove, lemma_table_update, table_view,
};

verus! {

/// One token, in millitokens.
pub const MILLITOKEN: u64 = 1000;

/// Minimum time between two cleanups of idle buckets (five minutes).
pub const CLEANUP_INTERVAL_NS: u64 = 300_000_000_000;

/// A bucket idle for this long (ten minutes) is dropped at the next cleanup.
pub const IDLE_EXPIRY_NS: u64 = 600_000_000_000;

/// A client address. IPv4 and IPv6 addresses are told apart: an IPv4 client
/// and the IPv4-mapped IPv6 form of its address have different buckets.
#[derive(Clone, Copy, Debug, PartialEq, Eq, Structural)]
pub enum ClientIp {
    /// An IPv4 address, as its 32-bit value.
    V4(u32),
    /// An IPv6 address, as its 128-bit value.
    V6(u128),
}

/// The client address of the IPv4 address `a.b.c.d`.
pub fn ipv4_key(a: u8, b: u8, c: u8, d: u8) -> (k: ClientIp)
    ensures
        k matches ClientIp::V4(x) && x == a * 0x100_0000 + b * 0x1_0000 + c * 0x100 + d,
{
    ClientIp::V4((a as u32) * 0x100_0000 + (b as u32) * 0x1_0000 + (c as u32) * 0x100 + (d as u32))
}

/// The bucket of one client.
#[derive(Clone, Copy, Debug)]
pub struct TokenBucket {
    /// Token count in millitokens.
    pub tokens_milli: u64,
    /// When the bucket was last refilled, in nanoseconds.
    pub last_refill_ns: u64,
}

/// Token bucket rate limiter keyed by client IP.
pub struct RateLimiter {
    buckets: Vec<(ClientIp, TokenBucket)>,
    max_tokens_milli: u64,
    refill_rate: u32,
    cleanup_interval_ns: u64,
    last_cleanup_ns: u64,
    /// The monotonic-clock reading the times of `check_rate_limit` count from.
    origin: Instant,
}

/// What a `RateLimiter` holds.
#[verifier::ext_equal]
pub struct RateLimiterView {
    pub buckets: Map<ClientIp, TokenBucket>,
    pub max_tokens_milli: u64,
    pub refill_rate: u32,
    pub cleanup_interval_ns: u64,
    pub last_cleanup_ns: u64,
}

pub open spec fn bucket_key() -> spec_fn((ClientIp, TokenBucket)) -> ClientIp {
    |e: (ClientIp, TokenBucket)| e.0
}

pub open spec fn bucket_val() -> spec_fn((ClientIp, TokenBucket)) -> TokenBucket {
    |e: (ClientIp, TokenBucket)| e.1
}

/// Time elapsed from `from` to `to`, zero when `to` lies before `from`.
pub open spec fn elapsed_ns(from: u64, to: u64) -> int {
    if to >= from {
        to - from
    } else {
        0
    }
}

pub open spec fn min_int(a: int, b: int) -> int {
    if a <= b {
        a
    } else {
        b
    }
}

/// Millitokens in bucket `b` after refilling it at time `now`.
pub open spec fn refilled_tokens(b: TokenBucket, now: u64, refill_rate: u32, max_tokens: u64) -> int {
    min_int(
        b.tokens_milli + (elapsed_ns(b.last_refill_ns, now) / 1_000_000) * refill_rate,
        max_tokens as int,
    )
}

/// A bucket last refilled at `b.last_refill_ns` survives a cleanup at `now`.
pub open spec fn bucket_active(b: TokenBucket, now: u64) -> bool {
    elapsed_ns(b.last_refill_ns, now) < IDLE_EXPIRY_NS
}

/// A cleanup runs at `now`.
pub open spec fn cleanup_due(v: RateLimiterView, now: u64) -> bool {
    elapsed_ns(v.last_cleanup_ns, now) >= v.cleanup_interval_ns
}

/// The buckets kept by a cleanup at `now`.
pub open spec fn active_buckets(m: Map<ClientIp, TokenBucket>, now: u64) -> Map<ClientIp, TokenBucket> {
    m.restrict(Set::new(|ip: ClientIp| m.contains_key(ip) && bucket_active(m[ip], now)))
}

/// The state after the periodic cleanup step at `now`.
pub open spec fn after_cleanup(v: RateLimiterView, now: u64) -> RateLimiterView {
    if cleanup_due(v, now) {
        RateLimiterView { buckets: active_buckets(v.buckets, now), last_cleanup_ns: now, ..v }
    } else {
        v
    }
}

/// The bucket of `ip` before its refill: the stored one, or a full fresh one.
pub open spec fn current_bucket(v: RateLimiterView, ip: ClientIp, now: u64) -> TokenBucket {
    if v.buckets.contains_key(ip) {
        v.buckets[ip]
    } else {
        TokenBucket { tokens_milli: v.max_tokens_milli, last_refill_ns: now }
    }
}

/// Tokens of `ip` once cleanup and refill at `now` are done.
pub open spec fn tokens_at(v: RateLimiterView, ip: ClientIp, now: u64) -> int {
    let c = after_cleanup(v, now);
    refilled_tokens(current_bucket(c, ip, now), now, c.refill_rate, c.max_tokens_milli)
}

/// Whether a request of `ip` at `now` is allowed.
pub open spec fn request_allowed(v: RateLimiterView, ip: ClientIp, now: u64) -> bool {
    tokens_at(v, ip, now) >= MILLITOKEN
}

/// The state after a request of `ip` at `now`.
pub open spec fn after_request(v: RateLimiterView, ip: ClientIp, now: u64) -> RateLimiterView {
    let c = after_cleanup(v, now);
    let t = tokens_at(v, ip, now);
    let left = if t >= MILLITOKEN {
        t - MILLITOKEN
    } else {
        t
    };
    RateLimiterView {
        buckets: c.buckets.insert(ip, TokenBucket { tokens_milli: left as u64, last_refill_ns: now }),
        ..c
    }
}

/// Buckets never hold more than the burst capacity.
pub open spec fn buckets_bounded(v: RateLimiterView) -> bool {
    forall|ip: ClientIp| #[trigger] v.buckets.contains_key(ip) ==> v.buckets[ip].tokens_milli <= v.max_tokens_milli
}

impl View for RateLimiter {
    type V = RateLimiterView;

    closed spec fn view(&self) -> RateLimiterView {
        RateLimiterView {
            buckets: table_view(self.buckets@, bucket_key(), bucket_val()),
            max_tokens_milli: self.max_tokens_milli,
            refill_rate: self.refill_rate,
            cleanup_interval_ns: self.cleanup_interval_ns,
            last_cleanup_ns: self.last_cleanup_ns,
        }
    }
}

impl RateLimiter {
    /// Internal consistency: one bucket per IP, each within the burst capacity.
    pub closed spec fn wf(&self) -> bool {
        &&& keys_unique(self.buckets@, bucket_key())
        &&& forall|i: int|
            0 <= i < self.buckets@.len() ==> (#[trigger] self.buckets@[i]).1.tokens_milli
                <= self.max_tokens_milli
    }

    /// A limiter allowing `requests_per_second` on average and bursts of
    /// `burst_size` requests (twice the rate when no burst size is given),
    /// whose cleanup clock starts at `now_ns`.
    pub fn new_at(requests_per_second: u32, burst_size: Option<u32>, now_ns: u64) -> (r: Self)
        requires
            requests_per_second * 2 <= u32::MAX,
        ensures
            r.wf(),
            r@.buckets == Map::<ClientIp, TokenBucket>::empty(),
            r@.max_tokens_milli == match burst_size {
                Some(b) => b as int,
                None => requests_per_second * 2,
            } * MILLITOKEN,
            r@.refill_rate == requests_per_second,
            r@.cleanup_interval_ns == CLEANUP_INTERVAL_NS,
            r@.last_cleanup_ns == now_ns,
    {
        let doubled = requests_per_second * 2;
        let max_tokens: u32 = match burst_size {
            Some(b) => b,
            None => doubled,
        };
        let r = RateLimiter {
            buckets: Vec::new(),
            max_tokens_milli: max_tokens as u64 * MILLITOKEN,
            refill_rate: requests_per_second,
            cleanup_interval_ns: CLEANUP_INTERVAL_NS,
            last_cleanup_ns: now_ns,
            origin: instant_now(),
        };
        proof {
            lemma_table_empty(r.buckets@, bucket_key(), bucket_val());
        }
        r
    }

    /// A limiter for the clock version `check_rate_limit`, whose times count
    /// the nanoseconds since the limiter was made on the monotonic clock: its
    /// cleanup clock starts at 0 (see `new_at`).
    pub fn new(requests_per_second: u32, burst_size: Option<u32>) -> (r: Self)
        requires
            requests_per_second * 2 <= u32::MAX,
        ensures
            r.wf(),
            r@.buckets == Map::<ClientIp, TokenBucket>::empty(),
            r@.max_tokens_milli == match burst_size {
                Some(b) => b as int,
                None => requests_per_second * 2,
            } * MILLITOKEN,
            r@.refill_rate == requests_per_second,
            r@.cleanup_interval_ns == CLEANUP_INTERVAL_NS,
            r@.last_cleanup_ns == 0,
    {
        Self::new_at(requests_per_second, burst_size, 0)
    }

    /// Index of the bucket of `ip`, if there is one.
    fn find(&self, ip: ClientIp) -> (r: Option<usize>)
        requires
            self.wf(),
        ensures
            match r {
                Some(i) => i < self.buckets@.len() && self.buckets@[i as int].0 == ip,
                None => !self@.buckets.contains_key(ip),
            },
    {
        let n = self.buckets.len();
        let mut i: usize = 0;
        while i < n
            invariant
                n == self.buckets@.len(),
                i <= n,
                forall|j: int| 0 <= j < i ==> (#[trigger] self.buckets@[j]).0 != ip,
            decreases n - i,
        {
            if self.buckets[i].0 == ip {
                return Some(i);
            }
            i += 1;
        }
        proof {
            if self@.buckets.contains_key(ip) {
                let j = key_index(self.buckets@, bucket_key(), ip);
                assert(self.buckets@[j].0 == ip);
            }
        }
        None
    }

    /// Drops the buckets idle for ten minutes when a cleanup is due at `now_ns`.
    fn cleanup_if_needed(&mut self, now_ns: u64)
        requires
            old(self).wf(),
        ensures
            final(self).wf(),
            final(self)@ == after_cleanup(old(self)@, now_ns),
    {
        if now_ns.saturating_sub(self.last_cleanup_ns) >= self.cleanup_interval_ns {
            let ghost old_s = self.buckets@;
            let ghost old_m = table_view(old_s, bucket_key(), bucket_val());
            let mut kept: Vec<(ClientIp, TokenBucket)> = Vec::new();
            let n = self.buckets.len();
            let mut i: usize = 0;
            proof {
                lemma_table_empty(kept@, bucket_key(), bucket_val());
            }
            while i < n
                invariant
                    n == self.buckets@.len(),
                    self.buckets@ == old_s,
                    old(self).wf(),
                    old(self).buckets@ == old_s,
                    old_m == table_view(old_s, bucket_key(), bucket_val()),
                    i <= n,
                    keys_unique(kept@, bucket_key()),
                    forall|a: int|
                        0 <= a < kept@.len() ==> exists|j: int|
                            0 <= j < i && (#[trigger] kept@[a]) == old_s[j],
                    forall|ip: ClientIp|
                        #[trigger] table_view(kept@, bucket_key(), bucket_val()).contains_key(ip)
                            <==> (exists|j: int|
                            0 <= j < i && old_s[j].0 == ip && bucket_active(old_s[j].1, now_ns)),
                    forall|ip: ClientIp| #[trigger]
                        table_view(kept@, bucket_key(), bucket_val()).contains_key(ip)
                            ==> table_view(kept@, bucket_key(), bucket_val())[ip] == old_m[ip],
                decreases n - i,
            {
                let e = self.buckets[i];
                proof {
                    lemma_table_index(old_s, bucket_key(), bucket_val(), i as int);
                }
                if now_ns.saturating_sub(e.1.last_refill_ns) < IDLE_EXPIRY_NS {
                    let ghost before = kept@;
                    proof {
                        if has_key(before, bucket_key(), e.0) {
                            let a = key_index(before, bucket_key(), e.0);
                            let j = choose|j: int| 0 <= j < i && before[a] == old_s[j];
                            assert(old_s[j].0 == old_s[i as int].0);
                        }
                        lemma_table_push(before, bucket_key(), bucket_val(), e);
                    }
                    kept.push(e);
                    proof {
                        assert forall|a: int| 0 <= a < kept@.len() implies exists|j: int|
                            0 <= j < i + 1 && (#[trigger] kept@[a]) == old_s[j] by {
                            if a == before.len() {
                                assert(kept@[a] == old_s[i as int]);
                            } else {
                                assert(kept@[a] == before[a]);
                            }
                        }
                        assert forall|ip: ClientIp|
                            #[trigger] table_view(kept@, bucket_key(), bucket_val()).contains_key(ip)
                                <==> (exists|j: int|
                                0 <= j < i + 1 && old_s[j].0 == ip && bucket_active(
                                    old_s[j].1,
                                    now_ns,
                                )) by {
                            if ip == e.0 {
                                assert(old_s[i as int].0 == ip);
                            } else if exists|j: int|
                                0 <= j < i + 1 && old_s[j].0 == ip && bucket_active(
                                    old_s[j].1,
                                    now_ns,
                                ) {
                                let j = choose|j: int|
                                    0 <= j < i + 1 && old_s[j].0 == ip && bucket_active(
                                        old_s[j].1,
                                        now_ns,
                                    );
                                assert(j < i);
                            }
                        }
                    }
                } else {
                    proof {
                        assert forall|ip: ClientIp|
                            #[trigger] table_view(kept@, bucket_key(), bucket_val()).contains_key(ip)
                                <==> (exists|j: int|
                                0 <= j < i + 1 && old_s[j].0 == ip && bucket_active(
                                    old_s[j].1,
                                    now_ns,
                                )) by {
                            if exists|j: int|
                                0 <= j < i + 1 && old_s[j].0 == ip && bucket_active(
                                    old_s[j].1,
                                    now_ns,
                                ) {
                                let j = choose|j: int|
                                    0 <= j < i + 1 && old_s[j].0 == ip && bucket_active(
                                        old_s[j].1,
                                        now_ns,
                                    );
                                assert(j < i);
                            }
                        }
                    }
                }
                i += 1;
            }
            let ghost kept_m = table_view(kept@, bucket_key(), bucket_val());
            proof {
                let target = active_buckets(old_m, now_ns);
                assert forall|ip: ClientIp| kept_m.contains_key(ip) <==> target.contains_key(ip) by {
                    if old_m.contains_key(ip) {
                        let j = key_index(old_s, bucket_key(), ip);
                        lemma_table_index(old_s, bucket_key(), bucket_val(), j);
                    }
                    if kept_m.contains_key(ip) {
                        let j = choose|j: int|
                            0 <= j < n && old_s[j].0 == ip && bucket_active(old_s[j].1, now_ns);
                        lemma_table_index(old_s, bucket_key(), bucket_val(), j);
                    }
                }
                assert(kept_m =~= target);
                assert forall|a: int| 0 <= a < kept@.len() implies (#[trigger] kept@[a]).1.tokens_milli
                    <= self.max_tokens_milli by {
                    let j = choose|j: int| 0 <= j < n && kept@[a] == old_s[j];
                }
            }
            self.buckets = kept;
            self.last_cleanup_ns = now_ns;
            proof {
                assert(self@ =~= after_cleanup(old(self)@, now_ns));
            }
        }
    }

    /// Decides whether a request from `ip` at time `now_ns` may proceed, and
    /// charges one token when it may.
    ///
    /// The periodic cleanup runs first; then the bucket of `ip` (a full one
    /// for an unknown IP) is refilled for the time elapsed since its last
    /// refill, capped at the burst capacity.
    pub fn check_rate_limit_at(&mut self, ip: ClientIp, now_ns: u64) -> (allowed: bool)
        requires
            old(self).wf(),
        ensures
            final(self).wf(),
            allowed == request_allowed(old(self)@, ip, now_ns),
            final(self)@ == after_request(old(self)@, ip, now_ns),
    {
        self.cleanup_if_needed(now_ns);
        let ghost c = self@;
        let idx = self.find(ip);
        let bucket = match idx {
            Some(i) => self.buckets[i].1,
            None => TokenBucket { tokens_milli: self.max_tokens_milli, last_refill_ns: now_ns },
        };
        proof {
            if let Some(i) = idx {
                lemma_table_index(self.buckets@, bucket_key(), bucket_val(), i as int);
            }
            assert(bucket == current_bucket(c, ip, now_ns));
        }
        let elapsed = now_ns.saturating_sub(bucket.last_refill_ns) / 1_000_000;
        let added = match elapsed.checked_mul(self.refill_rate as u64) {
            Some(v) => v,
            None => u64::MAX,
        };
        let sum = bucket.tokens_milli.saturating_add(added);
        let tokens = if sum < self.max_tokens_milli {
            sum
        } else {
            self.max_tokens_milli
        };
        proof {
            let exact = bucket.tokens_milli + (elapsed_ns(bucket.last_refill_ns, now_ns) / 1_000_000)
                * self.refill_rate;
            assert(elapsed == elapsed_ns(bucket.last_refill_ns, now_ns) / 1_000_000);
            if elapsed as int * self.refill_rate as int > u64::MAX {
                assert(exact >= u64::MAX);
            }
            assert(tokens == refilled_tokens(bucket, now_ns, c.refill_rate, c.max_tokens_milli));
        }
        let allowed = tokens >= MILLITOKEN;
        let left = if allowed {
            tokens - MILLITOKEN
        } else {
            tokens
        };
        let nb = TokenBucket { tokens_milli: left, last_refill_ns: now_ns };
        let ghost s = self.buckets@;
        match idx {
            Some(i) => {
                proof {
                    lemma_table_update(s, bucket_key(), bucket_val(), i as int, (ip, nb));
                }
                self.buckets.set(i, (ip, nb));
                proof {
                    assert forall|a: int| 0 <= a < self.buckets@.len() implies (
                    #[trigger] self.buckets@[a]).1.tokens_milli <= self.max_tokens_milli by {
                        if a != i {
                            assert(self.buckets@[a] == s[a]);
                        }
                    }
                }
            },
            None => {
                proof {
                    if has_key(s, bucket_key(), ip) {
                        let j = key_index(s, bucket_key(), ip);
                        lemma_table_index(s, bucket_key(), bucket_val(), j);
                    }
                    lemma_table_push(s, bucket_key(), bucket_val(), (ip, nb));
                }
                self.buckets.push((ip, nb));
                proof {
                    assert forall|a: int| 0 <= a < self.buckets@.len() implies (
                    #[trigger] self.buckets@[a]).1.tokens_milli <= self.max_tokens_milli by {
                        if a < s.len() {
                            assert(self.buckets@[a] == s[a]);
                        }
                    }
                }
            },
        }
        proof {
            assert(self@ =~= after_request(old(self)@, ip, now_ns));
        }
        allowed
    }

    /// Decides a request from `ip` made now (see `check_rate_limit_at`), the
    /// time taken as the nanoseconds since the limiter was made, by the
    /// monotonic clock.
    pub fn check_rate_limit(&mut self, ip: ClientIp) -> (allowed: bool)
        requires
            old(self).wf(),
        ensures
            final(self).wf(),
            exists|now: u64|
                allowed == request_allowed(old(self)@, ip, now) && final(self)@ == after_request(
                    old(self)@,
                    ip,
                    now,
                ),
    {
        let now = nanos_since(self.origin);
        self.check_rate_limit_at(ip, now)
    }

    /// The millitokens left in the bucket of `ip`, if it has one.
    pub fn get_tokens_milli(&self, ip: ClientIp) -> (r: Option<u64>)
        requires
            self.wf(),
        ensures
            r == if self@.buckets.contains_key(ip) {
                Some(self@.buckets[ip].tokens_milli)
            } else {
                None::<u64>
            },
    {
        match self.find(ip) {
            Some(i) => {
                proof {
                    lemma_table_index(self.buckets@, bucket_key(), bucket_val(), i as int);
                }
                Some(self.buckets[i].1.tokens_milli)
            },
            None => None,
        }
    }

    /// Number of IPs that own a bucket.
    pub fn tracked_ips(&self) -> (n: usize)
        requires
            self.wf(),
        ensures
            n == self@.buckets.dom().len(),
    {
        proof {
            lemma_table_len(self.buckets@, bucket_key(), bucket_val());
        }
        self.buckets.len()
    }

    /// Forgets the bucket of `ip`.
    pub fn reset_ip(&mut self, ip: ClientIp)
        requires
            old(self).wf(),
        ensures
            final(self).wf(),
            final(self)@ == (RateLimiterView { buckets: old(self)@.buckets.remove(ip), ..old(self)@ }),
    {
        match self.find(ip) {
            Some(i) => {
                let ghost s = self.buckets@;
                proof {
                    lemma_table_remove(s, bucket_key(), bucket_val(), i as int);
                }
                self.buckets.remove(i);
                proof {
                    assert forall|a: int| 0 <= a < self.buckets@.len() implies (
                    #[trigger] self.buckets@[a]).1.tokens_milli <= self.max_tokens_milli by {
                        if a < i {
                            assert(self.buckets@[a] == s[a]);
                        } else {
                            assert(self.buckets@[a] == s[a + 1]);
                        }
                    }
                    assert(self@ =~= RateLimiterView {
                        buckets: old(self)@.buckets.remove(ip),
                        ..old(self)@
                    });
                }
            },
            None => {
                proof {
                    assert(self@.buckets =~= old(self)@.buckets.remove(ip));
                    assert(self@ =~= RateLimiterView {
                        buckets: old(self)@.buckets.remove(ip),
                        ..old(self)@
                    });
                }
            },
        }
    }

    /// Forgets every bucket.
    pub fn reset_all(&mut self)
        requires
            old(self).wf(),
        ensures
            final(self).wf(),
            final(self)@ == (RateLimiterView {
                buckets: Map::<ClientIp, TokenBucket>::empty(),
                ..old(self)@
            }),
    {
        self.buckets = Vec::new();
        proof {
            lemma_table_empty(self.buckets@, bucket_key(), bucket_val());
            assert(self@ =~= RateLimiterView {
                buckets: Map::<ClientIp, TokenBucket>::empty(),
                ..old(self)@
            });
        }
    }
}

/// The state after `k` requests of `ip`, all made at the instant `now`.
pub open spec fn repeat_requests(v: RateLimiterView, ip: ClientIp, now: u64, k: nat) -> RateLimiterView
    decreases k,
{
    if k == 0 {
        v
    } else {
        after_request(repeat_requests(v, ip, now, (k - 1) as nat), ip, now)
    }
}

proof fn lemma_next_tokens(v: RateLimiterView, ip: ClientIp, now: u64)
    ensures
        0 <= tokens_at(v, ip, now) <= v.max_tokens_milli,
        after_request(v, ip, now).max_tokens_milli == v.max_tokens_milli,
        after_request(v, ip, now).refill_rate == v.refill_rate,
        tokens_at(after_request(v, ip, now), ip, now) == if tokens_at(v, ip, now) >= MILLITOKEN {
            tokens_at(v, ip, now) - MILLITOKEN
        } else {
            tokens_at(v, ip, now)
        },
{
    let w = after_request(v, ip, now);
    let c = after_cleanup(w, now);
    let b = current_bucket(after_cleanup(v, now), ip, now);
    let e = elapsed_ns(b.last_refill_ns, now) / 1_000_000;
    assert(e >= 0);
    assert(e * v.refill_rate >= 0) by (nonlinear_arith)
        requires
            e >= 0,
    ;
    assert(elapsed_ns(now, now) / 1_000_000 == 0);
    assert((elapsed_ns(now, now) / 1_000_000) * v.refill_rate == 0);
    assert(w.buckets.contains_key(ip));
    assert(c.buckets.contains_key(ip));
    assert(c.buckets[ip] == w.buckets[ip]);
    assert(c.buckets[ip].last_refill_ns == now);
    assert(c.buckets[ip].tokens_milli <= v.max_tokens_milli);
}

/// At a single instant a client is granted exactly as many requests as whole
/// tokens its bucket holds at that instant; every further request is refused.
/// In particular a client without a bucket gets a full burst.
pub proof fn lemma_requests_at_one_instant(v: RateLimiterView, ip: ClientIp, now: u64, k: nat)
    ensures
        request_allowed(repeat_requests(v, ip, now, k), ip, now) <==> (k + 1) * MILLITOKEN
            <= tokens_at(v, ip, now),
        !v.buckets.contains_key(ip) ==> tokens_at(v, ip, now) == v.max_tokens_milli,
    decreases k,
{
    lemma_repeat_tokens(v, ip, now, k);
}

proof fn lemma_repeat_tokens(v: RateLimiterView, ip: ClientIp, now: u64, k: nat)
    ensures
        repeat_requests(v, ip, now, k).max_tokens_milli == v.max_tokens_milli,
        repeat_requests(v, ip, now, k).refill_rate == v.refill_rate,
        k * MILLITOKEN <= tokens_at(v, ip, now) ==> tokens_at(repeat_requests(v, ip, now, k), ip, now)
            == tokens_at(v, ip, now) - k * MILLITOKEN,
        k * MILLITOKEN > tokens_at(v, ip, now) ==> tokens_at(repeat_requests(v, ip, now, k), ip, now)
            < MILLITOKEN,
    decreases k,
{
    lemma_next_tokens(v, ip, now);
    if k > 0 {
        let p = repeat_requests(v, ip, now, (k - 1) as nat);
        lemma_repeat_tokens(v, ip, now, (k - 1) as nat);
        lemma_next_tokens(p, ip, now);
        assert(k * MILLITOKEN == (k - 1) * MILLITOKEN + MILLITOKEN) by (nonlinear_arith);
    }
}

/// A request of one client leaves the bucket of every other client as the
/// cleanup left it.
pub proof fn lemma_other_clients_unaffected(v: RateLimiterView, ip: ClientIp, other: ClientIp, now: u64)
    requires
        other != ip,
    ensures
        after_request(v, ip, now).buckets.contains_key(other) == after_cleanup(
            v,
            now,
        ).buckets.contains_key(other),
        after_request(v, ip, now).buckets[other] == after_cleanup(v, now).buckets[other],
{
}

/// No request ever lifts a bucket above the burst capacity.
pub proof fn lemma_requests_keep_bound(v: RateLimiterView, ip: ClientIp, now: u64)
    requires
        buckets_bounded(v),
    ensures
        buckets_bounded(after_request(v, ip, now)),
{
    lemma_next_tokens(v, ip, now);
}

/// After its bucket is forgotten, a client gets one full burst again.
pub proof fn lemma_reset_restores_burst(v: RateLimiterView, ip: ClientIp, now: u64)
    ensures
        tokens_at(RateLimiterView { buckets: v.buckets.remove(ip), ..v }, ip, now)
            == v.max_tokens_milli,
{
}

/// The state and the number of admitted requests after requests of `ip` at
/// the times `times`, in their order.
pub open spec fn request_run(v: RateLimiterView, ip: ClientIp, times: Seq<u64>) -> (RateLimiterView, nat)
    decreases times.len(),
{
    if times.len() == 0 {
        (v, 0)
    } else {
        let p = request_run(v, ip, times.drop_last());
        let t = times.last();
        (
            after_request(p.0, ip, t),
            p.1 + if request_allowed(p.0, ip, t) {
                1nat
            } else {
                0nat
            },
        )
    }
}

/// The times do not go back, and no two successive ones are as far apart as
/// the idle expiry (so the client's bucket is never dropped in between).
pub open spec fn steady_times(times: Seq<u64>) -> bool {
    &&& forall|i: int, j: int| 0 <= i <= j < times.len() ==> times[i] <= times[j]
    &&& forall|i: int| 0 <= i < times.len() - 1 ==> #[trigger] times[i + 1] - times[i] < IDLE_EXPIRY_NS
}

proof fn lemma_floor_add(a: int, b: int)
    requires
        a >= 0,
        b >= 0,
    ensures
        a / 1_000_000 + b / 1_000_000 <= (a + b) / 1_000_000,
{
}

proof fn lemma_request_run(v: RateLimiterView, ip: ClientIp, times: Seq<u64>)
    requires
        times.len() > 0,
        steady_times(times),
    ensures
        ({
            let p = request_run(v, ip, times);
            &&& p.0.refill_rate == v.refill_rate
            &&& p.0.max_tokens_milli == v.max_tokens_milli
            &&& p.0.buckets.contains_key(ip)
            &&& p.0.buckets[ip].last_refill_ns == times.last()
            &&& p.1 * MILLITOKEN + p.0.buckets[ip].tokens_milli <= tokens_at(v, ip, times[0])
                + ((times.last() - times[0]) / 1_000_000) * v.refill_rate
        }),
    decreases times.len(),
{
    let q = times.drop_last();
    let t = times.last();
    if q.len() == 0 {
        lemma_next_tokens(v, ip, t);
        assert(times[0] == t);
    } else {
        assert(steady_times(q)) by {
            assert forall|i: int| 0 <= i < q.len() - 1 implies #[trigger] q[i + 1] - q[i]
                < IDLE_EXPIRY_NS by {
                assert(q[i + 1] == times[i + 1] && q[i] == times[i]);
            }
        }
        lemma_request_run(v, ip, q);
        let p = request_run(v, ip, q);
        let w = p.0;
        let tl = q.last();
        let n = times.len() as int;
        assert(tl == times[n - 2]);
        assert(times[n - 2 + 1] - times[n - 2] < IDLE_EXPIRY_NS);
        assert(q[0] == times[0]);
        assert(times[0] <= tl <= t);
        let c = after_cleanup(w, t);
        assert(c.buckets.contains_key(ip) && c.buckets[ip] == w.buckets[ip]);
        lemma_next_tokens(w, ip, t);
        let d = (t - tl) / 1_000_000;
        assert(d >= 0);
        assert(tokens_at(w, ip, t) <= w.buckets[ip].tokens_milli + d * v.refill_rate);
        lemma_floor_add(tl - times[0], t - tl);
        let e0 = (tl - times[0]) / 1_000_000;
        let e1 = (t - times[0]) / 1_000_000;
        assert(e0 + d <= e1);
        assert(e0 * v.refill_rate + d * v.refill_rate <= e1 * v.refill_rate) by (nonlinear_arith)
            requires
                e0 + d <= e1,
                v.refill_rate >= 0,
        ;
    }
}

/// The bucket limits the average rate: over requests of one client at times
/// that do not go back and never leave it idle long enough to be dropped,
/// the tokens spent on admitted requests are at most what the bucket held at
/// the first request plus the refill for the whole span (whole milliseconds
/// times the rate), and so at most the burst capacity plus that refill.
pub proof fn lemma_average_rate(v: RateLimiterView, ip: ClientIp, times: Seq<u64>)
    requires
        times.len() > 0,
        steady_times(times),
    ensures
        request_run(v, ip, times).1 * MILLITOKEN <= tokens_at(v, ip, times[0]) + ((times.last()
            - times[0]) / 1_000_000) * v.refill_rate,
        request_run(v, ip, times).1 * MILLITOKEN <= v.max_tokens_milli + ((times.last()
            - times[0]) / 1_000_000) * v.refill_rate,
{
    lemma_request_run(v, ip, times);
    lemma_next_tokens(v, ip, times[0]);
}

} // verus!
