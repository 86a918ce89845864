//! Per-address sliding-window limiter for individual API endpoints.
//!
//! For every address the limiter keeps the times of its recorded requests. A
//! request is admitted while fewer than `max_requests` recorded requests of
//! the address lie within the last `window_secs` seconds; otherwise the caller
//! learns how many seconds to wait. Times are nanoseconds.
use vstd::prelude::*;
use crate::clock::{instant_now, nanos_since};
use std::time::Instant;
use crate::table::{
    has_key, key_index, keys_unique, lemma_table_empty, lemma_table_index, lemma_table_push,
    lemma_table_update, table_view,
};

verus! {

/// A global cleanup of stale timestamps runs once more than this much time
/// (one minute) has passed since the previous one.
pub const ENDPOINT_CLEANUP_INTERVAL_NS: u64 = 60_000_000_000;

/// Per-address endpoint rate limiter.
pub struct EndpointRateLimiter {
    requests: Vec<(String, Vec<u64>)>,
    max_requests: u32,
    window_secs: u64,
    last_cleanup_ns: u64,
    /// The monotonic-clock reading the times of the clock versions count from.
    origin: Instant,
}

/// What an `EndpointRateLimiter` holds: the recorded request times of each
/// address.
#[verifier::ext_equal]
pub struct EndpointLimiterView {
    pub requests: Map<Seq<char>, Seq<u64>>,
    pub max_requests: u32,
    pub window_secs: u64,
    pub last_cleanup_ns: u64,
}

pub open spec fn entry_key() -> spec_fn((String, Vec<u64>)) -> Seq<char> {
    |e: (String, Vec<u64>)| e.0@
}

pub open spec fn entry_val() -> spec_fn((String, Vec<u64>)) -> Seq<u64> {
    |e: (String, Vec<u64>)| e.1@
}

/// Time elapsed from `from` to `to`, zero when `to` lies before `from`.
pub open spec fn elapsed_ns(from: u64, to: u64) -> int {
    if to >= from {
        to - from
    } else {
        0
    }
}

/// A request made at `t` still counts at `now`.
pub open spec fn is_recent(t: u64, now: u64, window_secs: u64) -> bool {
    elapsed_ns(t, now) < window_secs * 1_000_000_000
}

/// The times of `ts` that still count at `now`, in their order.
pub open spec fn keep_recent(ts: Seq<u64>, now: u64, window_secs: u64) -> Seq<u64>
    decreases ts.len(),
{
    if ts.len() == 0 {
        ts
    } else {
        let r = keep_recent(ts.drop_last(), now, window_secs);
        if is_recent(ts.last(), now, window_secs) {
            r.push(ts.last())
        } else {
            r
        }
    }
}

/// Whole seconds to wait when the oldest counted request is `elapsed` nanoseconds old.
pub open spec fn wait_secs(window_secs: u64, elapsed: int) -> int {
    if elapsed < window_secs * 1_000_000_000 {
        (window_secs * 1_000_000_000 - elapsed) / 1_000_000_000 + 1
    } else {
        1
    }
}

/// The map after dropping stale times, and addresses left without any.
pub open spec fn pruned(m: Map<Seq<char>, Seq<u64>>, now: u64, window_secs: u64) -> Map<
    Seq<char>,
    Seq<u64>,
> {
    Map::new(
        |a: Seq<char>| m.contains_key(a) && keep_recent(m[a], now, window_secs).len() > 0,
        |a: Seq<char>| keep_recent(m[a], now, window_secs),
    )
}

/// The state after the periodic cleanup at `now`.
pub open spec fn endpoint_after_cleanup(v: EndpointLimiterView, now: u64) -> EndpointLimiterView {
    if elapsed_ns(v.last_cleanup_ns, now) > ENDPOINT_CLEANUP_INTERVAL_NS {
        EndpointLimiterView {
            requests: pruned(v.requests, now, v.window_secs),
            last_cleanup_ns: now,
            ..v
        }
    } else {
        v
    }
}

/// The recorded times of `addr` (none for an unknown address).
pub open spec fn times_of(v: EndpointLimiterView, addr: Seq<char>) -> Seq<u64> {
    if v.requests.contains_key(addr) {
        v.requests[addr]
    } else {
        Seq::<u64>::empty()
    }
}

/// The times of `addr` that count at `now`.
pub open spec fn window_of(v: EndpointLimiterView, addr: Seq<char>, now: u64) -> Seq<u64> {
    keep_recent(times_of(v, addr), now, v.window_secs)
}

/// The answer to a request of `addr` at `now`, given the counted times `ts`.
pub open spec fn verdict(v: EndpointLimiterView, ts: Seq<u64>, now: u64) -> Result<(), u64> {
    if ts.len() >= v.max_requests {
        Err(wait_secs(v.window_secs, elapsed_ns(ts[0], now)) as u64)
    } else {
        Ok(())
    }
}

/// A check of `addr` at `now` has an answer: the window is not empty when the
/// request budget is zero (else no oldest request exists), and the wait fits
/// in a `u64` (it does not only for a window of `u64::MAX` seconds whose
/// oldest counted request was made at `now` itself).
pub open spec fn check_defined(v: EndpointLimiterView, addr: Seq<char>, now: u64) -> bool {
    let ts = window_of(v, addr, now);
    &&& v.max_requests > 0 || ts.len() > 0
    &&& ts.len() >= v.max_requests && ts.len() > 0 ==> wait_secs(
        v.window_secs,
        elapsed_ns(ts[0], now),
    ) <= u64::MAX
}

/// The answer to `check_and_record` for `addr` at `now`.
pub open spec fn record_outcome(v: EndpointLimiterView, addr: Seq<char>, now: u64) -> Result<(), u64> {
    let c = endpoint_after_cleanup(v, now);
    verdict(c, window_of(c, addr, now), now)
}

/// The state after `check_and_record` for `addr` at `now`.
pub open spec fn after_record(v: EndpointLimiterView, addr: Seq<char>, now: u64) -> EndpointLimiterView {
    let c = endpoint_after_cleanup(v, now);
    let ts = window_of(c, addr, now);
    EndpointLimiterView {
        requests: c.requests.insert(
            addr,
            if verdict(c, ts, now) is Ok {
                ts.push(now)
            } else {
                ts
            },
        ),
        ..c
    }
}

impl View for EndpointRateLimiter {
    type V = EndpointLimiterView;

    closed spec fn view(&self) -> EndpointLimiterView {
        EndpointLimiterView {
            requests: table_view(self.requests@, entry_key(), entry_val()),
            max_requests: self.max_requests,
            window_secs: self.window_secs,
            last_cleanup_ns: self.last_cleanup_ns,
        }
    }
}

proof fn lemma_keep_recent_len(ts: Seq<u64>, now: u64, w: u64)
    ensures
        keep_recent(ts, now, w).len() <= ts.len(),
        forall|k: int|
            0 <= k < keep_recent(ts, now, w).len() ==> is_recent(
                #[trigger] keep_recent(ts, now, w)[k],
                now,
                w,
            ),
    decreases ts.len(),
{
    if ts.len() > 0 {
        lemma_keep_recent_len(ts.drop_last(), now, w);
    }
}

/// The counted times of `ts` at `now`, as a new vector.
fn retain_recent(ts: &Vec<u64>, now: u64, window_secs: u64) -> (r: Vec<u64>)
    ensures
        r@ == keep_recent(ts@, now, window_secs),
{
    let mut r: Vec<u64> = Vec::new();
    let n = ts.len();
    let mut i: usize = 0;
    while i < n
        invariant
            n == ts@.len(),
            i <= n,
            r@ == keep_recent(ts@.take(i as int), now, window_secs),
        decreases n - i,
    {
        let t = ts[i];
        let e = now.saturating_sub(t);
        proof {
            assert(ts@.take(i + 1).drop_last() =~= ts@.take(i as int));
            assert(ts@.take(i + 1).last() == t);
            assert(e == elapsed_ns(t, now));
            assert((e / 1_000_000_000 < window_secs) <==> (e < window_secs * 1_000_000_000)) by (nonlinear_arith);
        }
        if e / 1_000_000_000 < window_secs {
            r.push(t);
        }
        i += 1;
    }
    proof {
        assert(ts@.take(n as int) =~= ts@);
    }
    r
}

/// `ts` with `t` appended, as a new vector.
fn copy_push(ts: &Vec<u64>, t: u64) -> (r: Vec<u64>)
    ensures
        r@ == ts@.push(t),
{
    let mut r: Vec<u64> = Vec::new();
    let n = ts.len();
    let mut i: usize = 0;
    while i < n
        invariant
            n == ts@.len(),
            i <= n,
            r@ == ts@.take(i as int),
        decreases n - i,
    {
        r.push(ts[i]);
        proof {
            assert(ts@.take(i + 1) =~= ts@.take(i as int).push(ts[i as int]));
        }
        i += 1;
    }
    proof {
        assert(ts@.take(n as int) =~= ts@);
    }
    r.push(t);
    r
}

/// Seconds to wait when the oldest counted request is `elapsed` nanoseconds old.
fn compute_wait(window_secs: u64, elapsed: u64) -> (w: u64)
    requires
        wait_secs(window_secs, elapsed as int) <= u64::MAX,
    ensures
        w == wait_secs(window_secs, elapsed as int),
{
    let q = elapsed / 1_000_000_000;
    let r = elapsed % 1_000_000_000;
    proof {
        assert(elapsed == 1_000_000_000 * q + r) by (nonlinear_arith)
            requires
                q == elapsed / 1_000_000_000,
                r == elapsed % 1_000_000_000,
        ;
        assert((q < window_secs) <==> (elapsed < window_secs * 1_000_000_000)) by (nonlinear_arith)
            requires
                elapsed == 1_000_000_000 * q + r,
                0 <= r < 1_000_000_000,
        ;
    }
    if q < window_secs {
        let s = if r == 0 {
            window_secs - q
        } else {
            window_secs - q - 1
        };
        proof {
            let d = window_secs * 1_000_000_000 - elapsed;
            if r == 0 {
                assert(d == 1_000_000_000 * (window_secs - q)) by (nonlinear_arith)
                    requires
                        elapsed == 1_000_000_000 * q,
                        d == window_secs * 1_000_000_000 - elapsed,
                ;
                assert(d / 1_000_000_000 == window_secs - q) by (nonlinear_arith)
                    requires
                        d == 1_000_000_000 * (window_secs - q),
                ;
            } else {
                assert(d == 1_000_000_000 * (window_secs - q - 1) + (1_000_000_000 - r)) by (nonlinear_arith)
                    requires
                        elapsed == 1_000_000_000 * q + r,
                        d == window_secs * 1_000_000_000 - elapsed,
                ;
                assert(d / 1_000_000_000 == window_secs - q - 1) by (nonlinear_arith)
                    requires
                        d == 1_000_000_000 * (window_secs - q - 1) + (1_000_000_000 - r),
                        0 < 1_000_000_000 - r < 1_000_000_000,
                        window_secs - q - 1 >= 0,
                ;
            }
        }
        s + 1
    } else {
        1
    }
}

impl EndpointRateLimiter {
    /// One entry per address.
    pub closed spec fn wf(&self) -> bool {
        keys_unique(self.requests@, entry_key())
    }

    /// A limiter admitting `max_requests` requests per address within any
    /// `window_secs` seconds, whose cleanup clock starts at `now_ns`.
    pub fn new_at(max_requests: u32, window_secs: u64, now_ns: u64) -> (r: Self)
        ensures
            r.wf(),
            r@ == (EndpointLimiterView {
                requests: Map::empty(),
                max_requests,
                window_secs,
                last_cleanup_ns: now_ns,
            }),
    {
        let r = EndpointRateLimiter {
            requests: Vec::new(),
            max_requests,
            window_secs,
            last_cleanup_ns: now_ns,
            origin: instant_now(),
        };
        proof {
            lemma_table_empty(r.requests@, entry_key(), entry_val());
            assert(r@ =~= EndpointLimiterView {
                requests: Map::empty(),
                max_requests,
                window_secs,
                last_cleanup_ns: now_ns,
            });
        }
        r
    }

    /// A limiter for the clock versions (`check_and_record`, `check_only`,
    /// `record_success`), whose times count the nanoseconds since the
    /// limiter was made on the monotonic clock: its cleanup clock starts at 0
    /// (see `new_at`).
    pub fn new(max_requests: u32, window_secs: u64) -> (r: Self)
        ensures
            r.wf(),
            r@ == (EndpointLimiterView {
                requests: Map::empty(),
                max_requests,
                window_secs,
                last_cleanup_ns: 0,
            }),
    {
        Self::new_at(max_requests, window_secs, 0)
    }

    fn find(&self, key: &String) -> (r: Option<usize>)
        requires
            self.wf(),
        ensures
            match r {
                Some(i) => i < self.requests@.len() && self.requests@[i as int].0@ == key@,
                None => !self@.requests.contains_key(key@),
            },
    {
        let n = self.requests.len();
        let mut i: usize = 0;
        while i < n
            invariant
                n == self.requests@.len(),
                i <= n,
                forall|j: int| 0 <= j < i ==> (#[trigger] self.requests@[j]).0@ != key@,
            decreases n - i,
        {
            if self.requests[i].0 == *key {
                return Some(i);
            }
            i += 1;
        }
        proof {
            if self@.requests.contains_key(key@) {
                let j = key_index(self.requests@, entry_key(), key@);
                assert(self.requests@[j].0@ == key@);
            }
        }
        None
    }

    /// Stores `ts` as the times of `key`, adding the address when it is new.
    fn store(&mut self, key: &String, ts: Vec<u64>)
        requires
            old(self).wf(),
        ensures
            final(self).wf(),
            final(self)@ == (EndpointLimiterView {
                requests: old(self)@.requests.insert(key@, ts@),
                ..old(self)@
            }),
    {
        let ghost s = self.requests@;
        let k = key.clone();
        match self.find(key) {
            Some(i) => {
                proof {
                    lemma_table_update(s, entry_key(), entry_val(), i as int, (k, ts));
                }
                self.requests.set(i, (k, ts));
            },
            None => {
                proof {
                    if has_key(s, entry_key(), key@) {
                        let j = key_index(s, entry_key(), key@);
                        lemma_table_index(s, entry_key(), entry_val(), j);
                    }
                    lemma_table_push(s, entry_key(), entry_val(), (k, ts));
                }
                self.requests.push((k, ts));
            },
        }
        proof {
            assert(self@ =~= EndpointLimiterView {
                requests: old(self)@.requests.insert(key@, ts@),
                ..old(self)@
            });
        }
    }

    /// The counted times of `key` at `now` (see `window_of`).
    fn window(&self, key: &String, now: u64) -> (r: Vec<u64>)
        requires
            self.wf(),
        ensures
            r@ == window_of(self@, key@, now),
    {
        match self.find(key) {
            Some(i) => {
                proof {
                    lemma_table_index(self.requests@, entry_key(), entry_val(), i as int);
                }
                retain_recent(&self.requests[i].1, now, self.window_secs)
            },
            None => {
                let empty: Vec<u64> = Vec::new();
                proof {
                    assert(keep_recent(empty@, now, self.window_secs) == empty@);
                }
                empty
            },
        }
    }

    /// Drops stale times, and addresses left without any, when more than a
    /// minute has passed since the previous cleanup.
    fn cleanup_if_needed(&mut self, now: u64)
        requires
            old(self).wf(),
        ensures
            final(self).wf(),
            final(self)@ == endpoint_after_cleanup(old(self)@, now),
    {
        if now.saturating_sub(self.last_cleanup_ns) > ENDPOINT_CLEANUP_INTERVAL_NS {
            let ghost old_s = self.requests@;
            let ghost old_m = table_view(old_s, entry_key(), entry_val());
            let w = self.window_secs;
            let mut kept: Vec<(String, Vec<u64>)> = Vec::new();
            let n = self.requests.len();
            let mut i: usize = 0;
            proof {
                lemma_table_empty(kept@, entry_key(), entry_val());
            }
            while i < n
                invariant
                    n == self.requests@.len(),
                    self.requests@ == old_s,
                    keys_unique(old_s, entry_key()),
                    old_m == table_view(old_s, entry_key(), entry_val()),
                    w == self.window_secs,
                    i <= n,
                    keys_unique(kept@, entry_key()),
                    forall|a: int|
                        0 <= a < kept@.len() ==> exists|j: int|
                            0 <= j < i && (#[trigger] kept@[a]).0@ == old_s[j].0@,
                    forall|k: Seq<char>|
                        #[trigger] table_view(kept@, entry_key(), entry_val()).contains_key(k)
                            <==> (exists|j: int|
                            0 <= j < i && old_s[j].0@ == k && keep_recent(old_s[j].1@, now, w).len()
                                > 0),
                    forall|k: Seq<char>| #[trigger]
                        table_view(kept@, entry_key(), entry_val()).contains_key(k) ==> table_view(
                            kept@,
                            entry_key(),
                            entry_val(),
                        )[k] == keep_recent(old_m[k], now, w),
                decreases n - i,
            {
                proof {
                    lemma_table_index(old_s, entry_key(), entry_val(), i as int);
                }
                let rec = retain_recent(&self.requests[i].1, now, w);
                if rec.len() > 0 {
                    let k = self.requests[i].0.clone();
                    let ghost before = kept@;
                    let ghost e = (k, rec);
                    proof {
                        if has_key(before, entry_key(), k@) {
                            let a = key_index(before, entry_key(), k@);
                            let j = choose|j: int| 0 <= j < i && before[a].0@ == old_s[j].0@;
                            assert(old_s[j].0@ == old_s[i as int].0@);
                        }
                        lemma_table_push(before, entry_key(), entry_val(), e);
                    }
                    kept.push((k, rec));
                    proof {
                        assert forall|a: int| 0 <= a < kept@.len() implies exists|j: int|
                            0 <= j < i + 1 && (#[trigger] kept@[a]).0@ == old_s[j].0@ by {
                            if a == before.len() {
                                assert(kept@[a].0@ == old_s[i as int].0@);
                            } else {
                                assert(kept@[a] == before[a]);
                            }
                        }
                        assert forall|kk: Seq<char>|
                            #[trigger] table_view(kept@, entry_key(), entry_val()).contains_key(kk)
                                <==> (exists|j: int|
                                0 <= j < i + 1 && old_s[j].0@ == kk && keep_recent(
                                    old_s[j].1@,
                                    now,
                                    w,
                                ).len() > 0) by {
                            if kk == k@ {
                                assert(old_s[i as int].0@ == kk);
                            } else if exists|j: int|
                                0 <= j < i + 1 && old_s[j].0@ == kk && keep_recent(
                                    old_s[j].1@,
                                    now,
                                    w,
                                ).len() > 0 {
                                let j = choose|j: int|
                                    0 <= j < i + 1 && old_s[j].0@ == kk && keep_recent(
                                        old_s[j].1@,
                                        now,
                                        w,
                                    ).len() > 0;
                                assert(j < i);
                            }
                        }
                    }
                } else {
                    proof {
                        assert forall|kk: Seq<char>|
                            #[trigger] table_view(kept@, entry_key(), entry_val()).contains_key(kk)
                                <==> (exists|j: int|
                                0 <= j < i + 1 && old_s[j].0@ == kk && keep_recent(
                                    old_s[j].1@,
                                    now,
                                    w,
                                ).len() > 0) by {
                            if exists|j: int|
                                0 <= j < i + 1 && old_s[j].0@ == kk && keep_recent(
                                    old_s[j].1@,
                                    now,
                                    w,
                                ).len() > 0 {
                                let j = choose|j: int|
                                    0 <= j < i + 1 && old_s[j].0@ == kk && keep_recent(
                                        old_s[j].1@,
                                        now,
                                        w,
                                    ).len() > 0;
                                assert(j < i);
                            }
                        }
                    }
                }
                i += 1;
            }
            let ghost kept_m = table_view(kept@, entry_key(), entry_val());
            proof {
                let target = pruned(old_m, now, w);
                assert forall|k: Seq<char>| kept_m.contains_key(k) <==> target.contains_key(k) by {
                    if old_m.contains_key(k) {
                        let j = key_index(old_s, entry_key(), k);
                        lemma_table_index(old_s, entry_key(), entry_val(), j);
                    }
                    if kept_m.contains_key(k) {
                        let j = choose|j: int|
                            0 <= j < n && old_s[j].0@ == k && keep_recent(old_s[j].1@, now, w).len()
                                > 0;
                        lemma_table_index(old_s, entry_key(), entry_val(), j);
                    }
                }
                assert(kept_m =~= target);
            }
            self.requests = kept;
            self.last_cleanup_ns = now;
            proof {
                assert(self@ =~= endpoint_after_cleanup(old(self)@, now));
            }
        }
    }

    /// Checks the limit for `address` at `now_ns` and, when the request is
    /// admitted, records it. Returns the seconds to wait when it is not.
    ///
    /// A global cleanup runs first when it is due; then the times of the
    /// address are narrowed to those within the window.
    pub fn check_and_record_at(&mut self, address: &str, now_ns: u64) -> (r: Result<(), u64>)
        requires
            old(self).wf(),
            check_defined(endpoint_after_cleanup(old(self)@, now_ns), address@, now_ns),
        ensures
            final(self).wf(),
            r == record_outcome(old(self)@, address@, now_ns),
            final(self)@ == after_record(old(self)@, address@, now_ns),
    {
        self.cleanup_if_needed(now_ns);
        let key = address.to_owned();
        let ts = self.window(&key, now_ns);
        if ts.len() >= self.max_requests as usize {
            let oldest = ts[0];
            let wait = compute_wait(self.window_secs, now_ns.saturating_sub(oldest));
            self.store(&key, ts);
            return Err(wait);
        }
        let mut ts = ts;
        ts.push(now_ns);
        self.store(&key, ts);
        Ok(())
    }

    /// Checks and records a request of `address` made now, by the monotonic
    /// clock since the limiter was made (see `check_and_record_at`). Whether
    /// the answer exists depends on the clock reading with a zero request
    /// budget (an empty window has no oldest request) and with a window of
    /// `u64::MAX` seconds (a wait past the `u64` range), so a positive budget
    /// and a smaller window are asked for.
    pub fn check_and_record(&mut self, address: &str) -> (r: Result<(), u64>)
        requires
            old(self).wf(),
            old(self)@.max_requests > 0,
            old(self)@.window_secs < u64::MAX,
        ensures
            final(self).wf(),
            exists|now: u64|
                r == record_outcome(old(self)@, address@, now) && final(self)@ == after_record(
                    old(self)@,
                    address@,
                    now,
                ),
    {
        let now = nanos_since(self.origin);
        self.check_and_record_at(address, now)
    }

    /// Checks the limit for `address` at `now_ns` without recording the
    /// request; pair it with `record_success_at` for endpoints whose cooldown
    /// applies to successful operations only. The times of the address are
    /// narrowed to those within the window (an unknown address gets an empty
    /// entry); no global cleanup runs.
    pub fn check_only_at(&mut self, address: &str, now_ns: u64) -> (r: Result<(), u64>)
        requires
            old(self).wf(),
            check_defined(old(self)@, address@, now_ns),
        ensures
            final(self).wf(),
            r == verdict(old(self)@, window_of(old(self)@, address@, now_ns), now_ns),
            final(self)@ == (EndpointLimiterView {
                requests: old(self)@.requests.insert(
                    address@,
                    window_of(old(self)@, address@, now_ns),
                ),
                ..old(self)@
            }),
    {
        let key = address.to_owned();
        let ts = self.window(&key, now_ns);
        if ts.len() >= self.max_requests as usize {
            let oldest = ts[0];
            let wait = compute_wait(self.window_secs, now_ns.saturating_sub(oldest));
            self.store(&key, ts);
            return Err(wait);
        }
        self.store(&key, ts);
        Ok(())
    }

    /// Checks `address` now, by the monotonic clock since the limiter was
    /// made, without recording (see `check_only_at`); a positive budget and a
    /// window below `u64::MAX` seconds are asked for as in `check_and_record`.
    pub fn check_only(&mut self, address: &str) -> (r: Result<(), u64>)
        requires
            old(self).wf(),
            old(self)@.max_requests > 0,
            old(self)@.window_secs < u64::MAX,
        ensures
            final(self).wf(),
            exists|now: u64|
                #![trigger window_of(old(self)@, address@, now)]
                {
                    &&& r == verdict(old(self)@, window_of(old(self)@, address@, now), now)
                    &&& final(self)@ == (EndpointLimiterView {
                        requests: old(self)@.requests.insert(
                            address@,
                            window_of(old(self)@, address@, now),
                        ),
                        ..old(self)@
                    })
                },
    {
        let now = nanos_since(self.origin);
        self.check_only_at(address, now)
    }

    /// Records a successful operation of `address` at `now_ns`.
    pub fn record_success_at(&mut self, address: &str, now_ns: u64)
        requires
            old(self).wf(),
        ensures
            final(self).wf(),
            final(self)@ == (EndpointLimiterView {
                requests: old(self)@.requests.insert(
                    address@,
                    times_of(old(self)@, address@).push(now_ns),
                ),
                ..old(self)@
            }),
    {
        let key = address.to_owned();
        let ts = match self.find(&key) {
            Some(i) => {
                proof {
                    lemma_table_index(self.requests@, entry_key(), entry_val(), i as int);
                }
                copy_push(&self.requests[i].1, now_ns)
            },
            None => {
                let mut v: Vec<u64> = Vec::new();
                v.push(now_ns);
                v
            },
        };
        self.store(&key, ts);
    }

    /// Records a successful operation of `address` now, by the monotonic
    /// clock since the limiter was made (see `record_success_at`).
    pub fn record_success(&mut self, address: &str)
        requires
            old(self).wf(),
        ensures
            final(self).wf(),
            exists|now: u64|
                #![trigger times_of(old(self)@, address@).push(now)]
                final(self)@ == (EndpointLimiterView {
                    requests: old(self)@.requests.insert(
                        address@,
                        times_of(old(self)@, address@).push(now),
                    ),
                    ..old(self)@
                }),
    {
        let now = nanos_since(self.origin);
        self.record_success_at(address, now)
    }
}

/// The state after `k` calls of `check_and_record` for `addr`, all at `now`.
pub open spec fn repeat_records(v: EndpointLimiterView, addr: Seq<char>, now: u64, k: nat) -> EndpointLimiterView
    decreases k,
{
    if k == 0 {
        v
    } else {
        after_record(repeat_records(v, addr, now, (k - 1) as nat), addr, now)
    }
}

proof fn lemma_keep_recent_idempotent(ts: Seq<u64>, now: u64, w: u64)
    ensures
        keep_recent(keep_recent(ts, now, w), now, w) == keep_recent(ts, now, w),
    decreases ts.len(),
{
    if ts.len() > 0 {
        let r = keep_recent(ts.drop_last(), now, w);
        lemma_keep_recent_idempotent(ts.drop_last(), now, w);
        if is_recent(ts.last(), now, w) {
            assert(r.push(ts.last()).drop_last() =~= r);
        }
    }
}

proof fn lemma_keep_recent_push(ts: Seq<u64>, t: u64, now: u64, w: u64)
    ensures
        keep_recent(ts.push(t), now, w) == if is_recent(t, now, w) {
            keep_recent(ts, now, w).push(t)
        } else {
            keep_recent(ts, now, w)
        },
{
    assert(ts.push(t).drop_last() =~= ts);
}

proof fn lemma_record_step(v: EndpointLimiterView, addr: Seq<char>, now: u64)
    requires
        v.window_secs > 0,
    ensures
        ({
            let w = after_record(v, addr, now);
            let n = window_of(endpoint_after_cleanup(v, now), addr, now).len() as int;
            &&& w.max_requests == v.max_requests
            &&& w.window_secs == v.window_secs
            &&& !(elapsed_ns(w.last_cleanup_ns, now) > ENDPOINT_CLEANUP_INTERVAL_NS) ==> {
                endpoint_after_cleanup(w, now) == w
            }
            &&& elapsed_ns(w.last_cleanup_ns, now) <= ENDPOINT_CLEANUP_INTERVAL_NS
            &&& window_of(endpoint_after_cleanup(w, now), addr, now).len() == if n < v.max_requests {
                n + 1
            } else {
                n
            }
        }),
{
    let c = endpoint_after_cleanup(v, now);
    let ts = window_of(c, addr, now);
    let w = after_record(v, addr, now);
    lemma_keep_recent_idempotent(times_of(c, addr), now, v.window_secs);
    lemma_keep_recent_push(ts, now, now, v.window_secs);
    assert(w.requests.contains_key(addr));
    assert(is_recent(now, now, v.window_secs));
}

/// Within one instant an address is admitted exactly as long as fewer than
/// `max_requests` of its requests count: starting from `n` counted requests,
/// the `k`-th call (from zero) succeeds if and only if `n + k < max_requests`.
/// A new address thus gets exactly `max_requests` admissions.
pub proof fn lemma_records_at_one_instant(v: EndpointLimiterView, addr: Seq<char>, now: u64, k: nat)
    requires
        v.window_secs > 0,
    ensures
        (record_outcome(repeat_records(v, addr, now, k), addr, now) is Ok) <==> window_of(
            endpoint_after_cleanup(v, now),
            addr,
            now,
        ).len() + k < v.max_requests,
        !v.requests.contains_key(addr) ==> window_of(endpoint_after_cleanup(v, now), addr, now).len()
            == 0,
    decreases k,
{
    lemma_repeat_records(v, addr, now, k);
    if !v.requests.contains_key(addr) {
        assert(!endpoint_after_cleanup(v, now).requests.contains_key(addr));
    }
}

proof fn lemma_repeat_records(v: EndpointLimiterView, addr: Seq<char>, now: u64, k: nat)
    requires
        v.window_secs > 0,
    ensures
        ({
            let n = window_of(endpoint_after_cleanup(v, now), addr, now).len() as int;
            let s = repeat_records(v, addr, now, k);
            &&& s.max_requests == v.max_requests
            &&& s.window_secs == v.window_secs
            &&& window_of(endpoint_after_cleanup(s, now), addr, now).len() == if n + k
                <= v.max_requests {
                n + k
            } else if n <= v.max_requests {
                v.max_requests as int
            } else {
                n
            }
        }),
    decreases k,
{
    if k > 0 {
        lemma_repeat_records(v, addr, now, (k - 1) as nat);
        lemma_record_step(repeat_records(v, addr, now, (k - 1) as nat), addr, now);
    }
}

/// The waiting time handed out is at least one second and at most one second
/// more than the window.
pub proof fn lemma_wait_bounds(window_secs: u64, elapsed: int)
    requires
        elapsed >= 0,
    ensures
        1 <= wait_secs(window_secs, elapsed) <= window_secs + 1,
{
    if elapsed < window_secs * 1_000_000_000 {
        let d = window_secs * 1_000_000_000 - elapsed;
        assert(0 <= d / 1_000_000_000 <= window_secs) by (nonlinear_arith)
            requires
                0 < d <= window_secs * 1_000_000_000,
        ;
    }
}

/// The state and the answers after calls of `check_and_record` for `addr`
/// at the times `times`, in their order.
pub open spec fn record_run(v: EndpointLimiterView, addr: Seq<char>, times: Seq<u64>) -> (
    EndpointLimiterView,
    Seq<Result<(), u64>>,
)
    decreases times.len(),
{
    if times.len() == 0 {
        (v, Seq::empty())
    } else {
        let p = record_run(v, addr, times.drop_last());
        (
            after_record(p.0, addr, times.last()),
            p.1.push(record_outcome(p.0, addr, times.last())),
        )
    }
}

/// The times do not go back, and all lie within one window of `window_secs`
/// seconds: the last is less than the window after the first.
pub open spec fn within_one_window(times: Seq<u64>, window_secs: u64) -> bool {
    &&& forall|i: int, j: int| 0 <= i <= j < times.len() ==> times[i] <= times[j]
    &&& times.len() > 0 ==> times.last() - times[0] < window_secs * 1_000_000_000
}

/// A sequence whose times all count at `now` is its own window.
proof fn lemma_keep_recent_all(ts: Seq<u64>, now: u64, w: u64)
    requires
        forall|k: int| 0 <= k < ts.len() ==> is_recent(#[trigger] ts[k], now, w),
    ensures
        keep_recent(ts, now, w) == ts,
    decreases ts.len(),
{
    if ts.len() > 0 {
        let p = ts.drop_last();
        assert forall|k: int| 0 <= k < p.len() implies is_recent(#[trigger] p[k], now, w) by {
            assert(p[k] == ts[k]);
        }
        lemma_keep_recent_all(p, now, w);
        assert(is_recent(ts[ts.len() - 1], now, w));
        assert(p.push(ts.last()) =~= ts);
    }
}

/// The window of `addr` after the cleanup at `now` is its recorded times
/// that count at `now`.
proof fn lemma_window_after_cleanup(v: EndpointLimiterView, addr: Seq<char>, now: u64)
    ensures
        window_of(endpoint_after_cleanup(v, now), addr, now) == keep_recent(
            times_of(v, addr),
            now,
            v.window_secs,
        ),
        endpoint_after_cleanup(v, now).window_secs == v.window_secs,
        endpoint_after_cleanup(v, now).max_requests == v.max_requests,
{
    let x = times_of(v, addr);
    lemma_keep_recent_idempotent(x, now, v.window_secs);
    if elapsed_ns(v.last_cleanup_ns, now) > ENDPOINT_CLEANUP_INTERVAL_NS {
        let c = endpoint_after_cleanup(v, now);
        if !c.requests.contains_key(addr) {
            assert(keep_recent(x, now, v.window_secs) =~= Seq::<u64>::empty());
            assert(keep_recent(Seq::<u64>::empty(), now, v.window_secs) =~= Seq::<u64>::empty());
        }
    }
}

proof fn lemma_record_run(v: EndpointLimiterView, addr: Seq<char>, times: Seq<u64>)
    requires
        times_of(v, addr).len() == 0,
        within_one_window(times, v.window_secs),
    ensures
        ({
            let p = record_run(v, addr, times);
            let k = if times.len() < v.max_requests {
                times.len() as int
            } else {
                v.max_requests as int
            };
            &&& p.0.max_requests == v.max_requests
            &&& p.0.window_secs == v.window_secs
            &&& times_of(p.0, addr) == times.take(k)
            &&& p.1.len() == times.len()
            &&& forall|j: int| 0 <= j < times.len() ==> ((#[trigger] p.1[j] is Ok) <==> j < v.max_requests)
            &&& v.max_requests > 0 ==> forall|j: int| 0 <= j < times.len() && p.1[j] is Err ==> p.1[j] == Err::<(), u64>(
                wait_secs(v.window_secs, elapsed_ns(times[0], times[j])) as u64,
            )
        }),
    decreases times.len(),
{
    if times.len() > 0 {
        let n = times.len() - 1;
        let q = times.drop_last();
        let t = times.last();
        assert(within_one_window(q, v.window_secs)) by {
            if q.len() > 0 {
                assert(q.last() == times[n - 1]);
                assert(times[n - 1] <= t);
            }
        }
        lemma_record_run(v, addr, q);
        let p = record_run(v, addr, q);
        let w = p.0;
        let kq = if q.len() < v.max_requests {
            q.len() as int
        } else {
            v.max_requests as int
        };
        let tt = q.take(kq);
        assert forall|k: int| 0 <= k < tt.len() implies is_recent(#[trigger] tt[k], t, v.window_secs) by {
            assert(tt[k] == times[k]);
            assert(times[0] <= times[k] <= t);
        }
        lemma_window_after_cleanup(w, addr, t);
        lemma_keep_recent_all(tt, t, v.window_secs);
        let c = endpoint_after_cleanup(w, t);
        assert(window_of(c, addr, t) == tt);
        if kq < v.max_requests {
            assert(times.take(kq + 1) =~= tt.push(t));
        } else {
            assert(times.take(v.max_requests as int) =~= tt);
            if tt.len() > 0 {
                assert(tt[0] == times[0]);
            }
        }
        assert(record_run(v, addr, times).1 == p.1.push(record_outcome(w, addr, t)));
        assert forall|j: int| 0 <= j < times.len() implies ((#[trigger] record_run(v, addr, times).1[j]
            is Ok) <==> j < v.max_requests) by {
            if j < n {
                assert(record_run(v, addr, times).1[j] == p.1[j]);
            }
        }
        assert(record_outcome(w, addr, t) == verdict(c, tt, t));
        assert forall|j: int|
            v.max_requests > 0 && 0 <= j < times.len() && record_run(v, addr, times).1[j] is Err implies record_run(
            v,
            addr,
            times,
        ).1[j] == Err::<(), u64>(wait_secs(v.window_secs, elapsed_ns(times[0], times[j])) as u64) by {
            if j < n {
                assert(record_run(v, addr, times).1[j] == p.1[j]);
                assert(q[j] == times[j] && q[0] == times[0]);
            } else {
                assert(tt.len() > 0);
                assert(tt[0] == times[0]);
            }
        }
    } else {
        assert(times.take(0) =~= Seq::<u64>::empty());
    }
}

/// Calls of `check_and_record` for an address with no counted requests, all
/// made within one window: exactly the first `max_requests` calls are
/// admitted and every later one is refused. With a positive budget and a
/// window below `u64::MAX` seconds, a refusal asks to wait at least one
/// second and at most one second more than the window.
pub proof fn lemma_records_within_window(v: EndpointLimiterView, addr: Seq<char>, times: Seq<u64>)
    requires
        times_of(v, addr).len() == 0,
        within_one_window(times, v.window_secs),
    ensures
        record_run(v, addr, times).1.len() == times.len(),
        forall|j: int|
            0 <= j < times.len() ==> ((#[trigger] record_run(v, addr, times).1[j] is Ok) <==> j
                < v.max_requests),
        v.window_secs < u64::MAX && v.max_requests > 0 ==> forall|j: int|
            0 <= j < times.len() && #[trigger] record_run(v, addr, times).1[j] is Err ==> {
                let s = record_run(v, addr, times).1[j]->Err_0;
                1 <= s <= v.window_secs + 1
            },
{
    lemma_record_run(v, addr, times);
    assert forall|j: int|
        0 <= j < times.len() && #[trigger] record_run(v, addr, times).1[j] is Err && v.window_secs
            < u64::MAX && v.max_requests > 0 implies {
        let s = record_run(v, addr, times).1[j]->Err_0;
        1 <= s <= v.window_secs + 1
    } by {
        lemma_wait_bounds(v.window_secs, elapsed_ns(times[0], times[j]));
    }
}

/// A call of `check_and_record` for one address never changes the answers
/// for another address at the same time or later.
pub proof fn lemma_other_address_unaffected(
    v: EndpointLimiterView,
    b: Seq<char>,
    t: u64,
    a: Seq<char>,
    later: u64,
)
    requires
        a != b,
        t <= later,
    ensures
        record_outcome(after_record(v, b, t), a, later) == record_outcome(v, a, later),
        window_of(after_record(v, b, t), a, later) == window_of(v, a, later),
{
    let w = v.window_secs;
    let c = endpoint_after_cleanup(v, t);
    let x = times_of(v, a);
    lemma_window_after_cleanup(v, a, t);
    assert(times_of(after_record(v, b, t), a) == times_of(c, a));
    lemma_keep_recent_later(x, t, later, w);
    if elapsed_ns(v.last_cleanup_ns, t) > ENDPOINT_CLEANUP_INTERVAL_NS {
        if !c.requests.contains_key(a) {
            assert(keep_recent(x, t, w).len() == 0);
            assert(keep_recent(keep_recent(x, t, w), later, w) =~= Seq::<u64>::empty());
            assert(keep_recent(Seq::<u64>::empty(), later, w) =~= Seq::<u64>::empty());
        }
    }
    let r = after_record(v, b, t);
    lemma_window_after_cleanup(r, a, later);
    lemma_window_after_cleanup(v, a, later);
    lemma_keep_recent_idempotent(x, later, w);
}

/// Times that count at `later` count at any earlier `now` too, so a window
/// taken at `now` and then at `later` is the window at `later`.
proof fn lemma_keep_recent_later(ts: Seq<u64>, now: u64, later: u64, w: u64)
    requires
        now <= later,
    ensures
        keep_recent(keep_recent(ts, now, w), later, w) == keep_recent(ts, later, w),
    decreases ts.len(),
{
    if ts.len() > 0 {
        let p = ts.drop_last();
        lemma_keep_recent_later(p, now, later, w);
        let r = keep_recent(p, now, w);
        if is_recent(ts.last(), now, w) {
            lemma_keep_recent_push(r, ts.last(), later, w);
        }
    }
}

/// The state after calls of `record_success` for `addr` at the times `times`.
pub open spec fn success_run(v: EndpointLimiterView, addr: Seq<char>, times: Seq<u64>) -> EndpointLimiterView
    decreases times.len(),
{
    if times.len() == 0 {
        v
    } else {
        let w = success_run(v, addr, times.drop_last());
        EndpointLimiterView {
            requests: w.requests.insert(addr, times_of(w, addr).push(times.last())),
            ..w
        }
    }
}

proof fn lemma_success_run(v: EndpointLimiterView, addr: Seq<char>, times: Seq<u64>)
    requires
        times_of(v, addr).len() == 0,
    ensures
        times_of(success_run(v, addr, times), addr) == times,
        success_run(v, addr, times).max_requests == v.max_requests,
        success_run(v, addr, times).window_secs == v.window_secs,
        forall|b: Seq<char>| b != addr ==> #[trigger] times_of(success_run(v, addr, times), b) == times_of(v, b),
    decreases times.len(),
{
    if times.len() > 0 {
        lemma_success_run(v, addr, times.drop_last());
        assert(times.drop_last().push(times.last()) =~= times);
        let w = success_run(v, addr, times.drop_last());
        assert forall|b: Seq<char>| b != addr implies #[trigger] times_of(
            success_run(v, addr, times),
            b,
        ) == times_of(v, b) by {
            assert(times_of(w, b) == times_of(v, b));
        }
    } else {
        assert(times_of(v, addr) =~= times);
    }
}

/// After `record_success` calls for an address with no recorded requests,
/// made at `times` within one window that ends before `now` runs out, a
/// `check_only` of that address at `now` admits exactly when fewer than
/// `max_requests` successes were recorded, and a refusal asks to wait at
/// least one second and at most one second more than the window (with a
/// positive budget and a window below `u64::MAX` seconds). The answers for
/// every other address are those before the calls.
pub proof fn lemma_successes_within_window(
    v: EndpointLimiterView,
    addr: Seq<char>,
    times: Seq<u64>,
    now: u64,
)
    requires
        times_of(v, addr).len() == 0,
        within_one_window(times.push(now), v.window_secs),
    ensures
        ({
            let s = success_run(v, addr, times);
            let r = verdict(s, window_of(s, addr, now), now);
            &&& window_of(s, addr, now) == times
            &&& (r is Ok) <==> times.len() < v.max_requests
            &&& v.max_requests > 0 && v.window_secs < u64::MAX && r is Err ==> 1 <= r->Err_0
                <= v.window_secs + 1
            &&& forall|b: Seq<char>|
                b != addr ==> #[trigger] verdict(s, window_of(s, b, now), now) == verdict(
                    v,
                    window_of(v, b, now),
                    now,
                )
        }),
{
    let s = success_run(v, addr, times);
    let all = times.push(now);
    lemma_success_run(v, addr, times);
    assert forall|k: int| 0 <= k < times.len() implies is_recent(#[trigger] times[k], now, v.window_secs) by {
        assert(all[k] == times[k] && all[0] == times[0]);
        assert(all[0] <= all[k] <= all[all.len() - 1]);
    }
    lemma_keep_recent_all(times, now, v.window_secs);
    if times.len() > 0 && times.len() >= v.max_requests {
        lemma_wait_bounds(v.window_secs, elapsed_ns(times[0], now));
    }
}

/// Number of admissions among `rs`.
pub open spec fn ok_count(rs: Seq<Result<(), u64>>) -> nat
    decreases rs.len(),
{
    if rs.len() == 0 {
        0
    } else {
        ok_count(rs.drop_last()) + if rs.last() is Ok {
            1nat
        } else {
            0nat
        }
    }
}

proof fn lemma_record_run_any(v: EndpointLimiterView, addr: Seq<char>, times: Seq<u64>, end: u64)
    requires
        within_one_window(times, v.window_secs),
        times.len() > 0 ==> times.last() <= end && end - times[0] < v.window_secs * 1_000_000_000,
    ensures
        ({
            let p = record_run(v, addr, times);
            let before = keep_recent(times_of(v, addr), end, v.window_secs).len();
            &&& p.0.max_requests == v.max_requests
            &&& p.0.window_secs == v.window_secs
            &&& p.1.len() == times.len()
            &&& keep_recent(times_of(p.0, addr), end, v.window_secs).len() >= before + ok_count(p.1)
            &&& ok_count(p.1) == 0 || before + ok_count(p.1) <= v.max_requests
        }),
    decreases times.len(),
{
    if times.len() > 0 {
        let n = times.len() - 1;
        let q = times.drop_last();
        let t = times.last();
        assert(within_one_window(q, v.window_secs)) by {
            if q.len() > 0 {
                assert(q.last() == times[n - 1]);
                assert(q[0] == times[0]);
            }
        }
        if q.len() > 0 {
            assert(q.last() == times[n - 1] && q[0] == times[0]);
            assert(times[n - 1] <= t);
        }
        lemma_record_run_any(v, addr, q, end);
        let p = record_run(v, addr, q);
        let w = p.0;
        let x = times_of(w, addr);
        let win = keep_recent(x, t, v.window_secs);
        lemma_window_after_cleanup(w, addr, t);
        lemma_keep_recent_later(x, t, end, v.window_secs);
        lemma_keep_recent_len(win, end, v.window_secs);
        let c = endpoint_after_cleanup(w, t);
        assert(window_of(c, addr, t) == win);
        let r = record_outcome(w, addr, t);
        assert(record_run(v, addr, times).1 == p.1.push(r));
        assert(p.1.push(r).drop_last() =~= p.1);
        assert(times[0] <= t);
        assert(is_recent(t, end, v.window_secs));
        lemma_keep_recent_push(win, t, end, v.window_secs);
        let after = after_record(w, addr, t);
        assert(times_of(after, addr) == if verdict(c, win, t) is Ok {
            win.push(t)
        } else {
            win
        });
    }
}

/// From any state, calls of `check_and_record` for one address at times
/// within one window admit at most `max_requests` less the recorded requests
/// of the address that still count at the last of those times (`end`): when
/// any call is admitted, those requests and the admissions together are at
/// most `max_requests`.
pub proof fn lemma_window_admissions(v: EndpointLimiterView, addr: Seq<char>, times: Seq<u64>)
    requires
        times.len() > 0,
        within_one_window(times, v.window_secs),
    ensures
        ({
            let admitted = ok_count(record_run(v, addr, times).1);
            let counted = keep_recent(times_of(v, addr), times.last(), v.window_secs).len();
            admitted == 0 || counted + admitted <= v.max_requests
        }),
        ok_count(record_run(v, addr, times).1) <= v.max_requests,
{
    lemma_record_run_any(v, addr, times, times.last());
}

} // verus!
