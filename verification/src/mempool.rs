//! Pool of pending transactions awaiting inclusion in blocks.
//!
//! Transactions are kept in arrival order, keyed by their hash. The pool
//! rejects duplicates and malformed blocks, holds at most
//! `MAX_MEMPOOL_SIZE` transactions (a full pool evicts its lowest-priority
//! transaction for a higher-priority newcomer), hands out transactions by
//! descending priority (earlier arrivals first among equal priorities), and
//! expires transactions older than a day.
use vstd::prelude::*;
use crate::clock::unix_time_millis;
use crate::ledger::Block;
use vstd::set_lib::{lemma_int_range, lemma_len_subset, set_int_range};

verus! {

/// Maximum number of transactions in the pool.
pub const MAX_MEMPOOL_SIZE: usize = 10_000;

/// A transaction expires once it is older than this (24 hours).
pub const TX_EXPIRATION_SECS: u64 = 86_400;

/// A pooled transaction.
#[derive(Clone, Debug)]
pub struct MempoolTransaction {
    pub block: Block,
    /// Arrival time, in seconds since the Unix epoch.
    pub received_at: u64,
    pub priority: u64,
    pub fee: u64,
}

/// Pool statistics.
#[derive(Clone, Copy, Debug)]
pub struct MempoolStats {
    pub size: usize,
    pub total_received: u64,
    pub total_accepted: u64,
    pub total_rejected: u64,
    pub total_expired: u64,
    pub unique_senders: usize,
}

/// The transaction pool.
pub struct Mempool {
    entries: Vec<(String, MempoolTransaction)>,
    pub total_received: u64,
    pub total_accepted: u64,
    pub total_rejected: u64,
    pub total_expired: u64,
}

/// Pooled transactions with their hashes, in arrival order.
pub type PoolSeq = Seq<(Seq<char>, MempoolTransaction)>;

/// What a `Mempool` holds.
#[verifier::ext_equal]
pub struct MempoolView {
    pub entries: PoolSeq,
    pub total_received: u64,
    pub total_accepted: u64,
    pub total_rejected: u64,
    pub total_expired: u64,
}

pub open spec fn entry_view(e: (String, MempoolTransaction)) -> (Seq<char>, MempoolTransaction) {
    (e.0@, e.1)
}

/// No two pooled transactions share a hash.
pub open spec fn hashes_unique(s: PoolSeq) -> bool {
    forall|i: int, j: int| 0 <= i < s.len() && 0 <= j < s.len() && i != j ==> s[i].0 != s[j].0
}

/// Some pooled transaction has hash `h`.
pub open spec fn pool_contains(s: PoolSeq, h: Seq<char>) -> bool {
    exists|i: int| 0 <= i < s.len() && s[i].0 == h
}

/// The index of the transaction with hash `h` (meaningful when present).
pub open spec fn pool_index(s: PoolSeq, h: Seq<char>) -> int {
    choose|i: int| 0 <= i < s.len() && s[i].0 == h
}

/// The sender of a pooled transaction.
pub open spec fn sender_of(tx: MempoolTransaction) -> Seq<char> {
    tx.block.account@
}

/// A valid pool: unique hashes and at most `MAX_MEMPOOL_SIZE` transactions.
pub open spec fn pool_wf(s: PoolSeq) -> bool {
    hashes_unique(s) && s.len() <= MAX_MEMPOOL_SIZE
}

/// `i` is the transaction a full pool evicts: one of lowest priority, the
/// earliest to arrive among those.
pub open spec fn is_eviction_index(s: PoolSeq, i: int) -> bool {
    &&& 0 <= i < s.len()
    &&& forall|j: int| 0 <= j < s.len() ==> s[i].1.priority <= (#[trigger] s[j]).1.priority
    &&& forall|j: int| 0 <= j < i ==> (#[trigger] s[j]).1.priority > s[i].1.priority
}

/// The transaction a full pool evicts (meaningful for a non-empty pool).
pub open spec fn eviction_index(s: PoolSeq) -> int {
    choose|i: int| is_eviction_index(s, i)
}

/// The lowest priority in a non-empty pool.
pub open spec fn lowest_priority(s: PoolSeq) -> u64 {
    s[eviction_index(s)].1.priority
}

/// Adding `hash` with `priority` to `v` first evicts a transaction.
pub open spec fn add_evicts(v: MempoolView, hash: Seq<char>, priority: u64) -> bool {
    &&& !pool_contains(v.entries, hash)
    &&& v.entries.len() >= MAX_MEMPOOL_SIZE
    &&& lowest_priority(v.entries) < priority
}

/// The answer to adding a transaction: its hash, or the reason it is refused.
pub open spec fn add_result(v: MempoolView, hash: Seq<char>, block: Block, priority: u64) -> Result<
    Seq<char>,
    Seq<char>,
> {
    if pool_contains(v.entries, hash) {
        Err("Transaction already in mempool"@)
    } else if v.entries.len() >= MAX_MEMPOOL_SIZE && lowest_priority(v.entries) >= priority {
        Err("Mempool full and transaction priority too low"@)
    } else if block.account@.len() == 0 {
        Err("Invalid block: empty account"@)
    } else if block.signature@.len() == 0 {
        Err("Invalid block: missing signature"@)
    } else {
        Ok(hash)
    }
}

/// The pooled transactions after adding a transaction at time `now`. An
/// eviction made for a newcomer stays even when the newcomer is then refused
/// as malformed.
pub open spec fn add_entries(
    v: MempoolView,
    hash: Seq<char>,
    block: Block,
    fee: u64,
    priority: u64,
    now: u64,
) -> PoolSeq {
    let base = if add_evicts(v, hash, priority) {
        v.entries.remove(eviction_index(v.entries))
    } else {
        v.entries
    };
    if add_result(v, hash, block, priority) is Ok {
        base.push((hash, MempoolTransaction { block, received_at: now, priority, fee }))
    } else {
        base
    }
}

/// The whole pool after adding a transaction at time `now`.
pub open spec fn after_add(
    v: MempoolView,
    hash: Seq<char>,
    block: Block,
    fee: u64,
    priority: u64,
    now: u64,
) -> MempoolView {
    let ok = add_result(v, hash, block, priority) is Ok;
    MempoolView {
        entries: add_entries(v, hash, block, fee, priority, now),
        total_received: (v.total_received + 1) as u64,
        total_accepted: if ok {
            (v.total_accepted + 1) as u64
        } else {
            v.total_accepted
        },
        total_rejected: if ok {
            v.total_rejected
        } else {
            (v.total_rejected + 1) as u64
        },
        total_expired: v.total_expired,
    }
}

/// The counters that adding `hash` with `block` and `priority` to `v`
/// advances can take one more: the received count, and the accepted or the
/// rejected count by the outcome.
pub open spec fn counters_open(v: MempoolView, hash: Seq<char>, block: Block, priority: u64) -> bool {
    &&& v.total_received < u64::MAX
    &&& add_result(v, hash, block, priority) is Ok ==> v.total_accepted < u64::MAX
    &&& add_result(v, hash, block, priority) is Err ==> v.total_rejected < u64::MAX
}

proof fn lemma_eviction_exists(s: PoolSeq)
    requires
        s.len() > 0,
    ensures
        is_eviction_index(s, eviction_index(s)),
    decreases s.len(),
{
    let i = lemma_eviction_witness(s);
}

proof fn lemma_eviction_witness(s: PoolSeq) -> (i: int)
    requires
        s.len() > 0,
    ensures
        is_eviction_index(s, i),
    decreases s.len(),
{
    if s.len() == 1 {
        0
    } else {
        let p = s.drop_last();
        let k = lemma_eviction_witness(p);
        assert(p[k] == s[k]);
        if s.last().1.priority < s[k].1.priority {
            assert forall|j: int| 0 <= j < s.len() implies s[s.len() - 1].1.priority <= (
            #[trigger] s[j]).1.priority by {
                if j < s.len() - 1 {
                    assert(p[j] == s[j]);
                }
            }
            assert forall|j: int| 0 <= j < s.len() - 1 implies (#[trigger] s[j]).1.priority > s[s.len()
                - 1].1.priority by {
                assert(p[j] == s[j]);
            }
            s.len() - 1
        } else {
            assert forall|j: int| 0 <= j < s.len() implies s[k].1.priority <= (
            #[trigger] s[j]).1.priority by {
                if j < s.len() - 1 {
                    assert(p[j] == s[j]);
                }
            }
            assert forall|j: int| 0 <= j < k implies (#[trigger] s[j]).1.priority > s[k].1.priority by {
                assert(p[j] == s[j]);
            }
            k
        }
    }
}

proof fn lemma_eviction_index_unique(s: PoolSeq, i: int)
    requires
        is_eviction_index(s, i),
    ensures
        eviction_index(s) == i,
        lowest_priority(s) == s[i].1.priority,
{
    let j = eviction_index(s);
    assert(is_eviction_index(s, j));
    if j < i {
        assert(s[j].1.priority > s[i].1.priority);
    } else if j > i {
        assert(s[i].1.priority > s[j].1.priority);
    }
}

/// Entry `i` is handed out before entry `j`: higher priority first, earlier
/// arrival first among equal priorities.
pub open spec fn precedes(s: PoolSeq, i: int, j: int) -> bool {
    s[i].1.priority > s[j].1.priority || (s[i].1.priority == s[j].1.priority && i < j)
}

/// Entry `j` may come next after entry `last` (any entry may come first).
pub open spec fn is_candidate(s: PoolSeq, have_last: bool, last: int, j: int) -> bool {
    !have_last || precedes(s, last, j)
}

/// `sel` lists, in hand-out order, the first `m` entries of `s`.
pub open spec fn is_top_selection(s: PoolSeq, sel: Seq<int>, m: int) -> bool {
    &&& sel.len() == m
    &&& forall|a: int| 0 <= a < m ==> 0 <= #[trigger] sel[a] < s.len()
    &&& forall|a: int, b: int| 0 <= a < b < m ==> precedes(s, #[trigger] sel[a], #[trigger] sel[b])
    &&& forall|i: int, a: int|
        0 <= i < s.len() && !sel.contains(i) && 0 <= a < m ==> #[trigger] precedes(s, sel[a], i)
}

/// Hashes of the transactions of sender `a`, in arrival order.
pub open spec fn sender_hashes(s: PoolSeq, a: Seq<char>) -> Seq<Seq<char>>
    decreases s.len(),
{
    if s.len() == 0 {
        Seq::empty()
    } else {
        let r = sender_hashes(s.drop_last(), a);
        if sender_of(s.last().1) == a {
            r.push(s.last().0)
        } else {
            r
        }
    }
}

/// The transaction is older than a day at time `now`.
pub open spec fn is_expired(tx: MempoolTransaction, now: u64) -> bool {
    (if now >= tx.received_at {
        now - tx.received_at
    } else {
        0
    }) > TX_EXPIRATION_SECS
}

/// The entries that have not expired at `now`, in their order.
pub open spec fn keep_fresh(s: PoolSeq, now: u64) -> PoolSeq
    decreases s.len(),
{
    if s.len() == 0 {
        s
    } else {
        let r = keep_fresh(s.drop_last(), now);
        if is_expired(s.last().1, now) {
            r
        } else {
            r.push(s.last())
        }
    }
}

/// Some entry of `s` was sent by `a`.
pub open spec fn sender_seen(s: PoolSeq, a: Seq<char>) -> bool {
    exists|j: int| 0 <= j < s.len() && sender_of(#[trigger] s[j].1) == a
}

/// Number of distinct senders among the entries.
pub open spec fn distinct_senders(s: PoolSeq) -> nat
    decreases s.len(),
{
    if s.len() == 0 {
        0
    } else {
        distinct_senders(s.drop_last()) + if sender_seen(s.drop_last(), sender_of(s.last().1)) {
            0nat
        } else {
            1nat
        }
    }
}

impl View for Mempool {
    type V = MempoolView;

    closed spec fn view(&self) -> MempoolView {
        MempoolView {
            entries: self.entries@.map_values(|e: (String, MempoolTransaction)| entry_view(e)),
            total_received: self.total_received,
            total_accepted: self.total_accepted,
            total_rejected: self.total_rejected,
            total_expired: self.total_expired,
        }
    }
}

proof fn lemma_index_unique(s: PoolSeq, i: int)
    requires
        hashes_unique(s),
        0 <= i < s.len(),
    ensures
        pool_contains(s, s[i].0),
        pool_index(s, s[i].0) == i,
{
    assert(pool_contains(s, s[i].0));
    let j = pool_index(s, s[i].0);
    assert(s[j].0 == s[i].0);
}

proof fn lemma_remove_keeps_unique(s: PoolSeq, i: int)
    requires
        hashes_unique(s),
        0 <= i < s.len(),
    ensures
        hashes_unique(s.remove(i)),
        s.remove(i).len() == s.len() - 1,
{
    let t = s.remove(i);
    assert forall|a: int, b: int| 0 <= a < t.len() && 0 <= b < t.len() && a != b implies t[a].0
        != t[b].0 by {
        let sa = if a < i { a } else { a + 1 };
        let sb = if b < i { b } else { b + 1 };
        assert(t[a] == s[sa] && t[b] == s[sb]);
    }
}

impl Mempool {
    /// Valid pool: unique hashes and at most `MAX_MEMPOOL_SIZE` transactions.
    pub open spec fn wf(&self) -> bool {
        pool_wf(self@.entries)
    }

    /// An empty pool with all counters at zero.
    pub fn new() -> (r: Self)
        ensures
            r.wf(),
            r@ == (MempoolView {
                entries: Seq::empty(),
                total_received: 0,
                total_accepted: 0,
                total_rejected: 0,
                total_expired: 0,
            }),
    {
        let r = Mempool {
            entries: Vec::new(),
            total_received: 0,
            total_accepted: 0,
            total_rejected: 0,
            total_expired: 0,
        };
        proof {
            assert(r@ =~= MempoolView {
                entries: Seq::empty(),
                total_received: 0,
                total_accepted: 0,
                total_rejected: 0,
                total_expired: 0,
            });
        }
        r
    }

    /// Index of the transaction with hash `key`, if pooled.
    fn find(&self, key: &String) -> (r: Option<usize>)
        requires
            self.wf(),
        ensures
            match r {
                Some(i) => i < self@.entries.len() && self@.entries[i as int].0 == key@ && pool_index(
                    self@.entries,
                    key@,
                ) == i,
                None => !pool_contains(self@.entries, key@),
            },
    {
        let n = self.entries.len();
        let mut i: usize = 0;
        while i < n
            invariant
                self.wf(),
                n == self.entries@.len(),
                i <= n,
                forall|j: int| 0 <= j < i ==> (#[trigger] self.entries@[j]).0@ != key@,
            decreases n - i,
        {
            if self.entries[i].0 == *key {
                proof {
                    assert(self@.entries[i as int] == entry_view(self.entries@[i as int]));
                    lemma_index_unique(self@.entries, i as int);
                }
                return Some(i);
            }
            i += 1;
        }
        proof {
            if pool_contains(self@.entries, key@) {
                let j = pool_index(self@.entries, key@);
                assert(self@.entries[j] == entry_view(self.entries@[j]));
            }
        }
        None
    }

    /// The pooled transaction with hash `tx_hash`.
    pub fn get_transaction(&self, tx_hash: &str) -> (r: Option<&MempoolTransaction>)
        requires
            self.wf(),
        ensures
            match r {
                Some(t) => pool_contains(self@.entries, tx_hash@) && *t == self@.entries[pool_index(
                    self@.entries,
                    tx_hash@,
                )].1,
                None => !pool_contains(self@.entries, tx_hash@),
            },
    {
        let key = tx_hash.to_owned();
        match self.find(&key) {
            Some(i) => Some(&self.entries[i].1),
            None => None,
        }
    }

    /// Whether a transaction with hash `tx_hash` is pooled.
    pub fn contains(&self, tx_hash: &str) -> (r: bool)
        requires
            self.wf(),
        ensures
            r == pool_contains(self@.entries, tx_hash@),
    {
        let key = tx_hash.to_owned();
        self.find(&key).is_some()
    }

    /// Number of pooled transactions.
    pub fn len(&self) -> (r: usize)
        ensures
            r == self@.entries.len(),
    {
        self.entries.len()
    }

    /// Whether the pool holds no transaction.
    pub fn is_empty(&self) -> (r: bool)
        ensures
            r == (self@.entries.len() == 0),
    {
        self.entries.len() == 0
    }

    /// Drops every pooled transaction; the counters stay.
    pub fn clear(&mut self)
        ensures
            final(self).wf(),
            final(self)@ == (MempoolView { entries: Seq::empty(), ..old(self)@ }),
    {
        self.entries = Vec::new();
        proof {
            assert(self@ =~= MempoolView { entries: Seq::empty(), ..old(self)@ });
        }
    }

    /// Removes the pooled transaction at index `i`, keeping the order of the
    /// others.
    fn remove_at(&mut self, i: usize) -> (r: MempoolTransaction)
        requires
            old(self).wf(),
            i < old(self)@.entries.len(),
        ensures
            final(self).wf(),
            r == old(self)@.entries[i as int].1,
            final(self)@ == (MempoolView {
                entries: old(self)@.entries.remove(i as int),
                ..old(self)@
            }),
    {
        let ghost s = self@.entries;
        proof {
            lemma_remove_keeps_unique(s, i as int);
        }
        let e = self.entries.remove(i);
        proof {
            assert(self@.entries =~= s.remove(i as int));
            assert(self@ =~= MempoolView { entries: s.remove(i as int), ..old(self)@ });
        }
        e.1
    }

    /// Removes the transaction with hash `tx_hash` (after its inclusion in a
    /// block, or its rejection) and hands it back.
    pub fn remove_transaction(&mut self, tx_hash: &str) -> (r: Option<MempoolTransaction>)
        requires
            old(self).wf(),
        ensures
            final(self).wf(),
            pool_contains(old(self)@.entries, tx_hash@) ==> {
                let i = pool_index(old(self)@.entries, tx_hash@);
                &&& r == Some(old(self)@.entries[i].1)
                &&& final(self)@ == (MempoolView {
                    entries: old(self)@.entries.remove(i),
                    ..old(self)@
                })
            },
            !pool_contains(old(self)@.entries, tx_hash@) ==> r is None && final(self)@ == old(
                self,
            )@,
    {
        let key = tx_hash.to_owned();
        match self.find(&key) {
            Some(i) => Some(self.remove_at(i)),
            None => None,
        }
    }

    /// Index of the transaction a full pool evicts.
    fn find_lowest(&self) -> (r: usize)
        requires
            self@.entries.len() > 0,
        ensures
            is_eviction_index(self@.entries, r as int),
            eviction_index(self@.entries) == r,
    {
        let n = self.entries.len();
        let mut best: usize = 0;
        let mut i: usize = 1;
        proof {
            assert(self@.entries[0] == entry_view(self.entries@[0]));
        }
        while i < n
            invariant
                n == self.entries@.len(),
                n == self@.entries.len(),
                1 <= i <= n,
                best < i,
                forall|j: int|
                    0 <= j < i ==> self@.entries[best as int].1.priority <= (
                    #[trigger] self@.entries[j]).1.priority,
                forall|j: int|
                    0 <= j < best ==> (#[trigger] self@.entries[j]).1.priority
                        > self@.entries[best as int].1.priority,
            decreases n - i,
        {
            proof {
                assert(self@.entries[i as int] == entry_view(self.entries@[i as int]));
                assert(self@.entries[best as int] == entry_view(self.entries@[best as int]));
            }
            if self.entries[i].1.priority < self.entries[best].1.priority {
                best = i;
            }
            i += 1;
        }
        proof {
            lemma_eviction_index_unique(self@.entries, best as int);
        }
        best
    }

    /// Adds a transaction whose hash is `tx_hash`, received at `now_secs`.
    /// Returns the hash when accepted, or the reason of the refusal: a
    /// duplicate hash, a full pool whose lowest priority is not below
    /// `priority`, an empty account, or a missing signature (checked in this
    /// order). A full pool evicts its lowest-priority transaction for a
    /// newcomer of higher priority before the block itself is checked.
    pub fn add_transaction_at(
        &mut self,
        tx_hash: String,
        block: Block,
        fee: u64,
        priority: u64,
        now_secs: u64,
    ) -> (r: Result<String, String>)
        requires
            old(self).wf(),
            counters_open(old(self)@, tx_hash@, block, priority),
        ensures
            final(self).wf(),
            match r {
                Ok(h) => add_result(old(self)@, tx_hash@, block, priority) == Ok::<Seq<char>, Seq<char>>(h@),
                Err(e) => add_result(old(self)@, tx_hash@, block, priority) == Err::<Seq<char>, Seq<char>>(e@),
            },
            final(self)@ == after_add(old(self)@, tx_hash@, block, fee, priority, now_secs),
    {
        self.total_received = self.total_received + 1;
        let ghost v = old(self)@;
        if self.find(&tx_hash).is_some() {
            self.total_rejected = self.total_rejected + 1;
            proof {
                assert(self@ =~= after_add(v, tx_hash@, block, fee, priority, now_secs));
            }
            return Err("Transaction already in mempool".to_owned());
        }
        if self.entries.len() >= MAX_MEMPOOL_SIZE {
            let lowest = self.find_lowest();
            if self.entries[lowest].1.priority < priority {
                proof {
                    assert(self@.entries[lowest as int] == entry_view(self.entries@[lowest as int]));
                }
                let _ = self.remove_at(lowest);
            } else {
                proof {
                    assert(self@.entries[lowest as int] == entry_view(self.entries@[lowest as int]));
                }
                self.total_rejected = self.total_rejected + 1;
                proof {
                    assert(self@ =~= after_add(v, tx_hash@, block, fee, priority, now_secs));
                }
                return Err("Mempool full and transaction priority too low".to_owned());
            }
        }
        let ghost base = self@.entries;
        proof {
            assert(base == if add_evicts(v, tx_hash@, priority) {
                v.entries.remove(eviction_index(v.entries))
            } else {
                v.entries
            });
        }
        if block.account.as_str().is_empty() {
            self.total_rejected = self.total_rejected + 1;
            proof {
                assert(self@ =~= after_add(v, tx_hash@, block, fee, priority, now_secs));
            }
            return Err("Invalid block: empty account".to_owned());
        }
        if block.signature.as_str().is_empty() {
            self.total_rejected = self.total_rejected + 1;
            proof {
                assert(self@ =~= after_add(v, tx_hash@, block, fee, priority, now_secs));
            }
            return Err("Invalid block: missing signature".to_owned());
        }
        let ghost blk = block;
        let tx = MempoolTransaction { block, received_at: now_secs, priority, fee };
        let key = tx_hash.clone();
        proof {
            assert forall|a: int| 0 <= a < base.len() implies base[a].0 != tx_hash@ by {
                if add_evicts(v, tx_hash@, priority) {
                    let k = eviction_index(v.entries);
                    let sa = if a < k { a } else { a + 1 };
                    assert(base[a] == v.entries[sa]);
                } else {
                    assert(base[a] == v.entries[a]);
                }
            }
        }
        self.entries.push((key, tx));
        self.total_accepted = self.total_accepted + 1;
        proof {
            let t = self@.entries;
            assert(t =~= base.push((tx_hash@, tx)));
            assert(hashes_unique(t)) by {
                assert forall|a: int, b: int|
                    0 <= a < t.len() && 0 <= b < t.len() && a != b implies t[a].0 != t[b].0 by {
                    if a == base.len() {
                        assert(t[b] == base[b]);
                    } else if b == base.len() {
                        assert(t[a] == base[a]);
                    } else {
                        assert(t[a] == base[a] && t[b] == base[b]);
                    }
                }
            }
            assert(self@ =~= after_add(v, tx_hash@, blk, fee, priority, now_secs));
        }
        Ok(tx_hash)
    }

    /// Adds a transaction received now (see `add_transaction_at`).
    pub fn add_transaction(&mut self, tx_hash: String, block: Block, fee: u64, priority: u64) -> (r:
        Result<String, String>)
        requires
            old(self).wf(),
            counters_open(old(self)@, tx_hash@, block, priority),
        ensures
            final(self).wf(),
            match r {
                Ok(h) => add_result(old(self)@, tx_hash@, block, priority) == Ok::<Seq<char>, Seq<char>>(h@),
                Err(e) => add_result(old(self)@, tx_hash@, block, priority) == Err::<Seq<char>, Seq<char>>(e@),
            },
            exists|now: u64| final(self)@ == after_add(old(self)@, tx_hash@, block, fee, priority, now),
    {
        let now = unix_time_millis() / 1000;
        self.add_transaction_at(tx_hash, block, fee, priority, now)
    }

    /// Entry `i` is handed out before entry `j`.
    fn precedes_exec(&self, i: usize, j: usize) -> (r: bool)
        requires
            i < self@.entries.len(),
            j < self@.entries.len(),
        ensures
            r == precedes(self@.entries, i as int, j as int),
    {
        proof {
            assert(self@.entries[i as int] == entry_view(self.entries@[i as int]));
            assert(self@.entries[j as int] == entry_view(self.entries@[j as int]));
        }
        let pi = self.entries[i].1.priority;
        let pj = self.entries[j].1.priority;
        pi > pj || (pi == pj && i < j)
    }

    /// Hashes of the (at most) `count` transactions to process next: by
    /// descending priority, earlier arrivals first among equal priorities.
    pub fn get_next_transactions(&self, count: usize) -> (r: Vec<String>)
        requires
            self.wf(),
        ensures
            forall|i: int, j: int| 0 <= i < j < r@.len() ==> (#[trigger] r@[i])@ != (#[trigger] r@[j])@,
            forall|k: int| 0 <= k < r@.len() ==> pool_contains(self@.entries, (#[trigger] r@[k])@),
            r@.len() == if count < self@.entries.len() {
                count as int
            } else {
                self@.entries.len() as int
            },
            exists|sel: Seq<int>|
                #[trigger] is_top_selection(self@.entries, sel, r@.len() as int) && forall|k: int|
                    0 <= k < r@.len() ==> (#[trigger] r@[k])@ == self@.entries[sel[k]].0,
    {
        let ghost s = self@.entries;
        let n = self.entries.len();
        let m = if count < n {
            count
        } else {
            n
        };
        let mut result: Vec<String> = Vec::new();
        let ghost mut sel: Seq<int> = Seq::empty();
        let mut last: usize = 0;
        while result.len() < m
            invariant
                s == self@.entries,
                n == s.len(),
                m <= n,
                result@.len() <= m,
                sel.len() == result@.len(),
                forall|a: int| 0 <= a < sel.len() ==> 0 <= #[trigger] sel[a] < n,
                forall|a: int, b: int|
                    0 <= a < b < sel.len() ==> precedes(s, #[trigger] sel[a], #[trigger] sel[b]),
                forall|i: int, a: int|
                    0 <= i < n && !sel.contains(i) && 0 <= a < sel.len() ==> #[trigger] precedes(
                        s,
                        sel[a],
                        i,
                    ),
                sel.len() > 0 ==> last == sel.last() && last < n,
                forall|k: int| 0 <= k < result@.len() ==> (#[trigger] result@[k])@ == s[sel[k]].0,
            decreases m - result@.len(),
        {
            let have_last = result.len() > 0;
            let mut best: usize = n;
            let mut i: usize = 0;
            while i < n
                invariant
                    s == self@.entries,
                    n == s.len(),
                    i <= n,
                    have_last == (sel.len() > 0),
                    sel.len() > 0 ==> last == sel.last() && last < n,
                    best == n || (best < i && is_candidate(s, have_last, last as int, best as int)),
                    best < n ==> forall|j: int|
                        0 <= j < i && #[trigger] is_candidate(s, have_last, last as int, j) ==> j
                            == best || precedes(s, best as int, j),
                    best == n ==> forall|j: int|
                        0 <= j < i ==> !#[trigger] is_candidate(s, have_last, last as int, j),
                decreases n - i,
            {
                let cand = !have_last || self.precedes_exec(last, i);
                proof {
                    assert(cand == is_candidate(s, have_last, last as int, i as int));
                }
                if cand {
                    if best == n || self.precedes_exec(i, best) {
                        proof {
                            assert forall|j: int|
                                0 <= j < i + 1 && #[trigger] is_candidate(s, have_last, last as int, j)
                                    implies j == i || precedes(s, i as int, j) by {
                                if j < i && best < n && j != best {
                                    lemma_precedes_trans(s, i as int, best as int, j);
                                }
                            }
                        }
                        best = i;
                    } else {
                        proof {
                            lemma_precedes_total(s, i as int, best as int);
                        }
                    }
                }
                i += 1;
            }
            proof {
                if best == n {
                    assert forall|x: int| #[trigger] set_int_range(0, n as int).contains(x) implies sel.to_set().contains(x) by {
                        if !sel.contains(x) {
                            if sel.len() > 0 {
                                assert(precedes(s, sel[sel.len() - 1], x));
                                assert(sel[sel.len() - 1] == last as int);
                            }
                            assert(is_candidate(s, have_last, last as int, x));
                        }
                    }
                    lemma_int_range(0, n as int);
                    sel.lemma_cardinality_of_set();
                    lemma_len_subset(set_int_range(0, n as int), sel.to_set());
                    assert(false);
                }
                if sel.contains(best as int) {
                    let a = choose|a: int| 0 <= a < sel.len() && sel[a] == best as int;
                    if a < sel.len() - 1 {
                        assert(precedes(s, sel[a], sel[sel.len() - 1]));
                    }
                    assert(false);
                }
            }
            proof {
                assert(self@.entries[best as int] == entry_view(self.entries@[best as int]));
            }
            let h = self.entries[best].0.clone();
            let ghost old_sel = sel;
            result.push(h);
            proof {
                sel = sel.push(best as int);
                assert forall|i: int, a: int|
                    0 <= i < n && !sel.contains(i) && 0 <= a < sel.len() implies #[trigger] precedes(
                    s,
                    sel[a],
                    i,
                ) by {
                    assert(!old_sel.contains(i)) by {
                        if old_sel.contains(i) {
                            let b = choose|b: int| 0 <= b < old_sel.len() && old_sel[b] == i;
                            assert(sel[b] == i);
                        }
                    }
                    if a == old_sel.len() {
                        assert(sel[old_sel.len() as int] == best as int);
                        assert(i != best);
                        if old_sel.len() > 0 {
                            assert(precedes(s, old_sel[old_sel.len() - 1], i));
                            assert(old_sel[old_sel.len() - 1] == last as int);
                        }
                        assert(is_candidate(s, have_last, last as int, i));
                    } else {
                        assert(sel[a] == old_sel[a]);
                    }
                }
                assert forall|a: int, b: int|
                    0 <= a < b < sel.len() implies precedes(s, #[trigger] sel[a], #[trigger] sel[b]) by {
                    if b == old_sel.len() {
                        assert(sel[a] == old_sel[a]);
                        assert(!old_sel.contains(best as int));
                    } else {
                        assert(sel[a] == old_sel[a] && sel[b] == old_sel[b]);
                    }
                }
                assert forall|k: int| 0 <= k < result@.len() implies (#[trigger] result@[k])@ == s[sel[k]].0 by {
                    if k < old_sel.len() {
                        assert(sel[k] == old_sel[k]);
                    }
                }
            }
            last = best;
        }
        proof {
            assert(is_top_selection(s, sel, result@.len() as int));
            assert forall|i: int, j: int| 0 <= i < j < result@.len() implies (#[trigger] result@[i])@
                != (#[trigger] result@[j])@ by {
                assert(precedes(s, sel[i], sel[j]));
                assert(sel[i] != sel[j]);
            }
            assert forall|k: int| 0 <= k < result@.len() implies pool_contains(
                s,
                (#[trigger] result@[k])@,
            ) by {
                assert(s[sel[k]].0 == result@[k]@);
            }
        }
        result
    }

    /// Hashes of the pooled transactions of `address`, in arrival order.
    pub fn get_transactions_by_sender(&self, address: &str) -> (r: Vec<String>)
        ensures
            r@.map_values(|h: String| h@) == sender_hashes(self@.entries, address@),
    {
        let ghost s = self@.entries;
        let key = address.to_owned();
        let mut result: Vec<String> = Vec::new();
        let n = self.entries.len();
        let mut i: usize = 0;
        while i < n
            invariant
                s == self@.entries,
                n == s.len(),
                i <= n,
                key@ == address@,
                result@.map_values(|h: String| h@) == sender_hashes(s.take(i as int), address@),
            decreases n - i,
        {
            proof {
                assert(s[i as int] == entry_view(self.entries@[i as int]));
                assert(s.take(i + 1).drop_last() =~= s.take(i as int));
                assert(s.take(i + 1).last() == s[i as int]);
            }
            if self.entries[i].1.block.account == key {
                let ghost before = result@;
                result.push(self.entries[i].0.clone());
                proof {
                    assert(result@.map_values(|h: String| h@) =~= before.map_values(|h: String| h@).push(
                        s[i as int].0,
                    ));
                }
            }
            i += 1;
        }
        proof {
            assert(s.take(n as int) =~= s);
        }
        result
    }

    /// Removes the transactions older than a day at `now_secs` and returns
    /// how many were removed; the expiry counter grows by that number.
    pub fn remove_expired_at(&mut self, now_secs: u64) -> (count: usize)
        requires
            old(self).wf(),
            old(self)@.total_expired + old(self)@.entries.len() - keep_fresh(
                old(self)@.entries,
                now_secs,
            ).len() <= u64::MAX,
        ensures
            final(self).wf(),
            final(self)@.entries == keep_fresh(old(self)@.entries, now_secs),
            count == old(self)@.entries.len() - final(self)@.entries.len(),
            final(self)@ == (MempoolView {
                entries: keep_fresh(old(self)@.entries, now_secs),
                total_expired: (old(self)@.total_expired + count) as u64,
                ..old(self)@
            }),
    {
        let ghost orig = self@.entries;
        let n = self.entries.len();
        let mut i: usize = 0;
        let mut j: usize = 0;
        proof {
            assert(orig.take(0) =~= Seq::<(Seq<char>, MempoolTransaction)>::empty());
            assert(self@.entries =~= keep_fresh(orig.take(0), now_secs) + orig.skip(0));
        }
        while j < n
            invariant
                self.wf(),
                n == orig.len(),
                j <= n,
                self@.entries == keep_fresh(orig.take(j as int), now_secs) + orig.skip(j as int),
                i == keep_fresh(orig.take(j as int), now_secs).len(),
                self@.total_expired == old(self)@.total_expired,
                self@.total_received == old(self)@.total_received,
                self@.total_accepted == old(self)@.total_accepted,
                self@.total_rejected == old(self)@.total_rejected,
            decreases n - j,
        {
            let ghost kf = keep_fresh(orig.take(j as int), now_secs);
            proof {
                assert(orig.take(j + 1).drop_last() =~= orig.take(j as int));
                assert(orig.take(j + 1).last() == orig[j as int]);
                assert(self@.entries[i as int] == orig[j as int]);
                assert(self@.entries[i as int] == entry_view(self.entries@[i as int]));
            }
            let received = self.entries[i].1.received_at;
            if now_secs.saturating_sub(received) > TX_EXPIRATION_SECS {
                let _ = self.remove_at(i);
                proof {
                    assert(self@.entries =~= kf + orig.skip(j + 1));
                }
            } else {
                i += 1;
                proof {
                    assert(self@.entries =~= kf.push(orig[j as int]) + orig.skip(j + 1));
                }
            }
            j += 1;
        }
        proof {
            assert(orig.take(n as int) =~= orig);
            assert(self@.entries =~= keep_fresh(orig, now_secs));
            lemma_keep_fresh_len(orig, now_secs);
        }
        let count = n - self.entries.len();
        self.total_expired = self.total_expired + count as u64;
        proof {
            assert(self@ =~= MempoolView {
                entries: keep_fresh(old(self)@.entries, now_secs),
                total_expired: (old(self)@.total_expired + count) as u64,
                ..old(self)@
            });
        }
        count
    }

    /// Removes the transactions that have expired by now (see
    /// `remove_expired_at`). Which transactions have expired depends on the
    /// clock reading, so the expiry counter is asked to have room for the
    /// whole pool.
    pub fn remove_expired(&mut self) -> (count: usize)
        requires
            old(self).wf(),
            old(self)@.total_expired + old(self)@.entries.len() <= u64::MAX,
        ensures
            final(self).wf(),
            exists|now: u64|
                #![trigger keep_fresh(old(self)@.entries, now)]
                final(self)@.entries == keep_fresh(old(self)@.entries, now),
            count == old(self)@.entries.len() - final(self)@.entries.len(),
            final(self)@.total_expired == old(self)@.total_expired + count,
            final(self)@.total_received == old(self)@.total_received,
            final(self)@.total_accepted == old(self)@.total_accepted,
            final(self)@.total_rejected == old(self)@.total_rejected,
    {
        let now = unix_time_millis() / 1000;
        proof {
            lemma_keep_fresh_len(self@.entries, now);
        }
        self.remove_expired_at(now)
    }

    /// Pool statistics: size, counters, and the number of distinct senders.
    pub fn stats(&self) -> (r: MempoolStats)
        ensures
            r.size == self@.entries.len(),
            r.total_received == self@.total_received,
            r.total_accepted == self@.total_accepted,
            r.total_rejected == self@.total_rejected,
            r.total_expired == self@.total_expired,
            r.unique_senders == distinct_senders(self@.entries),
    {
        let ghost s = self@.entries;
        let n = self.entries.len();
        let mut senders: usize = 0;
        let mut i: usize = 0;
        while i < n
            invariant
                s == self@.entries,
                n == s.len(),
                i <= n,
                senders == distinct_senders(s.take(i as int)),
                senders <= i,
            decreases n - i,
        {
            let mut seen = false;
            let mut j: usize = 0;
            proof {
                assert(s[i as int] == entry_view(self.entries@[i as int]));
            }
            while j < i
                invariant
                    s == self@.entries,
                    n == s.len(),
                    j <= i < n,
                    seen == exists|k: int| 0 <= k < j && sender_of(#[trigger] s[k].1) == sender_of(
                        s[i as int].1,
                    ),
                decreases i - j,
            {
                proof {
                    assert(s[j as int] == entry_view(self.entries@[j as int]));
                }
                if self.entries[j].1.block.account == self.entries[i].1.block.account {
                    proof {
                        assert(sender_of(s[j as int].1) == sender_of(s[i as int].1));
                    }
                    seen = true;
                } else {
                    proof {
                        assert(sender_of(s[j as int].1) != sender_of(s[i as int].1));
                    }
                }
                j += 1;
            }
            proof {
                let t = s.take(i + 1);
                assert(t.drop_last() =~= s.take(i as int));
                assert(t.last() == s[i as int]);
                if seen {
                    let k = choose|k: int| 0 <= k < i && sender_of(#[trigger] s[k].1) == sender_of(s[i as int].1);
                    assert(s.take(i as int)[k] == s[k]);
                } else {
                    if sender_seen(s.take(i as int), sender_of(s[i as int].1)) {
                        let k = choose|k: int| 0 <= k < i && sender_of(#[trigger] s.take(i as int)[k].1) == sender_of(s[i as int].1);
                        assert(s.take(i as int)[k] == s[k]);
                    }
                }
            }
            if !seen {
                senders = senders + 1;
            }
            i += 1;
        }
        proof {
            assert(s.take(n as int) =~= s);
        }
        MempoolStats {
            size: n,
            total_received: self.total_received,
            total_accepted: self.total_accepted,
            total_rejected: self.total_rejected,
            total_expired: self.total_expired,
            unique_senders: senders,
        }
    }
}

proof fn lemma_precedes_trans(s: PoolSeq, i: int, j: int, k: int)
    requires
        precedes(s, i, j),
        precedes(s, j, k),
    ensures
        precedes(s, i, k),
{
}

proof fn lemma_precedes_total(s: PoolSeq, i: int, j: int)
    requires
        i != j,
    ensures
        precedes(s, i, j) || precedes(s, j, i),
        !(precedes(s, i, j) && precedes(s, j, i)),
{
}

proof fn lemma_keep_fresh_len(s: PoolSeq, now: u64)
    ensures
        keep_fresh(s, now).len() <= s.len(),
    decreases s.len(),
{
    if s.len() > 0 {
        lemma_keep_fresh_len(s.drop_last(), now);
    }
}

/// The hand-out order is determined: two listings of the first `m` entries
/// are the same listing.
pub proof fn lemma_top_selection_unique(s: PoolSeq, sel1: Seq<int>, sel2: Seq<int>, m: int)
    requires
        is_top_selection(s, sel1, m),
        is_top_selection(s, sel2, m),
    ensures
        sel1 == sel2,
{
    assert forall|a: int| 0 <= a < m implies sel1[a] == sel2[a] by {
        lemma_top_selection_agree(s, sel1, sel2, m, a);
    }
    assert(sel1 =~= sel2);
}

proof fn lemma_top_selection_agree(s: PoolSeq, sel1: Seq<int>, sel2: Seq<int>, m: int, a: int)
    requires
        is_top_selection(s, sel1, m),
        is_top_selection(s, sel2, m),
        0 <= a < m,
    ensures
        sel1[a] == sel2[a],
    decreases a,
{
    if a > 0 {
        lemma_top_selection_agree(s, sel1, sel2, m, a - 1);
    }
    let x = sel1[a];
    let y = sel2[a];
    if x != y {
        // y comes before x in the first listing, or is missing from it
        assert(precedes(s, x, y)) by {
            if sel1.contains(y) {
                let b = choose|b: int| 0 <= b < m && sel1[b] == y;
                if b < a {
                    lemma_top_selection_prefix(s, sel1, sel2, m, b, a);
                    assert(sel2[b] == y);
                    assert(precedes(s, sel2[b], sel2[a]));
                    assert(!precedes(s, y, y));
                } else {
                    assert(b != a);
                    assert(precedes(s, sel1[a], sel1[b]));
                }
            } else {
                assert(precedes(s, sel1[a], y));
            }
        }
        assert(precedes(s, y, x)) by {
            if sel2.contains(x) {
                let b = choose|b: int| 0 <= b < m && sel2[b] == x;
                if b < a {
                    lemma_top_selection_prefix(s, sel1, sel2, m, b, a);
                    assert(sel1[b] == x);
                    assert(precedes(s, sel1[b], sel1[a]));
                    assert(!precedes(s, x, x));
                } else {
                    assert(b != a);
                    assert(precedes(s, sel2[a], sel2[b]));
                }
            } else {
                assert(precedes(s, sel2[a], x));
            }
        }
        lemma_precedes_total(s, x, y);
    }
}

proof fn lemma_top_selection_prefix(s: PoolSeq, sel1: Seq<int>, sel2: Seq<int>, m: int, b: int, a: int)
    requires
        is_top_selection(s, sel1, m),
        is_top_selection(s, sel2, m),
        0 <= b < a < m,
        forall|c: int| 0 <= c < a ==> sel1[c] == sel2[c],
    ensures
        sel1[b] == sel2[b],
{
}

/// The first transaction handed out has the highest priority in the pool.
pub proof fn lemma_first_is_highest(s: PoolSeq, sel: Seq<int>, m: int, i: int)
    requires
        is_top_selection(s, sel, m),
        m > 0,
        0 <= i < s.len(),
    ensures
        s[sel[0]].1.priority >= s[i].1.priority,
{
    if i != sel[0] {
        if sel.contains(i) {
            let b = choose|b: int| 0 <= b < m && sel[b] == i;
            assert(b != 0);
            assert(precedes(s, sel[0], sel[b]));
        } else {
            assert(precedes(s, sel[0], i));
        }
    }
}

/// Every received transaction is counted exactly once, as accepted or as
/// rejected.
pub proof fn lemma_add_counts(
    v: MempoolView,
    hash: Seq<char>,
    block: Block,
    fee: u64,
    priority: u64,
    now: u64,
)
    requires
        v.total_received == v.total_accepted + v.total_rejected,
        counters_open(v, hash, block, priority),
    ensures
        ({
            let w = after_add(v, hash, block, fee, priority, now);
            w.total_received == w.total_accepted + w.total_rejected
        }),
{
}

/// A transaction already pooled is refused and leaves the pool as it was
/// (apart from the counters).
pub proof fn lemma_duplicate_refused(
    v: MempoolView,
    hash: Seq<char>,
    block: Block,
    fee: u64,
    priority: u64,
    now: u64,
)
    requires
        pool_contains(v.entries, hash),
    ensures
        add_result(v, hash, block, priority) == Err::<Seq<char>, Seq<char>>(
            "Transaction already in mempool"@,
        ),
        add_entries(v, hash, block, fee, priority, now) == v.entries,
{
}

/// Once accepted, a transaction is pooled under its hash, and removing that
/// hash hands it back and restores the pool as the addition found it (after
/// any eviction the addition made).
pub proof fn lemma_add_then_remove(
    v: MempoolView,
    hash: Seq<char>,
    block: Block,
    fee: u64,
    priority: u64,
    now: u64,
)
    requires
        pool_wf(v.entries),
        add_result(v, hash, block, priority) is Ok,
    ensures
        ({
            let t = add_entries(v, hash, block, fee, priority, now);
            let base = if add_evicts(v, hash, priority) {
                v.entries.remove(eviction_index(v.entries))
            } else {
                v.entries
            };
            &&& pool_contains(t, hash)
            &&& pool_index(t, hash) == base.len()
            &&& t[pool_index(t, hash)].1 == (MempoolTransaction {
                block,
                received_at: now,
                priority,
                fee,
            })
            &&& t.remove(pool_index(t, hash)) == base
        }),
{
    let t = add_entries(v, hash, block, fee, priority, now);
    let base = if add_evicts(v, hash, priority) {
        v.entries.remove(eviction_index(v.entries))
    } else {
        v.entries
    };
    if add_evicts(v, hash, priority) {
        lemma_eviction_exists(v.entries);
    }
    let n = base.len() as int;
    assert(t[n].0 == hash);
    assert forall|j: int| 0 <= j < n implies t[j].0 != hash by {
        if add_evicts(v, hash, priority) {
            let k = eviction_index(v.entries);
            let sj = if j < k { j } else { j + 1 };
            assert(base[j] == v.entries[sj]);
        } else {
            assert(base[j] == v.entries[j]);
        }
        assert(t[j] == base[j]);
    }
    let p = pool_index(t, hash);
    assert(t[p].0 == hash);
    assert(t.remove(n) =~= base);
}

/// After expiry no remaining transaction is older than a day, and every
/// transaction that is not expired stays.
pub proof fn lemma_expiry_exact(s: PoolSeq, now: u64)
    ensures
        forall|k: int|
            0 <= k < keep_fresh(s, now).len() ==> !is_expired(#[trigger] keep_fresh(s, now)[k].1, now),
        forall|i: int|
            0 <= i < s.len() && !is_expired(s[i].1, now) ==> keep_fresh(s, now).contains(
                #[trigger] s[i],
            ),
    decreases s.len(),
{
    if s.len() > 0 {
        let p = s.drop_last();
        lemma_expiry_exact(p, now);
        let r = keep_fresh(p, now);
        assert forall|i: int| 0 <= i < s.len() && !is_expired(s[i].1, now) implies keep_fresh(
            s,
            now,
        ).contains(#[trigger] s[i]) by {
            if i < s.len() - 1 {
                assert(p[i] == s[i]);
                assert(r.contains(p[i]));
                let k = choose|k: int| 0 <= k < r.len() && r[k] == p[i];
                if !is_expired(s.last().1, now) {
                    assert(keep_fresh(s, now)[k] == r[k]);
                }
            } else {
                assert(keep_fresh(s, now)[r.len() as int] == s[i]);
            }
        }
    }
}

/// The number of distinct senders never exceeds the number of transactions.
pub proof fn lemma_senders_bounded(s: PoolSeq)
    ensures
        distinct_senders(s) <= s.len(),
    decreases s.len(),
{
    if s.len() > 0 {
        lemma_senders_bounded(s.drop_last());
    }
}

/// Adding a transaction keeps the pool valid: hashes stay unique and the
/// pool never exceeds `MAX_MEMPOOL_SIZE`. A full pool that accepts a
/// newcomer has evicted exactly one transaction for it, the earliest of those
/// of lowest priority, whose priority is below the newcomer's, and stays
/// full.
pub proof fn lemma_add_keeps_pool_valid(
    v: MempoolView,
    hash: Seq<char>,
    block: Block,
    fee: u64,
    priority: u64,
    now: u64,
)
    requires
        pool_wf(v.entries),
    ensures
        pool_wf(add_entries(v, hash, block, fee, priority, now)),
        add_result(v, hash, block, priority) is Ok && v.entries.len() == MAX_MEMPOOL_SIZE ==> {
            &&& add_evicts(v, hash, priority)
            &&& is_eviction_index(v.entries, eviction_index(v.entries))
            &&& lowest_priority(v.entries) < priority
            &&& add_entries(v, hash, block, fee, priority, now) == v.entries.remove(
                eviction_index(v.entries),
            ).push((hash, MempoolTransaction { block, received_at: now, priority, fee }))
            &&& add_entries(v, hash, block, fee, priority, now).len() == MAX_MEMPOOL_SIZE
        },
{
    let s = v.entries;
    let evicts = add_evicts(v, hash, priority);
    if evicts {
        lemma_eviction_exists(s);
        lemma_remove_keeps_unique(s, eviction_index(s));
    }
    let base = if evicts {
        s.remove(eviction_index(s))
    } else {
        s
    };
    if add_result(v, hash, block, priority) is Ok {
        let x = (hash, MempoolTransaction { block, received_at: now, priority, fee });
        let t = base.push(x);
        assert forall|a: int| 0 <= a < base.len() implies base[a].0 != hash by {
            if evicts {
                let k = eviction_index(s);
                let sa = if a < k { a } else { a + 1 };
                assert(base[a] == s[sa]);
            } else {
                assert(base[a] == s[a]);
            }
        }
        assert(hashes_unique(t)) by {
            assert forall|a: int, b: int|
                0 <= a < t.len() && 0 <= b < t.len() && a != b implies t[a].0 != t[b].0 by {
                if a == base.len() {
                    assert(t[b] == base[b]);
                } else if b == base.len() {
                    assert(t[a] == base[a]);
                } else {
                    assert(t[a] == base[a] && t[b] == base[b]);
                }
            }
        }
        assert(t.len() <= MAX_MEMPOOL_SIZE);
    }
}

/// A pool with room accepts any new, well-formed transaction and appends it.
pub proof fn lemma_room_accepts(
    v: MempoolView,
    hash: Seq<char>,
    block: Block,
    fee: u64,
    priority: u64,
    now: u64,
)
    requires
        v.entries.len() < MAX_MEMPOOL_SIZE,
        forall|i: int| 0 <= i < v.entries.len() ==> (#[trigger] v.entries[i]).0 != hash,
        block.account@.len() > 0,
        block.signature@.len() > 0,
    ensures
        add_result(v, hash, block, priority) == Ok::<Seq<char>, Seq<char>>(hash),
        add_entries(v, hash, block, fee, priority, now) == v.entries.push(
            (hash, MempoolTransaction { block, received_at: now, priority, fee }),
        ),
{
}

/// A full pool accepts a new, well-formed transaction whose priority exceeds
/// that of some pooled transaction, evicting exactly one: of the lowest
/// priority, the earliest to arrive among those; the pool stays full.
pub proof fn lemma_full_pool_evicts_for_higher_priority(
    v: MempoolView,
    hash: Seq<char>,
    block: Block,
    fee: u64,
    priority: u64,
    now: u64,
    lower: int,
)
    requires
        pool_wf(v.entries),
        v.entries.len() == MAX_MEMPOOL_SIZE,
        forall|i: int| 0 <= i < v.entries.len() ==> (#[trigger] v.entries[i]).0 != hash,
        block.account@.len() > 0,
        block.signature@.len() > 0,
        0 <= lower < v.entries.len(),
        v.entries[lower].1.priority < priority,
    ensures
        add_result(v, hash, block, priority) == Ok::<Seq<char>, Seq<char>>(hash),
        ({
            let k = eviction_index(v.entries);
            &&& 0 <= k < v.entries.len()
            &&& forall|j: int|
                0 <= j < v.entries.len() ==> v.entries[k].1.priority <= (#[trigger] v.entries[j]).1.priority
            &&& forall|j: int| 0 <= j < k ==> (#[trigger] v.entries[j]).1.priority > v.entries[k].1.priority
            &&& v.entries[k].1.priority < priority
            &&& add_entries(v, hash, block, fee, priority, now) == v.entries.remove(k).push(
                (hash, MempoolTransaction { block, received_at: now, priority, fee }),
            )
        }),
        add_entries(v, hash, block, fee, priority, now).len() == MAX_MEMPOOL_SIZE,
{
    lemma_eviction_exists(v.entries);
    let k = eviction_index(v.entries);
    assert(v.entries[k].1.priority <= v.entries[lower].1.priority);
    assert(!pool_contains(v.entries, hash));
    lemma_add_keeps_pool_valid(v, hash, block, fee, priority, now);
}

/// A full pool refuses a newcomer whose priority does not exceed that of
/// every pooled transaction, and evicts nothing for it; a malformed block
/// (empty account or signature) is never pooled.
pub proof fn lemma_full_pool_refuses_low_priority(
    v: MempoolView,
    hash: Seq<char>,
    block: Block,
    fee: u64,
    priority: u64,
    now: u64,
)
    requires
        pool_wf(v.entries),
        forall|i: int| 0 <= i < v.entries.len() ==> (#[trigger] v.entries[i]).0 != hash,
    ensures
        v.entries.len() == MAX_MEMPOOL_SIZE && (forall|i: int|
            0 <= i < v.entries.len() ==> (#[trigger] v.entries[i]).1.priority >= priority) ==> {
            &&& add_result(v, hash, block, priority) is Err
            &&& add_entries(v, hash, block, fee, priority, now) == v.entries
        },
        block.account@.len() == 0 || block.signature@.len() == 0 ==> add_result(
            v,
            hash,
            block,
            priority,
        ) is Err,
{
    assert(!pool_contains(v.entries, hash));
    if v.entries.len() == MAX_MEMPOOL_SIZE {
        lemma_eviction_exists(v.entries);
    }
}

} // verus!
