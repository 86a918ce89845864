//! The watcher that notices a ledger no longer growing and falls back to
//! fetching the state over REST: every two minutes it compares the block
//! count with the last one it saw; after two unchanged ticks it tries a REST
//! sync, at most once per minute and only when peers are known.
use vstd::prelude::*;

verus! {

/// Unchanged ticks (two minutes each) before a REST sync is tried.
pub const STALE_TICKS_BEFORE_SYNC: u32 = 2;

/// Least number of seconds between two REST sync attempts.
pub const REST_SYNC_SPACING_SECS: u64 = 60;

/// What the watcher remembers between ticks.
#[derive(Clone, Copy, Debug)]
pub struct StaleWatch {
    /// Block count seen at the last change.
    pub last_block_count: usize,
    /// Ticks since the block count last changed.
    pub stale_ticks: u32,
    /// When a REST sync was last tried, in seconds (0: never).
    pub last_rest_sync_secs: u64,
}

/// The watcher after a tick at `now` that saw `current_blocks` blocks, with
/// `have_peers` telling whether any peer endpoint is known, and whether a
/// REST sync is to be tried now.
pub open spec fn watch_step(w: StaleWatch, current_blocks: usize, now: u64, have_peers: bool) -> (
    StaleWatch,
    bool,
) {
    let counted = if current_blocks == w.last_block_count {
        StaleWatch { stale_ticks: (w.stale_ticks + 1) as u32, ..w }
    } else {
        StaleWatch { stale_ticks: 0, last_block_count: current_blocks, ..w }
    };
    let since = if now >= w.last_rest_sync_secs {
        now - w.last_rest_sync_secs
    } else {
        0
    };
    if counted.stale_ticks < STALE_TICKS_BEFORE_SYNC || since < REST_SYNC_SPACING_SECS || !have_peers {
        (counted, false)
    } else {
        (StaleWatch { last_rest_sync_secs: now, ..counted }, true)
    }
}

impl StaleWatch {
    /// A watcher that has seen no block and never synced.
    pub fn new() -> (r: Self)
        ensures
            r == (StaleWatch { last_block_count: 0, stale_ticks: 0, last_rest_sync_secs: 0 }),
    {
        StaleWatch { last_block_count: 0, stale_ticks: 0, last_rest_sync_secs: 0 }
    }

    /// One tick of the watcher (see `watch_step`); returns whether to try a
    /// REST sync now.
    pub fn on_tick(&mut self, current_blocks: usize, now: u64, have_peers: bool) -> (sync: bool)
        requires
            old(self).stale_ticks < u32::MAX,
        ensures
            (*final(self), sync) == watch_step(*old(self), current_blocks, now, have_peers),
    {
        if current_blocks == self.last_block_count {
            self.stale_ticks = self.stale_ticks + 1;
        } else {
            self.stale_ticks = 0;
            self.last_block_count = current_blocks;
        }
        if self.stale_ticks < STALE_TICKS_BEFORE_SYNC {
            return false;
        }
        if now.saturating_sub(self.last_rest_sync_secs) < REST_SYNC_SPACING_SECS {
            return false;
        }
        if !have_peers {
            return false;
        }
        self.last_rest_sync_secs = now;
        true
    }
}

/// The watcher after ticks `ticks` (block count, time, peers known), and
/// which of them tried a REST sync.
pub open spec fn watch_run(w: StaleWatch, ticks: Seq<(usize, u64, bool)>) -> (StaleWatch, Seq<bool>)
    decreases ticks.len(),
{
    if ticks.len() == 0 {
        (w, Seq::empty())
    } else {
        let p = watch_run(w, ticks.drop_last());
        let t = ticks.last();
        let q = watch_step(p.0, t.0, t.1, t.2);
        (q.0, p.1.push(q.1))
    }
}

proof fn lemma_watch_run(w: StaleWatch, ticks: Seq<(usize, u64, bool)>)
    ensures
        ({
            let p = watch_run(w, ticks);
            &&& p.1.len() == ticks.len()
            &&& p.0.last_rest_sync_secs >= w.last_rest_sync_secs
            &&& forall|i: int|
                0 <= i < ticks.len() && #[trigger] p.1[i] ==> ticks[i].1 >= w.last_rest_sync_secs
                    + REST_SYNC_SPACING_SECS && p.0.last_rest_sync_secs >= ticks[i].1
            &&& forall|i: int, j: int|
                0 <= i < j < ticks.len() && #[trigger] p.1[i] && #[trigger] p.1[j] ==> ticks[j].1
                    >= ticks[i].1 + REST_SYNC_SPACING_SECS
        }),
    decreases ticks.len(),
{
    if ticks.len() > 0 {
        let q = ticks.drop_last();
        lemma_watch_run(w, q);
        let p = watch_run(w, q);
        let t = ticks.last();
        let n = ticks.len() - 1;
        let r = watch_run(w, ticks);
        assert(r.1 == p.1.push(watch_step(p.0, t.0, t.1, t.2).1));
        assert forall|i: int| 0 <= i < n implies #[trigger] ticks[i] == q[i] && r.1[i] == p.1[i] by {}
        assert(ticks[n] == t);
    }
}

/// REST sync attempts are spaced: over any run of ticks, two ticks that both
/// try a sync are at least `REST_SYNC_SPACING_SECS` seconds apart, and the
/// first is that far from the last attempt before the run.
pub proof fn lemma_rest_sync_spacing(w: StaleWatch, ticks: Seq<(usize, u64, bool)>, i: int, j: int)
    requires
        0 <= i < j < ticks.len(),
        watch_run(w, ticks).1[i],
        watch_run(w, ticks).1[j],
    ensures
        ticks[j].1 >= ticks[i].1 + REST_SYNC_SPACING_SECS,
        ticks[i].1 >= w.last_rest_sync_secs + REST_SYNC_SPACING_SECS,
{
    lemma_watch_run(w, ticks);
}

} // verus!
