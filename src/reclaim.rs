//! The reclaim decisions: when a cgroup's cache is over its threshold, when
//! its cooldown has passed, how each poll updates its history, which
//! histories are dropped, and how long a cycle waits.
//!
//! Timestamps are milliseconds on a monotonic clock.
use vstd::prelude::*;

use crate::config::{PER_PERCENT, Threshold};
use crate::stats::MemoryStats;

verus! {

/// What is remembered of one cgroup between polls.
#[derive(Clone, Copy, Debug, PartialEq, Eq, Structural)]
pub struct ReclaimState {
    /// The latest poll in which the cgroup was found.
    pub last_seen: Option<u64>,
    /// The latest reclaim that was triggered successfully.
    pub last_reclaimed: Option<u64>,
    /// The latest failure, while failures go on; `None` after a success.
    pub last_error: Option<u64>,
}

impl ReclaimState {
    /// The history of a cgroup that was just discovered.
    pub fn new() -> (r: ReclaimState)
        ensures
            r == ReclaimState::empty(),
    {
        ReclaimState { last_seen: None, last_reclaimed: None, last_error: None }
    }

    pub open spec fn empty() -> ReclaimState {
        ReclaimState { last_seen: None, last_reclaimed: None, last_error: None }
    }

    /// Seen at `now`, with its last step a success.
    pub open spec fn succeeded(self, now: u64) -> ReclaimState {
        ReclaimState { last_seen: Some(now), last_error: None, ..self }
    }

    /// Seen at `now`, with its last step a failure.
    pub open spec fn failed(self, now: u64) -> ReclaimState {
        ReclaimState { last_seen: Some(now), last_error: Some(now), ..self }
    }

    /// Whether the history survives a prune anchored at `start`: the cgroup
    /// was seen at or after that instant.
    pub open spec fn is_current(self, start: u64) -> bool {
        match self.last_seen {
            Some(t) => t >= start,
            None => false,
        }
    }
}

/// What the poll loop learned about one cgroup.
#[derive(Clone, Copy, Debug, PartialEq, Eq, Structural)]
pub enum CgroupEvent {
    /// Its accounting files were read.
    Stats(MemoryStats),
    /// Its accounting files could not be read.
    StatsFailed,
    /// The reclaim control file was written.
    Triggered,
    /// The reclaim control file could not be written.
    TriggerFailed,
}

/// What the poll loop does next for one cgroup.
#[derive(Clone, Copy, Debug, PartialEq, Eq, Structural)]
pub enum CgroupAction {
    /// Write the reclaim control file, then report how that went.
    Trigger,
    /// Reclaim went through: read the files again for a before/after report
    /// (a failure there is not recorded).
    Report,
    /// Nothing more to do this poll.
    Idle,
    /// The failure was recorded; `warn` is set on the first of a run of
    /// failures only.
    Failed { warn: bool },
}

/// One entry of the per-cgroup table.
pub struct CgroupEntry {
    pub path: String,
    pub state: ReclaimState,
}

/// The history of every cgroup seen recently, keyed by path.
pub struct CgroupStates {
    entries: Vec<CgroupEntry>,
}

/// Position of the first entry with key `k`, or the length where none has it.
pub open spec fn find(s: Seq<(Seq<char>, ReclaimState)>, k: Seq<char>) -> nat
    decreases s.len(),
{
    if s.len() == 0 || s[0].0 == k {
        0
    } else {
        1 + find(s.drop_first(), k)
    }
}

/// The history kept under `k`, if any.
pub open spec fn lookup(s: Seq<(Seq<char>, ReclaimState)>, k: Seq<char>) -> Option<ReclaimState> {
    let i = find(s, k);
    if i < s.len() {
        Some(s[i as int].1)
    } else {
        None
    }
}

/// The table with `v` kept under `k`: the entry of `k` is replaced, or a new
/// one is added at the end.
pub open spec fn put(s: Seq<(Seq<char>, ReclaimState)>, k: Seq<char>, v: ReclaimState) -> Seq<
    (Seq<char>, ReclaimState),
> {
    let i = find(s, k);
    if i < s.len() {
        s.update(i as int, (k, v))
    } else {
        s.push((k, v))
    }
}

proof fn lemma_find_bound(s: Seq<(Seq<char>, ReclaimState)>, k: Seq<char>)
    ensures
        find(s, k) <= s.len(),
        find(s, k) < s.len() ==> s[find(s, k) as int].0 == k,
    decreases s.len(),
{
    if s.len() > 0 && s[0].0 != k {
        lemma_find_bound(s.drop_first(), k);
    }
}

/// Each entry as its path and history.
pub open spec fn entries_view(v: Seq<CgroupEntry>) -> Seq<(Seq<char>, ReclaimState)> {
    Seq::new(v.len(), |i: int| (v[i].path@, v[i].state))
}

impl CgroupStates {
    pub closed spec fn view(&self) -> Seq<(Seq<char>, ReclaimState)> {
        entries_view(self.entries@)
    }

    /// An empty table.
    pub fn new() -> (r: CgroupStates)
        ensures
            r@ == Seq::<(Seq<char>, ReclaimState)>::empty(),
    {
        let r = CgroupStates { entries: Vec::new() };
        assert(r@ =~= Seq::<(Seq<char>, ReclaimState)>::empty());
        r
    }

    /// Number of cgroups in the table.
    pub fn len(&self) -> (r: usize)
        ensures
            r == self@.len(),
    {
        self.entries.len()
    }

    /// Position of the entry of `path`, or the length where none has it.
    fn position(&self, path: &str) -> (r: usize)
        ensures
            r == find(self@, path@),
    {
        let key = path.to_owned();
        let n = self.entries.len();
        let mut i: usize = 0;
        assert(self@.subrange(0, n as int) =~= self@);
        while i < n
            invariant
                i <= n == self@.len(),
                key@ == path@,
                find(self@, path@) == i + find(self@.subrange(i as int, n as int), path@),
            decreases n - i,
        {
            assert(self@[i as int].0 == self.entries@[i as int].path@);
            if self.entries[i].path == key {
                return i;
            }
            assert(self@.subrange(i as int, n as int).drop_first() =~= self@.subrange(
                i + 1,
                n as int,
            ));
            i = i + 1;
        }
        i
    }

    /// Whether the table holds `path`.
    pub fn contains_key(&self, path: &str) -> (r: bool)
        ensures
            r == lookup(self@, path@) is Some,
    {
        let i = self.position(path);
        i < self.entries.len()
    }

    /// The history kept under `path`, if any.
    pub fn get(&self, path: &str) -> (r: Option<ReclaimState>)
        ensures
            r == lookup(self@, path@),
    {
        let i = self.position(path);
        if i < self.entries.len() {
            Some(self.entries[i].state)
        } else {
            None
        }
    }

    /// Keeps `state` under `path`, replacing what was there.
    pub fn insert(&mut self, path: &str, state: ReclaimState)
        ensures
            final(self)@ == put(old(self)@, path@, state),
    {
        let i = self.position(path);
        proof {
            lemma_find_bound(old(self)@, path@);
        }
        if i < self.entries.len() {
            self.entries.set(i, CgroupEntry { path: path.to_owned(), state });
            assert(self@ =~= old(self)@.update(i as int, (path@, state)));
        } else {
            self.entries.push(CgroupEntry { path: path.to_owned(), state });
            assert(self@ =~= old(self)@.push((path@, state)));
        }
    }
}

/// Whole seconds from `from` to `to`; zero when `to` is earlier.
pub open spec fn elapsed_secs(from: u64, to: u64) -> int {
    if to >= from {
        (to - from) / 1000
    } else {
        0
    }
}

/// The poll loop's configuration.
pub struct ReclaimLoop {
    /// Directory under which the leaf cgroups are watched.
    pub parent: String,
    pub threshold: Threshold,
    /// Seconds between the starts of two polls.
    pub interval: u64,
    /// Seconds that must pass after a reclaim before the next one.
    pub cooldown: u64,
}

/// What the poll loop does once a cycle is over.
#[derive(Clone, Copy, Debug, PartialEq, Eq, Structural)]
pub enum CycleAction {
    /// Sleep this many milliseconds before the next cycle.
    Sleep(u128),
    /// The cycle took longer than the interval: start the next one at once.
    Overrun,
}

impl ReclaimLoop {
    /// Whether the cache in `stats` is at or above the threshold. A share of
    /// the limit never applies where the limit is zero (unknown).
    pub open spec fn needs_spec(&self, stats: MemoryStats) -> bool {
        match self.threshold {
            Threshold::Bytes(b) => stats.cache >= b,
            Threshold::Percent(p) => stats.limit > 0 && stats.cache as int * 100 * PER_PERCENT
                >= stats.limit as int * p,
        }
    }

    /// Whether no reclaim happened, or more whole seconds than the cooldown
    /// have passed since the last one.
    pub open spec fn cooled_down(&self, state: ReclaimState, now: u64) -> bool {
        match state.last_reclaimed {
            Some(t) => elapsed_secs(t, now) > self.cooldown,
            None => true,
        }
    }

    pub open spec fn can_spec(&self, stats: MemoryStats, state: ReclaimState, now: u64) -> bool {
        self.needs_spec(stats) && self.cooled_down(state, now)
    }

    /// The next history of a cgroup, and what to do, after `event` at `now`.
    pub open spec fn transition(&self, state: ReclaimState, event: CgroupEvent, now: u64) -> (
        ReclaimState,
        CgroupAction,
    ) {
        match event {
            CgroupEvent::Stats(stats) => if self.can_spec(stats, state, now) {
                (state, CgroupAction::Trigger)
            } else {
                (state.succeeded(now), CgroupAction::Idle)
            },
            CgroupEvent::Triggered => (
                ReclaimState { last_reclaimed: Some(now), ..state }.succeeded(now),
                CgroupAction::Report,
            ),
            _ => (state.failed(now), CgroupAction::Failed { warn: state.last_error is None }),
        }
    }

    /// A share-of-limit threshold never asks for reclaim while the limit is
    /// zero, whatever the cache holds.
    pub proof fn lemma_zero_limit_never_needs(&self, stats: MemoryStats)
        requires
            self.threshold is Percent,
            stats.limit == 0,
        ensures
            !self.needs_spec(stats),
    {
    }

    /// Once the threshold is reached, a cgroup reclaimed at `t` may be
    /// reclaimed again at `now` exactly when more whole seconds than the
    /// cooldown lie between them; and once that holds it holds at every
    /// later instant too.
    pub proof fn lemma_cooldown_window(
        &self,
        stats: MemoryStats,
        state: ReclaimState,
        t: u64,
        now: u64,
        later: u64,
    )
        requires
            self.needs_spec(stats),
            state.last_reclaimed == Some(t),
            t <= now <= later,
        ensures
            self.can_spec(stats, state, now) <==> (now - t) / 1000 > self.cooldown,
            self.can_spec(stats, state, now) ==> self.can_spec(stats, state, later),
    {
        assert((now - t) / 1000 <= (later - t) / 1000) by (nonlinear_arith)
            requires
                t <= now <= later,
        ;
    }

    /// Whether the cache in `stats` is at or above the threshold.
    pub fn needs_to_be_reclaimed(&self, stats: &MemoryStats) -> (r: bool)
        ensures
            r == self.needs_spec(*stats),
    {
        match self.threshold {
            Threshold::Bytes(b) => stats.cache >= b,
            Threshold::Percent(p) => {
                assert(stats.cache as u128 * 100 * PER_PERCENT as u128 <= u64::MAX as u128
                    * 1_000_000) by (nonlinear_arith)
                    requires
                        stats.cache <= u64::MAX,
                ;
                assert(stats.limit as u128 * p as u128 <= u64::MAX as u128 * u64::MAX as u128)
                    by (nonlinear_arith)
                    requires
                        stats.limit <= u64::MAX,
                        p <= u64::MAX,
                ;
                stats.limit > 0 && stats.cache as u128 * 100 * PER_PERCENT as u128
                    >= stats.limit as u128 * p as u128
            },
        }
    }

    /// Whether a reclaim is due at `now`: the threshold is reached and the
    /// cooldown since the last reclaim has passed.
    pub fn can_be_reclaimed(&self, stats: &MemoryStats, state: &ReclaimState, now: u64) -> (r:
        bool)
        ensures
            r == self.can_spec(*stats, *state, now),
    {
        if self.needs_to_be_reclaimed(stats) {
            match state.last_reclaimed {
                Some(t) => {
                    let secs = if now >= t {
                        (now - t) / 1000
                    } else {
                        0
                    };
                    secs > self.cooldown
                },
                None => true,
            }
        } else {
            false
        }
    }

    /// Records `event` for the cgroup at `path`, whose history is created on
    /// first sight, and says what to do next.
    pub fn on_event(&self, states: &mut CgroupStates, path: &str, event: CgroupEvent, now: u64) -> (r:
        CgroupAction)
        ensures
            ({
                let prior = match lookup(old(states)@, path@) {
                    Some(s) => s,
                    None => ReclaimState::empty(),
                };
                let (next, action) = self.transition(prior, event, now);
                r == action && final(states)@ == put(old(states)@, path@, next)
            }),
    {
        let prior = match states.get(path) {
            Some(s) => s,
            None => ReclaimState::new(),
        };
        let (next, action) = match event {
            CgroupEvent::Stats(stats) => {
                if self.can_be_reclaimed(&stats, &prior, now) {
                    (prior, CgroupAction::Trigger)
                } else {
                    (
                        ReclaimState { last_seen: Some(now), last_error: None, ..prior },
                        CgroupAction::Idle,
                    )
                }
            },
            CgroupEvent::Triggered => (
                ReclaimState {
                    last_seen: Some(now),
                    last_reclaimed: Some(now),
                    last_error: None,
                },
                CgroupAction::Report,
            ),
            _ => (
                ReclaimState { last_seen: Some(now), last_error: Some(now), ..prior },
                CgroupAction::Failed { warn: prior.last_error.is_none() },
            ),
        };
        states.insert(path, next);
        action
    }

    /// Drops the history of every cgroup not seen since `start`, the instant
    /// the current poll began, and returns the paths that were dropped.
    pub fn cleanup(&self, start: u64, states: &mut CgroupStates) -> (removed: Vec<String>)
        ensures
            final(states)@ == old(states)@.filter(
                |e: (Seq<char>, ReclaimState)| e.1.is_current(start),
            ),
            removed@.map_values(|p: String| p@) == old(states)@.filter(
                |e: (Seq<char>, ReclaimState)| !e.1.is_current(start),
            ).map_values(|e: (Seq<char>, ReclaimState)| e.0),
    {
        let ghost keep = |e: (Seq<char>, ReclaimState)| e.1.is_current(start);
        let ghost drop = |e: (Seq<char>, ReclaimState)| !e.1.is_current(start);
        let ghost old_view = states@;
        let n = states.entries.len();
        let mut kept: Vec<CgroupEntry> = Vec::new();
        let mut removed: Vec<String> = Vec::new();
        let mut i: usize = 0;
        while i < n
            invariant
                i <= n == states.entries@.len(),
                old_view == states@,
                keep == (|e: (Seq<char>, ReclaimState)| e.1.is_current(start)),
                drop == (|e: (Seq<char>, ReclaimState)| !e.1.is_current(start)),
                entries_view(kept@) == old_view.subrange(0, i as int).filter(keep),
                removed@.map_values(|p: String| p@) == old_view.subrange(0, i as int).filter(
                    drop,
                ).map_values(|e: (Seq<char>, ReclaimState)| e.0),
            decreases n - i,
        {
            reveal(Seq::filter);
            let ghost pre = old_view.subrange(0, i as int);
            assert(old_view.subrange(0, i + 1).drop_last() =~= pre);
            let ghost e = old_view[i as int];
            assert(old_view.subrange(0, i + 1).last() == e);
            let path = states.entries[i].path.clone();
            let state = states.entries[i].state;
            let current = match state.last_seen {
                Some(t) => t >= start,
                None => false,
            };
            assert(e == (path@, state));
            assert(keep(e) == current);
            assert(drop(e) == !current);
            if current {
                let ghost kv = entries_view(kept@);
                kept.push(CgroupEntry { path, state });
                assert(entries_view(kept@) =~= kv.push(e));
                assert(removed@.map_values(|p: String| p@) =~= old_view.subrange(
                    0,
                    i + 1,
                ).filter(drop).map_values(|e: (Seq<char>, ReclaimState)| e.0));
            } else {
                let ghost rv = removed@.map_values(|p: String| p@);
                removed.push(path);
                assert(removed@.map_values(|p: String| p@) =~= rv.push(e.0));
                assert(old_view.subrange(0, i + 1).filter(drop) == pre.filter(drop).push(e));
                assert(pre.filter(drop).push(e).map_values(
                    |e: (Seq<char>, ReclaimState)| e.0,
                ) =~= pre.filter(drop).map_values(|e: (Seq<char>, ReclaimState)| e.0).push(
                    e.0,
                ));
            }
            i = i + 1;
        }
        assert(old_view.subrange(0, n as int) =~= old_view);
        states.entries = kept;
        removed
    }

    /// What to do once a cycle that took `elapsed_ms` milliseconds is over:
    /// sleep for the rest of the interval, or report an overrun.
    pub fn next_cycle(&self, elapsed_ms: u128) -> (r: CycleAction)
        ensures
            elapsed_ms > self.interval * 1000 ==> r == CycleAction::Overrun,
            elapsed_ms <= self.interval * 1000 ==> r == CycleAction::Sleep(
                (self.interval * 1000 - elapsed_ms) as u128,
            ),
    {
        let interval_ms = self.interval as u128 * 1000;
        if elapsed_ms > interval_ms {
            CycleAction::Overrun
        } else {
            CycleAction::Sleep(interval_ms - elapsed_ms)
        }
    }
}

} // verus!
