use memreclaim::config::Threshold;
use memreclaim::reclaim::{
    CgroupAction, CgroupEvent, CgroupStates, CycleAction, ReclaimLoop, ReclaimState,
};
use memreclaim::stats::MemoryStats;

fn reclaim_loop(threshold: Threshold, cooldown: u64) -> ReclaimLoop {
    ReclaimLoop { parent: String::new(), interval: 10, cooldown, threshold }
}

fn stats(cache: u64, limit: u64) -> MemoryStats {
    MemoryStats { limit, cache, rss: 0 }
}

#[test]
fn test_reclaim_loop_cleanup() {
    let reclaim_loop = ReclaimLoop {
        parent: String::new(),
        interval: 0,
        cooldown: 0,
        threshold: Threshold::Bytes(0),
    };

    let second = 1000u64;
    let now = 50_000u64;
    let before = now - second;
    let after = now + second;
    let mut states = CgroupStates::new();

    states.insert("never", ReclaimState {
        last_seen: None, last_reclaimed: None, last_error: None });
    states.insert("before", ReclaimState {
        last_seen: Some(before), last_reclaimed: None, last_error: None });
    states.insert("after", ReclaimState {
        last_seen: Some(after), last_reclaimed: None, last_error: None });

    let removed = reclaim_loop.cleanup(now, &mut states);

    assert!(!states.contains_key("never"));
    assert!(!states.contains_key("before"));
    assert!(states.contains_key("after"));
    assert_eq!(removed, vec!["never".to_string(), "before".to_string()]);
    assert_eq!(states.len(), 1);
}

#[test]
fn percent_threshold_ignores_zero_limit() {
    let l = reclaim_loop(Threshold::Percent(25 * 10_000), 30);
    assert!(!l.needs_to_be_reclaimed(&stats(0, 0)));
    assert!(!l.needs_to_be_reclaimed(&stats(u64::MAX, 0)));
    assert!(l.needs_to_be_reclaimed(&stats(25, 100)));
    assert!(!l.needs_to_be_reclaimed(&stats(24, 100)));
}

#[test]
fn byte_threshold_is_inclusive() {
    let l = reclaim_loop(Threshold::Bytes(1000), 30);
    assert!(l.needs_to_be_reclaimed(&stats(1000, 0)));
    assert!(!l.needs_to_be_reclaimed(&stats(999, 0)));
}

#[test]
fn cooldown_must_be_exceeded() {
    let l = reclaim_loop(Threshold::Bytes(1000), 30);
    let s = stats(5000, 0);
    let state = ReclaimState { last_seen: None, last_reclaimed: Some(10_000), last_error: None };
    assert!(!l.can_be_reclaimed(&s, &state, 10_000));
    assert!(!l.can_be_reclaimed(&s, &state, 40_000));
    assert!(!l.can_be_reclaimed(&s, &state, 40_999));
    assert!(l.can_be_reclaimed(&s, &state, 41_000));
    assert!(!l.can_be_reclaimed(&stats(10, 0), &state, 41_000));
    assert!(l.can_be_reclaimed(&s, &ReclaimState::new(), 0));
}

#[test]
fn end_to_end_reclaim_then_cooldown() {
    let l = reclaim_loop(Threshold::Percent(25 * 10_000), 30);
    let mut states = CgroupStates::new();
    let s = stats(30_000_000, 100_000_000);
    let t0 = 1_000_000u64;
    assert_eq!(l.on_event(&mut states, "/cg/a", CgroupEvent::Stats(s), t0), CgroupAction::Trigger);
    assert_eq!(l.on_event(&mut states, "/cg/a", CgroupEvent::Triggered, t0), CgroupAction::Report);
    let st = states.get("/cg/a").unwrap();
    assert_eq!(st.last_reclaimed, Some(t0));
    assert_eq!(st.last_seen, Some(t0));
    let t1 = t0 + 1000;
    assert_eq!(l.on_event(&mut states, "/cg/a", CgroupEvent::Stats(s), t1), CgroupAction::Idle);
    let st = states.get("/cg/a").unwrap();
    assert_eq!(st.last_reclaimed, Some(t0));
    assert_eq!(st.last_seen, Some(t1));
}

#[test]
fn failures_warn_once_per_onset() {
    let l = reclaim_loop(Threshold::Bytes(1000), 30);
    let mut states = CgroupStates::new();
    assert_eq!(l.on_event(&mut states, "x", CgroupEvent::StatsFailed, 1), CgroupAction::Failed { warn: true });
    assert_eq!(l.on_event(&mut states, "x", CgroupEvent::StatsFailed, 2), CgroupAction::Failed { warn: false });
    assert_eq!(states.get("x").unwrap().last_error, Some(2));
    assert_eq!(l.on_event(&mut states, "x", CgroupEvent::Stats(stats(1, 0)), 3), CgroupAction::Idle);
    assert_eq!(states.get("x").unwrap().last_error, None);
    assert_eq!(l.on_event(&mut states, "x", CgroupEvent::TriggerFailed, 4), CgroupAction::Failed { warn: true });
    assert_eq!(states.get("x").unwrap().last_reclaimed, None);
    assert_eq!(states.len(), 1);
}

#[test]
fn cycle_sleeps_for_the_rest_of_the_interval() {
    let l = reclaim_loop(Threshold::Bytes(1000), 30);
    assert_eq!(l.next_cycle(2500), CycleAction::Sleep(7500));
    assert_eq!(l.next_cycle(10_000), CycleAction::Sleep(0));
    assert_eq!(l.next_cycle(10_001), CycleAction::Overrun);
}
