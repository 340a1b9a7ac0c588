use musicdb::cache::{cache_plan, not_upcoming, remove_failed, CachePlan, CacheState, NowStep};

#[test]
fn only_one_load_starts() {
    let mut c = CacheState::new();
    assert!(c.is_empty());
    assert!(c.start_load());
    assert!(!c.start_load());
    assert!(c.cached_data().is_none());
    assert_eq!(c.uncache_data(), Err(()));
    c.finish_load(Some(vec![1, 2, 3]));
    assert_eq!(c.cached_data(), Some(&vec![1, 2, 3]));
    assert!(!c.start_load());
    assert_eq!(c.uncache_data(), Ok(()));
    assert!(c.is_empty());
}

#[test]
fn failed_load_gives_no_data() {
    let mut c = CacheState::new();
    assert!(c.start_load());
    c.finish_load(None);
    assert!(c.cached_data().is_none());
    assert!(!c.start_load());
    assert_eq!(c.uncache_data(), Ok(()));
}

#[test]
fn finishing_without_load_changes_nothing() {
    let mut c = CacheState::new();
    c.finish_load(Some(vec![9]));
    assert!(c.is_empty());
}

#[test]
fn failed_subscribers_are_dropped_in_order() {
    let mut subs = vec!["a", "b", "c", "d"];
    remove_failed(&mut subs, &vec![false, true, false, true]);
    assert_eq!(subs, vec!["a", "c"]);
    let mut none: Vec<u8> = vec![];
    remove_failed(&mut none, &vec![]);
    assert!(none.is_empty());
}

#[test]
fn cache_plan_follows_memory_bounds() {
    assert_eq!(cache_plan(3000, 1024, 2048), CachePlan::Prefetch);
    assert_eq!(cache_plan(2048, 1024, 2048), CachePlan::Idle);
    assert_eq!(cache_plan(1024, 1024, 2048), CachePlan::Idle);
    assert_eq!(cache_plan(1000, 1024, 2048), CachePlan::Evict);
}

#[test]
fn eviction_candidates_skip_upcoming_songs() {
    assert_eq!(not_upcoming(&vec![1, 2, 3, 4], &vec![3, 1]), vec![2, 4]);
    assert_eq!(not_upcoming(&vec![], &vec![3]), Vec::<u64>::new());
}

#[test]
fn now_step_by_state() {
    let mut c = CacheState::new();
    assert_eq!(c.now_step(), NowStep::LoadNow);
    c.start_load();
    assert_eq!(c.now_step(), NowStep::Wait);
    c.finish_load(None);
    assert_eq!(c.now_step(), NowStep::Return);
}
