use std::hash::{Hash, Hasher};

use axum_governor::tracker::{EvictionReason, KeyTracker, DEFAULT_TRACKER_CAP};

#[test]
fn touch_without_max_keys_uses_internal_budget() {
    let mut t: KeyTracker<u32> = KeyTracker::new(None);
    for k in 0..DEFAULT_TRACKER_CAP as u32 {
        let out = t.touch(&k);
        assert!(out.reason.is_none());
    }
    let out = t.touch(&(DEFAULT_TRACKER_CAP as u32));
    assert_eq!(out.reason, Some(EvictionReason::TrackerBudget));
    assert_eq!(out.evicted, Some(0));
    assert_eq!(t.key_count(), DEFAULT_TRACKER_CAP);
    assert!(!t.top_n(DEFAULT_TRACKER_CAP).iter().any(|(k, _)| k == "0"));
}

#[test]
fn touch_with_cap_evicts_oldest_first() {
    let mut t: KeyTracker<u32> = KeyTracker::new(Some(3));
    t.touch(&1);
    t.touch(&2);
    t.touch(&3);
    // Re-touching 1 promotes it; the next insertion should evict 2 (now oldest).
    t.touch(&1);
    let out = t.touch(&4);
    assert_eq!(out.reason, Some(EvictionReason::MaxKeys));
    assert_eq!(out.evicted, Some(2));
    assert_eq!(t.key_count(), 3);
    assert!(
        !t.top_n(3).iter().any(|(k, _)| k == "2"),
        "expected 2 to be evicted, key 1 was just touched"
    );
}

#[test]
fn top_n_orders_by_hits_descending() {
    let mut t: KeyTracker<&'static str> = KeyTracker::new(None);
    for _ in 0..5 {
        t.touch(&"a");
    }
    for _ in 0..2 {
        t.touch(&"b");
    }
    t.touch(&"c");
    let top = t.top_n(2);
    assert_eq!(top.len(), 2);
    assert_eq!(top[0].1, 5);
    assert_eq!(top[1].1, 2);
    assert!(top[0].0.contains('a'));
    assert!(top[1].0.contains('b'));
    assert_eq!(top, vec![(String::from("\"a\""), 5), (String::from("\"b\""), 2)]);
}

#[test]
fn top_n_zero_returns_empty() {
    let mut t: KeyTracker<u32> = KeyTracker::new(None);
    t.touch(&1);
    assert!(t.top_n(0).is_empty());
}

#[test]
fn forget_removes_key_and_seq() {
    let mut t: KeyTracker<u32> = KeyTracker::new(Some(2));
    t.touch(&1);
    t.touch(&2);
    t.forget(&1);
    assert_eq!(t.key_count(), 1);
    // 1 is gone, so adding 3 should not evict anything.
    let out = t.touch(&3);
    assert!(out.reason.is_none());
}

#[test]
fn cap_zero_evicts_every_insertion() {
    // Edge case: max_keys = 0 keeps no sidecar entries.
    let mut t: KeyTracker<u32> = KeyTracker::new(Some(0));
    let out = t.touch(&1);
    assert_eq!(out.reason, Some(EvictionReason::MaxKeys));
    assert_eq!(t.key_count(), 0);
}

#[test]
fn touched_key_outlives_the_others() {
    let mut t: KeyTracker<u32> = KeyTracker::new(Some(1));
    for k in 0..5u32 {
        t.touch(&k);
        assert_eq!(t.hottest(9), vec![(k, 1)]);
    }
    t.touch(&4);
    assert_eq!(t.hottest(1), vec![(4, 2)]);
}

#[test]
fn forgetting_an_unknown_key_changes_nothing() {
    let mut t: KeyTracker<u32> = KeyTracker::new(Some(2));
    t.touch(&1);
    t.forget(&9);
    assert_eq!(t.key_count(), 1);
    assert_eq!(t.top_n(5), vec![("1".to_owned(), 1)]);
}

/// Names that are equal whatever their case.
#[derive(Clone, Debug)]
struct Name(&'static str);

impl PartialEq for Name {
    fn eq(&self, other: &Self) -> bool {
        self.0.eq_ignore_ascii_case(other.0)
    }
}

impl Eq for Name {}

impl Hash for Name {
    fn hash<H: Hasher>(&self, state: &mut H) {
        self.0.to_ascii_lowercase().hash(state);
    }
}

#[test]
fn the_key_that_came_first_stays() {
    let mut t: KeyTracker<Name> = KeyTracker::new(Some(1));
    assert!(t.touch(&Name("Alice")).evicted.is_none());
    assert!(t.touch(&Name("ALICE")).evicted.is_none());
    assert_eq!(t.top_n(5), vec![(String::from("Name(\"Alice\")"), 2)]);
    let out = t.touch(&Name("bob"));
    assert_eq!(out.evicted.unwrap().0, "Alice");
}

#[test]
fn a_table_without_room_hands_the_key_back() {
    let mut t: KeyTracker<u32> = KeyTracker::new(Some(0));
    assert_eq!(t.touch(&7).evicted, Some(7));
    assert_eq!(t.key_count(), 0);
}
