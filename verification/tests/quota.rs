use std::collections::hash_map::DefaultHasher;
use std::hash::{Hash, Hasher};
use std::num::NonZeroU32;

use axum_governor::cache::LimiterCache;
use axum_governor::duration::Duration;
use axum_governor::limiter::{fresh_remaining, CheckOutcome, Limiter};
use axum_governor::Quota;

fn hash_of(q: Quota) -> u64 {
    let mut h = DefaultHasher::new();
    q.hash(&mut h);
    h.finish()
}

fn same(q: Quota, g: governor::Quota) {
    assert_eq!(q.burst_size(), g.burst_size().get());
    assert_eq!(q.replenish_interval().as_nanos(), g.replenish_interval().as_nanos());
}

#[test]
fn requests_per_second_round_trips() {
    same(
        Quota::requests_per_second(10),
        governor::Quota::per_second(NonZeroU32::new(10).unwrap()),
    );
}

#[test]
fn requests_per_minute_round_trips() {
    same(
        Quota::requests_per_minute(60),
        governor::Quota::per_minute(NonZeroU32::new(60).unwrap()),
    );
}

#[test]
fn requests_per_hour_round_trips() {
    same(
        Quota::requests_per_hour(3600),
        governor::Quota::per_hour(NonZeroU32::new(3600).unwrap()),
    );
}

#[test]
fn seconds_per_request_interval_and_burst() {
    let q = Quota::seconds_per_request(5);
    assert_eq!(q.replenish_interval(), Duration::from_secs(5));
    assert_eq!(q.burst_size(), 1);
}

#[test]
fn burst_updates_burst_size_leaves_interval() {
    let base = Quota::requests_per_second(10);
    let interval = base.replenish_interval();
    let q = base.burst(100);
    assert_eq!(q.burst_size(), 100);
    assert_eq!(q.replenish_interval(), interval);
}

#[test]
fn equal_quotas_hash_equal() {
    let a = Quota::requests_per_second(50);
    let b = Quota::requests_per_second(50);
    assert_eq!(a, b);
    assert_eq!(hash_of(a), hash_of(b));
}

#[test]
fn different_quotas_hash_different() {
    let a = Quota::requests_per_second(50);
    let b = Quota::requests_per_minute(50);
    assert_ne!(hash_of(a), hash_of(b));
}

#[test]
fn intervals_are_exact_nanoseconds() {
    assert_eq!(Quota::requests_per_second(7).replenish_interval().as_nanos(), 142_857_142);
    assert_eq!(Quota::requests_per_minute(7).replenish_interval().as_nanos(), 8_571_428_571);
    assert_eq!(Quota::requests_per_hour(7).replenish_interval().as_nanos(), 514_285_714_285);
    assert_eq!(Quota::requests_per_second(u32::MAX).replenish_interval().as_nanos(), 0);
}

#[test]
fn usable_up_to_the_limit_of_the_clock() {
    assert!(Quota::requests_per_second(u32::MAX).is_usable());
    assert!(Quota::seconds_per_request(u32::MAX).is_usable());
    assert!(Quota::seconds_per_request(u32::MAX).burst(4).is_usable());
    assert!(!Quota::seconds_per_request(u32::MAX).burst(5).is_usable());
    assert!(!Quota::seconds_per_request(u32::MAX).burst(u32::MAX).is_usable());
    let longest = Duration::from_secs(9_223_372_036);
    assert!(Quota::from_parts(1, longest).is_usable());
    assert!(!Quota::from_parts(2, longest).is_usable());
}

#[test]
fn duration_parts() {
    let d = Duration::from_nanos(5_250_000_001);
    assert_eq!(d.as_secs(), 5);
    assert_eq!(d.subsec_nanos(), 250_000_001);
    assert_eq!(d.as_millis(), 5_250);
    assert_eq!(d.as_nanos(), 5_250_000_001);
    assert_eq!(Duration::new(5, 250_000_001), d);
}

#[test]
fn fresh_limiter_has_the_burst_less_one() {
    assert_eq!(fresh_remaining(&Quota::requests_per_second(10)), 9);
    assert_eq!(fresh_remaining(&Quota::seconds_per_request(5)), 0);
}

#[test]
fn limiter_counts_each_key_for_itself() {
    let mut l: Limiter<u32> = Limiter::new(Quota::requests_per_hour(2));
    assert_eq!(l.quota(), Quota::requests_per_hour(2));
    assert_eq!(l.check(&1), CheckOutcome::Admit { remaining: 1 });
    assert_eq!(l.check(&1), CheckOutcome::Admit { remaining: 0 });
    match l.check(&1) {
        CheckOutcome::Reject { wait } => {
            assert!(wait.as_secs() <= 1800);
            assert!(wait.as_secs() >= 1700);
        }
        CheckOutcome::Admit { .. } => panic!("over quota"),
    }
    assert_eq!(l.check(&2), CheckOutcome::Admit { remaining: 1 });
    assert_eq!(l.len(), 2);
    l.retain_recent();
    assert_eq!(l.len(), 2);
}

#[test]
fn dashmap_cache_reuses_same_arc() {
    let mut cache: LimiterCache<()> = LimiterCache::new();
    let q = Quota::requests_per_second(10);
    let a = cache.get_or_insert(q);
    let b = cache.get_or_insert(q);
    assert_eq!(a, b, "expected same limiter on duplicate Quota insert");
    assert_eq!(cache.lens().len(), 1);
}

#[test]
fn mutex_cache_reuses_same_arc() {
    let mut cache: LimiterCache<()> = LimiterCache::new();
    let q = Quota::requests_per_second(10);
    let a = cache.get_or_insert(q);
    let b = cache.get_or_insert(q);
    assert_eq!(a, b, "expected same limiter on duplicate Quota insert");
}

#[test]
fn different_quotas_get_different_arcs() {
    let mut cache: LimiterCache<()> = LimiterCache::new();
    let a = cache.get_or_insert(Quota::requests_per_second(10));
    let b = cache.get_or_insert(Quota::requests_per_minute(10));
    assert_ne!(a, b, "different quotas must produce different limiters");
}

#[test]
fn cache_counts_tiers_apart() {
    let mut cache: LimiterCache<u8> = LimiterCache::new();
    let a = cache.get_or_insert(Quota::requests_per_hour(1));
    let b = cache.get_or_insert(Quota::requests_per_hour(2));
    assert_eq!(cache.check_at(a, &7), CheckOutcome::Admit { remaining: 0 });
    assert!(matches!(cache.check_at(a, &7), CheckOutcome::Reject { .. }));
    assert_eq!(cache.check_at(b, &7), CheckOutcome::Admit { remaining: 1 });
    assert_eq!(cache.get_or_insert(Quota::requests_per_hour(1)), a);
    assert!(matches!(cache.check_at(a, &7), CheckOutcome::Reject { .. }));
    cache.retain_at(a);
    cache.retain_all();
    assert_eq!(cache.lens(), vec![1, 1]);
}
