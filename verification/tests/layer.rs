use std::fmt::Debug;
use std::hash::Hash;

use axum_governor::extractor::ip::IpAddr;
use axum_governor::extractor::{Everyone, Global, KeyOutcome, PeerIp};
use axum_governor::request::{Method, Parts};
use axum_governor::service::decide::decide;
use axum_governor::service::{route, Action};
use axum_governor::snapshot::{approx_bytes, merge_top, total};
use axum_governor::util::{format_key, redacted_key};
use axum_governor::{GovernorConfigBuilder, GovernorLayer, Quota};
use http::HeaderMap;

fn per_second(n: u32) -> Quota {
    Quota::requests_per_second(n)
}

fn check<K: Hash + Eq + Clone + Debug + Send + Sync + 'static>(
    layer: &mut GovernorLayer<K>,
    key: K,
) {
    let parts = Parts {
        method: Method::GET,
        path: "/".to_owned(),
        headers: HeaderMap::new(),
        peer: None,
        extensions: http::Extensions::new(),
    };
    decide(&mut layer.shared, &parts, Ok(KeyOutcome::new(key)));
}

/// Send one GET from the given peer through the layer.
fn send<K: Hash + Eq + Clone + Debug + Send + Sync + 'static>(
    layer: &mut GovernorLayer<K>,
    peer: &str,
) {
    let peer = match ipnet::IpNet::new(peer.parse().unwrap(), 0).unwrap() {
        ipnet::IpNet::V4(n) => IpAddr::V4(n.addr().into()),
        ipnet::IpNet::V6(n) => IpAddr::V6(n.addr().into()),
    };
    let parts = Parts {
        method: Method::GET,
        path: "/".to_owned(),
        headers: HeaderMap::new(),
        peer: Some(peer),
        extensions: http::Extensions::new(),
    };
    assert!(matches!(route(&mut layer.shared, &parts), Action::Settled(_)));
}

#[test]
fn sync_extractor_constructs_ok() {
    let cfg = GovernorConfigBuilder::default()
        .with_extractor(Global)
        .quota_default(per_second(10))
        .finish()
        .ok()
        .unwrap();
    let _layer: GovernorLayer<Everyone> = GovernorLayer::new(cfg);
}

#[test]
fn async_extractor_constructs_ok() {
    let cfg = GovernorConfigBuilder::default()
        .with_async_extractor::<()>()
        .quota_default(per_second(10))
        .finish()
        .ok()
        .unwrap();
    let _: GovernorLayer<()> = GovernorLayer::new(cfg);
}

#[test]
fn default_limiter_is_none_without_quota() {
    let cfg = GovernorConfigBuilder::default().with_extractor(Global).finish().ok().unwrap();
    let layer: GovernorLayer<Everyone> = GovernorLayer::new(cfg);
    assert!(layer.shared.default_limiter.is_none());
    assert!(layer.shared.policy_default.is_none());
}

#[test]
fn method_limiters_built_from_config() {
    let cfg = GovernorConfigBuilder::default()
        .with_extractor(Global)
        .quota_for(Method::GET, per_second(10))
        .quota_for(Method::POST, per_second(5))
        .finish()
        .ok()
        .unwrap();
    let layer: GovernorLayer<Everyone> = GovernorLayer::new(cfg);
    assert_eq!(layer.shared.method_limiters.len(), 2);
    assert_eq!(layer.shared.method_trackers.len(), 2);
    assert_eq!(layer.shared.policy_per_method.len(), 2);
}

#[test]
fn stack_entries_built_from_factories() {
    let cfg = GovernorConfigBuilder::default()
        .with_extractor(Global)
        .stack("peer", PeerIp::default(), per_second(10))
        .finish()
        .ok()
        .unwrap();
    let layer: GovernorLayer<Everyone> = GovernorLayer::new(cfg);
    assert_eq!(layer.shared.stack.len(), 1);
    assert_eq!(layer.shared.stack[0].name(), "peer");
}

#[test]
fn policy_default_is_precomputed_when_default_quota_present() {
    let cfg = GovernorConfigBuilder::default()
        .with_extractor(Global)
        .quota_default(per_second(10))
        .finish()
        .ok()
        .unwrap();
    let layer: GovernorLayer<Everyone> = GovernorLayer::new(cfg);
    let entry = layer.shared.policy_default.as_ref().expect("policy entry");
    assert_eq!(entry.header, "\"default\";q=10;w=1");
}

#[test]
fn sweeping_keeps_recent_keys() {
    let cfg = GovernorConfigBuilder::default()
        .with_extractor(Global)
        .quota_default(Quota::requests_per_hour(10))
        .quota_for(Method::PUT, Quota::requests_per_hour(10))
        .stack("peer", Global, Quota::requests_per_hour(10))
        .finish()
        .ok()
        .unwrap();
    let mut layer: GovernorLayer<Everyone> = GovernorLayer::new(cfg);
    check(&mut layer, Everyone);
    layer.shared.retain_all();
    assert_eq!(layer.limiter().snapshot().key_count, 2);
}

#[test]
fn snapshot_global_one_request_key_count_gte_one() {
    let cfg = GovernorConfigBuilder::default()
        .with_extractor(Global)
        .quota_default(per_second(10))
        .finish()
        .ok()
        .unwrap();
    let mut layer = GovernorLayer::new(cfg);
    check(&mut layer, Everyone);
    let snap = layer.limiter().snapshot();
    assert!(snap.key_count >= 1, "expected at least one key, got {}", snap.key_count);
    assert_eq!(snap.approx_bytes, snap.key_count * 40 + 64);
    assert!(!snap.top_n.is_empty(), "top_n should be populated by the tracker");
    assert_eq!(snap.top_n[0].1, 1, "single-request key should have one hit");
}

#[test]
fn snapshot_peer_ip_three_ips_key_count_equals_three() {
    let cfg = GovernorConfigBuilder::default()
        .with_extractor(PeerIp::default())
        .expect_connect_info()
        .quota_default(per_second(10))
        .finish()
        .ok()
        .unwrap();
    let mut layer = GovernorLayer::new(cfg);
    for peer in ["1.2.3.4", "5.6.7.8", "9.10.11.12"] {
        send(&mut layer, peer);
    }
    let snap = layer.limiter().snapshot();
    assert_eq!(snap.key_count, 3, "expected 3 distinct IP keys, got {}", snap.key_count);
    assert_eq!(snap.top_n.len(), 3);
    assert!(snap.top_n.iter().all(|(_, h)| *h == 1));
}

#[test]
fn snapshot_top_n_orders_by_hits_descending() {
    let cfg = GovernorConfigBuilder::default()
        .with_extractor(PeerIp::default())
        .expect_connect_info()
        .quota_default(per_second(50))
        .finish()
        .ok()
        .unwrap();
    let mut layer = GovernorLayer::new(cfg);
    // 5x ip1, 2x ip2, 1x ip3: top should be ip1 then ip2 then ip3.
    for (peer, times) in [("1.1.1.1", 5), ("2.2.2.2", 2), ("3.3.3.3", 1)] {
        for _ in 0..times {
            send(&mut layer, peer);
        }
    }
    let snap = layer.limiter().snapshot();
    assert!(snap.top_n.len() >= 3);
    assert_eq!(snap.top_n[0].1, 5);
    assert_eq!(snap.top_n[1].1, 2);
    assert_eq!(snap.top_n[2].1, 1);
    assert_eq!(layer.limiter().snapshot_top_n(1).top_n.len(), 1);
    assert!(layer.limiter().snapshot_top_n(0).top_n.is_empty());
}

#[test]
fn a_sweep_leaves_every_tracker_alone() {
    let cfg = GovernorConfigBuilder::default()
        .with_extractor(Global)
        .quota_default(per_second(10))
        .stack("peer", PeerIp::default(), per_second(10))
        .finish()
        .ok()
        .unwrap();
    let mut layer = GovernorLayer::new(cfg);
    for peer in ["1.1.1.1", "1.1.1.1", "2.2.2.2"] {
        send(&mut layer, peer);
    }
    let before = layer.limiter().snapshot().top_n;
    assert_eq!(before.len(), 3);
    layer.shared.retain_all();
    assert_eq!(layer.limiter().snapshot().top_n, before);
}

#[test]
fn merging_keeps_the_largest_count() {
    let e = |s: &str, n: u64| (s.to_owned(), n);
    let top = merge_top(&vec![e("a", 1), e("b", 7), e("a", 9), e("b", 2), e("c", 3)], 2);
    assert_eq!(top, vec![e("a", 9), e("b", 7)]);
    assert!(merge_top(&vec![e("a", 1)], 0).is_empty());
}

#[test]
fn sums_and_estimates_stop_at_the_top() {
    assert_eq!(total(&vec![1, 2, 3]), 6);
    assert_eq!(total(&vec![usize::MAX, 1]), usize::MAX);
    assert_eq!(total(&vec![]), 0);
    assert_eq!(approx_bytes(3, 16), 3 * 56 + 64);
    assert_eq!(approx_bytes(usize::MAX, 16), usize::MAX);
    assert_eq!(approx_bytes(0, usize::MAX), 64);
}

#[test]
fn service_format_key_redact_off_uses_debug() {
    let k: String = "alice".into();
    assert_eq!(format_key(&k, false), "\"alice\"");
}

#[test]
fn flow_format_key_redact_off_uses_debug() {
    let k: String = "alice".into();
    assert_eq!(format_key(&k, false), "\"alice\"");
}

#[test]
fn service_format_key_redact_on_hashes() {
    let s = format_key(&String::from("alice"), true);
    assert!(s.starts_with("hash:"), "got {s}");
    assert_eq!(s.len(), "hash:".len() + 16);
}

#[test]
fn flow_format_key_redact_on_hashes() {
    let s = format_key(&String::from("alice"), true);
    assert!(s.starts_with("hash:"), "got {s}");
    assert_eq!(s.len(), "hash:".len() + 16);
}

#[test]
fn redacted_keys_are_sixteen_digits() {
    assert_eq!(redacted_key(0), "hash:0000000000000000");
    assert_eq!(redacted_key(0x0123_4567_89ab_cdef), "hash:0123456789abcdef");
    assert_eq!(redacted_key(u64::MAX), "hash:ffffffffffffffff");
}
