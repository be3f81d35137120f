use std::fmt::Debug;
use std::hash::Hash;

use axum_governor::boxed::erase_outcome;
use axum_governor::duration::Duration;
use axum_governor::error::RejectionReason;
use axum_governor::extractor::ip::{IpAddr, IpNet};
use axum_governor::extractor::{Everyone, Global, Header, KeyExtractor, KeyOutcome, PeerIp};
use axum_governor::limiter::CheckOutcome;
use axum_governor::request::{Method, Parts};
use axum_governor::service::decide::{admission, decide, failure, rejection, Decision, Rejection};
use axum_governor::service::respond::{
    build_admit_headers, build_reject_headers, build_reject_response,
};
use axum_governor::service::{route, settle, Action};
use axum_governor::trace::Event;
use axum_governor::{
    BodyPreset, BoxedGovernorLayer, ExtractionError, GovernorConfig, GovernorConfigBuilder,
    GovernorLayer, Quota,
};
use http::{HeaderMap, HeaderValue};

fn ip(s: &str) -> IpAddr {
    match ipnet::IpNet::new(s.parse().unwrap(), 0).unwrap() {
        ipnet::IpNet::V4(n) => IpAddr::V4(n.addr().into()),
        ipnet::IpNet::V6(n) => IpAddr::V6(n.addr().into()),
    }
}

fn req(method: Method, path: &str) -> Parts {
    Parts {
        method,
        path: path.to_owned(),
        headers: HeaderMap::new(),
        peer: None,
        extensions: http::Extensions::new(),
    }
}

fn req_with_peer(method: Method, path: &str, peer: &str) -> Parts {
    let mut parts = req(method, path);
    parts.peer = Some(ip(peer));
    parts
}

fn layer<K: Hash + Eq + Clone + Debug + Send + Sync + 'static>(
    cfg: GovernorConfig<K>,
) -> GovernorLayer<K> {
    assert!(cfg.is_ready());
    GovernorLayer::new(cfg)
}

/// Status and headers of the answer, the inner service answering 200 without headers.
struct Answer {
    status: u16,
    headers: HeaderMap,
    body: Vec<u8>,
    events: Vec<Event>,
}

fn answer<K: Hash + Eq + Clone + Debug + Send + Sync + 'static>(
    layer: &mut GovernorLayer<K>,
    action: Action<K>,
) -> Answer {
    match action {
        Action::Forward => {
            Answer { status: 200, headers: HeaderMap::new(), body: vec![], events: vec![] }
        }
        Action::Settled(v) => match v.decision {
            Decision::Admit(headers) => {
                Answer { status: 200, headers, body: vec![], events: v.events }
            }
            Decision::Reject(Rejection { reason, headers }) => {
                let preset = layer.shared.settings.body_preset;
                let r = build_reject_response(preset, &reason, &headers);
                Answer { status: r.status, headers: r.headers, body: r.body, events: v.events }
            }
        },
        _ => panic!("not answered"),
    }
}

fn drive<K: Hash + Eq + Clone + Debug + Send + Sync + 'static>(
    layer: &mut GovernorLayer<K>,
    parts: Parts,
) -> Answer {
    let action = route(&mut layer.shared, &parts);
    answer(layer, action)
}

fn text<'a>(a: &'a Answer, name: &str) -> Option<&'a str> {
    a.headers.get(name).map(|v| v.to_str().unwrap())
}

fn per_second(n: u32) -> Quota {
    Quota::requests_per_second(n)
}

#[test]
fn flow_whitelist_method_bypasses_exhausted_limiter() {
    let cfg = GovernorConfigBuilder::default()
        .with_extractor(Global)
        .quota_default(per_second(1))
        .whitelist_methods(vec![Method::OPTIONS])
        .finish()
        .ok()
        .unwrap();
    let mut layer = layer(cfg);
    // exhaust the single token
    assert_eq!(drive(&mut layer, req(Method::POST, "/")).status, 200);
    // confirm bucket is exhausted
    assert_eq!(drive(&mut layer, req(Method::POST, "/")).status, 429);
    // OPTIONS is whitelisted and must pass even though the bucket is empty
    let r3 = drive(&mut layer, req(Method::OPTIONS, "/"));
    assert_eq!(r3.status, 200);
    assert!(text(&r3, "ratelimit-policy").is_none());
    let custom = drive(&mut layer, req(Method::Extension("OPTIONS".to_owned()), "/"));
    assert_eq!(custom.status, 200);
}

#[test]
fn flow_whitelist_path_bypasses_exhausted_limiter() {
    let cfg = GovernorConfigBuilder::default()
        .with_extractor(Global)
        .quota_default(per_second(1))
        .whitelist_paths(vec!["/health".to_owned()])
        .finish()
        .ok()
        .unwrap();
    let mut layer = layer(cfg);
    // exhaust the bucket
    drive(&mut layer, req(Method::GET, "/api"));
    // whitelisted path passes even though bucket is empty
    let r = drive(&mut layer, req(Method::GET, "/health"));
    assert_eq!(r.status, 200);
    assert!(text(&r, "ratelimit-policy").is_none());
}

fn localhost() -> IpNet {
    IpNet::new(ip("127.0.0.0"), 8).unwrap()
}

#[test]
fn flow_whitelist_ip_bypasses_exhausted_limiter() {
    let cfg = GovernorConfigBuilder::default()
        .with_extractor(Global)
        .quota_default(per_second(1))
        .whitelist_ips(vec![localhost()])
        .expect_connect_info()
        .finish()
        .ok()
        .unwrap();
    let mut layer = layer(cfg);
    // exhaust the bucket from a non-whitelisted IP
    drive(&mut layer, req_with_peer(Method::GET, "/", "1.2.3.4"));
    // localhost is whitelisted
    let r = drive(&mut layer, req_with_peer(Method::GET, "/", "127.0.0.1"));
    assert_eq!(r.status, 200);
    assert!(text(&r, "ratelimit-policy").is_none());
}

#[test]
fn flow_successful_admit_adds_headers() {
    let cfg = GovernorConfigBuilder::default()
        .with_extractor(Global)
        .quota_default(per_second(10))
        .finish()
        .ok()
        .unwrap();
    let mut layer = layer(cfg);
    let r = drive(&mut layer, req(Method::GET, "/"));
    assert_eq!(r.status, 200);
    assert_eq!(text(&r, "ratelimit-policy"), Some("\"default\";q=10;w=1"));
    assert_eq!(text(&r, "ratelimit"), Some("\"default\";r=9;t=0"));
    assert_eq!(text(&r, "x-ratelimit-limit"), Some("10"));
    assert_eq!(text(&r, "x-ratelimit-remaining"), Some("9"));
    assert_eq!(text(&r, "x-ratelimit-reset"), Some("0"));
    assert!(text(&r, "retry-after").is_none());
    assert!(r.events.is_empty());
}

#[test]
fn flow_reject_returns_429_with_all_headers() {
    let cfg = GovernorConfigBuilder::default()
        .with_extractor(Global)
        .quota_default(per_second(1))
        .finish()
        .ok()
        .unwrap();
    let mut layer = layer(cfg);
    assert_eq!(drive(&mut layer, req(Method::GET, "/")).status, 200);
    let r2 = drive(&mut layer, req(Method::GET, "/"));
    assert_eq!(r2.status, 429);
    assert_eq!(text(&r2, "retry-after"), Some("1"));
    assert_eq!(text(&r2, "ratelimit-policy"), Some("\"default\";q=1;w=1"));
    assert_eq!(text(&r2, "ratelimit"), Some("\"default\";r=0;t=0"));
    assert_eq!(text(&r2, "x-ratelimit-limit"), Some("1"));
    assert_eq!(text(&r2, "x-ratelimit-remaining"), Some("0"));
    assert_eq!(text(&r2, "x-ratelimit-reset"), Some("0"));
    assert_eq!(text(&r2, "content-type"), Some("text/plain; charset=utf-8"));
    assert_eq!(r2.body, b"Too Many Requests, retry in 1s");
    match &r2.events[0] {
        Event::Rejected { key, quota_burst, wait_ms, policy } => {
            assert_eq!(key, "Everyone");
            assert_eq!(*quota_burst, 1);
            assert!(*wait_ms < 1000);
            assert_eq!(policy, "default");
        }
        _ => panic!("expected a rejection"),
    }
}

#[test]
fn flow_key_extraction_failed_returns_500_no_rl_headers() {
    let cfg = GovernorConfigBuilder::default()
        .with_extractor(PeerIp::default())
        .expect_connect_info()
        .quota_default(per_second(10))
        .finish()
        .ok()
        .unwrap();
    let mut layer = layer(cfg);
    // no peer address: PeerIp fails with MissingConnectInfo, which is a 500
    let r = drive(&mut layer, req(Method::GET, "/"));
    assert_eq!(r.status, 500);
    assert!(text(&r, "ratelimit-policy").is_none());
    assert!(matches!(&r.events[..], [Event::ExtractionFailed { .. }]));
    assert_eq!(layer.limiter().snapshot().key_count, 0);
}

#[test]
fn flow_legacy_reset_epoch_produces_epoch_value() {
    let cfg = GovernorConfigBuilder::default()
        .with_extractor(Global)
        .quota_default(per_second(1))
        .legacy_reset_epoch(true)
        .finish()
        .ok()
        .unwrap();
    let mut layer = layer(cfg);
    let r = drive(&mut layer, req(Method::GET, "/"));
    assert_eq!(r.status, 200);
    let reset_val: u64 = text(&r, "x-ratelimit-reset").unwrap().parse().unwrap();
    // Any value greater than this threshold is clearly an epoch, not a delta.
    assert!(reset_val > 1_700_000_000, "expected epoch seconds, got {reset_val}");
}

#[test]
fn flow_async_extractor_admits_and_rejects() {
    let cfg = GovernorConfigBuilder::default()
        .with_async_extractor::<u32>()
        .quota_default(per_second(1))
        .finish()
        .ok()
        .unwrap();
    let mut layer = layer(cfg);
    for status in [200, 429] {
        let parts = req(Method::GET, "/");
        assert!(matches!(route(&mut layer.shared, &parts), Action::AwaitKey));
        let action = settle(&mut layer.shared, &parts, Ok(KeyOutcome::new(1)));
        assert_eq!(answer(&mut layer, action).status, status);
    }
}

/// The peer's address in its usual spelling.
struct DottedPeer;

impl KeyExtractor for DottedPeer {
    type Key = String;

    fn extract(&self, parts: &Parts) -> Result<KeyOutcome<String>, ExtractionError> {
        let text = match PeerIp::default().extract(parts)?.key {
            IpAddr::V4(bits) => ipnet::Ipv4Net::new(bits.into(), 32).unwrap().addr().to_string(),
            IpAddr::V6(bits) => ipnet::Ipv6Net::new(bits.into(), 128).unwrap().addr().to_string(),
        };
        Ok(KeyOutcome::new(text))
    }

    fn requires_connect_info(&self) -> bool {
        true
    }
}

#[test]
fn flow_max_keys_evicts_oldest_under_pressure() {
    let cfg = GovernorConfigBuilder::default()
        .with_extractor(DottedPeer)
        .expect_connect_info()
        .quota_default(per_second(10))
        .max_keys(2)
        .finish()
        .ok()
        .unwrap();
    let mut layer = layer(cfg);
    let mut evictions = 0;
    for peer in ["1.1.1.1", "2.2.2.2", "3.3.3.3"] {
        let r = drive(&mut layer, req_with_peer(Method::GET, "/", peer));
        assert_eq!(r.status, 200);
        evictions += r.events.len();
    }
    assert_eq!(evictions, 1);
    let snap = layer.limiter().snapshot();
    assert_eq!(snap.top_n.len(), 2, "tracker-backed top_n should be capped by max_keys");
    assert!(snap.top_n.iter().any(|(k, _)| k.contains("2.2.2.2")));
    assert!(snap.top_n.iter().any(|(k, _)| k.contains("3.3.3.3")));
    assert!(
        !snap.top_n.iter().any(|(k, _)| k.contains("1.1.1.1")),
        "oldest key should have been evicted from tracker: {:?}",
        snap.top_n
    );
}

#[test]
fn flow_whitelist_ip_is_judged_on_the_peer_not_forwarded_headers() {
    let cfg = GovernorConfigBuilder::default()
        .with_extractor(Global)
        .quota_default(per_second(1))
        .whitelist_ips(vec![localhost()])
        .finish()
        .ok()
        .unwrap();
    let mut layer = layer(cfg);
    let spoofed = || {
        let mut r = req_with_peer(Method::GET, "/", "8.8.8.8");
        r.headers.insert("x-forwarded-for", HeaderValue::from_static("127.0.0.1"));
        r
    };
    drive(&mut layer, spoofed());
    assert_eq!(drive(&mut layer, spoofed()).status, 429);
}

#[test]
fn policy_per_method_quota_get_exhausted_post_passes() {
    // GET has 1/s quota; POST falls through to default 100/s.
    let cfg = GovernorConfigBuilder::default()
        .with_extractor(Global)
        .quota_for(Method::GET, per_second(1))
        .quota_default(per_second(100))
        .finish()
        .ok()
        .unwrap();
    let mut layer = layer(cfg);
    let r1 = drive(&mut layer, req(Method::GET, "/"));
    assert_eq!(r1.status, 200);
    assert_eq!(text(&r1, "ratelimit-policy"), Some("\"default\";q=1;w=1"));
    assert_eq!(drive(&mut layer, req(Method::GET, "/")).status, 429);
    let r3 = drive(&mut layer, req(Method::POST, "/"));
    assert_eq!(r3.status, 200);
    assert_eq!(text(&r3, "ratelimit-policy"), Some("\"default\";q=100;w=1"));
    assert_eq!(drive(&mut layer, req(Method::GET, "/")).status, 429);
}

#[test]
fn policy_stacked_peer_and_auth_first_reject_wins() {
    // Exhaust peer on 2nd request; rejection names "peer" and lists both policies.
    let cfg = GovernorConfigBuilder::default()
        .with_extractor(Global)
        .stack("peer", Global, per_second(1))
        .stack("auth", Global, Quota::requests_per_minute(600))
        .finish()
        .ok()
        .unwrap();
    let mut layer = layer(cfg);
    assert_eq!(drive(&mut layer, req(Method::GET, "/")).status, 200);
    let r2 = drive(&mut layer, req(Method::GET, "/"));
    assert_eq!(r2.status, 429);
    // RateLimit: header names the triggering entry.
    assert!(text(&r2, "ratelimit").unwrap().contains("\"peer\""));
    // RateLimit-Policy: lists both.
    let policy = text(&r2, "ratelimit-policy").unwrap();
    assert_eq!(policy, "\"peer\";q=1;w=1, \"auth\";q=600;w=60");
    // The entry behind the one that rejected has counted the first request only.
    assert_eq!(layer.shared.stack[1].runner.top_n(9)[0].1, 1);
    assert_eq!(layer.shared.stack[0].runner.top_n(9)[0].1, 2);
}

#[test]
fn policy_multi_window_quotas_first_rejects_on_per_second() {
    let cfg = GovernorConfigBuilder::default()
        .with_extractor(Global)
        .quotas("peer", Global, vec![per_second(1), Quota::requests_per_minute(60)])
        .finish()
        .ok()
        .unwrap();
    let mut layer = layer(cfg);
    assert_eq!(drive(&mut layer, req(Method::GET, "/")).status, 200);
    let r2 = drive(&mut layer, req(Method::GET, "/"));
    assert_eq!(r2.status, 429);
    let policy = text(&r2, "ratelimit-policy").unwrap();
    assert!(policy.contains("\"peer:1s\""), "expected peer:1s in policy, got: {policy}");
    assert!(policy.contains("\"peer:1m\""), "expected peer:1m in policy, got: {policy}");
}

struct TierExtractor(Quota);

impl KeyExtractor for TierExtractor {
    type Key = ();

    fn extract(&self, _parts: &Parts) -> Result<KeyOutcome<()>, ExtractionError> {
        Ok(KeyOutcome { key: (), quota_override: Some(self.0) })
    }
}

#[test]
fn policy_per_tier_quota_override_admits_burst() {
    let cfg = GovernorConfigBuilder::default()
        .with_extractor(TierExtractor(per_second(100)))
        // Default very tight; override allows more.
        .quota_default(per_second(1))
        .finish()
        .ok()
        .unwrap();
    let mut layer = layer(cfg);
    assert_eq!(drive(&mut layer, req(Method::GET, "/")).status, 200);
    let r2 = drive(&mut layer, req(Method::GET, "/"));
    assert_eq!(r2.status, 200, "override quota should admit second request");
}

#[test]
fn policy_stacked_reject_names_correct_entry_in_ratelimit_header() {
    let cfg = GovernorConfigBuilder::default()
        .with_extractor(Global)
        .stack("peer", Global, per_second(100))
        .stack("auth", Header("authorization"), per_second(1))
        .finish()
        .ok()
        .unwrap();
    let mut layer = layer(cfg);
    let make_req = || {
        let mut parts = req(Method::GET, "/");
        parts.headers.insert("authorization", HeaderValue::from_static("Bearer token123"));
        parts
    };
    assert_eq!(drive(&mut layer, make_req()).status, 200);
    let r2 = drive(&mut layer, make_req());
    assert_eq!(r2.status, 429);
    let rl = text(&r2, "ratelimit").unwrap();
    assert!(rl.contains("\"auth\""), "expected 'auth' in RateLimit header, got: {rl}");
}

#[test]
fn policy_tier_override_renders_its_own_quota_in_the_policy_header() {
    let cfg = GovernorConfigBuilder::default()
        .with_extractor(TierExtractor(per_second(100)))
        .quota_default(per_second(1))
        .finish()
        .ok()
        .unwrap();
    let mut layer = layer(cfg);
    let r = drive(&mut layer, req(Method::GET, "/"));
    assert_eq!(r.status, 200);
    assert_eq!(text(&r, "ratelimit-policy"), Some("\"default\";q=100;w=1"));
    assert_eq!(text(&r, "x-ratelimit-limit"), Some("100"));
}

#[test]
fn policy_stack_only_admit_names_the_first_entry() {
    let cfg = GovernorConfigBuilder::default()
        .with_extractor(Global)
        .stack("peer", Global, per_second(10))
        .stack("auth", Global, Quota::requests_per_minute(600))
        .finish()
        .ok()
        .unwrap();
    let mut layer = layer(cfg);
    let r = drive(&mut layer, req(Method::GET, "/"));
    assert_eq!(r.status, 200);
    let rl = text(&r, "ratelimit").unwrap();
    assert!(rl.starts_with("\"peer\";r=9;"), "got {rl}");
    assert_eq!(text(&r, "ratelimit-policy"), Some("\"peer\";q=10;w=1, \"auth\";q=600;w=60"));
}

#[test]
fn policy_stack_extraction_failure_rejects_with_extraction_status() {
    let cfg = GovernorConfigBuilder::default()
        .with_extractor(Global)
        .quota_default(per_second(10))
        .stack("auth", Header("authorization"), per_second(10))
        .finish()
        .ok()
        .unwrap();
    let mut layer = layer(cfg);
    let r = drive(&mut layer, req(Method::GET, "/"));
    assert_eq!(r.status, 400);
    assert!(text(&r, "ratelimit-policy").is_none());
}

#[test]
fn stacked_reject_under_an_override_lists_every_policy() {
    let cfg = GovernorConfigBuilder::default()
        .with_extractor(TierExtractor(per_second(100)))
        .quota_default(per_second(1))
        .stack("peer", Global, per_second(1))
        .finish()
        .ok()
        .unwrap();
    let mut layer = layer(cfg);
    assert_eq!(drive(&mut layer, req(Method::GET, "/")).status, 200);
    let r = drive(&mut layer, req(Method::GET, "/"));
    assert_eq!(r.status, 429);
    assert_eq!(text(&r, "ratelimit-policy"), Some("\"default\";q=100;w=1, \"peer\";q=1;w=1"));
    assert!(text(&r, "ratelimit").unwrap().starts_with("\"peer\";r=0;t="));
}

#[test]
fn method_quota_beats_an_override() {
    let cfg = GovernorConfigBuilder::default()
        .with_extractor(TierExtractor(per_second(100)))
        .quota_for(Method::GET, per_second(3))
        .quota_for(Method::GET, per_second(4))
        .finish()
        .ok()
        .unwrap();
    let mut layer = layer(cfg);
    let r = drive(&mut layer, req(Method::GET, "/"));
    assert_eq!(text(&r, "ratelimit-policy"), Some("\"default\";q=3;w=1"));
    let r = drive(&mut layer, req(Method::PUT, "/"));
    assert_eq!(text(&r, "ratelimit-policy"), Some("\"default\";q=100;w=1"));
}

#[test]
fn without_quotas_nothing_is_said() {
    let cfg = GovernorConfigBuilder::default().with_extractor(Global).finish().ok().unwrap();
    let mut layer = layer(cfg);
    let r = drive(&mut layer, req(Method::GET, "/"));
    assert_eq!(r.status, 200);
    assert!(r.headers.is_empty());
}

#[test]
fn override_that_cannot_be_counted_is_reported() {
    let endless = Quota::seconds_per_request(u32::MAX).burst(u32::MAX);
    let cfg = GovernorConfigBuilder::default()
        .with_extractor(TierExtractor(endless))
        .finish()
        .ok()
        .unwrap();
    let mut layer = layer(cfg);
    let action = route(&mut layer.shared, &req(Method::GET, "/"));
    assert!(matches!(action, Action::UnusableOverride(q) if q == endless));
}

#[test]
fn redacted_rejections_show_a_hash() {
    let cfg = GovernorConfigBuilder::default()
        .with_extractor(Header("x-api-key"))
        .quota_default(per_second(1))
        .redact_keys(true)
        .finish()
        .ok()
        .unwrap();
    let mut layer = layer(cfg);
    let make_req = || {
        let mut parts = req(Method::GET, "/");
        parts.headers.insert("x-api-key", HeaderValue::from_static("open sesame"));
        parts
    };
    drive(&mut layer, make_req());
    let r = drive(&mut layer, make_req());
    match &r.events[..] {
        [Event::Rejected { key, .. }] => {
            assert!(key.starts_with("hash:"));
            assert_eq!(key.len(), 21);
        }
        _ => panic!("expected one rejection"),
    }
}

#[test]
fn rejection_carries_the_key_and_a_fresh_snapshot() {
    let cfg = GovernorConfigBuilder::default()
        .with_extractor(PeerIp::default())
        .expect_connect_info()
        .quota_default(Quota::requests_per_hour(2).burst(1))
        .stack("s", Global, per_second(100))
        .finish()
        .ok()
        .unwrap();
    let mut layer = layer(cfg);
    let parts = req_with_peer(Method::GET, "/", "1.2.3.4");
    decide(&mut layer.shared, &parts, Ok(KeyOutcome::new(ip("1.2.3.4"))));
    let v = decide(&mut layer.shared, &parts, Ok(KeyOutcome::new(ip("1.2.3.4"))));
    match v.decision {
        Decision::Reject(Rejection { reason, headers }) => {
            assert_eq!(headers["ratelimit-policy"], "\"default\";q=1;w=1800, \"s\";q=100;w=1");
            let seconds: u64 = headers["retry-after"].to_str().unwrap().parse().unwrap();
            assert!(seconds > 1700 && seconds <= 1800);
            assert_eq!(headers["x-ratelimit-reset"], headers["retry-after"]);
            match reason {
                RejectionReason::QuotaExceeded { wait, snapshot, key, policy_name } => {
                    assert_eq!(wait.as_secs(), seconds);
                    assert_eq!(snapshot.remaining, 0);
                    assert_eq!(snapshot.quota.burst_size(), 1);
                    assert_eq!(key, Some(ip("1.2.3.4")));
                    assert_eq!(policy_name, "default");
                }
                _ => panic!("expected a quota rejection"),
            }
        }
        Decision::Admit(_) => panic!("over quota"),
    }
}

#[test]
fn decisions_from_given_results() {
    let cfg = GovernorConfigBuilder::default()
        .with_extractor(Global)
        .quota_default(Quota::requests_per_minute(60))
        .stack("peer", Global, per_second(10))
        .finish()
        .ok()
        .unwrap();
    let layer = layer(cfg);
    let shared = &layer.shared;
    match admission(shared, &Method::GET, None, Some(1_000), 40) {
        Decision::Admit(h) => {
            assert_eq!(h["ratelimit"], "\"default\";r=40;t=20");
            assert_eq!(h["x-ratelimit-reset"], "1020");
        }
        Decision::Reject(_) => panic!("admitted"),
    }
    match admission(shared, &Method::GET, None, None, u32::MAX) {
        Decision::Admit(h) => assert_eq!(h["ratelimit"], "\"default\";r=0;t=60"),
        Decision::Reject(_) => panic!("admitted"),
    }
    let wait = Duration::new(12, 500_000_000);
    let peer = per_second(10);
    match rejection(shared, &Method::GET, None, Some(1_000), "peer", peer, wait, None) {
        Decision::Reject(Rejection { headers: h, .. }) => {
            assert_eq!(h["retry-after"], "12");
            assert_eq!(h["ratelimit"], "\"peer\";r=0;t=12");
            assert_eq!(h["ratelimit-policy"], "\"default\";q=60;w=60, \"peer\";q=10;w=1");
            assert_eq!(h["x-ratelimit-limit"], "10");
            assert_eq!(h["x-ratelimit-remaining"], "0");
            assert_eq!(h["x-ratelimit-reset"], "1012");
        }
        Decision::Admit(_) => panic!("rejected"),
    }
    match failure::<Everyone>(ExtractionError::UntrustedProxy) {
        Decision::Reject(Rejection { headers, .. }) => assert!(headers.is_empty()),
        Decision::Admit(_) => panic!("rejected"),
    }
}

#[test]
fn headers_without_a_prepared_policy() {
    let q = per_second(5);
    let stack = Vec::new();
    let h = build_admit_headers(None, q, "a", 9, None, &stack, None);
    assert_eq!(h["ratelimit-policy"], "\"a\";q=5;w=1");
    assert_eq!(h["ratelimit"], "\"a\";r=9;t=0");
    let h = build_reject_headers(None, q, Duration::from_secs(3), "a", None, &stack, Some(q));
    assert_eq!(h["ratelimit-policy"], "\"default\";q=5;w=1");
    assert_eq!(h["retry-after"], "3");
}

#[test]
fn boxed_constructs_from_global_config_ok() {
    let cfg = GovernorConfigBuilder::default()
        .with_extractor(Global)
        .quota_default(per_second(10))
        .finish()
        .ok()
        .unwrap();
    let _ = BoxedGovernorLayer::from_config(cfg);
}

#[test]
fn boxed_rate_limits_correctly() {
    let cfg = GovernorConfigBuilder::default()
        .with_extractor(Global)
        .quota_default(per_second(1))
        .finish()
        .ok()
        .unwrap();
    let mut layer = BoxedGovernorLayer::from_config(cfg);
    assert_eq!(drive(&mut layer.inner, req(Method::GET, "/")).status, 200);
    assert_eq!(drive(&mut layer.inner, req(Method::GET, "/")).status, 429);
    assert_eq!(layer.limiter().snapshot().top_n, vec![("\"Everyone\"".to_owned(), 2)]);
}

#[test]
fn boxed_preserves_distinct_keys_via_debug() {
    let cfg = GovernorConfigBuilder::default()
        .with_extractor(PeerIp::default())
        .expect_connect_info()
        .quota_default(per_second(1))
        .finish()
        .ok()
        .unwrap();
    let mut layer = BoxedGovernorLayer::from_config(cfg);
    let a = || req_with_peer(Method::GET, "/", "1.2.3.4");
    let b = || req_with_peer(Method::GET, "/", "5.6.7.8");
    assert_eq!(drive(&mut layer.inner, a()).status, 200);
    assert_eq!(drive(&mut layer.inner, b()).status, 200);
    assert_eq!(drive(&mut layer.inner, a()).status, 429);
}

#[test]
fn erasing_keeps_overrides_and_errors() {
    let o = KeyOutcome::new(5u8).with_quota_override(per_second(3));
    let e = erase_outcome(Ok(o)).ok().unwrap();
    assert_eq!(e.key, "5");
    assert_eq!(e.quota_override, Some(per_second(3)));
    let e = erase_outcome::<u8>(Err(ExtractionError::UntrustedProxy));
    assert!(matches!(e, Err(ExtractionError::UntrustedProxy)));
}

#[test]
fn problem_json_reject_body_round_trips() {
    let cfg = GovernorConfigBuilder::default()
        .with_extractor(Global)
        .quota_default(per_second(1))
        .body_preset(BodyPreset::ProblemJson)
        .finish()
        .ok()
        .unwrap();
    let mut layer = layer(cfg);
    drive(&mut layer, req(Method::GET, "/"));
    let r = drive(&mut layer, req(Method::GET, "/"));
    assert_eq!(r.status, 429);
    assert_eq!(text(&r, "content-type"), Some("application/problem+json"));
    let v: serde_json::Value = serde_json::from_slice(&r.body).unwrap();
    assert_eq!(v["type"], "about:blank");
    assert_eq!(v["status"], 429);
    assert_eq!(v["title"], "Too Many Requests");
    assert!(v["detail"].as_str().unwrap().to_lowercase().contains("retry"));
}

#[test]
fn stacked_reject_emits_correct_policy_in_ratelimit_header() {
    let cfg = GovernorConfigBuilder::default()
        .with_extractor(Global)
        // High default so primary limiter does not trigger
        .quota_default(per_second(100))
        .stack("peer", PeerIp::default(), per_second(1))
        .stack("auth", Header("authorization"), Quota::requests_per_minute(60))
        .expect_connect_info()
        .finish()
        .ok()
        .unwrap();
    let mut layer = layer(cfg);
    let make_req = || {
        let mut parts = req_with_peer(Method::GET, "/", "1.2.3.4");
        parts.headers.insert("authorization", HeaderValue::from_static("Bearer testtoken"));
        parts
    };
    assert_eq!(drive(&mut layer, make_req()).status, 200);
    let r2 = drive(&mut layer, make_req());
    assert_eq!(r2.status, 429);
    let ratelimit = text(&r2, "ratelimit").unwrap();
    assert!(ratelimit.starts_with("\"peer\";r=0;t="), "ratelimit: {ratelimit}");
    let policy = text(&r2, "ratelimit-policy").unwrap();
    assert!(policy.contains("\"peer\";q=1;w=1"), "policy: {policy}");
    assert!(policy.contains("\"auth\";q=60;w=60"), "policy: {policy}");
}

#[test]
fn methods_use_up_their_own_budgets() {
    let cfg = GovernorConfigBuilder::default()
        .with_extractor(Global)
        .quota_for(Method::GET, Quota::requests_per_hour(5))
        .quota_for(Method::POST, Quota::requests_per_hour(5))
        .finish()
        .ok()
        .unwrap();
    let mut layer = layer(cfg);
    for left in ["4", "3", "2"] {
        let r = drive(&mut layer, req(Method::GET, "/"));
        assert_eq!(text(&r, "x-ratelimit-remaining"), Some(left));
    }
    let r = drive(&mut layer, req(Method::POST, "/"));
    assert_eq!(text(&r, "x-ratelimit-remaining"), Some("4"));
    assert_eq!(
        layer.shared.method_limiters[1].1.check(&Everyone),
        CheckOutcome::Admit { remaining: 3 }
    );
}

#[test]
fn every_new_key_has_the_whole_burst() {
    let cfg = GovernorConfigBuilder::default()
        .with_extractor(PeerIp::default())
        .expect_connect_info()
        .quota_default(Quota::requests_per_hour(2))
        .stack("host", PeerIp::default(), Quota::requests_per_hour(3))
        .finish()
        .ok()
        .unwrap();
    let mut layer = layer(cfg);
    assert_eq!(layer.limiter().snapshot().key_count, 0);
    for peer in ["1.1.1.1", "2.2.2.2", "3.3.3.3"] {
        let r = drive(&mut layer, req_with_peer(Method::GET, "/", peer));
        assert_eq!(r.status, 200);
        assert_eq!(text(&r, "x-ratelimit-remaining"), Some("1"));
        for _ in 0..5 {
            drive(&mut layer, req_with_peer(Method::GET, "/", peer));
        }
        assert_eq!(drive(&mut layer, req_with_peer(Method::GET, "/", peer)).status, 429);
    }
    assert_eq!(layer.limiter().snapshot().key_count, 6);
}

#[test]
fn whitelisted_requests_are_not_counted() {
    let cfg = GovernorConfigBuilder::default()
        .with_extractor(Global)
        .quota_default(Quota::requests_per_hour(1))
        .whitelist_paths(vec!["/internal/*".to_owned()])
        .finish()
        .ok()
        .unwrap();
    let mut layer = layer(cfg);
    for _ in 0..3 {
        assert_eq!(drive(&mut layer, req(Method::GET, "/internal/x")).status, 200);
    }
    assert_eq!(layer.limiter().snapshot().key_count, 0);
    assert_eq!(drive(&mut layer, req(Method::GET, "/internal/x/y")).status, 200);
    assert_eq!(drive(&mut layer, req(Method::GET, "/internal/x/y")).status, 429);
}

#[test]
fn without_a_bound_nothing_is_evicted_with_a_warning() {
    let cfg = GovernorConfigBuilder::default()
        .with_async_extractor::<u32>()
        .quota_default(per_second(1))
        .finish()
        .ok()
        .unwrap();
    let mut layer = layer(cfg);
    let parts = req(Method::GET, "/");
    for key in 0..65_540u32 {
        match settle(&mut layer.shared, &parts, Ok(KeyOutcome::new(key))) {
            Action::Settled(v) => assert!(v.events.is_empty()),
            _ => panic!("not settled"),
        }
    }
    assert_eq!(layer.limiter().snapshot_top_n(70_000).top_n.len(), 65_536);
}

#[test]
fn drive_admits_first_rejects_second() {
    let cfg = GovernorConfigBuilder::default()
        .with_extractor(Global)
        .quota_default(per_second(1))
        .finish()
        .ok()
        .unwrap();
    let mut layer = layer(cfg);
    assert_eq!(drive(&mut layer, req(Method::GET, "/")).status, 200);
    assert_eq!(drive(&mut layer, req(Method::GET, "/")).status, 429);
}

#[test]
fn drive_response_exposes_headers() {
    let cfg = GovernorConfigBuilder::default()
        .with_extractor(Global)
        .quota_default(per_second(5))
        .finish()
        .ok()
        .unwrap();
    let mut layer = layer(cfg);
    let r = drive(&mut layer, req(Method::GET, "/"));
    assert_eq!(r.headers["x-ratelimit-limit"], "5");
}

#[test]
fn admit_then_reject_through_router() {
    let cfg = GovernorConfigBuilder::default()
        .with_extractor(Global)
        .quota_default(per_second(1))
        .finish()
        .ok()
        .unwrap();
    let mut layer = layer(cfg);
    let r1 = drive(&mut layer, req(Method::GET, "/api"));
    assert_eq!(r1.status, 200);
    assert_eq!(r1.headers["ratelimit-policy"], "\"default\";q=1;w=1");
    let r2 = drive(&mut layer, req(Method::GET, "/api"));
    assert_eq!(r2.status, 429);
    assert_eq!(r2.headers["retry-after"], "1");
    assert_eq!(r2.headers["x-ratelimit-limit"], "1");
    assert_eq!(r2.headers["x-ratelimit-remaining"], "0");
}

#[test]
fn connect_info_missing_returns_500_through_router() {
    let cfg = GovernorConfigBuilder::default()
        .with_extractor(PeerIp::default())
        .expect_connect_info()
        .quota_default(per_second(10))
        .finish()
        .ok()
        .unwrap();
    let mut layer = layer(cfg);
    // No peer address in the request, so PeerIp extraction fails.
    let r = drive(&mut layer, req(Method::GET, "/"));
    assert_eq!(r.status, 500);
    assert!(text(&r, "ratelimit-policy").is_none());
    let body = String::from_utf8(r.body).unwrap().to_lowercase();
    assert!(body.contains("connect"), "body: {body}");
}

#[test]
fn a_flood_of_gets_leaves_posts_alone() {
    let cfg = GovernorConfigBuilder::default()
        .with_extractor(Global)
        .quota_for(Method::GET, per_second(1))
        .quota_for(Method::POST, per_second(3))
        .finish()
        .ok()
        .unwrap();
    let mut layer = layer(cfg);
    for n in 0..20 {
        let r = drive(&mut layer, req(Method::GET, "/"));
        assert_eq!(r.status, if n == 0 { 200 } else { 429 });
    }
    let r = drive(&mut layer, req(Method::POST, "/"));
    assert_eq!(r.status, 200);
    assert_eq!(r.headers["x-ratelimit-remaining"], "2");
}

#[test]
fn a_failed_stack_extraction_counts_nothing_more() {
    let cfg = GovernorConfigBuilder::default()
        .with_extractor(Global)
        .stack("auth", Header("authorization"), per_second(1))
        .finish()
        .ok()
        .unwrap();
    let mut layer = layer(cfg);
    for _ in 0..3 {
        let r = drive(&mut layer, req(Method::GET, "/"));
        assert_eq!(r.status, 400);
        assert!(r.headers.get("ratelimit-policy").is_none());
    }
    assert_eq!(layer.limiter().snapshot().key_count, 0);
    let mut parts = req(Method::GET, "/");
    parts.headers.insert("authorization", HeaderValue::from_static("Bearer a"));
    assert_eq!(drive(&mut layer, parts).status, 200);
}

#[test]
fn a_long_override_is_still_counted() {
    let cfg = GovernorConfigBuilder::default().with_extractor(Global).finish().ok().unwrap();
    let mut layer = layer(cfg);
    let long = Quota::seconds_per_request(u32::MAX).burst(3);
    for remaining in ["2", "1", "0"] {
        let outcome = Ok(KeyOutcome::new(Everyone).with_quota_override(long));
        let action = settle(&mut layer.shared, &req(Method::GET, "/"), outcome);
        let r = answer(&mut layer, action);
        assert_eq!(r.status, 200);
        assert_eq!(r.headers["x-ratelimit-remaining"], remaining);
    }
    let outcome = Ok(KeyOutcome::new(Everyone).with_quota_override(long));
    let action = settle(&mut layer.shared, &req(Method::GET, "/"), outcome);
    assert_eq!(answer(&mut layer, action).status, 429);
}

#[test]
fn a_rejection_shows_its_key() {
    let cfg = GovernorConfigBuilder::default()
        .with_extractor(Header("x-api-key"))
        .quota_default(per_second(5))
        .stack("auth", Header("authorization"), per_second(1))
        .finish()
        .ok()
        .unwrap();
    let mut layer = layer(cfg);
    let mut shown: Vec<String> = vec![];
    for n in 0..6 {
        let mut parts = req(Method::GET, "/");
        parts.headers.insert("x-api-key", HeaderValue::from_static("alice"));
        parts.headers.insert("authorization", HeaderValue::from_static("Bearer a"));
        let r = drive(&mut layer, parts);
        assert_eq!(r.status, if n == 0 { 200 } else { 429 });
        for event in r.events {
            if let Event::Rejected { key, policy, .. } = event {
                shown.push(format!("{policy} {key}"));
            }
        }
    }
    assert_eq!(shown[0], "auth \"Bearer a\"");
    assert_eq!(shown[4], "default \"alice\"");
}

#[test]
fn an_override_has_no_say_where_the_method_has_a_quota() {
    let cfg = GovernorConfigBuilder::default()
        .with_extractor(Global)
        .quota_for(Method::GET, per_second(4))
        .finish()
        .ok()
        .unwrap();
    let mut layer = layer(cfg);
    let endless = Quota::seconds_per_request(u32::MAX).burst(u32::MAX);
    let outcome = || Ok(KeyOutcome::new(Everyone).with_quota_override(endless));
    let action = settle(&mut layer.shared, &req(Method::GET, "/"), outcome());
    let r = answer(&mut layer, action);
    assert_eq!(r.status, 200);
    assert_eq!(r.headers["x-ratelimit-remaining"], "3");
    let action = settle(&mut layer.shared, &req(Method::POST, "/"), outcome());
    assert!(matches!(action, Action::UnusableOverride(q) if q == endless));
}

#[test]
fn stack_entries_keep_to_max_keys() {
    let cfg = GovernorConfigBuilder::default()
        .with_extractor(Global)
        .stack("peer", DottedPeer, per_second(10))
        .max_keys(2)
        .finish()
        .ok()
        .unwrap();
    let mut layer = layer(cfg);
    let mut evicted: Vec<String> = vec![];
    for peer in ["1.1.1.1", "2.2.2.2", "3.3.3.3"] {
        for event in drive(&mut layer, req_with_peer(Method::GET, "/", peer)).events {
            if let Event::Evicted { policy } = event {
                evicted.push(policy);
            }
        }
    }
    assert_eq!(evicted, vec!["peer".to_owned()]);
    let top = layer.limiter().snapshot().top_n;
    assert_eq!(top.len(), 2);
    assert!(!top.iter().any(|(k, _)| k.contains("1.1.1.1")));
}

#[test]
fn keys_of_a_stack_entry_have_their_own_budgets() {
    let cfg = GovernorConfigBuilder::default()
        .with_extractor(Global)
        .stack("peer", DottedPeer, per_second(2))
        .finish()
        .ok()
        .unwrap();
    let mut layer = layer(cfg);
    for peer in ["1.1.1.1", "2.2.2.2"] {
        for (n, status) in [200u16, 200, 429].iter().enumerate() {
            let r = drive(&mut layer, req_with_peer(Method::GET, "/", peer));
            assert_eq!(r.status, *status);
            if n == 0 {
                assert_eq!(r.headers["x-ratelimit-remaining"], "1");
            }
        }
    }
}

#[test]
fn a_limiter_counts_the_period_of_its_quota() {
    let cfg = GovernorConfigBuilder::default()
        .with_extractor(Global)
        .quota_default(Quota::seconds_per_request(100))
        .finish()
        .ok()
        .unwrap();
    let mut layer = layer(cfg);
    assert_eq!(drive(&mut layer, req(Method::GET, "/")).status, 200);
    let r = drive(&mut layer, req(Method::GET, "/"));
    assert_eq!(r.status, 429);
    let wait: u64 = r.headers["retry-after"].to_str().unwrap().parse().unwrap();
    assert!(wait >= 95 && wait <= 100, "got {wait}");
}
