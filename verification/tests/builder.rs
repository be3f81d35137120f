use axum_governor::builder::quota_label;
use axum_governor::duration::Duration;
use axum_governor::extractor::ip::{IpAddr, IpNet};
use axum_governor::extractor::{Everyone, Global, KeyExtractor, PeerIp, SmartIp};
use axum_governor::request::Method;
use axum_governor::{BodyPreset, ConfigError, GovernorConfigBuilder, GovernorLayer, Quota};

fn q1s() -> Quota {
    Quota::requests_per_second(10)
}

fn q1m() -> Quota {
    Quota::requests_per_minute(600)
}

fn q1h() -> Quota {
    Quota::requests_per_hour(20_000)
}

fn net(s: &str) -> IpNet {
    match s.parse::<ipnet::IpNet>().unwrap() {
        ipnet::IpNet::V4(n) => IpNet::new(IpAddr::V4(n.addr().into()), n.prefix_len()).unwrap(),
        ipnet::IpNet::V6(n) => IpNet::new(IpAddr::V6(n.addr().into()), n.prefix_len()).unwrap(),
    }
}

// --- finish() error variants ---

#[test]
fn finish_no_extractor_returns_error() {
    let err = GovernorConfigBuilder::default().finish().err().unwrap();
    assert!(matches!(err, ConfigError::NoExtractor));
}

#[test]
fn finish_empty_chain_returns_error() {
    let err = GovernorConfigBuilder::default()
        .with_extractor(Global)
        .quotas("x", Global, vec![])
        .finish()
        .err()
        .unwrap();
    assert!(matches!(err, ConfigError::EmptyChain));
}

#[test]
fn finish_contradictory_whitelist_v4_and_v6_any() {
    let err = GovernorConfigBuilder::default()
        .with_extractor(Global)
        .whitelist_ips(vec![net("0.0.0.0/0"), net("::/0")])
        .finish()
        .err()
        .unwrap();
    assert!(matches!(err, ConfigError::ContradictoryWhitelist));
}

#[test]
fn finish_only_v4_any_whitelist_ok() {
    let result = GovernorConfigBuilder::default()
        .with_extractor(Global)
        .whitelist_ips(vec![net("0.0.0.0/0")])
        .finish();
    assert!(result.is_ok());
}

#[test]
fn finish_peer_ip_without_ack_returns_error() {
    let err = GovernorConfigBuilder::default()
        .with_extractor(PeerIp::default())
        .quota_default(q1s())
        .finish()
        .err()
        .unwrap();
    assert!(matches!(err, ConfigError::MissingConnectInfoAcknowledgement));
}

#[test]
fn finish_smart_ip_without_ack_returns_error() {
    let err = GovernorConfigBuilder::default()
        .with_extractor(SmartIp::new())
        .quota_default(q1s())
        .finish()
        .err()
        .unwrap();
    assert!(matches!(err, ConfigError::MissingConnectInfoAcknowledgement));
}

#[test]
fn finish_reports_the_first_error() {
    let err = GovernorConfigBuilder::default()
        .quotas("x", Global, vec![])
        .whitelist_ips(vec![net("0.0.0.0/0"), net("::/0")])
        .finish()
        .err()
        .unwrap();
    assert!(matches!(err, ConfigError::NoExtractor));
    let err = GovernorConfigBuilder::default()
        .with_extractor(PeerIp::default())
        .quotas("x", Global, vec![])
        .whitelist_ips(vec![net("::/0"), net("0.0.0.0/0")])
        .finish()
        .err()
        .unwrap();
    assert!(matches!(err, ConfigError::EmptyChain));
    let err = GovernorConfigBuilder::default()
        .with_extractor(PeerIp::default())
        .whitelist_ips(vec![net("::/0"), net("0.0.0.0/0")])
        .finish()
        .err()
        .unwrap();
    assert!(matches!(err, ConfigError::ContradictoryWhitelist));
}

// --- finish() success paths ---

#[test]
fn finish_global_with_quota_ok() {
    let result =
        GovernorConfigBuilder::default().with_extractor(Global).quota_default(q1s()).finish();
    assert!(result.is_ok());
}

#[test]
fn finish_peer_ip_with_ack_ok() {
    let result = GovernorConfigBuilder::default()
        .with_extractor(PeerIp::default())
        .expect_connect_info()
        .quota_default(q1s())
        .finish();
    assert!(result.is_ok());
}

#[test]
fn finish_global_no_quota_ok() {
    let result = GovernorConfigBuilder::default().with_extractor(Global).finish();
    assert!(result.is_ok());
}

// --- field storage ---

#[test]
fn quota_for_method_stored() {
    let cfg = GovernorConfigBuilder::default()
        .with_extractor(Global)
        .quota_for(Method::GET, q1s())
        .quota_for(Method::POST, q1m())
        .finish()
        .ok()
        .unwrap();
    assert_eq!(cfg.settings.quota_methods.len(), 2);
    assert_eq!(cfg.settings.quota_methods[0].0, Method::GET);
    assert_eq!(cfg.settings.quota_methods[1].0, Method::POST);
}

#[test]
fn stack_single_entry_added() {
    let cfg = GovernorConfigBuilder::default()
        .with_extractor(Global)
        .stack("peer", PeerIp::default(), q1s())
        .finish()
        .ok()
        .unwrap();
    assert_eq!(cfg.stack.len(), 1);
    // Build the layer to get the finalized runners and verify name propagated.
    let layer: GovernorLayer<Everyone> = GovernorLayer::new(cfg);
    assert_eq!(layer.shared.stack[0].name(), "peer");
}

#[test]
fn quotas_expands_to_three_stack_entries_with_labels() {
    let cfg = GovernorConfigBuilder::default()
        .with_extractor(Global)
        .quotas("peer", PeerIp::default(), vec![q1s(), q1m(), q1h()])
        .finish()
        .ok()
        .unwrap();
    assert_eq!(cfg.stack.len(), 3);
    let layer: GovernorLayer<Everyone> = GovernorLayer::new(cfg);
    assert_eq!(layer.shared.stack[0].name(), "peer:1s");
    assert_eq!(layer.shared.stack[1].name(), "peer:1m");
    assert_eq!(layer.shared.stack[2].name(), "peer:1h");
}

#[test]
fn quotas_unknown_window_uses_index() {
    // seconds_per_request(5): burst=1, replenish=5s, window=5s, not 1/60/3600
    let odd = Quota::seconds_per_request(5);
    let cfg = GovernorConfigBuilder::default()
        .with_extractor(Global)
        .quotas("x", Global, vec![odd])
        .finish()
        .ok()
        .unwrap();
    let layer: GovernorLayer<Everyone> = GovernorLayer::new(cfg);
    assert_eq!(layer.shared.stack[0].name(), "x:0");
}

#[test]
fn whitelist_methods_stored() {
    let cfg = GovernorConfigBuilder::default()
        .with_extractor(Global)
        .whitelist_methods(vec![Method::OPTIONS, Method::HEAD])
        .finish()
        .ok()
        .unwrap();
    assert_eq!(cfg.settings.whitelist_methods, [Method::OPTIONS, Method::HEAD]);
}

#[test]
fn whitelist_paths_stored() {
    let cfg = GovernorConfigBuilder::default()
        .with_extractor(Global)
        .whitelist_paths(vec!["/health".to_owned(), "/metrics".to_owned()])
        .finish()
        .ok()
        .unwrap();
    assert_eq!(cfg.settings.whitelist_paths, ["/health", "/metrics"]);
}

#[test]
fn whitelist_ips_stored() {
    let cfg = GovernorConfigBuilder::default()
        .with_extractor(Global)
        .whitelist_ips(vec![net("127.0.0.0/8")])
        .finish()
        .ok()
        .unwrap();
    assert_eq!(cfg.settings.whitelist_ips, [net("127.0.0.0/8")]);
}

#[test]
fn gc_interval_stored() {
    let cfg = GovernorConfigBuilder::default()
        .with_extractor(Global)
        .gc_interval(Duration::from_secs(30))
        .finish()
        .ok()
        .unwrap();
    assert_eq!(cfg.settings.gc_interval, Some(Duration::from_secs(30)));
}

#[test]
fn gc_disable_stored() {
    let cfg =
        GovernorConfigBuilder::default().with_extractor(Global).gc_disable().finish().ok().unwrap();
    assert!(cfg.settings.gc_disabled);
}

#[test]
fn max_keys_stored() {
    let cfg = GovernorConfigBuilder::default()
        .with_extractor(Global)
        .max_keys(50_000)
        .finish()
        .ok()
        .unwrap();
    assert_eq!(cfg.settings.max_keys, Some(50_000));
}

#[test]
fn body_preset_stored() {
    let cfg = GovernorConfigBuilder::default()
        .with_extractor(Global)
        .body_preset(BodyPreset::Text)
        .finish()
        .ok()
        .unwrap();
    assert_eq!(cfg.settings.body_preset, BodyPreset::Text);
    let cfg = GovernorConfigBuilder::default()
        .with_extractor(Global)
        .body_preset(BodyPreset::ProblemJson)
        .finish()
        .ok()
        .unwrap();
    assert_eq!(cfg.settings.body_preset, BodyPreset::ProblemJson);
}

#[test]
fn gc_interval_defaults_to_60s() {
    let cfg = GovernorConfigBuilder::default().with_extractor(Global).finish().ok().unwrap();
    assert_eq!(cfg.settings.gc_interval, Some(Duration::from_secs(60)));
    assert!(!cfg.settings.gc_disabled);
}

#[test]
fn legacy_reset_epoch_defaults_false_and_round_trips() {
    let cfg = GovernorConfigBuilder::default().with_extractor(Global).finish().ok().unwrap();
    assert!(!cfg.settings.legacy_reset_epoch);

    let cfg = GovernorConfigBuilder::default()
        .with_extractor(Global)
        .legacy_reset_epoch(true)
        .finish()
        .ok()
        .unwrap();
    assert!(cfg.settings.legacy_reset_epoch);
}

// --- KeyExtractor::requires_connect_info ---

#[test]
fn peer_ip_requires_connect_info() {
    assert!(PeerIp::default().requires_connect_info());
}

#[test]
fn smart_ip_requires_connect_info() {
    assert!(SmartIp::new().requires_connect_info());
}

#[test]
fn global_does_not_require_connect_info() {
    assert!(!Global.requires_connect_info());
}

#[test]
fn redact_keys_default_false_and_round_trips() {
    let cfg = GovernorConfigBuilder::default().with_extractor(Global).finish().ok().unwrap();
    assert!(!cfg.settings.redact_keys);
    let cfg = GovernorConfigBuilder::default()
        .with_extractor(Global)
        .redact_keys(true)
        .finish()
        .ok()
        .unwrap();
    assert!(cfg.settings.redact_keys);
}

#[test]
fn labels_follow_the_window() {
    assert_eq!(quota_label("a", &q1s(), 7), "a:1s");
    assert_eq!(quota_label("a", &q1m(), 7), "a:1m");
    assert_eq!(quota_label("a", &q1h(), 7), "a:1h");
    assert_eq!(quota_label("a", &Quota::seconds_per_request(5), 12), "a:12");
}

#[test]
fn readiness_needs_countable_quotas_and_printable_names() {
    let ok = GovernorConfigBuilder::default()
        .with_extractor(Global)
        .quota_default(q1s())
        .stack("peer", Global, q1m())
        .finish()
        .ok()
        .unwrap();
    assert!(ok.is_ready());
    let endless = Quota::seconds_per_request(u32::MAX).burst(u32::MAX);
    let b = || GovernorConfigBuilder::default().with_extractor(Global);
    assert!(!b().quota_default(endless).finish().ok().unwrap().is_ready());
    assert!(!b().quota_for(Method::GET, endless).finish().ok().unwrap().is_ready());
    assert!(!b().stack("peer", Global, endless).finish().ok().unwrap().is_ready());
    assert!(!b().stack("a\nb", Global, q1s()).finish().ok().unwrap().is_ready());
}

#[test]
fn config_errors_describe_themselves() {
    assert_eq!(ConfigError::ZeroBurst.describe(), "burst capacity must be non-zero");
    assert_eq!(ConfigError::EmptyChain.describe(), "stacked limiter chain has no entries");
    assert_eq!(
        ConfigError::ContradictoryWhitelist.describe(),
        "whitelist contradicts the configured extractor"
    );
    assert_eq!(ConfigError::NoExtractor.describe(), "no key extractor was configured");
    assert_eq!(
        ConfigError::MissingConnectInfoAcknowledgement.describe(),
        "PeerIp or SmartIp requires expect_connect_info() before finish()"
    );
}
