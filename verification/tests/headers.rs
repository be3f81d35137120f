use axum_governor::header_map::{
    fill_headers, is_header_text, merge_headers, room_for, to_str, HEADER_ROOM,
};
use axum_governor::headers::{
    quota_window_seconds, render_policy_value, write_ietf_policy_set, write_ietf_rate_limit,
    write_legacy_rate_limit, write_retry_after, PolicyDescriptor,
};
use axum_governor::Quota;
use http::{HeaderMap, HeaderName, HeaderValue};

#[test]
fn write_retry_after_emits_delta_seconds() {
    let mut headers = HeaderMap::new();
    write_retry_after(&mut headers, 5);
    assert_eq!(headers["retry-after"], "5");
}

#[test]
fn write_ietf_rate_limit_format() {
    let mut headers = HeaderMap::new();
    write_ietf_rate_limit(&mut headers, "default", 0, 5);
    assert_eq!(headers["ratelimit"], "\"default\";r=0;t=5");
}

#[test]
fn write_ietf_policy_set_one_policy() {
    let mut headers = HeaderMap::new();
    write_ietf_policy_set(
        &mut headers,
        &[PolicyDescriptor { name: "peer", quota: Quota::requests_per_second(10) }],
    );
    assert_eq!(headers["ratelimit-policy"], "\"peer\";q=10;w=1");
}

#[test]
fn write_ietf_policy_set_two_policies() {
    let mut headers = HeaderMap::new();
    write_ietf_policy_set(
        &mut headers,
        &[
            PolicyDescriptor { name: "peer", quota: Quota::requests_per_second(10) },
            PolicyDescriptor { name: "auth", quota: Quota::requests_per_minute(600) },
        ],
    );
    assert_eq!(headers["ratelimit-policy"], "\"peer\";q=10;w=1, \"auth\";q=600;w=60");
}

#[test]
fn write_ietf_policy_set_empty_writes_nothing() {
    let mut headers = HeaderMap::new();
    write_ietf_policy_set(&mut headers, &[]);
    assert!(headers.get("ratelimit-policy").is_none());
}

#[test]
fn render_policy_value_round_trips_through_set_writer() {
    let policies = [
        PolicyDescriptor { name: "peer", quota: Quota::requests_per_second(10) },
        PolicyDescriptor { name: "auth", quota: Quota::requests_per_minute(600) },
    ];
    let pre = render_policy_value(&policies).expect("non-empty policies render to a value");
    let mut headers = HeaderMap::new();
    write_ietf_policy_set(&mut headers, &policies);
    assert_eq!(headers["ratelimit-policy"], pre);
}

#[test]
fn render_policy_value_empty_returns_none() {
    assert!(render_policy_value(&[]).is_none());
}

#[test]
fn write_legacy_rate_limit_three_headers() {
    let mut headers = HeaderMap::new();
    write_legacy_rate_limit(&mut headers, 100, 0, 5);
    assert_eq!(headers["x-ratelimit-limit"], "100");
    assert_eq!(headers["x-ratelimit-remaining"], "0");
    assert_eq!(headers["x-ratelimit-reset"], "5");
}

#[test]
fn quota_window_seconds_per_second() {
    assert_eq!(quota_window_seconds(&Quota::requests_per_second(50)), 1);
}

#[test]
fn quota_window_seconds_per_minute() {
    assert_eq!(quota_window_seconds(&Quota::requests_per_minute(60)), 60);
}

#[test]
fn quota_window_seconds_per_hour() {
    assert_eq!(quota_window_seconds(&Quota::requests_per_hour(3600)), 3600);
}

#[test]
fn quota_window_seconds_burst() {
    assert_eq!(quota_window_seconds(&Quota::requests_per_second(1).burst(1000)), 1000);
}

#[test]
fn window_of_any_quota_per_second_is_one() {
    for n in [1u32, 3, 7, 999_999_999, u32::MAX] {
        assert_eq!(quota_window_seconds(&Quota::requests_per_second(n)), 1);
    }
    // Seven do not divide a minute's nanoseconds, so a little is lost.
    assert_eq!(quota_window_seconds(&Quota::requests_per_minute(7)), 59);
}

#[test]
fn numbers_of_any_length() {
    let mut headers = HeaderMap::new();
    write_retry_after(&mut headers, u64::MAX);
    assert_eq!(headers["retry-after"], "18446744073709551615");
    write_retry_after(&mut headers, 10);
    assert_eq!(headers["retry-after"], "10");
    assert_eq!(headers.get_all("retry-after").iter().count(), 1);
    write_ietf_rate_limit(&mut headers, "größe", 4_294_967_295, 0);
    assert_eq!(headers["ratelimit"].as_bytes(), "\"größe\";r=4294967295;t=0".as_bytes());
}

fn map(pairs: &[(&'static str, &'static str)]) -> HeaderMap {
    let mut m = HeaderMap::new();
    for (k, v) in pairs {
        m.append(HeaderName::from_static(k), HeaderValue::from_static(v));
    }
    m
}

#[test]
fn merging_replaces_and_filling_keeps() {
    let extra = map(&[("a", "1"), ("a", "2"), ("b", "3")]);
    let mut dst = map(&[("a", "x"), ("a", "y"), ("c", "z")]);
    merge_headers(&mut dst, &extra);
    assert_eq!(dst, map(&[("a", "1"), ("b", "3"), ("c", "z")]));

    let mut dst = map(&[("a", "x"), ("a", "y"), ("c", "z")]);
    fill_headers(&mut dst, &extra);
    assert_eq!(dst, map(&[("a", "x"), ("a", "y"), ("b", "3"), ("c", "z")]));

    let mut dst = map(&[("a", "x")]);
    merge_headers(&mut dst, &HeaderMap::new());
    assert_eq!(dst, map(&[("a", "x")]));
}

#[test]
fn room_runs_out() {
    let mut m = HeaderMap::new();
    assert!(room_for(&m, HEADER_ROOM));
    assert!(!room_for(&m, HEADER_ROOM + 1));
    for i in 0..10u32 {
        m.insert(
            HeaderName::from_bytes(format!("h{i}").as_bytes()).unwrap(),
            HeaderValue::from(i),
        );
    }
    assert!(room_for(&m, HEADER_ROOM - 10));
    assert!(!room_for(&m, HEADER_ROOM - 9));
}

#[test]
fn header_text_and_values() {
    assert_eq!(to_str(b"a b\t~").as_deref(), Some("a b\t~"));
    assert_eq!(to_str(b"\x80"), None);
    assert_eq!(to_str(b"a\x7f"), None);
    assert!(is_header_text("peer:1s"));
    assert!(is_header_text("größe"));
    assert!(!is_header_text("a\u{7f}"));
    assert!(!is_header_text("a\r\n"));
}

#[test]
fn names_with_a_quotation_mark_are_copied() {
    let name = http::HeaderName::from_lowercase(b"a\"b").unwrap();
    let mut extra = HeaderMap::new();
    extra.insert(name.clone(), http::HeaderValue::from_static("new"));
    let mut dst = HeaderMap::new();
    merge_headers(&mut dst, &extra);
    assert_eq!(dst[&name], "new");
    let mut own = HeaderMap::new();
    own.insert(name.clone(), http::HeaderValue::from_static("own"));
    fill_headers(&mut own, &extra);
    assert_eq!(own[&name], "own");
}
