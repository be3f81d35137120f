use axum_governor::duration::Duration;
use axum_governor::error::StateSnapshot;
use axum_governor::response::{default_body, default_status};
use axum_governor::service::respond::{build_base_response, build_reject_response};
use axum_governor::{BodyPreset, ConfigError, ExtractionError, Quota, RejectionReason};
use http::{HeaderMap, HeaderValue};

fn quota_exceeded(wait: Duration) -> RejectionReason {
    RejectionReason::QuotaExceeded {
        wait,
        snapshot: StateSnapshot { quota: Quota::requests_per_second(1), remaining: 0 },
        key: Some(()),
        policy_name: "default".to_owned(),
    }
}

fn quota_exceeded_5s() -> RejectionReason {
    quota_exceeded(Duration::from_secs(5))
}

fn failed(e: ExtractionError) -> RejectionReason {
    RejectionReason::KeyExtractionFailed(e)
}

#[test]
fn error_variants_are_nameable() {
    let _: ExtractionError = ExtractionError::MissingConnectInfo;
    let _: ConfigError = ConfigError::NoExtractor;
}

#[test]
fn rejection_reason_variant_is_nameable() {
    let _: RejectionReason = RejectionReason::KeyExtractionFailed(ExtractionError::UntrustedProxy);
}

#[test]
fn status_quota_exceeded() {
    assert_eq!(default_status(&quota_exceeded_5s()), 429);
}

#[test]
fn status_missing_header() {
    assert_eq!(default_status(&failed(ExtractionError::MissingHeader("x-api-key"))), 400);
}

#[test]
fn status_malformed_header() {
    assert_eq!(default_status(&failed(ExtractionError::MalformedHeader("x-api-key"))), 400);
}

#[test]
fn status_missing_connect_info() {
    assert_eq!(default_status(&failed(ExtractionError::MissingConnectInfo)), 500);
}

#[test]
fn status_untrusted_proxy() {
    assert_eq!(default_status(&failed(ExtractionError::UntrustedProxy)), 400);
}

#[test]
fn status_other() {
    assert_eq!(default_status(&failed(ExtractionError::Other("oops".to_owned()))), 500);
}

#[test]
fn text_body_quota_exceeded() {
    let (ct, body) = default_body(BodyPreset::Text, &quota_exceeded_5s());
    assert_eq!(ct, "text/plain; charset=utf-8");
    assert_eq!(body, b"Too Many Requests, retry in 5s");
}

#[test]
fn text_body_key_extraction_400() {
    let r = failed(ExtractionError::MissingHeader("x-api-key"));
    let (ct, body) = default_body(BodyPreset::Text, &r);
    assert_eq!(ct, "text/plain; charset=utf-8");
    assert_eq!(body, b"Bad Request: required header 'x-api-key' is missing");
}

#[test]
fn text_body_key_extraction_500() {
    let r = failed(ExtractionError::MissingConnectInfo);
    let (ct, body) = default_body(BodyPreset::Text, &r);
    assert_eq!(ct, "text/plain; charset=utf-8");
    assert_eq!(body, b"Internal Server Error: connect info extension is absent");
}

#[test]
fn json_body_quota_exceeded() {
    let (ct, body) = default_body(BodyPreset::Json, &quota_exceeded_5s());
    assert_eq!(ct, "application/json");
    let v: serde_json::Value = serde_json::from_slice(&body).unwrap();
    assert_eq!(v["error"], "too_many_requests");
    assert_eq!(v["retry_after_seconds"], 5);
    assert_eq!(body, br#"{"error":"too_many_requests","retry_after_seconds":5}"#);
}

#[test]
fn json_body_key_extraction_400() {
    let r = failed(ExtractionError::MissingHeader("x-api-key"));
    let (ct, body) = default_body(BodyPreset::Json, &r);
    assert_eq!(ct, "application/json");
    let v: serde_json::Value = serde_json::from_slice(&body).unwrap();
    assert_eq!(v["error"], "bad_request");
    assert!(v["detail"].is_string());
}

#[test]
fn json_body_key_extraction_500() {
    let r = failed(ExtractionError::MissingConnectInfo);
    let (ct, body) = default_body(BodyPreset::Json, &r);
    assert_eq!(ct, "application/json");
    let v: serde_json::Value = serde_json::from_slice(&body).unwrap();
    assert_eq!(v["error"], "internal_server_error");
    assert!(v["detail"].is_string());
}

#[test]
fn problem_json_body_quota_exceeded() {
    let (ct, body) = default_body(BodyPreset::ProblemJson, &quota_exceeded_5s());
    assert_eq!(ct, "application/problem+json");
    let v: serde_json::Value = serde_json::from_slice(&body).unwrap();
    assert_eq!(v["type"], "about:blank");
    assert_eq!(v["title"], "Too Many Requests");
    assert_eq!(v["status"], 429);
    assert!(v["detail"].as_str().unwrap().contains("5"));
    assert_eq!(v["detail"], "Rate limit exceeded; retry in 5 seconds");
}

#[test]
fn problem_json_body_key_extraction_400() {
    let r = failed(ExtractionError::MissingHeader("x-api-key"));
    let (ct, body) = default_body(BodyPreset::ProblemJson, &r);
    assert_eq!(ct, "application/problem+json");
    let v: serde_json::Value = serde_json::from_slice(&body).unwrap();
    assert_eq!(v["status"], 400);
    assert_eq!(v["title"], "Bad Request");
}

#[test]
fn problem_json_body_key_extraction_500() {
    let r = failed(ExtractionError::MissingConnectInfo);
    let (ct, body) = default_body(BodyPreset::ProblemJson, &r);
    assert_eq!(ct, "application/problem+json");
    let v: serde_json::Value = serde_json::from_slice(&body).unwrap();
    assert_eq!(v["status"], 500);
    assert_eq!(v["title"], "Internal Server Error");
}

#[test]
fn a_wait_below_a_second_is_told_as_one() {
    let (_, body) = default_body(BodyPreset::Text, &quota_exceeded(Duration::from_nanos(1)));
    assert_eq!(body, b"Too Many Requests, retry in 1s");
}

#[test]
fn extraction_errors_describe_themselves() {
    assert_eq!(
        ExtractionError::MalformedHeader("h").describe(),
        "header 'h' contains invalid data"
    );
    assert_eq!(
        ExtractionError::UntrustedProxy.describe(),
        "request originated from an untrusted proxy"
    );
    assert_eq!(ExtractionError::Other("a \"b\"".to_owned()).describe(), "a \"b\"");
}

#[test]
fn base_response_has_the_content_type() {
    let r = build_base_response(BodyPreset::Json, &failed(ExtractionError::Other("\"".to_owned())));
    assert_eq!(r.status, 500);
    assert_eq!(r.headers.len(), 1);
    assert_eq!(r.headers["content-type"], "application/json");
    let v: serde_json::Value = serde_json::from_slice(&r.body).unwrap();
    assert_eq!(v["detail"], "\"");
}

#[test]
fn reject_response_takes_the_rate_limit_headers() {
    let mut extra = HeaderMap::new();
    extra.insert("retry-after", HeaderValue::from_static("5"));
    extra.insert("content-type", HeaderValue::from_static("other"));
    let r = build_reject_response(BodyPreset::Text, &quota_exceeded_5s(), &extra);
    assert_eq!(r.status, 429);
    assert_eq!(r.headers["retry-after"], "5");
    assert_eq!(r.headers["content-type"], "text/plain; charset=utf-8");
}
