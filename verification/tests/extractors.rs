use axum_governor::extractor::extension::extension_outcome;
use axum_governor::extractor::ip::{any_contains, apply_prefix, mask_ipv6, IpAddr, IpNet};
use axum_governor::extractor::smart_ip::{choose_client, first_untrusted, last_untrusted};
use axum_governor::extractor::{
    Compound, Cookie, Extension, Global, Header, KeyExtractor, KeyOutcome, Pair, PeerIp, SmartIp,
};
use axum_governor::request::{Method, Parts};
use axum_governor::{ExtractionError, Quota};
use http::header::{AUTHORIZATION, CONTENT_TYPE};
use http::{HeaderMap, HeaderName, HeaderValue};

fn ip(s: &str) -> IpAddr {
    match ipnet::IpNet::new(s.parse().unwrap(), 0).unwrap() {
        ipnet::IpNet::V4(n) => IpAddr::V4(n.addr().into()),
        ipnet::IpNet::V6(n) => IpAddr::V6(n.addr().into()),
    }
}

fn net(s: &str) -> IpNet {
    let n: ipnet::IpNet = s.parse().unwrap();
    IpNet::new(ip(&n.addr().to_string()), n.prefix_len()).unwrap()
}

fn parts_without_anything() -> Parts {
    Parts {
        method: Method::GET,
        path: "/".to_owned(),
        headers: HeaderMap::new(),
        peer: None,
        extensions: http::Extensions::new(),
    }
}

fn parts_with_header(name: &str, value: &str) -> Parts {
    let mut parts = parts_without_anything();
    parts.headers.append(
        HeaderName::from_bytes(name.as_bytes()).unwrap(),
        HeaderValue::from_str(value).unwrap(),
    );
    parts
}

fn parts_with_peer(peer: &str) -> Parts {
    let mut parts = parts_without_anything();
    parts.peer = Some(ip(peer));
    parts
}

fn parts_with_peer_and_header(peer: &str, name: &str, value: &str) -> Parts {
    let mut parts = parts_with_header(name, value);
    parts.peer = Some(ip(peer));
    parts
}

// --- compound ---

fn auth() -> Header {
    Header("authorization")
}

fn content_type() -> Header {
    Header("content-type")
}

#[test]
fn both_succeed_returns_tuple_key() {
    let mut parts = parts_with_header("authorization", "Bearer token");
    parts.headers.insert(CONTENT_TYPE, HeaderValue::from_static("application/json"));
    let outcome = Compound(auth(), content_type()).extract(&parts).ok().unwrap();
    assert_eq!(outcome.key, Pair("Bearer token".to_owned(), "application/json".to_owned()));
}

#[test]
fn a_fails_returns_a_error() {
    let parts = parts_without_anything();
    assert!(matches!(
        Compound(auth(), content_type()).extract(&parts),
        Err(ExtractionError::MissingHeader("authorization"))
    ));
}

#[test]
fn b_fails_when_a_succeeds_returns_b_error() {
    let parts = parts_with_header("authorization", "Bearer token");
    assert!(matches!(
        Compound(auth(), content_type()).extract(&parts),
        Err(ExtractionError::MissingHeader("content-type"))
    ));
}

struct Tier(Option<u32>);

impl KeyExtractor for Tier {
    type Key = u32;

    fn extract(&self, _parts: &Parts) -> Result<KeyOutcome<u32>, ExtractionError> {
        let outcome = KeyOutcome::new(7);
        Ok(match self.0 {
            Some(n) => outcome.with_quota_override(Quota::requests_per_second(n)),
            None => outcome,
        })
    }
}

#[test]
fn the_first_override_wins() {
    let parts = parts_without_anything();
    let of = |a, b| Compound(Tier(a), Tier(b)).extract(&parts).ok().unwrap().quota_override;
    assert_eq!(of(Some(1), Some(2)), Some(Quota::requests_per_second(1)));
    assert_eq!(of(None, Some(2)), Some(Quota::requests_per_second(2)));
    assert_eq!(of(None, None), None);
}

// --- cookie ---

fn parts_with_cookie(value: &str) -> Parts {
    parts_with_header("cookie", value)
}

fn cookie(name: &'static str, value: &str) -> String {
    Cookie(name).extract(&parts_with_cookie(value)).ok().unwrap().key
}

#[test]
fn present_cookie_returns_value() {
    assert_eq!(cookie("session", "session=abc123"), "abc123");
}

#[test]
fn quoted_value_preserved() {
    assert_eq!(cookie("token", "token=\"v\""), "\"v\"");
}

#[test]
fn second_cookie_in_header_matched() {
    assert_eq!(cookie("session", "foo=bar; session=abc123"), "abc123");
}

#[test]
fn absent_cookie_returns_other() {
    let parts = parts_without_anything();
    match Cookie("session").extract(&parts) {
        Err(ExtractionError::Other(text)) => {
            assert_eq!(text, "cookie 'session' not found in request");
        }
        _ => panic!("expected another error"),
    }
}

#[test]
fn cookies_are_trimmed_and_cut_at_the_first_sign() {
    assert_eq!(cookie("a", "a=1; a=2"), "1");
    assert_eq!(cookie("a", " a \t=  x=y  ;b=2"), "x=y");
}

#[test]
fn unreadable_cookie_headers_are_skipped() {
    let mut parts = parts_without_anything();
    parts.headers.append("cookie", HeaderValue::from_bytes(b"a=\xff").unwrap());
    parts.headers.append("cookie", HeaderValue::from_static("a=later"));
    assert_eq!(Cookie("a").extract(&parts).ok().unwrap().key, "later");
}

// --- extension ---

#[test]
fn present_extension_returns_value() {
    let mut parts = parts_without_anything();
    parts.extensions.insert(String::from("alice"));
    assert_eq!(Extension::<String>::new().extract(&parts).ok().unwrap().key, "alice");
}

#[test]
fn absent_extension_returns_other() {
    let parts = parts_without_anything();
    assert!(matches!(
        Extension::<String>::new().extract(&parts),
        Err(ExtractionError::Other(_))
    ));
}

#[test]
fn absent_extension_is_named() {
    let parts = parts_without_anything();
    let named = Extension::<u8>::labelled("UserId").clone();
    match named.extract(&parts) {
        Err(e) => assert_eq!(e.describe(), "extension 'UserId' not found in request"),
        Ok(_) => panic!("nothing is there"),
    }
    assert_eq!(extension_outcome(Some(3), "UserId").ok().unwrap().key, 3);
}

// --- global ---

#[test]
fn extract_returns_unit_key() {
    let parts = parts_without_anything();
    assert!(Global.extract(&parts).is_ok());
}

// --- header ---

#[test]
fn present_header_returns_value() {
    let parts = parts_with_header("authorization", "Bearer token123");
    assert_eq!(auth().extract(&parts).ok().unwrap().key, "Bearer token123");
}

#[test]
fn absent_header_returns_missing() {
    let parts = parts_without_anything();
    assert!(matches!(
        auth().extract(&parts),
        Err(ExtractionError::MissingHeader("authorization"))
    ));
}

#[test]
fn non_utf8_header_returns_malformed() {
    let value = HeaderValue::from_bytes(b"\x80\x81").unwrap();
    let mut parts = parts_without_anything();
    parts.headers.insert(AUTHORIZATION, value);
    assert!(matches!(
        auth().extract(&parts),
        Err(ExtractionError::MalformedHeader("authorization"))
    ));
}

#[test]
fn header_names_are_looked_up_in_any_case() {
    let mut parts = parts_with_header("x-api-key", "first");
    parts.headers.append("x-api-key", HeaderValue::from_static("second"));
    assert_eq!(Header("X-Api-Key").extract(&parts).ok().unwrap().key, "first");
    assert!(Header("not a name").extract(&parts).is_err());
}

// --- ip ---

#[test]
fn prefix_56_clears_the_host_bits() {
    let full = ip("2001:db8:1234:5678:9abc:def0:1234:5678");
    assert_eq!(apply_prefix(full, 56), ip("2001:db8:1234:5600::"));
}

#[test]
fn prefix_0_and_128_are_the_two_extremes() {
    let full = ip("2001:db8:1234:5678:9abc:def0:1234:5678");
    assert_eq!(apply_prefix(full, 0), IpAddr::V6(0));
    assert_eq!(apply_prefix(full, 128), full);
}

#[test]
fn prefix_above_128_is_clamped() {
    let full = ip("2001:db8::1");
    assert_eq!(apply_prefix(full, 200), full);
}

#[test]
fn ipv4_is_untouched() {
    let v4 = ip("1.2.3.4");
    assert_eq!(apply_prefix(v4, 0), v4);
}

#[test]
fn prefix_masks_are_stable_and_shared() {
    let a = ip("2001:db8:1234:5678::1");
    let b = ip("2001:db8:1234:5699::2");
    for prefix in [1u8, 47, 48, 56, 57, 64, 127] {
        assert_eq!(apply_prefix(apply_prefix(a, prefix), prefix), apply_prefix(a, prefix));
    }
    assert_eq!(apply_prefix(a, 56), apply_prefix(b, 56));
    assert_ne!(apply_prefix(a, 57), apply_prefix(b, 57));
}

#[test]
fn networks_hold_their_addresses() {
    assert!(net("10.0.0.0/8").contains(&ip("10.255.0.1")));
    assert!(!net("10.0.0.0/8").contains(&ip("11.0.0.1")));
    assert!(net("10.1.2.3/8").contains(&ip("10.0.0.0")));
    assert!(net("1.2.3.4/32").contains(&ip("1.2.3.4")));
    assert!(!net("1.2.3.4/32").contains(&ip("1.2.3.5")));
    assert!(net("0.0.0.0/0").contains(&ip("255.255.255.255")));
    assert!(!net("0.0.0.0/0").contains(&ip("::1")));
    assert!(net("2001:db8::/32").contains(&ip("2001:db8:ffff::1")));
    assert!(!net("2001:db8::/32").contains(&ip("2001:db9::1")));
    assert!(!net("::/0").contains(&ip("1.2.3.4")));
    assert!(IpNet::new(ip("1.2.3.4"), 33).is_none());
    assert!(IpNet::new(ip("::"), 129).is_none());
    assert_eq!(net("10.1.2.3/8").prefix_len(), 8);
    assert_eq!(net("10.1.2.3/8").addr(), ip("10.1.2.3"));
}

#[test]
fn peer_ip_absent_without_connect_info() {
    assert!(matches!(
        PeerIp::default().extract(&parts_without_anything()),
        Err(ExtractionError::MissingConnectInfo)
    ));
    assert!(matches!(
        SmartIp::new().extract(&parts_without_anything()),
        Err(ExtractionError::MissingConnectInfo)
    ));
}

// --- peer ip ---

#[test]
fn ipv4_peer_returned_unchanged() {
    let key = PeerIp::default().extract(&parts_with_peer("1.2.3.4")).ok().unwrap().key;
    assert_eq!(key, ip("1.2.3.4"));
}

#[test]
fn absent_peer_returns_missing_connect_info() {
    assert!(matches!(
        PeerIp::default().extract(&parts_without_anything()),
        Err(ExtractionError::MissingConnectInfo)
    ));
}

#[test]
fn default_prefix_is_56() {
    let parts = parts_with_peer("2001:db8:1234:5678:9abc:def0:1234:5678");
    let key = PeerIp::default().extract(&parts).ok().unwrap().key;
    assert_eq!(key, ip("2001:db8:1234:5600::"));
}

#[test]
fn explicit_prefix_is_applied() {
    let parts = parts_with_peer("2001:db8:1234:5678:9abc:def0:1234:5678");
    let key = PeerIp::ipv6_prefix(64).extract(&parts).ok().unwrap().key;
    assert_eq!(key, ip("2001:db8:1234:5678::"));
}

// --- smart ip ---

fn smart() -> SmartIp {
    SmartIp::new().with_trusted_proxies(vec![net("10.0.0.0/8")])
}

fn smart_key(parts: &Parts) -> IpAddr {
    smart().extract(parts).ok().unwrap().key
}

#[test]
fn empty_trust_list_uses_peer_ignores_headers() {
    let parts = parts_with_peer_and_header("8.8.8.8", "x-forwarded-for", "1.2.3.4");
    let key = SmartIp::new().extract(&parts).ok().unwrap().key;
    assert_eq!(key, ip("8.8.8.8"));
}

#[test]
fn peer_in_trusted_xff_single_entry_returned() {
    let parts = parts_with_peer_and_header("10.0.0.1", "x-forwarded-for", "8.8.8.8");
    assert_eq!(smart_key(&parts), ip("8.8.8.8"));
}

#[test]
fn peer_in_trusted_xff_last_untrusted_returned() {
    let parts = parts_with_peer_and_header("10.0.0.1", "x-forwarded-for", "8.8.8.8, 10.0.0.2");
    assert_eq!(smart_key(&parts), ip("8.8.8.8"));
}

#[test]
fn peer_in_trusted_real_ip_used_when_no_xff() {
    let parts = parts_with_peer_and_header("10.0.0.1", "x-real-ip", "8.8.8.8");
    assert_eq!(smart_key(&parts), ip("8.8.8.8"));
}

#[test]
fn untrusted_peer_with_xff_returns_untrusted_proxy() {
    let parts = parts_with_peer_and_header("8.8.8.8", "x-forwarded-for", "1.2.3.4");
    assert!(matches!(smart().extract(&parts), Err(ExtractionError::UntrustedProxy)));
}

#[test]
fn trusted_non_empty_no_connect_info_returns_missing() {
    assert!(matches!(
        smart().extract(&parts_without_anything()),
        Err(ExtractionError::MissingConnectInfo)
    ));
}

#[test]
fn ipv6_peer_masked_to_default_prefix() {
    let key = SmartIp::new().extract(&parts_with_peer("2001:db8::1")).ok().unwrap().key;
    assert_eq!(key, ip("2001:db8::"));
}

#[test]
fn forwarded_is_read_last_and_first_hop_first() {
    let parts = parts_with_peer_and_header(
        "10.0.0.1",
        "forwarded",
        "for=10.0.0.9, for=unknown, for=\"[2001:db8:1:2::1]:80\";proto=http, for=9.9.9.9",
    );
    assert_eq!(smart_key(&parts), ip("2001:db8:1::"));
    let mut both = parts_with_peer_and_header("10.0.0.1", "forwarded", "for=9.9.9.9");
    both.headers.insert("x-real-ip", HeaderValue::from_static("7.7.7.7"));
    assert_eq!(smart_key(&both), ip("7.7.7.7"));
    both.headers.insert("x-forwarded-for", HeaderValue::from_static("10.0.0.3, no address"));
    assert_eq!(smart_key(&both), ip("7.7.7.7"));
    both.headers.append("x-forwarded-for", HeaderValue::from_static("6.6.6.6 , 10.0.0.4"));
    assert_eq!(smart_key(&both), ip("6.6.6.6"));
}

#[test]
fn unreadable_forwarded_values_are_skipped() {
    let mut parts = parts_with_peer_and_header("10.0.0.1", "forwarded", "nonsense");
    assert_eq!(smart_key(&parts), ip("10.0.0.1"));
    parts.headers.append("forwarded", HeaderValue::from_static("for=1.1.1.1;host=\""));
    parts.headers.append("forwarded", HeaderValue::from_static("for=2.2.2.2; HOST=\""));
    assert_eq!(smart_key(&parts), ip("10.0.0.1"));
    parts.headers.append("forwarded", HeaderValue::from_bytes(b"for=\xff").unwrap());
    parts.headers.append("forwarded", HeaderValue::from_static("for=3.3.3.3;host=\"a\";x=\""));
    assert_eq!(smart_key(&parts), ip("3.3.3.3"));
}

#[test]
fn untrusted_peer_without_headers_is_itself() {
    assert_eq!(smart_key(&parts_with_peer("8.8.8.8")), ip("8.8.8.8"));
    let key = smart()
        .ipv6_prefix(200)
        .extract(&parts_with_peer("2001:db8::1"))
        .ok()
        .unwrap()
        .key;
    assert_eq!(key, ip("2001:db8::1"));
}

#[test]
fn client_from_given_addresses() {
    let trusted = vec![net("10.0.0.0/8"), net("fd00::/8")];
    let (proxy, a, b) = (ip("10.1.1.1"), ip("1.1.1.1"), ip("2.2.2.2"));
    assert!(any_contains(&trusted, &proxy));
    assert!(!any_contains(&trusted, &a));
    let hops = vec![None, Some(proxy), Some(a), Some(b), Some(proxy), None];
    assert_eq!(first_untrusted(&hops, &trusted), Some(a));
    assert_eq!(last_untrusted(&hops, &trusted), Some(b));
    assert_eq!(last_untrusted(&vec![None, Some(proxy)], &trusted), None);
    assert_eq!(first_untrusted(&vec![], &trusted), None);
    let choose = |peer, forwarding, named| choose_client(peer, &trusted, forwarding, named).ok();
    assert_eq!(choose(Some(proxy), true, Some(a)), Some(a));
    assert_eq!(choose(Some(proxy), true, None), Some(proxy));
    assert_eq!(choose(Some(a), false, None), Some(a));
    assert_eq!(choose(Some(a), true, Some(b)), None);
    assert_eq!(choose(None, false, None), None);
    assert_eq!(choose_client(Some(a), &vec![], true, Some(b)).ok(), Some(a));
}

#[test]
fn masking_twice_keeps_the_shorter_prefix() {
    let a = ip("2001:db8:1234:5678:9abc:def0:1357:2468");
    for p in [0u8, 1, 48, 56, 127, 128, 200] {
        for q in [0u8, 1, 48, 56, 127, 128, 200] {
            assert_eq!(apply_prefix(apply_prefix(a, p), q), apply_prefix(a, p.min(q)));
        }
    }
}

#[test]
fn a_name_with_a_quotation_mark_is_found() {
    let mut parts = parts_without_anything();
    let name = http::HeaderName::from_lowercase(b"a\"b").unwrap();
    parts.headers.insert(name, http::HeaderValue::from_static("key"));
    assert_eq!(Header("a\"b").extract(&parts).unwrap().key, "key");
    assert_eq!(Header("A\"B").extract(&parts).unwrap().key, "key");
    assert!(Header("ab").extract(&parts).is_err());
    assert!(Header("not a name").extract(&parts).is_err());
}

#[test]
fn mask_ipv6_keeps_the_leading_bits() {
    assert_eq!(mask_ipv6(u128::MAX, 0), 0);
    assert_eq!(mask_ipv6(u128::MAX, 1), 1u128 << 127);
    assert_eq!(mask_ipv6(u128::MAX, 56), u128::MAX << 72);
    assert_eq!(mask_ipv6(u128::MAX, 128), u128::MAX);
    assert_eq!(mask_ipv6(u128::MAX, 255), u128::MAX);
    assert_eq!(mask_ipv6(5, 127), 4);
}
