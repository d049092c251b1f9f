use moq_api::errors::ApiError;
use moq_api::keys::origin_key;
use moq_api::origin::{Origin, OriginUrl};
use moq_api::registry::{put_decision, WriteDecision};
use moq_api::relay::{parse_relay_port, relay_host, strip_relay_prefix};

fn sample_origin() -> Origin {
    Origin {
        url: OriginUrl {
            scheme: String::from("http"),
            host: String::from("pub"),
            port: None,
            path: String::from("/stream"),
            query: None,
        },
    }
}

#[test]
fn origin_key_layout() {
    assert_eq!(origin_key("news", "3"), "origin.3.news");
    assert_eq!(origin_key("a/b", "12"), "origin.12.a/b");
    assert_eq!(origin_key("", "1"), "origin.1.");
}

#[test]
fn origin_key_distinct_pairs_distinct_keys() {
    assert_ne!(origin_key("news", "3"), origin_key("news", "31"));
    assert_ne!(origin_key("news", "3"), origin_key("sport", "3"));
    assert_ne!(origin_key("1.news", "3"), origin_key("news", "3"));
}

#[test]
fn parse_relay_port_accepts_digit_runs() {
    assert_eq!(parse_relay_port("0"), Some(0));
    assert_eq!(parse_relay_port("7"), Some(7));
    assert_eq!(parse_relay_port("65535"), Some(65535));
    assert_eq!(parse_relay_port("007"), Some(7));
}

#[test]
fn parse_relay_port_rejects_non_ports() {
    assert_eq!(parse_relay_port(""), None);
    assert_eq!(parse_relay_port("65536"), None);
    assert_eq!(parse_relay_port("123456789123456789123456789"), None);
    assert_eq!(parse_relay_port("1a"), None);
    assert_eq!(parse_relay_port("relay1"), None);
    assert_eq!(parse_relay_port("-1"), None);
}

#[test]
fn strip_relay_prefix_strips_only_the_prefix() {
    assert_eq!(strip_relay_prefix("relay7"), "7");
    assert_eq!(strip_relay_prefix("7"), "7");
    assert_eq!(strip_relay_prefix("rela"), "rela");
    assert_eq!(strip_relay_prefix("relayrelay9"), "relay9");
    assert_eq!(strip_relay_prefix("relay"), "");
}

#[test]
fn relay_host_convention() {
    assert_eq!(relay_host("2"), "relay2");
    assert_eq!(relay_host(""), "relay");
}

#[test]
fn rewrite_replaces_host_and_port_only() {
    let origin = Origin {
        url: OriginUrl {
            scheme: String::from("https"),
            host: String::from("ingest.example"),
            port: Some(4443),
            path: String::from("/live/show"),
            query: Some(String::from("token=abc")),
        },
    };
    let rewritten = moq_api::origin::rewrite_for_hop(&origin, "15");
    assert_eq!(rewritten.url.scheme, "https");
    assert_eq!(rewritten.url.host, "relay15");
    assert_eq!(rewritten.url.port, Some(15));
    assert_eq!(rewritten.url.path, "/live/show");
    assert_eq!(rewritten.url.query, Some(String::from("token=abc")));
}

#[test]
fn record_equality_is_structural() {
    let a = sample_origin();
    let mut b = sample_origin();
    assert!(a.same_as(&b));
    b.url.port = Some(80);
    assert!(!a.same_as(&b));
}

#[test]
fn error_status_codes() {
    assert_eq!(ApiError::UnauthorizedPublisher.status_code(), 400);
    assert_eq!(ApiError::NotFound.status_code(), 404);
    assert_eq!(ApiError::Conflict.status_code(), 409);
    assert_eq!(ApiError::StoreUnavailable.status_code(), 500);
}

#[test]
fn write_decision_cases() {
    let a = sample_origin();
    let mut b = sample_origin();
    assert_eq!(put_decision(&None, &a), WriteDecision::Attempt);
    assert_eq!(put_decision(&Some(b.clone()), &a), WriteDecision::Refresh);
    b.url.host = String::from("elsewhere");
    assert_eq!(put_decision(&Some(b), &a), WriteDecision::Conflict);
}
