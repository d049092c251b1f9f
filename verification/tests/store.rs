use moq_api::errors::ApiError;
use moq_api::origin::{Origin, OriginUrl};
use moq_api::registry::Registry;
use moq_api::ORIGIN_TTL_SECS;

fn record(host: &str) -> Origin {
    Origin {
        url: OriginUrl {
            scheme: String::from("http"),
            host: host.to_string(),
            port: Some(1),
            path: String::from("/s"),
            query: None,
        },
    }
}

fn ns() -> String {
    String::from("show")
}

#[test]
fn get_absent_is_none() {
    let reg = Registry::new();
    assert!(reg.get(&ns(), &"1".to_string(), 0).is_none());
}

#[test]
fn put_then_get_round_trip() {
    let mut reg = Registry::new();
    let r = reg.put_if_consistent(&ns(), &"2".to_string(), &record("a"), 0, ORIGIN_TTL_SECS);
    assert!(r.is_ok());
    let got = reg.get(&ns(), &"2".to_string(), 0).unwrap();
    assert!(got.same_as(&record("a")));
    assert!(reg.get(&ns(), &"3".to_string(), 0).is_none());
}

#[test]
fn put_identical_is_noop_and_extends_nothing() {
    let mut reg = Registry::new();
    reg.put_if_consistent(&ns(), &"2".to_string(), &record("a"), 0, ORIGIN_TTL_SECS)
        .unwrap();
    // a refresh with identical content succeeds but does not move the expiry
    let r = reg.put_if_consistent(&ns(), &"2".to_string(), &record("a"), 300, ORIGIN_TTL_SECS);
    assert!(r.is_ok());
    assert!(reg.get(&ns(), &"2".to_string(), 599).is_some());
    assert!(reg.get(&ns(), &"2".to_string(), 600).is_none());
}

#[test]
fn put_different_conflicts_and_keeps_original() {
    let mut reg = Registry::new();
    reg.put_if_consistent(&ns(), &"2".to_string(), &record("a"), 0, ORIGIN_TTL_SECS)
        .unwrap();
    let r = reg.put_if_consistent(&ns(), &"2".to_string(), &record("b"), 1, ORIGIN_TTL_SECS);
    assert_eq!(r, Err(ApiError::Conflict));
    let got = reg.get(&ns(), &"2".to_string(), 1).unwrap();
    assert!(got.same_as(&record("a")));
}

#[test]
fn expired_key_can_be_claimed_anew() {
    let mut reg = Registry::new();
    reg.put_if_consistent(&ns(), &"2".to_string(), &record("a"), 0, ORIGIN_TTL_SECS)
        .unwrap();
    // at the expiry instant the old record is gone, different content may claim the key
    let r = reg.put_if_consistent(&ns(), &"2".to_string(), &record("b"), 600, ORIGIN_TTL_SECS);
    assert!(r.is_ok());
    let got = reg.get(&ns(), &"2".to_string(), 601).unwrap();
    assert!(got.same_as(&record("b")));
}

#[test]
fn ttl_expiry_makes_record_absent() {
    let mut reg = Registry::new();
    reg.put_if_consistent(&ns(), &"2".to_string(), &record("a"), 0, ORIGIN_TTL_SECS)
        .unwrap();
    assert!(reg.get(&ns(), &"2".to_string(), 0).is_some());
    assert!(reg.get(&ns(), &"2".to_string(), 599).is_some());
    assert!(reg.get(&ns(), &"2".to_string(), 600).is_none());
    assert!(reg.get(&ns(), &"2".to_string(), 7000).is_none());
}

#[test]
fn revoke_removes_every_relay_record() {
    let mut reg = Registry::new();
    reg.put_if_consistent(&ns(), &"1".to_string(), &record("a"), 0, ORIGIN_TTL_SECS)
        .unwrap();
    reg.put_if_consistent(&ns(), &"2".to_string(), &record("b"), 0, ORIGIN_TTL_SECS)
        .unwrap();
    reg.put_if_consistent(&"other".to_string(), &"1".to_string(), &record("c"), 0, ORIGIN_TTL_SECS)
        .unwrap();
    let r = reg.revoke(&ns(), 0);
    assert!(r.is_ok());
    assert!(reg.get(&ns(), &"1".to_string(), 0).is_none());
    assert!(reg.get(&ns(), &"2".to_string(), 0).is_none());
    // the other namespace is untouched
    assert!(reg.get(&"other".to_string(), &"1".to_string(), 0).is_some());
}

#[test]
fn revoke_without_live_records_is_not_found() {
    let mut reg = Registry::new();
    assert_eq!(reg.revoke(&ns(), 0), Err(ApiError::NotFound));
    reg.put_if_consistent(&ns(), &"1".to_string(), &record("a"), 0, ORIGIN_TTL_SECS)
        .unwrap();
    // once everything expired there is nothing live left to revoke
    assert_eq!(reg.revoke(&ns(), 600), Err(ApiError::NotFound));
}

#[test]
fn refresh_matching_content_succeeds() {
    let mut reg = Registry::new();
    reg.put_if_consistent(&ns(), &"1".to_string(), &record("a"), 0, ORIGIN_TTL_SECS)
        .unwrap();
    reg.put_if_consistent(&ns(), &"2".to_string(), &record("a"), 0, ORIGIN_TTL_SECS)
        .unwrap();
    assert!(reg.refresh_ttl(&ns(), &record("a"), 0).is_ok());
}

#[test]
fn refresh_mismatch_is_conflict() {
    let mut reg = Registry::new();
    reg.put_if_consistent(&ns(), &"1".to_string(), &record("a"), 0, ORIGIN_TTL_SECS)
        .unwrap();
    reg.put_if_consistent(&ns(), &"2".to_string(), &record("b"), 0, ORIGIN_TTL_SECS)
        .unwrap();
    assert_eq!(reg.refresh_ttl(&ns(), &record("a"), 0), Err(ApiError::Conflict));
}

#[test]
fn refresh_ignores_expired_and_other_namespaces() {
    let mut reg = Registry::new();
    reg.put_if_consistent(&ns(), &"1".to_string(), &record("a"), 0, ORIGIN_TTL_SECS)
        .unwrap();
    reg.put_if_consistent(&ns(), &"2".to_string(), &record("b"), 300, ORIGIN_TTL_SECS)
        .unwrap();
    reg.put_if_consistent(&"other".to_string(), &"1".to_string(), &record("c"), 0, ORIGIN_TTL_SECS)
        .unwrap();
    // the differing record for relay 1 has lapsed; only relay 2's survives,
    // and the record for the other namespace never counts
    assert!(reg.refresh_ttl(&ns(), &record("b"), 700).is_ok());
}

#[test]
fn refresh_without_live_records_is_not_found() {
    let mut reg = Registry::new();
    // a refresh on a namespace with no records targets nothing
    assert_eq!(reg.refresh_ttl(&ns(), &record("a"), 0), Err(ApiError::NotFound));
    reg.put_if_consistent(&ns(), &"1".to_string(), &record("a"), 0, ORIGIN_TTL_SECS)
        .unwrap();
    // once every record has expired there is nothing left to refresh
    assert_eq!(reg.refresh_ttl(&ns(), &record("a"), 600), Err(ApiError::NotFound));
}
