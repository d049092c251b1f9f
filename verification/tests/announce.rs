use moq_api::engine::{announce, announce_plan};
use moq_api::errors::ApiError;
use moq_api::origin::{Origin, OriginUrl};
use moq_api::registry::Registry;
use moq_api::topology::Topology;
use moq_api::ORIGIN_TTL_SECS;

fn names(items: &[&str]) -> Vec<String> {
    items.iter().map(|s| s.to_string()).collect()
}

fn pairs(items: &[(&str, &str)]) -> Vec<(String, String)> {
    items.iter().map(|(a, b)| (a.to_string(), b.to_string())).collect()
}

fn chain() -> Topology {
    Topology::new(names(&["1", "2", "3"]), pairs(&[("1", "2"), ("2", "3")])).unwrap()
}

fn pub_url() -> Origin {
    Origin {
        url: OriginUrl {
            scheme: String::from("http"),
            host: String::from("pub"),
            port: None,
            path: String::from("/stream"),
            query: None,
        },
    }
}

fn ns() -> String {
    String::from("n")
}

#[test]
fn fanout_correctness_end_to_end() {
    let topo = chain();
    let mut reg = Registry::new();
    let r = announce(&mut reg, &topo, &"relay1".to_string(), &ns(), &pub_url(), 0);
    assert!(r.is_ok());
    // relay 2 points one hop back, at relay 1
    let got2 = reg.get(&ns(), &"2".to_string(), 0).unwrap();
    assert_eq!(got2.url.scheme, "http");
    assert_eq!(got2.url.host, "relay1");
    assert_eq!(got2.url.port, Some(1));
    assert_eq!(got2.url.path, "/stream");
    // relay 3 points at relay 2, not at the publisher
    let got3 = reg.get(&ns(), &"3".to_string(), 0).unwrap();
    assert_eq!(got3.url.host, "relay2");
    assert_eq!(got3.url.port, Some(2));
    // the publisher itself holds no record
    assert!(reg.get(&ns(), &"1".to_string(), 0).is_none());
}

#[test]
fn announce_accepts_bare_identifier() {
    let topo = chain();
    let mut reg = Registry::new();
    assert!(announce(&mut reg, &topo, &"1".to_string(), &ns(), &pub_url(), 0).is_ok());
    assert!(reg.get(&ns(), &"2".to_string(), 0).is_some());
}

#[test]
fn idempotent_announce() {
    let topo = chain();
    let mut reg = Registry::new();
    assert!(announce(&mut reg, &topo, &"relay1".to_string(), &ns(), &pub_url(), 0).is_ok());
    // the same announcement again is a no-op, never a conflict
    let r = announce(&mut reg, &topo, &"relay1".to_string(), &ns(), &pub_url(), 10);
    assert!(r.is_ok());
    // the no-op did not extend any expiry: records still lapse at the first deadline
    assert!(reg.get(&ns(), &"2".to_string(), 599).is_some());
    assert!(reg.get(&ns(), &"2".to_string(), 600).is_none());
}

#[test]
fn conflicting_announce_is_rejected() {
    let topo = chain();
    let mut reg = Registry::new();
    let mut other = pub_url();
    other.url.path = String::from("/elsewhere");
    // relay 2's key is already claimed with different content
    let claimed = moq_api::origin::rewrite_for_hop(&other, "1");
    reg.put_if_consistent(&ns(), &"2".to_string(), &claimed, 0, ORIGIN_TTL_SECS)
        .unwrap();
    let r = announce(&mut reg, &topo, &"relay1".to_string(), &ns(), &pub_url(), 0);
    assert_eq!(r, Err(ApiError::Conflict));
    // the stored record is unchanged
    let got = reg.get(&ns(), &"2".to_string(), 0).unwrap();
    assert!(got.same_as(&claimed));
}

#[test]
fn partial_fanout_is_not_rolled_back() {
    let topo = chain();
    let mut reg = Registry::new();
    let mut other = pub_url();
    other.url.path = String::from("/elsewhere");
    // the deeper relay 3 is claimed with different content; relay 2 is free
    let claimed = moq_api::origin::rewrite_for_hop(&other, "2");
    reg.put_if_consistent(&ns(), &"3".to_string(), &claimed, 0, ORIGIN_TTL_SECS)
        .unwrap();
    let r = announce(&mut reg, &topo, &"relay1".to_string(), &ns(), &pub_url(), 0);
    assert_eq!(r, Err(ApiError::Conflict));
    // the write committed before the conflict stays committed
    let got2 = reg.get(&ns(), &"2".to_string(), 0).unwrap();
    assert_eq!(got2.url.host, "relay1");
    // the conflicting key keeps its original record
    let got3 = reg.get(&ns(), &"3".to_string(), 0).unwrap();
    assert!(got3.same_as(&claimed));
}

#[test]
fn unauthorized_publisher_writes_nothing() {
    let topo = chain();
    let mut reg = Registry::new();
    let r = announce(&mut reg, &topo, &"relay9".to_string(), &ns(), &pub_url(), 0);
    assert_eq!(r, Err(ApiError::UnauthorizedPublisher));
    for relay in ["1", "2", "3", "9"] {
        assert!(reg.get(&ns(), &relay.to_string(), 0).is_none());
    }
}

#[test]
fn unreachable_node_receives_no_record() {
    let topo = Topology::new(
        names(&["1", "2", "4"]),
        pairs(&[("1", "2")]),
    )
    .unwrap();
    let mut reg = Registry::new();
    assert!(announce(&mut reg, &topo, &"relay1".to_string(), &ns(), &pub_url(), 0).is_ok());
    assert!(reg.get(&ns(), &"2".to_string(), 0).is_some());
    // node 4 has no path from the publisher: nothing was written for it
    assert!(reg.get(&ns(), &"4".to_string(), 0).is_none());
}

#[test]
fn announce_then_revoke_removes_all() {
    let topo = chain();
    let mut reg = Registry::new();
    announce(&mut reg, &topo, &"relay1".to_string(), &ns(), &pub_url(), 0).unwrap();
    assert!(reg.revoke(&ns(), 0).is_ok());
    assert!(reg.get(&ns(), &"2".to_string(), 0).is_none());
    assert!(reg.get(&ns(), &"3".to_string(), 0).is_none());
    assert_eq!(reg.revoke(&ns(), 0), Err(ApiError::NotFound));
}

#[test]
fn announce_then_refresh_consistency() {
    let topo = chain();
    let mut reg = Registry::new();
    announce(&mut reg, &topo, &"relay1".to_string(), &ns(), &pub_url(), 0).unwrap();
    // refresh verifies against the per-relay rewritten records, so the
    // publisher-supplied location itself does not match them
    let rewritten2 = moq_api::origin::rewrite_for_hop(&pub_url(), "1");
    assert_eq!(reg.refresh_ttl(&ns(), &rewritten2, 0), Err(ApiError::Conflict));
    // a single-relay mesh agrees with its one stored record
    let topo2 = Topology::new(names(&["1", "2"]), pairs(&[("1", "2")])).unwrap();
    let mut reg2 = Registry::new();
    announce(&mut reg2, &topo2, &"relay1".to_string(), &ns(), &pub_url(), 0).unwrap();
    assert!(reg2.refresh_ttl(&ns(), &rewritten2, 0).is_ok());
}

#[test]
fn announce_records_expire_without_delete() {
    let topo = chain();
    let mut reg = Registry::new();
    announce(&mut reg, &topo, &"relay1".to_string(), &ns(), &pub_url(), 100).unwrap();
    assert!(reg.get(&ns(), &"2".to_string(), 699).is_some());
    assert!(reg.get(&ns(), &"2".to_string(), 700).is_none());
    assert!(reg.get(&ns(), &"3".to_string(), 700).is_none());
}

#[test]
fn plan_lists_rewritten_records_in_discovery_order() {
    let topo = chain();
    let plan = announce_plan(&topo, &"relay1".to_string(), &pub_url()).unwrap();
    assert_eq!(plan.len(), 2);
    assert_eq!(plan[0].0, "2");
    assert_eq!(plan[0].1.url.host, "relay1");
    assert_eq!(plan[0].1.url.port, Some(1));
    assert_eq!(plan[1].0, "3");
    assert_eq!(plan[1].1.url.host, "relay2");
    assert_eq!(plan[1].1.url.port, Some(2));
}

#[test]
fn plan_rejects_unknown_publisher() {
    let topo = chain();
    let r = announce_plan(&topo, &"relay8".to_string(), &pub_url());
    assert!(matches!(r, Err(ApiError::UnauthorizedPublisher)));
}
