use moq_api::errors::ConfigError;
use moq_api::topology::Topology;

fn names(items: &[&str]) -> Vec<String> {
    items.iter().map(|s| s.to_string()).collect()
}

fn pairs(items: &[(&str, &str)]) -> Vec<(String, String)> {
    items.iter().map(|(a, b)| (a.to_string(), b.to_string())).collect()
}

fn chain_1_2_3() -> Topology {
    Topology::new(names(&["1", "2", "3"]), pairs(&[("1", "2"), ("2", "3")])).unwrap()
}

#[test]
fn build_rejects_dangling_edge() {
    let r = Topology::new(names(&["1", "2"]), pairs(&[("1", "3")]));
    assert!(matches!(r, Err(ConfigError::DanglingEdge)));
}

#[test]
fn build_rejects_non_port_identifier() {
    let r = Topology::new(names(&["1", "east"]), pairs(&[]));
    assert!(matches!(r, Err(ConfigError::BadRelayId)));
    let r = Topology::new(names(&["1", "70000"]), pairs(&[]));
    assert!(matches!(r, Err(ConfigError::BadRelayId)));
}

#[test]
fn fanout_from_chain_end() {
    let topo = chain_1_2_3();
    let out = topo.spanning_fanout(&"1".to_string()).unwrap();
    assert_eq!(
        out,
        vec![("2".to_string(), "1".to_string()), ("3".to_string(), "2".to_string())]
    );
}

#[test]
fn fanout_from_chain_middle() {
    let topo = chain_1_2_3();
    let out = topo.spanning_fanout(&"2".to_string()).unwrap();
    assert_eq!(
        out,
        vec![("1".to_string(), "2".to_string()), ("3".to_string(), "2".to_string())]
    );
}

#[test]
fn fanout_excludes_root_and_unreachable() {
    let topo = Topology::new(
        names(&["1", "2", "3", "4"]),
        pairs(&[("1", "2"), ("2", "3")]),
    )
    .unwrap();
    let out = topo.spanning_fanout(&"1".to_string()).unwrap();
    assert!(out.iter().all(|(n, _)| n != "1"));
    assert!(out.iter().all(|(n, _)| n != "4"));
    assert_eq!(out.len(), 2);
}

#[test]
fn fanout_unknown_root() {
    let topo = chain_1_2_3();
    let r = topo.spanning_fanout(&"9".to_string());
    assert!(matches!(r, Err(ConfigError::UnknownNode)));
}

#[test]
fn fanout_visits_each_node_once_on_a_cycle() {
    let topo = Topology::new(
        names(&["1", "2", "3"]),
        pairs(&[("1", "2"), ("2", "3"), ("3", "1")]),
    )
    .unwrap();
    let out = topo.spanning_fanout(&"1".to_string()).unwrap();
    assert_eq!(out.len(), 2);
    // both neighbours are discovered directly from the root
    assert_eq!(
        out,
        vec![("2".to_string(), "1".to_string()), ("3".to_string(), "1".to_string())]
    );
}

#[test]
fn contains_node_membership() {
    let topo = chain_1_2_3();
    assert!(topo.contains_node(&"2".to_string()));
    assert!(!topo.contains_node(&"relay2".to_string()));
}
