use actor_test::chain::Chain;
use actor_test::message::{EmptyRequest, Request};
use actor_test::scenario::default_request;

fn request(a: &str, b: &str) -> Request {
    Request { field_a: a.to_string(), field_b: b.to_string() }
}

fn mapping_value(chain: &Chain, node: usize, key: &str) -> Option<String> {
    chain.node_at(node).get(&key.to_string()).cloned()
}

#[test]
fn single_node_inserts_once() {
    let mut chain = Chain::build(1);
    let reply = chain.process(&request("k", "v"));
    assert!(reply.is_ok());
    assert_eq!(mapping_value(&chain, 0, "k"), Some("v".to_string()));
    assert_eq!(chain.node_at(0).mapping_len(), 1);
}

#[test]
fn two_node_chain_inserts_in_both() {
    let mut chain = Chain::build(2);
    let reply = chain.process(&Request {
        field_a: "11111".to_string(),
        field_b: "22222".to_string(),
    });
    assert!(reply.is_ok());
    assert_eq!(mapping_value(&chain, 0, "11111"), Some("22222".to_string()));
    assert_eq!(mapping_value(&chain, 1, "11111"), Some("22222".to_string()));
    assert_eq!(chain.node_at(0).mapping_len(), 1);
    assert_eq!(chain.node_at(1).mapping_len(), 1);
}

#[test]
fn three_node_chain_inserts_everywhere() {
    let mut chain = Chain::build(3);
    let reply = chain.process(&default_request());
    assert!(reply.is_ok());
    for i in 0..3 {
        assert_eq!(mapping_value(&chain, i, "11111"), Some("22222".to_string()));
        assert_eq!(chain.node_at(i).mapping_len(), 1);
    }
    assert_eq!(chain.len(), 3);
}

#[test]
fn duplicate_request_overwrites_not_duplicates() {
    let mut chain = Chain::build(2);
    assert!(chain.process(&request("k", "v")).is_ok());
    assert!(chain.process(&request("k", "v")).is_ok());
    assert_eq!(chain.node_at(0).mapping_len(), 1);
    assert_eq!(chain.node_at(1).mapping_len(), 1);
    assert!(chain.process(&request("k", "w")).is_ok());
    assert_eq!(chain.node_at(0).mapping_len(), 1);
    assert_eq!(mapping_value(&chain, 0, "k"), Some("w".to_string()));
}

#[test]
fn empty_request_never_mutates() {
    let mut chain = Chain::build(1);
    let reply = chain.process_empty(&EmptyRequest);
    assert!(reply.is_ok());
    assert_eq!(chain.node_at(0).mapping_len(), 0);
    assert!(chain.process(&request("k", "v")).is_ok());
    assert!(chain.process_empty(&EmptyRequest).is_ok());
    assert_eq!(chain.node_at(0).mapping_len(), 1);
}

#[test]
fn stopped_terminal_fails_whole_path_without_trace() {
    let mut chain = Chain::build(3);
    chain.stop(2);
    let reply = chain.process(&request("k", "v"));
    assert!(reply.is_err());
    for i in 0..3 {
        assert_eq!(chain.node_at(i).mapping_len(), 0);
    }
    // the forwarding head still accepts and answers messages of its own
    assert!(chain.process_empty(&EmptyRequest).is_ok());
}

#[test]
fn failure_is_isolated_to_paths_through_the_stopped_node() {
    let mut chain = Chain::build(3);
    chain.stop(0);
    assert!(chain.process(&request("k", "v")).is_err());
    assert!(chain.process_empty(&EmptyRequest).is_err());
    for i in 0..3 {
        assert_eq!(chain.node_at(i).mapping_len(), 0);
    }
    // a path that avoids the stopped head keeps working, untouched by the failure
    assert!(chain.process_from(1, &request("k", "v")).is_ok());
    assert_eq!(chain.node_at(0).mapping_len(), 0);
    assert_eq!(mapping_value(&chain, 1, "k"), Some("v".to_string()));
    assert_eq!(mapping_value(&chain, 2, "k"), Some("v".to_string()));
}

#[test]
fn stopped_node_keeps_its_mapping() {
    let mut chain = Chain::build(2);
    assert!(chain.process(&request("k", "v")).is_ok());
    chain.stop(1);
    assert!(chain.process(&request("k2", "v2")).is_err());
    assert_eq!(mapping_value(&chain, 1, "k"), Some("v".to_string()));
    assert_eq!(chain.node_at(1).mapping_len(), 1);
}
