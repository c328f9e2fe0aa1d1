use actor_test::chain::Chain;
use actor_test::mailbox::{Mailbox, MAILBOX_CAPACITY};
use actor_test::message::Request;
use actor_test::recorder::Recorder;
use actor_test::scenario::{default_request, drive_cycles, drive_empty_cycles, Placement, Scenario};
use actor_test::sender::Sender;
use actor_test::table::KvTable;

fn request(a: &str, b: &str) -> Request {
    Request { field_a: a.to_string(), field_b: b.to_string() }
}

#[test]
fn default_request_payload() {
    let req = default_request();
    assert_eq!(req.field_a, "11111".to_string());
    assert_eq!(req.field_b, "22222".to_string());
}

#[test]
fn table_insert_overwrites_duplicate_key() {
    let mut table = KvTable::new();
    table.insert("k".to_string(), "v".to_string());
    table.insert("k".to_string(), "v".to_string());
    assert_eq!(table.len(), 1);
    assert_eq!(table.get(&"k".to_string()), Some(&"v".to_string()));
    table.insert("k".to_string(), "w".to_string());
    assert_eq!(table.len(), 1);
    assert_eq!(table.get(&"k".to_string()), Some(&"w".to_string()));
    assert!(!table.contains_key(&"absent".to_string()));
}

#[test]
fn mailbox_is_fifo_and_node_completes_in_order() {
    let mut chain = Chain::build(1);
    let mut mbox = Mailbox::new();
    assert!(mbox.enqueue(request("k", "first")).is_none());
    assert!(mbox.enqueue(request("k", "second")).is_none());

    // the step that dequeues the first request completes it while the
    // second is still queued untouched
    let step1 = chain.step(&mut mbox);
    assert!(matches!(step1, Some(Ok(_))));
    assert_eq!(mbox.len(), 1);
    assert_eq!(
        chain.node_at(0).get(&"k".to_string()),
        Some(&"first".to_string())
    );

    let step2 = chain.step(&mut mbox);
    assert!(matches!(step2, Some(Ok(_))));
    assert_eq!(mbox.len(), 0);
    assert_eq!(
        chain.node_at(0).get(&"k".to_string()),
        Some(&"second".to_string())
    );

    assert!(chain.step(&mut mbox).is_none());
}

#[test]
fn mailbox_rejects_beyond_capacity() {
    let mut mbox = Mailbox::new();
    for i in 0..MAILBOX_CAPACITY {
        assert!(mbox.enqueue(request("k", &i.to_string())).is_none());
    }
    assert_eq!(mbox.len(), MAILBOX_CAPACITY);
    let rejected = mbox.enqueue(request("k", "overflow"));
    assert!(rejected.is_some());
    assert_eq!(rejected.unwrap().field_b, "overflow".to_string());
    assert_eq!(mbox.len(), MAILBOX_CAPACITY);
}

#[test]
fn sender_records_one_sample_per_successful_tick() {
    let mut chain = Chain::build(2);
    let mut rec = Recorder::new("sender".to_string());
    let sender = Sender::new(default_request());
    let elapsed = vec![10u64, 20, 30, 40, 50];
    sender.run_ticks(&mut chain, &mut rec, &elapsed);
    assert_eq!(rec.count(), 5);
    assert_eq!(
        chain.node_at(1).get(&"11111".to_string()),
        Some(&"22222".to_string())
    );
    let summary = rec.export().unwrap();
    assert_eq!(summary.count, 5);
    assert_eq!(summary.min, 10);
    assert_eq!(summary.max, 50);
}

#[test]
fn sender_drops_failed_round_trips_from_statistics() {
    let mut chain = Chain::build(2);
    chain.stop(1);
    let mut rec = Recorder::new("sender".to_string());
    let sender = Sender::new(default_request());
    assert!(!sender.tick(&mut chain, &mut rec, 10));
    sender.run_ticks(&mut chain, &mut rec, &vec![10u64, 20, 30]);
    assert_eq!(rec.count(), 0);
    assert!(rec.export().is_none());
}

#[test]
fn tight_loop_driver_records_every_cycle() {
    let mut chain = Chain::build(3);
    let mut rec = Recorder::new("actor".to_string());
    let latencies = vec![3u64, 1, 2];
    drive_cycles(&mut chain, &mut rec, &default_request(), &latencies);
    assert_eq!(rec.count(), 3);
    for i in 0..3 {
        assert_eq!(
            chain.node_at(i).get(&"11111".to_string()),
            Some(&"22222".to_string())
        );
    }
    let summary = rec.export().unwrap();
    assert_eq!(summary.min, 1);
    assert_eq!(summary.max, 3);
}

#[test]
fn empty_payload_driver_never_touches_mappings() {
    let mut chain = Chain::build(1);
    let mut rec = Recorder::new("actor".to_string());
    drive_empty_cycles(&mut chain, &mut rec, &vec![5u64, 6]);
    assert_eq!(rec.count(), 2);
    assert_eq!(chain.node_at(0).mapping_len(), 0);
}

#[test]
fn scenario_catalogue_shapes() {
    let single = Scenario::SingleNode;
    assert_eq!(single.chain_len(), 1);
    assert_eq!(single.sender_count(), 0);
    assert_eq!(single.channel(), "actor");

    let empty = Scenario::SingleNodeEmptyPayload;
    assert_eq!(empty.chain_len(), 1);
    assert_eq!(empty.channel(), "actor");

    let chain3 = Scenario::Chain { len: 3, placement: Placement::MainContext };
    assert_eq!(chain3.chain_len(), 3);
    assert_eq!(chain3.channel(), "actor");
    let built = chain3.build();
    assert_eq!(built.len(), 3);

    let separate = Scenario::Chain { len: 2, placement: Placement::SeparateContexts };
    assert_eq!(separate.build().len(), 2);

    let driven = Scenario::SenderDriven { len: 2, senders: 2 };
    assert_eq!(driven.chain_len(), 2);
    assert_eq!(driven.sender_count(), 2);
    assert_eq!(driven.channel(), "sender");
    assert_eq!(driven.build().len(), 2);
}

#[test]
fn request_clone_carries_the_payload() {
    let req = request("a", "b");
    let cloned = req.clone();
    assert_eq!(cloned.field_a, "a".to_string());
    assert_eq!(cloned.field_b, "b".to_string());
}
