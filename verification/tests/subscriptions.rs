use mycelium::agent::GossipAgent;
use mycelium::config::GossipConfig;
use mycelium::load::{encode_load_state, LoadState, LOAD_PREFIX};
use mycelium::node_id::NodeId;
use mycelium::wire::GossipUpdate;

const NOW: u64 = 1_000_000_000_000;

fn make_agent() -> GossipAgent {
    GossipAgent::new(NodeId::new("127.0.0.1", 0).unwrap(), GossipConfig::default())
}

#[test]
fn kv_handle_set_async_stores_and_queues() {
    let mut a = make_agent();
    assert!(a.mesh.kv.has_room("k"));
    assert!(a.mesh.kv.set("k", b"v".to_vec(), NOW));
    assert_eq!(a.mesh.kv.get("k"), Some(b"v".to_vec()));
}

#[test]
fn kv_handle_delete_async_tombstones_key() {
    let mut a = make_agent();
    assert!(a.mesh.kv.has_room("k"));
    assert!(a.mesh.kv.set("k", b"v".to_vec(), NOW));
    assert!(a.mesh.kv.has_room("k"));
    assert!(a.mesh.kv.delete("k", NOW));
    assert_eq!(a.mesh.kv.get("k"), None);
}

#[test]
fn kv_handle_subscribe_initial_value_absent() {
    let rx = make_agent().mesh.kv.subscribe("missing");
    assert_eq!(rx.value, None);
}

#[test]
fn kv_handle_subscribe_initial_value_present() {
    let mut a = make_agent();
    let _ = a.mesh.kv.set("k", b"hello".to_vec(), NOW);
    let rx = a.mesh.kv.subscribe("k");
    assert_eq!(rx.value, Some(b"hello".to_vec()));
}

#[test]
fn kv_handle_subscribe_notified_on_set() {
    let mut a = make_agent();
    let mut rx = a.mesh.kv.subscribe("k");
    assert!(!rx.settle(&a.mesh.kv));
    let _ = a.mesh.kv.set("k", b"world".to_vec(), NOW);
    assert!(rx.settle(&a.mesh.kv), "should fire");
    assert_eq!(rx.value, Some(b"world".to_vec()));
}

#[test]
fn kv_handle_subscribe_notified_on_delete() {
    let mut a = make_agent();
    let _ = a.mesh.kv.set("k", b"v".to_vec(), NOW);
    let mut rx = a.mesh.kv.subscribe("k");
    assert!(!rx.settle(&a.mesh.kv));
    let _ = a.mesh.kv.delete("k", NOW);
    assert!(rx.settle(&a.mesh.kv), "should fire");
    assert_eq!(rx.value, None);
}

#[test]
fn kv_handle_subscribe_prefix_with_predicate_skips_non_matching_keys() {
    let mut a = make_agent();
    let mut rx = a.mesh.kv.subscribe_prefix_with_predicate("cap/", |k: &str| k.ends_with("/compute/gpu"));
    let mut trail = a.mesh.kv.follow_prefix("cap/");
    let mark = rx.count;
    let _ = a.mesh.kv.set("cap/127.0.0.1:1/storage/disk", b"x".to_vec(), NOW);
    for key in trail.written(&a.mesh.kv) {
        assert!(!rx.notice(&key));
    }
    assert_eq!(rx.count, mark, "predicate must suppress non-matching keys");
    let _ = a.mesh.kv.set("cap/127.0.0.1:1/compute/gpu", b"y".to_vec(), NOW);
    let written = trail.written(&a.mesh.kv);
    assert_eq!(written, vec!["cap/127.0.0.1:1/compute/gpu".to_string()]);
    assert!(rx.notice(&written[0]), "predicate-matching write should fire");
    assert_ne!(rx.count, mark);
}

#[test]
fn kv_handle_tests_set_async_stores_and_queues() {
    let mut a = make_agent();
    assert!(a.mesh.kv.has_room("k"));
    assert!(a.mesh.kv.set("k", b"v".to_vec(), NOW));
    assert_eq!(a.mesh.kv.get("k"), Some(b"v".to_vec()));
}

#[test]
fn kv_handle_tests_delete_async_tombstones_key() {
    let mut a = make_agent();
    assert!(a.mesh.kv.has_room("k"));
    assert!(a.mesh.kv.set("k", b"v".to_vec(), NOW));
    assert!(a.mesh.kv.has_room("k"));
    assert!(a.mesh.kv.delete("k", NOW));
    assert_eq!(a.mesh.kv.get("k"), None);
}

#[test]
fn kv_handle_tests_subscribe_initial_value_absent() {
    let rx = make_agent().mesh.kv.subscribe("missing");
    assert_eq!(rx.value, None);
}

#[test]
fn kv_handle_tests_subscribe_initial_value_present() {
    let mut a = make_agent();
    let _ = a.mesh.kv.set("k", b"hello".to_vec(), NOW);
    let rx = a.mesh.kv.subscribe("k");
    assert_eq!(rx.value, Some(b"hello".to_vec()));
}

#[test]
fn kv_handle_tests_subscribe_notified_on_set() {
    let mut a = make_agent();
    let mut rx = a.mesh.kv.subscribe("k");
    assert!(!rx.settle(&a.mesh.kv));
    let _ = a.mesh.kv.set("k", b"world".to_vec(), NOW);
    assert!(rx.settle(&a.mesh.kv), "should fire");
    assert_eq!(rx.value, Some(b"world".to_vec()));
}

#[test]
fn kv_handle_tests_subscribe_notified_on_delete() {
    let mut a = make_agent();
    let _ = a.mesh.kv.set("k", b"v".to_vec(), NOW);
    let mut rx = a.mesh.kv.subscribe("k");
    assert!(!rx.settle(&a.mesh.kv));
    let _ = a.mesh.kv.delete("k", NOW);
    assert!(rx.settle(&a.mesh.kv), "should fire");
    assert_eq!(rx.value, None);
}

#[test]
fn kv_handle_tests_subscribe_prefix_with_predicate_skips_non_matching_keys() {
    let mut a = make_agent();
    let mut rx = a.mesh.kv.subscribe_prefix_with_predicate("cap/", |k: &str| k.ends_with("/compute/gpu"));
    let mut trail = a.mesh.kv.follow_prefix("cap/");
    let mark = rx.count;
    let _ = a.mesh.kv.set("cap/127.0.0.1:1/storage/disk", b"x".to_vec(), NOW);
    for key in trail.written(&a.mesh.kv) {
        assert!(!rx.notice(&key));
    }
    assert_eq!(rx.count, mark, "predicate must suppress non-matching keys");
    let _ = a.mesh.kv.set("cap/127.0.0.1:1/compute/gpu", b"y".to_vec(), NOW);
    let written = trail.written(&a.mesh.kv);
    assert_eq!(written, vec!["cap/127.0.0.1:1/compute/gpu".to_string()]);
    assert!(rx.notice(&written[0]), "predicate-matching write should fire");
    assert_ne!(rx.count, mark);
}

#[test]
fn rewriting_the_same_value_wakes() {
    let mut a = make_agent();
    let _ = a.mesh.kv.set("k", b"v".to_vec(), NOW);
    let mut rx = a.mesh.kv.subscribe("k");
    let _ = a.mesh.kv.set("other", b"v".to_vec(), NOW);
    assert!(!rx.settle(&a.mesh.kv), "another key wakes nobody");
    let _ = a.mesh.kv.set("k", b"v".to_vec(), NOW);
    assert!(rx.settle(&a.mesh.kv));
    assert_eq!(rx.value, Some(b"v".to_vec()));
}

#[test]
fn older_write_of_a_peer_wakes_nobody() {
    let mut a = make_agent();
    let _ = a.mesh.kv.set("k", b"new".to_vec(), NOW);
    let mut rx = a.mesh.kv.subscribe("k");
    let mut u = GossipUpdate {
        nonce: 1,
        sender: 7,
        ttl: 3,
        is_tombstone: false,
        timestamp: 5,
        key: "k".to_string(),
        value: b"old".to_vec(),
    };
    a.mesh.kv.apply(&u);
    assert!(!rx.settle(&a.mesh.kv));
    u.timestamp = u64::MAX - 1;
    a.mesh.kv.apply(&u);
    assert!(rx.settle(&a.mesh.kv));
    assert_eq!(rx.value, Some(b"old".to_vec()));
}

#[test]
fn prefix_subscription_counts_writes_and_deletions() {
    let mut a = make_agent();
    let _ = a.mesh.kv.set("load/x", b"1".to_vec(), NOW);
    let mut trail = a.mesh.kv.follow_prefix("load/");
    assert!(trail.written(&a.mesh.kv).is_empty(), "what is there already counts as seen");
    let mut rx = a.mesh.kv.subscribe_prefix("load/");
    let _ = a.mesh.kv.delete("load/x", NOW);
    let _ = a.mesh.kv.set("load/y", b"2".to_vec(), NOW);
    let _ = a.mesh.kv.set("grp/z", b"3".to_vec(), NOW);
    let mut written = trail.written(&a.mesh.kv);
    written.sort();
    assert_eq!(written, vec!["load/x".to_string(), "load/y".to_string()]);
    for key in &written {
        assert!(rx.notice(key));
    }
    assert!(!rx.notice("grp/z"));
    assert_eq!(rx.count, 2);
    assert!(trail.written(&a.mesh.kv).is_empty());
}

#[test]
fn full_queue_has_no_room() {
    let mut cfg = GossipConfig::default();
    cfg.gossip_channel_capacity = 1;
    let mut a = GossipAgent::new(NodeId::new("127.0.0.1", 0).unwrap(), cfg);
    assert!(a.mesh.kv.has_room("k"));
    assert!(a.mesh.kv.set("k", b"v".to_vec(), NOW));
    assert!(!a.mesh.kv.has_room("k"));
}

#[test]
fn load_subscription_decodes_the_mark() {
    let mut a = make_agent();
    let other = NodeId::new("127.0.0.1", 9).unwrap();
    let key = format!("{LOAD_PREFIX}127.0.0.1:9/work");
    let mut rx = a.peer_load_rx(&other, "work");
    assert!(rx.state().is_none());
    let mark = LoadState { fill: [0, 0, 128, 63], is_opaque: true, written_at_ms: NOW };
    let _ = a.mesh.kv.set(&key, encode_load_state(&mark), NOW);
    assert!(rx.settle(&a.mesh.kv));
    assert!(rx.state().unwrap().is_opaque);
    let _ = a.mesh.kv.set(&key, vec![], NOW);
    assert!(rx.settle(&a.mesh.kv));
    assert!(rx.state().is_none(), "no mark is in the bytes");
}
