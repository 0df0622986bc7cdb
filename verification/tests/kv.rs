use mycelium::agent::GossipAgent;
use mycelium::config::GossipConfig;
use mycelium::evidence::frame_with_nonce;
use mycelium::kv::{hlc_tick, physical_ms, KvHandle};
use mycelium::kv_quorum::{QuorumAckTracker, QuorumError};
use mycelium::node_id::NodeId;
use mycelium::wire::GossipUpdate;

const NOW: u64 = 1_000_000_000_000;

fn make_agent() -> GossipAgent {
    GossipAgent::new(NodeId::new("127.0.0.1", 0).unwrap(), GossipConfig::default())
}

fn update(key: &str, value: &[u8], timestamp: u64, is_tombstone: bool) -> GossipUpdate {
    GossipUpdate {
        nonce: 1,
        sender: 7,
        ttl: 3,
        is_tombstone,
        timestamp,
        key: key.to_string(),
        value: value.to_vec(),
    }
}

#[test]
fn kv_handle_set_get() {
    let mut a = make_agent();
    let _ = a.mesh.kv.set("hello", b"world".to_vec(), NOW);
    assert_eq!(a.mesh.kv.get("hello"), Some(b"world".to_vec()));
}

#[test]
fn kv_handle_set_returns_true_when_channel_has_capacity() {
    assert!(make_agent().mesh.kv.set("k", b"v".to_vec(), NOW));
}

#[test]
fn kv_handle_delete_local() {
    let mut a = make_agent();
    let _ = a.mesh.kv.set("key", b"val".to_vec(), NOW);
    let _ = a.mesh.kv.delete("key", NOW);
    assert_eq!(a.mesh.kv.get("key"), None);
}

#[test]
fn kv_handle_keys_returns_live_keys_only() {
    let mut a = make_agent();
    let _ = a.mesh.kv.set("a", b"1".to_vec(), NOW);
    let _ = a.mesh.kv.set("b", b"2".to_vec(), NOW);
    let _ = a.mesh.kv.set("c", b"3".to_vec(), NOW);
    let _ = a.mesh.kv.delete("b", NOW);
    let mut keys = a.mesh.kv.keys();
    keys.sort();
    assert_eq!(keys, vec!["a".to_string(), "c".to_string()]);
}

#[test]
fn kv_handle_keys_empty_on_new_agent() {
    assert!(make_agent().mesh.kv.keys().is_empty());
}

#[test]
fn kv_handle_scan_prefix_returns_matching_live_entries() {
    let mut a = make_agent();
    let _ = a.mesh.kv.set("load/node-a", b"state-a".to_vec(), NOW);
    let _ = a.mesh.kv.set("load/node-b", b"state-b".to_vec(), NOW);
    let _ = a.mesh.kv.set("other/key", b"other".to_vec(), NOW);
    let mut entries = a.mesh.kv.scan_prefix("load/");
    entries.sort();
    assert_eq!(entries.len(), 2);
    assert_eq!(&*entries[0].0, "load/node-a");
    assert_eq!(entries[0].1, b"state-a".to_vec());
    assert_eq!(&*entries[1].0, "load/node-b");
    assert_eq!(entries[1].1, b"state-b".to_vec());
}

#[test]
fn kv_handle_scan_prefix_excludes_tombstones() {
    let mut a = make_agent();
    let _ = a.mesh.kv.set("load/node-a", b"alive".to_vec(), NOW);
    let _ = a.mesh.kv.set("load/node-b", b"alive".to_vec(), NOW);
    let _ = a.mesh.kv.delete("load/node-a", NOW);
    let entries = a.mesh.kv.scan_prefix("load/");
    assert_eq!(entries.len(), 1);
    assert_eq!(&*entries[0].0, "load/node-b");
}

#[test]
fn kv_handle_scan_prefix_no_match_returns_empty() {
    let mut a = make_agent();
    let _ = a.mesh.kv.set("load/node-a", b"x".to_vec(), NOW);
    assert_eq!(a.mesh.kv.scan_prefix("grp/").len(), 0);
}

#[test]
fn kv_handle_gossip_channel_capacity_respected() {
    let mut cfg = GossipConfig::default();
    cfg.gossip_channel_capacity = 1;
    let mut a = GossipAgent::new(NodeId::new("127.0.0.1", 0).unwrap(), cfg);
    assert!(a.mesh.kv.set("k1", b"v1".to_vec(), NOW), "first send fits");
    assert!(!a.mesh.kv.set("k1", b"v2".to_vec(), NOW), "second send to same shard fails");
    assert_eq!(a.mesh.kv.get("k1"), Some(b"v2".to_vec()));
}

#[test]
fn kv_handle_set_with_min_acks_zero() {
    let mut a = make_agent();
    let r = a.mesh.kv.set_with_min_acks("sq-key", b"val".to_vec(), 0, NOW);
    assert!(r.is_none(), "nothing to wait for");
    assert_eq!(a.mesh.kv.get("sq-key"), Some(b"val".to_vec()));
}

#[test]
fn kv_handle_set_with_min_acks_timeout_no_peers() {
    let mut a = make_agent();
    let t = a.mesh.kv.set_with_min_acks("sq-key2", b"val".to_vec(), 1, NOW).unwrap();
    assert_eq!(t.reached(1), None);
    match t.outcome(true) {
        Err(QuorumError::Timeout { acks_received }) => assert_eq!(acks_received, 0),
        Ok(n) => panic!("expected Timeout, got Ok({n})"),
    }
}

#[test]
fn kv_handle_test_append_scan_compact() {
    let mut a = make_agent();
    let kv = &mut a.mesh.kv;
    let h1 = kv.append("events", b"e1".to_vec(), NOW);
    let h2 = kv.append("events", b"e2".to_vec(), NOW);
    let _h3 = kv.append("events", b"e3".to_vec(), NOW);
    let h4 = kv.append("events", b"e4".to_vec(), NOW);
    let h5 = kv.append("events", b"e5".to_vec(), NOW);

    let all = kv.scan_log("events", 0, u64::MAX);
    assert_eq!(all.len(), 5);
    assert_eq!(all[0].value, b"e1".to_vec());
    assert_eq!(all[4].value, b"e5".to_vec());

    let mid = kv.scan_log("events", h2, h4);
    assert_eq!(mid.len(), 2);

    kv.compact_log("events", h4, NOW);
    let after = kv.scan_log("events", 0, u64::MAX);
    assert_eq!(after.len(), 2);
    assert!(after.iter().all(|e| e.hlc >= h4));

    let _ = (h1, h5);
}

#[test]
fn kv_handle_test_subscribe_log_receives_live_append() {
    let mut a = make_agent();
    let (none, from) = a.mesh.kv.poll_log("live", 0);
    assert!(none.is_empty());
    a.mesh.kv.append("live", b"msg1".to_vec(), NOW);
    let (found, next) = a.mesh.kv.poll_log("live", from);
    assert_eq!(found.len(), 1);
    assert_eq!(found[0].value, b"msg1".to_vec());
    assert!(a.mesh.kv.poll_log("live", next).0.is_empty());
}

#[test]
fn kv_handle_tests_set_get() {
    let mut a = make_agent();
    let _ = a.mesh.kv.set("hello", b"world".to_vec(), NOW);
    assert_eq!(a.mesh.kv.get("hello"), Some(b"world".to_vec()));
}

#[test]
fn kv_handle_tests_set_returns_true_when_channel_has_capacity() {
    assert!(make_agent().mesh.kv.set("k", b"v".to_vec(), NOW));
}

#[test]
fn kv_handle_tests_delete_local() {
    let mut a = make_agent();
    let _ = a.mesh.kv.set("key", b"val".to_vec(), NOW);
    let _ = a.mesh.kv.delete("key", NOW);
    assert_eq!(a.mesh.kv.get("key"), None);
}

#[test]
fn kv_handle_tests_keys_returns_live_keys_only() {
    let mut a = make_agent();
    let _ = a.mesh.kv.set("a", b"1".to_vec(), NOW);
    let _ = a.mesh.kv.set("b", b"2".to_vec(), NOW);
    let _ = a.mesh.kv.set("c", b"3".to_vec(), NOW);
    let _ = a.mesh.kv.delete("b", NOW);
    let mut keys = a.mesh.kv.keys();
    keys.sort();
    assert_eq!(keys, vec!["a".to_string(), "c".to_string()]);
}

#[test]
fn kv_handle_tests_keys_empty_on_new_agent() {
    assert!(make_agent().mesh.kv.keys().is_empty());
}

#[test]
fn kv_handle_tests_scan_prefix_returns_matching_live_entries() {
    let mut a = make_agent();
    let _ = a.mesh.kv.set("load/node-a", b"state-a".to_vec(), NOW);
    let _ = a.mesh.kv.set("load/node-b", b"state-b".to_vec(), NOW);
    let _ = a.mesh.kv.set("other/key", b"other".to_vec(), NOW);
    let mut entries = a.mesh.kv.scan_prefix("load/");
    entries.sort();
    assert_eq!(entries.len(), 2);
    assert_eq!(&*entries[0].0, "load/node-a");
    assert_eq!(entries[0].1, b"state-a".to_vec());
    assert_eq!(&*entries[1].0, "load/node-b");
    assert_eq!(entries[1].1, b"state-b".to_vec());
}

#[test]
fn kv_handle_tests_scan_prefix_excludes_tombstones() {
    let mut a = make_agent();
    let _ = a.mesh.kv.set("load/node-a", b"alive".to_vec(), NOW);
    let _ = a.mesh.kv.set("load/node-b", b"alive".to_vec(), NOW);
    let _ = a.mesh.kv.delete("load/node-a", NOW);
    let entries = a.mesh.kv.scan_prefix("load/");
    assert_eq!(entries.len(), 1);
    assert_eq!(&*entries[0].0, "load/node-b");
}

#[test]
fn kv_handle_tests_scan_prefix_no_match_returns_empty() {
    let mut a = make_agent();
    let _ = a.mesh.kv.set("load/node-a", b"x".to_vec(), NOW);
    assert_eq!(a.mesh.kv.scan_prefix("grp/").len(), 0);
}

#[test]
fn kv_handle_tests_gossip_channel_capacity_respected() {
    let mut cfg = GossipConfig::default();
    cfg.gossip_channel_capacity = 1;
    let mut a = GossipAgent::new(NodeId::new("127.0.0.1", 0).unwrap(), cfg);
    assert!(a.mesh.kv.set("k1", b"v1".to_vec(), NOW), "first send fits");
    assert!(!a.mesh.kv.set("k1", b"v2".to_vec(), NOW), "second send to same shard fails");
    assert_eq!(a.mesh.kv.get("k1"), Some(b"v2".to_vec()));
}

#[test]
fn kv_handle_tests_set_with_min_acks_zero() {
    let mut a = make_agent();
    let r = a.mesh.kv.set_with_min_acks("sq-key", b"val".to_vec(), 0, NOW);
    assert!(r.is_none(), "nothing to wait for");
    assert_eq!(a.mesh.kv.get("sq-key"), Some(b"val".to_vec()));
}

#[test]
fn kv_handle_tests_set_with_min_acks_timeout_no_peers() {
    let mut a = make_agent();
    let t = a.mesh.kv.set_with_min_acks("sq-key2", b"val".to_vec(), 1, NOW).unwrap();
    assert_eq!(t.reached(1), None);
    match t.outcome(true) {
        Err(QuorumError::Timeout { acks_received }) => assert_eq!(acks_received, 0),
        Ok(n) => panic!("expected Timeout, got Ok({n})"),
    }
}

#[test]
fn kv_handle_tests_test_append_scan_compact() {
    let mut a = make_agent();
    let kv = &mut a.mesh.kv;
    let h1 = kv.append("events", b"e1".to_vec(), NOW);
    let h2 = kv.append("events", b"e2".to_vec(), NOW);
    let _h3 = kv.append("events", b"e3".to_vec(), NOW);
    let h4 = kv.append("events", b"e4".to_vec(), NOW);
    let h5 = kv.append("events", b"e5".to_vec(), NOW);

    let all = kv.scan_log("events", 0, u64::MAX);
    assert_eq!(all.len(), 5);
    assert_eq!(all[0].value, b"e1".to_vec());
    assert_eq!(all[4].value, b"e5".to_vec());

    let mid = kv.scan_log("events", h2, h4);
    assert_eq!(mid.len(), 2);

    kv.compact_log("events", h4, NOW);
    let after = kv.scan_log("events", 0, u64::MAX);
    assert_eq!(after.len(), 2);
    assert!(after.iter().all(|e| e.hlc >= h4));

    let _ = (h1, h5);
}

#[test]
fn kv_handle_tests_test_subscribe_log_receives_live_append() {
    let mut a = make_agent();
    let (none, from) = a.mesh.kv.poll_log("live", 0);
    assert!(none.is_empty());
    a.mesh.kv.append("live", b"msg1".to_vec(), NOW);
    let (found, next) = a.mesh.kv.poll_log("live", from);
    assert_eq!(found.len(), 1);
    assert_eq!(found[0].value, b"msg1".to_vec());
    assert!(a.mesh.kv.poll_log("live", next).0.is_empty());
}

#[test]
fn the_newest_write_wins() {
    let mut kv = KvHandle::new(NodeId::new("127.0.0.1", 1).unwrap(), 5, 2, 8);
    kv.apply(&update("k", b"new", 20, false));
    kv.apply(&update("k", b"old", 10, false));
    assert_eq!(kv.get("k"), Some(b"new".to_vec()));
    kv.apply(&update("k", b"", 30, true));
    assert_eq!(kv.get("k"), None);
    assert_eq!(kv.written_at("k"), Some(30));
    let _ = kv.set("k", b"mine".to_vec(), 0);
    assert_eq!(kv.get("k"), Some(b"mine".to_vec()), "a local write is newer than what it follows");
}

#[test]
fn the_clock_never_goes_back() {
    let a = hlc_tick(0, 5);
    assert_eq!(a, 5 * 65536);
    assert_eq!(hlc_tick(a, 4), a + 1);
    assert_eq!(physical_ms(hlc_tick(a, 9)), 9);
}

#[test]
fn acknowledgements_count_each_peer_once() {
    let mut t = QuorumAckTracker::new(100, 1);
    assert_eq!(t.observe(1, 200), None, "the own update does not count");
    assert_eq!(t.observe(2, 99), None, "an older update does not count");
    assert_eq!(t.observe(2, 100), Some(1));
    assert_eq!(t.observe(2, 101), Some(1));
    assert_eq!(t.reached(2), None);
    assert_eq!(t.observe(3, 100), Some(2));
    assert_eq!(t.reached(2), Some(2));
    assert_eq!(t.acks(), 2);
    assert_eq!(t.outcome(false), Ok(2));
    let e = t.outcome(true).unwrap_err();
    assert_eq!(e, QuorumError::Timeout { acks_received: 2 });
    assert_eq!(e.message(), "set_with_min_acks timed out (2 peer(s) acknowledged)");
}

#[test]
fn consumers_of_a_group_share_a_log() {
    let mut a = make_agent();
    let kv = &mut a.mesh.kv;
    let h1 = kv.append("jobs", b"one".to_vec(), NOW);
    let h2 = kv.append("jobs", b"two".to_vec(), NOW);
    assert_eq!(kv.group_offset("jobs", "g"), 0);
    assert_eq!(kv.consume_next("jobs", "g", NOW).unwrap().value, b"one".to_vec());
    assert_eq!(kv.group_offset("jobs", "g"), h1);
    assert_eq!(kv.consume_next("jobs", "g", NOW).unwrap().hlc, h2);
    assert!(kv.consume_next("jobs", "g", NOW).is_none());
    assert_eq!(kv.consume_next("jobs", "other", NOW).unwrap().hlc, h1);
}

#[test]
fn durable_evidence_makes_a_quorum() {
    let mut a = make_agent();
    let stamp = frame_with_nonce(NOW - 50, &vec![]);
    let _ = a.mesh.kv.set("sys/quorum/ready/127.0.0.1:1", stamp.clone(), NOW);
    let _ = a.mesh.kv.set("sys/quorum/ready/127.0.0.1:2", stamp, NOW);
    let _ = a.mesh.kv.set("sys/quorum/ready/127.0.0.1:3", vec![1, 2], NOW);
    assert_eq!(a.mesh.kv.quorum_persistent("ready", 100, NOW), 2);
    assert_eq!(a.mesh.kv.quorum_persistent("ready", 49, NOW), 0);
    assert_eq!(a.mesh.last_signal_persistent("ready", NOW), Some(50));
    assert_eq!(a.mesh.last_signal_persistent("other", NOW), None);
}
