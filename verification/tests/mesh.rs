use mycelium::agent::GossipAgent;
use mycelium::config::GossipConfig;
use mycelium::emergent_groups::{EmergentGroups, GroupAction};
use mycelium::capability::{CapFilter, Capability};
use mycelium::groupdef::CapabilityGroupDef;
use mycelium::load::{decode_load_state, LOAD_PREFIX};
use mycelium::node_id::NodeId;
use mycelium::opacity::{FillReading, OpacityGovernor, OpacityStep};
use mycelium::signals::SignalLog;
use mycelium::wire::{Frame, SignalScope};

const NOW: u64 = 1_000_000_000_000;

fn make_agent() -> GossipAgent {
    GossipAgent::new(NodeId::new("127.0.0.1", 0).unwrap(), GossipConfig::default())
}

#[test]
fn mesh_handle_quorum_false_initially() {
    let agent = make_agent();
    assert!(!agent.mesh.quorum("contract.available", 1, 10_000, NOW));
}

#[test]
fn mesh_handle_quorum_true_after_delivery() {
    let mut agent = make_agent();
    let _ = agent.mesh.emit("contract.available", SignalScope::System, vec![], true, NOW);
    assert!(
        agent.mesh.quorum("contract.available", 1, 10_000, NOW),
        "a quorum of one must hold after one delivery",
    );
}

#[test]
fn mesh_handle_pheromone_trail_write_read_and_evaporate() {
    let mut agent = make_agent();
    let load_key = format!("{LOAD_PREFIX}worker-1");
    let _ = agent.mesh.kv.set(&load_key, b"queue=0".to_vec(), NOW);
    let trails = agent.mesh.kv.scan_prefix(LOAD_PREFIX);
    assert_eq!(trails.len(), 1);
    assert_eq!(trails[0].1, b"queue=0".to_vec());
    let _ = agent.mesh.kv.set(&load_key, b"queue=3".to_vec(), NOW);
    assert_eq!(agent.mesh.kv.scan_prefix(LOAD_PREFIX).len(), 1, "update overwrites in place");
    let _ = agent.mesh.kv.delete(&load_key, NOW);
    assert_eq!(agent.mesh.kv.scan_prefix(LOAD_PREFIX).len(), 0, "tombstone evaporates the trail");
}

#[test]
fn mesh_handle_join_group_idempotent() {
    let mut agent = make_agent();
    agent.mesh.join_group("nlp", NOW);
    agent.mesh.join_group("nlp", NOW);
    let _ = agent.mesh.emit("t", SignalScope::Group("nlp".to_string()), b"ok".to_vec(), true, NOW);
    let key = format!("grp/nlp/{}", agent.node_id().to_text());
    assert_eq!(agent.mesh.kv.get(&key), Some(b"1".to_vec()), "join is still reflected in store");
}

#[test]
fn mesh_handle_leave_group_idempotent() {
    let mut agent = make_agent();
    agent.mesh.join_group("compute", NOW);
    agent.mesh.leave_group("compute", NOW);
    agent.mesh.leave_group("compute", NOW);
    let key = format!("grp/compute/{}", agent.node_id().to_text());
    assert_eq!(agent.mesh.kv.get(&key), None, "tombstone stands after double leave");
}

#[test]
fn mesh_handle_join_group_published_to_store() {
    let mut agent = make_agent();
    agent.mesh.join_group("compute", NOW);
    let key = format!("grp/compute/{}", agent.node_id().to_text());
    assert_eq!(agent.mesh.kv.get(&key), Some(b"1".to_vec()));
}

#[test]
fn mesh_handle_leave_group_tombstones_store_entry() {
    let mut agent = make_agent();
    agent.mesh.join_group("compute", NOW);
    agent.mesh.leave_group("compute", NOW);
    let key = format!("grp/compute/{}", agent.node_id().to_text());
    assert_eq!(agent.mesh.kv.get(&key), None, "leaving deletes the membership key");
}

#[test]
fn mesh_handle_tests_quorum_false_initially() {
    let agent = make_agent();
    assert!(!agent.mesh.quorum("contract.available", 1, 10_000, NOW));
}

#[test]
fn mesh_handle_tests_quorum_true_after_delivery() {
    let mut agent = make_agent();
    let _ = agent.mesh.emit("contract.available", SignalScope::System, vec![], true, NOW);
    assert!(
        agent.mesh.quorum("contract.available", 1, 10_000, NOW),
        "a quorum of one must hold after one delivery",
    );
}

#[test]
fn mesh_handle_tests_pheromone_trail_write_read_and_evaporate() {
    let mut agent = make_agent();
    let load_key = format!("{LOAD_PREFIX}worker-1");
    let _ = agent.mesh.kv.set(&load_key, b"queue=0".to_vec(), NOW);
    let trails = agent.mesh.kv.scan_prefix(LOAD_PREFIX);
    assert_eq!(trails.len(), 1);
    assert_eq!(trails[0].1, b"queue=0".to_vec());
    let _ = agent.mesh.kv.set(&load_key, b"queue=3".to_vec(), NOW);
    assert_eq!(agent.mesh.kv.scan_prefix(LOAD_PREFIX).len(), 1, "update overwrites in place");
    let _ = agent.mesh.kv.delete(&load_key, NOW);
    assert_eq!(agent.mesh.kv.scan_prefix(LOAD_PREFIX).len(), 0, "tombstone evaporates the trail");
}

#[test]
fn mesh_handle_tests_join_group_idempotent() {
    let mut agent = make_agent();
    agent.mesh.join_group("nlp", NOW);
    agent.mesh.join_group("nlp", NOW);
    let _ = agent.mesh.emit("t", SignalScope::Group("nlp".to_string()), b"ok".to_vec(), true, NOW);
    let key = format!("grp/nlp/{}", agent.node_id().to_text());
    assert_eq!(agent.mesh.kv.get(&key), Some(b"1".to_vec()), "join is still reflected in store");
}

#[test]
fn mesh_handle_tests_leave_group_idempotent() {
    let mut agent = make_agent();
    agent.mesh.join_group("compute", NOW);
    agent.mesh.leave_group("compute", NOW);
    agent.mesh.leave_group("compute", NOW);
    let key = format!("grp/compute/{}", agent.node_id().to_text());
    assert_eq!(agent.mesh.kv.get(&key), None, "tombstone stands after double leave");
}

#[test]
fn mesh_handle_tests_join_group_published_to_store() {
    let mut agent = make_agent();
    agent.mesh.join_group("compute", NOW);
    let key = format!("grp/compute/{}", agent.node_id().to_text());
    assert_eq!(agent.mesh.kv.get(&key), Some(b"1".to_vec()));
}

#[test]
fn mesh_handle_tests_leave_group_tombstones_store_entry() {
    let mut agent = make_agent();
    agent.mesh.join_group("compute", NOW);
    agent.mesh.leave_group("compute", NOW);
    let key = format!("grp/compute/{}", agent.node_id().to_text());
    assert_eq!(agent.mesh.kv.get(&key), None, "leaving deletes the membership key");
}

#[test]
fn quorum_distinct_senders() {
    let mut log = SignalLog::new();
    let kind = "test.quorum.distinct";
    let sender_a = NodeId::new("127.0.0.1", 1001).unwrap();
    let sender_b = NodeId::new("127.0.0.1", 1002).unwrap();
    log.deliver(kind, &sender_a, NOW);
    log.deliver(kind, &sender_a, NOW);
    assert!(
        !log.quorum(kind, 2, 10_000, NOW),
        "two signals from the same sender must not make a quorum of two",
    );
    log.deliver(kind, &sender_b, NOW);
    assert!(log.quorum(kind, 2, 10_000, NOW), "two distinct senders must make a quorum of two");
}

#[test]
fn a_signal_is_delivered_within_its_scope() {
    let mut m = make_agent().mesh;
    let other = NodeId::new("127.0.0.1", 5).unwrap();
    let me = m.kv.node_id.clone();
    m.emit("a", SignalScope::Individual(other), vec![], true, NOW);
    assert_eq!(m.last_signal("a"), None, "a signal for another node stays away");
    m.emit("a", SignalScope::Individual(me), vec![], false, NOW);
    assert_eq!(m.last_signal("a"), Some(NOW), "a signal for this node is never shed");
    m.emit("b", SignalScope::System, vec![], false, NOW);
    assert_eq!(m.last_signal("b"), None, "a shed signal is not delivered");
    m.emit("c", SignalScope::Group("g".to_string()), vec![], true, NOW);
    assert_eq!(m.last_signal("c"), None);
    m.join_group("g", NOW);
    m.emit("c", SignalScope::Group("g".to_string()), vec![], true, NOW + 1);
    assert_eq!(m.last_signal("c"), Some(NOW + 1));
    let queued: usize = m.kv.shards.iter().map(|s| s.frames.len()).sum();
    assert_eq!(queued, 6, "five signals and one membership were queued for the peers");
    let nonces_set = m.kv.shards.iter().all(|s| {
        s.frames.iter().all(|f| match f {
            Frame::Signal(f) => f.nonce >= 1,
            Frame::Data(u) => u.nonce >= 1,
        })
    });
    assert!(nonces_set);
}

#[test]
fn a_kept_back_kind_does_not_reach_the_handlers() {
    let mut m = make_agent().mesh;
    assert!(m.reaches_handlers("noise", &SignalScope::System, true, NOW));
    assert!(!m.reaches_handlers("noise", &SignalScope::System, false, NOW));
    m.suppress("noise", NOW, 100);
    assert!(m.is_suppressed("noise", NOW + 99));
    assert!(!m.reaches_handlers("noise", &SignalScope::System, true, NOW + 50));
    m.emit("noise", SignalScope::System, vec![], true, NOW + 50);
    assert_eq!(m.last_signal("noise"), Some(NOW + 50), "the record goes on during suppression");
    assert!(!m.is_suppressed("noise", NOW + 100));
    m.suppress("noise", NOW, 100);
    m.unsuppress("noise");
    assert!(!m.is_suppressed("noise", NOW));
}

#[test]
fn only_members_count_for_a_group() {
    let mut m = make_agent().mesh;
    m.join_group("voters", NOW);
    m.emit("vote", SignalScope::System, vec![], true, NOW);
    assert!(m.group_quorum("voters", "vote", 1, 1_000, NOW));
    assert!(!m.group_quorum("strangers", "vote", 1, 1_000, NOW));
    assert_eq!(m.group_members("voters"), vec![m.kv.node_id.clone()]);
}

#[test]
fn the_boundary_follows_the_table() {
    let mut m = make_agent().mesh;
    let _ = m.kv.set("grp/new/127.0.0.1:0", b"1".to_vec(), NOW);
    m.join_group("old", NOW);
    let _ = m.kv.delete("grp/old/127.0.0.1:0", NOW);
    m.reconcile_boundary();
    assert!(m.boundary_admits(&SignalScope::Group("new".to_string())));
    assert!(!m.boundary_admits(&SignalScope::Group("old".to_string())));
}

fn reading(fill: f32, threshold: f32, hysteresis: f32) -> FillReading {
    FillReading {
        fill: fill.to_le_bytes(),
        over: fill >= threshold,
        saturated: fill >= 1.0,
        below: fill < threshold - hysteresis,
    }
}

#[test]
fn a_governor_sheds_with_hysteresis() {
    let mut m = make_agent().mesh;
    let mut g = OpacityGovernor::new("work");
    let key = "sys/load/127.0.0.1:0/work";
    let scope = || SignalScope::System;
    assert_eq!(
        g.tick(&mut m, reading(0.8, 0.7, 0.1), true, scope(), vec![], true, NOW),
        OpacityStep::BecomeOpaque
    );
    let mark = decode_load_state(&m.kv.get(key).unwrap()).unwrap();
    assert!(mark.is_opaque);
    assert_eq!(mark.fill, 0.8f32.to_le_bytes());
    assert_eq!(
        g.tick(&mut m, reading(0.65, 0.7, 0.1), true, scope(), vec![], true, NOW),
        OpacityStep::Stay
    );
    assert_eq!(
        g.tick(&mut m, reading(0.5, 0.7, 0.1), true, scope(), vec![], true, NOW),
        OpacityStep::BecomeTransparent
    );
    assert!(m.kv.get(key).is_none());
    assert_eq!(
        g.tick(&mut m, reading(0.9, 0.7, 0.1), false, scope(), vec![], true, NOW),
        OpacityStep::Stay,
        "an objection holds while there is room"
    );
    assert_eq!(
        g.tick(&mut m, reading(1.0, 0.7, 0.1), false, scope(), vec![], true, NOW),
        OpacityStep::BecomeOpaque,
        "a full handler sheds whatever is objected"
    );
}

#[test]
fn a_node_joins_and_leaves_an_emergent_group() {
    let mut m = make_agent().mesh;
    let mut groups = EmergentGroups::new();
    let def = CapabilityGroupDef {
        filter: CapFilter::new("compute", "gpu"),
        provides: vec![Capability::new("pool", "gpu")],
        needs: vec![],
    };
    let def_key = m.kv.define_capability_group("gpu-pool", &def, NOW);
    assert!(groups.reconcile(&mut m, NOW).is_empty());
    let cap_key = m.kv.advertise_capability(&Capability::new("compute", "gpu"), 60_000, NOW);
    let actions = groups.reconcile(&mut m, NOW);
    assert!(matches!(&actions[..], [GroupAction::Joined { group }] if group == "gpu-pool"));
    assert!(m.kv.get("grp/gpu-pool/127.0.0.1:0").is_some());
    assert!(groups.reconcile(&mut m, NOW).is_empty());
    let _ = m.kv.delete(&cap_key, NOW);
    let actions = groups.reconcile(&mut m, NOW);
    assert!(matches!(&actions[..], [GroupAction::Left { group }] if group == "gpu-pool"));
    assert!(m.kv.get("grp/gpu-pool/127.0.0.1:0").is_none());
    let _ = m.kv.delete(&def_key, NOW);
}

#[test]
fn a_service_is_written_and_announced() {
    let mut m = make_agent().mesh;
    m.advertise_persistent_tick("svc.up", SignalScope::System, b"hi".to_vec(), true, NOW);
    assert_eq!(m.kv.get("svc/svc.up/127.0.0.1:0"), Some(b"hi".to_vec()));
    assert_eq!(m.last_signal("svc.up"), Some(NOW));
    assert!(!m.is_stale_signal("svc.up", 100, NOW + 100));
    assert!(m.is_stale_signal("svc.up", 100, NOW + 101));
}
