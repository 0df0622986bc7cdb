use mycelium::agent::{
    engine_settings, listener_count, listener_step, overlay_engine_settings, self_locality, AcceptResult,
    AgentState, GossipAgent, GossipError, ListenerStep, TaskReport,
};
use mycelium::capability::Capability;
use mycelium::config::{shard_count, GossipConfig};
use mycelium::evidence::frame_with_nonce;
use mycelium::load::{encode_load_state, LoadState};
use mycelium::node_id::NodeId;
use mycelium::roster::RosterCache;

const NOW: u64 = 1_000_000_000_000;

fn make_agent() -> GossipAgent {
    GossipAgent::new(NodeId::new("127.0.0.1", 0).unwrap(), GossipConfig::default())
}

fn quiet() -> TaskReport {
    TaskReport {
        live_entries: 0,
        gc_alive: false,
        health_monitor_alive: false,
        open_connections: 0,
        intern_pool_size: 0,
        individual_flood_fallbacks: 0,
        task_count: 0,
        active_bulk_handlers: 0,
        commit_conflicts: 0,
        sys_namespace_violations: 0,
        cap_authz_violations: 0,
        schema_mismatch: 0,
        rate_limited_senders: 0,
    }
}

#[test]
fn create_agent() {
    let agent = make_agent();
    assert_eq!(agent.node_id(), &NodeId::new("127.0.0.1", 0).unwrap());
}

#[test]
fn system_stats_reflect_state() {
    let mut agent = make_agent();
    let _ = agent.mesh.kv.set("a", b"1".to_vec(), NOW);
    let _ = agent.mesh.kv.set("b", b"2".to_vec(), NOW);
    let _ = agent.mesh.kv.delete("b", NOW);
    let stats = agent.system_stats(&quiet());
    assert_eq!(stats.peers, 0);
    assert_eq!(stats.store_entries, 1);
    assert_eq!(stats.cached_connections, 0);
    assert_eq!(stats.gossip_shard_queue_depths.iter().sum::<usize>(), 3);
}

#[test]
fn gossip_channel_capacity_used_by_agent() {
    let mut cfg = GossipConfig::default();
    cfg.gossip_channel_capacity = 1;
    let mut agent = GossipAgent::new(NodeId::new("127.0.0.1", 0).unwrap(), cfg);
    assert!(agent.mesh.kv.set("k1", b"v1".to_vec(), NOW), "first send fits in capacity-1 shard");
    assert!(!agent.mesh.kv.set("k1", b"v2".to_vec(), NOW), "second send to same shard should fail");
    assert_eq!(agent.system_stats(&quiet()).dropped_frames, 1);
}

#[test]
fn the_number_of_shards_is_a_power_of_two() {
    assert_eq!(
        [0, 1, 2, 3, 4, 5, 9].map(shard_count),
        [1, 1, 2, 4, 4, 8, 16]
    );
    let mut cfg = GossipConfig::default();
    cfg.gossip_shards = 5;
    cfg.bootstrap_peers =
        vec![NodeId::new("127.0.0.1", 0).unwrap(), NodeId::new("127.0.0.1", 9).unwrap()];
    let agent = GossipAgent::new(NodeId::new("127.0.0.1", 0).unwrap(), cfg);
    assert_eq!(agent.config.gossip_shards, 8);
    assert_eq!(agent.mesh.kv.shards.len(), 8);
    assert_eq!(agent.bootstrap_peers, vec![NodeId::new("127.0.0.1", 9).unwrap()]);
}

#[test]
fn an_agent_starts_once() {
    let mut a = make_agent();
    match a.start("127.0.0.1:1", false, NOW) {
        Err(GossipError::Config(m)) => {
            assert_eq!(m, "node_id '127.0.0.1:0' does not match bind address '127.0.0.1:1'")
        },
        other => panic!("{other:?}"),
    }
    assert_eq!(a.start("127.0.0.1:0", true, NOW), Ok(()));
    assert_eq!(a.state, AgentState::Running);
    assert_eq!(
        a.start("127.0.0.1:0", true, NOW),
        Err(GossipError::State("Agent already running".to_string()))
    );
    let stats = a.system_stats(&quiet());
    assert_eq!((stats.dead_shards, stats.gc_alive, stats.health_monitor_alive), (4, false, false));
    a.start_failed();
    assert_eq!(a.state, AgentState::Idle);
    assert_eq!(a.start("127.0.0.1:0", true, NOW), Ok(()));
    a.shutdown(NOW);
    assert_eq!(a.state, AgentState::Stopped);
    assert_eq!(
        a.start("127.0.0.1:0", true, NOW),
        Err(GossipError::State("Agent has been shut down and cannot be restarted".to_string()))
    );
    assert!(a.system_stats(&quiet()).gc_alive, "a stopped agent is no crash");
}

#[test]
fn a_start_takes_over_what_the_table_says() {
    let mut cfg = GossipConfig::default();
    cfg.locality_path = vec!["eu".to_string(), "rack-1".to_string()];
    let mut a = GossipAgent::new(NodeId::new("127.0.0.1", 0).unwrap(), cfg);
    let _ = a.mesh.kv.set("grp/team/127.0.0.1:0", b"1".to_vec(), NOW);
    let stamp = frame_with_nonce(NOW - 10, &vec![]);
    let _ = a.mesh.kv.set("sys/quorum/a/b/127.0.0.1:7", stamp.clone(), NOW);
    let _ = a.mesh.kv.set("sys/quorum/a/b/nobody", stamp, NOW);
    let old = frame_with_nonce(NOW - 400_000, &vec![]);
    let _ = a.mesh.kv.set("sys/quorum/a/b/127.0.0.1:8", old, NOW);
    a.start("127.0.0.1:0", true, NOW).unwrap();
    assert_eq!(a.groups(), vec!["team".to_string()]);
    assert!(a.mesh.quorum("a/b", 1, 300_000, NOW));
    assert!(!a.mesh.quorum("a/b", 2, 300_000, NOW));
    assert_eq!(a.mesh.last_signal("a/b"), None, "evidence is no delivery");
    assert!(a.mesh.kv.get("cap/127.0.0.1:0/locality/self").is_some());
    a.shutdown(NOW);
    assert!(a.mesh.kv.get("cap/127.0.0.1:0/locality/self").is_none());
}

#[test]
fn a_shutdown_deletes_the_marks_of_the_node() {
    let mut a = make_agent();
    let mark = encode_load_state(&LoadState { fill: [0; 4], is_opaque: true, written_at_ms: NOW });
    let _ = a.mesh.kv.set("sys/load/127.0.0.1:0/x", mark.clone(), NOW);
    let _ = a.mesh.kv.set("sys/load/127.0.0.1:0/y", mark.clone(), NOW);
    let _ = a.mesh.kv.set("sys/load/127.0.0.1:7/x", mark, NOW);
    let load = a.mesh.kv.peer_load(100, NOW + 100);
    assert_eq!(load.len(), 3);
    assert!(a.mesh.kv.peer_load(100, NOW + 101).is_empty());
    assert!(load.iter().any(|(n, k, s)| n == "127.0.0.1:7" && k == "x" && s.is_opaque));
    a.shutdown(NOW);
    assert_eq!(a.mesh.kv.scan_prefix("sys/load/").len(), 1);
    assert_eq!(a.state, AgentState::Idle, "an agent that never ran is not stopped");
}

#[test]
fn settings_change_while_it_runs() {
    let mut a = make_agent();
    assert_eq!(a.hot_tunables(), (0, 1024, 0));
    assert_eq!(a.timing_tunables(), (0, 0));
    a.set_max_inbound_frames_per_sec(9);
    a.set_writer_channel_depth(0);
    a.set_max_concurrent_bulk_handlers(3);
    assert_eq!(a.hot_tunables(), (9, 1, 3));
    assert!(!a.hot.timing_locally_pinned);
    a.set_health_check_interval_secs(7);
    a.set_reconnect_backoff_secs(8);
    assert_eq!(a.timing_tunables(), (7, 8));
    assert!(a.hot.timing_locally_pinned);
    assert!(!a.is_ready());
    let key = a.advertise_capability(&Capability::new("ai", "chat"), 1_000, NOW);
    assert_eq!(key, format!("cap/{}/ai/chat", a.node_id().to_text()));
    assert!(a.is_ready() && a.mesh.kv.get(&key).is_some());
    a.peers.hear("127.0.0.1:7", NOW);
    assert_eq!(a.peers(), vec!["127.0.0.1:7".to_string()]);
}

#[test]
fn a_listener_serves_up_to_its_limit() {
    assert_eq!([0, 1, 3, 8].map(listener_count), [1, 1, 3, 4]);
    assert_eq!(listener_step(AcceptResult::Accepted, 1, 2), ListenerStep::Serve);
    assert_eq!(listener_step(AcceptResult::Accepted, 2, 2), ListenerStep::Refuse);
    assert_eq!(listener_step(AcceptResult::InvalidSocket, 0, 2), ListenerStep::Stop);
    assert_eq!(listener_step(AcceptResult::Failed, 0, 2), ListenerStep::RetryAfterMs(50));
}

#[test]
fn proposers_know_where_they_stand() {
    let mut cfg = GossipConfig::default();
    assert_eq!(self_locality(&cfg), None);
    cfg.locality_path = vec!["eu".to_string()];
    let e = engine_settings(&cfg, true, true, 5);
    assert_eq!(e.self_locality, Some(vec!["eu".to_string()]));
    assert!(e.abstain_when_opaque && e.use_trust_slices && e.max_abstain_ballots == 5);
    let o = overlay_engine_settings();
    assert!(!o.abstain_when_opaque && !o.use_trust_slices && o.self_locality.is_none());
    assert_eq!(o.max_abstain_ballots, 3);
}

#[test]
fn a_roster_is_kept_until_it_changes_or_ages() {
    let mut a = make_agent();
    let mut cache = RosterCache::new();
    a.mesh.join_group("g", NOW);
    assert_eq!(cache.cached_group_members(&a.mesh.kv, "g", 1, 100, NOW).len(), 1);
    a.mesh.leave_group("g", NOW);
    assert_eq!(cache.cached_group_members(&a.mesh.kv, "g", 1, 100, NOW + 99).len(), 1);
    assert_eq!(cache.cached_group_members(&a.mesh.kv, "g", 2, 100, NOW + 99).len(), 0);
    a.mesh.join_group("g", NOW);
    assert_eq!(cache.cached_group_members(&a.mesh.kv, "g", 2, 100, NOW + 199).len(), 1);
}

#[test]
fn stats_carry_the_counters_of_the_tasks() {
    let mut report = quiet();
    report.task_count = 7;
    report.intern_pool_size = 3;
    report.cap_authz_violations = 2;
    let s = GossipAgent::new(NodeId::new("127.0.0.1", 0).unwrap(), GossipConfig::default()).system_stats(&report);
    assert_eq!((s.task_count, s.intern_pool_size, s.cap_authz_violations), (7, 3, 2));
    assert_eq!((s.commit_conflicts, s.schema_mismatch, s.rate_limited_senders), (0, 0, 0));
}
