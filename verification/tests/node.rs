use mycelium::agent::GossipAgent;
use mycelium::config::GossipConfig;
use mycelium::drops::DropCounts;
use mycelium::gc::gc_cutoffs;
use mycelium::node_id::NodeId;
use mycelium::seen::SeenSet;
use mycelium::timing::{TimingIntent, TIMING_INTENT_TTL_MS};
use mycelium::wire::{Dispatch, Frame, GossipUpdate, SignalFrame, SignalScope};

const NOW: u64 = 1_000_000_000_000;

fn node(port: u16) -> NodeId {
    NodeId::new("127.0.0.1", port).unwrap()
}

fn make_agent() -> GossipAgent {
    GossipAgent::new(node(7000), GossipConfig::default())
}

// ── Timing ───────────────────────────────────────────────────────────────────

#[test]
fn timing_intent_round_trip() {
    let i = TimingIntent {
        health_check_interval_secs: 7,
        reconnect_backoff_secs: 0,
        target: Some("10.0.0.1:80".to_string()),
        written_at_ms: NOW,
    };
    let bytes = i.encode();
    let back = TimingIntent::decode(&bytes).unwrap();
    assert_eq!(back.health_check_interval_secs, 7);
    assert_eq!(back.reconnect_backoff_secs, 0);
    assert_eq!(back.target, Some("10.0.0.1:80".to_string()));
    assert_eq!(back.written_at_ms, NOW);
    assert!(TimingIntent::decode(&vec![]).is_none());
    assert!(TimingIntent::decode(&vec![1, 2, 1, 253, 255, 255, 255, 255, 255, 255, 255, 255]).is_none());
}

#[test]
fn fleet_intent_governs_until_it_evaporates() {
    let mut a = make_agent();
    assert_eq!(a.timing_in_force(), (30, 5));
    assert!(a.govern_timing(12, 0, None, NOW));
    assert_eq!(a.timing_tunables(), (0, 0), "an intent is no command");
    a.reconcile_timing(NOW + 1_000);
    assert_eq!(a.timing_tunables(), (12, 0));
    assert_eq!(a.timing_in_force(), (12, 5), "a zero leaves the value to the configuration");
    a.reconcile_timing(NOW + TIMING_INTENT_TTL_MS);
    assert_eq!(a.timing_tunables(), (12, 0));
    a.reconcile_timing(NOW + TIMING_INTENT_TTL_MS + 1);
    assert_eq!(a.timing_tunables(), (0, 0));
    assert_eq!(a.timing_in_force(), (30, 5));
}

#[test]
fn newest_intent_wins() {
    let mut a = make_agent();
    let me = node(7000);
    let _ = a.govern_timing(11, 1, Some(&me), NOW);
    let _ = a.govern_timing(22, 2, None, NOW);
    a.reconcile_timing(NOW);
    assert_eq!(a.timing_tunables(), (11, 1), "of two equally new, the one for this node");
    let _ = a.govern_timing(33, 3, None, NOW + 1);
    a.reconcile_timing(NOW + 1);
    assert_eq!(a.timing_tunables(), (33, 3));
}

#[test]
fn intent_for_another_node_is_ignored() {
    let mut a = make_agent();
    let _ = a.govern_timing(11, 1, Some(&node(7001)), NOW);
    a.reconcile_timing(NOW);
    assert_eq!(a.timing_tunables(), (0, 0));
}

#[test]
fn local_timing_wins_over_the_fleet() {
    let mut a = make_agent();
    a.set_reconnect_backoff_secs(9);
    let _ = a.govern_timing(11, 1, None, NOW);
    a.reconcile_timing(NOW);
    assert_eq!(a.timing_tunables(), (0, 9));
}

#[test]
fn cluster_name_is_the_configured_one() {
    assert_eq!(make_agent().cluster_name(), None);
    let mut cfg = GossipConfig::default();
    cfg.cluster_name = Some("staging".to_string());
    let a = GossipAgent::new(node(7000), cfg);
    assert_eq!(a.cluster_name(), Some("staging"));
}

// ── Drops ────────────────────────────────────────────────────────────────────

#[test]
fn only_peers_with_drops_are_listed() {
    let mut d = DropCounts::new();
    d.spawned("a:1");
    d.spawned("b:2");
    d.count("b:2");
    d.count("b:2");
    d.count("c:3");
    let mut r = d.peer_drop_counts();
    r.sort();
    assert_eq!(r, vec![("b:2".to_string(), 2), ("c:3".to_string(), 1)]);
    d.spawned("b:2");
    d.removed("c:3");
    assert!(d.peer_drop_counts().is_empty(), "a new writer counts from zero");
}

// ── Seen frames ──────────────────────────────────────────────────────────────

#[test]
fn frame_is_taken_in_once() {
    let mut s = SeenSet::new();
    assert!(s.first_time(5, NOW));
    assert!(!s.first_time(5, NOW + 1));
    assert!(s.first_time(6, NOW));
    assert!(s.first_time(0, NOW) && s.first_time(0, NOW), "a frame without a nonce is always new");
    assert_eq!(s.len(), 2);
}

#[test]
fn old_frames_are_forgotten() {
    let mut s = SeenSet::new();
    let c = gc_cutoffs(NOW, 5, 60);
    assert_eq!(c.seen, NOW - 1_200_000);
    let _ = s.first_time(1, c.seen - 1);
    let _ = s.first_time(2, c.seen);
    assert!(!s.evict(10, &c));
    assert_eq!(s.len(), 1);
    assert!(!s.first_time(2, NOW));
    assert!(s.first_time(1, NOW));
}

#[test]
fn crowded_set_is_trimmed_to_the_last_minute() {
    let mut s = SeenSet::new();
    let c = gc_cutoffs(NOW, 5, 60);
    for n in 1..=4 {
        let _ = s.first_time(n, NOW - 61_000);
    }
    let _ = s.first_time(9, NOW);
    assert!(s.evict(3, &c), "the tighter cutoff is not enough");
    assert_eq!(s.len(), 1);
    assert!(!s.first_time(9, NOW));
}

#[test]
fn housekeeping_round() {
    let mut a = make_agent();
    let mut seen = SeenSet::new();
    let _ = a.mesh.kv.set("k", b"v".to_vec(), NOW);
    let _ = a.mesh.kv.delete("old", NOW);
    let _ = a.mesh.emit("t", SignalScope::System, vec![], true, NOW);
    let _ = seen.first_time(1, NOW);
    let r = a.collect_garbage(&mut seen, 10, 60, NOW);
    assert_eq!((r.live_entries, r.seen_trimmed), (1, false));
    assert_eq!(a.mesh.last_signal("t"), Some(NOW));
    assert!(a.mesh.kv.written_at("old").is_some());
    let later = NOW + 3_000_001 + 1;
    let r = a.collect_garbage(&mut seen, 10, 60, later);
    assert_eq!((r.live_entries, r.seen_trimmed), (1, false));
    assert_eq!(a.mesh.last_signal("t"), None, "a delivery is remembered for ten minutes");
    assert!(a.mesh.kv.written_at("old").is_none());
    assert_eq!(seen.len(), 0);
}

// ── Relaying ─────────────────────────────────────────────────────────────────

fn update(ttl: u8) -> Frame {
    Frame::Data(GossipUpdate {
        nonce: 3,
        sender: 7,
        ttl,
        is_tombstone: false,
        timestamp: 5,
        key: "k".to_string(),
        value: b"v".to_vec(),
    })
}

#[test]
fn forwarding_takes_one_hop() {
    let mut a = make_agent();
    assert_eq!(a.mesh.kv.forward(update(1)), None);
    assert_eq!(a.mesh.kv.forward(update(0)), None);
    assert_eq!(a.mesh.kv.forward(update(3)), Some(Dispatch::Queued));
    let queued: Vec<&Frame> = a.mesh.kv.shards.iter().flat_map(|q| q.frames.iter()).collect();
    assert_eq!(queued, vec![&update(2)]);
}

#[test]
fn received_signal_meets_the_boundary() {
    let mut a = make_agent();
    let mut s = SignalFrame {
        nonce: 4,
        sender: node(7001),
        ttl: 2,
        kind: "t".to_string(),
        scope: SignalScope::Group("g".to_string()),
        payload: vec![],
        sequence: None,
    };
    assert!(!a.mesh.receive(&s, true, NOW));
    assert_eq!(a.mesh.last_signal("t"), None);
    a.mesh.join_group("g", NOW);
    assert!(!a.mesh.receive(&s, false, NOW), "a full handler sheds it");
    assert!(a.mesh.receive(&s, true, NOW));
    s.scope = SignalScope::Individual(node(7000));
    assert!(a.mesh.receive(&s, false, NOW), "what is meant for this node alone is not shed");
    a.mesh.suppress("t", NOW, 1_000);
    assert!(!a.mesh.receive(&s, true, NOW + 1));
    assert_eq!(a.mesh.last_signal("t"), Some(NOW + 1));
}

#[test]
fn ordered_signals_are_numbered_upward() {
    let mut a = make_agent();
    assert!(a.mesh.emit_ordered("t", SignalScope::System, vec![1], true, NOW));
    assert!(a.mesh.emit_ordered("t", SignalScope::System, vec![2], true, NOW));
    assert!(a.mesh.emit("t", SignalScope::System, vec![3], true, NOW));
    let numbers: Vec<Option<u64>> = a
        .mesh
        .kv
        .shards
        .iter()
        .flat_map(|q| q.frames.iter())
        .map(|f| match f {
            Frame::Signal(s) => s.sequence,
            Frame::Data(_) => None,
        })
        .collect();
    assert_eq!(numbers, vec![Some(NOW << 16), Some((NOW << 16) + 1), None]);
    assert_eq!(a.mesh.kv.clock, (NOW << 16) + 1);
}

// ── Hashed rosters ───────────────────────────────────────────────────────────

#[test]
fn hashed_roster_counts_members_only() {
    let mut a = make_agent();
    a.mesh.join_group("g", NOW);
    let _ = a.mesh.emit("t", SignalScope::System, vec![], true, NOW);
    a.mesh.log.seed("t", &node(7001), NOW);
    let hashes = a.mesh.group_hashes("g");
    assert_eq!(hashes.len(), 1);
    assert!(hashes.contains(&node(7000).id_hash()));
    assert!(a.mesh.group_quorum_prehashed(&hashes, "t", 1, 1_000, NOW));
    assert!(!a.mesh.group_quorum_prehashed(&hashes, "t", 2, 1_000, NOW));
    let mut both = hashes.clone();
    both.insert(node(7001).id_hash());
    assert!(a.mesh.group_quorum_prehashed(&both, "t", 2, 1_000, NOW));
    assert!(a.mesh.group_quorum_prehashed(&no_hashes(), "t", 0, 1_000, NOW));
    assert!(!a.mesh.group_quorum_prehashed(&no_hashes(), "t", 1, 1_000, NOW));
}

fn no_hashes() -> ahash::AHashSet<u64> {
    ahash::AHashSet::new()
}

// ── Observers ────────────────────────────────────────────────────────────────

#[test]
fn observers_of_one_table_agree() {
    let mut a = make_agent();
    let mut b = GossipAgent::new(node(7001), GossipConfig::default());
    for agent in [&mut a, &mut b] {
        for g in ["zeta", "alpha"] {
            let intent = mycelium::emergent::MembershipIntent {
                group: g.to_string(),
                min: 1,
                max: None,
                written_at_ms: NOW,
            };
            let _ = agent.mesh.kv.set(&format!("sys/membership/{g}"), intent.encode(), NOW);
        }
    }
    b.peers.hear("127.0.0.1:9", NOW);
    let (x, y) = (a.fleet_snapshot(0, 0, NOW), b.fleet_snapshot(1, 2, NOW));
    let names = |s: &mycelium::fleet::FleetSnapshot| -> Vec<(String, bool)> {
        s.governed_groups.iter().map(|g| (g.group.clone(), g.conflict)).collect()
    };
    assert_eq!(names(&x), vec![("alpha".to_string(), true), ("zeta".to_string(), true)]);
    assert_eq!(names(&x), names(&y));
    assert_eq!(x.capability_coverage_gaps, y.capability_coverage_gaps);
    assert_eq!(x.opaque_pairs, y.opaque_pairs);
    assert_ne!(x.observer, y.observer);
}
