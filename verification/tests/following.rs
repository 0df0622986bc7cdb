use mycelium::audit::{verifying_key, AuditAction, AuditOutcome, AuditRecord, SignedAuditRecord};
use mycelium::capability::{CapFilter, CapValue, Capability};
use mycelium::consensus::{ConsensusHandle, ConsensusResult};
use mycelium::emergent::{detect_governed_group_conflicts, governed_group_statuses, MembershipIntent};
use mycelium::emergent_groups::{EmergentGroups, GroupAction, GroupProjection};
use mycelium::endpoints::{gw_demand, plan_consistent_set, read_attributes};
use mycelium::following::plan_follow;
use mycelium::groupdef::CapabilityGroupDef;
use mycelium::kv::KvHandle;
use mycelium::log::lock_record;
use mycelium::mcp::{read_remote, RemoteReply};
use mycelium::mesh::MeshHandle;
use mycelium::node_id::NodeId;
use mycelium::opacity::{FillReading, OpacityGovernor, OpacityWatcher, RegEntry};
use mycelium::peers::Peers;
use mycelium::projection::GCAP_REASSERT_MS;
use mycelium::resolve::{watch_round, watch_start, CapabilityEvent};
use mycelium::wire::Frame;

const NOW: u64 = 1_000_000_000_000;

fn nid(port: u16) -> NodeId {
    NodeId::new("127.0.0.1", port).unwrap()
}

fn kv() -> KvHandle {
    KvHandle::new(nid(1), 5, 2, 64)
}

/// The keys of the writes that wait for the peers, with whether each deletes.
fn queued(kv: &KvHandle) -> Vec<(String, bool)> {
    let mut frames: Vec<(u64, String, bool)> = kv
        .shards
        .iter()
        .flat_map(|q| q.frames.iter())
        .filter_map(|f| match f {
            Frame::Data(u) => Some((u.timestamp, u.key.clone(), u.is_tombstone)),
            Frame::Signal(_) => None,
        })
        .collect();
    frames.sort();
    frames.into_iter().map(|(_, key, gone)| (key, gone)).collect()
}

fn requirement(id: u64, name: &str) -> RegEntry {
    RegEntry {
        id,
        opacity_key: format!("sys/load/127.0.0.1:1/req/ai/{name}"),
        filter: CapFilter::new("ai", name),
    }
}

// ── Marks ────────────────────────────────────────────────────────────────────

#[test]
fn marks_are_sent_to_the_peers() {
    let mut kv = kv();
    let mut w = OpacityWatcher::new();
    let registry = vec![requirement(1, "a"), requirement(2, "b")];
    w.adopt(&mut kv, &registry, NOW);
    assert_eq!(
        queued(&kv),
        vec![(registry[0].opacity_key.clone(), false), (registry[1].opacity_key.clone(), false)]
    );
    w.settle(&mut kv, &vec![], NOW);
    assert_eq!(queued(&kv).len(), 2, "a mark that stands is not sent again");
    w.settle(&mut kv, &vec![2], NOW);
    assert_eq!(queued(&kv)[2], (registry[1].opacity_key.clone(), true));
    w.clear_all(&mut kv, NOW);
    assert_eq!(queued(&kv)[3], (registry[0].opacity_key.clone(), true));
    assert_eq!(queued(&kv).len(), 4);
}

#[test]
fn every_requirement_is_taken_on_at_the_start() {
    let mut kv = kv();
    let mut w = OpacityWatcher::new();
    let mut registry = vec![requirement(1, "a"), requirement(2, "a")];
    w.start(&mut kv, &registry, NOW);
    assert_eq!(w.local.len(), 2, "two requirements share a key");
    assert_eq!(queued(&kv).len(), 2);
    registry.push(requirement(3, "a"));
    registry.push(requirement(4, "b"));
    w.adopt(&mut kv, &registry, NOW);
    assert_eq!(w.local.iter().map(|e| e.id).collect::<Vec<u64>>(), vec![1, 2, 4]);
    w.settle(&mut kv, &vec![1], NOW);
    assert!(kv.get(&registry[0].opacity_key).is_none());
    assert!(w.local[0].opaque_written, "the watcher goes by what it wrote for each");
}

#[test]
fn watcher_goes_on_when_its_mark_was_removed() {
    let mut kv = kv();
    let mut w = OpacityWatcher::new();
    let registry = vec![requirement(1, "a")];
    w.adopt(&mut kv, &registry, NOW);
    let _ = kv.delete(&registry[0].opacity_key, NOW);
    w.settle(&mut kv, &vec![], NOW);
    assert!(kv.get(&registry[0].opacity_key).is_none(), "the watcher goes by what it wrote");
    let _ = kv.set("cap/127.0.0.1:2/ai/a", Capability::new("ai", "a").encode(), NOW);
    w.settle(&mut kv, &vec![], NOW);
    assert!(!w.local[0].opaque_written);
    w.clear_all(&mut kv, NOW);
    assert!(w.local.is_empty());
}

#[test]
fn gate_is_asked_only_before_the_node_becomes_opaque() {
    let mut g = OpacityGovernor::new("work");
    let over = FillReading { fill: [0; 4], over: true, saturated: false, below: false };
    let under = FillReading { fill: [0; 4], over: false, saturated: false, below: true };
    assert!(g.asks_gate(&over));
    assert!(!g.asks_gate(&under));
    g.is_opaque = true;
    assert!(!g.asks_gate(&over));
}

// ── Groups ───────────────────────────────────────────────────────────────────

fn pool() -> CapabilityGroupDef {
    CapabilityGroupDef {
        filter: CapFilter::new("compute", "gpu"),
        provides: vec![Capability::new("pool", "gpu")],
        needs: vec![CapFilter::new("store", "disk"), CapFilter::new("net", "link")],
    }
}

#[test]
fn membership_that_stands_is_not_written_again() {
    let mut m = MeshHandle::new(kv());
    let mut groups = EmergentGroups::new();
    let _ = m.kv.define_capability_group("pool", &pool(), NOW);
    let _ = m.kv.advertise_capability(&Capability::new("compute", "gpu"), 60_000, NOW);
    assert_eq!(groups.reconcile(&mut m, NOW).len(), 1);
    let sent = queued(&m.kv);
    assert_eq!(sent.last(), Some(&("grp/pool/127.0.0.1:1".to_string(), false)));
    let stamp = m.kv.written_at("grp/pool/127.0.0.1:1");
    assert!(groups.reconcile(&mut m, NOW + 5).is_empty());
    assert_eq!(m.kv.written_at("grp/pool/127.0.0.1:1"), stamp);
    assert_eq!(queued(&m.kv), sent);
    assert_eq!(groups.leave_all(&mut m, NOW), vec!["pool".to_string()]);
    assert_eq!(queued(&m.kv).last(), Some(&("grp/pool/127.0.0.1:1".to_string(), true)));
}

fn joined(group: &str, provides: &[&str], needs: &[&str]) -> GroupProjection {
    GroupProjection {
        group: group.to_string(),
        provides: provides.iter().map(|n| Capability::new("ai", n)).collect(),
        needs: needs.iter().map(|n| CapFilter::new("ai", n)).collect(),
    }
}

#[test]
fn what_a_group_no_longer_has_is_taken_back() {
    let before = vec![joined("a", &["x", "y"], &["n", "m"]), joined("b", &["x"], &["n"])];
    let after = vec![joined("a", &["y"], &["n"]), joined("c", &["z"], &[])];
    let due = vec![
        GroupAction::Changed { group: "a".to_string(), provides: true, needs: true },
        GroupAction::Joined { group: "c".to_string() },
        GroupAction::Left { group: "b".to_string() },
    ];
    let plan = plan_follow(&before, &after, &due, &nid(1), NOW, NOW + 1);
    assert_eq!(plan.retract, vec!["gcap/a/ai/x/127.0.0.1:1".to_string(), "gcap/b/ai/x/127.0.0.1:1".to_string()]);
    assert_eq!(
        plan.unmark,
        vec![
            "sys/load/127.0.0.1:1/group-req/a/1".to_string(),
            "sys/load/127.0.0.1:1/group-req/b/0".to_string()
        ]
    );
    assert_eq!(plan.project, vec![true, true]);
    assert_eq!(plan.projected_at, NOW);
}

#[test]
fn projections_are_written_anew_after_a_while() {
    let groups = vec![joined("a", &["x"], &[]), joined("b", &["x"], &[])];
    let due = vec![GroupAction::Changed { group: "b".to_string(), provides: false, needs: true }];
    let early = plan_follow(&groups, &groups, &due, &nid(1), NOW, NOW + GCAP_REASSERT_MS - 1);
    assert_eq!((early.project, early.projected_at), (vec![false, false], NOW));
    assert!(early.retract.is_empty() && early.unmark.is_empty());
    let late = plan_follow(&groups, &groups, &vec![], &nid(1), NOW, NOW + GCAP_REASSERT_MS);
    assert_eq!((late.project, late.projected_at), (vec![true, true], NOW + GCAP_REASSERT_MS));
}

#[test]
fn left_group_leaves_no_marks() {
    let mut kv = kv();
    let p = joined("a", &["x"], &["n", "m"]);
    let _ = kv.set("cap/127.0.0.1:2/ai/m", Capability::new("ai", "m").encode(), NOW);
    kv.settle_needs(&p, NOW);
    let sent = queued(&kv).len();
    kv.settle_needs(&p, NOW);
    assert_eq!(queued(&kv).len(), sent, "a mark that stands is not sent again");
    let plan = plan_follow(&vec![p], &vec![], &vec![], &nid(1), NOW, NOW);
    assert_eq!(plan.unmark.len(), 2);
    kv.unmark(&plan.unmark, NOW);
    assert!(kv.scan_prefix("sys/load/").is_empty());
    assert_eq!(queued(&kv).len(), sent + 1, "only the mark that stood is deleted");
}

// ── Watches ──────────────────────────────────────────────────────────────────

#[test]
fn watch_begins_with_what_a_lookup_finds() {
    let mut kv = kv();
    let _ = kv.advertise_capability(&Capability::new("ai", "a"), 60_000, NOW);
    let mut filter = CapFilter::new("ai", "a");
    filter.max_age_ms = Some(10);
    let (events, known) = watch_start(&kv, &filter, NOW + 5);
    assert!(matches!(&events[..], [CapabilityEvent::Added { node_id, .. }] if *node_id == nid(1)));
    assert_eq!(known.len(), 1);
    let (events, mut known) = watch_start(&kv, &filter, NOW + 11);
    assert!(events.is_empty() && known.is_empty(), "the advertisement is too old to begin with");
    assert_eq!(watch_round(&kv, &filter, &mut known, NOW + 11).len(), 1);
}

#[test]
fn watch_knows_one_capability_for_each_name() {
    let mut kv = kv();
    let filter = CapFilter::new("ai", "a");
    let mut other = Capability::new("ai", "a");
    other.attributes.push(("x".to_string(), CapValue::Integer(1)));
    let _ = kv.set("cap/127.0.0.1:80/ai/a", Capability::new("ai", "a").encode(), NOW);
    let _ = kv.set("cap/127.0.0.1:080/ai/a", other.encode(), NOW);
    let mut known = Vec::new();
    let events = watch_round(&kv, &filter, &mut known, NOW);
    assert!(matches!(&events[..], [CapabilityEvent::Added { node_id, .. }] if *node_id == nid(80)));
    assert_eq!(known.len(), 1);
    let _ = kv.delete("cap/127.0.0.1:80/ai/a", NOW);
    let _ = kv.delete("cap/127.0.0.1:080/ai/a", NOW);
    assert_eq!(watch_round(&kv, &filter, &mut known, NOW).len(), 1);
    assert!(known.is_empty());
}

// ── Documents ────────────────────────────────────────────────────────────────

#[test]
fn attributes_are_read_by_their_kind() {
    let body = br#"{"attributes":{"a":"t","b":true,"c":-3,"d":1.5,"e":null,"f":18446744073709551615,"g":[1]}}"#;
    let expected = vec![
        ("a".to_string(), CapValue::Text("t".to_string())),
        ("b".to_string(), CapValue::Bool(true)),
        ("c".to_string(), CapValue::Integer(-3)),
        ("d".to_string(), CapValue::FloatBits(1.5f64.to_bits())),
        ("f".to_string(), CapValue::FloatBits(18446744073709551615f64.to_bits())),
    ];
    assert_eq!(read_attributes(&body.to_vec()), expected);
    assert!(read_attributes(&b"{}".to_vec()).is_empty());
    assert!(read_attributes(&b"nonsense".to_vec()).is_empty());
}

#[test]
fn remote_answer_is_a_document_or_unreadable() {
    match read_remote(&br#" { "b" : 1, "a" : [ 2 ] } "#.to_vec()) {
        RemoteReply::Document { json } => assert_eq!(json, r#"{"a":[2],"b":1}"#),
        _ => panic!("a document was refused"),
    }
    match read_remote(&b"nonsense".to_vec()) {
        RemoteReply::Unreadable { message } => assert!(message.contains("line 1")),
        _ => panic!("nonsense was read"),
    }
}

#[test]
fn lock_record_names_holder_and_end() {
    assert_eq!(lock_record("a\"b", 7), br#"{"expires_ms":7,"holder":"a\"b"}"#.to_vec());
}

// ── Laws on values ───────────────────────────────────────────────────────────

fn record(target: &str, seq: u64) -> AuditRecord {
    AuditRecord {
        node_id: nid(1),
        seq,
        hlc: 9,
        principal: "p".to_string(),
        action: AuditAction::Write,
        target: target.to_string(),
        outcome: AuditOutcome::Success,
        detail: None,
        prev_hash: [0; 32],
    }
}

#[test]
fn hash_and_signature_belong_to_one_record() {
    let key = [3u8; 32];
    let a = record("t", 1);
    assert_eq!(a.content_hash(), record("t", 1).content_hash());
    assert_ne!(a.content_hash(), record("u", 1).content_hash());
    assert_ne!(a.content_hash(), record("t", 2).content_hash());
    let s = SignedAuditRecord::sign(a, &key);
    assert!(s.verify(&verifying_key(&key)));
    let moved = SignedAuditRecord { record: record("u", 1), sig: s.sig.clone() };
    assert!(!moved.verify(&verifying_key(&key)));
}

#[test]
fn conflicting_statuses_are_the_conflicts() {
    let mut kv = kv();
    for (group, min) in [("low", 1u64), ("fine", 0)] {
        let i = MembershipIntent { group: group.to_string(), min, max: None, written_at_ms: NOW };
        let _ = kv.set(&format!("sys/membership/{group}"), i.encode(), NOW);
    }
    let statuses = governed_group_statuses(&kv, NOW);
    assert_eq!(statuses.len(), 2);
    let bad: Vec<String> = statuses.iter().filter(|s| s.conflict).map(|s| s.group.clone()).collect();
    let found: Vec<String> = detect_governed_group_conflicts(&kv, NOW).into_iter().map(|c| c.group).collect();
    assert_eq!(bad, vec!["low".to_string()]);
    assert_eq!(bad, found);
    assert_eq!(gw_demand(&kv, "ai", "a"), (0, 0));
}

fn consensus() -> ConsensusHandle {
    ConsensusHandle {
        mesh: MeshHandle::new(kv()),
        peers: Peers::new(),
        signal_window_secs: 300,
        health_check_interval_secs: 30,
    }
}

#[test]
fn next_holder_has_a_higher_token() {
    let mut c = consensus();
    let won = ConsensusResult::Committed { ballot: 4 };
    let first = c.finish_lock("l", won, NOW).unwrap();
    let t1 = first.token;
    c.release_lock(first, NOW - 1_000);
    let second = c.finish_lock("l", won, NOW - 2_000).unwrap();
    assert!(0 < t1 && t1 < second.token);
}

#[test]
fn consistent_write_leaves_the_rest_alone() {
    let mut c = consensus();
    c.mesh.join_group("g", NOW);
    c.peers.hear("127.0.0.1:9", NOW);
    let plan = plan_consistent_set(&br#"{"key":"k","value_b64":"aGk="}"#.to_vec()).unwrap_or_else(|_| panic!());
    let r = c.gw_consistent_set(plan, ConsensusResult::Committed { ballot: 1 }, NOW);
    assert_eq!(r.body, r#"{"ok":true}"#);
    assert_eq!(c.mesh.kv.get("k"), Some(b"hi".to_vec()));
    assert!(c.mesh.groups.contains("g"));
    assert_eq!(c.peers.entries().len(), 1);
}
