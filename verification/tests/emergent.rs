use mycelium::capability::{CapFilter, Capability, ReqEntry};
use mycelium::emergent::{
    confirm_by_key, confirm_conflicts, detect_coverage_gaps, detect_governed_group_conflicts,
    flap_transitions, governed_group_statuses, membership_snapshot, opacity_pairs, GroupConflict,
    MembershipIntent, Streaks, FLAP_THRESHOLD, FLAP_WINDOW_MS, MEMBERSHIP_INTENT_TTL_MS,
    MEMBERSHIP_PREFIX, OPAQUE_MAX_AGE_MS,
};
use mycelium::fleet::{
    compute_fleet_snapshot, compute_view_confidence, opaque_node_pct, Detectors,
};
use mycelium::flap::FlapTracker;
use mycelium::kv::KvHandle;
use mycelium::load::{encode_load_state, LoadState};
use mycelium::node_id::NodeId;
use mycelium::pairs::{set_transitions, PairSet};
use mycelium::peers::Peers;

const NOW: u64 = 1_000_000_000_000;

fn nid(port: u16) -> NodeId {
    NodeId::new("127.0.0.1", port).unwrap()
}

fn store() -> KvHandle {
    KvHandle::new(nid(9000), 4, 1, 4096)
}

fn seed_intent(kv: &mut KvHandle, group: &str, min: u64, max: Option<u64>, now: u64) {
    let intent = MembershipIntent { group: group.to_string(), min, max, written_at_ms: now };
    let _ = kv.set(&format!("{MEMBERSHIP_PREFIX}{group}"), intent.encode(), NOW);
}

fn seed_members(kv: &mut KvHandle, group: &str, count: usize) {
    for i in 0..count {
        let node = nid(20000 + i as u16);
        let _ = kv.set(&format!("grp/{group}/{}", node.to_text()), b"1".to_vec(), NOW);
    }
}

fn seed_opacity(kv: &mut KvHandle, node: &NodeId, kind: &str, is_opaque: bool, now: u64) {
    let fill: f32 = if is_opaque { 1.0 } else { 0.1 };
    let ls = LoadState { fill: fill.to_le_bytes(), is_opaque, written_at_ms: now };
    let _ = kv.set(&format!("sys/load/{}/{kind}", node.to_text()), encode_load_state(&ls), NOW);
}

fn seed_requirement(kv: &mut KvHandle, node: &NodeId, ns: &str, name: &str) {
    let req = ReqEntry { filter: CapFilter::new(ns, name), refresh_interval_ms: 60_000 };
    let _ = kv.set(&format!("req/{}/{ns}/{name}", node.to_text()), req.encode(), NOW);
}

fn seed_capability(kv: &mut KvHandle, node: &NodeId, ns: &str, name: &str) {
    let _ = kv.set(&format!("cap/{}/{ns}/{name}", node.to_text()), Capability::new(ns, name).encode(), NOW);
}

fn snap(pairs: &[(&str, &[&str])]) -> PairSet {
    let mut s = PairSet::new();
    for (g, ns) in pairs {
        for n in ns.iter() {
            s.insert(g.to_string(), n.to_string());
        }
    }
    s
}

#[test]
fn detects_the_56_over_max_condition() {
    let mut kv = store();
    seed_intent(&mut kv, "workers", 2, Some(8), NOW);
    seed_members(&mut kv, "workers", 9);
    let conflicts = detect_governed_group_conflicts(&kv, NOW);
    assert_eq!(conflicts.len(), 1, "exactly one group in conflict");
    assert_eq!(conflicts[0].group, "workers");
    assert_eq!(conflicts[0].observed, 9);
    assert_eq!(conflicts[0].max, Some(8));
}

#[test]
fn detects_under_min_condition() {
    let mut kv = store();
    seed_intent(&mut kv, "workers", 5, Some(10), NOW);
    seed_members(&mut kv, "workers", 2);
    let conflicts = detect_governed_group_conflicts(&kv, NOW);
    assert_eq!(conflicts.len(), 1);
    assert_eq!(conflicts[0].observed, 2);
    assert_eq!(conflicts[0].min, 5);
}

#[test]
fn healthy_membership_in_bounds_does_not_trip() {
    for count in [2, 5, 8] {
        let mut kv = store();
        seed_intent(&mut kv, "workers", 2, Some(8), NOW);
        seed_members(&mut kv, "workers", count);
        assert!(
            detect_governed_group_conflicts(&kv, NOW).is_empty(),
            "in-range membership ({count} in [2,8]) must not trip the detector",
        );
    }
}

#[test]
fn evaporated_intent_produces_no_conflict() {
    let mut kv = store();
    seed_intent(&mut kv, "workers", 2, Some(8), NOW - MEMBERSHIP_INTENT_TTL_MS - 1);
    seed_members(&mut kv, "workers", 9);
    assert!(detect_governed_group_conflicts(&kv, NOW).is_empty());
}

#[test]
fn hysteresis_requires_sustained_conflict() {
    let raw = vec![GroupConflict { group: "g".into(), observed: 9, min: 2, max: Some(8) }];
    let mut streaks = Streaks::new();
    assert_eq!(confirm_conflicts(&raw, &mut streaks, 2), 0, "tick 1: not yet confirmed");
    assert_eq!(confirm_conflicts(&raw, &mut streaks, 2), 1, "tick 2: confirmed");
    assert_eq!(confirm_conflicts(&vec![], &mut streaks, 2), 0, "recovered: no confirmed conflict");
    assert!(streaks.is_empty(), "recovered group's streak is pruned");
}

#[test]
fn opacity_storm_shows_high_pct() {
    let mut kv = store();
    for i in 0..8 {
        seed_opacity(&mut kv, &nid(30000 + i as u16), "work", i < 6, NOW);
    }
    let pct = opaque_node_pct(&kv, 8, NOW, OPAQUE_MAX_AGE_MS);
    assert_eq!(pct, 75, "6 of 8 opaque");
}

#[test]
fn healthy_fleet_shows_low_opacity_pct() {
    let mut kv = store();
    for i in 0..8 {
        seed_opacity(&mut kv, &nid(31000 + i as u16), "work", i == 0, NOW);
    }
    assert_eq!(opaque_node_pct(&kv, 8, NOW, OPAQUE_MAX_AGE_MS), 12, "1 of 8");
}

#[test]
fn stale_opacity_entry_not_counted() {
    let mut kv = store();
    seed_opacity(&mut kv, &nid(32000), "work", true, NOW - OPAQUE_MAX_AGE_MS - 1);
    assert_eq!(opaque_node_pct(&kv, 4, NOW, OPAQUE_MAX_AGE_MS), 0);
}

#[test]
fn coverage_gap_when_no_provider() {
    let mut kv = store();
    seed_requirement(&mut kv, &nid(40000), "ai", "llm");
    let gaps = detect_coverage_gaps(&kv, NOW);
    assert_eq!(gaps, vec!["ai/llm".to_string()], "one coverage gap");
}

#[test]
fn no_gap_when_provider_present() {
    let mut kv = store();
    seed_requirement(&mut kv, &nid(41000), "ai", "llm");
    seed_capability(&mut kv, &nid(41001), "ai", "llm");
    assert!(detect_coverage_gaps(&kv, NOW).is_empty(), "a covered requirement is not a gap");
}

#[test]
fn confirm_by_key_requires_sustained() {
    let mut streaks = Streaks::new();
    let keys = vec!["ai/llm".to_string()];
    assert_eq!(confirm_by_key(&keys, &mut streaks, 2), 0, "tick 1");
    assert_eq!(confirm_by_key(&keys, &mut streaks, 2), 1, "tick 2 confirmed");
    assert_eq!(confirm_by_key(&vec![], &mut streaks, 2), 0, "recovered");
    assert!(streaks.is_empty());
}

#[test]
fn flap_transitions_detects_join_and_leave() {
    let prev = snap(&[("g", &["a", "b"])]);
    let curr = snap(&[("g", &["b", "c"])]);
    let t = flap_transitions(&prev, &curr);
    assert_eq!(t.len(), 2);
    assert!(t.contains("g", "a"));
    assert!(t.contains("g", "c"));
    assert!(flap_transitions(&curr, &curr).len() == 0);
}

#[test]
fn flap_tracker_flags_sustained_toggling_and_ages_out() {
    let mut tr = FlapTracker::new();
    let pair = snap(&[("g", &["n"])]);
    for i in 0..4 {
        tr.record(&pair, 1_000 + i * 5_000);
    }
    assert_eq!(tr.flapping_count(1_000 + 3 * 5_000, FLAP_WINDOW_MS, FLAP_THRESHOLD), 1);
    assert_eq!(
        tr.flapping_count(1_000 + 3 * 5_000 + FLAP_WINDOW_MS + 1, FLAP_WINDOW_MS, FLAP_THRESHOLD),
        0
    );
    assert!(tr.events.is_empty(), "the silent pair is forgotten");
}

#[test]
fn single_failover_is_not_a_flap() {
    let mut tr = FlapTracker::new();
    let pair = snap(&[("g", &["n"])]);
    tr.record(&pair, 1_000);
    assert_eq!(tr.flapping_count(2_000, FLAP_WINDOW_MS, FLAP_THRESHOLD), 0, "one join is not a flap");
}

#[test]
fn opacity_pairs_selects_fresh_opaque() {
    let mut kv = store();
    let a = nid(50000);
    let b = nid(50001);
    seed_opacity(&mut kv, &a, "work", true, NOW);
    seed_opacity(&mut kv, &b, "work", false, NOW);
    seed_opacity(&mut kv, &a, "sync", true, NOW - OPAQUE_MAX_AGE_MS - 1);
    let pairs = opacity_pairs(&kv, NOW, OPAQUE_MAX_AGE_MS);
    assert_eq!(pairs.sorted(), vec![(a.to_text(), "work".to_string())]);
}

#[test]
fn set_transitions_is_symmetric_difference() {
    let prev = snap(&[("n", &["a"])]);
    let curr = snap(&[("n", &["b"])]);
    let t = set_transitions(&prev, &curr);
    assert_eq!(t.len(), 2);
    assert!(set_transitions(&curr, &curr).len() == 0);
}

#[test]
fn governed_group_statuses_reports_all_groups_sorted() {
    let mut kv = store();
    seed_intent(&mut kv, "zeta", 2, Some(8), NOW);
    seed_members(&mut kv, "zeta", 5);
    seed_intent(&mut kv, "alpha", 1, Some(2), NOW);
    seed_members(&mut kv, "alpha", 4);
    let s = governed_group_statuses(&kv, NOW);
    assert_eq!(s.len(), 2);
    assert_eq!(s[0].group, "alpha");
    assert!(s[0].conflict, "alpha: 4 > max 2");
    assert_eq!(s[0].observed, 4);
    assert_eq!(s[1].group, "zeta");
    assert!(!s[1].conflict, "zeta: 5 within [2,8]");
}

#[test]
fn an_intent_reads_back() {
    let i = MembershipIntent { group: "g".to_string(), min: 1, max: None, written_at_ms: 5 };
    let back = MembershipIntent::decode(&i.encode()).expect("decode");
    assert_eq!((back.group, back.min, back.max, back.written_at_ms), ("g".to_string(), 1, None, 5));
}

#[test]
fn the_fleet_is_summed_up() {
    let mut kv = store();
    let me = nid(9000);
    let mut peers = Peers::new();
    for i in 0..3 {
        peers.hear(&nid(30000 + i).to_text(), NOW);
    }
    seed_opacity(&mut kv, &nid(30000), "work", true, NOW);
    seed_requirement(&mut kv, &me, "ai", "llm");
    let s = compute_fleet_snapshot(&me, &kv, &peers, 2, 1, NOW);
    assert_eq!(s.observer, "127.0.0.1:9000");
    assert_eq!(s.opaque_node_pct, 25);
    assert_eq!(s.capability_coverage_gaps, vec!["ai/llm".to_string()]);
    assert_eq!(s.opaque_pairs, vec![("127.0.0.1:30000".to_string(), "work".to_string())]);
    assert_eq!((s.membership_flaps, s.opacity_oscillations), (2, 1));
    let v = compute_view_confidence(&me, &kv, &peers, NOW + 500);
    assert_eq!((v.peers_known, v.peers_heard, v.max_staleness_ms, v.self_degraded), (3, 3, 500, false));
}

#[test]
fn detectors_confirm_what_lasts() {
    let mut kv = store();
    seed_intent(&mut kv, "workers", 2, Some(8), NOW);
    let mut d = Detectors::new(&kv, NOW);
    let first = d.round(&kv, NOW);
    assert_eq!(first.governed_group_conflicts, 0);
    let second = d.round(&kv, NOW);
    assert_eq!(second.governed_group_conflicts, 1);
    seed_members(&mut kv, "workers", 4);
    let third = d.round(&kv, NOW);
    assert_eq!(third.governed_group_conflicts, 0);
    assert_eq!(membership_snapshot(&kv).len(), 4);
}
