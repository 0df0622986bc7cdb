use mycelium::capability::{CallerContext, CapEntry, CapFilter, CapValue, Capability, ReqEntry};
use mycelium::config::GossipConfig;
use mycelium::consensus::ConsensusHandle;
use mycelium::emergent_groups::{EmergentGroups, GroupAction, GroupProjection};
use mycelium::endpoints::gw_demand;
use mycelium::agent::GossipAgent;
use mycelium::groupdef::CapabilityGroupDef;
use mycelium::kv::KvHandle;
use mycelium::load::{encode_load_state, rank_of_fill, LoadState};
use mycelium::mesh::MeshHandle;
use mycelium::node_id::NodeId;
use mycelium::peers::Peers;
use mycelium::projection::{need_key, projection_key, GCAP_REASSERT_MS};
use mycelium::ranking::{value_before, Ranking};
use mycelium::resolve::{demand_snapshot, resolve_cap_providers};

const NOW: u64 = 1_000_000_000_000;

fn nid(port: u16) -> NodeId {
    NodeId::new("127.0.0.1", port).unwrap()
}

fn kv() -> KvHandle {
    KvHandle::new(nid(1), 5, 2, 64)
}

fn pool() -> CapabilityGroupDef {
    CapabilityGroupDef {
        filter: CapFilter::new("compute", "gpu"),
        provides: vec![Capability::new("ai", "train"), Capability::new("ai", "infer")],
        needs: vec![CapFilter::new("storage", "disk"), CapFilter::new("ai", "train")],
    }
}

// ── Emergent groups ──────────────────────────────────────────────────────────

#[test]
fn an_advertised_capability_leads_into_its_group() {
    let mut mesh = MeshHandle::new(kv());
    let mut groups = EmergentGroups::new();
    let _ = mesh.kv.define_capability_group("pool", &pool(), NOW);
    assert!(groups.reconcile(&mut mesh, NOW).is_empty());
    let key = mesh.kv.advertise_capability(&Capability::new("compute", "gpu"), 5_000, NOW);
    let actions = groups.reconcile(&mut mesh, NOW);
    assert!(matches!(&actions[..], [GroupAction::Joined { group }] if group == "pool"));
    assert_eq!(mesh.group_members("pool"), vec![nid(1)]);
    assert!(groups.reconcile(&mut mesh, NOW).is_empty(), "nothing is left to do");
    assert_eq!(groups.leave_all(&mut mesh, NOW), vec!["pool".to_string()]);
    assert!(groups.joined.is_empty() && mesh.group_members("pool").is_empty());
    assert_eq!(groups.reconcile(&mut mesh, NOW).len(), 1);
    let _ = mesh.kv.delete(&key, NOW);
    let actions = groups.reconcile(&mut mesh, NOW);
    assert!(matches!(&actions[..], [GroupAction::Left { group }] if group == "pool"));
    assert!(mesh.group_members("pool").is_empty());
}

#[test]
fn a_locality_path_is_no_capability() {
    let mut mesh = MeshHandle::new(kv());
    let mut groups = EmergentGroups::new();
    let _ = mesh.kv.define_capability_group("pool", &pool(), NOW);
    let bytes = Capability::new("compute", "gpu").encode();
    let _ = mesh.kv.set("cap/127.0.0.1:1/locality/self", bytes.clone(), NOW);
    assert!(groups.reconcile(&mut mesh, NOW).is_empty());
    let _ = mesh.kv.set("cap/127.0.0.1:1/compute/gpu", bytes, NOW);
    assert_eq!(groups.reconcile(&mut mesh, NOW).len(), 1);
}

#[test]
fn a_group_is_projected_and_its_needs_are_marked() {
    let mut kv = kv();
    let def = pool();
    let p = GroupProjection { group: "pool".to_string(), provides: def.provides, needs: def.needs };
    assert_eq!(projection_key("pool", &p.provides[0], &nid(1)), "gcap/pool/ai/train/127.0.0.1:1");
    assert_eq!(need_key(&nid(1), "pool", 12), "sys/load/127.0.0.1:1/group-req/pool/12");
    assert_eq!(GCAP_REASSERT_MS, 60_000);
    kv.settle_needs(&p, NOW);
    assert_eq!(kv.scan_prefix("sys/load/").len(), 2);
    kv.project(&p, NOW);
    assert_eq!(kv.scan_prefix("gcap/").len(), 2);
    assert_eq!(demand_snapshot(&kv, &CapFilter::new("ai", "train"), NOW).providers, vec![nid(1)]);
    kv.settle_needs(&p, NOW);
    assert!(kv.get("sys/load/127.0.0.1:1/group-req/pool/0").is_some());
    assert!(kv.get("sys/load/127.0.0.1:1/group-req/pool/1").is_none(), "the group provides it itself");
    let keys = p.keys(&nid(1));
    kv.delete_all(&keys, NOW);
    kv.settle_needs(&p, NOW);
    assert_eq!(kv.scan_prefix("sys/load/").len(), 2);
}

// ── Advertisements ───────────────────────────────────────────────────────────

#[test]
fn an_advertisement_is_read_as_a_bare_capability_too() {
    let c = Capability::new("ai", "chat");
    let e = CapEntry { capability: c.clone(), refresh_interval_ms: 7 };
    assert_eq!(Capability::decode(&e.encode()), Some(c.clone()));
    assert_eq!(CapEntry::decode(&c.encode()), Some(CapEntry { capability: c, refresh_interval_ms: 60_000 }));
    let f = CapFilter::new("ai", "chat");
    let r = ReqEntry { filter: f.clone(), refresh_interval_ms: 7 };
    assert_eq!(CapFilter::decode(&r.encode()), Some(f.clone()));
    assert_eq!(ReqEntry::decode(&f.encode()), None);
    let mut kv = kv();
    let _ = kv.advertise_capability(&Capability::new("ai", "chat"), 7, NOW);
    let _ = kv.declare_requirement(1, &f, 7, NOW);
    assert_eq!(gw_demand(&kv, "ai", "chat"), (1, 1));
    assert_eq!(resolve_cap_providers(&kv, &f, &CallerContext::unrestricted()).len(), 1);
}

#[test]
fn a_length_beyond_the_bytes_is_no_value() {
    let mut bytes = vec![253u8];
    bytes.extend_from_slice(&u64::MAX.to_le_bytes());
    assert_eq!(Capability::decode(&bytes), None);
    assert_eq!(CapEntry::decode(&bytes), None);
    assert_eq!(CapFilter::decode(&bytes), None);
    assert_eq!(ReqEntry::decode(&bytes), None);
    assert!(CapabilityGroupDef::decode(&bytes).is_none());
}

// ── Ranking ──────────────────────────────────────────────────────────────────

fn with(value: CapValue) -> Capability {
    let mut c = Capability::new("ai", "chat");
    c.attributes.push(("speed".to_string(), value));
    c
}

#[test]
fn providers_are_ranked_by_an_attribute() {
    let mut kv = kv();
    let values = [
        (2, with(CapValue::Integer(5))),
        (3, with(CapValue::Integer(-1))),
        (4, with(CapValue::FloatBits(f64::NAN.to_bits()))),
        (5, with(CapValue::Integer(9))),
        (6, Capability::new("ai", "chat")),
    ];
    for (port, c) in &values {
        let e = CapEntry { capability: c.clone(), refresh_interval_ms: 1_000 };
        let _ = kv.set(&format!("cap/127.0.0.1:{port}/ai/chat"), e.encode(), NOW);
    }
    let ports = |descending: bool| -> Vec<u16> {
        let ranking = Ranking { attribute: "speed".to_string(), descending };
        let found =
            kv.resolve_ranked(&CapFilter::new("ai", "chat"), &CallerContext::unrestricted(), &ranking, NOW);
        found.iter().map(|p| p.0.port).collect()
    };
    let up = ports(false);
    assert_eq!(up[..3], [3, 2, 5]);
    assert!(up[3..].contains(&4) && up[3..].contains(&6), "what cannot be compared comes last");
    let down = ports(true);
    assert_eq!(down[..3], [5, 2, 3]);
    assert_eq!(down.len(), 5);
}

#[test]
fn values_are_ordered() {
    let f = |x: f64| CapValue::FloatBits(x.to_bits());
    assert!(value_before(&f(-2.0), &f(-1.0)) && value_before(&f(-1.0), &f(0.5)) && value_before(&f(0.5), &f(2.0)));
    assert!(!value_before(&f(2.0), &f(2.0)));
    assert!(value_before(&CapValue::Version(1, 2, 3), &CapValue::Version(1, 10, 0)));
    assert!(value_before(&CapValue::Bool(false), &CapValue::Bool(true)));
    assert!(value_before(&CapValue::Text("a".to_string()), &CapValue::Text("b".to_string())));
    assert!(value_before(&CapValue::Text("z".to_string()), &CapValue::Integer(0)));
}

#[test]
fn the_most_loaded_come_first() {
    let mut a = GossipAgent::new(nid(1), GossipConfig::default());
    for (port, fill) in [(5, 0.25f32), (6, 0.75), (7, 0.5)] {
        let mark = LoadState { fill: fill.to_le_bytes(), is_opaque: false, written_at_ms: NOW };
        let _ = a.mesh.kv.set(&format!("sys/load/127.0.0.1:{port}/k"), encode_load_state(&mark), NOW);
    }
    let order: Vec<String> = a.mesh.kv.peer_load(10, NOW).into_iter().map(|(n, _, _)| n).collect();
    assert_eq!(order, ["127.0.0.1:6", "127.0.0.1:7", "127.0.0.1:5"]);
    assert!(rank_of_fill(&(-1.0f32).to_le_bytes()) < rank_of_fill(&0.0f32.to_le_bytes()));
}

// ── Policies and ballots ─────────────────────────────────────────────────────

#[test]
fn an_unauthorized_provider_is_routed_around() {
    let mut kv = kv();
    let found = || vec![(nid(2), Capability::new("ai", "chat")), (nid(3), Capability::new("ai", "chat"))];
    let held = vec![(nid(2), vec!["worker".to_string()]), (nid(3), vec!["guest".to_string()])];
    assert_eq!(kv.route_around(found(), &held).1, 0, "no policy leaves it open");
    let _ = kv.set_policy("ai", "chat", vec!["admin".to_string(), "worker".to_string()], NOW);
    let (kept, dropped) = kv.route_around(found(), &held);
    assert_eq!((kept[0].0.port, kept.len(), dropped), (2, 1, 1));
    assert_eq!(kv.route_around(found(), &vec![]).1, 2, "without a proved role nobody is admitted");
    let _ = kv.set_policy("ai", "chat", vec![], NOW);
    assert_eq!(kv.route_around(found(), &vec![]).1, 0);
}

#[test]
fn the_gateway_asks_for_a_majority() {
    let mut c = ConsensusHandle {
        mesh: MeshHandle::new(kv()),
        peers: Peers::new(),
        signal_window_secs: 300,
        health_check_interval_secs: 30,
    };
    assert_eq!(c.overlay_system_quorum(0), 1);
    for port in [2u16, 3, 4] {
        c.peers.hear(&nid(port).to_text(), NOW);
        let _ = c.mesh.kv.set(&format!("grp/g/127.0.0.1:{port}"), vec![49], NOW);
    }
    assert_eq!(c.overlay_system_quorum(0), 3);
    assert_eq!(c.overlay_group_quorum("g", 0), 3);
    assert_eq!(c.overlay_group_quorum("h", 0), 1);
    assert_eq!(c.overlay_group_quorum("g", 7), 7);
}
