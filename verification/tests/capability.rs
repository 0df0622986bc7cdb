use mycelium::capability::{
    is_cap_locality_key, parse_cap_key, CallerContext, CapEntry, CapFilter, CapValue, Capability, ReqEntry,
};
use mycelium::consensus::ConsensusHandle;
use mycelium::groupdef::CapabilityGroupDef;
use mycelium::kv::KvHandle;
use mycelium::mesh::MeshHandle;
use mycelium::node_id::NodeId;
use mycelium::opacity::OpacityWatcher;
use mycelium::peers::Peers;
use mycelium::resolve::{
    demand_snapshot, first_provider, requirement_status, resolve_cap_providers, wakes_watch,
    watch_demand_round, watch_round, CapabilityEvent, RequirementStatus,
};

const NOW: u64 = 1_000_000_000_000;

fn nid(port: u16) -> NodeId {
    NodeId::new("127.0.0.1", port).expect("valid loopback NodeId")
}

fn kv() -> KvHandle {
    KvHandle::new(nid(99), 5, 4, 64)
}

fn write(kv: &mut KvHandle, key: &str, value: Vec<u8>) {
    let _ = kv.set(key, value, NOW);
}

#[test]
fn parse_cap_key_extracts_components() {
    let key = "cap/127.0.0.1:8080/compute/gpu";
    let (node_id, ns, name) = parse_cap_key("cap/", key).expect("parse");
    assert_eq!(node_id.to_text(), "127.0.0.1:8080");
    assert_eq!(ns, "compute");
    assert_eq!(name, "gpu");
}

#[test]
fn parse_cap_key_rejects_extra_segments() {
    let key = "cap/127.0.0.1:8080/compute/gpu/extra";
    assert!(parse_cap_key("cap/", key).is_none());
}

#[test]
fn parse_cap_key_rejects_bad_node_id() {
    let key = "cap/not-a-socket/compute/gpu";
    assert!(parse_cap_key("cap/", key).is_none());
}

#[test]
fn demand_snapshot_counts_unique_demand_and_providers() {
    let mut kv = kv();
    let filter = CapFilter::new("compute", "gpu");
    write(&mut kv, "req/127.0.0.1:1/compute/gpu", filter.encode());
    write(&mut kv, "req/127.0.0.1:2/compute/gpu", filter.encode());
    let cap = Capability::new("compute", "gpu");
    write(&mut kv, "cap/127.0.0.1:3/compute/gpu", cap.encode());
    write(&mut kv, "gcap/gpu-pool/compute/gpu/127.0.0.1:4", cap.encode());
    let status = demand_snapshot(&kv, &filter, NOW);
    assert_eq!(status.demanding_nodes.len(), 2);
    assert_eq!(status.providers.len(), 2);
    let (demand, supply) = status.pressure();
    assert!((demand as f32 / supply as f32 - 1.0).abs() < f32::EPSILON);
    let _ = CapValue::Integer(1);
}

#[test]
fn demand_snapshot_zero_providers_yields_pressure_equal_to_demand() {
    let mut kv = kv();
    let filter = CapFilter::new("ai", "agent");
    write(&mut kv, "req/127.0.0.1:1/ai/agent", filter.encode());
    write(&mut kv, "req/127.0.0.1:2/ai/agent", filter.encode());
    write(&mut kv, "req/127.0.0.1:3/ai/agent", filter.encode());
    let status = demand_snapshot(&kv, &filter, NOW);
    assert_eq!(status.demanding_nodes.len(), 3);
    assert_eq!(status.providers.len(), 0);
    let (demand, supply) = status.pressure();
    assert!((demand as f32 / supply as f32 - 3.0).abs() < f32::EPSILON);
}

#[test]
fn demand_snapshot_dedupes_provider_appearing_in_cap_and_gcap() {
    let mut kv = kv();
    let filter = CapFilter::new("compute", "gpu");
    let cap = Capability::new("compute", "gpu");
    write(&mut kv, "cap/127.0.0.1:7/compute/gpu", cap.encode());
    write(&mut kv, "gcap/gpu-pool/compute/gpu/127.0.0.1:7", cap.encode());
    let status = demand_snapshot(&kv, &filter, NOW);
    assert_eq!(status.providers.len(), 1, "should dedupe by NodeId");
}

#[test]
fn demand_is_told_only_when_it_changes() {
    let mut kv = kv();
    let filter = CapFilter::new("compute", "gpu");
    let mut last = demand_snapshot(&kv, &filter, NOW);
    assert!(!watch_demand_round(&kv, &filter, &mut last, NOW));
    write(&mut kv, "cap/127.0.0.1:7/compute/gpu", Capability::new("compute", "gpu").encode());
    assert!(watch_demand_round(&kv, &filter, &mut last, NOW));
    assert_eq!(last.providers, vec![nid(7)]);
    assert!(!watch_demand_round(&kv, &filter, &mut last, NOW));
}

#[test]
fn advertised_capability_is_resolved_until_it_is_stale() {
    let mut kv = kv();
    let cap = Capability::new("compute", "gpu");
    let key = kv.advertise_capability(&cap, 1_000, NOW);
    assert_eq!(key, "cap/127.0.0.1:99/compute/gpu");
    let filter = CapFilter::new("compute", "gpu");
    let found = kv.resolve(&filter, NOW);
    assert_eq!(found.len(), 1);
    assert_eq!(found[0].0, nid(99));
    assert!(kv.is_satisfied(&filter, NOW + 3_000));
    assert!(!kv.is_satisfied(&filter, NOW + 3_001));
    let mut young = CapFilter::new("compute", "gpu");
    young.max_age_ms = Some(10);
    assert!(kv.is_satisfied(&young, NOW + 10));
    assert!(!kv.is_satisfied(&young, NOW + 11));
    let _ = kv.delete(&key, NOW);
    assert!(!kv.is_satisfied(&filter, NOW));
}

#[test]
fn restricted_capability_is_seen_by_its_callers_only() {
    let mut kv = kv();
    let mut cap = Capability::new("compute", "gpu");
    cap.authorized_callers = vec!["orchestrator".to_string()];
    kv.advertise_capability(&cap, 60_000, NOW);
    let filter = CapFilter::new("compute", "gpu");
    assert_eq!(kv.resolve_for_caller(&filter, &CallerContext::for_caller("orchestrator"), NOW).len(), 1);
    assert_eq!(kv.resolve_for_caller(&filter, &CallerContext::for_caller("stranger"), NOW).len(), 0);
    assert_eq!(kv.resolve_for_caller(&filter, &CallerContext::unrestricted(), NOW).len(), 1);
}

#[test]
fn capability_and_entries_read_back() {
    let mut cap = Capability::new("ns", "name");
    cap.attributes = vec![
        ("text".to_string(), CapValue::Text("a".to_string())),
        ("int".to_string(), CapValue::Integer(-5)),
        ("float".to_string(), CapValue::FloatBits(2.5f64.to_bits())),
        ("flag".to_string(), CapValue::Bool(true)),
        ("version".to_string(), CapValue::Version(1, 2, 3)),
    ];
    cap.authorized_callers = vec!["me".to_string()];
    assert_eq!(Capability::decode(&cap.encode()), Some(cap.clone()));
    let entry = CapEntry { capability: cap, refresh_interval_ms: 77 };
    assert_eq!(CapEntry::decode(&entry.encode()), Some(entry));
    let mut filter = CapFilter::new("a", "b");
    filter.max_age_ms = Some(3);
    assert_eq!(CapFilter::decode(&filter.encode()), Some(filter.clone()));
    let req = ReqEntry { filter: filter.clone(), refresh_interval_ms: 9 };
    assert_eq!(ReqEntry::decode(&req.encode()), Some(req));
    let lenient = ReqEntry::decode_lenient(&filter.encode()).expect("a bare filter is read too");
    assert_eq!(lenient.filter, filter);
    assert!(Capability::decode(&vec![]).is_none());
}

#[test]
fn a_watch_tells_what_appears_and_disappears() {
    let mut kv = kv();
    let filter = CapFilter::new("compute", "gpu");
    let mut known = Vec::new();
    assert!(watch_round(&kv, &filter, &mut known, NOW).is_empty());
    let key = kv.advertise_capability(&Capability::new("compute", "gpu"), 60_000, NOW);
    let events = watch_round(&kv, &filter, &mut known, NOW);
    assert_eq!(events.len(), 1);
    assert!(matches!(&events[0], CapabilityEvent::Added { node_id, .. } if *node_id == nid(99)));
    assert!(watch_round(&kv, &filter, &mut known, NOW).is_empty());
    let _ = kv.delete(&key, NOW);
    let events = watch_round(&kv, &filter, &mut known, NOW);
    assert!(matches!(&events[0], CapabilityEvent::Removed { name, .. } if name == "gpu"));
    assert!(wakes_watch(&filter, &key));
    assert!(!wakes_watch(&filter, "cap/127.0.0.1:1/storage/disk"));
}

#[test]
fn locality_keys_are_no_capabilities() {
    assert!(is_cap_locality_key("cap/127.0.0.1:1/locality/self"));
    assert!(!is_cap_locality_key("cap/127.0.0.1:1/compute/gpu"));
}

#[test]
fn an_unmet_requirement_marks_the_node() {
    let mut kv = kv();
    let filter = CapFilter::new("ai", "llm");
    let (key, entry) = kv.declare_requirement(1, &filter, 60_000, NOW);
    assert_eq!(key, "req/127.0.0.1:99/ai/llm");
    assert_eq!(entry.opacity_key, "sys/load/127.0.0.1:99/req/ai/llm");
    assert!(matches!(requirement_status(&kv, &filter, NOW), RequirementStatus::Unsatisfied { .. }));
    let mut watcher = OpacityWatcher::new();
    watcher.adopt(&mut kv, &vec![entry.clone()], NOW);
    assert!(kv.get(&entry.opacity_key).is_some());
    kv.advertise_capability(&Capability::new("ai", "llm"), 60_000, NOW);
    watcher.settle(&mut kv, &vec![], NOW);
    assert!(kv.get(&entry.opacity_key).is_none());
    assert!(matches!(requirement_status(&kv, &filter, NOW), RequirementStatus::Satisfied { .. }));
}

#[test]
fn the_gateway_lists_providers_of_any_age() {
    let mut kv = kv();
    write(&mut kv, "cap/127.0.0.1:7/compute/gpu", Capability::new("compute", "gpu").encode());
    let filter = CapFilter::new("compute", "gpu");
    let found = resolve_cap_providers(&kv, &filter, &CallerContext::unrestricted());
    assert_eq!(found.len(), 1);
    assert_eq!(first_provider(&kv, "compute", "gpu"), Some(nid(7)));
    assert_eq!(first_provider(&kv, "compute", "tpu"), None);
}

#[test]
fn a_leader_meets_every_requirement() {
    let mut mesh = MeshHandle::new(kv());
    for port in [1, 2, 3] {
        let _ = mesh.kv.set(&format!("grp/workers/127.0.0.1:{port}"), vec![49], NOW);
    }
    for port in [2, 3] {
        let entry = CapEntry { capability: Capability::new("ai", "llm"), refresh_interval_ms: 60_000 };
        let _ = mesh.kv.set(&format!("cap/127.0.0.1:{port}/ai/llm"), entry.encode(), NOW);
    }
    let handle = ConsensusHandle {
        mesh,
        peers: Peers::new(),
        signal_window_secs: 300,
        health_check_interval_secs: 30,
    };
    let reqs = vec![CapFilter::new("ai", "llm")];
    let scores = vec![("127.0.0.1:2".to_string(), 9u32), ("127.0.0.1:3".to_string(), 4u32)];
    assert_eq!(handle.suggest_leader_with_requirements("workers", &reqs, &scores, NOW), Some(nid(3)));
    let none = vec![CapFilter::new("ai", "vision")];
    assert_eq!(handle.suggest_leader_with_requirements("workers", &none, &scores, NOW), None);
    assert_eq!(handle.suggest_leader("workers", &scores), nid(1));
    assert_eq!(handle.suggest_leader("nobody", &scores), nid(99));
}

#[test]
fn a_group_definition_reads_back() {
    let def = CapabilityGroupDef {
        filter: CapFilter::new("compute", "gpu"),
        provides: vec![Capability::new("pool", "gpu")],
        needs: vec![CapFilter::new("storage", "disk")],
    };
    let mut kv = kv();
    let key = kv.define_capability_group("gpu-pool", &def, NOW);
    assert_eq!(key, "cap-group/gpu-pool");
    let back = CapabilityGroupDef::decode(&kv.get(&key).unwrap()).expect("decode");
    assert_eq!(back.filter, def.filter);
    assert_eq!(back.provides, def.provides);
    assert_eq!(back.needs, def.needs);
}
