use mycelium::capability::{CallerContext, CapFilter, CapValue, Capability};
use mycelium::catalog::{capvalue_to_json, report_providers};
use mycelium::consensus::ConsensusHandle;
use mycelium::gateway::QuorumStep;
use mycelium::kv::KvHandle;
use mycelium::leader::count_trust;
use mycelium::llm::LlmHandle;
use mycelium::load::{encode_load_state, LoadState};
use mycelium::mesh::MeshHandle;
use mycelium::node_id::NodeId;
use mycelium::peers::Peers;
use mycelium::resolve::resolve_cap_providers;
use mycelium::sharding::{plan_shard_emit, report_owner, shard_owner};
use mycelium::wire::{Frame, SignalScope};

const NOW: u64 = 1_000_000_000_000;

fn nid(port: u16) -> NodeId {
    NodeId::new("127.0.0.1", port).unwrap()
}

fn kv() -> KvHandle {
    KvHandle::new(nid(1), 5, 2, 64)
}

fn cap(name: &str) -> Capability {
    Capability::new("ai", name)
}

fn json(text: &str) -> serde_json::Value {
    serde_json::from_str(text).unwrap()
}

// ── Leader ───────────────────────────────────────────────────────────────────

#[test]
fn candidates_show_load_and_trust() {
    let mut c = ConsensusHandle {
        mesh: MeshHandle::new(kv()),
        peers: Peers::new(),
        signal_window_secs: 300,
        health_check_interval_secs: 30,
    };
    for port in [7u16, 8] {
        let _ = c.mesh.kv.set(&format!("grp/g/127.0.0.1:{port}"), vec![49], NOW);
    }
    let _ = c.declare_trust("g", &vec![nid(7), nid(8), nid(7)], NOW);
    let mark = |fill: f32, at: u64| {
        encode_load_state(&LoadState { fill: fill.to_le_bytes(), is_opaque: false, written_at_ms: at })
    };
    let _ = c.mesh.kv.set("sys/load/127.0.0.1:7/work", mark(0.5, NOW - 10), NOW);
    let _ = c.mesh.kv.set("sys/load/127.0.0.1:8/work", mark(0.5, NOW - 11), NOW);
    let mut found = c.leader_candidates("g", "work", 10, NOW);
    found.sort_by_key(|m| m.node.port);
    assert_eq!(found.len(), 2);
    assert_eq!((found[0].node.port, found[0].fill, found[0].trust), (7, Some(0.5f32.to_le_bytes()), 2));
    assert_eq!((found[1].node.port, found[1].fill, found[1].trust), (8, None, 1));
    assert!(c.leader_candidates("h", "work", 10, NOW).is_empty());
    assert_eq!(count_trust(&vec![], &nid(7)), 0);

    let scores: Vec<(String, u32)> = found
        .iter()
        .filter_map(|m| {
            let fill = f32::from_le_bytes(m.fill?);
            Some((m.node.to_text(), (fill / (1.0 + m.trust as f32)).to_bits()))
        })
        .collect();
    assert_eq!(c.suggest_leader("g", &scores), nid(8), "no load mark counts as no load");
    assert_eq!(c.suggest_leader("g", &vec![]), nid(1), "without any load mark this node is suggested");
    assert_eq!(c.suggest_leader("h", &scores), nid(1));
}

// ── Shards ───────────────────────────────────────────────────────────────────

#[test]
fn the_owner_of_a_key_does_not_depend_on_the_order() {
    let p = |ports: &[u16]| -> Vec<(NodeId, Capability)> { ports.iter().map(|n| (nid(*n), cap("c"))).collect() };
    let mut owners = vec![];
    for i in 0..40 {
        let key = format!("user-{i}");
        let a = shard_owner(&key, &p(&[1, 2, 3])).unwrap();
        let b = shard_owner(&key, &p(&[3, 1, 2, 1])).unwrap();
        assert_eq!(a, b);
        let rest: Vec<u16> = [1u16, 2, 3].into_iter().filter(|n| *n != a.port).collect();
        let other = shard_owner(&key, &p(&rest[..1])).unwrap();
        assert_eq!(shard_owner(&key, &p(&[a.port, other.port])), Some(a.clone()));
        owners.push(a.port);
    }
    assert!(shard_owner("k", &vec![]).is_none());
    assert!(owners.iter().any(|o| *o != owners[0]));
    assert_eq!(report_owner(&Some(nid(4))).body, r#"{"owner":"127.0.0.1:4"}"#);
    let none = report_owner(&None);
    assert_eq!((none.status, none.body.as_str()), (404, r#"{"error":"no providers"}"#));
}

#[test]
fn a_sharded_signal_goes_to_the_owner() {
    let full = r#"{"kind":"m","ns":"actor","name":"user","shard_key":"u1","payload_b64":"aGk="}"#;
    let plan = plan_shard_emit(&full.as_bytes().to_vec()).unwrap();
    assert_eq!((plan.kind.as_str(), plan.shard_key.as_str(), plan.payload.as_slice()), ("m", "u1", &b"hi"[..]));
    for (body, error) in [
        (r#"{}"#, "missing kind"),
        (r#"{"kind":"m"}"#, "missing ns"),
        (r#"{"kind":"m","ns":"a"}"#, "missing name"),
        (r#"{"kind":"m","ns":"a","name":"b"}"#, "missing shard_key"),
        (r#"{"kind":"m","ns":"a","name":"b","shard_key":"k","payload_b64":"%"}"#, "invalid base64"),
    ] {
        let e = plan_shard_emit(&body.as_bytes().to_vec()).err().unwrap();
        assert_eq!((e.status, json(&e.body)["error"].as_str()), (400, Some(error)));
    }
    let mut m = MeshHandle::new(kv());
    let r = m.emit_sharded(plan.clone(), &vec![(nid(9), cap("user"))], true, NOW);
    assert_eq!(r.body, r#"{"ok":true,"owner":"127.0.0.1:9"}"#);
    let sent: Vec<SignalScope> = m
        .kv
        .shards
        .iter()
        .flat_map(|q| q.frames.iter())
        .filter_map(|f| match f {
            Frame::Signal(s) => Some(s.scope.clone()),
            _ => None,
        })
        .collect();
    assert!(matches!(&sent[..], [SignalScope::Individual(n)] if *n == nid(9)));
    let r = m.emit_sharded(plan, &vec![], true, NOW);
    assert_eq!((r.status, r.body.as_str()), (404, r#"{"error":"no providers","ok":false}"#));
}

// ── Listings ─────────────────────────────────────────────────────────────────

#[test]
fn attribute_values_are_written_as_json() {
    let floats = vec![(1.5f64.to_bits(), "1.5".to_string())];
    let text = |v: CapValue| capvalue_to_json(&v, &floats);
    assert_eq!(text(CapValue::Text("a\"b".to_string())), r#""a\"b""#);
    assert_eq!(text(CapValue::Integer(i64::MIN)), "-9223372036854775808");
    assert_eq!(text(CapValue::Integer(0)), "0");
    assert_eq!(text(CapValue::FloatBits(1.5f64.to_bits())), "1.5");
    assert_eq!(text(CapValue::FloatBits(f64::NAN.to_bits())), "null");
    assert_eq!(text(CapValue::Bool(true)), "true");
    assert_eq!(text(CapValue::Version(1, 20, 3)), r#""1.20.3""#);
}

#[test]
fn providers_are_listed_for_the_caller() {
    let mut kv = kv();
    let mut open = cap("chat");
    open.attributes.push(("model".to_string(), CapValue::Text("m".to_string())));
    open.attributes.push(("tier".to_string(), CapValue::Integer(-2)));
    let mut closed = cap("chat");
    closed.authorized_callers.push("alice".to_string());
    let _ = kv.set("cap/127.0.0.1:5/ai/chat", open.encode(), NOW);
    let _ = kv.set("cap/127.0.0.1:6/ai/chat", closed.encode(), NOW);
    let filter = CapFilter::new("ai", "chat");
    let body = |caller: &CallerContext| {
        json(&report_providers(&resolve_cap_providers(&kv, &filter, caller), &vec![]).body)
    };
    assert_eq!(body(&CallerContext::for_caller("alice"))["providers"].as_array().unwrap().len(), 2);
    let seen = body(&CallerContext::for_caller("bob"));
    assert_eq!(
        seen.to_string(),
        r#"{"providers":[{"attributes":{"model":"m","tier":-2},"name":"chat","node_id":"127.0.0.1:5","ns":"ai"}]}"#
    );
    assert_eq!(report_providers(&vec![], &vec![]).body, r#"{"providers":[]}"#);
}

#[test]
fn attributes_are_listed_by_name() {
    let mut c = cap("chat");
    for (name, n) in [("tier", 1), ("model", 2), ("\u{e9}", 3), ("tier", 4), ("mode", 5)] {
        c.attributes.push((name.to_string(), CapValue::Integer(n)));
    }
    assert_eq!(
        report_providers(&vec![(nid(5), c)], &vec![]).body,
        "{\"providers\":[{\"attributes\":{\"mode\":5,\"model\":2,\"tier\":4,\"\u{e9}\":3},\"name\":\"chat\",\
         \"node_id\":\"127.0.0.1:5\",\"ns\":\"ai\"}]}"
    );
}

#[test]
fn prompts_are_managed_through_the_gateway() {
    let mut h = LlmHandle::new(kv());
    let template = br#"{"max_tokens":16,"temperature":0.5}"#.to_vec();
    assert_eq!(h.gw_prompt_put("ai", "chat", template, NOW).body, r#"{"ok":true}"#);
    let _ = h.kv.set("prompts/ai/broken", b"{".to_vec(), NOW);
    let _ = h.kv.set("prompts/ai/number", b"3".to_vec(), NOW);
    assert_eq!(h.gw_prompt_get("ai", "number").status, 404);
    let refused = h.gw_prompt_put("ai", "chat", b"3".to_vec(), NOW);
    assert_eq!((refused.status, refused.body.as_str()), (422, r#"{"error":"not a prompt template","ok":false}"#));
    let _ = h.kv.set("prompts/ai/", b"{}".to_vec(), NOW);
    assert_eq!(
        h.gw_prompts_list().body,
        r#"[{"max_tokens":16,"metadata":null,"name":"chat","ns":"ai","temperature":0.5}]"#
    );
    let got = h.gw_prompt_get("ai", "chat");
    assert_eq!((got.status, got.body.as_str()), (200, r#"{"max_tokens":16,"temperature":0.5}"#));
    assert_eq!(h.gw_prompt_get("ai", "broken").status, 404);
    assert_eq!(h.gw_prompt_delete("ai", "chat", NOW).body, r#"{"ok":true}"#);
    let gone = h.gw_prompt_get("ai", "chat");
    assert_eq!((gone.status, gone.body.as_str()), (404, "not found"));
    assert_eq!(h.gw_prompts_list().body, "[]");
}

#[test]
fn a_confirmed_write_waits_for_its_peers() {
    let mut kv = kv();
    assert!(matches!(kv.gw_kv_quorum("k", "%", 1, NOW), QuorumStep::Answer(r) if r.status == 400));
    assert!(kv.get("k").is_none());
    assert!(matches!(
        kv.gw_kv_quorum("k", "aGk=", 0, NOW),
        QuorumStep::Answer(r) if r.body == r#"{"acks_received":0,"ok":true}"#
    ));
    assert_eq!(kv.get("k"), Some(b"hi".to_vec()));
    match kv.gw_kv_quorum("k", "aG8=", 1, NOW) {
        QuorumStep::Wait(mut t) => {
            assert_eq!(t.reached(1), None);
            t.observe(nid(9).id_hash(), t.write_ts);
            assert_eq!(t.reached(1), Some(1));
        }
        QuorumStep::Answer(_) => panic!(),
    }
    assert_eq!(kv.get("k"), Some(b"ho".to_vec()));
}

#[test]
fn a_log_is_compacted_through_the_gateway() {
    let mut kv = kv();
    let first = kv.append("s", b"a".to_vec(), NOW);
    let second = kv.append("s", b"b".to_vec(), NOW);
    assert!(first < second);
    assert_eq!(kv.gw_log_compact("s", second, NOW).body, r#"{"ok":true}"#);
    let left = kv.scan_log("s", 0, u64::MAX);
    assert_eq!(left.len(), 1);
    assert_eq!(left[0].value, b"b".to_vec());
}
