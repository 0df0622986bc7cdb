use mycelium::auth::{
    gateway_auth, presented_token, required_scope, resolve_token_scopes, scope_admits, GatewayDecision,
};
use mycelium::capability::{CapFilter, CapValue, Capability};
use mycelium::config::{GatewayToken, GossipConfig};
use mycelium::consensus::{ConsensusHandle, ConsensusResult};
use mycelium::endpoints::{
    default_timeout_ms, finish_cap_drop, finish_cross_group, finish_llm_call, finish_lock_acquire,
    finish_release, gw_demand, health, lock_ttl_secs, log_event, plan_cap_advertise, plan_consistent_set,
    plan_cross_group, plan_llm_call, readiness, stats, stream_done, stream_failed, write_slot,
    NodeCounters, SlotReport,
};
use mycelium::gateway::{
    clamp, finish_emit_reliable, finish_kv_quorum, finish_rpc_call, mailbox_event, observed_event,
    plan_emit_reliable, plan_mailbox_deliver, plan_rpc_call, plan_scatter, plan_signal, read_base64,
    request_event, signal_event, Gather,
};
use mycelium::kv::KvHandle;
use mycelium::kv_quorum::QuorumError;
use mycelium::log::LogEntry;
use mycelium::mesh::MeshHandle;
use mycelium::node_id::NodeId;
use mycelium::peers::Peers;
use mycelium::wire::{Frame, SignalScope};
use serde_json::Value;

const NOW: u64 = 1_000_000_000_000;
const GET: bool = true;
const POST: bool = false;
const DELETE: bool = false;

fn nid(port: u16) -> NodeId {
    NodeId::new("127.0.0.1", port).unwrap()
}

fn kv() -> KvHandle {
    KvHandle::new(nid(1), 5, 2, 64)
}

fn doc(text: &str) -> Vec<u8> {
    text.as_bytes().to_vec()
}

fn json(text: &str) -> Value {
    serde_json::from_str(text).unwrap()
}

#[test]
fn required_scope_table_maps_families_and_denies_by_default() {
    assert_eq!(required_scope(GET, "/gateway/kv"), "kv:read");
    assert_eq!(required_scope(POST, "/gateway/kv"), "kv:write");
    assert_eq!(required_scope(DELETE, "/gateway/kv"), "kv:write");
    assert_eq!(required_scope(GET, "/gateway/capability/resolve"), "cap:read");
    assert_eq!(required_scope(POST, "/gateway/signal/emit"), "mesh:write");
    assert_eq!(required_scope(POST, "/gateway/overlay/consistent/set"), "consensus:write");
    assert_eq!(required_scope(GET, "/gateway/overlay/consistent/get"), "consensus:read");
    assert_eq!(required_scope(POST, "/gateway/llm/call"), "llm:invoke");
    assert_eq!(required_scope(POST, "/gateway/some/future/route"), "admin");
}

#[test]
fn scope_admits_exact_and_wildcard_only() {
    let ro = vec!["kv:read".to_string()];
    assert!(scope_admits(&ro, "kv:read"));
    assert!(!scope_admits(&ro, "kv:write"));
    let star = vec!["*".to_string()];
    assert!(scope_admits(&star, "kv:write"));
    assert!(scope_admits(&star, "admin"));
    assert!(!scope_admits(&[], "kv:read"));
}

#[test]
fn resolve_token_scopes_legacy_is_wildcard() {
    let mut cfg = GossipConfig::default();
    cfg.gateway_auth_token = Some("legacy-tok".to_string());
    cfg.gateway_scoped_tokens =
        vec![GatewayToken { token: "ro-tok".to_string(), scopes: vec!["kv:read".to_string()] }];
    assert_eq!(resolve_token_scopes(&cfg, "legacy-tok"), Some(vec!["*".to_string()]));
    assert_eq!(resolve_token_scopes(&cfg, "ro-tok"), Some(vec!["kv:read".to_string()]));
    assert_eq!(resolve_token_scopes(&cfg, "nope"), None);
}

fn decide(cfg: &GossipConfig, header: Option<&str>, read: bool, path: &str) -> GatewayDecision {
    gateway_auth(cfg, false, &header.map(|h| h.to_string()), None, read, &Some(path.to_string()))
}

#[test]
fn test_gateway_scoped_token_acl_end_to_end() {
    let mut cfg = GossipConfig::default();
    cfg.gateway_scoped_tokens = vec![
        GatewayToken { token: "ro".into(), scopes: vec!["kv:read".into()] },
        GatewayToken { token: "super".into(), scopes: vec!["*".into()] },
    ];
    let keys = "/gateway/kv/keys";
    assert!(matches!(decide(&cfg, None, GET, keys), GatewayDecision::Unauthorized));
    assert!(matches!(decide(&cfg, Some("Bearer bogus"), GET, keys), GatewayDecision::Unauthorized));
    assert!(matches!(decide(&cfg, Some("ro"), GET, keys), GatewayDecision::Unauthorized));
    assert!(matches!(decide(&cfg, Some("Bearer ro"), GET, keys), GatewayDecision::Admit));
    assert!(matches!(
        decide(&cfg, Some("Bearer ro"), POST, "/gateway/kv"),
        GatewayDecision::Forbidden { required } if required == "kv:write"
    ));
    assert!(matches!(decide(&cfg, Some("Bearer super"), POST, "/gateway/kv"), GatewayDecision::Admit));
}

#[test]
fn an_open_gateway_asks_for_nothing() {
    let cfg = GossipConfig::default();
    assert!(matches!(decide(&cfg, None, POST, "/gateway/kv"), GatewayDecision::Admit));
    let d = gateway_auth(&cfg, true, &None, None, GET, &None);
    assert!(matches!(d, GatewayDecision::Unauthorized));
}

#[test]
fn an_identity_provider_goes_first() {
    let cfg = GossipConfig::default();
    let header = Some("Bearer jwt".to_string());
    let scopes = Some(vec!["kv:read".to_string()]);
    let path = Some("/gateway/kv/keys".to_string());
    let d = gateway_auth(&cfg, true, &header, scopes.clone(), GET, &path);
    assert!(matches!(d, GatewayDecision::Admit));
    let d = gateway_auth(&cfg, true, &header, scopes.clone(), POST, &Some("/gateway/kv".to_string()));
    assert!(matches!(d, GatewayDecision::Forbidden { .. }));
    let d = gateway_auth(&cfg, true, &header, scopes, GET, &None);
    assert!(matches!(d, GatewayDecision::Forbidden { required } if required == "admin"));
    assert_eq!(presented_token(&header), Some("jwt".to_string()));
    assert_eq!(presented_token(&Some("Basic x".to_string())), None);
}

#[test]
fn test_gateway_oidc_jwt_maps_groups_to_scopes() {
    let cfg = GossipConfig::default();
    let jwt = Some("Bearer jwt-of-a-reader".to_string());
    let scopes = Some(vec!["kv:read".to_string()]);
    let keys = Some("/gateway/kv/keys".to_string());
    let kv = Some("/gateway/kv".to_string());
    let d = gateway_auth(&cfg, true, &None, None, GET, &keys);
    assert!(matches!(d, GatewayDecision::Unauthorized), "no token must be unauthorized");
    let d = gateway_auth(&cfg, true, &jwt, scopes.clone(), GET, &keys);
    assert!(matches!(d, GatewayDecision::Admit), "readers JWT must reach kv/keys (kv:read)");
    let d = gateway_auth(&cfg, true, &jwt, scopes, POST, &kv);
    assert!(matches!(d, GatewayDecision::Forbidden { .. }), "readers JWT must be forbidden on kv:write");
}

#[test]
fn base64_fields_are_decoded() {
    assert_eq!(read_base64(&Some("aGVsbG8=".to_string())), Some(b"hello".to_vec()));
    assert_eq!(read_base64(&Some("!".to_string())), None);
    assert_eq!(read_base64(&None), Some(vec![]));
}

#[test]
fn a_value_goes_in_and_out() {
    let mut kv = kv();
    let r = kv.gw_kv_set(&doc(r#"{"key":"k","value_b64":"aGVsbG8="}"#), NOW);
    assert_eq!((r.status, r.body.as_str()), (200, r#"{"ok":true}"#));
    assert_eq!(kv.gw_kv_get("k").body, r#"{"found":true,"value_b64":"aGVsbG8="}"#);
    assert_eq!(kv.gw_kv_get("other").body, r#"{"found":false}"#);
    let r = kv.gw_kv_set(&doc(r#"{"value_b64":"aGVsbG8="}"#), NOW);
    assert_eq!((r.status, r.body.as_str()), (400, r#"{"error":"missing key"}"#));
    let r = kv.gw_kv_set(&doc(r#"{"key":"k","value_b64":"%"}"#), NOW);
    assert_eq!((r.status, r.body.as_str()), (400, r#"{"error":"invalid base64"}"#));
    assert_eq!(kv.gw_kv_keys(&None).body, r#"{"keys":["k"]}"#);
    assert_eq!(kv.gw_kv_keys(&Some("x".to_string())).body, r#"{"keys":[]}"#);
    kv.gw_kv_delete("k", NOW);
    assert_eq!(kv.gw_kv_get("k").body, r#"{"found":false}"#);
}

#[test]
fn confirmed_writes_are_answered() {
    assert_eq!(finish_kv_quorum(&Ok(2)).body, r#"{"acks_received":2,"ok":true}"#);
    assert_eq!(
        finish_kv_quorum(&Err(QuorumError::Timeout { acks_received: 0 })).body,
        r#"{"acks_received":0,"error":"timeout","ok":false}"#
    );
}

#[test]
fn a_signal_is_planned_and_emitted() {
    let p = plan_signal(&doc(r#"{"kind":"k","scope":"group:g","payload_b64":"aGk="}"#)).unwrap_or_else(|_| panic!());
    assert_eq!(p.kind, "k");
    assert!(matches!(p.scope, SignalScope::Group(g) if g == "g"));
    assert_eq!(p.payload, b"hi".to_vec());
    let p = plan_signal(&doc(r#"{"kind":"k","scope":"anything"}"#)).unwrap_or_else(|_| panic!());
    assert!(matches!(p.scope, SignalScope::System));
    let e = plan_signal(&doc(r#"{"kind":"k","scope":"node:nowhere"}"#)).err().unwrap();
    assert_eq!(e.body, r#"{"error":"invalid node id"}"#);
    assert_eq!(plan_signal(&doc("{}")).err().unwrap().body, r#"{"error":"missing kind"}"#);
    assert_eq!(
        plan_signal(&doc(r#"{"kind":"k","payload_b64":"%"}"#)).err().unwrap().body,
        r#"{"error":"invalid base64 payload"}"#
    );
    let mut m = MeshHandle::new(kv());
    let r = m.gw_signal_emit(&doc(r#"{"kind":"k"}"#), true, NOW);
    assert_eq!(r.body, r#"{"ok":true}"#);
    assert_eq!(m.last_signal("k"), Some(NOW));
}

#[test]
fn a_reply_goes_to_the_one_who_asked() {
    let mut m = MeshHandle::new(kv());
    let r = m.gw_rpc_respond(
        &doc(r#"{"nonce_hex":"00000000000000ff","sender":"127.0.0.1:7","result_b64":"aGk="}"#),
        true,
        NOW,
    );
    assert_eq!(r.body, r#"{"ok":true}"#);
    let mut found = 0;
    for s in &m.kv.shards {
        for f in &s.frames {
            if let Frame::Signal(f) = f {
                found += 1;
                assert_eq!(f.kind, "rpc.result");
                assert!(matches!(&f.scope, SignalScope::Individual(n) if *n == nid(7)));
                assert_eq!(f.payload, vec![255, 0, 0, 0, 0, 0, 0, 0, b'h', b'i']);
            }
        }
    }
    assert_eq!(found, 1);
    let bad = |m: &mut MeshHandle, t: &str| m.gw_rpc_respond(&doc(t), true, NOW).body;
    assert_eq!(bad(&mut m, "{}"), r#"{"error":"missing nonce_hex"}"#);
    assert_eq!(bad(&mut m, r#"{"nonce_hex":"zz"}"#), r#"{"error":"invalid nonce_hex"}"#);
    assert_eq!(bad(&mut m, r#"{"nonce_hex":"1","sender":"x"}"#), r#"{"error":"missing or invalid sender"}"#);
    assert_eq!(
        bad(&mut m, r#"{"nonce_hex":"1","sender":"a:1","result_b64":"%"}"#),
        r#"{"error":"invalid base64 result"}"#
    );
}

#[test]
fn events_carry_their_payload() {
    assert_eq!(
        signal_event(&nid(7), &b"hi".to_vec(), 5),
        r#"{"nonce":5,"payload_b64":"aGk=","sender":"127.0.0.1:7"}"#
    );
    assert_eq!(observed_event(&nid(7), &b"hi".to_vec()), r#"{"payload":"aGk=","sender":"127.0.0.1:7"}"#);
    assert_eq!(
        mailbox_event(&nid(7), "k", &b"hi".to_vec()),
        r#"{"kind":"k","payload_b64":"aGk=","sender":"127.0.0.1:7"}"#
    );
    assert_eq!(
        request_event(&nid(7), &vec![255, 0, 0, 0, 0, 0, 0, 0, b'h', b'i']).unwrap(),
        r#"{"nonce_hex":"00000000000000ff","payload_b64":"aGk=","sender":"127.0.0.1:7"}"#
    );
    assert_eq!(request_event(&nid(7), &vec![1, 2, 3]), None);
    let e = LogEntry { hlc: 9, value: b"hi".to_vec() };
    assert_eq!(log_event("s", &e), r#"{"hlc":9,"stream":"s","value_b64":"aGk="}"#);
}

#[test]
fn a_call_is_planned_and_answered() {
    let p = plan_rpc_call(&doc(
        r#"{"target":"127.0.0.1:7","method":"m","payload_b64":"aGk=","timeout_secs":900}"#,
    ))
    .unwrap_or_else(|_| panic!());
    assert_eq!((p.target, p.method.as_str(), p.timeout_secs), (nid(7), "m", 300));
    assert_eq!(p.payload, b"hi".to_vec());
    let err = |t: &str| plan_rpc_call(&doc(t)).err().unwrap().body;
    assert_eq!(err("{}"), r#"{"error":"missing target"}"#);
    assert_eq!(err(r#"{"target":"x"}"#), r#"{"error":"invalid target node id"}"#);
    assert_eq!(err(r#"{"target":"a:1"}"#), r#"{"error":"missing method"}"#);
    assert_eq!(
        err(r#"{"target":"a:1","method":"m","payload_b64":"%"}"#),
        r#"{"error":"invalid base64 payload"}"#
    );
    assert_eq!(finish_rpc_call(&Some(b"hi".to_vec())).body, r#"{"ok":true,"result_b64":"aGk="}"#);
    let t = finish_rpc_call(&None);
    assert_eq!((t.status, t.body.as_str()), (504, r#"{"error":"timeout","ok":false}"#));
    let p = plan_emit_reliable("127.0.0.1:7", "k", &None, None).unwrap_or_else(|_| panic!());
    assert_eq!((p.timeout_secs, p.payload.len()), (5, 0));
    assert_eq!(
        plan_emit_reliable("x", "k", &None, None).err().unwrap().body,
        r#"{"error":"invalid target node id"}"#
    );
    assert_eq!(finish_emit_reliable(true).body, r#"{"ack":"acknowledged"}"#);
    assert_eq!(finish_emit_reliable(false).body, r#"{"ack":"timeout"}"#);
    let p = plan_mailbox_deliver(&doc(r#"{"target":"127.0.0.1:7","kind":"k"}"#)).unwrap_or_else(|_| panic!());
    assert_eq!((p.target, p.kind.as_str(), p.payload.len()), (nid(7), "k", 0));
    assert_eq!(
        plan_mailbox_deliver(&doc(r#"{"kind":"k"}"#)).err().unwrap().body,
        r#"{"error":"missing or invalid target"}"#
    );
    assert_eq!(clamp(Some(0), 30, 1, 300), 1);
    assert_eq!(clamp(None, 30, 1, 300), 30);
}

#[test]
fn replies_are_gathered_until_there_are_enough() {
    let p = plan_scatter(&doc(r#"{"targets":["127.0.0.1:7",5,"x","127.0.0.1:8"],"method":"m","min_ok":2}"#))
        .unwrap_or_else(|_| panic!());
    assert_eq!(p.targets, vec![nid(7), nid(8)]);
    assert_eq!((p.min_ok, p.timeout_secs), (2, 10));
    let mut g = Gather::new(p.min_ok);
    assert!(!g.receive(nid(7), Some(b"hi".to_vec())));
    assert!(!g.receive(nid(9), None));
    let r = g.finish();
    assert_eq!(r.status, 504);
    assert_eq!(
        r.body,
        r#"{"error":"insufficient replies","ok":false,"replies":[{"result_b64":"aGk=","sender":"127.0.0.1:7"}]}"#
    );
    assert!(g.receive(nid(8), Some(vec![])));
    let r = g.finish();
    assert_eq!(r.status, 200);
    assert_eq!(json(&r.body)["replies"].as_array().unwrap().len(), 2);
    assert_eq!(
        plan_scatter(&doc(r#"{"method":"m"}"#)).err().unwrap().body,
        r#"{"error":"missing targets"}"#
    );
    assert_eq!(
        plan_scatter(&doc(r#"{"targets":[]}"#)).err().unwrap().body,
        r#"{"error":"missing method"}"#
    );
}

#[test]
fn demand_at_the_gateway_counts_entries() {
    let mut kv = kv();
    let _ = kv.set("cap/127.0.0.1:7/compute/gpu", Capability::new("compute", "gpu").encode(), NOW);
    let _ = kv.set("req/127.0.0.1:8/compute/gpu", CapFilter::new("compute", "gpu").encode(), NOW);
    let _ = kv.set("req/127.0.0.1:9/compute/gpu", CapFilter::new("compute", "gpu").encode(), NOW);
    assert_eq!(gw_demand(&kv, "compute", "gpu"), (1, 2));
    assert_eq!(gw_demand(&kv, "compute", "tpu"), (0, 0));
}

#[test]
fn an_advertisement_is_planned() {
    let attrs = vec![("model".to_string(), CapValue::Text("A100".to_string()))];
    let p = plan_cap_advertise(
        &doc(r#"{"ns":"compute","name":"gpu","interval_secs":0,"authorized_callers":["o",3]}"#),
        attrs.clone(),
    )
    .unwrap_or_else(|_| panic!());
    assert_eq!(p.interval_secs, 1);
    assert_eq!(p.capability.namespace, "compute");
    assert_eq!(p.capability.attributes, attrs);
    assert_eq!(p.capability.authorized_callers, vec!["o".to_string()]);
    assert_eq!(plan_cap_advertise(&doc("{}"), vec![]).err().unwrap().body, r#"{"error":"missing ns"}"#);
    assert_eq!(
        plan_cap_advertise(&doc(r#"{"ns":"a"}"#), vec![]).err().unwrap().body,
        r#"{"error":"missing name"}"#
    );
    assert_eq!(finish_cap_drop(true).body, r#"{"ok":true}"#);
    assert_eq!(finish_cap_drop(false).status, 404);
}

fn consensus() -> ConsensusHandle {
    ConsensusHandle {
        mesh: MeshHandle::new(kv()),
        peers: Peers::new(),
        signal_window_secs: 300,
        health_check_interval_secs: 30,
    }
}

#[test]
fn a_slot_subscription_follows_its_commits() {
    let mut c = consensus();
    let mut rx = c.consensus_rx("s");
    assert_eq!(rx.value, None);
    let _ = c.mesh.kv.set("consensus/committed/other", b"x".to_vec(), 1_000);
    assert!(!rx.settle(&c.mesh.kv));
    let _ = c.mesh.kv.set("consensus/committed/s", b"v".to_vec(), 1_000);
    assert!(rx.settle(&c.mesh.kv));
    assert_eq!(rx.value, Some(b"v".to_vec()));
    assert_eq!(c.consensus_get("s"), Some(b"v".to_vec()));
}

#[test]
fn a_consistent_write_is_planned_and_answered() {
    let mut c = consensus();
    let body = doc(r#"{"key":"k","value_b64":"aGk="}"#);
    let p = plan_consistent_set(&body).unwrap_or_else(|_| panic!());
    assert_eq!(p.slot, "consistent/k");
    let r = c.gw_consistent_set(p, ConsensusResult::Timeout { ballots_tried: 3 }, NOW);
    assert_eq!(
        (r.status, r.body.as_str()),
        (504, r#"{"error":"consensus timed out after 3 ballot(s)","ok":false}"#)
    );
    assert_eq!(c.gw_consistent_get("k").body, r#"{"found":false}"#);
    let p = plan_consistent_set(&body).unwrap_or_else(|_| panic!());
    assert_eq!(c.gw_consistent_set(p, ConsensusResult::Committed { ballot: 1 }, NOW).body, r#"{"ok":true}"#);
    assert_eq!(c.gw_consistent_get("k").body, r#"{"found":true,"value_b64":"aGk="}"#);
    assert_eq!(plan_consistent_set(&doc("{}")).err().unwrap().body, r#"{"error":"missing key"}"#);
    assert_eq!(
        plan_consistent_set(&doc(r#"{"key":"k","value_b64":"%"}"#)).err().unwrap().body,
        r#"{"error":"invalid base64 value"}"#
    );
}

#[test]
fn ballots_are_answered() {
    assert_eq!(plan_cross_group(&None, 0).err().unwrap().body, r#"{"error":"groups must not be empty"}"#);
    assert_eq!(plan_cross_group(&Some("%".to_string()), 1).err().unwrap().body, r#"{"error":"invalid base64 value"}"#);
    assert_eq!(plan_cross_group(&Some("aGk=".to_string()), 1).ok(), Some(b"hi".to_vec()));
    assert_eq!(finish_cross_group(ConsensusResult::Committed { ballot: 1 }).body, r#"{"ok":true}"#);
    let r = finish_cross_group(ConsensusResult::Superseded);
    assert_eq!((r.status, r.body.as_str()), (409, r#"{"error":"superseded","ok":false}"#));
    let r = finish_cross_group(ConsensusResult::TopologyUnsatisfied);
    assert_eq!(r.body, r#"{"error":"topology_unsatisfied","ok":false}"#);
    assert_eq!(
        finish_lock_acquire(ConsensusResult::Committed { ballot: 1 }, "g1", 4).body,
        r#"{"guard_id":"g1","ok":true,"token":4}"#
    );
    assert_eq!(
        finish_lock_acquire(ConsensusResult::Timeout { ballots_tried: 2 }, "g1", 0).body,
        r#"{"error":"timeout after 2 ballot(s)","ok":false}"#
    );
    assert_eq!(finish_release(false).body, r#"{"error":"guard_not_found","ok":false}"#);
    assert_eq!(finish_release(true).body, r#"{"ok":true}"#);
    assert_eq!((lock_ttl_secs(None), lock_ttl_secs(Some(0)), lock_ttl_secs(Some(9999))), (30, 1, 3600));
}

#[test]
fn an_election_names_its_winner() {
    let mut c = consensus();
    assert_eq!(
        c.gw_elect("g", ConsensusResult::Committed { ballot: 1 }).body,
        r#"{"leader":"127.0.0.1:1","ok":true}"#
    );
    assert_eq!(c.gw_elect("g", ConsensusResult::Superseded).status, 409);
    let _ = c.mesh.kv.set("consensus/committed/leader/g", b"127.0.0.1:7".to_vec(), NOW);
    assert_eq!(
        c.gw_elect("g", ConsensusResult::Superseded).body,
        r#"{"leader":"127.0.0.1:7","ok":true}"#
    );
    assert_eq!(c.gw_elect("g", ConsensusResult::Timeout { ballots_tried: 1 }).status, 504);
}

#[test]
fn a_log_goes_in_and_out() {
    let mut kv = kv();
    let r = kv.gw_log_append("s", &Some("aGk=".to_string()), NOW);
    let hlc = json(&r.body)["hlc"].as_u64().unwrap();
    assert_eq!(
        kv.gw_log_scan("s", None, None).body,
        format!(r#"[{{"hlc":{hlc},"value_b64":"aGk="}}]"#)
    );
    assert_eq!(kv.gw_log_scan("s", Some(hlc + 1), None).body, "[]");
    assert_eq!(kv.gw_log_append("s", &Some("%".to_string()), NOW).status, 400);
}

#[test]
fn test_llm_call_no_provider_returns_404() {
    let kv = kv();
    let e = plan_llm_call(&kv, "ai", "chat", "hello", &vec![]).err().unwrap();
    assert_eq!(e.status, 404);
    assert_eq!(json(&e.body)["error"], "no_provider");
    assert_eq!(default_timeout_ms(), 30_000);
}

#[test]
fn a_skill_call_is_planned_and_answered() {
    let mut kv = kv();
    let _ = kv.set("cap/127.0.0.1:7/ai/chat", Capability::new("ai", "chat").encode(), NOW);
    let context = vec![("b".to_string(), "2".to_string()), ("a".to_string(), "1".to_string())];
    let p = plan_llm_call(&kv, "ai", "chat", "say \"hi\"", &context).unwrap_or_else(|_| panic!());
    assert_eq!(p.target, nid(7));
    assert_eq!(
        String::from_utf8(p.request).unwrap(),
        r#"{"context":{"a":"1","b":"2"},"input":"say \"hi\"","prompt":"ai/chat"}"#
    );
    let ok = finish_llm_call(&nid(7), &Some(doc(r#"{"output":"hello"}"#)));
    assert_eq!((ok.status, ok.body.as_str()), (200, r#"{"output":"hello","provider":"127.0.0.1:7"}"#));
    let bad = finish_llm_call(&nid(7), &Some(doc("nonsense")));
    assert_eq!((bad.status, bad.body.as_str()), (502, r#"{"detail":"","error":"parse_error"}"#));
    let up = finish_llm_call(&nid(7), &Some(doc(r#"{"error":"x","detail":"y"}"#)));
    assert_eq!((up.status, up.body.as_str()), (502, r#"{"detail":"y","error":"x"}"#));
    let late = finish_llm_call(&nid(7), &None);
    assert_eq!((late.status, late.body.as_str()), (504, r#"{"detail":"","error":"timeout"}"#));
    assert_eq!(stream_done(&doc(r#"{"output":"hello"}"#)), r#"{"output":"hello","type":"done"}"#);
    assert_eq!(stream_failed(true), r#"{"error":"no_provider","type":"error"}"#);
    assert_eq!(stream_failed(false), r#"{"error":"timeout","type":"error"}"#);
}

#[test]
fn a_slot_tells_an_expired_lease_from_nothing() {
    let s = SlotReport { committed: Some(b"hi".to_vec()), present: true, ballot: 3, lease_ms: Some(9) };
    assert_eq!(
        write_slot("x", &s),
        r#"{"ballot":3,"committed":"aGk=","lease_expired":false,"lease_ms":9,"slot":"x"}"#
    );
    let s = SlotReport { committed: None, present: true, ballot: 3, lease_ms: None };
    assert_eq!(
        write_slot("x", &s),
        r#"{"ballot":3,"committed":null,"lease_expired":true,"lease_ms":null,"slot":"x"}"#
    );
}

#[test]
fn test_http_health_responds() {
    let r = health(&nid(1));
    assert_eq!(r.status, 200);
    let body = json(&r.body);
    assert_eq!(body["status"], "ok");
    assert!(body["node_id"].as_str().unwrap().contains("127.0.0.1"));
    assert_eq!(readiness(&nid(1), true, 0).status, 200);
    assert_eq!(readiness(&nid(1), true, 1).status, 503);
    let starting = readiness(&nid(1), false, 0);
    assert_eq!((starting.status, json(&starting.body)["status"].as_str()), (503, Some("starting")));
}

#[test]
fn test_http_stats_responds() {
    let c = NodeCounters {
        store_entries: 2,
        dropped_frames: 1,
        individual_flood_fallbacks: 0,
        task_count: 4,
        commit_conflicts: 0,
        sys_namespace_violations: 0,
    };
    let r = stats(&nid(1), &c);
    assert_eq!(r.status, 200);
    let body = json(&r.body);
    assert!(body["store_entries"].is_number());
    assert!(body["dropped_frames"].is_number());
    assert_eq!(body["task_count"], 4);
}
