use mycelium::bulk::{
    bulk_ticket_for, fetch_url, parse_correlation, parse_ticket, BulkError, BulkTransport, StagedReply,
};
use mycelium::capauthz::{advertiser_authorized, capauthz_key, CapAuthzPolicy};
use mycelium::consensus::{
    compute_quorum_size, ConsensusConfig, ConsensusHandle, ConsensusResult, ConsistencyError, LockGuard,
    LockService, LockStep, FIRST_BACKOFF_MS,
};
use mycelium::evidence::{check_interval_ms, read_leading_u64};
use mycelium::gc::{cutoff, gc_cutoffs, gc_interval_secs, pool_too_large};
use mycelium::gossip::{
    after_send, forward_recipients, forwarding_targets, rotation, SendResult, SendStep,
};
use mycelium::health::{
    after_ping, evict_silent, jitter_bound, sample_by, sample_known, HealthMonitor,
};
use mycelium::kv::KvHandle;
use mycelium::llm::{finish_prompt_call, LlmHandle, PromptSkillError};
use mycelium::groups::group_member_set;
use mycelium::load::{at_least_as_full, encode_load_state, LoadState};
use mycelium::mesh::MeshHandle;
use mycelium::node_id::NodeId;
use mycelium::peers::Peers;
use mycelium::wire::{shard_for_key, ForwardHint};

const NOW: u64 = 1_000_000_000_000;

fn nid(port: u16) -> NodeId {
    NodeId::new("127.0.0.1", port).unwrap()
}

fn kv() -> KvHandle {
    KvHandle::new(nid(1), 5, 2, 64)
}

fn consensus() -> ConsensusHandle {
    ConsensusHandle {
        mesh: MeshHandle::new(kv()),
        peers: Peers::new(),
        signal_window_secs: 300,
        health_check_interval_secs: 30,
    }
}

fn config() -> ConsensusConfig {
    ConsensusConfig {
        quorum_size: 0,
        count_opaque_as_absent: true,
        abstain_when_opaque: false,
        use_trust_slices: false,
        max_abstain_ballots: 3,
        ballot_retry_jitter_ms: 40,
        use_suggest_leader: true,
    }
}

// ── Bulk ─────────────────────────────────────────────────────────────────────

#[test]
fn bulk_staging_insert_remove() {
    let mut t = BulkTransport::new(8080);
    let call = t.begin_call("resize", b"data".to_vec()).unwrap_or_else(|_| panic!());
    assert_eq!(t.get(call.nonce), Some(b"data".to_vec()));
    assert_eq!(t.end_call(call.nonce, Some(b"ok".to_vec())), Ok(b"ok".to_vec()));
    assert_eq!(t.get(call.nonce), None);
}

#[test]
fn bulk_call_returns_no_http_port_on_zero() {
    let mut t = BulkTransport::new(0);
    let e = t.begin_call("resize", vec![]).err().unwrap();
    assert_eq!(e, BulkError::NoHttpPort);
    assert_eq!(e.message(), "bulk_call requires an http_port in GossipConfig");
    t.set_http_port(80);
    assert_eq!(t.http_port(), 80);
    assert!(t.begin_call("resize", vec![]).is_ok());
}

#[test]
fn a_ticket_leads_to_the_payload() {
    let mut t = BulkTransport::new(8080);
    let call = t.begin_call("resize", b"data".to_vec()).unwrap_or_else(|_| panic!());
    assert_eq!(&call.ticket[8..10], &8080u16.to_le_bytes());
    assert_eq!(&call.ticket[10..], b"resize");
    let ticket = bulk_ticket_for(&call.ticket, "resize").expect("the ticket is for this kind");
    assert_eq!(ticket.nonce, call.nonce);
    assert!(bulk_ticket_for(&call.ticket, "crop").is_none());
    let url = fetch_url("10.0.0.1", &ticket);
    assert_eq!(url, format!("http://10.0.0.1:8080/bulk/{:016x}", call.nonce));
    let id = url.rsplit('/').next().unwrap();
    assert_eq!(parse_correlation(id), Some(call.nonce));
    assert_eq!(parse_correlation("0x0xff"), Some(255));
    assert!(matches!(t.serve(id), StagedReply::Payload { bytes } if bytes == b"data".to_vec()));
    assert!(matches!(t.serve("zz"), StagedReply::BadRequest));
    let late = t.end_call(call.nonce, None).unwrap_err();
    assert_eq!(late, BulkError::Timeout);
    assert_eq!(late.message(), "bulk_call timed out — no reply from target");
    assert!(matches!(t.serve(id), StagedReply::NotFound));
    assert!(parse_ticket(&vec![0; 9]).is_none());
    assert!(parse_ticket(&vec![0, 0, 0, 0, 0, 0, 0, 0, 0, 0, 0xff]).is_none());
}

#[test]
fn tickets_and_results_travel_as_signals() {
    let mut t = BulkTransport::new(8080);
    let call = t.begin_call("resize", b"data".to_vec()).unwrap_or_else(|_| panic!());
    let mut m = MeshHandle::new(kv());
    assert!(m.send_ticket(&nid(7), &call, true, NOW));
    let ticket = parse_ticket(&call.ticket).unwrap();
    assert!(m.bulk_reply(&nid(8), &ticket, &b"ok".to_vec(), true, NOW));
    assert_eq!(read_leading_u64(&call.ticket), Some(call.nonce));
}

// ── Skills ───────────────────────────────────────────────────────────────────

#[test]
fn prompts_are_published_listed_and_deleted() {
    let mut h = LlmHandle::new(kv());
    let first = h.register_prompt_skill("ai", "chat", b"{}".to_vec(), NOW);
    assert!(first.start_dispatch);
    assert_eq!(first.skill, "ai/chat");
    assert_eq!(first.capability_key, "cap/127.0.0.1:1/ai/chat");
    assert_eq!(h.list_prompts(), vec![("ai".to_string(), "chat".to_string())]);
    assert_eq!(h.get_prompt("ai", "chat"), Some(b"{}".to_vec()));
    h.update_prompt("ai", "chat", br#"{"a":1}"#.to_vec(), NOW);
    assert_eq!(h.get_prompt("ai", "chat"), Some(br#"{"a":1}"#.to_vec()));
    h.update_prompt("ai", "chat", b"7".to_vec(), NOW);
    assert_eq!(h.get_prompt("ai", "chat"), None, "a number is no template");
    let second = h.register_prompt_skill("ai", "chat", b"{}".to_vec(), NOW);
    assert!(!second.start_dispatch);
    assert!(!h.unregister_prompt_skill("ai/chat", first.registration), "the newer one stays");
    assert!(h.unregister_prompt_skill("ai/chat", second.registration));
    h.delete_prompt("ai", "chat", NOW);
    assert!(h.list_prompts().is_empty());
    let _ = h.kv.set("prompts/ai/", vec![], NOW);
    let _ = h.kv.set("prompts/x", vec![], NOW);
    assert!(h.list_prompts().is_empty(), "keys without a name are passed over");
}

#[test]
fn a_skill_call_finds_its_provider() {
    let mut h = LlmHandle::new(kv());
    match h.plan_prompt_call("ai", "chat", "hi", &vec![], NOW) {
        Err(PromptSkillError::NoProvider { ns, name }) => assert_eq!((ns.as_str(), name.as_str()), ("ai", "chat")),
        _ => panic!("nobody provides it"),
    }
    h.register_prompt_skill("ai", "chat", b"{}".to_vec(), NOW);
    let (target, request) = h.plan_prompt_call("ai", "chat", "hi", &vec![], NOW).unwrap();
    assert_eq!(target, nid(1));
    assert_eq!(
        String::from_utf8(request).unwrap(),
        r#"{"context":{},"input":"hi","prompt":"ai/chat"}"#
    );
}

#[test]
fn a_skill_reply_is_read() {
    let read = |t: &str| finish_prompt_call(&Some(t.as_bytes().to_vec()));
    assert_eq!(read(r#"{"output":"hello"}"#), Ok("hello".to_string()));
    assert_eq!(read(r#"{"error":"bad","detail":"x"}"#), Err(PromptSkillError::LlmError("bad: x".to_string())));
    assert_eq!(read(r#"{"error":"bad"}"#), Err(PromptSkillError::LlmError("bad: ".to_string())));
    assert_eq!(read("{}"), Err(PromptSkillError::LlmError("missing output field".to_string())));
    match read("nonsense") {
        Err(PromptSkillError::LlmError(m)) => assert!(m.contains("expected"), "{m}"),
        other => panic!("{other:?}"),
    }
    assert_eq!(finish_prompt_call(&None), Err(PromptSkillError::Timeout));
}

// ── Who may provide ──────────────────────────────────────────────────────────

#[test]
fn a_policy_names_the_roles() {
    let mut kv = kv();
    assert_eq!(capauthz_key("ai", "llm"), "sys/capauthz/ai/llm");
    assert_eq!(kv.required_roles("ai", "llm"), None);
    kv.set_policy("ai", "llm", vec!["operator".to_string()], NOW);
    assert_eq!(kv.required_roles("ai", "llm"), Some(vec!["operator".to_string()]));
    kv.set_policy("ai", "llm", vec![], NOW);
    assert_eq!(kv.required_roles("ai", "llm"), None);
    let _ = kv.set("sys/capauthz/ai/llm", vec![1], NOW);
    assert_eq!(kv.required_roles("ai", "llm"), None);
    let p = CapAuthzPolicy { required_roles: vec!["a".to_string(), "b".to_string()] };
    assert_eq!(CapAuthzPolicy::decode(&p.encode()), Some(p.clone()));
    let held = |r: &str| Some(vec![r.to_string()]);
    assert!(advertiser_authorized(&p.required_roles, &held("b")));
    assert!(!advertiser_authorized(&p.required_roles, &held("c")));
    assert!(!advertiser_authorized(&p.required_roles, &None));
}

// ── Ballots and locks ────────────────────────────────────────────────────────

#[test]
fn a_majority_is_more_than_half() {
    assert_eq!([1, 2, 3, 4, 5].map(|n| compute_quorum_size(0, n)), [1, 2, 2, 3, 3]);
    assert_eq!(compute_quorum_size(4, 9), 4);
}

#[test]
fn shedding_members_do_not_count() {
    let mut c = consensus();
    for port in 10..15u16 {
        let _ = c.mesh.kv.set(&format!("grp/g/127.0.0.1:{port}"), vec![49], NOW);
    }
    let plan = c.plan_group("g", &config(), NOW);
    assert_eq!((plan.total, plan.active, plan.quorum), (5, 5, 3));
    let mark = encode_load_state(&LoadState { fill: [0; 4], is_opaque: true, written_at_ms: NOW });
    for port in 10..12u16 {
        let _ = c.mesh.kv.set(&format!("sys/load/127.0.0.1:{port}/x"), mark.clone(), NOW);
    }
    let plan = c.plan_group("g", &config(), NOW);
    assert_eq!((plan.total, plan.active, plan.quorum), (5, 3, 2));
    c.peers.hear("127.0.0.1:10", NOW);
    let plan = c.plan_system(&config(), NOW);
    assert_eq!(plan.total, 2);
    assert_eq!(c.hold_back_ms(&nid(7), &config()), 40);
    assert_eq!(c.hold_back_ms(&nid(1), &config()), 0);
    let members = group_member_set(&c.mesh.kv, "g");
    let _ = c.mesh.kv.delete("sys/load/127.0.0.1:10/x", NOW);
    assert_eq!(c.plan_members(&members, &config(), NOW).active, 4);
    assert_eq!(c.plan_nodes(9, &config(), NOW).active, 8);
}

#[test]
fn only_the_lightest_proposes_at_once() {
    let mut c = consensus();
    let bytes = |f: f32| f.to_le_bytes();
    let mark = |f: f32, at: u64| {
        encode_load_state(&LoadState { fill: bytes(f), is_opaque: false, written_at_ms: at })
    };
    assert_eq!(c.hold_back_system_ms(&bytes(0.5), &config(), NOW), 0, "nobody is lighter");
    let key = "sys/load/127.0.0.1:7/consensus.propose";
    let _ = c.mesh.kv.set("sys/load/127.0.0.1:7/other", mark(0.1, NOW), NOW);
    let _ = c.mesh.kv.set(key, mark(0.5, NOW), NOW);
    assert_eq!(c.hold_back_system_ms(&bytes(0.5), &config(), NOW), 0);
    assert_eq!(c.hold_back_system_ms(&bytes(0.6), &config(), NOW), 40);
    let mut plain = config();
    plain.use_suggest_leader = false;
    assert_eq!(c.hold_back_system_ms(&bytes(0.6), &plain, NOW), 0);
    assert_eq!(c.hold_back_system_ms(&bytes(0.6), &config(), NOW + 300_001), 0, "the mark is too old");
    let _ = c.mesh.kv.set(key, mark(-0.0, NOW), NOW);
    assert_eq!(c.hold_back_system_ms(&bytes(0.0), &config(), NOW), 0, "both zeros are alike");
    let _ = c.mesh.kv.set(key, mark(f32::NAN, NOW), NOW);
    assert_eq!(c.hold_back_system_ms(&bytes(0.0), &config(), NOW), 40, "what is no number is not at least");
}

#[test]
fn fill_ratios_compare_as_numbers() {
    let all = [f32::NAN, f32::NEG_INFINITY, -1.5, -0.0, 0.0, 0.25, 1.0, f32::INFINITY];
    for a in all {
        for b in all {
            assert_eq!(at_least_as_full(&a.to_le_bytes(), &b.to_le_bytes()), a >= b, "{a} {b}");
        }
    }
}

#[test]
fn test_consistent_set_single_node_succeeds() {
    let mut c = consensus();
    let r = c.finish_consistent_set("k", b"v".to_vec(), ConsensusResult::Committed { ballot: 1 }, NOW);
    assert_eq!(r, Ok(()));
    assert_eq!(c.consistent_get("k"), Some(b"v".to_vec()));
    let _ = c.mesh.kv.set("consensus/committed/consistent/k", b"w".to_vec(), NOW);
    assert_eq!(c.consistent_get("k"), Some(b"w".to_vec()), "the committed value goes first");
}

#[test]
fn test_consistent_set_timeout_unreachable_quorum() {
    let mut c = consensus();
    let r = c.finish_consistent_set("k", b"v".to_vec(), ConsensusResult::Timeout { ballots_tried: 2 }, NOW);
    assert_eq!(r, Err(ConsistencyError::Timeout { ballots_tried: 2 }));
    assert_eq!(c.consistent_get("k"), None);
    let r = c.finish_consistent_set("k", vec![], ConsensusResult::Superseded, NOW);
    assert_eq!(r, Err(ConsistencyError::Superseded));
    let r = c.finish_consistent_set("k", vec![], ConsensusResult::TopologyUnsatisfied, NOW);
    assert_eq!(r, Err(ConsistencyError::TopologyUnsatisfied));
}

#[test]
fn a_lock_is_proposed_held_and_released() {
    let mut c = consensus();
    assert_eq!(
        String::from_utf8(c.lock_proposal(NOW, 5)).unwrap(),
        format!(r#"{{"expires_ms":{},"holder":"127.0.0.1:1"}}"#, NOW + 5)
    );
    let g = c.finish_lock("l", ConsensusResult::Committed { ballot: 8 }, NOW).unwrap_or_else(|_| panic!());
    assert_eq!(g.name, "l");
    let _ = c.mesh.kv.set("lock/l", vec![1], NOW);
    c.release_lock(g, NOW);
    assert_eq!(c.mesh.kv.get("lock/l"), None);
    assert!(matches!(c.finish_lock("l", ConsensusResult::Superseded, NOW), Err(ConsistencyError::Superseded)));
}

#[test]
fn fencing_token_is_monotonic_across_acquisitions() {
    let mut c = consensus();
    let mut last = 0u64;
    for i in 0..4 {
        let committed = ConsensusResult::Committed { ballot: 4 - i };
        let g = c.finish_lock("mono", committed, NOW - i).unwrap_or_else(|_| panic!());
        assert!(g.token > last, "token {} not > previous {} (acquire {i})", g.token, last);
        last = g.token;
        c.release_lock(g, NOW - i);
    }
}

#[test]
fn lock_blocks_then_acquires_when_freed() {
    let mut holder = consensus();
    let held = holder.finish_lock("res", ConsensusResult::Committed { ballot: 1 }, NOW).unwrap_or_else(|_| panic!());
    let mut waiter = LockService { handle: consensus() };
    let (mut now, deadline, mut backoff) = (NOW, NOW + 20_000, FIRST_BACKOFF_MS);
    let mut naps = 0;
    let mut held = Some(held);
    let g = loop {
        let result = if held.is_some() {
            ConsensusResult::Superseded
        } else {
            ConsensusResult::Committed { ballot: 2 }
        };
        let attempt = waiter.handle.finish_lock("res", result, now);
        match waiter.after_attempt(attempt, now, deadline, backoff) {
            LockStep::Acquired { guard } => break guard,
            LockStep::Retry { nap_ms, backoff_ms } => {
                now += nap_ms;
                backoff = backoff_ms;
                naps += 1;
                if now >= NOW + 500 {
                    if let Some(g) = held.take() {
                        holder.release_lock(g, now);
                    }
                }
            }
            LockStep::Failed { .. } => panic!("B never acquired after A released"),
        }
    };
    assert_eq!((g.name.as_str(), naps, now), ("res", 2, NOW + 600));
}

#[test]
fn with_lock_releases_after_section() {
    let mut c = consensus();
    let g = c.finish_lock("w", ConsensusResult::Committed { ballot: 1 }, NOW).unwrap_or_else(|_| panic!());
    assert!(g.token > 0, "closure did not observe a fencing token");
    let _ = c.mesh.kv.set("lock/w", vec![1], NOW);
    c.release_lock(g, NOW);
    assert_eq!(c.mesh.kv.get("lock/w"), None);
    let again = c.finish_lock("w", ConsensusResult::Committed { ballot: 1 }, NOW);
    assert!(again.is_ok(), "lock not released after with_lock");
}

#[test]
fn lock_times_out_while_held() {
    let s = LockService { handle: consensus() };
    assert_eq!(s.consensus().signal_window(), 300);
    match s.after_attempt(Err(ConsistencyError::Superseded), 0, 100, 40) {
        LockStep::Retry { nap_ms, backoff_ms } => assert_eq!((nap_ms, backoff_ms), (40, 80)),
        _ => panic!("there is time to try again"),
    }
    match s.after_attempt(Err(ConsistencyError::Superseded), 90, 100, 40) {
        LockStep::Retry { nap_ms, .. } => assert_eq!(nap_ms, 10),
        _ => panic!("there is time to try again"),
    }
    assert!(matches!(
        s.after_attempt(Err(ConsistencyError::Superseded), 100, 100, 40),
        LockStep::Failed { error: ConsistencyError::Superseded }
    ));
    assert!(matches!(
        s.after_attempt(Err(ConsistencyError::TopologyUnsatisfied), 0, 100, 40),
        LockStep::Failed { .. }
    ));
    let g = LockGuard { name: "l".to_string(), token: 3 };
    assert!(matches!(s.after_attempt(Ok(g), 0, 100, 40), LockStep::Acquired { guard } if guard.token == 3));
}

#[test]
fn trust_is_declared_and_read() {
    let mut c = consensus();
    let _ = c.mesh.kv.set("grp/g/127.0.0.1:7", vec![49], NOW);
    let strangers = c.declare_trust("g", &vec![nid(7), nid(8)], NOW);
    assert_eq!(strangers, vec![nid(8)]);
    let _ = c.mesh.kv.set("grp/h/127.0.0.1:07", vec![49], NOW);
    assert_eq!(c.declare_trust("h", &vec![nid(7)], NOW), vec![nid(7)], "the membership has another text");
    let _ = c.mesh.kv.delete("consensus/trust/h/127.0.0.1:1", NOW);
    assert_eq!(c.group_trust("g"), vec![(nid(1), vec![nid(7), nid(8)])]);
    assert!(c.group_trust("h").is_empty());
    assert_eq!(c.finish_election("g", ConsensusResult::Committed { ballot: 1 }).ok(), Some(nid(1)));
    let _ = c.mesh.kv.set("consensus/committed/leader/g", b"127.0.0.1:7".to_vec(), NOW);
    assert_eq!(c.finish_election("g", ConsensusResult::Superseded).ok(), Some(nid(7)));
}

// ── Gossip, health, housekeeping ─────────────────────────────────────────────

fn texts(ports: &[u16]) -> Vec<String> {
    ports.iter().map(|p| nid(*p).to_text()).collect()
}

#[test]
fn a_frame_goes_to_everybody_but_its_sender() {
    let kv = kv();
    let targets = forwarding_targets(&texts(&[2]), &texts(&[3, 4, 5]), 3);
    assert_eq!(targets.len(), 3);
    let mut out = forward_recipients(&targets, &kv, &ForwardHint::All, nid(2).id_hash(), true);
    out.sort();
    assert_eq!(out, texts(&[3, 4]));
}

#[test]
fn a_signal_for_one_node_takes_the_direct_way() {
    let kv = kv();
    let targets = forwarding_targets(&texts(&[2, 3]), &vec![], 9);
    let out = forward_recipients(&targets, &kv, &ForwardHint::Individual(nid(3)), 0, true);
    assert_eq!(out, texts(&[3]));
}

#[test]
fn a_group_signal_reaches_the_members() {
    let mut kv = kv();
    let all: Vec<u16> = (10..30).collect();
    for p in [12, 17, 25] {
        let _ = kv.set(&format!("grp/g/127.0.0.1:{p}"), vec![49], NOW);
    }
    let targets = forwarding_targets(&texts(&all), &vec![], 0);
    let hint = ForwardHint::Group("g".to_string());
    let out = forward_recipients(&targets, &kv, &hint, 0, true);
    assert_eq!(out.len(), 6, "three members and three others");
    for p in texts(&[12, 17, 25]) {
        assert!(out.contains(&p));
    }
    assert_eq!(forward_recipients(&targets, &kv, &hint, 0, false).len(), 20);
}

#[test]
fn a_lost_writer_is_replaced_once() {
    assert_eq!(after_send(SendResult::Sent, true), SendStep::Done);
    assert_eq!(after_send(SendResult::Full, true), SendStep::CountDrop);
    assert_eq!(after_send(SendResult::Closed, true), SendStep::RespawnAndRetry);
    assert_eq!(after_send(SendResult::Closed, false), SendStep::Done);
    assert_eq!(after_ping(SendResult::Closed, true), SendStep::RespawnAndRetry);
    assert_eq!(after_ping(SendResult::Closed, false), SendStep::Done);
    assert_eq!(after_ping(SendResult::Full, true), SendStep::Done);
    assert_eq!(rotation(&texts(&[1, 2, 3]), 1), texts(&[2, 3, 1]));
    let i = shard_for_key("k", 4);
    assert!(i < 4 && shard_for_key("k", 4) == i);
}

#[test]
fn the_monitor_follows_the_peers() {
    let mut m = HealthMonitor::new(&nid(1), &texts(&[2]));
    let mut peers = Peers::new();
    assert!(m.observe(&peers).is_none());
    peers.hear(&nid(3).to_text(), NOW);
    peers.hear(&nid(1).to_text(), NOW);
    assert_eq!(m.observe(&peers).unwrap().len(), 2);
    let mut targets: Vec<String> = m.ping_targets.iter().cloned().collect();
    targets.sort();
    assert_eq!(targets, texts(&[2, 3]), "never the node itself");
    assert!(m.observe(&peers).is_none());
    assert_eq!(sample_by(texts(&[1, 2, 3]), &vec![2, 0]), texts(&[3, 2]));
    assert_eq!(sample_known(&peers, 9).len(), 2);
    assert_eq!(sample_known(&peers, 1).len(), 1);
}

#[test]
fn silent_peers_are_evicted() {
    let mut peers = Peers::new();
    peers.hear("old", NOW - 100_000);
    peers.hear("new", NOW);
    let gone = evict_silent(&mut peers, NOW, 10, 3);
    assert_eq!(gone, vec!["old".to_string()]);
    assert_eq!(peers.entries().len(), 1);
    assert!(evict_silent(&mut peers, 5, 10, 3).is_empty(), "not before a whole window has passed");
    assert_eq!((jitter_bound(0, 100), jitter_bound(30, 0), jitter_bound(0, 0)), (100, 15_000, 1));
    assert_eq!(jitter_bound(u64::MAX, 7), 7);
}

#[test]
fn tombstones_age_out() {
    assert_eq!((gc_interval_secs(3), gc_interval_secs(30)), (60, 300));
    assert_eq!(cutoff(1_000_000, 5, 10, 2), 900_000);
    assert_eq!(cutoff(10, 5, 10, 2), 0);
    let c = gc_cutoffs(NOW, 5, 10);
    assert_eq!(c.tombstones, NOW - 500_000);
    assert!(c.seen_emergency >= c.seen);
    assert!(pool_too_large(100_001, 0));
    assert!(!pool_too_large(5, 5));
    let mut kv = kv();
    let _ = kv.set("live", vec![1], NOW);
    let _ = kv.set("dead", vec![1], NOW);
    let _ = kv.delete("dead", NOW);
    assert_eq!(kv.live_count(), 1);
    assert_eq!(kv.sweep(NOW), 1);
    assert!(kv.written_at("dead").is_some());
    assert_eq!(kv.sweep(NOW + 1), 1);
    assert!(kv.written_at("dead").is_none());
    assert_eq!(kv.get("live"), Some(vec![1]));
    assert_eq!((check_interval_ms(100), check_interval_ms(4_000)), (100, 1_000));
}
