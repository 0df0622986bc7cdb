use mycelium::a2a::{
    agent_card, completed_task, list_skills, resolve_skill, write_skill_missing, write_status, write_task,
    A2aState, A2aStep, Task, TaskStatus, TASK_TTL_MS,
};
use mycelium::capability::Capability;
use mycelium::kv::KvHandle;
use mycelium::node_id::NodeId;
use serde_json::Value;

const NOW: u64 = 1_000_000_000_000;

fn kv() -> KvHandle {
    KvHandle::new(NodeId::new("127.0.0.1", 0).unwrap(), 5, 2, 64)
}

fn doc(text: &str) -> Vec<u8> {
    text.as_bytes().to_vec()
}

fn json(text: &str) -> Value {
    serde_json::from_str(text).unwrap()
}

#[test]
fn agent_card_from_empty_caps() {
    let kv = kv();
    assert!(kv.scan_prefix("cap/").is_empty(), "fresh agent has no caps");
    let card = agent_card(&kv);
    assert!(card.skills.is_empty());
    assert_eq!(card.name, "Mycelium/127.0.0.1:0");
    assert_eq!(card.url, "http://127.0.0.1:0");
}

#[test]
fn agent_card_deduplicates_skills() {
    let mut kv = kv();
    let bytes = Capability::new("compute", "gpu").encode();
    for key in ["cap/127.0.0.1:9001/compute/gpu", "cap/127.0.0.1:9002/compute/gpu"] {
        let _ = kv.set(key, bytes.clone(), NOW);
    }
    let skills = list_skills(&kv);
    assert_eq!(skills.len(), 1, "two nodes with same cap must produce one skill");
    assert_eq!(skills[0], "compute/gpu");
    assert_eq!(agent_card(&kv).skills[0].id, "compute/gpu");
}

#[test]
fn tasks_get_unknown_returns_error() {
    let state = A2aState::new();
    let result = json(&state.handle_tasks_get("null", &doc(r#"{"params":{"id":"no-such-id"}}"#)));
    assert_eq!(result["error"]["code"], -32001);
}

#[test]
fn tasks_cancel_completed_returns_error() {
    let mut state = A2aState::new();
    state.finish_send("t1", "null", &Some(b"done".to_vec()), NOW);
    let result = json(&state.handle_tasks_cancel("null", &doc(r#"{"params":{"id":"t1"}}"#)));
    assert_eq!(result["error"]["code"], -32002);
    let read = json(&state.handle_tasks_get("1", &doc(r#"{"params":{"id":"t1"}}"#)));
    assert_eq!(read["result"]["status"]["state"], "completed");
    assert_eq!(read["result"]["artifacts"][0]["parts"][0]["text"], "done");
    let unknown = json(&state.handle_tasks_cancel("null", &doc(r#"{"params":{"id":"t2"}}"#)));
    assert_eq!(unknown["error"]["code"], -32001);
}

#[test]
fn a_skill_is_resolved_by_its_id() {
    let mut kv = kv();
    let _ = kv.set("cap/127.0.0.1:9001/compute/gpu", Capability::new("compute", "gpu").encode(), NOW);
    assert_eq!(resolve_skill(&kv, "compute/gpu"), Some(NodeId::new("127.0.0.1", 9001).unwrap()));
    assert_eq!(resolve_skill(&kv, "compute"), None);
    assert_eq!(resolve_skill(&kv, "compute/tpu"), None);
}

#[test]
fn a_task_is_sent_to_its_skill() {
    let mut kv = kv();
    let mut state = A2aState::new();
    let body = doc(
        r#"{"id":1,"method":"tasks/send","params":{"id":"t","skillId":"compute/gpu","message":{"parts":[{"text":"go"}]}}}"#,
    );
    match state.handle(&mut kv, &body, NOW) {
        A2aStep::Answer { body } => {
            assert_eq!(json(&body)["error"]["code"], -32001);
            assert_eq!(json(&body)["error"]["message"], "skill not found");
        },
        _ => panic!("nobody has the skill"),
    }
    let _ = kv.set("cap/127.0.0.1:9001/compute/gpu", Capability::new("compute", "gpu").encode(), NOW);
    match state.handle(&mut kv, &body, NOW) {
        A2aStep::Ask { target, request, task_id, id } => {
            assert_eq!(target, NodeId::new("127.0.0.1", 9001).unwrap());
            assert_eq!(request, b"go".to_vec());
            assert_eq!(task_id, "t");
            let done = json(&state.finish_send(&task_id, &id, &Some(b"ok".to_vec()), NOW));
            assert_eq!(done["result"]["id"], "t");
            let failed = json(&state.finish_send("u", &id, &None, NOW));
            assert_eq!(failed["error"]["code"], -32603);
        },
        _ => panic!("the skill has a provider"),
    }
}

#[test]
fn a_stream_gets_a_fresh_id_where_none_is_given() {
    let mut kv = kv();
    let mut state = A2aState::new();
    let body = doc(r#"{"method":"tasks/sendSubscribe","params":{"skill_id":"a/b"}}"#);
    match state.handle(&mut kv, &body, NOW) {
        A2aStep::Stream { task_id, skill_id, text } => {
            assert_eq!(task_id.len(), 33);
            assert_eq!((skill_id.as_str(), text.as_str()), ("a/b", ""));
        },
        _ => panic!("expected a stream"),
    }
    assert_eq!(
        state.finish_stream("t", &Some(b"ok".to_vec()), NOW),
        r#"{"id":"t","status":{"state":"completed"},"artifacts":[{"parts":[{"type":"text","text":"ok"}]}]}"#
    );
    assert_eq!(state.finish_stream("u", &None, NOW), r#"{"id":"u","status":{"state":"failed"}}"#);
    assert_eq!(write_status("t", "working"), r#"{"id":"t","status":{"state":"working"}}"#);
    assert_eq!(json(&write_skill_missing("t"))["error"], "skill not found");
    match state.handle(&mut kv, &doc(r#"{"id":2,"method":"dance"}"#), NOW) {
        A2aStep::Answer { body } => assert_eq!(json(&body)["error"]["code"], -32601),
        _ => panic!("unknown method"),
    }
    match state.handle(&mut kv, &doc(r#"{"id":2,"method":"tasks/get","params":{"id":"t"}}"#), NOW) {
        A2aStep::Answer { body } => assert_eq!(json(&body)["result"]["id"], "t"),
        _ => panic!("a read is answered at once"),
    }
}

#[test]
fn old_tasks_are_forgotten() {
    let mut state = A2aState::new();
    state.finish_send("old", "1", &Some(vec![]), NOW);
    state.finish_send("young", "1", &Some(vec![]), NOW + 1);
    state.forget_old(NOW + TASK_TTL_MS + 1);
    let has = |s: &A2aState, t: &str| {
        json(&s.handle_tasks_get("1", &doc(&format!(r#"{{"params":{{"id":"{t}"}}}}"#)))).get("result").is_some()
    };
    assert!(!has(&state, "old"));
    assert!(has(&state, "young"));
}

#[test]
fn tasks_are_written_as_json() {
    let t = Task { id: "t1".into(), status: TaskStatus { state: "completed".into() }, artifacts: vec![] };
    assert_eq!(write_task(&t), r#"{"id":"t1","status":{"state":"completed"}}"#);
    let t = completed_task("t", &vec![b'a', 0xff]);
    assert_eq!(json(&write_task(&t))["artifacts"][0]["parts"][0]["text"], "a\u{fffd}");
}
