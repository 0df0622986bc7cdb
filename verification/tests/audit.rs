use ed25519_dalek::SigningKey;
use mycelium::audit::{
    audit_key, audit_stream_prefix, verify_chain, verify_stream_from_genesis, verifying_key, AuditAction,
    AuditOutcome, AuditRecord, AuditVerifyError, SignedAuditRecord,
};
use mycelium::auth::{gateway_auth, GatewayDecision};
use mycelium::config::{GatewayToken, GossipConfig};
use mycelium::endpoints::hex32;
use mycelium::identity::PeerKeys;
use mycelium::kv::KvHandle;
use mycelium::node_id::NodeId;
use mycelium::trail::verify_stream;

const NOW: u64 = 1_000_000_000_000;

fn seed(n: u8) -> [u8; 32] {
    [n; 32]
}

fn public(n: u8) -> [u8; 32] {
    SigningKey::from_bytes(&seed(n)).verifying_key().to_bytes()
}

fn node() -> NodeId {
    NodeId::new("127.0.0.1", 7100).unwrap()
}

/// A signed chain of `n` records for `owner`.
fn build_chain(owner: &NodeId, key: &[u8; 32], n: u64) -> Vec<SignedAuditRecord> {
    let mut out = Vec::new();
    let mut prev = [0u8; 32];
    for seq in 0..n {
        let rec = AuditRecord {
            node_id: owner.clone(),
            seq,
            hlc: seq + 1,
            principal: format!("10.0.0.{seq}:9000"),
            action: AuditAction::Invoke,
            target: format!("skill/job-{seq}"),
            outcome: AuditOutcome::Success,
            detail: None,
            prev_hash: prev,
        };
        prev = rec.content_hash();
        out.push(SignedAuditRecord::sign(rec, key));
    }
    out
}

#[test]
fn genesis_chain_verifies() {
    let vk = public(11);
    let chain = build_chain(&node(), &seed(11), 4);
    assert_eq!(verify_stream_from_genesis(&chain, &node(), &vk), Ok(()));
}

#[test]
fn empty_chain_verifies() {
    let vk = public(11);
    assert_eq!(verify_stream_from_genesis(&[], &node(), &vk), Ok(()));
}

#[test]
fn editing_a_field_breaks_the_signature() {
    let vk = public(12);
    let mut chain = build_chain(&node(), &seed(12), 3);
    chain[1].record.target = "skill/EVIL".into();
    assert_eq!(
        verify_stream_from_genesis(&chain, &node(), &vk),
        Err(AuditVerifyError::BadSignature { seq: 1 })
    );
}

#[test]
fn removing_a_record_breaks_the_chain() {
    let vk = public(13);
    let mut chain = build_chain(&node(), &seed(13), 4);
    chain.remove(2);
    assert_eq!(
        verify_stream_from_genesis(&chain, &node(), &vk),
        Err(AuditVerifyError::SequenceGap { expected: 2, found: 3 })
    );
}

#[test]
fn reordering_records_is_detected() {
    let vk = public(14);
    let mut chain = build_chain(&node(), &seed(14), 3);
    chain.swap(0, 1);
    assert_eq!(
        verify_stream_from_genesis(&chain, &node(), &vk),
        Err(AuditVerifyError::SequenceGap { expected: 0, found: 1 })
    );
}

#[test]
fn wrong_key_fails_verification() {
    let other = public(99);
    let chain = build_chain(&node(), &seed(15), 2);
    assert_eq!(
        verify_stream_from_genesis(&chain, &node(), &other),
        Err(AuditVerifyError::BadSignature { seq: 0 })
    );
}

#[test]
fn mid_stream_range_verifies_with_known_boundary() {
    let vk = public(16);
    let chain = build_chain(&node(), &seed(16), 5);
    let boundary_seq = chain[2].record.seq;
    let boundary_prev = chain[2].record.prev_hash;
    assert_eq!(verify_chain(&chain[2..], &node(), &vk, boundary_seq, boundary_prev), Ok(()));
    assert_eq!(
        verify_chain(&chain[2..], &node(), &vk, boundary_seq, [7u8; 32]),
        Err(AuditVerifyError::BrokenLink { seq: 2 })
    );
}

#[test]
fn content_hash_is_stable_and_sensitive() {
    let rec = AuditRecord {
        node_id: node(),
        seq: 0,
        hlc: 1,
        principal: "p".into(),
        action: AuditAction::Read,
        target: "kv/secret".into(),
        outcome: AuditOutcome::Success,
        detail: None,
        prev_hash: [0u8; 32],
    };
    let h1 = rec.content_hash();
    assert_eq!(h1, rec.content_hash(), "stable across calls");
    let mut edited = rec.clone();
    edited.target = "kv/other".into();
    assert_ne!(h1, edited.content_hash(), "sensitive to field edits");
}

#[test]
fn encode_decode_roundtrip() {
    let chain = build_chain(&node(), &seed(17), 1);
    let bytes = chain[0].encode();
    let back = SignedAuditRecord::decode(&bytes).expect("decode");
    assert_eq!(back, chain[0]);
    assert!(SignedAuditRecord::decode(&vec![1, 2, 3]).is_none());
}

#[test]
fn audit_key_is_lexicographically_ordered() {
    let n = node();
    assert!(audit_key(&n, 1) < audit_key(&n, 2));
    assert!(audit_key(&n, 9) < audit_key(&n, 10), "zero-padded hex sorts numerically");
    assert!(audit_key(&n, 1).starts_with(&audit_stream_prefix(&n)));
}

#[test]
fn a_foreign_record_is_named() {
    let other = NodeId::new("127.0.0.1", 7101).unwrap();
    let vk = public(18);
    let chain = build_chain(&other, &seed(18), 1);
    assert!(verify_stream_from_genesis(&chain, &node(), &vk).is_err());
    assert_eq!(verify_stream_from_genesis(&chain, &other, &vk), Ok(()));
}

#[test]
fn verifying_key_is_that_of_the_signer() {
    assert_eq!(verifying_key(&seed(19)), public(19));
    assert_ne!(verifying_key(&seed(19)), seed(19));
}

fn store(kv: &mut KvHandle, chain: &[SignedAuditRecord]) {
    for sr in chain.iter().rev() {
        let _ = kv.set(&audit_key(&sr.record.node_id, sr.record.seq), sr.encode(), NOW);
    }
}

#[test]
fn a_stream_is_read_in_order_and_verified() {
    let mut kv = KvHandle::new(node(), 5, 2, 64);
    let chain = build_chain(&node(), &seed(20), 5);
    store(&mut kv, &chain);
    let _ = kv.set("sys/audit/127.0.0.1:7100/broken", vec![1], NOW);
    assert_eq!(kv.read_stream(&node()), chain);
    assert_eq!(kv.stream_nodes(), vec![node()]);
    assert_eq!(verify_stream(&chain, &node(), &vec![public(1), public(20)]), Ok(()));
    assert_eq!(
        verify_stream(&chain, &node(), &vec![public(1)]),
        Err(AuditVerifyError::BadSignature { seq: 0 })
    );
    assert_eq!(
        verify_stream(&chain[1..].to_vec(), &node(), &vec![public(20)]),
        Err(AuditVerifyError::SequenceGap { expected: 0, found: 1 })
    );
    assert_eq!(verify_stream(&vec![], &node(), &vec![]), Ok(()));
}

#[test]
fn a_stream_outlives_a_new_key() {
    let mut chain = build_chain(&node(), &seed(21), 2);
    let rec = AuditRecord {
        node_id: node(),
        seq: 2,
        hlc: 3,
        principal: "p".to_string(),
        action: AuditAction::Admin,
        target: "t".to_string(),
        outcome: AuditOutcome::Denied,
        detail: Some("d".to_string()),
        prev_hash: chain[1].record.content_hash(),
    };
    chain.push(SignedAuditRecord::sign(rec, &seed(22)));
    assert!(verify_stream_from_genesis(&chain, &node(), &public(22)).is_err());
    assert_eq!(verify_stream(&chain, &node(), &vec![public(22), public(21)]), Ok(()));
}

#[test]
fn the_trail_is_reported() {
    let mut kv = KvHandle::new(node(), 5, 2, 64);
    let chain = build_chain(&node(), &seed(23), 5);
    store(&mut kv, &chain);
    let keys = PeerKeys::new();
    let bad = kv.gw_audit(&Some("nobody".to_string()), None, &keys, None, &vec![]);
    assert_eq!((bad.status, bad.body.as_str()), (400, r#"{"error":"invalid node id"}"#));
    let r = kv.gw_audit(&None, Some(2), &keys, Some(public(23)), &vec![]);
    let body: serde_json::Value = serde_json::from_str(&r.body).unwrap();
    let s = &body["streams"][0];
    assert_eq!(s["node"], "127.0.0.1:7100");
    assert_eq!(s["count"], 5);
    assert_eq!(s["verified"], true);
    assert!(s["verify_error"].is_null());
    assert_eq!(s["head_hash"], hex32(&chain[4].record.content_hash()));
    let shown = s["records"].as_array().unwrap();
    assert_eq!(shown.len(), 2);
    assert_eq!(shown[0]["seq"], 3);
    assert_eq!(shown[1]["content_hash"], hex32(&chain[4].record.content_hash()));
    assert_eq!(
        (shown[1]["action"].as_str(), shown[1]["outcome"].as_str(), shown[1]["principal"].as_str()),
        (Some("Invoke"), Some("Success"), Some("10.0.0.4:9000"))
    );
    assert!(shown[1]["detail"].is_null() && shown[1]["hlc"] == 5 && shown[1]["target"] == "skill/job-4");
    let text = Some("127.0.0.1:7100".to_string());
    let r = kv.gw_audit(&text, None, &keys, Some(public(23)), &vec![public(23)]);
    let body: serde_json::Value = serde_json::from_str(&r.body).unwrap();
    assert_eq!(body["streams"][0]["verify_error"], "BadSignature { seq: 0 }");
    assert_eq!(body["streams"][0]["records"].as_array().unwrap().len(), 5);
    let other = Some("127.0.0.1:1".to_string());
    assert_eq!(
        kv.gw_audit(&other, None, &keys, None, &vec![]).body,
        r#"{"streams":[{"count":0,"head_hash":null,"node":"127.0.0.1:1","records":[],"verified":true,"verify_error":null}]}"#
    );
}

#[test]
fn test_gateway_audit_endpoint_verifies_and_scope_gates() {
    let mut cfg = GossipConfig::default();
    cfg.gateway_scoped_tokens = vec![
        GatewayToken { token: "auditor".into(), scopes: vec!["audit:read".into()] },
        GatewayToken { token: "noaudit".into(), scopes: vec!["kv:read".into()] },
    ];
    let path = Some("/gateway/audit".to_string());
    let decide = |token: &str| gateway_auth(&cfg, false, &Some(format!("Bearer {token}")), None, true, &path);
    assert!(
        matches!(decide("noaudit"), GatewayDecision::Forbidden { .. }),
        "kv:read token must not reach the audit trail"
    );
    assert!(
        matches!(decide("auditor"), GatewayDecision::Admit),
        "audit:read token must reach the audit trail"
    );

    let id = node();
    let mut kv = KvHandle::new(id.clone(), 5, 2, 64);
    let mut prev = [0u8; 32];
    let events = [
        (AuditAction::Invoke, "10.0.0.1:9000", "skill/a", AuditOutcome::Success),
        (AuditAction::Read, "10.0.0.2:9000", "kv/secret", AuditOutcome::Denied),
    ];
    for (seq, (action, principal, target, outcome)) in events.into_iter().enumerate() {
        let rec = AuditRecord {
            node_id: id.clone(),
            seq: seq as u64,
            hlc: seq as u64 + 1,
            principal: principal.to_string(),
            action,
            target: target.to_string(),
            outcome,
            detail: None,
            prev_hash: prev,
        };
        prev = rec.content_hash();
        store(&mut kv, &[SignedAuditRecord::sign(rec, &seed(24))]);
    }
    let r = kv.gw_audit(&None, None, &PeerKeys::new(), Some(public(24)), &vec![]);
    assert_eq!(r.status, 200);
    let body: serde_json::Value = serde_json::from_str(&r.body).unwrap();
    let streams = body["streams"].as_array().expect("streams array");
    let mine = streams.iter().find(|s| s["node"] == id.to_text()).expect("this node's stream present");
    assert_eq!(mine["verified"], true, "honest stream must verify");
    assert!(mine["count"].as_u64().unwrap() >= 2, "both sealed records counted");
    assert!(mine["head_hash"].is_string(), "chain tip hash present");
    let recs = mine["records"].as_array().unwrap();
    assert!(
        recs.iter().all(|r| r["content_hash"].is_string()),
        "every record carries a citable content_hash"
    );
}

#[test]
fn hex32_writes_two_digits_for_each_byte() {
    let mut b = [0u8; 32];
    b[0] = 0xab;
    b[31] = 0x0f;
    assert_eq!(hex32(&b), format!("ab{}0f", "00".repeat(30)));
}
