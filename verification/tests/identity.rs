use mycelium::identity::{
    encode_identity_history, known_verifying_keys, merge_peer_keys, parse_identity_keys, PeerKeys,
};
use mycelium::node_id::{NodeId, NodeIdError};

#[test]
fn parse_handles_n_keys_and_rejects_bad_lengths() {
    let a = [1u8; 32];
    assert_eq!(parse_identity_keys(&a), vec![a]);
    assert!(parse_identity_keys(&[]).is_empty());
    assert!(parse_identity_keys(&[0u8; 31]).is_empty());
    assert!(parse_identity_keys(&[0u8; 65]).is_empty());
    let mut v = Vec::new();
    v.extend_from_slice(&[1u8; 32]);
    v.extend_from_slice(&[2u8; 32]);
    v.extend_from_slice(&[3u8; 32]);
    assert_eq!(parse_identity_keys(&v), vec![[1u8; 32], [2u8; 32], [3u8; 32]]);
}

#[test]
fn encode_puts_current_first_and_dedups() {
    let (a, b, c) = ([1u8; 32], [2u8; 32], [3u8; 32]);
    let parsed = parse_identity_keys(&encode_identity_history(c, &[b, a, c]));
    assert_eq!(parsed, vec![c, b, a], "current first, priors retained, no dup");
}

#[test]
fn full_history_retained_across_multiple_rotations() {
    let (k1, k2, k3) = ([10u8; 32], [20u8; 32], [30u8; 32]);
    let h1 = encode_identity_history(k1, &[]);
    assert_eq!(parse_identity_keys(&h1), vec![k1]);
    let h2 = encode_identity_history(k2, &parse_identity_keys(&h1));
    assert_eq!(parse_identity_keys(&h2), vec![k2, k1]);
    let h3 = encode_identity_history(k3, &parse_identity_keys(&h2));
    assert_eq!(
        parse_identity_keys(&h3),
        vec![k3, k2, k1],
        "all three keys retained across two rotations"
    );
}

#[test]
fn merging_keys_never_drops_one() {
    let mut keys = PeerKeys::new();
    let node = NodeId::new("127.0.0.1", 9000).unwrap();
    for i in 0..64u8 {
        let mut k = [0u8; 32];
        k[0] = i % 40;
        merge_peer_keys(&mut keys, &node, &[k]);
    }
    assert_eq!(keys.keys_for(&node).len(), 40);
    assert!(keys.keys_for(&NodeId::new("127.0.0.1", 9001).unwrap()).is_empty());
}

#[test]
fn own_key_counts_and_revoked_keys_do_not() {
    let me = NodeId::new("127.0.0.1", 9000).unwrap();
    let other = NodeId::new("127.0.0.1", 9001).unwrap();
    let mut keys = PeerKeys::new();
    merge_peer_keys(&mut keys, &other, &[[1u8; 32], [2u8; 32]]);
    let own = Some([7u8; 32]);
    assert_eq!(known_verifying_keys(&keys, &me, &me, own, &vec![]), vec![[7u8; 32]]);
    assert_eq!(known_verifying_keys(&keys, &other, &me, own, &vec![[1u8; 32]]), vec![[2u8; 32]]);
}

#[test]
fn node_text_reads_back() {
    let n = NodeId::new("127.0.0.1", 7946).unwrap();
    assert_eq!(n.to_text(), "127.0.0.1:7946");
    assert_eq!(NodeId::parse("127.0.0.1:7946"), Ok(n));
    assert_eq!(NodeId::parse("127.0.0.1"), Err(NodeIdError::InvalidPort));
    assert_eq!(NodeId::parse("127.0.0.1:70000"), Err(NodeIdError::InvalidPort));
    assert_eq!(NodeId::parse(":80"), Err(NodeIdError::InvalidHost));
    assert_eq!(NodeId::new("a/b", 1), Err(NodeIdError::InvalidHost));
}
