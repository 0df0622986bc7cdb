//! Durable, tamper-evident audit trail.
//!
//! Each node keeps its own hash-chained stream of records under
//! `sys/audit/{node}/{seq:016x}`: every record names the content hash of its
//! predecessor and carries the signature of the node that wrote it.

use crate::identity::same_key;
use crate::node_id::{law_node_text_injective, node_text, valid_host, NodeId, NodeView};
use crate::text::{
    has_prefix, hex16, hex_fixed, join2, join3, lemma_hex_fixed_order, lemma_lt_common_prefix,
    lemma_pow16_64, text_lt,
};
use vstd::prelude::*;

verus! {

/// Prefix of the audit trail. One sub-stream per node.
pub const AUDIT_PREFIX: &'static str = "sys/audit/";

/// `sys/audit/{node}/`.
pub open spec fn stream_prefix_text(node: NodeView) -> Seq<char> {
    AUDIT_PREFIX@ + node_text(node) + "/"@
}

/// `sys/audit/{node}/{seq:016x}`.
pub open spec fn audit_key_text(node: NodeView, seq: u64) -> Seq<char> {
    stream_prefix_text(node) + hex_fixed(seq as int, 16)
}

/// The key of one record: `sys/audit/{node}/{seq:016x}`.
pub fn audit_key(node: &NodeId, seq: u64) -> (s: String)
    ensures
        s@ == audit_key_text(node@, seq),
{
    join2(audit_stream_prefix(node).as_str(), hex16(seq).as_str())
}

/// The prefix of one node's stream: `sys/audit/{node}/`.
pub fn audit_stream_prefix(node: &NodeId) -> (s: String)
    ensures
        s@ == stream_prefix_text(node@),
{
    join3(AUDIT_PREFIX, node.to_text().as_str(), "/")
}

/// The kind of event recorded.
#[derive(Clone, Copy, Debug, PartialEq, Eq, Structural)]
pub enum AuditAction {
    /// A write to a resource.
    Write,
    /// A read of a resource.
    Read,
    /// A capability or skill invocation.
    Invoke,
    /// An administrative action.
    Admin,
}

/// How the event resolved.
#[derive(Clone, Copy, Debug, PartialEq, Eq, Structural)]
pub enum AuditOutcome {
    Success,
    /// Authorization denied.
    Denied,
    Error,
}

/// One event in a node's hash-chained stream.
#[derive(Clone, Debug, PartialEq, Eq)]
pub struct AuditRecord {
    /// The recording node, owner of this stream.
    pub node_id: NodeId,
    /// Position in the stream; the first record is `0`.
    pub seq: u64,
    /// Packed timestamp at seal time.
    pub hlc: u64,
    /// Who caused the event.
    pub principal: String,
    pub action: AuditAction,
    /// The resource acted upon.
    pub target: String,
    pub outcome: AuditOutcome,
    /// Optional free-form detail.
    pub detail: Option<String>,
    /// Content hash of the predecessor; all-zero for the first record.
    pub prev_hash: [u8; 32],
}

/// The model of an [`AuditRecord`].
#[verifier::ext_equal]
pub struct RecordView {
    pub node_id: NodeView,
    pub seq: u64,
    pub hlc: u64,
    pub principal: Seq<char>,
    pub action: AuditAction,
    pub target: Seq<char>,
    pub outcome: AuditOutcome,
    pub detail: Option<Seq<char>>,
    pub prev_hash: Seq<u8>,
}

pub open spec fn text_option(t: Option<String>) -> Option<Seq<char>> {
    match t {
        Some(s) => Some(s@),
        None => None,
    }
}

impl View for AuditRecord {
    type V = RecordView;

    open spec fn view(&self) -> RecordView {
        RecordView {
            node_id: self.node_id@,
            seq: self.seq,
            hlc: self.hlc,
            principal: self.principal@,
            action: self.action,
            target: self.target@,
            outcome: self.outcome,
            detail: text_option(self.detail),
            prev_hash: self.prev_hash@,
        }
    }
}

/// The number that stands for an action in a record's bytes.
pub open spec fn action_code(a: AuditAction) -> u32 {
    match a {
        AuditAction::Write => 0,
        AuditAction::Read => 1,
        AuditAction::Invoke => 2,
        AuditAction::Admin => 3,
    }
}

/// The number that stands for an outcome in a record's bytes.
pub open spec fn outcome_code(o: AuditOutcome) -> u32 {
    match o {
        AuditOutcome::Success => 0,
        AuditOutcome::Denied => 1,
        AuditOutcome::Error => 2,
    }
}

fn code_of_action(a: AuditAction) -> (c: u32)
    ensures
        c == action_code(a),
{
    match a {
        AuditAction::Write => 0,
        AuditAction::Read => 1,
        AuditAction::Invoke => 2,
        AuditAction::Admin => 3,
    }
}

fn code_of_outcome(o: AuditOutcome) -> (c: u32)
    ensures
        c == outcome_code(o),
{
    match o {
        AuditOutcome::Success => 0,
        AuditOutcome::Denied => 1,
        AuditOutcome::Error => 2,
    }
}

fn action_of_code(c: u32) -> (a: Option<AuditAction>)
    ensures
        a matches Some(x) ==> action_code(x) == c,
        a is None ==> forall|x: AuditAction| #[trigger] action_code(x) != c,
{
    match c {
        0 => Some(AuditAction::Write),
        1 => Some(AuditAction::Read),
        2 => Some(AuditAction::Invoke),
        3 => Some(AuditAction::Admin),
        _ => None,
    }
}

fn outcome_of_code(c: u32) -> (o: Option<AuditOutcome>)
    ensures
        o matches Some(x) ==> outcome_code(x) == c,
        o is None ==> forall|x: AuditOutcome| #[trigger] outcome_code(x) != c,
{
    match c {
        0 => Some(AuditOutcome::Success),
        1 => Some(AuditOutcome::Denied),
        2 => Some(AuditOutcome::Error),
        _ => None,
    }
}

// ── Outside calls ────────────────────────────────────────────────────────────

/// The bytes that `bincode` writes for a node, a sequence number, a
/// timestamp, a principal, an action, a target, an outcome, a detail and a
/// hash in a row.
pub uninterp spec fn record_bytes(
    node: Seq<char>,
    seq: u64,
    hlc: u64,
    principal: Seq<char>,
    action: u32,
    target: Seq<char>,
    outcome: u32,
    detail: Option<Seq<char>>,
    prev_hash: Seq<u8>,
) -> Seq<u8>;

/// `bincode::serde::encode_to_vec` of the parts of a record: the result is a
/// function of the parts, and no other parts with a hash of this length give the
/// same bytes, since `bincode` reads the parts back from them.
#[verifier::external_body]
fn encode_parts(
    ids: (&str, u64, u64),
    event: (&str, u32, &str, u32, Option<&str>),
    prev_hash: &[u8; 32],
) -> (r: Vec<u8>)
    ensures
        r@ == record_bytes(
            ids.0@,
            ids.1,
            ids.2,
            event.0@,
            event.1,
            event.2@,
            event.3,
            str_option(event.4),
            prev_hash@,
        ),
        forall|
            node: Seq<char>,
            seq: u64,
            hlc: u64,
            principal: Seq<char>,
            action: u32,
            target: Seq<char>,
            outcome: u32,
            detail: Option<Seq<char>>,
            prev: Seq<u8>,
        |
            prev.len() == 32 && #[trigger] record_bytes(
                node,
                seq,
                hlc,
                principal,
                action,
                target,
                outcome,
                detail,
                prev,
            ) == r@ ==> node == ids.0@ && seq == ids.1 && hlc == ids.2 && principal == event.0@ && action
                == event.1 && target == event.2@ && outcome == event.3 && detail == str_option(event.4) && prev
                == prev_hash@,
{
    bincode::serde::encode_to_vec((ids, event, prev_hash), bincode::config::standard())
        .unwrap_or_default()
}

/// The SHA-256 digest of `data`.
pub uninterp spec fn sha256(data: Seq<u8>) -> Seq<u8>;

/// `sha2::Digest::digest` of `sha2::Sha256`: the result is a function of the
/// data.
#[verifier::external_body]
pub(crate) fn sha256_of(data: &Vec<u8>) -> (r: [u8; 32])
    ensures
        r@ == sha256(data@),
{
    <sha2::Sha256 as sha2::Digest>::digest(data).into()
}

/// The Ed25519 verifying key of a 32-byte signing key.
pub uninterp spec fn ed25519_public(seed: Seq<u8>) -> Seq<u8>;

/// The Ed25519 signature of `msg` under a 32-byte signing key.
pub uninterp spec fn ed25519_signature(seed: Seq<u8>, msg: Seq<u8>) -> Seq<u8>;

/// Whether `sig` is a valid Ed25519 signature of `msg` under a verifying key.
pub uninterp spec fn ed25519_accepts(public: Seq<u8>, msg: Seq<u8>, sig: Seq<u8>) -> bool;

/// `ed25519_dalek::SigningKey::verifying_key`: the verifying key is a
/// function of the signing key.
#[verifier::external_body]
fn public_of(seed: &[u8; 32]) -> (r: [u8; 32])
    ensures
        r@ == ed25519_public(seed@),
{
    ed25519_dalek::SigningKey::from_bytes(seed).verifying_key().to_bytes()
}

/// The key by which what `seed` signs is verified.
pub fn verifying_key(seed: &[u8; 32]) -> (r: [u8; 32])
    ensures
        r@ == ed25519_public(seed@),
{
    public_of(seed)
}

/// `ed25519_dalek::Signer::sign`: 64 bytes that are a function of the key and
/// the message, and that the verifying key of the same key accepts for this
/// message.
#[verifier::external_body]
fn sign_bytes(seed: &[u8; 32], msg: &Vec<u8>) -> (r: Vec<u8>)
    ensures
        r@ == ed25519_signature(seed@, msg@),
        r@.len() == 64,
        ed25519_accepts(ed25519_public(seed@), msg@, r@),
{
    let key = ed25519_dalek::SigningKey::from_bytes(seed);
    ed25519_dalek::Signer::sign(&key, msg).to_bytes().to_vec()
}

/// `ed25519_dalek::Verifier::verify`: whether the key accepts the signature
/// for the message; a key or a signature that is none is not accepted.
#[verifier::external_body]
fn verify_bytes(public: &[u8; 32], msg: &Vec<u8>, sig: &Vec<u8>) -> (r: bool)
    ensures
        r == ed25519_accepts(public@, msg@, sig@),
{
    match (ed25519_dalek::VerifyingKey::from_bytes(public), ed25519_dalek::Signature::from_slice(sig)) {
        (Ok(k), Ok(s)) => ed25519_dalek::Verifier::verify(&k, msg, &s).is_ok(),
        _ => false,
    }
}

/// A signed record as plain values.
pub type SignedParts = (
    (Seq<char>, u64, u64),
    (Seq<char>, u32, Seq<char>, u32, Option<Seq<char>>),
    Seq<u8>,
    Seq<u8>,
);

/// The bytes that `bincode` writes for the parts of a signed record.
pub uninterp spec fn signed_bytes(
    ids: (Seq<char>, u64, u64),
    event: (Seq<char>, u32, Seq<char>, u32, Option<Seq<char>>),
    prev_hash: Seq<u8>,
    sig: Seq<u8>,
) -> Seq<u8>;

/// The parts of a signed record that `bincode` reads from `bytes`, `None`
/// where it finds none.
pub uninterp spec fn signed_parts(bytes: Seq<u8>) -> Option<(
    (Seq<char>, u64, u64),
    (Seq<char>, u32, Seq<char>, u32, Option<Seq<char>>),
    Seq<u8>,
    Seq<u8>,
)>;

/// `bincode::serde::encode_to_vec` of the parts of a signed record: the
/// result is a function of the parts, and reading it gives the parts back.
#[verifier::external_body]
fn encode_signed(
    ids: (&str, u64, u64),
    event: (&str, u32, &str, u32, Option<&str>),
    prev_hash: &[u8; 32],
    sig: &Vec<u8>,
) -> (r: Vec<u8>)
    ensures
        r@ == signed_bytes(
            (ids.0@, ids.1, ids.2),
            (event.0@, event.1, event.2@, event.3, str_option(event.4)),
            prev_hash@,
            sig@,
        ),
        signed_parts(r@) == Some(
            (
                (ids.0@, ids.1, ids.2),
                (event.0@, event.1, event.2@, event.3, str_option(event.4)),
                prev_hash@,
                sig@,
            ),
        ),
{
    let parts = (ids, event, prev_hash, sig);
    bincode::serde::encode_to_vec(parts, bincode::config::standard()).unwrap_or_default()
}

/// A signed record as `bincode` hands it out.
pub type RawSigned = (
    (String, u64, u64),
    (String, u32, String, u32, Option<String>),
    [u8; 32],
    Vec<u8>,
);

/// A [`RawSigned`] whose texts lie in the bytes that it was read from.
pub type BorrowedSigned<'a> = (
    (&'a str, u64, u64),
    (&'a str, u32, &'a str, u32, Option<&'a str>),
    [u8; 32],
    Vec<u8>,
);

/// The model of a [`RawSigned`].
pub open spec fn raw_view(r: RawSigned) -> SignedParts {
    (
        (r.0.0@, r.0.1, r.0.2),
        (r.1.0@, r.1.1, r.1.2@, r.1.3, text_option(r.1.4)),
        r.2@,
        r.3@,
    )
}

/// `bincode::serde::decode_from_slice` of the parts of a signed record: the
/// result is a function of the bytes. Before it,
/// `bincode::serde::borrow_decode_from_slice` reads the same with borrowed
/// texts: it fails where a length goes beyond the bytes, for which an owned
/// text would be allocated first.
#[verifier::external_body]
fn decode_signed(bytes: &Vec<u8>) -> (r: Option<RawSigned>)
    ensures
        r is Some <==> signed_parts(bytes@) is Some,
        r matches Some(p) ==> signed_parts(bytes@) == Some(raw_view(p)),
{
    let cfg = bincode::config::standard();
    bincode::serde::borrow_decode_from_slice::<BorrowedSigned, _>(bytes, cfg).ok()?;
    bincode::serde::decode_from_slice(bytes, cfg).ok().map(|(v, _)| v)
}

pub open spec fn str_option(t: Option<&str>) -> Option<Seq<char>> {
    match t {
        Some(s) => Some(s@),
        None => None,
    }
}

// ── Records ──────────────────────────────────────────────────────────────────

/// The bytes that the content hash and the signature of a record cover: all
/// of it.
pub open spec fn canonical_of(r: RecordView) -> Seq<u8> {
    record_bytes(
        node_text(r.node_id),
        r.seq,
        r.hlc,
        r.principal,
        action_code(r.action),
        r.target,
        outcome_code(r.outcome),
        r.detail,
        r.prev_hash,
    )
}

/// The content hash of a record.
pub open spec fn hash_of(r: RecordView) -> Seq<u8> {
    sha256(canonical_of(r))
}

/// Whether the node has a host and the hash its length.
pub open spec fn well_formed(r: RecordView) -> bool {
    valid_host(r.node_id.host) && r.prev_hash.len() == 32
}

/// No other record has the bytes of `r`.
pub open spec fn told_apart(r: RecordView) -> bool {
    forall|o: RecordView| well_formed(o) && #[trigger] canonical_of(o) == canonical_of(r) ==> o == r
}

impl AuditRecord {
    fn canonical(&self) -> (b: Vec<u8>)
        ensures
            b@ == canonical_of(self@),
            well_formed(self@) ==> told_apart(self@),
    {
        let node = self.node_id.to_text();
        let detail = match &self.detail {
            Some(d) => Some(d.as_str()),
            None => None,
        };
        let b = encode_parts(
            (node.as_str(), self.seq, self.hlc),
            (
                self.principal.as_str(),
                code_of_action(self.action),
                self.target.as_str(),
                code_of_outcome(self.outcome),
                detail,
            ),
            &self.prev_hash,
        );
        proof {
            if well_formed(self@) {
                assert forall|o: RecordView| well_formed(o) && #[trigger] canonical_of(o) == canonical_of(self@)
                    implies o == self@ by {
                    law_node_text_injective(o.node_id, self.node_id@);
                    assert(o =~= self@);
                }
            }
        }
        b
    }

    /// Stable content hash of this record, by which it can be cited.
    pub fn content_hash(&self) -> (h: [u8; 32])
        ensures
            h@ == hash_of(self@),
            well_formed(self@) ==> told_apart(self@),
    {
        sha256_of(&self.canonical())
    }
}

/// A record and the signature of the node that wrote it.
#[derive(Clone, Debug, PartialEq, Eq)]
pub struct SignedAuditRecord {
    pub record: AuditRecord,
    pub sig: Vec<u8>,
}

/// The model of a [`SignedAuditRecord`].
#[verifier::ext_equal]
pub struct SignedView {
    pub record: RecordView,
    pub sig: Seq<u8>,
}

impl View for SignedAuditRecord {
    type V = SignedView;

    open spec fn view(&self) -> SignedView {
        SignedView { record: self.record@, sig: self.sig@ }
    }
}

/// Whether a verifying key accepts the signature of a record.
pub open spec fn genuine(r: SignedView, verifying_key: Seq<u8>) -> bool {
    ed25519_accepts(verifying_key, canonical_of(r.record), r.sig)
}

/// The parts in which a signed record is written.
pub open spec fn parts_of(r: SignedView) -> SignedParts {
    (
        (node_text(r.record.node_id), r.record.seq, r.record.hlc),
        (
            r.record.principal,
            action_code(r.record.action),
            r.record.target,
            outcome_code(r.record.outcome),
            r.record.detail,
        ),
        r.record.prev_hash,
        r.sig,
    )
}

impl SignedAuditRecord {
    /// Seals `record` with the node's signing key.
    pub fn sign(record: AuditRecord, signing_key: &[u8; 32]) -> (s: SignedAuditRecord)
        ensures
            s.record == record,
            s.sig@ == ed25519_signature(signing_key@, canonical_of(record@)),
            genuine(s@, ed25519_public(signing_key@)),
            well_formed(record@) ==> told_apart(record@),
    {
        let sig = sign_bytes(signing_key, &record.canonical());
        SignedAuditRecord { record, sig }
    }

    /// Whether the signature is that of the owner of `verifying_key`.
    pub fn verify(&self, verifying_key: &[u8; 32]) -> (r: bool)
        ensures
            r == genuine(self@, verifying_key@),
            well_formed(self.record@) ==> told_apart(self.record@),
    {
        verify_bytes(verifying_key, &self.record.canonical(), &self.sig)
    }

    /// The bytes under which the record is stored; reading them gives the
    /// record back.
    pub fn encode(&self) -> (b: Vec<u8>)
        ensures
            signed_parts(b@) == Some(parts_of(self@)),
            b@ == signed_bytes(
                parts_of(self@).0,
                parts_of(self@).1,
                parts_of(self@).2,
                parts_of(self@).3,
            ),
    {
        let node = self.record.node_id.to_text();
        let detail = match &self.record.detail {
            Some(d) => Some(d.as_str()),
            None => None,
        };
        encode_signed(
            (node.as_str(), self.record.seq, self.record.hlc),
            (
                self.record.principal.as_str(),
                code_of_action(self.record.action),
                self.record.target.as_str(),
                code_of_outcome(self.record.outcome),
                detail,
            ),
            &self.record.prev_hash,
            &self.sig,
        )
    }

    /// Reads a stored record, `None` if the bytes hold none.
    pub fn decode(bytes: &Vec<u8>) -> (r: Option<SignedAuditRecord>)
        ensures
            r matches Some(s) ==> s.record.node_id.wf() && signed_parts(bytes@) == Some(parts_of(s@)),
            r is None ==> forall|s: SignedView|
                crate::node_id::valid_host(s.record.node_id.host) ==> signed_parts(bytes@) != Some(
                    #[trigger] parts_of(s),
                ),
    {
        match decode_signed(bytes) {
            None => None,
            Some(raw) => { from_raw(raw) },
        }
    }
}

fn from_raw(raw: RawSigned) -> (r: Option<SignedAuditRecord>)
    ensures
        r matches Some(s) ==> s.record.node_id.wf() && raw_view(raw) == parts_of(s@),
        r is None ==> forall|s: SignedView|
            crate::node_id::valid_host(s.record.node_id.host) ==> raw_view(raw) != #[trigger] parts_of(
                s,
            ),
{
    let (ids, event, prev_hash, sig) = raw;
    let (node, seq, hlc) = ids;
    let (principal, action, target, outcome, detail) = event;
    let node_id = match NodeId::parse(node.as_str()) {
        Ok(n) => n,
        Err(_) => {
            assert forall|s: SignedView| crate::node_id::valid_host(s.record.node_id.host) implies raw_view(
                raw,
            ) != #[trigger] parts_of(s) by {
                crate::node_id::law_node_text_round_trip(s.record.node_id);
            }
            return None;
        },
    };
    if !crate::text::same_text(node_id.to_text().as_str(), node.as_str()) {
        assert forall|s: SignedView| crate::node_id::valid_host(s.record.node_id.host) implies raw_view(
            raw,
        ) != #[trigger] parts_of(s) by {
            crate::node_id::law_node_text_round_trip(s.record.node_id);
            if raw_view(raw) == parts_of(s) {
                crate::node_id::law_denotes_unique(node@, s.record.node_id, node_id@);
            }
        }
        return None;
    }
    match (action_of_code(action), outcome_of_code(outcome)) {
        (Some(action), Some(outcome)) => {
            let record = AuditRecord {
                node_id,
                seq,
                hlc,
                principal,
                action,
                target,
                outcome,
                detail,
                prev_hash,
            };
            Some(SignedAuditRecord { record, sig })
        },
        _ => None,
    }
}

// ── Verification ─────────────────────────────────────────────────────────────

/// Why a chain failed to verify. Each variant names the offending record.
#[derive(Clone, Copy, Debug, PartialEq, Eq, Structural)]
pub enum AuditVerifyError {
    /// The signature did not verify against the stream owner's key.
    BadSignature { seq: u64 },
    /// The previous hash is not the content hash of the predecessor.
    BrokenLink { seq: u64 },
    /// The sequence numbers are not contiguous.
    SequenceGap { expected: u64, found: u64 },
    /// The record claims another owner than the stream it appears in.
    WrongOwner { seq: u64 },
}

/// What is wrong with one record that should stand at `expected` behind a
/// record with the hash `prev`, if anything.
pub open spec fn record_fault(
    r: SignedView,
    owner: NodeView,
    verifying_key: Seq<u8>,
    expected: int,
    prev: Seq<u8>,
) -> Option<AuditVerifyError> {
    if r.record.node_id != owner {
        Some(AuditVerifyError::WrongOwner { seq: r.record.seq })
    } else if r.record.seq != expected {
        Some(AuditVerifyError::SequenceGap { expected: expected as u64, found: r.record.seq })
    } else if r.record.prev_hash != prev {
        Some(AuditVerifyError::BrokenLink { seq: r.record.seq })
    } else if !genuine(r, verifying_key) {
        Some(AuditVerifyError::BadSignature { seq: r.record.seq })
    } else {
        None
    }
}

/// The verdict on a chain: that of its first faulty record.
pub open spec fn chain_fault(
    records: Seq<SignedView>,
    owner: NodeView,
    verifying_key: Seq<u8>,
    first_seq: int,
    first_prev: Seq<u8>,
) -> Option<AuditVerifyError>
    decreases records.len(),
{
    if records.len() == 0 {
        None
    } else {
        match record_fault(records[0], owner, verifying_key, first_seq, first_prev) {
            Some(e) => Some(e),
            None => chain_fault(
                records.drop_first(),
                owner,
                verifying_key,
                first_seq + 1,
                hash_of(records[0].record),
            ),
        }
    }
}

pub open spec fn signed_views(v: Seq<SignedAuditRecord>) -> Seq<SignedView> {
    v.map_values(|s: SignedAuditRecord| s@)
}

/// Verifies a contiguous part of one node's stream: every record is owned by
/// `owner`, stands at its place, names the hash of its predecessor and is
/// signed by `verifying_key`. The first fault found is returned.
pub fn verify_chain(
    records: &[SignedAuditRecord],
    owner: &NodeId,
    verifying_key: &[u8; 32],
    expected_first_seq: u64,
    expected_first_prev: [u8; 32],
) -> (r: Result<(), AuditVerifyError>)
    requires
        expected_first_seq + records@.len() <= u64::MAX + 1,
    ensures
        r is Ok <==> chain_fault(
            signed_views(records@),
            owner@,
            verifying_key@,
            expected_first_seq as int,
            expected_first_prev@,
        ) is None,
        r matches Err(e) ==> chain_fault(
            signed_views(records@),
            owner@,
            verifying_key@,
            expected_first_seq as int,
            expected_first_prev@,
        ) == Some(e),
{
    let mut prev: [u8; 32] = expected_first_prev;
    let ghost all = signed_views(records@);
    let mut i: usize = 0;
    assert(all.skip(0) =~= all);
    while i < records.len()
        invariant
            i <= records@.len(),
            all == signed_views(records@),
            expected_first_seq + records@.len() <= u64::MAX + 1,
            chain_fault(
                all,
                owner@,
                verifying_key@,
                expected_first_seq as int,
                expected_first_prev@,
            ) == chain_fault(
                all.skip(i as int),
                owner@,
                verifying_key@,
                expected_first_seq + i,
                prev@,
            ),
        decreases records.len() - i,
    {
        proof {
            assert(all.skip(i as int)[0] == records@[i as int]@);
            assert(all.skip(i as int).drop_first() =~= all.skip(i + 1));
        }
        let sr = &records[i];
        let expect: u64 = expected_first_seq + i as u64;
        if !sr.record.node_id.same(owner) {
            return Err(AuditVerifyError::WrongOwner { seq: sr.record.seq });
        }
        if sr.record.seq != expect {
            return Err(AuditVerifyError::SequenceGap { expected: expect, found: sr.record.seq });
        }
        if !same_key(&sr.record.prev_hash, &prev) {
            return Err(AuditVerifyError::BrokenLink { seq: sr.record.seq });
        }
        if !sr.verify(verifying_key) {
            return Err(AuditVerifyError::BadSignature { seq: sr.record.seq });
        }
        prev = sr.record.content_hash();
        i += 1;
    }
    Ok(())
}

/// The previous hash of the first record of a stream.
pub open spec fn genesis_prev() -> Seq<u8> {
    Seq::new(32, |i: int| 0u8)
}

/// Verifies a stream from its first record on.
pub fn verify_stream_from_genesis(
    records: &[SignedAuditRecord],
    owner: &NodeId,
    verifying_key: &[u8; 32],
) -> (r: Result<(), AuditVerifyError>)
    ensures
        r is Ok <==> chain_fault(
            signed_views(records@),
            owner@,
            verifying_key@,
            0,
            genesis_prev(),
        ) is None,
        r matches Err(e) ==> chain_fault(
            signed_views(records@),
            owner@,
            verifying_key@,
            0,
            genesis_prev(),
        ) == Some(e),
{
    let zero: [u8; 32] = [0;32];
    assert(zero@ =~= genesis_prev());
    let _n: usize = records.len();
    verify_chain(records, owner, verifying_key, 0, zero)
}

// ── Laws ─────────────────────────────────────────────────────────────────────

/// Keys of one stream sort as the sequence numbers do.
pub proof fn law_audit_key_order(node: NodeView, a: u64, b: u64)
    requires
        a < b,
    ensures
        text_lt(audit_key_text(node, a), audit_key_text(node, b)),
{
    lemma_pow16_64();
    lemma_hex_fixed_order(a as int, b as int, 16);
    lemma_lt_common_prefix(
        stream_prefix_text(node),
        hex_fixed(a as int, 16),
        hex_fixed(b as int, 16),
    );
}

/// The key of a record begins with the prefix of its stream.
pub proof fn law_audit_key_in_stream(node: NodeView, seq: u64)
    ensures
        has_prefix(audit_key_text(node, seq), stream_prefix_text(node)),
{
    let p = stream_prefix_text(node);
    assert(audit_key_text(node, seq).take(p.len() as int) =~= p);
}

/// The hash that the record behind `records` has to name.
pub open spec fn tip(records: Seq<SignedView>, first_prev: Seq<u8>) -> Seq<u8> {
    if records.len() == 0 {
        first_prev
    } else {
        hash_of(records.last().record)
    }
}

/// A chain in two parts verifies exactly if the first part does and the
/// second does behind it; a fault of the first part comes first.
pub proof fn law_chain_splits(
    a: Seq<SignedView>,
    b: Seq<SignedView>,
    owner: NodeView,
    vk: Seq<u8>,
    first_seq: int,
    first_prev: Seq<u8>,
)
    ensures
        chain_fault(a + b, owner, vk, first_seq, first_prev) == (match chain_fault(
            a,
            owner,
            vk,
            first_seq,
            first_prev,
        ) {
            Some(e) => Some(e),
            None => chain_fault(b, owner, vk, first_seq + a.len(), tip(a, first_prev)),
        }),
    decreases a.len(),
{
    if a.len() == 0 {
        assert(a + b =~= b);
    } else {
        assert((a + b)[0] == a[0]);
        assert((a + b).drop_first() =~= a.drop_first() + b);
        let h = hash_of(a[0].record);
        law_chain_splits(a.drop_first(), b, owner, vk, first_seq + 1, h);
        if a.len() > 1 {
            assert(a.drop_first().last() == a.last());
        }
    }
}

/// A chain verifies exactly if every record has no fault at its place: an
/// honest stream always verifies.
pub proof fn law_honest_chain_verifies(
    records: Seq<SignedView>,
    owner: NodeView,
    vk: Seq<u8>,
    first_seq: int,
    first_prev: Seq<u8>,
)
    ensures
        chain_fault(records, owner, vk, first_seq, first_prev) is None <==> forall|i: int|
            0 <= i < records.len() ==> record_fault(
                #[trigger] records[i],
                owner,
                vk,
                first_seq + i,
                tip(records.take(i), first_prev),
            ) is None,
    decreases records.len(),
{
    if records.len() > 0 {
        let front = records.drop_last();
        let last = seq![records.last()];
        assert(front + last =~= records);
        law_chain_splits(front, last, owner, vk, first_seq, first_prev);
        law_honest_chain_verifies(front, owner, vk, first_seq, first_prev);
        assert(last.drop_first() =~= Seq::<SignedView>::empty());
        reveal_with_fuel(chain_fault, 2);
        let n = records.len() - 1;
        assert(records.take(n) =~= front);
        assert(last[0] == records[n]);
        assert forall|i: int| 0 <= i < front.len() implies front[i] == records[i] && front.take(i)
            == records.take(i) by {
            assert(front.take(i) =~= records.take(i));
        }
        if forall|i: int|
            0 <= i < records.len() ==> record_fault(
                #[trigger] records[i],
                owner,
                vk,
                first_seq + i,
                tip(records.take(i), first_prev),
            ) is None {
            assert forall|i: int| 0 <= i < front.len() implies record_fault(
                #[trigger] front[i],
                owner,
                vk,
                first_seq + i,
                tip(front.take(i), first_prev),
            ) is None by {
                assert(records[i] == front[i]);
            }
        }
        if chain_fault(records, owner, vk, first_seq, first_prev) is None {
            assert forall|i: int| 0 <= i < records.len() implies record_fault(
                #[trigger] records[i],
                owner,
                vk,
                first_seq + i,
                tip(records.take(i), first_prev),
            ) is None by {
                if i < front.len() {
                    assert(front[i] == records[i]);
                }
            }
        }
    }
}

/// Taking a record out of a stream that verifies, other than the last one,
/// is found: the next record stands out of sequence.
pub proof fn law_removal_detected(
    records: Seq<SignedView>,
    owner: NodeView,
    vk: Seq<u8>,
    first_seq: int,
    first_prev: Seq<u8>,
    i: int,
)
    requires
        0 <= i < records.len() - 1,
        0 <= first_seq,
        first_seq + records.len() <= u64::MAX + 1,
        chain_fault(records, owner, vk, first_seq, first_prev) is None,
    ensures
        chain_fault(records.remove(i), owner, vk, first_seq, first_prev) == Some(
            AuditVerifyError::SequenceGap {
                expected: (first_seq + i) as u64,
                found: (first_seq + i + 1) as u64,
            },
        ),
{
    law_honest_chain_verifies(records, owner, vk, first_seq, first_prev);
    let a = records.take(i);
    let b = records.skip(i + 1);
    assert(records.remove(i) =~= a + b);
    law_chain_splits(a, b, owner, vk, first_seq, first_prev);
    law_honest_chain_verifies(a, owner, vk, first_seq, first_prev);
    assert forall|k: int| 0 <= k < a.len() implies record_fault(
        #[trigger] a[k],
        owner,
        vk,
        first_seq + k,
        tip(a.take(k), first_prev),
    ) is None by {
        assert(a[k] == records[k]);
        assert(a.take(k) =~= records.take(k));
    }
    assert(b[0] == records[i + 1]);
    assert(record_fault(
        records[i + 1],
        owner,
        vk,
        first_seq + i + 1,
        tip(records.take(i + 1), first_prev),
    ) is None);
}

/// Exchanging two records of a stream that verifies is found at the earlier
/// of the two places.
pub proof fn law_reordering_detected(
    records: Seq<SignedView>,
    owner: NodeView,
    vk: Seq<u8>,
    first_seq: int,
    first_prev: Seq<u8>,
    i: int,
    j: int,
)
    requires
        0 <= i < j < records.len(),
        0 <= first_seq,
        first_seq + records.len() <= u64::MAX + 1,
        chain_fault(records, owner, vk, first_seq, first_prev) is None,
    ensures
        chain_fault(
            records.update(i, records[j]).update(j, records[i]),
            owner,
            vk,
            first_seq,
            first_prev,
        ) == Some(
            AuditVerifyError::SequenceGap {
                expected: (first_seq + i) as u64,
                found: (first_seq + j) as u64,
            },
        ),
{
    law_honest_chain_verifies(records, owner, vk, first_seq, first_prev);
    let moved = records.update(i, records[j]).update(j, records[i]);
    let a = records.take(i);
    let b = moved.skip(i);
    assert(moved =~= a + b);
    law_chain_splits(a, b, owner, vk, first_seq, first_prev);
    law_honest_chain_verifies(a, owner, vk, first_seq, first_prev);
    assert forall|k: int| 0 <= k < a.len() implies record_fault(
        #[trigger] a[k],
        owner,
        vk,
        first_seq + k,
        tip(a.take(k), first_prev),
    ) is None by {
        assert(a[k] == records[k]);
        assert(a.take(k) =~= records.take(k));
    }
    assert(b[0] == records[j]);
    assert(record_fault(records[j], owner, vk, first_seq + j, tip(records.take(j), first_prev)) is None);
}

/// Whatever is done to a record's previous hash in a stream that verifies is
/// found: the record no longer names the hash of the record before it.
pub proof fn law_relinking_detected(
    records: Seq<SignedView>,
    owner: NodeView,
    vk: Seq<u8>,
    first_seq: int,
    first_prev: Seq<u8>,
    i: int,
    edited: SignedView,
)
    requires
        0 <= i < records.len(),
        chain_fault(records, owner, vk, first_seq, first_prev) is None,
        edited.record.node_id == owner,
        edited.record.seq == first_seq + i,
        edited.record.prev_hash != records[i].record.prev_hash,
    ensures
        chain_fault(records.update(i, edited), owner, vk, first_seq, first_prev) == Some(
            AuditVerifyError::BrokenLink { seq: edited.record.seq },
        ),
{
    law_honest_chain_verifies(records, owner, vk, first_seq, first_prev);
    let changed = records.update(i, edited);
    let a = records.take(i);
    let b = changed.skip(i);
    assert(changed =~= a + b);
    law_chain_splits(a, b, owner, vk, first_seq, first_prev);
    law_honest_chain_verifies(a, owner, vk, first_seq, first_prev);
    assert forall|k: int| 0 <= k < a.len() implies record_fault(
        #[trigger] a[k],
        owner,
        vk,
        first_seq + k,
        tip(a.take(k), first_prev),
    ) is None by {
        assert(a[k] == records[k]);
        assert(a.take(k) =~= records.take(k));
    }
    assert(b[0] == edited);
    assert(record_fault(records[i], owner, vk, first_seq + i, tip(records.take(i), first_prev)) is None);
}

/// The content hash tells a record from every other, where SHA-256 does not
/// give two of their byte strings the same digest. That `a` is told apart by its
/// bytes is what hashing it shows.
pub proof fn law_content_hash_identifies(a: RecordView, b: RecordView)
    requires
        told_apart(a),
        well_formed(b),
        sha256(canonical_of(a)) == sha256(canonical_of(b)) ==> canonical_of(a) == canonical_of(b),
    ensures
        hash_of(a) == hash_of(b) <==> a == b,
{
}

/// The signature of a record is refused for every other record, where a
/// signature cannot be used for another message. That `r` is told apart by its
/// bytes is what signing it shows.
pub proof fn law_signature_is_of_one_record(r: RecordView, other: RecordView, signing_key: Seq<u8>)
    requires
        told_apart(r),
        well_formed(other),
        other != r,
        forall|msg: Seq<u8>| #[trigger]
            ed25519_accepts(
                ed25519_public(signing_key),
                msg,
                ed25519_signature(signing_key, canonical_of(r)),
            ) ==> msg == canonical_of(r),
    ensures
        !genuine(
            (SignedView { record: other, sig: ed25519_signature(signing_key, canonical_of(r)) }),
            ed25519_public(signing_key),
        ),
{
}

/// The record at `i` is its owner's, has the number that is due there, holds the hash of
/// the one before, and carries the key's signature.
pub open spec fn link_holds(
    records: Seq<SignedView>,
    i: int,
    owner: NodeView,
    verifying_key: Seq<u8>,
    first_seq: int,
    first_prev: Seq<u8>,
) -> bool {
    &&& records[i].record.node_id == owner
    &&& records[i].record.seq == first_seq + i
    &&& i == 0 ==> records[i].record.prev_hash == first_prev
    &&& i > 0 ==> records[i].record.prev_hash == hash_of(records[i - 1].record)
    &&& genuine(records[i], verifying_key)
}

/// A chain verifies exactly if every link of it holds.
pub proof fn law_chain_verifies_by_every_link(
    records: Seq<SignedView>,
    owner: NodeView,
    verifying_key: Seq<u8>,
    first_seq: int,
    first_prev: Seq<u8>,
)
    ensures
        chain_fault(records, owner, verifying_key, first_seq, first_prev) is None <==> forall|i: int|
            0 <= i < records.len() ==> #[trigger] link_holds(records, i, owner, verifying_key, first_seq, first_prev),
    decreases records.len(),
{
    if records.len() > 0 {
        let rest = records.drop_first();
        let prev = hash_of(records[0].record);
        law_chain_verifies_by_every_link(rest, owner, verifying_key, first_seq + 1, prev);
        assert forall|i: int| 0 <= i < rest.len() implies #[trigger] link_holds(
            rest,
            i,
            owner,
            verifying_key,
            first_seq + 1,
            prev,
        ) == link_holds(records, i + 1, owner, verifying_key, first_seq, first_prev) by {
            assert(rest[i] == records[i + 1]);
            if i > 0 {
                assert(rest[i - 1] == records[i]);
            }
        }
        assert(record_fault(records[0], owner, verifying_key, first_seq, first_prev) is None <==> link_holds(
            records,
            0,
            owner,
            verifying_key,
            first_seq,
            first_prev,
        ));
        let whole = chain_fault(records, owner, verifying_key, first_seq, first_prev) is None;
        if whole {
            assert forall|i: int| 0 <= i < records.len() implies #[trigger] link_holds(
                records,
                i,
                owner,
                verifying_key,
                first_seq,
                first_prev,
            ) by {
                if i > 0 {
                    assert(link_holds(rest, i - 1, owner, verifying_key, first_seq + 1, prev));
                }
            }
        } else if link_holds(records, 0, owner, verifying_key, first_seq, first_prev) {
            let i = choose|i: int|
                0 <= i < rest.len() && !#[trigger] link_holds(rest, i, owner, verifying_key, first_seq + 1, prev);
            assert(!link_holds(records, i + 1, owner, verifying_key, first_seq, first_prev));
        }
    }
}

/// Actions and outcomes that differ are written differently.
pub proof fn law_codes_tell_apart(a: AuditAction, b: AuditAction, o: AuditOutcome, p: AuditOutcome)
    ensures
        action_code(a) == action_code(b) <==> a == b,
        outcome_code(o) == outcome_code(p) <==> o == p,
{
}

/// A record is kept under its node and its number, the number in sixteen hexadecimal
/// digits.
pub proof fn law_record_key_names_node_and_number(node: NodeView, seq: u64)
    ensures
        audit_key_text(node, seq) == "sys/audit/"@ + node_text(node) + "/"@ + hex_fixed(seq as int, 16),
{
}

} // verus!
