//! The audit trail as a whole: the streams of all nodes, read from the table,
//! verified against every key that their owners may have signed with, and
//! reported by the gateway.

use crate::audit::{
    audit_stream_prefix, genuine, hash_of, parts_of, signed_parts, signed_views, stream_prefix_text,
    AuditAction, AuditOutcome, AuditVerifyError, SignedAuditRecord, SignedView, AUDIT_PREFIX,
};
use crate::endpoints::{hex32, hex_text, left_out};
use crate::gateway::{bad_request, bool_json, good, opt_view, reject, reply, write_bool, GatewayReply};
use crate::identity::{
    key_views, keys_of, known_verifying_keys, same_key, with_new, without, PeerKeys,
};
use crate::json::{comma_joined, join_commas, json_quote, json_string};
use crate::kv::KvHandle;
use crate::node_id::{
    denoted, law_node_text_injective, lemma_denoted, node_text, node_views, valid_host, NodeId, NodeView,
};
use crate::resolve::{add_node, names_each_once};
use crate::scan::{
    lemma_pick_at, lemma_picked_all, lemma_read_all, lemma_read_step, lemma_skip, lists_live_ts,
    lists_readings, picked, read_so_far, reading_set, Reading,
};
use crate::store::Table;
use crate::text::{
    behind, dec_string, dec_text, has_prefix, join3, lemma_first_slash, split_once, strip_prefix,
    views,
};
use vstd::prelude::*;

verus! {

// ── Reading ──────────────────────────────────────────────────────────────────

/// Whether the bytes hold the record.
pub open spec fn holds_record(bytes: Seq<u8>, r: SignedView) -> bool {
    valid_host(r.record.node_id.host) && signed_parts(bytes) == Some(parts_of(r))
}

/// The record in an entry, if there is one.
pub open spec fn record_in(bytes: Seq<u8>) -> Option<SignedView> {
    if exists|r: SignedView| #[trigger] holds_record(bytes, r) {
        Some(choose|r: SignedView| #[trigger] holds_record(bytes, r))
    } else {
        None
    }
}

/// [`record_in`] as a reading of the table.
pub open spec fn record_reading() -> Reading<SignedView> {
    |k: Seq<char>, v: Seq<u8>, ts: u64| record_in(v)
}

proof fn lemma_record_unique(bytes: Seq<u8>, a: SignedView, b: SignedView)
    requires
        holds_record(bytes, a),
        holds_record(bytes, b),
    ensures
        a == b,
{
    law_node_text_injective(a.record.node_id, b.record.node_id);
    assert(parts_of(a) == parts_of(b));
    assert(a.record.action == b.record.action);
    assert(a.record.outcome == b.record.outcome);
    assert(a.record =~= b.record);
    assert(a =~= b);
}

fn read_record(bytes: &Vec<u8>) -> (r: Option<SignedAuditRecord>)
    ensures
        r is Some <==> record_in(bytes@) is Some,
        r matches Some(s) ==> record_in(bytes@) == Some(s@),
{
    let r = SignedAuditRecord::decode(bytes);
    proof {
        if r is Some {
            assert(holds_record(bytes@, (r->0)@));
            lemma_record_unique(bytes@, (r->0)@, record_in(bytes@)->0);
        } else if exists|s: SignedView| #[trigger] holds_record(bytes@, s) {
            let s = choose|s: SignedView| #[trigger] holds_record(bytes@, s);
            assert(signed_parts(bytes@) == Some(parts_of(s)));
        }
    }
    r
}

/// Whether the records are in the order of their numbers.
pub open spec fn sorted_by_seq(v: Seq<SignedView>) -> bool {
    forall|i: int, j: int| 0 <= i < j < v.len() ==> (#[trigger] v[i]).record.seq <= (#[trigger] v[j]).record.seq
}

proof fn lemma_insert_by_seq(v: Seq<SignedView>, x: SignedView, at: int)
    requires
        sorted_by_seq(v),
        0 <= at <= v.len(),
        forall|k: int| 0 <= k < at ==> (#[trigger] v[k]).record.seq <= x.record.seq,
        at < v.len() ==> x.record.seq < v[at].record.seq,
    ensures
        sorted_by_seq(v.insert(at, x)),
{
    let t = v.insert(at, x);
    assert forall|i: int, j: int| 0 <= i < j < t.len() implies (#[trigger] t[i]).record.seq <= (
    #[trigger] t[j]).record.seq by {
        if j == at {
            assert(t[i] == v[i]);
        } else if i == at {
            assert(t[j] == v[j - 1]);
            assert(at == j - 1 || v[at].record.seq <= v[j - 1].record.seq);
        } else {
            let a = if i < at {
                i
            } else {
                i - 1
            };
            let b = if j < at {
                j
            } else {
                j - 1
            };
            assert(t[i] == v[a] && t[j] == v[b]);
        }
    }
}

impl KvHandle {
    /// The records in the stream of `node`, in the order of their numbers.
    pub fn read_stream(&self, node: &NodeId) -> (r: Vec<SignedAuditRecord>)
        ensures
            lists_readings(signed_views(r@), self.table(), stream_prefix_text(node@), record_reading()),
            sorted_by_seq(signed_views(r@)),
    {
        let prefix = audit_stream_prefix(node);
        let found = self.scan_prefix_with_ts(prefix.as_str());
        let ghost f = record_reading();
        let ghost mut src: Seq<int> = Seq::empty();
        let mut out: Vec<SignedAuditRecord> = Vec::new();
        let mut i: usize = 0;
        assert(signed_views(out@) =~= Seq::empty());
        while i < found.len()
            invariant
                i <= found.len(),
                f == record_reading(),
                lists_live_ts(found@, self.table(), prefix@),
                picked(found@, i as int, src, signed_views(out@), f),
                sorted_by_seq(signed_views(out@)),
            decreases found.len() - i,
        {
            match read_record(&found[i].1) {
                Some(s) => {
                    let ghost v = signed_views(out@);
                    let ghost x = s@;
                    let mut at: usize = 0;
                    while at < out.len() && out[at].record.seq <= s.record.seq
                        invariant
                            at <= out.len(),
                            v == signed_views(out@),
                            x == s@,
                            forall|k: int| 0 <= k < at ==> (#[trigger] v[k]).record.seq <= x.record.seq,
                        decreases out.len() - at,
                    {
                        assert(v[at as int] == out@[at as int]@);
                        at += 1;
                    }
                    proof {
                        if at < out@.len() {
                            assert(v[at as int] == out@[at as int]@);
                        }
                        lemma_insert_by_seq(v, x, at as int);
                        lemma_pick_at(found@, i as int, src, v, f, x, at as int);
                        src = src.insert(at as int, i as int);
                    }
                    out.insert(at, s);
                    assert(signed_views(out@) =~= v.insert(at as int, x));
                },
                None => {
                    proof {
                        lemma_skip(found@, i as int, src, signed_views(out@), f);
                    }
                },
            }
            i += 1;
        }
        proof {
            lemma_picked_all(found@, self.table(), prefix@, src, signed_views(out@), f);
        }
        out
    }
}

/// The node whose stream a key belongs to.
pub open spec fn stream_owner(k: Seq<char>) -> Option<NodeView> {
    let rest = behind(k, AUDIT_PREFIX@);
    match rest.index_of_first('/') {
        Some(i) => denoted(rest.take(i)),
        None => None,
    }
}

/// [`stream_owner`] as a reading of the table.
pub open spec fn owner_reading() -> Reading<NodeView> {
    |k: Seq<char>, v: Seq<u8>, ts: u64| stream_owner(k)
}

fn read_owner(key: &String) -> (r: Option<NodeId>)
    requires
        has_prefix(key@, AUDIT_PREFIX@),
    ensures
        r is Some <==> stream_owner(key@) is Some,
        r matches Some(n) ==> stream_owner(key@) == Some(n@),
{
    let rest = match strip_prefix(key.as_str(), AUDIT_PREFIX) {
        Some(s) => s,
        None => {
            return None;
        },
    };
    match split_once(rest.as_str(), '/') {
        None => {
            proof {
                rest@.index_of_first_ensures('/');
            }
            None
        },
        Some((node, seq)) => {
            proof {
                lemma_first_slash(node@, seq@);
            }
            match NodeId::parse(node.as_str()) {
                Ok(n) => {
                    proof {
                        lemma_denoted(node@, n@);
                    }
                    Some(n)
                },
                Err(_) => None,
            }
        },
    }
}

impl KvHandle {
    /// The nodes that have a stream, each once.
    pub fn stream_nodes(&self) -> (r: Vec<NodeId>)
        ensures
            names_each_once(r@, reading_set(self.table(), AUDIT_PREFIX@, owner_reading())),
    {
        let found = self.scan_prefix_with_ts(AUDIT_PREFIX);
        let ghost f = owner_reading();
        let mut out: Vec<NodeId> = Vec::new();
        let mut i: usize = 0;
        proof {
            lemma_read_all(found@, self.table(), AUDIT_PREFIX@, f);
            assert(node_views(out@) =~= Seq::empty());
            assert(node_views(out@).to_set() =~= read_so_far(found@, 0, f));
        }
        while i < found.len()
            invariant
                i <= found.len(),
                f == owner_reading(),
                lists_live_ts(found@, self.table(), AUDIT_PREFIX@),
                node_views(out@).no_duplicates(),
                node_views(out@).to_set() == read_so_far(found@, i as int, f),
            decreases found.len() - i,
        {
            proof {
                lemma_read_step(found@, i as int, f);
                assert(has_prefix(found@[i as int].0@, AUDIT_PREFIX@));
            }
            match read_owner(&found[i].0) {
                Some(n) => {
                    add_node(&mut out, n);
                },
                None => {},
            }
            i += 1;
        }
        out
    }
}

// ── Verification ─────────────────────────────────────────────────────────────

/// Whether one of the keys has signed the record.
pub open spec fn signed_by_one(r: SignedView, keys: Seq<Seq<u8>>) -> bool {
    exists|i: int| 0 <= i < keys.len() && genuine(r, #[trigger] keys[i])
}

/// What is wrong with one record that should stand at `expected` behind a
/// record with the hash `prev`, if anything.
pub open spec fn link_fault(r: SignedView, owner: NodeView, keys: Seq<Seq<u8>>, expected: int, prev: Seq<u8>) -> Option<
    AuditVerifyError,
> {
    if r.record.node_id != owner {
        Some(AuditVerifyError::WrongOwner { seq: r.record.seq })
    } else if r.record.seq != expected {
        Some(AuditVerifyError::SequenceGap { expected: expected as u64, found: r.record.seq })
    } else if r.record.prev_hash != prev {
        Some(AuditVerifyError::BrokenLink { seq: r.record.seq })
    } else if !signed_by_one(r, keys) {
        Some(AuditVerifyError::BadSignature { seq: r.record.seq })
    } else {
        None
    }
}

/// The verdict on a stream: that of its first faulty record.
pub open spec fn stream_fault(
    records: Seq<SignedView>,
    owner: NodeView,
    keys: Seq<Seq<u8>>,
    first_seq: int,
    first_prev: Seq<u8>,
) -> Option<AuditVerifyError>
    decreases records.len(),
{
    if records.len() == 0 {
        None
    } else {
        match link_fault(records[0], owner, keys, first_seq, first_prev) {
            Some(e) => Some(e),
            None => stream_fault(
                records.drop_first(),
                owner,
                keys,
                first_seq + 1,
                hash_of(records[0].record),
            ),
        }
    }
}

/// The hash that the first record names in the place of a predecessor.
pub open spec fn no_hash() -> Seq<u8> {
    Seq::new(32, |i: int| 0u8)
}

fn any_signed(sr: &SignedAuditRecord, keys: &Vec<[u8; 32]>) -> (r: bool)
    ensures
        r == signed_by_one(sr@, key_views(keys@)),
{
    let ghost w = key_views(keys@);
    let mut i: usize = 0;
    while i < keys.len()
        invariant
            i <= keys.len(),
            w == key_views(keys@),
            forall|k: int| 0 <= k < i ==> !genuine(sr@, #[trigger] w[k]),
        decreases keys.len() - i,
    {
        assert(w[i as int] == keys@[i as int]@);
        if sr.verify(&keys[i]) {
            return true;
        }
        i += 1;
    }
    false
}

/// Verifies a whole stream from its first record on. A node signs with one key
/// after the other, so a record may be signed by any of `keys`.
pub fn verify_stream(records: &Vec<SignedAuditRecord>, owner: &NodeId, keys: &Vec<[u8; 32]>) -> (r: Result<
    (),
    AuditVerifyError,
>)
    ensures
        match stream_fault(signed_views(records@), owner@, key_views(keys@), 0, no_hash()) {
            Some(e) => r == Err::<(), AuditVerifyError>(e),
            None => r is Ok,
        },
{
    let mut prev: [u8; 32] = [0;32];
    let ghost all = signed_views(records@);
    let ghost ks = key_views(keys@);
    let mut i: usize = 0;
    proof {
        assert(all.skip(0) =~= all);
        assert(prev@ =~= no_hash());
    }
    while i < records.len()
        invariant
            i <= records@.len(),
            all == signed_views(records@),
            ks == key_views(keys@),
            stream_fault(all, owner@, ks, 0, no_hash()) == stream_fault(
                all.skip(i as int),
                owner@,
                ks,
                i as int,
                prev@,
            ),
        decreases records.len() - i,
    {
        proof {
            assert(all.skip(i as int)[0] == records@[i as int]@);
            assert(all.skip(i as int).drop_first() =~= all.skip(i + 1));
        }
        let sr = &records[i];
        if !sr.record.node_id.same(owner) {
            return Err(AuditVerifyError::WrongOwner { seq: sr.record.seq });
        }
        if sr.record.seq != i as u64 {
            return Err(AuditVerifyError::SequenceGap { expected: i as u64, found: sr.record.seq });
        }
        if !same_key(&sr.record.prev_hash, &prev) {
            return Err(AuditVerifyError::BrokenLink { seq: sr.record.seq });
        }
        if !any_signed(sr, keys) {
            return Err(AuditVerifyError::BadSignature { seq: sr.record.seq });
        }
        prev = sr.record.content_hash();
        i += 1;
    }
    Ok(())
}

/// A stream that verifies against one key verifies against every set of keys
/// with that key, so a key that a node signs with next takes nothing away.
pub proof fn law_retained_keys_verify(
    records: Seq<SignedView>,
    owner: NodeView,
    key: Seq<u8>,
    keys: Seq<Seq<u8>>,
    first_seq: int,
    first_prev: Seq<u8>,
)
    requires
        keys.contains(key),
        crate::audit::chain_fault(records, owner, key, first_seq, first_prev) is None,
    ensures
        stream_fault(records, owner, keys, first_seq, first_prev) is None,
    decreases records.len(),
{
    if records.len() > 0 {
        let i = choose|i: int| 0 <= i < keys.len() && keys[i] == key;
        assert(genuine(records[0], keys[i]));
        law_retained_keys_verify(
            records.drop_first(),
            owner,
            key,
            keys,
            first_seq + 1,
            hash_of(records[0].record),
        );
    }
}

// ── Reporting ────────────────────────────────────────────────────────────────

/// The name of an action.
pub open spec fn action_name(a: AuditAction) -> Seq<char> {
    match a {
        AuditAction::Write => "Write"@,
        AuditAction::Read => "Read"@,
        AuditAction::Invoke => "Invoke"@,
        AuditAction::Admin => "Admin"@,
    }
}

/// The name of an outcome.
pub open spec fn outcome_name(o: AuditOutcome) -> Seq<char> {
    match o {
        AuditOutcome::Success => "Success"@,
        AuditOutcome::Denied => "Denied"@,
        AuditOutcome::Error => "Error"@,
    }
}

/// A fault in words.
pub open spec fn fault_text(e: AuditVerifyError) -> Seq<char> {
    match e {
        AuditVerifyError::BadSignature { seq } => "BadSignature { seq: "@ + dec_text(seq as nat) + " }"@,
        AuditVerifyError::BrokenLink { seq } => "BrokenLink { seq: "@ + dec_text(seq as nat) + " }"@,
        AuditVerifyError::SequenceGap { expected, found } => "SequenceGap { expected: "@ + dec_text(
            expected as nat,
        ) + ", found: "@ + dec_text(found as nat) + " }"@,
        AuditVerifyError::WrongOwner { seq } => "WrongOwner { seq: "@ + dec_text(seq as nat) + " }"@,
    }
}

fn name_action(a: AuditAction) -> (s: &'static str)
    ensures
        s@ == action_name(a),
{
    match a {
        AuditAction::Write => "Write",
        AuditAction::Read => "Read",
        AuditAction::Invoke => "Invoke",
        AuditAction::Admin => "Admin",
    }
}

fn name_outcome(o: AuditOutcome) -> (s: &'static str)
    ensures
        s@ == outcome_name(o),
{
    match o {
        AuditOutcome::Success => "Success",
        AuditOutcome::Denied => "Denied",
        AuditOutcome::Error => "Error",
    }
}

fn write_fault(e: AuditVerifyError) -> (s: String)
    ensures
        s@ == fault_text(e),
{
    match e {
        AuditVerifyError::BadSignature { seq } => join3(
            "BadSignature { seq: ",
            dec_string(seq).as_str(),
            " }",
        ),
        AuditVerifyError::BrokenLink { seq } => join3("BrokenLink { seq: ", dec_string(seq).as_str(), " }"),
        AuditVerifyError::SequenceGap { expected, found } => {
            let a = join3("SequenceGap { expected: ", dec_string(expected).as_str(), ", found: ");
            join3(a.as_str(), dec_string(found).as_str(), " }")
        },
        AuditVerifyError::WrongOwner { seq } => join3("WrongOwner { seq: ", dec_string(seq).as_str(), " }"),
    }
}

/// A text inside an answer, `null` where there is none.
pub open spec fn optional_text(t: Option<Seq<char>>) -> Seq<char> {
    match t {
        Some(s) => json_string(s),
        None => "null"@,
    }
}

/// A record inside an answer.
pub open spec fn record_text(r: SignedView) -> Seq<char> {
    "{\"action\":"@ + json_string(action_name(r.record.action)) + ",\"content_hash\":"@ + json_string(
        hex_text(hash_of(r.record)),
    ) + ",\"detail\":"@ + optional_text(r.record.detail) + ",\"hlc\":"@ + dec_text(r.record.hlc as nat)
        + ",\"outcome\":"@ + json_string(outcome_name(r.record.outcome)) + ",\"principal\":"@ + json_string(
        r.record.principal,
    ) + ",\"seq\":"@ + dec_text(r.record.seq as nat) + ",\"target\":"@ + json_string(r.record.target) + "}"@
}

fn write_record(sr: &SignedAuditRecord) -> (s: String)
    ensures
        s@ == record_text(sr@),
{
    let r = &sr.record;
    let detail = match &r.detail {
        Some(d) => json_quote(d.as_str()),
        None => "null".to_owned(),
    };
    let a = join3("{\"action\":", json_quote(name_action(r.action)).as_str(), ",\"content_hash\":");
    let b = join3(a.as_str(), json_quote(hex32(&r.content_hash()).as_str()).as_str(), ",\"detail\":");
    let c = join3(b.as_str(), detail.as_str(), ",\"hlc\":");
    let d = join3(c.as_str(), dec_string(r.hlc).as_str(), ",\"outcome\":");
    let e = join3(d.as_str(), json_quote(name_outcome(r.outcome)).as_str(), ",\"principal\":");
    let f = join3(e.as_str(), json_quote(r.principal.as_str()).as_str(), ",\"seq\":");
    let g = join3(f.as_str(), dec_string(r.seq).as_str(), ",\"target\":");
    join3(g.as_str(), json_quote(r.target.as_str()).as_str(), "}")
}

/// The records that are shown: at most `limit`, the last ones.
pub open spec fn shown(records: Seq<SignedView>, limit: Option<usize>) -> Seq<SignedView> {
    records.skip(left_out(records.len(), limit))
}

/// A stream inside an answer: it is verified as a whole, and its last records
/// are shown.
pub open spec fn stream_text(node: NodeView, records: Seq<SignedView>, keys: Seq<Seq<u8>>, limit: Option<usize>) -> Seq<
    char,
> {
    let fault = stream_fault(records, node, keys, 0, no_hash());
    "{\"count\":"@ + dec_text(records.len()) + ",\"head_hash\":"@ + optional_text(
        if records.len() == 0 {
            None
        } else {
            Some(hex_text(hash_of(records.last().record)))
        },
    ) + ",\"node\":"@ + json_string(node_text(node)) + ",\"records\":["@ + comma_joined(
        shown(records, limit).map_values(|r: SignedView| record_text(r)),
    ) + "],\"verified\":"@ + bool_json(fault is None) + ",\"verify_error\":"@ + optional_text(
        match fault {
            Some(e) => Some(fault_text(e)),
            None => None,
        },
    ) + "}"@
}

/// Writes a stream.
pub fn write_stream(node: &NodeId, records: &Vec<SignedAuditRecord>, keys: &Vec<[u8; 32]>, limit: Option<
    usize,
>) -> (s: String)
    ensures
        s@ == stream_text(node@, signed_views(records@), key_views(keys@), limit),
{
    let ghost w = signed_views(records@);
    let count: usize = records.len();
    let first: usize = match limit {
        Some(n) => if count > n {
            count - n
        } else {
            0
        },
        None => 0,
    };
    let mut out: Vec<String> = Vec::new();
    let mut i: usize = first;
    while i < records.len()
        invariant
            first <= i <= records.len(),
            w == signed_views(records@),
            out@.len() == i - first,
            forall|k: int| 0 <= k < out@.len() ==> (#[trigger] out@[k])@ == record_text(w[first + k]),
        decreases records.len() - i,
    {
        assert(w[i as int] == records@[i as int]@);
        out.push(write_record(&records[i]));
        i += 1;
    }
    assert(views(out@) =~= shown(w, limit).map_values(|r: SignedView| record_text(r)));
    let head = if count == 0 {
        "null".to_owned()
    } else {
        assert(w.last() == records@[count - 1]@);
        json_quote(hex32(&records[count - 1].record.content_hash()).as_str())
    };
    let verdict = verify_stream(records, node, keys);
    let verified = verdict.is_ok();
    let fault = match verdict {
        Ok(_) => "null".to_owned(),
        Err(e) => json_quote(write_fault(e).as_str()),
    };
    let a = join3("{\"count\":", dec_string(count as u64).as_str(), ",\"head_hash\":");
    let b = join3(a.as_str(), head.as_str(), ",\"node\":");
    let c = join3(b.as_str(), json_quote(node.to_text().as_str()).as_str(), ",\"records\":[");
    let d = join3(c.as_str(), join_commas(&out).as_str(), "],\"verified\":");
    let e = join3(d.as_str(), write_bool(verified).as_str(), ",\"verify_error\":");
    join3(e.as_str(), fault.as_str(), "}")
}

/// The keys that the records of `node` may be signed with.
pub open spec fn trusted_keys(
    peer_keys: PeerKeys,
    node: NodeView,
    me: NodeView,
    own_key: Option<[u8; 32]>,
    revoked: Seq<[u8; 32]>,
) -> Seq<Seq<u8>> {
    without(
        with_new(
            keys_of(peer_keys.table(), node_text(node)),
            if node == me && own_key is Some {
                seq![own_key->0@]
            } else {
                Seq::empty()
            },
        ),
        key_views(revoked),
    )
}

/// `line` reports the stream of `node` as the table holds it.
pub open spec fn reports(line: Seq<char>, t: Table, node: NodeView, keys: Seq<Seq<u8>>, limit: Option<usize>) -> bool {
    exists|records: Seq<SignedView>|
        #[trigger] lists_readings(records, t, stream_prefix_text(node), record_reading()) && sorted_by_seq(
            records,
        ) && line == stream_text(node, records, keys, limit)
}

impl KvHandle {
    /// Answers a request for the audit trail: of one node, or of all that have
    /// a stream.
    pub fn gw_audit(
        &self,
        node: &Option<String>,
        limit: Option<usize>,
        peer_keys: &PeerKeys,
        own_key: Option<[u8; 32]>,
        revoked: &Vec<[u8; 32]>,
    ) -> (r: GatewayReply)
        ensures
            ({
                let asked = match opt_view(*node) {
                    Some(s) => denoted(s),
                    None => None,
                };
                if node is Some && asked is None {
                    r@ == bad_request("invalid node id"@)
                } else {
                    exists|nodes: Seq<NodeView>, lines: Seq<Seq<char>>|
                        {
                            &&& node is Some ==> nodes == seq![asked->0]
                            &&& node is None ==> nodes.no_duplicates() && nodes.to_set() == reading_set(
                                self.table(),
                                AUDIT_PREFIX@,
                                owner_reading(),
                            )
                            &&& lines.len() == nodes.len()
                            &&& forall|i: int|
                                0 <= i < nodes.len() ==> reports(
                                    #[trigger] lines[i],
                                    self.table(),
                                    nodes[i],
                                    trusted_keys(*peer_keys, nodes[i], self.node_id@, own_key, revoked@),
                                    limit,
                                )
                            &&& r@ == #[trigger] trail_answer(nodes, lines)
                        }
                }
            }),
    {
        let nodes: Vec<NodeId> = match node {
            Some(s) => match NodeId::parse(s.as_str()) {
                Ok(n) => {
                    proof {
                        lemma_denoted(s@, n@);
                    }
                    let mut one: Vec<NodeId> = Vec::new();
                    let ghost x = n@;
                    one.push(n);
                    assert(node_views(one@) =~= seq![x]);
                    one
                },
                Err(_) => {
                    return reject("invalid node id");
                },
            },
            None => self.stream_nodes(),
        };
        let ghost w = node_views(nodes@);
        let mut out: Vec<String> = Vec::new();
        let mut i: usize = 0;
        while i < nodes.len()
            invariant
                i <= nodes.len(),
                w == node_views(nodes@),
                out@.len() == i,
                forall|k: int|
                    0 <= k < i ==> reports(
                        (#[trigger] out@[k])@,
                        self.table(),
                        w[k],
                        trusted_keys(*peer_keys, w[k], self.node_id@, own_key, revoked@),
                        limit,
                    ),
            decreases nodes.len() - i,
        {
            let records = self.read_stream(&nodes[i]);
            let keys = known_verifying_keys(peer_keys, &nodes[i], &self.node_id, own_key, revoked);
            let line = write_stream(&nodes[i], &records, &keys, limit);
            assert(w[i as int] == nodes@[i as int]@);
            out.push(line);
            i += 1;
        }
        let r = reply(join3("{\"streams\":[", join_commas(&out).as_str(), "]}"));
        proof {
            let lines = views(out@);
            assert forall|i: int| 0 <= i < w.len() implies reports(
                #[trigger] lines[i],
                self.table(),
                w[i],
                trusted_keys(*peer_keys, w[i], self.node_id@, own_key, revoked@),
                limit,
            ) by {
                assert(lines[i] == out@[i]@);
            }
            assert(r@ == trail_answer(w, lines));
        }
        r
    }
}

/// The answer that holds the lines, one for each node.
pub open spec fn trail_answer(nodes: Seq<NodeView>, lines: Seq<Seq<char>>) -> crate::gateway::ReplyView {
    good("{\"streams\":["@ + comma_joined(lines) + "]}"@)
}

/// The record at `i` is its owner's, has the number that is due there, holds the hash of
/// the one before, and is signed by one of the keys.
pub open spec fn record_stands(
    records: Seq<SignedView>,
    i: int,
    owner: NodeView,
    keys: Seq<Seq<u8>>,
    first_seq: int,
    first_prev: Seq<u8>,
) -> bool {
    &&& records[i].record.node_id == owner
    &&& records[i].record.seq == first_seq + i
    &&& i == 0 ==> records[i].record.prev_hash == first_prev
    &&& i > 0 ==> records[i].record.prev_hash == hash_of(records[i - 1].record)
    &&& exists|j: int| 0 <= j < keys.len() && genuine(records[i], #[trigger] keys[j])
}

/// A stream verifies exactly if every record stands.
pub proof fn law_stream_verifies_by_every_record(
    records: Seq<SignedView>,
    owner: NodeView,
    keys: Seq<Seq<u8>>,
    first_seq: int,
    first_prev: Seq<u8>,
)
    ensures
        stream_fault(records, owner, keys, first_seq, first_prev) is None <==> forall|i: int|
            0 <= i < records.len() ==> #[trigger] record_stands(records, i, owner, keys, first_seq, first_prev),
    decreases records.len(),
{
    if records.len() > 0 {
        let rest = records.drop_first();
        let prev = hash_of(records[0].record);
        law_stream_verifies_by_every_record(rest, owner, keys, first_seq + 1, prev);
        assert forall|i: int| 0 <= i < rest.len() implies #[trigger] record_stands(
            rest,
            i,
            owner,
            keys,
            first_seq + 1,
            prev,
        ) == record_stands(records, i + 1, owner, keys, first_seq, first_prev) by {
            assert(rest[i] == records[i + 1]);
            if i > 0 {
                assert(rest[i - 1] == records[i]);
            }
        }
        assert(link_fault(records[0], owner, keys, first_seq, first_prev) is None <==> record_stands(
            records,
            0,
            owner,
            keys,
            first_seq,
            first_prev,
        ));
        let whole = stream_fault(records, owner, keys, first_seq, first_prev) is None;
        if whole {
            assert forall|i: int| 0 <= i < records.len() implies #[trigger] record_stands(
                records,
                i,
                owner,
                keys,
                first_seq,
                first_prev,
            ) by {
                if i > 0 {
                    assert(record_stands(rest, i - 1, owner, keys, first_seq + 1, prev));
                }
            }
        } else if record_stands(records, 0, owner, keys, first_seq, first_prev) {
            let i = choose|i: int|
                0 <= i < rest.len() && !#[trigger] record_stands(rest, i, owner, keys, first_seq + 1, prev);
            assert(!record_stands(records, i + 1, owner, keys, first_seq, first_prev));
        }
    }
}

/// Of a stream the last records are shown, as many as the limit admits.
pub proof fn law_last_records_are_shown(records: Seq<SignedView>, n: usize)
    ensures
        shown(records, None) == records,
        n >= records.len() ==> shown(records, Some(n)) == records,
        n < records.len() ==> shown(records, Some(n)).len() == n && forall|i: int|
            0 <= i < n ==> #[trigger] shown(records, Some(n))[i] == records[records.len() - n + i],
{
    assert(records.skip(0) =~= records);
}

/// A node's records are verified by the keys that are known of it, and by this node's
/// own key where it is this node; never by one that was revoked.
pub proof fn law_revoked_keys_verify_nothing(
    peer_keys: PeerKeys,
    node: NodeView,
    me: NodeView,
    own_key: Option<[u8; 32]>,
    revoked: Seq<[u8; 32]>,
    k: Seq<u8>,
)
    ensures
        trusted_keys(peer_keys, node, me, own_key, revoked).contains(k) <==> !key_views(revoked).contains(k) && (
        keys_of(peer_keys.table(), node_text(node)).contains(k) || (node == me && own_key is Some && own_key->0@
            == k)),
{
    let own = if node == me && own_key is Some {
        seq![own_key->0@]
    } else {
        Seq::empty()
    };
    assert(own.contains(k) <==> node == me && own_key is Some && own_key->0@ == k) by {
        if node == me && own_key is Some && own_key->0@ == k {
            assert(own[0] == k);
        }
    }
    let all = with_new(keys_of(peer_keys.table(), node_text(node)), own);
    crate::identity::law_merge_is_union(keys_of(peer_keys.table(), node_text(node)), own, k);
    crate::identity::law_without_takes_away(all, key_views(revoked), k);
}

/// The first record of a stream holds thirty-two zeros in the place of a hash.
pub proof fn law_stream_begins_with_zeros(i: int)
    ensures
        no_hash().len() == 32,
        0 <= i < 32 ==> no_hash()[i] == 0,
{
}

/// A report of a stream counts all of its records, however few are shown.
pub proof fn law_report_counts_the_records(
    line: Seq<char>,
    t: Table,
    node: NodeView,
    keys: Seq<Seq<u8>>,
    limit: Option<usize>,
    records: Seq<SignedView>,
)
    requires
        reports(line, t, node, keys, limit),
        lists_readings(records, t, stream_prefix_text(node), record_reading()),
    ensures
        exists|rest: Seq<char>| line == #[trigger] ("{\"count\":"@ + dec_text(records.len()) + rest),
{
    let own = choose|own: Seq<SignedView>|
        #[trigger] lists_readings(own, t, stream_prefix_text(node), record_reading()) && sorted_by_seq(own) && line
            == stream_text(node, own, keys, limit);
    crate::scan::lemma_listing_count(own, t, stream_prefix_text(node), record_reading());
    crate::scan::lemma_listing_count(records, t, stream_prefix_text(node), record_reading());
    let lead = "{\"count\":"@ + dec_text(records.len());
    assert(line =~= lead + line.skip(lead.len() as int));
}

/// Bytes that hold the parts of a record are read as that record.
pub proof fn law_record_is_read_back(bytes: Seq<u8>, r: SignedView)
    requires
        valid_host(r.record.node_id.host),
        signed_parts(bytes) == Some(parts_of(r)),
    ensures
        record_in(bytes) == Some(r),
{
    assert(holds_record(bytes, r));
    lemma_record_unique(bytes, r, record_in(bytes)->0);
}

} // verus!
