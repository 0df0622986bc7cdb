//! The gateway: what requests from outside ask for, and how they are answered.
//! Binary values travel as base64 inside JSON documents.

use crate::evidence::{behind_leading_u64, frame_with_nonce, leading_u64, read_leading_u64, with_leading_u64};
use crate::json::{
    comma_joined, items_at, join_commas, json_quote, json_string, number_at, read_items, read_number,
    read_text, text_at,
};
use crate::kv::{hlc_next, outcome_for, wrote, KvHandle};
use crate::kv_quorum::{QuorumAckTracker, QuorumError};
use crate::mcp::RPC_RESULT;
use crate::mesh::{emitted, MeshHandle};
use crate::node_id::{denoted, lemma_denoted, node_text, node_views, NodeId, NodeView};
use crate::store::{live, Table};
use crate::text::{
    behind, dec_string, dec_text, has_prefix, hex16, hex_fixed, join3, parse_hex_spec, parse_hex_u64,
    same_text, strip_prefix, views,
};
use crate::wire::{id_hash, Dispatch, ScopeView, SignalScope};
use vstd::prelude::*;

verus! {

// ── Base64 ───────────────────────────────────────────────────────────────────

/// The base64 text of `bytes`, in the standard alphabet with padding.
pub uninterp spec fn base64_text(bytes: Seq<u8>) -> Seq<char>;

/// The bytes that a base64 text stands for, `None` where it is none.
pub uninterp spec fn base64_bytes(text: Seq<char>) -> Option<Seq<u8>>;

/// `base64::Engine::encode` of the standard engine: the text is a function of
/// the bytes, and decoding it gives them back.
#[verifier::external_body]
pub(crate) fn base64_encode(bytes: &Vec<u8>) -> (r: String)
    ensures
        r@ == base64_text(bytes@),
        base64_bytes(r@) == Some(bytes@),
{
    base64::Engine::encode(&base64::engine::general_purpose::STANDARD, bytes)
}

/// `base64::Engine::decode` of the standard engine: the bytes are a function
/// of the text.
#[verifier::external_body]
pub(crate) fn base64_decode(text: &str) -> (r: Option<Vec<u8>>)
    ensures
        r is Some <==> base64_bytes(text@) is Some,
        r matches Some(v) ==> base64_bytes(text@) == Some(v@),
{
    base64::Engine::decode(&base64::engine::general_purpose::STANDARD, text).ok()
}

/// What an optional base64 field holds: nothing where it is left out, `None`
/// where it is no base64.
pub open spec fn field_bytes(text: Option<Seq<char>>) -> Option<Seq<u8>> {
    match text {
        Some(s) => base64_bytes(s),
        None => Some(Seq::empty()),
    }
}

/// Reads an optional base64 field.
pub fn read_base64(text: &Option<String>) -> (r: Option<Vec<u8>>)
    ensures
        r is Some <==> field_bytes(opt_view(*text)) is Some,
        r matches Some(v) ==> field_bytes(opt_view(*text)) == Some(v@),
{
    match text {
        Some(s) => base64_decode(s.as_str()),
        None => {
            let v: Vec<u8> = Vec::new();
            assert(v@ =~= Seq::empty());
            Some(v)
        },
    }
}

pub open spec fn opt_view(s: Option<String>) -> Option<Seq<char>> {
    match s {
        Some(t) => Some(t@),
        None => None,
    }
}

// ── Replies ──────────────────────────────────────────────────────────────────

/// An answer: its status and its document.
#[derive(Debug, Clone, PartialEq, Eq)]
pub struct GatewayReply {
    pub status: u16,
    pub body: String,
}

/// The model of a [`GatewayReply`].
pub type ReplyView = (u16, Seq<char>);

impl View for GatewayReply {
    type V = ReplyView;

    open spec fn view(&self) -> ReplyView {
        (self.status, self.body@)
    }
}

/// `{"error": message}` with status 400.
pub open spec fn bad_request(message: Seq<char>) -> ReplyView {
    (400, "{\"error\":"@ + json_string(message) + "}"@)
}

pub(crate) fn reject(message: &str) -> (r: GatewayReply)
    ensures
        r@ == bad_request(message@),
{
    GatewayReply { status: 400, body: join3("{\"error\":", json_quote(message).as_str(), "}") }
}

/// `{"error": message, "ok": false}` with this status.
pub open spec fn failed(status: u16, message: Seq<char>) -> ReplyView {
    (status, "{\"error\":"@ + json_string(message) + ",\"ok\":false}"@)
}

pub(crate) fn fail(status: u16, message: &str) -> (r: GatewayReply)
    ensures
        r@ == failed(status, message@),
{
    GatewayReply { status, body: join3("{\"error\":", json_quote(message).as_str(), ",\"ok\":false}") }
}

/// A document with status 200.
pub open spec fn good(body: Seq<char>) -> ReplyView {
    (200, body)
}

pub(crate) fn reply(body: String) -> (r: GatewayReply)
    ensures
        r@ == good(body@),
{
    GatewayReply { status: 200, body }
}

/// `true` or `false`.
pub open spec fn bool_json(b: bool) -> Seq<char> {
    if b {
        "true"@
    } else {
        "false"@
    }
}

pub(crate) fn write_bool(b: bool) -> (s: String)
    ensures
        s@ == bool_json(b),
{
    if b {
        "true".to_owned()
    } else {
        "false".to_owned()
    }
}

/// `n`, at least `low` and at most `high`; `otherwise` where it is left out.
pub open spec fn clamped(n: Option<u64>, otherwise: u64, low: u64, high: u64) -> u64 {
    let v = match n {
        Some(x) => x,
        None => otherwise,
    };
    if v < low {
        low
    } else if v > high {
        high
    } else {
        v
    }
}

/// `n`, at least `low` and at most `high`; `otherwise` where it is left out.
pub fn clamp(n: Option<u64>, otherwise: u64, low: u64, high: u64) -> (r: u64)
    ensures
        r == clamped(n, otherwise, low, high),
{
    let v: u64 = match n {
        Some(x) => x,
        None => otherwise,
    };
    if v < low {
        low
    } else if v > high {
        high
    } else {
        v
    }
}

// ── Signals ──────────────────────────────────────────────────────────────────

/// The scope that a text stands for: `system`, `group:NAME` or `node:ADDRESS`;
/// anything else is the whole system. `None` where the address is none.
pub open spec fn scope_in(s: Seq<char>) -> Option<ScopeView> {
    if s == "system"@ {
        Some(ScopeView::System)
    } else if has_prefix(s, "group:"@) {
        Some(ScopeView::Group(behind(s, "group:"@)))
    } else if has_prefix(s, "node:"@) {
        match denoted(behind(s, "node:"@)) {
            Some(n) => Some(ScopeView::Individual(n)),
            None => None,
        }
    } else {
        Some(ScopeView::System)
    }
}

/// Reads a scope.
pub fn parse_scope(s: &str) -> (r: Option<SignalScope>)
    ensures
        r is Some <==> scope_in(s@) is Some,
        r matches Some(x) ==> scope_in(s@) == Some(x@),
{
    if same_text(s, "system") {
        return Some(SignalScope::System);
    }
    match strip_prefix(s, "group:") {
        Some(g) => {
            return Some(SignalScope::Group(g));
        },
        None => {},
    }
    match strip_prefix(s, "node:") {
        Some(text) => match NodeId::parse(text.as_str()) {
            Ok(n) => {
                proof {
                    lemma_denoted(text@, n@);
                }
                Some(SignalScope::Individual(n))
            },
            Err(_) => None,
        },
        None => Some(SignalScope::System),
    }
}

/// A signal that a request asks for.
pub struct EmitPlan {
    pub kind: String,
    pub scope: SignalScope,
    pub payload: Vec<u8>,
}

/// The scope text of a request, the whole system where it is left out.
pub open spec fn scope_text(body: Seq<u8>) -> Seq<char> {
    match text_at(body, "/scope"@) {
        Some(s) => s,
        None => "system"@,
    }
}

/// Reads a request for a signal.
pub fn plan_signal(body: &Vec<u8>) -> (r: Result<EmitPlan, GatewayReply>)
    ensures
        ({
            let kind = text_at(body@, "/kind"@);
            let scope = scope_in(scope_text(body@));
            let payload = field_bytes(text_at(body@, "/payload_b64"@));
            if kind is None {
                r matches Err(e) && e@ == bad_request("missing kind"@)
            } else if scope is None {
                r matches Err(e) && e@ == bad_request("invalid node id"@)
            } else if payload is None {
                r matches Err(e) && e@ == bad_request("invalid base64 payload"@)
            } else {
                r matches Ok(p) && p.kind@ == kind->0 && p.scope@ == scope->0 && p.payload@ == payload->0
            }
        }),
{
    let kind = match read_text(body, "/kind") {
        Some(k) => k,
        None => {
            return Err(reject("missing kind"));
        },
    };
    let text = match read_text(body, "/scope") {
        Some(s) => s,
        None => "system".to_owned(),
    };
    let scope = match parse_scope(text.as_str()) {
        Some(s) => s,
        None => {
            return Err(reject("invalid node id"));
        },
    };
    let field = read_text(body, "/payload_b64");
    assert(opt_view(field) == text_at(body@, "/payload_b64"@));
    match read_base64(&field) {
        Some(payload) => Ok(EmitPlan { kind, scope, payload }),
        None => Err(reject("invalid base64 payload")),
    }
}

impl MeshHandle {
    /// Emits the signal that a request asks for, and answers whether it was
    /// queued.
    pub fn gw_signal_emit(&mut self, body: &Vec<u8>, not_shed: bool, now_ms: u64) -> (r: GatewayReply)
        requires
            old(self).wf(),
        ensures
            ({
                let kind = text_at(body@, "/kind"@);
                let scope = scope_in(scope_text(body@));
                let payload = field_bytes(text_at(body@, "/payload_b64"@));
                if kind is None {
                    r@ == bad_request("missing kind"@) && *final(self) == *old(self)
                } else if scope is None {
                    r@ == bad_request("invalid node id"@) && *final(self) == *old(self)
                } else if payload is None {
                    r@ == bad_request("invalid base64 payload"@) && *final(self) == *old(self)
                } else {
                    emitted(*old(self), *final(self), kind->0, scope->0, payload->0, not_shed, now_ms)
                        && r@ == good(
                        "{\"ok\":"@ + bool_json(
                            outcome_for(old(self).kv, kind->0) == Dispatch::Queued,
                        ) + "}"@,
                    )
                }
            }),
    {
        match plan_signal(body) {
            Err(e) => e,
            Ok(p) => {
                let queued = self.emit(p.kind.as_str(), p.scope, p.payload, not_shed, now_ms);
                reply(join3("{\"ok\":", write_bool(queued).as_str(), "}"))
            },
        }
    }

    /// Sends the reply that a request hands in to the node that waits for it.
    pub fn gw_rpc_respond(&mut self, body: &Vec<u8>, not_shed: bool, now_ms: u64) -> (r: GatewayReply)
        requires
            old(self).wf(),
        ensures
            ({
                let hex = text_at(body@, "/nonce_hex"@);
                let sender = node_at(body@, "/sender"@);
                let result = field_bytes(text_at(body@, "/result_b64"@));
                if hex is None {
                    r@ == bad_request("missing nonce_hex"@) && *final(self) == *old(self)
                } else if parse_hex_spec(hex->0) is None {
                    r@ == bad_request("invalid nonce_hex"@) && *final(self) == *old(self)
                } else if sender is None {
                    r@ == bad_request("missing or invalid sender"@) && *final(self) == *old(self)
                } else if result is None {
                    r@ == bad_request("invalid base64 result"@) && *final(self) == *old(self)
                } else {
                    r@ == good("{\"ok\":true}"@) && emitted(
                        *old(self),
                        *final(self),
                        RPC_RESULT@,
                        ScopeView::Individual(sender->0),
                        with_leading_u64(parse_hex_spec(hex->0)->0, result->0),
                        not_shed,
                        now_ms,
                    )
                }
            }),
    {
        let hex = match read_text(body, "/nonce_hex") {
            Some(s) => s,
            None => {
                return reject("missing nonce_hex");
            },
        };
        let nonce: u64 = match parse_hex_u64(hex.as_str()) {
            Some(n) => n,
            None => {
                return reject("invalid nonce_hex");
            },
        };
        let sender = match read_node(body, "/sender") {
            Some(n) => n,
            None => {
                return reject("missing or invalid sender");
            },
        };
        let field = read_text(body, "/result_b64");
        assert(opt_view(field) == text_at(body@, "/result_b64"@));
        match read_base64(&field) {
            None => reject("invalid base64 result"),
            Some(result) => {
                let payload = frame_with_nonce(nonce, &result);
                let _ = self.reply(&sender, payload, not_shed, now_ms);
                reply("{\"ok\":true}".to_owned())
            },
        }
    }
}

/// The node behind a pointer, `None` where there is no text or it denotes
/// none.
pub open spec fn node_at(body: Seq<u8>, pointer: Seq<char>) -> Option<NodeView> {
    match text_at(body, pointer) {
        Some(s) => denoted(s),
        None => None,
    }
}

/// Reads the node behind a pointer.
pub fn read_node(body: &Vec<u8>, pointer: &str) -> (r: Option<NodeId>)
    ensures
        r is Some <==> node_at(body@, pointer@) is Some,
        r matches Some(n) ==> node_at(body@, pointer@) == Some(n@) && n.wf(),
{
    match read_text(body, pointer) {
        Some(s) => match NodeId::parse(s.as_str()) {
            Ok(n) => {
                proof {
                    lemma_denoted(s@, n@);
                }
                Some(n)
            },
            Err(_) => None,
        },
        None => None,
    }
}

/// What a subscriber to a kind of signals is sent of one.
pub fn signal_event(sender: &NodeId, payload: &Vec<u8>, nonce: u64) -> (s: String)
    ensures
        s@ == "{\"nonce\":"@ + dec_text(nonce as nat) + ",\"payload_b64\":"@ + json_string(
            base64_text(payload@),
        ) + ",\"sender\":"@ + json_string(node_text(sender@)) + "}"@,
{
    let a = join3("{\"nonce\":", dec_string(nonce).as_str(), ",\"payload_b64\":");
    let b = join3(
        a.as_str(),
        json_quote(base64_encode(payload).as_str()).as_str(),
        ",\"sender\":",
    );
    join3(b.as_str(), json_quote(sender.to_text().as_str()).as_str(), "}")
}

/// What an observer of a kind of signals is sent of one.
pub fn observed_event(sender: &NodeId, payload: &Vec<u8>) -> (s: String)
    ensures
        s@ == "{\"payload\":"@ + json_string(base64_text(payload@)) + ",\"sender\":"@ + json_string(
            node_text(sender@),
        ) + "}"@,
{
    let a = join3("{\"payload\":", json_quote(base64_encode(payload).as_str()).as_str(), ",\"sender\":");
    join3(a.as_str(), json_quote(sender.to_text().as_str()).as_str(), "}")
}

/// What a reader of a mailbox is sent of an event.
pub fn mailbox_event(sender: &NodeId, kind: &str, payload: &Vec<u8>) -> (s: String)
    ensures
        s@ == "{\"kind\":"@ + json_string(kind@) + ",\"payload_b64\":"@ + json_string(base64_text(payload@))
            + ",\"sender\":"@ + json_string(node_text(sender@)) + "}"@,
{
    let a = join3("{\"kind\":", json_quote(kind).as_str(), ",\"payload_b64\":");
    let b = join3(a.as_str(), json_quote(base64_encode(payload).as_str()).as_str(), ",\"sender\":");
    join3(b.as_str(), json_quote(sender.to_text().as_str()).as_str(), "}")
}

/// What a server is sent of a request, `None` where it is too short to be one:
/// the nonce by which it replies, the sender and the payload.
pub fn request_event(sender: &NodeId, payload: &Vec<u8>) -> (r: Option<String>)
    ensures
        r is Some <==> payload@.len() >= 8,
        r matches Some(s) ==> s@ == "{\"nonce_hex\":"@ + json_string(
            hex_fixed(leading_u64(payload@)->0 as int, 16),
        ) + ",\"payload_b64\":"@ + json_string(base64_text(payload@.skip(8))) + ",\"sender\":"@ + json_string(
            node_text(sender@),
        ) + "}"@,
{
    let nonce: u64 = match read_leading_u64(payload) {
        Some(n) => n,
        None => {
            return None;
        },
    };
    let rest = behind_leading_u64(payload);
    let a = join3("{\"nonce_hex\":", json_quote(hex16(nonce).as_str()).as_str(), ",\"payload_b64\":");
    let b = join3(a.as_str(), json_quote(base64_encode(&rest).as_str()).as_str(), ",\"sender\":");
    Some(join3(b.as_str(), json_quote(sender.to_text().as_str()).as_str(), "}"))
}

// ── Requests to one node ─────────────────────────────────────────────────────

/// A call of a node that a request asks for.
pub struct CallPlan {
    pub target: NodeId,
    pub method: String,
    pub payload: Vec<u8>,
    pub timeout_secs: u64,
}

/// Reads a request for a call.
pub fn plan_rpc_call(body: &Vec<u8>) -> (r: Result<CallPlan, GatewayReply>)
    ensures
        ({
            let target = text_at(body@, "/target"@);
            let method = text_at(body@, "/method"@);
            let payload = field_bytes(text_at(body@, "/payload_b64"@));
            if target is None {
                r matches Err(e) && e@ == bad_request("missing target"@)
            } else if denoted(target->0) is None {
                r matches Err(e) && e@ == bad_request("invalid target node id"@)
            } else if method is None {
                r matches Err(e) && e@ == bad_request("missing method"@)
            } else if payload is None {
                r matches Err(e) && e@ == bad_request("invalid base64 payload"@)
            } else {
                r matches Ok(p) && Some(p.target@) == denoted(target->0) && p.method@ == method->0 && p.payload@
                    == payload->0 && p.timeout_secs == clamped(
                    number_at(body@, "/timeout_secs"@),
                    30,
                    1,
                    300,
                )
            }
        }),
{
    match read_text(body, "/target") {
        Some(_) => {},
        None => {
            return Err(reject("missing target"));
        },
    }
    let target = match read_node(body, "/target") {
        Some(n) => n,
        None => {
            return Err(reject("invalid target node id"));
        },
    };
    let method = match read_text(body, "/method") {
        Some(m) => m,
        None => {
            return Err(reject("missing method"));
        },
    };
    let field = read_text(body, "/payload_b64");
    assert(opt_view(field) == text_at(body@, "/payload_b64"@));
    match read_base64(&field) {
        None => Err(reject("invalid base64 payload")),
        Some(payload) => Ok(
            CallPlan {
                target,
                method,
                payload,
                timeout_secs: clamp(read_number(body, "/timeout_secs"), 30, 1, 300),
            },
        ),
    }
}

/// Answers a request for a call; `None` means that the node did not reply in
/// time.
pub fn finish_rpc_call(result: &Option<Vec<u8>>) -> (r: GatewayReply)
    ensures
        r@ == (match result {
            Some(v) => good("{\"ok\":true,\"result_b64\":"@ + json_string(base64_text(v@)) + "}"@),
            None => failed(504, "timeout"@),
        }),
{
    match result {
        Some(v) => reply(
            join3("{\"ok\":true,\"result_b64\":", json_quote(base64_encode(v).as_str()).as_str(), "}"),
        ),
        None => fail(504, "timeout"),
    }
}

/// A reliable signal that a request asks for.
pub fn plan_emit_reliable(
    target: &str,
    kind: &str,
    payload_b64: &Option<String>,
    timeout_secs: Option<u64>,
) -> (r: Result<CallPlan, GatewayReply>)
    ensures
        ({
            let payload = field_bytes(opt_view(*payload_b64));
            if denoted(target@) is None {
                r matches Err(e) && e@ == bad_request("invalid target node id"@)
            } else if payload is None {
                r matches Err(e) && e@ == bad_request("invalid base64 payload"@)
            } else {
                r matches Ok(p) && Some(p.target@) == denoted(target@) && p.method@ == kind@ && p.payload@
                    == payload->0 && p.timeout_secs == clamped(timeout_secs, 5, 1, 300)
            }
        }),
{
    let node = match NodeId::parse(target) {
        Ok(n) => {
            proof {
                lemma_denoted(target@, n@);
            }
            n
        },
        Err(_) => {
            return Err(reject("invalid target node id"));
        },
    };
    match read_base64(payload_b64) {
        None => Err(reject("invalid base64 payload")),
        Some(payload) => Ok(
            CallPlan {
                target: node,
                method: kind.to_owned(),
                payload,
                timeout_secs: clamp(timeout_secs, 5, 1, 300),
            },
        ),
    }
}

/// Answers a request for a reliable signal.
pub fn finish_emit_reliable(acknowledged: bool) -> (r: GatewayReply)
    ensures
        r@ == good(
            if acknowledged {
                "{\"ack\":\"acknowledged\"}"@
            } else {
                "{\"ack\":\"timeout\"}"@
            },
        ),
{
    if acknowledged {
        reply("{\"ack\":\"acknowledged\"}".to_owned())
    } else {
        reply("{\"ack\":\"timeout\"}".to_owned())
    }
}

/// An event for a mailbox that a request asks for.
pub struct DeliverPlan {
    pub target: NodeId,
    pub kind: String,
    pub payload: Vec<u8>,
}

/// Reads a request for an event in a mailbox.
pub fn plan_mailbox_deliver(body: &Vec<u8>) -> (r: Result<DeliverPlan, GatewayReply>)
    ensures
        ({
            let target = node_at(body@, "/target"@);
            let kind = text_at(body@, "/kind"@);
            let payload = field_bytes(text_at(body@, "/payload_b64"@));
            if target is None {
                r matches Err(e) && e@ == bad_request("missing or invalid target"@)
            } else if kind is None {
                r matches Err(e) && e@ == bad_request("missing kind"@)
            } else if payload is None {
                r matches Err(e) && e@ == bad_request("invalid base64 payload"@)
            } else {
                r matches Ok(p) && p.target@ == target->0 && p.kind@ == kind->0 && p.payload@ == payload->0
            }
        }),
{
    let target = match read_node(body, "/target") {
        Some(n) => n,
        None => {
            return Err(reject("missing or invalid target"));
        },
    };
    let kind = match read_text(body, "/kind") {
        Some(k) => k,
        None => {
            return Err(reject("missing kind"));
        },
    };
    let field = read_text(body, "/payload_b64");
    assert(opt_view(field) == text_at(body@, "/payload_b64"@));
    match read_base64(&field) {
        None => Err(reject("invalid base64 payload")),
        Some(payload) => Ok(DeliverPlan { target, kind, payload }),
    }
}

// ── Scatter and gather ───────────────────────────────────────────────────────

/// The pointer to the `i`-th item of an array.
pub open spec fn item_pointer(pointer: Seq<char>, i: int) -> Seq<char> {
    pointer + "/"@ + dec_text(i as nat)
}

/// The nodes among the first `n` items of an array; what denotes none is left
/// out.
pub open spec fn nodes_in(body: Seq<u8>, pointer: Seq<char>, n: nat) -> Seq<NodeView>
    decreases n,
{
    if n == 0 {
        Seq::empty()
    } else {
        let front = nodes_in(body, pointer, (n - 1) as nat);
        match node_at(body, item_pointer(pointer, n - 1)) {
            Some(x) => front.push(x),
            None => front,
        }
    }
}

/// A call of many nodes that a request asks for.
pub struct ScatterPlan {
    pub targets: Vec<NodeId>,
    pub method: String,
    pub payload: Vec<u8>,
    pub timeout_secs: u64,
    /// How many replies are enough.
    pub min_ok: u64,
}

/// Reads a request for a call of many nodes.
pub fn plan_scatter(body: &Vec<u8>) -> (r: Result<ScatterPlan, GatewayReply>)
    ensures
        ({
            let count = items_at(body@, "/targets"@);
            let method = text_at(body@, "/method"@);
            let payload = field_bytes(text_at(body@, "/payload_b64"@));
            if count is None {
                r matches Err(e) && e@ == bad_request("missing targets"@)
            } else if method is None {
                r matches Err(e) && e@ == bad_request("missing method"@)
            } else if payload is None {
                r matches Err(e) && e@ == bad_request("invalid base64 payload"@)
            } else {
                r matches Ok(p) && node_views(p.targets@) == nodes_in(body@, "/targets"@, count->0 as nat)
                    && p.method@ == method->0 && p.payload@ == payload->0 && p.timeout_secs == clamped(
                    number_at(body@, "/timeout_secs"@),
                    10,
                    1,
                    300,
                ) && p.min_ok == (match number_at(body@, "/min_ok"@) {
                    Some(n) => n,
                    None => 1,
                })
            }
        }),
{
    let count: usize = match read_items(body, "/targets") {
        Some(n) => n,
        None => {
            return Err(reject("missing targets"));
        },
    };
    let mut targets: Vec<NodeId> = Vec::new();
    let mut i: usize = 0;
    assert(node_views(targets@) =~= Seq::empty());
    while i < count
        invariant
            i <= count,
            node_views(targets@) == nodes_in(body@, "/targets"@, i as nat),
        decreases count - i,
    {
        let pointer = join3("/targets", "/", dec_string(i as u64).as_str());
        match read_node(body, pointer.as_str()) {
            Some(n) => {
                let ghost was = node_views(targets@);
                targets.push(n);
                assert(node_views(targets@) =~= was.push(n@));
            },
            None => {},
        }
        i += 1;
    }
    let method = match read_text(body, "/method") {
        Some(m) => m,
        None => {
            return Err(reject("missing method"));
        },
    };
    let field = read_text(body, "/payload_b64");
    assert(opt_view(field) == text_at(body@, "/payload_b64"@));
    match read_base64(&field) {
        None => Err(reject("invalid base64 payload")),
        Some(payload) => Ok(
            ScatterPlan {
                targets,
                method,
                payload,
                timeout_secs: clamp(read_number(body, "/timeout_secs"), 10, 1, 300),
                min_ok: match read_number(body, "/min_ok") {
                    Some(n) => n,
                    None => 1,
                },
            },
        ),
    }
}

/// The replies that have come, in their order.
pub struct Gather {
    pub min_ok: u64,
    pub replies: Vec<(NodeId, Vec<u8>)>,
}

pub open spec fn gathered(v: Seq<(NodeId, Vec<u8>)>) -> Seq<(NodeView, Seq<u8>)> {
    v.map_values(|p: (NodeId, Vec<u8>)| (p.0@, p.1@))
}

/// One reply inside an answer.
pub open spec fn gathered_json(r: (NodeView, Seq<u8>)) -> Seq<char> {
    "{\"result_b64\":"@ + json_string(base64_text(r.1)) + ",\"sender\":"@ + json_string(node_text(r.0))
        + "}"@
}

/// All replies inside an answer.
pub open spec fn replies_json(v: Seq<(NodeView, Seq<u8>)>) -> Seq<char> {
    "["@ + comma_joined(v.map_values(|r: (NodeView, Seq<u8>)| gathered_json(r))) + "]"@
}

impl Gather {
    /// No replies.
    pub fn new(min_ok: u64) -> (g: Gather)
        ensures
            g.min_ok == min_ok,
            g.replies@.len() == 0,
    {
        Gather { min_ok, replies: Vec::new() }
    }

    /// Takes note of what one node answered; `None` means that it did not. The
    /// result says whether that is enough.
    pub fn receive(&mut self, from: NodeId, reply: Option<Vec<u8>>) -> (enough: bool)
        ensures
            final(self).min_ok == old(self).min_ok,
            gathered(final(self).replies@) == (match reply {
                Some(v) => gathered(old(self).replies@).push((from@, v@)),
                None => gathered(old(self).replies@),
            }),
            enough == (reply is Some && final(self).replies@.len() >= old(self).min_ok),
    {
        match reply {
            Some(v) => {
                let ghost was = self.replies@;
                self.replies.push((from, v));
                assert(gathered(self.replies@) =~= gathered(was).push((from@, v@)));
                self.replies.len() as u64 >= self.min_ok
            },
            None => false,
        }
    }

    /// Answers the request.
    pub fn finish(&self) -> (r: GatewayReply)
        ensures
            r@ == (if self.replies@.len() >= self.min_ok {
                good("{\"ok\":true,\"replies\":"@ + replies_json(gathered(self.replies@)) + "}"@)
            } else {
                (
                    504u16,
                    "{\"error\":\"insufficient replies\",\"ok\":false,\"replies\":"@ + replies_json(
                        gathered(self.replies@),
                    ) + "}"@,
                )
            }),
    {
        let mut out: Vec<String> = Vec::new();
        let mut i: usize = 0;
        while i < self.replies.len()
            invariant
                i <= self.replies@.len(),
                out@.len() == i,
                forall|k: int|
                    0 <= k < i ==> (#[trigger] out@[k])@ == gathered_json(
                        (self.replies@[k].0@, self.replies@[k].1@),
                    ),
            decreases self.replies@.len() - i,
        {
            let a = join3(
                "{\"result_b64\":",
                json_quote(base64_encode(&self.replies[i].1).as_str()).as_str(),
                ",\"sender\":",
            );
            out.push(
                join3(a.as_str(), json_quote(self.replies[i].0.to_text().as_str()).as_str(), "}"),
            );
            i += 1;
        }
        assert(views(out@) =~= gathered(self.replies@).map_values(
            |r: (NodeView, Seq<u8>)| gathered_json(r),
        ));
        let list = join3("[", join_commas(&out).as_str(), "]");
        if self.replies.len() as u64 >= self.min_ok {
            reply(join3("{\"ok\":true,\"replies\":", list.as_str(), "}"))
        } else {
            GatewayReply {
                status: 504,
                body: join3(
                    "{\"error\":\"insufficient replies\",\"ok\":false,\"replies\":",
                    list.as_str(),
                    "}",
                ),
            }
        }
    }
}

// ── The table ────────────────────────────────────────────────────────────────

/// The answer to a read: the value, or that there is none.
pub open spec fn value_json(v: Option<Seq<u8>>) -> Seq<char> {
    match v {
        Some(b) => "{\"found\":true,\"value_b64\":"@ + json_string(base64_text(b)) + "}"@,
        None => "{\"found\":false}"@,
    }
}

pub(crate) fn write_value(v: &Option<Vec<u8>>) -> (s: String)
    ensures
        s@ == value_json(
            match v {
                Some(b) => Some(b@),
                None => None,
            },
        ),
{
    match v {
        Some(b) => join3(
            "{\"found\":true,\"value_b64\":",
            json_quote(base64_encode(b).as_str()).as_str(),
            "}",
        ),
        None => "{\"found\":false}".to_owned(),
    }
}

impl KvHandle {
    /// Answers a request for a value.
    pub fn gw_kv_get(&self, key: &str) -> (r: GatewayReply)
        ensures
            r@ == good(value_json(live(self.table(), key@))),
    {
        let v = self.get(key);
        reply(write_value(&v))
    }

    /// Writes the value that a request hands in.
    pub fn gw_kv_set(&mut self, body: &Vec<u8>, now_ms: u64) -> (r: GatewayReply)
        requires
            old(self).wf(),
            old(self).clock < u64::MAX,
        ensures
            ({
                let key = text_at(body@, "/key"@);
                let value = field_bytes(text_at(body@, "/value_b64"@));
                if key is None {
                    r@ == bad_request("missing key"@) && *final(self) == *old(self)
                } else if value is None {
                    r@ == bad_request("invalid base64"@) && *final(self) == *old(self)
                } else {
                    r@ == good("{\"ok\":true}"@) && wrote(
                        *old(self),
                        *final(self),
                        key->0,
                        Some(value->0),
                        now_ms,
                        outcome_for(*old(self), key->0),
                    )
                }
            }),
    {
        let key = match read_text(body, "/key") {
            Some(k) => k,
            None => {
                return reject("missing key");
            },
        };
        let field = read_text(body, "/value_b64");
        assert(opt_view(field) == text_at(body@, "/value_b64"@));
        match read_base64(&field) {
            None => reject("invalid base64"),
            Some(value) => {
                let _ = self.set(key.as_str(), value, now_ms);
                reply("{\"ok\":true}".to_owned())
            },
        }
    }

    /// Deletes the key that a request names.
    pub fn gw_kv_delete(&mut self, key: &str, now_ms: u64) -> (r: GatewayReply)
        requires
            old(self).wf(),
            old(self).clock < u64::MAX,
        ensures
            r@ == good("{\"ok\":true}"@),
            wrote(*old(self), *final(self), key@, None, now_ms, outcome_for(*old(self), key@)),
    {
        let _ = self.delete(key, now_ms);
        reply("{\"ok\":true}".to_owned())
    }

    /// Answers a request for the keys, those that begin with `prefix` where
    /// one is given.
    pub fn gw_kv_keys(&self, prefix: &Option<String>) -> (r: GatewayReply)
        ensures
            exists|keys: Seq<String>|
                #[trigger] crate::textset::lists_set(
                    keys,
                    live_under(self.table(), opt_view(*prefix)),
                ) && r@ == good("{\"keys\":["@ + comma_joined(quoted(views(keys))) + "]}"@),
    {
        let mut keys: Vec<String> = Vec::new();
        let p = match prefix {
            Some(s) => s.clone(),
            None => "".to_owned(),
        };
        let found = self.scan_prefix_with_ts(p.as_str());
        let mut i: usize = 0;
        while i < found.len()
            invariant
                i <= found.len(),
                keys@.len() == i,
                forall|k: int| 0 <= k < i ==> (#[trigger] keys@[k])@ == found@[k].0@,
            decreases found.len() - i,
        {
            keys.push(found[i].0.clone());
            i += 1;
        }
        let mut out: Vec<String> = Vec::new();
        let mut j: usize = 0;
        while j < keys.len()
            invariant
                j <= keys.len(),
                out@.len() == j,
                forall|k: int| 0 <= k < j ==> (#[trigger] out@[k])@ == json_string(keys@[k]@),
            decreases keys.len() - j,
        {
            out.push(json_quote(keys[j].as_str()));
            j += 1;
        }
        proof {
            let s = live_under(self.table(), opt_view(*prefix));
            reveal_strlit("");
            assert forall|k: Seq<char>| #[trigger] s.contains(k) <==> has_prefix(k, p@) && live(
                self.table(),
                k,
            ) is Some by {
                if prefix is None {
                    assert(k.take(0) =~= p@);
                }
            }
            assert forall|k: Seq<char>| #[trigger] s.contains(k) implies exists|j: int|
                0 <= j < keys@.len() && (#[trigger] keys@[j])@ == k by {
                assert(live(self.table(), k) is Some);
                let a = choose|a: int| 0 <= a < found@.len() && #[trigger] found@[a].0@ == k;
                assert(keys@[a]@ == k);
            }
            assert forall|j: int| 0 <= j < keys@.len() implies s.contains((#[trigger] keys@[j])@) by {
                assert(keys@[j]@ == found@[j].0@);
            }
            assert forall|j: int, k: int| 0 <= j < k < keys@.len() implies (#[trigger] keys@[j])@ != (
            #[trigger] keys@[k])@ by {
                assert(found@[j].0@ != found@[k].0@);
            }
            assert(views(out@) =~= quoted(views(keys@)));
            assert(crate::textset::lists_set(keys@, s));
        }
        reply(join3("{\"keys\":[", join_commas(&out).as_str(), "]}"))
    }
}

/// The live keys, those that begin with `prefix` where one is given.
pub open spec fn live_under(t: Table, prefix: Option<Seq<char>>) -> Set<Seq<char>> {
    Set::new(
        |k: Seq<char>| live(t, k) is Some && (prefix matches Some(p) ==> has_prefix(k, p)),
    )
}

/// Each text as a JSON string.
pub open spec fn quoted(v: Seq<Seq<char>>) -> Seq<Seq<char>> {
    v.map_values(|s: Seq<char>| json_string(s))
}

/// What becomes of a request for a write that peers confirm.
pub enum QuorumStep {
    Answer(GatewayReply),
    /// The write is done; [`finish_kv_quorum`] answers once the tracker has
    /// enough confirmations or the time is up.
    Wait(QuorumAckTracker),
}

impl KvHandle {
    /// Writes the value that a request hands in, and answers at once where it
    /// asks for no confirmation.
    pub fn gw_kv_quorum(&mut self, key: &str, value_b64: &str, min_acks: usize, now_ms: u64) -> (r: QuorumStep)
        requires
            old(self).wf(),
            old(self).clock < u64::MAX,
            hlc_next(old(self).clock, now_ms) < u64::MAX,
        ensures
            match base64_bytes(value_b64@) {
                None => r matches QuorumStep::Answer(e) && e@ == bad_request("invalid base64"@) && *final(self)
                    == *old(self),
                Some(value) => if min_acks == 0 {
                    r matches QuorumStep::Answer(a) && a@ == good("{\"acks_received\":0,\"ok\":true}"@) && wrote(
                        *old(self),
                        *final(self),
                        key@,
                        Some(value),
                        now_ms,
                        outcome_for(*old(self), key@),
                    )
                } else {
                    r matches QuorumStep::Wait(t) && t.acked() == Set::<u64>::empty() && t.write_ts == hlc_next(
                        old(self).clock,
                        now_ms,
                    ) && t.self_hash == id_hash(old(self).node_id@) && wrote(
                        (KvHandle { clock: t.write_ts, ..*old(self) }),
                        *final(self),
                        key@,
                        Some(value),
                        now_ms,
                        outcome_for(*old(self), key@),
                    )
                },
            },
    {
        match base64_decode(value_b64) {
            None => QuorumStep::Answer(reject("invalid base64")),
            Some(value) => match self.set_with_min_acks(key, value, min_acks, now_ms) {
                None => QuorumStep::Answer(reply("{\"acks_received\":0,\"ok\":true}".to_owned())),
                Some(t) => QuorumStep::Wait(t),
            },
        }
    }
}

/// Answers a request for a write that peers confirm.
pub fn finish_kv_quorum(result: &Result<usize, QuorumError>) -> (r: GatewayReply)
    ensures
        r@ == good(
            match result {
                Ok(n) => "{\"acks_received\":"@ + dec_text(*n as nat) + ",\"ok\":true}"@,
                Err(e) => "{\"acks_received\":"@ + dec_text(e->acks_received as nat)
                    + ",\"error\":\"timeout\",\"ok\":false}"@,
            },
        ),
{
    match result {
        Ok(n) => reply(join3("{\"acks_received\":", dec_string(*n as u64).as_str(), ",\"ok\":true}")),
        Err(QuorumError::Timeout { acks_received }) => reply(
            join3(
                "{\"acks_received\":",
                dec_string(*acks_received as u64).as_str(),
                ",\"error\":\"timeout\",\"ok\":false}",
            ),
        ),
    }
}

/// A value between the bounds is kept, one outside is replaced by the nearer bound.
pub proof fn law_clamped_to_the_bounds(n: u64, otherwise: u64, low: u64, high: u64)
    requires
        low <= high,
    ensures
        low <= n <= high ==> clamped(Some(n), otherwise, low, high) == n,
        n < low ==> clamped(Some(n), otherwise, low, high) == low,
        n > high ==> clamped(Some(n), otherwise, low, high) == high,
        clamped(None, otherwise, low, high) == clamped(Some(otherwise), n, low, high),
{
}

/// `group:` and `node:` name a group and a node; everything else is the whole mesh.
pub proof fn law_scope_names_what_follows_the_colon(s: Seq<char>, n: NodeView)
    requires
        crate::node_id::valid_host(n.host),
    ensures
        scope_in("group:"@ + s) == Some(ScopeView::Group(s)),
        scope_in("node:"@ + node_text(n)) == Some(ScopeView::Individual(n)),
        denoted(s) is None ==> scope_in("node:"@ + s) is None,
        !has_prefix(s, "group:"@) && !has_prefix(s, "node:"@) ==> scope_in(s) == Some(ScopeView::System),
{
    reveal_strlit("system");
    reveal_strlit("group:");
    reveal_strlit("node:");
    let g = "group:"@ + s;
    assert(g[0] == 'g');
    assert("system"@[0] == 's');
    assert(g.take("group:"@.len() as int) =~= "group:"@);
    assert(behind(g, "group:"@) =~= s);
    crate::node_id::law_node_text_round_trip(n);
    lemma_denoted(node_text(n), n);
    lemma_node_scope(node_text(n));
    lemma_node_scope(s);
}

proof fn lemma_node_scope(s: Seq<char>)
    ensures
        scope_in("node:"@ + s) == (match denoted(s) {
            Some(n) => Some(ScopeView::Individual(n)),
            None => None,
        }),
{
    reveal_strlit("system");
    reveal_strlit("group:");
    reveal_strlit("node:");
    let t = "node:"@ + s;
    assert(t[0] == 'n');
    assert("system"@[0] == 's');
    if has_prefix(t, "group:"@) {
        assert(t.take("group:"@.len() as int)[0] == 'g');
    }
    assert(t.take("node:"@.len() as int) =~= "node:"@);
    assert(behind(t, "node:"@) =~= s);
}

/// A listing of keys holds the live keys under the prefix, all of them if there is
/// none.
pub proof fn law_listed_keys_are_live(t: Table, prefix: Seq<char>, rest: Seq<char>, k: Seq<char>)
    ensures
        live_under(t, None).contains(k) <==> live(t, k) is Some,
        live_under(t, Some(prefix)).contains(prefix + rest) <==> live(t, prefix + rest) is Some,
        live_under(t, Some(prefix)).contains(k) ==> live(t, k) is Some && k == prefix + k.skip(prefix.len() as int),
{
    assert((prefix + rest).take(prefix.len() as int) =~= prefix);
    if has_prefix(k, prefix) {
        assert(k =~= prefix + k.skip(prefix.len() as int));
    }
}

/// A list of nodes holds those items that denote one, and no others.
pub proof fn law_listed_nodes_are_denoted(body: Seq<u8>, pointer: Seq<char>, n: nat, x: NodeView)
    ensures
        nodes_in(body, pointer, n).contains(x) <==> exists|i: int|
            0 <= i < n && #[trigger] node_at(body, pointer + "/"@ + dec_text(i as nat)) == Some(x),
        nodes_in(body, pointer, n).len() <= n,
    decreases n,
{
    if n > 0 {
        let m = (n - 1) as nat;
        law_listed_nodes_are_denoted(body, pointer, m, x);
        let front = nodes_in(body, pointer, m);
        let all = nodes_in(body, pointer, n);
        let last = node_at(body, pointer + "/"@ + dec_text(m));
        if front.contains(x) {
            let i = choose|i: int| 0 <= i < front.len() && front[i] == x;
            assert(all[i] == x);
        }
        if last == Some(x) {
            assert(all[front.len() as int] == x);
        }
        if all.contains(x) && !front.contains(x) {
            let i = choose|i: int| 0 <= i < all.len() && all[i] == x;
            if i < front.len() {
                assert(front[i] == x);
            }
            assert(node_at(body, pointer + "/"@ + dec_text(m as int as nat)) == Some(x));
        }
        if exists|i: int| 0 <= i < n && #[trigger] node_at(body, pointer + "/"@ + dec_text(i as nat)) == Some(x) {
            let i = choose|i: int|
                0 <= i < n && #[trigger] node_at(body, pointer + "/"@ + dec_text(i as nat)) == Some(x);
            if i == m {
                assert(last == Some(x));
            }
        }
    }
}

/// What went well is answered with 200, what was asked wrongly with 400, and a failure
/// with the status that it has.
pub proof fn law_status_tells_how_it_went(body: Seq<char>, status: u16)
    ensures
        good(body).0 == 200 && good(body).1 == body,
        bad_request(body).0 == 400,
        failed(status, body).0 == status,
{
}

} // verus!
