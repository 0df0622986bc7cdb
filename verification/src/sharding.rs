//! Spreading keys over the providers of a capability: every node that knows
//! the same providers finds the same owner for a key.

use crate::audit::{sha256, sha256_of};
use crate::capability::Capability;
use crate::evidence::{leading_u64, read_leading_u64};
use crate::gateway::{
    bad_request, field_bytes, good, opt_view, read_base64, reject, reply, GatewayReply,
};
use crate::json::{json_quote, json_string, read_text, text_at};
use crate::mesh::{emitted, MeshHandle};
use crate::node_id::{law_node_text_injective, node_text, valid_host, NodeId, NodeView};
use crate::text::{join3, lemma_lt_irreflexive, lemma_lt_total, lemma_lt_transitive, text_before, text_lt};
use crate::wire::{ScopeView, SignalScope};
use vstd::prelude::*;
use vstd::string::StrSliceExecFns;
use vstd::utf8::encode_utf8;

verus! {

/// The weight of `node` for `key`: the head of a digest of both.
pub open spec fn weight(key: Seq<char>, node: NodeView) -> u64 {
    match leading_u64(sha256(encode_utf8(key + "@"@ + node_text(node)))) {
        Some(n) => n,
        None => 0,
    }
}

/// Whether `a` comes before `b` for `key`: by a higher weight, and among
/// equals by its text.
pub open spec fn outranks(key: Seq<char>, a: NodeView, b: NodeView) -> bool {
    weight(key, a) > weight(key, b) || (weight(key, a) == weight(key, b) && text_lt(
        node_text(a),
        node_text(b),
    ))
}

/// `n` is the node among `all` that no other comes before.
pub open spec fn owns(key: Seq<char>, all: Set<NodeView>, n: NodeView) -> bool {
    all.contains(n) && forall|m: NodeView| #[trigger] all.contains(m) ==> !outranks(key, m, n)
}

/// The nodes of the providers.
pub open spec fn provider_set(v: Seq<(NodeId, Capability)>) -> Set<NodeView> {
    v.map_values(|p: (NodeId, Capability)| p.0@).to_set()
}

fn node_weight(key: &str, node: &NodeId) -> (w: u64)
    ensures
        w == weight(key@, node@),
{
    let text = join3(key, "@", node.to_text().as_str());
    let digest = sha256_of(&text.as_str().as_bytes_vec());
    let mut bytes: Vec<u8> = Vec::new();
    let mut i: usize = 0;
    while i < 32
        invariant
            i <= 32,
            bytes@ == digest@.take(i as int),
        decreases 32 - i,
    {
        bytes.push(digest[i]);
        assert(bytes@ =~= digest@.take(i + 1));
        i += 1;
    }
    assert(bytes@ =~= digest@);
    match read_leading_u64(&bytes) {
        Some(n) => n,
        None => 0,
    }
}

/// The provider that owns `key`, `None` where there is no provider.
pub fn shard_owner(key: &str, providers: &Vec<(NodeId, Capability)>) -> (r: Option<NodeId>)
    ensures
        r is None <==> providers@.len() == 0,
        r matches Some(n) ==> owns(key@, provider_set(providers@), n@),
{
    if providers.len() == 0 {
        return None;
    }
    let ghost w = providers@.map_values(|p: (NodeId, Capability)| p.0@);
    let mut best: usize = 0;
    let mut i: usize = 1;
    proof {
        lemma_lt_irreflexive(node_text(w[0]));
    }
    while i < providers.len()
        invariant
            1 <= i <= providers.len(),
            best < i,
            w == providers@.map_values(|p: (NodeId, Capability)| p.0@),
            forall|k: int| 0 <= k < i ==> !outranks(key@, #[trigger] w[k], w[best as int]),
        decreases providers.len() - i,
    {
        let wi: u64 = node_weight(key, &providers[i].0);
        let wb: u64 = node_weight(key, &providers[best].0);
        assert(w[i as int] == providers@[i as int].0@ && w[best as int] == providers@[best as int].0@);
        let ghost was = best as int;
        if wi > wb || (wi == wb && text_before(
            providers[i].0.to_text().as_str(),
            providers[best].0.to_text().as_str(),
        )) {
            best = i;
            proof {
                assert forall|k: int| 0 <= k < i + 1 implies !outranks(key@, #[trigger] w[k], w[i as int]) by {
                    if k < i && outranks(key@, w[k], w[i as int]) {
                        lemma_outranks_transitive(key@, w[k], w[i as int], w[was]);
                    }
                    lemma_lt_irreflexive(node_text(w[i as int]));
                }
            }
        }
        i += 1;
    }
    proof {
        assert(w.to_set().contains(w[best as int]));
        assert forall|m: NodeView| #[trigger] provider_set(providers@).contains(m) implies !outranks(
            key@,
            m,
            w[best as int],
        ) by {
            let k = choose|k: int| 0 <= k < w.len() && w[k] == m;
            assert(!outranks(key@, w[k], w[best as int]));
        }
    }
    Some(providers[best].0.copy())
}

proof fn lemma_outranks_transitive(key: Seq<char>, a: NodeView, b: NodeView, c: NodeView)
    requires
        outranks(key, a, b),
        outranks(key, b, c),
    ensures
        outranks(key, a, c),
{
    if weight(key, a) == weight(key, b) && weight(key, b) == weight(key, c) {
        lemma_lt_transitive(node_text(a), node_text(b), node_text(c));
    }
}

/// Nodes that know the same providers find the same owner for a key.
pub proof fn law_owner_is_unique(key: Seq<char>, all: Set<NodeView>, m: NodeView, n: NodeView)
    requires
        owns(key, all, m),
        owns(key, all, n),
        valid_host(m.host),
        valid_host(n.host),
    ensures
        m == n,
{
    assert(all.contains(m) && all.contains(n));
    lemma_lt_total(node_text(m), node_text(n));
    if node_text(m) == node_text(n) {
        law_node_text_injective(m, n);
    }
}

/// A key keeps its owner when another provider goes.
pub proof fn law_owner_stays(key: Seq<char>, all: Set<NodeView>, owner: NodeView, gone: NodeView)
    requires
        owns(key, all, owner),
        gone != owner,
    ensures
        owns(key, all.remove(gone), owner),
{
}

/// A key changes its owner only to a provider that came.
pub proof fn law_owner_moves_to_newcomer(
    key: Seq<char>,
    all: Set<NodeView>,
    owner: NodeView,
    came: NodeView,
    next: NodeView,
)
    requires
        owns(key, all, owner),
        owns(key, all.insert(came), next),
        valid_host(owner.host),
        valid_host(next.host),
    ensures
        next == owner || next == came,
{
    if next != came {
        assert(all.contains(next));
        assert(all.insert(came).contains(owner));
        assert(owns(key, all, next)) by {
            assert forall|m: NodeView| #[trigger] all.contains(m) implies !outranks(key, m, next) by {
                assert(all.insert(came).contains(m));
            }
        }
        law_owner_is_unique(key, all, owner, next);
    }
}

// ── Gateway ──────────────────────────────────────────────────────────────────

/// Answers a request for the owner of a key.
pub fn report_owner(owner: &Option<NodeId>) -> (r: GatewayReply)
    ensures
        r@ == (match owner {
            Some(n) => good("{\"owner\":"@ + json_string(node_text(n@)) + "}"@),
            None => (404u16, "{\"error\":\"no providers\"}"@),
        }),
{
    match owner {
        Some(n) => reply(join3("{\"owner\":", json_quote(n.to_text().as_str()).as_str(), "}")),
        None => GatewayReply { status: 404, body: "{\"error\":\"no providers\"}".to_owned() },
    }
}

/// A signal for the owner of a key.
#[derive(Debug, Clone, PartialEq, Eq)]
pub struct ShardPlan {
    pub kind: String,
    pub ns: String,
    pub name: String,
    pub shard_key: String,
    pub payload: Vec<u8>,
}

/// Reads a request for a signal to the owner of a key.
pub fn plan_shard_emit(body: &Vec<u8>) -> (r: Result<ShardPlan, GatewayReply>)
    ensures
        ({
            let kind = text_at(body@, "/kind"@);
            let ns = text_at(body@, "/ns"@);
            let name = text_at(body@, "/name"@);
            let key = text_at(body@, "/shard_key"@);
            let payload = field_bytes(text_at(body@, "/payload_b64"@));
            if kind is None {
                r matches Err(e) && e@ == bad_request("missing kind"@)
            } else if ns is None {
                r matches Err(e) && e@ == bad_request("missing ns"@)
            } else if name is None {
                r matches Err(e) && e@ == bad_request("missing name"@)
            } else if key is None {
                r matches Err(e) && e@ == bad_request("missing shard_key"@)
            } else if payload is None {
                r matches Err(e) && e@ == bad_request("invalid base64"@)
            } else {
                r matches Ok(p) && p.kind@ == kind->0 && p.ns@ == ns->0 && p.name@ == name->0 && p.shard_key@
                    == key->0 && p.payload@ == payload->0
            }
        }),
{
    let kind = match read_text(body, "/kind") {
        Some(k) => k,
        None => {
            return Err(reject("missing kind"));
        },
    };
    let ns = match read_text(body, "/ns") {
        Some(k) => k,
        None => {
            return Err(reject("missing ns"));
        },
    };
    let name = match read_text(body, "/name") {
        Some(k) => k,
        None => {
            return Err(reject("missing name"));
        },
    };
    let shard_key = match read_text(body, "/shard_key") {
        Some(k) => k,
        None => {
            return Err(reject("missing shard_key"));
        },
    };
    let field = read_text(body, "/payload_b64");
    assert(opt_view(field) == text_at(body@, "/payload_b64"@));
    match read_base64(&field) {
        Some(payload) => Ok(ShardPlan { kind, ns, name, shard_key, payload }),
        None => Err(reject("invalid base64")),
    }
}

impl MeshHandle {
    /// Sends the signal of `plan` to the owner of its key among `providers`.
    pub fn emit_sharded(
        &mut self,
        plan: ShardPlan,
        providers: &Vec<(NodeId, Capability)>,
        not_shed: bool,
        now_ms: u64,
    ) -> (r: GatewayReply)
        requires
            old(self).wf(),
        ensures
            providers@.len() == 0 ==> *final(self) == *old(self) && r@ == (
                404u16,
                "{\"error\":\"no providers\",\"ok\":false}"@,
            ),
            providers@.len() > 0 ==> exists|owner: NodeView|
                #[trigger] owns(plan.shard_key@, provider_set(providers@), owner) && emitted(
                    *old(self),
                    *final(self),
                    plan.kind@,
                    ScopeView::Individual(owner),
                    plan.payload@,
                    not_shed,
                    now_ms,
                ) && r@ == good("{\"ok\":true,\"owner\":"@ + json_string(node_text(owner)) + "}"@),
    {
        match shard_owner(plan.shard_key.as_str(), providers) {
            None => GatewayReply { status: 404, body: "{\"error\":\"no providers\",\"ok\":false}".to_owned() },
            Some(owner) => {
                let text = json_quote(owner.to_text().as_str());
                let _ = self.emit(
                    plan.kind.as_str(),
                    SignalScope::Individual(owner),
                    plan.payload,
                    not_shed,
                    now_ms,
                );
                reply(join3("{\"ok\":true,\"owner\":", text.as_str(), "}"))
            },
        }
    }
}

/// The owner of a key has the greatest weight for it; of several with the same weight
/// the one whose text comes first.
pub proof fn law_owner_has_the_greatest_weight(key: Seq<char>, all: Set<NodeView>, n: NodeView, m: NodeView)
    requires
        owns(key, all, n),
        all.contains(m),
    ensures
        all.contains(n),
        weight(key, m) <= weight(key, n),
        weight(key, m) == weight(key, n) ==> !text_lt(node_text(m), node_text(n)),
{
    assert(!outranks(key, m, n));
}

/// Of two nodes exactly one outranks the other.
pub proof fn law_one_of_two_outranks(key: Seq<char>, a: NodeView, b: NodeView)
    requires
        valid_host(a.host),
        valid_host(b.host),
        a != b,
    ensures
        outranks(key, a, b) <==> !outranks(key, b, a),
        !outranks(key, a, a),
{
    lemma_lt_irreflexive(node_text(a));
    lemma_lt_total(node_text(a), node_text(b));
    if node_text(a) == node_text(b) {
        law_node_text_injective(a, b);
    }
    if text_lt(node_text(a), node_text(b)) && text_lt(node_text(b), node_text(a)) {
        lemma_lt_transitive(node_text(a), node_text(b), node_text(a));
    }
}

} // verus!
