//! The gateway above the table and the mesh: capabilities, demand, the
//! consistent overlays, logs, skills and the audit trail.

use crate::capability::{
    attr_views, is_cap_locality_key, locality_key, matches_cap, CapFilter, CapValue, CapValueView, Capability,
    FilterView,
};
use crate::capcodec::{cap_in, filter_parts};
use crate::consensus::{compute_quorum_size, quorum_size, ConsensusHandle, ConsensusResult};
use crate::fleet::peer_count;
use crate::gateway::{
    bad_request, base64_encode, base64_text, failed, field_bytes, fail, good, item_pointer, live_under,
    opt_view,
    read_base64, reject, reply, value_json, write_value, GatewayReply, ReplyView,
};
use crate::groups::{group_prefix_text, grp_prefix};
use crate::json::{
    comma_joined, is_json, items_at, join_commas, json_members, json_members_at, json_or, json_quote,
    json_string, json_value_at, member_views, number_at, read_items, read_json_or, read_number, read_text,
    read_text_or_empty, text_at, text_or_empty, JsonMember, MemberView,
};
use crate::kv::{outcome_for, wrote, KvHandle};
use crate::llm::{invoke_json, write_invoke};
use crate::log::{log_views, LogEntry, LogView};
use crate::node_id::{node_text, NodeId, NodeView};
use crate::resolve::{first_provider, listed_provider};
use crate::scan::{
    lemma_listing_count, lemma_pick, lemma_picked_all, lemma_skip, picked, reading_keys, Reading,
};
use crate::store::{live, Table};
use crate::text::{
    dec_string, dec_text, hex2, hex_fixed, join2, join3, same_text, views,
};
use vstd::prelude::*;
use vstd::string::StrSliceExecFns;
use vstd::utf8::encode_utf8;

verus! {

// ── Demand ───────────────────────────────────────────────────────────────────

/// An entry under `cap/` advertises what `filter` asks for.
pub open spec fn offer_reading(filter: FilterView) -> Reading<bool> {
    |k: Seq<char>, v: Seq<u8>, ts: u64|
        if !locality_key(k) && cap_in(v) is Some && matches_cap(filter, cap_in(v)->0) {
            Some(true)
        } else {
            None
        }
}

/// An entry under `req/` asks for what `filter` asks for.
pub open spec fn ask_reading(filter: FilterView) -> Reading<bool> {
    |k: Seq<char>, v: Seq<u8>, ts: u64|
        if filter_parts(v) is Some && (filter_parts(v)->0).0 == filter.namespace && (filter_parts(v)->0).1
            == filter.name {
            Some(true)
        } else {
            None
        }
}

fn count_offers(kv: &KvHandle, filter: &CapFilter) -> (n: usize)
    ensures
        reading_keys(kv.table(), "cap/"@, offer_reading(filter@)).finite(),
        n == reading_keys(kv.table(), "cap/"@, offer_reading(filter@)).len(),
{
    let found = kv.scan_prefix_with_ts("cap/");
    let ghost f = offer_reading(filter@);
    let ghost mut src: Seq<int> = Seq::empty();
    let ghost mut out: Seq<bool> = Seq::empty();
    let mut n: usize = 0;
    let mut i: usize = 0;
    while i < found.len()
        invariant
            i <= found.len(),
            n <= i,
            n == out.len(),
            f == offer_reading(filter@),
            picked(found@, i as int, src, out, f),
        decreases found.len() - i,
    {
        let hit = if is_cap_locality_key(found[i].0.as_str()) {
            false
        } else {
            match Capability::decode(&found[i].1) {
                Some(c) => filter.matches(&c),
                None => false,
            }
        };
        if hit {
            n += 1;
            proof {
                lemma_pick(found@, i as int, src, out, f, true);
                src = src.push(i as int);
                out = out.push(true);
            }
        } else {
            proof {
                lemma_skip(found@, i as int, src, out, f);
            }
        }
        i += 1;
    }
    proof {
        lemma_picked_all(found@, kv.table(), "cap/"@, src, out, f);
        lemma_listing_count(out, kv.table(), "cap/"@, f);
    }
    n
}

fn count_asks(kv: &KvHandle, filter: &CapFilter) -> (n: usize)
    ensures
        reading_keys(kv.table(), "req/"@, ask_reading(filter@)).finite(),
        n == reading_keys(kv.table(), "req/"@, ask_reading(filter@)).len(),
{
    let found = kv.scan_prefix_with_ts("req/");
    let ghost f = ask_reading(filter@);
    let ghost mut src: Seq<int> = Seq::empty();
    let ghost mut out: Seq<bool> = Seq::empty();
    let mut n: usize = 0;
    let mut i: usize = 0;
    while i < found.len()
        invariant
            i <= found.len(),
            n <= i,
            n == out.len(),
            f == ask_reading(filter@),
            picked(found@, i as int, src, out, f),
        decreases found.len() - i,
    {
        let hit = match CapFilter::decode(&found[i].1) {
            Some(q) => same_text(q.namespace.as_str(), filter.namespace.as_str()) && same_text(
                q.name.as_str(),
                filter.name.as_str(),
            ),
            None => false,
        };
        if hit {
            n += 1;
            proof {
                lemma_pick(found@, i as int, src, out, f, true);
                src = src.push(i as int);
                out = out.push(true);
            }
        } else {
            proof {
                lemma_skip(found@, i as int, src, out, f);
            }
        }
        i += 1;
    }
    proof {
        lemma_picked_all(found@, kv.table(), "req/"@, src, out, f);
        lemma_listing_count(out, kv.table(), "req/"@, f);
    }
    n
}

/// How many entries offer `ns/name` and how many ask for it, whatever their
/// age.
pub fn gw_demand(kv: &KvHandle, ns: &str, name: &str) -> (r: (usize, usize))
    ensures
        r.0 == reading_keys(
            kv.table(),
            "cap/"@,
            offer_reading((FilterView { namespace: ns@, name: name@, max_age_ms: None })),
        ).len(),
        r.1 == reading_keys(
            kv.table(),
            "req/"@,
            ask_reading((FilterView { namespace: ns@, name: name@, max_age_ms: None })),
        ).len(),
{
    let filter = CapFilter::new(ns, name);
    (count_offers(kv, &filter), count_asks(kv, &filter))
}

// ── Capabilities ─────────────────────────────────────────────────────────────

/// The strings among the first `n` items of an array.
pub open spec fn texts_in(body: Seq<u8>, pointer: Seq<char>, n: nat) -> Seq<Seq<char>>
    decreases n,
{
    if n == 0 {
        Seq::empty()
    } else {
        let front = texts_in(body, pointer, (n - 1) as nat);
        match text_at(body, item_pointer(pointer, n - 1)) {
            Some(s) => front.push(s),
            None => front,
        }
    }
}

fn read_texts(body: &Vec<u8>, pointer: &str, n: usize) -> (r: Vec<String>)
    ensures
        views(r@) == texts_in(body@, pointer@, n as nat),
{
    let mut out: Vec<String> = Vec::new();
    let mut i: usize = 0;
    assert(views(out@) =~= Seq::empty());
    while i < n
        invariant
            i <= n,
            views(out@) == texts_in(body@, pointer@, i as nat),
        decreases n - i,
    {
        let at = join3(pointer, "/", dec_string(i as u64).as_str());
        match read_text(body, at.as_str()) {
            Some(s) => {
                let ghost was = views(out@);
                out.push(s);
                assert(views(out@) =~= was.push(s@));
            },
            None => {},
        }
        i += 1;
    }
    out
}

/// The value of an attribute that a member of a request gives: a text, a truth
/// value, an integer, or else a floating-point number; nothing for other members.
pub open spec fn attribute_of(m: MemberView) -> Option<CapValueView> {
    if m.text is Some {
        Some(CapValueView::Text(m.text->0))
    } else if m.truth is Some {
        Some(CapValueView::Bool(m.truth->0))
    } else if m.integer is Some {
        Some(CapValueView::Integer(m.integer->0))
    } else if m.float_bits is Some {
        Some(CapValueView::FloatBits(m.float_bits->0))
    } else {
        None
    }
}

/// The attributes that the members of a request give, in their order.
pub open spec fn attributes_in(members: Seq<MemberView>) -> Seq<(Seq<char>, CapValueView)>
    decreases members.len(),
{
    if members.len() == 0 {
        Seq::empty()
    } else {
        let front = attributes_in(members.drop_last());
        match attribute_of(members.last()) {
            Some(v) => front.push((members.last().name, v)),
            None => front,
        }
    }
}

fn read_attribute(m: &JsonMember) -> (r: Option<CapValue>)
    ensures
        r is Some <==> attribute_of(m@) is Some,
        r matches Some(v) ==> attribute_of(m@) == Some(v@),
{
    match &m.text {
        Some(s) => {
            return Some(CapValue::Text(s.clone()));
        },
        None => {},
    }
    match (m.truth, m.integer, m.float_bits) {
        (Some(b), _, _) => Some(CapValue::Bool(b)),
        (None, Some(i), _) => Some(CapValue::Integer(i)),
        (None, None, Some(bits)) => Some(CapValue::FloatBits(bits)),
        (None, None, None) => None,
    }
}

/// The attributes that the members of a request give.
pub fn attributes_of(members: &Vec<JsonMember>) -> (r: Vec<(String, CapValue)>)
    ensures
        attr_views(r@) == attributes_in(member_views(members@)),
{
    let ghost all = member_views(members@);
    let mut out: Vec<(String, CapValue)> = Vec::new();
    let mut i: usize = 0;
    assert(all.take(0) =~= Seq::empty());
    assert(attr_views(out@) =~= Seq::empty());
    while i < members.len()
        invariant
            i <= members.len(),
            all == member_views(members@),
            attr_views(out@) == attributes_in(all.take(i as int)),
        decreases members.len() - i,
    {
        let ghost before = out@;
        proof {
            assert(all.take(i + 1).drop_last() =~= all.take(i as int));
            assert(all.take(i + 1).last() == members@[i as int]@);
        }
        match read_attribute(&members[i]) {
            Some(v) => {
                let ghost x = (members@[i as int].name@, v@);
                out.push((members[i].name.clone(), v));
                assert(attr_views(out@) =~= attr_views(before).push(x));
            },
            None => {},
        }
        i += 1;
    }
    assert(all.take(i as int) =~= all);
    out
}

/// The attributes in a request to advertise a capability.
pub fn read_attributes(body: &Vec<u8>) -> (r: Vec<(String, CapValue)>)
    ensures
        attr_views(r@) == (match json_members_at(body@, "/attributes"@) {
            Some(members) => attributes_in(members),
            None => Seq::empty(),
        }),
{
    match json_members(body, "/attributes") {
        Some(members) => attributes_of(&members),
        None => {
            let none: Vec<(String, CapValue)> = Vec::new();
            assert(attr_views(none@) =~= Seq::empty());
            none
        },
    }
}

/// An advertisement that a request asks for.
pub struct AdvertisePlan {
    pub capability: Capability,
    pub interval_secs: u64,
}

/// Reads a request to advertise a capability. Its attributes come as the
/// values that the request holds, one for each name.
pub fn plan_cap_advertise(body: &Vec<u8>, attributes: Vec<(String, CapValue)>) -> (r: Result<
    AdvertisePlan,
    GatewayReply,
>)
    ensures
        ({
            let ns = text_at(body@, "/ns"@);
            let name = text_at(body@, "/name"@);
            let interval = number_at(body@, "/interval_secs"@);
            if ns is None {
                r matches Err(e) && e@ == bad_request("missing ns"@)
            } else if name is None {
                r matches Err(e) && e@ == bad_request("missing name"@)
            } else {
                r matches Ok(p) && p.capability.namespace@ == ns->0 && p.capability.name@ == name->0
                    && p.capability.attributes == attributes && views(p.capability.authorized_callers@)
                    == texts_in(
                    body@,
                    "/authorized_callers"@,
                    match items_at(body@, "/authorized_callers"@) {
                        Some(n) => n as nat,
                        None => 0,
                    },
                ) && p.interval_secs == (match interval {
                    Some(n) => if n < 1 {
                        1
                    } else {
                        n
                    },
                    None => 30,
                })
            }
        }),
{
    let ns = match read_text(body, "/ns") {
        Some(s) => s,
        None => {
            return Err(reject("missing ns"));
        },
    };
    let name = match read_text(body, "/name") {
        Some(s) => s,
        None => {
            return Err(reject("missing name"));
        },
    };
    let interval: u64 = match read_number(body, "/interval_secs") {
        Some(n) => n,
        None => 30,
    };
    let n: usize = match read_items(body, "/authorized_callers") {
        Some(n) => n,
        None => 0,
    };
    let authorized_callers = read_texts(body, "/authorized_callers", n);
    Ok(
        AdvertisePlan {
            capability: Capability { namespace: ns, name, attributes, authorized_callers },
            interval_secs: if interval < 1 {
                1
            } else {
                interval
            },
        },
    )
}

/// Answers a request to retract a capability that was or was not advertised.
pub fn finish_cap_drop(removed: bool) -> (r: GatewayReply)
    ensures
        r@ == (if removed {
            good("{\"ok\":true}"@)
        } else {
            (404u16, "{\"error\":\"handle not found\"}"@)
        }),
{
    if removed {
        reply("{\"ok\":true}".to_owned())
    } else {
        GatewayReply { status: 404, body: "{\"error\":\"handle not found\"}".to_owned() }
    }
}

// ── Ballots ──────────────────────────────────────────────────────────────────

/// The answer to a failed ballot, `None` where it committed. `timeout` says
/// what to call a ballot without an end.
pub open spec fn ballot_failure(result: ConsensusResult, timeout: Seq<char>) -> Option<ReplyView> {
    match result {
        ConsensusResult::Committed { .. } => None,
        ConsensusResult::Timeout { ballots_tried } => Some(
            failed(504, timeout + dec_text(ballots_tried as nat) + " ballot(s)"@),
        ),
        ConsensusResult::Superseded => Some(failed(409, "superseded"@)),
        ConsensusResult::TopologyUnsatisfied => Some(failed(409, "topology_unsatisfied"@)),
    }
}

/// Answers a failed ballot.
pub fn report_ballot(result: ConsensusResult, timeout: &str) -> (r: Option<GatewayReply>)
    ensures
        r is Some <==> ballot_failure(result, timeout@) is Some,
        r matches Some(x) ==> ballot_failure(result, timeout@) == Some(x@),
{
    match result {
        ConsensusResult::Committed { .. } => None,
        ConsensusResult::Timeout { ballots_tried } => {
            let message = join3(timeout, dec_string(ballots_tried as u64).as_str(), " ballot(s)");
            Some(fail(504, message.as_str()))
        },
        ConsensusResult::Superseded => Some(fail(409, "superseded")),
        ConsensusResult::TopologyUnsatisfied => Some(fail(409, "topology_unsatisfied")),
    }
}

/// Reads a request for a proposal to several groups, of which there are
/// `groups`: the value to propose.
pub fn plan_cross_group(value_b64: &Option<String>, groups: usize) -> (r: Result<Vec<u8>, GatewayReply>)
    ensures
        ({
            let value = field_bytes(opt_view(*value_b64));
            if value is None {
                r matches Err(e) && e@ == bad_request("invalid base64 value"@)
            } else if groups == 0 {
                r matches Err(e) && e@ == bad_request("groups must not be empty"@)
            } else {
                r matches Ok(v) && v@ == value->0
            }
        }),
{
    match read_base64(value_b64) {
        None => Err(reject("invalid base64 value")),
        Some(v) => if groups == 0 {
            Err(reject("groups must not be empty"))
        } else {
            Ok(v)
        },
    }
}

/// Answers a proposal to several groups.
pub fn finish_cross_group(result: ConsensusResult) -> (r: GatewayReply)
    ensures
        r@ == (match ballot_failure(result, "consensus timed out after "@) {
            Some(f) => f,
            None => good("{\"ok\":true}"@),
        }),
{
    match report_ballot(result, "consensus timed out after ") {
        Some(f) => f,
        None => reply("{\"ok\":true}".to_owned()),
    }
}

/// A consistent write that a request asks for.
pub struct ConsistentPlan {
    pub key: String,
    /// The slot of the ballot.
    pub slot: String,
    pub value: Vec<u8>,
}

/// Reads a request for a consistent write.
pub fn plan_consistent_set(body: &Vec<u8>) -> (r: Result<ConsistentPlan, GatewayReply>)
    ensures
        ({
            let key = text_at(body@, "/key"@);
            let value = field_bytes(text_at(body@, "/value_b64"@));
            if key is None {
                r matches Err(e) && e@ == bad_request("missing key"@)
            } else if value is None {
                r matches Err(e) && e@ == bad_request("invalid base64 value"@)
            } else {
                r matches Ok(p) && p.key@ == key->0 && p.slot@ == "consistent/"@ + key->0 && p.value@ == value->0
            }
        }),
{
    let key = match read_text(body, "/key") {
        Some(k) => k,
        None => {
            return Err(reject("missing key"));
        },
    };
    let field = read_text(body, "/value_b64");
    assert(opt_view(field) == text_at(body@, "/value_b64"@));
    match read_base64(&field) {
        None => Err(reject("invalid base64 value")),
        Some(value) => {
            let slot = join2("consistent/", key.as_str());
            Ok(ConsistentPlan { key, slot, value })
        },
    }
}

impl ConsensusHandle {
    /// Ends a request for a consistent write: where the ballot committed, the
    /// value is also written to its ordinary key.
    pub fn gw_consistent_set(&mut self, plan: ConsistentPlan, result: ConsensusResult, now_ms: u64) -> (r: GatewayReply)
        requires
            old(self).wf(),
            old(self).mesh.kv.clock < u64::MAX,
        ensures
            final(self).wf(),
            match ballot_failure(result, "consensus timed out after "@) {
                Some(f) => r@ == f && *final(self) == *old(self),
                None => r@ == good("{\"ok\":true}"@) && wrote(
                    old(self).mesh.kv,
                    final(self).mesh.kv,
                    plan.key@,
                    Some(plan.value@),
                    now_ms,
                    outcome_for(old(self).mesh.kv, plan.key@),
                ) && final(self).mesh.groups == old(self).mesh.groups && final(self).mesh.log == old(
                    self,
                ).mesh.log && final(self).peers == old(self).peers,
            },
    {
        match report_ballot(result, "consensus timed out after ") {
            Some(f) => f,
            None => {
                let _ = self.finish_consistent_set(plan.key.as_str(), plan.value, result, now_ms);
                reply("{\"ok\":true}".to_owned())
            },
        }
    }

    /// Answers a request for a consistent read.
    pub fn gw_consistent_get(&self, key: &str) -> (r: GatewayReply)
        ensures
            r@ == good(value_json(crate::consensus::consistent_value(self.table(), key@))),
    {
        let v = self.consistent_get(key);
        reply(write_value(&v))
    }

    /// Answers a request for the lead of a group.
    pub fn gw_elect(&self, group: &str, result: ConsensusResult) -> (r: GatewayReply)
        ensures
            ({
                let lead = "{\"leader\":"@;
                match result {
                    ConsensusResult::Committed { .. } => r@ == good(
                        lead + json_string(node_text(self.me())) + ",\"ok\":true}"@,
                    ),
                    ConsensusResult::Superseded => match leader_text(self.table(), group@) {
                        Some(s) => r@ == good(lead + json_string(s) + ",\"ok\":true}"@),
                        None => r@ == failed(409, "superseded"@),
                    },
                    _ => Some(r@) == ballot_failure(result, "timeout after "@),
                }
            }),
    {
        match result {
            ConsensusResult::Committed { .. } => {
                let me = self.mesh.kv.node_id.to_text();
                reply(join3("{\"leader\":", json_quote(me.as_str()).as_str(), ",\"ok\":true}"))
            },
            ConsensusResult::Superseded => {
                let slot = join2("leader/", group);
                match self.consensus_get(slot.as_str()) {
                    None => fail(409, "superseded"),
                    Some(raw) => match crate::log::utf8_text(raw) {
                        None => fail(409, "superseded"),
                        Some(s) => reply(
                            join3("{\"leader\":", json_quote(s.as_str()).as_str(), ",\"ok\":true}"),
                        ),
                    },
                }
            },
            _ => match report_ballot(result, "timeout after ") {
                Some(f) => f,
                None => fail(409, "superseded"),
            },
        }
    }
}

/// The text that was committed for the lead of a group.
pub open spec fn leader_text(t: Table, group: Seq<char>) -> Option<Seq<char>> {
    match crate::store::live(t, crate::consensus::committed_key("leader/"@ + group)) {
        Some(v) => if vstd::utf8::valid_utf8(v) {
            Some(vstd::utf8::decode_utf8(v))
        } else {
            None
        },
        None => None,
    }
}

/// How long a lock is asked for: from one second to an hour.
pub fn lock_ttl_secs(ttl_secs: Option<u64>) -> (s: u64)
    ensures
        s == crate::gateway::clamped(ttl_secs, 30, 1, 3600),
{
    crate::gateway::clamp(ttl_secs, 30, 1, 3600)
}

/// Answers a request for a lock; `guard_id` is what it is released by, and
/// `token` its fencing token.
pub fn finish_lock_acquire(result: ConsensusResult, guard_id: &str, token: u64) -> (r: GatewayReply)
    ensures
        r@ == (match result {
            ConsensusResult::Committed { .. } => good(
                "{\"guard_id\":"@ + json_string(guard_id@) + ",\"ok\":true,\"token\":"@ + dec_text(token as nat)
                    + "}"@,
            ),
            _ => ballot_failure(result, "timeout after "@)->0,
        }),
{
    match result {
        ConsensusResult::Committed { .. } => {
            let a = join3(
                "{\"guard_id\":",
                json_quote(guard_id).as_str(),
                ",\"ok\":true,\"token\":",
            );
            reply(join3(a.as_str(), dec_string(token).as_str(), "}"))
        },
        _ => match report_ballot(result, "timeout after ") {
            Some(f) => f,
            None => fail(409, "superseded"),
        },
    }
}

/// Answers a request to release something that was or was not held.
pub fn finish_release(held: bool) -> (r: GatewayReply)
    ensures
        r@ == (if held {
            good("{\"ok\":true}"@)
        } else {
            failed(404, "guard_not_found"@)
        }),
{
    if held {
        reply("{\"ok\":true}".to_owned())
    } else {
        fail(404, "guard_not_found")
    }
}

// ── Ballots ──────────────────────────────────────────────────────────────────

/// The keys of the membership entries of `group`.
pub open spec fn member_keys(t: Table, group: Seq<char>) -> Set<Seq<char>> {
    live_under(t, Some(group_prefix_text(group)))
}

impl ConsensusHandle {
    /// The votes that a ballot of the gateway among all nodes needs: a
    /// majority of the known peers and this node, unless configured otherwise.
    pub fn overlay_system_quorum(&self, config_size: usize) -> (q: usize)
        requires
            self.peers.table().dom().len() < usize::MAX,
        ensures
            q == quorum_size(config_size as int, (self.peers.table().dom().len() + 1) as int),
    {
        compute_quorum_size(config_size, peer_count(&self.peers) + 1)
    }

    /// The votes that a ballot of the gateway in `group` needs: a majority of
    /// its membership entries and this node, unless configured otherwise.
    pub fn overlay_group_quorum(&self, group: &str, config_size: usize) -> (q: usize)
        requires
            member_keys(self.table(), group@).len() < usize::MAX,
        ensures
            q == quorum_size(config_size as int, (member_keys(self.table(), group@).len() + 1) as int),
    {
        let prefix = grp_prefix(group);
        let found = self.mesh.kv.scan_prefix_with_ts(prefix.as_str());
        proof {
            let t = self.table();
            let ks = found@.map_values(|e: (String, Vec<u8>, u64)| e.0@);
            assert(ks.no_duplicates());
            assert forall|k: Seq<char>| ks.to_set().contains(k) <==> member_keys(t, group@).contains(k) by {
                if ks.contains(k) {
                    let i = choose|i: int| 0 <= i < ks.len() && ks[i] == k;
                    assert(found@[i].0@ == k);
                }
                if member_keys(t, group@).contains(k) {
                    assert(live(t, k) is Some);
                    let i = choose|i: int| 0 <= i < found@.len() && #[trigger] found@[i].0@ == k;
                    assert(ks[i] == k);
                }
            }
            assert(ks.to_set() =~= member_keys(t, group@));
            ks.unique_seq_to_set();
        }
        compute_quorum_size(config_size, found.len() + 1)
    }
}

// ── Logs ─────────────────────────────────────────────────────────────────────

/// An entry inside an answer.
pub open spec fn log_entry_json(e: LogView) -> Seq<char> {
    "{\"hlc\":"@ + dec_text(e.0 as nat) + ",\"value_b64\":"@ + json_string(base64_text(e.1)) + "}"@
}

/// The entries of a log inside an answer.
pub open spec fn log_json(v: Seq<LogView>) -> Seq<char> {
    "["@ + comma_joined(v.map_values(|e: LogView| log_entry_json(e))) + "]"@
}

/// What a subscriber to a log is sent of an entry.
pub fn log_event(stream: &str, e: &LogEntry) -> (s: String)
    ensures
        s@ == "{\"hlc\":"@ + dec_text(e.hlc as nat) + ",\"stream\":"@ + json_string(stream@)
            + ",\"value_b64\":"@ + json_string(base64_text(e.value@)) + "}"@,
{
    let a = join3("{\"hlc\":", dec_string(e.hlc).as_str(), ",\"stream\":");
    let b = join3(a.as_str(), json_quote(stream).as_str(), ",\"value_b64\":");
    join3(b.as_str(), json_quote(base64_encode(&e.value).as_str()).as_str(), "}")
}

fn write_log(v: &Vec<LogEntry>) -> (s: String)
    ensures
        s@ == log_json(log_views(v@)),
{
    let mut out: Vec<String> = Vec::new();
    let mut i: usize = 0;
    while i < v.len()
        invariant
            i <= v.len(),
            out@.len() == i,
            forall|k: int|
                0 <= k < i ==> (#[trigger] out@[k])@ == log_entry_json((v@[k].hlc, v@[k].value@)),
        decreases v.len() - i,
    {
        let a = join3("{\"hlc\":", dec_string(v[i].hlc).as_str(), ",\"value_b64\":");
        out.push(join3(a.as_str(), json_quote(base64_encode(&v[i].value).as_str()).as_str(), "}"));
        i += 1;
    }
    assert(views(out@) =~= log_views(v@).map_values(|e: LogView| log_entry_json(e)));
    join3("[", join_commas(&out).as_str(), "]")
}

impl KvHandle {
    /// Appends the value that a request hands in, and answers with its
    /// timestamp.
    pub fn gw_log_append(&mut self, stream: &str, value_b64: &Option<String>, now_ms: u64) -> (r: GatewayReply)
        requires
            old(self).wf(),
            old(self).clock < u64::MAX,
            crate::kv::hlc_next(old(self).clock, now_ms) < u64::MAX,
        ensures
            ({
                let value = field_bytes(opt_view(*value_b64));
                let hlc = crate::kv::hlc_next(old(self).clock, now_ms) as u64;
                if value is None {
                    r@ == bad_request("invalid base64 value"@) && *final(self) == *old(self)
                } else {
                    r@ == good("{\"hlc\":"@ + dec_text(hlc as nat) + "}"@) && wrote(
                        (KvHandle { clock: hlc, ..*old(self) }),
                        *final(self),
                        crate::log::log_key_text(stream@, hlc),
                        Some(value->0),
                        now_ms,
                        outcome_for(*old(self), crate::log::log_key_text(stream@, hlc)),
                    )
                }
            }),
    {
        match read_base64(value_b64) {
            None => reject("invalid base64 value"),
            Some(value) => {
                let hlc: u64 = self.append(stream, value, now_ms);
                reply(join3("{\"hlc\":", dec_string(hlc).as_str(), "}"))
            },
        }
    }

    /// Deletes the entries of a log below a timestamp, as a request asks.
    pub fn gw_log_compact(&mut self, stream: &str, before_hlc: u64, now_ms: u64) -> (r: GatewayReply)
        requires
            old(self).wf(),
            crate::kv::packed(now_ms) + crate::log::compactable(old(self).table(), stream@, before_hlc).len()
                < u64::MAX,
            old(self).clock + crate::log::compactable(old(self).table(), stream@, before_hlc).len() < u64::MAX,
        ensures
            final(self).wf(),
            r@ == good("{\"ok\":true}"@),
            exists|e: Seq<LogView>, ks: Seq<Seq<char>>|
                #![trigger crate::scan::readings_by_key(e, ks, old(self).table(), crate::log::log_prefix_text(stream@), crate::log::log_reading(stream@, 0, before_hlc))]
                crate::scan::readings_by_key(
                    e,
                    ks,
                    old(self).table(),
                    crate::log::log_prefix_text(stream@),
                    crate::log::log_reading(stream@, 0, before_hlc),
                ) && crate::log::deleted_all(*old(self), *final(self), ks, now_ms),
    {
        self.compact_log(stream, before_hlc, now_ms);
        reply("{\"ok\":true}".to_owned())
    }

    /// Answers a request for the entries of a log from `from` up to but not
    /// including `to`.
    pub fn gw_log_scan(&self, stream: &str, from: Option<u64>, to: Option<u64>) -> (r: GatewayReply)
        ensures
            exists|found: Seq<LogView>|
                #[trigger] crate::log::sorted_by_hlc(found) && crate::scan::lists_readings(
                    found,
                    self.table(),
                    crate::log::log_prefix_text(stream@),
                    crate::log::log_reading(
                        stream@,
                        match from {
                            Some(n) => n,
                            None => 0,
                        },
                        match to {
                            Some(n) => n,
                            None => u64::MAX,
                        },
                    ),
                ) && r@ == good(log_json(found)),
    {
        let from: u64 = match from {
            Some(n) => n,
            None => 0,
        };
        let to: u64 = match to {
            Some(n) => n,
            None => u64::MAX,
        };
        let found = self.scan_log(stream, from, to);
        assert(crate::log::sorted_by_hlc(log_views(found@)));
        reply(write_log(&found))
    }
}

// ── Skills ───────────────────────────────────────────────────────────────────

/// How long a call of a skill may take where the request does not say.
pub fn default_timeout_ms() -> (ms: u64)
    ensures
        ms == 30_000,
{
    30_000
}

/// A call of a skill that a request asks for.
pub struct SkillCallPlan {
    pub target: NodeId,
    pub request: Vec<u8>,
}

/// Reads a request for a call of a skill.
pub fn plan_llm_call(
    kv: &KvHandle,
    ns: &str,
    name: &str,
    input: &str,
    context: &Vec<(String, String)>,
) -> (r: Result<SkillCallPlan, GatewayReply>)
    ensures
        ({
            let filter = FilterView { namespace: ns@, name: name@, max_age_ms: None };
            if exists|n: NodeView| #[trigger] listed_provider(kv.table(), filter, n) {
                r matches Ok(p) && listed_provider(kv.table(), filter, p.target@) && p.request@ == encode_utf8(
                    invoke_json(ns@, name@, input@, crate::json::pair_views(context@)),
                )
            } else {
                r matches Err(e) && e@ == (404u16, "{\"detail\":\"\",\"error\":\"no_provider\"}"@)
            }
        }),
{
    match first_provider(kv, ns, name) {
        None => Err(
            GatewayReply { status: 404, body: "{\"detail\":\"\",\"error\":\"no_provider\"}".to_owned() },
        ),
        Some(target) => {
            let request = write_invoke(ns, name, input, context);
            Ok(SkillCallPlan { target, request: request.as_str().as_bytes_vec() })
        },
    }
}

/// The answer to a call of a skill.
pub open spec fn llm_answer(provider: NodeView, result: Option<Seq<u8>>) -> ReplyView {
    match result {
        None => (504u16, "{\"detail\":\"\",\"error\":\"timeout\"}"@),
        Some(v) => if !is_json(v) {
            (502u16, "{\"detail\":\"\",\"error\":\"parse_error\"}"@)
        } else if json_value_at(v, "/error"@) is Some {
            (502u16, json_or(v, ""@, "null"@))
        } else {
            good(
                "{\"output\":"@ + json_or(v, "/output"@, "null"@) + ",\"provider\":"@ + json_string(
                    node_text(provider),
                ) + "}"@,
            )
        },
    }
}

/// Answers a call of a skill; `None` means that the provider did not reply in
/// time. What the provider says of an error is passed on.
pub fn finish_llm_call(provider: &NodeId, result: &Option<Vec<u8>>) -> (r: GatewayReply)
    ensures
        r@ == llm_answer(
            provider@,
            match result {
                Some(v) => Some(v@),
                None => None,
            },
        ),
{
    match result {
        None => GatewayReply {
            status: 504,
            body: "{\"detail\":\"\",\"error\":\"timeout\"}".to_owned(),
        },
        Some(v) => {
            if !crate::json::is_document(v) {
                return GatewayReply {
                    status: 502,
                    body: "{\"detail\":\"\",\"error\":\"parse_error\"}".to_owned(),
                };
            }
            match crate::json::json_at(v, "/error") {
                Some(_) => GatewayReply { status: 502, body: read_json_or(v, "", "null") },
                None => {
                    let a = join3("{\"output\":", read_json_or(v, "/output", "null").as_str(), ",\"provider\":");
                    reply(
                        join3(a.as_str(), json_quote(provider.to_text().as_str()).as_str(), "}"),
                    )
                },
            }
        },
    }
}

/// The only event of a streamed call of a skill; the first `None` means that
/// nobody provides it, the second that the provider did not reply in time.
pub open spec fn stream_json(result: Option<Option<Seq<u8>>>) -> Seq<char> {
    match result {
        None => "{\"error\":\"no_provider\",\"type\":\"error\"}"@,
        Some(None) => "{\"error\":\"timeout\",\"type\":\"error\"}"@,
        Some(Some(v)) => "{\"output\":"@ + json_string(text_or_empty(v, "/output"@)) + ",\"type\":\"done\"}"@,
    }
}

/// Writes the event of a streamed call that the provider has answered.
pub fn stream_done(reply: &Vec<u8>) -> (s: String)
    ensures
        s@ == stream_json(Some(Some(reply@))),
{
    join3(
        "{\"output\":",
        json_quote(read_text_or_empty(reply, "/output").as_str()).as_str(),
        ",\"type\":\"done\"}",
    )
}

/// Writes the event of a streamed call that failed.
pub fn stream_failed(no_provider: bool) -> (s: String)
    ensures
        s@ == stream_json(
            if no_provider {
                None
            } else {
                Some(None)
            },
        ),
{
    if no_provider {
        "{\"error\":\"no_provider\",\"type\":\"error\"}".to_owned()
    } else {
        "{\"error\":\"timeout\",\"type\":\"error\"}".to_owned()
    }
}

// ── Slots ────────────────────────────────────────────────────────────────────

/// What the table says of a slot. `committed` is the value that holds now,
/// none where a lease has run out.
pub struct SlotReport {
    pub committed: Option<Vec<u8>>,
    pub present: bool,
    pub ballot: u64,
    pub lease_ms: Option<u64>,
}

/// A number, or `null`.
pub open spec fn opt_number_json(n: Option<u64>) -> Seq<char> {
    match n {
        Some(x) => dec_text(x as nat),
        None => "null"@,
    }
}

/// The answer to a request for a slot.
pub open spec fn slot_json(slot: Seq<char>, s: SlotReport) -> Seq<char> {
    "{\"ballot\":"@ + dec_text(s.ballot as nat) + ",\"committed\":"@ + (match s.committed {
        Some(v) => json_string(base64_text(v@)),
        None => "null"@,
    }) + ",\"lease_expired\":"@ + crate::gateway::bool_json(s.present && s.committed is None)
        + ",\"lease_ms\":"@ + opt_number_json(s.lease_ms) + ",\"slot\":"@ + json_string(slot) + "}"@
}

/// Answers a request for a slot: a value that is there but does not hold any
/// more is one whose lease has run out.
pub fn write_slot(slot: &str, s: &SlotReport) -> (r: String)
    ensures
        r@ == slot_json(slot@, *s),
{
    let committed = match &s.committed {
        Some(v) => json_quote(base64_encode(v).as_str()),
        None => "null".to_owned(),
    };
    let lease = match s.lease_ms {
        Some(n) => dec_string(n),
        None => "null".to_owned(),
    };
    let expired = crate::gateway::write_bool(s.present && s.committed.is_none());
    let a = join3("{\"ballot\":", dec_string(s.ballot).as_str(), ",\"committed\":");
    let b = join3(a.as_str(), committed.as_str(), ",\"lease_expired\":");
    let c = join3(b.as_str(), expired.as_str(), ",\"lease_ms\":");
    let d = join3(c.as_str(), lease.as_str(), ",\"slot\":");
    join3(d.as_str(), json_quote(slot).as_str(), "}")
}

// ── Audit trail ──────────────────────────────────────────────────────────────

/// The bytes as hexadecimal text, two digits each.
pub open spec fn hex_text(b: Seq<u8>) -> Seq<char>
    decreases b.len(),
{
    if b.len() == 0 {
        Seq::empty()
    } else {
        hex_text(b.drop_last()) + hex_fixed(b.last() as int, 2)
    }
}

/// Thirty-two bytes as hexadecimal text.
pub fn hex32(bytes: &[u8; 32]) -> (s: String)
    ensures
        s@ == hex_text(bytes@),
{
    let mut out = "".to_owned();
    let mut i: usize = 0;
    proof {
        reveal_strlit("");
        assert(bytes@.take(0) =~= Seq::empty());
        assert(out@ =~= hex_text(bytes@.take(0)));
    }
    while i < 32
        invariant
            i <= 32,
            out@ == hex_text(bytes@.take(i as int)),
        decreases 32 - i,
    {
        assert(bytes@.take(i + 1).drop_last() =~= bytes@.take(i as int));
        assert(bytes@.take(i + 1).last() == bytes@[i as int]);
        out = join2(out.as_str(), hex2(bytes[i]).as_str());
        i += 1;
    }
    assert(bytes@.take(i as int) =~= bytes@);
    out
}

/// How many of `count` records are left out so that at most `limit` are shown.
pub open spec fn left_out(count: nat, limit: Option<usize>) -> int {
    match limit {
        Some(n) => if count > n {
            count - n
        } else {
            0
        },
        None => 0,
    }
}

// ── Probes ───────────────────────────────────────────────────────────────────

/// Answers whether the node lives.
pub fn health(node: &NodeId) -> (r: GatewayReply)
    ensures
        r@ == good("{\"node_id\":"@ + json_string(node_text(node@)) + ",\"status\":\"ok\"}"@),
{
    reply(
        join3("{\"node_id\":", json_quote(node.to_text().as_str()).as_str(), ",\"status\":\"ok\"}"),
    )
}

/// What a node counts.
#[derive(Debug, Clone, Copy, PartialEq, Eq, Structural)]
pub struct NodeCounters {
    pub store_entries: u64,
    pub dropped_frames: u64,
    pub individual_flood_fallbacks: u64,
    pub task_count: u64,
    pub commit_conflicts: u64,
    pub sys_namespace_violations: u64,
}

/// Answers what the node counts.
pub fn stats(node: &NodeId, c: &NodeCounters) -> (r: GatewayReply)
    ensures
        r@ == good(
            "{\"commit_conflicts\":"@ + dec_text(c.commit_conflicts as nat) + ",\"dropped_frames\":"@ + dec_text(
                c.dropped_frames as nat,
            ) + ",\"individual_flood_fallbacks\":"@ + dec_text(c.individual_flood_fallbacks as nat)
                + ",\"node_id\":"@ + json_string(node_text(node@)) + ",\"store_entries\":"@ + dec_text(
                c.store_entries as nat,
            ) + ",\"sys_namespace_violations\":"@ + dec_text(c.sys_namespace_violations as nat)
                + ",\"task_count\":"@ + dec_text(c.task_count as nat) + "}"@,
        ),
{
    let a = join3(
        "{\"commit_conflicts\":",
        dec_string(c.commit_conflicts).as_str(),
        ",\"dropped_frames\":",
    );
    let b = join3(
        a.as_str(),
        dec_string(c.dropped_frames).as_str(),
        ",\"individual_flood_fallbacks\":",
    );
    let d = join3(b.as_str(), dec_string(c.individual_flood_fallbacks).as_str(), ",\"node_id\":");
    let e = join3(d.as_str(), json_quote(node.to_text().as_str()).as_str(), ",\"store_entries\":");
    let f = join3(e.as_str(), dec_string(c.store_entries).as_str(), ",\"sys_namespace_violations\":");
    let g = join3(f.as_str(), dec_string(c.sys_namespace_violations).as_str(), ",\"task_count\":");
    reply(join3(g.as_str(), dec_string(c.task_count).as_str(), "}"))
}

/// Answers whether the node is ready: it has written what it advertises, and
/// none of its shards is dead.
pub fn readiness(node: &NodeId, advertised: bool, dead_shards: usize) -> (r: GatewayReply)
    ensures
        r@ == (if advertised && dead_shards == 0 {
            good("{\"node_id\":"@ + json_string(node_text(node@)) + ",\"status\":\"ready\"}"@)
        } else {
            (503u16, "{\"node_id\":"@ + json_string(node_text(node@)) + ",\"status\":\"starting\"}"@)
        }),
{
    let id = json_quote(node.to_text().as_str());
    if advertised && dead_shards == 0 {
        reply(join3("{\"node_id\":", id.as_str(), ",\"status\":\"ready\"}"))
    } else {
        GatewayReply {
            status: 503,
            body: join3("{\"node_id\":", id.as_str(), ",\"status\":\"starting\"}"),
        }
    }
}

/// An offer counts for a capability exactly if it is one of that namespace and name,
/// and a need exactly if it names the same.
pub proof fn law_demand_counts_by_name(t: Table, filter: FilterView, k: Seq<char>)
    ensures
        reading_keys(t, "cap/"@, offer_reading(filter)).contains(k) <==> crate::text::has_prefix(k, "cap/"@)
            && !crate::text::has_suffix(k, "/locality/self"@) && live(t, k) is Some && cap_in(live(t, k)->0) is Some
            && cap_in(live(t, k)->0)->0.namespace == filter.namespace && cap_in(live(t, k)->0)->0.name
            == filter.name,
        reading_keys(t, "req/"@, ask_reading(filter)).contains(k) <==> crate::text::has_prefix(k, "req/"@) && live(
            t,
            k,
        ) is Some && filter_parts(live(t, k)->0) is Some && (filter_parts(live(t, k)->0)->0).0 == filter.namespace
            && (filter_parts(live(t, k)->0)->0).1 == filter.name,
{
}

/// A ballot that did not commit is answered with an error: that it took too long with
/// 504, everything else with 409.
pub proof fn law_failed_ballot_is_an_error(result: ConsensusResult, timeout: Seq<char>)
    ensures
        ballot_failure(result, timeout) is None <==> result is Committed,
        result is Timeout ==> (ballot_failure(result, timeout)->0).0 == 504,
        result is Superseded || result is TopologyUnsatisfied ==> (ballot_failure(result, timeout)->0).0 == 409,
{
}

/// A byte is written with two digits, so that bytes that differ are written
/// differently.
pub proof fn law_hex_has_two_digits_for_each_byte(b: Seq<u8>)
    ensures
        hex_text(b).len() == 2 * b.len(),
        forall|i: int|
            0 <= i < b.len() ==> #[trigger] hex_text(b).subrange(2 * i, 2 * i + 2) == hex_fixed(b[i] as int, 2),
    decreases b.len(),
{
    if b.len() > 0 {
        let rest = b.drop_last();
        law_hex_has_two_digits_for_each_byte(rest);
        crate::text::lemma_hex_fixed_len(b.last() as int, 2);
        assert forall|i: int| 0 <= i < b.len() implies #[trigger] hex_text(b).subrange(2 * i, 2 * i + 2) == hex_fixed(
            b[i] as int,
            2,
        ) by {
            if i < rest.len() {
                assert(hex_text(b).subrange(2 * i, 2 * i + 2) =~= hex_text(rest).subrange(2 * i, 2 * i + 2));
            } else {
                assert(hex_text(b).subrange(2 * i, 2 * i + 2) =~= hex_fixed(b[i] as int, 2));
            }
        }
    }
}

/// A member of an object becomes an attribute of the kind that it is.
pub proof fn law_attribute_keeps_its_kind(m: MemberView)
    ensures
        m.text is Some ==> attribute_of(m) == Some(CapValueView::Text(m.text->0)),
        m.text is None && m.truth is Some ==> attribute_of(m) == Some(CapValueView::Bool(m.truth->0)),
        m.text is None && m.truth is None && m.integer is Some ==> attribute_of(m) == Some(
            CapValueView::Integer(m.integer->0),
        ),
        attribute_of(m) is None <==> m.text is None && m.truth is None && m.integer is None && m.float_bits is None,
{
}

/// Every member that can be an attribute becomes one under its name, in the order of
/// the object.
pub proof fn law_attributes_follow_the_members(a: Seq<MemberView>, b: Seq<MemberView>)
    ensures
        attributes_in(a + b) == attributes_in(a) + attributes_in(b),
        forall|m: MemberView| #[trigger] attributes_in(seq![m]) == (match attribute_of(m) {
            Some(v) => seq![(m.name, v)],
            None => Seq::empty(),
        }),
    decreases b.len(),
{
    assert forall|m: MemberView| #[trigger] attributes_in(seq![m]) == (match attribute_of(m) {
        Some(v) => seq![(m.name, v)],
        None => Seq::empty(),
    }) by {
        assert(seq![m].drop_last() =~= Seq::empty());
        assert(attributes_in(seq![m].drop_last()) == Seq::<(Seq<char>, CapValueView)>::empty());
        assert(attributes_in(seq![m]) =~= (match attribute_of(m) {
            Some(v) => seq![(m.name, v)],
            None => Seq::empty(),
        }));
    }
    if b.len() == 0 {
        assert(a + b =~= a);
        assert(attributes_in(a) + attributes_in(b) =~= attributes_in(a));
    } else {
        assert((a + b).drop_last() =~= a + b.drop_last());
        law_attributes_follow_the_members(a, b.drop_last());
        assert(attributes_in(a + b) =~= attributes_in(a) + attributes_in(b));
    }
}

/// A call of a skill is answered with its output and 200; without a reply with 504, and
/// with 502 where the reply is no document or tells of an error.
pub proof fn law_skill_answer_goes_by_the_reply(provider: NodeView, reply: Seq<u8>)
    ensures
        llm_answer(provider, None).0 == 504,
        !is_json(reply) ==> llm_answer(provider, Some(reply)).0 == 502,
        is_json(reply) && json_value_at(reply, "/error"@) is Some ==> llm_answer(provider, Some(reply)).0 == 502,
        is_json(reply) && json_value_at(reply, "/error"@) is None ==> llm_answer(provider, Some(reply)).0 == 200,
{
}

} // verus!
