//! What a node says of itself: the capabilities that it offers, the
//! requirements that it has, the groups that it defines and its services.

use crate::capability::{
    cap_key_text, capability_key, locality_key, may_see, CapEntry, CapFilter, CapView, Capability,
    FilterView, ReqEntry,
};
use crate::capcodec::{cap_in, entry_in, filter_parts, req_in};
use crate::consensus::{score_for, score_of, ConsensusHandle};
use crate::groupdef::{group_def_in, CapabilityGroupDef};
use crate::kv::{hlc_next, outcome_for, physical, wrote, KvHandle, MAX_PHYSICAL_MS};
use crate::mesh::{emitted, members_of, MeshHandle};
use crate::node_id::{node_text, node_views, NodeId, NodeView};
use crate::opacity::RegEntry;
use crate::resolve::{gateway_reading, provider_at, provider_reading, provider_views, satisfied};
use crate::scan::{reading_at, reading_set, readings_by_key};
use crate::store::{live, Table};
use crate::text::{has_prefix, join2, join3};
use crate::wire::SignalScope;
use vstd::prelude::*;

verus! {

/// `post` is `pre` after a write of bytes for which `holds` is true.
pub open spec fn wrote_some(
    pre: KvHandle,
    post: KvHandle,
    key: Seq<char>,
    now_ms: u64,
    holds: spec_fn(Seq<u8>) -> bool,
) -> bool {
    exists|v: Seq<u8>| #[trigger] wrote(pre, post, key, Some(v), now_ms, outcome_for(pre, key)) && holds(v)
}

/// Whether `v` advertises `capability`, to be written anew every
/// `interval_ms`; a reader that looks for a bare capability finds it too.
pub open spec fn advertises(v: Seq<u8>, capability: CapView, interval_ms: u64) -> bool {
    entry_in(v) == Some((capability, interval_ms)) && cap_in(v) == Some(capability)
}

impl KvHandle {
    /// Advertises a capability under `cap/{node}/{ns}/{name}`, to be written
    /// anew every `interval_ms`, and returns the key; deleting the key retracts
    /// the capability.
    pub fn advertise_capability(&mut self, capability: &Capability, interval_ms: u64, now_ms: u64) -> (key: String)
        requires
            old(self).wf(),
            old(self).clock < u64::MAX,
        ensures
            key@ == cap_key_text(
                "cap/"@,
                node_text(old(self).node_id@),
                capability.namespace@,
                capability.name@,
            ),
            wrote_some(
                *old(self),
                *final(self),
                key@,
                now_ms,
                |v: Seq<u8>| advertises(v, capability@, interval_ms),
            ),
    {
        let key = capability_key(
            "cap/",
            &self.node_id,
            capability.namespace.as_str(),
            capability.name.as_str(),
        );
        let entry = CapEntry { capability: capability.copy(), refresh_interval_ms: interval_ms };
        let bytes = entry.encode();
        let ghost v = bytes@;
        let ghost pre = *self;
        let _ = self.set(key.as_str(), bytes, now_ms);
        assert(wrote(pre, *self, key@, Some(v), now_ms, outcome_for(pre, key@)));
        key
    }

    /// Declares a requirement under `req/{node}/{ns}/{name}`, to be written
    /// anew every `interval_ms`. Returns its key, and what the opacity watcher
    /// has to look after: the node is marked under
    /// `sys/load/{node}/req/{ns}/{name}` while nobody meets the requirement.
    /// `id` is what the requirement is cancelled by.
    pub fn declare_requirement(&mut self, id: u64, filter: &CapFilter, interval_ms: u64, now_ms: u64) -> (r: (
        String,
        RegEntry,
    ))
        requires
            old(self).wf(),
            old(self).clock < u64::MAX,
        ensures
            r.0@ == cap_key_text(
                "req/"@,
                node_text(old(self).node_id@),
                filter.namespace@,
                filter.name@,
            ),
            r.1.opacity_key@ == "sys/load/"@ + node_text(old(self).node_id@) + "/req/"@ + filter.namespace@
                + "/"@ + filter.name@,
            r.1.filter@ == filter@,
            r.1.id == id,
            wrote_some(
                *old(self),
                *final(self),
                r.0@,
                now_ms,
                |v: Seq<u8>|
                    req_in(v) == Some((filter@, interval_ms)) && filter_parts(v) == Some(
                        (filter.namespace@, filter.name@, filter.max_age_ms),
                    ),
            ),
    {
        let key = capability_key("req/", &self.node_id, filter.namespace.as_str(), filter.name.as_str());
        let copied = CapFilter {
            namespace: filter.namespace.clone(),
            name: filter.name.clone(),
            max_age_ms: filter.max_age_ms,
        };
        let watched = CapFilter {
            namespace: filter.namespace.clone(),
            name: filter.name.clone(),
            max_age_ms: filter.max_age_ms,
        };
        let bytes = (ReqEntry { filter: copied, refresh_interval_ms: interval_ms }).encode();
        let head = join3("sys/load/", self.node_id.to_text().as_str(), "/req/");
        let mid = join3(head.as_str(), filter.namespace.as_str(), "/");
        let opacity_key = join2(mid.as_str(), filter.name.as_str());
        let ghost v = bytes@;
        let ghost pre = *self;
        let _ = self.set(key.as_str(), bytes, now_ms);
        assert(wrote(pre, *self, key@, Some(v), now_ms, outcome_for(pre, key@)));
        (key, RegEntry { opacity_key, filter: watched, id })
    }

    /// Defines an emergent group under `cap-group/{group}` and returns the
    /// key; deleting the key dissolves the group.
    pub fn define_capability_group(&mut self, group: &str, def: &CapabilityGroupDef, now_ms: u64) -> (key: String)
        requires
            old(self).wf(),
            old(self).clock < u64::MAX,
        ensures
            key@ == "cap-group/"@ + group@,
            wrote_some(
                *old(self),
                *final(self),
                key@,
                now_ms,
                |v: Seq<u8>| group_def_in(v) == Some(def@),
            ),
    {
        let key = join2("cap-group/", group);
        let bytes = def.encode();
        let ghost v = bytes@;
        let ghost pre = *self;
        let _ = self.set(key.as_str(), bytes, now_ms);
        assert(wrote(pre, *self, key@, Some(v), now_ms, outcome_for(pre, key@)));
        key
    }
}

/// `svc/{kind}/{node}`.
pub open spec fn service_key_text(kind: Seq<char>, node: NodeView) -> Seq<char> {
    "svc/"@ + kind + "/"@ + node_text(node)
}

impl MeshHandle {
    /// One tick of a persistent advertisement: writes the payload under
    /// `svc/{kind}/{node}` and emits it as a signal.
    pub fn advertise_persistent_tick(
        &mut self,
        kind: &str,
        scope: SignalScope,
        payload: Vec<u8>,
        not_shed: bool,
        now_ms: u64,
    )
        requires
            old(self).wf(),
            old(self).kv.clock < u64::MAX,
        ensures
            final(self).wf(),
            exists|mid: KvHandle|
                #[trigger] wrote(
                    old(self).kv,
                    mid,
                    service_key_text(kind@, old(self).me()),
                    Some(payload@),
                    now_ms,
                    outcome_for(old(self).kv, service_key_text(kind@, old(self).me())),
                ) && emitted(
                    (MeshHandle { kv: mid, ..*old(self) }),
                    *final(self),
                    kind@,
                    scope@,
                    payload@,
                    not_shed,
                    now_ms,
                ),
    {
        let head = join3("svc/", kind, "/");
        let key = join2(head.as_str(), self.kv.node_id.to_text().as_str());
        let copy = crate::text::copy_bytes(&payload);
        let ghost pre = self.kv;
        let _ = self.kv.set(key.as_str(), copy, now_ms);
        let ghost mid = self.kv;
        proof {
            assert(wrote(pre, mid, key@, Some(payload@), now_ms, outcome_for(pre, key@)));
            assert(*self == (MeshHandle { kv: mid, ..*old(self) }));
        }
        let _ = self.emit(kind, scope, payload, not_shed, now_ms);
    }
}

// ── Leaders that meet requirements ───────────────────────────────────────────

/// Some fresh advertisement of `n` meets `filter`.
pub open spec fn node_provides(t: Table, filter: FilterView, now_ms: u64, n: NodeView) -> bool {
    exists|k: Seq<char>|
        has_prefix(k, "cap/"@) && (#[trigger] reading_at(t, k, provider_reading(filter, None, now_ms)))
            is Some && (reading_at(t, k, provider_reading(filter, None, now_ms))->0).0 == n
}

/// Every requirement is met by an advertisement of `n`.
pub open spec fn meets_all(t: Table, requirements: Seq<CapFilter>, now_ms: u64, n: NodeView) -> bool {
    forall|i: int| 0 <= i < requirements.len() ==> node_provides(t, (#[trigger] requirements[i])@, now_ms, n)
}

/// `n` belongs to `group` and meets every requirement.
pub open spec fn eligible(
    t: Table,
    group: Seq<char>,
    requirements: Seq<CapFilter>,
    now_ms: u64,
    n: NodeView,
) -> bool {
    members_of(t, group).contains(n) && meets_all(t, requirements, now_ms, n)
}

fn provides_node(kv: &KvHandle, filter: &CapFilter, now_ms: u64, n: &NodeId) -> (r: bool)
    ensures
        r == node_provides(kv.table(), filter@, now_ms, n@),
{
    let found = kv.resolve(filter, now_ms);
    let ghost f = provider_reading(filter@, None, now_ms);
    let ghost v = provider_views(found@);
    let ghost ks = choose|ks: Seq<Seq<char>>| #[trigger] readings_by_key(v, ks, kv.table(), "cap/"@, f);
    let mut i: usize = 0;
    while i < found.len()
        invariant
            i <= found.len(),
            f == provider_reading(filter@, None, now_ms),
            v == provider_views(found@),
            readings_by_key(v, ks, kv.table(), "cap/"@, f),
            forall|k: int| 0 <= k < i ==> (#[trigger] v[k]).0 != n@,
        decreases found.len() - i,
    {
        assert(v[i as int].0 == found@[i as int].0@);
        if found[i].0.same(n) {
            proof {
                assert(has_prefix(ks[i as int], "cap/"@) && reading_at(kv.table(), ks[i as int], f) == Some(
                    v[i as int],
                ));
            }
            return true;
        }
        i += 1;
    }
    proof {
        if node_provides(kv.table(), filter@, now_ms, n@) {
            let k = choose|k: Seq<char>|
                has_prefix(k, "cap/"@) && (#[trigger] reading_at(kv.table(), k, f)) is Some && (reading_at(
                    kv.table(),
                    k,
                    f,
                )->0).0 == n@;
            assert(ks.contains(k));
            let a = choose|a: int| 0 <= a < ks.len() && ks[a] == k;
            assert(v[a].0 == n@);
        }
    }
    false
}

fn meets_each(kv: &KvHandle, requirements: &Vec<CapFilter>, now_ms: u64, n: &NodeId) -> (r: bool)
    ensures
        r == meets_all(kv.table(), requirements@, now_ms, n@),
{
    let mut i: usize = 0;
    while i < requirements.len()
        invariant
            i <= requirements.len(),
            forall|k: int|
                0 <= k < i ==> node_provides(kv.table(), (#[trigger] requirements@[k])@, now_ms, n@),
        decreases requirements.len() - i,
    {
        if !provides_node(kv, &requirements[i], now_ms, n) {
            return false;
        }
        i += 1;
    }
    true
}

impl ConsensusHandle {
    /// The member of `group` with the lowest score among those that meet every
    /// requirement, `None` if there is none. `scores` holds, by the text of a
    /// node, a number that grows with its load; a node without one has none.
    pub fn suggest_leader_with_requirements(
        &self,
        group: &str,
        requirements: &Vec<CapFilter>,
        scores: &Vec<(String, u32)>,
        now_ms: u64,
    ) -> (r: Option<NodeId>)
        ensures
            r is Some <==> exists|n: NodeView| #[trigger]
                eligible(self.table(), group@, requirements@, now_ms, n),
            r matches Some(best) ==> eligible(self.table(), group@, requirements@, now_ms, best@)
                && forall|n: NodeView| #[trigger]
                eligible(self.table(), group@, requirements@, now_ms, n) ==> score_of(
                    scores@,
                    node_text(best@),
                ) <= score_of(scores@, node_text(n)),
    {
        let members = self.mesh.group_members(group);
        let ghost t = self.table();
        proof {
            crate::mesh::lemma_members_set(members@, t, group@);
        }
        let mut best: Option<NodeId> = None;
        let mut i: usize = 0;
        while i < members.len()
            invariant
                i <= members.len(),
                t == self.table(),
                t == self.mesh.kv.table(),
                members_of(t, group@) == node_views(members@).to_set(),
                best is None ==> forall|k: int|
                    0 <= k < i ==> !eligible(t, group@, requirements@, now_ms, (#[trigger] members@[k])@),
                best matches Some(b) ==> eligible(t, group@, requirements@, now_ms, b@) && forall|k: int|
                    0 <= k < i && eligible(t, group@, requirements@, now_ms, (#[trigger] members@[k])@)
                        ==> score_of(scores@, node_text(b@)) <= score_of(scores@, node_text(members@[k]@)),
            decreases members.len() - i,
        {
            proof {
                let w = node_views(members@);
                assert(w[i as int] == members@[i as int]@);
                assert(w.to_set().contains(members@[i as int]@));
            }
            if meets_each(&self.mesh.kv, requirements, now_ms, &members[i]) {
                assert(eligible(t, group@, requirements@, now_ms, members@[i as int]@));
                let lighter = match &best {
                    None => true,
                    Some(b) => score_for(scores, &members[i]) < score_for(scores, b),
                };
                if lighter {
                    best = Some(members[i].copy());
                }
            }
            i += 1;
        }
        proof {
            let w = node_views(members@);
            assert forall|n: NodeView| #[trigger] eligible(t, group@, requirements@, now_ms, n) implies exists|
                k: int,
            | 0 <= k < members@.len() && (#[trigger] members@[k])@ == n by {
                assert(w.to_set().contains(n));
                let k = choose|k: int| 0 <= k < w.len() && w[k] == n;
                assert(members@[k]@ == n);
            }
        }
        best
    }
}

/// A capability is found by a lookup as soon as it is advertised. The
/// namespace and the name hold no slash, and they are not those of a locality
/// path.
pub proof fn law_advertised_is_resolved(
    pre: KvHandle,
    post: KvHandle,
    capability: Capability,
    interval_ms: u64,
    now_ms: u64,
)
    requires
        pre.node_id.wf(),
        wrote_some(
            pre,
            post,
            cap_key_text(
                "cap/"@,
                node_text(pre.node_id@),
                capability.namespace@,
                capability.name@,
            ),
            now_ms,
            |v: Seq<u8>| advertises(v, capability@, interval_ms),
        ),
        !capability.namespace@.contains('/'),
        !capability.name@.contains('/'),
        !locality_key(
            cap_key_text(
                "cap/"@,
                node_text(pre.node_id@),
                capability.namespace@,
                capability.name@,
            ),
        ),
        now_ms <= MAX_PHYSICAL_MS,
        pre.clock < u64::MAX,
    ensures
        satisfied(
            post.table(),
            (FilterView {
                namespace: capability.namespace@,
                name: capability.name@,
                max_age_ms: None,
            }),
            now_ms,
        ),
        node_provides(
            post.table(),
            (FilterView {
                namespace: capability.namespace@,
                name: capability.name@,
                max_age_ms: None,
            }),
            now_ms,
            pre.node_id@,
        ),
{
    let key = cap_key_text("cap/"@, node_text(pre.node_id@), capability.namespace@, capability.name@);
    let holds = |v: Seq<u8>| advertises(v, capability@, interval_ms);
    let v = choose|v: Seq<u8>| #[trigger]
        wrote(pre, post, key, Some(v), now_ms, outcome_for(pre, key)) && holds(v);
    let filter = FilterView { namespace: capability.namespace@, name: capability.name@, max_age_ms: None };
    crate::capability::law_cap_key_round_trip(
        "cap/"@,
        pre.node_id@,
        capability.namespace@,
        capability.name@,
    );
    let ts = post.table()[key].1;
    assert(ts == hlc_next(pre.clock, now_ms));
    assert(physical(ts) >= now_ms) by {
        assert(ts >= now_ms * 0x1_0000);
    }
    assert(live(post.table(), key) == Some(v));
    assert(holds(v));
    assert(provider_at(filter, None, now_ms, key, v, ts) == Some((pre.node_id@, capability@)));
    assert(reading_at(post.table(), key, provider_reading(filter, None, now_ms)) is Some);
    assert(key.take("cap/"@.len() as int) =~= "cap/"@);
    assert(has_prefix(key, "cap/"@));
}

/// A capability is listed by the gateway as soon as it is advertised, for every
/// caller that may see it. The namespace and the name hold no slash, and they
/// are not those of a locality path.
pub proof fn law_advertised_is_listed(
    pre: KvHandle,
    post: KvHandle,
    capability: Capability,
    interval_ms: u64,
    now_ms: u64,
    caller: Option<Seq<char>>,
)
    requires
        pre.node_id.wf(),
        wrote_some(
            pre,
            post,
            cap_key_text(
                "cap/"@,
                node_text(pre.node_id@),
                capability.namespace@,
                capability.name@,
            ),
            now_ms,
            |v: Seq<u8>| advertises(v, capability@, interval_ms),
        ),
        !capability.namespace@.contains('/'),
        !capability.name@.contains('/'),
        !locality_key(
            cap_key_text(
                "cap/"@,
                node_text(pre.node_id@),
                capability.namespace@,
                capability.name@,
            ),
        ),
        may_see(caller, capability@),
    ensures
        reading_set(
            post.table(),
            "cap/"@,
            gateway_reading(
                (FilterView {
                    namespace: capability.namespace@,
                    name: capability.name@,
                    max_age_ms: None,
                }),
                caller,
            ),
        ).contains((pre.node_id@, capability@)),
{
    let key = cap_key_text("cap/"@, node_text(pre.node_id@), capability.namespace@, capability.name@);
    let holds = |v: Seq<u8>| advertises(v, capability@, interval_ms);
    let v = choose|v: Seq<u8>| #[trigger]
        wrote(pre, post, key, Some(v), now_ms, outcome_for(pre, key)) && holds(v);
    let filter = FilterView { namespace: capability.namespace@, name: capability.name@, max_age_ms: None };
    crate::capability::law_cap_key_round_trip(
        "cap/"@,
        pre.node_id@,
        capability.namespace@,
        capability.name@,
    );
    assert(live(post.table(), key) == Some(v));
    assert(holds(v));
    assert(reading_at(post.table(), key, gateway_reading(filter, caller)) == Some(
        (pre.node_id@, capability@),
    ));
    assert(key.take("cap/"@.len() as int) =~= "cap/"@);
    assert(has_prefix(key, "cap/"@));
}

/// A requirement is demand as soon as it is declared. The namespace and the name hold
/// no slash.
pub proof fn law_declared_is_demanded(
    pre: KvHandle,
    post: KvHandle,
    filter: FilterView,
    interval_ms: u64,
    now_ms: u64,
)
    requires
        pre.node_id.wf(),
        wrote_some(
            pre,
            post,
            cap_key_text("req/"@, node_text(pre.node_id@), filter.namespace, filter.name),
            now_ms,
            |v: Seq<u8>|
                req_in(v) == Some((filter, interval_ms)) && filter_parts(v) == Some(
                    (filter.namespace, filter.name, filter.max_age_ms),
                ),
        ),
        !filter.namespace.contains('/'),
        !filter.name.contains('/'),
        now_ms <= MAX_PHYSICAL_MS,
        pre.clock < u64::MAX,
    ensures
        crate::resolve::demanders(post.table(), filter, now_ms).contains(pre.node_id@),
{
    let key = cap_key_text("req/"@, node_text(pre.node_id@), filter.namespace, filter.name);
    let holds = |v: Seq<u8>|
        req_in(v) == Some((filter, interval_ms)) && filter_parts(v) == Some(
            (filter.namespace, filter.name, filter.max_age_ms),
        );
    let v = choose|v: Seq<u8>| #[trigger]
        wrote(pre, post, key, Some(v), now_ms, outcome_for(pre, key)) && holds(v);
    assert(holds(v));
    assert(live(post.table(), key) == Some(v));
    let ts = post.table()[key].1;
    assert(ts == hlc_next(pre.clock, now_ms));
    assert(ts as int / 0x1_0000 >= now_ms) by {
        assert(ts >= now_ms * 0x1_0000);
    }
    crate::resolve::law_fresh_requirement_is_demand(post.table(), filter, now_ms, pre.node_id@);
}

/// A node provides what is asked for exactly if a lookup finds it.
pub proof fn law_provides_who_is_found(
    t: Table,
    filter: FilterView,
    now_ms: u64,
    found: Seq<(NodeView, CapView)>,
    n: NodeView,
)
    requires
        crate::scan::lists_readings(found, t, "cap/"@, provider_reading(filter, None, now_ms)),
    ensures
        node_provides(t, filter, now_ms, n) <==> exists|i: int| 0 <= i < found.len() && (#[trigger] found[i]).0 == n,
{
    let f = provider_reading(filter, None, now_ms);
    let ks = choose|ks: Seq<Seq<char>>| #[trigger] readings_by_key(found, ks, t, "cap/"@, f);
    if node_provides(t, filter, now_ms, n) {
        let k = choose|k: Seq<char>|
            has_prefix(k, "cap/"@) && (#[trigger] reading_at(t, k, f)) is Some && (reading_at(t, k, f)->0).0 == n;
        assert(ks.contains(k));
        let i = choose|i: int| 0 <= i < ks.len() && ks[i] == k;
        assert(reading_at(t, ks[i], f) == Some(found[i]));
    }
    assert forall|i: int| 0 <= i < found.len() && (#[trigger] found[i]).0 == n implies node_provides(
        t,
        filter,
        now_ms,
        n,
    ) by {
        assert(reading_at(t, ks[i], f) == Some(found[i]));
    }
}

/// Who may lead is a member of the group and provides everything that is required; and
/// everyone who is and does may.
pub proof fn law_leader_is_an_able_member(
    t: Table,
    group: Seq<char>,
    requirements: Seq<CapFilter>,
    now_ms: u64,
    n: NodeView,
)
    ensures
        eligible(t, group, requirements, now_ms, n) <==> crate::groups::is_member(t, group, n) && forall|i: int|
            0 <= i < requirements.len() ==> node_provides(t, (#[trigger] requirements[i])@, now_ms, n),
{
}

} // verus!
