//! Who may provide a capability: `sys/capauthz/{ns}/{name}`.

use crate::capability::{CapView, Capability};
use crate::kv::{outcome_for, wrote, KvHandle};
use crate::node_id::{NodeId, NodeView};
use crate::resolve::provider_views;
use crate::store::{live, Table};
use crate::text::{contains_text, copy_texts, join2, join3, views};
use crate::wire::Dispatch;
use vstd::prelude::*;

verus! {

/// Prefix of the policies.
pub const CAPAUTHZ_PREFIX: &'static str = "sys/capauthz/";

/// `sys/capauthz/{ns}/{name}`.
pub open spec fn capauthz_key_text(ns: Seq<char>, name: Seq<char>) -> Seq<char> {
    CAPAUTHZ_PREFIX@ + ns + "/"@ + name
}

/// The key of the policy for `ns/name`.
pub fn capauthz_key(ns: &str, name: &str) -> (s: String)
    ensures
        s@ == capauthz_key_text(ns@, name@),
{
    let head = join3(CAPAUTHZ_PREFIX, ns, "/");
    join2(head.as_str(), name)
}

/// The roles of which an advertiser must hold one; none at all means that
/// everybody may provide.
#[derive(Clone, Debug, PartialEq, Eq)]
pub struct CapAuthzPolicy {
    pub required_roles: Vec<String>,
}

/// The bytes that `bincode` writes for a policy.
pub uninterp spec fn policy_bytes(roles: Seq<Seq<char>>) -> Seq<u8>;

/// The policy that `bincode` reads from `bytes`, `None` where it finds none.
pub uninterp spec fn policy_roles(bytes: Seq<u8>) -> Option<Seq<Seq<char>>>;

/// `bincode::serde::encode_to_vec` of a list of roles, with integers of fixed
/// width: the result is a function of the list, and reading it gives the list
/// back.
#[verifier::external_body]
fn encode_roles(roles: &Vec<String>) -> (r: Vec<u8>)
    ensures
        r@ == policy_bytes(views(roles@)),
        policy_roles(r@) == Some(views(roles@)),
{
    let cfg = bincode::config::standard().with_fixed_int_encoding();
    bincode::serde::encode_to_vec(roles, cfg).unwrap_or_default()
}

/// `bincode::serde::decode_from_slice` of a list of roles, with integers of
/// fixed width: the result is a function of the bytes. Before it,
/// `bincode::serde::borrow_decode_from_slice` reads the same with borrowed
/// texts: it fails where a length goes beyond the bytes, for which an owned
/// text would be allocated first.
#[verifier::external_body]
fn decode_roles(bytes: &Vec<u8>) -> (r: Option<Vec<String>>)
    ensures
        r is Some <==> policy_roles(bytes@) is Some,
        r matches Some(v) ==> policy_roles(bytes@) == Some(views(v@)),
{
    let cfg = bincode::config::standard().with_fixed_int_encoding();
    bincode::serde::borrow_decode_from_slice::<Vec<&str>, _>(bytes, cfg).ok()?;
    bincode::serde::decode_from_slice(bytes, cfg).ok().map(|(v, _)| v)
}

impl CapAuthzPolicy {
    /// The bytes of the policy; they hold it.
    pub fn encode(&self) -> (r: Vec<u8>)
        ensures
            r@ == policy_bytes(views(self.required_roles@)),
            policy_roles(r@) == Some(views(self.required_roles@)),
    {
        encode_roles(&self.required_roles)
    }

    /// The policy in `bytes`, if there is one.
    pub fn decode(bytes: &Vec<u8>) -> (r: Option<CapAuthzPolicy>)
        ensures
            r is Some <==> policy_roles(bytes@) is Some,
            r matches Some(p) ==> policy_roles(bytes@) == Some(views(p.required_roles@)),
    {
        match decode_roles(bytes) {
            None => None,
            Some(required_roles) => Some(CapAuthzPolicy { required_roles }),
        }
    }
}

/// The roles required for `ns/name`, `None` where everybody may provide it.
pub open spec fn roles_required(t: Table, ns: Seq<char>, name: Seq<char>) -> Option<Seq<Seq<char>>> {
    match live(t, capauthz_key_text(ns, name)) {
        Some(v) => match policy_roles(v) {
            Some(roles) => if roles.len() == 0 {
                None
            } else {
                Some(roles)
            },
            None => None,
        },
        None => None,
    }
}

impl KvHandle {
    /// Publishes the policy for `ns/name`.
    pub fn set_policy(&mut self, ns: &str, name: &str, roles: Vec<String>, now_ms: u64) -> (queued: bool)
        requires
            old(self).wf(),
            old(self).clock < u64::MAX,
        ensures
            wrote(
                *old(self),
                *final(self),
                capauthz_key_text(ns@, name@),
                Some(policy_bytes(views(roles@))),
                now_ms,
                outcome_for(*old(self), capauthz_key_text(ns@, name@)),
            ),
            queued == (outcome_for(*old(self), capauthz_key_text(ns@, name@)) == Dispatch::Queued),
            roles_required(final(self).table(), ns@, name@) == (if roles@.len() == 0 {
                None
            } else {
                Some(views(roles@))
            }),
    {
        let policy = CapAuthzPolicy { required_roles: roles };
        let key = capauthz_key(ns, name);
        self.set(key.as_str(), policy.encode(), now_ms)
    }

    /// The roles required for `ns/name`, `None` where everybody may provide
    /// it.
    pub fn required_roles(&self, ns: &str, name: &str) -> (r: Option<Vec<String>>)
        ensures
            r is Some <==> roles_required(self.table(), ns@, name@) is Some,
            r matches Some(v) ==> roles_required(self.table(), ns@, name@) == Some(views(v@)),
    {
        let key = capauthz_key(ns, name);
        match self.get(key.as_str()) {
            None => None,
            Some(bytes) => match CapAuthzPolicy::decode(&bytes) {
                None => None,
                Some(p) => if p.required_roles.len() == 0 {
                    None
                } else {
                    Some(p.required_roles)
                },
            },
        }
    }
}

/// Whether an advertiser with the verified roles `held` may provide what
/// requires one of `required`; without a verified claim it may not.
pub fn advertiser_authorized(required: &Vec<String>, held: &Option<Vec<String>>) -> (r: bool)
    ensures
        r == (held is Some && exists|i: int|
            0 <= i < required@.len() && views(held->0@).contains((#[trigger] required@[i])@)),
{
    match held {
        None => false,
        Some(roles) => {
            let mut i: usize = 0;
            while i < required.len()
                invariant
                    i <= required.len(),
                    *held == Some(*roles),
                    forall|k: int| 0 <= k < i ==> !views(roles@).contains((#[trigger] required@[k])@),
                decreases required.len() - i,
            {
                if contains_text(roles, required[i].as_str()) {
                    return true;
                }
                i += 1;
            }
            false
        },
    }
}

// ── Routing ──────────────────────────────────────────────────────────────────

/// The roles that `held` gives for a node: those of its first entry.
pub open spec fn claim_of(held: Seq<(NodeId, Vec<String>)>, n: NodeView) -> Option<Seq<Seq<char>>>
    decreases held.len(),
{
    if held.len() == 0 {
        None
    } else if held[0].0@ == n {
        Some(views(held[0].1@))
    } else {
        claim_of(held.drop_first(), n)
    }
}

/// Whether the policies in the table let a provider provide its capability.
pub open spec fn admitted(t: Table, held: Seq<(NodeId, Vec<String>)>, p: (NodeView, CapView)) -> bool {
    match roles_required(t, p.1.namespace, p.1.name) {
        None => true,
        Some(required) => match claim_of(held, p.0) {
            Some(roles) => exists|i: int| 0 <= i < required.len() && roles.contains(#[trigger] required[i]),
            None => false,
        },
    }
}

fn find_claim(held: &Vec<(NodeId, Vec<String>)>, n: &NodeId) -> (r: Option<Vec<String>>)
    ensures
        match claim_of(held@, n@) {
            Some(roles) => r matches Some(v) && views(v@) == roles,
            None => r is None,
        },
{
    let mut i: usize = 0;
    assert(held@.skip(0) =~= held@);
    while i < held.len()
        invariant
            i <= held.len(),
            claim_of(held@, n@) == claim_of(held@.skip(i as int), n@),
        decreases held.len() - i,
    {
        assert(held@.skip(i as int).drop_first() =~= held@.skip(i + 1));
        if held[i].0.same(n) {
            return Some(copy_texts(&held[i].1));
        }
        i += 1;
    }
    None
}

impl KvHandle {
    fn is_admitted(&self, held: &Vec<(NodeId, Vec<String>)>, p: &(NodeId, Capability)) -> (r: bool)
        ensures
            r == admitted(self.table(), held@, (p.0@, p.1@)),
    {
        match self.required_roles(p.1.namespace.as_str(), p.1.name.as_str()) {
            None => true,
            Some(required) => {
                let claim = find_claim(held, &p.0);
                let r = advertiser_authorized(&required, &claim);
                proof {
                    let w = views(required@);
                    if r {
                        let i = choose|i: int|
                            0 <= i < required@.len() && views(claim->0@).contains((#[trigger] required@[i])@);
                        assert(w[i] == required@[i]@);
                    } else if claim is Some {
                        assert forall|i: int| 0 <= i < w.len() implies !views(claim->0@).contains(
                            #[trigger] w[i],
                        ) by {
                            assert(w[i] == required@[i]@);
                        }
                    }
                }
                r
            },
        }
    }

    /// Keeps the providers that the policies let provide their capability, and
    /// counts the others, which are routed around. `held` gives the roles that
    /// a node has proved to hold.
    pub fn route_around(&self, found: Vec<(NodeId, Capability)>, held: &Vec<(NodeId, Vec<String>)>) -> (r: (
        Vec<(NodeId, Capability)>,
        usize,
    ))
        ensures
            provider_views(r.0@) == provider_views(found@).filter(
                |p: (NodeView, CapView)| admitted(self.table(), held@, p),
            ),
            r.1 == found@.len() - r.0@.len(),
    {
        let ghost w = provider_views(found@);
        let ghost keep = |p: (NodeView, CapView)| admitted(self.table(), held@, p);
        let n: usize = found.len();
        let mut rest = found;
        let mut kept: Vec<(NodeId, Capability)> = Vec::new();
        let mut dropped: usize = 0;
        let mut i: usize = 0;
        proof {
            reveal(Seq::filter);
            assert(w.take(0).filter(keep) =~= Seq::empty());
            assert(provider_views(kept@) =~= Seq::empty());
            assert(found@.skip(0) =~= found@);
        }
        while i < n
            invariant
                i <= n == found@.len(),
                w == provider_views(found@),
                keep == (|p: (NodeView, CapView)| admitted(self.table(), held@, p)),
                rest@ == found@.skip(i as int),
                provider_views(kept@) == w.take(i as int).filter(keep),
                dropped == i - kept@.len(),
            decreases n - i,
        {
            let ghost before = kept@;
            let p = rest.remove(0);
            proof {
                assert(p == found@[i as int]);
                assert(rest@ =~= found@.skip(i + 1));
                assert(w.take(i + 1).drop_last() =~= w.take(i as int));
                assert(w.take(i + 1).last() == (p.0@, p.1@));
                reveal(Seq::filter);
            }
            if self.is_admitted(held, &p) {
                let ghost x = (p.0@, p.1@);
                kept.push(p);
                assert(provider_views(kept@) =~= provider_views(before).push(x));
            } else {
                dropped += 1;
            }
            i += 1;
        }
        assert(w.take(i as int) =~= w);
        (kept, dropped)
    }
}

/// Once a policy is published, a node without one of its roles is not routed to
/// for the capability.
pub proof fn law_unauthorized_is_routed_around(
    t: Table,
    held: Seq<(NodeId, Vec<String>)>,
    found: Seq<(NodeView, CapView)>,
    p: (NodeView, CapView),
)
    requires
        roles_required(t, p.1.namespace, p.1.name) matches Some(required) && (claim_of(held, p.0) matches Some(
            roles,
        ) ==> forall|i: int| 0 <= i < required.len() ==> !roles.contains(#[trigger] required[i])),
    ensures
        !found.filter(|q: (NodeView, CapView)| admitted(t, held, q)).contains(p),
{
    let keep = |q: (NodeView, CapView)| admitted(t, held, q);
    broadcast use vstd::seq_lib::group_filter_ensures;

    let kept = found.filter(keep);
    if kept.contains(p) {
        let i = choose|i: int| 0 <= i < kept.len() && kept[i] == p;
        assert(keep(kept[i]));
    }
}

/// Without a policy everybody is routed to.
pub proof fn law_open_without_policy(
    t: Table,
    held: Seq<(NodeId, Vec<String>)>,
    p: (NodeView, CapView),
)
    requires
        roles_required(t, p.1.namespace, p.1.name) is None,
    ensures
        admitted(t, held, p),
{
}

/// Where a policy asks for roles, a provider is let through exactly if it claims one
/// of them.
pub proof fn law_one_required_role_admits(
    t: Table,
    held: Seq<(NodeId, Vec<String>)>,
    p: (NodeView, CapView),
    required: Seq<Seq<char>>,
)
    requires
        live(t, "sys/capauthz/"@ + p.1.namespace + "/"@ + p.1.name) is Some,
        policy_roles(live(t, "sys/capauthz/"@ + p.1.namespace + "/"@ + p.1.name)->0) == Some(required),
        required.len() > 0,
    ensures
        admitted(t, held, p) <==> exists|r: Seq<char>|
            #[trigger] required.contains(r) && claim_of(held, p.0) is Some && (claim_of(held, p.0)->0).contains(r),
{
    if admitted(t, held, p) {
        let mine = claim_of(held, p.0)->0;
        let i = choose|i: int| 0 <= i < required.len() && mine.contains(#[trigger] required[i]);
        assert(required.contains(required[i]));
    }
    assert forall|r: Seq<char>|
        #[trigger] required.contains(r) && claim_of(held, p.0) is Some && (claim_of(held, p.0)->0).contains(
            r,
        ) implies admitted(t, held, p) by {
        let i = choose|i: int| 0 <= i < required.len() && required[i] == r;
        assert((claim_of(held, p.0)->0).contains(required[i]));
    }
}

/// Without a live policy, with one that cannot be read, and with one that asks for no
/// role, everybody is let through.
pub proof fn law_no_roles_admit_all(t: Table, held: Seq<(NodeId, Vec<String>)>, p: (NodeView, CapView))
    requires
        live(t, "sys/capauthz/"@ + p.1.namespace + "/"@ + p.1.name) is None || ({
            let roles = policy_roles(live(t, "sys/capauthz/"@ + p.1.namespace + "/"@ + p.1.name)->0);
            roles is None || roles->0.len() == 0
        }),
    ensures
        admitted(t, held, p),
{
}

/// What a node claims is what the first entry for it says.
pub proof fn law_first_claim_counts(held: Seq<(NodeId, Vec<String>)>, n: NodeView, i: int)
    requires
        0 <= i < held.len(),
        held[i].0@ == n,
        forall|j: int| 0 <= j < i ==> (#[trigger] held[j]).0@ != n,
    ensures
        claim_of(held, n) == Some(views(held[i].1@)),
    decreases held.len(),
{
    if i > 0 {
        assert(held[0].0@ != n);
        let rest = held.drop_first();
        assert(rest[i - 1] == held[i]);
        assert forall|j: int| 0 <= j < i - 1 implies (#[trigger] rest[j]).0@ != n by {
            assert(held[j + 1].0@ != n);
        }
        law_first_claim_counts(rest, n, i - 1);
    }
}

/// A node that no entry is for claims nothing.
pub proof fn law_unknown_node_claims_nothing(held: Seq<(NodeId, Vec<String>)>, n: NodeView)
    requires
        forall|j: int| 0 <= j < held.len() ==> (#[trigger] held[j]).0@ != n,
    ensures
        claim_of(held, n) is None,
    decreases held.len(),
{
    if held.len() > 0 {
        assert(held[0].0@ != n);
        let rest = held.drop_first();
        assert forall|j: int| 0 <= j < rest.len() implies (#[trigger] rest[j]).0@ != n by {
            assert(held[j + 1].0@ != n);
        }
        law_unknown_node_claims_nothing(rest, n);
    }
}

} // verus!
