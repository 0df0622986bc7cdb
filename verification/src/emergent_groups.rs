//! Groups that a node joins and leaves by what it can do.

use crate::capability::{is_cap_locality_key, locality_key, matches_cap, CapFilter, CapView, Capability, FilterView};
use crate::capcodec::cap_in;
use crate::groupdef::{cap_views, filter_views, group_def_in, CapabilityGroupDef, GroupDefView};
use crate::groups::{group_key, group_key_text};
use crate::kv::{
    lemma_wrote_both, lemma_wrote_more, outcome_for, packed, wrote, wrote_all, KvHandle, WriteOp,
};
use crate::mesh::MeshHandle;
use crate::node_id::{node_text, NodeId, NodeView};
use crate::opacity::same_entry;
use crate::pairs::lemma_push_new;
use crate::scan::{
    lemma_pick, lemma_picked_all, lemma_skip, lists_live_ts, lists_readings, picked, reading_at,
    reading_keys, reading_set, readings_by_key, Reading,
};
use crate::store::{live, Table};
use crate::text::{behind, has_prefix, join3, same_text, strip_prefix};
use crate::textset::{set_insert, set_remove, text_set};
use vstd::prelude::*;

verus! {

/// Prefix of the group definitions.
pub const GROUP_DEF_PREFIX: &'static str = "cap-group/";

/// A group that the node has joined, and what it projects for it.
#[derive(Debug, Clone)]
pub struct GroupProjection {
    pub group: String,
    pub provides: Vec<Capability>,
    pub needs: Vec<CapFilter>,
}

/// What has to be done outside for a group.
#[derive(Debug, Clone)]
pub enum GroupAction {
    /// Begin to project what the group provides, and to watch what it needs.
    Joined { group: String },
    /// Begin anew with what changed.
    Changed { group: String, provides: bool, needs: bool },
    /// Stop projecting and watching.
    Left { group: String },
}

#[verifier::ext_equal]
pub enum ActionView {
    Joined { group: Seq<char> },
    Changed { group: Seq<char>, provides: bool, needs: bool },
    Left { group: Seq<char> },
}

impl View for GroupAction {
    type V = ActionView;

    open spec fn view(&self) -> ActionView {
        match self {
            GroupAction::Joined { group } => ActionView::Joined { group: group@ },
            GroupAction::Changed { group, provides, needs } => ActionView::Changed {
                group: group@,
                provides: *provides,
                needs: *needs,
            },
            GroupAction::Left { group } => ActionView::Left { group: group@ },
        }
    }
}

pub open spec fn action_views(v: Seq<GroupAction>) -> Seq<ActionView> {
    v.map_values(|a: GroupAction| a@)
}

// ── What the table says ──────────────────────────────────────────────────────

/// `cap/{node}/`.
pub open spec fn own_cap_prefix(own: NodeView) -> Seq<char> {
    "cap/"@ + node_text(own) + "/"@
}

/// The capability in an entry, if it does not hold a locality path.
pub open spec fn own_cap_reading() -> Reading<CapView> {
    |k: Seq<char>, v: Seq<u8>, ts: u64|
        if locality_key(k) {
            None
        } else {
            cap_in(v)
        }
}

/// The group and its definition in an entry.
pub open spec fn group_def_reading() -> Reading<(Seq<char>, GroupDefView)> {
    |k: Seq<char>, v: Seq<u8>, ts: u64|
        match group_def_in(v) {
            Some(d) => Some((behind(k, GROUP_DEF_PREFIX@), d)),
            None => None,
        }
}

/// The definition of `group`.
pub open spec fn def_of(t: Table, group: Seq<char>) -> Option<GroupDefView> {
    match live(t, GROUP_DEF_PREFIX@ + group) {
        Some(v) => group_def_in(v),
        None => None,
    }
}

/// Whether `own` advertises a capability that meets `filter`.
pub open spec fn offers(t: Table, own: NodeView, filter: FilterView) -> bool {
    exists|c: CapView| #[trigger]
        reading_set(t, own_cap_prefix(own), own_cap_reading()).contains(c) && matches_cap(filter, c)
}

/// Whether `own` should belong to `group`.
pub open spec fn wanted(t: Table, own: NodeView, group: Seq<char>) -> bool {
    def_of(t, group) is Some && offers(t, own, def_of(t, group)->0.filter)
}

/// The keys of all group definitions.
pub open spec fn group_def_keys(t: Table) -> Set<Seq<char>> {
    reading_keys(t, GROUP_DEF_PREFIX@, group_def_reading())
}

fn own_caps(kv: &KvHandle, own: &NodeId) -> (r: Vec<Capability>)
    ensures
        cap_views(r@).to_set() == reading_set(kv.table(), own_cap_prefix(own@), own_cap_reading()),
{
    let prefix = join3("cap/", own.to_text().as_str(), "/");
    let found = kv.scan_prefix_with_ts(prefix.as_str());
    let ghost f = own_cap_reading();
    let ghost mut src: Seq<int> = Seq::empty();
    let mut out: Vec<Capability> = Vec::new();
    let mut i: usize = 0;
    assert(cap_views(out@) =~= Seq::empty());
    while i < found.len()
        invariant
            i <= found.len(),
            f == own_cap_reading(),
            picked(found@, i as int, src, cap_views(out@), f),
        decreases found.len() - i,
    {
        let cap = if is_cap_locality_key(found[i].0.as_str()) {
            None
        } else {
            Capability::decode(&found[i].1)
        };
        match cap {
            Some(c) => {
                proof {
                    lemma_pick(found@, i as int, src, cap_views(out@), f, c@);
                    src = src.push(i as int);
                    assert(cap_views(out@.push(c)) =~= cap_views(out@).push(c@));
                }
                out.push(c);
            },
            None => {
                proof {
                    lemma_skip(found@, i as int, src, cap_views(out@), f);
                }
            },
        }
        i += 1;
    }
    proof {
        lemma_picked_all(found@, kv.table(), prefix@, src, cap_views(out@), f);
        crate::scan::lemma_listing_is_set(cap_views(out@), kv.table(), prefix@, f);
    }
    out
}

pub open spec fn def_views(v: Seq<(String, CapabilityGroupDef)>) -> Seq<(Seq<char>, GroupDefView)> {
    v.map_values(|p: (String, CapabilityGroupDef)| (p.0@, p.1@))
}

/// `v` holds the definition of every defined group once.
pub open spec fn lists_defs(v: Seq<(Seq<char>, GroupDefView)>, t: Table) -> bool {
    &&& forall|i: int| 0 <= i < v.len() ==> def_of(t, (#[trigger] v[i]).0) == Some(v[i].1)
    &&& forall|i: int, j: int| 0 <= i < j < v.len() ==> (#[trigger] v[i]).0 != (#[trigger] v[j]).0
    &&& forall|g: Seq<char>| (#[trigger] def_of(t, g)) is Some ==> exists|i: int|
        0 <= i < v.len() && (#[trigger] v[i]).0 == g
    &&& v.len() == group_def_keys(t).len()
}

proof fn lemma_lists_defs(v: Seq<(Seq<char>, GroupDefView)>, t: Table)
    requires
        lists_readings(v, t, GROUP_DEF_PREFIX@, group_def_reading()),
    ensures
        lists_defs(v, t),
{
    let p = GROUP_DEF_PREFIX@;
    let f = group_def_reading();
    let ks = choose|ks: Seq<Seq<char>>| #[trigger] readings_by_key(v, ks, t, p, f);
    assert forall|i: int| 0 <= i < v.len() implies ks[i] == p + (#[trigger] v[i]).0 by {
        assert(has_prefix(ks[i], p) && reading_at(t, ks[i], f) == Some(v[i]));
        assert(ks[i] =~= p + behind(ks[i], p));
    }
    assert forall|i: int| 0 <= i < v.len() implies def_of(t, (#[trigger] v[i]).0) == Some(v[i].1) by {
        assert(has_prefix(ks[i], p) && reading_at(t, ks[i], f) == Some(v[i]));
    }
    assert forall|i: int, j: int| 0 <= i < j < v.len() implies (#[trigger] v[i]).0 != (#[trigger] v[j]).0 by {
        assert(ks[i] != ks[j]);
    }
    assert forall|g: Seq<char>| (#[trigger] def_of(t, g)) is Some implies exists|i: int|
        0 <= i < v.len() && (#[trigger] v[i]).0 == g by {
        let k = p + g;
        assert(k.take(p.len() as int) =~= p);
        assert(behind(k, p) =~= g);
        assert(has_prefix(k, p) && reading_at(t, k, f) is Some);
        assert(ks.contains(k));
        let i = choose|i: int| 0 <= i < ks.len() && ks[i] == k;
        assert(p + v[i].0 == p + g);
        assert(v[i].0 =~= (p + v[i].0).skip(p.len() as int));
        assert(g =~= (p + g).skip(p.len() as int));
    }
    crate::scan::lemma_listing_count(v, t, p, f);
}

fn group_defs(kv: &KvHandle) -> (r: Vec<(String, CapabilityGroupDef)>)
    ensures
        lists_defs(def_views(r@), kv.table()),
{
    let found = kv.scan_prefix_with_ts(GROUP_DEF_PREFIX);
    let ghost f = group_def_reading();
    let ghost mut src: Seq<int> = Seq::empty();
    let mut out: Vec<(String, CapabilityGroupDef)> = Vec::new();
    let mut i: usize = 0;
    assert(def_views(out@) =~= Seq::empty());
    while i < found.len()
        invariant
            i <= found.len(),
            f == group_def_reading(),
            lists_live_ts(found@, kv.table(), GROUP_DEF_PREFIX@),
            picked(found@, i as int, src, def_views(out@), f),
        decreases found.len() - i,
    {
        assert(has_prefix(found@[i as int].0@, GROUP_DEF_PREFIX@));
        match CapabilityGroupDef::decode(&found[i].1) {
            Some(d) => match strip_prefix(found[i].0.as_str(), GROUP_DEF_PREFIX) {
                Some(group) => {
                    let p = (group, d);
                    proof {
                        let x = (p.0@, p.1@);
                        lemma_pick(found@, i as int, src, def_views(out@), f, x);
                        src = src.push(i as int);
                        assert(def_views(out@.push(p)) =~= def_views(out@).push(x));
                    }
                    out.push(p);
                },
                None => {},
            },
            None => {
                proof {
                    lemma_skip(found@, i as int, src, def_views(out@), f);
                }
            },
        }
        i += 1;
    }
    proof {
        lemma_picked_all(found@, kv.table(), GROUP_DEF_PREFIX@, src, def_views(out@), f);
        lemma_lists_defs(def_views(out@), kv.table());
    }
    out
}

fn any_matches(caps: &Vec<Capability>, filter: &CapFilter) -> (r: bool)
    ensures
        r == exists|i: int| 0 <= i < caps@.len() && matches_cap(filter@, (#[trigger] caps@[i])@),
{
    let mut i: usize = 0;
    while i < caps.len()
        invariant
            i <= caps.len(),
            forall|k: int| 0 <= k < i ==> !matches_cap(filter@, (#[trigger] caps@[k])@),
        decreases caps.len() - i,
    {
        if filter.matches(&caps[i]) {
            return true;
        }
        i += 1;
    }
    false
}

/// The groups with a definition that the node's capabilities meet.
fn wanted_defs(kv: &KvHandle, own: &NodeId) -> (r: Vec<(String, CapabilityGroupDef)>)
    ensures
        lists_wanted(def_views(r@), kv.table(), own@),
        r@.len() <= group_def_keys(kv.table()).len(),
{
    let caps = own_caps(kv, own);
    let mut defs = group_defs(kv);
    let ghost all = defs@;
    let ghost w = def_views(all);
    let ghost t = kv.table();
    let n: usize = defs.len();
    let mut out: Vec<(String, CapabilityGroupDef)> = Vec::new();
    let ghost mut src: Seq<int> = Seq::empty();
    let mut i: usize = 0;
    assert(all.skip(0) =~= all);
    while i < n
        invariant
            i <= n == all.len(),
            t == kv.table(),
            w == def_views(all),
            lists_defs(w, t),
            defs@ == all.skip(i as int),
            cap_views(caps@).to_set() == reading_set(t, own_cap_prefix(own@), own_cap_reading()),
            src.len() == out@.len(),
            src.len() <= i,
            forall|j: int|
                0 <= j < src.len() ==> 0 <= #[trigger] src[j] < i && out@[j] == all[src[j]] && wanted(
                    t,
                    own@,
                    w[src[j]].0,
                ),
            forall|j: int, k: int| 0 <= j < k < src.len() ==> src[j] < src[k],
            forall|a: int| 0 <= a < i && wanted(t, own@, (#[trigger] w[a]).0) ==> src.contains(a),
        decreases n - i,
    {
        let ghost old_src = src;
        let ghost old_out = out@;
        let d = defs.remove(0);
        proof {
            assert(d == all[i as int]);
            assert(defs@ =~= all.skip(i + 1));
            assert(w[i as int] == (d.0@, d.1@));
        }
        let m = any_matches(&caps, &d.1.filter);
        proof {
            let f = d.1@.filter;
            if m {
                let q = choose|q: int| 0 <= q < caps@.len() && matches_cap(f, (#[trigger] caps@[q])@);
                assert(cap_views(caps@)[q] == caps@[q]@);
                assert(cap_views(caps@).to_set().contains(caps@[q]@));
                assert(offers(t, own@, f));
            }
            if offers(t, own@, f) {
                let c = choose|c: CapView| #[trigger]
                    reading_set(t, own_cap_prefix(own@), own_cap_reading()).contains(c) && matches_cap(f, c);
                assert(cap_views(caps@).to_set().contains(c));
                let q = choose|q: int| 0 <= q < cap_views(caps@).len() && cap_views(caps@)[q] == c;
                assert(matches_cap(f, caps@[q]@));
            }
            assert(m == wanted(t, own@, w[i as int].0));
        }
        if m {
            out.push(d);
            proof {
                src = src.push(i as int);
                assert(src[src.len() - 1] == i);
                assert forall|a: int| old_src.contains(a) implies src.contains(a) by {
                    let j = choose|j: int| 0 <= j < old_src.len() && old_src[j] == a;
                    assert(src[j] == a);
                }
                assert forall|j: int| 0 <= j < src.len() implies 0 <= #[trigger] src[j] < i + 1 && out@[j]
                    == all[src[j]] && wanted(t, own@, w[src[j]].0) by {
                    if j < old_src.len() {
                        assert(src[j] == old_src[j]);
                        assert(out@[j] == old_out[j]);
                    }
                }
            }
        }
        i += 1;
    }
    proof {
        let v = def_views(out@);
        assert forall|j: int| 0 <= j < v.len() implies wanted(t, own@, (#[trigger] v[j]).0) && def_of(
            t,
            v[j].0,
        ) == Some(v[j].1) by {
            assert(v[j] == w[src[j]]);
        }
        assert forall|j: int, k: int| 0 <= j < k < v.len() implies (#[trigger] v[j]).0 != (#[trigger] v[k]).0 by {
            assert(src[j] < src[k]);
            assert(w[src[j]].0 != w[src[k]].0);
        }
        assert forall|g: Seq<char>| (#[trigger] wanted(t, own@, g)) implies exists|j: int|
            0 <= j < v.len() && (#[trigger] v[j]).0 == g by {
            let a = choose|a: int| 0 <= a < w.len() && (#[trigger] w[a]).0 == g;
            assert(src.contains(a));
            let j = choose|j: int| 0 <= j < src.len() && src[j] == a;
            assert(v[j].0 == g);
        }
    }
    out
}

/// `v` holds the definition of every group that `own` should belong to once.
pub open spec fn lists_wanted(v: Seq<(Seq<char>, GroupDefView)>, t: Table, own: NodeView) -> bool {
    &&& forall|i: int|
        0 <= i < v.len() ==> wanted(t, own, (#[trigger] v[i]).0) && def_of(t, v[i].0) == Some(v[i].1)
    &&& forall|i: int, j: int| 0 <= i < j < v.len() ==> (#[trigger] v[i]).0 != (#[trigger] v[j]).0
    &&& forall|g: Seq<char>| (#[trigger] wanted(t, own, g)) ==> exists|i: int|
        0 <= i < v.len() && (#[trigger] v[i]).0 == g
}

// ── Membership ───────────────────────────────────────────────────────────────

/// `a` and `b` differ at most in memberships of `own`.
pub open spec fn same_but_memberships(a: Table, b: Table, own: NodeView) -> bool {
    forall|k: Seq<char>| (forall|g: Seq<char>| k != #[trigger] group_key_text(g, own)) ==> same_entry(a, b, k)
}

/// The write by which `own` enters `group`, or the deletion by which it leaves.
pub open spec fn membership_op(group: Seq<char>, own: NodeView, enter: bool) -> WriteOp {
    (
        group_key_text(group, own),
        if enter {
            Some(seq![1u8])
        } else {
            None
        },
    )
}

/// Writes or deletes the membership of this node in `group`, and moves its
/// boundary accordingly.
pub fn emit_membership(mesh: &mut MeshHandle, group: &str, leaving: bool, now_ms: u64)
    requires
        old(mesh).wf(),
        old(mesh).kv.clock < u64::MAX,
    ensures
        final(mesh).wf(),
        wrote(
            old(mesh).kv,
            final(mesh).kv,
            group_key_text(group@, old(mesh).me()),
            if leaving {
                None
            } else {
                Some(seq![1u8])
            },
            now_ms,
            outcome_for(old(mesh).kv, group_key_text(group@, old(mesh).me())),
        ),
        text_set(final(mesh).groups) == (if leaving {
            text_set(old(mesh).groups).remove(group@)
        } else {
            text_set(old(mesh).groups).insert(group@)
        }),
        final(mesh).log == old(mesh).log,
{
    let key = group_key(group, &mesh.kv.node_id);
    if leaving {
        let _ = mesh.kv.delete(key.as_str(), now_ms);
        let _ = set_remove(&mut mesh.groups, group);
    } else {
        let mut one: Vec<u8> = Vec::new();
        one.push(1);
        assert(one@ =~= seq![1u8]);
        let _ = mesh.kv.set(key.as_str(), one, now_ms);
        let _ = set_insert(&mut mesh.groups, group.to_owned());
    }
}

proof fn lemma_membership_write(pre: MeshHandle, post: MeshHandle, t0: Table, group: Seq<char>, data: Option<Seq<u8>>, now_ms: u64, n: int)
    requires
        wrote(
            pre.kv,
            post.kv,
            group_key_text(group, pre.me()),
            data,
            now_ms,
            outcome_for(pre.kv, group_key_text(group, pre.me())),
        ),
        same_but_memberships(t0, pre.kv.table(), pre.me()),
        crate::opacity::has_room(pre.kv, now_ms, n),
        n >= 1,
    ensures
        same_but_memberships(t0, post.kv.table(), pre.me()),
        crate::opacity::has_room(post.kv, now_ms, n - 1),
        post.me() == pre.me(),
        live(post.kv.table(), group_key_text(group, pre.me())) == data,
        forall|g: Seq<char>|
            g != group ==> #[trigger] live(post.kv.table(), group_key_text(g, pre.me())) == live(
                pre.kv.table(),
                group_key_text(g, pre.me()),
            ),
        forall|g: Seq<char>|
            g != group ==> same_entry(pre.kv.table(), post.kv.table(), #[trigger] group_key_text(g, pre.me())),
{
    let me = pre.me();
    assert forall|k: Seq<char>| (forall|g: Seq<char>| k != #[trigger] group_key_text(g, me)) implies same_entry(
        t0,
        post.kv.table(),
        k,
    ) by {
        assert(k != group_key_text(group, me));
        assert(same_entry(t0, pre.kv.table(), k));
    }
    assert forall|g: Seq<char>| g != group implies #[trigger] live(
        post.kv.table(),
        group_key_text(g, me),
    ) == live(pre.kv.table(), group_key_text(g, me)) by {
        crate::mesh::lemma_group_key_injective(g, group, me);
    }
    assert forall|g: Seq<char>| g != group implies same_entry(
        pre.kv.table(),
        post.kv.table(),
        #[trigger] group_key_text(g, me),
    ) by {
        crate::mesh::lemma_group_key_injective(g, group, me);
    }
}

// ── Reconciliation ───────────────────────────────────────────────────────────

/// The model of a [`GroupProjection`].
pub type ProjectionView = (Seq<char>, Seq<CapView>, Seq<FilterView>);

pub open spec fn projection_views(v: Seq<GroupProjection>) -> Seq<ProjectionView> {
    v.map_values(|p: GroupProjection| (p.group@, cap_views(p.provides@), filter_views(p.needs@)))
}

/// No group occurs twice.
pub open spec fn groups_distinct(v: Seq<ProjectionView>) -> bool {
    forall|i: int, j: int| 0 <= i < j < v.len() ==> (#[trigger] v[i]).0 != (#[trigger] v[j]).0
}

/// Whether `v` holds a projection for `g`.
pub open spec fn has_joined(v: Seq<ProjectionView>, g: Seq<char>) -> bool {
    exists|i: int| 0 <= i < v.len() && (#[trigger] v[i]).0 == g
}

/// The groups that this node joined by what it can do.
pub struct EmergentGroups {
    pub joined: Vec<GroupProjection>,
}

fn same_caps(a: &Vec<Capability>, b: &Vec<Capability>) -> (r: bool)
    ensures
        r == (cap_views(a@) == cap_views(b@)),
{
    if a.len() != b.len() {
        assert(cap_views(a@).len() != cap_views(b@).len());
        return false;
    }
    let mut i: usize = 0;
    while i < a.len()
        invariant
            i <= a.len() == b.len(),
            forall|k: int| 0 <= k < i ==> a@[k]@ == b@[k]@,
        decreases a.len() - i,
    {
        if !a[i].same(&b[i]) {
            assert(cap_views(a@)[i as int] != cap_views(b@)[i as int]);
            return false;
        }
        i += 1;
    }
    assert(cap_views(a@) =~= cap_views(b@));
    true
}

fn same_filters(a: &Vec<CapFilter>, b: &Vec<CapFilter>) -> (r: bool)
    ensures
        r == (filter_views(a@) == filter_views(b@)),
{
    if a.len() != b.len() {
        assert(filter_views(a@).len() != filter_views(b@).len());
        return false;
    }
    let mut i: usize = 0;
    while i < a.len()
        invariant
            i <= a.len() == b.len(),
            forall|k: int| 0 <= k < i ==> a@[k]@ == b@[k]@,
        decreases a.len() - i,
    {
        if !same_text(a[i].namespace.as_str(), b[i].namespace.as_str()) || !same_text(
            a[i].name.as_str(),
            b[i].name.as_str(),
        ) || !same_age(a[i].max_age_ms, b[i].max_age_ms) {
            assert(filter_views(a@)[i as int] != filter_views(b@)[i as int]);
            return false;
        }
        assert(a@[i as int]@ =~= b@[i as int]@);
        i += 1;
    }
    assert(filter_views(a@) =~= filter_views(b@));
    true
}

fn same_age(a: Option<u64>, b: Option<u64>) -> (r: bool)
    ensures
        r == (a == b),
{
    match (a, b) {
        (None, None) => true,
        (Some(x), Some(y)) => x == y,
        _ => false,
    }
}

/// Whether `g` is among the first `i` groups of `w`.
pub open spec fn seen(w: Seq<(Seq<char>, GroupDefView)>, i: int, g: Seq<char>) -> bool {
    exists|a: int| 0 <= a < i && (#[trigger] w[a]).0 == g
}

/// Whether `p` projects what a definition among the first `i` of `w` says.
pub open spec fn projects(p: ProjectionView, w: Seq<(Seq<char>, GroupDefView)>, i: int) -> bool {
    exists|a: int|
        0 <= a < i && (#[trigger] w[a]).0 == p.0 && w[a].1.provides == p.1 && w[a].1.needs == p.2
}

/// Whether an action is due for a wanted group when `was` were joined.
pub open spec fn due_for(a: ActionView, was: Seq<ProjectionView>, d: (Seq<char>, GroupDefView)) -> bool {
    match a {
        ActionView::Joined { group } => group == d.0 && !has_joined(was, d.0),
        ActionView::Changed { group, provides, needs } => group == d.0 && (provides || needs) && exists|
            j: int,
        |
            0 <= j < was.len() && (#[trigger] was[j]).0 == d.0 && provides == (was[j].1 != d.1.provides)
                && needs == (was[j].2 != d.1.needs),
        ActionView::Left { .. } => false,
    }
}

/// Whether an action is due for one of the first `i` wanted groups.
pub open spec fn due_upto(a: ActionView, was: Seq<ProjectionView>, w: Seq<(Seq<char>, GroupDefView)>, i: int) -> bool {
    exists|q: int| 0 <= q < i && due_for(a, was, #[trigger] w[q])
}

/// The projections once the first `i` wanted groups have been dealt with.
pub open spec fn joined_upto(
    v: Seq<ProjectionView>,
    was: Seq<ProjectionView>,
    w: Seq<(Seq<char>, GroupDefView)>,
    i: int,
) -> bool {
    &&& groups_distinct(v)
    &&& forall|g: Seq<char>| #[trigger] has_joined(v, g) <==> has_joined(was, g) || seen(w, i, g)
    &&& forall|j: int|
        0 <= j < v.len() ==> if seen(w, i, (#[trigger] v[j]).0) {
            projects(v[j], w, i)
        } else {
            was.contains(v[j])
        }
}

proof fn lemma_seen_step(w: Seq<(Seq<char>, GroupDefView)>, i: int)
    requires
        0 <= i < w.len(),
    ensures
        forall|g: Seq<char>| #[trigger] seen(w, i + 1, g) <==> seen(w, i, g) || g == w[i].0,
        forall|p: ProjectionView| projects(p, w, i) ==> #[trigger] projects(p, w, i + 1),
{
    assert forall|g: Seq<char>| #[trigger] seen(w, i + 1, g) <==> seen(w, i, g) || g == w[i].0 by {
        if seen(w, i + 1, g) {
            let a = choose|a: int| 0 <= a < i + 1 && (#[trigger] w[a]).0 == g;
            if a < i {
                assert(w[a].0 == g);
            }
        }
        if seen(w, i, g) {
            let a = choose|a: int| 0 <= a < i && (#[trigger] w[a]).0 == g;
            assert(w[a].0 == g);
        }
        if g == w[i].0 {
            assert(w[i].0 == g);
        }
    }
    assert forall|p: ProjectionView| projects(p, w, i) implies #[trigger] projects(p, w, i + 1) by {
        let a = choose|a: int|
            0 <= a < i && (#[trigger] w[a]).0 == p.0 && w[a].1.provides == p.1 && w[a].1.needs == p.2;
        assert(w[a].0 == p.0);
    }
}

proof fn lemma_joined_push(
    v: Seq<ProjectionView>,
    p: ProjectionView,
    was: Seq<ProjectionView>,
    w: Seq<(Seq<char>, GroupDefView)>,
    i: int,
)
    requires
        joined_upto(v, was, w, i),
        0 <= i < w.len(),
        p == (w[i].0, w[i].1.provides, w[i].1.needs),
        !has_joined(v, p.0),
    ensures
        joined_upto(v.push(p), was, w, i + 1),
{
    lemma_seen_step(w, i);
    let u = v.push(p);
    assert(projects(p, w, i + 1)) by {
        assert(w[i].0 == p.0);
    }
    assert forall|x: int, y: int| 0 <= x < y < u.len() implies (#[trigger] u[x]).0 != (#[trigger] u[y]).0 by {
        if y == v.len() {
            assert(v[x].0 != p.0);
        }
    }
    assert forall|g: Seq<char>| #[trigger] has_joined(u, g) <==> has_joined(was, g) || seen(w, i + 1, g) by {
        if has_joined(u, g) {
            let x = choose|x: int| 0 <= x < u.len() && (#[trigger] u[x]).0 == g;
            if x < v.len() {
                assert(v[x].0 == g);
                assert(has_joined(v, g));
            }
        }
        if has_joined(v, g) {
            let x = choose|x: int| 0 <= x < v.len() && (#[trigger] v[x]).0 == g;
            assert(u[x].0 == g);
        }
        if g == p.0 {
            assert(u[v.len() as int].0 == g);
        }
    }
    assert forall|j: int| 0 <= j < u.len() implies if seen(w, i + 1, (#[trigger] u[j]).0) {
        projects(u[j], w, i + 1)
    } else {
        was.contains(u[j])
    } by {
        if j < v.len() {
            assert(u[j] == v[j]);
            assert(v[j].0 != p.0);
        }
    }
}

proof fn lemma_joined_update(
    v: Seq<ProjectionView>,
    p: ProjectionView,
    at: int,
    was: Seq<ProjectionView>,
    w: Seq<(Seq<char>, GroupDefView)>,
    i: int,
)
    requires
        joined_upto(v, was, w, i),
        0 <= i < w.len(),
        0 <= at < v.len(),
        v[at].0 == p.0,
        p == (w[i].0, w[i].1.provides, w[i].1.needs),
    ensures
        joined_upto(v.update(at, p), was, w, i + 1),
{
    lemma_seen_step(w, i);
    let u = v.update(at, p);
    assert(projects(p, w, i + 1)) by {
        assert(w[i].0 == p.0);
    }
    assert forall|x: int, y: int| 0 <= x < y < u.len() implies (#[trigger] u[x]).0 != (#[trigger] u[y]).0 by {
        assert(v[x].0 != v[y].0);
    }
    assert forall|g: Seq<char>| #[trigger] has_joined(u, g) <==> has_joined(was, g) || seen(w, i + 1, g) by {
        if has_joined(u, g) {
            let x = choose|x: int| 0 <= x < u.len() && (#[trigger] u[x]).0 == g;
            assert(v[x].0 == g);
            assert(has_joined(v, g));
        }
        if has_joined(v, g) {
            let x = choose|x: int| 0 <= x < v.len() && (#[trigger] v[x]).0 == g;
            assert(u[x].0 == g);
        }
        if g == p.0 {
            assert(u[at].0 == g);
        }
    }
    assert forall|j: int| 0 <= j < u.len() implies if seen(w, i + 1, (#[trigger] u[j]).0) {
        projects(u[j], w, i + 1)
    } else {
        was.contains(u[j])
    } by {
        if j != at {
            assert(u[j] == v[j]);
            if j < at {
                assert(v[j].0 != v[at].0);
            } else {
                assert(v[at].0 != v[j].0);
            }
        }
    }
}

proof fn lemma_actions_step(
    acts: Seq<ActionView>,
    more: Seq<ActionView>,
    was: Seq<ProjectionView>,
    w: Seq<(Seq<char>, GroupDefView)>,
    i: int,
)
    requires
        0 <= i < w.len(),
        forall|a: ActionView| #[trigger] acts.contains(a) <==> due_upto(a, was, w, i),
        forall|a: ActionView| #[trigger] more.contains(a) <==> due_for(a, was, w[i]),
    ensures
        forall|a: ActionView| #[trigger] (acts + more).contains(a) <==> due_upto(a, was, w, i + 1),
{
    let all = acts + more;
    assert forall|a: ActionView| #[trigger] all.contains(a) <==> due_upto(a, was, w, i + 1) by {
        if all.contains(a) {
            let x = choose|x: int| 0 <= x < all.len() && all[x] == a;
            if x < acts.len() {
                assert(acts[x] == a);
                assert(acts.contains(a));
                let q = choose|q: int| 0 <= q < i && due_for(a, was, #[trigger] w[q]);
                assert(due_for(a, was, w[q]));
            } else {
                assert(more[x - acts.len()] == a);
                assert(more.contains(a));
                assert(due_for(a, was, w[i]));
            }
        }
        if due_upto(a, was, w, i + 1) {
            let q = choose|q: int| 0 <= q < i + 1 && due_for(a, was, #[trigger] w[q]);
            if q < i {
                assert(due_upto(a, was, w, i));
                assert(acts.contains(a));
                let x = choose|x: int| 0 <= x < acts.len() && acts[x] == a;
                assert(all[x] == a);
            } else {
                assert(more.contains(a));
                let x = choose|x: int| 0 <= x < more.len() && more[x] == a;
                assert(all[x + acts.len()] == a);
            }
        }
    }
}

/// The memberships once the first `i` wanted groups have been dealt with.
pub open spec fn entered_upto(
    pre: MeshHandle,
    post: MeshHandle,
    was: Seq<ProjectionView>,
    w: Seq<(Seq<char>, GroupDefView)>,
    i: int,
) -> bool {
    &&& post.me() == pre.me()
    &&& post.log == pre.log
    &&& same_but_memberships(pre.kv.table(), post.kv.table(), pre.me())
    &&& forall|g: Seq<char>| #[trigger]
        text_set(post.groups).contains(g) == (text_set(pre.groups).contains(g) || (seen(w, i, g)
            && !has_joined(was, g)))
    &&& forall|g: Seq<char>| #[trigger]
        live(post.kv.table(), group_key_text(g, pre.me())) == (if seen(w, i, g) && !has_joined(was, g) {
            Some(seq![1u8])
        } else {
            live(pre.kv.table(), group_key_text(g, pre.me()))
        })
    &&& forall|g: Seq<char>|
        !(seen(w, i, g) && !has_joined(was, g)) ==> same_entry(
            pre.kv.table(),
            post.kv.table(),
            #[trigger] group_key_text(g, pre.me()),
        )
}

/// The writes by which the wanted groups that are not joined yet are entered.
pub open spec fn entry_ops(was: Seq<ProjectionView>, w: Seq<(Seq<char>, GroupDefView)>, own: NodeView) -> Seq<
    WriteOp,
>
    decreases w.len(),
{
    if w.len() == 0 {
        Seq::empty()
    } else if has_joined(was, w.last().0) {
        entry_ops(was, w.drop_last(), own)
    } else {
        entry_ops(was, w.drop_last(), own).push(membership_op(w.last().0, own, true))
    }
}

/// The deletions by which the groups `gone` are left.
pub open spec fn leave_ops(gone: Seq<Seq<char>>, own: NodeView) -> Seq<WriteOp> {
    gone.map_values(|g: Seq<char>| membership_op(g, own, false))
}

/// Whether a write is due when the groups `was` were joined and the table is
/// `t`: to enter what is wanted and not joined, and to leave what is joined and
/// not wanted.
pub open spec fn membership_due(op: WriteOp, was: Seq<ProjectionView>, t: Table, own: NodeView) -> bool {
    exists|g: Seq<char>| #[trigger]
        has_joined(was, g) != wanted(t, own, g) && op == membership_op(g, own, wanted(t, own, g))
}

/// `ops` holds each write that is due once, and no others.
pub open spec fn lists_memberships(ops: Seq<WriteOp>, was: Seq<ProjectionView>, t: Table, own: NodeView) -> bool {
    &&& ops.no_duplicates()
    &&& forall|op: WriteOp| #[trigger] ops.contains(op) <==> membership_due(op, was, t, own)
}

proof fn lemma_entry_ops(was: Seq<ProjectionView>, w: Seq<(Seq<char>, GroupDefView)>, own: NodeView)
    requires
        forall|i: int, j: int| 0 <= i < j < w.len() ==> (#[trigger] w[i]).0 != (#[trigger] w[j]).0,
    ensures
        entry_ops(was, w, own).no_duplicates(),
        forall|op: WriteOp| #[trigger]
            entry_ops(was, w, own).contains(op) <==> exists|a: int|
                0 <= a < w.len() && !has_joined(was, (#[trigger] w[a]).0) && op == membership_op(w[a].0, own, true),
    decreases w.len(),
{
    let ops = entry_ops(was, w, own);
    if w.len() > 0 {
        let v = w.drop_last();
        let last = w.len() - 1;
        let front = entry_ops(was, v, own);
        let x = membership_op(w[last].0, own, true);
        lemma_entry_ops(was, v, own);
        if !has_joined(was, w[last].0) {
            if front.contains(x) {
                let a = choose|a: int|
                    0 <= a < v.len() && !has_joined(was, (#[trigger] v[a]).0) && x == membership_op(v[a].0, own, true);
                assert(w[a].0 != w[last].0);
                crate::mesh::lemma_group_key_injective(w[a].0, w[last].0, own);
            }
            lemma_push_new(front, x);
        }
        assert forall|op: WriteOp| #[trigger] ops.contains(op) <==> exists|a: int|
            0 <= a < w.len() && !has_joined(was, (#[trigger] w[a]).0) && op == membership_op(w[a].0, own, true) by {
            assert(ops.contains(op) <==> ops.to_set().contains(op));
            assert(front.contains(op) <==> front.to_set().contains(op));
            if front.contains(op) {
                let a = choose|a: int|
                    0 <= a < v.len() && !has_joined(was, (#[trigger] v[a]).0) && op == membership_op(v[a].0, own, true);
                assert(w[a] == v[a]);
            }
            if ops.contains(op) && !front.contains(op) {
                assert(op == membership_op(w[last].0, own, true));
            }
            if exists|a: int|
                0 <= a < w.len() && !has_joined(was, (#[trigger] w[a]).0) && op == membership_op(w[a].0, own, true) {
                let a = choose|a: int|
                    0 <= a < w.len() && !has_joined(was, (#[trigger] w[a]).0) && op == membership_op(w[a].0, own, true);
                if a < last {
                    assert(v[a] == w[a]);
                    assert(front.contains(op));
                }
            }
        }
    }
}

proof fn lemma_leave_ops(gone: Seq<Seq<char>>, own: NodeView)
    requires
        gone.no_duplicates(),
    ensures
        leave_ops(gone, own).no_duplicates(),
        forall|op: WriteOp| #[trigger]
            leave_ops(gone, own).contains(op) <==> exists|g: Seq<char>| #[trigger]
                gone.contains(g) && op == membership_op(g, own, false),
{
    let ops = leave_ops(gone, own);
    assert forall|i: int, j: int| 0 <= i < ops.len() && 0 <= j < ops.len() && i != j implies ops[i] != ops[j] by {
        assert(gone[i] != gone[j]);
        crate::mesh::lemma_group_key_injective(gone[i], gone[j], own);
    }
    assert forall|op: WriteOp| #[trigger] ops.contains(op) <==> exists|g: Seq<char>| #[trigger]
        gone.contains(g) && op == membership_op(g, own, false) by {
        if ops.contains(op) {
            let i = choose|i: int| 0 <= i < ops.len() && ops[i] == op;
            assert(gone.contains(gone[i]));
        }
        if exists|g: Seq<char>| #[trigger] gone.contains(g) && op == membership_op(g, own, false) {
            let g = choose|g: Seq<char>| #[trigger] gone.contains(g) && op == membership_op(g, own, false);
            let i = choose|i: int| 0 <= i < gone.len() && gone[i] == g;
            assert(ops[i] == op);
        }
    }
}

/// Entering and then leaving makes the writes that are due, each once.
proof fn lemma_memberships(
    was: Seq<ProjectionView>,
    w: Seq<(Seq<char>, GroupDefView)>,
    gone: Seq<Seq<char>>,
    t: Table,
    own: NodeView,
)
    requires
        lists_wanted(w, t, own),
        gone.no_duplicates(),
        forall|g: Seq<char>| #[trigger] gone.contains(g) <==> has_joined(was, g) && !wanted(t, own, g),
    ensures
        lists_memberships(entry_ops(was, w, own) + leave_ops(gone, own), was, t, own),
{
    let a = entry_ops(was, w, own);
    let b = leave_ops(gone, own);
    let ops = a + b;
    lemma_entry_ops(was, w, own);
    lemma_leave_ops(gone, own);
    assert forall|op: WriteOp| a.contains(op) implies op.1 is Some by {}
    assert forall|op: WriteOp| b.contains(op) implies op.1 is None by {}
    assert forall|i: int, j: int| 0 <= i < ops.len() && 0 <= j < ops.len() && i != j implies ops[i] != ops[j] by {
        if i < a.len() && j >= a.len() {
            assert(a.contains(a[i]) && b.contains(b[j - a.len()]));
        } else if j < a.len() && i >= a.len() {
            assert(a.contains(a[j]) && b.contains(b[i - a.len()]));
        }
    }
    assert forall|op: WriteOp| #[trigger] ops.contains(op) <==> membership_due(op, was, t, own) by {
        if ops.contains(op) {
            let i = choose|i: int| 0 <= i < ops.len() && ops[i] == op;
            if i < a.len() {
                assert(a.contains(op));
                let q = choose|q: int|
                    0 <= q < w.len() && !has_joined(was, (#[trigger] w[q]).0) && op == membership_op(w[q].0, own, true);
                assert(wanted(t, own, w[q].0));
                assert(has_joined(was, w[q].0) != wanted(t, own, w[q].0));
            } else {
                assert(b[i - a.len()] == op);
                assert(b.contains(op));
                let g = choose|g: Seq<char>| #[trigger] gone.contains(g) && op == membership_op(g, own, false);
                assert(has_joined(was, g) != wanted(t, own, g));
            }
        }
        if membership_due(op, was, t, own) {
            let g = choose|g: Seq<char>| #[trigger]
                has_joined(was, g) != wanted(t, own, g) && op == membership_op(g, own, wanted(t, own, g));
            if wanted(t, own, g) {
                let q = choose|q: int| 0 <= q < w.len() && (#[trigger] w[q]).0 == g;
                assert(a.contains(op));
                let i = choose|i: int| 0 <= i < a.len() && a[i] == op;
                assert(ops[i] == op);
            } else {
                assert(gone.contains(g));
                assert(b.contains(op));
                let i = choose|i: int| 0 <= i < b.len() && b[i] == op;
                assert(ops[i + a.len()] == op);
            }
        }
    }
}

/// The memberships once the groups `gone` have been left.
pub open spec fn left_groups(pre: MeshHandle, post: MeshHandle, gone: Set<Seq<char>>) -> bool {
    &&& post.me() == pre.me()
    &&& post.log == pre.log
    &&& same_but_memberships(pre.kv.table(), post.kv.table(), pre.me())
    &&& text_set(post.groups) == text_set(pre.groups).difference(gone)
    &&& forall|g: Seq<char>| #[trigger]
        live(post.kv.table(), group_key_text(g, pre.me())) == (if gone.contains(g) {
            None
        } else {
            live(pre.kv.table(), group_key_text(g, pre.me()))
        })
    &&& forall|g: Seq<char>|
        !gone.contains(g) ==> same_entry(
            pre.kv.table(),
            post.kv.table(),
            #[trigger] group_key_text(g, pre.me()),
        )
}

impl EmergentGroups {
    /// No group joined.
    pub fn new() -> (e: EmergentGroups)
        ensures
            e.joined@.len() == 0,
    {
        EmergentGroups { joined: Vec::new() }
    }

    fn find(&self, group: &str) -> (r: Option<usize>)
        ensures
            r matches Some(i) ==> i < self.joined@.len() && self.joined@[i as int].group@ == group@,
            r is None ==> !has_joined(projection_views(self.joined@), group@),
    {
        let mut i: usize = 0;
        while i < self.joined.len()
            invariant
                i <= self.joined.len(),
                forall|k: int| 0 <= k < i ==> (#[trigger] self.joined@[k]).group@ != group@,
            decreases self.joined.len() - i,
        {
            if same_text(self.joined[i].group.as_str(), group) {
                return Some(i);
            }
            i += 1;
        }
        proof {
            let v = projection_views(self.joined@);
            assert forall|k: int| 0 <= k < v.len() implies (#[trigger] v[k]).0 != group@ by {
                assert(self.joined@[k].group@ != group@);
            }
        }
        None
    }

    /// Joins the wanted groups that are not joined yet, and takes over the
    /// definitions of the others.
    fn join_wanted(&mut self, mesh: &mut MeshHandle, wanted_list: Vec<(String, CapabilityGroupDef)>, now_ms: u64) -> (actions: Vec<GroupAction>)
        requires
            old(mesh).wf(),
            groups_distinct(projection_views(old(self).joined@)),
            forall|i: int, j: int|
                0 <= i < j < wanted_list@.len() ==> (#[trigger] def_views(wanted_list@)[i]).0 != (
                #[trigger] def_views(wanted_list@)[j]).0,
            crate::opacity::has_room(old(mesh).kv, now_ms, wanted_list@.len() as int),
        ensures
            final(mesh).wf(),
            joined_upto(
                projection_views(final(self).joined@),
                projection_views(old(self).joined@),
                def_views(wanted_list@),
                wanted_list@.len() as int,
            ),
            final(self).joined@.len() <= old(self).joined@.len() + wanted_list@.len(),
            entered_upto(
                *old(mesh),
                *final(mesh),
                projection_views(old(self).joined@),
                def_views(wanted_list@),
                wanted_list@.len() as int,
            ),
            forall|a: ActionView| #[trigger]
                action_views(actions@).contains(a) <==> due_upto(
                    a,
                    projection_views(old(self).joined@),
                    def_views(wanted_list@),
                    wanted_list@.len() as int,
                ),
            action_views(actions@).no_duplicates(),
            wrote_all(
                old(mesh).kv,
                final(mesh).kv,
                entry_ops(projection_views(old(self).joined@), def_views(wanted_list@), old(mesh).me()),
                now_ms,
            ),
            final(mesh).kv.clock <= old(mesh).kv.clock + wanted_list@.len() || final(mesh).kv.clock
                <= packed(now_ms) + wanted_list@.len(),
    {
        let ghost all = wanted_list@;
        let ghost w = def_views(all);
        let ghost was = projection_views(self.joined@);
        let ghost pre0 = *mesh;
        let ghost me = mesh.me();
        let mut rest = wanted_list;
        let n: usize = rest.len();
        let mut actions: Vec<GroupAction> = Vec::new();
        let mut i: usize = 0;
        proof {
            assert(all.skip(0) =~= all);
            assert(action_views(actions@) =~= Seq::empty());
            assert forall|j: int| 0 <= j < was.len() implies was.contains(#[trigger] was[j]) by {}
            assert(w.take(0) =~= Seq::empty());
        }
        while i < n
            invariant
                i <= n == all.len(),
                w == def_views(all),
                rest@ == all.skip(i as int),
                was == projection_views(old(self).joined@),
                groups_distinct(was),
                pre0 == *old(mesh),
                me == pre0.me(),
                forall|x: int, y: int| 0 <= x < y < w.len() ==> (#[trigger] w[x]).0 != (#[trigger] w[y]).0,
                mesh.wf(),
                crate::opacity::has_room(mesh.kv, now_ms, n - i),
                mesh.kv.clock <= pre0.kv.clock + i || mesh.kv.clock <= packed(now_ms) + i,
                joined_upto(projection_views(self.joined@), was, w, i as int),
                self.joined@.len() <= old(self).joined@.len() + i,
                entered_upto(pre0, *mesh, was, w, i as int),
                wrote_all(pre0.kv, mesh.kv, entry_ops(was, w.take(i as int), me), now_ms),
                action_views(actions@).no_duplicates(),
                forall|a: ActionView| #[trigger] action_views(actions@).contains(a) <==> due_upto(a, was, w, i as int),
            decreases n - i,
        {
            let ghost bv = projection_views(self.joined@);
            let ghost acts = action_views(actions@);
            let ghost pre = *mesh;
            let (group, def) = rest.remove(0);
            let ghost g0 = group@;
            let ghost dv = def@;
            proof {
                assert(rest@ =~= all.skip(i + 1));
                assert(w[i as int] == (g0, dv));
                assert(w.take(i + 1).drop_last() =~= w.take(i as int));
                assert(w.take(i + 1).last() == w[i as int]);
                assert forall|a: ActionView| due_for(a, was, w[i as int]) implies !acts.contains(a) by {
                    if acts.contains(a) {
                        let q = choose|q: int| 0 <= q < i && due_for(a, was, #[trigger] w[q]);
                        assert(w[q].0 != w[i as int].0);
                    }
                }
                lemma_seen_step(w, i as int);
                assert(!seen(w, i as int, g0)) by {
                    if seen(w, i as int, g0) {
                        let a = choose|a: int| 0 <= a < i && (#[trigger] w[a]).0 == g0;
                        assert(w[a].0 != w[i as int].0);
                    }
                }
            }
            match self.find(group.as_str()) {
                None => {
                    proof {
                        assert(!has_joined(bv, g0));
                        assert(!has_joined(was, g0));
                    }
                    emit_membership(mesh, group.as_str(), false, now_ms);
                    proof {
                        lemma_membership_write(pre, *mesh, pre0.kv.table(), g0, Some(seq![1u8]), now_ms, n - i);
                        lemma_wrote_more(
                            pre0.kv,
                            pre.kv,
                            mesh.kv,
                            entry_ops(was, w.take(i as int), me),
                            membership_op(g0, me, true),
                            now_ms,
                        );
                    }
                    actions.push(GroupAction::Joined { group: group.clone() });
                    let p = GroupProjection { group, provides: def.provides, needs: def.needs };
                    let ghost pv = (p.group@, cap_views(p.provides@), filter_views(p.needs@));
                    let ghost before = self.joined@;
                    self.joined.push(p);
                    proof {
                        let x = ActionView::Joined { group: g0 };
                        let more = seq![x];
                        assert(action_views(actions@) =~= acts + more);
                        assert(projection_views(self.joined@) =~= bv.push(pv));
                        assert forall|a: ActionView| #[trigger] more.contains(a) <==> due_for(a, was, w[i as int]) by {
                            assert(more[0] == x);
                            if due_for(a, was, w[i as int]) {
                                if a is Changed {
                                    let j = choose|j: int| 0 <= j < was.len() && (#[trigger] was[j]).0 == g0;
                                    assert(has_joined(was, g0));
                                }
                                assert(a == x);
                            }
                        }
                        lemma_actions_step(acts, more, was, w, i as int);
                        assert(more.contains(x));
                        lemma_push_new(acts, x);
                        assert(acts + more =~= acts.push(x));
                        lemma_joined_push(bv, pv, was, w, i as int);
                        assert(entered_upto(pre0, *mesh, was, w, i + 1));
                    }
                },
                Some(at) => {
                    let ghost oldp = bv[at as int];
                    proof {
                        assert(oldp.0 == g0);
                        assert(was.contains(oldp));
                        let q = choose|q: int| 0 <= q < was.len() && was[q] == oldp;
                        assert(was[q].0 == g0);
                        assert(has_joined(was, g0));
                    }
                    let provides_changed = !same_caps(&self.joined[at].provides, &def.provides);
                    let needs_changed = !same_filters(&self.joined[at].needs, &def.needs);
                    proof {
                        let x = ActionView::Changed {
                            group: g0,
                            provides: provides_changed,
                            needs: needs_changed,
                        };
                        assert(provides_changed == (oldp.1 != dv.provides));
                        assert(needs_changed == (oldp.2 != dv.needs));
                        assert forall|a: ActionView| due_for(a, was, w[i as int]) <==> a == x && (provides_changed
                            || needs_changed) by {
                            let q = choose|q: int| 0 <= q < was.len() && was[q] == oldp;
                            assert(was[q].0 == g0);
                            if due_for(a, was, w[i as int]) {
                                if a is Changed {
                                    let j = choose|j: int|
                                        0 <= j < was.len() && (#[trigger] was[j]).0 == g0 && a->provides == (
                                        was[j].1 != dv.provides) && a->Changed_needs == (was[j].2 != dv.needs);
                                    if j < q {
                                        assert(was[j].0 != was[q].0);
                                    } else if q < j {
                                        assert(was[q].0 != was[j].0);
                                    }
                                }
                            }
                        }
                    }
                    if provides_changed || needs_changed {
                        actions.push(
                            GroupAction::Changed {
                                group: group.clone(),
                                provides: provides_changed,
                                needs: needs_changed,
                            },
                        );
                        let p = GroupProjection { group, provides: def.provides, needs: def.needs };
                        let ghost pv = (p.group@, cap_views(p.provides@), filter_views(p.needs@));
                        self.joined.set(at, p);
                        proof {
                            let x = ActionView::Changed {
                                group: g0,
                                provides: provides_changed,
                                needs: needs_changed,
                            };
                            let more = seq![x];
                            assert(more[0] == x);
                            assert(action_views(actions@) =~= acts + more);
                            assert(projection_views(self.joined@) =~= bv.update(at as int, pv));
                            lemma_actions_step(acts, more, was, w, i as int);
                            assert(due_for(x, was, w[i as int]));
                            lemma_push_new(acts, x);
                            assert(acts + more =~= acts.push(x));
                            lemma_joined_update(bv, pv, at as int, was, w, i as int);
                        }
                    } else {
                        proof {
                            let more = Seq::<ActionView>::empty();
                            assert(acts + more =~= acts);
                            assert(bv.update(at as int, oldp) =~= bv);
                            assert(oldp == (g0, dv.provides, dv.needs));
                            lemma_actions_step(acts, more, was, w, i as int);
                            lemma_joined_update(bv, oldp, at as int, was, w, i as int);
                        }
                    }
                    proof {
                        assert(entered_upto(pre0, *mesh, was, w, i + 1));
                    }
                },
            }
            i += 1;
        }
        assert(w.take(i as int) =~= w);
        actions
    }

    /// Leaves the joined groups that are not in `names`, and names them.
    fn leave_others(&mut self, mesh: &mut MeshHandle, names: &Vec<String>, now_ms: u64) -> (gone: Vec<String>)
        requires
            old(mesh).wf(),
            groups_distinct(projection_views(old(self).joined@)),
            crate::opacity::has_room(old(mesh).kv, now_ms, old(self).joined@.len() as int),
        ensures
            final(mesh).wf(),
            groups_distinct(projection_views(final(self).joined@)),
            forall|p: ProjectionView| #[trigger]
                projection_views(final(self).joined@).contains(p) <==> projection_views(
                    old(self).joined@,
                ).contains(p) && crate::text::views(names@).contains(p.0),
            forall|g: Seq<char>| #[trigger]
                crate::text::views(gone@).contains(g) <==> has_joined(projection_views(old(self).joined@), g)
                    && !crate::text::views(names@).contains(g),
            crate::text::views(gone@).no_duplicates(),
            wrote_all(
                old(mesh).kv,
                final(mesh).kv,
                leave_ops(crate::text::views(gone@), old(mesh).me()),
                now_ms,
            ),
            left_groups(*old(mesh), *final(mesh), crate::text::views(gone@).to_set()),
    {
        let ghost was = projection_views(self.joined@);
        let ghost pre0 = *mesh;
        let ghost me = mesh.me();
        let ghost keep = crate::text::views(names@);
        let mut gone: Vec<String> = Vec::new();
        let mut i: usize = 0;
        proof {
            assert(crate::text::views(gone@) =~= Seq::empty());
            assert(crate::text::views(gone@).to_set() =~= Set::empty());
            assert(text_set(mesh.groups).difference(Set::empty()) =~= text_set(mesh.groups));
            assert(leave_ops(crate::text::views(gone@), me) =~= Seq::empty());
        }
        while i < self.joined.len()
            invariant
                i <= self.joined@.len(),
                was == projection_views(old(self).joined@),
                keep == crate::text::views(names@),
                pre0 == *old(mesh),
                me == pre0.me(),
                mesh.wf(),
                groups_distinct(was),
                groups_distinct(projection_views(self.joined@)),
                crate::opacity::has_room(mesh.kv, now_ms, self.joined@.len() - i),
                forall|p: ProjectionView| #[trigger]
                    projection_views(self.joined@).contains(p) <==> was.contains(p)
                        && !crate::text::views(gone@).contains(p.0),
                forall|j: int| 0 <= j < i ==> keep.contains((#[trigger] projection_views(self.joined@)[j]).0),
                forall|g: Seq<char>| #[trigger]
                    crate::text::views(gone@).contains(g) ==> has_joined(was, g) && !keep.contains(g),
                crate::text::views(gone@).no_duplicates(),
                wrote_all(pre0.kv, mesh.kv, leave_ops(crate::text::views(gone@), me), now_ms),
                left_groups(pre0, *mesh, crate::text::views(gone@).to_set()),
            decreases self.joined.len() - i,
        {
            let ghost bv = projection_views(self.joined@);
            let ghost x = bv[i as int];
            let ghost gv = crate::text::views(gone@);
            let ghost pre = *mesh;
            if crate::text::contains_text(names, self.joined[i].group.as_str()) {
                i += 1;
            } else {
                emit_membership(mesh, self.joined[i].group.as_str(), true, now_ms);
                proof {
                    lemma_membership_write(
                        pre,
                        *mesh,
                        pre0.kv.table(),
                        x.0,
                        None,
                        now_ms,
                        self.joined@.len() - i,
                    );
                }
                let p = self.joined.swap_remove(i);
                gone.push(p.group);
                proof {
                    let nv = projection_views(self.joined@);
                    let ng = crate::text::views(gone@);
                    let last = bv.len() - 1;
                    assert(ng =~= gv.push(x.0));
                    assert forall|q: int| 0 <= q < nv.len() implies #[trigger] nv[q] == (if q == i {
                        bv[last]
                    } else {
                        bv[q]
                    }) by {}
                    assert forall|a: int, b: int| 0 <= a < b < nv.len() implies (#[trigger] nv[a]).0 != (
                    #[trigger] nv[b]).0 by {
                        let wa = if a == i {
                            last
                        } else {
                            a
                        };
                        let wb = if b == i {
                            last
                        } else {
                            b
                        };
                        if wa < wb {
                            assert(bv[wa].0 != bv[wb].0);
                        } else {
                            assert(bv[wb].0 != bv[wa].0);
                        }
                    }
                    assert forall|g: Seq<char>| #[trigger] ng.contains(g) <==> gv.contains(g) || g == x.0 by {
                        if ng.contains(g) {
                            let q = choose|q: int| 0 <= q < ng.len() && ng[q] == g;
                            if q < gv.len() {
                                assert(gv[q] == g);
                            }
                        }
                        if gv.contains(g) {
                            let q = choose|q: int| 0 <= q < gv.len() && gv[q] == g;
                            assert(ng[q] == g);
                        }
                        if g == x.0 {
                            assert(ng[gv.len() as int] == g);
                        }
                    }
                    assert(bv.contains(x));
                    assert(was.contains(x));
                    lemma_push_new(gv, x.0);
                    lemma_wrote_more(
                        pre0.kv,
                        pre.kv,
                        mesh.kv,
                        leave_ops(gv, me),
                        membership_op(x.0, me, false),
                        now_ms,
                    );
                    assert(leave_ops(ng, me) =~= leave_ops(gv, me).push(membership_op(x.0, me, false)));
                    assert(has_joined(was, x.0)) by {
                        let q = choose|q: int| 0 <= q < was.len() && was[q] == x;
                        assert(was[q].0 == x.0);
                    }
                    assert forall|p: ProjectionView| #[trigger] nv.contains(p) <==> was.contains(p) && !ng.contains(
                        p.0,
                    ) by {
                        if nv.contains(p) {
                            let q = choose|q: int| 0 <= q < nv.len() && nv[q] == p;
                            let wq = if q == i {
                                last
                            } else {
                                q
                            };
                            assert(bv[wq] == p);
                            assert(bv.contains(p));
                            if wq < i {
                                assert(bv[wq].0 != bv[i as int].0);
                            } else {
                                assert(bv[i as int].0 != bv[wq].0);
                            }
                        }
                        if was.contains(p) && !ng.contains(p.0) {
                            assert(!gv.contains(p.0));
                            assert(bv.contains(p));
                            let q = choose|q: int| 0 <= q < bv.len() && bv[q] == p;
                            assert(q != i);
                            if q == last {
                                assert(nv[i as int] == p);
                            } else {
                                assert(nv[q] == p);
                            }
                        }
                    }
                    assert(ng.to_set() =~= gv.to_set().insert(x.0));
                    assert(text_set(mesh.groups) =~= text_set(pre0.groups).difference(ng.to_set()));
                    assert(left_groups(pre0, *mesh, ng.to_set()));
                }
            }
        }
        proof {
            let fv = projection_views(self.joined@);
            let gv = crate::text::views(gone@);
            assert forall|p: ProjectionView| #[trigger] fv.contains(p) <==> was.contains(p) && keep.contains(p.0) by {
                if fv.contains(p) {
                    let q = choose|q: int| 0 <= q < fv.len() && fv[q] == p;
                    assert(keep.contains(fv[q].0));
                }
                if was.contains(p) && keep.contains(p.0) {
                    assert(!gv.contains(p.0));
                }
            }
            assert forall|g: Seq<char>| #[trigger] gv.contains(g) <==> has_joined(was, g) && !keep.contains(g) by {
                if has_joined(was, g) && !keep.contains(g) {
                    let q = choose|q: int| 0 <= q < was.len() && (#[trigger] was[q]).0 == g;
                    assert(was.contains(was[q]));
                    if !gv.contains(g) {
                        assert(fv.contains(was[q]));
                    }
                }
            }
        }
        gone
    }

    /// Leaves every group, for a node that shuts down. Returns the groups.
    pub fn leave_all(&mut self, mesh: &mut MeshHandle, now_ms: u64) -> (gone: Vec<String>)
        requires
            old(mesh).wf(),
            groups_distinct(projection_views(old(self).joined@)),
            crate::opacity::has_room(old(mesh).kv, now_ms, old(self).joined@.len() as int),
        ensures
            final(mesh).wf(),
            final(self).joined@.len() == 0,
            forall|g: Seq<char>| #[trigger]
                crate::text::views(gone@).contains(g) <==> has_joined(projection_views(old(self).joined@), g),
            crate::text::views(gone@).no_duplicates(),
            wrote_all(
                old(mesh).kv,
                final(mesh).kv,
                leave_ops(crate::text::views(gone@), old(mesh).me()),
                now_ms,
            ),
            left_groups(*old(mesh), *final(mesh), crate::text::views(gone@).to_set()),
    {
        let none: Vec<String> = Vec::new();
        let gone = self.leave_others(mesh, &none, now_ms);
        proof {
            assert(crate::text::views(none@) =~= Seq::empty());
            let v = projection_views(self.joined@);
            if v.len() > 0 {
                assert(v.contains(v[0]));
            }
        }
        gone
    }

    /// Brings the joined groups in line with the table: joins the groups
    /// whose definition the node's capabilities meet, takes over changed
    /// definitions, and leaves the groups that no longer fit. Returns what has
    /// to be done outside.
    pub fn reconcile(&mut self, mesh: &mut MeshHandle, now_ms: u64) -> (actions: Vec<GroupAction>)
        requires
            old(mesh).wf(),
            groups_distinct(projection_views(old(self).joined@)),
            crate::opacity::has_room(
                old(mesh).kv,
                now_ms,
                2 * group_def_keys(old(mesh).kv.table()).len() as int + old(self).joined@.len(),
            ),
        ensures
            final(mesh).wf(),
            groups_distinct(projection_views(final(self).joined@)),
            forall|g: Seq<char>| #[trigger]
                has_joined(projection_views(final(self).joined@), g) <==> wanted(
                    old(mesh).kv.table(),
                    old(mesh).me(),
                    g,
                ),
            forall|p: ProjectionView| #[trigger]
                projection_views(final(self).joined@).contains(p) ==> def_of(old(mesh).kv.table(), p.0)
                    is Some && def_of(old(mesh).kv.table(), p.0)->0.provides == p.1 && def_of(
                    old(mesh).kv.table(),
                    p.0,
                )->0.needs == p.2,
            forall|a: ActionView| #[trigger]
                action_views(actions@).contains(a) <==> due(
                    a,
                    projection_views(old(self).joined@),
                    old(mesh).kv.table(),
                    old(mesh).me(),
                ),
            action_views(actions@).no_duplicates(),
            exists|ops: Seq<WriteOp>| #[trigger]
                wrote_all(old(mesh).kv, final(mesh).kv, ops, now_ms) && lists_memberships(
                    ops,
                    projection_views(old(self).joined@),
                    old(mesh).kv.table(),
                    old(mesh).me(),
                ),
            forall|g: Seq<char>|
                has_joined(projection_views(old(self).joined@), g) == wanted(
                    old(mesh).kv.table(),
                    old(mesh).me(),
                    g,
                ) ==> same_entry(
                    old(mesh).kv.table(),
                    final(mesh).kv.table(),
                    #[trigger] group_key_text(g, old(mesh).me()),
                ),
            final(mesh).me() == old(mesh).me(),
            final(mesh).log == old(mesh).log,
            same_but_memberships(old(mesh).kv.table(), final(mesh).kv.table(), old(mesh).me()),
            forall|g: Seq<char>| #[trigger]
                text_set(final(mesh).groups).contains(g) == (if has_joined(
                    projection_views(old(self).joined@),
                    g,
                ) != wanted(old(mesh).kv.table(), old(mesh).me(), g) {
                    wanted(old(mesh).kv.table(), old(mesh).me(), g)
                } else {
                    text_set(old(mesh).groups).contains(g)
                }),
            forall|g: Seq<char>| #[trigger]
                live(final(mesh).kv.table(), group_key_text(g, old(mesh).me())) == (if has_joined(
                    projection_views(old(self).joined@),
                    g,
                ) == wanted(old(mesh).kv.table(), old(mesh).me(), g) {
                    live(old(mesh).kv.table(), group_key_text(g, old(mesh).me()))
                } else if wanted(old(mesh).kv.table(), old(mesh).me(), g) {
                    Some(seq![1u8])
                } else {
                    None
                }),
    {
        let own = mesh.kv.node_id.copy();
        let defs = wanted_defs(&mesh.kv, &own);
        let ghost t = mesh.kv.table();
        let ghost me = mesh.me();
        let ghost w = def_views(defs@);
        let ghost n = defs@.len() as int;
        let ghost was = projection_views(self.joined@);
        let mut names: Vec<String> = Vec::new();
        let mut i: usize = 0;
        while i < defs.len()
            invariant
                i <= defs.len(),
                w == def_views(defs@),
                names@.len() == i,
                forall|k: int| 0 <= k < i ==> (#[trigger] names@[k])@ == w[k].0,
            decreases defs.len() - i,
        {
            names.push(defs[i].0.clone());
            i += 1;
        }
        proof {
            assert forall|g: Seq<char>| #[trigger] seen(w, n, g) <==> wanted(t, me, g) by {
                if seen(w, n, g) {
                    let a = choose|a: int| 0 <= a < n && (#[trigger] w[a]).0 == g;
                    assert(wanted(t, me, w[a].0));
                }
                if wanted(t, me, g) {
                    let a = choose|a: int| 0 <= a < w.len() && (#[trigger] w[a]).0 == g;
                    assert(w[a].0 == g);
                }
            }
            assert forall|g: Seq<char>| #[trigger] crate::text::views(names@).contains(g) <==> wanted(t, me, g) by {
                let nv = crate::text::views(names@);
                if nv.contains(g) {
                    let q = choose|q: int| 0 <= q < nv.len() && nv[q] == g;
                    assert(names@[q]@ == w[q].0);
                    assert(seen(w, n, g));
                }
                if wanted(t, me, g) {
                    assert(seen(w, n, g));
                    let a = choose|a: int| 0 <= a < n && (#[trigger] w[a]).0 == g;
                    assert(names@[a]@ == w[a].0);
                    assert(nv[a] == g);
                }
            }
        }
        let mut actions = self.join_wanted(mesh, defs, now_ms);
        let ghost mid = projection_views(self.joined@);
        let ghost mid_mesh = *mesh;
        let ghost acts = action_views(actions@);
        let gone = self.leave_others(mesh, &names, now_ms);
        proof {
            assert forall|a: ActionView| a is Left implies !#[trigger] acts.contains(a) by {
                if acts.contains(a) {
                    lemma_due(a, was, t, me, w, n);
                }
            }
        }
        let mut j: usize = 0;
        while j < gone.len()
            invariant
                j <= gone.len(),
                action_views(actions@).no_duplicates(),
                crate::text::views(gone@).no_duplicates(),
                forall|a: ActionView| a is Left ==> !#[trigger] acts.contains(a),
                forall|a: ActionView| #[trigger]
                    action_views(actions@).contains(a) <==> acts.contains(a) || (a is Left && exists|q: int|
                        0 <= q < j && (#[trigger] gone@[q])@ == a->Left_group),
            decreases gone.len() - j,
        {
            let ghost before = action_views(actions@);
            actions.push(GroupAction::Left { group: gone[j].clone() });
            proof {
                let x = ActionView::Left { group: gone@[j as int]@ };
                let after = action_views(actions@);
                assert(after =~= before.push(x));
                if before.contains(x) {
                    let q = choose|q: int| 0 <= q < j && (#[trigger] gone@[q])@ == x->Left_group;
                    assert(crate::text::views(gone@)[q] == crate::text::views(gone@)[j as int]);
                }
                lemma_push_new(before, x);
                assert forall|a: ActionView| #[trigger] after.contains(a) <==> acts.contains(a) || (a is Left && exists|
                    q: int,
                | 0 <= q < j + 1 && (#[trigger] gone@[q])@ == a->Left_group) by {
                    if after.contains(a) {
                        let q = choose|q: int| 0 <= q < after.len() && after[q] == a;
                        if q < before.len() {
                            assert(before[q] == a);
                            assert(before.contains(a));
                        } else {
                            assert(gone@[j as int]@ == a->Left_group);
                        }
                    }
                    if before.contains(a) {
                        let q = choose|q: int| 0 <= q < before.len() && before[q] == a;
                        assert(after[q] == a);
                    }
                    if a is Left && exists|q: int| 0 <= q < j + 1 && (#[trigger] gone@[q])@ == a->Left_group {
                        let q = choose|q: int| 0 <= q < j + 1 && (#[trigger] gone@[q])@ == a->Left_group;
                        if q < j {
                            assert(before.contains(a));
                        } else {
                            assert(a == x);
                            assert(after[before.len() as int] == a);
                        }
                    }
                }
            }
            j += 1;
        }
        proof {
            let gv = crate::text::views(gone@);
            let fv = projection_views(self.joined@);
            assert forall|g: Seq<char>| #[trigger] gv.contains(g) <==> (exists|q: int|
                0 <= q < gone@.len() && (#[trigger] gone@[q])@ == g) by {
                if gv.contains(g) {
                    let q = choose|q: int| 0 <= q < gv.len() && gv[q] == g;
                    assert(gone@[q]@ == g);
                }
                if exists|q: int| 0 <= q < gone@.len() && (#[trigger] gone@[q])@ == g {
                    let q = choose|q: int| 0 <= q < gone@.len() && (#[trigger] gone@[q])@ == g;
                    assert(gv[q] == g);
                }
            }
            assert forall|g: Seq<char>| #[trigger] gv.contains(g) <==> has_joined(was, g) && !wanted(t, me, g) by {
                assert(has_joined(mid, g) <==> has_joined(was, g) || seen(w, n, g));
                assert(crate::text::views(names@).contains(g) <==> wanted(t, me, g));
            }
            lemma_memberships(was, w, gv, t, me);
            lemma_wrote_both(
                old(mesh).kv,
                mid_mesh.kv,
                mesh.kv,
                entry_ops(was, w, me),
                leave_ops(gv, me),
                now_ms,
            );
            assert forall|g: Seq<char>| has_joined(was, g) == wanted(t, me, g) implies same_entry(
                t,
                mesh.kv.table(),
                #[trigger] group_key_text(g, me),
            ) by {
                assert(seen(w, n, g) <==> wanted(t, me, g));
                assert(gv.to_set().contains(g) <==> gv.contains(g));
                assert(same_entry(t, mid_mesh.kv.table(), group_key_text(g, me)));
                assert(same_entry(mid_mesh.kv.table(), mesh.kv.table(), group_key_text(g, me)));
            }
            assert forall|a: ActionView| #[trigger] action_views(actions@).contains(a) <==> due(a, was, t, me) by {
                lemma_due(a, was, t, me, w, n);
                if a is Left {
                    assert(gv.contains(a->Left_group) <==> has_joined(was, a->Left_group) && !wanted(
                        t,
                        me,
                        a->Left_group,
                    ));
                }
            }
            assert forall|p: ProjectionView| #[trigger] fv.contains(p) implies def_of(t, p.0) is Some && def_of(
                t,
                p.0,
            )->0.provides == p.1 && def_of(t, p.0)->0.needs == p.2 by {
                assert(mid.contains(p));
                let j = choose|j: int| 0 <= j < mid.len() && mid[j] == p;
                assert(crate::text::views(names@).contains(p.0));
                assert(seen(w, n, mid[j].0));
                assert(projects(p, w, n));
                let a = choose|a: int|
                    0 <= a < n && (#[trigger] w[a]).0 == p.0 && w[a].1.provides == p.1 && w[a].1.needs == p.2;
                assert(def_of(t, w[a].0) == Some(w[a].1));
            }
            assert forall|g: Seq<char>| #[trigger] has_joined(fv, g) <==> wanted(t, me, g) by {
                if has_joined(fv, g) {
                    let q = choose|q: int| 0 <= q < fv.len() && (#[trigger] fv[q]).0 == g;
                    assert(fv.contains(fv[q]));
                }
                if wanted(t, me, g) {
                    assert(seen(w, n, g));
                    assert(has_joined(mid, g));
                    let q = choose|q: int| 0 <= q < mid.len() && (#[trigger] mid[q]).0 == g;
                    assert(mid.contains(mid[q]));
                    assert(crate::text::views(names@).contains(g));
                    assert(fv.contains(mid[q]));
                    let z = choose|z: int| 0 <= z < fv.len() && fv[z] == mid[q];
                    assert(fv[z].0 == g);
                }
            }
            assert forall|k: Seq<char>| (forall|g: Seq<char>| k != #[trigger] group_key_text(g, me)) implies same_entry(
                t,
                mesh.kv.table(),
                k,
            ) by {
                assert(same_entry(t, mid_mesh.kv.table(), k));
                assert(same_entry(mid_mesh.kv.table(), mesh.kv.table(), k));
            }
            assert forall|g: Seq<char>| #[trigger] text_set(mesh.groups).contains(g) == (if has_joined(was, g)
                != wanted(t, me, g) {
                wanted(t, me, g)
            } else {
                text_set(old(mesh).groups).contains(g)
            }) by {
                assert(gv.to_set().contains(g) <==> gv.contains(g));
                assert(text_set(mid_mesh.groups).contains(g) == (text_set(old(mesh).groups).contains(g) || (seen(
                    w,
                    n,
                    g,
                ) && !has_joined(was, g))));
            }
            assert forall|g: Seq<char>| #[trigger] live(mesh.kv.table(), group_key_text(g, me)) == (if has_joined(
                was,
                g,
            ) == wanted(t, me, g) {
                live(t, group_key_text(g, me))
            } else if wanted(t, me, g) {
                Some(seq![1u8])
            } else {
                None
            }) by {
                assert(gv.to_set().contains(g) <==> gv.contains(g));
                assert(live(mid_mesh.kv.table(), group_key_text(g, me)) == (if seen(w, n, g) && !has_joined(was, g) {
                    Some(seq![1u8])
                } else {
                    live(t, group_key_text(g, me))
                }));
            }
        }
        actions
    }
}

/// Whether an action is due when the groups `was` were joined and the table
/// is `t`: to join what is wanted and not joined, to leave what is joined and
/// not wanted, and to begin anew where a definition changed.
pub open spec fn due(a: ActionView, was: Seq<ProjectionView>, t: Table, own: NodeView) -> bool {
    match a {
        ActionView::Joined { group } => wanted(t, own, group) && !has_joined(was, group),
        ActionView::Left { group } => !wanted(t, own, group) && has_joined(was, group),
        ActionView::Changed { group, provides, needs } => wanted(t, own, group) && (provides || needs)
            && exists|j: int|
            0 <= j < was.len() && (#[trigger] was[j]).0 == group && provides == (was[j].1 != def_of(
                t,
                group,
            )->0.provides) && needs == (was[j].2 != def_of(t, group)->0.needs),
    }
}

proof fn lemma_due(
    a: ActionView,
    was: Seq<ProjectionView>,
    t: Table,
    own: NodeView,
    w: Seq<(Seq<char>, GroupDefView)>,
    n: int,
)
    requires
        lists_wanted(w, t, own),
        n == w.len(),
    ensures
        due_upto(a, was, w, n) <==> !(a is Left) && due(a, was, t, own),
{
    if due_upto(a, was, w, n) {
        let q = choose|q: int| 0 <= q < n && due_for(a, was, #[trigger] w[q]);
        assert(wanted(t, own, w[q].0) && def_of(t, w[q].0) == Some(w[q].1));
        if a is Changed {
            let j = choose|j: int|
                0 <= j < was.len() && (#[trigger] was[j]).0 == w[q].0 && a->provides == (was[j].1
                    != w[q].1.provides) && a->Changed_needs == (was[j].2 != w[q].1.needs);
            assert(was[j].0 == w[q].0);
        }
    }
    if !(a is Left) && due(a, was, t, own) {
        let g = match a {
            ActionView::Joined { group } => group,
            ActionView::Changed { group, .. } => group,
            ActionView::Left { group } => group,
        };
        let q = choose|q: int| 0 <= q < w.len() && (#[trigger] w[q]).0 == g;
        assert(def_of(t, w[q].0) == Some(w[q].1));
        if a is Changed {
            let j = choose|j: int|
                0 <= j < was.len() && (#[trigger] was[j]).0 == g && a->provides == (was[j].1 != def_of(
                    t,
                    g,
                )->0.provides) && a->Changed_needs == (was[j].2 != def_of(t, g)->0.needs);
            assert(was[j].0 == w[q].0);
        }
        assert(due_for(a, was, w[q]));
    }
}

/// A node that is in line with an unchanged table has nothing to do.
pub proof fn law_nothing_due_when_in_line(was: Seq<ProjectionView>, t: Table, own: NodeView, a: ActionView)
    requires
        forall|g: Seq<char>| #[trigger] has_joined(was, g) <==> wanted(t, own, g),
        forall|i: int|
            0 <= i < was.len() ==> def_of(t, (#[trigger] was[i]).0) is Some && def_of(t, was[i].0)->0.provides
                == was[i].1 && def_of(t, was[i].0)->0.needs == was[i].2,
    ensures
        !due(a, was, t, own),
{
    match a {
        ActionView::Joined { group } => {
            assert(has_joined(was, group) <==> wanted(t, own, group));
        },
        ActionView::Left { group } => {
            assert(has_joined(was, group) <==> wanted(t, own, group));
        },
        ActionView::Changed { .. } => {},
    }
}

proof fn lemma_no_membership_key(k: Seq<char>, own: NodeView)
    requires
        has_prefix(k, "cap/"@) || has_prefix(k, GROUP_DEF_PREFIX@),
    ensures
        forall|g: Seq<char>| k != #[trigger] group_key_text(g, own),
{
    reveal_strlit("cap/");
    reveal_strlit("cap-group/");
    reveal_strlit("grp/");
    assert forall|g: Seq<char>| k != #[trigger] group_key_text(g, own) by {
        if has_prefix(k, "cap/"@) {
            assert(k.take(4)[0] == 'c');
        } else {
            assert(k.take(10)[0] == 'c');
        }
        assert(group_key_text(g, own)[0] == 'g');
    }
}

/// Memberships have no influence on which groups are wanted.
proof fn lemma_wanted_apart_from_memberships(a: Table, b: Table, own: NodeView, g: Seq<char>)
    requires
        same_but_memberships(a, b, own),
    ensures
        def_of(a, g) == def_of(b, g),
        wanted(a, own, g) == wanted(b, own, g),
{
    let dk = GROUP_DEF_PREFIX@ + g;
    assert(dk.take(GROUP_DEF_PREFIX@.len() as int) =~= GROUP_DEF_PREFIX@);
    lemma_no_membership_key(dk, own);
    assert(same_entry(a, b, dk));
    let p = own_cap_prefix(own);
    let f = own_cap_reading();
    assert forall|k: Seq<char>| has_prefix(k, p) implies #[trigger] reading_at(a, k, f) == reading_at(b, k, f) by {
        assert(k.take(p.len() as int).take("cap/"@.len() as int) =~= k.take("cap/"@.len() as int));
        assert(p.take("cap/"@.len() as int) =~= "cap/"@);
        lemma_no_membership_key(k, own);
        assert(same_entry(a, b, k));
    }
    assert forall|c: CapView| reading_set(a, p, f).contains(c) <==> reading_set(b, p, f).contains(c) by {
        if reading_set(a, p, f).contains(c) {
            let k = choose|k: Seq<char>| has_prefix(k, p) && (#[trigger] reading_at(a, k, f)) == Some(c);
            assert(reading_at(b, k, f) == Some(c));
        }
        if reading_set(b, p, f).contains(c) {
            let k = choose|k: Seq<char>| has_prefix(k, p) && (#[trigger] reading_at(b, k, f)) == Some(c);
            assert(reading_at(a, k, f) == Some(c));
        }
    }
    assert(reading_set(a, p, f) =~= reading_set(b, p, f));
}

/// A second pass over a table that has not changed but for the memberships of
/// the first writes no membership and finds nothing to do.
pub proof fn law_second_pass_writes_nothing(joined: Seq<ProjectionView>, before: Table, after: Table, own: NodeView)
    requires
        same_but_memberships(before, after, own),
        forall|g: Seq<char>| #[trigger] has_joined(joined, g) <==> wanted(before, own, g),
        forall|p: ProjectionView| #[trigger]
            joined.contains(p) ==> def_of(before, p.0) is Some && def_of(before, p.0)->0.provides == p.1 && def_of(
                before,
                p.0,
            )->0.needs == p.2,
    ensures
        forall|ops: Seq<WriteOp>| #[trigger] lists_memberships(ops, joined, after, own) ==> ops.len() == 0,
        forall|a: ActionView| !#[trigger] due(a, joined, after, own),
{
    assert forall|g: Seq<char>| #[trigger] has_joined(joined, g) <==> wanted(after, own, g) by {
        lemma_wanted_apart_from_memberships(before, after, own, g);
    }
    assert forall|i: int| 0 <= i < joined.len() implies def_of(after, (#[trigger] joined[i]).0) is Some && def_of(
        after,
        joined[i].0,
    )->0.provides == joined[i].1 && def_of(after, joined[i].0)->0.needs == joined[i].2 by {
        assert(joined.contains(joined[i]));
        lemma_wanted_apart_from_memberships(before, after, own, joined[i].0);
    }
    assert forall|ops: Seq<WriteOp>| #[trigger] lists_memberships(ops, joined, after, own) implies ops.len()
        == 0 by {
        if ops.len() > 0 {
            assert(ops.contains(ops[0]));
            let g = choose|g: Seq<char>| #[trigger]
                has_joined(joined, g) != wanted(after, own, g) && ops[0] == membership_op(
                    g,
                    own,
                    wanted(after, own, g),
                );
        }
    }
    assert forall|a: ActionView| !#[trigger] due(a, joined, after, own) by {
        law_nothing_due_when_in_line(joined, after, own, a);
    }
}

/// A node wants into a group exactly if the group is defined and the node itself
/// advertises the capability that the definition asks for.
pub proof fn law_group_wants_its_providers(t: Table, own: NodeView, group: Seq<char>)
    ensures
        live(t, "cap-group/"@ + group) is None ==> !wanted(t, own, group),
        live(t, "cap-group/"@ + group) is Some ==> ({
            let d = group_def_in(live(t, "cap-group/"@ + group)->0);
            &&& d is None ==> !wanted(t, own, group)
            &&& d is Some ==> (wanted(t, own, group) <==> exists|k: Seq<char>|
                has_prefix(k, "cap/"@ + node_text(own) + "/"@) && !locality_key(k) && #[trigger] live(t, k) is Some
                    && cap_in(live(t, k)->0) is Some && ({
                    let c = cap_in(live(t, k)->0)->0;
                    c.namespace == d->0.filter.namespace && c.name == d->0.filter.name
                }))
        }),
{
    if live(t, "cap-group/"@ + group) is Some && group_def_in(live(t, "cap-group/"@ + group)->0) is Some {
        let filter = group_def_in(live(t, "cap-group/"@ + group)->0)->0.filter;
        let f = own_cap_reading();
        let p = own_cap_prefix(own);
        if wanted(t, own, group) {
            let c = choose|c: CapView| #[trigger] reading_set(t, p, f).contains(c) && matches_cap(filter, c);
            let k = choose|k: Seq<char>| has_prefix(k, p) && (#[trigger] reading_at(t, k, f)) == Some(c);
            assert(live(t, k) is Some);
        }
        assert forall|k: Seq<char>|
            has_prefix(k, "cap/"@ + node_text(own) + "/"@) && !locality_key(k) && #[trigger] live(t, k) is Some
                && cap_in(live(t, k)->0) is Some && ({
                let c = cap_in(live(t, k)->0)->0;
                c.namespace == filter.namespace && c.name == filter.name
            }) implies wanted(t, own, group) by {
            let c = cap_in(live(t, k)->0)->0;
            assert(reading_at(t, k, f) == Some(c));
            assert(reading_set(t, p, f).contains(c));
        }
    }
}

/// A group is joined exactly when the node starts to want into it, and left exactly
/// when it stops.
pub proof fn law_joined_when_wanted_left_when_not(was: Seq<ProjectionView>, t: Table, own: NodeView, group: Seq<char>)
    ensures
        due(ActionView::Joined { group }, was, t, own) <==> wanted(t, own, group) && forall|i: int|
            0 <= i < was.len() ==> (#[trigger] was[i]).0 != group,
        due(ActionView::Left { group }, was, t, own) <==> !wanted(t, own, group) && exists|i: int|
            0 <= i < was.len() && (#[trigger] was[i]).0 == group,
        membership_op(group, own, true) == ("grp/"@ + group + "/"@ + node_text(own), Some(seq![1u8])),
        membership_op(group, own, false) == ("grp/"@ + group + "/"@ + node_text(own), None::<Seq<u8>>),
{
}

/// A projection is done anew exactly where the node stays in a group whose definition
/// provides or needs something else than before.
pub proof fn law_changed_definition_is_projected_anew(
    was: Seq<ProjectionView>,
    t: Table,
    own: NodeView,
    j: int,
    provides: bool,
    needs: bool,
)
    requires
        groups_distinct(was),
        0 <= j < was.len(),
        wanted(t, own, was[j].0),
    ensures
        due(ActionView::Changed { group: was[j].0, provides, needs }, was, t, own) <==> (provides || needs) && (provides
            <==> def_of(t, was[j].0)->0.provides != was[j].1) && (needs <==> def_of(t, was[j].0)->0.needs != was[j].2),
{
    let g = was[j].0;
    if due(ActionView::Changed { group: g, provides, needs }, was, t, own) {
        let i = choose|i: int|
            0 <= i < was.len() && (#[trigger] was[i]).0 == g && provides == (was[i].1 != def_of(t, g)->0.provides) && needs
                == (was[i].2 != def_of(t, g)->0.needs);
        if i < j {
            assert(was[i].0 != was[j].0);
        } else if j < i {
            assert(was[j].0 != was[i].0);
        }
    }
}

/// A round enters every group that is wanted and not joined, leaves every one that is
/// joined and not wanted, and touches no other membership.
pub proof fn law_round_writes_the_memberships_that_change(
    ops: Seq<WriteOp>,
    was: Seq<ProjectionView>,
    t: Table,
    own: NodeView,
    g: Seq<char>,
)
    requires
        lists_memberships(ops, was, t, own),
    ensures
        ops.contains(("grp/"@ + g + "/"@ + node_text(own), Some(seq![1u8]))) <==> wanted(t, own, g) && forall|i: int|
            0 <= i < was.len() ==> (#[trigger] was[i]).0 != g,
        ops.contains(("grp/"@ + g + "/"@ + node_text(own), None)) <==> !wanted(t, own, g) && exists|i: int|
            0 <= i < was.len() && (#[trigger] was[i]).0 == g,
{
    let enter: WriteOp = ("grp/"@ + g + "/"@ + node_text(own), Some(seq![1u8]));
    let leave: WriteOp = ("grp/"@ + g + "/"@ + node_text(own), None);
    assert(enter == membership_op(g, own, true));
    assert(leave == membership_op(g, own, false));
    if membership_due(enter, was, t, own) {
        let h = choose|h: Seq<char>| #[trigger]
            has_joined(was, h) != wanted(t, own, h) && enter == membership_op(h, own, wanted(t, own, h));
        if h != g {
            crate::mesh::lemma_group_key_injective(h, g, own);
        }
    }
    if membership_due(leave, was, t, own) {
        let h = choose|h: Seq<char>| #[trigger]
            has_joined(was, h) != wanted(t, own, h) && leave == membership_op(h, own, wanted(t, own, h));
        if h != g {
            crate::mesh::lemma_group_key_injective(h, g, own);
        }
    }
    if wanted(t, own, g) != has_joined(was, g) {
        assert(membership_due(membership_op(g, own, wanted(t, own, g)), was, t, own));
    }
}

} // verus!
