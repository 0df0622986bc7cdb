//! Who provides what: capability lookups, the events of a capability watch,
//! requirement status and demand.

use crate::capability::{
    age_of, cap_key_of, cap_key_parts, cap_key_text, fresh, is_cap_locality_key, is_fresh, is_stale,
    law_cap_key_round_trip, law_fresh_for_three_intervals, locality_key, matches_cap, may_see,
    parse_cap_key, CallerContext, CapEntry, CapFilter, CapView, Capability, FilterView,
    ReqEntry,
};
use crate::capcodec::{cap_in, entry_in, req_or_filter_in};
use crate::kv::KvHandle;
use crate::node_id::{contains_node, denotes, node_text, node_views, valid_host, NodeId, NodeView};
use crate::scan::{
    lemma_pick, lemma_picked_all, lemma_read_all, lemma_read_step, lemma_skip, lists_readings, picked,
    read_so_far, reading_at, reading_set, readings_by_key, Reading,
};
use crate::store::{live, Table};
use crate::text::{has_prefix, has_suffix, join2, join3, same_text, split_once, strip_prefix};
use vstd::prelude::*;

verus! {

// ── Providers ────────────────────────────────────────────────────────────────

/// What a lookup makes of an entry under `cap/`: the provider, where the key
/// and the value are well-formed, the advertisement is fresh and young enough,
/// the filter matches and the caller may see it.
pub open spec fn provider_at(
    filter: FilterView,
    caller: Option<Seq<char>>,
    now_ms: u64,
    k: Seq<char>,
    v: Seq<u8>,
    ts: u64,
) -> Option<(NodeView, CapView)> {
    if locality_key(k) {
        None
    } else {
        match (cap_key_parts("cap/"@, k), entry_in(v)) {
            (Some(key), Some(entry)) => if fresh(entry.1, ts, now_ms) && (filter.max_age_ms is Some
                ==> age_of(ts, now_ms) <= filter.max_age_ms->0) && matches_cap(filter, entry.0)
                && may_see(caller, entry.0) {
                Some((key.0, entry.0))
            } else {
                None
            },
            _ => None,
        }
    }
}

/// [`provider_at`] as a reading of the table.
pub open spec fn provider_reading(filter: FilterView, caller: Option<Seq<char>>, now_ms: u64) -> Reading<
    (NodeView, CapView),
> {
    |k: Seq<char>, v: Seq<u8>, ts: u64| provider_at(filter, caller, now_ms, k, v, ts)
}

pub open spec fn provider_views(v: Seq<(NodeId, Capability)>) -> Seq<(NodeView, CapView)> {
    v.map_values(|p: (NodeId, Capability)| (p.0@, p.1@))
}

pub(crate) fn read_provider(
    key: &String,
    value: &Vec<u8>,
    ts: u64,
    filter: &CapFilter,
    caller: &CallerContext,
    now_ms: u64,
) -> (r: Option<(NodeId, Capability)>)
    ensures
        r is Some <==> provider_at(filter@, caller.id(), now_ms, key@, value@, ts) is Some,
        r matches Some(p) ==> provider_at(filter@, caller.id(), now_ms, key@, value@, ts) == Some(
            (p.0@, p.1@),
        ),
        r matches Some(p) ==> p.0.wf(),
{
    if is_cap_locality_key(key.as_str()) {
        return None;
    }
    let (node, _ns, _name) = match parse_cap_key("cap/", key.as_str()) {
        Some(p) => p,
        None => {
            return None;
        },
    };
    let entry = match CapEntry::decode(value) {
        Some(e) => e,
        None => {
            return None;
        },
    };
    if !is_fresh(entry.refresh_interval_ms, ts, now_ms) {
        return None;
    }
    match filter.max_age_ms {
        Some(max_age) => {
            if is_stale(ts, now_ms, max_age) {
                return None;
            }
        },
        None => {},
    }
    if filter.matches(&entry.capability) && caller.can_see(&entry.capability) {
        Some((node, entry.capability))
    } else {
        None
    }
}

impl KvHandle {
    /// Every provider of a fresh capability that meets `filter` and that the
    /// caller may see, in no particular order.
    pub fn resolve_for_caller(&self, filter: &CapFilter, caller: &CallerContext, now_ms: u64) -> (r: Vec<
        (NodeId, Capability),
    >)
        ensures
            lists_readings(
                provider_views(r@),
                self.table(),
                "cap/"@,
                provider_reading(filter@, caller.id(), now_ms),
            ),
            forall|i: int| 0 <= i < r@.len() ==> (#[trigger] r@[i]).0.wf(),
    {
        let found = self.scan_prefix_with_ts("cap/");
        let ghost f = provider_reading(filter@, caller.id(), now_ms);
        let ghost mut src: Seq<int> = Seq::empty();
        let mut out: Vec<(NodeId, Capability)> = Vec::new();
        let mut i: usize = 0;
        assert(provider_views(out@) =~= Seq::empty());
        while i < found.len()
            invariant
                i <= found.len(),
                f == provider_reading(filter@, caller.id(), now_ms),
                picked(found@, i as int, src, provider_views(out@), f),
                forall|i: int| 0 <= i < out@.len() ==> (#[trigger] out@[i]).0.wf(),
            decreases found.len() - i,
        {
            match read_provider(&found[i].0, &found[i].1, found[i].2, filter, caller, now_ms) {
                Some(p) => {
                    proof {
                        lemma_pick(found@, i as int, src, provider_views(out@), f, (p.0@, p.1@));
                        src = src.push(i as int);
                        assert(provider_views(out@.push(p)) =~= provider_views(out@).push((p.0@, p.1@)));
                    }
                    out.push(p);
                },
                None => {
                    proof {
                        lemma_skip(found@, i as int, src, provider_views(out@), f);
                    }
                },
            }
            i += 1;
        }
        proof {
            lemma_picked_all(found@, self.table(), "cap/"@, src, provider_views(out@), f);
        }
        out
    }

    /// Every provider of a fresh capability that meets `filter`, in no
    /// particular order.
    pub fn resolve(&self, filter: &CapFilter, now_ms: u64) -> (r: Vec<(NodeId, Capability)>)
        ensures
            lists_readings(
                provider_views(r@),
                self.table(),
                "cap/"@,
                provider_reading(filter@, None, now_ms),
            ),
            forall|i: int| 0 <= i < r@.len() ==> (#[trigger] r@[i]).0.wf(),
    {
        self.resolve_for_caller(filter, &CallerContext::unrestricted(), now_ms)
    }

    /// Whether some provider of a fresh capability meets `filter`.
    pub fn is_satisfied(&self, filter: &CapFilter, now_ms: u64) -> (r: bool)
        ensures
            r == satisfied(self.table(), filter@, now_ms),
    {
        let p = self.resolve(filter, now_ms);
        proof {
            lemma_satisfied(provider_views(p@), self.table(), filter@, now_ms);
        }
        p.len() > 0
    }
}

/// Whether some live entry makes a provider for `filter`.
pub open spec fn satisfied(t: Table, filter: FilterView, now_ms: u64) -> bool {
    exists|k: Seq<char>|
        has_prefix(k, "cap/"@) && (#[trigger] crate::scan::reading_at(
            t,
            k,
            provider_reading(filter, None, now_ms),
        )) is Some
}

/// A lookup finds somebody exactly if somebody provides.
pub proof fn lemma_satisfied(r: Seq<(NodeView, CapView)>, t: Table, filter: FilterView, now_ms: u64)
    requires
        lists_readings(r, t, "cap/"@, provider_reading(filter, None, now_ms)),
    ensures
        satisfied(t, filter, now_ms) == (r.len() > 0),
{
    let f = provider_reading(filter, None, now_ms);
    let ks = choose|ks: Seq<Seq<char>>| #[trigger] crate::scan::readings_by_key(r, ks, t, "cap/"@, f);
    if r.len() > 0 {
        assert(has_prefix(ks[0], "cap/"@) && crate::scan::reading_at(t, ks[0], f) == Some(r[0]));
    }
    if satisfied(t, filter, now_ms) {
        let k = choose|k: Seq<char>|
            has_prefix(k, "cap/"@) && (#[trigger] crate::scan::reading_at(t, k, f)) is Some;
        assert(ks.contains(k));
    }
}

// ── Requirement status ───────────────────────────────────────────────────────

/// Whether a requirement is met, and by whom.
pub enum RequirementStatus {
    Satisfied { providers: Vec<(NodeId, Capability)> },
    Unsatisfied { filter: CapFilter },
}

/// The status of a requirement at `now_ms`.
pub fn requirement_status(kv: &KvHandle, filter: &CapFilter, now_ms: u64) -> (s: RequirementStatus)
    ensures
        s is Satisfied <==> satisfied(kv.table(), filter@, now_ms),
        s matches RequirementStatus::Satisfied { providers } ==> lists_readings(
            provider_views(providers@),
            kv.table(),
            "cap/"@,
            provider_reading(filter@, None, now_ms),
        ),
        s matches RequirementStatus::Unsatisfied { filter: f } ==> f@ == filter@,
{
    let providers = kv.resolve(filter, now_ms);
    proof {
        lemma_satisfied(provider_views(providers@), kv.table(), filter@, now_ms);
    }
    if providers.len() == 0 {
        RequirementStatus::Unsatisfied {
            filter: CapFilter {
                namespace: filter.namespace.clone(),
                name: filter.name.clone(),
                max_age_ms: filter.max_age_ms,
            },
        }
    } else {
        RequirementStatus::Satisfied { providers }
    }
}

// ── Capability watch ─────────────────────────────────────────────────────────

/// A capability that a watch has reported, by the key it was found under.
pub struct KnownCap {
    pub node: NodeId,
    pub namespace: String,
    pub name: String,
    pub capability: Capability,
}

/// The key of a [`KnownCap`].
pub type CapKey = (NodeView, Seq<char>, Seq<char>);

impl KnownCap {
    pub open spec fn key(&self) -> CapKey {
        (self.node@, self.namespace@, self.name@)
    }

    fn same_key(&self, other: &KnownCap) -> (r: bool)
        ensures
            r == (self.key() == other.key()),
    {
        self.node.same(&other.node) && same_text(self.namespace.as_str(), other.namespace.as_str())
            && same_text(self.name.as_str(), other.name.as_str())
    }
}

/// The model of a [`KnownCap`].
pub type KnownView = (CapKey, CapView);

pub open spec fn known_views(v: Seq<KnownCap>) -> Seq<KnownView> {
    v.map_values(|c: KnownCap| (c.key(), c.capability@))
}

/// Whether `v` holds the key `k`.
pub open spec fn has_cap_key(v: Seq<KnownView>, k: CapKey) -> bool {
    exists|i: int| 0 <= i < v.len() && #[trigger] v[i].0 == k
}

/// What a watcher is told.
pub enum CapabilityEvent {
    Added { node_id: NodeId, capability: Capability },
    Removed { node_id: NodeId, namespace: String, name: String },
}

#[verifier::ext_equal]
pub enum EventView {
    Added { node_id: NodeView, capability: CapView },
    Removed { node_id: NodeView, namespace: Seq<char>, name: Seq<char> },
}

impl View for CapabilityEvent {
    type V = EventView;

    open spec fn view(&self) -> EventView {
        match self {
            CapabilityEvent::Added { node_id, capability } => EventView::Added {
                node_id: node_id@,
                capability: capability@,
            },
            CapabilityEvent::Removed { node_id, namespace, name } => EventView::Removed {
                node_id: node_id@,
                namespace: namespace@,
                name: name@,
            },
        }
    }
}

pub open spec fn event_views(v: Seq<CapabilityEvent>) -> Seq<EventView> {
    v.map_values(|e: CapabilityEvent| e@)
}

/// One removal for each known key that is no longer there.
pub open spec fn removals(known: Seq<KnownView>, current: Seq<KnownView>) -> Seq<EventView>
    decreases known.len(),
{
    if known.len() == 0 {
        Seq::empty()
    } else {
        let front = removals(known.drop_last(), current);
        let k = known.last().0;
        if has_cap_key(current, k) {
            front
        } else {
            front.push(EventView::Removed { node_id: k.0, namespace: k.1, name: k.2 })
        }
    }
}

/// One addition for each current capability that was not known or has
/// changed.
pub open spec fn additions(known: Seq<KnownView>, current: Seq<KnownView>) -> Seq<EventView>
    decreases current.len(),
{
    if current.len() == 0 {
        Seq::empty()
    } else {
        let front = additions(known, current.drop_last());
        let c = current.last();
        if known.contains(c) {
            front
        } else {
            front.push(EventView::Added { node_id: c.0.0, capability: c.1 })
        }
    }
}

fn knows_key(v: &Vec<KnownCap>, c: &KnownCap) -> (r: bool)
    ensures
        r == has_cap_key(known_views(v@), c.key()),
{
    let mut i: usize = 0;
    while i < v.len()
        invariant
            i <= v.len(),
            forall|k: int| 0 <= k < i ==> v@[k].key() != c.key(),
        decreases v.len() - i,
    {
        if v[i].same_key(c) {
            assert(known_views(v@)[i as int].0 == c.key());
            return true;
        }
        i += 1;
    }
    assert forall|k: int| 0 <= k < known_views(v@).len() implies (#[trigger] known_views(v@)[k]).0
        != c.key() by {
        assert(v@[k].key() != c.key());
    }
    false
}

fn knows_same(v: &Vec<KnownCap>, c: &KnownCap) -> (r: bool)
    ensures
        r == known_views(v@).contains((c.key(), c.capability@)),
{
    let mut i: usize = 0;
    while i < v.len()
        invariant
            i <= v.len(),
            forall|k: int| 0 <= k < i ==> !(v@[k].key() == c.key() && v@[k].capability@ == c.capability@),
        decreases v.len() - i,
    {
        if v[i].same_key(c) && v[i].capability.same(&c.capability) {
            assert(known_views(v@)[i as int] == (c.key(), c.capability@));
            return true;
        }
        i += 1;
    }
    assert forall|k: int| 0 <= k < known_views(v@).len() implies known_views(v@)[k] != (
        c.key(),
        c.capability@,
    ) by {
        assert(!(v@[k].key() == c.key() && v@[k].capability@ == c.capability@));
    }
    false
}

/// What a watcher has to be told when `known` has become `current`: first
/// what is gone, then what is new or changed. `current` is what is known from
/// then on.
pub fn capability_events(known: &Vec<KnownCap>, current: &Vec<KnownCap>) -> (events: Vec<CapabilityEvent>)
    ensures
        event_views(events@) == removals(known_views(known@), known_views(current@)) + additions(
            known_views(known@),
            known_views(current@),
        ),
        forall|j: int|
            0 <= j < current@.len() && !known_views(known@).contains(
                #[trigger] known_views(current@)[j],
            ) ==> event_views(events@).contains(
                (EventView::Added {
                    node_id: current@[j].node@,
                    capability: current@[j].capability@,
                }),
            ),
        forall|j: int|
            0 <= j < known@.len() && (forall|i: int|
                0 <= i < current@.len() ==> (#[trigger] current@[i]).key() != known@[j].key())
                ==> event_views(events@).contains(
                (EventView::Removed {
                    node_id: (#[trigger] known@[j]).node@,
                    namespace: known@[j].namespace@,
                    name: known@[j].name@,
                }),
            ),
{
    let ghost kv = known_views(known@);
    let ghost cv = known_views(current@);
    let mut events: Vec<CapabilityEvent> = Vec::new();
    let mut i: usize = 0;
    assert(kv.take(0) =~= Seq::empty());
    assert(event_views(events@) =~= Seq::empty());
    while i < known.len()
        invariant
            i <= known.len(),
            kv == known_views(known@),
            cv == known_views(current@),
            event_views(events@) == removals(kv.take(i as int), cv),
        decreases known.len() - i,
    {
        proof {
            assert(kv.take(i + 1).drop_last() =~= kv.take(i as int));
            assert(kv.take(i + 1).last() == kv[i as int]);
        }
        let ghost before = events@;
        if !knows_key(current, &known[i]) {
            let e = CapabilityEvent::Removed {
                node_id: known[i].node.copy(),
                namespace: known[i].namespace.clone(),
                name: known[i].name.clone(),
            };
            events.push(e);
            assert(event_views(events@) =~= event_views(before).push(e@));
        }
        i += 1;
    }
    assert(kv.take(i as int) =~= kv);
    let ghost gone = event_views(events@);
    let mut j: usize = 0;
    assert(cv.take(0) =~= Seq::empty());
    assert(gone + additions(kv, cv.take(0)) =~= gone);
    while j < current.len()
        invariant
            j <= current.len(),
            kv == known_views(known@),
            cv == known_views(current@),
            event_views(events@) == gone + additions(kv, cv.take(j as int)),
        decreases current.len() - j,
    {
        proof {
            assert(cv.take(j + 1).drop_last() =~= cv.take(j as int));
            assert(cv.take(j + 1).last() == cv[j as int]);
        }
        let ghost before = events@;
        if !knows_same(known, &current[j]) {
            let e = CapabilityEvent::Added {
                node_id: current[j].node.copy(),
                capability: current[j].capability.copy(),
            };
            events.push(e);
            assert(event_views(events@) =~= event_views(before).push(e@));
            assert(event_views(before).push(e@) =~= gone + additions(kv, cv.take(j as int)).push(e@));
        }
        j += 1;
    }
    assert(cv.take(j as int) =~= cv);
    proof {
        assert forall|j: int|
            0 <= j < current@.len() && !kv.contains(#[trigger] cv[j]) implies event_views(events@).contains(
            (EventView::Added { node_id: current@[j].node@, capability: current@[j].capability@ }),
        ) by {
            assert(cv.contains(cv[j]));
            law_changed_capability_is_reported(kv, cv, cv[j]);
            lemma_in_either(removals(kv, cv), additions(kv, cv), EventView::Added {
                node_id: cv[j].0.0,
                capability: cv[j].1,
            });
        }
        assert forall|j: int|
            0 <= j < known@.len() && (forall|i: int|
                0 <= i < current@.len() ==> (#[trigger] current@[i]).key() != known@[j].key())
            implies event_views(events@).contains(
            (EventView::Removed {
                node_id: (#[trigger] known@[j]).node@,
                namespace: known@[j].namespace@,
                name: known@[j].name@,
            }),
        ) by {
            assert(kv[j].0 == known@[j].key());
            assert(kv.contains(kv[j]));
            assert forall|i: int| 0 <= i < cv.len() implies (#[trigger] cv[i]).0 != kv[j].0 by {
                assert(cv[i].0 == current@[i].key());
            }
            law_lost_capability_is_reported(kv, cv, kv[j]);
            lemma_in_either(removals(kv, cv), additions(kv, cv), EventView::Removed {
                node_id: kv[j].0.0,
                namespace: kv[j].0.1,
                name: kv[j].0.2,
            });
        }
    }
    events
}

/// A watcher that is up to date is told nothing.
pub proof fn law_no_change_no_events(known: Seq<KnownView>)
    ensures
        removals(known, known).len() == 0,
        additions(known, known).len() == 0,
{
    lemma_no_removals(known, known);
    lemma_no_additions(known, known);
}

proof fn lemma_no_removals(a: Seq<KnownView>, all: Seq<KnownView>)
    requires
        forall|i: int| 0 <= i < a.len() ==> all.contains(#[trigger] a[i]),
    ensures
        removals(a, all).len() == 0,
    decreases a.len(),
{
    if a.len() > 0 {
        assert forall|i: int| 0 <= i < a.drop_last().len() implies all.contains(
            #[trigger] a.drop_last()[i],
        ) by {
            assert(a.drop_last()[i] == a[i]);
        }
        lemma_no_removals(a.drop_last(), all);
        assert(all.contains(a[a.len() - 1]));
        let j = choose|j: int| 0 <= j < all.len() && all[j] == a.last();
        assert(all[j].0 == a.last().0);
    }
}

proof fn lemma_no_additions(known: Seq<KnownView>, a: Seq<KnownView>)
    requires
        forall|i: int| 0 <= i < a.len() ==> known.contains(#[trigger] a[i]),
    ensures
        additions(known, a).len() == 0,
    decreases a.len(),
{
    if a.len() > 0 {
        assert forall|i: int| 0 <= i < a.drop_last().len() implies known.contains(
            #[trigger] a.drop_last()[i],
        ) by {
            assert(a.drop_last()[i] == a[i]);
        }
        lemma_no_additions(known, a.drop_last());
        assert(known.contains(a[a.len() - 1]));
    }
}

/// What a watch makes of an entry under `cap/`.
pub open spec fn watched_at(filter: FilterView, now_ms: u64, k: Seq<char>, v: Seq<u8>, ts: u64) -> Option<
    KnownView,
> {
    if locality_key(k) {
        None
    } else {
        match (cap_key_parts("cap/"@, k), entry_in(v)) {
            (Some(key), Some(entry)) => if fresh(entry.1, ts, now_ms) && matches_cap(filter, entry.0) {
                Some((key, entry.0))
            } else {
                None
            },
            _ => None,
        }
    }
}

/// [`watched_at`] as a reading of the table.
pub open spec fn watched_reading(filter: FilterView, now_ms: u64) -> Reading<KnownView> {
    |k: Seq<char>, v: Seq<u8>, ts: u64| watched_at(filter, now_ms, k, v, ts)
}

/// The capabilities that a watch of `filter` sees now.
pub fn watched_now(kv: &KvHandle, filter: &CapFilter, now_ms: u64) -> (r: Vec<KnownCap>)
    ensures
        lists_readings(known_views(r@), kv.table(), "cap/"@, watched_reading(filter@, now_ms)),
{
    let found = kv.scan_prefix_with_ts("cap/");
    let ghost f = watched_reading(filter@, now_ms);
    let ghost mut src: Seq<int> = Seq::empty();
    let mut out: Vec<KnownCap> = Vec::new();
    let mut i: usize = 0;
    assert(known_views(out@) =~= Seq::empty());
    while i < found.len()
        invariant
            i <= found.len(),
            f == watched_reading(filter@, now_ms),
            picked(found@, i as int, src, known_views(out@), f),
        decreases found.len() - i,
    {
        match read_watched(&found[i].0, &found[i].1, found[i].2, filter, now_ms) {
            Some(c) => {
                proof {
                    let x = (c.key(), c.capability@);
                    lemma_pick(found@, i as int, src, known_views(out@), f, x);
                    src = src.push(i as int);
                    assert(known_views(out@.push(c)) =~= known_views(out@).push(x));
                }
                out.push(c);
            },
            None => {
                proof {
                    lemma_skip(found@, i as int, src, known_views(out@), f);
                }
            },
        }
        i += 1;
    }
    proof {
        lemma_picked_all(found@, kv.table(), "cap/"@, src, known_views(out@), f);
    }
    out
}

fn read_watched(key: &String, value: &Vec<u8>, ts: u64, filter: &CapFilter, now_ms: u64) -> (r: Option<
    KnownCap,
>)
    ensures
        r is Some <==> watched_at(filter@, now_ms, key@, value@, ts) is Some,
        r matches Some(c) ==> watched_at(filter@, now_ms, key@, value@, ts) == Some(
            (c.key(), c.capability@),
        ),
{
    if is_cap_locality_key(key.as_str()) {
        return None;
    }
    let (node, namespace, name) = match parse_cap_key("cap/", key.as_str()) {
        Some(p) => p,
        None => {
            return None;
        },
    };
    let entry = match CapEntry::decode(value) {
        Some(e) => e,
        None => {
            return None;
        },
    };
    if is_fresh(entry.refresh_interval_ms, ts, now_ms) && filter.matches(&entry.capability) {
        Some(KnownCap { node, namespace, name, capability: entry.capability })
    } else {
        None
    }
}

/// What a watch knows of a provider that a lookup found.
pub open spec fn known_from(p: (NodeView, CapView)) -> KnownView {
    ((p.0, p.1.namespace, p.1.name), p.1)
}

/// What a watch makes of an entry under `cap/` when it begins: unlike later, an
/// advertisement that is older than the filter admits does not count.
pub open spec fn start_reading(filter: FilterView, now_ms: u64) -> Reading<KnownView> {
    |k: Seq<char>, v: Seq<u8>, ts: u64|
        match provider_reading(filter, None, now_ms)(k, v, ts) {
            Some(p) => Some(known_from(p)),
            None => None,
        }
}

/// `known` holds one of `all` for each key that occurs in it, and nothing else.
pub open spec fn one_for_each_key(known: Seq<KnownView>, all: Seq<KnownView>) -> bool {
    &&& forall|i: int| 0 <= i < known.len() ==> all.contains(#[trigger] known[i])
    &&& forall|i: int, j: int| 0 <= i < j < known.len() ==> (#[trigger] known[i]).0 != (#[trigger] known[j]).0
    &&& forall|i: int| 0 <= i < all.len() ==> has_cap_key(known, (#[trigger] all[i]).0)
}

fn first_of_each(all: Vec<KnownCap>) -> (known: Vec<KnownCap>)
    ensures
        one_for_each_key(known_views(known@), known_views(all@)),
{
    let ghost w = known_views(all@);
    let ghost n = all@.len();
    let mut rest = all;
    let mut known: Vec<KnownCap> = Vec::new();
    let mut i: usize = 0;
    let total: usize = rest.len();
    assert(all@.skip(0) =~= all@);
    while i < total
        invariant
            i <= total == n == all@.len(),
            w == known_views(all@),
            rest@ == all@.skip(i as int),
            forall|j: int| 0 <= j < known@.len() ==> w.contains(#[trigger] known_views(known@)[j]),
            forall|j: int, k: int|
                0 <= j < k < known@.len() ==> (#[trigger] known_views(known@)[j]).0 != (
                #[trigger] known_views(known@)[k]).0,
            forall|j: int| 0 <= j < i ==> has_cap_key(known_views(known@), (#[trigger] w[j]).0),
        decreases total - i,
    {
        let ghost before = known_views(known@);
        let c = rest.remove(0);
        let ghost x = (c.key(), c.capability@);
        proof {
            assert(rest@ =~= all@.skip(i + 1));
            assert(w[i as int] == x);
        }
        if !knows_key(&known, &c) {
            known.push(c);
            proof {
                let after = known_views(known@);
                assert(after =~= before.push(x));
                assert forall|j: int| 0 <= j < after.len() implies w.contains(#[trigger] after[j]) by {
                    if j < before.len() {
                        assert(after[j] == before[j]);
                    }
                }
                assert forall|j: int, k: int| 0 <= j < k < after.len() implies (#[trigger] after[j]).0 != (
                #[trigger] after[k]).0 by {
                    assert(after[j] == before[j]);
                    if k < before.len() {
                        assert(after[k] == before[k]);
                    } else {
                        assert(before[j].0 != x.0);
                    }
                }
                assert forall|j: int| 0 <= j < i + 1 implies has_cap_key(after, (#[trigger] w[j]).0) by {
                    if j < i {
                        assert(has_cap_key(before, w[j].0));
                        let q = choose|q: int| 0 <= q < before.len() && (#[trigger] before[q]).0 == w[j].0;
                        assert(after[q].0 == w[j].0);
                    } else {
                        assert(after[before.len() as int].0 == w[j].0);
                    }
                }
            }
        }
        i += 1;
    }
    known
}

/// The beginning of a watch: everything that a lookup of `filter` finds is told,
/// and is what the watch knows from then on.
pub fn watch_start(kv: &KvHandle, filter: &CapFilter, now_ms: u64) -> (r: (Vec<CapabilityEvent>, Vec<KnownCap>))
    ensures
        exists|all: Seq<KnownView>| #[trigger]
            lists_readings(all, kv.table(), "cap/"@, start_reading(filter@, now_ms)) && event_views(r.0@)
                == additions(Seq::empty(), all) && one_for_each_key(known_views(r.1@), all),
{
    let found = kv.resolve(filter, now_ms);
    let ghost fv = provider_views(found@);
    let mut all: Vec<KnownCap> = Vec::new();
    let mut i: usize = 0;
    while i < found.len()
        invariant
            i <= found.len(),
            fv == provider_views(found@),
            all@.len() == i,
            forall|j: int| 0 <= j < i ==> (#[trigger] known_views(all@)[j]) == known_from(fv[j]),
        decreases found.len() - i,
    {
        let ghost before = known_views(all@);
        let c = KnownCap {
            node: found[i].0.copy(),
            namespace: found[i].1.namespace.clone(),
            name: found[i].1.name.clone(),
            capability: found[i].1.copy(),
        };
        let ghost x = (c.key(), c.capability@);
        all.push(c);
        assert(known_views(all@) =~= before.push(x));
        i += 1;
    }
    let none: Vec<KnownCap> = Vec::new();
    let events = capability_events(&none, &all);
    let ghost w = known_views(all@);
    proof {
        assert(known_views(none@) =~= Seq::empty());
        assert(removals(Seq::empty(), w) =~= Seq::empty());
        assert(event_views(events@) =~= additions(Seq::empty(), w));
        let f = provider_reading(filter@, None, now_ms);
        let g = start_reading(filter@, now_ms);
        let t = kv.table();
        let ks = choose|ks: Seq<Seq<char>>| #[trigger] readings_by_key(fv, ks, t, "cap/"@, f);
        assert forall|j: int| 0 <= j < ks.len() implies has_prefix(#[trigger] ks[j], "cap/"@) && reading_at(
            t,
            ks[j],
            g,
        ) == Some(w[j]) by {
            assert(reading_at(t, ks[j], f) == Some(fv[j]));
        }
        assert forall|k: Seq<char>| has_prefix(k, "cap/"@) && (#[trigger] reading_at(t, k, g)) is Some implies ks.contains(
            k,
        ) by {
            assert(reading_at(t, k, f) is Some);
        }
        assert(readings_by_key(w, ks, t, "cap/"@, g));
        assert(lists_readings(w, t, "cap/"@, g));
    }
    let known = first_of_each(all);
    (events, known)
}

/// One round of a watch: looks again, tells what changed, and remembers what
/// it saw, one capability for each node, namespace and name.
pub fn watch_round(kv: &KvHandle, filter: &CapFilter, known: &mut Vec<KnownCap>, now_ms: u64) -> (events: Vec<
    CapabilityEvent,
>)
    ensures
        exists|all: Seq<KnownView>| #[trigger]
            lists_readings(all, kv.table(), "cap/"@, watched_reading(filter@, now_ms)) && one_for_each_key(
                known_views(final(known)@),
                all,
            ),
        event_views(events@) == removals(known_views(old(known)@), known_views(final(known)@))
            + additions(known_views(old(known)@), known_views(final(known)@)),
{
    let current = first_of_each(watched_now(kv, filter, now_ms));
    let events = capability_events(known, &current);
    *known = current;
    events
}

// ── Providers as the gateway lists them ──────────────────────────────────────

/// What the gateway makes of an entry under `cap/`: the provider of a
/// well-formed capability, whatever its age.
pub open spec fn gateway_provider_at(
    filter: FilterView,
    caller: Option<Seq<char>>,
    k: Seq<char>,
    v: Seq<u8>,
) -> Option<(NodeView, CapView)> {
    if locality_key(k) {
        None
    } else {
        match (cap_key_parts("cap/"@, k), cap_in(v)) {
            (Some(key), Some(c)) => if matches_cap(filter, c) && may_see(caller, c) {
                Some((key.0, c))
            } else {
                None
            },
            _ => None,
        }
    }
}

/// [`gateway_provider_at`] as a reading of the table.
pub open spec fn gateway_reading(filter: FilterView, caller: Option<Seq<char>>) -> Reading<(NodeView, CapView)> {
    |k: Seq<char>, v: Seq<u8>, ts: u64| gateway_provider_at(filter, caller, k, v)
}

fn read_gateway_provider(key: &String, value: &Vec<u8>, filter: &CapFilter, caller: &CallerContext) -> (r: Option<
    (NodeId, Capability),
>)
    ensures
        r is Some <==> gateway_provider_at(filter@, caller.id(), key@, value@) is Some,
        r matches Some(p) ==> gateway_provider_at(filter@, caller.id(), key@, value@) == Some(
            (p.0@, p.1@),
        ),
        r matches Some(p) ==> p.0.wf(),
{
    if is_cap_locality_key(key.as_str()) {
        return None;
    }
    let (node, _ns, _name) = match parse_cap_key("cap/", key.as_str()) {
        Some(p) => p,
        None => {
            return None;
        },
    };
    match Capability::decode(value) {
        None => None,
        Some(c) => if filter.matches(&c) && caller.can_see(&c) {
            Some((node, c))
        } else {
            None
        },
    }
}

/// Every provider that the gateway lists for `filter`, in no particular
/// order.
pub fn resolve_cap_providers(kv: &KvHandle, filter: &CapFilter, caller: &CallerContext) -> (r: Vec<
    (NodeId, Capability),
>)
    ensures
        lists_readings(provider_views(r@), kv.table(), "cap/"@, gateway_reading(filter@, caller.id())),
        forall|i: int| 0 <= i < r@.len() ==> (#[trigger] r@[i]).0.wf(),
{
    let found = kv.scan_prefix_with_ts("cap/");
    let ghost f = gateway_reading(filter@, caller.id());
    let ghost mut src: Seq<int> = Seq::empty();
    let mut out: Vec<(NodeId, Capability)> = Vec::new();
    let mut i: usize = 0;
    assert(provider_views(out@) =~= Seq::empty());
    while i < found.len()
        invariant
            i <= found.len(),
            f == gateway_reading(filter@, caller.id()),
            picked(found@, i as int, src, provider_views(out@), f),
            forall|i: int| 0 <= i < out@.len() ==> (#[trigger] out@[i]).0.wf(),
        decreases found.len() - i,
    {
        match read_gateway_provider(&found[i].0, &found[i].1, filter, caller) {
            Some(p) => {
                proof {
                    lemma_pick(found@, i as int, src, provider_views(out@), f, (p.0@, p.1@));
                    src = src.push(i as int);
                    assert(provider_views(out@.push(p)) =~= provider_views(out@).push((p.0@, p.1@)));
                }
                out.push(p);
            },
            None => {
                proof {
                    lemma_skip(found@, i as int, src, provider_views(out@), f);
                }
            },
        }
        i += 1;
    }
    proof {
        lemma_picked_all(found@, kv.table(), "cap/"@, src, provider_views(out@), f);
    }
    out
}

/// The gateway lists `n` as a provider for `filter`.
pub open spec fn listed_provider(t: Table, filter: FilterView, n: NodeView) -> bool {
    exists|k: Seq<char>|
        has_prefix(k, "cap/"@) && (#[trigger] reading_at(t, k, gateway_reading(filter, None))) is Some && (
        reading_at(t, k, gateway_reading(filter, None))->0).0 == n
}

/// Some provider that the gateway lists for `ns/name`, `None` if it lists
/// none.
pub fn first_provider(kv: &KvHandle, ns: &str, name: &str) -> (r: Option<NodeId>)
    ensures
        r is Some <==> exists|n: NodeView| #[trigger]
            listed_provider(
                kv.table(),
                (FilterView { namespace: ns@, name: name@, max_age_ms: None }),
                n,
            ),
        r matches Some(n) ==> n.wf() && listed_provider(
            kv.table(),
            (FilterView { namespace: ns@, name: name@, max_age_ms: None }),
            n@,
        ),
{
    let filter = CapFilter::new(ns, name);
    let found = resolve_cap_providers(kv, &filter, &CallerContext::unrestricted());
    let ghost f = gateway_reading(filter@, None);
    let ghost v = provider_views(found@);
    let ghost ks = choose|ks: Seq<Seq<char>>| #[trigger] readings_by_key(v, ks, kv.table(), "cap/"@, f);
    if found.len() == 0 {
        proof {
            assert forall|n: NodeView| !#[trigger] listed_provider(kv.table(), filter@, n) by {
                if listed_provider(kv.table(), filter@, n) {
                    let k = choose|k: Seq<char>|
                        has_prefix(k, "cap/"@) && (#[trigger] reading_at(kv.table(), k, f)) is Some && (
                        reading_at(kv.table(), k, f)->0).0 == n;
                    assert(ks.contains(k));
                }
            }
        }
        return None;
    }
    proof {
        assert(has_prefix(ks[0], "cap/"@) && reading_at(kv.table(), ks[0], f) == Some(v[0]));
        assert(listed_provider(kv.table(), filter@, found@[0].0@));
    }
    Some(found[0].0.copy())
}

// ── Demand ───────────────────────────────────────────────────────────────────

/// `gcap/{group}/{ns}/{name}/{node}` for the capability of a filter.
pub open spec fn gcap_key_text(group: Seq<char>, filter: FilterView, node: Seq<char>) -> Seq<char> {
    "gcap/"@ + (group + seq!['/'] + (filter.namespace + seq!['/'] + (filter.name + seq!['/'] + node)))
}

/// Whether `key` says that `node` contributes the capability of `filter` to a
/// group.
pub open spec fn contributes(key: Seq<char>, filter: FilterView, node: NodeView) -> bool {
    exists|group: Seq<char>, s: Seq<char>|
        key == #[trigger] gcap_key_text(group, filter, s) && !group.contains('/') && denotes(s, node)
}

/// The node that `key` says contributes the capability of `filter`.
pub open spec fn contributor(key: Seq<char>, filter: FilterView) -> Option<NodeView> {
    if exists|n: NodeView| #[trigger] contributes(key, filter, n) {
        Some(choose|n: NodeView| #[trigger] contributes(key, filter, n))
    } else {
        None
    }
}

pub proof fn lemma_contributor_unique(key: Seq<char>, filter: FilterView, a: NodeView, b: NodeView)
    requires
        contributes(key, filter, a),
        contributes(key, filter, b),
    ensures
        a == b,
{
    let (g, s) = choose|g: Seq<char>, s: Seq<char>|
        key == #[trigger] gcap_key_text(g, filter, s) && !g.contains('/') && denotes(s, a);
    let (h, u) = choose|h: Seq<char>, u: Seq<char>|
        key == #[trigger] gcap_key_text(h, filter, u) && !h.contains('/') && denotes(u, b);
    let m1 = filter.namespace + seq!['/'] + (filter.name + seq!['/'] + s);
    let m2 = filter.namespace + seq!['/'] + (filter.name + seq!['/'] + u);
    let p = "gcap/"@;
    assert(g + seq!['/'] + m1 =~= key.skip(p.len() as int));
    assert(h + seq!['/'] + m2 =~= key.skip(p.len() as int));
    crate::capability::lemma_first_split_unique(g, m1, h, m2, '/');
    let k = filter.namespace.len() + 1 + filter.name.len() + 1;
    assert(s =~= m1.skip(k as int));
    assert(u =~= m2.skip(k as int));
    crate::node_id::law_denotes_unique(s, a, b);
}

/// Reads the contributor in a `gcap/` key of the capability of `filter`.
pub fn parse_gcap_key(key: &str, filter: &CapFilter) -> (r: Option<NodeId>)
    ensures
        r is Some <==> contributor(key@, filter@) is Some,
        r matches Some(n) ==> n.wf() && contributor(key@, filter@) == Some(n@),
{
    proof {
        reveal_strlit("/");
        assert("/"@ =~= seq!['/']);
    }
    let rest = match strip_prefix(key, "gcap/") {
        Some(s) => s,
        None => {
            proof {
                if exists|n: NodeView| #[trigger] contributes(key@, filter@, n) {
                    let n = choose|n: NodeView| #[trigger] contributes(key@, filter@, n);
                    let (g, s) = choose|g: Seq<char>, s: Seq<char>|
                        key@ == #[trigger] gcap_key_text(g, filter@, s) && !g.contains('/') && denotes(s, n);
                    assert(key@.take("gcap/"@.len() as int) =~= "gcap/"@);
                }
            }
            return None;
        },
    };
    let middle = join3(filter.namespace.as_str(), "/", join2(filter.name.as_str(), "/").as_str());
    let (group, tail) = match split_once(rest.as_str(), '/') {
        Some(p) => p,
        None => {
            proof {
                if exists|n: NodeView| #[trigger] contributes(key@, filter@, n) {
                    let n = choose|n: NodeView| #[trigger] contributes(key@, filter@, n);
                    let (g, s) = choose|g: Seq<char>, s: Seq<char>|
                        key@ == #[trigger] gcap_key_text(g, filter@, s) && !g.contains('/') && denotes(s, n);
                    assert(rest@[g.len() as int] == '/');
                }
            }
            return None;
        },
    };
    proof {
        assert forall|n: NodeView| #[trigger] contributes(key@, filter@, n) implies has_prefix(
            tail@,
            middle@,
        ) && denotes(tail@.skip(middle@.len() as int), n) by {
            let (g, s) = choose|g: Seq<char>, s: Seq<char>|
                key@ == #[trigger] gcap_key_text(g, filter@, s) && !g.contains('/') && denotes(s, n);
            let m = filter@.namespace + seq!['/'] + (filter@.name + seq!['/'] + s);
            assert(rest@ =~= g + seq!['/'] + m);
            crate::capability::lemma_first_split_unique(g, m, group@, tail@, '/');
            assert(tail@.take(middle@.len() as int) =~= middle@);
            assert(tail@.skip(middle@.len() as int) =~= s);
        }
    }
    match strip_prefix(tail.as_str(), middle.as_str()) {
        None => None,
        Some(s) => match NodeId::parse(s.as_str()) {
            Err(_) => None,
            Ok(n) => {
                proof {
                    assert(key@ =~= gcap_key_text(group@, filter@, s@));
                    assert(contributes(key@, filter@, n@));
                    lemma_contributor_unique(key@, filter@, n@, contributor(key@, filter@)->0);
                }
                Some(n)
            },
        },
    }
}

/// Who needs a capability and who provides it.
pub struct DemandStatus {
    pub filter: CapFilter,
    pub demanding_nodes: Vec<NodeId>,
    pub providers: Vec<NodeId>,
}

/// The node that declares a fresh need of the capability of `filter` by an
/// entry under `req/`.
pub open spec fn demander_at(filter: FilterView, now_ms: u64, k: Seq<char>, v: Seq<u8>, ts: u64) -> Option<NodeView> {
    match (cap_key_parts("req/"@, k), req_or_filter_in(v)) {
        (Some(key), Some(req)) => if key.1 == filter.namespace && key.2 == filter.name && fresh(
            req.1,
            ts,
            now_ms,
        ) {
            Some(key.0)
        } else {
            None
        },
        _ => None,
    }
}

/// The node that provides the capability of `filter` by a fresh entry under
/// `cap/`.
pub open spec fn direct_at(filter: FilterView, now_ms: u64, k: Seq<char>, v: Seq<u8>, ts: u64) -> Option<NodeView> {
    match watched_at(filter, now_ms, k, v, ts) {
        Some(c) => Some(c.0.0),
        None => None,
    }
}

/// The node that contributes the capability of `filter` to a group by a fresh
/// entry under `gcap/`.
pub open spec fn contributor_at(filter: FilterView, now_ms: u64, k: Seq<char>, v: Seq<u8>, ts: u64) -> Option<NodeView> {
    match (contributor(k, filter), entry_in(v)) {
        (Some(n), Some(entry)) => if fresh(entry.1, ts, now_ms) && matches_cap(filter, entry.0) {
            Some(n)
        } else {
            None
        },
        _ => None,
    }
}

pub open spec fn demander_reading(filter: FilterView, now_ms: u64) -> Reading<NodeView> {
    |k: Seq<char>, v: Seq<u8>, ts: u64| demander_at(filter, now_ms, k, v, ts)
}

pub open spec fn direct_reading(filter: FilterView, now_ms: u64) -> Reading<NodeView> {
    |k: Seq<char>, v: Seq<u8>, ts: u64| direct_at(filter, now_ms, k, v, ts)
}

pub open spec fn contributor_reading(filter: FilterView, now_ms: u64) -> Reading<NodeView> {
    |k: Seq<char>, v: Seq<u8>, ts: u64| contributor_at(filter, now_ms, k, v, ts)
}

/// `v` names the nodes of `s`, each once.
pub open spec fn names_each_once(v: Seq<NodeId>, s: Set<NodeView>) -> bool {
    node_views(v).no_duplicates() && node_views(v).to_set() == s
}

pub(crate) fn add_node(v: &mut Vec<NodeId>, n: NodeId)
    requires
        node_views(old(v)@).no_duplicates(),
    ensures
        names_each_once(final(v)@, node_views(old(v)@).to_set().insert(n@)),
{
    let ghost before = node_views(v@);
    if contains_node(v, &n) {
        assert(before.to_set().insert(n@) =~= before.to_set());
        return;
    }
    v.push(n);
    proof {
        let after = node_views(v@);
        assert(after =~= before.push(n@));
        assert forall|i: int, j: int| 0 <= i < after.len() && 0 <= j < after.len() && i != j implies after[i]
            != after[j] by {
            if i == before.len() {
                assert(before.contains(before[j]));
            } else if j == before.len() {
                assert(before.contains(before[i]));
            }
        }
        assert(after.to_set() =~= before.to_set().insert(n@)) by {
            assert(after[before.len() as int] == n@);
            assert forall|x: NodeView| before.contains(x) implies after.contains(x) by {
                let i = choose|i: int| 0 <= i < before.len() && before[i] == x;
                assert(after[i] == x);
            }
        }
    }
}

/// Which of the three kinds of entries to read a node from.
enum DemandScan {
    Demander,
    Direct,
    Contributor,
}

spec fn scan_reading(kind: DemandScan, filter: FilterView, now_ms: u64) -> Reading<NodeView> {
    match kind {
        DemandScan::Demander => demander_reading(filter, now_ms),
        DemandScan::Direct => direct_reading(filter, now_ms),
        DemandScan::Contributor => contributor_reading(filter, now_ms),
    }
}

fn read_node(kind: &DemandScan, key: &String, value: &Vec<u8>, ts: u64, filter: &CapFilter, now_ms: u64) -> (r: Option<NodeId>)
    ensures
        r is Some <==> scan_reading(*kind, filter@, now_ms)(key@, value@, ts) is Some,
        r matches Some(n) ==> scan_reading(*kind, filter@, now_ms)(key@, value@, ts) == Some(n@),
{
    match kind {
        DemandScan::Demander => match parse_cap_key("req/", key.as_str()) {
            None => None,
            Some((node, ns, name)) => {
                if !same_text(ns.as_str(), filter.namespace.as_str()) || !same_text(
                    name.as_str(),
                    filter.name.as_str(),
                ) {
                    return None;
                }
                match ReqEntry::decode_lenient(value) {
                    None => None,
                    Some(e) => if is_fresh(e.refresh_interval_ms, ts, now_ms) {
                        Some(node)
                    } else {
                        None
                    },
                }
            },
        },
        DemandScan::Direct => match read_watched(key, value, ts, filter, now_ms) {
            None => None,
            Some(c) => Some(c.node),
        },
        DemandScan::Contributor => match parse_gcap_key(key.as_str(), filter) {
            None => None,
            Some(node) => match CapEntry::decode(value) {
                None => None,
                Some(e) => if is_fresh(e.refresh_interval_ms, ts, now_ms) && filter.matches(
                    &e.capability,
                ) {
                    Some(node)
                } else {
                    None
                },
            },
        },
    }
}

fn collect_nodes(
    kv: &KvHandle,
    prefix: &str,
    kind: DemandScan,
    filter: &CapFilter,
    now_ms: u64,
    out: &mut Vec<NodeId>,
)
    requires
        node_views(old(out)@).no_duplicates(),
    ensures
        names_each_once(
            final(out)@,
            node_views(old(out)@).to_set().union(
                reading_set(kv.table(), prefix@, scan_reading(kind, filter@, now_ms)),
            ),
        ),
{
    let found = kv.scan_prefix_with_ts(prefix);
    let ghost f = scan_reading(kind, filter@, now_ms);
    let ghost base = node_views(out@).to_set();
    proof {
        lemma_read_all(found@, kv.table(), prefix@, f);
        assert(base.union(Set::empty()) =~= base);
    }
    let mut i: usize = 0;
    while i < found.len()
        invariant
            i <= found.len(),
            f == scan_reading(kind, filter@, now_ms),
            node_views(out@).no_duplicates(),
            node_views(out@).to_set() == base.union(read_so_far(found@, i as int, f)),
        decreases found.len() - i,
    {
        proof {
            lemma_read_step(found@, i as int, f);
        }
        match read_node(&kind, &found[i].0, &found[i].1, found[i].2, filter, now_ms) {
            Some(n) => {
                let ghost x = n@;
                add_node(out, n);
                assert(base.union(read_so_far(found@, i as int, f)).insert(x) =~= base.union(
                    read_so_far(found@, i as int, f).insert(x),
                ));
            },
            None => {},
        }
        i += 1;
    }
}

/// Who needs the capability of `filter` and who provides it, directly or
/// through a group; each node counts once on each side.
pub fn demand_snapshot(kv: &KvHandle, filter: &CapFilter, now_ms: u64) -> (d: DemandStatus)
    ensures
        d.filter@ == filter@,
        names_each_once(
            d.demanding_nodes@,
            reading_set(kv.table(), "req/"@, demander_reading(filter@, now_ms)),
        ),
        names_each_once(
            d.providers@,
            reading_set(kv.table(), "cap/"@, direct_reading(filter@, now_ms)).union(
                reading_set(kv.table(), "gcap/"@, contributor_reading(filter@, now_ms)),
            ),
        ),
{
    let mut demanding: Vec<NodeId> = Vec::new();
    proof {
        assert(node_views(demanding@) =~= Seq::empty());
        assert(Seq::<NodeView>::empty().to_set() =~= Set::empty());
    }
    collect_nodes(kv, "req/", DemandScan::Demander, filter, now_ms, &mut demanding);
    let mut providers: Vec<NodeId> = Vec::new();
    assert(node_views(providers@) =~= Seq::empty());
    collect_nodes(kv, "cap/", DemandScan::Direct, filter, now_ms, &mut providers);
    collect_nodes(kv, "gcap/", DemandScan::Contributor, filter, now_ms, &mut providers);
    proof {
        let e = Set::<NodeView>::empty();
        let a = reading_set(kv.table(), "req/"@, demander_reading(filter@, now_ms));
        let b = reading_set(kv.table(), "cap/"@, direct_reading(filter@, now_ms));
        assert(e.union(a) =~= a);
        assert(e.union(b) =~= b);
    }
    DemandStatus {
        filter: CapFilter {
            namespace: filter.namespace.clone(),
            name: filter.name.clone(),
            max_age_ms: filter.max_age_ms,
        },
        demanding_nodes: demanding,
        providers,
    }
}

impl DemandStatus {
    /// The demand pressure as a fraction: demanding nodes over providers,
    /// where no provider counts as one.
    pub fn pressure(&self) -> (p: (usize, usize))
        ensures
            p.0 == self.demanding_nodes@.len(),
            p.1 == (if self.providers@.len() == 0 {
                1
            } else {
                self.providers@.len() as int
            }),
    {
        let n: usize = self.providers.len();
        (
            self.demanding_nodes.len(),
            if n == 0 {
                1
            } else {
                n
            },
        )
    }
}

impl DemandStatus {
    /// Whether two snapshots name the same nodes on both sides.
    pub fn same(&self, other: &DemandStatus) -> (r: bool)
        ensures
            r == (node_views(self.demanding_nodes@).to_set() == node_views(other.demanding_nodes@).to_set()
                && node_views(self.providers@).to_set() == node_views(other.providers@).to_set()),
    {
        same_nodes(&self.demanding_nodes, &other.demanding_nodes) && same_nodes(
            &self.providers,
            &other.providers,
        )
    }
}

fn all_among(a: &Vec<NodeId>, b: &Vec<NodeId>) -> (r: bool)
    ensures
        r == node_views(a@).to_set().subset_of(node_views(b@).to_set()),
{
    let ghost x = node_views(a@);
    let mut i: usize = 0;
    while i < a.len()
        invariant
            i <= a.len(),
            x == node_views(a@),
            forall|k: int| 0 <= k < i ==> node_views(b@).contains(#[trigger] x[k]),
        decreases a.len() - i,
    {
        assert(x[i as int] == a@[i as int]@);
        if !contains_node(b, &a[i]) {
            assert(x.to_set().contains(x[i as int]));
            assert(!node_views(b@).to_set().contains(x[i as int]));
            return false;
        }
        i += 1;
    }
    assert forall|n: NodeView| #[trigger] x.to_set().contains(n) implies node_views(b@).to_set().contains(
        n,
    ) by {
        let k = choose|k: int| 0 <= k < x.len() && x[k] == n;
        assert(node_views(b@).contains(x[k]));
    }
    true
}

fn same_nodes(a: &Vec<NodeId>, b: &Vec<NodeId>) -> (r: bool)
    ensures
        r == (node_views(a@).to_set() == node_views(b@).to_set()),
{
    let r = all_among(a, b) && all_among(b, a);
    proof {
        if r {
            assert(node_views(a@).to_set() =~= node_views(b@).to_set());
        }
    }
    r
}

/// The nodes that need the capability of `filter`.
pub open spec fn demanders(t: Table, filter: FilterView, now_ms: u64) -> Set<NodeView> {
    reading_set(t, "req/"@, demander_reading(filter, now_ms))
}

/// The nodes that provide the capability of `filter`, directly or through a
/// group.
pub open spec fn suppliers(t: Table, filter: FilterView, now_ms: u64) -> Set<NodeView> {
    reading_set(t, "cap/"@, direct_reading(filter, now_ms)).union(
        reading_set(t, "gcap/"@, contributor_reading(filter, now_ms)),
    )
}

/// One round of a demand watch: looks again and remembers what it saw. The
/// result says whether other nodes need or provide the capability than before;
/// only then is it told.
pub fn watch_demand_round(kv: &KvHandle, filter: &CapFilter, last: &mut DemandStatus, now_ms: u64) -> (changed: bool)
    ensures
        changed == !(node_views(old(last).demanding_nodes@).to_set() == demanders(
            kv.table(),
            filter@,
            now_ms,
        ) && node_views(old(last).providers@).to_set() == suppliers(kv.table(), filter@, now_ms)),
        node_views(final(last).demanding_nodes@).to_set() == demanders(kv.table(), filter@, now_ms),
        node_views(final(last).providers@).to_set() == suppliers(kv.table(), filter@, now_ms),
        !changed ==> *final(last) == *old(last),
        changed ==> final(last).filter@ == filter@,
{
    let next = demand_snapshot(kv, filter, now_ms);
    if last.same(&next) {
        false
    } else {
        *last = next;
        true
    }
}

/// Whether a write of `key` wakes a watch of `filter`.
pub fn wakes_watch(filter: &CapFilter, key: &str) -> (r: bool)
    ensures
        r == crate::text::has_suffix(key@, "/"@ + filter.namespace@ + "/"@ + filter.name@),
{
    let head = join3("/", filter.namespace.as_str(), "/");
    let needle = join2(head.as_str(), filter.name.as_str());
    crate::text::ends_with(key, needle.as_str())
}

// ── Laws ─────────────────────────────────────────────────────────────────────

proof fn lemma_in_either(a: Seq<EventView>, b: Seq<EventView>, x: EventView)
    ensures
        a.contains(x) || b.contains(x) ==> (a + b).contains(x),
{
    if a.contains(x) {
        let i = choose|i: int| 0 <= i < a.len() && a[i] == x;
        assert((a + b)[i] == x);
    }
    if b.contains(x) {
        let i = choose|i: int| 0 <= i < b.len() && b[i] == x;
        assert((a + b)[a.len() + i] == x);
    }
}

/// A watcher is told of every current capability that it does not know as it is:
/// of a new one, and of one that it knows with other contents.
pub proof fn law_changed_capability_is_reported(known: Seq<KnownView>, current: Seq<KnownView>, c: KnownView)
    requires
        current.contains(c),
        forall|i: int| 0 <= i < known.len() ==> #[trigger] known[i] != c,
    ensures
        additions(known, current).contains((EventView::Added { node_id: c.0.0, capability: c.1 })),
    decreases current.len(),
{
    let x = EventView::Added { node_id: c.0.0, capability: c.1 };
    let all = additions(known, current);
    let i = choose|i: int| 0 <= i < current.len() && current[i] == c;
    if i == current.len() - 1 {
        assert(!known.contains(c));
        assert(all.last() == x);
    } else {
        assert(current.drop_last()[i] == c);
        law_changed_capability_is_reported(known, current.drop_last(), c);
        let front = additions(known, current.drop_last());
        let j = choose|j: int| 0 <= j < front.len() && front[j] == x;
        assert(all[j] == x);
    }
}

/// A watcher is told of every capability it knows that is no longer there.
pub proof fn law_lost_capability_is_reported(known: Seq<KnownView>, current: Seq<KnownView>, k: KnownView)
    requires
        known.contains(k),
        forall|i: int| 0 <= i < current.len() ==> (#[trigger] current[i]).0 != k.0,
    ensures
        removals(known, current).contains(
            (EventView::Removed { node_id: k.0.0, namespace: k.0.1, name: k.0.2 }),
        ),
    decreases known.len(),
{
    let x = EventView::Removed { node_id: k.0.0, namespace: k.0.1, name: k.0.2 };
    let all = removals(known, current);
    let i = choose|i: int| 0 <= i < known.len() && known[i] == k;
    if i == known.len() - 1 {
        assert(all.last() == x);
    } else {
        assert(known.drop_last()[i] == k);
        law_lost_capability_is_reported(known.drop_last(), current, k);
        let front = removals(known.drop_last(), current);
        let j = choose|j: int| 0 <= j < front.len() && front[j] == x;
        assert(all[j] == x);
    }
}

/// A watcher is told nothing that is not so: what is reported as added is current
/// and was not known so, and what is reported as removed was known and is gone.
pub proof fn law_events_are_true(known: Seq<KnownView>, current: Seq<KnownView>, e: EventView)
    ensures
        additions(known, current).contains(e) ==> exists|c: KnownView| #[trigger]
            current.contains(c) && !known.contains(c) && e == (EventView::Added {
                node_id: c.0.0,
                capability: c.1,
            }),
        removals(known, current).contains(e) ==> exists|k: KnownView| #[trigger]
            known.contains(k) && (forall|i: int| 0 <= i < current.len() ==> (#[trigger] current[i]).0 != k.0) && e
                == (EventView::Removed { node_id: k.0.0, namespace: k.0.1, name: k.0.2 }),
    decreases known.len() + current.len(),
{
    if current.len() > 0 && additions(known, current).contains(e) {
        let front = additions(known, current.drop_last());
        let all = additions(known, current);
        let c = current.last();
        assert(current.contains(c));
        let j = choose|j: int| 0 <= j < all.len() && all[j] == e;
        if j < front.len() {
            assert(front[j] == e);
            law_events_are_true(known, current.drop_last(), e);
            let d = choose|d: KnownView| #[trigger]
                current.drop_last().contains(d) && !known.contains(d) && e == (EventView::Added {
                    node_id: d.0.0,
                    capability: d.1,
                });
            let i = choose|i: int| 0 <= i < current.drop_last().len() && current.drop_last()[i] == d;
            assert(current[i] == d);
            assert(current.contains(d));
        }
    }
    if known.len() > 0 && removals(known, current).contains(e) {
        let front = removals(known.drop_last(), current);
        let all = removals(known, current);
        let k = known.last();
        assert(known.contains(k));
        let j = choose|j: int| 0 <= j < all.len() && all[j] == e;
        if j < front.len() {
            assert(front[j] == e);
            law_events_are_true(known.drop_last(), current, e);
            let d = choose|d: KnownView| #[trigger]
                known.drop_last().contains(d) && (forall|i: int|
                    0 <= i < current.len() ==> (#[trigger] current[i]).0 != d.0) && e == (EventView::Removed {
                    node_id: d.0.0,
                    namespace: d.0.1,
                    name: d.0.2,
                });
            let i = choose|i: int| 0 <= i < known.drop_last().len() && known.drop_last()[i] == d;
            assert(known[i] == d);
            assert(known.contains(d));
        } else {
            assert(!has_cap_key(current, k.0));
            assert forall|i: int| 0 <= i < current.len() implies (#[trigger] current[i]).0 != k.0 by {
                if current[i].0 == k.0 {
                    assert(has_cap_key(current, k.0));
                }
            }
        }
    }
}

/// A watcher is told of each thing at most once in a round: there are no more
/// additions than current capabilities, and no more removals than known ones.
pub proof fn law_each_change_is_told_once(known: Seq<KnownView>, current: Seq<KnownView>)
    ensures
        additions(known, current).len() <= current.len(),
        removals(known, current).len() <= known.len(),
    decreases known.len() + current.len(),
{
    if current.len() > 0 {
        law_each_change_is_told_once(known, current.drop_last());
    }
    if known.len() > 0 {
        law_each_change_is_told_once(known.drop_last(), current);
    }
}

/// A node whose requirement entries were all written longer ago than three of their
/// refresh intervals does not demand anything any more.
pub proof fn law_stale_requirement_is_no_demand(t: Table, filter: FilterView, now_ms: u64, n: NodeView)
    requires
        forall|k: Seq<char>|
            cap_key_of("req/"@, k, n, filter.namespace, filter.name) && #[trigger] live(t, k) is Some && (
            req_or_filter_in(live(t, k)->0) matches Some(q)) ==> now_ms - t[k].1 as int / 0x1_0000 > 3 * (
            req_or_filter_in(live(t, k)->0)->0).1,
    ensures
        !demanders(t, filter, now_ms).contains(n),
{
    let f = demander_reading(filter, now_ms);
    if demanders(t, filter, now_ms).contains(n) {
        let k = choose|k: Seq<char>| has_prefix(k, "req/"@) && (#[trigger] reading_at(t, k, f)) == Some(n);
        let p = cap_key_parts("req/"@, k)->0;
        assert(cap_key_of("req/"@, k, p.0, p.1, p.2));
        law_fresh_for_three_intervals((req_or_filter_in(live(t, k)->0)->0).1, t[k].1, now_ms);
        assert(live(t, k) is Some);
    }
}

/// A node with a requirement entry that was written no longer ago than three of its
/// refresh intervals demands the capability.
pub proof fn law_fresh_requirement_is_demand(t: Table, filter: FilterView, now_ms: u64, n: NodeView)
    requires
        valid_host(n.host),
        !filter.namespace.contains('/'),
        !filter.name.contains('/'),
        ({
            let k = cap_key_text("req/"@, node_text(n), filter.namespace, filter.name);
            &&& live(t, k) is Some
            &&& req_or_filter_in(live(t, k)->0) is Some
            &&& now_ms - t[k].1 as int / 0x1_0000 <= 3 * (req_or_filter_in(live(t, k)->0)->0).1
        }),
    ensures
        demanders(t, filter, now_ms).contains(n),
{
    let k = cap_key_text("req/"@, node_text(n), filter.namespace, filter.name);
    law_cap_key_round_trip("req/"@, n, filter.namespace, filter.name);
    law_fresh_for_three_intervals((req_or_filter_in(live(t, k)->0)->0).1, t[k].1, now_ms);
    assert(k.take("req/"@.len() as int) =~= "req/"@);
    assert(reading_at(t, k, demander_reading(filter, now_ms)) == Some(n));
}

/// Who counts as supplying a capability has a live advertisement of it, of its own
/// or for a group, that was written no longer ago than three of its refresh
/// intervals.
pub proof fn law_supplier_advertises_now(t: Table, filter: FilterView, now_ms: u64, n: NodeView)
    requires
        suppliers(t, filter, now_ms).contains(n),
    ensures
        exists|k: Seq<char>|
            #[trigger] live(t, k) is Some && (entry_in(live(t, k)->0) matches Some(e) && e.0.namespace
                == filter.namespace && e.0.name == filter.name && now_ms - t[k].1 as int / 0x1_0000 <= 3 * e.1) && (
            (cap_key_parts("cap/"@, k) matches Some(p) && p.0 == n) || contributor(k, filter) == Some(n)),
{
    let f = direct_reading(filter, now_ms);
    let g = contributor_reading(filter, now_ms);
    if reading_set(t, "cap/"@, f).contains(n) {
        let k = choose|k: Seq<char>| has_prefix(k, "cap/"@) && (#[trigger] reading_at(t, k, f)) == Some(n);
        law_fresh_for_three_intervals((entry_in(live(t, k)->0)->0).1, t[k].1, now_ms);
        assert(live(t, k) is Some);
    } else {
        let k = choose|k: Seq<char>| has_prefix(k, "gcap/"@) && (#[trigger] reading_at(t, k, g)) == Some(n);
        law_fresh_for_three_intervals((entry_in(live(t, k)->0)->0).1, t[k].1, now_ms);
        assert(live(t, k) is Some);
    }
}

/// Every provider that a lookup finds has a live advertisement of the capability
/// that was written no longer ago than three of its refresh intervals and than the
/// filter admits, and that the caller may see.
pub proof fn law_provider_advertises_now(
    t: Table,
    filter: FilterView,
    caller: Option<Seq<char>>,
    now_ms: u64,
    found: Seq<(NodeView, CapView)>,
    i: int,
)
    requires
        lists_readings(found, t, "cap/"@, provider_reading(filter, caller, now_ms)),
        0 <= i < found.len(),
    ensures
        found[i].1.namespace == filter.namespace && found[i].1.name == filter.name,
        caller matches Some(id) ==> found[i].1.authorized_callers.len() == 0
            || found[i].1.authorized_callers.contains(id),
        exists|k: Seq<char>|
            #[trigger] live(t, k) is Some && (entry_in(live(t, k)->0) matches Some(e) && e.0 == found[i].1 && now_ms
                - t[k].1 as int / 0x1_0000 <= 3 * e.1) && (filter.max_age_ms matches Some(m) ==> now_ms - t[k].1 as int
                / 0x1_0000 <= m) && (cap_key_parts("cap/"@, k) matches Some(p) && p.0 == found[i].0),
{
    let f = provider_reading(filter, caller, now_ms);
    let ks = choose|ks: Seq<Seq<char>>| #[trigger] readings_by_key(found, ks, t, "cap/"@, f);
    let k = ks[i];
    assert(reading_at(t, k, f) == Some(found[i]));
    law_fresh_for_three_intervals((entry_in(live(t, k)->0)->0).1, t[k].1, now_ms);
    assert(live(t, k) is Some);
}

/// A lookup finds every node with a live advertisement of the capability under its
/// own key that is fresh, young enough for the filter and visible to the caller.
pub proof fn law_current_provider_is_found(
    t: Table,
    filter: FilterView,
    caller: Option<Seq<char>>,
    now_ms: u64,
    found: Seq<(NodeView, CapView)>,
    n: NodeView,
    c: CapView,
    refresh_ms: u64,
)
    requires
        lists_readings(found, t, "cap/"@, provider_reading(filter, caller, now_ms)),
        valid_host(n.host),
        !filter.namespace.contains('/'),
        !filter.name.contains('/'),
        c.namespace == filter.namespace && c.name == filter.name,
        caller is None || c.authorized_callers.len() == 0 || c.authorized_callers.contains(caller->0),
        ({
            let k = cap_key_text("cap/"@, node_text(n), filter.namespace, filter.name);
            &&& !has_suffix(k, "/locality/self"@)
            &&& live(t, k) is Some
            &&& entry_in(live(t, k)->0) == Some((c, refresh_ms))
            &&& now_ms - t[k].1 as int / 0x1_0000 <= 3 * refresh_ms
            &&& filter.max_age_ms matches Some(m) ==> now_ms - t[k].1 as int / 0x1_0000 <= m
        }),
    ensures
        found.contains((n, c)),
{
    let f = provider_reading(filter, caller, now_ms);
    let k = cap_key_text("cap/"@, node_text(n), filter.namespace, filter.name);
    law_cap_key_round_trip("cap/"@, n, filter.namespace, filter.name);
    law_fresh_for_three_intervals(refresh_ms, t[k].1, now_ms);
    assert(k.take("cap/"@.len() as int) =~= "cap/"@);
    assert(reading_at(t, k, f) == Some((n, c)));
    let ks = choose|ks: Seq<Seq<char>>| #[trigger] readings_by_key(found, ks, t, "cap/"@, f);
    assert(ks.contains(k));
    let i = choose|i: int| 0 <= i < ks.len() && ks[i] == k;
    assert(reading_at(t, ks[i], f) == Some(found[i]));
}

/// A requirement is met exactly while a lookup for it finds somebody.
pub proof fn law_requirement_is_met_by_providers(
    t: Table,
    filter: FilterView,
    now_ms: u64,
    found: Seq<(NodeView, CapView)>,
)
    requires
        lists_readings(found, t, "cap/"@, provider_reading(filter, None, now_ms)),
    ensures
        satisfied(t, filter, now_ms) <==> found.len() > 0,
{
    lemma_satisfied(found, t, filter, now_ms);
}

/// What a watch sees was written no longer ago than three of its refresh intervals,
/// stands under the key of the node that it names, and is of the filter's
/// capability.
pub proof fn law_watched_capability_is_current(
    t: Table,
    filter: FilterView,
    now_ms: u64,
    seen: Seq<KnownView>,
    i: int,
)
    requires
        lists_readings(seen, t, "cap/"@, watched_reading(filter, now_ms)),
        0 <= i < seen.len(),
    ensures
        seen[i].1.namespace == filter.namespace && seen[i].1.name == filter.name,
        exists|k: Seq<char>|
            #[trigger] live(t, k) is Some && (entry_in(live(t, k)->0) matches Some(e) && e.0 == seen[i].1 && now_ms
                - t[k].1 as int / 0x1_0000 <= 3 * e.1) && cap_key_parts("cap/"@, k) == Some(seen[i].0),
{
    let f = watched_reading(filter, now_ms);
    let ks = choose|ks: Seq<Seq<char>>| #[trigger] readings_by_key(seen, ks, t, "cap/"@, f);
    let k = ks[i];
    assert(reading_at(t, k, f) == Some(seen[i]));
    law_fresh_for_three_intervals((entry_in(live(t, k)->0)->0).1, t[k].1, now_ms);
    assert(live(t, k) is Some);
}

/// A watch sees every live advertisement of the filter's capability that was written
/// no longer ago than three of its refresh intervals.
pub proof fn law_current_capability_is_watched(
    t: Table,
    filter: FilterView,
    now_ms: u64,
    seen: Seq<KnownView>,
    n: NodeView,
    c: CapView,
    refresh_ms: u64,
)
    requires
        lists_readings(seen, t, "cap/"@, watched_reading(filter, now_ms)),
        valid_host(n.host),
        !filter.namespace.contains('/'),
        !filter.name.contains('/'),
        c.namespace == filter.namespace && c.name == filter.name,
        ({
            let k = cap_key_text("cap/"@, node_text(n), filter.namespace, filter.name);
            &&& !has_suffix(k, "/locality/self"@)
            &&& live(t, k) is Some
            &&& entry_in(live(t, k)->0) == Some((c, refresh_ms))
            &&& now_ms - t[k].1 as int / 0x1_0000 <= 3 * refresh_ms
        }),
    ensures
        seen.contains(((n, filter.namespace, filter.name), c)),
{
    let f = watched_reading(filter, now_ms);
    let k = cap_key_text("cap/"@, node_text(n), filter.namespace, filter.name);
    law_cap_key_round_trip("cap/"@, n, filter.namespace, filter.name);
    law_fresh_for_three_intervals(refresh_ms, t[k].1, now_ms);
    assert(k.take("cap/"@.len() as int) =~= "cap/"@);
    assert(reading_at(t, k, f) == Some(((n, filter.namespace, filter.name), c)));
    let ks = choose|ks: Seq<Seq<char>>| #[trigger] readings_by_key(seen, ks, t, "cap/"@, f);
    assert(ks.contains(k));
    let i = choose|i: int| 0 <= i < ks.len() && ks[i] == k;
    assert(reading_at(t, ks[i], f) == Some(seen[i]));
}

/// A node with a live advertisement of the capability, of its own or for a group, that
/// was written no longer ago than three of its refresh intervals supplies it.
pub proof fn law_current_advertiser_supplies(
    t: Table,
    filter: FilterView,
    now_ms: u64,
    n: NodeView,
    group: Seq<char>,
    k: Seq<char>,
)
    requires
        valid_host(n.host),
        !filter.namespace.contains('/'),
        !filter.name.contains('/'),
        !group.contains('/'),
        (k == cap_key_text("cap/"@, node_text(n), filter.namespace, filter.name) && !has_suffix(
            k,
            "/locality/self"@,
        )) || k == "gcap/"@ + group + "/"@ + filter.namespace + "/"@ + filter.name + "/"@ + node_text(n),
        live(t, k) is Some,
        entry_in(live(t, k)->0) is Some,
        ({
            let e = entry_in(live(t, k)->0)->0;
            e.0.namespace == filter.namespace && e.0.name == filter.name && now_ms - t[k].1 as int / 0x1_0000 <= 3
                * e.1
        }),
    ensures
        suppliers(t, filter, now_ms).contains(n),
{
    law_fresh_for_three_intervals((entry_in(live(t, k)->0)->0).1, t[k].1, now_ms);
    if k == cap_key_text("cap/"@, node_text(n), filter.namespace, filter.name) && !has_suffix(k, "/locality/self"@) {
        law_cap_key_round_trip("cap/"@, n, filter.namespace, filter.name);
        assert(k.take("cap/"@.len() as int) =~= "cap/"@);
        assert(reading_at(t, k, direct_reading(filter, now_ms)) == Some(n));
    } else {
        crate::node_id::law_node_text_round_trip(n);
        reveal_strlit("/");
        assert(k =~= gcap_key_text(group, filter, node_text(n)));
        assert(contributes(k, filter, n));
        lemma_contributor_unique(k, filter, n, contributor(k, filter)->0);
        assert(k.take("gcap/"@.len() as int) =~= "gcap/"@);
        assert(reading_at(t, k, contributor_reading(filter, now_ms)) == Some(n));
    }
}

/// The gateway lists a node exactly if an entry under its key advertises the
/// capability, whatever the entry's age, and the caller may see it.
pub proof fn law_gateway_lists_whoever_advertises(t: Table, filter: FilterView, n: NodeView)
    ensures
        listed_provider(t, filter, n) <==> exists|k: Seq<char>|
            has_prefix(k, "cap/"@) && !has_suffix(k, "/locality/self"@) && #[trigger] live(t, k) is Some && (
            cap_key_parts("cap/"@, k) is Some && (cap_key_parts("cap/"@, k)->0).0 == n) && (cap_in(live(t, k)->0)
                is Some && cap_in(live(t, k)->0)->0.namespace == filter.namespace && cap_in(live(t, k)->0)->0.name
                == filter.name),
{
    let f = gateway_reading(filter, None);
    if listed_provider(t, filter, n) {
        let k = choose|k: Seq<char>|
            has_prefix(k, "cap/"@) && (#[trigger] reading_at(t, k, f)) is Some && (reading_at(t, k, f)->0).0 == n;
        assert(live(t, k) is Some);
    }
    assert forall|k: Seq<char>|
        has_prefix(k, "cap/"@) && !has_suffix(k, "/locality/self"@) && #[trigger] live(t, k) is Some && (
        cap_key_parts("cap/"@, k) is Some && (cap_key_parts("cap/"@, k)->0).0 == n) && (cap_in(live(t, k)->0)
            is Some && cap_in(live(t, k)->0)->0.namespace == filter.namespace && cap_in(live(t, k)->0)->0.name
            == filter.name) implies listed_provider(t, filter, n) by {
        assert(reading_at(t, k, f) is Some);
    }
}

/// What the gateway lists for a caller that is named are capabilities that single out
/// nobody, or that caller.
pub proof fn law_gateway_shows_what_the_caller_may_see(
    t: Table,
    filter: FilterView,
    caller: Option<Seq<char>>,
    found: Seq<(NodeView, CapView)>,
    i: int,
)
    requires
        lists_readings(found, t, "cap/"@, gateway_reading(filter, caller)),
        0 <= i < found.len(),
    ensures
        found[i].1.namespace == filter.namespace && found[i].1.name == filter.name,
        caller is Some ==> found[i].1.authorized_callers.len() == 0 || found[i].1.authorized_callers.contains(
            caller->0,
        ),
{
    let f = gateway_reading(filter, caller);
    let ks = choose|ks: Seq<Seq<char>>| #[trigger] readings_by_key(found, ks, t, "cap/"@, f);
    assert(reading_at(t, ks[i], f) == Some(found[i]));
}

/// A watch begins by telling of every provider that a lookup finds.
pub proof fn law_watch_begins_with_what_is_found(
    t: Table,
    filter: FilterView,
    now_ms: u64,
    all: Seq<KnownView>,
    found: Seq<(NodeView, CapView)>,
    i: int,
)
    requires
        lists_readings(all, t, "cap/"@, start_reading(filter, now_ms)),
        lists_readings(found, t, "cap/"@, provider_reading(filter, None, now_ms)),
        0 <= i < found.len(),
    ensures
        additions(Seq::empty(), all).contains(
            (EventView::Added { node_id: found[i].0, capability: found[i].1 }),
        ),
{
    let f = provider_reading(filter, None, now_ms);
    let g = start_reading(filter, now_ms);
    let ks = choose|ks: Seq<Seq<char>>| #[trigger] readings_by_key(found, ks, t, "cap/"@, f);
    let ls = choose|ls: Seq<Seq<char>>| #[trigger] readings_by_key(all, ls, t, "cap/"@, g);
    let k = ks[i];
    assert(reading_at(t, k, f) == Some(found[i]));
    assert(reading_at(t, k, g) is Some);
    assert(ls.contains(k));
    let j = choose|j: int| 0 <= j < ls.len() && ls[j] == k;
    assert(reading_at(t, ls[j], g) == Some(all[j]));
    law_changed_capability_is_reported(Seq::empty(), all, all[j]);
}

/// A watch knows every key that it saw, each once, with one of the capabilities that it
/// saw there.
pub proof fn law_watch_knows_each_key_once(known: Seq<KnownView>, all: Seq<KnownView>, i: int, j: int)
    requires
        one_for_each_key(known, all),
    ensures
        0 <= i < known.len() && 0 <= j < known.len() && known[i].0 == known[j].0 ==> i == j,
        0 <= i < known.len() ==> exists|a: int| 0 <= a < all.len() && #[trigger] all[a] == known[i],
        0 <= j < all.len() ==> exists|a: int| 0 <= a < known.len() && (#[trigger] known[a]).0 == all[j].0,
{
    if 0 <= i < known.len() {
        assert(all.contains(known[i]));
    }
    if 0 <= j < all.len() {
        assert(has_cap_key(known, all[j].0));
    }
}

} // verus!
