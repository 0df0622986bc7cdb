//! What a node can say of the fleet from the table it holds.

use crate::agent::GossipAgent;
use crate::emergent::{
    confirm_by_key, confirm_conflicts, conflict_reading, conflict_views, detect_coverage_gaps,
    detect_governed_group_conflicts, flap_transitions, gap_reading, governed_group_statuses,
    membership_snapshot, memberships, next_streak, opacity_pairs, shedding, sorted_by_group,
    status_reading, status_views, GroupStatus, StatusView, Streaks, CONFIRM_TICKS, FLAP_THRESHOLD,
    FLAP_WINDOW_MS, HEARD_WINDOW_MS, MEMBERSHIP_PREFIX, OPAQUE_MAX_AGE_MS,
};
use crate::flap::{none_silent, pruned, FlapTracker};
use crate::kv::KvHandle;
use crate::load::{is_opaque_mark, is_self_opaque, marked_opaque, opaque_mark, LOAD_PREFIX};
use crate::node_id::{node_text, NodeId, NodeView};
use crate::pairs::{
    changes, lemma_pair_lt_transitive, lemma_push_new, pair_lt, pair_views, pairs_sorted, set_transitions, Pair,
    PairSet,
};
use crate::peers::{lists_peers, PeerMap, Peers};
use crate::scan::{
    lemma_listing_is_set, lemma_read_all, lemma_read_step, lists_live_ts, lists_readings, read_so_far,
    reading_at, reading_set, readings_by_key, Reading,
};
use crate::store::Table;
use crate::text::{
    behind, contains_text, has_prefix, lemma_lt_irreflexive, lemma_lt_total, lemma_lt_transitive, split_once,
    strip_prefix, text_before, text_lt, views,
};
use vstd::prelude::*;

verus! {

// ── Opacity storms ───────────────────────────────────────────────────────────

/// The part of `s` before its first separator; all of it where there is none.
pub open spec fn first_segment(s: Seq<char>) -> Seq<char>
    decreases s.len(),
{
    if s.len() == 0 || s[0] == '/' {
        Seq::empty()
    } else {
        seq![s[0]] + first_segment(s.drop_first())
    }
}

proof fn lemma_first_segment(a: Seq<char>, s: Seq<char>)
    requires
        !a.contains('/'),
        s == a || exists|b: Seq<char>| s == #[trigger] (a + seq!['/'] + b),
    ensures
        first_segment(s) == a,
    decreases a.len(),
{
    if a.len() == 0 {
        assert(first_segment(s) =~= a);
    } else {
        assert(a.contains(a[0]));
        assert(s[0] == a[0]);
        let rest = a.drop_first();
        assert forall|i: int| 0 <= i < rest.len() implies rest[i] != '/' by {
            assert(a.contains(a[i + 1]));
        }
        if s == a {
            lemma_first_segment(rest, s.drop_first());
        } else {
            let b = choose|b: Seq<char>| s == #[trigger] (a + seq!['/'] + b);
            assert(s.drop_first() =~= rest + seq!['/'] + b);
            lemma_first_segment(rest, s.drop_first());
        }
        assert(first_segment(s) =~= a);
    }
}

/// The node that a load mark shows as shedding.
pub open spec fn shedding_node_at(now: u64, max_age_ms: u64, k: Seq<char>, v: Seq<u8>) -> Option<Seq<char>> {
    if opaque_mark(v, now, max_age_ms) {
        Some(first_segment(behind(k, LOAD_PREFIX@)))
    } else {
        None
    }
}

/// [`shedding_node_at`] as a reading of the table.
pub open spec fn shedding_node_reading(now: u64, max_age_ms: u64) -> Reading<Seq<char>> {
    |k: Seq<char>, v: Seq<u8>, ts: u64| shedding_node_at(now, max_age_ms, k, v)
}

/// The nodes with a fresh mark that shows them shedding.
pub open spec fn shedding_nodes(t: Table, now: u64, max_age_ms: u64) -> Set<Seq<char>> {
    reading_set(t, LOAD_PREFIX@, shedding_node_reading(now, max_age_ms))
}

/// `part` of `whole` as a percentage, rounded down and at most a hundred;
/// nothing of nothing is zero.
pub open spec fn percent(part: int, whole: int) -> int {
    if whole == 0 {
        0
    } else if part * 100 / whole > 100 {
        100
    } else {
        part * 100 / whole
    }
}

/// The nodes that a fresh mark shows as shedding, each once, in no particular
/// order.
pub fn list_shedding(kv: &KvHandle, now: u64, max_age_ms: u64) -> (out: Vec<String>)
    ensures
        views(out@).no_duplicates(),
        views(out@).to_set() == shedding_nodes(kv.table(), now, max_age_ms),
{
    let found = kv.scan_prefix_with_ts(LOAD_PREFIX);
    let ghost f = shedding_node_reading(now, max_age_ms);
    let mut out: Vec<String> = Vec::new();
    proof {
        lemma_read_all(found@, kv.table(), LOAD_PREFIX@, f);
        assert(views(out@) =~= Seq::empty());
        assert(views(out@).to_set() =~= Set::empty());
    }
    let mut i: usize = 0;
    while i < found.len()
        invariant
            i <= found.len(),
            f == shedding_node_reading(now, max_age_ms),
            lists_live_ts(found@, kv.table(), LOAD_PREFIX@),
            views(out@).no_duplicates(),
            views(out@).to_set() == read_so_far(found@, i as int, f),
        decreases found.len() - i,
    {
        proof {
            lemma_read_step(found@, i as int, f);
            assert(has_prefix(found@[i as int].0@, LOAD_PREFIX@));
        }
        if is_opaque_mark(&found[i].1, now, max_age_ms) {
            match strip_prefix(found[i].0.as_str(), LOAD_PREFIX) {
                None => {},
                Some(tail) => {
                    let node = match split_once(tail.as_str(), '/') {
                        Some((a, b)) => {
                            proof {
                                assert(tail@ == a@ + seq!['/'] + b@);
                                lemma_first_segment(a@, tail@);
                            }
                            a
                        },
                        None => {
                            proof {
                                lemma_first_segment(tail@, tail@);
                            }
                            tail
                        },
                    };
                    let ghost before = views(out@);
                    if !contains_text(&out, node.as_str()) {
                        proof {
                            lemma_push_new(before, node@);
                            assert(views(out@.push(node)) =~= before.push(node@));
                        }
                        out.push(node);
                    } else {
                        assert(before.to_set().insert(node@) =~= before.to_set());
                    }
                },
            }
        }
        i += 1;
    }
    out
}

/// How many nodes a fresh mark shows as shedding.
pub fn count_shedding(kv: &KvHandle, now: u64, max_age_ms: u64) -> (n: usize)
    ensures
        shedding_nodes(kv.table(), now, max_age_ms).finite(),
        n == shedding_nodes(kv.table(), now, max_age_ms).len(),
{
    let nodes = list_shedding(kv, now, max_age_ms);
    proof {
        views(nodes@).unique_seq_to_set();
    }
    nodes.len()
}

fn percent_of(part: usize, whole: u128) -> (pct: u64)
    ensures
        pct == percent(part as int, whole as int),
        pct <= 100,
{
    if whole == 0 {
        return 0;
    }
    let wide: u128 = (part as u128 * 100) / whole;
    if wide > 100 {
        100
    } else {
        wide as u64
    }
}

/// How many of `live_nodes` nodes shed, in percent.
pub fn opaque_node_pct(kv: &KvHandle, live_nodes: usize, now: u64, max_age_ms: u64) -> (pct: u64)
    ensures
        shedding_nodes(kv.table(), now, max_age_ms).finite(),
        pct == percent(shedding_nodes(kv.table(), now, max_age_ms).len() as int, live_nodes as int),
        pct <= 100,
{
    percent_of(count_shedding(kv, now, max_age_ms), live_nodes as u128)
}

/// How many of the known nodes, this one among them, shed now, in percent.
pub fn compute_opaque_node_pct(kv: &KvHandle, peers: &Peers, now: u64) -> (pct: u64)
    ensures
        pct == percent(
            shedding_nodes(kv.table(), now, OPAQUE_MAX_AGE_MS).len() as int,
            peers.table().dom().len() as int + 1,
        ),
        pct <= 100,
{
    let n: usize = peer_count(peers);
    percent_of(count_shedding(kv, now, OPAQUE_MAX_AGE_MS), n as u128 + 1)
}

/// The number of known peers.
pub fn peer_count(peers: &Peers) -> (n: usize)
    ensures
        peers.table().dom().finite(),
        n == peers.table().dom().len(),
{
    let names = crate::health::peer_names(peers);
    proof {
        crate::textset::lemma_listing_len(names@, peers.table().dom());
    }
    names.len()
}

// ── View confidence ──────────────────────────────────────────────────────────

/// A node's estimate of how good its own view is.
#[derive(Debug, Clone, PartialEq, Eq)]
pub struct ViewConfidence {
    /// Whose view this is.
    pub observer: String,
    /// Peers that the node knows.
    pub peers_known: usize,
    /// Peers that the node has heard recently.
    pub peers_heard: usize,
    /// For how long the longest silent of the peers heard has been silent.
    pub max_staleness_ms: u64,
    /// Whether the observer itself sheds.
    pub self_degraded: bool,
}

/// For how long `p` has been silent.
pub open spec fn silence(t: PeerMap, p: Seq<char>, now: u64) -> int {
    if now >= t[p] {
        now - t[p]
    } else {
        0
    }
}

/// The peers heard within the window.
pub open spec fn heard_recently(t: PeerMap, now: u64) -> Set<Seq<char>> {
    t.dom().filter(|p: Seq<char>| silence(t, p, now) <= HEARD_WINDOW_MS)
}

/// Whether `m` is the longest silence among the peers heard within the
/// window, zero where there are none.
pub open spec fn is_max_staleness(m: int, t: PeerMap, now: u64) -> bool {
    &&& forall|p: Seq<char>| #[trigger] heard_recently(t, now).contains(p) ==> silence(t, p, now) <= m
    &&& m == 0 || exists|p: Seq<char>| #[trigger]
        heard_recently(t, now).contains(p) && silence(t, p, now) == m
}

/// How good this node's view is at `now`.
pub fn compute_view_confidence(node: &NodeId, kv: &KvHandle, peers: &Peers, now: u64) -> (v: ViewConfidence)
    ensures
        v.observer@ == node_text(node@),
        v.peers_known == peers.table().dom().len(),
        heard_recently(peers.table(), now).finite(),
        v.peers_heard == heard_recently(peers.table(), now).len(),
        is_max_staleness(v.max_staleness_ms as int, peers.table(), now),
        v.self_degraded == marked_opaque(kv.table(), node@),
{
    let all = peers.entries();
    let ghost t = peers.table();
    let mut heard: Vec<String> = Vec::new();
    let ghost mut src: Seq<int> = Seq::empty();
    let mut max: u64 = 0;
    let mut i: usize = 0;
    while i < all.len()
        invariant
            i <= all.len(),
            t == peers.table(),
            lists_peers(all@, t),
            src.len() == heard@.len(),
            forall|j: int|
                0 <= j < src.len() ==> 0 <= #[trigger] src[j] < i && heard@[j]@ == all@[src[j]].0@
                    && silence(t, all@[src[j]].0@, now) <= HEARD_WINDOW_MS,
            forall|j: int, k: int| 0 <= j < k < src.len() ==> src[j] < src[k],
            forall|a: int|
                0 <= a < i && silence(t, (#[trigger] all@[a]).0@, now) <= HEARD_WINDOW_MS ==> src.contains(a)
                    && silence(t, all@[a].0@, now) <= max,
            max == 0 || exists|p: Seq<char>| #[trigger]
                heard_recently(t, now).contains(p) && silence(t, p, now) == max,
        decreases all.len() - i,
    {
        let ghost old_src = src;
        let age: u64 = now.saturating_sub(all[i].1);
        assert(t.contains_key(all@[i as int].0@));
        if age <= HEARD_WINDOW_MS {
            heard.push(all[i].0.clone());
            proof {
                src = src.push(i as int);
                assert(src[src.len() - 1] == i);
                assert forall|a: int| old_src.contains(a) implies src.contains(a) by {
                    let j = choose|j: int| 0 <= j < old_src.len() && old_src[j] == a;
                    assert(src[j] == a);
                }
                assert(heard_recently(t, now).contains(all@[i as int].0@));
            }
            if age > max {
                max = age;
            }
        }
        i += 1;
    }
    proof {
        assert forall|p: Seq<char>| #[trigger] heard_recently(t, now).contains(p) implies exists|j: int|
            0 <= j < heard@.len() && (#[trigger] heard@[j])@ == p by {
            let a = choose|a: int| 0 <= a < all@.len() && #[trigger] all@[a].0@ == p;
            assert(src.contains(a));
            let j = choose|j: int| 0 <= j < src.len() && src[j] == a;
            assert(heard@[j]@ == p);
        }
        assert forall|p: Seq<char>| #[trigger] heard_recently(t, now).contains(p) implies silence(t, p, now)
            <= max by {
            let a = choose|a: int| 0 <= a < all@.len() && #[trigger] all@[a].0@ == p;
            assert(silence(t, all@[a].0@, now) <= HEARD_WINDOW_MS);
        }
        assert forall|j: int| 0 <= j < heard@.len() implies heard_recently(t, now).contains(
            (#[trigger] heard@[j])@,
        ) by {
            assert(heard@[j]@ == all@[src[j]].0@);
            assert(t.contains_key(all@[src[j]].0@));
        }
        assert forall|a: int, b: int| 0 <= a < b < heard@.len() implies (#[trigger] heard@[a])@
            != (#[trigger] heard@[b])@ by {
            assert(src[a] < src[b]);
            assert(all@[src[a]].0@ != all@[src[b]].0@);
        }
        crate::textset::lemma_listing_len(heard@, heard_recently(t, now));
    }
    ViewConfidence {
        observer: node.to_text(),
        peers_known: peer_count(peers),
        peers_heard: heard.len(),
        max_staleness_ms: max,
        self_degraded: is_self_opaque(kv, node),
    }
}

// ── Fleet snapshot ───────────────────────────────────────────────────────────

/// The state of the fleet as one node sees it.
#[derive(Debug)]
pub struct FleetSnapshot {
    pub observer: String,
    pub view_confidence: ViewConfidence,
    pub governed_groups: Vec<GroupStatus>,
    pub capability_coverage_gaps: Vec<String>,
    pub opaque_node_pct: u64,
    pub opaque_pairs: Vec<(String, String)>,
    pub membership_flaps: u64,
    pub opacity_oscillations: u64,
}

/// Each text stands before all that follow it.
pub open spec fn texts_sorted(v: Seq<Seq<char>>) -> bool {
    forall|i: int, j: int| 0 <= i < j < v.len() ==> text_lt(#[trigger] v[i], #[trigger] v[j])
}

proof fn lemma_insert_text(s: Seq<Seq<char>>, x: Seq<char>, at: int)
    requires
        texts_sorted(s),
        s.no_duplicates(),
        !s.contains(x),
        0 <= at <= s.len(),
        forall|k: int| 0 <= k < at ==> text_lt(s[k], x),
        at < s.len() ==> !text_lt(s[at], x),
    ensures
        texts_sorted(s.insert(at, x)),
        s.insert(at, x).no_duplicates(),
        s.insert(at, x).to_set() == s.to_set().insert(x),
{
    let t = s.insert(at, x);
    assert forall|k: int| at <= k < s.len() implies text_lt(x, s[k]) by {
        assert(s.contains(s[at]));
        crate::text::lemma_lt_total(s[at], x);
        if k > at {
            crate::text::lemma_lt_transitive(x, s[at], s[k]);
        }
    }
    assert forall|i: int, j: int| 0 <= i < j < t.len() implies text_lt(#[trigger] t[i], #[trigger] t[j]) by {
        let a = if i < at {
            i
        } else {
            i - 1
        };
        let b = if j < at {
            j
        } else {
            j - 1
        };
        if i == at {
            assert(t[j] == s[b]);
        } else if j == at {
            assert(t[i] == s[a]);
        } else {
            assert(t[i] == s[a] && t[j] == s[b]);
        }
    }
    assert forall|i: int, j: int| 0 <= i < t.len() && 0 <= j < t.len() && i != j implies t[i] != t[j] by {
        if i < j {
            crate::text::lemma_lt_irreflexive(t[i]);
        } else {
            crate::text::lemma_lt_irreflexive(t[j]);
        }
    }
    assert forall|y: Seq<char>| t.to_set().contains(y) <==> s.to_set().insert(x).contains(y) by {
        if t.contains(y) {
            let i = choose|i: int| 0 <= i < t.len() && t[i] == y;
            if i != at {
                assert(s[if i < at {
                    i
                } else {
                    i - 1
                }] == y);
            }
        }
        if s.contains(y) {
            let i = choose|i: int| 0 <= i < s.len() && s[i] == y;
            assert(t[if i < at {
                i
            } else {
                i + 1
            }] == y);
        }
        if y == x {
            assert(t[at] == y);
        }
    }
    assert(t.to_set() =~= s.to_set().insert(x));
}

/// The texts of `v` in order.
pub fn sort_texts(v: &Vec<String>) -> (out: Vec<String>)
    requires
        views(v@).no_duplicates(),
    ensures
        texts_sorted(views(out@)),
        views(out@).no_duplicates(),
        views(out@).to_set() == views(v@).to_set(),
{
    let ghost w = views(v@);
    let mut out: Vec<String> = Vec::new();
    let mut i: usize = 0;
    proof {
        assert(views(out@) =~= Seq::empty());
        assert(w.take(0) =~= Seq::empty());
    }
    while i < v.len()
        invariant
            i <= v.len(),
            w == views(v@),
            w.no_duplicates(),
            texts_sorted(views(out@)),
            views(out@).no_duplicates(),
            views(out@).to_set() == w.take(i as int).to_set(),
        decreases v.len() - i,
    {
        let ghost x = w[i as int];
        let ghost s = views(out@);
        proof {
            crate::textset::lemma_take_to_set(w, i as int);
            if s.contains(x) {
                assert(s.to_set().contains(x));
                let q = choose|q: int| 0 <= q < w.take(i as int).len() && w.take(i as int)[q] == x;
                assert(w[q] == w[i as int]);
            }
        }
        let mut at: usize = 0;
        while at < out.len() && text_before(out[at].as_str(), v[i].as_str())
            invariant
                at <= out.len(),
                i < v.len(),
                s == views(out@),
                x == v@[i as int]@,
                forall|k: int| 0 <= k < at ==> text_lt(s[k], x),
            decreases out.len() - at,
        {
            at += 1;
        }
        proof {
            lemma_insert_text(s, x, at as int);
        }
        out.insert(at, v[i].clone());
        assert(views(out@) =~= s.insert(at as int, x));
        i += 1;
    }
    assert(w.take(i as int) =~= w);
    out
}

/// `s` is the fleet as `node` sees it at `now` from this table and these peers.
pub open spec fn is_snapshot(
    s: FleetSnapshot,
    node: NodeView,
    t: Table,
    peers: PeerMap,
    membership_flaps: u64,
    opacity_oscillations: u64,
    now: u64,
) -> bool {
    &&& s.observer@ == node_text(node)
    &&& s.view_confidence.observer@ == node_text(node)
    &&& s.view_confidence.peers_known == peers.dom().len()
    &&& s.view_confidence.peers_heard == heard_recently(peers, now).len()
    &&& is_max_staleness(s.view_confidence.max_staleness_ms as int, peers, now)
    &&& s.view_confidence.self_degraded == marked_opaque(t, node)
    &&& lists_readings(status_views(s.governed_groups@), t, MEMBERSHIP_PREFIX@, status_reading(t, now))
    &&& sorted_by_group(status_views(s.governed_groups@))
    &&& texts_sorted(views(s.capability_coverage_gaps@))
    &&& views(s.capability_coverage_gaps@).to_set() == reading_set(t, "req/"@, gap_reading(t, now))
    &&& s.opaque_node_pct == percent(
        shedding_nodes(t, now, OPAQUE_MAX_AGE_MS).len() as int,
        peers.dom().len() as int + 1,
    )
    &&& pairs_sorted(pair_views(s.opaque_pairs@))
    &&& pair_views(s.opaque_pairs@).to_set() == shedding(t, now, OPAQUE_MAX_AGE_MS)
    &&& s.membership_flaps == membership_flaps
    &&& s.opacity_oscillations == opacity_oscillations
}

/// The fleet as `node` sees it at `now`. Apart from the view confidence it is
/// a function of the table and the peers, so nodes with the same table agree.
pub fn compute_fleet_snapshot(
    node: &NodeId,
    kv: &KvHandle,
    peers: &Peers,
    membership_flaps: u64,
    opacity_oscillations: u64,
    now: u64,
) -> (s: FleetSnapshot)
    ensures
        is_snapshot(s, node@, kv.table(), peers.table(), membership_flaps, opacity_oscillations, now),
{
    let gaps = detect_coverage_gaps(kv, now);
    FleetSnapshot {
        observer: node.to_text(),
        view_confidence: compute_view_confidence(node, kv, peers, now),
        governed_groups: governed_group_statuses(kv, now),
        capability_coverage_gaps: sort_texts(&gaps),
        opaque_node_pct: compute_opaque_node_pct(kv, peers, now),
        opaque_pairs: opacity_pairs(kv, now, OPAQUE_MAX_AGE_MS).sorted(),
        membership_flaps,
        opacity_oscillations,
    }
}

impl GossipAgent {
    /// The fleet as this node sees it at `now`. The two counters are those of
    /// the detectors, zero where they do not run.
    pub fn fleet_snapshot(&self, membership_flaps: u64, opacity_oscillations: u64, now: u64) -> (s: FleetSnapshot)
        ensures
            is_snapshot(
                s,
                self.mesh.me(),
                self.mesh.kv.table(),
                self.peers.table(),
                membership_flaps,
                opacity_oscillations,
                now,
            ),
    {
        compute_fleet_snapshot(
            &self.mesh.kv.node_id,
            &self.mesh.kv,
            &self.peers,
            membership_flaps,
            opacity_oscillations,
            now,
        )
    }
}

/// No two fresh intents under the prefix name the same group.
pub open spec fn governed_once(t: Table, now: u64) -> bool {
    forall|k: Seq<char>, l: Seq<char>|
        has_prefix(k, MEMBERSHIP_PREFIX@) && has_prefix(l, MEMBERSHIP_PREFIX@) && (#[trigger] reading_at(
            t,
            k,
            status_reading(t, now),
        ) matches Some(a) && (#[trigger] reading_at(t, l, status_reading(t, now)) matches Some(b) && a.group
            == b.group)) ==> k == l
}

/// Two lists in strict order that hold the same items are the same list.
pub proof fn lemma_same_order<A>(a: Seq<A>, b: Seq<A>, lt: spec_fn(A, A) -> bool)
    requires
        forall|i: int, j: int| 0 <= i < j < a.len() ==> lt(#[trigger] a[i], #[trigger] a[j]),
        forall|i: int, j: int| 0 <= i < j < b.len() ==> lt(#[trigger] b[i], #[trigger] b[j]),
        forall|x: A, y: A| #[trigger] lt(x, y) ==> !lt(y, x),
        a.to_set() == b.to_set(),
    ensures
        a == b,
    decreases a.len(),
{
    if a.len() == 0 {
        if b.len() > 0 {
            assert(b.to_set().contains(b[0]));
        }
        assert(a =~= b);
    } else {
        assert(a.to_set().contains(a.last()));
        assert(b.contains(a.last()));
        let j = choose|j: int| 0 <= j < b.len() && b[j] == a.last();
        assert(b.to_set().contains(b.last()));
        assert(a.contains(b.last()));
        let i = choose|i: int| 0 <= i < a.len() && a[i] == b.last();
        if j < b.len() - 1 {
            assert(lt(b[j], b[b.len() - 1]));
            if i < a.len() - 1 {
                assert(lt(a[i], a[a.len() - 1]));
            }
        }
        assert(a.last() == b.last());
        let (c, d) = (a.drop_last(), b.drop_last());
        assert forall|x: A| c.to_set().contains(x) <==> d.to_set().contains(x) by {
            lemma_front(a, lt, x);
            lemma_front(b, lt, x);
        }
        assert(c.to_set() =~= d.to_set());
        lemma_same_order(c, d, lt);
        assert(a =~= c.push(a.last()));
        assert(b =~= d.push(b.last()));
    }
}

proof fn lemma_front<A>(a: Seq<A>, lt: spec_fn(A, A) -> bool, x: A)
    requires
        a.len() > 0,
        forall|i: int, j: int| 0 <= i < j < a.len() ==> lt(#[trigger] a[i], #[trigger] a[j]),
        forall|x: A, y: A| #[trigger] lt(x, y) ==> !lt(y, x),
    ensures
        a.drop_last().to_set().contains(x) <==> a.to_set().contains(x) && x != a.last(),
{
    let c = a.drop_last();
    if c.contains(x) {
        let i = choose|i: int| 0 <= i < c.len() && c[i] == x;
        assert(a[i] == x);
        assert(lt(a[i], a[a.len() - 1]));
    }
    if a.contains(x) && x != a.last() {
        let i = choose|i: int| 0 <= i < a.len() && a[i] == x;
        assert(c[i] == x);
    }
}

/// Observers with the same table agree on the diagnosis, whoever they are and
/// whichever peers they know: on the gaps in coverage, on who sheds, and on the
/// governed groups, in the same order where each group has one intent.
pub proof fn law_observers_agree(
    a: FleetSnapshot,
    b: FleetSnapshot,
    m: NodeView,
    n: NodeView,
    t: Table,
    known_a: PeerMap,
    known_b: PeerMap,
    counters_a: (u64, u64),
    counters_b: (u64, u64),
    now: u64,
)
    requires
        is_snapshot(a, m, t, known_a, counters_a.0, counters_a.1, now),
        is_snapshot(b, n, t, known_b, counters_b.0, counters_b.1, now),
    ensures
        views(a.capability_coverage_gaps@) == views(b.capability_coverage_gaps@),
        pair_views(a.opaque_pairs@) == pair_views(b.opaque_pairs@),
        status_views(a.governed_groups@).to_set() == status_views(b.governed_groups@).to_set(),
        governed_once(t, now) ==> status_views(a.governed_groups@) == status_views(b.governed_groups@),
{
    let text_order = |x: Seq<char>, y: Seq<char>| text_lt(x, y);
    assert forall|x: Seq<char>, y: Seq<char>| #[trigger] text_order(x, y) implies !text_order(y, x) by {
        if text_lt(y, x) {
            lemma_lt_transitive(x, y, x);
            lemma_lt_irreflexive(x);
        }
    }
    lemma_same_order(views(a.capability_coverage_gaps@), views(b.capability_coverage_gaps@), text_order);
    let pair_order = |x: Pair, y: Pair| pair_lt(x, y);
    assert forall|x: Pair, y: Pair| #[trigger] pair_order(x, y) implies !pair_order(y, x) by {
        if pair_lt(y, x) {
            lemma_pair_lt_transitive(x, y, x);
            lemma_lt_irreflexive(x.0);
            lemma_lt_irreflexive(x.1);
        }
    }
    lemma_same_order(pair_views(a.opaque_pairs@), pair_views(b.opaque_pairs@), pair_order);
    let f = status_reading(t, now);
    let (ga, gb) = (status_views(a.governed_groups@), status_views(b.governed_groups@));
    lemma_listing_is_set(ga, t, MEMBERSHIP_PREFIX@, f);
    lemma_listing_is_set(gb, t, MEMBERSHIP_PREFIX@, f);
    if governed_once(t, now) {
        let by_group = |x: StatusView, y: StatusView| text_lt(x.group, y.group);
        lemma_groups_once(ga, t, now);
        lemma_groups_once(gb, t, now);
        assert forall|x: StatusView, y: StatusView| #[trigger] by_group(x, y) implies !by_group(y, x) by {
            if text_lt(y.group, x.group) {
                lemma_lt_transitive(x.group, y.group, x.group);
                lemma_lt_irreflexive(x.group);
            }
        }
        lemma_same_order(ga, gb, by_group);
    }
}

/// Where each group has one intent, the order by group is strict.
proof fn lemma_groups_once(v: Seq<StatusView>, t: Table, now: u64)
    requires
        lists_readings(v, t, MEMBERSHIP_PREFIX@, status_reading(t, now)),
        sorted_by_group(v),
        governed_once(t, now),
    ensures
        forall|i: int, j: int| 0 <= i < j < v.len() ==> text_lt((#[trigger] v[i]).group, (#[trigger] v[j]).group),
{
    let f = status_reading(t, now);
    let ks = choose|ks: Seq<Seq<char>>| #[trigger] readings_by_key(v, ks, t, MEMBERSHIP_PREFIX@, f);
    assert forall|i: int, j: int| 0 <= i < j < v.len() implies text_lt(
        (#[trigger] v[i]).group,
        (#[trigger] v[j]).group,
    ) by {
        assert(reading_at(t, ks[i], f) == Some(v[i]));
        assert(reading_at(t, ks[j], f) == Some(v[j]));
        assert(ks[i] != ks[j]);
        lemma_lt_total(v[i].group, v[j].group);
    }
}

// ── Detector rounds ──────────────────────────────────────────────────────────

/// What the detectors remember between rounds.
pub struct Detectors {
    pub conflict_streaks: Streaks,
    pub gap_streaks: Streaks,
    pub prev_membership: PairSet,
    pub membership_tracker: FlapTracker,
    pub prev_opacity: PairSet,
    pub opacity_tracker: FlapTracker,
}

/// What one round of the detectors found.
#[derive(Debug, Clone, Copy, PartialEq, Eq, Structural)]
pub struct DetectorCounts {
    pub governed_group_conflicts: u64,
    pub capability_coverage_gaps: u64,
    pub membership_flaps: u64,
    pub opacity_oscillations: u64,
}

/// The groups in conflict.
pub open spec fn conflicting_groups(t: Table, now: u64) -> Set<Seq<char>> {
    Set::new(
        |g: Seq<char>|
            exists|s: StatusView| #[trigger]
                reading_set(t, MEMBERSHIP_PREFIX@, conflict_reading(t, now)).contains(s) && s.group == g,
    )
}

/// How the streaks of a set of reported keys go on.
pub open spec fn streaks_after(before: Streaks, after: Streaks, reported: Set<Seq<char>>) -> bool {
    forall|k: Seq<char>| #[trigger]
        after.of(k) == (if reported.contains(k) {
            Some(next_streak(before.of(k)))
        } else {
            None
        })
}

/// How the recorded changes of a set of pairs go on; pairs that did not change
/// within the window are forgotten.
pub open spec fn tracker_after(before: FlapTracker, after: FlapTracker, changed: Set<Pair>, now: u64) -> bool {
    &&& none_silent(after.events@)
    &&& forall|p: Pair| #[trigger]
        after.times(p) == pruned(
            if changed.contains(p) {
                before.times(p).push(now)
            } else {
                before.times(p)
            },
            now - FLAP_WINDOW_MS,
        )
}

impl Detectors {
    pub open spec fn wf(&self) -> bool {
        &&& self.prev_membership.wf()
        &&& self.prev_opacity.wf()
        &&& self.membership_tracker.wf()
        &&& self.opacity_tracker.wf()
    }

    /// Detectors that start from the present state of the table.
    pub fn new(kv: &KvHandle, now: u64) -> (d: Detectors)
        ensures
            d.wf(),
            forall|k: Seq<char>| d.conflict_streaks.of(k) is None,
            forall|k: Seq<char>| d.gap_streaks.of(k) is None,
            d.prev_membership@ == memberships(kv.table()),
            d.prev_opacity@ == shedding(kv.table(), now, OPAQUE_MAX_AGE_MS),
            forall|p: Pair| (#[trigger] d.membership_tracker.times(p)).len() == 0,
            forall|p: Pair| (#[trigger] d.opacity_tracker.times(p)).len() == 0,
    {
        Detectors {
            conflict_streaks: Streaks::new(),
            gap_streaks: Streaks::new(),
            prev_membership: membership_snapshot(kv),
            membership_tracker: FlapTracker::new(),
            prev_opacity: opacity_pairs(kv, now, OPAQUE_MAX_AGE_MS),
            opacity_tracker: FlapTracker::new(),
        }
    }

    /// One round of all detectors at `now`.
    pub fn round(&mut self, kv: &KvHandle, now: u64) -> (c: DetectorCounts)
        requires
            old(self).wf(),
        ensures
            final(self).wf(),
            streaks_after(
                old(self).conflict_streaks,
                final(self).conflict_streaks,
                conflicting_groups(kv.table(), now),
            ),
            c.governed_group_conflicts == final(self).conflict_streaks.at_least(CONFIRM_TICKS).len(),
            streaks_after(
                old(self).gap_streaks,
                final(self).gap_streaks,
                reading_set(kv.table(), "req/"@, gap_reading(kv.table(), now)),
            ),
            c.capability_coverage_gaps == final(self).gap_streaks.at_least(CONFIRM_TICKS).len(),
            final(self).prev_membership@ == memberships(kv.table()),
            tracker_after(
                old(self).membership_tracker,
                final(self).membership_tracker,
                changes(old(self).prev_membership@, memberships(kv.table())),
                now,
            ),
            c.membership_flaps == final(self).membership_tracker.busy(FLAP_THRESHOLD).len(),
            final(self).prev_opacity@ == shedding(kv.table(), now, OPAQUE_MAX_AGE_MS),
            tracker_after(
                old(self).opacity_tracker,
                final(self).opacity_tracker,
                changes(old(self).prev_opacity@, shedding(kv.table(), now, OPAQUE_MAX_AGE_MS)),
                now,
            ),
            c.opacity_oscillations == final(self).opacity_tracker.busy(FLAP_THRESHOLD).len(),
    {
        let ghost before = *self;
        let conflicts = detect_governed_group_conflicts(kv, now);
        let confirmed: u64 = confirm_conflicts(&conflicts, &mut self.conflict_streaks, CONFIRM_TICKS);
        proof {
            let t = kv.table();
            let r = conflict_views(conflicts@);
            lemma_listing_is_set(r, t, MEMBERSHIP_PREFIX@, conflict_reading(t, now));
            assert forall|k: Seq<char>| (exists|i: int|
                0 <= i < conflicts@.len() && (#[trigger] conflicts@[i]).group@ == k)
                <==> conflicting_groups(t, now).contains(k) by {
                if exists|i: int| 0 <= i < conflicts@.len() && (#[trigger] conflicts@[i]).group@ == k {
                    let i = choose|i: int|
                        0 <= i < conflicts@.len() && (#[trigger] conflicts@[i]).group@ == k;
                    assert(r.to_set().contains(r[i]));
                    assert(r[i].group == k);
                }
                if conflicting_groups(t, now).contains(k) {
                    let s = choose|s: StatusView| #[trigger]
                        reading_set(t, MEMBERSHIP_PREFIX@, conflict_reading(t, now)).contains(s) && s.group
                            == k;
                    assert(r.to_set().contains(s));
                    let i = choose|i: int| 0 <= i < r.len() && r[i] == s;
                    assert(conflicts@[i].group@ == k);
                }
            }
            assert forall|k: Seq<char>| #[trigger] self.conflict_streaks.of(k) == (if conflicting_groups(
                t,
                now,
            ).contains(k) {
                Some(next_streak(before.conflict_streaks.of(k)))
            } else {
                None
            }) by {}
        }
        let gaps = detect_coverage_gaps(kv, now);
        let confirmed_gaps: u64 = confirm_by_key(&gaps, &mut self.gap_streaks, CONFIRM_TICKS);
        proof {
            let g = reading_set(kv.table(), "req/"@, gap_reading(kv.table(), now));
            assert forall|k: Seq<char>| #[trigger] self.gap_streaks.of(k) == (if g.contains(k) {
                Some(next_streak(before.gap_streaks.of(k)))
            } else {
                None
            }) by {
                assert(views(gaps@).to_set().contains(k) <==> views(gaps@).contains(k));
            }
        }
        let membership = membership_snapshot(kv);
        let joined_or_left = flap_transitions(&self.prev_membership, &membership);
        self.membership_tracker.record(&joined_or_left, now);
        let flaps: u64 = self.membership_tracker.flapping_count(now, FLAP_WINDOW_MS, FLAP_THRESHOLD);
        self.prev_membership = membership;
        let opacity = opacity_pairs(kv, now, OPAQUE_MAX_AGE_MS);
        let toggled = set_transitions(&self.prev_opacity, &opacity);
        self.opacity_tracker.record(&toggled, now);
        let oscillations: u64 = self.opacity_tracker.flapping_count(
            now,
            FLAP_WINDOW_MS,
            FLAP_THRESHOLD,
        );
        self.prev_opacity = opacity;
        DetectorCounts {
            governed_group_conflicts: confirmed,
            capability_coverage_gaps: confirmed_gaps,
            membership_flaps: flaps,
            opacity_oscillations: oscillations,
        }
    }
}

/// The percentage is rounded down, and never above a hundred.
pub proof fn law_percentage_rounds_down(part: int, whole: int)
    requires
        part >= 0,
        whole >= 0,
    ensures
        whole == 0 ==> percent(part, whole) == 0,
        part >= whole > 0 ==> percent(part, whole) == 100,
        part < whole ==> percent(part, whole) * whole <= part * 100 < (percent(part, whole) + 1) * whole,
{
    if whole > 0 {
        let q = part * 100 / whole;
        vstd::arithmetic::div_mod::lemma_fundamental_div_mod(part * 100, whole);
        vstd::arithmetic::div_mod::lemma_mod_bound(part * 100, whole);
        assert(q * whole <= part * 100 < (q + 1) * whole) by (nonlinear_arith)
            requires
                part * 100 == whole * q + (part * 100) % whole,
                0 <= (part * 100) % whole < whole,
        ;
        if part >= whole {
            assert(q >= 100) by (nonlinear_arith)
                requires
                    part * 100 < (q + 1) * whole,
                    part >= whole > 0,
            ;
        } else {
            assert(q < 100) by (nonlinear_arith)
                requires
                    q * whole <= part * 100,
                    part < whole,
                    whole > 0,
            ;
        }
    }
}

/// A peer counts as heard for half a minute, and no peer that counts was silent for
/// longer than the staleness that is told.
pub proof fn law_heard_for_half_a_minute(t: PeerMap, p: Seq<char>, m: int, now: u64)
    requires
        is_max_staleness(m, t, now),
    ensures
        heard_recently(t, now).contains(p) <==> t.contains_key(p) && now - t[p] <= 30_000,
        t.contains_key(p) && now - t[p] <= 30_000 ==> now - t[p] <= m,
        0 <= m <= 30_000,
        m > 0 ==> exists|q: Seq<char>| #[trigger] t.contains_key(q) && now - t[q] == m,
{
    assert(t.contains_key(p) && now - t[p] <= 30_000 ==> heard_recently(t, now).contains(p));
    if m != 0 {
        let q = choose|q: Seq<char>| #[trigger] heard_recently(t, now).contains(q) && silence(t, q, now) == m;
        assert(t.contains_key(q));
    }
}

proof fn lemma_segment_leads(s: Seq<char>)
    ensures
        !first_segment(s).contains('/'),
        s == first_segment(s) || exists|rest: Seq<char>| s == #[trigger] (first_segment(s) + "/"@ + rest),
    decreases s.len(),
{
    reveal_strlit("/");
    if s.len() == 0 {
        assert(s =~= first_segment(s));
    } else if s[0] == '/' {
        assert(s =~= first_segment(s) + "/"@ + s.drop_first());
    } else {
        let tail = s.drop_first();
        lemma_segment_leads(tail);
        let a = first_segment(tail);
        if tail == a {
            assert(s =~= first_segment(s));
        } else {
            let rest = choose|rest: Seq<char>| tail == #[trigger] (a + "/"@ + rest);
            assert(s =~= seq![s[0]] + tail);
            assert(s =~= first_segment(s) + "/"@ + rest);
        }
    }
}

/// A node counts as shedding exactly if a load mark of it, of whatever kind, says so
/// and is no older than the limit.
pub proof fn law_one_recent_mark_makes_a_shedding_node(t: Table, now: u64, max_age_ms: u64, node: Seq<char>)
    ensures
        shedding_nodes(t, now, max_age_ms).contains(node) ==> exists|k: Seq<char>|
            sheds_at(t, now, max_age_ms, k) && (k == "sys/load/"@ + node || exists|kind: Seq<char>|
                k == #[trigger] ("sys/load/"@ + node + "/"@ + kind)),
        forall|kind: Seq<char>|
            !node.contains('/') && sheds_at(t, now, max_age_ms, #[trigger] ("sys/load/"@ + node + "/"@ + kind))
                ==> shedding_nodes(t, now, max_age_ms).contains(node),
{
    let f = shedding_node_reading(now, max_age_ms);
    let p = LOAD_PREFIX@;
    if shedding_nodes(t, now, max_age_ms).contains(node) {
        let k = choose|k: Seq<char>| has_prefix(k, p) && (#[trigger] reading_at(t, k, f)) == Some(node);
        let s = behind(k, p);
        lemma_segment_leads(s);
        assert(k =~= p + s);
        if s != node {
            let kind = choose|rest: Seq<char>| s == #[trigger] (first_segment(s) + "/"@ + rest);
            assert(k =~= "sys/load/"@ + node + "/"@ + kind);
        }
        assert(sheds_at(t, now, max_age_ms, k));
    }
    assert forall|kind: Seq<char>|
        !node.contains('/') && sheds_at(
            t,
            now,
            max_age_ms,
            #[trigger] ("sys/load/"@ + node + "/"@ + kind),
        ) implies shedding_nodes(t, now, max_age_ms).contains(node) by {
        let k = "sys/load/"@ + node + "/"@ + kind;
        reveal_strlit("/");
        assert(k.take(p.len() as int) =~= p);
        assert(behind(k, p) =~= node + seq!['/'] + kind);
        lemma_first_segment(node, behind(k, p));
        assert(reading_at(t, k, f) == Some(node));
    }
}

/// The load mark at `k` says that its node sheds, and is recent.
pub open spec fn sheds_at(t: Table, now: u64, max_age_ms: u64, k: Seq<char>) -> bool {
    crate::store::live(t, k) is Some && ({
        let p = crate::load::load_parts(crate::store::live(t, k)->0);
        p is Some && (p->0).1 && now - (p->0).2 <= max_age_ms
    })
}

/// A condition is confirmed exactly if it was reported in this round and in the one
/// before.
pub proof fn law_two_rounds_confirm(
    first: Streaks,
    second: Streaks,
    third: Streaks,
    earlier: Set<Seq<char>>,
    later: Set<Seq<char>>,
    k: Seq<char>,
)
    requires
        streaks_after(first, second, earlier),
        streaks_after(second, third, later),
    ensures
        third.at_least(CONFIRM_TICKS).contains(k) <==> earlier.contains(k) && later.contains(k),
{
    assert(second.of(k) is Some <==> earlier.contains(k));
    assert(third.of(k) is Some <==> later.contains(k));
}

/// Four changes within a minute make a pair flap, and no fewer do.
pub proof fn law_four_changes_in_a_minute_flap(
    before: FlapTracker,
    after: FlapTracker,
    changed: Set<Pair>,
    now: u64,
    p: Pair,
)
    requires
        tracker_after(before, after, changed, now),
        forall|i: int| 0 <= i < before.times(p).len() ==> now - (#[trigger] before.times(p)[i]) <= 60_000,
    ensures
        after.busy(FLAP_THRESHOLD).contains(p) <==> before.times(p).len() + (if changed.contains(p) {
            1int
        } else {
            0int
        }) >= 4,
{
    let times = if changed.contains(p) {
        before.times(p).push(now)
    } else {
        before.times(p)
    };
    assert(times.len() > 0 ==> now - times[0] <= 60_000);
    assert(pruned(times, now - FLAP_WINDOW_MS) == times);
    assert(after.times(p) == times);
}

/// A group is in conflict exactly if some status of it is.
pub proof fn law_group_in_conflict_has_a_conflicting_status(t: Table, now: u64, conflicts: Seq<StatusView>, g: Seq<char>)
    requires
        lists_readings(conflicts, t, MEMBERSHIP_PREFIX@, conflict_reading(t, now)),
    ensures
        conflicting_groups(t, now).contains(g) <==> exists|i: int|
            0 <= i < conflicts.len() && (#[trigger] conflicts[i]).group == g && conflicts[i].conflict,
{
    let f = conflict_reading(t, now);
    let ks = choose|ks: Seq<Seq<char>>| #[trigger] readings_by_key(conflicts, ks, t, MEMBERSHIP_PREFIX@, f);
    lemma_listing_is_set(conflicts, t, MEMBERSHIP_PREFIX@, f);
    assert forall|i: int| 0 <= i < conflicts.len() implies (#[trigger] conflicts[i]).conflict by {
        assert(reading_at(t, ks[i], f) == Some(conflicts[i]));
    }
    if conflicting_groups(t, now).contains(g) {
        let s = choose|s: StatusView| #[trigger]
            reading_set(t, MEMBERSHIP_PREFIX@, f).contains(s) && s.group == g;
        assert(conflicts.to_set().contains(s));
        assert(conflicts.contains(s));
    }
    assert forall|i: int| 0 <= i < conflicts.len() && (#[trigger] conflicts[i]).group == g implies conflicting_groups(
        t,
        now,
    ).contains(g) by {
        assert(conflicts.contains(conflicts[i]));
        assert(conflicts.to_set().contains(conflicts[i]));
    }
}

/// A snapshot counts the peers that are known and those heard within half a minute, and
/// tells which part of the mesh, this node included, sheds.
pub proof fn law_snapshot_counts(
    s: FleetSnapshot,
    node: NodeView,
    t: Table,
    peers: PeerMap,
    membership_flaps: u64,
    opacity_oscillations: u64,
    now: u64,
)
    requires
        is_snapshot(s, node, t, peers, membership_flaps, opacity_oscillations, now),
        peers.dom().finite(),
    ensures
        s.view_confidence.peers_known == peers.dom().len(),
        s.view_confidence.peers_heard == peers.dom().filter(|p: Seq<char>| now - peers[p] <= 30_000).len(),
        s.view_confidence.max_staleness_ms <= 30_000,
        s.view_confidence.self_degraded == marked_opaque(t, node),
        s.observer@ == node_text(node) && s.view_confidence.observer@ == node_text(node),
        ({
            let part = shedding_nodes(t, now, 30_000).len() as int;
            let whole = peers.dom().len() + 1;
            &&& part >= whole ==> s.opaque_node_pct == 100
            &&& part < whole ==> s.opaque_node_pct * whole <= part * 100 < (s.opaque_node_pct + 1) * whole
        }),
        s.membership_flaps == membership_flaps && s.opacity_oscillations == opacity_oscillations,
{
    let heard = peers.dom().filter(|p: Seq<char>| now - peers[p] <= 30_000);
    assert(heard =~= heard_recently(peers, now));
    law_heard_for_half_a_minute(peers, Seq::empty(), s.view_confidence.max_staleness_ms as int, now);
    law_percentage_rounds_down(shedding_nodes(t, now, 30_000).len() as int, (peers.dom().len() + 1) as int);
}

} // verus!
