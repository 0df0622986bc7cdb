//! What the choice of a leader goes by: how loaded the members of a group are,
//! and how often they are trusted.

use crate::consensus::{decode_texts, nodes_of, parse_nodes, text_list_in, trust_prefix, ConsensusHandle, TRUST_PREFIX};
use crate::groups::lists_members;
use crate::load::{decode_load_state, load_parts, LOAD_PREFIX};
use crate::node_id::{law_node_text_no_slash, node_text, node_views, NodeId, NodeView};
use crate::num::sat_sub_spec;
use crate::opacity::load_key_text;
use crate::scan::{
    lemma_pick, lemma_picked_all, lemma_skip, lists_live_ts, lists_readings, picked, Reading,
};
use crate::store::{live, Table};
use crate::text::{behind, join2, join3, lemma_first_slash};
use crate::wire::id_hash;
use vstd::prelude::*;

verus! {

// ── Trust ────────────────────────────────────────────────────────────────────

/// The nodes that an entry under `consensus/trust/{group}/` names, whoever
/// wrote it.
pub open spec fn slice_reading() -> Reading<Seq<NodeView>> {
    |k: Seq<char>, v: Seq<u8>, ts: u64|
        match text_list_in(v) {
            Some(t) => nodes_of(t),
            None => None,
        }
}

pub open spec fn slice_views(v: Seq<Vec<NodeId>>) -> Seq<Seq<NodeView>> {
    v.map_values(|s: Vec<NodeId>| node_views(s@))
}

/// How many of the nodes in `s` have the hash `h`.
pub open spec fn times_in(s: Seq<NodeView>, h: u64) -> nat
    decreases s.len(),
{
    if s.len() == 0 {
        0
    } else {
        times_in(s.drop_last(), h) + if id_hash(s.last()) == h {
            1nat
        } else {
            0nat
        }
    }
}

/// How often a node with the hash `h` is named in all of `slices`.
pub open spec fn times_trusted(slices: Seq<Seq<NodeView>>, h: u64) -> nat
    decreases slices.len(),
{
    if slices.len() == 0 {
        0
    } else {
        times_trusted(slices.drop_last(), h) + times_in(slices.last(), h)
    }
}

/// `n`, or the largest number that a `usize` holds.
pub open spec fn capped(n: nat) -> nat {
    if n <= usize::MAX {
        n
    } else {
        usize::MAX as nat
    }
}

fn count_in(s: &Vec<NodeId>, h: u64) -> (n: usize)
    ensures
        n == times_in(node_views(s@), h),
        n <= s@.len(),
{
    let ghost w = node_views(s@);
    let mut n: usize = 0;
    let mut i: usize = 0;
    assert(w.take(0) =~= Seq::empty());
    while i < s.len()
        invariant
            i <= s.len(),
            w == node_views(s@),
            n == times_in(w.take(i as int), h),
            n <= i,
        decreases s.len() - i,
    {
        proof {
            assert(w.take(i + 1).drop_last() =~= w.take(i as int));
            assert(w.take(i + 1).last() == s@[i as int]@);
        }
        if s[i].id_hash() == h {
            n += 1;
        }
        i += 1;
    }
    assert(w.take(i as int) =~= w);
    n
}

/// How often `node` is named in `slices`.
pub fn count_trust(slices: &Vec<Vec<NodeId>>, node: &NodeId) -> (n: usize)
    ensures
        n == capped(times_trusted(slice_views(slices@), id_hash(node@))),
{
    let h: u64 = node.id_hash();
    let ghost w = slice_views(slices@);
    let mut n: usize = 0;
    let mut i: usize = 0;
    assert(w.take(0) =~= Seq::empty());
    while i < slices.len()
        invariant
            i <= slices.len(),
            w == slice_views(slices@),
            n == capped(times_trusted(w.take(i as int), h)),
        decreases slices.len() - i,
    {
        proof {
            assert(w.take(i + 1).drop_last() =~= w.take(i as int));
            assert(w.take(i + 1).last() == node_views(slices@[i as int]@));
        }
        n = n.saturating_add(count_in(&slices[i], h));
        i += 1;
    }
    assert(w.take(i as int) =~= w);
    n
}

fn read_slice(value: &Vec<u8>) -> (r: Option<Vec<NodeId>>)
    ensures
        ({
            let s = slice_reading()(Seq::empty(), value@, 0);
            &&& r is Some <==> s is Some
            &&& r matches Some(v) ==> s == Some(node_views(v@))
        }),
{
    match decode_texts(value) {
        Some(t) => parse_nodes(&t),
        None => None,
    }
}

// ── Members ──────────────────────────────────────────────────────────────────

/// What speaks for and against a member as leader. The fill ratio is held as
/// the four little-endian bytes of a single-precision number.
#[derive(Debug, Clone, PartialEq, Eq)]
pub struct Candidate {
    pub node: NodeId,
    /// How full its handlers are, where it says so.
    pub fill: Option<[u8; 4]>,
    /// How often it is trusted.
    pub trust: usize,
}

/// The fill ratio of `node` for signals of `kind`, where the table holds a
/// mark that is no older than `max_age_ms`.
pub open spec fn fill_of(t: Table, node: NodeView, kind: Seq<char>, max_age_ms: u64, now_ms: u64) -> Option<
    Seq<u8>,
> {
    match live(t, load_key_text(node, kind)) {
        Some(v) => match load_parts(v) {
            Some(p) => if sat_sub_spec(now_ms as int, p.2 as int) <= max_age_ms {
                Some(p.0)
            } else {
                None
            },
            None => None,
        },
        None => None,
    }
}

pub open spec fn fill_view(fill: Option<[u8; 4]>) -> Option<Seq<u8>> {
    match fill {
        Some(f) => Some(f@),
        None => None,
    }
}

/// The nodes of the candidates.
pub open spec fn candidate_nodes(v: Seq<Candidate>) -> Seq<NodeId> {
    v.map_values(|c: Candidate| c.node)
}

impl ConsensusHandle {
    /// Every trust slice declared for `group`, in no particular order.
    pub fn trust_slices(&self, group: &str) -> (r: Vec<Vec<NodeId>>)
        ensures
            lists_readings(slice_views(r@), self.table(), trust_prefix(group@), slice_reading()),
    {
        let prefix = join3(TRUST_PREFIX, group, "/");
        let found = self.mesh.kv.scan_prefix_with_ts(prefix.as_str());
        let ghost f = slice_reading();
        let ghost mut src: Seq<int> = Seq::empty();
        let mut out: Vec<Vec<NodeId>> = Vec::new();
        let mut i: usize = 0;
        assert(slice_views(out@) =~= Seq::empty());
        while i < found.len()
            invariant
                i <= found.len(),
                prefix@ == trust_prefix(group@),
                lists_live_ts(found@, self.table(), prefix@),
                f == slice_reading(),
                picked(found@, i as int, src, slice_views(out@), f),
            decreases found.len() - i,
        {
            match read_slice(&found[i].1) {
                Some(s) => {
                    proof {
                        let x = node_views(s@);
                        lemma_pick(found@, i as int, src, slice_views(out@), f, x);
                        src = src.push(i as int);
                        assert(slice_views(out@.push(s)) =~= slice_views(out@).push(x));
                    }
                    out.push(s);
                },
                None => {
                    proof {
                        lemma_skip(found@, i as int, src, slice_views(out@), f);
                    }
                },
            }
            i += 1;
        }
        proof {
            lemma_picked_all(found@, self.table(), prefix@, src, slice_views(out@), f);
        }
        out
    }

    fn member_fill(&self, node: &NodeId, kind: &str, max_age_ms: u64, now_ms: u64) -> (r: Option<[u8; 4]>)
        ensures
            fill_view(r) == fill_of(self.table(), node@, kind@, max_age_ms, now_ms),
    {
        let head = join3(LOAD_PREFIX, node.to_text().as_str(), "/");
        let key = join2(head.as_str(), kind);
        assert(key@ =~= load_key_text(node@, kind@));
        match self.mesh.kv.get(key.as_str()) {
            Some(v) => match decode_load_state(&v) {
                Some(s) => if now_ms.saturating_sub(s.written_at_ms) <= max_age_ms {
                    Some(s.fill)
                } else {
                    None
                },
                None => None,
            },
            None => None,
        }
    }

    /// Every member of `group`, with its load for signals of `kind` and how
    /// often the trust slices of the group name it.
    pub fn leader_candidates(&self, group: &str, kind: &str, max_age_ms: u64, now_ms: u64) -> (r: Vec<
        Candidate,
    >)
        ensures
            lists_members(candidate_nodes(r@), self.table(), group@),
            forall|i: int|
                0 <= i < r@.len() ==> fill_view((#[trigger] r@[i]).fill) == fill_of(
                    self.table(),
                    r@[i].node@,
                    kind@,
                    max_age_ms,
                    now_ms,
                ),
            exists|slices: Seq<Seq<NodeView>>|
                #[trigger] lists_readings(slices, self.table(), trust_prefix(group@), slice_reading())
                    && forall|i: int|
                    0 <= i < r@.len() ==> (#[trigger] r@[i]).trust == capped(
                        times_trusted(slices, id_hash(r@[i].node@)),
                    ),
    {
        let members = self.mesh.group_members(group);
        let slices = self.trust_slices(group);
        let mut out: Vec<Candidate> = Vec::new();
        let mut i: usize = 0;
        while i < members.len()
            invariant
                i <= members.len(),
                out@.len() == i,
                forall|k: int|
                    0 <= k < i ==> (#[trigger] out@[k]).node@ == members@[k]@ && fill_view(out@[k].fill)
                        == fill_of(self.table(), out@[k].node@, kind@, max_age_ms, now_ms) && out@[k].trust
                        == capped(times_trusted(slice_views(slices@), id_hash(out@[k].node@))),
            decreases members.len() - i,
        {
            let node = members[i].copy();
            let fill = self.member_fill(&node, kind, max_age_ms, now_ms);
            let trust: usize = count_trust(&slices, &node);
            out.push(Candidate { node, fill, trust });
            i += 1;
        }
        proof {
            let nodes = candidate_nodes(out@);
            let ks = choose|ks: Seq<Seq<char>>| #[trigger]
                crate::groups::members_by_entry(members@, ks, self.table(), group@);
            assert(crate::groups::members_by_entry(nodes, ks, self.table(), group@)) by {
                assert forall|k: int| 0 <= k < nodes.len() implies (#[trigger] nodes[k])@ == members@[k]@ by {
                    assert(nodes[k] == out@[k].node);
                }
            }
        }
        out
    }
}

/// A load mark that counts for a candidate is one that
/// [`crate::kv::KvHandle::peer_load`] lists, with the same fill ratio, and the other way
/// round.
pub proof fn law_candidate_load_is_listed(
    t: Table,
    node: NodeView,
    kind: Seq<char>,
    max_age_ms: u64,
    now_ms: u64,
)
    requires
        crate::node_id::valid_host(node.host),
    ensures
        match crate::scan::reading_at(
            t,
            load_key_text(node, kind),
            crate::agent::load_reading(max_age_ms, now_ms),
        ) {
            Some(m) => m.0 == node_text(node) && m.1 == kind && fill_of(t, node, kind, max_age_ms, now_ms)
                == Some((m.2).0),
            None => fill_of(t, node, kind, max_age_ms, now_ms) is None,
        },
{
    let k = load_key_text(node, kind);
    let rest = node_text(node) + seq!['/'] + kind;
    law_node_text_no_slash(node);
    lemma_first_slash(node_text(node), kind);
    reveal_strlit("/");
    assert(behind(k, LOAD_PREFIX@) =~= rest);
    assert(rest.skip(node_text(node).len() as int + 1) =~= kind);
    assert(rest.take(node_text(node).len() as int) =~= node_text(node));
}

/// What is told of a member's load is what its mark for the kind says, while the mark
/// is no older than the limit; otherwise nothing is.
pub proof fn law_load_is_told_while_recent(t: Table, node: NodeView, kind: Seq<char>, max_age_ms: u64, now_ms: u64)
    ensures
        ({
            let v = live(t, "sys/load/"@ + node_text(node) + "/"@ + kind);
            let told = fill_of(t, node, kind, max_age_ms, now_ms);
            &&& v is None ==> told is None
            &&& v is Some && load_parts(v->0) is None ==> told is None
            &&& v is Some && load_parts(v->0) is Some ==> ({
                let p = load_parts(v->0)->0;
                &&& now_ms - p.2 <= max_age_ms ==> told == Some(p.0)
                &&& now_ms - p.2 > max_age_ms ==> told is None
            })
        }),
{
}

/// The nodes of a slice that have the hash.
pub open spec fn namings(s: Seq<NodeView>, h: u64) -> Set<int> {
    Set::new(|i: int| 0 <= i < s.len() && id_hash(s[i]) == h)
}

/// A slice counts once for each place at which it names the node.
pub proof fn law_every_naming_counts(s: Seq<NodeView>, h: u64)
    ensures
        namings(s, h).finite(),
        times_in(s, h) == namings(s, h).len(),
    decreases s.len(),
{
    if s.len() == 0 {
        assert(namings(s, h) =~= Set::<int>::empty());
    } else {
        let rest = s.drop_last();
        law_every_naming_counts(rest, h);
        if id_hash(s.last()) == h {
            assert(namings(s, h) =~= namings(rest, h).insert(s.len() - 1));
        } else {
            assert(namings(s, h) =~= namings(rest, h));
        }
    }
}

/// Trust adds up over the slices, and in whatever order they are read.
pub proof fn law_trust_adds_up(a: Seq<Seq<NodeView>>, b: Seq<Seq<NodeView>>, h: u64)
    ensures
        times_trusted(a + b, h) == times_trusted(a, h) + times_trusted(b, h),
        forall|s: Seq<NodeView>| times_trusted(#[trigger] seq![s], h) == times_in(s, h),
    decreases b.len(),
{
    assert forall|s: Seq<NodeView>| times_trusted(#[trigger] seq![s], h) == times_in(s, h) by {
        assert(seq![s].drop_last() =~= Seq::empty());
        assert(times_trusted(seq![s].drop_last(), h) == 0);
    }
    if b.len() == 0 {
        assert(a + b =~= a);
    } else {
        assert((a + b).drop_last() =~= a + b.drop_last());
        law_trust_adds_up(a, b.drop_last(), h);
    }
}

/// A count that can be held is told as it is.
pub proof fn law_counts_are_told(n: nat)
    ensures
        n <= usize::MAX ==> capped(n) == n,
        n > usize::MAX ==> capped(n) == usize::MAX,
{
}

} // verus!
