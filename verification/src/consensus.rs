//! What a node decides around the ballots of the consensus protocol: quorum
//! sizes, leader suggestions, and what follows a ballot's result.

use crate::agent::{load_reading, load_views, LoadView};
use crate::fleet::{count_shedding, list_shedding, peer_count, shedding_nodes};
use crate::groups::{group_key, group_key_text, group_member_set, member_texts};
use crate::kv::{hlc_next, outcome_for, wrote, KvHandle};
use crate::load::{at_least_as_full, fill_at_least, LOAD_PREFIX};
use crate::log::{lock_record, lock_record_bytes, utf8_text};
use crate::mesh::{members_of, MeshHandle};
use crate::node_id::{denotes, node_text, node_views, NodeId, NodeView};
use crate::num::{sat_mul, sat_mul_spec};
use crate::pairs::lemma_push_new;
use crate::peers::Peers;
use crate::scan::{
    lemma_pick, lemma_picked_all, lemma_skip, lists_live_ts, lists_readings, picked, reading_at,
    readings_by_key, Reading,
};
use crate::store::{live, Table};
use crate::text::{behind, has_prefix, join2, join3, same_text, strip_prefix, views};
use crate::textset::{set_contains, set_count, text_set};
use crate::wire::{id_hash, Dispatch};
use vstd::prelude::*;
use vstd::string::StrSliceExecFns;
use vstd::utf8::{decode_utf8, valid_utf8};

verus! {

/// Prefix of committed values: `consensus/committed/{slot}`.
pub const COMMITTED_PREFIX: &'static str = "consensus/committed/";

/// The kind of signal by which the load of a voter is judged.
pub const PROPOSE_KIND: &'static str = "consensus.propose";

/// Prefix of trust slices: `consensus/trust/{group}/{node}`.
pub const TRUST_PREFIX: &'static str = "consensus/trust/";

// ── Quorum sizes ─────────────────────────────────────────────────────────────

/// The votes that a ballot needs: as configured, or a majority.
pub open spec fn quorum_size(config_size: int, member_count: int) -> int {
    if config_size > 0 {
        config_size
    } else {
        member_count / 2 + 1
    }
}

/// The votes that a ballot among `member_count` nodes needs: as configured,
/// or a majority where nothing is configured.
pub fn compute_quorum_size(config_size: usize, member_count: usize) -> (q: usize)
    ensures
        q == quorum_size(config_size as int, member_count as int),
        config_size > 0 ==> q == config_size,
        config_size == 0 ==> 2 * q > member_count && 2 * (q - 1) <= member_count,
{
    if config_size > 0 {
        config_size
    } else {
        member_count / 2 + 1
    }
}

/// Two sets of voters that each reach a majority have a voter in common.
pub proof fn law_majorities_intersect(a: Set<NodeView>, b: Set<NodeView>, all: Set<NodeView>)
    requires
        all.finite(),
        a.subset_of(all),
        b.subset_of(all),
        a.len() >= quorum_size(0, all.len() as int),
        b.len() >= quorum_size(0, all.len() as int),
    ensures
        exists|n: NodeView| a.contains(n) && b.contains(n),
{
    if !(exists|n: NodeView| a.contains(n) && b.contains(n)) {
        vstd::set_lib::lemma_len_subset(a, all);
        vstd::set_lib::lemma_len_subset(b, all);
        assert(a.disjoint(b));
        vstd::set_lib::lemma_set_disjoint_lens(a, b);
        assert(a.union(b).subset_of(all));
        vstd::set_lib::lemma_len_subset(a.union(b), all);
    }
}

/// A majority of at least one node can be reached by those nodes.
pub proof fn law_majority_is_reachable(n: int)
    requires
        n >= 1,
    ensures
        1 <= quorum_size(0, n) <= n,
{
}

/// How a ballot is run.
#[derive(Debug, Clone, Copy, PartialEq, Eq)]
pub struct ConsensusConfig {
    /// The votes needed; zero for a majority.
    pub quorum_size: usize,
    /// Whether shedding members do not count.
    pub count_opaque_as_absent: bool,
    pub abstain_when_opaque: bool,
    pub use_trust_slices: bool,
    pub max_abstain_ballots: u32,
    /// How long a node that is not the suggested leader holds back.
    pub ballot_retry_jitter_ms: u64,
    pub use_suggest_leader: bool,
}

/// The numbers that a ballot is run with.
#[derive(Debug, Clone, Copy, PartialEq, Eq, Structural)]
pub struct QuorumPlan {
    /// The nodes that could vote.
    pub total: usize,
    /// Those of them that are expected to.
    pub active: usize,
    /// The votes needed.
    pub quorum: usize,
}

/// How many of `total` voters are expected to vote when `absent` are not.
pub open spec fn active_of(total: int, absent: int) -> int {
    if total - absent > 1 {
        total - absent
    } else {
        1
    }
}

fn plan(total: usize, absent: Option<usize>, config_size: usize) -> (p: QuorumPlan)
    ensures
        p.total == total,
        p.active == (match absent {
            Some(a) => active_of(total as int, a as int),
            None => total as int,
        }),
        p.quorum == quorum_size(config_size as int, p.active as int),
{
    let active: usize = match absent {
        Some(a) => {
            let left: usize = total.saturating_sub(a);
            if left > 1 {
                left
            } else {
                1
            }
        },
        None => total,
    };
    QuorumPlan { total, active, quorum: compute_quorum_size(config_size, active) }
}

/// What came of a ballot.
#[derive(Debug, Clone, Copy, PartialEq, Eq, Structural)]
pub enum ConsensusResult {
    Committed { ballot: u64 },
    Timeout { ballots_tried: u32 },
    /// Another node committed first.
    Superseded,
    TopologyUnsatisfied,
}

/// Why a consistent operation failed.
#[derive(Debug, Clone, Copy, PartialEq, Eq, Structural)]
pub enum ConsistencyError {
    Timeout { ballots_tried: u32 },
    Superseded,
    TopologyUnsatisfied,
}

/// The error that a ballot's result means, `None` where it committed.
pub open spec fn failure_of(r: ConsensusResult) -> Option<ConsistencyError> {
    match r {
        ConsensusResult::Committed { .. } => None,
        ConsensusResult::Timeout { ballots_tried } => Some(
            ConsistencyError::Timeout { ballots_tried },
        ),
        ConsensusResult::Superseded => Some(ConsistencyError::Superseded),
        ConsensusResult::TopologyUnsatisfied => Some(ConsistencyError::TopologyUnsatisfied),
    }
}

fn check_committed(r: ConsensusResult) -> (out: Result<u64, ConsistencyError>)
    ensures
        match out {
            Ok(b) => r == (ConsensusResult::Committed { ballot: b }),
            Err(e) => failure_of(r) == Some(e),
        },
{
    match r {
        ConsensusResult::Committed { ballot } => Ok(ballot),
        ConsensusResult::Timeout { ballots_tried } => Err(
            ConsistencyError::Timeout { ballots_tried },
        ),
        ConsensusResult::Superseded => Err(ConsistencyError::Superseded),
        ConsensusResult::TopologyUnsatisfied => Err(ConsistencyError::TopologyUnsatisfied),
    }
}

// ── Lists of nodes in the table ──────────────────────────────────────────────

/// The bytes that `bincode` writes for a list of texts.
pub uninterp spec fn text_list_bytes(v: Seq<Seq<char>>) -> Seq<u8>;

/// The list of texts that `bincode` reads from `bytes`, `None` where it finds
/// none.
pub uninterp spec fn text_list_in(bytes: Seq<u8>) -> Option<Seq<Seq<char>>>;

/// `bincode::serde::encode_to_vec` of a list of texts: the result is a
/// function of the list, and reading it gives the list back.
#[verifier::external_body]
pub(crate) fn encode_texts(v: &Vec<String>) -> (r: Vec<u8>)
    ensures
        r@ == text_list_bytes(views(v@)),
        text_list_in(r@) == Some(views(v@)),
{
    bincode::serde::encode_to_vec(v, bincode::config::standard()).unwrap_or_default()
}

/// `bincode::serde::decode_from_slice` of a list of texts: the result is a
/// function of the bytes. Before it, `bincode::serde::borrow_decode_from_slice`
/// reads the same with borrowed texts: it fails where a length goes beyond the
/// bytes, for which an owned text would be allocated first.
#[verifier::external_body]
pub(crate) fn decode_texts(bytes: &Vec<u8>) -> (r: Option<Vec<String>>)
    ensures
        r is Some <==> text_list_in(bytes@) is Some,
        r matches Some(v) ==> text_list_in(bytes@) == Some(views(v@)),
{
    let cfg = bincode::config::standard();
    bincode::serde::borrow_decode_from_slice::<Vec<&str>, _>(bytes, cfg).ok()?;
    bincode::serde::decode_from_slice(bytes, cfg).ok().map(|(v, _)| v)
}

pub open spec fn node_texts(v: Seq<NodeId>) -> Seq<Seq<char>> {
    v.map_values(|n: NodeId| node_text(n@))
}

/// Whether each text denotes the node at its place.
pub open spec fn texts_denote(t: Seq<Seq<char>>, n: Seq<NodeView>) -> bool {
    t.len() == n.len() && forall|i: int| 0 <= i < t.len() ==> denotes(#[trigger] t[i], n[i])
}

/// The nodes that a list of texts denotes, `None` if one denotes none.
pub open spec fn nodes_of(t: Seq<Seq<char>>) -> Option<Seq<NodeView>> {
    if exists|n: Seq<NodeView>| #[trigger] texts_denote(t, n) {
        Some(choose|n: Seq<NodeView>| #[trigger] texts_denote(t, n))
    } else {
        None
    }
}

pub(crate) fn parse_nodes(t: &Vec<String>) -> (r: Option<Vec<NodeId>>)
    ensures
        r is Some <==> nodes_of(views(t@)) is Some,
        r matches Some(v) ==> nodes_of(views(t@)) == Some(node_views(v@)),
{
    let ghost w = views(t@);
    let mut out: Vec<NodeId> = Vec::new();
    let mut i: usize = 0;
    while i < t.len()
        invariant
            i <= t.len(),
            w == views(t@),
            out@.len() == i,
            forall|k: int| 0 <= k < i ==> denotes(#[trigger] w[k], out@[k]@),
        decreases t.len() - i,
    {
        match NodeId::parse(t[i].as_str()) {
            Ok(n) => {
                assert(denotes(w[i as int], n@));
                out.push(n);
            },
            Err(_) => {
                proof {
                    assert forall|n: Seq<NodeView>| !(#[trigger] texts_denote(w, n)) by {
                        if texts_denote(w, n) {
                            assert(denotes(w[i as int], n[i as int]));
                        }
                    }
                }
                return None;
            },
        }
        i += 1;
    }
    proof {
        let v = node_views(out@);
        assert(texts_denote(w, v)) by {
            assert forall|i: int| 0 <= i < w.len() implies denotes(#[trigger] w[i], v[i]) by {
                assert(v[i] == out@[i]@);
            }
        }
        let c = nodes_of(w)->0;
        assert(texts_denote(w, c));
        assert forall|i: int| 0 <= i < w.len() implies v[i] == c[i] by {
            assert(denotes(w[i], v[i]) && denotes(w[i], c[i]));
            crate::node_id::law_denotes_unique(w[i], v[i], c[i]);
        }
        assert(v =~= c);
    }
    Some(out)
}

// ── Handle ───────────────────────────────────────────────────────────────────

/// Domain handle for consensus operations.
pub struct ConsensusHandle {
    pub mesh: MeshHandle,
    pub peers: Peers,
    pub signal_window_secs: u64,
    pub health_check_interval_secs: u64,
}

/// `{prefix}{slot}` for the committed value of a slot.
pub open spec fn committed_key(slot: Seq<char>) -> Seq<char> {
    COMMITTED_PREFIX@ + slot
}

/// The signal window in milliseconds.
pub open spec fn window_of(secs: u64) -> int {
    sat_mul_spec(secs as int, 1000)
}

/// Whether a mark, if there is one and it is for proposals, shows at least the
/// load `fill`.
pub open spec fn not_below(mark: Option<LoadView>, fill: Seq<u8>) -> bool {
    mark is Some && (mark->0).1 == PROPOSE_KIND@ ==> fill_at_least((mark->0).2.0, fill)
}

/// Whether every mark for proposals that is no older than the window shows at
/// least the load `fill`.
pub open spec fn is_lightest(t: Table, fill: Seq<u8>, window_ms: u64, now_ms: u64) -> bool {
    forall|k: Seq<char>|
        has_prefix(k, LOAD_PREFIX@) ==> not_below(
            #[trigger] reading_at(t, k, load_reading(window_ms, now_ms)),
            fill,
        )
}

/// How old a load mark may be to count, in milliseconds.
pub open spec fn freshness_ms(interval_secs: u64) -> int {
    interval_secs * 2000
}

impl ConsensusHandle {
    pub open spec fn wf(&self) -> bool {
        self.mesh.wf() && self.health_check_interval_secs * 2000 <= u64::MAX
    }

    pub open spec fn table(&self) -> Table {
        self.mesh.kv.table()
    }

    /// This node.
    pub open spec fn me(&self) -> NodeView {
        self.mesh.kv.node_id@
    }

    /// The signal window in seconds.
    pub fn signal_window(&self) -> (secs: u64)
        ensures
            secs == self.signal_window_secs,
    {
        self.signal_window_secs
    }

    /// The last committed value of `slot`.
    pub fn consensus_get(&self, slot: &str) -> (r: Option<Vec<u8>>)
        ensures
            r is Some <==> live(self.table(), committed_key(slot@)) is Some,
            r matches Some(v) ==> live(self.table(), committed_key(slot@)) == Some(v@),
    {
        self.mesh.kv.get(join2(COMMITTED_PREFIX, slot).as_str())
    }

    /// The latest committed value of `key` that this node sees, or else its
    /// ordinary value.
    pub fn consistent_get(&self, key: &str) -> (r: Option<Vec<u8>>)
        ensures
            r is Some <==> consistent_value(self.table(), key@) is Some,
            r matches Some(v) ==> consistent_value(self.table(), key@) == Some(v@),
    {
        let slot = join2("consistent/", key);
        match self.consensus_get(slot.as_str()) {
            Some(v) => Some(v),
            None => self.mesh.kv.get(key),
        }
    }

    /// Declares whom this node trusts in `group`, and returns those of them
    /// that have no live membership under their own text, whose votes would
    /// never come.
    pub fn declare_trust(&mut self, group: &str, trusted: &Vec<NodeId>, now_ms: u64) -> (strangers: Vec<NodeId>)
        requires
            old(self).wf(),
            old(self).mesh.kv.clock < u64::MAX,
        ensures
            final(self).wf(),
            wrote(
                old(self).mesh.kv,
                final(self).mesh.kv,
                trust_key(group@, old(self).me()),
                Some(text_list_bytes(node_texts(trusted@))),
                now_ms,
                outcome_for(old(self).mesh.kv, trust_key(group@, old(self).me())),
            ),
            final(self).mesh.groups == old(self).mesh.groups,
            final(self).mesh.log == old(self).mesh.log,
            final(self).peers == old(self).peers,
            node_views(strangers@) == node_views(trusted@).filter(
                |n: NodeView| live(final(self).table(), group_key_text(group@, n)) is None,
            ),
    {
        let prefix = join3(TRUST_PREFIX, group, "/");
        let key = join2(prefix.as_str(), self.mesh.kv.node_id.to_text().as_str());
        let mut texts: Vec<String> = Vec::new();
        let mut i: usize = 0;
        while i < trusted.len()
            invariant
                i <= trusted.len(),
                texts@.len() == i,
                forall|k: int| 0 <= k < i ==> (#[trigger] texts@[k])@ == node_text(trusted@[k]@),
            decreases trusted.len() - i,
        {
            texts.push(trusted[i].to_text());
            i += 1;
        }
        assert(views(texts@) =~= node_texts(trusted@));
        let _ = self.mesh.kv.set(key.as_str(), encode_texts(&texts), now_ms);
        let ghost w = node_views(trusted@);
        let ghost stranger = |n: NodeView| live(self.table(), group_key_text(group@, n)) is None;
        let mut out: Vec<NodeId> = Vec::new();
        let mut j: usize = 0;
        proof {
            reveal(Seq::filter);
            assert(w.take(0).filter(stranger) =~= Seq::empty());
            assert(node_views(out@) =~= Seq::empty());
        }
        while j < trusted.len()
            invariant
                j <= trusted.len(),
                w == node_views(trusted@),
                stranger == (|n: NodeView| live(self.table(), group_key_text(group@, n)) is None),
                node_views(out@) == w.take(j as int).filter(stranger),
            decreases trusted.len() - j,
        {
            let ghost before = out@;
            proof {
                assert(w.take(j + 1).drop_last() =~= w.take(j as int));
                assert(w.take(j + 1).last() == w[j as int]);
                reveal(Seq::filter);
            }
            let membership = group_key(group, &trusted[j]);
            if self.mesh.kv.get(membership.as_str()).is_none() {
                let c = trusted[j].copy();
                out.push(c);
                assert(node_views(out@) =~= node_views(before).push(w[j as int]));
            }
            j += 1;
        }
        assert(w.take(j as int) =~= w);
        out
    }

    /// Every trust slice declared for `group`, by the node that declared it.
    pub fn group_trust(&self, group: &str) -> (r: Vec<(NodeId, Vec<NodeId>)>)
        ensures
            lists_readings(trust_views(r@), self.table(), trust_prefix(group@), trust_reading(group@)),
    {
        let prefix = join3(TRUST_PREFIX, group, "/");
        let found = self.mesh.kv.scan_prefix_with_ts(prefix.as_str());
        let ghost f = trust_reading(group@);
        let ghost mut src: Seq<int> = Seq::empty();
        let mut out: Vec<(NodeId, Vec<NodeId>)> = Vec::new();
        let mut i: usize = 0;
        assert(trust_views(out@) =~= Seq::empty());
        while i < found.len()
            invariant
                i <= found.len(),
                prefix@ == trust_prefix(group@),
                lists_live_ts(found@, self.table(), prefix@),
                f == trust_reading(group@),
                picked(found@, i as int, src, trust_views(out@), f),
            decreases found.len() - i,
        {
            assert(has_prefix(found@[i as int].0@, prefix@));
            match read_trust(&found[i].0, &found[i].1, prefix.as_str(), group) {
                Some(p) => {
                    proof {
                        let x = (p.0@, node_views(p.1@));
                        lemma_pick(found@, i as int, src, trust_views(out@), f, x);
                        src = src.push(i as int);
                        assert(trust_views(out@.push(p)) =~= trust_views(out@).push(x));
                    }
                    out.push(p);
                },
                None => {
                    proof {
                        lemma_skip(found@, i as int, src, trust_views(out@), f);
                    }
                },
            }
            i += 1;
        }
        proof {
            lemma_picked_all(found@, self.table(), prefix@, src, trust_views(out@), f);
        }
        out
    }

    /// The member of `group` with the lowest score; among equals the one with
    /// the lowest hash. This node where nothing is known of the load of any
    /// member. `scores` holds, by the text of a node, a number that grows with
    /// its load; a member without one counts as not loaded.
    pub fn suggest_leader(&self, group: &str, scores: &Vec<(String, u32)>) -> (r: NodeId)
        ensures
            !load_known(self.table(), group@, scores@) ==> r@ == self.me(),
            load_known(self.table(), group@, scores@) ==> members_of(self.table(), group@).contains(r@)
                && forall|n: NodeView| #[trigger]
                members_of(self.table(), group@).contains(n) ==> rank_le(rank(scores@, r@), rank(scores@, n)),
    {
        let members = self.mesh.group_members(group);
        proof {
            crate::mesh::lemma_members_set(members@, self.table(), group@);
        }
        if !any_scored(scores, &members) {
            return self.mesh.kv.node_id.copy();
        }
        let mut best: usize = 0;
        let mut i: usize = 1;
        while i < members.len()
            invariant
                1 <= i <= members.len(),
                best < i,
                forall|k: int| 0 <= k < i ==> rank_le(
                    rank(scores@, members@[best as int]@),
                    rank(scores@, (#[trigger] members@[k])@),
                ),
            decreases members.len() - i,
        {
            let ghost was = best;
            let si: u32 = score_for(scores, &members[i]);
            let sb: u32 = score_for(scores, &members[best]);
            if si < sb || (si == sb && members[i].id_hash() < members[best].id_hash()) {
                best = i;
            }
            i += 1;
        }
        proof {
            let w = node_views(members@);
            assert(w[best as int] == members@[best as int]@);
            assert(w.to_set().contains(members@[best as int]@));
            assert forall|n: NodeView| #[trigger] members_of(self.table(), group@).contains(n) implies rank_le(
                rank(scores@, members@[best as int]@),
                rank(scores@, n),
            ) by {
                assert(w.to_set().contains(n));
                let k = choose|k: int| 0 <= k < w.len() && w[k] == n;
                assert(members@[k]@ == n);
            }
        }
        members[best].copy()
    }

    /// The numbers for a ballot among `members`, those that shed not counted
    /// where so configured. A proposer counts anew before each ballot, among the
    /// members it began with.
    pub fn plan_members(&self, members: &ahash::AHashSet<String>, config: &ConsensusConfig, now_ms: u64) -> (p: QuorumPlan)
        requires
            self.wf(),
        ensures
            p.total == at_least_one(text_set(*members).len() as int),
            p.active == (if config.count_opaque_as_absent {
                active_of(
                    p.total as int,
                    shedding_nodes(
                        self.table(),
                        now_ms,
                        freshness_ms(self.health_check_interval_secs) as u64,
                    ).intersect(text_set(*members)).len() as int,
                )
            } else {
                p.total as int
            }),
            p.quorum == quorum_size(config.quorum_size as int, p.active as int),
            !config.count_opaque_as_absent ==> p.active == p.total,
            config.quorum_size > 0 ==> p.quorum == config.quorum_size,
            config.quorum_size == 0 ==> 2 * p.quorum > p.active && 2 * (p.quorum - 1) <= p.active,
    {
        let n: usize = set_count(members);
        let total: usize = if n > 1 {
            n
        } else {
            1
        };
        let absent = if config.count_opaque_as_absent {
            Some(count_absent(&self.mesh.kv, members, now_ms, self.health_check_interval_secs * 2000))
        } else {
            None
        };
        plan(total, absent, config.quorum_size)
    }

    /// The numbers for a ballot in `group`: its members vote, and those that
    /// shed do not count where so configured.
    pub fn plan_group(&self, group: &str, config: &ConsensusConfig, now_ms: u64) -> (p: QuorumPlan)
        requires
            self.wf(),
        ensures
            p.total == at_least_one(member_texts(self.table(), group@).len() as int),
            p.active == (if config.count_opaque_as_absent {
                active_of(
                    p.total as int,
                    shedding_nodes(
                        self.table(),
                        now_ms,
                        freshness_ms(self.health_check_interval_secs) as u64,
                    ).intersect(member_texts(self.table(), group@)).len() as int,
                )
            } else {
                p.total as int
            }),
            p.quorum == quorum_size(config.quorum_size as int, p.active as int),
            !config.count_opaque_as_absent ==> p.active == p.total,
            config.quorum_size > 0 ==> p.quorum == config.quorum_size,
            config.quorum_size == 0 ==> 2 * p.quorum > p.active && 2 * (p.quorum - 1) <= p.active,
    {
        let members = group_member_set(&self.mesh.kv, group);
        self.plan_members(&members, config, now_ms)
    }

    /// The numbers for a ballot among `total` nodes of the whole mesh, those that
    /// shed not counted where so configured. A proposer counts anew before each
    /// ballot, among as many nodes as it began with.
    pub fn plan_nodes(&self, total: usize, config: &ConsensusConfig, now_ms: u64) -> (p: QuorumPlan)
        requires
            self.wf(),
        ensures
            p.total == total,
            p.active == (if config.count_opaque_as_absent {
                active_of(
                    total as int,
                    shedding_nodes(
                        self.table(),
                        now_ms,
                        freshness_ms(self.health_check_interval_secs) as u64,
                    ).len() as int,
                )
            } else {
                total as int
            }),
            p.quorum == quorum_size(config.quorum_size as int, p.active as int),
            !config.count_opaque_as_absent ==> p.active == p.total,
            config.quorum_size > 0 ==> p.quorum == config.quorum_size,
            config.quorum_size == 0 ==> 2 * p.quorum > p.active && 2 * (p.quorum - 1) <= p.active,
    {
        let absent = if config.count_opaque_as_absent {
            Some(count_shedding(&self.mesh.kv, now_ms, self.health_check_interval_secs * 2000))
        } else {
            None
        };
        plan(total, absent, config.quorum_size)
    }

    /// The numbers for a ballot among all nodes: the known peers and this
    /// node vote, and those that shed do not count where so configured.
    pub fn plan_system(&self, config: &ConsensusConfig, now_ms: u64) -> (p: QuorumPlan)
        requires
            self.wf(),
            self.peers.table().dom().len() < usize::MAX,
        ensures
            p.total == self.peers.table().dom().len() + 1,
            p.active == (if config.count_opaque_as_absent {
                active_of(
                    p.total as int,
                    shedding_nodes(
                        self.table(),
                        now_ms,
                        freshness_ms(self.health_check_interval_secs) as u64,
                    ).len() as int,
                )
            } else {
                p.total as int
            }),
            p.quorum == quorum_size(config.quorum_size as int, p.active as int),
            !config.count_opaque_as_absent ==> p.active == p.total,
            config.quorum_size > 0 ==> p.quorum == config.quorum_size,
            config.quorum_size == 0 ==> 2 * p.quorum > p.active && 2 * (p.quorum - 1) <= p.active,
    {
        let total: usize = peer_count(&self.peers) + 1;
        self.plan_nodes(total, config, now_ms)
    }

    /// How long a proposer holds back because `suggested` should go first.
    pub fn hold_back_ms(&self, suggested: &NodeId, config: &ConsensusConfig) -> (ms: u64)
        ensures
            ms == (if config.use_suggest_leader && suggested@ != self.me() {
                config.ballot_retry_jitter_ms
            } else {
                0
            }),
    {
        if config.use_suggest_leader && !suggested.same(&self.mesh.kv.node_id) {
            config.ballot_retry_jitter_ms
        } else {
            0
        }
    }

    /// How long a proposer among all nodes holds back because it is not the
    /// lightest: some fresh mark for proposals shows less load than `fill`, that of
    /// this node.
    pub fn hold_back_system_ms(&self, fill: &[u8; 4], config: &ConsensusConfig, now_ms: u64) -> (ms: u64)
        ensures
            ms == (if config.use_suggest_leader && !is_lightest(
                self.table(),
                fill@,
                window_of(self.signal_window_secs) as u64,
                now_ms,
            ) {
                config.ballot_retry_jitter_ms
            } else {
                0
            }),
    {
        if !config.use_suggest_leader {
            return 0;
        }
        let window: u64 = sat_mul(self.signal_window_secs, 1000);
        let marks = self.mesh.kv.peer_load(window, now_ms);
        let ghost v = load_views(marks@);
        let ghost f = load_reading(window, now_ms);
        let ghost t = self.table();
        let ghost ks = choose|ks: Seq<Seq<char>>| #[trigger] readings_by_key(v, ks, t, LOAD_PREFIX@, f);
        let mut i: usize = 0;
        while i < marks.len()
            invariant
                i <= marks.len(),
                t == self.table(),
                v == load_views(marks@),
                f == load_reading(window, now_ms),
                config.use_suggest_leader,
                window == window_of(self.signal_window_secs),
                readings_by_key(v, ks, t, LOAD_PREFIX@, f),
                forall|k: int|
                    0 <= k < i && (#[trigger] v[k]).1 == PROPOSE_KIND@ ==> fill_at_least(v[k].2.0, fill@),
            decreases marks.len() - i,
        {
            assert(v[i as int] == (
                marks@[i as int].0@,
                marks@[i as int].1@,
                (marks@[i as int].2.fill@, marks@[i as int].2.is_opaque, marks@[i as int].2.written_at_ms),
            ));
            if same_text(marks[i].1.as_str(), PROPOSE_KIND) && !at_least_as_full(&marks[i].2.fill, fill) {
                assert(has_prefix(ks[i as int], LOAD_PREFIX@));
                assert(reading_at(t, ks[i as int], f) == Some(v[i as int]));
                assert(!not_below(reading_at(t, ks[i as int], f), fill@));
                return config.ballot_retry_jitter_ms;
            }
            i += 1;
        }
        assert forall|k: Seq<char>| has_prefix(k, LOAD_PREFIX@) implies not_below(
            #[trigger] reading_at(t, k, f),
            fill@,
        ) by {
            if reading_at(t, k, f) is Some {
                assert(ks.contains(k));
                let q = choose|q: int| 0 <= q < ks.len() && ks[q] == k;
                assert(reading_at(t, ks[q], f) == Some(v[q]));
            }
        }
        0
    }

    /// What follows the ballot of a consistent write: where it committed, the
    /// value is also written to its ordinary key.
    pub fn finish_consistent_set(
        &mut self,
        key: &str,
        value: Vec<u8>,
        result: ConsensusResult,
        now_ms: u64,
    ) -> (r: Result<(), ConsistencyError>)
        requires
            old(self).wf(),
            old(self).mesh.kv.clock < u64::MAX,
        ensures
            final(self).wf(),
            r is Ok <==> result is Committed,
            r matches Err(e) ==> failure_of(result) == Some(e) && *final(self) == *old(self),
            r is Ok ==> wrote(
                old(self).mesh.kv,
                final(self).mesh.kv,
                key@,
                Some(value@),
                now_ms,
                outcome_for(old(self).mesh.kv, key@),
            ) && final(self).mesh.groups == old(self).mesh.groups && final(self).mesh.log == old(
                self,
            ).mesh.log && final(self).peers == old(self).peers,
    {
        match check_committed(result) {
            Ok(_) => {
                let _ = self.mesh.kv.set(key, value, now_ms);
                Ok(())
            },
            Err(e) => Err(e),
        }
    }

    /// The record that a ballot for a lock proposes: who holds it, and when it
    /// runs out.
    pub fn lock_proposal(&self, now_ms: u64, ttl_ms: u64) -> (value: Vec<u8>)
        requires
            now_ms + ttl_ms <= u64::MAX,
        ensures
            value@ == lock_record_bytes(node_text(self.me()), (now_ms + ttl_ms) as u64),
    {
        lock_record(self.mesh.kv.node_id.to_text().as_str(), now_ms + ttl_ms)
    }

    /// What follows the ballot for a lock: where it committed, the next
    /// reading of the clock is the fencing token. The number of the ballot
    /// would not do: it can fall behind that of an earlier holder.
    pub fn finish_lock(&mut self, name: &str, result: ConsensusResult, now_ms: u64) -> (r: Result<
        LockGuard,
        ConsistencyError,
    >)
        requires
            old(self).wf(),
            old(self).mesh.kv.clock < u64::MAX,
        ensures
            final(self).wf(),
            final(self).table() == old(self).table(),
            r is Ok <==> result is Committed,
            r matches Ok(g) ==> g.name@ == name@ && g.token == hlc_next(old(self).mesh.kv.clock, now_ms)
                && *final(self) == (ConsensusHandle {
                mesh: (MeshHandle {
                    kv: (KvHandle { clock: g.token, ..old(self).mesh.kv }),
                    ..old(self).mesh
                }),
                ..*old(self)
            }),
            r matches Err(e) ==> failure_of(result) == Some(e) && *final(self) == *old(self),
    {
        match check_committed(result) {
            Ok(_) => {
                let token: u64 = self.mesh.kv.tick(now_ms);
                Ok(LockGuard { name: name.to_owned(), token })
            },
            Err(e) => Err(e),
        }
    }

    /// Releases a lock: its record is deleted.
    pub fn release_lock(&mut self, guard: LockGuard, now_ms: u64)
        requires
            old(self).wf(),
            old(self).mesh.kv.clock < u64::MAX,
        ensures
            final(self).wf(),
            wrote(
                old(self).mesh.kv,
                final(self).mesh.kv,
                "lock/"@ + guard.name@,
                None,
                now_ms,
                outcome_for(old(self).mesh.kv, "lock/"@ + guard.name@),
            ),
            final(self).mesh.groups == old(self).mesh.groups,
            final(self).mesh.log == old(self).mesh.log,
            final(self).peers == old(self).peers,
    {
        let key = join2("lock/", guard.name.as_str());
        let _ = self.mesh.kv.delete(key.as_str(), now_ms);
    }

    /// What follows the ballot for the lead of `group`: this node leads where
    /// it committed; where another node was first, the committed value says
    /// who.
    pub fn finish_election(&self, group: &str, result: ConsensusResult) -> (r: Result<NodeId, ConsistencyError>)
        ensures
            result is Committed ==> r is Ok && r->Ok_0@ == self.me(),
            result == ConsensusResult::Superseded ==> (match r {
                Ok(n) => elected(self.table(), group@, n@),
                Err(e) => e == ConsistencyError::Superseded && forall|n: NodeView|
                    !elected(self.table(), group@, n),
            }),
            !(result is Committed) && result != ConsensusResult::Superseded ==> r is Err && failure_of(
                result,
            ) == Some(r->Err_0),
    {
        match check_committed(result) {
            Ok(_) => Ok(self.mesh.kv.node_id.copy()),
            Err(ConsistencyError::Superseded) => {
                let slot = join2("leader/", group);
                match self.consensus_get(slot.as_str()) {
                    None => Err(ConsistencyError::Superseded),
                    Some(raw) => match utf8_text(raw) {
                        None => Err(ConsistencyError::Superseded),
                        Some(s) => match NodeId::parse(s.as_str()) {
                            Ok(n) => Ok(n),
                            Err(_) => Err(ConsistencyError::Superseded),
                        },
                    },
                }
            },
            Err(e) => Err(e),
        }
    }
}

/// The value of `key` as a consistent read sees it.
pub open spec fn consistent_value(t: Table, key: Seq<char>) -> Option<Seq<u8>> {
    let committed = live(t, committed_key("consistent/"@ + key));
    if committed is Some {
        committed
    } else {
        live(t, key)
    }
}

/// Whether the committed value of the lead of `group` names `n`.
pub open spec fn elected(t: Table, group: Seq<char>, n: NodeView) -> bool {
    match live(t, committed_key("leader/"@ + group)) {
        Some(v) => valid_utf8(v) && denotes(decode_utf8(v), n),
        None => false,
    }
}

pub open spec fn at_least_one(n: int) -> int {
    if n > 1 {
        n
    } else {
        1
    }
}

/// How many of `members` a fresh mark shows as shedding.
fn count_absent(kv: &KvHandle, members: &ahash::AHashSet<String>, now_ms: u64, max_age_ms: u64) -> (n: usize)
    ensures
        n == shedding_nodes(kv.table(), now_ms, max_age_ms).intersect(text_set(*members)).len(),
{
    let s = list_shedding(kv, now_ms, max_age_ms);
    let ghost w = views(s@);
    let ghost m = text_set(*members);
    let ghost mut inside: Seq<Seq<char>> = Seq::empty();
    let mut n: usize = 0;
    let mut i: usize = 0;
    proof {
        assert(w.take(0).to_set().intersect(m) =~= inside.to_set());
    }
    while i < s.len()
        invariant
            i <= s.len(),
            w == views(s@),
            w.no_duplicates(),
            m == text_set(*members),
            n == inside.len(),
            n <= i,
            inside.no_duplicates(),
            inside.to_set() == w.take(i as int).to_set().intersect(m),
        decreases s.len() - i,
    {
        let ghost x = w[i as int];
        let ghost was = inside;
        proof {
            crate::textset::lemma_take_to_set(w, i as int);
            if was.contains(x) {
                assert(was.to_set().contains(x));
                let q = choose|q: int| 0 <= q < w.take(i as int).len() && w.take(i as int)[q] == x;
                assert(w[q] == w[i as int]);
            }
        }
        if set_contains(members, s[i].as_str()) {
            n += 1;
            proof {
                lemma_push_new(was, x);
                inside = was.push(x);
            }
        }
        proof {
            assert(inside.to_set() =~= w.take(i + 1).to_set().intersect(m));
        }
        i += 1;
    }
    proof {
        assert(w.take(i as int) =~= w);
        inside.unique_seq_to_set();
    }
    n
}

// ── Trust slices ─────────────────────────────────────────────────────────────

/// `consensus/trust/{group}/`.
pub open spec fn trust_prefix(group: Seq<char>) -> Seq<char> {
    TRUST_PREFIX@ + group + "/"@
}

/// `consensus/trust/{group}/{node}`.
pub open spec fn trust_key(group: Seq<char>, node: NodeView) -> Seq<char> {
    trust_prefix(group) + node_text(node)
}

/// The node that a text denotes.
pub open spec fn node_of(s: Seq<char>) -> Option<NodeView> {
    if exists|n: NodeView| #[trigger] denotes(s, n) {
        Some(choose|n: NodeView| #[trigger] denotes(s, n))
    } else {
        None
    }
}

/// The trust slice that an entry declares.
pub open spec fn trust_reading(group: Seq<char>) -> Reading<(NodeView, Seq<NodeView>)> {
    |k: Seq<char>, v: Seq<u8>, ts: u64| trust_at(group, k, v)
}

/// The trust slice that an entry declares.
pub open spec fn trust_at(group: Seq<char>, k: Seq<char>, v: Seq<u8>) -> Option<(NodeView, Seq<NodeView>)> {
    match (node_of(behind(k, trust_prefix(group))), text_list_in(v)) {
        (Some(n), Some(t)) => match nodes_of(t) {
            Some(peers) => Some((n, peers)),
            None => None,
        },
        _ => None,
    }
}

pub open spec fn trust_views(v: Seq<(NodeId, Vec<NodeId>)>) -> Seq<(NodeView, Seq<NodeView>)> {
    v.map_values(|p: (NodeId, Vec<NodeId>)| (p.0@, node_views(p.1@)))
}

fn read_trust(key: &String, value: &Vec<u8>, prefix: &str, group: &str) -> (r: Option<(NodeId, Vec<NodeId>)>)
    requires
        prefix@ == trust_prefix(group@),
        has_prefix(key@, prefix@),
    ensures
        r is Some <==> trust_at(group@, key@, value@) is Some,
        r matches Some(p) ==> trust_at(group@, key@, value@) == Some((p.0@, node_views(p.1@))),
{
    let tail = match strip_prefix(key.as_str(), prefix) {
        Some(s) => s,
        None => {
            return None;
        },
    };
    let node = match NodeId::parse(tail.as_str()) {
        Ok(n) => {
            proof {
                crate::node_id::law_denotes_unique(tail@, n@, node_of(tail@)->0);
            }
            n
        },
        Err(_) => {
            return None;
        },
    };
    match decode_texts(value) {
        None => None,
        Some(t) => match parse_nodes(&t) {
            None => None,
            Some(peers) => Some((node, peers)),
        },
    }
}

// ── Leader suggestion ────────────────────────────────────────────────────────

/// The score of the node with this text: that of its first entry.
pub open spec fn score_of(scores: Seq<(String, u32)>, text: Seq<char>) -> u32
    decreases scores.len(),
{
    if scores.len() == 0 {
        0
    } else if scores[0].0@ == text {
        scores[0].1
    } else {
        score_of(scores.drop_first(), text)
    }
}

/// Whether `scores` says anything of the node with this text.
pub open spec fn is_scored(scores: Seq<(String, u32)>, text: Seq<char>) -> bool {
    exists|i: int| 0 <= i < scores.len() && #[trigger] scores[i].0@ == text
}

/// Whether `scores` says anything of a member of `group`.
pub open spec fn load_known(t: Table, group: Seq<char>, scores: Seq<(String, u32)>) -> bool {
    exists|n: NodeView| #[trigger] members_of(t, group).contains(n) && is_scored(scores, node_text(n))
}

fn any_scored(scores: &Vec<(String, u32)>, nodes: &Vec<NodeId>) -> (r: bool)
    ensures
        r == exists|n: NodeView| #[trigger]
            node_views(nodes@).to_set().contains(n) && is_scored(scores@, node_text(n)),
        r ==> nodes@.len() > 0,
{
    let ghost w = node_views(nodes@);
    let mut i: usize = 0;
    while i < nodes.len()
        invariant
            i <= nodes.len(),
            w == node_views(nodes@),
            forall|k: int| 0 <= k < i ==> !is_scored(scores@, node_text(#[trigger] w[k])),
        decreases nodes.len() - i,
    {
        let text = nodes[i].to_text();
        let mut j: usize = 0;
        while j < scores.len()
            invariant
                i < nodes.len(),
                j <= scores.len(),
                w == node_views(nodes@),
                text@ == node_text(nodes@[i as int]@),
                forall|k: int| 0 <= k < j ==> (#[trigger] scores@[k]).0@ != text@,
            decreases scores.len() - j,
        {
            if same_text(scores[j].0.as_str(), text.as_str()) {
                proof {
                    assert(w[i as int] == nodes@[i as int]@);
                    assert(w.to_set().contains(w[i as int]));
                    assert(is_scored(scores@, node_text(w[i as int])));
                }
                return true;
            }
            j += 1;
        }
        assert(w[i as int] == nodes@[i as int]@);
        i += 1;
    }
    proof {
        assert forall|n: NodeView| #[trigger] w.to_set().contains(n) implies !is_scored(
            scores@,
            node_text(n),
        ) by {
            let k = choose|k: int| 0 <= k < w.len() && w[k] == n;
            assert(!is_scored(scores@, node_text(w[k])));
        }
    }
    false
}

/// The rank of a node: its score, then its hash.
pub open spec fn rank(scores: Seq<(String, u32)>, n: NodeView) -> (u32, u64) {
    (score_of(scores, node_text(n)), id_hash(n))
}

/// Lexicographic order of ranks.
pub open spec fn rank_le(a: (u32, u64), b: (u32, u64)) -> bool {
    a.0 < b.0 || (a.0 == b.0 && a.1 <= b.1)
}

/// The score of a node.
pub fn score_for(scores: &Vec<(String, u32)>, n: &NodeId) -> (s: u32)
    ensures
        s == score_of(scores@, node_text(n@)),
{
    let text = n.to_text();
    let mut i: usize = 0;
    assert(scores@.skip(0) =~= scores@);
    while i < scores.len()
        invariant
            i <= scores.len(),
            text@ == node_text(n@),
            score_of(scores@, text@) == score_of(scores@.skip(i as int), text@),
        decreases scores.len() - i,
    {
        assert(scores@.skip(i as int).drop_first() =~= scores@.skip(i + 1));
        if same_text(scores[i].0.as_str(), text.as_str()) {
            return scores[i].1;
        }
        i += 1;
    }
    0
}

// ── Locks ────────────────────────────────────────────────────────────────────

/// A held lock.
#[derive(Debug, Clone, PartialEq, Eq)]
pub struct LockGuard {
    pub name: String,
    /// The reading of the clock when the lock was granted; a later holder has
    /// a higher one.
    pub token: u64,
}

/// The shortest nap between two attempts to take a lock.
pub const FIRST_BACKOFF_MS: u64 = 200;

/// The longest nap between two attempts to take a lock.
pub const MAX_BACKOFF_MS: u64 = 2_000;

/// Takes named locks, again and again where somebody else holds them.
pub struct LockService {
    pub handle: ConsensusHandle,
}

/// What follows an attempt to take a lock.
pub enum LockStep {
    Acquired { guard: LockGuard },
    Failed { error: ConsistencyError },
    /// Sleep, then try again with a longer backoff.
    Retry { nap_ms: u64, backoff_ms: u64 },
}

/// How long to sleep before the next attempt: the backoff, but not past the
/// deadline.
pub open spec fn nap_of(now_ms: u64, deadline_ms: u64, backoff_ms: u64) -> int {
    if backoff_ms < deadline_ms - now_ms {
        backoff_ms as int
    } else {
        deadline_ms - now_ms
    }
}

/// The backoff of the attempt after the next.
pub open spec fn longer_backoff(backoff_ms: u64) -> int {
    if 2 * backoff_ms < MAX_BACKOFF_MS {
        2 * backoff_ms
    } else {
        MAX_BACKOFF_MS as int
    }
}

impl LockService {
    /// The consensus handle that the locks go through.
    pub fn consensus(&self) -> (c: &ConsensusHandle)
        ensures
            *c == self.handle,
    {
        &self.handle
    }

    /// Decides what follows an attempt at `now_ms` that was made with the
    /// backoff `backoff_ms`. Only a lock that somebody else holds is tried for
    /// again, until the deadline; the backoff doubles up to its limit.
    pub fn after_attempt(
        &self,
        attempt: Result<LockGuard, ConsistencyError>,
        now_ms: u64,
        deadline_ms: u64,
        backoff_ms: u64,
    ) -> (step: LockStep)
        ensures
            match attempt {
                Ok(g) => step matches LockStep::Acquired { guard } && guard == g,
                Err(e) => if e != ConsistencyError::Superseded || now_ms >= deadline_ms {
                    step matches LockStep::Failed { error } && error == e
                } else {
                    step matches LockStep::Retry { nap_ms, backoff_ms: next } && nap_ms == nap_of(
                        now_ms,
                        deadline_ms,
                        backoff_ms,
                    ) && next == longer_backoff(backoff_ms)
                },
            },
    {
        match attempt {
            Ok(guard) => LockStep::Acquired { guard },
            Err(e) => {
                if e != ConsistencyError::Superseded || now_ms >= deadline_ms {
                    return LockStep::Failed { error: e };
                }
                let left: u64 = deadline_ms - now_ms;
                let nap_ms: u64 = if backoff_ms < left {
                    backoff_ms
                } else {
                    left
                };
                let next: u64 = if backoff_ms < MAX_BACKOFF_MS / 2 {
                    backoff_ms * 2
                } else {
                    MAX_BACKOFF_MS
                };
                LockStep::Retry { nap_ms, backoff_ms: next }
            },
        }
    }
}

/// A nap never reaches past the deadline, and while one is taken the deadline
/// has not come.
pub proof fn law_retry_ends_by_deadline(now_ms: u64, deadline_ms: u64, backoff_ms: u64, nap_ms: u64)
    requires
        now_ms < deadline_ms,
        nap_ms == nap_of(now_ms, deadline_ms, backoff_ms),
    ensures
        now_ms + nap_ms <= deadline_ms,
        nap_ms <= backoff_ms,
        nap_ms == backoff_ms || now_ms + nap_ms == deadline_ms,
        backoff_ms > 0 ==> nap_ms > 0,
{
}

/// The fencing tokens of a node grow with every lock that it takes, and each is
/// higher than the timestamp of everything that the node has seen by then, the
/// writes of earlier holders included.
pub proof fn law_fencing_tokens_grow(kv: KvHandle, first_ms: u64, second_ms: u64)
    requires
        kv.wf(),
        hlc_next(kv.clock, first_ms) < u64::MAX,
    ensures
        hlc_next(hlc_next(kv.clock, first_ms) as u64, second_ms) > hlc_next(kv.clock, first_ms),
        forall|k: Seq<char>| #[trigger]
            kv.table().contains_key(k) ==> kv.table()[k].1 < hlc_next(kv.clock, first_ms),
{
}

/// Who takes a lock after it was released has a higher token than the holder
/// before: `held` is the node after the first ballot, `released` after the
/// release, and `later` any state of it from then on.
pub proof fn law_next_holder_has_higher_token(
    before: ConsensusHandle,
    held: ConsensusHandle,
    released: ConsensusHandle,
    later: ConsensusHandle,
    first: LockGuard,
    second: LockGuard,
    first_ms: u64,
    release_ms: u64,
    second_ms: u64,
    d: Dispatch,
)
    requires
        first.token == hlc_next(before.mesh.kv.clock, first_ms),
        held.mesh.kv.clock == first.token,
        held.mesh.kv.clock < u64::MAX,
        wrote(held.mesh.kv, released.mesh.kv, "lock/"@ + first.name@, None, release_ms, d),
        later.mesh.kv.clock >= released.mesh.kv.clock,
        second.token == hlc_next(later.mesh.kv.clock, second_ms),
    ensures
        0 < first.token < second.token,
{
}

/// Where nothing is configured, the quorum is the smallest number of votes that
/// more than half of the members cast: its double exceeds their number, and that of
/// one vote less does not. A configured size is taken as it is.
pub proof fn law_quorum_is_smallest_majority(config_size: int, members: int)
    requires
        members >= 0,
    ensures
        2 * quorum_size(0, members) > members,
        2 * (quorum_size(0, members) - 1) <= members,
        config_size > 0 ==> quorum_size(config_size, members) == config_size,
{
}

/// With a majority quorum the votes of the others cannot prevent a ballot while
/// fewer than half of the members are silent.
pub proof fn law_minority_cannot_block(members: int, silent: int)
    requires
        members >= 1,
        silent >= 0,
        2 * silent < members,
    ensures
        members - silent >= quorum_size(0, members),
{
}

/// Of the voters exactly the absent ones are not expected, and one is expected at
/// least.
pub proof fn law_absent_voters_are_not_expected(total: int, absent: int)
    requires
        absent >= 0,
    ensures
        active_of(total, absent) >= 1,
        absent < total ==> active_of(total, absent) + absent == total,
        absent >= total ==> active_of(total, absent) == 1,
        total >= 1 ==> at_least_one(total) == total,
        total < 1 ==> at_least_one(total) == 1,
{
}

/// A load mark counts for a ballot as long as two health-check intervals.
pub proof fn law_marks_count_for_two_intervals(interval_secs: u64)
    ensures
        freshness_ms(interval_secs) == 2 * (interval_secs * 1000),
{
}

/// The backoff doubles from attempt to attempt until it reaches its limit, and
/// never falls while it is below it.
pub proof fn law_backoff_grows_to_its_limit(backoff_ms: u64)
    requires
        backoff_ms <= 2_000,
    ensures
        backoff_ms <= longer_backoff(backoff_ms) <= 2_000,
        2 * backoff_ms <= 2_000 ==> longer_backoff(backoff_ms) == 2 * backoff_ms,
        2 * backoff_ms > 2_000 ==> longer_backoff(backoff_ms) == 2_000,
{
}

/// A ballot fails exactly if it did not commit, and the error tells how.
pub proof fn law_failure_tells_the_result(r: ConsensusResult, tried: u32)
    ensures
        failure_of(r) is None <==> r is Committed,
        failure_of(ConsensusResult::Timeout { ballots_tried: tried }) == Some(
            (ConsistencyError::Timeout { ballots_tried: tried }),
        ),
        failure_of(r) == Some(ConsistencyError::Superseded) <==> r == ConsensusResult::Superseded,
        failure_of(r) == Some(ConsistencyError::TopologyUnsatisfied) <==> r
            == ConsensusResult::TopologyUnsatisfied,
{
}

/// A committed value is read before the ordinary one, which is read only where
/// nothing was committed.
pub proof fn law_committed_value_is_read_first(t: Table, key: Seq<char>)
    ensures
        live(t, "consensus/committed/consistent/"@ + key) is Some ==> consistent_value(t, key) == live(
            t,
            "consensus/committed/consistent/"@ + key,
        ),
        live(t, "consensus/committed/consistent/"@ + key) is None ==> consistent_value(t, key) == live(t, key),
{
    reveal_strlit("consensus/committed/consistent/");
    reveal_strlit("consensus/committed/");
    reveal_strlit("consistent/");
    assert("consensus/committed/"@ + "consistent/"@ =~= "consensus/committed/consistent/"@);
    assert(committed_key("consistent/"@ + key) =~= "consensus/committed/consistent/"@ + key);
}

/// Who is suggested as leader has no higher score than any other member, and
/// among those with the same score the lowest hash. A member without a score
/// counts as not loaded.
pub proof fn law_suggested_leader_is_lightest(scores: Seq<(String, u32)>, r: NodeView, n: NodeView, i: int)
    requires
        rank_le(rank(scores, r), rank(scores, n)),
        0 <= i < scores.len(),
        scores[i].0@ == node_text(r),
        forall|j: int| 0 <= j < i ==> (#[trigger] scores[j]).0@ != node_text(r),
    ensures
        forall|j: int|
            0 <= j < scores.len() && (#[trigger] scores[j]).0@ == node_text(n) && (forall|q: int|
                0 <= q < j ==> (#[trigger] scores[q]).0@ != node_text(n)) ==> scores[i].1 < scores[j].1 || (
            scores[i].1 == scores[j].1 && id_hash(r) <= id_hash(n)),
        (forall|j: int| 0 <= j < scores.len() ==> (#[trigger] scores[j]).0@ != node_text(n)) ==> scores[i].1 == 0,
{
    lemma_score_at(scores, node_text(r), i);
    assert forall|j: int|
        0 <= j < scores.len() && (#[trigger] scores[j]).0@ == node_text(n) && (forall|q: int|
            0 <= q < j ==> (#[trigger] scores[q]).0@ != node_text(n)) implies scores[i].1 < scores[j].1 || (
    scores[i].1 == scores[j].1 && id_hash(r) <= id_hash(n)) by {
        lemma_score_at(scores, node_text(n), j);
    }
    if forall|j: int| 0 <= j < scores.len() ==> (#[trigger] scores[j]).0@ != node_text(n) {
        lemma_score_missing(scores, node_text(n));
    }
}

proof fn lemma_score_at(scores: Seq<(String, u32)>, text: Seq<char>, i: int)
    requires
        0 <= i < scores.len(),
        scores[i].0@ == text,
        forall|j: int| 0 <= j < i ==> (#[trigger] scores[j]).0@ != text,
    ensures
        score_of(scores, text) == scores[i].1,
    decreases i,
{
    if i > 0 {
        assert(scores[0].0@ != text);
        let rest = scores.drop_first();
        assert forall|j: int| 0 <= j < i - 1 implies (#[trigger] rest[j]).0@ != text by {
            assert(scores[j + 1].0@ != text);
        }
        assert(rest[i - 1] == scores[i]);
        lemma_score_at(rest, text, i - 1);
    }
}

proof fn lemma_score_missing(scores: Seq<(String, u32)>, text: Seq<char>)
    requires
        forall|j: int| 0 <= j < scores.len() ==> (#[trigger] scores[j]).0@ != text,
    ensures
        score_of(scores, text) == 0,
    decreases scores.len(),
{
    if scores.len() > 0 {
        assert(scores[0].0@ != text);
        let rest = scores.drop_first();
        assert forall|j: int| 0 <= j < rest.len() implies (#[trigger] rest[j]).0@ != text by {
            assert(scores[j + 1].0@ != text);
        }
        lemma_score_missing(rest, text);
    }
}

/// A node's fill is the lightest exactly if no load mark for proposals, of whatever
/// node, that is young enough tells of a smaller one.
pub proof fn law_lightest_is_not_above_any_mark(
    t: Table,
    fill: Seq<u8>,
    window_ms: u64,
    now_ms: u64,
    node: Seq<char>,
)
    requires
        is_lightest(t, fill, window_ms, now_ms),
        !node.contains('/'),
        ({
            let k = "sys/load/"@ + node + "/"@ + "consensus.propose"@;
            &&& live(t, k) is Some
            &&& crate::load::load_parts(live(t, k)->0) is Some
            &&& now_ms - (crate::load::load_parts(live(t, k)->0)->0).2 <= window_ms
        }),
    ensures
        fill_at_least(
            (crate::load::load_parts(live(t, "sys/load/"@ + node + "/"@ + "consensus.propose"@)->0)->0).0,
            fill,
        ),
{
    let kind = "consensus.propose"@;
    let k = "sys/load/"@ + node + "/"@ + kind;
    let f = load_reading(window_ms, now_ms);
    reveal_strlit("/");
    let rest = behind(k, LOAD_PREFIX@);
    assert(rest =~= node + seq!['/'] + kind);
    assert(k.take(LOAD_PREFIX@.len() as int) =~= LOAD_PREFIX@);
    crate::text::lemma_first_slash(node, kind);
    assert(rest.skip((node.len() + 1) as int) =~= kind);
    assert(reading_at(t, k, f) == Some((node, kind, crate::load::load_parts(live(t, k)->0)->0)));
}

/// The leader of a group is the node that the group's slot was committed to.
pub proof fn law_leader_stands_in_the_slot(t: Table, group: Seq<char>, n: NodeView, m: NodeView)
    ensures
        elected(t, group, n) ==> live(t, "consensus/committed/leader/"@ + group) is Some,
        live(t, "consensus/committed/leader/"@ + group) is Some ==> (elected(t, group, n) <==> ({
            let v = live(t, "consensus/committed/leader/"@ + group)->0;
            valid_utf8(v) && denotes(decode_utf8(v), n)
        })),
        elected(t, group, n) && elected(t, group, m) ==> n == m,
{
    reveal_strlit("consensus/committed/");
    reveal_strlit("leader/");
    reveal_strlit("consensus/committed/leader/");
    assert("consensus/committed/leader/"@ =~= "consensus/committed/"@ + "leader/"@);
    assert("consensus/committed/leader/"@ + group =~= "consensus/committed/"@ + ("leader/"@ + group));
    if elected(t, group, n) && elected(t, group, m) {
        let v = live(t, committed_key("leader/"@ + group))->0;
        crate::node_id::law_denotes_unique(decode_utf8(v), n, m);
    }
}

/// A window of so many seconds has a thousand times as many milliseconds, unless that is
/// more than can be counted.
pub proof fn law_window_in_milliseconds(secs: u64)
    ensures
        secs * 1000 <= 0xffff_ffff_ffff_ffff ==> window_of(secs) == secs * 1000,
        secs * 1000 > 0xffff_ffff_ffff_ffff ==> window_of(secs) == 0xffff_ffff_ffff_ffff,
        freshness_ms(secs) == 2000 * secs,
{
}

/// What a group trusts a peer by is a live entry under the group's prefix, for the node
/// that the rest of its key denotes, that lists nodes only.
pub proof fn law_trust_stands_under_its_node(t: Table, group: Seq<char>, rest: Seq<char>, n: NodeView, peers: Seq<NodeView>)
    requires
        reading_at(t, "consensus/trust/"@ + group + "/"@ + rest, trust_reading(group)) == Some((n, peers)),
    ensures
        denotes(rest, n),
        ({
            let v = live(t, "consensus/trust/"@ + group + "/"@ + rest)->0;
            text_list_in(v) is Some && text_list_in(v)->0.len() == peers.len() && forall|i: int|
                0 <= i < peers.len() ==> denotes(text_list_in(v)->0[i], #[trigger] peers[i])
        }),
{
    let k = "consensus/trust/"@ + group + "/"@ + rest;
    assert(behind(k, trust_prefix(group)) =~= rest);
    let texts = text_list_in(live(t, k)->0)->0;
    assert(texts_denote(texts, peers));
    assert forall|i: int| 0 <= i < peers.len() implies denotes(texts[i], #[trigger] peers[i]) by {
        assert(denotes(#[trigger] texts[i], peers[i]));
    }
}

/// The load of a group is known exactly if a score is told of some member.
pub proof fn law_load_is_known_by_a_member(t: Table, group: Seq<char>, scores: Seq<(String, u32)>, n: NodeView, i: int)
    ensures
        crate::groups::is_member(t, group, n) && 0 <= i < scores.len() && scores[i].0@ == node_text(n) ==> load_known(
            t,
            group,
            scores,
        ),
        load_known(t, group, scores) ==> exists|m: NodeView, j: int|
            #[trigger] crate::groups::is_member(t, group, m) && 0 <= j < scores.len() && #[trigger] scores[j].0@
                == node_text(m),
{
    if crate::groups::is_member(t, group, n) && 0 <= i < scores.len() && scores[i].0@ == node_text(n) {
        assert(members_of(t, group).contains(n));
        assert(is_scored(scores, node_text(n)));
    }
    if load_known(t, group, scores) {
        let m = choose|m: NodeView| #[trigger] members_of(t, group).contains(m) && is_scored(scores, node_text(m));
        let j = choose|j: int| 0 <= j < scores.len() && #[trigger] scores[j].0@ == node_text(m);
        assert(crate::groups::is_member(t, group, m));
        assert(scores[j].0@ == node_text(m));
    }
}

} // verus!
