//! The agent: what a node starts with, how it starts and stops, and what it
//! tells of itself.

use crate::advertise::{advertises, wrote_some};
use crate::audit::{str_option, text_option};
use crate::capability::{cap_key_text, Capability};
use crate::config::{is_power_of_two, shard_count, GossipConfig, MAX_SHARDS};
use crate::consensus::{encode_texts, text_list_bytes};
use crate::evidence::{leading_u64, read_leading_u64};
use crate::fleet::peer_count;
use crate::gc::live_keys;
use crate::groups::group_key_text;
use crate::health::peer_names;
use crate::kv::{outcome_for, packed, wrote, KvHandle};
use crate::load::{decode_load_state, fill_rank, load_parts, load_prefix_of, rank_of_fill, LoadState, LOAD_PREFIX};
use crate::log::deleted_all;
use crate::mesh::{MeshHandle, QUORUM_PREFIX};
use crate::node_id::{denoted, lemma_denoted, node_text, node_views, NodeId, NodeView};
use crate::num::sat_sub_spec;
use crate::peers::{PeerMap, Peers};
use crate::scan::{
    lemma_pick, lemma_pick_at, lemma_picked_all, lemma_skip, lists_live_ts, lists_readings, picked,
    Reading,
};
use crate::signals::{delivery_views, DeliveryView};
use crate::store::{live, Table};
use crate::text::{
    behind, copy_texts, has_prefix, join3, lemma_first_slash, lemma_last_slash, rsplit_once,
    split_once, strip_prefix, views,
};
use crate::textset::{lemma_listing_len, lists_set, set_items, text_set};
use vstd::prelude::*;

verus! {

/// Where an agent stands in its life.
#[derive(Debug, Clone, Copy, PartialEq, Eq, Structural)]
pub enum AgentState {
    Idle,
    Running,
    Stopped,
}

/// Why an agent could not start.
#[derive(Debug, Clone, PartialEq, Eq)]
pub enum GossipError {
    /// The settings do not fit.
    Config(String),
    /// The agent is not in a state to do this.
    State(String),
}

/// Settings that can be changed while the agent runs.
#[derive(Debug, Clone, Copy, PartialEq, Eq, Structural)]
pub struct HotTunables {
    /// Zero for no limit.
    pub max_inbound_frames_per_sec: u64,
    pub writer_channel_depth: usize,
    /// Zero for no limit.
    pub max_concurrent_bulk_handlers: usize,
    /// Zero for the value of the configuration.
    pub health_check_interval_secs: u64,
    /// Zero for the value of the configuration.
    pub reconnect_backoff_secs: u64,
    /// Whether the timing was set on this node, so that nobody else sets it.
    pub timing_locally_pinned: bool,
}

/// A snapshot of the state of the agent.
#[derive(Debug)]
pub struct SystemStats {
    pub peers: usize,
    pub store_entries: usize,
    pub cached_connections: usize,
    /// The frames that wait in each queue.
    pub gossip_shard_queue_depths: Vec<usize>,
    /// How many queues have lost their task while the agent runs.
    pub dead_shards: usize,
    /// Whether housekeeping works; true where the agent does not run.
    pub gc_alive: bool,
    /// Whether the health monitor works; true where the agent does not run.
    pub health_monitor_alive: bool,
    /// The frames that were lost because a queue was full.
    pub dropped_frames: u64,
    /// The keys in the intern pool of the process.
    pub intern_pool_size: usize,
    /// The signals for one node that went to everybody, for want of a way to it.
    pub individual_flood_fallbacks: u64,
    /// The tasks that the agent runs.
    pub task_count: usize,
    /// The bulk calls that are being served.
    pub active_bulk_handlers: usize,
    /// The commits that contradicted an earlier one.
    pub commit_conflicts: u64,
    /// The writes of others into the names that belong to the system.
    pub sys_namespace_violations: u64,
    /// The advertisements of nodes without the roles for them.
    pub cap_authz_violations: u64,
    /// The messages with another schema.
    pub schema_mismatch: u64,
    /// The senders that are held back.
    pub rate_limited_senders: usize,
}

/// What the tasks of a running agent report.
#[derive(Debug, Clone, Copy, PartialEq, Eq, Structural)]
pub struct TaskReport {
    /// The live entries that housekeeping counted last.
    pub live_entries: usize,
    pub gc_alive: bool,
    pub health_monitor_alive: bool,
    /// The connections that are open.
    pub open_connections: usize,
    pub intern_pool_size: usize,
    pub individual_flood_fallbacks: u64,
    pub task_count: usize,
    pub active_bulk_handlers: usize,
    pub commit_conflicts: u64,
    pub sys_namespace_violations: u64,
    pub cap_authz_violations: u64,
    pub schema_mismatch: u64,
    pub rate_limited_senders: usize,
}

/// A node of the mesh.
pub struct GossipAgent {
    pub mesh: MeshHandle,
    pub peers: Peers,
    pub config: GossipConfig,
    /// The peers that the node starts with; it is not among them.
    pub bootstrap_peers: Vec<NodeId>,
    pub state: AgentState,
    /// Which queues have a task.
    pub shard_alive: Vec<bool>,
    pub hot: HotTunables,
    /// Whether what is advertised periodically has been written once.
    pub soft_state_advertised: bool,
}

fn without_node(v: &Vec<NodeId>, n: &NodeId) -> (r: Vec<NodeId>)
    ensures
        node_views(r@) == node_views(v@).filter(|p: NodeView| p != n@),
{
    let ghost w = node_views(v@);
    let ghost keep = |p: NodeView| p != n@;
    let mut out: Vec<NodeId> = Vec::new();
    let mut i: usize = 0;
    proof {
        reveal(Seq::filter);
        assert(w.take(0).len() == 0);
        assert(w.take(0).filter(keep) =~= Seq::empty());
        assert(node_views(out@) =~= Seq::empty());
    }
    while i < v.len()
        invariant
            i <= v.len(),
            w == node_views(v@),
            keep == (|p: NodeView| p != n@),
            node_views(out@) == w.take(i as int).filter(keep),
        decreases v.len() - i,
    {
        let ghost was = out@;
        proof {
            reveal(Seq::filter);
            assert(w.take(i + 1).drop_last() =~= w.take(i as int));
            assert(w.take(i + 1).last() == v@[i as int]@);
        }
        if !v[i].same(n) {
            out.push(v[i].copy());
            assert(node_views(out@) =~= node_views(was).push(v@[i as int]@));
        }
        i += 1;
    }
    assert(w.take(i as int) =~= w);
    out
}

/// `cap/{node}/locality/self`.
pub open spec fn locality_key_text(node: NodeView) -> Seq<char> {
    "cap/"@ + node_text(node) + "/locality/self"@
}

/// What evidence of an earlier run tells of a signal: its kind, its sender and
/// when it was seen; `None` where it is not understood or too old.
pub open spec fn warm_delivery(k: Seq<char>, v: Seq<u8>, window_ms: u64, now_ms: u64) -> Option<DeliveryView> {
    let rest = behind(k, QUORUM_PREFIX@);
    match rest.index_of_last('/') {
        Some(i) => match (denoted(rest.skip(i + 1)), leading_u64(v)) {
            (Some(n), Some(at)) => {
                let age = sat_sub_spec(now_ms as int, at as int);
                if age <= window_ms {
                    Some((rest.take(i), n, (now_ms - age) as u64))
                } else {
                    None
                }
            },
            _ => None,
        },
        None => None,
    }
}

/// [`warm_delivery`] as a reading of the table.
pub open spec fn warm_reading(window_ms: u64, now_ms: u64) -> Reading<DeliveryView> {
    |k: Seq<char>, v: Seq<u8>, ts: u64| warm_delivery(k, v, window_ms, now_ms)
}

fn read_warm(key: &String, value: &Vec<u8>, window_ms: u64, now_ms: u64) -> (r: Option<(String, NodeId, u64)>)
    requires
        has_prefix(key@, QUORUM_PREFIX@),
    ensures
        r is Some <==> warm_delivery(key@, value@, window_ms, now_ms) is Some,
        r matches Some(d) ==> warm_delivery(key@, value@, window_ms, now_ms) == Some((d.0@, d.1@, d.2)),
{
    let rest = match strip_prefix(key.as_str(), QUORUM_PREFIX) {
        Some(s) => s,
        None => {
            return None;
        },
    };
    match rsplit_once(rest.as_str(), '/') {
        None => {
            proof {
                rest@.index_of_last_ensures('/');
            }
            None
        },
        Some((kind, text)) => {
            proof {
                lemma_last_slash(kind@, text@);
            }
            match NodeId::parse(text.as_str()) {
                Err(_) => None,
                Ok(n) => {
                    proof {
                        lemma_denoted(text@, n@);
                    }
                    match read_leading_u64(value) {
                        None => None,
                        Some(at) => {
                            let age: u64 = now_ms.saturating_sub(at);
                            if age <= window_ms {
                                Some((kind, n, now_ms - age))
                            } else {
                                None
                            }
                        },
                    }
                },
            }
        },
    }
}

impl MeshHandle {
    /// Takes over the evidence of an earlier run that lies within the window,
    /// so that quorums hold from the start.
    pub fn warm_quorum_from_layer1(&mut self, window_ms: u64, now_ms: u64)
        ensures
            final(self).kv == old(self).kv,
            final(self).groups == old(self).groups,
            final(self).log.deliveries == old(self).log.deliveries,
            final(self).log.suppressions == old(self).log.suppressions,
            warmed(
                delivery_views(old(self).log.seeded@),
                delivery_views(final(self).log.seeded@),
                old(self).kv.table(),
                window_ms,
                now_ms,
            ),
    {
        let ghost t = self.kv.table();
        let ghost before = delivery_views(self.log.seeded@);
        let found = self.kv.scan_prefix_with_ts(QUORUM_PREFIX);
        let ghost f = warm_reading(window_ms, now_ms);
        let ghost mut src: Seq<int> = Seq::empty();
        let ghost mut added: Seq<DeliveryView> = Seq::empty();
        let mut i: usize = 0;
        assert(before + added =~= before);
        while i < found.len()
            invariant
                i <= found.len(),
                lists_live_ts(found@, t, QUORUM_PREFIX@),
                f == warm_reading(window_ms, now_ms),
                picked(found@, i as int, src, added, f),
                delivery_views(self.log.seeded@) == before + added,
                self.kv == old(self).kv,
                self.groups == old(self).groups,
                self.log.deliveries == old(self).log.deliveries,
                self.log.suppressions == old(self).log.suppressions,
            decreases found.len() - i,
        {
            assert(has_prefix(found@[i as int].0@, QUORUM_PREFIX@));
            match read_warm(&found[i].0, &found[i].1, window_ms, now_ms) {
                Some((kind, sender, at_ms)) => {
                    proof {
                        let x = (kind@, sender@, at_ms);
                        lemma_pick(found@, i as int, src, added, f, x);
                        src = src.push(i as int);
                        assert((before + added).push(x) =~= before + added.push(x));
                        added = added.push(x);
                    }
                    self.log.seed(kind.as_str(), &sender, at_ms);
                },
                None => {
                    proof {
                        lemma_skip(found@, i as int, src, added, f);
                    }
                },
            }
            i += 1;
        }
        proof {
            lemma_picked_all(found@, t, QUORUM_PREFIX@, src, added, f);
        }
    }
}

/// `after` is `before` with all that the evidence in the table tells of.
pub open spec fn warmed(
    before: Seq<DeliveryView>,
    after: Seq<DeliveryView>,
    t: Table,
    window_ms: u64,
    now_ms: u64,
) -> bool {
    exists|added: Seq<DeliveryView>|
        #[trigger] lists_readings(added, t, QUORUM_PREFIX@, warm_reading(window_ms, now_ms)) && after
            == before + added
}

/// `post` is `pre` after its locality was advertised, where it has one.
pub open spec fn locality_advertised(pre: KvHandle, post: KvHandle, path: Seq<String>, now_ms: u64) -> bool {
    if path.len() == 0 {
        post == pre
    } else {
        wrote(
            pre,
            post,
            locality_key_text(pre.node_id@),
            Some(text_list_bytes(views(path))),
            now_ms,
            outcome_for(pre, locality_key_text(pre.node_id@)),
        )
    }
}

/// The live load marks of `node`.
pub open spec fn live_marks(t: Table, node: NodeView) -> Set<Seq<char>> {
    Set::new(|k: Seq<char>| has_prefix(k, load_prefix_of(node)) && live(t, k) is Some)
}

impl GossipAgent {
    pub open spec fn wf(&self) -> bool {
        &&& self.mesh.wf()
        &&& self.shard_alive@.len() == self.mesh.kv.shards@.len()
        &&& self.config.gossip_shards == self.mesh.kv.shards@.len()
    }

    /// This node.
    pub open spec fn me(&self) -> NodeView {
        self.mesh.me()
    }

    /// An agent that has not started. The number of queues is rounded up to a
    /// power of two, also in the settings.
    pub fn new(node_id: NodeId, config: GossipConfig) -> (a: GossipAgent)
        requires
            config.gossip_shards <= MAX_SHARDS,
        ensures
            a.wf(),
            a.mesh.kv.node_id == node_id,
            a.mesh.kv.table() == Table::empty(),
            a.mesh.kv.default_ttl == config.default_ttl,
            a.mesh.kv.clock == 0,
            a.mesh.kv.dropped_frames == 0,
            text_set(a.mesh.groups) == Set::<Seq<char>>::empty(),
            a.mesh.log.heard() == Seq::<DeliveryView>::empty(),
            a.peers.table() == PeerMap::empty(),
            a.state == AgentState::Idle,
            !a.soft_state_advertised,
            is_power_of_two(a.config.gossip_shards as int),
            a.config.gossip_shards >= config.gossip_shards,
            a.config.gossip_shards > 1 ==> a.config.gossip_shards / 2 < config.gossip_shards,
            a.config == (GossipConfig { gossip_shards: a.config.gossip_shards, ..config }),
            forall|i: int|
                0 <= i < a.mesh.kv.shards@.len() ==> (#[trigger] a.mesh.kv.shards@[i]).frames@.len() == 0
                    && a.mesh.kv.shards@[i].capacity == config.gossip_channel_capacity
                    && a.mesh.kv.shards@[i].alive,
            forall|i: int| 0 <= i < a.shard_alive@.len() ==> !(#[trigger] a.shard_alive@[i]),
            node_views(a.bootstrap_peers@) == node_views(config.bootstrap_peers@).filter(
                |p: NodeView| p != node_id@,
            ),
            a.hot == (HotTunables {
                max_inbound_frames_per_sec: config.max_inbound_frames_per_sec,
                writer_channel_depth: config.writer_channel_depth,
                max_concurrent_bulk_handlers: config.max_concurrent_bulk_handlers,
                health_check_interval_secs: 0,
                reconnect_backoff_secs: 0,
                timing_locally_pinned: false,
            }),
    {
        let n: usize = shard_count(config.gossip_shards);
        let bootstrap_peers = without_node(&config.bootstrap_peers, &node_id);
        let hot = HotTunables {
            max_inbound_frames_per_sec: config.max_inbound_frames_per_sec,
            writer_channel_depth: config.writer_channel_depth,
            max_concurrent_bulk_handlers: config.max_concurrent_bulk_handlers,
            health_check_interval_secs: 0,
            reconnect_backoff_secs: 0,
            timing_locally_pinned: false,
        };
        let mut shard_alive: Vec<bool> = Vec::new();
        let mut i: usize = 0;
        while i < n
            invariant
                i <= n,
                shard_alive@.len() == i,
                forall|k: int| 0 <= k < i ==> !(#[trigger] shard_alive@[k]),
            decreases n - i,
        {
            shard_alive.push(false);
            i += 1;
        }
        let kv = KvHandle::new(node_id, config.default_ttl, n, config.gossip_channel_capacity);
        let mut config = config;
        config.gossip_shards = n;
        GossipAgent {
            mesh: MeshHandle::new(kv),
            peers: Peers::new(),
            config,
            bootstrap_peers,
            state: AgentState::Idle,
            shard_alive,
            hot,
            soft_state_advertised: false,
        }
    }

    /// Starts the agent: it takes over its memberships and the evidence of an
    /// earlier run, and advertises where it stands. `bind_address` is where it
    /// will listen, and `bind_matches` whether that is the address of the node.
    pub fn start(&mut self, bind_address: &str, bind_matches: bool, now_ms: u64) -> (r: Result<(), GossipError>)
        requires
            old(self).wf(),
            old(self).mesh.kv.clock < u64::MAX,
            old(self).config.signal_window_secs * 1000 <= u64::MAX,
        ensures
            final(self).wf(),
            final(self).config == old(self).config,
            final(self).peers == old(self).peers,
            final(self).bootstrap_peers == old(self).bootstrap_peers,
            final(self).hot == old(self).hot,
            r is Ok <==> bind_matches && old(self).state == AgentState::Idle,
            r is Err ==> *final(self) == *old(self),
            !bind_matches ==> (r matches Err(e) && (e matches GossipError::Config(m) && m@ == "node_id '"@
                + node_text(old(self).me()) + "' does not match bind address '"@ + bind_address@ + "'"@)),
            bind_matches && old(self).state == AgentState::Running ==> (r matches Err(e) && (
            e matches GossipError::State(m) && m@ == "Agent already running"@)),
            bind_matches && old(self).state == AgentState::Stopped ==> (r matches Err(e) && (
            e matches GossipError::State(m) && m@ == "Agent has been shut down and cannot be restarted"@)),
            r is Ok ==> {
                &&& final(self).state == AgentState::Running
                &&& forall|g: Seq<char>| #[trigger]
                    text_set(final(self).mesh.groups).contains(g) == (if old(
                        self,
                    ).mesh.kv.table().contains_key(group_key_text(g, old(self).me())) {
                        old(self).mesh.kv.table()[group_key_text(g, old(self).me())].0 is Some
                    } else {
                        text_set(old(self).mesh.groups).contains(g)
                    })
                &&& warmed(
                    delivery_views(old(self).mesh.log.seeded@),
                    delivery_views(final(self).mesh.log.seeded@),
                    old(self).mesh.kv.table(),
                    (old(self).config.signal_window_secs * 1000) as u64,
                    now_ms,
                )
                &&& locality_advertised(
                    old(self).mesh.kv,
                    final(self).mesh.kv,
                    old(self).config.locality_path@,
                    now_ms,
                )
                &&& final(self).soft_state_advertised == (old(self).soft_state_advertised || old(
                    self,
                ).config.locality_path@.len() > 0)
                &&& final(self).shard_alive == old(self).shard_alive
                &&& final(self).mesh.log.deliveries == old(self).mesh.log.deliveries
                &&& final(self).mesh.log.suppressions == old(self).mesh.log.suppressions
            },
    {
        if !bind_matches {
            let a = join3(
                "node_id '",
                self.mesh.kv.node_id.to_text().as_str(),
                "' does not match bind address '",
            );
            return Err(GossipError::Config(join3(a.as_str(), bind_address, "'")));
        }
        match self.state {
            AgentState::Running => {
                return Err(GossipError::State("Agent already running".to_owned()));
            },
            AgentState::Stopped => {
                return Err(
                    GossipError::State("Agent has been shut down and cannot be restarted".to_owned()),
                );
            },
            AgentState::Idle => {},
        }
        self.state = AgentState::Running;
        self.mesh.reconcile_boundary();
        let window_ms: u64 = self.config.signal_window_secs * 1000;
        self.mesh.warm_quorum_from_layer1(window_ms, now_ms);
        self.advertise_locality(now_ms);
        Ok(())
    }

    /// Writes where the node stands, unless that is not said.
    pub fn advertise_locality(&mut self, now_ms: u64)
        requires
            old(self).wf(),
            old(self).mesh.kv.clock < u64::MAX,
        ensures
            final(self).wf(),
            locality_advertised(
                old(self).mesh.kv,
                final(self).mesh.kv,
                old(self).config.locality_path@,
                now_ms,
            ),
            final(self).mesh.groups == old(self).mesh.groups,
            final(self).mesh.log == old(self).mesh.log,
            final(self).peers == old(self).peers,
            final(self).config == old(self).config,
            final(self).bootstrap_peers == old(self).bootstrap_peers,
            final(self).state == old(self).state,
            final(self).shard_alive == old(self).shard_alive,
            final(self).hot == old(self).hot,
            final(self).soft_state_advertised == (old(self).soft_state_advertised || old(
                self,
            ).config.locality_path@.len() > 0),
    {
        match self_locality(&self.config) {
            None => {},
            Some(path) => {
                let key = join3("cap/", self.mesh.kv.node_id.to_text().as_str(), "/locality/self");
                let bytes = encode_texts(&path);
                let _ = self.mesh.kv.set(key.as_str(), bytes, now_ms);
                self.soft_state_advertised = true;
            },
        }
    }

    /// Advertises a capability, after which the node is ready. Returns the key
    /// of the advertisement; deleting it retracts the capability.
    pub fn advertise_capability(&mut self, capability: &Capability, interval_ms: u64, now_ms: u64) -> (key: String)
        requires
            old(self).wf(),
            old(self).mesh.kv.clock < u64::MAX,
        ensures
            final(self).wf(),
            key@ == cap_key_text(
                "cap/"@,
                node_text(old(self).me()),
                capability.namespace@,
                capability.name@,
            ),
            wrote_some(
                old(self).mesh.kv,
                final(self).mesh.kv,
                key@,
                now_ms,
                |v: Seq<u8>| advertises(v, capability@, interval_ms),
            ),
            *final(self) == (GossipAgent {
                mesh: (MeshHandle { kv: final(self).mesh.kv, ..old(self).mesh }),
                soft_state_advertised: true,
                ..*old(self)
            }),
    {
        let key = self.mesh.kv.advertise_capability(capability, interval_ms, now_ms);
        self.soft_state_advertised = true;
        key
    }

    /// Takes a start back whose listeners could not be bound.
    pub fn start_failed(&mut self)
        ensures
            *final(self) == (GossipAgent { state: AgentState::Idle, ..*old(self) }),
    {
        self.state = AgentState::Idle;
    }

    /// Stops the agent: its load marks and its locality are deleted, so that
    /// the peers need not wait for them to age. An agent that does not run
    /// keeps its state.
    pub fn shutdown(&mut self, now_ms: u64)
        requires
            old(self).wf(),
            old(self).mesh.kv.clock + live_marks(old(self).mesh.kv.table(), old(self).me()).len() + 1
                < u64::MAX,
            packed(now_ms) + live_marks(old(self).mesh.kv.table(), old(self).me()).len() + 1 < u64::MAX,
        ensures
            final(self).wf(),
            final(self).state == (if old(self).state == AgentState::Running {
                AgentState::Stopped
            } else {
                old(self).state
            }),
            final(self).mesh.groups == old(self).mesh.groups,
            final(self).mesh.log == old(self).mesh.log,
            final(self).peers == old(self).peers,
            final(self).config == old(self).config,
            final(self).hot == old(self).hot,
            cleared(
                old(self).mesh.kv,
                final(self).mesh.kv,
                old(self).me(),
                old(self).config.locality_path@.len() > 0,
                now_ms,
            ),
    {
        let ghost t = self.mesh.kv.table();
        let ghost me = self.me();
        let ghost pre = self.mesh.kv;
        let node = self.mesh.kv.node_id.to_text();
        let prefix = join3(LOAD_PREFIX, node.as_str(), "/");
        let found = self.mesh.kv.scan_prefix_with_ts(prefix.as_str());
        let mut keys: Vec<String> = Vec::new();
        let mut i: usize = 0;
        while i < found.len()
            invariant
                i <= found.len(),
                keys@.len() == i,
                forall|k: int| 0 <= k < i ==> (#[trigger] keys@[k])@ == found@[k].0@,
            decreases found.len() - i,
        {
            keys.push(found[i].0.clone());
            i += 1;
        }
        proof {
            let s = live_marks(t, me);
            assert forall|k: Seq<char>| #[trigger] s.contains(k) implies exists|j: int|
                0 <= j < keys@.len() && (#[trigger] keys@[j])@ == k by {
                assert(live(t, k) is Some);
                let j = choose|j: int| 0 <= j < found@.len() && #[trigger] found@[j].0@ == k;
                assert(keys@[j]@ == k);
            }
            assert forall|j: int| 0 <= j < keys@.len() implies s.contains((#[trigger] keys@[j])@) by {
                assert(keys@[j]@ == found@[j].0@);
            }
            assert forall|j: int, k: int| 0 <= j < k < keys@.len() implies (#[trigger] keys@[j])@ != (
            #[trigger] keys@[k])@ by {
                assert(found@[j].0@ != found@[k].0@);
            }
            lemma_listing_len(keys@, s);
        }
        self.mesh.kv.delete_all(&keys, now_ms);
        let ghost mid = self.mesh.kv;
        if self.config.locality_path.len() > 0 {
            let key = join3("cap/", node.as_str(), "/locality/self");
            let _ = self.mesh.kv.delete(key.as_str(), now_ms);
        }
        proof {
            assert(deleted_all(pre, mid, views(keys@), now_ms) && lists_set(keys@, live_marks(t, me)));
        }
        match self.state {
            AgentState::Running => {
                self.state = AgentState::Stopped;
            },
            _ => {},
        }
    }

    /// The texts of the known peers, in no particular order.
    pub fn peers(&self) -> (r: Vec<String>)
        ensures
            lists_set(r@, self.peers.table().dom()),
    {
        peer_names(&self.peers)
    }

    /// The groups that this node belongs to, in no particular order.
    pub fn groups(&self) -> (r: Vec<String>)
        ensures
            lists_set(r@, text_set(self.mesh.groups)),
    {
        set_items(&self.mesh.groups)
    }

    /// This node.
    pub fn node_id(&self) -> (r: &NodeId)
        ensures
            *r == self.mesh.kv.node_id,
    {
        &self.mesh.kv.node_id
    }

    /// Whether what is advertised periodically has been written once.
    pub fn is_ready(&self) -> (r: bool)
        ensures
            r == self.soft_state_advertised,
    {
        self.soft_state_advertised
    }

    /// A snapshot of the state of the agent. While it runs, the count of live
    /// entries is the one that housekeeping made last.
    pub fn system_stats(&self, tasks: &TaskReport) -> (s: SystemStats)
        requires
            self.wf(),
        ensures
            s.peers == self.peers.table().dom().len(),
            s.store_entries == (if self.state == AgentState::Running {
                tasks.live_entries as nat
            } else {
                live_keys(self.mesh.kv.table()).len()
            }),
            s.cached_connections == tasks.open_connections,
            s.gossip_shard_queue_depths@ == Seq::new(
                self.mesh.kv.shards@.len(),
                |i: int| self.mesh.kv.shards@[i].frames@.len() as usize,
            ),
            s.dead_shards == (if self.state == AgentState::Running {
                count_false(self.shard_alive@)
            } else {
                0
            }),
            s.gc_alive == (self.state != AgentState::Running || tasks.gc_alive),
            s.health_monitor_alive == (self.state != AgentState::Running || tasks.health_monitor_alive),
            s.dropped_frames == self.mesh.kv.dropped_frames,
            s.intern_pool_size == tasks.intern_pool_size,
            s.individual_flood_fallbacks == tasks.individual_flood_fallbacks,
            s.task_count == tasks.task_count,
            s.active_bulk_handlers == tasks.active_bulk_handlers,
            s.commit_conflicts == tasks.commit_conflicts,
            s.sys_namespace_violations == tasks.sys_namespace_violations,
            s.cap_authz_violations == tasks.cap_authz_violations,
            s.schema_mismatch == tasks.schema_mismatch,
            s.rate_limited_senders == tasks.rate_limited_senders,
    {
        let running = match self.state {
            AgentState::Running => true,
            _ => false,
        };
        let mut depths: Vec<usize> = Vec::new();
        let mut i: usize = 0;
        while i < self.mesh.kv.shards.len()
            invariant
                i <= self.mesh.kv.shards@.len(),
                depths@.len() == i,
                forall|k: int|
                    0 <= k < i ==> (#[trigger] depths@[k]) == self.mesh.kv.shards@[k].frames@.len(),
            decreases self.mesh.kv.shards@.len() - i,
        {
            depths.push(self.mesh.kv.shards[i].frames.len());
            i += 1;
        }
        let dead: usize = dead_count(&self.shard_alive);
        let entries: usize = self.mesh.kv.live_count();
        SystemStats {
            peers: peer_count(&self.peers),
            store_entries: if running {
                tasks.live_entries
            } else {
                entries
            },
            cached_connections: tasks.open_connections,
            gossip_shard_queue_depths: depths,
            dead_shards: if running {
                dead
            } else {
                0
            },
            gc_alive: !running || tasks.gc_alive,
            health_monitor_alive: !running || tasks.health_monitor_alive,
            dropped_frames: self.mesh.kv.dropped_frames,
            intern_pool_size: tasks.intern_pool_size,
            individual_flood_fallbacks: tasks.individual_flood_fallbacks,
            task_count: tasks.task_count,
            active_bulk_handlers: tasks.active_bulk_handlers,
            commit_conflicts: tasks.commit_conflicts,
            sys_namespace_violations: tasks.sys_namespace_violations,
            cap_authz_violations: tasks.cap_authz_violations,
            schema_mismatch: tasks.schema_mismatch,
            rate_limited_senders: tasks.rate_limited_senders,
        }
    }

    /// Sets how many frames a peer may send each second.
    pub fn set_max_inbound_frames_per_sec(&mut self, fps: u64)
        ensures
            *final(self) == (GossipAgent {
                hot: (HotTunables { max_inbound_frames_per_sec: fps, ..old(self).hot }),
                ..*old(self)
            }),
    {
        self.hot.max_inbound_frames_per_sec = fps;
    }

    /// Sets how many frames a new writer holds, one at least.
    pub fn set_writer_channel_depth(&mut self, depth: usize)
        ensures
            *final(self) == (GossipAgent {
                hot: (HotTunables {
                    writer_channel_depth: if depth > 1 {
                        depth
                    } else {
                        1
                    },
                    ..old(self).hot
                }),
                ..*old(self)
            }),
    {
        self.hot.writer_channel_depth = if depth > 1 {
            depth
        } else {
            1
        };
    }

    /// Sets how many bulk calls are served at a time.
    pub fn set_max_concurrent_bulk_handlers(&mut self, n: usize)
        ensures
            *final(self) == (GossipAgent {
                hot: (HotTunables { max_concurrent_bulk_handlers: n, ..old(self).hot }),
                ..*old(self)
            }),
    {
        self.hot.max_concurrent_bulk_handlers = n;
    }

    /// Sets how often peers are pinged. From then on nobody else sets the
    /// timing of this node.
    pub fn set_health_check_interval_secs(&mut self, secs: u64)
        ensures
            *final(self) == (GossipAgent {
                hot: (HotTunables {
                    health_check_interval_secs: secs,
                    timing_locally_pinned: true,
                    ..old(self).hot
                }),
                ..*old(self)
            }),
    {
        self.hot.health_check_interval_secs = secs;
        self.hot.timing_locally_pinned = true;
    }

    /// Sets how long to wait before reconnecting. From then on nobody else
    /// sets the timing of this node.
    pub fn set_reconnect_backoff_secs(&mut self, secs: u64)
        ensures
            *final(self) == (GossipAgent {
                hot: (HotTunables {
                    reconnect_backoff_secs: secs,
                    timing_locally_pinned: true,
                    ..old(self).hot
                }),
                ..*old(self)
            }),
    {
        self.hot.reconnect_backoff_secs = secs;
        self.hot.timing_locally_pinned = true;
    }

    /// The timing that was set on this node: how often peers are pinged and
    /// how long to wait before reconnecting.
    pub fn timing_tunables(&self) -> (r: (u64, u64))
        ensures
            r == (self.hot.health_check_interval_secs, self.hot.reconnect_backoff_secs),
    {
        (self.hot.health_check_interval_secs, self.hot.reconnect_backoff_secs)
    }

    /// The name that the operator gave the cluster, if any.
    pub fn cluster_name(&self) -> (r: Option<&str>)
        ensures
            str_option(r) == text_option(self.config.cluster_name),
    {
        match &self.config.cluster_name {
            Some(s) => Some(s.as_str()),
            None => None,
        }
    }

    /// The limits that hold now: frames each second, depth of a writer, bulk
    /// calls at a time.
    pub fn hot_tunables(&self) -> (r: (u64, usize, usize))
        ensures
            r == (
                self.hot.max_inbound_frames_per_sec,
                self.hot.writer_channel_depth,
                self.hot.max_concurrent_bulk_handlers,
            ),
    {
        (
            self.hot.max_inbound_frames_per_sec,
            self.hot.writer_channel_depth,
            self.hot.max_concurrent_bulk_handlers,
        )
    }
}

/// `post` is `pre` after the load marks of `node` were deleted, and its
/// locality where it had advertised one.
pub open spec fn cleared(pre: KvHandle, post: KvHandle, node: NodeView, has_locality: bool, now_ms: u64) -> bool {
    exists|mid: KvHandle, keys: Seq<String>|
        #[trigger] deleted_all(pre, mid, views(keys), now_ms) && lists_set(
            keys,
            live_marks(pre.table(), node),
        ) && (if has_locality {
            wrote(
                mid,
                post,
                locality_key_text(node),
                None,
                now_ms,
                outcome_for(mid, locality_key_text(node)),
            )
        } else {
            post == mid
        })
}

/// How many of the flags are not set.
pub open spec fn count_false(v: Seq<bool>) -> nat
    decreases v.len(),
{
    if v.len() == 0 {
        0
    } else {
        count_false(v.drop_last()) + (if v.last() {
            0nat
        } else {
            1nat
        })
    }
}

fn dead_count(v: &Vec<bool>) -> (n: usize)
    ensures
        n == count_false(v@),
{
    let mut n: usize = 0;
    let mut i: usize = 0;
    assert(v@.take(0) =~= Seq::empty());
    while i < v.len()
        invariant
            i <= v.len(),
            n <= i,
            n == count_false(v@.take(i as int)),
        decreases v.len() - i,
    {
        assert(v@.take(i + 1).drop_last() =~= v@.take(i as int));
        assert(v@.take(i + 1).last() == v@[i as int]);
        if !v[i] {
            n += 1;
        }
        i += 1;
    }
    assert(v@.take(i as int) =~= v@);
    n
}

/// Where this node stands, `None` where that is not said.
pub fn self_locality(config: &GossipConfig) -> (r: Option<Vec<String>>)
    ensures
        r is Some <==> config.locality_path@.len() > 0,
        r matches Some(p) ==> views(p@) == views(config.locality_path@),
{
    if config.locality_path.len() == 0 {
        None
    } else {
        Some(copy_texts(&config.locality_path))
    }
}

/// How a proposer behaves.
pub struct EngineSettings {
    pub abstain_when_opaque: bool,
    pub use_trust_slices: bool,
    pub max_abstain_ballots: u32,
    pub self_locality: Option<Vec<String>>,
}

/// The settings of a proposer of this node.
pub fn engine_settings(
    config: &GossipConfig,
    abstain_when_opaque: bool,
    use_trust_slices: bool,
    max_abstain_ballots: u32,
) -> (e: EngineSettings)
    ensures
        e.abstain_when_opaque == abstain_when_opaque,
        e.use_trust_slices == use_trust_slices,
        e.max_abstain_ballots == max_abstain_ballots,
        e.self_locality is Some <==> config.locality_path@.len() > 0,
        e.self_locality matches Some(p) ==> views(p@) == views(config.locality_path@),
{
    EngineSettings {
        abstain_when_opaque,
        use_trust_slices,
        max_abstain_ballots,
        self_locality: self_locality(config),
    }
}

/// The settings of a proposer on behalf of the gateway, which leaves the
/// heuristics aside.
pub fn overlay_engine_settings() -> (e: EngineSettings)
    ensures
        !e.abstain_when_opaque,
        !e.use_trust_slices,
        e.max_abstain_ballots == 3,
        e.self_locality is None,
{
    EngineSettings {
        abstain_when_opaque: false,
        use_trust_slices: false,
        max_abstain_ballots: 3,
        self_locality: None,
    }
}

// ── Listeners ────────────────────────────────────────────────────────────────

/// How many sockets accept connections: as many as there are queues, from one
/// to four.
pub fn listener_count(shards: usize) -> (n: usize)
    ensures
        n == (if shards < 1 {
            1
        } else if shards > 4 {
            4
        } else {
            shards as int
        }),
{
    if shards < 1 {
        1
    } else if shards > 4 {
        4
    } else {
        shards
    }
}

/// What became of an attempt to accept a connection.
#[derive(Debug, Clone, Copy, PartialEq, Eq, Structural)]
pub enum AcceptResult {
    Accepted,
    /// The socket is of no use any more.
    InvalidSocket,
    /// Something that may pass.
    Failed,
}

/// What a listener does next.
#[derive(Debug, Clone, Copy, PartialEq, Eq, Structural)]
pub enum ListenerStep {
    /// Serve the connection, which takes a permit.
    Serve,
    /// Drop the connection: there are too many.
    Refuse,
    Stop,
    /// Try again after a pause.
    RetryAfterMs(u64),
}

/// How long a listener pauses after an error that may pass.
pub const ACCEPT_RETRY_MS: u64 = 50;

/// Decides what a listener does next; `open` connections are served, and
/// `limit` may be.
pub fn listener_step(result: AcceptResult, open: usize, limit: usize) -> (step: ListenerStep)
    ensures
        step == (match result {
            AcceptResult::Accepted => if open < limit {
                ListenerStep::Serve
            } else {
                ListenerStep::Refuse
            },
            AcceptResult::InvalidSocket => ListenerStep::Stop,
            AcceptResult::Failed => ListenerStep::RetryAfterMs(ACCEPT_RETRY_MS),
        }),
        result == AcceptResult::Failed ==> step == ListenerStep::RetryAfterMs(50),
        step == ListenerStep::Serve <==> result == AcceptResult::Accepted && open < limit,
{
    match result {
        AcceptResult::Accepted => if open < limit {
            ListenerStep::Serve
        } else {
            ListenerStep::Refuse
        },
        AcceptResult::InvalidSocket => ListenerStep::Stop,
        AcceptResult::Failed => ListenerStep::RetryAfterMs(ACCEPT_RETRY_MS),
    }
}

// ── Load of the peers ────────────────────────────────────────────────────────

/// A load mark: of which node, for which kind, and what it says.
pub type LoadView = (Seq<char>, Seq<char>, (Seq<u8>, bool, u64));

/// The load mark in an entry that is no older than `max_age_ms`.
pub open spec fn load_at(k: Seq<char>, v: Seq<u8>, max_age_ms: u64, now_ms: u64) -> Option<LoadView> {
    let rest = behind(k, LOAD_PREFIX@);
    match rest.index_of_first('/') {
        Some(i) => match load_parts(v) {
            Some(p) => if sat_sub_spec(now_ms as int, p.2 as int) <= max_age_ms {
                Some((rest.take(i), rest.skip(i + 1), p))
            } else {
                None
            },
            None => None,
        },
        None => None,
    }
}

/// [`load_at`] as a reading of the table.
pub open spec fn load_reading(max_age_ms: u64, now_ms: u64) -> Reading<LoadView> {
    |k: Seq<char>, v: Seq<u8>, ts: u64| load_at(k, v, max_age_ms, now_ms)
}

pub open spec fn load_views(v: Seq<(String, String, LoadState)>) -> Seq<LoadView> {
    v.map_values(
        |p: (String, String, LoadState)| (p.0@, p.1@, (p.2.fill@, p.2.is_opaque, p.2.written_at_ms)),
    )
}

fn read_load(key: &String, value: &Vec<u8>, max_age_ms: u64, now_ms: u64) -> (r: Option<
    (String, String, LoadState),
>)
    requires
        has_prefix(key@, LOAD_PREFIX@),
    ensures
        r is Some <==> load_at(key@, value@, max_age_ms, now_ms) is Some,
        r matches Some(p) ==> load_at(key@, value@, max_age_ms, now_ms) == Some(
            (p.0@, p.1@, (p.2.fill@, p.2.is_opaque, p.2.written_at_ms)),
        ),
{
    let rest = match strip_prefix(key.as_str(), LOAD_PREFIX) {
        Some(s) => s,
        None => {
            return None;
        },
    };
    match split_once(rest.as_str(), '/') {
        None => {
            proof {
                rest@.index_of_first_ensures('/');
            }
            None
        },
        Some((node, kind)) => {
            proof {
                lemma_first_slash(node@, kind@);
                assert(rest@.skip(node@.len() as int + 1) =~= kind@);
            }
            match decode_load_state(value) {
                None => None,
                Some(s) => if now_ms.saturating_sub(s.written_at_ms) <= max_age_ms {
                    Some((node, kind, s))
                } else {
                    None
                },
            }
        },
    }
}

/// Whether the most loaded come first.
pub open spec fn fullest_first(v: Seq<LoadView>) -> bool {
    forall|i: int, j: int|
        0 <= i < j < v.len() ==> fill_rank((#[trigger] v[i]).2.0) >= fill_rank((#[trigger] v[j]).2.0)
}

proof fn lemma_insert_by_fill(v: Seq<LoadView>, x: LoadView, at: int)
    requires
        fullest_first(v),
        0 <= at <= v.len(),
        forall|k: int| 0 <= k < at ==> fill_rank((#[trigger] v[k]).2.0) >= fill_rank(x.2.0),
        at < v.len() ==> fill_rank(v[at].2.0) < fill_rank(x.2.0),
    ensures
        fullest_first(v.insert(at, x)),
{
    let t = v.insert(at, x);
    assert forall|i: int, j: int| 0 <= i < j < t.len() implies fill_rank((#[trigger] t[i]).2.0) >= fill_rank(
        (#[trigger] t[j]).2.0,
    ) by {
        let a = if i < at {
            i
        } else {
            i - 1
        };
        let b = if j < at {
            j
        } else {
            j - 1
        };
        if i == at {
            assert(t[j] == v[b]);
            assert(fill_rank(v[at].2.0) >= fill_rank(v[b].2.0) || b == at);
        } else if j == at {
            assert(t[i] == v[a]);
        } else {
            assert(t[i] == v[a] && t[j] == v[b]);
        }
    }
}

impl KvHandle {
    /// Every load mark that is no older than `max_age_ms`, the most loaded
    /// first.
    pub fn peer_load(&self, max_age_ms: u64, now_ms: u64) -> (r: Vec<(String, String, LoadState)>)
        ensures
            lists_readings(load_views(r@), self.table(), LOAD_PREFIX@, load_reading(max_age_ms, now_ms)),
            fullest_first(load_views(r@)),
    {
        let found = self.scan_prefix_with_ts(LOAD_PREFIX);
        let ghost f = load_reading(max_age_ms, now_ms);
        let ghost mut src: Seq<int> = Seq::empty();
        let mut out: Vec<(String, String, LoadState)> = Vec::new();
        let mut i: usize = 0;
        assert(load_views(out@) =~= Seq::empty());
        while i < found.len()
            invariant
                i <= found.len(),
                lists_live_ts(found@, self.table(), LOAD_PREFIX@),
                f == load_reading(max_age_ms, now_ms),
                picked(found@, i as int, src, load_views(out@), f),
                fullest_first(load_views(out@)),
            decreases found.len() - i,
        {
            assert(has_prefix(found@[i as int].0@, LOAD_PREFIX@));
            match read_load(&found[i].0, &found[i].1, max_age_ms, now_ms) {
                Some(p) => {
                    let ghost v = load_views(out@);
                    let ghost x = (p.0@, p.1@, (p.2.fill@, p.2.is_opaque, p.2.written_at_ms));
                    let rank: u32 = rank_of_fill(&p.2.fill);
                    let mut at: usize = 0;
                    while at < out.len() && rank_of_fill(&out[at].2.fill) >= rank
                        invariant
                            at <= out.len(),
                            v == load_views(out@),
                            rank == fill_rank(x.2.0),
                            forall|k: int| 0 <= k < at ==> fill_rank((#[trigger] v[k]).2.0) >= fill_rank(x.2.0),
                        decreases out.len() - at,
                    {
                        assert(v[at as int].2.0 == out@[at as int].2.fill@);
                        at += 1;
                    }
                    proof {
                        if at < out@.len() {
                            assert(v[at as int].2.0 == out@[at as int].2.fill@);
                        }
                        lemma_insert_by_fill(v, x, at as int);
                        lemma_pick_at(found@, i as int, src, v, f, x, at as int);
                        src = src.insert(at as int, i as int);
                    }
                    out.insert(at, p);
                    assert(load_views(out@) =~= v.insert(at as int, x));
                },
                None => {
                    proof {
                        lemma_skip(found@, i as int, src, load_views(out@), f);
                    }
                },
            }
            i += 1;
        }
        proof {
            lemma_picked_all(found@, self.table(), LOAD_PREFIX@, src, load_views(out@), f);
        }
        out
    }
}

/// After a shutdown no load mark of the node is left, nor its locality, and
/// every other key reads as before.
pub proof fn law_shutdown_clears(
    pre: KvHandle,
    post: KvHandle,
    node: NodeView,
    has_locality: bool,
    now_ms: u64,
)
    requires
        cleared(pre, post, node, has_locality, now_ms),
    ensures
        forall|k: Seq<char>|
            has_prefix(k, load_prefix_of(node)) ==> #[trigger] live(post.table(), k) is None,
        has_locality ==> live(post.table(), locality_key_text(node)) is None,
        forall|k: Seq<char>|
            !has_prefix(k, load_prefix_of(node)) && k != locality_key_text(node) ==> #[trigger] live(
                post.table(),
                k,
            ) == live(pre.table(), k),
{
    let (mid, keys) = choose|mid: KvHandle, keys: Seq<String>|
        #[trigger] deleted_all(pre, mid, views(keys), now_ms) && lists_set(
            keys,
            live_marks(pre.table(), node),
        ) && (if has_locality {
            wrote(
                mid,
                post,
                locality_key_text(node),
                None,
                now_ms,
                outcome_for(mid, locality_key_text(node)),
            )
        } else {
            post == mid
        });
    let ks = views(keys);
    crate::log::law_deleted_all(pre, mid, ks, now_ms);
    lemma_listing_len(keys, live_marks(pre.table(), node));
    assert forall|k: Seq<char>| has_prefix(k, load_prefix_of(node)) implies #[trigger] live(post.table(), k)
        is None by {
        assert(live(mid.table(), k) == (if ks.contains(k) {
            None
        } else {
            live(pre.table(), k)
        }));
        if live(pre.table(), k) is Some {
            assert(live_marks(pre.table(), node).contains(k));
            assert(ks.to_set().contains(k));
        }
    }
    assert forall|k: Seq<char>|
        !has_prefix(k, load_prefix_of(node)) && k != locality_key_text(node) implies #[trigger] live(
        post.table(),
        k,
    ) == live(pre.table(), k) by {
        assert(live(mid.table(), k) == (if ks.contains(k) {
            None
        } else {
            live(pre.table(), k)
        }));
        if ks.contains(k) {
            assert(ks.to_set().contains(k));
            assert(live_marks(pre.table(), node).contains(k));
        }
    }
}

/// A load that is told stands under a load mark of its node and kind that is no older
/// than the limit.
pub proof fn law_told_load_is_a_recent_mark(
    t: Table,
    found: Seq<LoadView>,
    max_age_ms: u64,
    now_ms: u64,
    i: int,
)
    requires
        lists_readings(found, t, LOAD_PREFIX@, load_reading(max_age_ms, now_ms)),
        0 <= i < found.len(),
    ensures
        ({
            let k = "sys/load/"@ + found[i].0 + "/"@ + found[i].1;
            &&& !found[i].0.contains('/')
            &&& live(t, k) is Some
            &&& load_parts(live(t, k)->0) == Some(found[i].2)
            &&& now_ms - found[i].2.2 <= max_age_ms
        }),
{
    let f = load_reading(max_age_ms, now_ms);
    let ks = choose|ks: Seq<Seq<char>>|
        #[trigger] crate::scan::readings_by_key(found, ks, t, LOAD_PREFIX@, f);
    let k = ks[i];
    assert(crate::scan::reading_at(t, k, f) == Some(found[i]));
    let rest = behind(k, LOAD_PREFIX@);
    rest.index_of_first_ensures('/');
    let at = rest.index_of_first('/')->0;
    reveal_strlit("/");
    assert(rest =~= rest.take(at) + "/"@ + rest.skip(at + 1));
    assert(k =~= LOAD_PREFIX@ + rest);
    assert(k =~= "sys/load/"@ + found[i].0 + "/"@ + found[i].1);
}

/// Every load mark of a node and a kind that is no older than the limit is told.
pub proof fn law_recent_mark_is_told(
    t: Table,
    found: Seq<LoadView>,
    max_age_ms: u64,
    now_ms: u64,
    node: Seq<char>,
    kind: Seq<char>,
)
    requires
        lists_readings(found, t, LOAD_PREFIX@, load_reading(max_age_ms, now_ms)),
        !node.contains('/'),
        ({
            let k = "sys/load/"@ + node + "/"@ + kind;
            &&& live(t, k) is Some
            &&& load_parts(live(t, k)->0) is Some
            &&& now_ms - (load_parts(live(t, k)->0)->0).2 <= max_age_ms
        }),
    ensures
        found.contains((node, kind, load_parts(live(t, "sys/load/"@ + node + "/"@ + kind)->0)->0)),
{
    let f = load_reading(max_age_ms, now_ms);
    let ks = choose|ks: Seq<Seq<char>>|
        #[trigger] crate::scan::readings_by_key(found, ks, t, LOAD_PREFIX@, f);
    let k = "sys/load/"@ + node + "/"@ + kind;
    reveal_strlit("/");
    let rest = behind(k, LOAD_PREFIX@);
    assert(rest =~= node + seq!['/'] + kind);
    assert(k.take(LOAD_PREFIX@.len() as int) =~= LOAD_PREFIX@);
    lemma_first_slash(node, kind);
    assert(rest.take(node.len() as int) =~= node);
    assert(rest.skip((node.len() + 1) as int) =~= kind);
    assert(crate::scan::reading_at(t, k, f) == Some((node, kind, load_parts(live(t, k)->0)->0)));
    assert(ks.contains(k));
    let i = choose|i: int| 0 <= i < ks.len() && ks[i] == k;
    assert(crate::scan::reading_at(t, ks[i], f) == Some(found[i]));
}

/// A delivery that is taken over from durable evidence is of the evidence's kind, from
/// the node that it names and at the time that it holds; evidence from the future
/// counts as of now.
pub proof fn law_taken_over_delivery_is_recent(
    t: Table,
    added: Seq<DeliveryView>,
    window_ms: u64,
    now_ms: u64,
    i: int,
)
    requires
        lists_readings(added, t, QUORUM_PREFIX@, warm_reading(window_ms, now_ms)),
        0 <= i < added.len(),
    ensures
        now_ms - added[i].2 <= window_ms,
        added[i].2 <= now_ms,
        exists|who: Seq<char>| #[trigger]
            live(t, "sys/quorum/"@ + added[i].0 + "/"@ + who) is Some && denoted(who) == Some(added[i].1) && ({
                let at = leading_u64(live(t, "sys/quorum/"@ + added[i].0 + "/"@ + who)->0);
                at is Some && (added[i].2 == at->0 || (at->0 > now_ms && added[i].2 == now_ms))
            }),
{
    let f = warm_reading(window_ms, now_ms);
    let ks = choose|ks: Seq<Seq<char>>|
        #[trigger] crate::scan::readings_by_key(added, ks, t, QUORUM_PREFIX@, f);
    let k = ks[i];
    assert(crate::scan::reading_at(t, k, f) == Some(added[i]));
    let rest = behind(k, QUORUM_PREFIX@);
    rest.index_of_last_ensures('/');
    let at = rest.index_of_last('/')->0;
    let who = rest.skip(at + 1);
    reveal_strlit("/");
    assert(rest =~= rest.take(at) + "/"@ + who);
    assert(k =~= QUORUM_PREFIX@ + rest);
    assert(k =~= "sys/quorum/"@ + added[i].0 + "/"@ + who);
    assert(live(t, "sys/quorum/"@ + added[i].0 + "/"@ + who) is Some);
}

/// No shard counts as dead exactly if all of them live, and each that does not counts
/// once.
pub proof fn law_dead_shards_are_counted(v: Seq<bool>, alive: bool)
    ensures
        count_false(v) == 0 <==> forall|i: int| 0 <= i < v.len() ==> #[trigger] v[i],
        count_false(v.push(alive)) == count_false(v) + (if alive {
            0nat
        } else {
            1nat
        }),
    decreases v.len(),
{
    assert(v.push(alive).drop_last() =~= v);
    if v.len() > 0 {
        let rest = v.drop_last();
        law_dead_shards_are_counted(rest, alive);
        if count_false(v) == 0 {
            assert forall|i: int| 0 <= i < v.len() implies #[trigger] v[i] by {
                if i < rest.len() {
                    assert(rest[i]);
                }
            }
        } else if forall|i: int| 0 <= i < v.len() ==> #[trigger] v[i] {
            assert(v[v.len() - 1]);
            assert forall|i: int| 0 <= i < rest.len() implies #[trigger] rest[i] by {
                assert(v[i]);
            }
        }
    }
}

/// A node with a locality tells it under its own key; one without writes nothing.
pub proof fn law_locality_is_told(pre: KvHandle, post: KvHandle, path: Seq<String>, now_ms: u64)
    requires
        locality_advertised(pre, post, path, now_ms),
    ensures
        path.len() > 0 ==> live(post.table(), "cap/"@ + node_text(pre.node_id@) + "/locality/self"@) == Some(
            text_list_bytes(views(path)),
        ),
        path.len() == 0 ==> post == pre,
{
}

/// Of two loads that are told the earlier one is at least as full.
pub proof fn law_fullest_are_told_first(found: Seq<LoadView>, i: int, j: int)
    requires
        fullest_first(found),
        0 <= i < j < found.len(),
        !crate::load::is_nan(found[i].2.0),
        !crate::load::is_nan(found[j].2.0),
    ensures
        crate::load::fill_at_least(found[i].2.0, found[j].2.0),
{
}

/// Evidence of a delivery that lies within the window is taken over.
pub proof fn law_recent_evidence_is_taken_over(
    t: Table,
    added: Seq<DeliveryView>,
    window_ms: u64,
    now_ms: u64,
    kind: Seq<char>,
    n: NodeView,
    at: u64,
)
    requires
        lists_readings(added, t, QUORUM_PREFIX@, warm_reading(window_ms, now_ms)),
        crate::node_id::valid_host(n.host),
        live(t, "sys/quorum/"@ + kind + "/"@ + node_text(n)) is Some,
        leading_u64(live(t, "sys/quorum/"@ + kind + "/"@ + node_text(n))->0) == Some(at),
        at <= now_ms <= at + window_ms,
    ensures
        added.contains((kind, n, at)),
{
    let f = warm_reading(window_ms, now_ms);
    let ks = choose|ks: Seq<Seq<char>>|
        #[trigger] crate::scan::readings_by_key(added, ks, t, QUORUM_PREFIX@, f);
    let k = "sys/quorum/"@ + kind + "/"@ + node_text(n);
    reveal_strlit("/");
    let rest = behind(k, QUORUM_PREFIX@);
    assert(rest =~= kind + seq!['/'] + node_text(n));
    assert(k.take(QUORUM_PREFIX@.len() as int) =~= QUORUM_PREFIX@);
    crate::node_id::law_node_text_no_slash(n);
    crate::node_id::law_node_text_round_trip(n);
    lemma_denoted(node_text(n), n);
    lemma_last_slash(kind, node_text(n));
    assert(rest.take(kind.len() as int) =~= kind);
    assert(rest.skip((kind.len() + 1) as int) =~= node_text(n));
    assert(crate::scan::reading_at(t, k, f) == Some((kind, n, at)));
    assert(ks.contains(k));
    let i = choose|i: int| 0 <= i < ks.len() && ks[i] == k;
    assert(crate::scan::reading_at(t, ks[i], f) == Some(added[i]));
}

} // verus!
