//! The settings of a node.

use crate::node_id::NodeId;
use vstd::prelude::*;

verus! {

/// A gateway token and the scopes that it grants.
#[derive(Debug, Clone, PartialEq, Eq)]
pub struct GatewayToken {
    pub token: String,
    pub scopes: Vec<String>,
}

/// The settings of a node.
#[derive(Debug)]
pub struct GossipConfig {
    /// How many queues carry the frames for the peers; rounded up to a power
    /// of two.
    pub gossip_shards: usize,
    /// How many frames each queue holds.
    pub gossip_channel_capacity: usize,
    pub default_ttl: u8,
    pub bootstrap_peers: Vec<NodeId>,
    /// Where the node stands, from the widest place to the narrowest; empty
    /// where that is not said.
    pub locality_path: Vec<String>,
    pub signal_window_secs: u64,
    pub health_check_interval_secs: u64,
    pub reconnect_backoff_secs: u64,
    pub writer_channel_depth: usize,
    /// Zero for no limit.
    pub max_inbound_frames_per_sec: u64,
    /// Zero for no limit.
    pub max_concurrent_bulk_handlers: usize,
    pub max_connections: usize,
    pub http_port: Option<u16>,
    /// The token that grants everything.
    pub gateway_auth_token: Option<String>,
    pub gateway_scoped_tokens: Vec<GatewayToken>,
    pub cluster_name: Option<String>,
}

impl Default for GossipConfig {
    fn default() -> (c: GossipConfig)
        ensures
            c.gossip_shards == 4,
            c.gossip_channel_capacity == 1024,
            c.default_ttl == 5,
            c.bootstrap_peers@.len() == 0,
            c.locality_path@.len() == 0,
            c.signal_window_secs == 300,
            c.health_check_interval_secs == 30,
            c.reconnect_backoff_secs == 5,
            c.writer_channel_depth == 1024,
            c.max_inbound_frames_per_sec == 0,
            c.max_concurrent_bulk_handlers == 0,
            c.max_connections == 1024,
            c.http_port is None,
            c.gateway_auth_token is None,
            c.gateway_scoped_tokens@.len() == 0,
            c.cluster_name is None,
    {
        GossipConfig {
            gossip_shards: 4,
            gossip_channel_capacity: 1024,
            default_ttl: 5,
            bootstrap_peers: Vec::new(),
            locality_path: Vec::new(),
            signal_window_secs: 300,
            health_check_interval_secs: 30,
            reconnect_backoff_secs: 5,
            writer_channel_depth: 1024,
            max_inbound_frames_per_sec: 0,
            max_concurrent_bulk_handlers: 0,
            max_connections: 1024,
            http_port: None,
            gateway_auth_token: None,
            gateway_scoped_tokens: Vec::new(),
            cluster_name: None,
        }
    }
}

/// Whether `n` is a power of two.
pub open spec fn is_power_of_two(n: int) -> bool
    decreases n,
{
    n == 1 || (n > 1 && n % 2 == 0 && is_power_of_two(n / 2))
}

/// The largest power of two that every machine can hold in a length.
pub const MAX_SHARDS: usize = 0x8000_0000;

/// The smallest power of two that is at least `n`.
pub fn shard_count(n: usize) -> (p: usize)
    requires
        n <= MAX_SHARDS,
    ensures
        is_power_of_two(p as int),
        p >= n,
        p >= 1,
        p > 1 ==> p / 2 < n,
{
    let mut p: usize = 1;
    while p < n
        invariant
            is_power_of_two(p as int),
            p >= 1,
            p > 1 ==> p / 2 < n,
            n <= MAX_SHARDS,
        decreases 2 * n - p,
    {
        let ghost was = p as int;
        p = p * 2;
        assert(p as int / 2 == was);
    }
    p
}

/// No smaller power of two would do for the shards.
pub proof fn law_shard_count_is_least(n: int, p: int, q: int)
    requires
        is_power_of_two(p),
        is_power_of_two(q),
        p >= n,
        p > 1 ==> p / 2 < n,
        q >= n,
        n >= 0,
    ensures
        p <= q,
    decreases p + q,
{
    if p > 1 {
        if q == 1 {
            assert(p / 2 >= 1);
        } else if p > q {
            // Between q and 2q there is no power of two, so p / 2 >= q.
            lemma_power_gap(p, q);
        }
    }
}

proof fn lemma_power_gap(p: int, q: int)
    requires
        is_power_of_two(p),
        is_power_of_two(q),
        p > q,
    ensures
        p / 2 >= q,
    decreases p,
{
    if q > 1 {
        assert(p % 2 == 0 && q % 2 == 0);
        lemma_power_gap(p / 2, q / 2);
        assert(p / 2 / 2 >= q / 2);
        assert(is_power_of_two(p / 2));
        if p / 2 > 1 {
            assert((p / 2) % 2 == 0);
        }
    }
}

/// Twice a power of two is one, and one that is odd is one itself.
pub proof fn law_powers_of_two_double(n: int)
    requires
        n >= 1,
    ensures
        is_power_of_two(1),
        is_power_of_two(2 * n) <==> is_power_of_two(n),
        n % 2 == 1 && n > 1 ==> !is_power_of_two(n),
{
    assert((2 * n) / 2 == n);
    assert((2 * n) % 2 == 0);
}

} // verus!
