//! The timing of a node, and how it is governed from elsewhere in the mesh.
//!
//! Whoever governs the timing publishes an intent, for the whole fleet or for
//! one node. Each node moves toward the newest intent that is meant for it,
//! goes back to its configuration when the intent has evaporated, and does
//! neither once its timing was set on the node itself.

use crate::agent::{GossipAgent, HotTunables};
use crate::audit::{str_option, text_option};
use crate::kv::{outcome_for, wrote, KvHandle};
use crate::node_id::{law_node_text_injective, node_text, valid_host, NodeId, NodeView};
use crate::store::{live, Table};
use crate::text::{join2, same_text};
use crate::wire::Dispatch;
use vstd::prelude::*;

verus! {

/// Prefix of the intents on timing: `sys/timing/{node}`, and
/// `sys/timing/fleet` for all nodes.
pub const TIMING_PREFIX: &'static str = "sys/timing/";

pub const FLEET: &'static str = "fleet";

/// An intent older than this, in milliseconds, has evaporated.
pub const TIMING_INTENT_TTL_MS: u64 = 60_000;

/// What a governor wants the timing to be. A zero leaves a value to the
/// configuration of each node.
#[derive(Debug)]
pub struct TimingIntent {
    pub health_check_interval_secs: u64,
    pub reconnect_backoff_secs: u64,
    /// The node that is meant, `None` for all.
    pub target: Option<String>,
    pub written_at_ms: u64,
}

/// The model of a [`TimingIntent`].
pub type TimingView = (u64, u64, Option<Seq<char>>, u64);

impl View for TimingIntent {
    type V = TimingView;

    open spec fn view(&self) -> TimingView {
        (
            self.health_check_interval_secs,
            self.reconnect_backoff_secs,
            text_option(self.target),
            self.written_at_ms,
        )
    }
}

/// The bytes that `bincode` writes for an intent on timing.
pub uninterp spec fn timing_bytes(intent: (u64, u64, Option<Seq<char>>, u64)) -> Seq<u8>;

/// The intent on timing that `bincode` reads from `bytes`, `None` where it
/// finds none.
pub uninterp spec fn timing_parts(bytes: Seq<u8>) -> Option<(u64, u64, Option<Seq<char>>, u64)>;

/// `bincode::serde::encode_to_vec` of an intent on timing: the result is a
/// function of the intent, and reading it gives the intent back.
#[verifier::external_body]
fn encode_timing(secs: (u64, u64), target: Option<&str>, written_at_ms: u64) -> (r: Vec<u8>)
    ensures
        r@ == timing_bytes((secs.0, secs.1, str_option(target), written_at_ms)),
        timing_parts(r@) == Some((secs.0, secs.1, str_option(target), written_at_ms)),
{
    let parts = (secs.0, secs.1, target, written_at_ms);
    bincode::serde::encode_to_vec(parts, bincode::config::standard()).unwrap_or_default()
}

/// `bincode::serde::decode_from_slice` of an intent on timing: the result is a
/// function of the bytes. Before it, `bincode::serde::borrow_decode_from_slice`
/// reads the same with a borrowed text: it fails where a length goes beyond the
/// bytes, for which an owned text would be allocated first.
#[verifier::external_body]
fn decode_timing(bytes: &Vec<u8>) -> (r: Option<(u64, u64, Option<String>, u64)>)
    ensures
        r is Some <==> timing_parts(bytes@) is Some,
        r matches Some(p) ==> timing_parts(bytes@) == Some((p.0, p.1, text_option(p.2), p.3)),
{
    let cfg = bincode::config::standard();
    bincode::serde::borrow_decode_from_slice::<(u64, u64, Option<&str>, u64), _>(bytes, cfg).ok()?;
    bincode::serde::decode_from_slice(bytes, cfg).ok().map(|(v, _)| v)
}

impl TimingIntent {
    pub fn encode(&self) -> (r: Vec<u8>)
        ensures
            r@ == timing_bytes(self@),
            timing_parts(r@) == Some(self@),
    {
        let target = match &self.target {
            Some(t) => Some(t.as_str()),
            None => None,
        };
        encode_timing(
            (self.health_check_interval_secs, self.reconnect_backoff_secs),
            target,
            self.written_at_ms,
        )
    }

    /// The intent in `bytes`, if there is one.
    pub fn decode(bytes: &Vec<u8>) -> (r: Option<TimingIntent>)
        ensures
            r is Some <==> timing_parts(bytes@) is Some,
            r matches Some(i) ==> timing_parts(bytes@) == Some(i@),
    {
        match decode_timing(bytes) {
            None => None,
            Some(p) => Some(
                TimingIntent {
                    health_check_interval_secs: p.0,
                    reconnect_backoff_secs: p.1,
                    target: p.2,
                    written_at_ms: p.3,
                },
            ),
        }
    }
}

/// Where the intent for `target` stands.
pub open spec fn timing_key_text(target: Option<Seq<char>>) -> Seq<char> {
    TIMING_PREFIX@ + (match target {
        Some(t) => t,
        None => FLEET@,
    })
}

fn timing_key(target: Option<&str>) -> (s: String)
    ensures
        s@ == timing_key_text(str_option(target)),
{
    match target {
        Some(t) => join2(TIMING_PREFIX, t),
        None => join2(TIMING_PREFIX, FLEET),
    }
}

/// The intent for `target` that holds at `now`: the one that stands in its
/// place, unless it is meant for somebody else or has evaporated.
pub open spec fn intent_for(t: Table, target: Option<Seq<char>>, now: u64) -> Option<TimingView> {
    match live(t, timing_key_text(target)) {
        None => None,
        Some(v) => match timing_parts(v) {
            None => None,
            Some(i) => if i.2 == target && now - i.3 <= TIMING_INTENT_TTL_MS {
                Some(i)
            } else {
                None
            },
        },
    }
}

/// The newest of the intents that are meant for the node; of two that are
/// equally new, the one for the node alone.
pub open spec fn governing(t: Table, node: NodeView, now: u64) -> Option<TimingView> {
    match (intent_for(t, Some(node_text(node)), now), intent_for(t, None, now)) {
        (Some(own), Some(all)) => Some(
            if all.3 > own.3 {
                all
            } else {
                own
            },
        ),
        (Some(own), None) => Some(own),
        (None, all) => all,
    }
}

/// The timing that the mesh asks of the node; zeros where it asks nothing.
pub open spec fn governed_timing(t: Table, node: NodeView, now: u64) -> (u64, u64) {
    match governing(t, node, now) {
        Some(i) => (i.0, i.1),
        None => (0, 0),
    }
}

/// The agent after it has moved its timing toward what the mesh asks of it,
/// which it does unless its timing was set on the node itself.
pub open spec fn reconciled(a: GossipAgent, now: u64) -> GossipAgent {
    if a.hot.timing_locally_pinned {
        a
    } else {
        let g = governed_timing(a.mesh.kv.table(), a.mesh.me(), now);
        GossipAgent {
            hot: HotTunables { health_check_interval_secs: g.0, reconnect_backoff_secs: g.1, ..a.hot },
            ..a
        }
    }
}

fn same_target(a: &Option<String>, b: Option<&str>) -> (r: bool)
    ensures
        r == (text_option(*a) == str_option(b)),
{
    match (a, b) {
        (Some(x), Some(y)) => same_text(x.as_str(), y),
        (None, None) => true,
        _ => false,
    }
}

fn read_intent(kv: &KvHandle, target: Option<&str>, now: u64) -> (r: Option<TimingIntent>)
    ensures
        r is Some <==> intent_for(kv.table(), str_option(target), now) is Some,
        r matches Some(i) ==> intent_for(kv.table(), str_option(target), now) == Some(i@),
{
    let key = timing_key(target);
    match kv.get(key.as_str()) {
        None => None,
        Some(v) => match TimingIntent::decode(&v) {
            None => None,
            Some(i) => {
                if same_target(&i.target, target) && now.saturating_sub(i.written_at_ms)
                    <= TIMING_INTENT_TTL_MS {
                    Some(i)
                } else {
                    None
                }
            },
        },
    }
}

/// The value that was set while the node runs, else that of the configuration.
pub open spec fn in_force(live: u64, configured: u64) -> u64 {
    if live > 0 {
        live
    } else {
        configured
    }
}

impl GossipAgent {
    /// Publishes an intent on timing, for one node or for all. `true` means
    /// that it was queued for the peers.
    pub fn govern_timing(
        &mut self,
        health_check_interval_secs: u64,
        reconnect_backoff_secs: u64,
        target: Option<&NodeId>,
        now_ms: u64,
    ) -> (queued: bool)
        requires
            old(self).mesh.wf(),
            old(self).mesh.kv.clock < u64::MAX,
        ensures
            ({
                let to = match target {
                    Some(n) => Some(node_text(n@)),
                    None => None,
                };
                &&& wrote(
                    old(self).mesh.kv,
                    final(self).mesh.kv,
                    timing_key_text(to),
                    Some(timing_bytes((health_check_interval_secs, reconnect_backoff_secs, to, now_ms))),
                    now_ms,
                    outcome_for(old(self).mesh.kv, timing_key_text(to)),
                )
                &&& timing_parts(timing_bytes((health_check_interval_secs, reconnect_backoff_secs, to, now_ms)))
                    == Some((health_check_interval_secs, reconnect_backoff_secs, to, now_ms))
                &&& queued == (outcome_for(old(self).mesh.kv, timing_key_text(to)) == Dispatch::Queued)
            }),
            final(self).mesh.groups == old(self).mesh.groups,
            final(self).mesh.log == old(self).mesh.log,
            *final(self) == (GossipAgent { mesh: final(self).mesh, ..*old(self) }),
    {
        let text = match target {
            Some(n) => Some(n.to_text()),
            None => None,
        };
        let key = match &text {
            Some(t) => timing_key(Some(t.as_str())),
            None => timing_key(None),
        };
        let intent = TimingIntent {
            health_check_interval_secs,
            reconnect_backoff_secs,
            target: text,
            written_at_ms: now_ms,
        };
        self.mesh.kv.set(key.as_str(), intent.encode(), now_ms)
    }

    /// Moves the timing toward what the mesh asks of this node, unless it was
    /// set on the node itself.
    pub fn reconcile_timing(&mut self, now_ms: u64)
        ensures
            *final(self) == reconciled(*old(self), now_ms),
    {
        if self.hot.timing_locally_pinned {
            return;
        }
        let me = self.mesh.kv.node_id.to_text();
        let own = read_intent(&self.mesh.kv, Some(me.as_str()), now_ms);
        let all = read_intent(&self.mesh.kv, None, now_ms);
        let newest = match (own, all) {
            (Some(o), Some(a)) => Some(
                if a.written_at_ms > o.written_at_ms {
                    a
                } else {
                    o
                },
            ),
            (Some(o), None) => Some(o),
            (None, a) => a,
        };
        let (secs, backoff): (u64, u64) = match newest {
            Some(i) => (i.health_check_interval_secs, i.reconnect_backoff_secs),
            None => (0, 0),
        };
        self.hot.health_check_interval_secs = secs;
        self.hot.reconnect_backoff_secs = backoff;
    }

    /// How often peers are pinged and how long to wait before reconnecting, in
    /// seconds, as it is in force now.
    pub fn timing_in_force(&self) -> (r: (u64, u64))
        ensures
            r == (
                in_force(self.hot.health_check_interval_secs, self.config.health_check_interval_secs),
                in_force(self.hot.reconnect_backoff_secs, self.config.reconnect_backoff_secs),
            ),
    {
        let secs: u64 = if self.hot.health_check_interval_secs > 0 {
            self.hot.health_check_interval_secs
        } else {
            self.config.health_check_interval_secs
        };
        let backoff: u64 = if self.hot.reconnect_backoff_secs > 0 {
            self.hot.reconnect_backoff_secs
        } else {
            self.config.reconnect_backoff_secs
        };
        (secs, backoff)
    }
}

// ── Laws ─────────────────────────────────────────────────────────────────────

/// A node whose timing was set on the node itself keeps it, whatever intents
/// there are.
pub proof fn law_local_timing_wins(a: GossipAgent, secs: u64, now: u64)
    ensures
        ({
            let set = GossipAgent {
                hot: HotTunables { health_check_interval_secs: secs, timing_locally_pinned: true, ..a.hot },
                ..a
            };
            reconciled(set, now) == set
        }),
        ({
            let set = GossipAgent {
                hot: HotTunables { reconnect_backoff_secs: secs, timing_locally_pinned: true, ..a.hot },
                ..a
            };
            reconciled(set, now) == set
        }),
{
}

/// A published intent for the fleet is what the mesh asks of every node that
/// has it, for as long as it lasts, except of nodes with a newer or equally new
/// intent of their own.
pub proof fn law_fleet_intent_governs(
    pre: KvHandle,
    post: KvHandle,
    value: Seq<u8>,
    secs: (u64, u64),
    written_at_ms: u64,
    d: Dispatch,
    node: NodeView,
    now: u64,
)
    requires
        wrote(pre, post, timing_key_text(None), Some(value), written_at_ms, d),
        timing_parts(value) == Some((secs.0, secs.1, None::<Seq<char>>, written_at_ms)),
        now <= written_at_ms + TIMING_INTENT_TTL_MS,
        intent_for(post.table(), Some(node_text(node)), now) matches Some(own) ==> own.3 < written_at_ms,
    ensures
        governed_timing(post.table(), node, now) == secs,
{
}

/// An intent for one node leaves what the mesh asks of the others as it was.
pub proof fn law_target_spares_others(
    pre: KvHandle,
    post: KvHandle,
    value: Seq<u8>,
    written_at_ms: u64,
    d: Dispatch,
    target: NodeView,
    other: NodeView,
    now: u64,
)
    requires
        valid_host(target.host),
        valid_host(other.host),
        target != other,
        wrote(pre, post, timing_key_text(Some(node_text(target))), Some(value), written_at_ms, d),
        timing_parts(value) matches Some(i) && i.2 == Some(node_text(target)),
    ensures
        governed_timing(post.table(), other, now) == governed_timing(pre.table(), other, now),
{
    let key = timing_key_text(Some(node_text(target)));
    let n = TIMING_PREFIX@.len() as int;
    assert(key.skip(n) =~= node_text(target));
    if timing_key_text(Some(node_text(other))) == key {
        assert(timing_key_text(Some(node_text(other))).skip(n) =~= node_text(other));
        law_node_text_injective(other, target);
    }
    if timing_key_text(None) == key {
        reveal_strlit("fleet");
        assert(timing_key_text(None).skip(n) =~= FLEET@);
        assert(node_text(target)[target.host.len() as int] == ':');
        assert(FLEET@[target.host.len() as int] != ':');
    }
}

/// An intent that has evaporated asks nothing: with no other, the node is back
/// at its configuration.
pub proof fn law_evaporated_intent_asks_nothing(t: Table, node: NodeView, now: u64)
    requires
        forall|to: Option<Seq<char>>|
            live(t, #[trigger] timing_key_text(to)) matches Some(v) ==> (timing_parts(v) matches Some(i) ==> now
                > i.3 + TIMING_INTENT_TTL_MS),
    ensures
        governed_timing(t, node, now) == (0u64, 0u64),
{
}

/// An intent counts for a minute: the newer of that for the node and that for the
/// whole mesh governs, and that for the node where both are equally old.
pub proof fn law_newer_intent_governs(t: Table, node: NodeView, now: u64, own: TimingView, all: TimingView)
    requires
        live(t, "sys/timing/"@ + node_text(node)) is Some,
        timing_parts(live(t, "sys/timing/"@ + node_text(node))->0) == Some(own),
        own.2 == Some(node_text(node)),
        live(t, "sys/timing/"@ + "fleet"@) is Some,
        timing_parts(live(t, "sys/timing/"@ + "fleet"@)->0) == Some(all),
        all.2 is None,
    ensures
        now > own.3 + 60_000 && now > all.3 + 60_000 ==> governed_timing(t, node, now) == (0u64, 0u64),
        now <= own.3 + 60_000 && (now > all.3 + 60_000 || all.3 <= own.3) ==> governed_timing(t, node, now) == (
            own.0,
            own.1,
        ),
        now <= all.3 + 60_000 && (now > own.3 + 60_000 || all.3 > own.3) ==> governed_timing(t, node, now) == (
            all.0,
            all.1,
        ),
{
}

/// An agent that nobody tuned by hand runs at what governs it.
pub proof fn law_reconciled_agent_follows(a: GossipAgent, now: u64)
    ensures
        a.hot.timing_locally_pinned ==> reconciled(a, now) == a,
        !a.hot.timing_locally_pinned ==> ({
            let r = reconciled(a, now);
            let g = governed_timing(a.mesh.kv.table(), a.mesh.me(), now);
            r.hot.health_check_interval_secs == g.0 && r.hot.reconnect_backoff_secs == g.1 && r.mesh == a.mesh
                && r.config == a.config
        }),
{
}

/// Zero stands for what the configuration says.
pub proof fn law_zero_is_the_configured_value(live: u64, configured: u64)
    ensures
        in_force(0, configured) == configured,
        live != 0 ==> in_force(live, configured) == live,
{
}

} // verus!
