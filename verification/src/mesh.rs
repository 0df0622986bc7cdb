//! Signals and groups: what a node admits, what it sends on, and which groups
//! it belongs to.

use crate::groups::{group_key, group_key_text, group_members_of, lists_members};
use crate::kv::{hlc_next, hlc_tick, outcome_for, wrote, KvHandle};
use crate::node_id::{node_text, node_views, NodeId, NodeView};
use crate::signals::{last_delivery, recent_senders, DeliveryView, SignalLog};
use crate::store::{lists_all, live, store_entries, Table};
use crate::text::{ends_with, join2, strip_prefix};
use crate::textset::{set_contains, set_insert, set_new, set_remove, text_set};
use crate::wire::{
    count_drop, dispatch, dispatch_outcome, dropped_after, fresh_nonce, queue_after, queue_views,
    shard_for_key, shard_index, Dispatch, ForwardHint, Frame, FrameView, ScopeView, SignalFrame,
    SignalScope, SignalView,
};
use vstd::prelude::*;

verus! {

/// Prefix of the durable evidence of signals: `sys/quorum/{kind}/{sender}`.
pub const QUORUM_PREFIX: &'static str = "sys/quorum/";

/// The shortest interval at which a watch looks for staleness.
pub const MIN_CHECK_MS: u64 = 100;

/// Typed handle for signal mesh operations.
pub struct MeshHandle {
    pub kv: KvHandle,
    /// The groups that this node belongs to.
    pub groups: ahash::AHashSet<String>,
    pub log: SignalLog,
}

/// Whether a node inside the groups `groups` admits a signal of this scope.
pub open spec fn admits(me: NodeView, groups: Set<Seq<char>>, scope: ScopeView) -> bool {
    match scope {
        ScopeView::System => true,
        ScopeView::Group(g) => groups.contains(g),
        ScopeView::Individual(n) => n == me,
    }
}

/// Whether a signal is delivered locally: the boundary admits it, and it is
/// either meant for this node alone or not shed.
pub open spec fn delivers(me: NodeView, groups: Set<Seq<char>>, scope: ScopeView, not_shed: bool) -> bool {
    admits(me, groups, scope) && (scope is Individual || not_shed)
}

/// The forwarding hint of a scope.
pub fn forward_hint(scope: &SignalScope) -> (h: ForwardHint)
    ensures
        scope is System ==> h is All,
        scope matches SignalScope::Group(g) ==> h matches ForwardHint::Group(x) && x@ == g@,
        scope matches SignalScope::Individual(n) ==> h matches ForwardHint::Individual(x) && x@ == n@,
{
    match scope {
        SignalScope::System => ForwardHint::All,
        SignalScope::Group(g) => ForwardHint::Group(g.clone()),
        SignalScope::Individual(n) => ForwardHint::Individual(n.copy()),
    }
}

/// The frame that carries a signal of this node.
pub open spec fn signal_frame(
    kv: KvHandle,
    kind: Seq<char>,
    scope: ScopeView,
    payload: Seq<u8>,
    sequence: Option<u64>,
    nonce: u64,
) -> FrameView {
    FrameView::Signal(
        SignalView {
            nonce,
            sender: kv.node_id@,
            ttl: kv.default_ttl,
            kind,
            scope,
            payload,
            sequence,
        },
    )
}

/// `post` is `pre` after the frame of a signal was handed to its shard. A
/// sequence number is the last reading of the clock.
pub open spec fn signalled(
    pre: KvHandle,
    post: KvHandle,
    kind: Seq<char>,
    scope: ScopeView,
    payload: Seq<u8>,
    sequence: Option<u64>,
    d: Dispatch,
) -> bool {
    let i = shard_index(kind, pre.shards@.len() as int);
    &&& post.wf()
    &&& post.table() == pre.table()
    &&& post.clock == (match sequence {
        Some(ts) => ts,
        None => pre.clock,
    })
    &&& post.same_node(pre)
    &&& d == dispatch_outcome(pre.shards@[i]@)
    &&& post.dropped_frames == dropped_after(pre.dropped_frames, d)
    &&& exists|nonce: u64|
        nonce >= 1 && queue_views(post.shards@) == queue_views(pre.shards@).update(
            i,
            queue_after(
                pre.shards@[i]@,
                #[trigger] signal_frame(pre, kind, scope, payload, sequence, nonce),
            ),
        )
}

/// `post` is `pre` after a signal was emitted at `now_ms`.
pub open spec fn emitted(
    pre: MeshHandle,
    post: MeshHandle,
    kind: Seq<char>,
    scope: ScopeView,
    payload: Seq<u8>,
    not_shed: bool,
    now_ms: u64,
) -> bool {
    emitted_as(pre, post, kind, scope, payload, None, not_shed, now_ms)
}

/// `post` is `pre` after a signal with this sequence number, or without one,
/// was emitted at `now_ms`.
pub open spec fn emitted_as(
    pre: MeshHandle,
    post: MeshHandle,
    kind: Seq<char>,
    scope: ScopeView,
    payload: Seq<u8>,
    sequence: Option<u64>,
    not_shed: bool,
    now_ms: u64,
) -> bool {
    &&& post.groups == pre.groups
    &&& post.log.suppressions == pre.log.suppressions
    &&& post.log.seeded == pre.log.seeded
    &&& post.log.log() == (if delivers(pre.me(), text_set(pre.groups), scope, not_shed) {
        pre.log.log().push((kind, pre.me(), now_ms))
    } else {
        pre.log.log()
    })
    &&& signalled(pre.kv, post.kv, kind, scope, payload, sequence, outcome_for(pre.kv, kind))
}

impl MeshHandle {
    pub open spec fn wf(&self) -> bool {
        self.kv.wf()
    }

    /// This node.
    pub open spec fn me(&self) -> NodeView {
        self.kv.node_id@
    }

    /// A node that belongs to no group and has seen no signal.
    pub fn new(kv: KvHandle) -> (m: MeshHandle)
        requires
            kv.wf(),
        ensures
            m.wf(),
            m.kv == kv,
            text_set(m.groups) == Set::<Seq<char>>::empty(),
            m.log.log() == Seq::<DeliveryView>::empty(),
            m.log.heard() == Seq::<DeliveryView>::empty(),
            forall|k: Seq<char>| m.log.until(k) is None,
    {
        MeshHandle { kv, groups: set_new(), log: SignalLog::new() }
    }

    /// Whether the boundary of this node admits signals of `scope`.
    pub fn boundary_admits(&self, scope: &SignalScope) -> (r: bool)
        ensures
            r == admits(self.me(), text_set(self.groups), scope@),
    {
        match scope {
            SignalScope::System => true,
            SignalScope::Group(g) => set_contains(&self.groups, g.as_str()),
            SignalScope::Individual(n) => n.same(&self.kv.node_id),
        }
    }

    /// Whether the handlers of this node get a signal that it emits: it is
    /// delivered locally, and its kind is not kept back.
    pub fn reaches_handlers(&self, kind: &str, scope: &SignalScope, not_shed: bool, now_ms: u64) -> (r: bool)
        ensures
            r == (delivers(self.me(), text_set(self.groups), scope@, not_shed) && !self.log.keeps_back(
                kind@,
                now_ms,
            )),
    {
        let individual = match scope {
            SignalScope::Individual(_) => true,
            _ => false,
        };
        self.boundary_admits(scope) && (individual || not_shed) && !self.log.is_suppressed(kind, now_ms)
    }

    /// Emits a signal: delivers it locally where the boundary admits it and
    /// the handlers do not shed it, and queues it for the peers in any case.
    /// `not_shed` is what a handler under load decided by chance. `true`
    /// means that the signal was queued.
    pub fn emit(&mut self, kind: &str, scope: SignalScope, payload: Vec<u8>, not_shed: bool, now_ms: u64) -> (queued: bool)
        requires
            old(self).wf(),
        ensures
            emitted(*old(self), *final(self), kind@, scope@, payload@, not_shed, now_ms),
            queued == (outcome_for(old(self).kv, kind@) == Dispatch::Queued),
    {
        self.send(kind, scope, payload, None, not_shed, now_ms)
    }

    /// Like [`emit`](Self::emit), but numbers the signal with the next reading
    /// of the clock, so that the receivers can put signals in order.
    pub fn emit_ordered(&mut self, kind: &str, scope: SignalScope, payload: Vec<u8>, not_shed: bool, now_ms: u64) -> (queued: bool)
        requires
            old(self).wf(),
            old(self).kv.clock < u64::MAX,
        ensures
            emitted_as(
                *old(self),
                *final(self),
                kind@,
                scope@,
                payload@,
                Some(hlc_next(old(self).kv.clock, now_ms) as u64),
                not_shed,
                now_ms,
            ),
            queued == (outcome_for(old(self).kv, kind@) == Dispatch::Queued),
    {
        let ts: u64 = hlc_tick(self.kv.clock, now_ms);
        self.send(kind, scope, payload, Some(ts), not_shed, now_ms)
    }

    fn send(
        &mut self,
        kind: &str,
        scope: SignalScope,
        payload: Vec<u8>,
        sequence: Option<u64>,
        not_shed: bool,
        now_ms: u64,
    ) -> (queued: bool)
        requires
            old(self).wf(),
            sequence matches Some(ts) ==> ts >= old(self).kv.clock,
        ensures
            emitted_as(*old(self), *final(self), kind@, scope@, payload@, sequence, not_shed, now_ms),
            queued == (outcome_for(old(self).kv, kind@) == Dispatch::Queued),
    {
        let ghost pre = self.kv;
        match sequence {
            Some(ts) => {
                self.kv.clock = ts;
            },
            None => {},
        }
        let individual = match &scope {
            SignalScope::Individual(_) => true,
            _ => false,
        };
        if self.boundary_admits(&scope) && (individual || not_shed) {
            let me = self.kv.node_id.copy();
            let _ = self.log.deliver(kind, &me, now_ms);
        }
        let nonce: u64 = fresh_nonce();
        let i: usize = shard_for_key(kind, self.kv.shards.len());
        let frame = SignalFrame {
            nonce,
            sender: self.kv.node_id.copy(),
            ttl: self.kv.default_ttl,
            kind: kind.to_owned(),
            scope,
            payload,
            sequence,
        };
        let ghost fv = frame@;
        let d = dispatch(&mut self.kv.shards, i, Frame::Signal(frame));
        self.kv.dropped_frames = count_drop(self.kv.dropped_frames, d);
        proof {
            assert(FrameView::Signal(fv) == signal_frame(pre, kind@, scope@, payload@, sequence, nonce));
            assert(queue_views(self.kv.shards@).len() == queue_views(pre.shards@).len());
            assert forall|k: Seq<char>| #[trigger] self.kv.table().contains_key(k) implies self.kv.table()[k].1
                <= self.kv.clock by {
                assert(pre.table().contains_key(k));
            }
        }
        d == Dispatch::Queued
    }

    /// Joins a group. Where the node did not belong to it yet, its membership
    /// is written to `grp/{group}/{node}`.
    pub fn join_group(&mut self, group: &str, now_ms: u64)
        requires
            old(self).wf(),
            old(self).kv.clock < u64::MAX,
        ensures
            final(self).wf(),
            text_set(final(self).groups) == text_set(old(self).groups).insert(group@),
            final(self).log == old(self).log,
            text_set(old(self).groups).contains(group@) ==> final(self).kv == old(self).kv,
            !text_set(old(self).groups).contains(group@) ==> wrote(
                    old(self).kv,
                    final(self).kv,
                    group_key_text(group@, old(self).me()),
                    Some(seq![49u8]),
                    now_ms,
                    outcome_for(old(self).kv, group_key_text(group@, old(self).me())),
                ),
    {
        let inserted = set_insert(&mut self.groups, group.to_owned());
        if inserted {
            let key = group_key(group, &self.kv.node_id);
            let mut one: Vec<u8> = Vec::new();
            one.push(49);
            assert(one@ =~= seq![49u8]);
            let _ = self.kv.set(key.as_str(), one, now_ms);
        }
    }

    /// Leaves a group. Where the node belonged to it, its membership entry is
    /// deleted.
    pub fn leave_group(&mut self, group: &str, now_ms: u64)
        requires
            old(self).wf(),
            old(self).kv.clock < u64::MAX,
        ensures
            final(self).wf(),
            text_set(final(self).groups) == text_set(old(self).groups).remove(group@),
            final(self).log == old(self).log,
            !text_set(old(self).groups).contains(group@) ==> final(self).kv == old(self).kv,
            text_set(old(self).groups).contains(group@) ==> wrote(
                    old(self).kv,
                    final(self).kv,
                    group_key_text(group@, old(self).me()),
                    None,
                    now_ms,
                    outcome_for(old(self).kv, group_key_text(group@, old(self).me())),
                ),
    {
        let removed = set_remove(&mut self.groups, group);
        if removed {
            let key = group_key(group, &self.kv.node_id);
            let _ = self.kv.delete(key.as_str(), now_ms);
        }
    }

    /// The members of `group` that the table knows.
    pub fn group_members(&self, group: &str) -> (r: Vec<NodeId>)
        ensures
            lists_members(r@, self.kv.table(), group@),
            forall|i: int| 0 <= i < r@.len() ==> (#[trigger] r@[i]).wf(),
    {
        group_members_of(&self.kv, group)
    }

    /// When this node last delivered a signal of `kind`.
    pub fn last_signal(&self, kind: &str) -> (r: Option<u64>)
        ensures
            r == last_delivery(self.log.log(), kind@),
    {
        self.log.last_signal(kind)
    }

    /// Keeps local delivery of `kind` back for `duration_ms`.
    pub fn suppress(&mut self, kind: &str, now_ms: u64, duration_ms: u64)
        ensures
            final(self).log.until(kind@) == Some(
                (if now_ms + duration_ms > u64::MAX {
                    u64::MAX as int
                } else {
                    now_ms + duration_ms
                }) as u64,
            ),
            forall|k: Seq<char>|
                k != kind@ ==> #[trigger] final(self).log.until(k) == old(self).log.until(k),
            final(self).log.deliveries == old(self).log.deliveries,
            final(self).log.seeded == old(self).log.seeded,
            final(self).kv == old(self).kv,
            final(self).groups == old(self).groups,
    {
        self.log.suppress(kind, now_ms, duration_ms);
    }

    /// Stops keeping local delivery of `kind` back.
    pub fn unsuppress(&mut self, kind: &str)
        ensures
            final(self).log.until(kind@) is None,
            forall|k: Seq<char>|
                k != kind@ ==> #[trigger] final(self).log.until(k) == old(self).log.until(k),
            final(self).log.deliveries == old(self).log.deliveries,
            final(self).log.seeded == old(self).log.seeded,
            final(self).kv == old(self).kv,
            final(self).groups == old(self).groups,
    {
        self.log.unsuppress(kind);
    }

    /// Whether `kind` is kept back at `now_ms`.
    pub fn is_suppressed(&self, kind: &str, now_ms: u64) -> (r: bool)
        ensures
            r == self.log.keeps_back(kind@, now_ms),
    {
        self.log.is_suppressed(kind, now_ms)
    }

    /// Whether signals of `kind` from at least `min_senders` different nodes
    /// were delivered within the window.
    pub fn quorum(&self, kind: &str, min_senders: usize, window_ms: u64, now_ms: u64) -> (r: bool)
        ensures
            r == (recent_senders(self.log.heard(), kind@, window_ms, now_ms).len() >= min_senders),
    {
        self.log.quorum(kind, min_senders, window_ms, now_ms)
    }

    /// Like [`quorum`](Self::quorum), but only members of `group` count.
    pub fn group_quorum(&self, group: &str, kind: &str, min_senders: usize, window_ms: u64, now_ms: u64) -> (r: bool)
        ensures
            r == (recent_senders(self.log.heard(), kind@, window_ms, now_ms).intersect(
                members_of(self.kv.table(), group@),
            ).len() >= min_senders),
    {
        let members = self.group_members(group);
        proof {
            lemma_members_set(members@, self.kv.table(), group@);
        }
        self.log.quorum_for_group(kind, &members, min_senders, window_ms, now_ms)
    }

    /// Takes over what the table says of this node's own memberships: joins
    /// the groups with a live entry, leaves those with a deleted one, and
    /// stays in those without an entry.
    pub fn reconcile_boundary(&mut self)
        requires
            old(self).wf(),
        ensures
            final(self).wf(),
            final(self).kv == old(self).kv,
            final(self).log == old(self).log,
            forall|g: Seq<char>| #[trigger]
                text_set(final(self).groups).contains(g) == (if old(self).kv.table().contains_key(
                    group_key_text(g, old(self).me()),
                ) {
                    old(self).kv.table()[group_key_text(g, old(self).me())].0 is Some
                } else {
                    text_set(old(self).groups).contains(g)
                }),
    {
        let ghost t = self.kv.table();
        let ghost me = self.kv.node_id@;
        let all = store_entries(&self.kv.store);
        let suffix = join2("/", self.kv.node_id.to_text().as_str());
        let mut i: usize = 0;
        while i < all.len()
            invariant
                i <= all.len(),
                t == old(self).kv.table(),
                me == old(self).me(),
                lists_all(all@, t),
                self.kv == old(self).kv,
                self.log == old(self).log,
                suffix@ == "/"@ + node_text(me),
                forall|g: Seq<char>| #[trigger]
                    text_set(self.groups).contains(g) == (if exists|a: int|
                        0 <= a < i && (#[trigger] all@[a]).0@ == group_key_text(g, me) {
                        t[group_key_text(g, me)].0 is Some
                    } else {
                        text_set(old(self).groups).contains(g)
                    }),
            decreases all.len() - i,
        {
            let ghost before = text_set(self.groups);
            let ghost key = all@[i as int].0@;
            let found = own_group(all[i].0.as_str(), suffix.as_str());
            match found {
                None => {
                    proof {
                        assert forall|g: Seq<char>| #[trigger] text_set(self.groups).contains(g) == (if exists|
                            a: int,
                        |
                            0 <= a < i + 1 && (#[trigger] all@[a]).0@ == group_key_text(g, me) {
                            t[group_key_text(g, me)].0 is Some
                        } else {
                            text_set(old(self).groups).contains(g)
                        }) by {
                            lemma_own_group_key(g, me);
                            assert(key != group_key_text(g, me));
                            if exists|a: int| 0 <= a < i + 1 && (#[trigger] all@[a]).0@ == group_key_text(g, me) {
                                let a = choose|a: int|
                                    0 <= a < i + 1 && (#[trigger] all@[a]).0@ == group_key_text(g, me);
                                assert(a < i);
                                assert(all@[a].0@ == group_key_text(g, me));
                            }
                            assert(before.contains(g) == (if exists|a: int|
                                0 <= a < i && (#[trigger] all@[a]).0@ == group_key_text(g, me) {
                                t[group_key_text(g, me)].0 is Some
                            } else {
                                text_set(old(self).groups).contains(g)
                            }));
                        }
                    }
                },
                Some(group) => {
                    proof {
                        assert(key == "grp/"@ + group@ + suffix@);
                        assert(key =~= group_key_text(group@, me));
                    }
                    if all[i].1.data.is_some() {
                        let _ = set_insert(&mut self.groups, group.clone());
                    } else {
                        let _ = set_remove(&mut self.groups, group.as_str());
                    }
                    proof {
                        let gv = group@;
                        assert(t[key] == all@[i as int].1@);
                        assert forall|g: Seq<char>| #[trigger] text_set(self.groups).contains(g) == (if exists|
                            a: int,
                        |
                            0 <= a < i + 1 && (#[trigger] all@[a]).0@ == group_key_text(g, me) {
                            t[group_key_text(g, me)].0 is Some
                        } else {
                            text_set(old(self).groups).contains(g)
                        }) by {
                            if g == gv {
                                assert(all@[i as int].0@ == group_key_text(g, me));
                            } else {
                                lemma_group_key_injective(g, gv, me);
                                assert(before.contains(g) == (if exists|a: int|
                                    0 <= a < i && (#[trigger] all@[a]).0@ == group_key_text(g, me) {
                                    t[group_key_text(g, me)].0 is Some
                                } else {
                                    text_set(old(self).groups).contains(g)
                                }));
                                if exists|a: int|
                                    0 <= a < i + 1 && (#[trigger] all@[a]).0@ == group_key_text(g, me) {
                                    let a = choose|a: int|
                                        0 <= a < i + 1 && (#[trigger] all@[a]).0@ == group_key_text(g, me);
                                    assert(a < i);
                                    assert(all@[a].0@ == group_key_text(g, me));
                                }
                            }
                        }
                    }
                },
            }
            i += 1;
        }
        proof {
            assert forall|g: Seq<char>| #[trigger] text_set(self.groups).contains(g) == (if t.contains_key(
                group_key_text(g, me),
            ) {
                t[group_key_text(g, me)].0 is Some
            } else {
                text_set(old(self).groups).contains(g)
            }) by {
                let k = group_key_text(g, me);
                if t.contains_key(k) {
                    let a = choose|a: int| 0 <= a < all@.len() && #[trigger] all@[a].0@ == k;
                    assert(all@[a].0@ == k);
                }
            }
        }
    }
}

/// The members of `group`.
pub open spec fn members_of(t: Table, group: Seq<char>) -> Set<NodeView> {
    Set::new(|n: NodeView| crate::groups::is_member(t, group, n))
}

/// A listing of the members names exactly the members.
pub proof fn lemma_members_set(r: Seq<NodeId>, t: Table, group: Seq<char>)
    requires
        lists_members(r, t, group),
    ensures
        node_views(r).to_set() == members_of(t, group),
{
    let ks = choose|ks: Seq<Seq<char>>| #[trigger] crate::groups::members_by_entry(r, ks, t, group);
    let w = node_views(r);
    assert forall|n: NodeView| w.to_set().contains(n) <==> members_of(t, group).contains(n) by {
        if w.contains(n) {
            let i = choose|i: int| 0 <= i < w.len() && w[i] == n;
            assert(crate::groups::member_entry(t, group, ks[i], r[i]@));
        }
        if members_of(t, group).contains(n) {
            let s = choose|s: Seq<char>| #[trigger] crate::groups::member_entry(t, group, s, n);
            assert(ks.contains(s));
            let i = choose|i: int| 0 <= i < ks.len() && ks[i] == s;
            crate::node_id::law_denotes_unique(s, n, r[i]@);
            assert(w[i] == n);
        }
    }
    assert(w.to_set() =~= members_of(t, group));
}

/// The group in a key `grp/{group}{suffix}`.
fn own_group(key: &str, suffix: &str) -> (r: Option<String>)
    ensures
        r matches Some(g) ==> key@ == "grp/"@ + g@ + suffix@,
        r is None ==> forall|g: Seq<char>| key@ != "grp/"@ + g + suffix@,
{
    let tail = match strip_prefix(key, "grp/") {
        Some(s) => s,
        None => {
            assert forall|g: Seq<char>| key@ != "grp/"@ + g + suffix@ by {
                if key@ == "grp/"@ + g + suffix@ {
                    assert(key@.take("grp/"@.len() as int) =~= "grp/"@);
                }
            }
            return None;
        },
    };
    let chars = crate::text::chars_of(tail.as_str());
    if !ends_with(tail.as_str(), suffix) {
        assert forall|g: Seq<char>| key@ != "grp/"@ + g + suffix@ by {
            if key@ == "grp/"@ + g + suffix@ {
                assert(tail@ =~= g + suffix@);
                assert(tail@.skip(tail@.len() - suffix@.len()) =~= suffix@);
            }
        }
        return None;
    }
    let cut: usize = chars.len() - crate::text::chars_of(suffix).len();
    let g = crate::text::string_between(&chars, 0, cut);
    assert(tail@ =~= g@ + suffix@);
    assert(key@ =~= "grp/"@ + g@ + suffix@);
    Some(g)
}

proof fn lemma_own_group_key(g: Seq<char>, me: NodeView)
    ensures
        group_key_text(g, me) == "grp/"@ + g + ("/"@ + node_text(me)),
{
    assert(group_key_text(g, me) =~= "grp/"@ + g + ("/"@ + node_text(me)));
}

pub proof fn lemma_group_key_injective(g: Seq<char>, h: Seq<char>, me: NodeView)
    ensures
        group_key_text(g, me) == group_key_text(h, me) ==> g == h,
{
    if group_key_text(g, me) == group_key_text(h, me) {
        let k = group_key_text(g, me);
        let tail = "/"@ + node_text(me);
        lemma_own_group_key(g, me);
        lemma_own_group_key(h, me);
        let p = "grp/"@.len() as int;
        assert(k.len() == p + g.len() + tail.len() && k.len() == p + h.len() + tail.len());
        assert(g =~= k.subrange(p, p + g.len()));
        assert(h =~= k.subrange(p, p + h.len()));
    }
}

// ── Laws ─────────────────────────────────────────────────────────────────────

/// A signal that is delivered counts as the last one of its kind, be the kind
/// kept back or not.
pub proof fn law_last_signal_is_kept_while_suppressed(
    pre: MeshHandle,
    post: MeshHandle,
    kind: Seq<char>,
    scope: ScopeView,
    payload: Seq<u8>,
    not_shed: bool,
    now_ms: u64,
)
    requires
        emitted(pre, post, kind, scope, payload, not_shed, now_ms),
        delivers(pre.me(), text_set(pre.groups), scope, not_shed),
    ensures
        last_delivery(post.log.log(), kind) == Some(now_ms),
{
}

/// A signal that is numbered later has a higher number, and each number is
/// above the timestamp of everything that the node knew when it sent the signal.
pub proof fn law_sequence_numbers_grow(
    pre: MeshHandle,
    post: MeshHandle,
    later: MeshHandle,
    kind: Seq<char>,
    scope: ScopeView,
    payload: Seq<u8>,
    not_shed: bool,
    first_ms: u64,
    second_ms: u64,
)
    requires
        pre.wf(),
        emitted_as(
            pre,
            post,
            kind,
            scope,
            payload,
            Some(hlc_next(pre.kv.clock, first_ms) as u64),
            not_shed,
            first_ms,
        ),
        pre.kv.clock < u64::MAX,
        later.kv.clock >= post.kv.clock,
    ensures
        hlc_next(later.kv.clock, second_ms) > hlc_next(pre.kv.clock, first_ms),
        forall|k: Seq<char>| #[trigger]
            pre.kv.table().contains_key(k) ==> pre.kv.table()[k].1 < hlc_next(pre.kv.clock, first_ms),
{
}

/// Joining a group twice is joining it once: the second time writes nothing.
pub proof fn law_join_idempotent(groups: Set<Seq<char>>, group: Seq<char>)
    ensures
        groups.insert(group).insert(group) == groups.insert(group),
        groups.insert(group).contains(group),
{
    assert(groups.insert(group).insert(group) =~= groups.insert(group));
}

/// After a node has joined a group, the table names it as a member and a read
/// of its entry gives the mark.
pub proof fn law_join_is_visible(pre: KvHandle, post: KvHandle, group: Seq<char>, now_ms: u64, d: Dispatch)
    requires
        crate::node_id::valid_host(pre.node_id@.host),
        wrote(pre, post, group_key_text(group, pre.node_id@), Some(seq![49u8]), now_ms, d),
    ensures
        live(post.table(), group_key_text(group, pre.node_id@)) == Some(seq![49u8]),
        crate::groups::is_member(post.table(), group, pre.node_id@),
{
    crate::groups::law_entry_makes_member(post.table(), group, pre.node_id@);
}

/// After a node has left a group, a read of its entry gives nothing.
pub proof fn law_leave_is_visible(pre: KvHandle, post: KvHandle, group: Seq<char>, now_ms: u64, d: Dispatch)
    requires
        wrote(pre, post, group_key_text(group, pre.node_id@), None, now_ms, d),
    ensures
        live(post.table(), group_key_text(group, pre.node_id@)) is None,
{
}

/// A signal for another node alone is never delivered here.
pub proof fn law_individual_signals_stay_private(me: NodeView, other: NodeView, groups: Set<Seq<char>>, not_shed: bool)
    requires
        me != other,
    ensures
        !delivers(me, groups, ScopeView::Individual(other), not_shed),
{
}

/// A signal for this node alone is delivered even where handlers shed.
pub proof fn law_own_signals_are_not_shed(me: NodeView, groups: Set<Seq<char>>)
    ensures
        delivers(me, groups, ScopeView::Individual(me), false),
{
}

/// A node admits every signal for the system, those of the groups it belongs to, and
/// those for itself, and no others.
pub proof fn law_boundary_admits_what_is_meant_for_the_node(
    me: NodeView,
    groups: Set<Seq<char>>,
    g: Seq<char>,
    n: NodeView,
)
    ensures
        admits(me, groups, ScopeView::System),
        admits(me, groups, ScopeView::Group(g)) <==> groups.contains(g),
        admits(me, groups, ScopeView::Individual(n)) <==> n == me,
{
}

/// A signal for the system or a group is delivered exactly if the boundary admits it
/// and the handlers do not shed it.
pub proof fn law_shed_signals_are_not_delivered(me: NodeView, groups: Set<Seq<char>>, g: Seq<char>, not_shed: bool)
    ensures
        delivers(me, groups, ScopeView::System, not_shed) <==> not_shed,
        delivers(me, groups, ScopeView::Group(g), not_shed) <==> groups.contains(g) && not_shed,
{
}

/// An emitted signal is sent to the peers where its queue has room, whether or not it
/// is delivered here: one frame goes to the end of one queue, with the kind, the
/// scope, the payload, this node as sender and all hops.
pub proof fn law_emitted_signal_is_sent(
    pre: MeshHandle,
    post: MeshHandle,
    kind: Seq<char>,
    scope: ScopeView,
    payload: Seq<u8>,
    not_shed: bool,
    now_ms: u64,
)
    requires
        pre.wf(),
        emitted(pre, post, kind, scope, payload, not_shed, now_ms),
    ensures
        ({
            let i = shard_index(kind, pre.kv.shards@.len() as int);
            let q = pre.kv.shards@[i];
            &&& 0 <= i < pre.kv.shards@.len()
            &&& q.alive && q.frames@.len() < q.capacity ==> post.kv.shards@[i]@.frames.len() == q.frames@.len() + 1
                && (post.kv.shards@[i]@.frames.last() matches FrameView::Signal(s) && s.kind == kind && s.scope
                == scope && s.payload == payload && s.sender == pre.me() && s.ttl == pre.kv.default_ttl && s.nonce >= 1)
            &&& q.alive && q.frames@.len() >= q.capacity ==> post.kv.shards@[i]@ == q@
        }),
        post.kv.table() == pre.kv.table(),
        delivers(pre.me(), text_set(pre.groups), scope, not_shed) ==> post.log.log() == pre.log.log().push(
            (kind, pre.me(), now_ms),
        ),
        !delivers(pre.me(), text_set(pre.groups), scope, not_shed) ==> post.log.log() == pre.log.log(),
{
    let n = pre.kv.shards@.len() as int;
    let i = shard_index(kind, n);
    let nonce = choose|nonce: u64|
        nonce >= 1 && queue_views(post.kv.shards@) == queue_views(pre.kv.shards@).update(
            i,
            queue_after(pre.kv.shards@[i]@, #[trigger] signal_frame(pre.kv, kind, scope, payload, None, nonce)),
        );
    let f = signal_frame(pre.kv, kind, scope, payload, None, nonce);
    let before = queue_views(pre.kv.shards@);
    let after = queue_views(post.kv.shards@);
    assert(before.len() == n && after.len() == n);
    assert(after[i] == post.kv.shards@[i]@);
    assert(before[i] == pre.kv.shards@[i]@);
    assert(pre.kv.shards@[i]@.frames.len() == pre.kv.shards@[i].frames@.len());
    if pre.kv.shards@[i].alive && pre.kv.shards@[i].frames@.len() < pre.kv.shards@[i].capacity {
        assert(after[i].frames == before[i].frames.push(f));
        assert(after[i].frames.last() == f);
    }
}

/// To emit a signal changes nothing else: not the groups, not what is kept back, not
/// what was taken over from before; and what finds its queue full counts as dropped.
pub proof fn law_emission_leaves_the_rest(
    pre: MeshHandle,
    post: MeshHandle,
    kind: Seq<char>,
    scope: ScopeView,
    payload: Seq<u8>,
    not_shed: bool,
    now_ms: u64,
)
    requires
        pre.wf(),
        emitted(pre, post, kind, scope, payload, not_shed, now_ms),
    ensures
        post.groups == pre.groups,
        post.log.suppressions == pre.log.suppressions,
        post.log.seeded == pre.log.seeded,
        post.kv.clock == pre.kv.clock,
        post.kv.dropped_frames == pre.kv.dropped_frames || post.kv.dropped_frames == pre.kv.dropped_frames + 1
            || pre.kv.dropped_frames == u64::MAX,
        ({
            let q = pre.kv.shards@[shard_index(kind, pre.kv.shards@.len() as int)];
            &&& pre.kv.dropped_frames < u64::MAX && q.alive && q.frames@.len() >= q.capacity
                ==> post.kv.dropped_frames == pre.kv.dropped_frames + 1
            &&& !(q.alive && q.frames@.len() >= q.capacity) ==> post.kv.dropped_frames == pre.kv.dropped_frames
        }),
{
}

/// A signal is told to be queued exactly if its queue lives and has room.
pub proof fn law_queued_where_there_is_room(
    pre: KvHandle,
    post: KvHandle,
    kind: Seq<char>,
    scope: ScopeView,
    payload: Seq<u8>,
    sequence: Option<u64>,
    d: Dispatch,
)
    requires
        signalled(pre, post, kind, scope, payload, sequence, d),
    ensures
        ({
            let q = pre.shards@[shard_index(kind, pre.shards@.len() as int)];
            &&& d == Dispatch::Queued <==> q.alive && q.frames@.len() < q.capacity
            &&& d == Dispatch::Full <==> q.alive && q.frames@.len() >= q.capacity
        }),
        sequence is Some ==> post.clock == sequence->0,
        sequence is None ==> post.clock == pre.clock,
{
}

} // verus!
