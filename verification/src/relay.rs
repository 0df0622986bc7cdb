//! What a node does with the frames that its peers send.

use crate::kv::KvHandle;
use crate::mesh::{delivers, MeshHandle};
use crate::textset::text_set;
use crate::wire::{
    count_drop, dispatch, dispatch_outcome, dropped_after, queue_after, queue_views, shard_for_key,
    shard_index, Dispatch, Frame, FrameView, SignalFrame, SignalScope, SignalView, UpdateView,
};
use vstd::prelude::*;

verus! {

/// The hops that a frame has left.
pub open spec fn hops(f: FrameView) -> u8 {
    match f {
        FrameView::Data(u) => u.ttl,
        FrameView::Signal(s) => s.ttl,
    }
}

/// What decides on the queue of a frame: the key of a write, the kind of a
/// signal.
pub open spec fn route(f: FrameView) -> Seq<char> {
    match f {
        FrameView::Data(u) => u.key,
        FrameView::Signal(s) => s.kind,
    }
}

/// The frame with one hop less.
pub open spec fn one_hop_less(f: FrameView) -> FrameView {
    match f {
        FrameView::Data(u) => FrameView::Data(UpdateView { ttl: (u.ttl - 1) as u8, ..u }),
        FrameView::Signal(s) => FrameView::Signal(SignalView { ttl: (s.ttl - 1) as u8, ..s }),
    }
}

impl KvHandle {
    /// Queues a frame that a peer sent for the next hop, unless this was its
    /// last; `None` means that it was.
    pub fn forward(&mut self, frame: Frame) -> (r: Option<Dispatch>)
        requires
            old(self).wf(),
        ensures
            r is None <==> hops(frame@) <= 1,
            r is None ==> *final(self) == *old(self),
            r matches Some(d) ==> ({
                let i = shard_index(route(frame@), old(self).shards@.len() as int);
                &&& d == dispatch_outcome(old(self).shards@[i]@)
                &&& queue_views(final(self).shards@) == queue_views(old(self).shards@).update(
                    i,
                    queue_after(old(self).shards@[i]@, one_hop_less(frame@)),
                )
                &&& final(self).dropped_frames == dropped_after(old(self).dropped_frames, d)
            }),
            final(self).wf(),
            final(self).store == old(self).store,
            final(self).clock == old(self).clock,
            final(self).node_id == old(self).node_id,
            final(self).default_ttl == old(self).default_ttl,
            final(self).shards@.len() == old(self).shards@.len(),
    {
        let ghost pre = *self;
        let ghost f = frame@;
        let next = match frame {
            Frame::Data(mut u) => {
                if u.ttl <= 1 {
                    return None;
                }
                u.ttl = u.ttl - 1;
                Frame::Data(u)
            },
            Frame::Signal(mut s) => {
                if s.ttl <= 1 {
                    return None;
                }
                s.ttl = s.ttl - 1;
                Frame::Signal(s)
            },
        };
        assert(next@ == one_hop_less(f));
        let i: usize = match &next {
            Frame::Data(u) => shard_for_key(u.key.as_str(), self.shards.len()),
            Frame::Signal(s) => shard_for_key(s.kind.as_str(), self.shards.len()),
        };
        let d = dispatch(&mut self.shards, i, next);
        self.dropped_frames = count_drop(self.dropped_frames, d);
        proof {
            assert(queue_views(self.shards@).len() == queue_views(pre.shards@).len());
            assert forall|k: Seq<char>| #[trigger] self.table().contains_key(k) implies self.table()[k].1
                <= self.clock by {
                assert(pre.table().contains_key(k));
            }
        }
        Some(d)
    }
}

impl MeshHandle {
    /// Takes in a signal that a peer sent: where the boundary admits it and the
    /// handlers do not shed it, it is delivered. `not_shed` is what a handler
    /// under load decided by chance. `true` means that the handlers get it.
    pub fn receive(&mut self, s: &SignalFrame, not_shed: bool, now_ms: u64) -> (handled: bool)
        ensures
            handled == (delivers(old(self).me(), text_set(old(self).groups), s.scope@, not_shed)
                && !old(self).log.keeps_back(s.kind@, now_ms)),
            final(self).log.log() == (if delivers(
                old(self).me(),
                text_set(old(self).groups),
                s.scope@,
                not_shed,
            ) {
                old(self).log.log().push((s.kind@, s.sender@, now_ms))
            } else {
                old(self).log.log()
            }),
            final(self).log.suppressions == old(self).log.suppressions,
            final(self).log.seeded == old(self).log.seeded,
            final(self).kv == old(self).kv,
            final(self).groups == old(self).groups,
    {
        let individual = match &s.scope {
            SignalScope::Individual(_) => true,
            _ => false,
        };
        if self.boundary_admits(&s.scope) && (individual || not_shed) {
            self.log.deliver(s.kind.as_str(), &s.sender, now_ms)
        } else {
            false
        }
    }
}

// ── Laws ─────────────────────────────────────────────────────────────────────

/// A frame goes through as many nodes as it has hops, and no more: each node
/// that sends it on takes one, and the last does not send it on.
pub proof fn law_frames_come_to_rest(f: FrameView)
    requires
        hops(f) > 1,
    ensures
        hops(one_hop_less(f)) == hops(f) - 1,
        route(one_hop_less(f)) == route(f),
{
}

/// A frame that is sent on says what it said: only its hops change.
pub proof fn law_frames_are_passed_on_unchanged(f: FrameView)
    requires
        hops(f) > 1,
    ensures
        f matches FrameView::Data(u) ==> (one_hop_less(f) matches FrameView::Data(v) && v.key == u.key && v.value
            == u.value && v.timestamp == u.timestamp && v.is_tombstone == u.is_tombstone && v.sender == u.sender
            && v.nonce == u.nonce && v.ttl + 1 == u.ttl),
        f matches FrameView::Signal(s) ==> (one_hop_less(f) matches FrameView::Signal(r) && r.kind == s.kind && r.scope
            == s.scope && r.payload == s.payload && r.sender == s.sender && r.nonce == s.nonce && r.sequence
            == s.sequence && r.ttl + 1 == s.ttl),
{
}

} // verus!
