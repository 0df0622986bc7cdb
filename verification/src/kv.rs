//! The node's handle on the replicated table: local writes, reads, scans, and
//! the merge of what peers send.

use crate::node_id::NodeId;
use crate::store::{
    data_view, lists_all, lists_live, live, merged, store_contents, store_entries, store_get, store_insert,
    store_new, StoreEntry, Table,
};
use crate::text::{has_prefix, starts_with};
use crate::wire::{
    count_drop, dispatch, dispatch_outcome, dropped_after, fresh_nonce, id_hash, queue_after,
    queue_views, shard_for_key, shard_index, Dispatch, Frame, FrameView, GossipUpdate, ShardQueue,
    UpdateView,
};
use vstd::prelude::*;

verus! {

// ── Clock ────────────────────────────────────────────────────────────────────

/// The highest wall-clock millisecond that a packed timestamp can carry.
pub const MAX_PHYSICAL_MS: u64 = 0xffff_ffff_ffff;

/// A packed timestamp of the wall clock: milliseconds above a 16-bit counter.
pub open spec fn packed(now_ms: u64) -> int {
    if now_ms <= MAX_PHYSICAL_MS {
        now_ms * 0x1_0000
    } else {
        MAX_PHYSICAL_MS * 0x1_0000
    }
}

/// The next reading of a hybrid clock: never below the wall clock, always
/// above the last reading.
pub open spec fn hlc_next(clock: u64, now_ms: u64) -> int {
    if packed(now_ms) > clock {
        packed(now_ms)
    } else {
        clock + 1
    }
}

/// The wall-clock milliseconds inside a packed timestamp.
pub open spec fn physical(ts: u64) -> int {
    ts as int / 0x1_0000
}

/// Reads the wall-clock milliseconds inside a packed timestamp.
pub fn physical_ms(ts: u64) -> (ms: u64)
    ensures
        ms == physical(ts),
{
    ts / 0x1_0000
}

/// Advances a hybrid clock.
pub fn hlc_tick(clock: u64, now_ms: u64) -> (ts: u64)
    requires
        clock < u64::MAX,
    ensures
        ts == hlc_next(clock, now_ms),
        ts > clock,
{
    let wall: u64 = if now_ms <= MAX_PHYSICAL_MS {
        now_ms * 0x1_0000
    } else {
        MAX_PHYSICAL_MS * 0x1_0000
    };
    if wall > clock {
        wall
    } else {
        clock + 1
    }
}

// ── Handle ───────────────────────────────────────────────────────────────────

/// Typed handle for operations on the replicated table.
pub struct KvHandle {
    pub node_id: NodeId,
    pub default_ttl: u8,
    /// The last reading of the hybrid clock.
    pub clock: u64,
    pub store: papaya::HashMap<String, StoreEntry>,
    pub shards: Vec<ShardQueue>,
    pub dropped_frames: u64,
}

/// `post` is `pre` after a local write of `data` (a tombstone if `None`)
/// under `key` at `now_ms`; `d` is what became of the frame for the peers.
pub open spec fn wrote(
    pre: KvHandle,
    post: KvHandle,
    key: Seq<char>,
    data: Option<Seq<u8>>,
    now_ms: u64,
    d: Dispatch,
) -> bool {
    let ts = hlc_next(pre.clock, now_ms) as u64;
    let i = shard_index(key, pre.shards@.len() as int);
    &&& post.wf()
    &&& post.clock == ts
    &&& post.table() == pre.table().insert(key, (data, ts))
    &&& post.same_node(pre)
    &&& d == dispatch_outcome(pre.shards@[i]@)
    &&& post.dropped_frames == dropped_after(pre.dropped_frames, d)
    &&& exists|nonce: u64|
        nonce >= 1 && queue_views(post.shards@) == queue_views(pre.shards@).update(
            i,
            queue_after(
                pre.shards@[i]@,
                #[trigger] write_frame(pre, key, data, ts, nonce),
            ),
        )
}

/// One write: the key, and the value or a tombstone.
pub type WriteOp = (Seq<char>, Option<Seq<u8>>);

/// `post` is `pre` after the writes `ops` were made locally and queued for the
/// peers, one after the other, and no others.
pub open spec fn wrote_all(pre: KvHandle, post: KvHandle, ops: Seq<WriteOp>, now_ms: u64) -> bool
    decreases ops.len(),
{
    if ops.len() == 0 {
        post == pre
    } else {
        exists|mid: KvHandle|
            wrote_all(pre, mid, ops.drop_last(), now_ms) && #[trigger] wrote(
                mid,
                post,
                ops.last().0,
                ops.last().1,
                now_ms,
                outcome_for(mid, ops.last().0),
            )
    }
}

/// One more write behind the others.
pub proof fn lemma_wrote_more(
    pre: KvHandle,
    mid: KvHandle,
    post: KvHandle,
    ops: Seq<WriteOp>,
    op: WriteOp,
    now_ms: u64,
)
    requires
        wrote_all(pre, mid, ops, now_ms),
        wrote(mid, post, op.0, op.1, now_ms, outcome_for(mid, op.0)),
    ensures
        wrote_all(pre, post, ops.push(op), now_ms),
{
    let all = ops.push(op);
    assert(all.drop_last() =~= ops);
    assert(all.last() == op);
    assert(wrote(mid, post, all.last().0, all.last().1, now_ms, outcome_for(mid, all.last().0)));
}

/// Writes behind writes.
pub proof fn lemma_wrote_both(
    pre: KvHandle,
    mid: KvHandle,
    post: KvHandle,
    first: Seq<WriteOp>,
    second: Seq<WriteOp>,
    now_ms: u64,
)
    requires
        wrote_all(pre, mid, first, now_ms),
        wrote_all(mid, post, second, now_ms),
    ensures
        wrote_all(pre, post, first + second, now_ms),
    decreases second.len(),
{
    if second.len() == 0 {
        assert(first + second =~= first);
    } else {
        let last = second.last();
        let m = choose|m: KvHandle|
            wrote_all(mid, m, second.drop_last(), now_ms) && #[trigger] wrote(
                m,
                post,
                last.0,
                last.1,
                now_ms,
                outcome_for(m, last.0),
            );
        lemma_wrote_both(pre, mid, m, first, second.drop_last(), now_ms);
        lemma_wrote_more(pre, m, post, first + second.drop_last(), last, now_ms);
        assert((first + second.drop_last()).push(last) =~= first + second);
    }
}

/// What becomes of a frame that is queued under `key`.
pub open spec fn outcome_for(kv: KvHandle, key: Seq<char>) -> Dispatch {
    dispatch_outcome(kv.shards@[shard_index(key, kv.shards@.len() as int)]@)
}

/// The frame that tells the peers of a local write.
pub open spec fn write_frame(
    pre: KvHandle,
    key: Seq<char>,
    data: Option<Seq<u8>>,
    ts: u64,
    nonce: u64,
) -> FrameView {
    FrameView::Data(
        UpdateView {
            nonce,
            sender: id_hash(pre.node_id@),
            ttl: pre.default_ttl,
            is_tombstone: data is None,
            timestamp: ts,
            key,
            value: match data {
                Some(v) => v,
                None => Seq::empty(),
            },
        },
    )
}

impl KvHandle {
    /// The table that the handle works on.
    pub open spec fn table(&self) -> Table {
        store_contents(self.store)
    }

    /// There is a shard to send by, and nothing in the table is newer than
    /// the clock.
    pub open spec fn wf(&self) -> bool {
        &&& self.shards@.len() > 0
        &&& forall|k: Seq<char>| #[trigger]
            self.table().contains_key(k) ==> self.table()[k].1 <= self.clock
    }

    /// The parts of the handle that no write changes.
    pub open spec fn same_node(&self, other: KvHandle) -> bool {
        &&& self.node_id@ == other.node_id@
        &&& self.default_ttl == other.default_ttl
        &&& self.shards@.len() == other.shards@.len()
    }

    /// A handle on an empty table with `n_shards` empty queues.
    pub fn new(node_id: NodeId, default_ttl: u8, n_shards: usize, capacity: usize) -> (kv: KvHandle)
        requires
            n_shards > 0,
        ensures
            kv.wf(),
            kv.table() == Table::empty(),
            kv.node_id == node_id,
            kv.default_ttl == default_ttl,
            kv.clock == 0,
            kv.dropped_frames == 0,
            kv.shards@.len() == n_shards,
            forall|i: int|
                0 <= i < n_shards ==> (#[trigger] kv.shards@[i]).frames@.len() == 0
                    && kv.shards@[i].capacity == capacity && kv.shards@[i].alive,
    {
        let mut shards: Vec<ShardQueue> = Vec::new();
        let mut i: usize = 0;
        while i < n_shards
            invariant
                i <= n_shards,
                shards@.len() == i,
                forall|k: int|
                    0 <= k < i ==> (#[trigger] shards@[k]).frames@.len() == 0
                        && shards@[k].capacity == capacity && shards@[k].alive,
            decreases n_shards - i,
        {
            shards.push(ShardQueue { frames: Vec::new(), capacity, alive: true });
            i += 1;
        }
        KvHandle { node_id, default_ttl, clock: 0, store: store_new(), shards, dropped_frames: 0 }
    }

    /// Takes the next reading of the clock.
    pub fn tick(&mut self, now_ms: u64) -> (ts: u64)
        requires
            old(self).wf(),
            old(self).clock < u64::MAX,
        ensures
            ts == hlc_next(old(self).clock, now_ms),
            final(self).clock == ts,
            final(self).wf(),
            final(self).store == old(self).store,
            final(self).node_id == old(self).node_id,
            final(self).default_ttl == old(self).default_ttl,
            final(self).shards == old(self).shards,
            final(self).dropped_frames == old(self).dropped_frames,
    {
        let ghost pre = *self;
        let ts: u64 = hlc_tick(self.clock, now_ms);
        self.clock = ts;
        assert forall|k: Seq<char>| #[trigger] self.table().contains_key(k) implies self.table()[k].1
            <= self.clock by {
            assert(pre.table().contains_key(k));
        }
        ts
    }

    fn write(&mut self, key: &str, data: Option<Vec<u8>>, now_ms: u64) -> (d: Dispatch)
        requires
            old(self).wf(),
            old(self).clock < u64::MAX,
        ensures
            wrote(
                *old(self),
                *final(self),
                key@,
                data_view(data),
                now_ms,
                d,
            ),
    {
        let ghost pre = *self;
        let ghost model = data_view(data);
        let ts: u64 = self.tick(now_ms);
        let nonce: u64 = fresh_nonce();
        let is_tombstone = data.is_none();
        let value: Vec<u8> = match &data {
            Some(v) => crate::text::copy_bytes(v),
            None => Vec::new(),
        };
        let update = GossipUpdate {
            nonce,
            sender: self.node_id.id_hash(),
            ttl: self.default_ttl,
            is_tombstone,
            timestamp: ts,
            key: key.to_owned(),
            value,
        };
        store_insert(&mut self.store, key.to_owned(), StoreEntry { data, timestamp: ts });
        let i: usize = shard_for_key(key, self.shards.len());
        assert(update@ == write_frame(pre, key@, model, ts, nonce)->Data_0) by {
            if model is None {
                assert(update@.value =~= Seq::<u8>::empty());
            }
        }
        let d = dispatch(&mut self.shards, i, Frame::Data(update));
        self.dropped_frames = count_drop(self.dropped_frames, d);
        proof {
            assert forall|k: Seq<char>| #[trigger]
                self.table().contains_key(k) implies self.table()[k].1 <= self.clock by {
                if k != key@ {
                    assert(pre.table().contains_key(k));
                }
            }
            assert(queue_views(self.shards@).len() == queue_views(pre.shards@).len());
            assert(write_frame(pre, key@, model, ts, nonce) == FrameView::Data(update@));
        }
        d
    }

    /// Stores `value` under `key` and queues the write for the peers. The
    /// local table changes whatever is returned; `true` means that the write
    /// was queued.
    pub fn set(&mut self, key: &str, value: Vec<u8>, now_ms: u64) -> (queued: bool)
        requires
            old(self).wf(),
            old(self).clock < u64::MAX,
        ensures
            wrote(
                *old(self),
                *final(self),
                key@,
                Some(value@),
                now_ms,
                outcome_for(*old(self), key@),
            ),
            queued == (outcome_for(*old(self), key@) == Dispatch::Queued),
    {
        let d = self.write(key, Some(value), now_ms);
        d == Dispatch::Queued
    }

    /// Puts a tombstone in the place of `key` and queues it for the peers.
    /// `true` means that the tombstone was queued.
    pub fn delete(&mut self, key: &str, now_ms: u64) -> (queued: bool)
        requires
            old(self).wf(),
            old(self).clock < u64::MAX,
        ensures
            wrote(
                *old(self),
                *final(self),
                key@,
                None,
                now_ms,
                outcome_for(*old(self), key@),
            ),
            queued == (outcome_for(*old(self), key@) == Dispatch::Queued),
    {
        let d = self.write(key, None, now_ms);
        d == Dispatch::Queued
    }

    /// Whether a write of `key` need not wait: its queue has room, or nobody
    /// drains it any more.
    pub fn has_room(&self, key: &str) -> (r: bool)
        requires
            self.wf(),
        ensures
            r == (outcome_for(*self, key@) != Dispatch::Full),
    {
        let i: usize = shard_for_key(key, self.shards.len());
        !self.shards[i].alive || self.shards[i].frames.len() < self.shards[i].capacity
    }

    /// The value of `key`, `None` if it is absent or deleted.
    pub fn get(&self, key: &str) -> (r: Option<Vec<u8>>)
        ensures
            r is Some <==> live(self.table(), key@) is Some,
            r matches Some(v) ==> live(self.table(), key@) == Some(v@),
    {
        match store_get(&self.store, key) {
            None => None,
            Some(e) => e.data,
        }
    }

    /// When `key` was last written or deleted, `None` if the table has no
    /// entry for it.
    pub fn written_at(&self, key: &str) -> (r: Option<u64>)
        ensures
            r == (if self.table().contains_key(key@) {
                Some(self.table()[key@].1)
            } else {
                None
            }),
    {
        match store_get(&self.store, key) {
            None => None,
            Some(e) => Some(e.timestamp),
        }
    }

    /// Merges a write that came from a peer: the newest write wins, and the
    /// clock never falls behind what the table holds.
    pub fn apply(&mut self, u: &GossipUpdate)
        requires
            old(self).wf(),
        ensures
            final(self).wf(),
            final(self).table() == merged(
                old(self).table(),
                u.key@,
                (
                    if u.is_tombstone {
                        None
                    } else {
                        Some(u.value@)
                    },
                    u.timestamp,
                ),
            ),
            final(self).clock == (if u.timestamp > old(self).clock {
                u.timestamp
            } else {
                old(self).clock
            }),
            final(self).node_id == old(self).node_id,
            final(self).default_ttl == old(self).default_ttl,
            final(self).shards == old(self).shards,
            final(self).dropped_frames == old(self).dropped_frames,
    {
        let ghost pre = *self;
        let newer = match store_get(&self.store, u.key.as_str()) {
            None => true,
            Some(e) => u.timestamp > e.timestamp,
        };
        if newer {
            let data = if u.is_tombstone {
                None
            } else {
                Some(crate::text::copy_bytes(&u.value))
            };
            store_insert(
                &mut self.store,
                u.key.clone(),
                StoreEntry { data, timestamp: u.timestamp },
            );
        }
        if u.timestamp > self.clock {
            self.clock = u.timestamp;
        }
        assert forall|k: Seq<char>| #[trigger] self.table().contains_key(k) implies self.table()[k].1
            <= self.clock by {
            if k != u.key@ {
                assert(pre.table().contains_key(k));
            }
        }
    }

    /// Every live entry whose key begins with `prefix`, once each, in no
    /// particular order.
    pub fn scan_prefix(&self, prefix: &str) -> (r: Vec<(String, Vec<u8>)>)
        ensures
            lists_live(r@, self.table(), prefix@),
    {
        let all = store_entries(&self.store);
        let mut out: Vec<(String, Vec<u8>)> = Vec::new();
        let mut i: usize = 0;
        while i < all.len()
            invariant
                i <= all.len(),
                lists_all(all@, self.table()),
                forall|j: int|
                    0 <= j < out@.len() ==> exists|k: int|
                        0 <= k < i && #[trigger] all@[k].0@ == (#[trigger] out@[j]).0@,
                forall|j: int|
                    0 <= j < out@.len() ==> has_prefix(#[trigger] out@[j].0@, prefix@) && live(
                        self.table(),
                        out@[j].0@,
                    ) == Some(out@[j].1@),
                forall|a: int, b: int|
                    0 <= a < b < out@.len() ==> #[trigger] out@[a].0@ != #[trigger] out@[b].0@,
                forall|k: int|
                    0 <= k < i && has_prefix(#[trigger] all@[k].0@, prefix@) && live(
                        self.table(),
                        all@[k].0@,
                    ) is Some ==> exists|j: int|
                        0 <= j < out@.len() && #[trigger] out@[j].0@ == all@[k].0@,
            decreases all.len() - i,
        {
            let ghost before = out@;
            if starts_with(all[i].0.as_str(), prefix) {
                match &all[i].1.data {
                    None => {},
                    Some(v) => {
                        out.push((all[i].0.clone(), crate::text::copy_bytes(v)));
                        assert(out@[out@.len() - 1].0@ == all@[i as int].0@);
                    },
                }
            }
            proof {
                assert forall|k: int|
                    0 <= k < i + 1 && has_prefix(#[trigger] all@[k].0@, prefix@) && live(
                        self.table(),
                        all@[k].0@,
                    ) is Some implies exists|j: int|
                    0 <= j < out@.len() && #[trigger] out@[j].0@ == all@[k].0@ by {
                    if k < i {
                        let j = choose|j: int|
                            0 <= j < before.len() && #[trigger] before[j].0@ == all@[k].0@;
                        assert(out@[j].0@ == all@[k].0@);
                    } else {
                        assert(out@[out@.len() - 1].0@ == all@[k].0@);
                    }
                }
            }
            i += 1;
        }
        proof {
            assert forall|k: Seq<char>|
                has_prefix(k, prefix@) && #[trigger] live(self.table(), k) is Some implies exists|
                j: int,
            | 0 <= j < out@.len() && #[trigger] out@[j].0@ == k by {
                assert(self.table().contains_key(k));
                let m = choose|m: int| 0 <= m < all@.len() && #[trigger] all@[m].0@ == k;
                assert(has_prefix(all@[m].0@, prefix@));
            }
        }
        out
    }

    /// Every key with a live value, once each, in no particular order.
    pub fn keys(&self) -> (r: Vec<String>)
        ensures
            forall|i: int|
                0 <= i < r@.len() ==> live(self.table(), (#[trigger] r@[i])@) is Some,
            forall|i: int, j: int|
                0 <= i < j < r@.len() ==> (#[trigger] r@[i])@ != (#[trigger] r@[j])@,
            forall|k: Seq<char>| #[trigger]
                live(self.table(), k) is Some ==> exists|i: int|
                    0 <= i < r@.len() && (#[trigger] r@[i])@ == k,
    {
        let all = self.scan_prefix("");
        proof {
            reveal_strlit("");
            assert(""@ =~= Seq::<char>::empty());
        }
        let mut out: Vec<String> = Vec::new();
        let mut i: usize = 0;
        while i < all.len()
            invariant
                i <= all.len(),
                out@.len() == i,
                forall|k: int| 0 <= k < i ==> (#[trigger] out@[k])@ == all@[k].0@,
            decreases all.len() - i,
        {
            out.push(all[i].0.clone());
            i += 1;
        }
        proof {
            assert forall|k: Seq<char>| #[trigger]
                live(self.table(), k) is Some implies exists|i: int|
                0 <= i < out@.len() && (#[trigger] out@[i])@ == k by {
                assert(k.take(0) =~= ""@);
                assert(has_prefix(k, ""@));
                let m = choose|m: int| 0 <= m < all@.len() && #[trigger] all@[m].0@ == k;
                assert(out@[m]@ == k);
            }
        }
        out
    }
}

// ── Laws ─────────────────────────────────────────────────────────────────────

/// A write is read back, and no other key is affected by it.
pub proof fn law_read_after_write(
    pre: KvHandle,
    post: KvHandle,
    key: Seq<char>,
    value: Seq<u8>,
    now_ms: u64,
    d: Dispatch,
)
    requires
        wrote(pre, post, key, Some(value), now_ms, d),
    ensures
        live(post.table(), key) == Some(value),
        forall|k: Seq<char>| k != key ==> #[trigger] live(post.table(), k) == live(pre.table(), k),
{
}

/// A deleted key reads as absent, and no other key is affected.
pub proof fn law_read_after_delete(
    pre: KvHandle,
    post: KvHandle,
    key: Seq<char>,
    now_ms: u64,
    d: Dispatch,
)
    requires
        wrote(pre, post, key, None, now_ms, d),
    ensures
        live(post.table(), key) is None,
        forall|k: Seq<char>| k != key ==> #[trigger] live(post.table(), k) == live(pre.table(), k),
{
}

/// A local write is newer than everything the node has seen, so merging it
/// anywhere gives the value that was written here.
pub proof fn law_local_write_is_newest(
    pre: KvHandle,
    post: KvHandle,
    key: Seq<char>,
    data: Option<Seq<u8>>,
    now_ms: u64,
    d: Dispatch,
)
    requires
        pre.wf(),
        pre.clock < u64::MAX,
        wrote(pre, post, key, data, now_ms, d),
    ensures
        post.clock > pre.clock,
        post.table() == merged(pre.table(), key, (data, post.clock)),
        post.table()[key].1 == post.clock,
{
    assert(hlc_next(pre.clock, now_ms) > pre.clock);
}

/// The hybrid clock never runs behind the wall clock.
pub proof fn law_clock_not_behind(clock: u64, now_ms: u64)
    requires
        clock < u64::MAX,
        now_ms <= MAX_PHYSICAL_MS,
    ensures
        hlc_next(clock, now_ms) > clock,
        physical(hlc_next(clock, now_ms) as u64) >= now_ms,
{
}

/// A reading of the clock is the least number that is above the last reading and
/// not below the wall clock.
pub proof fn law_clock_moves_least(clock: u64, now_ms: u64, other: int)
    requires
        now_ms <= 0xffff_ffff_ffff,
        other > clock,
        other >= now_ms * 0x1_0000,
    ensures
        hlc_next(clock, now_ms) > clock,
        hlc_next(clock, now_ms) >= now_ms * 0x1_0000,
        hlc_next(clock, now_ms) <= other,
{
}

/// The wall-clock part of a timestamp is the milliseconds that it was made from,
/// whatever its counter.
pub proof fn law_timestamp_holds_the_wall_clock(ms: int, counter: int)
    requires
        0 <= ms <= 0xffff_ffff_ffff,
        0 <= counter < 0x1_0000,
    ensures
        physical((ms * 0x1_0000 + counter) as u64) == ms,
{
}

/// A local write is sent to the peers where its queue has room: one frame goes to
/// the end of one queue, with the key, the value, the timestamp of the entry and all
/// hops. Where the queue is full, nothing is queued and the loss is counted. No other
/// queue changes.
pub proof fn law_write_is_sent(
    pre: KvHandle,
    post: KvHandle,
    key: Seq<char>,
    data: Option<Seq<u8>>,
    now_ms: u64,
    d: Dispatch,
)
    requires
        pre.wf(),
        wrote(pre, post, key, data, now_ms, d),
    ensures
        ({
            let i = shard_index(key, pre.shards@.len() as int);
            let q = pre.shards@[i];
            &&& 0 <= i < pre.shards@.len()
            &&& forall|j: int|
                0 <= j < pre.shards@.len() && j != i ==> (#[trigger] post.shards@[j])@ == pre.shards@[j]@
            &&& q.alive && q.frames@.len() < q.capacity ==> d == Dispatch::Queued && post.dropped_frames
                == pre.dropped_frames && post.shards@[i]@.frames.len() == q.frames@.len() + 1 && (
            post.shards@[i]@.frames.last() matches FrameView::Data(u) && u.key == key && u.is_tombstone == (
            data is None) && u.timestamp == post.table()[key].1 && u.ttl == pre.default_ttl && u.sender == id_hash(
                pre.node_id@,
            ) && (data is Some ==> u.value == data->0) && u.nonce >= 1)
            &&& q.alive && q.frames@.len() >= q.capacity ==> d == Dispatch::Full && post.shards@[i]@ == q@ && (
            pre.dropped_frames < u64::MAX ==> post.dropped_frames == pre.dropped_frames + 1)
            &&& !q.alive ==> d == Dispatch::Closed && post.shards@[i]@ == q@ && post.dropped_frames
                == pre.dropped_frames
        }),
{
    let n = pre.shards@.len() as int;
    let i = shard_index(key, n);
    let ts = hlc_next(pre.clock, now_ms) as u64;
    let nonce = choose|nonce: u64|
        nonce >= 1 && queue_views(post.shards@) == queue_views(pre.shards@).update(
            i,
            queue_after(pre.shards@[i]@, #[trigger] write_frame(pre, key, data, ts, nonce)),
        );
    let before = queue_views(pre.shards@);
    let after = queue_views(post.shards@);
    let f = write_frame(pre, key, data, ts, nonce);
    assert(before.len() == n && after.len() == n);
    assert(after[i] == post.shards@[i]@);
    assert(before[i] == pre.shards@[i]@);
    assert forall|j: int| 0 <= j < n && j != i implies (#[trigger] post.shards@[j])@ == pre.shards@[j]@ by {
        assert(after[j] == post.shards@[j]@);
        assert(before[j] == pre.shards@[j]@);
    }
    assert(pre.shards@[i]@.frames.len() == pre.shards@[i].frames@.len());
    if pre.shards@[i].alive && pre.shards@[i].frames@.len() < pre.shards@[i].capacity {
        assert(after[i].frames == before[i].frames.push(f));
        assert(after[i].frames.last() == f);
    }
}

/// After a number of writes a key holds what the last of them that was for it wrote, and
/// a key that none was for holds what it held.
pub proof fn law_last_of_many_writes_is_read(pre: KvHandle, post: KvHandle, ops: Seq<WriteOp>, now_ms: u64, i: int, other: Seq<char>)
    requires
        wrote_all(pre, post, ops, now_ms),
        0 <= i < ops.len(),
        forall|j: int| i < j < ops.len() ==> (#[trigger] ops[j]).0 != ops[i].0,
        forall|j: int| 0 <= j < ops.len() ==> (#[trigger] ops[j]).0 != other,
    ensures
        live(post.table(), ops[i].0) == ops[i].1,
        post.table().contains_key(other) == pre.table().contains_key(other),
        live(post.table(), other) == live(pre.table(), other),
    decreases ops.len(),
{
    lemma_unwritten(pre, post, ops, now_ms, other);
    let mid = choose|mid: KvHandle|
        wrote_all(pre, mid, ops.drop_last(), now_ms) && #[trigger] wrote(
            mid,
            post,
            ops.last().0,
            ops.last().1,
            now_ms,
            outcome_for(mid, ops.last().0),
        );
    if i < ops.len() - 1 {
        assert(ops[ops.len() - 1].0 != ops[i].0);
        let front = ops.drop_last();
        assert forall|j: int| 0 <= j < front.len() implies (#[trigger] front[j]) == ops[j] by {}
        law_last_of_many_writes_is_read(pre, mid, front, now_ms, i, other);
    }
}

proof fn lemma_unwritten(pre: KvHandle, post: KvHandle, ops: Seq<WriteOp>, now_ms: u64, other: Seq<char>)
    requires
        wrote_all(pre, post, ops, now_ms),
        forall|j: int| 0 <= j < ops.len() ==> (#[trigger] ops[j]).0 != other,
    ensures
        post.table().contains_key(other) == pre.table().contains_key(other),
        live(post.table(), other) == live(pre.table(), other),
    decreases ops.len(),
{
    if ops.len() > 0 {
        let mid = choose|mid: KvHandle|
            wrote_all(pre, mid, ops.drop_last(), now_ms) && #[trigger] wrote(
                mid,
                post,
                ops.last().0,
                ops.last().1,
                now_ms,
                outcome_for(mid, ops.last().0),
            );
        let front = ops.drop_last();
        assert forall|j: int| 0 <= j < front.len() implies (#[trigger] front[j]) == ops[j] by {}
        assert(ops[ops.len() - 1].0 != other);
        lemma_unwritten(pre, mid, front, now_ms, other);
    }
}

/// A write stays on its node: the node's name, the hops that its frames get and the
/// number of its queues do not change.
pub proof fn law_write_keeps_the_node(
    pre: KvHandle,
    post: KvHandle,
    key: Seq<char>,
    data: Option<Seq<u8>>,
    now_ms: u64,
    d: Dispatch,
)
    requires
        wrote(pre, post, key, data, now_ms, d),
    ensures
        post.node_id@ == pre.node_id@,
        post.default_ttl == pre.default_ttl,
        post.shards@.len() == pre.shards@.len(),
{
}

/// The wall clock counts up to the largest time that fits into six bytes.
pub proof fn law_wall_clock_fits_six_bytes(now_ms: u64)
    ensures
        now_ms < 0x1_0000_0000_0000 ==> packed(now_ms) == now_ms * 65536,
        now_ms >= 0x1_0000_0000_0000 ==> packed(now_ms) == 0xffff_ffff_ffff_0000,
{
}

} // verus!
