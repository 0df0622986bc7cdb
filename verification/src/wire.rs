//! Frames that leave the node and the bounded shard queues they wait in.

use crate::node_id::{node_text, NodeId, NodeView};
use crate::text::chars_of;
use vstd::prelude::*;

verus! {

/// Who a frame should be forwarded to.
#[derive(Debug, Clone, PartialEq, Eq)]
pub enum ForwardHint {
    /// Every peer.
    All,
    /// One node.
    Individual(NodeId),
    /// The members of a group, and a few other peers.
    Group(String),
}

/// Who a signal is meant for.
#[derive(Debug, Clone, PartialEq, Eq)]
pub enum SignalScope {
    System,
    Group(String),
    Individual(NodeId),
}

#[verifier::ext_equal]
pub enum ScopeView {
    System,
    Group(Seq<char>),
    Individual(NodeView),
}

impl View for SignalScope {
    type V = ScopeView;

    open spec fn view(&self) -> ScopeView {
        match self {
            SignalScope::System => ScopeView::System,
            SignalScope::Group(g) => ScopeView::Group(g@),
            SignalScope::Individual(n) => ScopeView::Individual(n@),
        }
    }
}

/// One write on its way to the peers.
#[derive(Debug, Clone, PartialEq, Eq)]
pub struct GossipUpdate {
    pub nonce: u64,
    pub sender: u64,
    pub ttl: u8,
    pub is_tombstone: bool,
    pub timestamp: u64,
    pub key: String,
    pub value: Vec<u8>,
}

/// One signal on its way to the peers.
#[derive(Debug, Clone, PartialEq, Eq)]
pub struct SignalFrame {
    pub nonce: u64,
    pub sender: NodeId,
    pub ttl: u8,
    pub kind: String,
    pub scope: SignalScope,
    pub payload: Vec<u8>,
    /// The reading of the sender's clock, where the order of signals matters.
    pub sequence: Option<u64>,
}

/// What a shard queue carries.
#[derive(Debug, Clone, PartialEq, Eq)]
pub enum Frame {
    Data(GossipUpdate),
    Signal(SignalFrame),
}

#[verifier::ext_equal]
pub struct UpdateView {
    pub nonce: u64,
    pub sender: u64,
    pub ttl: u8,
    pub is_tombstone: bool,
    pub timestamp: u64,
    pub key: Seq<char>,
    pub value: Seq<u8>,
}

#[verifier::ext_equal]
pub struct SignalView {
    pub nonce: u64,
    pub sender: NodeView,
    pub ttl: u8,
    pub kind: Seq<char>,
    pub scope: ScopeView,
    pub payload: Seq<u8>,
    pub sequence: Option<u64>,
}

#[verifier::ext_equal]
pub enum FrameView {
    Data(UpdateView),
    Signal(SignalView),
}

impl View for GossipUpdate {
    type V = UpdateView;

    open spec fn view(&self) -> UpdateView {
        UpdateView {
            nonce: self.nonce,
            sender: self.sender,
            ttl: self.ttl,
            is_tombstone: self.is_tombstone,
            timestamp: self.timestamp,
            key: self.key@,
            value: self.value@,
        }
    }
}

impl View for SignalFrame {
    type V = SignalView;

    open spec fn view(&self) -> SignalView {
        SignalView {
            nonce: self.nonce,
            sender: self.sender@,
            ttl: self.ttl,
            kind: self.kind@,
            scope: self.scope@,
            payload: self.payload@,
            sequence: self.sequence,
        }
    }
}

impl View for Frame {
    type V = FrameView;

    open spec fn view(&self) -> FrameView {
        match self {
            Frame::Data(u) => FrameView::Data(u@),
            Frame::Signal(s) => FrameView::Signal(s@),
        }
    }
}

/// A bounded queue of frames that one gossip task drains.
#[derive(Debug)]
pub struct ShardQueue {
    pub frames: Vec<Frame>,
    pub capacity: usize,
    /// Whether the task that drains the queue still runs.
    pub alive: bool,
}

#[verifier::ext_equal]
pub struct QueueView {
    pub frames: Seq<FrameView>,
    pub capacity: usize,
    pub alive: bool,
}

impl View for ShardQueue {
    type V = QueueView;

    open spec fn view(&self) -> QueueView {
        QueueView {
            frames: self.frames@.map_values(|f: Frame| f@),
            capacity: self.capacity,
            alive: self.alive,
        }
    }
}

/// What became of a frame handed to a shard.
#[derive(Debug, Clone, Copy, PartialEq, Eq, Structural)]
pub enum Dispatch {
    Queued,
    /// The queue was full; the frame is dropped and counted.
    Full,
    /// The task behind the queue is gone; the frame is dropped.
    Closed,
}

/// What a queue does with one more frame.
pub open spec fn dispatch_outcome(q: QueueView) -> Dispatch {
    if !q.alive {
        Dispatch::Closed
    } else if q.frames.len() >= q.capacity {
        Dispatch::Full
    } else {
        Dispatch::Queued
    }
}

/// The queue after it was handed `f`.
pub open spec fn queue_after(q: QueueView, f: FrameView) -> QueueView {
    if dispatch_outcome(q) == Dispatch::Queued {
        QueueView { frames: q.frames.push(f), ..q }
    } else {
        q
    }
}

pub open spec fn queue_views(v: Seq<ShardQueue>) -> Seq<QueueView> {
    v.map_values(|q: ShardQueue| q@)
}

/// The counter of dropped frames after a dispatch.
pub open spec fn dropped_after(dropped: u64, d: Dispatch) -> u64 {
    if d == Dispatch::Full {
        if dropped == u64::MAX {
            0
        } else {
            (dropped + 1) as u64
        }
    } else {
        dropped
    }
}

/// Hands `frame` to the queue of shard `i`.
pub fn dispatch(shards: &mut Vec<ShardQueue>, i: usize, frame: Frame) -> (d: Dispatch)
    requires
        i < old(shards).len(),
    ensures
        d == dispatch_outcome(old(shards)@[i as int]@),
        queue_views(final(shards)@) == queue_views(old(shards)@).update(
            i as int,
            queue_after(old(shards)@[i as int]@, frame@),
        ),
{
    let ghost before = shards@;
    let mut q = shards.swap_remove(i);
    let d = if !q.alive {
        Dispatch::Closed
    } else if q.frames.len() >= q.capacity {
        Dispatch::Full
    } else {
        q.frames.push(frame);
        Dispatch::Queued
    };
    proof {
        assert(q@.frames =~= queue_after(before[i as int]@, frame@).frames);
        assert(q@ =~= queue_after(before[i as int]@, frame@));
    }
    put_back(shards, i, q);
    proof {
        assert(queue_views(shards@) =~= queue_views(before).update(i as int, q@));
    }
    d
}

/// Undoes a `swap_remove` at `i` with `q` in the place of what was removed.
fn put_back(shards: &mut Vec<ShardQueue>, i: usize, q: ShardQueue)
    requires
        i <= old(shards).len(),
    ensures
        i == old(shards).len() ==> final(shards)@ == old(shards)@.push(q),
        i < old(shards).len() ==> final(shards)@ == old(shards)@.update(i as int, q).push(
            old(shards)@[i as int],
        ),
{
    shards.push(q);
    let n: usize = shards.len() - 1;
    if i < n {
        let moved = shards.swap_remove(i);
        shards.push(moved);
    }
}

/// The counter of dropped frames, wrapping at its limit.
pub fn count_drop(dropped: u64, d: Dispatch) -> (r: u64)
    ensures
        r == dropped_after(dropped, d),
{
    match d {
        Dispatch::Full => dropped.wrapping_add(1),
        _ => dropped,
    }
}

/// A 64-bit polynomial hash of a text.
pub open spec fn text_hash(s: Seq<char>) -> u64
    decreases s.len(),
{
    if s.len() == 0 {
        0
    } else {
        ((text_hash(s.drop_last()) as int * 31 + s.last() as u32 as int) % 0x1_0000_0000_0000_0000) as u64
    }
}

/// Hashes a text.
pub fn hash_text(s: &str) -> (h: u64)
    ensures
        h == text_hash(s@),
{
    let x = chars_of(s);
    let mut h: u64 = 0;
    let mut i: usize = 0;
    assert(x@.take(0) =~= Seq::<char>::empty());
    while i < x.len()
        invariant
            i <= x.len(),
            x@ == s@,
            h == text_hash(s@.take(i as int)),
        decreases x.len() - i,
    {
        assert(s@.take(i + 1).drop_last() =~= s@.take(i as int));
        assert(s@.take(i + 1).last() == x@[i as int]);
        let c: char = x[i];
        let wide: u128 = h as u128 * 31 + (c as u32) as u128;
        h = (wide % 0x1_0000_0000_0000_0000) as u64;
        i += 1;
    }
    assert(s@.take(s@.len() as int) =~= s@);
    h
}

/// The shard that serves `key`.
pub open spec fn shard_index(key: Seq<char>, n_shards: int) -> int {
    text_hash(key) as int % n_shards
}

/// The shard that serves `key` among `n_shards`.
pub fn shard_for_key(key: &str, n_shards: usize) -> (i: usize)
    requires
        n_shards > 0,
    ensures
        i == shard_index(key@, n_shards as int),
        i < n_shards,
{
    (hash_text(key) % (n_shards as u64)) as usize
}

/// The hash by which peers name a node.
pub open spec fn id_hash(n: NodeView) -> u64 {
    text_hash(node_text(n))
}

impl NodeId {
    /// The hash by which peers name this node.
    pub fn id_hash(&self) -> (h: u64)
        ensures
            h == id_hash(self@),
    {
        hash_text(self.to_text().as_str())
    }
}

/// `fastrand::u64(1..)`: some number other than zero, which is reserved for
/// anti-entropy frames. Which number it is, is left to chance.
#[verifier::external_body]
pub(crate) fn fresh_nonce() -> (n: u64)
    ensures
        n >= 1,
{
    fastrand::u64(1..)
}

// ── Laws ─────────────────────────────────────────────────────────────────────

/// A queue takes a frame exactly if somebody drains it and it has room, and then at
/// its end; only a full queue makes a loss.
pub proof fn law_queue_takes_what_fits(q: QueueView, f: FrameView, dropped: u64)
    ensures
        q.alive && q.frames.len() < q.capacity ==> dispatch_outcome(q) == Dispatch::Queued && queue_after(q, f).frames
            == q.frames.push(f),
        !(q.alive && q.frames.len() < q.capacity) ==> dispatch_outcome(q) != Dispatch::Queued && queue_after(q, f)
            == q,
        dispatch_outcome(q) == Dispatch::Full <==> q.alive && q.frames.len() >= q.capacity,
        queue_after(q, f).capacity == q.capacity && queue_after(q, f).alive == q.alive,
        dropped < u64::MAX ==> dropped_after(dropped, dispatch_outcome(q)) == dropped + (if q.alive && q.frames.len()
            >= q.capacity {
            1int
        } else {
            0int
        }),
{
}

/// Every queue is used: for each there is a key that leads to it.
pub proof fn law_every_shard_is_used(n_shards: int, i: int)
    requires
        0 <= i < n_shards <= 0x8000,
    ensures
        exists|key: Seq<char>| #[trigger] shard_index(key, n_shards) == i,
        forall|key: Seq<char>| 0 <= #[trigger] shard_index(key, n_shards) < n_shards,
{
    let key = seq![i as char];
    assert(key.drop_last() =~= Seq::empty());
    assert(text_hash(key.drop_last()) == 0);
    assert((i as char) as u32 as int == i);
    assert(key.last() == i as char);
    assert(text_hash(key) == i);
    vstd::arithmetic::div_mod::lemma_small_mod(i as nat, n_shards as nat);
    assert(shard_index(key, n_shards) == i);
    assert forall|k: Seq<char>| 0 <= #[trigger] shard_index(k, n_shards) < n_shards by {
        vstd::arithmetic::div_mod::lemma_mod_bound(text_hash(k) as int, n_shards);
    }
}

/// A text hashes to thirty-one times what the text before its last character hashes to,
/// and that character's code, as far as fits into eight bytes.
pub proof fn law_hash_adds_character_by_character(s: Seq<char>, c: char)
    ensures
        text_hash(Seq::empty()) == 0,
        exists|laps: int|
            #[trigger] (laps * 0x1_0000_0000_0000_0000) + text_hash(s.push(c)) == 31 * text_hash(s) + c as u32,
{
    assert(s.push(c).drop_last() =~= s);
    let sum = text_hash(s) as int * 31 + c as u32 as int;
    let laps = sum / 0x1_0000_0000_0000_0000;
    assert((laps * 0x1_0000_0000_0000_0000) + text_hash(s.push(c)) == sum);
}

} // verus!
