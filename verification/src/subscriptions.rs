//! Subscriptions: what a change of the table tells those who wait for it.

use crate::agent::GossipAgent;
use crate::consensus::{committed_key, ConsensusHandle, COMMITTED_PREFIX};
use crate::kv::{hlc_next, wrote, KvHandle};
use crate::load::{decode_load_state, load_parts, load_prefix_of, LoadState, LOAD_PREFIX};
use crate::node_id::NodeId;
use crate::peers::{peer_table, peers_get, peers_insert, peers_new, PeerMap};
use crate::store::{data_view, lists_all, live, merged, store_entries, Table};
use crate::text::{has_prefix, join2, join3, starts_with, views};
use crate::wire::Dispatch;
use vstd::prelude::*;

verus! {

/// When `key` was last written or deleted.
pub open spec fn stamp_of(t: Table, key: Seq<char>) -> Option<u64> {
    if t.contains_key(key) {
        Some(t[key].1)
    } else {
        None
    }
}

/// Waits for writes of one key.
#[derive(Debug)]
pub struct KeySubscription {
    pub key: String,
    /// The value that was seen last, `None` if the key was absent or deleted.
    pub value: Option<Vec<u8>>,
    /// When that value was written.
    pub stamp: Option<u64>,
}

impl KeySubscription {
    /// What the subscriber knows is what the table holds.
    pub open spec fn settled(&self, t: Table) -> bool {
        &&& data_view(self.value) == live(t, self.key@)
        &&& self.stamp == stamp_of(t, self.key@)
    }

    /// Takes over what the table holds. `true` means that the subscriber is
    /// woken: the key was written or deleted since it last looked, be it with
    /// the value that it had.
    pub fn settle(&mut self, kv: &KvHandle) -> (woken: bool)
        ensures
            final(self).settled(kv.table()),
            final(self).key == old(self).key,
            woken == (kv.table().contains_key(old(self).key@) && stamp_of(kv.table(), old(self).key@)
                != old(self).stamp),
    {
        let stamp = kv.written_at(self.key.as_str());
        let woken = match (stamp, self.stamp) {
            (None, _) => false,
            (Some(_), None) => true,
            (Some(a), Some(b)) => a != b,
        };
        self.value = kv.get(self.key.as_str());
        self.stamp = stamp;
        woken
    }
}

/// Whether `key` has the prefix and was written since `seen` was taken.
pub open spec fn newly_written(t: Table, seen: PeerMap, prefix: Seq<char>, key: Seq<char>) -> bool {
    &&& has_prefix(key, prefix)
    &&& t.contains_key(key)
    &&& !(seen.contains_key(key) && seen[key] == t[key].1)
}

/// What is known of a key after a look at the table.
pub open spec fn seen_after(t: Table, seen: PeerMap, prefix: Seq<char>, key: Seq<char>) -> Option<u64> {
    if has_prefix(key, prefix) && t.contains_key(key) {
        Some(t[key].1)
    } else if seen.contains_key(key) {
        Some(seen[key])
    } else {
        None
    }
}

/// The keys under a prefix, with the time at which each was written when it
/// was last looked at.
pub struct PrefixTrail {
    pub prefix: String,
    pub seen: papaya::HashMap<String, u64>,
}

impl PrefixTrail {
    pub open spec fn stamps(&self) -> PeerMap {
        peer_table(self.seen)
    }

    /// Nothing under the prefix was written since the last look.
    pub open spec fn settled(&self, t: Table) -> bool {
        forall|k: Seq<char>| !#[trigger] newly_written(t, self.stamps(), self.prefix@, k)
    }

    /// The keys under the prefix that were written or deleted since the last
    /// look, once each, in no particular order.
    pub fn written(&mut self, kv: &KvHandle) -> (r: Vec<String>)
        ensures
            final(self).prefix == old(self).prefix,
            final(self).settled(kv.table()),
            views(r@).no_duplicates(),
            forall|k: Seq<char>| #[trigger]
                views(r@).contains(k) <==> newly_written(kv.table(), old(self).stamps(), old(self).prefix@, k),
            forall|k: Seq<char>|
                seen_after(kv.table(), old(self).stamps(), old(self).prefix@, k) == (if #[trigger]
                final(self).stamps().contains_key(k) {
                    Some(final(self).stamps()[k])
                } else {
                    None
                }),
    {
        let ghost t = kv.table();
        let ghost s0 = self.stamps();
        let ghost p = self.prefix@;
        let all = store_entries(&kv.store);
        let ghost mut src: Seq<int> = Seq::empty();
        let mut out: Vec<String> = Vec::new();
        let mut i: usize = 0;
        while i < all.len()
            invariant
                i <= all.len(),
                t == kv.table(),
                lists_all(all@, t),
                p == self.prefix@,
                self.prefix == old(self).prefix,
                src.len() == out@.len(),
                forall|j: int|
                    0 <= j < src.len() ==> 0 <= #[trigger] src[j] < i && out@[j]@ == all@[src[j]].0@
                        && newly_written(t, s0, p, out@[j]@),
                forall|j: int, k: int| 0 <= j < k < src.len() ==> src[j] < src[k],
                forall|a: int| 0 <= a < i && newly_written(t, s0, p, (#[trigger] all@[a]).0@) ==> src.contains(a),
                forall|k: Seq<char>|
                    (if has_prefix(k, p) && exists|a: int| 0 <= a < i && (#[trigger] all@[a]).0@ == k {
                        Some(t[k].1)
                    } else if s0.contains_key(k) {
                        Some(s0[k])
                    } else {
                        None
                    }) == (if #[trigger] self.stamps().contains_key(k) {
                        Some(self.stamps()[k])
                    } else {
                        None
                    }),
            decreases all.len() - i,
        {
            let ghost key = all@[i as int].0@;
            let ghost old_src = src;
            let ghost s1 = self.stamps();
            assert(t.contains_key(key) && t[key] == all@[i as int].1@);
            assert(forall|a: int| 0 <= a < i ==> (#[trigger] all@[a]).0@ != key);
            if starts_with(all[i].0.as_str(), self.prefix.as_str()) {
                let known = peers_get(&self.seen, all[i].0.as_str());
                let stamp: u64 = all[i].1.timestamp;
                assert(s1.contains_key(key) == s0.contains_key(key));
                let fresh = match known {
                    Some(n) => n != stamp,
                    None => true,
                };
                assert(fresh == newly_written(t, s0, p, key));
                if fresh {
                    let ghost old_out = out@;
                    out.push(all[i].0.clone());
                    proof {
                        src = src.push(i as int);
                        assert(src[src.len() - 1] == i);
                        assert forall|j: int| 0 <= j < src.len() implies 0 <= #[trigger] src[j] < i + 1
                            && out@[j]@ == all@[src[j]].0@ && newly_written(t, s0, p, out@[j]@) by {
                            if j < old_src.len() {
                                assert(src[j] == old_src[j]);
                                assert(out@[j] == old_out[j]);
                            }
                        }
                        assert forall|a: int| old_src.contains(a) implies src.contains(a) by {
                            let j = choose|j: int| 0 <= j < old_src.len() && old_src[j] == a;
                            assert(src[j] == a);
                        }
                    }
                }
                peers_insert(&mut self.seen, all[i].0.clone(), stamp);
            }
            proof {
                assert forall|k: Seq<char>|
                    (if has_prefix(k, p) && exists|a: int| 0 <= a < i + 1 && (#[trigger] all@[a]).0@ == k {
                        Some(t[k].1)
                    } else if s0.contains_key(k) {
                        Some(s0[k])
                    } else {
                        None
                    }) == (if #[trigger] self.stamps().contains_key(k) {
                        Some(self.stamps()[k])
                    } else {
                        None
                    }) by {
                    assert(s1.contains_key(k) || !s1.contains_key(k));
                    if k != key && exists|a: int| 0 <= a < i + 1 && (#[trigger] all@[a]).0@ == k {
                        let a = choose|a: int| 0 <= a < i + 1 && (#[trigger] all@[a]).0@ == k;
                        assert(a < i);
                    }
                    if k == key {
                        assert(all@[i as int].0@ == k);
                    }
                }
            }
            i += 1;
        }
        proof {
            let r = views(out@);
            assert forall|x: int, y: int| 0 <= x < r.len() && 0 <= y < r.len() && x != y implies r[x] != r[y] by {
                let (a, b) = if x < y {
                    (x, y)
                } else {
                    (y, x)
                };
                assert(src[a] < src[b]);
                assert(all@[src[a]].0@ != all@[src[b]].0@);
            }
            assert forall|k: Seq<char>| #[trigger] r.contains(k) <==> newly_written(t, s0, p, k) by {
                if r.contains(k) {
                    let j = choose|j: int| 0 <= j < r.len() && r[j] == k;
                    assert(0 <= src[j]);
                }
                if newly_written(t, s0, p, k) {
                    let m = choose|m: int| 0 <= m < all@.len() && #[trigger] all@[m].0@ == k;
                    assert(src.contains(m));
                    let j = choose|j: int| 0 <= j < src.len() && src[j] == m;
                    assert(r[j] == k);
                }
            }
            assert forall|k: Seq<char>|
                seen_after(t, s0, p, k) == (if #[trigger] self.stamps().contains_key(k) {
                    Some(self.stamps()[k])
                } else {
                    None
                }) by {
                if t.contains_key(k) {
                    let m = choose|m: int| 0 <= m < all@.len() && #[trigger] all@[m].0@ == k;
                }
            }
            assert forall|k: Seq<char>| !#[trigger] newly_written(t, self.stamps(), p, k) by {
                if has_prefix(k, p) && t.contains_key(k) {
                    assert(seen_after(t, s0, p, k) == Some(t[k].1));
                    assert(self.stamps().contains_key(k));
                }
            }
        }
        out
    }
}

/// Counts the writes of the keys under a prefix.
#[derive(Debug)]
pub struct PrefixSubscription {
    pub prefix: String,
    pub count: u64,
}

impl PrefixSubscription {
    /// Takes note of a write or a deletion of `key`. `true` means that the
    /// subscriber is woken, with a count that went up by one.
    pub fn notice(&mut self, key: &str) -> (woken: bool)
        ensures
            woken == has_prefix(key@, old(self).prefix@),
            final(self).prefix == old(self).prefix,
            final(self).count == (if woken {
                counted(old(self).count)
            } else {
                old(self).count
            }),
    {
        let woken = starts_with(key, self.prefix.as_str());
        if woken {
            self.count = count_up(self.count);
        }
        woken
    }
}

/// The count after one more write; it starts again behind the highest number.
pub open spec fn counted(n: u64) -> u64 {
    if n == u64::MAX {
        0
    } else {
        (n + 1) as u64
    }
}

fn count_up(n: u64) -> (r: u64)
    ensures
        r == counted(n),
        r != n,
{
    if n == u64::MAX {
        0
    } else {
        n + 1
    }
}

/// Counts the writes of the keys under a prefix that a predicate accepts.
pub struct PredicateSubscription<F> {
    pub prefix: String,
    pub predicate: F,
    pub count: u64,
}

impl<F: Fn(&str) -> bool> PredicateSubscription<F> {
    /// The predicate can be asked of every key.
    pub open spec fn wf(&self) -> bool {
        forall|k: &str| #[trigger] self.predicate.requires((k,))
    }

    /// Takes note of a write or a deletion of `key`. `true` means that the
    /// subscriber is woken, with a count that went up by one: the key has the
    /// prefix, and the predicate accepts it.
    pub fn notice(&mut self, key: &str) -> (woken: bool)
        requires
            old(self).wf(),
        ensures
            final(self).wf(),
            !has_prefix(key@, old(self).prefix@) ==> !woken,
            has_prefix(key@, old(self).prefix@) ==> old(self).predicate.ensures((key,), woken),
            final(self).prefix == old(self).prefix,
            final(self).predicate == old(self).predicate,
            final(self).count == (if woken {
                counted(old(self).count)
            } else {
                old(self).count
            }),
    {
        if !starts_with(key, self.prefix.as_str()) {
            return false;
        }
        let woken = (self.predicate)(key);
        if woken {
            self.count = count_up(self.count);
        }
        woken
    }
}

impl KvHandle {
    /// Subscribes to the writes of `key`. What the subscriber knows first is
    /// what the table holds.
    pub fn subscribe(&self, key: &str) -> (s: KeySubscription)
        ensures
            s.key@ == key@,
            s.settled(self.table()),
    {
        KeySubscription { key: key.to_owned(), value: self.get(key), stamp: self.written_at(key) }
    }

    /// Subscribes to the writes of the keys that begin with `prefix`.
    pub fn subscribe_prefix(&self, prefix: &str) -> (s: PrefixSubscription)
        ensures
            s.prefix@ == prefix@,
            s.count == 0,
    {
        PrefixSubscription { prefix: prefix.to_owned(), count: 0 }
    }

    /// Subscribes to the writes of the keys that begin with `prefix` and that
    /// `predicate` accepts.
    pub fn subscribe_prefix_with_predicate<F: Fn(&str) -> bool>(&self, prefix: &str, predicate: F) -> (s: PredicateSubscription<F>)
        requires
            forall|k: &str| #[trigger] predicate.requires((k,)),
        ensures
            s.wf(),
            s.prefix@ == prefix@,
            s.predicate == predicate,
            s.count == 0,
    {
        PredicateSubscription { prefix: prefix.to_owned(), predicate, count: 0 }
    }

    /// Begins to follow the keys under `prefix`: what is there now counts as
    /// seen.
    pub fn follow_prefix(&self, prefix: &str) -> (r: PrefixTrail)
        ensures
            r.prefix@ == prefix@,
            r.settled(self.table()),
            forall|k: Seq<char>| #[trigger]
                r.stamps().contains_key(k) <==> has_prefix(k, prefix@) && self.table().contains_key(k),
            forall|k: Seq<char>| #[trigger] r.stamps().contains_key(k) ==> r.stamps()[k] == self.table()[k].1,
    {
        let mut r = PrefixTrail { prefix: prefix.to_owned(), seen: peers_new() };
        let ghost t = self.table();
        let ghost none = r.stamps();
        let _ = r.written(self);
        assert forall|k: Seq<char>| (#[trigger] r.stamps().contains_key(k) <==> has_prefix(k, prefix@)
            && t.contains_key(k)) && (r.stamps().contains_key(k) ==> r.stamps()[k] == t[k].1) by {
            assert(seen_after(t, none, prefix@, k) == (if has_prefix(k, prefix@) && t.contains_key(k) {
                Some(t[k].1)
            } else {
                None
            }));
        }
        r
    }
}

impl ConsensusHandle {
    /// Subscribes to what is committed for `slot`.
    pub fn consensus_rx(&self, slot: &str) -> (s: KeySubscription)
        ensures
            s.key@ == committed_key(slot@),
            s.settled(self.table()),
    {
        self.mesh.kv.subscribe(join2(COMMITTED_PREFIX, slot).as_str())
    }
}

/// Waits for the load mark of a node for one kind of signal.
#[derive(Debug)]
pub struct LoadSubscription {
    pub raw: KeySubscription,
}

impl LoadSubscription {
    /// The mark that was seen last, `None` if there was none.
    pub fn state(&self) -> (r: Option<LoadState>)
        ensures
            r is Some <==> (data_view(self.raw.value) matches Some(v) && load_parts(v) is Some),
            r matches Some(s) ==> load_parts(data_view(self.raw.value)->0) == Some(
                (s.fill@, s.is_opaque, s.written_at_ms),
            ),
    {
        match &self.raw.value {
            None => None,
            Some(v) => decode_load_state(v),
        }
    }

    /// Takes over what the table holds. `true` means that the subscriber is
    /// woken.
    pub fn settle(&mut self, kv: &KvHandle) -> (woken: bool)
        ensures
            final(self).raw.settled(kv.table()),
            final(self).raw.key == old(self).raw.key,
            woken == (kv.table().contains_key(old(self).raw.key@) && stamp_of(kv.table(), old(self).raw.key@)
                != old(self).raw.stamp),
    {
        self.raw.settle(kv)
    }
}

impl GossipAgent {
    /// Subscribes to the load mark of `node_id` for `kind`.
    pub fn peer_load_rx(&self, node_id: &NodeId, kind: &str) -> (s: LoadSubscription)
        ensures
            s.raw.key@ == load_prefix_of(node_id@) + kind@,
            s.raw.settled(self.mesh.kv.table()),
    {
        let node = node_id.to_text();
        let key = join2(join3(LOAD_PREFIX, node.as_str(), "/").as_str(), kind);
        LoadSubscription { raw: self.mesh.kv.subscribe(key.as_str()) }
    }
}

// ── Laws ─────────────────────────────────────────────────────────────────────

/// A local write or deletion wakes who subscribed to the key, whatever value it
/// had, and nobody who subscribed to another key.
pub proof fn law_write_wakes_its_subscribers(
    pre: KvHandle,
    post: KvHandle,
    key: Seq<char>,
    data: Option<Seq<u8>>,
    now_ms: u64,
    d: Dispatch,
    s: KeySubscription,
)
    requires
        pre.wf(),
        pre.clock < u64::MAX,
        wrote(pre, post, key, data, now_ms, d),
        s.settled(pre.table()),
    ensures
        (post.table().contains_key(s.key@) && stamp_of(post.table(), s.key@) != s.stamp) <==> s.key@ == key,
        s.key@ == key ==> live(post.table(), s.key@) == data,
        s.key@ != key ==> s.settled(post.table()),
{
    if s.key@ == key {
        assert(hlc_next(pre.clock, now_ms) > pre.clock);
    } else {
        assert(post.table().contains_key(s.key@) == pre.table().contains_key(s.key@));
    }
}

/// A write of a peer wakes who subscribed to the key exactly if it is newer
/// than what the table had.
pub proof fn law_newer_write_wakes(t: Table, key: Seq<char>, data: Option<Seq<u8>>, timestamp: u64, s: KeySubscription)
    requires
        s.settled(t),
    ensures
        ({
            let after = merged(t, key, (data, timestamp));
            (after.contains_key(s.key@) && stamp_of(after, s.key@) != s.stamp) <==> (s.key@ == key && (
            !t.contains_key(key) || timestamp > t[key].1))
        }),
{
}

/// A local write or deletion of a key under a prefix is the one that those who
/// follow the prefix find; a write elsewhere is not found.
pub proof fn law_write_is_found_under_its_prefix(
    pre: KvHandle,
    post: KvHandle,
    key: Seq<char>,
    data: Option<Seq<u8>>,
    now_ms: u64,
    d: Dispatch,
    trail: PrefixTrail,
)
    requires
        pre.wf(),
        pre.clock < u64::MAX,
        wrote(pre, post, key, data, now_ms, d),
        trail.settled(pre.table()),
        forall|k: Seq<char>| #[trigger] trail.stamps().contains_key(k) ==> trail.stamps()[k] <= pre.clock,
    ensures
        forall|k: Seq<char>| #[trigger]
            newly_written(post.table(), trail.stamps(), trail.prefix@, k) <==> k == key && has_prefix(
                key,
                trail.prefix@,
            ),
{
    assert(hlc_next(pre.clock, now_ms) > pre.clock);
    assert forall|k: Seq<char>| #[trigger]
        newly_written(post.table(), trail.stamps(), trail.prefix@, k) <==> k == key && has_prefix(
            key,
            trail.prefix@,
        ) by {
        if k != key {
            assert(!newly_written(pre.table(), trail.stamps(), trail.prefix@, k));
            assert(post.table().contains_key(k) == pre.table().contains_key(k));
        }
    }
}

/// Every change counts once.
pub proof fn law_changes_are_counted(n: u64)
    requires
        n < 0xffff_ffff_ffff_ffff,
    ensures
        counted(n) == n + 1,
{
}

/// A subscriber that has settled knows the value of its key, and that the key is absent
/// or deleted where it is.
pub proof fn law_settled_subscriber_knows_the_value(t: Table, s: KeySubscription)
    requires
        s.settled(t),
    ensures
        s.value is Some <==> live(t, s.key@) is Some,
        s.value is Some ==> live(t, s.key@) == Some(s.value->0@),
        s.stamp is Some <==> t.contains_key(s.key@),
        s.stamp is Some ==> s.stamp->0 == t[s.key@].1,
{
}

} // verus!
