//! Housekeeping: tombstone expiry and the ages that bound the node's memory.

use crate::agent::GossipAgent;
use crate::kv::{physical, physical_ms, KvHandle};
use crate::num::{sat_mul, sat_mul_spec, sat_sub_spec};
use crate::seen::{evicted, seen_since, SeenSet};
use crate::signals::{delivery_views, DeliveryView};
use crate::store::{store_entries, store_remove, Table};
use vstd::prelude::*;

verus! {

/// The pool size above which key interning is reported where no limit is set.
pub const DEFAULT_POOL_WARN: usize = 100_000;

/// How much of the seen-set an emergency trim keeps, in milliseconds.
pub const EMERGENCY_SEEN_MS: u64 = 60_000;

/// How long a delivery is remembered, in milliseconds.
pub const SENDER_LOG_MS: u64 = 600_000;

/// Seconds between two rounds: ten health intervals, and a minute at least.
pub open spec fn gc_interval_spec(interval_secs: u64) -> int {
    let t = sat_mul_spec(interval_secs as int, 10);
    if t > 60 {
        t
    } else {
        60
    }
}

/// Seconds between two rounds of housekeeping.
pub fn gc_interval_secs(interval_secs: u64) -> (s: u64)
    ensures
        s == gc_interval_spec(interval_secs),
{
    let t: u64 = sat_mul(interval_secs, 10);
    if t > 60 {
        t
    } else {
        60
    }
}

/// `windows` propagation windows of a frame, in milliseconds.
pub open spec fn window_ms(ttl: u8, propagation_window: u64, windows: u64) -> int {
    sat_mul_spec(
        sat_mul_spec(sat_mul_spec(ttl as int, propagation_window as int), windows as int),
        1000,
    )
}

/// The moment `windows` propagation windows before `now_ms`.
pub open spec fn cutoff_spec(now_ms: u64, ttl: u8, propagation_window: u64, windows: u64) -> int {
    sat_sub_spec(now_ms as int, window_ms(ttl, propagation_window, windows))
}

/// The moment `windows` propagation windows before `now_ms`.
pub fn cutoff(now_ms: u64, ttl: u8, propagation_window: u64, windows: u64) -> (c: u64)
    ensures
        c == cutoff_spec(now_ms, ttl, propagation_window, windows),
{
    let span: u64 = sat_mul(sat_mul(sat_mul(ttl as u64, propagation_window), windows), 1000);
    now_ms.saturating_sub(span)
}

/// The ages at which a round of housekeeping lets go of things.
#[derive(Debug, Clone, Copy, PartialEq, Eq, Structural)]
pub struct GcCutoffs {
    /// Tombstones written before this are dropped.
    pub tombstones: u64,
    /// Frames seen before this are forgotten.
    pub seen: u64,
    /// Where the seen-set is over its limit, frames seen before this are
    /// forgotten.
    pub seen_over_limit: u64,
    /// Where that was not enough, frames seen before this are forgotten.
    pub seen_emergency: u64,
}

/// The cutoffs of a round at `now_ms`: a tombstone outlives ten propagation
/// windows, a seen frame four, or two where the set is too large.
pub fn gc_cutoffs(now_ms: u64, ttl: u8, propagation_window: u64) -> (c: GcCutoffs)
    ensures
        c.tombstones == cutoff_spec(now_ms, ttl, propagation_window, 10),
        c.seen == cutoff_spec(now_ms, ttl, propagation_window, 4),
        c.seen_over_limit == cutoff_spec(now_ms, ttl, propagation_window, 2),
        c.seen_emergency == sat_sub_spec(now_ms as int, EMERGENCY_SEEN_MS as int),
        now_ms >= 60_000 ==> c.seen_emergency == now_ms - 60_000,
        now_ms < 60_000 ==> c.seen_emergency == 0,
{
    GcCutoffs {
        tombstones: cutoff(now_ms, ttl, propagation_window, 10),
        seen: cutoff(now_ms, ttl, propagation_window, 4),
        seen_over_limit: cutoff(now_ms, ttl, propagation_window, 2),
        seen_emergency: now_ms.saturating_sub(EMERGENCY_SEEN_MS),
    }
}

/// Whether the key intern pool has outgrown its limit: twice the configured
/// number of keys, or a fixed number where none is configured.
pub fn pool_too_large(pool_len: usize, intern_max_keys: usize) -> (r: bool)
    ensures
        r == (if intern_max_keys > 0 {
            pool_len > 2 * intern_max_keys
        } else {
            pool_len > DEFAULT_POOL_WARN
        }),
        intern_max_keys == 0 ==> (r <==> pool_len > 100_000),
{
    if intern_max_keys > 0 {
        if intern_max_keys > usize::MAX / 2 {
            false
        } else {
            pool_len > intern_max_keys * 2
        }
    } else {
        pool_len > DEFAULT_POOL_WARN
    }
}

/// The keys with a live value.
pub open spec fn live_keys(t: Table) -> Set<Seq<char>> {
    t.dom().filter(|k: Seq<char>| t[k].0 is Some)
}

/// The keys whose entry is a tombstone written before `cutoff`.
pub open spec fn expired_keys(t: Table, cutoff: u64) -> Set<Seq<char>> {
    t.dom().filter(|k: Seq<char>| t[k].0 is None && physical(t[k].1) < cutoff)
}

impl KvHandle {
    /// The number of keys with a live value.
    pub fn live_count(&self) -> (n: usize)
        ensures
            live_keys(self.table()).finite(),
            n == live_keys(self.table()).len(),
    {
        let keys = self.keys();
        proof {
            assert forall|k: Seq<char>| #[trigger] live_keys(self.table()).contains(k) implies exists|
                i: int,
            | 0 <= i < keys@.len() && (#[trigger] keys@[i])@ == k by {
                assert(crate::store::live(self.table(), k) is Some);
            }
            crate::textset::lemma_listing_len(keys@, live_keys(self.table()));
        }
        keys.len()
    }

    /// Drops the tombstones written before `tombstone_cutoff` (wall-clock
    /// milliseconds) and counts the live keys.
    pub fn sweep(&mut self, tombstone_cutoff: u64) -> (live: usize)
        requires
            old(self).wf(),
        ensures
            final(self).wf(),
            final(self).table() == old(self).table().remove_keys(
                expired_keys(old(self).table(), tombstone_cutoff),
            ),
            live_keys(final(self).table()) == live_keys(old(self).table()),
            live == live_keys(final(self).table()).len(),
            final(self).node_id == old(self).node_id,
            final(self).default_ttl == old(self).default_ttl,
            final(self).clock == old(self).clock,
            final(self).shards == old(self).shards,
            final(self).dropped_frames == old(self).dropped_frames,
    {
        let ghost t = self.table();
        let all = store_entries(&self.store);
        let mut gone: Vec<String> = Vec::new();
        let ghost mut src: Seq<int> = Seq::empty();
        let mut i: usize = 0;
        while i < all.len()
            invariant
                i <= all.len(),
                src.len() == gone@.len(),
                forall|j: int|
                    0 <= j < src.len() ==> 0 <= #[trigger] src[j] < i && gone@[j]@ == all@[src[j]].0@
                        && all@[src[j]].1@.0 is None && physical(all@[src[j]].1@.1)
                        < tombstone_cutoff,
                forall|a: int|
                    0 <= a < i && (#[trigger] all@[a]).1@.0 is None && physical(all@[a].1@.1)
                        < tombstone_cutoff ==> src.contains(a),
            decreases all.len() - i,
        {
            let ghost old_src = src;
            if all[i].1.data.is_none() && physical_ms(all[i].1.timestamp) < tombstone_cutoff {
                gone.push(all[i].0.clone());
                proof {
                    src = src.push(i as int);
                    assert(src[src.len() - 1] == i);
                    assert forall|a: int| old_src.contains(a) implies src.contains(a) by {
                        let j = choose|j: int| 0 <= j < old_src.len() && old_src[j] == a;
                        assert(src[j] == a);
                    }
                }
            }
            i += 1;
        }
        let ghost lost = expired_keys(t, tombstone_cutoff);
        let ghost names = crate::text::views(gone@);
        proof {
            assert forall|k: Seq<char>| lost.contains(k) <==> names.to_set().contains(k) by {
                if lost.contains(k) {
                    let m = choose|m: int| 0 <= m < all@.len() && #[trigger] all@[m].0@ == k;
                    assert(src.contains(m));
                    let j = choose|j: int| 0 <= j < src.len() && src[j] == m;
                    assert(names[j] == k);
                }
                if names.contains(k) {
                    let j = choose|j: int| 0 <= j < names.len() && names[j] == k;
                    assert(gone@[j]@ == all@[src[j]].0@);
                }
            }
            assert(lost =~= names.to_set());
            assert(t.remove_keys(names.take(0).to_set()) =~= t);
        }
        let mut n: usize = 0;
        while n < gone.len()
            invariant
                n <= gone.len(),
                names == crate::text::views(gone@),
                self.table() == t.remove_keys(names.take(n as int).to_set()),
                self.node_id == old(self).node_id,
                self.default_ttl == old(self).default_ttl,
                self.clock == old(self).clock,
                self.shards == old(self).shards,
                self.dropped_frames == old(self).dropped_frames,
            decreases gone.len() - n,
        {
            store_remove(&mut self.store, gone[n].as_str());
            proof {
                crate::textset::lemma_take_to_set(names, n as int);
                assert(self.table() =~= t.remove_keys(names.take(n + 1).to_set()));
            }
            n += 1;
        }
        proof {
            assert(names.take(n as int) =~= names);
            assert(live_keys(self.table()) =~= live_keys(t));
            assert forall|k: Seq<char>| #[trigger] self.table().contains_key(k) implies self.table()[k].1
                <= self.clock by {
                assert(t.contains_key(k));
            }
        }
        self.live_count()
    }
}

/// What a round of housekeeping found.
#[derive(Debug, Clone, Copy, PartialEq, Eq, Structural)]
pub struct GcReport {
    /// The keys with a live value.
    pub live_entries: usize,
    /// Whether so many frames were remembered that only those of the last
    /// minute stayed.
    pub seen_trimmed: bool,
}

impl GossipAgent {
    /// One round of housekeeping at `now_ms`: drops old tombstones, forgets old
    /// deliveries, and forgets the frames that no longer come around.
    pub fn collect_garbage(&mut self, seen: &mut SeenSet, max_seen_entries: usize, propagation_window: u64, now_ms: u64) -> (r: GcReport)
        requires
            old(self).mesh.wf(),
        ensures
            ({
                let ttl = old(self).mesh.kv.default_ttl;
                let c = GcCutoffs {
                    tombstones: cutoff_spec(now_ms, ttl, propagation_window, 10) as u64,
                    seen: cutoff_spec(now_ms, ttl, propagation_window, 4) as u64,
                    seen_over_limit: cutoff_spec(now_ms, ttl, propagation_window, 2) as u64,
                    seen_emergency: sat_sub_spec(now_ms as int, EMERGENCY_SEEN_MS as int) as u64,
                };
                &&& final(self).mesh.kv.table() == old(self).mesh.kv.table().remove_keys(
                    expired_keys(old(self).mesh.kv.table(), c.tombstones),
                )
                &&& final(seen).table() == evicted(old(seen).table(), max_seen_entries, c)
                &&& r.seen_trimmed == (seen_since(
                    old(seen).table(),
                    if old(seen).table().dom().len() > max_seen_entries {
                        c.seen_over_limit
                    } else {
                        c.seen
                    },
                ).dom().len() > max_seen_entries)
            }),
            r.live_entries == live_keys(final(self).mesh.kv.table()).len(),
            final(self).mesh.log.log() == old(self).mesh.log.log().filter(
                |d: DeliveryView| now_ms - d.2 <= SENDER_LOG_MS,
            ),
            delivery_views(final(self).mesh.log.seeded@) == delivery_views(old(self).mesh.log.seeded@).filter(
                |d: DeliveryView| now_ms - d.2 <= SENDER_LOG_MS,
            ),
            final(self).mesh.wf(),
            final(self).mesh.log.suppressions == old(self).mesh.log.suppressions,
            final(self).mesh.groups == old(self).mesh.groups,
            final(self).mesh.kv.node_id == old(self).mesh.kv.node_id,
            final(self).mesh.kv.default_ttl == old(self).mesh.kv.default_ttl,
            final(self).mesh.kv.clock == old(self).mesh.kv.clock,
            final(self).mesh.kv.shards == old(self).mesh.kv.shards,
            final(self).mesh.kv.dropped_frames == old(self).mesh.kv.dropped_frames,
            *final(self) == (GossipAgent { mesh: final(self).mesh, ..*old(self) }),
    {
        let c = gc_cutoffs(now_ms, self.mesh.kv.default_ttl, propagation_window);
        let live_entries: usize = self.mesh.kv.sweep(c.tombstones);
        self.mesh.log.trim(SENDER_LOG_MS, now_ms);
        let seen_trimmed = seen.evict(max_seen_entries, &c);
        GcReport { live_entries, seen_trimmed }
    }
}

// ── Laws ─────────────────────────────────────────────────────────────────────

/// Housekeeping never changes what a reader sees.
pub proof fn law_sweep_keeps_reads(t: Table, cutoff: u64, k: Seq<char>)
    ensures
        crate::store::live(t.remove_keys(expired_keys(t, cutoff)), k) == crate::store::live(t, k),
{
}

/// A cutoff lies as many propagation windows before now as it says, a window being
/// the hops of a frame times the seconds that one takes.
pub proof fn law_cutoff_is_so_many_windows_ago(now_ms: u64, ttl: u8, propagation_window: u64, windows: u64)
    requires
        windows >= 1,
    ensures
        cutoff_spec(now_ms, ttl, propagation_window, windows) >= 0,
        now_ms >= ttl * propagation_window * windows * 1000 ==> cutoff_spec(
            now_ms,
            ttl,
            propagation_window,
            windows,
        ) == now_ms - ttl * propagation_window * windows * 1000,
        now_ms < ttl * propagation_window * windows * 1000 ==> cutoff_spec(
            now_ms,
            ttl,
            propagation_window,
            windows,
        ) == 0,
{
    let a = ttl as int * propagation_window as int;
    let b = a * windows as int;
    assert(0 <= a <= b) by (nonlinear_arith)
        requires
            a == ttl as int * propagation_window as int,
            b == a * windows as int,
            windows >= 1,
            ttl >= 0,
            propagation_window >= 0,
    ;
    if a > u64::MAX {
        assert(u64::MAX as int * windows as int >= u64::MAX) by (nonlinear_arith)
            requires
                windows >= 1,
        ;
    }
}

/// Tombstones from before the cutoff go; younger ones and live entries stay as they
/// are.
pub proof fn law_only_old_tombstones_go(t: Table, cutoff: u64, k: Seq<char>)
    requires
        t.contains_key(k),
    ensures
        t[k].0 is Some ==> t.remove_keys(expired_keys(t, cutoff)).contains_key(k),
        t[k].0 is None && t[k].1 as int / 0x1_0000 >= cutoff ==> t.remove_keys(expired_keys(t, cutoff)).contains_key(k),
        t[k].0 is None && t[k].1 as int / 0x1_0000 < cutoff ==> !t.remove_keys(expired_keys(t, cutoff)).contains_key(k),
        t.remove_keys(expired_keys(t, cutoff)).contains_key(k) ==> t.remove_keys(expired_keys(t, cutoff))[k] == t[k],
{
}

/// The live keys are those that can be read.
pub proof fn law_live_keys_can_be_read(t: Table, k: Seq<char>)
    ensures
        live_keys(t).contains(k) <==> crate::store::live(t, k) is Some,
{
}

/// Housekeeping runs every ten health intervals, and once a minute at most.
pub proof fn law_housekeeping_interval(interval_secs: u64)
    requires
        interval_secs * 10 <= u64::MAX,
    ensures
        gc_interval_spec(interval_secs) >= 60,
        interval_secs * 10 >= 60 ==> gc_interval_spec(interval_secs) == interval_secs * 10,
        interval_secs * 10 < 60 ==> gc_interval_spec(interval_secs) == 60,
{
}

/// Deliveries are remembered for ten minutes.
pub proof fn law_deliveries_are_kept_for_ten_minutes(v: Seq<DeliveryView>, now_ms: u64, d: DeliveryView)
    ensures
        v.filter(|x: DeliveryView| now_ms - x.2 <= SENDER_LOG_MS).contains(d) <==> v.contains(d) && now_ms - d.2
            <= 600_000,
    decreases v.len(),
{
    reveal(Seq::filter);
    let keep = |x: DeliveryView| now_ms - x.2 <= SENDER_LOG_MS;
    if v.len() > 0 {
        let rest = v.drop_last();
        law_deliveries_are_kept_for_ten_minutes(rest, now_ms, d);
        let front = rest.filter(keep);
        let kept = v.filter(keep);
        if rest.contains(d) {
            let i = choose|i: int| 0 <= i < rest.len() && rest[i] == d;
            assert(v[i] == d);
        }
        if v.contains(d) {
            let i = choose|i: int| 0 <= i < v.len() && v[i] == d;
            if i < rest.len() {
                assert(rest[i] == d);
            }
        }
        assert(v[v.len() - 1] == v.last());
        if front.contains(d) {
            let i = choose|i: int| 0 <= i < front.len() && front[i] == d;
            assert(kept[i] == d);
        }
        if kept.contains(d) && !front.contains(d) {
            let i = choose|i: int| 0 <= i < kept.len() && kept[i] == d;
            if i < front.len() {
                assert(front[i] == d);
            }
        }
        if v.last() == d && keep(d) {
            assert(kept[front.len() as int] == d);
        }
    }
}

} // verus!
