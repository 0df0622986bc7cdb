//! One round of the health monitor: whom to ping, whom to tell of a changed
//! peer list, whom to forget.

use crate::gossip::{random_below, SendResult, SendStep};
use crate::node_id::{node_text, NodeId};
use crate::num::{sat_mul, sat_mul_spec};
use crate::peers::{heard_before, heard_since, PeerMap, Peers};
use crate::text::views;
use crate::textset::{
    lists_set, same_set, set_extend, set_items, set_new, set_remove, text_set,
};
use vstd::prelude::*;

verus! {

/// The bound below which the first round is delayed at random: the configured
/// limit, or half the interval where none is set.
pub open spec fn jitter_limit(interval_secs: u64, max_jitter_ms: u64) -> int {
    let m = if max_jitter_ms > 0 {
        max_jitter_ms as int
    } else {
        interval_secs * 500
    };
    if m > 1 {
        m
    } else {
        1
    }
}

/// The bound below which the first round is delayed at random.
pub fn jitter_bound(interval_secs: u64, max_jitter_ms: u64) -> (ms: u64)
    requires
        max_jitter_ms > 0 || interval_secs * 500 <= u64::MAX,
    ensures
        ms == jitter_limit(interval_secs, max_jitter_ms),
        ms >= 1,
{
    let m: u64 = if max_jitter_ms > 0 {
        max_jitter_ms
    } else {
        interval_secs * 500
    };
    if m > 1 {
        m
    } else {
        1
    }
}

/// What the health monitor remembers between rounds.
pub struct HealthMonitor {
    /// The text of this node.
    pub me: String,
    pub bootstrap: ahash::AHashSet<String>,
    /// The peers that the peer list was last made from.
    pub last_peers: ahash::AHashSet<String>,
    pub ping_targets: ahash::AHashSet<String>,
}

impl HealthMonitor {
    /// Who is pinged when `peers` are known: they and the bootstrap peers,
    /// but never the node itself.
    pub open spec fn targets_for(&self, peers: Set<Seq<char>>) -> Set<Seq<char>> {
        text_set(self.bootstrap).union(peers).remove(self.me@)
    }

    /// The ping targets fit the peers seen last.
    pub open spec fn wf(&self) -> bool {
        text_set(self.ping_targets) == self.targets_for(text_set(self.last_peers))
    }

    /// A monitor that has seen no peers yet.
    pub fn new(node: &NodeId, bootstrap: &Vec<String>) -> (m: HealthMonitor)
        ensures
            m.wf(),
            m.me@ == node_text(node@),
            text_set(m.bootstrap) == views(bootstrap@).to_set(),
            text_set(m.last_peers) == Set::<Seq<char>>::empty(),
    {
        let me = node.to_text();
        let mut boot = set_new();
        set_extend(&mut boot, bootstrap, bootstrap.len());
        let mut targets = set_new();
        set_extend(&mut targets, bootstrap, bootstrap.len());
        let _ = set_remove(&mut targets, me.as_str());
        proof {
            assert(views(bootstrap@).take(bootstrap@.len() as int) =~= views(bootstrap@));
            assert(text_set(boot) =~= views(bootstrap@).to_set());
            assert(text_set(boot).union(Set::empty()) =~= text_set(boot));
        }
        HealthMonitor { me, bootstrap: boot, last_peers: set_new(), ping_targets: targets }
    }

    /// Takes note of the peers known now. Where they are not those of the
    /// last round, returns the new peer list and renews the ping targets.
    pub fn observe(&mut self, peers: &Peers) -> (changed: Option<Vec<String>>)
        requires
            old(self).wf(),
        ensures
            final(self).wf(),
            final(self).me == old(self).me,
            final(self).bootstrap == old(self).bootstrap,
            text_set(final(self).last_peers) == peers.table().dom(),
            text_set(final(self).ping_targets) == old(self).targets_for(peers.table().dom()),
            changed is None <==> text_set(old(self).last_peers) == peers.table().dom(),
            changed matches Some(list) ==> lists_set(list@, peers.table().dom()),
    {
        let names = peer_names(peers);
        proof {
            crate::textset::lemma_listing_len(names@, peers.table().dom());
            assert(views(names@).take(names@.len() as int) =~= views(names@));
        }
        let mut current = set_new();
        set_extend(&mut current, &names, names.len());
        assert(text_set(current) =~= peers.table().dom());
        if same_set(&current, &self.last_peers) {
            return None;
        }
        let boot = set_items(&self.bootstrap);
        let mut targets = set_new();
        set_extend(&mut targets, &boot, boot.len());
        proof {
            crate::textset::lemma_listing_len(boot@, text_set(self.bootstrap));
            assert(views(boot@).take(boot@.len() as int) =~= views(boot@));
            assert(text_set(targets) =~= text_set(self.bootstrap));
        }
        set_extend(&mut targets, &names, names.len());
        let _ = set_remove(&mut targets, self.me.as_str());
        self.ping_targets = targets;
        self.last_peers = current;
        Some(names)
    }
}

/// The texts of the known peers, in no particular order.
pub fn peer_names(peers: &Peers) -> (r: Vec<String>)
    ensures
        lists_set(r@, peers.table().dom()),
{
    let all = peers.entries();
    let mut out: Vec<String> = Vec::new();
    let mut i: usize = 0;
    while i < all.len()
        invariant
            i <= all.len(),
            out@.len() == i,
            forall|k: int| 0 <= k < i ==> (#[trigger] out@[k])@ == all@[k].0@,
        decreases all.len() - i,
    {
        out.push(all[i].0.clone());
        i += 1;
    }
    proof {
        assert forall|t: Seq<char>| #[trigger] peers.table().dom().contains(t) implies exists|i: int|
            0 <= i < out@.len() && (#[trigger] out@[i])@ == t by {
            assert(peers.table().contains_key(t));
            let m = choose|m: int| 0 <= m < all@.len() && #[trigger] all@[m].0@ == t;
            assert(out@[m]@ == t);
        }
        assert forall|i: int| 0 <= i < out@.len() implies peers.table().dom().contains(
            (#[trigger] out@[i])@,
        ) by {
            assert(peers.table().contains_key(all@[i].0@));
        }
        assert forall|i: int, j: int| 0 <= i < j < out@.len() implies (#[trigger] out@[i])@
            != (#[trigger] out@[j])@ by {
            assert(all@[i].0@ != all@[j].0@);
        }
    }
    out
}

// ── Peer sampling ────────────────────────────────────────────────────────────

/// `s` with the items at `i` and `j` exchanged.
pub open spec fn exchanged<A>(s: Seq<A>, i: int, j: int) -> Seq<A> {
    s.update(i, s[j]).update(j, s[i])
}

/// `s` after the first `k` steps of a shuffle: step `i` exchanges the items
/// at `i` and `i + picks[i]`.
pub open spec fn shuffled<A>(s: Seq<A>, picks: Seq<usize>, k: nat) -> Seq<A>
    decreases k,
{
    if k == 0 {
        s
    } else {
        let t = shuffled(s, picks, (k - 1) as nat);
        exchanged(t, k - 1, k - 1 + picks[k - 1])
    }
}

/// Moves one item after the other to the front, as `picks` say, and keeps
/// those.
pub fn sample_by(known: Vec<String>, picks: &Vec<usize>) -> (out: Vec<String>)
    requires
        picks@.len() <= known@.len(),
        forall|i: int| 0 <= i < picks@.len() ==> i + #[trigger] picks@[i] < known@.len(),
    ensures
        views(out@) == shuffled(views(known@), picks@, picks@.len()).take(picks@.len() as int),
{
    let ghost start = views(known@);
    let mut v = known;
    let total: usize = v.len();
    let mut i: usize = 0;
    while i < picks.len()
        invariant
            i <= picks@.len() <= v@.len(),
            v@.len() == start.len() == total,
            views(v@) == shuffled(start, picks@, i as nat),
            forall|j: int| 0 <= j < picks@.len() ==> j + #[trigger] picks@[j] < start.len(),
        decreases picks.len() - i,
    {
        let ghost before = v@;
        let j: usize = i + picks[i];
        let a = v[i].clone();
        let b = v[j].clone();
        v.set(i, b);
        v.set(j, a);
        proof {
            assert(views(v@) =~= exchanged(views(before), i as int, j as int));
        }
        i += 1;
    }
    let mut out: Vec<String> = Vec::new();
    let mut n: usize = 0;
    while n < picks.len()
        invariant
            n <= picks@.len() <= v@.len(),
            out@.len() == n,
            forall|k: int| 0 <= k < n ==> (#[trigger] out@[k])@ == v@[k]@,
        decreases picks.len() - n,
    {
        out.push(v[n].clone());
        n += 1;
    }
    assert(views(out@) =~= views(v@).take(picks@.len() as int));
    out
}

/// A shuffle neither loses nor doubles an item.
pub proof fn law_shuffle_permutes<A>(s: Seq<A>, picks: Seq<usize>, k: nat)
    requires
        k <= picks.len() <= s.len(),
        forall|i: int| 0 <= i < picks.len() ==> i + #[trigger] picks[i] < s.len(),
        s.no_duplicates(),
    ensures
        shuffled(s, picks, k).len() == s.len(),
        shuffled(s, picks, k).no_duplicates(),
        shuffled(s, picks, k).to_set() == s.to_set(),
    decreases k,
{
    if k > 0 {
        law_shuffle_permutes(s, picks, (k - 1) as nat);
        let t = shuffled(s, picks, (k - 1) as nat);
        let i = k - 1;
        let j = k - 1 + picks[k - 1];
        let u = exchanged(t, i, j);
        assert forall|x: A| u.to_set().contains(x) <==> t.to_set().contains(x) by {
            if u.contains(x) {
                let q = choose|q: int| 0 <= q < u.len() && u[q] == x;
                let back = if q == j {
                    i
                } else if q == i {
                    j
                } else {
                    q
                };
                assert(t[back] == x);
            }
            if t.contains(x) {
                let q = choose|q: int| 0 <= q < t.len() && t[q] == x;
                let there = if q == j {
                    i
                } else if q == i {
                    j
                } else {
                    q
                };
                assert(u[there] == x);
            }
        }
        assert(u.to_set() =~= t.to_set());
    }
}

/// At most `n` of the known peers, chosen at random, none twice.
pub fn sample_known(peers: &Peers, n: usize) -> (out: Vec<String>)
    ensures
        peers.table().dom().finite(),
        out@.len() == (if n < peers.table().dom().len() {
            n as int
        } else {
            peers.table().dom().len() as int
        }),
        views(out@).no_duplicates(),
        views(out@).to_set().subset_of(peers.table().dom()),
{
    let known = peer_names(peers);
    proof {
        crate::textset::lemma_listing_len(known@, peers.table().dom());
    }
    let k: usize = if n < known.len() {
        n
    } else {
        known.len()
    };
    let mut picks: Vec<usize> = Vec::new();
    let mut i: usize = 0;
    while i < k
        invariant
            i <= k <= known@.len(),
            picks@.len() == i,
            forall|j: int| 0 <= j < i ==> j + #[trigger] picks@[j] < known@.len(),
        decreases k - i,
    {
        picks.push(random_below(known.len() - i));
        i += 1;
    }
    let ghost all = views(known@);
    let out = sample_by(known, &picks);
    proof {
        law_shuffle_permutes(all, picks@, picks@.len());
        let s = shuffled(all, picks@, picks@.len());
        assert(views(out@) == s.take(k as int));
        assert forall|x: Seq<char>| views(out@).to_set().contains(x) implies all.to_set().contains(
            x,
        ) by {
            let q = choose|q: int| 0 <= q < views(out@).len() && views(out@)[q] == x;
            assert(s[q] == x);
            assert(s.to_set().contains(x));
        }
    }
    out
}

// ── Eviction ─────────────────────────────────────────────────────────────────

/// The time before which a peer counts as lost, `None` while the node has not
/// run for a whole eviction window.
pub open spec fn eviction_cutoff(now_ms: u64, interval_secs: u64, intervals: u64) -> Option<u64> {
    let window = sat_mul_spec(interval_secs as int, intervals as int) * 1000;
    if window <= now_ms {
        Some((now_ms - window) as u64)
    } else {
        None
    }
}

/// Forgets the peers that were silent for `intervals` rounds, and names them.
pub fn evict_silent(
    peers: &mut Peers,
    now_ms: u64,
    interval_secs: u64,
    intervals: u64,
) -> (gone: Vec<String>)
    ensures
        eviction_cutoff(now_ms, interval_secs, intervals) is None ==> gone@.len() == 0
            && final(peers).table() == old(peers).table(),
        eviction_cutoff(now_ms, interval_secs, intervals) matches Some(c) ==> final(peers).table()
            == old(peers).table().restrict(heard_since(old(peers).table(), c)) && lists_set(
            gone@,
            heard_before(old(peers).table(), c),
        ),
{
    let window: u128 = sat_mul(interval_secs, intervals) as u128 * 1000;
    if window > now_ms as u128 {
        return Vec::new();
    }
    peers.forget_before(now_ms - window as u64)
}

/// Decides what follows an attempt to hand a ping to a peer's writer. A lost
/// ping is not counted; only a closed writer is replaced, and only once.
pub fn after_ping(r: SendResult, first_attempt: bool) -> (step: SendStep)
    ensures
        r == SendResult::Closed && first_attempt ==> step == SendStep::RespawnAndRetry,
        !(r == SendResult::Closed && first_attempt) ==> step == SendStep::Done,
{
    match r {
        SendResult::Closed => if first_attempt {
            SendStep::RespawnAndRetry
        } else {
            SendStep::Done
        },
        _ => SendStep::Done,
    }
}

/// A node never pings itself, and pings every other peer it knows.
pub proof fn law_ping_targets(m: HealthMonitor)
    requires
        m.wf(),
    ensures
        !text_set(m.ping_targets).contains(m.me@),
        forall|p: Seq<char>|
            p != m.me@ && (text_set(m.last_peers).contains(p) || text_set(m.bootstrap).contains(p))
                ==> #[trigger] text_set(m.ping_targets).contains(p),
{
}

/// A peer heard within the eviction window is never forgotten.
pub proof fn law_recent_peer_stays(
    before: PeerMap,
    after: PeerMap,
    now_ms: u64,
    interval_secs: u64,
    intervals: u64,
    p: Seq<char>,
)
    requires
        before.contains_key(p),
        now_ms <= before[p] + sat_mul_spec(interval_secs as int, intervals as int) * 1000,
        eviction_cutoff(now_ms, interval_secs, intervals) is None ==> after == before,
        eviction_cutoff(now_ms, interval_secs, intervals) matches Some(c) ==> after
            == before.restrict(heard_since(before, c)),
    ensures
        after.contains_key(p),
        after[p] == before[p],
{
}

/// A peer that was silent for longer than the intervals allow is forgotten.
pub proof fn law_silent_peer_goes(
    before: PeerMap,
    after: PeerMap,
    now_ms: u64,
    interval_secs: u64,
    intervals: u64,
    p: Seq<char>,
)
    requires
        before.contains_key(p),
        interval_secs * intervals <= u64::MAX,
        now_ms > before[p] + interval_secs * intervals * 1000,
        eviction_cutoff(now_ms, interval_secs, intervals) is None ==> after == before,
        eviction_cutoff(now_ms, interval_secs, intervals) matches Some(c) ==> after
            == before.restrict(heard_since(before, c)),
    ensures
        !after.contains_key(p),
{
}

/// The first round is delayed by less than the configured bound, or than half the
/// interval where none is configured.
pub proof fn law_jitter_is_half_the_interval(interval_secs: u64, max_jitter_ms: u64)
    ensures
        max_jitter_ms > 0 ==> jitter_limit(interval_secs, max_jitter_ms) == max_jitter_ms,
        interval_secs > 0 ==> 2 * jitter_limit(interval_secs, 0) == interval_secs * 1000,
        jitter_limit(interval_secs, max_jitter_ms) >= 1,
{
}

/// After the peers were looked at, exactly they and the bootstrap peers are pinged,
/// but not the node itself.
pub proof fn law_pinged_are_the_known_others(m: HealthMonitor, peers: Set<Seq<char>>, p: Seq<char>)
    ensures
        m.targets_for(peers).contains(p) <==> p != m.me@ && (peers.contains(p) || text_set(m.bootstrap).contains(p)),
{
}

/// Who was last heard before so many intervals ago goes; where there were not yet so
/// many since the beginning of time, nobody does.
pub proof fn law_cutoff_is_so_many_intervals_ago(now_ms: u64, interval_secs: u64, intervals: u64)
    requires
        interval_secs * intervals <= u64::MAX,
    ensures
        interval_secs * intervals * 1000 <= now_ms ==> eviction_cutoff(now_ms, interval_secs, intervals) == Some(
            (now_ms - interval_secs * intervals * 1000) as u64,
        ),
        interval_secs * intervals * 1000 > now_ms ==> eviction_cutoff(now_ms, interval_secs, intervals) is None,
{
}

} // verus!
