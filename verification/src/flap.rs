//! Counting how often a membership or a load mark changes.

use crate::pairs::{lemma_push_new, pair_views, Pair, PairSet};
use crate::text::same_text;
use vstd::prelude::*;

verus! {

/// The recent changes of one pair.
#[derive(Debug)]
pub struct FlapEntry {
    pub first: String,
    pub second: String,
    pub times: Vec<u64>,
}

impl FlapEntry {
    pub open spec fn pair(&self) -> Pair {
        (self.first@, self.second@)
    }
}

/// Sliding-window tracker: for each pair, when it recently changed.
#[derive(Debug)]
pub struct FlapTracker {
    pub events: Vec<FlapEntry>,
}

/// No pair has two entries.
pub open spec fn entries_distinct(e: Seq<FlapEntry>) -> bool {
    forall|i: int, j: int| 0 <= i < j < e.len() ==> (#[trigger] e[i]).pair() != (#[trigger] e[j]).pair()
}

/// Every pair that has an entry has changed.
pub open spec fn none_silent(e: Seq<FlapEntry>) -> bool {
    forall|i: int| 0 <= i < e.len() ==> (#[trigger] e[i]).times@.len() > 0
}

/// When `p` changed, by its entry in `e`.
pub open spec fn times_in(e: Seq<FlapEntry>, p: Pair) -> Seq<u64>
    decreases e.len(),
{
    if e.len() == 0 {
        Seq::empty()
    } else if e.last().pair() == p {
        e.last().times@
    } else {
        times_in(e.drop_last(), p)
    }
}

/// `times` without the leading ones before `cutoff`.
pub open spec fn pruned(times: Seq<u64>, cutoff: int) -> Seq<u64>
    decreases times.len(),
{
    if times.len() > 0 && times[0] < cutoff {
        pruned(times.drop_first(), cutoff)
    } else {
        times
    }
}

proof fn lemma_times_at(e: Seq<FlapEntry>, i: int)
    requires
        entries_distinct(e),
        0 <= i < e.len(),
    ensures
        times_in(e, e[i].pair()) == e[i].times@,
    decreases e.len(),
{
    if i < e.len() - 1 {
        assert(e[i].pair() != e[e.len() - 1].pair());
        assert(e.drop_last()[i] == e[i]);
        lemma_times_at(e.drop_last(), i);
    }
}

proof fn lemma_times_absent(e: Seq<FlapEntry>, p: Pair)
    requires
        forall|i: int| 0 <= i < e.len() ==> (#[trigger] e[i]).pair() != p,
    ensures
        times_in(e, p) == Seq::<u64>::empty(),
    decreases e.len(),
{
    if e.len() > 0 {
        assert(e[e.len() - 1].pair() != p);
        assert forall|i: int| 0 <= i < e.drop_last().len() implies (#[trigger] e.drop_last()[i]).pair()
            != p by {
            assert(e.drop_last()[i] == e[i]);
        }
        lemma_times_absent(e.drop_last(), p);
    }
}

proof fn lemma_times_update(e: Seq<FlapEntry>, i: int, x: FlapEntry, p: Pair)
    requires
        0 <= i < e.len(),
        e[i].pair() == x.pair(),
        p != x.pair(),
    ensures
        times_in(e.update(i, x), p) == times_in(e, p),
    decreases e.len(),
{
    let u = e.update(i, x);
    if i == e.len() - 1 {
        assert(u.drop_last() =~= e.drop_last());
    } else {
        assert(u.drop_last() =~= e.drop_last().update(i, x));
        lemma_times_update(e.drop_last(), i, x, p);
    }
}

proof fn lemma_times_push(e: Seq<FlapEntry>, x: FlapEntry, p: Pair)
    ensures
        times_in(e.push(x), p) == (if p == x.pair() {
            x.times@
        } else {
            times_in(e, p)
        }),
{
    assert(e.push(x).drop_last() =~= e);
}

impl FlapTracker {
    pub open spec fn wf(&self) -> bool {
        entries_distinct(self.events@)
    }

    /// When `p` recently changed.
    pub open spec fn times(&self, p: Pair) -> Seq<u64> {
        times_in(self.events@, p)
    }

    /// The pairs with at least `threshold` recorded changes, and one at
    /// least.
    pub open spec fn busy(&self, threshold: usize) -> Set<Pair> {
        Set::new(|p: Pair| self.times(p).len() > 0 && self.times(p).len() >= threshold)
    }

    /// Nothing has been recorded.
    pub fn new() -> (t: FlapTracker)
        ensures
            t.wf(),
            t.events@.len() == 0,
            forall|p: Pair| (#[trigger] t.times(p)).len() == 0,
    {
        FlapTracker { events: Vec::new() }
    }

    fn find(&self, a: &str, b: &str) -> (r: Option<usize>)
        ensures
            r matches Some(i) ==> i < self.events@.len() && self.events@[i as int].pair() == (a@, b@),
            r is None ==> forall|i: int|
                0 <= i < self.events@.len() ==> (#[trigger] self.events@[i]).pair() != (a@, b@),
    {
        let mut i: usize = 0;
        while i < self.events.len()
            invariant
                i <= self.events.len(),
                forall|k: int| 0 <= k < i ==> (#[trigger] self.events@[k]).pair() != (a@, b@),
            decreases self.events.len() - i,
        {
            if same_text(self.events[i].first.as_str(), a) && same_text(
                self.events[i].second.as_str(),
                b,
            ) {
                return Some(i);
            }
            i += 1;
        }
        None
    }

    fn add(&mut self, a: &String, b: &String, now: u64)
        requires
            old(self).wf(),
        ensures
            final(self).wf(),
            none_silent(old(self).events@) ==> none_silent(final(self).events@),
            forall|p: Pair| #[trigger]
                final(self).times(p) == (if p == (a@, b@) {
                    old(self).times(p).push(now)
                } else {
                    old(self).times(p)
                }),
    {
        let ghost e = self.events@;
        let ghost key = (a@, b@);
        match self.find(a.as_str(), b.as_str()) {
            Some(i) => {
                let mut entry = self.events.remove(i);
                let ghost was = entry.times@;
                entry.times.push(now);
                let ghost x = entry;
                self.events.insert(i, entry);
                proof {
                    assert(self.events@ =~= e.update(i as int, x));
                    assert(entries_distinct(self.events@)) by {
                        assert forall|m: int, n: int| 0 <= m < n < self.events@.len() implies (
                        #[trigger] self.events@[m]).pair() != (#[trigger] self.events@[n]).pair() by {
                            assert(e[m].pair() != e[n].pair());
                        }
                    }
                    assert forall|p: Pair| #[trigger] self.times(p) == (if p == key {
                        times_in(e, p).push(now)
                    } else {
                        times_in(e, p)
                    }) by {
                        if p == key {
                            lemma_times_at(e, i as int);
                            lemma_times_at(self.events@, i as int);
                        } else {
                            lemma_times_update(e, i as int, x, p);
                        }
                    }
                }
            },
            None => {
                let mut times: Vec<u64> = Vec::new();
                times.push(now);
                let entry = FlapEntry { first: a.clone(), second: b.clone(), times };
                let ghost x = entry;
                self.events.push(entry);
                proof {
                    assert(self.events@ =~= e.push(x));
                    assert forall|p: Pair| #[trigger] self.times(p) == (if p == key {
                        times_in(e, p).push(now)
                    } else {
                        times_in(e, p)
                    }) by {
                        lemma_times_push(e, x, p);
                        if p == key {
                            lemma_times_absent(e, p);
                            assert(x.times@ =~= Seq::<u64>::empty().push(now));
                        }
                    }
                }
            },
        }
    }

    /// Records that each pair of `transitions` changed at `now`.
    pub fn record(&mut self, transitions: &PairSet, now: u64)
        requires
            old(self).wf(),
            transitions.wf(),
        ensures
            final(self).wf(),
            none_silent(old(self).events@) ==> none_silent(final(self).events@),
            forall|p: Pair| #[trigger]
                final(self).times(p) == (if transitions@.contains(p) {
                    old(self).times(p).push(now)
                } else {
                    old(self).times(p)
                }),
    {
        let ghost w = pair_views(transitions.items@);
        let mut i: usize = 0;
        while i < transitions.items.len()
            invariant
                i <= transitions.items.len(),
                w == pair_views(transitions.items@),
                w.no_duplicates(),
                self.wf(),
                none_silent(old(self).events@) ==> none_silent(self.events@),
                forall|p: Pair| #[trigger]
                    self.times(p) == (if w.take(i as int).contains(p) {
                        old(self).times(p).push(now)
                    } else {
                        old(self).times(p)
                    }),
            decreases transitions.items.len() - i,
        {
            let ghost before = *self;
            self.add(&transitions.items[i].0, &transitions.items[i].1, now);
            proof {
                let key = w[i as int];
                crate::textset::lemma_take_to_set(w, i as int);
                assert forall|p: Pair| #[trigger] self.times(p) == (if w.take(i + 1).contains(p) {
                    old(self).times(p).push(now)
                } else {
                    old(self).times(p)
                }) by {
                    assert(w.take(i + 1).to_set().contains(p) <==> w.take(i + 1).contains(p));
                    assert(w.take(i as int).to_set().contains(p) <==> w.take(i as int).contains(p));
                    assert(before.times(p) == (if w.take(i as int).contains(p) {
                        old(self).times(p).push(now)
                    } else {
                        old(self).times(p)
                    }));
                    if p == key && w.take(i as int).contains(p) {
                        let q = choose|q: int| 0 <= q < w.take(i as int).len() && w.take(i as int)[q] == p;
                        assert(w[q] == w[i as int]);
                    }
                }
            }
            i += 1;
        }
        proof {
            assert(w.take(i as int) =~= w);
        }
    }

    /// Forgets what lies before the window that ends at `now`, and with it the
    /// pairs that did not change since; counts the pairs that changed at least
    /// `threshold` times within the window.
    pub fn flapping_count(&mut self, now: u64, window_ms: u64, threshold: usize) -> (n: u64)
        requires
            old(self).wf(),
        ensures
            final(self).wf(),
            forall|p: Pair| #[trigger]
                final(self).times(p) == pruned(old(self).times(p), now - window_ms),
            none_silent(final(self).events@),
            final(self).busy(threshold).finite(),
            n == final(self).busy(threshold).len(),
    {
        let cutoff: u64 = now.saturating_sub(window_ms);
        let ghost e = self.events@;
        let mut kept: Vec<FlapEntry> = Vec::new();
        let ghost mut busy: Seq<Pair> = Seq::empty();
        let mut n: u64 = 0;
        let mut i: usize = 0;
        while i < self.events.len()
            invariant
                i <= self.events.len(),
                e == self.events@,
                *self == *old(self),
                entries_distinct(e),
                entries_distinct(kept@),
                none_silent(kept@),
                n == busy.len(),
                n <= i,
                busy.no_duplicates(),
                forall|j: int|
                    0 <= j < kept@.len() ==> exists|a: int|
                        0 <= a < i && (#[trigger] e[a]).pair() == (#[trigger] kept@[j]).pair(),
                forall|p: Pair| #[trigger] busy.contains(p) ==> exists|a: int|
                    0 <= a < i && (#[trigger] e[a]).pair() == p,
                forall|p: Pair| #[trigger]
                    times_in(kept@, p) == pruned(times_in(e.take(i as int), p), cutoff as int),
                forall|p: Pair| #[trigger]
                    busy.contains(p) <==> times_in(kept@, p).len() > 0 && times_in(kept@, p).len()
                        >= threshold,
            decreases self.events.len() - i,
        {
            let ghost x = e[i as int];
            let ghost before = kept@;
            let ghost was = busy;
            let times = prune(&self.events[i].times, cutoff);
            proof {
                assert(e.take(i + 1) =~= e.take(i as int).push(x));
                assert forall|p: Pair| #[trigger] times_in(e.take(i + 1), p) == (if p == x.pair() {
                    x.times@
                } else {
                    times_in(e.take(i as int), p)
                }) by {
                    lemma_times_push(e.take(i as int), x, p);
                }
                assert(!was.contains(x.pair())) by {
                    if was.contains(x.pair()) {
                        let a = choose|a: int| 0 <= a < i && (#[trigger] e[a]).pair() == x.pair();
                        assert(e[a].pair() != e[i as int].pair());
                    }
                }
                assert forall|j: int| 0 <= j < before.len() implies (#[trigger] before[j]).pair() != x.pair() by {
                    let a = choose|a: int| 0 <= a < i && (#[trigger] e[a]).pair() == before[j].pair();
                    assert(e[a].pair() != e[i as int].pair());
                }
                lemma_times_absent(before, x.pair());
            }
            if times.len() > 0 {
                if times.len() >= threshold {
                    n += 1;
                    proof {
                        lemma_push_new(was, x.pair());
                        busy = was.push(x.pair());
                    }
                }
                let entry = FlapEntry {
                    first: self.events[i].first.clone(),
                    second: self.events[i].second.clone(),
                    times,
                };
                let ghost y = entry;
                kept.push(entry);
                proof {
                    assert(kept@ =~= before.push(y));
                    assert forall|p: Pair| #[trigger] times_in(kept@, p) == (if p == x.pair() {
                        y.times@
                    } else {
                        times_in(before, p)
                    }) by {
                        lemma_times_push(before, y, p);
                    }
                    assert forall|p: Pair| #[trigger] busy.contains(p) <==> was.contains(p) || (p == x.pair()
                        && y.times@.len() >= threshold) by {
                        assert(busy.to_set().contains(p) <==> busy.contains(p));
                        assert(was.to_set().contains(p) <==> was.contains(p));
                    }
                    assert forall|j: int| 0 <= j < kept@.len() implies exists|a: int|
                        0 <= a < i + 1 && (#[trigger] e[a]).pair() == (#[trigger] kept@[j]).pair() by {
                        if j < before.len() {
                            let a = choose|a: int| 0 <= a < i && (#[trigger] e[a]).pair() == before[j].pair();
                            assert(e[a].pair() == kept@[j].pair());
                        } else {
                            assert(e[i as int].pair() == kept@[j].pair());
                        }
                    }
                    assert forall|p: Pair| #[trigger] busy.contains(p) implies exists|a: int|
                        0 <= a < i + 1 && (#[trigger] e[a]).pair() == p by {
                        if p == x.pair() {
                            assert(e[i as int].pair() == p);
                        } else {
                            assert(was.contains(p));
                            let a = choose|a: int| 0 <= a < i && (#[trigger] e[a]).pair() == p;
                            assert(e[a].pair() == p);
                        }
                    }
                    assert forall|p: Pair| #[trigger] busy.contains(p) <==> times_in(kept@, p).len() > 0
                        && times_in(kept@, p).len() >= threshold by {
                        assert(was.contains(p) <==> times_in(before, p).len() > 0 && times_in(before, p).len()
                            >= threshold);
                    }
                }
            } else {
                proof {
                    assert forall|p: Pair| #[trigger] times_in(kept@, p) == pruned(
                        times_in(e.take(i + 1), p),
                        cutoff as int,
                    ) by {
                        if p == x.pair() {
                            assert(pruned(x.times@, cutoff as int) =~= Seq::<u64>::empty());
                        }
                    }
                }
            }
            i += 1;
        }
        proof {
            assert(e.take(i as int) =~= e);
            let ghost done = FlapTracker { events: kept };
            assert forall|p: Pair| #[trigger] done.busy(threshold).contains(p) <==> busy.to_set().contains(p) by {
                assert(busy.to_set().contains(p) <==> busy.contains(p));
                assert(done.times(p) == times_in(kept@, p));
            }
            assert(done.busy(threshold) =~= busy.to_set());
            busy.unique_seq_to_set();
            assert forall|p: Pair| pruned(#[trigger] times_in(e, p), cutoff as int) == pruned(
                times_in(e, p),
                now - window_ms,
            ) by {
                if now < window_ms {
                    lemma_prune_nothing(times_in(e, p), now - window_ms);
                    lemma_prune_nothing(times_in(e, p), 0);
                }
            }
            assert forall|p: Pair| #[trigger] done.times(p) == pruned(old(self).times(p), now - window_ms) by {
                assert(done.times(p) == times_in(kept@, p));
                assert(old(self).times(p) == times_in(e, p));
            }
        }
        self.events = kept;
        n
    }
}

proof fn lemma_prune_nothing(times: Seq<u64>, cutoff: int)
    requires
        cutoff <= 0,
    ensures
        pruned(times, cutoff) == times,
{
}

fn prune(times: &Vec<u64>, cutoff: u64) -> (out: Vec<u64>)
    ensures
        out@ == pruned(times@, cutoff as int),
{
    let mut start: usize = 0;
    assert(times@.skip(0) =~= times@);
    while start < times.len() && times[start] < cutoff
        invariant
            start <= times.len(),
            pruned(times@, cutoff as int) == pruned(times@.skip(start as int), cutoff as int),
        decreases times.len() - start,
    {
        assert(times@.skip(start as int).drop_first() =~= times@.skip(start + 1));
        start += 1;
    }
    let mut out: Vec<u64> = Vec::new();
    let mut i: usize = start;
    while i < times.len()
        invariant
            start <= i <= times.len(),
            out@ == times@.subrange(start as int, i as int),
        decreases times.len() - i,
    {
        out.push(times[i]);
        assert(times@.subrange(start as int, i + 1) =~= times@.subrange(start as int, i as int).push(
            times@[i as int],
        ));
        i += 1;
    }
    assert(out@ =~= times@.skip(start as int));
    out
}

// ── Laws ─────────────────────────────────────────────────────────────────────

/// Pruning only drops from the front, and what stays first lies within the
/// window.
pub proof fn law_pruned_is_tail(times: Seq<u64>, cutoff: int)
    ensures
        pruned(times, cutoff).len() <= times.len(),
        pruned(times, cutoff) == times.skip(times.len() - pruned(times, cutoff).len()),
        pruned(times, cutoff).len() > 0 ==> pruned(times, cutoff)[0] >= cutoff,
    decreases times.len(),
{
    if times.len() > 0 && times[0] < cutoff {
        law_pruned_is_tail(times.drop_first(), cutoff);
        let p = pruned(times, cutoff);
        assert(times.drop_first().skip(times.len() - 1 - p.len()) =~= times.skip(times.len() - p.len()));
    } else {
        assert(times.skip(0) =~= times);
    }
}

/// Of times in order, pruning keeps exactly those within the window.
pub proof fn law_pruned_is_recent(times: Seq<u64>, cutoff: int)
    requires
        forall|i: int, j: int| 0 <= i < j < times.len() ==> (#[trigger] times[i]) <= (#[trigger] times[j]),
    ensures
        pruned(times, cutoff) == times.filter(|t: u64| t >= cutoff),
    decreases times.len(),
{
    let keep = |t: u64| t >= cutoff;
    if times.len() > 0 && times[0] < cutoff {
        let rest = times.drop_first();
        assert forall|i: int, j: int| 0 <= i < j < rest.len() implies (#[trigger] rest[i]) <= (
        #[trigger] rest[j]) by {
            assert(times[i + 1] <= times[j + 1]);
        }
        law_pruned_is_recent(rest, cutoff);
        assert(times =~= seq![times[0]] + rest);
        Seq::filter_distributes_over_add(seq![times[0]], rest, keep);
        reveal(Seq::filter);
        let head = seq![times[0]];
        assert(head.drop_last().len() == 0);
        assert(head.drop_last().filter(keep).len() == 0);
        assert(!keep(head.last()));
        assert(head.filter(keep) =~= Seq::empty());
        assert(times.filter(keep) =~= rest.filter(keep));
    } else {
        assert forall|i: int| 0 <= i < times.len() implies keep(#[trigger] times[i]) by {
            if i > 0 {
                assert(times[0] <= times[i]);
            }
        }
        lemma_filter_all(times, keep);
    }
}

proof fn lemma_filter_all(times: Seq<u64>, keep: spec_fn(u64) -> bool)
    requires
        forall|i: int| 0 <= i < times.len() ==> keep(#[trigger] times[i]),
    ensures
        times.filter(keep) == times,
    decreases times.len(),
{
    reveal(Seq::filter);
    if times.len() > 0 {
        assert(keep(times[times.len() - 1]));
        assert forall|i: int| 0 <= i < times.drop_last().len() implies keep(#[trigger] times.drop_last()[i]) by {
            assert(keep(times[i]));
        }
        lemma_filter_all(times.drop_last(), keep);
        assert(times.drop_last().push(times.last()) =~= times);
    } else {
        assert(times.filter(keep) =~= times);
    }
}

/// Counting again at the same moment changes nothing, so it counts the same.
pub proof fn law_counting_again_changes_nothing(times: Seq<u64>, cutoff: int)
    ensures
        pruned(pruned(times, cutoff), cutoff) == pruned(times, cutoff),
{
    law_pruned_is_tail(times, cutoff);
}

/// Once a window has passed without a change, a pair is forgotten.
pub proof fn law_settled_pair_ages_out(times: Seq<u64>, now: u64, window_ms: u64)
    requires
        forall|i: int| 0 <= i < times.len() ==> (#[trigger] times[i]) + window_ms < now,
    ensures
        pruned(times, now - window_ms).len() == 0,
    decreases times.len(),
{
    if times.len() > 0 {
        assert(times[0] + window_ms < now);
        assert forall|i: int| 0 <= i < times.drop_first().len() implies (#[trigger] times.drop_first()[i])
            + window_ms < now by {
            assert(times.drop_first()[i] == times[i + 1]);
        }
        law_settled_pair_ages_out(times.drop_first(), now, window_ms);
    }
}

/// A pair flaps exactly if it changed within the window, and as often as the
/// threshold says.
pub proof fn law_frequent_change_is_flapping(
    before: FlapTracker,
    after: FlapTracker,
    p: Pair,
    now: u64,
    window_ms: u64,
    threshold: usize,
)
    requires
        after.times(p) == pruned(before.times(p), now - window_ms),
        forall|i: int| 0 <= i < before.times(p).len() ==> now - (#[trigger] before.times(p)[i]) <= window_ms,
    ensures
        after.times(p) == before.times(p),
        after.busy(threshold).contains(p) <==> before.times(p).len() >= 1 && before.times(p).len() >= threshold,
{
}

/// What is remembered of a pair is what its entry holds, and nothing of a pair without
/// one.
pub proof fn law_times_are_those_of_the_entry(t: FlapTracker, p: Pair, i: int)
    requires
        t.wf(),
    ensures
        0 <= i < t.events@.len() && t.events@[i].pair() == p ==> t.times(p) == t.events@[i].times@,
        (forall|j: int| 0 <= j < t.events@.len() ==> (#[trigger] t.events@[j]).pair() != p) ==> t.times(p)
            == Seq::<u64>::empty(),
{
    if 0 <= i < t.events@.len() && t.events@[i].pair() == p {
        lemma_times_at(t.events@, i);
    }
    if forall|j: int| 0 <= j < t.events@.len() ==> (#[trigger] t.events@[j]).pair() != p {
        lemma_times_absent(t.events@, p);
    }
}

} // verus!
