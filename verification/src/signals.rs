//! What a node remembers of the signals it has delivered.

use crate::node_id::{contains_node, node_views, NodeId, NodeView};
use crate::pairs::lemma_push_new;
use crate::text::same_text;
use vstd::prelude::*;

verus! {

/// One signal that was delivered on this node.
#[derive(Debug)]
pub struct Delivery {
    pub kind: String,
    pub sender: NodeId,
    pub at_ms: u64,
}

/// The model of a [`Delivery`].
pub type DeliveryView = (Seq<char>, NodeView, u64);

pub open spec fn delivery_views(v: Seq<Delivery>) -> Seq<DeliveryView> {
    v.map_values(|d: Delivery| (d.kind@, d.sender@, d.at_ms))
}

/// When a signal of `kind` was last delivered.
pub open spec fn last_delivery(v: Seq<DeliveryView>, kind: Seq<char>) -> Option<u64>
    decreases v.len(),
{
    if v.len() == 0 {
        None
    } else if v.last().0 == kind {
        Some(v.last().2)
    } else {
        last_delivery(v.drop_last(), kind)
    }
}

/// Whether a delivery of `kind` lies within `window_ms` before `now`.
pub open spec fn recent(d: DeliveryView, kind: Seq<char>, window_ms: u64, now: u64) -> bool {
    d.0 == kind && now - d.2 <= window_ms
}

/// The senders whose signals of `kind` were delivered within the window.
pub open spec fn recent_senders(v: Seq<DeliveryView>, kind: Seq<char>, window_ms: u64, now: u64) -> Set<NodeView> {
    Set::new(
        |n: NodeView|
            exists|i: int| 0 <= i < v.len() && recent(#[trigger] v[i], kind, window_ms, now) && v[i].1 == n,
    )
}

/// The deliveries of this node and the kinds that it keeps back.
#[derive(Debug)]
pub struct SignalLog {
    /// What the evidence of an earlier run has told of; it counts for quorums.
    pub seeded: Vec<Delivery>,
    pub deliveries: Vec<Delivery>,
    /// Until when each kind is kept back; the last entry of a kind counts.
    pub suppressions: Vec<(String, u64)>,
}

/// Until when `kind` is kept back.
pub open spec fn suppressed_until(e: Seq<(String, u64)>, kind: Seq<char>) -> Option<u64>
    decreases e.len(),
{
    if e.len() == 0 {
        None
    } else if e.last().0@ == kind {
        Some(e.last().1)
    } else {
        suppressed_until(e.drop_last(), kind)
    }
}

impl SignalLog {
    /// The deliveries, oldest first.
    pub open spec fn log(&self) -> Seq<DeliveryView> {
        delivery_views(self.deliveries@)
    }

    /// What counts for a quorum: the evidence of an earlier run, then the
    /// deliveries.
    pub open spec fn heard(&self) -> Seq<DeliveryView> {
        delivery_views(self.seeded@) + self.log()
    }

    /// Until when `kind` is kept back.
    pub open spec fn until(&self, kind: Seq<char>) -> Option<u64> {
        suppressed_until(self.suppressions@, kind)
    }

    /// Whether `kind` is kept back at `now`.
    pub open spec fn keeps_back(&self, kind: Seq<char>, now: u64) -> bool {
        self.until(kind) is Some && now < self.until(kind)->0
    }

    /// Nothing delivered, nothing kept back.
    pub fn new() -> (s: SignalLog)
        ensures
            s.log() == Seq::<DeliveryView>::empty(),
            s.heard() == Seq::<DeliveryView>::empty(),
            forall|k: Seq<char>| s.until(k) is None,
    {
        let s = SignalLog { seeded: Vec::new(), deliveries: Vec::new(), suppressions: Vec::new() };
        assert(s.log() =~= Seq::<DeliveryView>::empty());
        assert(s.heard() =~= Seq::<DeliveryView>::empty());
        s
    }

    /// Takes note of a signal. `true` means that its handlers get it, which
    /// they do unless its kind is kept back.
    pub fn deliver(&mut self, kind: &str, sender: &NodeId, now: u64) -> (handled: bool)
        ensures
            handled == !old(self).keeps_back(kind@, now),
            final(self).log() == old(self).log().push((kind@, sender@, now)),
            final(self).suppressions == old(self).suppressions,
            final(self).seeded == old(self).seeded,
    {
        let handled = !self.is_suppressed(kind, now);
        let ghost before = self.deliveries@;
        let d = Delivery { kind: kind.to_owned(), sender: sender.copy(), at_ms: now };
        let ghost x = (kind@, sender@, now);
        self.deliveries.push(d);
        assert(delivery_views(self.deliveries@) =~= delivery_views(before).push(x));
        handled
    }

    /// When a signal of `kind` was last delivered, be it while the kind is
    /// kept back.
    pub fn last_signal(&self, kind: &str) -> (r: Option<u64>)
        ensures
            r == last_delivery(self.log(), kind@),
    {
        let ghost v = self.log();
        let mut i: usize = self.deliveries.len();
        assert(v.take(i as int) =~= v);
        while i > 0
            invariant
                i <= self.deliveries.len(),
                v == self.log(),
                last_delivery(v, kind@) == last_delivery(v.take(i as int), kind@),
            decreases i,
        {
            assert(v.take(i as int).drop_last() =~= v.take(i - 1));
            assert(v.take(i as int).last() == v[i - 1]);
            if same_text(self.deliveries[i - 1].kind.as_str(), kind) {
                return Some(self.deliveries[i - 1].at_ms);
            }
            i -= 1;
        }
        None
    }

    /// Keeps `kind` back for `duration_ms` from `now` on.
    pub fn suppress(&mut self, kind: &str, now: u64, duration_ms: u64)
        ensures
            final(self).until(kind@) == Some(
                (if now + duration_ms > u64::MAX {
                    u64::MAX as int
                } else {
                    now + duration_ms
                }) as u64,
            ),
            forall|k: Seq<char>| k != kind@ ==> #[trigger] final(self).until(k) == old(self).until(k),
            final(self).deliveries == old(self).deliveries,
            final(self).seeded == old(self).seeded,
    {
        let ghost e = self.suppressions@;
        self.suppressions.push((kind.to_owned(), now.saturating_add(duration_ms)));
        proof {
            assert(self.suppressions@.drop_last() =~= e);
        }
    }

    /// Stops keeping `kind` back.
    pub fn unsuppress(&mut self, kind: &str)
        ensures
            final(self).until(kind@) is None,
            forall|k: Seq<char>| k != kind@ ==> #[trigger] final(self).until(k) == old(self).until(k),
            final(self).deliveries == old(self).deliveries,
            final(self).seeded == old(self).seeded,
    {
        let ghost e = self.suppressions@;
        let mut kept: Vec<(String, u64)> = Vec::new();
        let mut i: usize = 0;
        while i < self.suppressions.len()
            invariant
                i <= self.suppressions.len(),
                *self == *old(self),
                e == self.suppressions@,
                suppressed_until(kept@, kind@) is None,
                forall|k: Seq<char>|
                    k != kind@ ==> #[trigger] suppressed_until(kept@, k) == suppressed_until(
                        e.take(i as int),
                        k,
                    ),
            decreases self.suppressions.len() - i,
        {
            let ghost before = kept@;
            proof {
                assert(e.take(i + 1).drop_last() =~= e.take(i as int));
                assert(e.take(i + 1).last() == e[i as int]);
            }
            if !same_text(self.suppressions[i].0.as_str(), kind) {
                kept.push((self.suppressions[i].0.clone(), self.suppressions[i].1));
                assert(kept@.drop_last() =~= before);
            }
            proof {
                assert forall|k: Seq<char>| k != kind@ implies #[trigger] suppressed_until(kept@, k)
                    == suppressed_until(e.take(i + 1), k) by {
                    assert(suppressed_until(before, k) == suppressed_until(e.take(i as int), k));
                    if e[i as int].0@ != kind@ {
                        assert(kept@.last().0@ == e[i as int].0@);
                    }
                }
            }
            i += 1;
        }
        assert(e.take(i as int) =~= e);
        self.suppressions = kept;
    }

    /// Whether `kind` is kept back at `now`.
    pub fn is_suppressed(&self, kind: &str, now: u64) -> (r: bool)
        ensures
            r == self.keeps_back(kind@, now),
    {
        let ghost e = self.suppressions@;
        let mut i: usize = self.suppressions.len();
        assert(e.take(i as int) =~= e);
        while i > 0
            invariant
                i <= self.suppressions.len(),
                e == self.suppressions@,
                suppressed_until(e, kind@) == suppressed_until(e.take(i as int), kind@),
            decreases i,
        {
            assert(e.take(i as int).drop_last() =~= e.take(i - 1));
            if same_text(self.suppressions[i - 1].0.as_str(), kind) {
                return now < self.suppressions[i - 1].1;
            }
            i -= 1;
        }
        false
    }

    /// Takes note of a signal that evidence of an earlier run tells of.
    pub fn seed(&mut self, kind: &str, sender: &NodeId, at_ms: u64)
        ensures
            delivery_views(final(self).seeded@) == delivery_views(old(self).seeded@).push(
                (kind@, sender@, at_ms),
            ),
            final(self).deliveries == old(self).deliveries,
            final(self).suppressions == old(self).suppressions,
    {
        let ghost before = self.seeded@;
        self.seeded.push(Delivery { kind: kind.to_owned(), sender: sender.copy(), at_ms });
        assert(delivery_views(self.seeded@) =~= delivery_views(before).push((kind@, sender@, at_ms)));
    }

    /// The nodes whose signals of `kind` count within the window, each once.
    pub(crate) fn senders(&self, kind: &str, window_ms: u64, now: u64) -> (r: Vec<NodeId>)
        ensures
            node_views(r@).no_duplicates(),
            node_views(r@).to_set() == recent_senders(self.heard(), kind@, window_ms, now),
    {
        let mut out: Vec<NodeId> = Vec::new();
        assert(node_views(out@) =~= Seq::empty());
        assert(node_views(out@).to_set() =~= Set::<NodeView>::empty());
        add_senders(&mut out, &self.seeded, kind, window_ms, now);
        add_senders(&mut out, &self.deliveries, kind, window_ms, now);
        proof {
            lemma_recent_concat(delivery_views(self.seeded@), self.log(), kind@, window_ms, now);
            assert(node_views(out@).to_set() =~= recent_senders(self.heard(), kind@, window_ms, now));
        }
        out
    }

    /// Whether signals of `kind` from at least `min_senders` different nodes
    /// were delivered within the window.
    pub fn quorum(&self, kind: &str, min_senders: usize, window_ms: u64, now: u64) -> (r: bool)
        ensures
            recent_senders(self.heard(), kind@, window_ms, now).finite(),
            r == (recent_senders(self.heard(), kind@, window_ms, now).len() >= min_senders),
    {
        let s = self.senders(kind, window_ms, now);
        proof {
            node_views(s@).unique_seq_to_set();
        }
        s.len() >= min_senders
    }

    /// Like [`quorum`](Self::quorum), but only the nodes of `members` count.
    pub fn quorum_for_group(
        &self,
        kind: &str,
        members: &Vec<NodeId>,
        min_senders: usize,
        window_ms: u64,
        now: u64,
    ) -> (r: bool)
        ensures
            recent_senders(self.heard(), kind@, window_ms, now).finite(),
            r == (recent_senders(self.heard(), kind@, window_ms, now).intersect(
                node_views(members@).to_set(),
            ).len() >= min_senders),
    {
        let s = self.senders(kind, window_ms, now);
        let ghost w = node_views(s@);
        let ghost m = node_views(members@).to_set();
        let ghost mut inside: Seq<NodeView> = Seq::empty();
        let mut n: usize = 0;
        let mut i: usize = 0;
        proof {
            w.unique_seq_to_set();
            assert(w.take(0).to_set().intersect(m) =~= inside.to_set());
        }
        while i < s.len()
            invariant
                i <= s.len(),
                w == node_views(s@),
                w.no_duplicates(),
                m == node_views(members@).to_set(),
                n == inside.len(),
                n <= i,
                inside.no_duplicates(),
                inside.to_set() == w.take(i as int).to_set().intersect(m),
            decreases s.len() - i,
        {
            let ghost x = w[i as int];
            let ghost was = inside;
            proof {
                crate::textset::lemma_take_to_set(w, i as int);
                if was.contains(x) {
                    assert(was.to_set().contains(x));
                    let q = choose|q: int| 0 <= q < w.take(i as int).len() && w.take(i as int)[q] == x;
                    assert(w[q] == w[i as int]);
                }
            }
            if contains_node(members, &s[i]) {
                n += 1;
                proof {
                    lemma_push_new(was, x);
                    inside = was.push(x);
                }
            }
            proof {
                assert(m.contains(x) <==> node_views(members@).contains(x));
                assert(inside.to_set() =~= w.take(i + 1).to_set().intersect(m));
            }
            i += 1;
        }
        proof {
            assert(w.take(i as int) =~= w);
            inside.unique_seq_to_set();
        }
        n >= min_senders
    }

    /// Forgets what is older than `window_ms`.
    pub fn trim(&mut self, window_ms: u64, now: u64)
        ensures
            final(self).log() == old(self).log().filter(|d: DeliveryView| now - d.2 <= window_ms),
            delivery_views(final(self).seeded@) == delivery_views(old(self).seeded@).filter(
                |d: DeliveryView| now - d.2 <= window_ms,
            ),
            final(self).suppressions == old(self).suppressions,
    {
        let kept = trimmed(&self.deliveries, window_ms, now);
        self.deliveries = kept;
        let kept_seeds = trimmed(&self.seeded, window_ms, now);
        self.seeded = kept_seeds;
    }
}

fn trimmed(all: &Vec<Delivery>, window_ms: u64, now: u64) -> (out: Vec<Delivery>)
    ensures
        delivery_views(out@) == delivery_views(all@).filter(|d: DeliveryView| now - d.2 <= window_ms),
{
    let ghost v = delivery_views(all@);
    let ghost keep = |d: DeliveryView| now - d.2 <= window_ms;
    let mut out: Vec<Delivery> = Vec::new();
    let mut i: usize = 0;
    proof {
        assert(v.take(0).len() == 0);
        reveal(Seq::filter);
        assert(v.take(0).filter(keep) =~= Seq::empty());
        assert(delivery_views(out@) =~= Seq::empty());
    }
    while i < all.len()
        invariant
            i <= all.len(),
            v == delivery_views(all@),
            keep == (|d: DeliveryView| now - d.2 <= window_ms),
            delivery_views(out@) == v.take(i as int).filter(keep),
        decreases all.len() - i,
    {
        let ghost before = out@;
        proof {
            assert(v.take(i + 1).drop_last() =~= v.take(i as int));
            assert(v.take(i + 1).last() == v[i as int]);
            reveal(Seq::filter);
        }
        let d = &all[i];
        if now.saturating_sub(d.at_ms) <= window_ms {
            let c = Delivery { kind: d.kind.clone(), sender: d.sender.copy(), at_ms: d.at_ms };
            out.push(c);
            assert(delivery_views(out@) =~= delivery_views(before).push(v[i as int]));
        }
        i += 1;
    }
    assert(v.take(i as int) =~= v);
    out
}

fn add_senders(out: &mut Vec<NodeId>, from: &Vec<Delivery>, kind: &str, window_ms: u64, now: u64)
    requires
        node_views(old(out)@).no_duplicates(),
    ensures
        node_views(final(out)@).no_duplicates(),
        node_views(final(out)@).to_set() == node_views(old(out)@).to_set().union(
            recent_senders(delivery_views(from@), kind@, window_ms, now),
        ),
{
    let ghost v = delivery_views(from@);
    let ghost start = node_views(out@).to_set();
    let mut i: usize = 0;
    proof {
        assert(recent_senders(v.take(0), kind@, window_ms, now) =~= Set::<NodeView>::empty());
        assert(start.union(recent_senders(v.take(0), kind@, window_ms, now)) =~= start);
    }
    while i < from.len()
        invariant
            i <= from.len(),
            v == delivery_views(from@),
            node_views(out@).no_duplicates(),
            node_views(out@).to_set() == start.union(
                recent_senders(v.take(i as int), kind@, window_ms, now),
            ),
        decreases from.len() - i,
    {
        let ghost before = node_views(out@);
        let ghost x = v[i as int];
        let ghost small = recent_senders(v.take(i as int), kind@, window_ms, now);
        proof {
            lemma_recent_step(v, i as int, kind@, window_ms, now);
        }
        let d = &from[i];
        if same_text(d.kind.as_str(), kind) && now.saturating_sub(d.at_ms) <= window_ms {
            assert(start.union(small.insert(x.1)) =~= start.union(small).insert(x.1));
            if !contains_node(out, &d.sender) {
                proof {
                    lemma_push_new(before, x.1);
                }
                let c = d.sender.copy();
                out.push(c);
                assert(node_views(out@) =~= before.push(x.1));
            } else {
                assert(before.to_set().insert(x.1) =~= before.to_set());
            }
        }
        i += 1;
    }
    assert(v.take(i as int) =~= v);
}

proof fn lemma_recent_concat(
    a: Seq<DeliveryView>,
    b: Seq<DeliveryView>,
    kind: Seq<char>,
    window_ms: u64,
    now: u64,
)
    ensures
        recent_senders(a + b, kind, window_ms, now) == recent_senders(a, kind, window_ms, now).union(
            recent_senders(b, kind, window_ms, now),
        ),
{
    let ab = a + b;
    let x = recent_senders(ab, kind, window_ms, now);
    let y = recent_senders(a, kind, window_ms, now).union(recent_senders(b, kind, window_ms, now));
    assert forall|n: NodeView| x.contains(n) <==> y.contains(n) by {
        if x.contains(n) {
            let j = choose|j: int|
                0 <= j < ab.len() && recent(#[trigger] ab[j], kind, window_ms, now) && ab[j].1 == n;
            if j < a.len() {
                assert(a[j] == ab[j]);
            } else {
                assert(b[j - a.len()] == ab[j]);
            }
        }
        if recent_senders(a, kind, window_ms, now).contains(n) {
            let j = choose|j: int|
                0 <= j < a.len() && recent(#[trigger] a[j], kind, window_ms, now) && a[j].1 == n;
            assert(ab[j] == a[j]);
        }
        if recent_senders(b, kind, window_ms, now).contains(n) {
            let j = choose|j: int|
                0 <= j < b.len() && recent(#[trigger] b[j], kind, window_ms, now) && b[j].1 == n;
            assert(ab[j + a.len()] == b[j]);
        }
    }
    assert(x =~= y);
}

proof fn lemma_recent_step(v: Seq<DeliveryView>, i: int, kind: Seq<char>, window_ms: u64, now: u64)
    requires
        0 <= i < v.len(),
    ensures
        recent_senders(v.take(i + 1), kind, window_ms, now) == (if recent(v[i], kind, window_ms, now) {
            recent_senders(v.take(i), kind, window_ms, now).insert(v[i].1)
        } else {
            recent_senders(v.take(i), kind, window_ms, now)
        }),
{
    let a = recent_senders(v.take(i + 1), kind, window_ms, now);
    let small = recent_senders(v.take(i), kind, window_ms, now);
    let b = if recent(v[i], kind, window_ms, now) {
        small.insert(v[i].1)
    } else {
        small
    };
    let longer = v.take(i + 1);
    let shorter = v.take(i);
    assert forall|n: NodeView| a.contains(n) <==> b.contains(n) by {
        if a.contains(n) {
            let j = choose|j: int|
                0 <= j < longer.len() && recent(#[trigger] longer[j], kind, window_ms, now) && longer[j].1
                    == n;
            if j < i {
                assert(shorter[j] == longer[j]);
            }
        }
        if small.contains(n) {
            let j = choose|j: int|
                0 <= j < shorter.len() && recent(#[trigger] shorter[j], kind, window_ms, now)
                    && shorter[j].1 == n;
            assert(longer[j] == shorter[j]);
        }
        if recent(v[i], kind, window_ms, now) && v[i].1 == n {
            assert(longer[i] == v[i]);
        }
    }
    assert(a =~= b);
}

// ── Laws ─────────────────────────────────────────────────────────────────────

/// A second signal of one sender adds nothing to a quorum.
pub proof fn law_quorum_counts_senders_once(
    v: Seq<DeliveryView>,
    kind: Seq<char>,
    sender: NodeView,
    at: u64,
    window_ms: u64,
    now: u64,
)
    requires
        recent_senders(v, kind, window_ms, now).contains(sender),
    ensures
        recent_senders(v.push((kind, sender, at)), kind, window_ms, now) == recent_senders(
            v,
            kind,
            window_ms,
            now,
        ),
{
    let w = v.push((kind, sender, at));
    lemma_recent_step(w, v.len() as int, kind, window_ms, now);
    assert(w.take(v.len() as int) =~= v);
    assert(w.take(v.len() as int + 1) =~= w);
    let s = recent_senders(v, kind, window_ms, now);
    assert(s.insert(sender) =~= s);
}

/// A sender counts for a quorum if it delivered a signal of the kind at most
/// `window_ms` milliseconds ago.
pub proof fn law_recent_delivery_counts(
    v: Seq<DeliveryView>,
    kind: Seq<char>,
    sender: NodeView,
    at_ms: u64,
    window_ms: u64,
    now: u64,
)
    requires
        v.contains((kind, sender, at_ms)),
        now <= at_ms + window_ms,
    ensures
        recent_senders(v, kind, window_ms, now).contains(sender),
{
    let i = choose|i: int| 0 <= i < v.len() && v[i] == (kind, sender, at_ms);
    assert(recent(v[i], kind, window_ms, now));
}

/// A sender whose deliveries of the kind are all older than `window_ms`
/// milliseconds does not count; where all deliveries of the kind are, nobody does.
pub proof fn law_old_deliveries_do_not_count(
    v: Seq<DeliveryView>,
    kind: Seq<char>,
    sender: NodeView,
    window_ms: u64,
    now: u64,
)
    requires
        forall|i: int|
            0 <= i < v.len() && (#[trigger] v[i]).0 == kind && v[i].1 == sender ==> now > v[i].2 + window_ms,
    ensures
        !recent_senders(v, kind, window_ms, now).contains(sender),
        (forall|i: int| 0 <= i < v.len() && (#[trigger] v[i]).0 == kind ==> now > v[i].2 + window_ms)
            ==> recent_senders(v, kind, window_ms, now) == Set::<NodeView>::empty(),
{
    if forall|i: int| 0 <= i < v.len() && (#[trigger] v[i]).0 == kind ==> now > v[i].2 + window_ms {
        assert(recent_senders(v, kind, window_ms, now) =~= Set::<NodeView>::empty());
    }
}

/// The last signal of a kind is the one that was delivered last, and is found as
/// long as any was.
pub proof fn law_last_signal_is_the_newest_delivery(v: Seq<DeliveryView>, kind: Seq<char>, i: int)
    requires
        0 <= i < v.len(),
        v[i].0 == kind,
        forall|j: int| i < j < v.len() ==> (#[trigger] v[j]).0 != kind,
    ensures
        last_delivery(v, kind) == Some(v[i].2),
    decreases v.len(),
{
    if i < v.len() - 1 {
        assert(v[v.len() - 1].0 != kind);
        assert(v.drop_last()[i] == v[i]);
        assert forall|j: int| i < j < v.drop_last().len() implies (#[trigger] v.drop_last()[j]).0 != kind by {
            assert(v[j].0 != kind);
        }
        law_last_signal_is_the_newest_delivery(v.drop_last(), kind, i);
    }
}

/// Of a kind that was never delivered there is no last signal.
pub proof fn law_no_delivery_no_last_signal(v: Seq<DeliveryView>, kind: Seq<char>)
    requires
        forall|i: int| 0 <= i < v.len() ==> (#[trigger] v[i]).0 != kind,
    ensures
        last_delivery(v, kind) is None,
    decreases v.len(),
{
    if v.len() > 0 {
        assert(v[v.len() - 1].0 != kind);
        assert forall|j: int| 0 <= j < v.drop_last().len() implies (#[trigger] v.drop_last()[j]).0 != kind by {
            assert(v[j].0 != kind);
        }
        law_no_delivery_no_last_signal(v.drop_last(), kind);
    }
}

/// A kind is kept back until the moment that was set for it last, and not from then
/// on; a kind for which none was set is not kept back.
pub proof fn law_kind_is_kept_back_until_its_moment(log: SignalLog, kind: Seq<char>, i: int, now: u64)
    requires
        0 <= i < log.suppressions@.len(),
        log.suppressions@[i].0@ == kind,
        forall|j: int| i < j < log.suppressions@.len() ==> (#[trigger] log.suppressions@[j]).0@ != kind,
    ensures
        log.keeps_back(kind, now) <==> now < log.suppressions@[i].1,
{
    lemma_suppressed_at(log.suppressions@, kind, i);
}

proof fn lemma_suppressed_at(e: Seq<(String, u64)>, kind: Seq<char>, i: int)
    requires
        0 <= i < e.len(),
        e[i].0@ == kind,
        forall|j: int| i < j < e.len() ==> (#[trigger] e[j]).0@ != kind,
    ensures
        suppressed_until(e, kind) == Some(e[i].1),
    decreases e.len(),
{
    if i < e.len() - 1 {
        assert(e[e.len() - 1].0@ != kind);
        assert(e.drop_last()[i] == e[i]);
        assert forall|j: int| i < j < e.drop_last().len() implies (#[trigger] e.drop_last()[j]).0@ != kind by {
            assert(e[j].0@ != kind);
        }
        lemma_suppressed_at(e.drop_last(), kind, i);
    }
}

} // verus!
