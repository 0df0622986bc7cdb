//! Sets of pairs of texts.

use crate::text::{same_text, text_before, text_lt};
use vstd::prelude::*;

verus! {

/// The model of a pair of texts.
pub type Pair = (Seq<char>, Seq<char>);

pub open spec fn pair_views(v: Seq<(String, String)>) -> Seq<Pair> {
    v.map_values(|p: (String, String)| (p.0@, p.1@))
}

/// A set of pairs of texts: no pair occurs twice.
#[derive(Debug)]
pub struct PairSet {
    pub items: Vec<(String, String)>,
}

impl View for PairSet {
    type V = Set<Pair>;

    open spec fn view(&self) -> Set<Pair> {
        pair_views(self.items@).to_set()
    }
}

/// Adding an item that is not there gives a list without doubles whose set
/// has one more item.
pub proof fn lemma_push_new<A>(s: Seq<A>, x: A)
    requires
        s.no_duplicates(),
        !s.contains(x),
    ensures
        s.push(x).no_duplicates(),
        s.push(x).to_set() == s.to_set().insert(x),
{
    let t = s.push(x);
    assert forall|i: int, j: int| 0 <= i < t.len() && 0 <= j < t.len() && i != j implies t[i] != t[j] by {
        if i == s.len() {
            assert(s.contains(s[j]));
        } else if j == s.len() {
            assert(s.contains(s[i]));
        }
    }
    assert forall|y: A| t.to_set().contains(y) <==> s.to_set().insert(x).contains(y) by {
        if t.contains(y) {
            let i = choose|i: int| 0 <= i < t.len() && t[i] == y;
            if i < s.len() {
                assert(s[i] == y);
            }
        }
        if s.contains(y) {
            let i = choose|i: int| 0 <= i < s.len() && s[i] == y;
            assert(t[i] == y);
        }
        if y == x {
            assert(t[s.len() as int] == y);
        }
    }
    assert(t.to_set() =~= s.to_set().insert(x));
}

impl PairSet {
    pub open spec fn wf(&self) -> bool {
        pair_views(self.items@).no_duplicates()
    }

    /// No pairs.
    pub fn new() -> (s: PairSet)
        ensures
            s.wf(),
            s@ == Set::<Pair>::empty(),
    {
        let s = PairSet { items: Vec::new() };
        assert(pair_views(s.items@) =~= Seq::empty());
        assert(s@ =~= Set::<Pair>::empty());
        s
    }

    /// Whether the pair is in the set.
    pub fn contains(&self, a: &str, b: &str) -> (r: bool)
        ensures
            r == self@.contains((a@, b@)),
    {
        let mut i: usize = 0;
        while i < self.items.len()
            invariant
                i <= self.items.len(),
                forall|k: int| 0 <= k < i ==> pair_views(self.items@)[k] != (a@, b@),
            decreases self.items.len() - i,
        {
            if same_text(self.items[i].0.as_str(), a) && same_text(self.items[i].1.as_str(), b) {
                assert(pair_views(self.items@)[i as int] == (a@, b@));
                return true;
            }
            i += 1;
        }
        false
    }

    /// Adds the pair; `true` means that it was not there before.
    pub fn insert(&mut self, a: String, b: String) -> (newly: bool)
        requires
            old(self).wf(),
        ensures
            final(self).wf(),
            final(self)@ == old(self)@.insert((a@, b@)),
            newly == !old(self)@.contains((a@, b@)),
    {
        let ghost before = pair_views(self.items@);
        if self.contains(a.as_str(), b.as_str()) {
            assert(self@.insert((a@, b@)) =~= self@);
            return false;
        }
        proof {
            assert(!before.contains((a@, b@))) by {
                assert(before.to_set().contains((a@, b@)) <==> before.contains((a@, b@)));
            }
            lemma_push_new(before, (a@, b@));
        }
        let ghost p = (a@, b@);
        self.items.push((a, b));
        assert(pair_views(self.items@) =~= before.push(p));
        true
    }

    /// The number of pairs.
    pub fn len(&self) -> (n: usize)
        requires
            self.wf(),
        ensures
            n == self@.len(),
            self@.finite(),
    {
        proof {
            pair_views(self.items@).unique_seq_to_set();
        }
        self.items.len()
    }

    /// Adds to `out` what is in this set and not in `other`.
    fn minus_into(&self, other: &PairSet, out: &mut PairSet)
        requires
            old(out).wf(),
        ensures
            final(out).wf(),
            final(out)@ == old(out)@.union(self@.difference(other@)),
    {
        let ghost w = pair_views(self.items@);
        let ghost base = out@;
        let mut i: usize = 0;
        assert(w.take(0).to_set().difference(other@) =~= Set::empty());
        assert(base.union(w.take(0).to_set().difference(other@)) =~= base);
        while i < self.items.len()
            invariant
                i <= self.items.len(),
                w == pair_views(self.items@),
                out.wf(),
                out@ == base.union(w.take(i as int).to_set().difference(other@)),
            decreases self.items.len() - i,
        {
            let ghost p = w[i as int];
            proof {
                crate::textset::lemma_take_to_set(w, i as int);
            }
            if !other.contains(self.items[i].0.as_str(), self.items[i].1.as_str()) {
                let _ = out.insert(self.items[i].0.clone(), self.items[i].1.clone());
            }
            proof {
                assert(out@ =~= base.union(w.take(i + 1).to_set().difference(other@)));
            }
            i += 1;
        }
        assert(w.take(i as int) =~= w);
    }

    /// The pairs in lexicographic order.
    pub fn sorted(&self) -> (out: Vec<(String, String)>)
        requires
            self.wf(),
        ensures
            pairs_sorted(pair_views(out@)),
            pair_views(out@).to_set() == self@,
            pair_views(out@).no_duplicates(),
    {
        let ghost w = pair_views(self.items@);
        let mut out: Vec<(String, String)> = Vec::new();
        let mut i: usize = 0;
        proof {
            assert(pair_views(out@) =~= Seq::empty());
            assert(w.take(0) =~= Seq::empty());
        }
        while i < self.items.len()
            invariant
                i <= self.items.len(),
                w == pair_views(self.items@),
                w.no_duplicates(),
                pairs_sorted(pair_views(out@)),
                pair_views(out@).no_duplicates(),
                pair_views(out@).to_set() == w.take(i as int).to_set(),
            decreases self.items.len() - i,
        {
            let ghost x = w[i as int];
            let ghost s = pair_views(out@);
            proof {
                crate::textset::lemma_take_to_set(w, i as int);
                if s.contains(x) {
                    assert(s.to_set().contains(x));
                    let q = choose|q: int| 0 <= q < w.take(i as int).len() && w.take(i as int)[q] == x;
                    assert(w[q] == w[i as int]);
                }
            }
            let mut at: usize = 0;
            while at < out.len() && pair_before(&out[at], &self.items[i])
                invariant
                    at <= out.len(),
                    i < self.items.len(),
                    s == pair_views(out@),
                    x == pair_views(self.items@)[i as int],
                    forall|k: int| 0 <= k < at ==> pair_lt(s[k], x),
                decreases out.len() - at,
            {
                at += 1;
            }
            proof {
                lemma_insert_sorted(s, x, at as int);
            }
            out.insert(at, (self.items[i].0.clone(), self.items[i].1.clone()));
            assert(pair_views(out@) =~= s.insert(at as int, x));
            i += 1;
        }
        assert(w.take(i as int) =~= w);
        out
    }
}

/// Lexicographic order of pairs.
pub open spec fn pair_lt(a: Pair, b: Pair) -> bool {
    text_lt(a.0, b.0) || (a.0 == b.0 && text_lt(a.1, b.1))
}

/// Each item stands before all that follow it.
pub open spec fn pairs_sorted(v: Seq<Pair>) -> bool {
    forall|i: int, j: int| 0 <= i < j < v.len() ==> pair_lt(#[trigger] v[i], #[trigger] v[j])
}

fn pair_before(a: &(String, String), b: &(String, String)) -> (r: bool)
    ensures
        r == pair_lt((a.0@, a.1@), (b.0@, b.1@)),
{
    text_before(a.0.as_str(), b.0.as_str()) || (same_text(a.0.as_str(), b.0.as_str()) && text_before(
        a.1.as_str(),
        b.1.as_str(),
    ))
}

pub proof fn lemma_pair_lt_transitive(a: Pair, b: Pair, c: Pair)
    requires
        pair_lt(a, b),
        pair_lt(b, c),
    ensures
        pair_lt(a, c),
{
    if text_lt(a.0, b.0) && text_lt(b.0, c.0) {
        crate::text::lemma_lt_transitive(a.0, b.0, c.0);
    }
    if text_lt(a.1, b.1) && text_lt(b.1, c.1) {
        crate::text::lemma_lt_transitive(a.1, b.1, c.1);
    }
}

proof fn lemma_insert_sorted(s: Seq<Pair>, x: Pair, at: int)
    requires
        pairs_sorted(s),
        s.no_duplicates(),
        !s.contains(x),
        0 <= at <= s.len(),
        forall|k: int| 0 <= k < at ==> pair_lt(s[k], x),
        at < s.len() ==> !pair_lt(s[at], x),
    ensures
        pairs_sorted(s.insert(at, x)),
        s.insert(at, x).no_duplicates(),
        s.insert(at, x).to_set() == s.to_set().insert(x),
{
    let t = s.insert(at, x);
    assert forall|k: int| at <= k < s.len() implies pair_lt(x, s[k]) by {
        assert(s[at] != x) by {
            assert(s.contains(s[at]));
        }
        crate::text::lemma_lt_total(s[at].0, x.0);
        crate::text::lemma_lt_total(s[at].1, x.1);
        assert(pair_lt(x, s[at]));
        if k > at {
            lemma_pair_lt_transitive(x, s[at], s[k]);
        }
    }
    assert forall|i: int, j: int| 0 <= i < j < t.len() implies pair_lt(#[trigger] t[i], #[trigger] t[j]) by {
        let a = if i < at {
            i
        } else {
            i - 1
        };
        let b = if j < at {
            j
        } else {
            j - 1
        };
        if i == at {
            assert(t[j] == s[b]);
        } else if j == at {
            assert(t[i] == s[a]);
        } else {
            assert(t[i] == s[a] && t[j] == s[b]);
        }
    }
    assert forall|i: int, j: int| 0 <= i < t.len() && 0 <= j < t.len() && i != j implies t[i] != t[j] by {
        let a = if i < at {
            i
        } else {
            i - 1
        };
        let b = if j < at {
            j
        } else {
            j - 1
        };
        if i == at {
            assert(t[j] == s[b] && s.contains(s[b]));
        } else if j == at {
            assert(t[i] == s[a] && s.contains(s[a]));
        } else {
            assert(t[i] == s[a] && t[j] == s[b]);
        }
    }
    assert forall|y: Pair| t.to_set().contains(y) <==> s.to_set().insert(x).contains(y) by {
        if t.contains(y) {
            let i = choose|i: int| 0 <= i < t.len() && t[i] == y;
            if i != at {
                assert(s[if i < at {
                    i
                } else {
                    i - 1
                }] == y);
            }
        }
        if s.contains(y) {
            let i = choose|i: int| 0 <= i < s.len() && s[i] == y;
            assert(t[if i < at {
                i
            } else {
                i + 1
            }] == y);
        }
        if y == x {
            assert(t[at] == y);
        }
    }
    assert(t.to_set() =~= s.to_set().insert(x));
}

/// The pairs that are in exactly one of two sets: those that appeared and
/// those that disappeared.
pub fn set_transitions(prev: &PairSet, curr: &PairSet) -> (changed: PairSet)
    ensures
        changed.wf(),
        changed@ == changes(prev@, curr@),
{
    let mut out = PairSet::new();
    prev.minus_into(curr, &mut out);
    curr.minus_into(prev, &mut out);
    assert(out@ =~= changes(prev@, curr@));
    out
}

/// The pairs that are in exactly one of two sets.
pub open spec fn changes(a: Set<Pair>, b: Set<Pair>) -> Set<Pair> {
    a.difference(b).union(b.difference(a))
}

/// What changed from one set to another is what changes on the way back, and
/// nothing changes from a set to itself.
pub proof fn law_changes_symmetric(a: Set<Pair>, b: Set<Pair>)
    ensures
        changes(a, b) == changes(b, a),
        changes(a, a) == Set::<Pair>::empty(),
        changes(a, b) == Set::<Pair>::empty() ==> a == b,
{
    assert(changes(a, b) =~= changes(b, a));
    assert(changes(a, a) =~= Set::<Pair>::empty());
    if changes(a, b) == Set::<Pair>::empty() {
        assert forall|x: Pair| a.contains(x) <==> b.contains(x) by {
            assert(!changes(a, b).contains(x));
        }
        assert(a =~= b);
    }
}

/// Applying the changes to the earlier set gives the later one.
pub proof fn law_changes_apply(a: Set<Pair>, b: Set<Pair>)
    ensures
        changes(a, changes(a, b)) == b,
{
    assert(changes(a, changes(a, b)) =~= b);
}

} // verus!
