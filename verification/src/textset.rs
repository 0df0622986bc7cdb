//! Sets of texts.

use vstd::prelude::*;

verus! {

/// The hash set of the `ahash` crate.
#[verifier::external_type_specification]
#[verifier::external_body]
#[verifier::reject_recursive_types(T)]
#[verifier::reject_recursive_types(S)]
pub struct ExAHashSet<T, S>(ahash::AHashSet<T, S>);

/// The hasher that `ahash` sets use where no other is named.
#[verifier::external_type_specification]
#[verifier::external_body]
pub struct ExAHashRandomState(ahash::RandomState);

/// The texts that a set holds.
pub uninterp spec fn text_set(s: ahash::AHashSet<String>) -> Set<Seq<char>>;

/// `ahash::AHashSet::new`: a set without items.
#[verifier::external_body]
pub(crate) fn set_new() -> (s: ahash::AHashSet<String>)
    ensures
        text_set(s) == Set::<Seq<char>>::empty(),
{
    ahash::AHashSet::new()
}

/// `insert` of `ahash::AHashSet`: `item` is in the set afterwards; `true`
/// means that it was not before.
#[verifier::external_body]
pub(crate) fn set_insert(s: &mut ahash::AHashSet<String>, item: String) -> (newly: bool)
    ensures
        text_set(*final(s)) == text_set(*old(s)).insert(item@),
        newly == !text_set(*old(s)).contains(item@),
{
    s.insert(item)
}

/// `remove` of `ahash::AHashSet`: `item` is not in the set afterwards;
/// `true` means that it was before.
#[verifier::external_body]
pub(crate) fn set_remove(s: &mut ahash::AHashSet<String>, item: &str) -> (was_in: bool)
    ensures
        text_set(*final(s)) == text_set(*old(s)).remove(item@),
        was_in == text_set(*old(s)).contains(item@),
{
    s.remove(item)
}

/// `contains` of `ahash::AHashSet`.
#[verifier::external_body]
pub(crate) fn set_contains(s: &ahash::AHashSet<String>, item: &str) -> (r: bool)
    ensures
        r == text_set(*s).contains(item@),
{
    s.contains(item)
}

/// `iter` of `ahash::AHashSet`: every item once, in no particular order.
#[verifier::external_body]
pub(crate) fn set_items(s: &ahash::AHashSet<String>) -> (r: Vec<String>)
    ensures
        lists_set(r@, text_set(*s)),
{
    s.iter().cloned().collect()
}

/// `r` holds every text of `s` once, and nothing else.
pub open spec fn lists_set(r: Seq<String>, s: Set<Seq<char>>) -> bool {
    &&& forall|i: int| 0 <= i < r.len() ==> s.contains((#[trigger] r[i])@)
    &&& forall|i: int, j: int| 0 <= i < j < r.len() ==> (#[trigger] r[i])@ != (#[trigger] r[j])@
    &&& forall|t: Seq<char>| #[trigger]
        s.contains(t) ==> exists|i: int| 0 <= i < r.len() && (#[trigger] r[i])@ == t
}

/// A complete listing is as long as the set is large.
pub proof fn lemma_listing_len(r: Seq<String>, s: Set<Seq<char>>)
    requires
        lists_set(r, s),
    ensures
        s.finite(),
        s.len() == r.len(),
        s == crate::text::views(r).to_set(),
        crate::text::views(r).no_duplicates(),
{
    let v = crate::text::views(r);
    assert forall|i: int, j: int| 0 <= i < v.len() && 0 <= j < v.len() && i != j implies v[i]
        != v[j] by {
        if i < j {
            assert(r[i]@ != r[j]@);
        } else {
            assert(r[j]@ != r[i]@);
        }
    }
    assert forall|t: Seq<char>| s.contains(t) <==> v.to_set().contains(t) by {
        if s.contains(t) {
            let i = choose|i: int| 0 <= i < r.len() && (#[trigger] r[i])@ == t;
            assert(v[i] == t);
        }
        if v.to_set().contains(t) {
            let i = choose|i: int| 0 <= i < v.len() && v[i] == t;
            assert(r[i]@ == t);
        }
    }
    assert(s =~= v.to_set());
    v.unique_seq_to_set();
}

/// One more item in front of the cut is one more item in the set.
pub proof fn lemma_take_to_set<A>(v: Seq<A>, i: int)
    requires
        0 <= i < v.len(),
    ensures
        v.take(i + 1).to_set() == v.take(i).to_set().insert(v[i]),
{
    let a = v.take(i + 1).to_set();
    let b = v.take(i).to_set().insert(v[i]);
    assert forall|x: A| a.contains(x) <==> b.contains(x) by {
        let longer = v.take(i + 1);
        if longer.contains(x) {
            let q = choose|q: int| 0 <= q < longer.len() && longer[q] == x;
            if q < i {
                assert(v.take(i)[q] == x);
            }
        }
        if v.take(i).contains(x) {
            let q = choose|q: int| 0 <= q < i && v.take(i)[q] == x;
            assert(v.take(i + 1)[q] == x);
        }
        if x == v[i] {
            assert(v.take(i + 1)[i] == x);
        }
    }
    assert(a =~= b);
}

/// Adds the first `n` texts of `v` to `s`.
pub fn set_extend(s: &mut ahash::AHashSet<String>, v: &Vec<String>, n: usize)
    requires
        n <= v@.len(),
    ensures
        text_set(*final(s)) == text_set(*old(s)).union(
            crate::text::views(v@).take(n as int).to_set(),
        ),
{
    let ghost w = crate::text::views(v@);
    let mut i: usize = 0;
    assert(w.take(0).to_set() =~= Set::<Seq<char>>::empty());
    assert(text_set(*s) =~= text_set(*old(s)).union(w.take(0).to_set()));
    while i < n
        invariant
            i <= n <= v@.len(),
            w == crate::text::views(v@),
            text_set(*s) == text_set(*old(s)).union(w.take(i as int).to_set()),
        decreases n - i,
    {
        let _ = set_insert(s, v[i].clone());
        proof {
            lemma_take_to_set(w, i as int);
            assert(text_set(*s) =~= text_set(*old(s)).union(w.take(i + 1).to_set()));
        }
        i += 1;
    }
}

/// The number of texts in `s`.
pub fn set_count(s: &ahash::AHashSet<String>) -> (n: usize)
    ensures
        n == text_set(*s).len(),
        text_set(*s).finite(),
{
    let items = set_items(s);
    proof {
        lemma_listing_len(items@, text_set(*s));
    }
    items.len()
}

/// Whether two sets hold the same texts.
pub fn same_set(a: &ahash::AHashSet<String>, b: &ahash::AHashSet<String>) -> (r: bool)
    ensures
        r == (text_set(*a) == text_set(*b)),
{
    subset_of(a, b) && subset_of(b, a)
}

fn subset_of(a: &ahash::AHashSet<String>, b: &ahash::AHashSet<String>) -> (r: bool)
    ensures
        r == text_set(*a).subset_of(text_set(*b)),
        text_set(*a).subset_of(text_set(*b)) && text_set(*b).subset_of(text_set(*a)) ==> text_set(
            *a,
        ) == text_set(*b),
{
    let items = set_items(a);
    proof {
        if text_set(*a).subset_of(text_set(*b)) && text_set(*b).subset_of(text_set(*a)) {
            assert(text_set(*a) =~= text_set(*b));
        }
    }
    let mut i: usize = 0;
    while i < items.len()
        invariant
            i <= items.len(),
            lists_set(items@, text_set(*a)),
            forall|k: int| 0 <= k < i ==> text_set(*b).contains((#[trigger] items@[k])@),
        decreases items.len() - i,
    {
        if !set_contains(b, items[i].as_str()) {
            assert(text_set(*a).contains(items@[i as int]@));
            return false;
        }
        i += 1;
    }
    assert forall|t: Seq<char>| text_set(*a).contains(t) implies text_set(*b).contains(t) by {
        let k = choose|k: int| 0 <= k < items@.len() && (#[trigger] items@[k])@ == t;
        assert(text_set(*b).contains(items@[k]@));
    }
    true
}

} // verus!
