//! Scans of the table that keep what they understand: the shape that the
//! detectors, the resolver and the overlays share.

use crate::kv::KvHandle;
use crate::store::{lists_all, live, store_entries, Table};
use crate::text::{copy_bytes, has_prefix, starts_with};
use vstd::prelude::*;

verus! {

/// What a scan makes of a live entry: of its key, its value and the time it
/// was written.
pub type Reading<V> = spec_fn(Seq<char>, Seq<u8>, u64) -> Option<V>;

/// `r` holds every live entry whose key begins with `prefix` once, with the
/// time it was written, and nothing else.
pub open spec fn lists_live_ts(r: Seq<(String, Vec<u8>, u64)>, t: Table, prefix: Seq<char>) -> bool {
    &&& forall|i: int|
        0 <= i < r.len() ==> has_prefix(#[trigger] r[i].0@, prefix) && live(t, r[i].0@) == Some(
            r[i].1@,
        ) && t[r[i].0@].1 == r[i].2
    &&& forall|i: int, j: int| 0 <= i < j < r.len() ==> #[trigger] r[i].0@ != #[trigger] r[j].0@
    &&& forall|k: Seq<char>|
        has_prefix(k, prefix) && #[trigger] live(t, k) is Some ==> exists|i: int|
            0 <= i < r.len() && #[trigger] r[i].0@ == k
}

/// What `f` makes of the entry of `k`.
pub open spec fn reading_at<V>(t: Table, k: Seq<char>, f: Reading<V>) -> Option<V> {
    if live(t, k) is Some {
        f(k, live(t, k)->0, t[k].1)
    } else {
        None
    }
}

/// `r` holds what `f` makes of the live entries under `prefix`, once for each
/// entry that it understands; `ks` holds the keys of those.
pub open spec fn readings_by_key<V>(
    r: Seq<V>,
    ks: Seq<Seq<char>>,
    t: Table,
    prefix: Seq<char>,
    f: Reading<V>,
) -> bool {
    &&& ks.len() == r.len()
    &&& ks.no_duplicates()
    &&& forall|i: int|
        0 <= i < ks.len() ==> has_prefix(#[trigger] ks[i], prefix) && reading_at(t, ks[i], f) == Some(
            r[i],
        )
    &&& forall|k: Seq<char>|
        has_prefix(k, prefix) && (#[trigger] reading_at(t, k, f)) is Some ==> ks.contains(k)
}

/// `r` holds what `f` makes of the live entries under `prefix`, once for each
/// entry that it understands, in no particular order.
pub open spec fn lists_readings<V>(r: Seq<V>, t: Table, prefix: Seq<char>, f: Reading<V>) -> bool {
    exists|ks: Seq<Seq<char>>| #[trigger] readings_by_key(r, ks, t, prefix, f)
}

/// The state of a loop over `found` before step `i`: `r` holds what `f` made
/// of the entries that it understood, and `src` their places.
pub open spec fn picked<V>(
    found: Seq<(String, Vec<u8>, u64)>,
    i: int,
    src: Seq<int>,
    r: Seq<V>,
    f: Reading<V>,
) -> bool {
    &&& src.len() == r.len()
    &&& forall|j: int|
        0 <= j < src.len() ==> 0 <= #[trigger] src[j] < i && f(
            found[src[j]].0@,
            found[src[j]].1@,
            found[src[j]].2,
        ) == Some(r[j])
    &&& src.no_duplicates()
    &&& forall|a: int|
        0 <= a < i && f((#[trigger] found[a]).0@, found[a].1@, found[a].2) is Some ==> src.contains(a)
}

/// One more entry was understood, and what it gave stands at `at`.
pub proof fn lemma_pick_at<V>(
    found: Seq<(String, Vec<u8>, u64)>,
    i: int,
    src: Seq<int>,
    r: Seq<V>,
    f: Reading<V>,
    x: V,
    at: int,
)
    requires
        picked(found, i, src, r, f),
        0 <= i < found.len(),
        0 <= at <= r.len(),
        f(found[i].0@, found[i].1@, found[i].2) == Some(x),
    ensures
        picked(found, i + 1, src.insert(at, i), r.insert(at, x), f),
{
    let s = src.insert(at, i);
    let q = r.insert(at, x);
    assert(s[at] == i);
    assert forall|a: int|
        0 <= a < i + 1 && f((#[trigger] found[a]).0@, found[a].1@, found[a].2) is Some implies s.contains(
        a,
    ) by {
        if a < i {
            let j = choose|j: int| 0 <= j < src.len() && src[j] == a;
            assert(s[if j < at {
                j
            } else {
                j + 1
            }] == a);
        }
    }
    assert forall|j: int| 0 <= j < s.len() implies 0 <= #[trigger] s[j] < i + 1 && f(
        found[s[j]].0@,
        found[s[j]].1@,
        found[s[j]].2,
    ) == Some(q[j]) by {
        if j != at {
            let k = if j < at {
                j
            } else {
                j - 1
            };
            assert(s[j] == src[k] && q[j] == r[k]);
        }
    }
    assert forall|a: int, b: int| 0 <= a < s.len() && 0 <= b < s.len() && a != b implies s[a] != s[b] by {
        let ka = if a < at {
            a
        } else {
            a - 1
        };
        let kb = if b < at {
            b
        } else {
            b - 1
        };
        if a != at {
            assert(s[a] == src[ka]);
        }
        if b != at {
            assert(s[b] == src[kb]);
        }
    }
}

/// One more entry was understood, and what it gave stands last.
pub proof fn lemma_pick<V>(
    found: Seq<(String, Vec<u8>, u64)>,
    i: int,
    src: Seq<int>,
    r: Seq<V>,
    f: Reading<V>,
    x: V,
)
    requires
        picked(found, i, src, r, f),
        0 <= i < found.len(),
        f(found[i].0@, found[i].1@, found[i].2) == Some(x),
    ensures
        picked(found, i + 1, src.push(i), r.push(x), f),
{
    lemma_pick_at(found, i, src, r, f, x, r.len() as int);
    assert(src.insert(src.len() as int, i) =~= src.push(i));
    assert(r.insert(r.len() as int, x) =~= r.push(x));
}

/// One more entry was not understood.
pub proof fn lemma_skip<V>(
    found: Seq<(String, Vec<u8>, u64)>,
    i: int,
    src: Seq<int>,
    r: Seq<V>,
    f: Reading<V>,
)
    requires
        picked(found, i, src, r, f),
        0 <= i < found.len(),
        f(found[i].0@, found[i].1@, found[i].2) is None,
    ensures
        picked(found, i + 1, src, r, f),
{
}

/// Once all entries have been seen, `r` is complete.
pub proof fn lemma_picked_all<V>(
    found: Seq<(String, Vec<u8>, u64)>,
    t: Table,
    prefix: Seq<char>,
    src: Seq<int>,
    r: Seq<V>,
    f: Reading<V>,
)
    requires
        lists_live_ts(found, t, prefix),
        picked(found, found.len() as int, src, r, f),
    ensures
        readings_by_key(r, src.map_values(|a: int| found[a].0@), t, prefix, f),
        lists_readings(r, t, prefix, f),
{
    let ks = src.map_values(|a: int| found[a].0@);
    assert forall|a: int, b: int| 0 <= a < ks.len() && 0 <= b < ks.len() && a != b implies ks[a]
        != ks[b] by {
        assert(src[a] != src[b]);
        if src[a] < src[b] {
            assert(found[src[a]].0@ != found[src[b]].0@);
        } else {
            assert(found[src[b]].0@ != found[src[a]].0@);
        }
    }
    assert forall|i: int| 0 <= i < ks.len() implies has_prefix(#[trigger] ks[i], prefix)
        && reading_at(t, ks[i], f) == Some(r[i]) by {
        assert(ks[i] == found[src[i]].0@);
    }
    assert forall|k: Seq<char>|
        has_prefix(k, prefix) && (#[trigger] reading_at(t, k, f)) is Some implies ks.contains(k) by {
        let a = choose|a: int| 0 <= a < found.len() && #[trigger] found[a].0@ == k;
        assert(f(found[a].0@, found[a].1@, found[a].2) is Some);
        assert(src.contains(a));
        let j = choose|j: int| 0 <= j < src.len() && src[j] == a;
        assert(ks[j] == k);
    }
    assert(readings_by_key(r, ks, t, prefix, f));
}

/// The keys under `prefix` whose entries `f` understands.
pub open spec fn reading_keys<V>(t: Table, prefix: Seq<char>, f: Reading<V>) -> Set<Seq<char>> {
    Set::new(|k: Seq<char>| has_prefix(k, prefix) && reading_at(t, k, f) is Some)
}

/// A complete listing is as long as there are keys that give something.
pub proof fn lemma_listing_count<V>(r: Seq<V>, t: Table, prefix: Seq<char>, f: Reading<V>)
    requires
        lists_readings(r, t, prefix, f),
    ensures
        reading_keys(t, prefix, f).finite(),
        r.len() == reading_keys(t, prefix, f).len(),
{
    let ks = choose|ks: Seq<Seq<char>>| #[trigger] readings_by_key(r, ks, t, prefix, f);
    assert forall|k: Seq<char>| ks.to_set().contains(k) <==> reading_keys(t, prefix, f).contains(k) by {
        if ks.contains(k) {
            let i = choose|i: int| 0 <= i < ks.len() && ks[i] == k;
            assert(reading_at(t, ks[i], f) == Some(r[i]));
        }
        if reading_keys(t, prefix, f).contains(k) {
            assert(ks.contains(k));
        }
    }
    assert(ks.to_set() =~= reading_keys(t, prefix, f));
    ks.unique_seq_to_set();
}

/// What `f` makes of the live entries under `prefix`, as a set.
pub open spec fn reading_set<V>(t: Table, prefix: Seq<char>, f: Reading<V>) -> Set<V> {
    Set::new(|x: V| exists|k: Seq<char>| has_prefix(k, prefix) && (#[trigger] reading_at(t, k, f)) == Some(x))
}

/// A complete listing holds exactly what the entries give.
pub proof fn lemma_listing_is_set<V>(r: Seq<V>, t: Table, prefix: Seq<char>, f: Reading<V>)
    requires
        lists_readings(r, t, prefix, f),
    ensures
        r.to_set() == reading_set(t, prefix, f),
{
    let ks = choose|ks: Seq<Seq<char>>| #[trigger] readings_by_key(r, ks, t, prefix, f);
    assert forall|x: V| r.to_set().contains(x) <==> reading_set(t, prefix, f).contains(x) by {
        if r.contains(x) {
            let i = choose|i: int| 0 <= i < r.len() && r[i] == x;
            assert(reading_at(t, ks[i], f) == Some(x));
        }
        if reading_set(t, prefix, f).contains(x) {
            let k = choose|k: Seq<char>| has_prefix(k, prefix) && (#[trigger] reading_at(t, k, f)) == Some(x);
            assert(ks.contains(k));
            let i = choose|i: int| 0 <= i < ks.len() && ks[i] == k;
            assert(r[i] == x);
        }
    }
    assert(r.to_set() =~= reading_set(t, prefix, f));
}

/// What `f` makes of the first `i` entries of `found`, as a set.
pub open spec fn read_so_far<V>(found: Seq<(String, Vec<u8>, u64)>, i: int, f: Reading<V>) -> Set<V> {
    Set::new(
        |x: V| exists|a: int| 0 <= a < i && f((#[trigger] found[a]).0@, found[a].1@, found[a].2) == Some(x),
    )
}

/// One more entry adds what `f` makes of it.
pub proof fn lemma_read_step<V>(found: Seq<(String, Vec<u8>, u64)>, i: int, f: Reading<V>)
    requires
        0 <= i < found.len(),
    ensures
        read_so_far(found, i + 1, f) == (match f(found[i].0@, found[i].1@, found[i].2) {
            Some(x) => read_so_far(found, i, f).insert(x),
            None => read_so_far(found, i, f),
        }),
        read_so_far(found, 0, f) == Set::<V>::empty(),
{
    assert(read_so_far(found, 0, f) =~= Set::<V>::empty());
    let a = read_so_far(found, i + 1, f);
    let b = match f(found[i].0@, found[i].1@, found[i].2) {
        Some(x) => read_so_far(found, i, f).insert(x),
        None => read_so_far(found, i, f),
    };
    assert forall|x: V| a.contains(x) <==> b.contains(x) by {
        if a.contains(x) {
            let j = choose|j: int|
                0 <= j < i + 1 && f((#[trigger] found[j]).0@, found[j].1@, found[j].2) == Some(x);
            if j < i {
                assert(read_so_far(found, i, f).contains(x));
            }
        }
        if read_so_far(found, i, f).contains(x) {
            let j = choose|j: int|
                0 <= j < i && f((#[trigger] found[j]).0@, found[j].1@, found[j].2) == Some(x);
            assert(f(found[j].0@, found[j].1@, found[j].2) == Some(x));
        }
        if f(found[i].0@, found[i].1@, found[i].2) == Some(x) {
            assert(a.contains(x));
        }
    }
    assert(a =~= b);
}

/// Once all entries have been read, the set is complete.
pub proof fn lemma_read_all<V>(
    found: Seq<(String, Vec<u8>, u64)>,
    t: Table,
    prefix: Seq<char>,
    f: Reading<V>,
)
    requires
        lists_live_ts(found, t, prefix),
    ensures
        read_so_far(found, found.len() as int, f) == reading_set(t, prefix, f),
        read_so_far(found, 0, f) == Set::<V>::empty(),
{
    assert(read_so_far(found, 0, f) =~= Set::<V>::empty());
    let a = read_so_far(found, found.len() as int, f);
    let b = reading_set(t, prefix, f);
    assert forall|x: V| a.contains(x) <==> b.contains(x) by {
        if a.contains(x) {
            let j = choose|j: int|
                0 <= j < found.len() && f((#[trigger] found[j]).0@, found[j].1@, found[j].2) == Some(x);
            assert(reading_at(t, found[j].0@, f) == Some(x));
        }
        if b.contains(x) {
            let k = choose|k: Seq<char>| has_prefix(k, prefix) && (#[trigger] reading_at(t, k, f)) == Some(x);
            let j = choose|j: int| 0 <= j < found.len() && #[trigger] found[j].0@ == k;
            assert(f(found[j].0@, found[j].1@, found[j].2) == Some(x));
        }
    }
    assert(a =~= b);
}

impl KvHandle {
    /// Every live entry whose key begins with `prefix`, once each, with the
    /// time it was written, in no particular order.
    pub fn scan_prefix_with_ts(&self, prefix: &str) -> (r: Vec<(String, Vec<u8>, u64)>)
        ensures
            lists_live_ts(r@, self.table(), prefix@),
    {
        let all = store_entries(&self.store);
        let ghost t = self.table();
        let mut out: Vec<(String, Vec<u8>, u64)> = Vec::new();
        let ghost mut src: Seq<int> = Seq::empty();
        let mut i: usize = 0;
        while i < all.len()
            invariant
                i <= all.len(),
                t == self.table(),
                lists_all(all@, t),
                src.len() == out@.len(),
                forall|j: int|
                    0 <= j < src.len() ==> 0 <= #[trigger] src[j] < i && out@[j].0@ == all@[src[j]].0@
                        && has_prefix(out@[j].0@, prefix@) && all@[src[j]].1@ == (
                        Some(out@[j].1@),
                        out@[j].2,
                    ),
                forall|j: int, k: int| 0 <= j < k < src.len() ==> src[j] < src[k],
                forall|a: int|
                    0 <= a < i && has_prefix((#[trigger] all@[a]).0@, prefix@) && all@[a].1@.0 is Some
                        ==> src.contains(a),
            decreases all.len() - i,
        {
            let ghost old_src = src;
            let ghost old_out = out@;
            if starts_with(all[i].0.as_str(), prefix) {
                match &all[i].1.data {
                    None => {},
                    Some(v) => {
                        out.push((all[i].0.clone(), copy_bytes(v), all[i].1.timestamp));
                        proof {
                            src = src.push(i as int);
                            assert(src[src.len() - 1] == i);
                            assert forall|a: int| old_src.contains(a) implies src.contains(a) by {
                                let j = choose|j: int| 0 <= j < old_src.len() && old_src[j] == a;
                                assert(src[j] == a);
                            }
                            assert forall|j: int| 0 <= j < src.len() implies 0 <= #[trigger] src[j] < i + 1
                                && out@[j].0@ == all@[src[j]].0@ && has_prefix(out@[j].0@, prefix@)
                                && all@[src[j]].1@ == (Some(out@[j].1@), out@[j].2) by {
                                if j < old_src.len() {
                                    assert(src[j] == old_src[j]);
                                    assert(out@[j] == old_out[j]);
                                }
                            }
                        }
                    },
                }
            }
            i += 1;
        }
        proof {
            assert forall|i: int| 0 <= i < out@.len() implies has_prefix(#[trigger] out@[i].0@, prefix@)
                && live(t, out@[i].0@) == Some(out@[i].1@) && t[out@[i].0@].1 == out@[i].2 by {
                assert(out@[i].0@ == all@[src[i]].0@);
            }
            assert forall|i: int, j: int| 0 <= i < j < out@.len() implies #[trigger] out@[i].0@
                != #[trigger] out@[j].0@ by {
                assert(src[i] < src[j]);
                assert(all@[src[i]].0@ != all@[src[j]].0@);
            }
            assert forall|k: Seq<char>|
                has_prefix(k, prefix@) && #[trigger] live(t, k) is Some implies exists|j: int|
                0 <= j < out@.len() && #[trigger] out@[j].0@ == k by {
                assert(t.contains_key(k));
                let m = choose|m: int| 0 <= m < all@.len() && #[trigger] all@[m].0@ == k;
                assert(src.contains(m));
                let j = choose|j: int| 0 <= j < src.len() && src[j] == m;
                assert(out@[j].0@ == k);
            }
        }
        out
    }
}

} // verus!
