//! The frames that a node has seen, so that it takes each in once.

use crate::gc::GcCutoffs;
use vstd::prelude::*;

verus! {

/// When each frame was first seen, by its nonce.
pub uninterp spec fn seen_marks(m: papaya::HashMap<u64, u64>) -> Map<u64, u64>;

/// The model of a [`SeenSet`].
pub type SeenMap = Map<u64, u64>;

/// `papaya::HashMap::new`: a map without entries.
#[verifier::external_body]
fn seen_new() -> (m: papaya::HashMap<u64, u64>)
    ensures
        seen_marks(m) == SeenMap::empty(),
{
    papaya::HashMap::new()
}

/// `papaya::HashMapRef::get`: the time of `nonce`, if there is one.
#[verifier::external_body]
fn seen_get(m: &papaya::HashMap<u64, u64>, nonce: u64) -> (r: Option<u64>)
    ensures
        r is Some <==> seen_marks(*m).contains_key(nonce),
        r matches Some(at) ==> at == seen_marks(*m)[nonce],
{
    m.pin().get(&nonce).copied()
}

/// `papaya::HashMapRef::insert`: `nonce` maps to `at` afterwards; no other key
/// changes.
#[verifier::external_body]
fn seen_insert(m: &mut papaya::HashMap<u64, u64>, nonce: u64, at: u64)
    ensures
        seen_marks(*final(m)) == seen_marks(*old(m)).insert(nonce, at),
{
    m.pin().insert(nonce, at);
}

/// `papaya::HashMapRef::remove`: `nonce` has no entry afterwards; no other key
/// changes.
#[verifier::external_body]
fn seen_remove(m: &mut papaya::HashMap<u64, u64>, nonce: u64)
    ensures
        seen_marks(*final(m)) == seen_marks(*old(m)).remove(nonce),
{
    m.pin().remove(&nonce);
}

/// `papaya::HashMapRef::iter`: every entry once, in no particular order.
#[verifier::external_body]
fn seen_entries(m: &papaya::HashMap<u64, u64>) -> (r: Vec<(u64, u64)>)
    ensures
        lists_marks(r@, seen_marks(*m)),
{
    m.pin().iter().map(|(k, v)| (*k, *v)).collect()
}

/// `papaya::HashMapRef::len`: the number of entries.
#[verifier::external_body]
fn seen_len(m: &papaya::HashMap<u64, u64>) -> (n: usize)
    ensures
        n == seen_marks(*m).dom().len(),
{
    m.pin().len()
}

/// `r` holds every entry of `t` once, and nothing else.
pub open spec fn lists_marks(r: Seq<(u64, u64)>, t: SeenMap) -> bool {
    &&& forall|i: int| 0 <= i < r.len() ==> t.contains_key((#[trigger] r[i]).0) && t[r[i].0] == r[i].1
    &&& forall|i: int, j: int| 0 <= i < j < r.len() ==> (#[trigger] r[i]).0 != (#[trigger] r[j]).0
    &&& forall|k: u64| #[trigger]
        t.contains_key(k) ==> exists|i: int| 0 <= i < r.len() && (#[trigger] r[i]).0 == k
}

/// What is left of `t` where everything from before `cutoff` is forgotten.
pub open spec fn seen_since(t: SeenMap, cutoff: u64) -> SeenMap {
    t.restrict(t.dom().filter(|k: u64| t[k] >= cutoff))
}

/// What one round of housekeeping leaves of `t`: where it holds more than
/// `limit` frames the tighter cutoff counts, and where that is not enough only
/// the last minute stays.
pub open spec fn evicted(t: SeenMap, limit: usize, c: GcCutoffs) -> SeenMap {
    let first = seen_since(
        t,
        if t.dom().len() > limit {
            c.seen_over_limit
        } else {
            c.seen
        },
    );
    if first.dom().len() > limit {
        seen_since(first, c.seen_emergency)
    } else {
        first
    }
}

/// The frames that were seen.
pub struct SeenSet {
    pub marks: papaya::HashMap<u64, u64>,
}

impl SeenSet {
    /// When each frame was first seen.
    pub open spec fn table(&self) -> SeenMap {
        seen_marks(self.marks)
    }

    pub fn new() -> (s: SeenSet)
        ensures
            s.table() == SeenMap::empty(),
    {
        SeenSet { marks: seen_new() }
    }

    /// How many frames are remembered.
    pub fn len(&self) -> (n: usize)
        ensures
            n == self.table().dom().len(),
    {
        seen_len(&self.marks)
    }

    /// Takes note of a frame. `true` means that it was not seen before; a frame
    /// without a nonce never was.
    pub fn first_time(&mut self, nonce: u64, now_ms: u64) -> (r: bool)
        ensures
            r == (nonce == 0 || !old(self).table().contains_key(nonce)),
            final(self).table() == (if r && nonce != 0 {
                old(self).table().insert(nonce, now_ms)
            } else {
                old(self).table()
            }),
    {
        if nonce == 0 {
            return true;
        }
        match seen_get(&self.marks, nonce) {
            Some(_) => false,
            None => {
                seen_insert(&mut self.marks, nonce, now_ms);
                true
            },
        }
    }

    /// Forgets the frames that were seen before `cutoff`.
    fn forget_before(&mut self, cutoff: u64)
        ensures
            final(self).table() == seen_since(old(self).table(), cutoff),
    {
        let ghost t = self.table();
        let all = seen_entries(&self.marks);
        let mut i: usize = 0;
        while i < all.len()
            invariant
                i <= all.len(),
                lists_marks(all@, t),
                forall|k: u64| #[trigger]
                    self.table().contains_key(k) <==> t.contains_key(k) && !(t[k] < cutoff && exists|a: int|
                        0 <= a < i && (#[trigger] all@[a]).0 == k),
                forall|k: u64| #[trigger] self.table().contains_key(k) ==> self.table()[k] == t[k],
            decreases all.len() - i,
        {
            let ghost before = self.table();
            let ghost key = all@[i as int].0;
            if all[i].1 < cutoff {
                seen_remove(&mut self.marks, all[i].0);
            }
            proof {
                assert(t.contains_key(key) && t[key] == all@[i as int].1);
                assert forall|k: u64| #[trigger]
                    self.table().contains_key(k) <==> t.contains_key(k) && !(t[k] < cutoff && exists|a: int|
                        0 <= a < i + 1 && (#[trigger] all@[a]).0 == k) by {
                    assert(before.contains_key(k) || !before.contains_key(k));
                    if k == key {
                        assert(all@[i as int].0 == k);
                    } else if exists|a: int| 0 <= a < i + 1 && (#[trigger] all@[a]).0 == k {
                        let a = choose|a: int| 0 <= a < i + 1 && (#[trigger] all@[a]).0 == k;
                        assert(a < i);
                    }
                }
                assert forall|k: u64| #[trigger] self.table().contains_key(k) implies self.table()[k] == t[k] by {
                    assert(before.contains_key(k));
                }
            }
            i += 1;
        }
        assert(self.table() =~= seen_since(t, cutoff)) by {
            assert forall|k: u64| self.table().contains_key(k) <==> seen_since(t, cutoff).contains_key(k) by {
                if t.contains_key(k) {
                    let a = choose|a: int| 0 <= a < all@.len() && (#[trigger] all@[a]).0 == k;
                }
            }
        }
    }

    /// One round of housekeeping. `true` means that the set was so large that
    /// only the last minute stayed.
    pub fn evict(&mut self, limit: usize, c: &GcCutoffs) -> (trimmed: bool)
        ensures
            final(self).table() == evicted(old(self).table(), limit, *c),
            trimmed == (seen_since(
                old(self).table(),
                if old(self).table().dom().len() > limit {
                    c.seen_over_limit
                } else {
                    c.seen
                },
            ).dom().len() > limit),
    {
        let cutoff: u64 = if self.len() > limit {
            c.seen_over_limit
        } else {
            c.seen
        };
        self.forget_before(cutoff);
        let trimmed = self.len() > limit;
        if trimmed {
            self.forget_before(c.seen_emergency);
        }
        trimmed
    }
}

// ── Laws ─────────────────────────────────────────────────────────────────────

/// Within the limit, housekeeping forgets no frame of the last four
/// propagation windows.
pub proof fn law_recent_frames_are_remembered(t: SeenMap, limit: usize, c: GcCutoffs, nonce: u64)
    requires
        t.dom().finite(),
        t.dom().len() <= limit,
        t.contains_key(nonce),
        t[nonce] >= c.seen,
    ensures
        evicted(t, limit, c).contains_key(nonce),
{
    let first = seen_since(t, c.seen);
    assert(first.dom().subset_of(t.dom()));
    vstd::set_lib::lemma_len_subset(first.dom(), t.dom());
}

/// Housekeeping forgets no frame of the last minute, whatever the limit, where
/// the propagation windows are not shorter than that.
pub proof fn law_last_minute_is_remembered(t: SeenMap, limit: usize, c: GcCutoffs, nonce: u64)
    requires
        t.contains_key(nonce),
        t[nonce] >= c.seen_emergency,
        c.seen <= c.seen_emergency,
        c.seen_over_limit <= c.seen_emergency,
    ensures
        evicted(t, limit, c).contains_key(nonce),
{
}

/// Housekeeping forgets every frame from before the cutoff, and those from before the
/// tighter one where there are too many. What stays keeps its time.
pub proof fn law_old_frames_are_forgotten(t: SeenMap, limit: usize, c: GcCutoffs, nonce: u64)
    ensures
        t.contains_key(nonce) && t.dom().len() <= limit && t[nonce] < c.seen ==> !evicted(t, limit, c).contains_key(
            nonce,
        ),
        t.contains_key(nonce) && t.dom().len() > limit && t[nonce] < c.seen_over_limit ==> !evicted(
            t,
            limit,
            c,
        ).contains_key(nonce),
        !t.contains_key(nonce) ==> !evicted(t, limit, c).contains_key(nonce),
        evicted(t, limit, c).contains_key(nonce) ==> evicted(t, limit, c)[nonce] == t[nonce],
{
}

} // verus!
