//! Quorums over a roster that was hashed beforehand.

use crate::mesh::{lemma_members_set, members_of, MeshHandle};
use crate::node_id::{node_views, NodeView};
use crate::pairs::lemma_push_new;
use crate::signals::{recent, recent_senders, DeliveryView};
use crate::textset::lemma_take_to_set;
use crate::wire::id_hash;
use vstd::prelude::*;

verus! {

/// The numbers that a set holds.
pub uninterp spec fn hash_set(s: ahash::AHashSet<u64>) -> Set<u64>;

/// `ahash::AHashSet::new`: a set without items.
#[verifier::external_body]
fn hashes_new() -> (s: ahash::AHashSet<u64>)
    ensures
        hash_set(s) == Set::<u64>::empty(),
{
    ahash::AHashSet::new()
}

/// `insert` of `ahash::AHashSet`: `item` is in the set afterwards; no other
/// number is added or lost.
#[verifier::external_body]
fn hashes_insert(s: &mut ahash::AHashSet<u64>, item: u64)
    ensures
        hash_set(*final(s)) == hash_set(*old(s)).insert(item),
{
    s.insert(item);
}

/// `contains` of `ahash::AHashSet`.
#[verifier::external_body]
fn hashes_contain(s: &ahash::AHashSet<u64>, item: u64) -> (r: bool)
    ensures
        r == hash_set(*s).contains(item),
{
    s.contains(&item)
}

/// The nodes whose hash is among `hashes`.
pub open spec fn hashed_into(hashes: Set<u64>) -> Set<NodeView> {
    Set::new(|n: NodeView| hashes.contains(id_hash(n)))
}

impl MeshHandle {
    /// The hashes of the members of `group` that the table knows.
    pub fn group_hashes(&self, group: &str) -> (r: ahash::AHashSet<u64>)
        ensures
            hash_set(r) == members_of(self.kv.table(), group@).map(|n: NodeView| id_hash(n)),
    {
        let members = self.group_members(group);
        let ghost w = node_views(members@);
        let ghost of = |n: NodeView| id_hash(n);
        let mut out = hashes_new();
        let mut i: usize = 0;
        proof {
            lemma_members_set(members@, self.kv.table(), group@);
            assert(w.take(0).to_set().map(of) =~= Set::<u64>::empty());
        }
        while i < members.len()
            invariant
                i <= members.len(),
                w == node_views(members@),
                of == (|n: NodeView| id_hash(n)),
                hash_set(out) == w.take(i as int).to_set().map(of),
            decreases members.len() - i,
        {
            hashes_insert(&mut out, members[i].id_hash());
            proof {
                let before = w.take(i as int).to_set();
                let x = w[i as int];
                lemma_take_to_set(w, i as int);
                assert(before.insert(x).contains(x));
                assert forall|h: u64| #[trigger] before.insert(x).map(of).contains(h) <==> before.map(of).insert(
                    of(x),
                ).contains(h) by {
                    if before.map(of).contains(h) {
                        let n = choose|n: NodeView| before.contains(n) && h == of(n);
                        assert(before.insert(x).contains(n));
                    }
                    if before.insert(x).map(of).contains(h) {
                        let n = choose|n: NodeView| before.insert(x).contains(n) && h == of(n);
                        assert(n == x || before.contains(n));
                    }
                }
                assert(hash_set(out) =~= w.take(i + 1).to_set().map(of));
            }
            i += 1;
        }
        assert(w.take(i as int) =~= w);
        out
    }

    /// Like [`group_quorum`](Self::group_quorum), but the members that count
    /// are given by their hashes.
    pub fn group_quorum_prehashed(
        &self,
        member_hashes: &ahash::AHashSet<u64>,
        kind: &str,
        min_senders: usize,
        window_ms: u64,
        now_ms: u64,
    ) -> (r: bool)
        ensures
            r == (recent_senders(self.log.heard(), kind@, window_ms, now_ms).intersect(
                hashed_into(hash_set(*member_hashes)),
            ).len() >= min_senders),
    {
        let s = self.log.senders(kind, window_ms, now_ms);
        let ghost w = node_views(s@);
        let ghost m = hashed_into(hash_set(*member_hashes));
        let ghost mut inside: Seq<NodeView> = Seq::empty();
        let mut n: usize = 0;
        let mut i: usize = 0;
        assert(w.take(0).to_set().intersect(m) =~= inside.to_set());
        while i < s.len()
            invariant
                i <= s.len(),
                w == node_views(s@),
                w.no_duplicates(),
                m == hashed_into(hash_set(*member_hashes)),
                n == inside.len(),
                n <= i,
                inside.no_duplicates(),
                inside.to_set() == w.take(i as int).to_set().intersect(m),
            decreases s.len() - i,
        {
            let ghost x = w[i as int];
            let ghost was = inside;
            proof {
                lemma_take_to_set(w, i as int);
                if was.contains(x) {
                    assert(was.to_set().contains(x));
                    let q = choose|q: int| 0 <= q < w.take(i as int).len() && w.take(i as int)[q] == x;
                    assert(w[q] == w[i as int]);
                }
            }
            if hashes_contain(member_hashes, s[i].id_hash()) {
                n += 1;
                proof {
                    lemma_push_new(was, x);
                    inside = was.push(x);
                }
            }
            assert(inside.to_set() =~= w.take(i + 1).to_set().intersect(m));
            i += 1;
        }
        proof {
            assert(w.take(i as int) =~= w);
            inside.unique_seq_to_set();
        }
        n >= min_senders
    }
}

/// A quorum of a group is one of its hashed roster too: no member is lost by
/// hashing.
pub proof fn law_hashed_roster_counts_members(mesh: MeshHandle, group: Seq<char>, kind: Seq<char>, window_ms: u64, now_ms: u64)
    ensures
        ({
            let heard = recent_senders(mesh.log.heard(), kind, window_ms, now_ms);
            let members = members_of(mesh.kv.table(), group);
            heard.intersect(hashed_into(members.map(|n: NodeView| id_hash(n)))).len() >= heard.intersect(members).len()
        }),
{
    let heard = recent_senders(mesh.log.heard(), kind, window_ms, now_ms);
    let members = members_of(mesh.kv.table(), group);
    let of = |n: NodeView| id_hash(n);
    let by_hash = heard.intersect(hashed_into(members.map(of)));
    let by_name = heard.intersect(members);
    let log = mesh.log.heard();
    let everyone = log.map_values(|d: DeliveryView| d.1).to_set();
    assert forall|n: NodeView| heard.contains(n) implies everyone.contains(n) by {
        let i = choose|i: int|
            0 <= i < log.len() && recent(#[trigger] log[i], kind, window_ms, now_ms) && log[i].1 == n;
        assert(log.map_values(|d: DeliveryView| d.1)[i] == n);
    }
    vstd::seq_lib::seq_to_set_is_finite(log.map_values(|d: DeliveryView| d.1));
    vstd::set_lib::lemma_len_subset(heard, everyone);
    assert forall|n: NodeView| by_name.contains(n) implies by_hash.contains(n) by {
        assert(members.map(of).contains(of(n)));
    }
    vstd::set_lib::lemma_len_subset(by_name, by_hash);
}

} // verus!
