//! Frames that were lost on the way to each peer.

use crate::peers::{
    lists_peers, peer_table, peers_entries, peers_get, peers_insert, peers_new, peers_remove, PeerMap,
};
use vstd::prelude::*;

verus! {

/// How many frames were dropped for each peer that has a writer.
pub struct DropCounts {
    pub dropped: papaya::HashMap<String, u64>,
}

/// The entries of `t` that are above zero.
pub open spec fn above_zero(t: PeerMap) -> PeerMap {
    t.restrict(t.dom().filter(|k: Seq<char>| t[k] > 0))
}

/// The count after one more drop; it starts again behind the highest number.
pub open spec fn one_more(t: PeerMap, peer: Seq<char>) -> u64 {
    if !t.contains_key(peer) {
        1
    } else if t[peer] == u64::MAX {
        0
    } else {
        (t[peer] + 1) as u64
    }
}

impl DropCounts {
    pub open spec fn table(&self) -> PeerMap {
        peer_table(self.dropped)
    }

    pub fn new() -> (d: DropCounts)
        ensures
            d.table() == PeerMap::empty(),
    {
        DropCounts { dropped: peers_new() }
    }

    /// A new writer counts from zero.
    pub fn spawned(&mut self, peer: &str)
        ensures
            final(self).table() == old(self).table().insert(peer@, 0),
    {
        peers_insert(&mut self.dropped, peer.to_owned(), 0);
    }

    /// With the writer goes its count.
    pub fn removed(&mut self, peer: &str)
        ensures
            final(self).table() == old(self).table().remove(peer@),
    {
        peers_remove(&mut self.dropped, peer);
    }

    /// Counts a frame that was dropped on the way to `peer`.
    pub fn count(&mut self, peer: &str)
        ensures
            final(self).table() == old(self).table().insert(peer@, one_more(old(self).table(), peer@)),
    {
        let n: u64 = match peers_get(&self.dropped, peer) {
            None => 1,
            Some(n) => n.wrapping_add(1),
        };
        peers_insert(&mut self.dropped, peer.to_owned(), n);
    }

    /// The peers for which at least one frame was dropped, each with its count,
    /// in no particular order.
    pub fn peer_drop_counts(&self) -> (r: Vec<(String, u64)>)
        ensures
            lists_peers(r@, above_zero(self.table())),
    {
        let all = peers_entries(&self.dropped);
        let ghost t = self.table();
        let ghost some = above_zero(t);
        let ghost mut src: Seq<int> = Seq::empty();
        let mut out: Vec<(String, u64)> = Vec::new();
        let mut i: usize = 0;
        while i < all.len()
            invariant
                i <= all.len(),
                src.len() == out@.len(),
                forall|j: int|
                    0 <= j < src.len() ==> 0 <= #[trigger] src[j] < i && out@[j].0@ == all@[src[j]].0@ && out@[j].1
                        == all@[src[j]].1 && out@[j].1 > 0,
                forall|j: int, k: int| 0 <= j < k < src.len() ==> src[j] < src[k],
                forall|a: int| 0 <= a < i && (#[trigger] all@[a]).1 > 0 ==> src.contains(a),
            decreases all.len() - i,
        {
            let ghost old_src = src;
            let ghost old_out = out@;
            if all[i].1 > 0 {
                out.push((all[i].0.clone(), all[i].1));
                proof {
                    src = src.push(i as int);
                    assert(src[src.len() - 1] == i);
                    assert forall|a: int| old_src.contains(a) implies src.contains(a) by {
                        let j = choose|j: int| 0 <= j < old_src.len() && old_src[j] == a;
                        assert(src[j] == a);
                    }
                    assert forall|j: int| 0 <= j < src.len() implies 0 <= #[trigger] src[j] < i + 1 && out@[j].0@
                        == all@[src[j]].0@ && out@[j].1 == all@[src[j]].1 && out@[j].1 > 0 by {
                        if j < old_src.len() {
                            assert(src[j] == old_src[j]);
                            assert(out@[j] == old_out[j]);
                        }
                    }
                }
            }
            i += 1;
        }
        proof {
            assert forall|j: int| 0 <= j < out@.len() implies some.contains_key(#[trigger] out@[j].0@)
                && some[out@[j].0@] == out@[j].1 by {
                assert(out@[j].0@ == all@[src[j]].0@);
            }
            assert forall|j: int, k: int| 0 <= j < k < out@.len() implies #[trigger] out@[j].0@
                != #[trigger] out@[k].0@ by {
                assert(src[j] < src[k]);
                assert(all@[src[j]].0@ != all@[src[k]].0@);
            }
            assert forall|k: Seq<char>| #[trigger] some.contains_key(k) implies exists|j: int|
                0 <= j < out@.len() && #[trigger] out@[j].0@ == k by {
                let m = choose|m: int| 0 <= m < all@.len() && #[trigger] all@[m].0@ == k;
                assert(src.contains(m));
                let j = choose|j: int| 0 <= j < src.len() && src[j] == m;
                assert(out@[j].0@ == k);
            }
        }
        out
    }
}

/// A dropped frame raises the count of its peer by one, from nothing to one if there
/// is no count yet.
pub proof fn law_drop_raises_the_count(t: PeerMap, peer: Seq<char>)
    ensures
        !t.contains_key(peer) ==> one_more(t, peer) == 1,
        t.contains_key(peer) && t[peer] < 0xffff_ffff_ffff_ffff ==> one_more(t, peer) == t[peer] + 1,
{
}

/// The counts that are told are those of the peers that lost something, unchanged.
pub proof fn law_counts_of_losers_are_told(t: PeerMap, peer: Seq<char>)
    ensures
        above_zero(t).contains_key(peer) <==> t.contains_key(peer) && t[peer] != 0,
        above_zero(t).contains_key(peer) ==> above_zero(t)[peer] == t[peer],
{
}

} // verus!
