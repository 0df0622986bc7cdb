//! The table of peers: when each was last heard.

use vstd::prelude::*;

verus! {

/// What a peer table holds: by the text of each peer, when it was last heard.
pub uninterp spec fn peer_table(m: papaya::HashMap<String, u64>) -> Map<Seq<char>, u64>;

/// The model of a peer table.
pub type PeerMap = Map<Seq<char>, u64>;

/// `papaya::HashMap::new`: a map without entries.
#[verifier::external_body]
pub(crate) fn peers_new() -> (m: papaya::HashMap<String, u64>)
    ensures
        peer_table(m) == PeerMap::empty(),
{
    papaya::HashMap::new()
}

/// `papaya::HashMapRef::insert`: `peer` maps to `heard` afterwards; no other
/// key changes.
#[verifier::external_body]
pub(crate) fn peers_insert(m: &mut papaya::HashMap<String, u64>, peer: String, heard: u64)
    ensures
        peer_table(*final(m)) == peer_table(*old(m)).insert(peer@, heard),
{
    m.pin().insert(peer, heard);
}

/// `papaya::HashMapRef::get`: the number of `peer`, if there is one.
#[verifier::external_body]
pub(crate) fn peers_get(m: &papaya::HashMap<String, u64>, peer: &str) -> (r: Option<u64>)
    ensures
        r is Some <==> peer_table(*m).contains_key(peer@),
        r matches Some(n) ==> n == peer_table(*m)[peer@],
{
    m.pin().get(peer).copied()
}

/// `papaya::HashMapRef::remove`: `peer` has no entry afterwards; no other
/// key changes.
#[verifier::external_body]
pub(crate) fn peers_remove(m: &mut papaya::HashMap<String, u64>, peer: &str)
    ensures
        peer_table(*final(m)) == peer_table(*old(m)).remove(peer@),
{
    m.pin().remove(peer);
}

/// `papaya::HashMapRef::iter`: every entry once, in no particular order.
#[verifier::external_body]
pub(crate) fn peers_entries(m: &papaya::HashMap<String, u64>) -> (r: Vec<(String, u64)>)
    ensures
        lists_peers(r@, peer_table(*m)),
{
    m.pin().iter().map(|(k, v)| (k.clone(), *v)).collect()
}

/// `r` holds every entry of `t` once, and nothing else.
pub open spec fn lists_peers(r: Seq<(String, u64)>, t: PeerMap) -> bool {
    &&& forall|i: int|
        0 <= i < r.len() ==> t.contains_key(#[trigger] r[i].0@) && t[r[i].0@] == r[i].1
    &&& forall|i: int, j: int| 0 <= i < j < r.len() ==> #[trigger] r[i].0@ != #[trigger] r[j].0@
    &&& forall|k: Seq<char>| #[trigger]
        t.contains_key(k) ==> exists|i: int| 0 <= i < r.len() && #[trigger] r[i].0@ == k
}

/// The peers that a node knows.
pub struct Peers {
    pub heard: papaya::HashMap<String, u64>,
}

impl Peers {
    /// When each peer was last heard.
    pub open spec fn table(&self) -> PeerMap {
        peer_table(self.heard)
    }

    /// No peers.
    pub fn new() -> (p: Peers)
        ensures
            p.table() == PeerMap::empty(),
    {
        Peers { heard: peers_new() }
    }

    /// Notes that `peer` was heard at `now`.
    pub fn hear(&mut self, peer: &str, now: u64)
        ensures
            final(self).table() == old(self).table().insert(peer@, now),
    {
        peers_insert(&mut self.heard, peer.to_owned(), now);
    }

    /// Every peer with the time it was last heard, in no particular order.
    pub fn entries(&self) -> (r: Vec<(String, u64)>)
        ensures
            lists_peers(r@, self.table()),
    {
        peers_entries(&self.heard)
    }

    /// Forgets every peer that was last heard before `cutoff`, and names
    /// those it forgot, each once.
    pub fn forget_before(&mut self, cutoff: u64) -> (gone: Vec<String>)
        ensures
            final(self).table() == old(self).table().restrict(heard_since(old(self).table(), cutoff)),
            crate::textset::lists_set(gone@, heard_before(old(self).table(), cutoff)),
    {
        let ghost t = self.table();
        let all = peers_entries(&self.heard);
        let mut gone: Vec<String> = Vec::new();
        let ghost mut src: Seq<int> = Seq::empty();
        let mut i: usize = 0;
        while i < all.len()
            invariant
                i <= all.len(),
                src.len() == gone@.len(),
                forall|j: int|
                    0 <= j < src.len() ==> 0 <= #[trigger] src[j] < i && gone@[j]@ == all@[src[j]].0@
                        && all@[src[j]].1 < cutoff,
                forall|j: int, k: int| 0 <= j < k < src.len() ==> src[j] < src[k],
                forall|a: int| 0 <= a < i && (#[trigger] all@[a]).1 < cutoff ==> src.contains(a),
            decreases all.len() - i,
        {
            let ghost old_src = src;
            if all[i].1 < cutoff {
                gone.push(all[i].0.clone());
                proof {
                    src = src.push(i as int);
                    assert(src[src.len() - 1] == i);
                    assert forall|a: int| old_src.contains(a) implies src.contains(a) by {
                        let j = choose|j: int| 0 <= j < old_src.len() && old_src[j] == a;
                        assert(src[j] == a);
                    }
                }
            }
            i += 1;
        }
        let ghost lost = heard_before(t, cutoff);
        proof {
            assert forall|j: int, k: int| 0 <= j < k < gone@.len() implies (#[trigger] gone@[j])@
                != (#[trigger] gone@[k])@ by {
                assert(src[j] < src[k]);
                assert(all@[src[j]].0@ != all@[src[k]].0@);
            }
            assert forall|j: int| 0 <= j < gone@.len() implies lost.contains(
                (#[trigger] gone@[j])@,
            ) by {
                assert(gone@[j]@ == all@[src[j]].0@);
            }
            assert forall|k: Seq<char>| #[trigger] lost.contains(k) implies exists|j: int|
                0 <= j < gone@.len() && (#[trigger] gone@[j])@ == k by {
                let m = choose|m: int| 0 <= m < all@.len() && #[trigger] all@[m].0@ == k;
                assert(src.contains(m));
                let j = choose|j: int| 0 <= j < src.len() && src[j] == m;
                assert(gone@[j]@ == k);
            }
            assert(t.remove_keys(crate::text::views(gone@).take(0).to_set()) =~= t);
        }
        let mut n: usize = 0;
        while n < gone.len()
            invariant
                n <= gone.len(),
                self.table() == t.remove_keys(crate::text::views(gone@).take(n as int).to_set()),
            decreases gone.len() - n,
        {
            let ghost v = crate::text::views(gone@);
            peers_remove(&mut self.heard, gone[n].as_str());
            proof {
                assert(v.take(n + 1) =~= v.take(n as int).push(v[n as int]));
                assert(v.take(n + 1).to_set() =~= v.take(n as int).to_set().insert(gone@[n as int]@)) by {
                    assert forall|x: Seq<char>| v.take(n + 1).to_set().contains(x) <==> v.take(
                        n as int,
                    ).to_set().insert(gone@[n as int]@).contains(x) by {
                        if v.take(n as int).contains(x) {
                            let q = choose|q: int| 0 <= q < n && v.take(n as int)[q] == x;
                            assert(v.take(n + 1)[q] == x);
                        }
                        if x == v[n as int] {
                            assert(v.take(n + 1)[n as int] == x);
                        }
                    }
                }
                assert(self.table() =~= t.remove_keys(v.take(n + 1).to_set()));
            }
            n += 1;
        }
        proof {
            let v = crate::text::views(gone@);
            assert(v.take(n as int) =~= v);
            crate::textset::lemma_listing_len(gone@, lost);
            assert(self.table() =~= t.restrict(heard_since(t, cutoff)));
        }
        gone
    }
}

/// The peers of `t` heard at `cutoff` or later.
pub open spec fn heard_since(t: PeerMap, cutoff: u64) -> Set<Seq<char>> {
    t.dom().filter(|k: Seq<char>| t[k] >= cutoff)
}

/// The peers of `t` last heard before `cutoff`.
pub open spec fn heard_before(t: PeerMap, cutoff: u64) -> Set<Seq<char>> {
    t.dom().filter(|k: Seq<char>| t[k] < cutoff)
}

/// Of the peers those stay that were heard at the cutoff or later, and the others go.
pub proof fn law_peers_heard_since_stay(t: PeerMap, cutoff: u64, p: Seq<char>)
    requires
        t.contains_key(p),
    ensures
        heard_since(t, cutoff).contains(p) <==> cutoff <= t[p],
        heard_before(t, cutoff).contains(p) <==> t[p] < cutoff,
        t.restrict(heard_since(t, cutoff)).contains_key(p) <==> cutoff <= t[p],
{
}

} // verus!
