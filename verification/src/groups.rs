//! Group membership as the table records it: `grp/{group}/{node}`.

use crate::kv::KvHandle;
use crate::node_id::{denotes, law_denotes_unique, law_node_text_round_trip, node_text, valid_host, NodeId, NodeView};
use crate::store::{lists_live, live, Table};
use crate::text::{behind, has_prefix, join2, join3, strip_prefix};
use crate::textset::{set_insert, set_new, text_set};
use vstd::prelude::*;

verus! {

/// `grp/{group}/`.
pub open spec fn group_prefix_text(group: Seq<char>) -> Seq<char> {
    "grp/"@ + group + "/"@
}

/// `grp/{group}/{node}`.
pub open spec fn group_key_text(group: Seq<char>, node: NodeView) -> Seq<char> {
    group_prefix_text(group) + node_text(node)
}

/// `grp/{group}/`.
pub fn grp_prefix(group: &str) -> (s: String)
    ensures
        s@ == group_prefix_text(group@),
{
    join3("grp/", group, "/")
}

/// `grp/{group}/{node}`.
pub fn group_key(group: &str, node: &NodeId) -> (s: String)
    ensures
        s@ == group_key_text(group@, node@),
{
    join2(grp_prefix(group).as_str(), node.to_text().as_str())
}

/// Whether the table has a live entry that makes `n` a member of `group`.
pub open spec fn is_member(t: Table, group: Seq<char>, n: NodeView) -> bool {
    exists|s: Seq<char>| #[trigger] member_entry(t, group, s, n)
}

/// Whether the entry `grp/{group}/{s}` is live and `s` denotes `n`.
pub open spec fn member_entry(t: Table, group: Seq<char>, s: Seq<char>, n: NodeView) -> bool {
    live(t, group_prefix_text(group) + s) is Some && denotes(s, n)
}

/// `r` holds one node for each live entry of `group` whose last part denotes
/// a node; `ks` holds those last parts.
pub open spec fn members_by_entry(
    r: Seq<NodeId>,
    ks: Seq<Seq<char>>,
    t: Table,
    group: Seq<char>,
) -> bool {
    &&& ks.len() == r.len()
    &&& forall|i: int| 0 <= i < r.len() ==> member_entry(t, group, #[trigger] ks[i], r[i]@)
    &&& ks.no_duplicates()
    &&& forall|s: Seq<char>, n: NodeView| #[trigger]
        member_entry(t, group, s, n) ==> ks.contains(s)
}

/// `r` names the members of `group`, once for each entry that does.
pub open spec fn lists_members(r: Seq<NodeId>, t: Table, group: Seq<char>) -> bool {
    exists|ks: Seq<Seq<char>>| #[trigger] members_by_entry(r, ks, t, group)
}

/// The members of `group` that the table knows, in no particular order.
pub fn group_members_of(kv: &KvHandle, group: &str) -> (r: Vec<NodeId>)
    ensures
        lists_members(r@, kv.table(), group@),
        forall|i: int| 0 <= i < r@.len() ==> (#[trigger] r@[i]).wf(),
{
    let prefix = grp_prefix(group);
    let found = kv.scan_prefix(prefix.as_str());
    let ghost t = kv.table();
    let ghost p = group_prefix_text(group@);
    let mut out: Vec<NodeId> = Vec::new();
    let ghost mut ks: Seq<Seq<char>> = Seq::empty();
    let ghost mut src: Seq<int> = Seq::empty();
    let mut i: usize = 0;
    while i < found.len()
        invariant
            i <= found.len(),
            p == group_prefix_text(group@),
            prefix@ == p,
            t == kv.table(),
            lists_live(found@, t, p),
            ks.len() == out@.len(),
            src.len() == out@.len(),
            forall|j: int|
                0 <= j < src.len() ==> 0 <= #[trigger] src[j] < i && found@[src[j]].0@ == p + ks[j],
            forall|j: int, k: int| 0 <= j < k < src.len() ==> src[j] < src[k],
            forall|j: int| 0 <= j < out@.len() ==> member_entry(t, group@, #[trigger] ks[j], out@[j]@),
            forall|j: int| 0 <= j < out@.len() ==> (#[trigger] out@[j]).wf(),
            forall|a: int, n: NodeView|
                0 <= a < i && #[trigger] denotes(behind(found@[a].0@, p), n) ==> ks.contains(
                    behind(found@[a].0@, p),
                ),
        decreases found.len() - i,
    {
        let ghost old_ks = ks;
        let rest = strip_prefix(found[i].0.as_str(), prefix.as_str());
        assert(has_prefix(found@[i as int].0@, p));
        match rest {
            None => {},
            Some(s) => {
                match NodeId::parse(s.as_str()) {
                    Err(_) => {},
                    Ok(n) => {
                        proof {
                            assert(found@[i as int].0@ == p + s@);
                            ks = ks.push(s@);
                            src = src.push(i as int);
                            assert(member_entry(t, group@, s@, n@));
                            assert(ks[ks.len() - 1] == s@);
                        }
                        out.push(n);
                    },
                }
            },
        }
        proof {
            assert forall|a: int, n: NodeView|
                0 <= a < i + 1 && #[trigger] denotes(behind(found@[a].0@, p), n) implies ks.contains(
                behind(found@[a].0@, p),
            ) by {
                if a < i {
                    let x = behind(found@[a].0@, p);
                    let q = choose|q: int| 0 <= q < old_ks.len() && old_ks[q] == x;
                    assert(ks[q] == x);
                }
            }
        }
        i += 1;
    }
    proof {
        assert forall|a: int, b: int| 0 <= a < ks.len() && 0 <= b < ks.len() && a != b implies ks[a]
            != ks[b] by {
            assert(src[a] != src[b]) by {
                if a < b {
                    assert(src[a] < src[b]);
                } else {
                    assert(src[b] < src[a]);
                }
            }
            assert(found@[src[a]].0@ == p + ks[a]);
            assert(found@[src[b]].0@ == p + ks[b]);
        }
        assert forall|s: Seq<char>, n: NodeView| #[trigger]
            member_entry(t, group@, s, n) implies ks.contains(s) by {
            let key = p + s;
            assert(key.take(p.len() as int) =~= p);
            assert(has_prefix(key, p));
            let a = choose|a: int| 0 <= a < found@.len() && #[trigger] found@[a].0@ == key;
            assert(behind(key, p) =~= s);
            assert(denotes(behind(found@[a].0@, p), n));
        }
        assert(members_by_entry(out@, ks, t, group@));
    }
    out
}

/// The texts of the members of `group`.
pub open spec fn member_texts(t: Table, group: Seq<char>) -> Set<Seq<char>> {
    Set::new(|x: Seq<char>| exists|n: NodeView| x == node_text(n) && #[trigger] is_member(t, group, n))
}

/// The texts of the members of `group` that the table knows.
pub fn group_member_set(kv: &KvHandle, group: &str) -> (s: ahash::AHashSet<String>)
    ensures
        text_set(s) == member_texts(kv.table(), group@),
{
    let members = group_members_of(kv, group);
    let mut s = set_new();
    let mut i: usize = 0;
    while i < members.len()
        invariant
            i <= members.len(),
            forall|x: Seq<char>| #[trigger]
                text_set(s).contains(x) <==> exists|j: int|
                    0 <= j < i && x == node_text((#[trigger] members@[j])@),
        decreases members.len() - i,
    {
        let ghost before = text_set(s);
        let ghost added = node_text(members@[i as int]@);
        let _ = set_insert(&mut s, members[i].to_text());
        proof {
            assert forall|x: Seq<char>| #[trigger] text_set(s).contains(x) <==> exists|j: int|
                0 <= j < i + 1 && x == node_text((#[trigger] members@[j])@) by {
                assert(text_set(s).contains(x) <==> before.contains(x) || x == added);
                if x == added {
                    assert(x == node_text(members@[i as int]@));
                }
            }
        }
        i += 1;
    }
    proof {
        let t = kv.table();
        let ks = choose|ks: Seq<Seq<char>>| #[trigger] members_by_entry(members@, ks, t, group@);
        assert forall|x: Seq<char>| text_set(s).contains(x) <==> member_texts(t, group@).contains(x) by {
            if text_set(s).contains(x) {
                let j = choose|j: int|
                    0 <= j < members@.len() && x == node_text((#[trigger] members@[j])@);
                assert(member_entry(t, group@, ks[j], members@[j]@));
                assert(is_member(t, group@, members@[j]@));
            }
            if member_texts(t, group@).contains(x) {
                let n = choose|n: NodeView| x == node_text(n) && #[trigger] is_member(t, group@, n);
                let k = choose|k: Seq<char>| #[trigger] member_entry(t, group@, k, n);
                let j = choose|j: int| 0 <= j < ks.len() && ks[j] == k;
                law_denotes_unique(k, n, members@[j]@);
                assert(x == node_text(members@[j]@));
            }
        }
        assert(text_set(s) =~= member_texts(t, group@));
    }
    s
}

// ── Laws ─────────────────────────────────────────────────────────────────────

/// Writing the membership entry of a node makes it a member.
pub proof fn law_entry_makes_member(t: Table, group: Seq<char>, n: NodeView)
    requires
        valid_host(n.host),
        live(t, group_key_text(group, n)) is Some,
    ensures
        is_member(t, group, n),
{
    law_node_text_round_trip(n);
    assert(member_entry(t, group, node_text(n), n));
}

/// A member has a live entry under the group's prefix that denotes it.
pub proof fn law_member_has_an_entry(t: Table, group: Seq<char>, n: NodeView)
    ensures
        is_member(t, group, n) <==> exists|s: Seq<char>|
            #[trigger] live(t, "grp/"@ + group + "/"@ + s) is Some && denotes(s, n),
{
    if is_member(t, group, n) {
        let s = choose|s: Seq<char>| #[trigger] member_entry(t, group, s, n);
        assert(live(t, "grp/"@ + group + "/"@ + s) is Some);
    }
    if exists|s: Seq<char>| #[trigger] live(t, "grp/"@ + group + "/"@ + s) is Some && denotes(s, n) {
        let s = choose|s: Seq<char>| #[trigger] live(t, "grp/"@ + group + "/"@ + s) is Some && denotes(s, n);
        assert(member_entry(t, group, s, n));
    }
}

/// The roster of a group holds a node's text exactly if the node is a member.
pub proof fn law_roster_holds_the_members(t: Table, group: Seq<char>, n: NodeView, x: Seq<char>)
    ensures
        is_member(t, group, n) ==> member_texts(t, group).contains(node_text(n)),
        member_texts(t, group).contains(x) ==> exists|m: NodeView| #[trigger] is_member(t, group, m) && node_text(m) == x,
{
    if is_member(t, group, n) {
        assert(member_texts(t, group).contains(node_text(n)));
    }
}

/// A listing of the members has one for each live entry that denotes a node: every
/// listed node is a member, and every member is listed.
pub proof fn law_listing_holds_the_members(r: Seq<NodeId>, t: Table, group: Seq<char>, n: NodeView)
    requires
        lists_members(r, t, group),
    ensures
        is_member(t, group, n) <==> exists|i: int| 0 <= i < r.len() && (#[trigger] r[i])@ == n,
{
    let ks = choose|ks: Seq<Seq<char>>| #[trigger] members_by_entry(r, ks, t, group);
    if is_member(t, group, n) {
        let s = choose|s: Seq<char>| #[trigger] member_entry(t, group, s, n);
        assert(ks.contains(s));
        let i = choose|i: int| 0 <= i < ks.len() && ks[i] == s;
        assert(member_entry(t, group, ks[i], r[i]@));
        law_denotes_unique(s, n, r[i]@);
    }
    assert forall|i: int| 0 <= i < r.len() && (#[trigger] r[i])@ == n implies is_member(t, group, n) by {
        assert(member_entry(t, group, ks[i], r[i]@));
    }
}

} // verus!
