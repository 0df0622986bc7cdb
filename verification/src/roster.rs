//! Group rosters that are kept for a while.

use crate::groups::{group_members_of, lists_members};
use crate::kv::KvHandle;
use crate::node_id::{copy_nodes, node_views, NodeId, NodeView};
use crate::num::sat_sub_spec;
use vstd::prelude::*;

verus! {

/// The members of a group as they were read.
#[derive(Debug, Clone)]
pub struct RosterEntry {
    pub members: Vec<NodeId>,
    pub fetched_at_ms: u64,
    /// The generation of the memberships at that time.
    pub grp_gen: u64,
}

/// The model of a [`RosterEntry`].
pub type RosterView = (Seq<NodeView>, u64, u64);

/// The model of the rosters that are kept.
pub type RosterMap = Map<Seq<char>, RosterView>;

impl View for RosterEntry {
    type V = RosterView;

    open spec fn view(&self) -> RosterView {
        (node_views(self.members@), self.fetched_at_ms, self.grp_gen)
    }
}

/// The rosters that a table holds, by group.
pub uninterp spec fn roster_table(m: papaya::HashMap<String, RosterEntry>) -> Map<Seq<char>, RosterView>;

/// `papaya::HashMap::new`: a map without entries.
#[verifier::external_body]
fn rosters_new() -> (m: papaya::HashMap<String, RosterEntry>)
    ensures
        roster_table(m) == RosterMap::empty(),
{
    papaya::HashMap::new()
}

/// `papaya::HashMapRef::get`: the roster of `group`, if there is one.
#[verifier::external_body]
fn rosters_get(m: &papaya::HashMap<String, RosterEntry>, group: &str) -> (r: Option<RosterEntry>)
    ensures
        r is Some <==> roster_table(*m).contains_key(group@),
        r matches Some(e) ==> e@ == roster_table(*m)[group@],
{
    m.pin().get(group).cloned()
}

/// `papaya::HashMapRef::insert`: `group` maps to `entry` afterwards; no other
/// key changes.
#[verifier::external_body]
fn rosters_insert(m: &mut papaya::HashMap<String, RosterEntry>, group: String, entry: RosterEntry)
    ensures
        roster_table(*final(m)) == roster_table(*old(m)).insert(group@, entry@),
{
    m.pin().insert(group, entry);
}

/// Rosters that are kept for a while.
pub struct RosterCache {
    pub rosters: papaya::HashMap<String, RosterEntry>,
}

/// Whether a kept roster still serves: the memberships have not changed since,
/// and it is younger than `ttl_ms`.
pub open spec fn still_serves(e: RosterView, generation: u64, ttl_ms: u64, now_ms: u64) -> bool {
    e.2 == generation && sat_sub_spec(now_ms as int, e.1 as int) < ttl_ms
}

impl RosterCache {
    /// The kept rosters, by group.
    pub open spec fn table(&self) -> RosterMap {
        roster_table(self.rosters)
    }

    /// No rosters.
    pub fn new() -> (c: RosterCache)
        ensures
            c.table() == RosterMap::empty(),
    {
        RosterCache { rosters: rosters_new() }
    }

    /// The members of `group`: as they are kept, where that still serves, and
    /// otherwise read anew and kept. `generation` grows with every change of a
    /// membership.
    pub fn cached_group_members(
        &mut self,
        kv: &KvHandle,
        group: &str,
        generation: u64,
        ttl_ms: u64,
        now_ms: u64,
    ) -> (r: Vec<NodeId>)
        ensures
            ({
                let kept = old(self).table();
                if kept.contains_key(group@) && still_serves(kept[group@], generation, ttl_ms, now_ms) {
                    final(self).table() == kept && node_views(r@) == kept[group@].0
                } else {
                    lists_members(r@, kv.table(), group@) && final(self).table() == kept.insert(
                        group@,
                        (node_views(r@), now_ms, generation),
                    )
                }
            }),
    {
        match rosters_get(&self.rosters, group) {
            Some(e) => {
                if e.grp_gen == generation && now_ms.saturating_sub(e.fetched_at_ms) < ttl_ms {
                    return e.members;
                }
            },
            None => {},
        }
        let members = group_members_of(kv, group);
        rosters_insert(
            &mut self.rosters,
            group.to_owned(),
            RosterEntry { members: copy_nodes(&members), fetched_at_ms: now_ms, grp_gen: generation },
        );
        members
    }
}

/// A roster that was read at `now_ms` serves at that time as long as no
/// membership changes, if rosters are kept at all, and never after a change.
pub proof fn law_roster_lifetime(members: Seq<NodeView>, generation: u64, changed: u64, ttl_ms: u64, now_ms: u64)
    requires
        changed != generation,
    ensures
        still_serves((members, now_ms, generation), generation, ttl_ms, now_ms) <==> ttl_ms > 0,
        !still_serves((members, now_ms, generation), changed, ttl_ms, now_ms),
{
}

/// A kept roster serves as long as its lifetime and no group has changed since it was
/// read, and not longer.
pub proof fn law_roster_serves_for_its_lifetime(
    members: Seq<NodeView>,
    fetched_ms: u64,
    generation: u64,
    current: u64,
    ttl_ms: u64,
    now_ms: u64,
)
    requires
        fetched_ms <= now_ms,
    ensures
        still_serves((members, fetched_ms, generation), current, ttl_ms, now_ms) <==> generation == current && now_ms
            < fetched_ms + ttl_ms,
{
}

} // verus!
