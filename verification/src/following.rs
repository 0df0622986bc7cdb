//! What a node keeps doing for the groups that it has joined: which of its keys
//! it takes back, and which projections it writes anew.

use crate::emergent_groups::{GroupAction, GroupProjection};
use crate::kv::{lemma_wrote_more, wrote_all, KvHandle, WriteOp};
use crate::load::{decode_load_state, LOAD_PREFIX};
use crate::node_id::{node_text, NodeId, NodeView};
use crate::opacity::{clear_opacity_key, has_room, is_mark};
use crate::pairs::lemma_push_new;
use crate::projection::{
    need_key, need_key_text, projection_key_text, projection_keys_text, GCAP_REASSERT_MS,
};
use crate::store::{live, Table};
use crate::text::{contains_text, dec_text, lemma_first_slash, same_text, views};
use crate::textset::lemma_take_to_set;
use vstd::prelude::*;

verus! {

/// What is to be done once the groups have been brought in line.
#[derive(Debug)]
pub struct FollowPlan {
    /// The keys of projections that are taken back.
    pub retract: Vec<String>,
    /// The keys of needs whose marks are taken back.
    pub unmark: Vec<String>,
    /// For each group that is joined now, whether what it provides is
    /// projected.
    pub project: Vec<bool>,
    /// When everything was last projected.
    pub projected_at: u64,
}

/// The keys of the marks for what a group needs.
pub open spec fn need_keys_text(group: Seq<char>, needs: nat, node: NodeView) -> Seq<Seq<char>> {
    Seq::new(needs, |i: int| need_key_text(node, group, i as nat))
}

/// The keys that `node` has for a group: those of its projections, or those of
/// its needs.
pub open spec fn keys_for(p: GroupProjection, node: NodeView, needs: bool) -> Seq<Seq<char>> {
    if needs {
        need_keys_text(p.group@, p.needs@.len(), node)
    } else {
        projection_keys_text(p.group@, p.provides@, node)
    }
}

/// The keys that `node` has for some groups.
pub open spec fn held(v: Seq<GroupProjection>, node: NodeView, needs: bool) -> Set<Seq<char>> {
    Set::new(
        |k: Seq<char>| exists|i: int| 0 <= i < v.len() && keys_for(#[trigger] v[i], node, needs).contains(k),
    )
}

/// Whether one of the actions asks to begin projecting what `group` provides.
pub open spec fn begins(actions: Seq<GroupAction>, group: Seq<char>) -> bool {
    exists|i: int| 0 <= i < actions.len() && begins_by(#[trigger] actions[i], group)
}

pub open spec fn begins_by(a: GroupAction, g: Seq<char>) -> bool {
    match a {
        GroupAction::Joined { group } => group@ == g,
        GroupAction::Changed { group, provides, .. } => provides && group@ == g,
        GroupAction::Left { .. } => false,
    }
}

impl GroupProjection {
    /// The keys of the marks for what the group needs; deleting them takes the
    /// marks back.
    pub fn need_keys(&self, node: &NodeId) -> (r: Vec<String>)
        ensures
            views(r@) == need_keys_text(self.group@, self.needs@.len(), node@),
    {
        let mut out: Vec<String> = Vec::new();
        let mut i: usize = 0;
        while i < self.needs.len()
            invariant
                i <= self.needs.len(),
                out@.len() == i,
                forall|k: int|
                    0 <= k < i ==> (#[trigger] out@[k])@ == need_key_text(node@, self.group@, k as nat),
            decreases self.needs.len() - i,
        {
            out.push(need_key(node, self.group.as_str(), i));
            i += 1;
        }
        assert(views(out@) =~= need_keys_text(self.group@, self.needs@.len(), node@));
        out
    }
}

/// Adds to `out` what is in `more` and neither there yet nor in `not`.
fn add_missing(out: &mut Vec<String>, more: &Vec<String>, not: &Vec<String>)
    requires
        views(old(out)@).no_duplicates(),
    ensures
        views(final(out)@).no_duplicates(),
        views(final(out)@).to_set() == views(old(out)@).to_set().union(
            views(more@).to_set().difference(views(not@).to_set()),
        ),
{
    let ghost o = views(out@);
    let ghost m = views(more@);
    let ghost n = views(not@);
    let mut i: usize = 0;
    assert(o.to_set() =~= o.to_set().union(m.take(0).to_set().difference(n.to_set())));
    while i < more.len()
        invariant
            i <= more.len(),
            m == views(more@),
            n == views(not@),
            views(out@).no_duplicates(),
            views(out@).to_set() == o.to_set().union(m.take(i as int).to_set().difference(n.to_set())),
        decreases more.len() - i,
    {
        let ghost before = views(out@);
        let ghost x = m[i as int];
        proof {
            lemma_take_to_set(m, i as int);
            assert(n.to_set().contains(x) <==> n.contains(x));
            assert(before.to_set().contains(x) <==> before.contains(x));
        }
        if !contains_text(not, more[i].as_str()) && !contains_text(out, more[i].as_str()) {
            out.push(more[i].clone());
            proof {
                lemma_push_new(before, x);
                assert(views(out@) =~= before.push(x));
            }
        }
        assert(views(out@).to_set() =~= o.to_set().union(m.take(i + 1).to_set().difference(n.to_set())));
        i += 1;
    }
    assert(m.take(i as int) =~= m);
}

/// The keys that `node` has for some groups, each once, but for those in `not`.
fn held_keys(v: &Vec<GroupProjection>, node: &NodeId, needs: bool, not: &Vec<String>) -> (r: Vec<String>)
    ensures
        views(r@).no_duplicates(),
        views(r@).to_set() == held(v@, node@, needs).difference(views(not@).to_set()),
{
    let mut out: Vec<String> = Vec::new();
    let ghost n = views(not@).to_set();
    let mut i: usize = 0;
    proof {
        assert(views(out@) =~= Seq::empty());
        assert(views(out@).to_set() =~= held(v@.take(0), node@, needs).difference(n));
    }
    while i < v.len()
        invariant
            i <= v.len(),
            n == views(not@).to_set(),
            views(out@).no_duplicates(),
            views(out@).to_set() == held(v@.take(i as int), node@, needs).difference(n),
        decreases v.len() - i,
    {
        let keys = if needs {
            v[i].need_keys(node)
        } else {
            v[i].keys(node)
        };
        add_missing(&mut out, &keys, not);
        proof {
            let a = v@.take(i as int);
            let b = v@.take(i + 1);
            let h = held(b, node@, needs);
            assert forall|k: Seq<char>| views(out@).to_set().contains(k) <==> h.difference(n).contains(k) by {
                assert(views(keys@).to_set().contains(k) <==> views(keys@).contains(k));
                if held(a, node@, needs).contains(k) {
                    let j = choose|j: int| 0 <= j < a.len() && keys_for(#[trigger] a[j], node@, needs).contains(k);
                    assert(keys_for(b[j], node@, needs).contains(k));
                }
                if h.contains(k) {
                    let j = choose|j: int| 0 <= j < b.len() && keys_for(#[trigger] b[j], node@, needs).contains(k);
                    if j < i {
                        assert(keys_for(a[j], node@, needs).contains(k));
                    }
                }
                if views(keys@).contains(k) {
                    assert(keys_for(b[i as int], node@, needs).contains(k));
                }
            }
            assert(views(out@).to_set() =~= h.difference(n));
        }
        i += 1;
    }
    assert(v@.take(i as int) =~= v@);
    out
}

/// The keys that `node` had for the groups `before` and no longer has, each once.
fn lost_keys(before: &Vec<GroupProjection>, after: &Vec<GroupProjection>, node: &NodeId, needs: bool) -> (r: Vec<String>)
    ensures
        views(r@).no_duplicates(),
        views(r@).to_set() == held(before@, node@, needs).difference(held(after@, node@, needs)),
{
    let none: Vec<String> = Vec::new();
    let kept = held_keys(after, node, needs, &none);
    proof {
        assert(views(none@) =~= Seq::empty());
        assert(views(kept@).to_set() =~= held(after@, node@, needs));
    }
    held_keys(before, node, needs, &kept)
}

fn asks_to_begin(actions: &Vec<GroupAction>, g: &str) -> (r: bool)
    ensures
        r == begins(actions@, g@),
{
    let mut i: usize = 0;
    while i < actions.len()
        invariant
            i <= actions.len(),
            forall|k: int| 0 <= k < i ==> !begins_by(#[trigger] actions@[k], g@),
        decreases actions.len() - i,
    {
        let here = match &actions[i] {
            GroupAction::Joined { group } => same_text(group.as_str(), g),
            GroupAction::Changed { group, provides, .. } => *provides && same_text(group.as_str(), g),
            GroupAction::Left { .. } => false,
        };
        if here {
            assert(begins_by(actions@[i as int], g@));
            return true;
        }
        i += 1;
    }
    false
}

/// What follows a pass over the groups that brought `before` to `after`: the keys
/// of groups that were left, and of what a group no longer provides or needs, are
/// taken back; what a group newly provides is projected, and everything every
/// [`GCAP_REASSERT_MS`].
pub fn plan_follow(
    before: &Vec<GroupProjection>,
    after: &Vec<GroupProjection>,
    actions: &Vec<GroupAction>,
    node: &NodeId,
    projected_at: u64,
    now_ms: u64,
) -> (plan: FollowPlan)
    ensures
        views(plan.retract@).no_duplicates(),
        views(plan.retract@).to_set() == held(before@, node@, false).difference(held(after@, node@, false)),
        views(plan.unmark@).no_duplicates(),
        views(plan.unmark@).to_set() == held(before@, node@, true).difference(held(after@, node@, true)),
        plan.project@ == Seq::new(
            after@.len(),
            |i: int| now_ms - projected_at >= GCAP_REASSERT_MS || begins(actions@, after@[i].group@),
        ),
        plan.projected_at == (if now_ms - projected_at >= GCAP_REASSERT_MS {
            now_ms
        } else {
            projected_at
        }),
        projected_at + 60_000 <= now_ms ==> plan.projected_at == now_ms && forall|i: int|
            0 <= i < after@.len() ==> #[trigger] plan.project@[i],
        projected_at + 60_000 > now_ms ==> plan.projected_at == projected_at,
{
    let retract = lost_keys(before, after, node, false);
    let unmark = lost_keys(before, after, node, true);
    let again = now_ms.saturating_sub(projected_at) >= GCAP_REASSERT_MS;
    let mut project: Vec<bool> = Vec::new();
    let mut i: usize = 0;
    while i < after.len()
        invariant
            i <= after.len(),
            project@.len() == i,
            again == (now_ms - projected_at >= GCAP_REASSERT_MS),
            forall|k: int| 0 <= k < i ==> (#[trigger] project@[k]) == (again || begins(actions@, after@[k].group@)),
        decreases after.len() - i,
    {
        project.push(again || asks_to_begin(actions, after[i].group.as_str()));
        i += 1;
    }
    assert(project@ =~= Seq::new(
        after@.len(),
        |i: int| now_ms - projected_at >= GCAP_REASSERT_MS || begins(actions@, after@[i].group@),
    ));
    FollowPlan {
        retract,
        unmark,
        project,
        projected_at: if again {
            now_ms
        } else {
            projected_at
        },
    }
}

/// The deletions of the marks that stand under `keys`.
pub open spec fn unmark_ops(keys: Seq<Seq<char>>, t: Table) -> Seq<WriteOp>
    decreases keys.len(),
{
    if keys.len() == 0 {
        Seq::empty()
    } else {
        let front = unmark_ops(keys.drop_last(), t);
        if is_mark(live(t, keys.last())) && !keys.drop_last().contains(keys.last()) {
            front.push((keys.last(), None))
        } else {
            front
        }
    }
}

impl KvHandle {
    /// Takes back the marks that stand under `keys`.
    pub fn unmark(&mut self, keys: &Vec<String>, now_ms: u64)
        requires
            old(self).wf(),
            has_room(*old(self), now_ms, keys@.len() as int),
        ensures
            final(self).wf(),
            wrote_all(*old(self), *final(self), unmark_ops(views(keys@), old(self).table()), now_ms),
            forall|k: Seq<char>| #[trigger]
                live(final(self).table(), k) == (if views(keys@).contains(k) && is_mark(
                    live(old(self).table(), k),
                ) {
                    None
                } else {
                    live(old(self).table(), k)
                }),
    {
        let ghost t0 = self.table();
        let ghost ks = views(keys@);
        let mut i: usize = 0;
        assert(ks.take(0) =~= Seq::empty());
        while i < keys.len()
            invariant
                i <= keys.len(),
                ks == views(keys@),
                t0 == old(self).table(),
                self.wf(),
                has_room(*self, now_ms, keys@.len() - i),
                wrote_all(*old(self), *self, unmark_ops(ks.take(i as int), t0), now_ms),
                forall|k: Seq<char>| #[trigger]
                    live(self.table(), k) == (if ks.take(i as int).contains(k) && is_mark(live(t0, k)) {
                        None
                    } else {
                        live(t0, k)
                    }),
            decreases keys.len() - i,
        {
            let ghost pre = *self;
            let ghost x = ks[i as int];
            proof {
                assert(ks.take(i + 1).drop_last() =~= ks.take(i as int));
                assert(ks.take(i + 1).last() == x);
                lemma_take_to_set(ks, i as int);
                assert forall|k: Seq<char>| #[trigger] ks.take(i + 1).contains(k) <==> ks.take(i as int).contains(k)
                    || k == x by {
                    assert(ks.take(i + 1).to_set().contains(k) <==> ks.take(i + 1).contains(k));
                    assert(ks.take(i as int).to_set().contains(k) <==> ks.take(i as int).contains(k));
                }
                assert(live(self.table(), x) == (if ks.take(i as int).contains(x) && is_mark(live(t0, x)) {
                    None
                } else {
                    live(t0, x)
                }));
            }
            let marked = match self.get(keys[i].as_str()) {
                Some(v) => match decode_load_state(&v) {
                    Some(s) => s.is_opaque,
                    None => false,
                },
                None => false,
            };
            if marked {
                clear_opacity_key(self, keys[i].as_str(), now_ms);
                proof {
                    lemma_wrote_more(*old(self), pre, *self, unmark_ops(ks.take(i as int), t0), (x, None), now_ms);
                }
            }
            proof {
                assert forall|k: Seq<char>| #[trigger] live(self.table(), k) == (if ks.take(i + 1).contains(k)
                    && is_mark(live(t0, k)) {
                    None
                } else {
                    live(t0, k)
                }) by {
                    assert(live(pre.table(), k) == (if ks.take(i as int).contains(k) && is_mark(live(t0, k)) {
                        None
                    } else {
                        live(t0, k)
                    }));
                }
            }
            i += 1;
        }
        assert(ks.take(i as int) =~= ks);
    }
}

// ── Laws ─────────────────────────────────────────────────────────────────────

/// Group names without a slash are told apart by the keys of their needs.
proof fn lemma_need_groups_differ(node: NodeView, g: Seq<char>, i: nat, h: Seq<char>, j: nat)
    requires
        !g.contains('/'),
        !h.contains('/'),
        need_key_text(node, g, i) == need_key_text(node, h, j),
    ensures
        g == h,
{
    reveal_strlit("/");
    assert("/"@ =~= seq!['/']);
    let head = LOAD_PREFIX@ + node_text(node) + "/group-req/"@;
    let n = head.len() as int;
    let a = g + seq!['/'] + dec_text(i);
    let b = h + seq!['/'] + dec_text(j);
    assert(need_key_text(node, g, i).skip(n) =~= a);
    assert(need_key_text(node, h, j).skip(n) =~= b);
    lemma_first_slash(g, dec_text(i));
    lemma_first_slash(h, dec_text(j));
}

/// Group names without a slash are told apart by the keys of their projections.
proof fn lemma_projection_groups_differ(
    node: NodeView,
    g: Seq<char>,
    ns: Seq<char>,
    name: Seq<char>,
    h: Seq<char>,
    other_ns: Seq<char>,
    other_name: Seq<char>,
)
    requires
        !g.contains('/'),
        !h.contains('/'),
        projection_key_text(g, ns, name, node) == projection_key_text(h, other_ns, other_name, node),
    ensures
        g == h,
{
    reveal_strlit("/");
    assert("/"@ =~= seq!['/']);
    let n = "gcap/"@.len() as int;
    let x = ns + seq!['/'] + name + seq!['/'] + node_text(node);
    let y = other_ns + seq!['/'] + other_name + seq!['/'] + node_text(node);
    assert(projection_key_text(g, ns, name, node).skip(n) =~= g + seq!['/'] + x);
    assert(projection_key_text(h, other_ns, other_name, node).skip(n) =~= h + seq!['/'] + y);
    lemma_first_slash(g, x);
    lemma_first_slash(h, y);
}

/// Of a group that is left nothing stays: neither its projections nor the marks
/// for its needs. The names of groups hold no slash.
pub proof fn law_left_group_lets_go(
    before: Seq<GroupProjection>,
    after: Seq<GroupProjection>,
    node: NodeView,
    p: GroupProjection,
    needs: bool,
    k: Seq<char>,
)
    requires
        before.contains(p),
        forall|i: int|
            0 <= i < after.len() ==> (#[trigger] after[i]).group@ != p.group@ && !after[i].group@.contains('/'),
        !p.group@.contains('/'),
        keys_for(p, node, needs).contains(k),
    ensures
        held(before, node, needs).difference(held(after, node, needs)).contains(k),
{
    let i = choose|i: int| 0 <= i < before.len() && before[i] == p;
    assert(keys_for(before[i], node, needs).contains(k));
    if held(after, node, needs).contains(k) {
        let j = choose|j: int| 0 <= j < after.len() && keys_for(#[trigger] after[j], node, needs).contains(k);
        let q = after[j];
        let x = choose|x: int| 0 <= x < keys_for(p, node, needs).len() && keys_for(p, node, needs)[x] == k;
        let y = choose|y: int| 0 <= y < keys_for(q, node, needs).len() && keys_for(q, node, needs)[y] == k;
        if needs {
            lemma_need_groups_differ(node, p.group@, x as nat, q.group@, y as nat);
        } else {
            lemma_projection_groups_differ(
                node,
                p.group@,
                p.provides@[x].namespace@,
                p.provides@[x].name@,
                q.group@,
                q.provides@[y].namespace@,
                q.provides@[y].name@,
            );
        }
    }
}

/// Marks that stand are taken back, each once, and nothing else is touched.
pub proof fn law_standing_marks_are_taken_back(keys: Seq<Seq<char>>, t: Table, op: WriteOp)
    ensures
        unmark_ops(keys, t).contains(op) <==> keys.contains(op.0) && op.1 is None && live(t, op.0) is Some && ({
            let p = crate::load::load_parts(live(t, op.0)->0);
            p is Some && (p->0).1
        }),
        unmark_ops(keys, t).no_duplicates(),
    decreases keys.len(),
{
    let ops = unmark_ops(keys, t);
    if keys.len() > 0 {
        let rest = keys.drop_last();
        let front = unmark_ops(rest, t);
        law_standing_marks_are_taken_back(rest, t, op);
        law_standing_marks_are_taken_back(rest, t, (keys.last(), None));
        assert(keys[keys.len() - 1] == keys.last());
        assert(keys.contains(op.0) <==> rest.contains(op.0) || keys.last() == op.0) by {
            if keys.contains(op.0) {
                let i = choose|i: int| 0 <= i < keys.len() && keys[i] == op.0;
                if i < rest.len() {
                    assert(rest[i] == op.0);
                }
            }
            if rest.contains(op.0) {
                let i = choose|i: int| 0 <= i < rest.len() && rest[i] == op.0;
                assert(keys[i] == op.0);
            }
        }
        if front.contains(op) {
            let i = choose|i: int| 0 <= i < front.len() && front[i] == op;
            assert(ops[i] == op);
        }
        if ops.contains(op) && !front.contains(op) {
            let i = choose|i: int| 0 <= i < ops.len() && ops[i] == op;
            if i < front.len() {
                assert(front[i] == op);
            }
        }
        if ops.len() > front.len() {
            assert(ops[front.len() as int] == (keys.last(), None::<Seq<u8>>));
            assert(!front.contains((keys.last(), None)));
        }
    }
}

/// A group's projection begins when the group is joined or when what it provides
/// changed.
pub proof fn law_projection_begins_on_join_or_change(g: Seq<char>, a: GroupAction)
    ensures
        a is Joined ==> (begins_by(a, g) <==> a->Joined_group@ == g),
        a is Changed ==> (begins_by(a, g) <==> a->Changed_group@ == g && a->provides),
        a is Left ==> !begins_by(a, g),
{
}

} // verus!
