//! What a node does for an emergent group that it has joined: it projects what
//! the group provides to `gcap/{group}/{ns}/{name}/{node}`, and marks itself
//! under `sys/load/{node}/group-req/{group}/{index}` while nobody provides what
//! the group needs.

use crate::advertise::wrote_some;
use crate::capability::{CapFilter, Capability, FilterView, DEFAULT_REFRESH_MS};
use crate::capcodec::entry_in;
use crate::emergent_groups::GroupProjection;
use crate::kv::{lemma_wrote_more, outcome_for, wrote, wrote_all, KvHandle, WriteOp};
use crate::load::{load_bytes, load_parts, FULL, LOAD_PREFIX};
use crate::node_id::{law_node_text_round_trip, node_text, node_views, NodeId, NodeView};
use crate::opacity::{
    clear_opacity_key, has_room, is_mark, lemma_write_keeps, same_entry, same_outside_marks,
    write_opacity_key,
};
use crate::resolve::{
    contributes, contributor_reading, demand_snapshot, direct_reading, gcap_key_text,
    lemma_contributor_unique, suppliers,
};
use crate::scan::{reading_at, reading_set};
use crate::store::{live, Table};
use crate::text::{dec_string, dec_text, has_prefix, join2, join3, lemma_dec_round_trip, views};
use vstd::prelude::*;

verus! {

/// How often what a group provides is projected anew.
pub const GCAP_REASSERT_MS: u64 = 60_000;

// ── Projections ──────────────────────────────────────────────────────────────

/// `gcap/{group}/{ns}/{name}/{node}`.
pub open spec fn projection_key_text(group: Seq<char>, ns: Seq<char>, name: Seq<char>, node: NodeView) -> Seq<
    char,
> {
    "gcap/"@ + group + "/"@ + ns + "/"@ + name + "/"@ + node_text(node)
}

/// The key under which `node` projects a capability for `group`.
pub fn projection_key(group: &str, capability: &Capability, node: &NodeId) -> (s: String)
    ensures
        s@ == projection_key_text(group@, capability.namespace@, capability.name@, node@),
{
    let a = join3("gcap/", group, "/");
    let b = join3(a.as_str(), capability.namespace.as_str(), "/");
    let c = join3(b.as_str(), capability.name.as_str(), "/");
    join2(c.as_str(), node.to_text().as_str())
}

/// The keys of all projections of a node for a group.
pub open spec fn projection_keys_text(group: Seq<char>, provides: Seq<Capability>, node: NodeView) -> Seq<
    Seq<char>,
> {
    Seq::new(
        provides.len(),
        |i: int| projection_key_text(group, provides[i].namespace@, provides[i].name@, node),
    )
}

impl GroupProjection {
    /// The keys under which `node` projects what the group provides; deleting
    /// them takes the projections back.
    pub fn keys(&self, node: &NodeId) -> (r: Vec<String>)
        ensures
            views(r@) == projection_keys_text(self.group@, self.provides@, node@),
    {
        let mut out: Vec<String> = Vec::new();
        let mut i: usize = 0;
        while i < self.provides.len()
            invariant
                i <= self.provides.len(),
                out@.len() == i,
                forall|k: int|
                    0 <= k < i ==> (#[trigger] out@[k])@ == projection_key_text(
                        self.group@,
                        self.provides@[k].namespace@,
                        self.provides@[k].name@,
                        node@,
                    ),
            decreases self.provides.len() - i,
        {
            out.push(projection_key(self.group.as_str(), &self.provides[i], node));
            i += 1;
        }
        assert(views(out@) =~= projection_keys_text(self.group@, self.provides@, node@));
        out
    }
}

/// `post` is `pre` after each capability was written under its key, one after
/// the other.
pub open spec fn projected_all(
    pre: KvHandle,
    post: KvHandle,
    group: Seq<char>,
    provides: Seq<Capability>,
    now_ms: u64,
) -> bool
    decreases provides.len(),
{
    if provides.len() == 0 {
        post == pre
    } else {
        exists|mid: KvHandle|
            projected_all(pre, mid, group, provides.drop_last(), now_ms) && #[trigger] projected(
                mid,
                post,
                group,
                provides.last(),
                now_ms,
            )
    }
}

/// `post` is `pre` after a capability was projected.
pub open spec fn projected(
    pre: KvHandle,
    post: KvHandle,
    group: Seq<char>,
    capability: Capability,
    now_ms: u64,
) -> bool {
    wrote_some(
        pre,
        post,
        projection_key_text(group, capability.namespace@, capability.name@, pre.node_id@),
        now_ms,
        |v: Seq<u8>| entry_in(v) == Some((capability@, DEFAULT_REFRESH_MS)),
    )
}

impl KvHandle {
    /// Projects what a group provides; done anew every [`GCAP_REASSERT_MS`].
    pub fn project(&mut self, p: &GroupProjection, now_ms: u64)
        requires
            old(self).wf(),
            has_room(*old(self), now_ms, p.provides@.len() as int),
        ensures
            final(self).wf(),
            projected_all(*old(self), *final(self), p.group@, p.provides@, now_ms),
    {
        let ghost pre = *self;
        let ghost all = p.provides@;
        let mut i: usize = 0;
        assert(all.take(0) =~= Seq::empty());
        while i < p.provides.len()
            invariant
                i <= p.provides.len(),
                all == p.provides@,
                self.wf(),
                has_room(*self, now_ms, all.len() - i),
                projected_all(pre, *self, p.group@, all.take(i as int), now_ms),
            decreases p.provides.len() - i,
        {
            let ghost mid = *self;
            let ghost cap = all[i as int];
            let key = projection_key(p.group.as_str(), &p.provides[i], &self.node_id);
            let bytes = p.provides[i].encode();
            let ghost v = bytes@;
            let _ = self.set(key.as_str(), bytes, now_ms);
            proof {
                assert(wrote(mid, *self, key@, Some(v), now_ms, outcome_for(mid, key@)));
                assert(projected(mid, *self, p.group@, cap, now_ms));
                assert(all.take(i + 1).drop_last() =~= all.take(i as int));
                assert(all.take(i + 1).last() == cap);
                assert(projected(mid, *self, p.group@, all.take(i + 1).last(), now_ms));
            }
            i += 1;
        }
        assert(all.take(i as int) =~= all);
    }
}

/// A node that projects a capability for a group counts among those that
/// provide it. The names hold no slash.
pub proof fn law_projection_provides(
    pre: KvHandle,
    post: KvHandle,
    group: Seq<char>,
    capability: Capability,
    now_ms: u64,
)
    requires
        pre.node_id.wf(),
        projected(pre, post, group, capability, now_ms),
        !group.contains('/'),
        now_ms <= crate::kv::MAX_PHYSICAL_MS,
        pre.clock < u64::MAX,
    ensures
        suppliers(
            post.table(),
            (FilterView {
                namespace: capability.namespace@,
                name: capability.name@,
                max_age_ms: None,
            }),
            now_ms,
        ).contains(pre.node_id@),
{
    let node = pre.node_id@;
    let filter = FilterView { namespace: capability.namespace@, name: capability.name@, max_age_ms: None };
    let key = projection_key_text(group, capability.namespace@, capability.name@, node);
    let holds = |v: Seq<u8>| entry_in(v) == Some((capability@, DEFAULT_REFRESH_MS));
    let v = choose|v: Seq<u8>| #[trigger]
        wrote(pre, post, key, Some(v), now_ms, outcome_for(pre, key)) && holds(v);
    assert(holds(v));
    law_node_text_round_trip(node);
    reveal_strlit("/");
    assert("/"@ =~= seq!['/']);
    assert(key =~= gcap_key_text(group, filter, node_text(node)));
    assert(contributes(key, filter, node));
    lemma_contributor_unique(key, filter, node, crate::resolve::contributor(key, filter)->0);
    let ts = post.table()[key].1;
    assert(ts == crate::kv::hlc_next(pre.clock, now_ms));
    assert(crate::kv::physical(ts) >= now_ms) by {
        assert(ts >= now_ms * 0x1_0000);
    }
    assert(live(post.table(), key) == Some(v));
    assert(key.take("gcap/"@.len() as int) =~= "gcap/"@);
    assert(has_prefix(key, "gcap/"@));
    assert(reading_at(post.table(), key, contributor_reading(filter, now_ms)) == Some(node));
}

// ── Needs ────────────────────────────────────────────────────────────────────

/// `sys/load/{node}/group-req/{group}/{index}`.
pub open spec fn need_key_text(node: NodeView, group: Seq<char>, index: nat) -> Seq<char> {
    LOAD_PREFIX@ + node_text(node) + "/group-req/"@ + group + "/"@ + dec_text(index)
}

/// The key under which `node` is marked while nobody provides what `group`
/// needs at `index`.
pub fn need_key(node: &NodeId, group: &str, index: usize) -> (s: String)
    ensures
        s@ == need_key_text(node@, group@, index as nat),
        has_prefix(s@, LOAD_PREFIX@),
{
    let a = join3(LOAD_PREFIX, node.to_text().as_str(), "/group-req/");
    let b = join3(a.as_str(), group, "/");
    let s = join2(b.as_str(), dec_string(index as u64).as_str());
    assert(s@.take(LOAD_PREFIX@.len() as int) =~= LOAD_PREFIX@);
    s
}

/// Different needs have different keys.
proof fn lemma_need_keys_differ(node: NodeView, group: Seq<char>, a: nat, b: nat)
    requires
        need_key_text(node, group, a) == need_key_text(node, group, b),
    ensures
        a == b,
{
    let head = LOAD_PREFIX@ + node_text(node) + "/group-req/"@ + group + "/"@;
    let n = head.len() as int;
    assert(need_key_text(node, group, a).skip(n) =~= dec_text(a));
    assert(need_key_text(node, group, b).skip(n) =~= dec_text(b));
    lemma_dec_round_trip(a);
    lemma_dec_round_trip(b);
}

/// Load marks have no influence on who provides what, directly or through a
/// group.
pub proof fn law_marks_do_not_supply(a: Table, b: Table, filter: FilterView, now_ms: u64)
    requires
        same_outside_marks(a, b),
    ensures
        suppliers(a, filter, now_ms) == suppliers(b, filter, now_ms),
{
    reveal_strlit("cap/");
    reveal_strlit("gcap/");
    reveal_strlit("sys/load/");
    let f = direct_reading(filter, now_ms);
    let g = contributor_reading(filter, now_ms);
    assert forall|k: Seq<char>| has_prefix(k, "cap/"@) implies #[trigger] reading_at(a, k, f) == reading_at(
        b,
        k,
        f,
    ) by {
        assert(k.take(4)[0] == 'c');
        if has_prefix(k, LOAD_PREFIX@) {
            assert(k.take(LOAD_PREFIX@.len() as int)[0] == 's');
        }
        assert(same_entry(a, b, k));
    }
    assert forall|k: Seq<char>| has_prefix(k, "gcap/"@) implies #[trigger] reading_at(a, k, g) == reading_at(
        b,
        k,
        g,
    ) by {
        assert(k.take(5)[0] == 'g');
        if has_prefix(k, LOAD_PREFIX@) {
            assert(k.take(LOAD_PREFIX@.len() as int)[0] == 's');
        }
        assert(same_entry(a, b, k));
    }
    assert forall|n: NodeView| reading_set(a, "cap/"@, f).contains(n) <==> reading_set(
        b,
        "cap/"@,
        f,
    ).contains(n) by {
        if reading_set(a, "cap/"@, f).contains(n) {
            let k = choose|k: Seq<char>|
                has_prefix(k, "cap/"@) && (#[trigger] reading_at(a, k, f)) == Some(n);
            assert(reading_at(b, k, f) == Some(n));
        }
        if reading_set(b, "cap/"@, f).contains(n) {
            let k = choose|k: Seq<char>|
                has_prefix(k, "cap/"@) && (#[trigger] reading_at(b, k, f)) == Some(n);
            assert(reading_at(a, k, f) == Some(n));
        }
    }
    assert forall|n: NodeView| reading_set(a, "gcap/"@, g).contains(n) <==> reading_set(
        b,
        "gcap/"@,
        g,
    ).contains(n) by {
        if reading_set(a, "gcap/"@, g).contains(n) {
            let k = choose|k: Seq<char>|
                has_prefix(k, "gcap/"@) && (#[trigger] reading_at(a, k, g)) == Some(n);
            assert(reading_at(b, k, g) == Some(n));
        }
        if reading_set(b, "gcap/"@, g).contains(n) {
            let k = choose|k: Seq<char>|
                has_prefix(k, "gcap/"@) && (#[trigger] reading_at(b, k, g)) == Some(n);
            assert(reading_at(a, k, g) == Some(n));
        }
    }
    assert(suppliers(a, filter, now_ms) =~= suppliers(b, filter, now_ms));
}

/// The writes that settling the needs of a group takes: one for each that
/// nobody provides and that has no mark yet, and one deletion for each with a
/// mark that somebody provides.
pub open spec fn need_ops(needs: Seq<CapFilter>, node: NodeView, group: Seq<char>, t: Table, now_ms: u64) -> Seq<
    WriteOp,
>
    decreases needs.len(),
{
    if needs.len() == 0 {
        Seq::empty()
    } else {
        let front = need_ops(needs.drop_last(), node, group, t, now_ms);
        let key = need_key_text(node, group, (needs.len() - 1) as nat);
        let unmet = suppliers(t, needs.last()@, now_ms) == Set::<NodeView>::empty();
        if unmet && !is_mark(live(t, key)) {
            front.push((key, Some(load_bytes(FULL@, true, now_ms))))
        } else if !unmet && is_mark(live(t, key)) {
            front.push((key, None))
        } else {
            front
        }
    }
}

impl KvHandle {
    /// Whether somebody provides the capability of `filter`, directly or
    /// through a group.
    fn is_supplied(&self, filter: &CapFilter, now_ms: u64) -> (r: bool)
        ensures
            r == (suppliers(self.table(), filter@, now_ms) != Set::<NodeView>::empty()),
    {
        let status = demand_snapshot(self, filter, now_ms);
        proof {
            let w = node_views(status.providers@);
            if w.len() > 0 {
                assert(w.to_set().contains(w[0]));
            } else {
                assert(w.to_set() =~= Set::<NodeView>::empty());
            }
        }
        status.providers.len() > 0
    }

    /// Writes and takes back the marks for what a group needs, so that each
    /// stands exactly while nobody provides it. A mark that stands is not
    /// written again.
    pub fn settle_needs(&mut self, p: &GroupProjection, now_ms: u64)
        requires
            old(self).wf(),
            has_room(*old(self), now_ms, p.needs@.len() as int),
        ensures
            final(self).wf(),
            final(self).same_node(*old(self)),
            wrote_all(
                *old(self),
                *final(self),
                need_ops(p.needs@, old(self).node_id@, p.group@, old(self).table(), now_ms),
                now_ms,
            ),
            same_outside_marks(old(self).table(), final(self).table()),
            forall|i: int|
                0 <= i < p.needs@.len() ==> is_mark(
                    live(final(self).table(), need_key_text(old(self).node_id@, p.group@, i as nat)),
                ) == (suppliers(old(self).table(), (#[trigger] p.needs@[i])@, now_ms) == Set::<
                    NodeView,
                >::empty()),
            forall|k: Seq<char>|
                (forall|i: int|
                    0 <= i < p.needs@.len() ==> k != #[trigger] need_key_text(
                        old(self).node_id@,
                        p.group@,
                        i as nat,
                    )) ==> #[trigger] live(final(self).table(), k) == live(old(self).table(), k),
    {
        let ghost t0 = self.table();
        let ghost me = self.node_id@;
        let ghost n = p.needs@.len() as int;
        let mut i: usize = 0;
        assert(p.needs@.take(0) =~= Seq::empty());
        while i < p.needs.len()
            invariant
                i <= p.needs.len(),
                n == p.needs@.len(),
                wrote_all(*old(self), *self, need_ops(p.needs@.take(i as int), me, p.group@, t0, now_ms), now_ms),
                self.wf(),
                self.same_node(*old(self)),
                me == old(self).node_id@,
                self.node_id@ == me,
                t0 == old(self).table(),
                has_room(*self, now_ms, n - i),
                same_outside_marks(t0, self.table()),
                forall|k: int|
                    0 <= k < i ==> is_mark(live(self.table(), need_key_text(me, p.group@, k as nat))) == (
                    suppliers(t0, (#[trigger] p.needs@[k])@, now_ms) == Set::<NodeView>::empty()),
                forall|k: Seq<char>|
                    (forall|j: int| 0 <= j < i ==> k != #[trigger] need_key_text(me, p.group@, j as nat))
                        ==> #[trigger] live(self.table(), k) == live(t0, k),
            decreases p.needs.len() - i,
        {
            let ghost pre = *self;
            let key = need_key(&self.node_id, p.group.as_str(), i);
            let supplied = self.is_supplied(&p.needs[i], now_ms);
            let ghost ops = need_ops(p.needs@.take(i as int), me, p.group@, t0, now_ms);
            proof {
                law_marks_do_not_supply(t0, self.table(), p.needs@[i as int]@, now_ms);
                assert(p.needs@.take(i + 1).drop_last() =~= p.needs@.take(i as int));
                assert(p.needs@.take(i + 1).last() == p.needs@[i as int]);
                assert forall|j: int| 0 <= j < i implies key@ != #[trigger] need_key_text(me, p.group@, j as nat) by {
                    if key@ == need_key_text(me, p.group@, j as nat) {
                        lemma_need_keys_differ(me, p.group@, j as nat, i as nat);
                    }
                }
                assert(live(self.table(), key@) == live(t0, key@));
            }
            let marked = match self.get(key.as_str()) {
                Some(v) => match crate::load::decode_load_state(&v) {
                    Some(s) => s.is_opaque,
                    None => false,
                },
                None => false,
            };
            if !supplied && !marked {
                write_opacity_key(self, key.as_str(), now_ms);
                proof {
                    lemma_write_keeps(
                        pre,
                        *self,
                        t0,
                        key@,
                        Some(load_bytes(FULL@, true, now_ms)),
                        now_ms,
                        n - i,
                    );
                    lemma_wrote_more(
                        *old(self),
                        pre,
                        *self,
                        ops,
                        (key@, Some(load_bytes(FULL@, true, now_ms))),
                        now_ms,
                    );
                }
            } else if supplied && marked {
                clear_opacity_key(self, key.as_str(), now_ms);
                proof {
                    lemma_write_keeps(pre, *self, t0, key@, None, now_ms, n - i);
                    lemma_wrote_more(*old(self), pre, *self, ops, (key@, None), now_ms);
                }
            }
            proof {
                assert forall|k: int| 0 <= k < i implies live(
                    self.table(),
                    #[trigger] need_key_text(me, p.group@, k as nat),
                ) == live(pre.table(), need_key_text(me, p.group@, k as nat)) by {
                    if need_key_text(me, p.group@, k as nat) == key@ {
                        lemma_need_keys_differ(me, p.group@, k as nat, i as nat);
                    }
                }
                assert forall|k: Seq<char>|
                    (forall|j: int| 0 <= j < i + 1 ==> k != #[trigger] need_key_text(me, p.group@, j as nat))
                    implies #[trigger] live(self.table(), k) == live(t0, k) by {
                    assert(k != need_key_text(me, p.group@, i as nat));
                    assert(live(pre.table(), k) == live(t0, k));
                }
            }
            i += 1;
        }
        assert(p.needs@.take(i as int) =~= p.needs@);
    }
}

/// What a round writes for the `i`th need of a group: a mark where nobody supplies it
/// and none stands, the end of the mark where somebody does.
pub open spec fn need_written(op: WriteOp, need: FilterView, i: int, node: NodeView, group: Seq<char>, t: Table, now_ms: u64) -> bool {
    let key = "sys/load/"@ + node_text(node) + "/group-req/"@ + group + "/"@ + dec_text(i as nat);
    let marked = live(t, key) is Some && load_parts(live(t, key)->0) is Some && (load_parts(live(t, key)->0)->0).1;
    let supplied = exists|n: NodeView| #[trigger] suppliers(t, need, now_ms).contains(n);
    op.0 == key && if marked {
        supplied && op.1 is None
    } else {
        !supplied && op.1 == Some(load_bytes(FULL@, true, now_ms))
    }
}

/// A need is marked while nobody supplies it, and nothing is written where the mark
/// already says so.
pub proof fn law_needs_are_marked_while_unmet(
    needs: Seq<CapFilter>,
    node: NodeView,
    group: Seq<char>,
    t: Table,
    now_ms: u64,
    op: WriteOp,
)
    ensures
        need_ops(needs, node, group, t, now_ms).contains(op) <==> exists|i: int|
            0 <= i < needs.len() && need_written(op, (#[trigger] needs[i])@, i, node, group, t, now_ms),
    decreases needs.len(),
{
    let ops = need_ops(needs, node, group, t, now_ms);
    if needs.len() > 0 {
        let rest = needs.drop_last();
        let last = needs.len() - 1;
        let front = need_ops(rest, node, group, t, now_ms);
        law_needs_are_marked_while_unmet(rest, node, group, t, now_ms, op);
        let s = suppliers(t, needs[last]@, now_ms);
        if s != Set::<NodeView>::empty() {
            assert(!(s =~= Set::<NodeView>::empty()));
            assert(exists|n: NodeView| #[trigger] s.contains(n));
        }
        if front.contains(op) {
            let i = choose|i: int| 0 <= i < front.len() && front[i] == op;
            assert(ops[i] == op);
            let a = choose|a: int|
                0 <= a < rest.len() && need_written(op, (#[trigger] rest[a])@, a, node, group, t, now_ms);
            assert(needs[a] == rest[a]);
        }
        if ops.contains(op) && !front.contains(op) {
            let i = choose|i: int| 0 <= i < ops.len() && ops[i] == op;
            if i < front.len() {
                assert(front[i] == op);
            }
            assert(need_written(op, needs[last]@, last, node, group, t, now_ms));
        }
        if exists|i: int|
            0 <= i < needs.len() && need_written(op, (#[trigger] needs[i])@, i, node, group, t, now_ms) {
            let i = choose|i: int|
                0 <= i < needs.len() && need_written(op, (#[trigger] needs[i])@, i, node, group, t, now_ms);
            if i < rest.len() {
                assert(need_written(op, rest[i]@, i, node, group, t, now_ms));
            } else {
                assert(ops[front.len() as int] == op);
            }
        }
    }
}

/// After a projection every capability that the group provides is advertised under its
/// key, unless a later one has the same key.
pub proof fn law_everything_provided_is_projected(
    pre: KvHandle,
    post: KvHandle,
    group: Seq<char>,
    provides: Seq<Capability>,
    now_ms: u64,
    i: int,
)
    requires
        projected_all(pre, post, group, provides, now_ms),
        0 <= i < provides.len(),
        forall|j: int|
            i < j < provides.len() ==> "gcap/"@ + group + "/"@ + (#[trigger] provides[j]).namespace@ + "/"@
                + provides[j].name@ + "/"@ + node_text(pre.node_id@) != "gcap/"@ + group + "/"@ + provides[i].namespace@
                + "/"@ + provides[i].name@ + "/"@ + node_text(pre.node_id@),
    ensures
        ({
            let v = live(
                post.table(),
                "gcap/"@ + group + "/"@ + provides[i].namespace@ + "/"@ + provides[i].name@ + "/"@ + node_text(
                    pre.node_id@,
                ),
            );
            v is Some && entry_in(v->0) == Some((provides[i]@, 60_000u64))
        }),
    decreases provides.len(),
{
    lemma_projects_for_itself(pre, post, group, provides, now_ms);
    let front = provides.drop_last();
    let mid = choose|mid: KvHandle|
        projected_all(pre, mid, group, front, now_ms) && #[trigger] projected(mid, post, group, provides.last(), now_ms);
    lemma_projects_for_itself(pre, mid, group, front, now_ms);
    let last = provides.len() - 1;
    let c = provides.last();
    let key = projection_key_text(group, c.namespace@, c.name@, mid.node_id@);
    let holds = |v: Seq<u8>| entry_in(v) == Some((c@, DEFAULT_REFRESH_MS));
    let v = choose|v: Seq<u8>| #[trigger]
        wrote(mid, post, key, Some(v), now_ms, outcome_for(mid, key)) && holds(v);
    assert(holds(v));
    assert(live(post.table(), key) == Some(v));
    if i < last {
        assert forall|j: int|
            i < j < front.len() implies "gcap/"@ + group + "/"@ + (#[trigger] front[j]).namespace@ + "/"@
                + front[j].name@ + "/"@ + node_text(pre.node_id@) != "gcap/"@ + group + "/"@ + front[i].namespace@
                + "/"@ + front[i].name@ + "/"@ + node_text(pre.node_id@) by {
            assert(front[j] == provides[j]);
        }
        law_everything_provided_is_projected(pre, mid, group, front, now_ms, i);
        assert(provides[last] == c);
    }
}

proof fn lemma_projects_for_itself(
    pre: KvHandle,
    post: KvHandle,
    group: Seq<char>,
    provides: Seq<Capability>,
    now_ms: u64,
)
    requires
        projected_all(pre, post, group, provides, now_ms),
    ensures
        post.node_id@ == pre.node_id@,
    decreases provides.len(),
{
    if provides.len() > 0 {
        let mid = choose|mid: KvHandle|
            projected_all(pre, mid, group, provides.drop_last(), now_ms) && #[trigger] projected(
                mid,
                post,
                group,
                provides.last(),
                now_ms,
            );
        lemma_projects_for_itself(pre, mid, group, provides.drop_last(), now_ms);
    }
}

} // verus!
