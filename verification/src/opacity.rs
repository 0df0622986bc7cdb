//! When a node declares that it sheds load, and when it takes that back.

use crate::capability::{CapFilter, FilterView};
use crate::kv::{lemma_wrote_more, outcome_for, packed, wrote, wrote_all, KvHandle, WriteOp};
use crate::load::{encode_load_state, load_bytes, load_parts, LoadState, FULL, LOAD_PREFIX};
use crate::mesh::{emitted, MeshHandle};
use crate::node_id::{node_text, NodeView};
use crate::resolve::{provider_reading, satisfied};
use crate::scan::reading_at;
use crate::store::{live, Table};
use crate::text::{has_prefix, join2, join3, same_text};
use crate::wire::SignalScope;
use vstd::prelude::*;

verus! {

/// Kind of the signal by which a node says that it sheds.
pub const BOUNDARY_OPAQUE: &'static str = "boundary.opaque";

/// Kind of the signal by which a node says that it no longer sheds.
pub const BOUNDARY_TRANSPARENT: &'static str = "boundary.transparent";

// ── Load governor ────────────────────────────────────────────────────────────

/// How full the handlers of a kind are, against the bounds of a governor.
#[derive(Debug, Clone, Copy, PartialEq, Eq)]
pub struct FillReading {
    /// The fill ratio itself, as four little-endian bytes.
    pub fill: [u8; 4],
    /// At or above the threshold in force.
    pub over: bool,
    /// Completely full.
    pub saturated: bool,
    /// Below the threshold in force by more than the hysteresis.
    pub below: bool,
}

/// What a governor does in a round.
#[derive(Debug, Clone, Copy, PartialEq, Eq, Structural)]
pub enum OpacityStep {
    Stay,
    BecomeOpaque,
    BecomeTransparent,
}

/// The decision of a governor: to shed once the threshold is reached, unless
/// the caller objects and there is still room; to stop once the fill has
/// fallen below the threshold by more than the hysteresis.
pub open spec fn governor_step(is_opaque: bool, r: FillReading, gate_ok: bool) -> OpacityStep {
    if !is_opaque && r.over {
        if gate_ok || r.saturated {
            OpacityStep::BecomeOpaque
        } else {
            OpacityStep::Stay
        }
    } else if is_opaque && r.below {
        OpacityStep::BecomeTransparent
    } else {
        OpacityStep::Stay
    }
}

/// `sys/load/{node}/{kind}`.
pub open spec fn load_key_text(node: NodeView, kind: Seq<char>) -> Seq<char> {
    LOAD_PREFIX@ + node_text(node) + "/"@ + kind
}

/// Watches the load of one kind of signal and tells the cluster about it.
pub struct OpacityGovernor {
    pub kind: String,
    pub is_opaque: bool,
}

impl OpacityGovernor {
    /// A governor of a node that does not shed.
    pub fn new(kind: &str) -> (g: OpacityGovernor)
        ensures
            g.kind@ == kind@,
            !g.is_opaque,
    {
        OpacityGovernor { kind: kind.to_owned(), is_opaque: false }
    }

    /// Whether the caller is asked before this round: the node does not shed
    /// yet, and the threshold is reached.
    pub fn asks_gate(&self, reading: &FillReading) -> (r: bool)
        ensures
            r == (!self.is_opaque && reading.over),
    {
        !self.is_opaque && reading.over
    }

    /// One round: where the node begins or stops to shed, a signal is emitted
    /// on `scope` and the load mark is written or deleted.
    pub fn tick(
        &mut self,
        mesh: &mut MeshHandle,
        reading: FillReading,
        gate_ok: bool,
        scope: SignalScope,
        payload: Vec<u8>,
        not_shed: bool,
        now_ms: u64,
    ) -> (step: OpacityStep)
        requires
            old(mesh).wf(),
            old(mesh).kv.clock < u64::MAX,
        ensures
            step == governor_step(old(self).is_opaque, reading, gate_ok),
            final(self).kind == old(self).kind,
            final(self).is_opaque == (match step {
                OpacityStep::Stay => old(self).is_opaque,
                OpacityStep::BecomeOpaque => true,
                OpacityStep::BecomeTransparent => false,
            }),
            final(mesh).wf(),
            step == OpacityStep::Stay ==> *final(mesh) == *old(mesh),
            step == OpacityStep::BecomeOpaque ==> exists|mid: MeshHandle| #[trigger]
                emitted(*old(mesh), mid, BOUNDARY_OPAQUE@, scope@, payload@, not_shed, now_ms) && wrote(
                    mid.kv,
                    final(mesh).kv,
                    load_key_text(old(mesh).me(), old(self).kind@),
                    Some(load_bytes(reading.fill@, true, now_ms)),
                    now_ms,
                    outcome_for(mid.kv, load_key_text(old(mesh).me(), old(self).kind@)),
                ) && final(mesh).log == mid.log && final(mesh).groups == mid.groups,
            step == OpacityStep::BecomeTransparent ==> exists|mid: MeshHandle| #[trigger]
                emitted(
                    *old(mesh),
                    mid,
                    BOUNDARY_TRANSPARENT@,
                    scope@,
                    Seq::empty(),
                    not_shed,
                    now_ms,
                ) && wrote(
                    mid.kv,
                    final(mesh).kv,
                    load_key_text(old(mesh).me(), old(self).kind@),
                    None,
                    now_ms,
                    outcome_for(mid.kv, load_key_text(old(mesh).me(), old(self).kind@)),
                ) && final(mesh).log == mid.log && final(mesh).groups == mid.groups,
    {
        let node_part = join3(LOAD_PREFIX, mesh.kv.node_id.to_text().as_str(), "/");
        let key = join2(node_part.as_str(), self.kind.as_str());
        if !self.is_opaque && reading.over {
            if gate_ok || reading.saturated {
                let _ = mesh.emit(BOUNDARY_OPAQUE, scope, payload, not_shed, now_ms);
                self.is_opaque = true;
                let mark = encode_load_state(
                    &LoadState { fill: reading.fill, is_opaque: true, written_at_ms: now_ms },
                );
                let ghost mid = *mesh;
                let _ = mesh.kv.set(key.as_str(), mark, now_ms);
                proof {
                    assert(emitted(*old(mesh), mid, BOUNDARY_OPAQUE@, scope@, payload@, not_shed, now_ms));
                }
                return OpacityStep::BecomeOpaque;
            }
            return OpacityStep::Stay;
        }
        if self.is_opaque && reading.below {
            let nothing: Vec<u8> = Vec::new();
            assert(nothing@ =~= Seq::empty());
            let _ = mesh.emit(BOUNDARY_TRANSPARENT, scope, nothing, not_shed, now_ms);
            self.is_opaque = false;
            let ghost mid = *mesh;
            let _ = mesh.kv.delete(key.as_str(), now_ms);
            proof {
                assert(emitted(
                    *old(mesh),
                    mid,
                    BOUNDARY_TRANSPARENT@,
                    scope@,
                    Seq::empty(),
                    not_shed,
                    now_ms,
                ));
            }
            return OpacityStep::BecomeTransparent;
        }
        OpacityStep::Stay
    }
}

/// Between the two bounds a governor changes nothing, so it does not
/// oscillate there.
pub proof fn law_hysteresis(is_opaque: bool, r: FillReading, gate_ok: bool)
    requires
        !r.over || is_opaque,
        !r.below || !is_opaque,
    ensures
        governor_step(is_opaque, r, gate_ok) == OpacityStep::Stay,
{
}

/// What the caller says has no influence on a round before which it is not
/// asked.
pub proof fn law_gate_counts_when_asked(is_opaque: bool, r: FillReading)
    requires
        is_opaque || !r.over,
    ensures
        governor_step(is_opaque, r, true) == governor_step(is_opaque, r, false),
{
}

/// A gate cannot keep a full node from saying that it sheds.
pub proof fn law_saturation_overrides_gate(r: FillReading)
    requires
        r.over,
        r.saturated,
    ensures
        governor_step(false, r, false) == OpacityStep::BecomeOpaque,
{
}

// ── Requirements ─────────────────────────────────────────────────────────────

/// A declared requirement: while nobody meets it, the node marks itself under
/// `opacity_key`.
#[derive(Debug, Clone, PartialEq, Eq)]
pub struct RegEntry {
    pub id: u64,
    pub opacity_key: String,
    pub filter: CapFilter,
}

/// A requirement that the watcher looks after.
#[derive(Debug, Clone, PartialEq, Eq)]
pub struct LocalEntry {
    pub id: u64,
    pub opacity_key: String,
    pub filter: CapFilter,
    /// Whether the mark was written and not taken back since.
    pub opaque_written: bool,
}

/// Looks after the marks of all declared requirements.
pub struct OpacityWatcher {
    pub local: Vec<LocalEntry>,
}

/// Whether a value marks a node as shedding.
pub open spec fn is_mark(v: Option<Seq<u8>>) -> bool {
    v is Some && load_parts(v->0) is Some && (load_parts(v->0)->0).1
}

/// `a` and `b` differ at most under the prefix of the load marks.
pub open spec fn same_outside_marks(a: Table, b: Table) -> bool {
    forall|k: Seq<char>| !has_prefix(k, LOAD_PREFIX@) ==> same_entry(a, b, k)
}

/// `a` and `b` hold the same for `k`.
pub open spec fn same_entry(a: Table, b: Table, k: Seq<char>) -> bool {
    a.contains_key(k) == b.contains_key(k) && (a.contains_key(k) ==> a[k] == b[k])
}

/// Load marks have no influence on who provides what.
pub proof fn law_marks_do_not_provide(a: Table, b: Table, filter: FilterView, now_ms: u64)
    requires
        same_outside_marks(a, b),
    ensures
        satisfied(a, filter, now_ms) == satisfied(b, filter, now_ms),
{
    reveal_strlit("cap/");
    reveal_strlit("sys/load/");
    let f = provider_reading(filter, None, now_ms);
    assert forall|k: Seq<char>| has_prefix(k, "cap/"@) implies #[trigger] reading_at(a, k, f) == reading_at(b, k, f) by {
        assert(k.take(4)[0] == 'c');
        if has_prefix(k, LOAD_PREFIX@) {
            assert(k.take(LOAD_PREFIX@.len() as int)[0] == 's');
        }
        assert(same_entry(a, b, k));
    }
    if satisfied(a, filter, now_ms) {
        let k = choose|k: Seq<char>| has_prefix(k, "cap/"@) && (#[trigger] reading_at(a, k, f)) is Some;
        assert(reading_at(b, k, f) is Some);
    }
    if satisfied(b, filter, now_ms) {
        let k = choose|k: Seq<char>| has_prefix(k, "cap/"@) && (#[trigger] reading_at(b, k, f)) is Some;
        assert(reading_at(a, k, f) is Some);
    }
}

/// The clock can be read `n` times more.
pub open spec fn has_room(kv: KvHandle, now_ms: u64, n: int) -> bool {
    kv.clock + n < u64::MAX && packed(now_ms) + n < u64::MAX
}

/// The model of a [`LocalEntry`].
#[verifier::ext_equal]
pub struct LocalView {
    pub id: u64,
    pub key: Seq<char>,
    pub filter: FilterView,
    pub opaque_written: bool,
}

impl View for LocalEntry {
    type V = LocalView;

    open spec fn view(&self) -> LocalView {
        LocalView {
            id: self.id,
            key: self.opacity_key@,
            filter: self.filter@,
            opaque_written: self.opaque_written,
        }
    }
}

pub open spec fn local_views(v: Seq<LocalEntry>) -> Seq<LocalView> {
    v.map_values(|e: LocalEntry| e@)
}

/// The keys are load-mark keys.
pub open spec fn local_ok(v: Seq<LocalView>) -> bool {
    forall|i: int| 0 <= i < v.len() ==> has_prefix((#[trigger] v[i]).key, LOAD_PREFIX@)
}

/// No two requirements share a key.
pub open spec fn keys_distinct(v: Seq<LocalView>) -> bool {
    forall|i: int, j: int| 0 <= i < j < v.len() ==> (#[trigger] v[i]).key != (#[trigger] v[j]).key
}

/// Whether `v` holds an entry with this key.
pub open spec fn has_key(v: Seq<LocalView>, k: Seq<char>) -> bool {
    exists|i: int| 0 <= i < v.len() && (#[trigger] v[i]).key == k
}

/// Whether `v` holds, from `from` on, an entry with this key whose mark stands.
pub open spec fn marked_from(v: Seq<LocalView>, from: int, k: Seq<char>) -> bool {
    exists|i: int| from <= i < v.len() && (#[trigger] v[i]).opaque_written && v[i].key == k
}

/// A registered requirement as it is looked after from now on.
pub open spec fn taken_on(r: RegEntry, t: Table, now_ms: u64) -> LocalView {
    LocalView {
        id: r.id,
        key: r.opacity_key@,
        filter: r.filter@,
        opaque_written: !satisfied(t, r.filter@, now_ms),
    }
}

/// What is looked after once the requirements of `registry` have been taken on:
/// the first with a key that is not there yet is added.
pub open spec fn adopted(v: Seq<LocalView>, registry: Seq<RegEntry>, t: Table, now_ms: u64) -> Seq<LocalView>
    decreases registry.len(),
{
    if registry.len() == 0 {
        v
    } else {
        let front = adopted(v, registry.drop_last(), t, now_ms);
        let r = registry.last();
        if has_key(front, r.opacity_key@) {
            front
        } else {
            front.push(taken_on(r, t, now_ms))
        }
    }
}

/// What is looked after once the requirements have been gone through: those
/// that were not cancelled, and each mark stands where nobody meets its
/// requirement.
pub open spec fn settled(v: Seq<LocalView>, cancelled: Seq<u64>, t: Table, now_ms: u64) -> Seq<LocalView>
    decreases v.len(),
{
    if v.len() == 0 {
        Seq::empty()
    } else {
        let front = settled(v.drop_last(), cancelled, t, now_ms);
        let e = v.last();
        if cancelled.contains(e.id) {
            front
        } else {
            front.push(LocalView { opaque_written: !satisfied(t, e.filter, now_ms), ..e })
        }
    }
}

/// What a key reads as once the requirements have been gone through: a mark is
/// written where nobody meets a requirement, and taken back where somebody does
/// or where it was cancelled; everything else is left alone.
pub open spec fn settled_mark(
    v: Seq<LocalView>,
    cancelled: Seq<u64>,
    t: Table,
    now_ms: u64,
    k: Seq<char>,
) -> Option<Seq<u8>>
    decreases v.len(),
{
    if v.len() == 0 {
        live(t, k)
    } else {
        let e = v.last();
        let keep = !cancelled.contains(e.id) && !satisfied(t, e.filter, now_ms);
        if e.key == k && keep && !e.opaque_written {
            Some(load_bytes(FULL@, true, now_ms))
        } else if e.key == k && !keep && e.opaque_written {
            None
        } else {
            settled_mark(v.drop_last(), cancelled, t, now_ms, k)
        }
    }
}

/// The writes that going through the requirements takes: one for each that
/// nobody meets and that has no mark yet, and one deletion for each with a mark
/// that somebody meets or that was cancelled.
pub open spec fn settle_ops(v: Seq<LocalView>, cancelled: Seq<u64>, t: Table, now_ms: u64) -> Seq<WriteOp>
    decreases v.len(),
{
    if v.len() == 0 {
        Seq::empty()
    } else {
        let front = settle_ops(v.drop_last(), cancelled, t, now_ms);
        let e = v.last();
        let keep = !cancelled.contains(e.id) && !satisfied(t, e.filter, now_ms);
        if keep && !e.opaque_written {
            front.push((e.key, Some(load_bytes(FULL@, true, now_ms))))
        } else if !keep && e.opaque_written {
            front.push((e.key, None))
        } else {
            front
        }
    }
}

/// `data` under the key of each entry that has a mark.
pub open spec fn marked_ops(v: Seq<LocalView>, data: Option<Seq<u8>>) -> Seq<WriteOp>
    decreases v.len(),
{
    if v.len() == 0 {
        Seq::empty()
    } else if v.last().opaque_written {
        marked_ops(v.drop_last(), data).push((v.last().key, data))
    } else {
        marked_ops(v.drop_last(), data)
    }
}

/// `x` is what became of `e`.
pub open spec fn comes_from(x: LocalView, e: LocalView, cancelled: Seq<u64>, t: Table, now_ms: u64) -> bool {
    !cancelled.contains(e.id) && x == (LocalView { opaque_written: !satisfied(t, e.filter, now_ms), ..e })
}

proof fn lemma_settled(v: Seq<LocalView>, cancelled: Seq<u64>, t: Table, now_ms: u64)
    requires
        local_ok(v),
    ensures
        ({
            let s = settled(v, cancelled, t, now_ms);
            &&& forall|q: int|
                0 <= q < s.len() ==> exists|a: int|
                    0 <= a < v.len() && comes_from(#[trigger] s[q], #[trigger] v[a], cancelled, t, now_ms)
            &&& forall|q: int| 0 <= q < s.len() ==> has_prefix((#[trigger] s[q]).key, LOAD_PREFIX@)
        }),
    decreases v.len(),
{
    if v.len() > 0 {
        let w = v.drop_last();
        lemma_settled(w, cancelled, t, now_ms);
        let front = settled(w, cancelled, t, now_ms);
        let s = settled(v, cancelled, t, now_ms);
        let last = v.len() - 1;
        assert forall|q: int| 0 <= q < s.len() implies exists|a: int|
            0 <= a < v.len() && comes_from(#[trigger] s[q], #[trigger] v[a], cancelled, t, now_ms) by {
            if q < front.len() {
                assert(s[q] == front[q]);
                let a = choose|a: int|
                    0 <= a < w.len() && comes_from(front[q], #[trigger] w[a], cancelled, t, now_ms);
                assert(comes_from(s[q], v[a], cancelled, t, now_ms));
            } else {
                assert(comes_from(s[q], v[last], cancelled, t, now_ms));
            }
        }
        assert forall|q: int| 0 <= q < s.len() implies has_prefix((#[trigger] s[q]).key, LOAD_PREFIX@) by {
            let a = choose|a: int|
                0 <= a < v.len() && comes_from(s[q], #[trigger] v[a], cancelled, t, now_ms);
            assert(has_prefix(v[a].key, LOAD_PREFIX@));
        }
    }
}

proof fn lemma_settled_mark(v: Seq<LocalView>, cancelled: Seq<u64>, t: Table, now_ms: u64, a: int)
    requires
        keys_distinct(v),
        0 <= a < v.len(),
    ensures
        ({
            let e = v[a];
            let keep = !cancelled.contains(e.id) && !satisfied(t, e.filter, now_ms);
            settled_mark(v, cancelled, t, now_ms, e.key) == (if keep && !e.opaque_written {
                Some(load_bytes(FULL@, true, now_ms))
            } else if !keep && e.opaque_written {
                None
            } else {
                live(t, e.key)
            })
        }),
    decreases v.len(),
{
    let w = v.drop_last();
    let last = v.len() - 1;
    if a < last {
        assert(v[a].key != v[last].key);
        assert(w[a] == v[a]);
        lemma_settled_mark(w, cancelled, t, now_ms, a);
    } else {
        lemma_foreign_mark(w, cancelled, t, now_ms, v[last].key);
    }
}

proof fn lemma_foreign_mark(v: Seq<LocalView>, cancelled: Seq<u64>, t: Table, now_ms: u64, k: Seq<char>)
    requires
        !has_key(v, k),
    ensures
        settled_mark(v, cancelled, t, now_ms, k) == live(t, k),
    decreases v.len(),
{
    if v.len() > 0 {
        let w = v.drop_last();
        assert(v[v.len() - 1].key != k);
        assert forall|i: int| 0 <= i < w.len() implies (#[trigger] w[i]).key != k by {
            assert(v[i].key != k);
        }
        lemma_foreign_mark(w, cancelled, t, now_ms, k);
    }
}

/// Once the requirements have been gone through, the mark of each stands exactly
/// while nobody meets it, if nobody else writes or deletes the mark and no other
/// requirement shares its key.
pub proof fn law_mark_stands_while_unmet(
    v: Seq<LocalView>,
    cancelled: Seq<u64>,
    t: Table,
    now_ms: u64,
    a: int,
)
    requires
        keys_distinct(v),
        0 <= a < v.len(),
        !cancelled.contains(v[a].id),
        v[a].opaque_written == (live(t, v[a].key) is Some),
    ensures
        settled_mark(v, cancelled, t, now_ms, v[a].key) is Some <==> !satisfied(t, v[a].filter, now_ms),
{
    lemma_settled_mark(v, cancelled, t, now_ms, a);
}

/// The mark of a requirement that was cancelled does not stay, if no other
/// requirement shares its key.
pub proof fn law_cancelled_mark_goes(
    v: Seq<LocalView>,
    cancelled: Seq<u64>,
    t: Table,
    now_ms: u64,
    a: int,
)
    requires
        keys_distinct(v),
        0 <= a < v.len(),
        cancelled.contains(v[a].id),
        v[a].opaque_written,
    ensures
        settled_mark(v, cancelled, t, now_ms, v[a].key) is None,
{
    lemma_settled_mark(v, cancelled, t, now_ms, a);
}

/// Marks the node as shedding under `key`.
pub fn write_opacity_key(kv: &mut KvHandle, key: &str, now_ms: u64)
    requires
        old(kv).wf(),
        old(kv).clock < u64::MAX,
    ensures
        wrote(
            *old(kv),
            *final(kv),
            key@,
            Some(load_bytes(FULL@, true, now_ms)),
            now_ms,
            outcome_for(*old(kv), key@),
        ),
        is_mark(live(final(kv).table(), key@)),
{
    let mark = encode_load_state(&LoadState { fill: FULL, is_opaque: true, written_at_ms: now_ms });
    let _ = kv.set(key, mark, now_ms);
}

/// Takes the mark under `key` back.
pub fn clear_opacity_key(kv: &mut KvHandle, key: &str, now_ms: u64)
    requires
        old(kv).wf(),
        old(kv).clock < u64::MAX,
    ensures
        wrote(*old(kv), *final(kv), key@, None, now_ms, outcome_for(*old(kv), key@)),
{
    let _ = kv.delete(key, now_ms);
}

pub proof fn lemma_write_keeps(pre: KvHandle, post: KvHandle, t0: Table, key: Seq<char>, data: Option<Seq<u8>>, now_ms: u64, n: int)
    requires
        wrote(pre, post, key, data, now_ms, outcome_for(pre, key)),
        has_prefix(key, LOAD_PREFIX@),
        same_outside_marks(t0, pre.table()),
        has_room(pre, now_ms, n),
        n >= 1,
    ensures
        same_outside_marks(t0, post.table()),
        has_room(post, now_ms, n - 1),
        live(post.table(), key) == data,
        forall|k: Seq<char>| k != key ==> #[trigger] live(post.table(), k) == live(pre.table(), k),
{
    assert forall|k: Seq<char>| !has_prefix(k, LOAD_PREFIX@) implies same_entry(t0, post.table(), k) by {
        assert(k != key);
        assert(same_entry(t0, pre.table(), k));
    }
}

fn copy_filter(f: &CapFilter) -> (r: CapFilter)
    ensures
        r@ == f@,
{
    CapFilter { namespace: f.namespace.clone(), name: f.name.clone(), max_age_ms: f.max_age_ms }
}

impl OpacityWatcher {
    /// What is looked after.
    pub open spec fn entries(&self) -> Seq<LocalView> {
        local_views(self.local@)
    }

    /// Nothing to look after.
    pub fn new() -> (w: OpacityWatcher)
        ensures
            w.entries() == Seq::<LocalView>::empty(),
    {
        let w = OpacityWatcher { local: Vec::new() };
        assert(w.entries() =~= Seq::<LocalView>::empty());
        w
    }

    fn looks_after(&self, key: &str) -> (r: bool)
        ensures
            r == has_key(self.entries(), key@),
    {
        let mut i: usize = 0;
        while i < self.local.len()
            invariant
                i <= self.local.len(),
                forall|k: int| 0 <= k < i ==> (#[trigger] self.local@[k]).opacity_key@ != key@,
            decreases self.local.len() - i,
        {
            if same_text(self.local[i].opacity_key.as_str(), key) {
                assert(self.entries()[i as int].key == key@);
                return true;
            }
            i += 1;
        }
        assert forall|k: int| 0 <= k < self.entries().len() implies (#[trigger] self.entries()[k]).key != key@ by {
            assert(self.local@[k].opacity_key@ != key@);
        }
        false
    }

    /// Takes on one requirement; the node is marked if nobody meets it.
    fn take_on(&mut self, kv: &mut KvHandle, reg: &RegEntry, now_ms: u64)
        requires
            old(kv).wf(),
            old(kv).clock < u64::MAX,
        ensures
            final(self).entries() == old(self).entries().push(taken_on(*reg, old(kv).table(), now_ms)),
            satisfied(old(kv).table(), reg.filter@, now_ms) ==> *final(kv) == *old(kv),
            !satisfied(old(kv).table(), reg.filter@, now_ms) ==> wrote(
                *old(kv),
                *final(kv),
                reg.opacity_key@,
                Some(load_bytes(FULL@, true, now_ms)),
                now_ms,
                outcome_for(*old(kv), reg.opacity_key@),
            ),
            final(kv).wf(),
    {
        let ghost before = self.entries();
        let ok = kv.is_satisfied(&reg.filter, now_ms);
        if !ok {
            write_opacity_key(kv, reg.opacity_key.as_str(), now_ms);
        }
        let e = LocalEntry {
            id: reg.id,
            opacity_key: reg.opacity_key.clone(),
            filter: copy_filter(&reg.filter),
            opaque_written: !ok,
        };
        let ghost ev = e@;
        self.local.push(e);
        assert(self.entries() =~= before.push(ev));
    }

    /// Takes on every registered requirement, at the start; the node is marked
    /// for those that nobody meets.
    pub fn start(&mut self, kv: &mut KvHandle, registry: &Vec<RegEntry>, now_ms: u64)
        requires
            old(kv).wf(),
            local_ok(old(self).entries()),
            forall|i: int| 0 <= i < registry@.len() ==> has_prefix((#[trigger] registry@[i]).opacity_key@, LOAD_PREFIX@),
            has_room(*old(kv), now_ms, registry@.len() as int),
        ensures
            final(kv).wf(),
            final(kv).same_node(*old(kv)),
            final(self).entries() == old(self).entries() + registry@.map_values(
                |r: RegEntry| taken_on(r, old(kv).table(), now_ms),
            ),
            local_ok(final(self).entries()),
            wrote_all(
                *old(kv),
                *final(kv),
                marked_ops(
                    registry@.map_values(|r: RegEntry| taken_on(r, old(kv).table(), now_ms)),
                    Some(load_bytes(FULL@, true, now_ms)),
                ),
                now_ms,
            ),
            same_outside_marks(old(kv).table(), final(kv).table()),
            has_room(*final(kv), now_ms, 0),
    {
        let ghost t0 = kv.table();
        let ghost was = self.entries();
        let ghost total = registry@.len() as int;
        let ghost mark = Some(load_bytes(FULL@, true, now_ms));
        let ghost all = registry@.map_values(|r: RegEntry| taken_on(r, t0, now_ms));
        let mut j: usize = 0;
        assert(all.take(0) =~= Seq::empty());
        assert(was + all.take(0) =~= was);
        while j < registry.len()
            invariant
                j <= registry.len(),
                total == registry@.len() == all.len(),
                t0 == old(kv).table(),
                all == registry@.map_values(|r: RegEntry| taken_on(r, t0, now_ms)),
                mark == Some(load_bytes(FULL@, true, now_ms)),
                kv.wf(),
                kv.same_node(*old(kv)),
                self.entries() == was + all.take(j as int),
                local_ok(self.entries()),
                wrote_all(*old(kv), *kv, marked_ops(all.take(j as int), mark), now_ms),
                same_outside_marks(t0, kv.table()),
                has_room(*kv, now_ms, total - j),
                forall|i: int| 0 <= i < registry@.len() ==> has_prefix((#[trigger] registry@[i]).opacity_key@, LOAD_PREFIX@),
            decreases registry.len() - j,
        {
            let ghost pre = *kv;
            let ghost x = all[j as int];
            proof {
                law_marks_do_not_provide(t0, kv.table(), registry@[j as int].filter@, now_ms);
                assert(x == taken_on(registry@[j as int], t0, now_ms));
                assert(all.take(j + 1).drop_last() =~= all.take(j as int));
                assert(all.take(j + 1).last() == x);
                assert(has_prefix(registry@[j as int].opacity_key@, LOAD_PREFIX@));
            }
            self.take_on(kv, &registry[j], now_ms);
            proof {
                assert(self.entries() =~= was + all.take(j + 1));
                if x.opaque_written {
                    lemma_write_keeps(pre, *kv, t0, x.key, mark, now_ms, total - j);
                    lemma_wrote_more(*old(kv), pre, *kv, marked_ops(all.take(j as int), mark), (x.key, mark), now_ms);
                }
            }
            j += 1;
        }
        assert(all.take(j as int) =~= all);
    }

    /// Takes on the registered requirements whose key is not looked after yet;
    /// the node is marked for those that nobody meets.
    pub fn adopt(&mut self, kv: &mut KvHandle, registry: &Vec<RegEntry>, now_ms: u64)
        requires
            old(kv).wf(),
            local_ok(old(self).entries()),
            forall|i: int| 0 <= i < registry@.len() ==> has_prefix((#[trigger] registry@[i]).opacity_key@, LOAD_PREFIX@),
            has_room(*old(kv), now_ms, registry@.len() as int),
        ensures
            final(kv).wf(),
            final(kv).same_node(*old(kv)),
            final(self).entries() == adopted(old(self).entries(), registry@, old(kv).table(), now_ms),
            local_ok(final(self).entries()),
            wrote_all(
                *old(kv),
                *final(kv),
                marked_ops(
                    final(self).entries().skip(old(self).entries().len() as int),
                    Some(load_bytes(FULL@, true, now_ms)),
                ),
                now_ms,
            ),
            same_outside_marks(old(kv).table(), final(kv).table()),
            forall|k: Seq<char>| #[trigger]
                live(final(kv).table(), k) == (if marked_from(
                    final(self).entries(),
                    old(self).entries().len() as int,
                    k,
                ) {
                    Some(load_bytes(FULL@, true, now_ms))
                } else {
                    live(old(kv).table(), k)
                }),
            has_room(*final(kv), now_ms, 0),
            final(kv).clock <= old(kv).clock + registry@.len() || final(kv).clock <= packed(now_ms)
                + registry@.len(),
    {
        let ghost t0 = kv.table();
        let ghost was = self.entries();
        let ghost n = was.len() as int;
        let ghost total = registry@.len() as int;
        let ghost mark = Some(load_bytes(FULL@, true, now_ms));
        let mut j: usize = 0;
        assert(registry@.take(0) =~= Seq::empty());
        assert(was.skip(n) =~= Seq::empty());
        while j < registry.len()
            invariant
                j <= registry.len(),
                total == registry@.len(),
                t0 == old(kv).table(),
                was == old(self).entries(),
                n == was.len() <= self.entries().len(),
                kv.wf(),
                kv.same_node(*old(kv)),
                self.entries() == adopted(was, registry@.take(j as int), t0, now_ms),
                local_ok(self.entries()),
                mark == Some(load_bytes(FULL@, true, now_ms)),
                wrote_all(*old(kv), *kv, marked_ops(self.entries().skip(n), mark), now_ms),
                same_outside_marks(t0, kv.table()),
                has_room(*kv, now_ms, total - j),
                kv.clock <= old(kv).clock + j || kv.clock <= packed(now_ms) + j,
                forall|i: int| 0 <= i < registry@.len() ==> has_prefix((#[trigger] registry@[i]).opacity_key@, LOAD_PREFIX@),
                forall|k: Seq<char>| #[trigger]
                    live(kv.table(), k) == (if marked_from(self.entries(), n, k) {
                        Some(load_bytes(FULL@, true, now_ms))
                    } else {
                        live(t0, k)
                    }),
            decreases registry.len() - j,
        {
            let ghost before = self.entries();
            let ghost key = registry@[j as int].opacity_key@;
            let ghost pre = *kv;
            proof {
                assert(registry@.take(j + 1).drop_last() =~= registry@.take(j as int));
                assert(registry@.take(j + 1).last() == registry@[j as int]);
            }
            if !self.looks_after(registry[j].opacity_key.as_str()) {
                proof {
                    law_marks_do_not_provide(t0, kv.table(), registry@[j as int].filter@, now_ms);
                }
                self.take_on(kv, &registry[j], now_ms);
                let ghost ev = taken_on(registry@[j as int], t0, now_ms);
                let ghost ok = !ev.opaque_written;
                proof {
                    assert(has_prefix(key, LOAD_PREFIX@));
                    if !ok {
                        lemma_write_keeps(pre, *kv, t0, key, mark, now_ms, total - j);
                    }
                }
                proof {
                    let now_has = self.entries();
                    assert(now_has =~= before.push(ev));
                    assert(now_has.skip(n).drop_last() =~= before.skip(n));
                    assert(now_has.skip(n).last() == ev);
                    if !ok {
                        lemma_wrote_more(
                            *old(kv),
                            pre,
                            *kv,
                            marked_ops(before.skip(n), mark),
                            (key, mark),
                            now_ms,
                        );
                    }
                    assert forall|k: Seq<char>| #[trigger] live(kv.table(), k) == (if marked_from(now_has, n, k) {
                        Some(load_bytes(FULL@, true, now_ms))
                    } else {
                        live(t0, k)
                    }) by {
                        assert(live(pre.table(), k) == (if marked_from(before, n, k) {
                            Some(load_bytes(FULL@, true, now_ms))
                        } else {
                            live(t0, k)
                        }));
                        if marked_from(before, n, k) {
                            let i = choose|i: int|
                                n <= i < before.len() && (#[trigger] before[i]).opaque_written && before[i].key == k;
                            assert(now_has[i].opaque_written && now_has[i].key == k);
                        }
                        if marked_from(now_has, n, k) && !marked_from(before, n, k) {
                            let i = choose|i: int|
                                n <= i < now_has.len() && (#[trigger] now_has[i]).opaque_written && now_has[i].key
                                    == k;
                            assert(i == before.len());
                        }
                        if k == key && !ok {
                            assert(now_has[before.len() as int].key == key);
                        }
                    }
                }
            }
            j += 1;
        }
        assert(registry@.take(j as int) =~= registry@);
    }

    /// Goes through the requirements: one that was cancelled is dropped and
    /// its mark taken back; for the others the mark is written or taken back
    /// so that it stands exactly while nobody meets the requirement.
    pub fn settle(&mut self, kv: &mut KvHandle, cancelled: &Vec<u64>, now_ms: u64)
        requires
            old(kv).wf(),
            local_ok(old(self).entries()),
            has_room(*old(kv), now_ms, old(self).entries().len() as int),
        ensures
            final(kv).wf(),
            final(kv).same_node(*old(kv)),
            wrote_all(
                *old(kv),
                *final(kv),
                settle_ops(old(self).entries(), cancelled@, old(kv).table(), now_ms),
                now_ms,
            ),
            final(self).entries() == settled(old(self).entries(), cancelled@, old(kv).table(), now_ms),
            local_ok(final(self).entries()),
            same_outside_marks(old(kv).table(), final(kv).table()),
            forall|k: Seq<char>| #[trigger]
                live(final(kv).table(), k) == settled_mark(
                    old(self).entries(),
                    cancelled@,
                    old(kv).table(),
                    now_ms,
                    k,
                ),
    {
        let ghost t0 = kv.table();
        let ghost all = self.entries();
        let ghost n = all.len() as int;
        let mut kept: Vec<LocalEntry> = Vec::new();
        let mut i: usize = 0;
        proof {
            assert(all.take(0) =~= Seq::empty());
            assert(local_views(kept@) =~= Seq::empty());
        }
        while i < self.local.len()
            invariant
                i <= self.local@.len() == n,
                t0 == old(kv).table(),
                *self == *old(self),
                all == self.entries(),
                n == all.len(),
                kv.wf(),
                kv.same_node(*old(kv)),
                local_ok(all),
                same_outside_marks(t0, kv.table()),
                has_room(*kv, now_ms, n - i),
                wrote_all(*old(kv), *kv, settle_ops(all.take(i as int), cancelled@, t0, now_ms), now_ms),
                local_views(kept@) == settled(all.take(i as int), cancelled@, t0, now_ms),
                forall|k: Seq<char>| #[trigger]
                    live(kv.table(), k) == settled_mark(all.take(i as int), cancelled@, t0, now_ms, k),
            decreases self.local.len() - i,
        {
            let ghost pre = *kv;
            let ghost e = all[i as int];
            let ghost gone = cancelled@.contains(e.id);
            let ghost was_kept = kept@;
            proof {
                assert(e == self.local@[i as int]@);
                assert(all.take(i + 1).drop_last() =~= all.take(i as int));
                assert(all.take(i + 1).last() == e);
                assert(has_prefix(e.key, LOAD_PREFIX@));
            }
            let written = self.local[i].opaque_written;
            let drop_it = contains_id(cancelled, self.local[i].id);
            let ok = kv.is_satisfied(&self.local[i].filter, now_ms);
            proof {
                law_marks_do_not_provide(t0, kv.table(), e.filter, now_ms);
            }
            if !drop_it && !ok && !written {
                write_opacity_key(kv, self.local[i].opacity_key.as_str(), now_ms);
                proof {
                    lemma_write_keeps(
                        pre,
                        *kv,
                        t0,
                        e.key,
                        Some(load_bytes(FULL@, true, now_ms)),
                        now_ms,
                        n - i,
                    );
                    lemma_wrote_more(
                        *old(kv),
                        pre,
                        *kv,
                        settle_ops(all.take(i as int), cancelled@, t0, now_ms),
                        (e.key, Some(load_bytes(FULL@, true, now_ms))),
                        now_ms,
                    );
                }
            } else if written && (drop_it || ok) {
                clear_opacity_key(kv, self.local[i].opacity_key.as_str(), now_ms);
                proof {
                    lemma_write_keeps(pre, *kv, t0, e.key, None, now_ms, n - i);
                    lemma_wrote_more(
                        *old(kv),
                        pre,
                        *kv,
                        settle_ops(all.take(i as int), cancelled@, t0, now_ms),
                        (e.key, None),
                        now_ms,
                    );
                }
            }
            if !drop_it {
                let next = LocalEntry {
                    id: self.local[i].id,
                    opacity_key: self.local[i].opacity_key.clone(),
                    filter: copy_filter(&self.local[i].filter),
                    opaque_written: !ok,
                };
                let ghost nv = next@;
                kept.push(next);
                assert(local_views(kept@) =~= local_views(was_kept).push(nv));
            }
            i += 1;
        }
        assert(all.take(i as int) =~= all);
        self.local = kept;
        proof {
            lemma_settled(all, cancelled@, t0, now_ms);
        }
    }

    /// Takes all marks back, for a node that shuts down.
    pub fn clear_all(&mut self, kv: &mut KvHandle, now_ms: u64)
        requires
            old(kv).wf(),
            local_ok(old(self).entries()),
            has_room(*old(kv), now_ms, old(self).entries().len() as int),
        ensures
            final(kv).wf(),
            final(kv).same_node(*old(kv)),
            wrote_all(*old(kv), *final(kv), marked_ops(old(self).entries(), None), now_ms),
            final(self).entries().len() == 0,
            same_outside_marks(old(kv).table(), final(kv).table()),
            forall|k: Seq<char>| #[trigger]
                live(final(kv).table(), k) == (if marked_from(old(self).entries(), 0, k) {
                    None
                } else {
                    live(old(kv).table(), k)
                }),
    {
        let ghost t0 = kv.table();
        let ghost all = self.entries();
        let ghost n = all.len() as int;
        let mut i: usize = 0;
        assert(all.take(0) =~= Seq::empty());
        while i < self.local.len()
            invariant
                i <= self.local@.len() == n,
                n == all.len(),
                t0 == old(kv).table(),
                *self == *old(self),
                all == self.entries(),
                local_ok(all),
                wrote_all(*old(kv), *kv, marked_ops(all.take(i as int), None), now_ms),
                kv.wf(),
                kv.same_node(*old(kv)),
                same_outside_marks(t0, kv.table()),
                has_room(*kv, now_ms, n - i),
                forall|k: Seq<char>| #[trigger]
                    live(kv.table(), k) == (if marked_from(all.take(i as int), 0, k) {
                        None
                    } else {
                        live(t0, k)
                    }),
            decreases self.local.len() - i,
        {
            let ghost pre = *kv;
            let ghost e = all[i as int];
            assert(e == self.local@[i as int]@);
            assert(has_prefix(e.key, LOAD_PREFIX@));
            assert(all.take(i + 1).drop_last() =~= all.take(i as int));
            assert(all.take(i + 1).last() == e);
            if self.local[i].opaque_written {
                clear_opacity_key(kv, self.local[i].opacity_key.as_str(), now_ms);
                proof {
                    lemma_write_keeps(pre, *kv, t0, e.key, None, now_ms, n - i);
                    lemma_wrote_more(
                        *old(kv),
                        pre,
                        *kv,
                        marked_ops(all.take(i as int), None),
                        (e.key, None),
                        now_ms,
                    );
                }
            }
            proof {
                let a = all.take(i as int);
                let b = all.take(i + 1);
                assert forall|k: Seq<char>| #[trigger] live(kv.table(), k) == (if marked_from(b, 0, k) {
                    None
                } else {
                    live(t0, k)
                }) by {
                    assert(live(pre.table(), k) == (if marked_from(a, 0, k) {
                        None
                    } else {
                        live(t0, k)
                    }));
                    if marked_from(a, 0, k) {
                        let q = choose|q: int|
                            0 <= q < a.len() && (#[trigger] a[q]).opaque_written && a[q].key == k;
                        assert(b[q].opaque_written && b[q].key == k);
                    }
                    if marked_from(b, 0, k) && !marked_from(a, 0, k) {
                        let q = choose|q: int|
                            0 <= q < b.len() && (#[trigger] b[q]).opaque_written && b[q].key == k;
                        assert(q == i) by {
                            if q < i {
                                assert(a[q].opaque_written && a[q].key == k);
                            }
                        }
                    }
                    if k == e.key && e.opaque_written {
                        assert(b[i as int].opaque_written && b[i as int].key == k);
                    }
                }
            }
            i += 1;
        }
        assert(all.take(i as int) =~= all);
        self.local = Vec::new();
    }
}

fn contains_id(v: &Vec<u64>, id: u64) -> (r: bool)
    ensures
        r == v@.contains(id),
{
    let mut i: usize = 0;
    while i < v.len()
        invariant
            i <= v.len(),
            forall|k: int| 0 <= k < i ==> v@[k] != id,
        decreases v.len() - i,
    {
        if v[i] == id {
            return true;
        }
        i += 1;
    }
    false
}

/// A node says that it sheds exactly if it did not and is over its limit, with the
/// gate's leave or because it is full; and that it no longer does exactly if it did
/// and is below.
pub proof fn law_governor_goes_by_the_fill(is_opaque: bool, r: FillReading, gate_ok: bool)
    ensures
        governor_step(is_opaque, r, gate_ok) == OpacityStep::BecomeOpaque <==> !is_opaque && r.over && (gate_ok
            || r.saturated),
        governor_step(is_opaque, r, gate_ok) == OpacityStep::BecomeTransparent <==> is_opaque && r.below,
{
}

/// The watcher looks after what it looked after and after every requirement that is
/// declared, under one key once; what is new is marked exactly if nobody meets it.
pub proof fn law_every_declared_requirement_is_watched(
    v: Seq<LocalView>,
    registry: Seq<RegEntry>,
    t: Table,
    now_ms: u64,
    k: Seq<char>,
)
    ensures
        ({
            let after = adopted(v, registry, t, now_ms);
            &&& has_key(after, k) <==> has_key(v, k) || exists|i: int|
                0 <= i < registry.len() && (#[trigger] registry[i]).opacity_key@ == k
            &&& v.len() <= after.len() && after.take(v.len() as int) == v
            &&& forall|j: int|
                v.len() <= j < after.len() ==> ((#[trigger] after[j]).opaque_written <==> !satisfied(
                    t,
                    after[j].filter,
                    now_ms,
                ))
        }),
    decreases registry.len(),
{
    let after = adopted(v, registry, t, now_ms);
    if registry.len() == 0 {
        assert(after.take(v.len() as int) =~= v);
    } else {
        let rest = registry.drop_last();
        let r = registry.last();
        law_every_declared_requirement_is_watched(v, rest, t, now_ms, k);
        let front = adopted(v, rest, t, now_ms);
        assert(registry[registry.len() - 1] == r);
        assert forall|i: int| 0 <= i < rest.len() implies (#[trigger] rest[i]) == registry[i] by {}
        if has_key(front, r.opacity_key@) {
            if r.opacity_key@ == k {
                assert(has_key(after, k));
            }
        } else {
            assert(after == front.push(taken_on(r, t, now_ms)));
            assert(after.take(v.len() as int) =~= front.take(v.len() as int));
            if has_key(front, k) {
                let i = choose|i: int| 0 <= i < front.len() && (#[trigger] front[i]).key == k;
                assert(after[i].key == k);
            }
            if has_key(after, k) {
                let i = choose|i: int| 0 <= i < after.len() && (#[trigger] after[i]).key == k;
                if i < front.len() {
                    assert(front[i].key == k);
                } else {
                    assert(registry[registry.len() - 1].opacity_key@ == k);
                }
            }
            if r.opacity_key@ == k {
                assert(after[front.len() as int].key == k);
            }
            assert forall|j: int| v.len() <= j < after.len() implies ((#[trigger] after[j]).opaque_written <==> !satisfied(
                t,
                after[j].filter,
                now_ms,
            )) by {
                if j < front.len() {
                    assert(after[j] == front[j]);
                }
            }
        }
        if exists|i: int| 0 <= i < registry.len() && (#[trigger] registry[i]).opacity_key@ == k {
            let i = choose|i: int| 0 <= i < registry.len() && (#[trigger] registry[i]).opacity_key@ == k;
            if i < rest.len() {
                assert(rest[i].opacity_key@ == k);
            }
        }
    }
}

/// What the watcher writes for `e`: a mark where nobody meets it and none stands, the
/// end of the mark where somebody does or it was cancelled.
pub open spec fn written_for(op: WriteOp, e: LocalView, cancelled: Seq<u64>, t: Table, now_ms: u64) -> bool {
    op.0 == e.key && if e.opaque_written {
        op.1 is None && (cancelled.contains(e.id) || satisfied(t, e.filter, now_ms))
    } else {
        op.1 == Some(load_bytes(FULL@, true, now_ms)) && !cancelled.contains(e.id) && !satisfied(
            t,
            e.filter,
            now_ms,
        )
    }
}

/// The watcher writes what a requirement calls for, and nothing else.
pub proof fn law_watcher_writes_what_changed(
    v: Seq<LocalView>,
    cancelled: Seq<u64>,
    t: Table,
    now_ms: u64,
    op: WriteOp,
)
    ensures
        settle_ops(v, cancelled, t, now_ms).contains(op) <==> exists|i: int|
            0 <= i < v.len() && written_for(op, #[trigger] v[i], cancelled, t, now_ms),
    decreases v.len(),
{
    let ops = settle_ops(v, cancelled, t, now_ms);
    if v.len() > 0 {
        let rest = v.drop_last();
        let e = v.last();
        law_watcher_writes_what_changed(rest, cancelled, t, now_ms, op);
        let front = settle_ops(rest, cancelled, t, now_ms);
        assert(v[v.len() - 1] == e);
        if front.contains(op) {
            let i = choose|i: int| 0 <= i < front.len() && front[i] == op;
            assert(ops[i] == op);
            let a = choose|a: int| 0 <= a < rest.len() && written_for(op, #[trigger] rest[a], cancelled, t, now_ms);
            assert(written_for(op, v[a], cancelled, t, now_ms));
        }
        if ops.contains(op) && !front.contains(op) {
            let i = choose|i: int| 0 <= i < ops.len() && ops[i] == op;
            if i < front.len() {
                assert(front[i] == op);
            }
            assert(written_for(op, v[v.len() - 1], cancelled, t, now_ms));
        }
        if exists|i: int| 0 <= i < v.len() && written_for(op, #[trigger] v[i], cancelled, t, now_ms) {
            let i = choose|i: int| 0 <= i < v.len() && written_for(op, #[trigger] v[i], cancelled, t, now_ms);
            if i < rest.len() {
                assert(written_for(op, rest[i], cancelled, t, now_ms));
            } else {
                assert(ops[front.len() as int] == op);
            }
        }
    }
}

/// A mark that is written says that the node is full, and from when it is.
pub proof fn law_mark_says_full()
    ensures
        FULL@ == seq![0u8, 0u8, 0x80u8, 0x3fu8],
{
    assert(FULL@ =~= seq![0u8, 0u8, 0x80u8, 0x3fu8]);
}

/// A value is a standing mark exactly if it can be read as a load that says that the
/// node sheds.
pub proof fn law_mark_says_that_the_node_sheds(bytes: Seq<u8>)
    ensures
        !is_mark(None),
        load_parts(bytes) is None ==> !is_mark(Some(bytes)),
        load_parts(bytes) is Some ==> (is_mark(Some(bytes)) <==> (load_parts(bytes)->0).1),
{
}

/// All marks that stand are written anew, or taken back, and no others.
pub proof fn law_standing_marks_are_written(v: Seq<LocalView>, data: Option<Seq<u8>>, op: WriteOp)
    ensures
        marked_ops(v, data).contains(op) <==> op.1 == data && exists|i: int|
            0 <= i < v.len() && (#[trigger] v[i]).opaque_written && v[i].key == op.0,
    decreases v.len(),
{
    let ops = marked_ops(v, data);
    if v.len() > 0 {
        let rest = v.drop_last();
        law_standing_marks_are_written(rest, data, op);
        let front = marked_ops(rest, data);
        assert(v[v.len() - 1] == v.last());
        if front.contains(op) {
            let i = choose|i: int| 0 <= i < front.len() && front[i] == op;
            assert(ops[i] == op);
            let a = choose|a: int| 0 <= a < rest.len() && (#[trigger] rest[a]).opaque_written && rest[a].key == op.0;
            assert(v[a] == rest[a]);
        }
        if ops.contains(op) && !front.contains(op) {
            let i = choose|i: int| 0 <= i < ops.len() && ops[i] == op;
            if i < front.len() {
                assert(front[i] == op);
            }
        }
        if op.1 == data && exists|i: int| 0 <= i < v.len() && (#[trigger] v[i]).opaque_written && v[i].key == op.0 {
            let i = choose|i: int| 0 <= i < v.len() && (#[trigger] v[i]).opaque_written && v[i].key == op.0;
            if i < rest.len() {
                assert(rest[i] == v[i]);
            } else {
                assert(ops[front.len() as int] == op);
            }
        }
    }
}

/// What is looked after from now on is what was, without what was cancelled, and each
/// marked exactly if nobody meets it.
pub proof fn law_cancelled_requirements_are_dropped(
    v: Seq<LocalView>,
    cancelled: Seq<u64>,
    t: Table,
    now_ms: u64,
    x: LocalView,
)
    ensures
        settled(v, cancelled, t, now_ms).contains(x) <==> exists|i: int|
            0 <= i < v.len() && (#[trigger] v[i]).id == x.id && v[i].key == x.key && v[i].filter == x.filter
                && !cancelled.contains(x.id) && x.opaque_written == !satisfied(t, x.filter, now_ms),
    decreases v.len(),
{
    let after = settled(v, cancelled, t, now_ms);
    if v.len() > 0 {
        let rest = v.drop_last();
        let e = v.last();
        law_cancelled_requirements_are_dropped(rest, cancelled, t, now_ms, x);
        let front = settled(rest, cancelled, t, now_ms);
        assert(v[v.len() - 1] == e);
        if front.contains(x) {
            let i = choose|i: int| 0 <= i < front.len() && front[i] == x;
            assert(after[i] == x);
            let a = choose|a: int|
                0 <= a < rest.len() && (#[trigger] rest[a]).id == x.id && rest[a].key == x.key && rest[a].filter
                    == x.filter && !cancelled.contains(x.id) && x.opaque_written == !satisfied(t, x.filter, now_ms);
            assert(v[a] == rest[a]);
        }
        if after.contains(x) && !front.contains(x) {
            let i = choose|i: int| 0 <= i < after.len() && after[i] == x;
            if i < front.len() {
                assert(front[i] == x);
            }
        }
        if exists|i: int|
            0 <= i < v.len() && (#[trigger] v[i]).id == x.id && v[i].key == x.key && v[i].filter == x.filter
                && !cancelled.contains(x.id) && x.opaque_written == !satisfied(t, x.filter, now_ms) {
            let i = choose|i: int|
                0 <= i < v.len() && (#[trigger] v[i]).id == x.id && v[i].key == x.key && v[i].filter == x.filter
                    && !cancelled.contains(x.id) && x.opaque_written == !satisfied(t, x.filter, now_ms);
            if i < rest.len() {
                assert(rest[i] == v[i]);
            } else {
                assert(after[front.len() as int] == x);
            }
        }
    }
}

} // verus!
